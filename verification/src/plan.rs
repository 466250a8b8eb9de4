use crate::rule::{
    spec_bound, spec_operand, spec_operand_known, spec_plan_valid, spec_step_views, BuildQuery,
    FirstStepView, LastStepView, Plan, PlanFirstStep, PlanLastStep, PlanStep, PlanView, Side,
    StepView, Var,
};
use crate::type_key::{Erased, TypeKey};
use crate::val::{Val, ValView};
use vstd::prelude::*;
use vstd::string::StringExecFns;

verus! {

/// What a term is: the name of a variable, or a literal atom.
pub enum TermView {
    Var(Seq<char>),
    Val(ValView),
}

/// One side of a pattern: a variable, by its name, or a literal atom.
#[derive(Clone)]
pub enum Term {
    Var(String),
    Val(Val<Erased>),
}

impl View for Term {
    type V = TermView;

    open spec fn view(&self) -> TermView {
        match self {
            Term::Var(name) => TermView::Var(name@),
            Term::Val(v) => TermView::Val(v@),
        }
    }
}

/// What a pattern is: a relation, by key and name, and its two terms.
pub struct PatternView {
    pub fact_key: u64,
    pub fact_name: Seq<char>,
    pub left: TermView,
    pub right: TermView,
}

/// A relation applied to two terms: the head of a rule, or one of the
/// patterns of its body.
#[derive(Clone)]
pub struct Pattern {
    pub fact_key: TypeKey,
    pub fact_name: String,
    pub left: Term,
    pub right: Term,
}

impl View for Pattern {
    type V = PatternView;

    open spec fn view(&self) -> PatternView {
        PatternView {
            fact_key: self.fact_key@,
            fact_name: self.fact_name@,
            left: self.left@,
            right: self.right@,
        }
    }
}

/// The views of a sequence of patterns, one for one.
pub open spec fn spec_pattern_views(patterns: Seq<Pattern>) -> Seq<PatternView> {
    patterns.map_values(|pattern: Pattern| pattern@)
}

impl Pattern {
    /// The relation `F` applied to `left` and `right`.
    pub fn new<F: BuildQuery>(left: Term, right: Term) -> (pattern: Self)
        ensures
            pattern@ == (PatternView {
                fact_key: F::KEY,
                fact_name: F::NAME@,
                left: left@,
                right: right@,
            }),
    {
        Pattern {
            fact_key: TypeKey::of::<F>(),
            fact_name: String::from_str(F::NAME),
            left,
            right,
        }
    }
}

/// The first place at or behind `from` where `name` stands in `names`, or
/// the length of `names` if it stands nowhere there.
pub open spec fn spec_find(names: Seq<Seq<char>>, name: Seq<char>, from: int) -> int
    decreases names.len() - from,
{
    if from < 0 || from >= names.len() {
        names.len() as int
    } else if names[from] == name {
        from
    } else {
        spec_find(names, name, from + 1)
    }
}

/// The slot of the variable `name` among `names`: the first place where it
/// stands, or the length of `names` if it is not among them.
pub open spec fn spec_position(names: Seq<Seq<char>>, name: Seq<char>) -> int {
    spec_find(names, name, 0)
}

/// The variables seen so far, in the order in which they first appeared.
/// The place of a name is the slot of its variable.
pub struct Index {
    names: Vec<String>,
}

/// The views of a sequence of names, one for one.
pub open spec fn spec_name_views(names: Seq<String>) -> Seq<Seq<char>> {
    names.map_values(|name: String| name@)
}

/// What `spec_find` finds: a place from `from` on where the name stands and
/// before which, from `from` on, it does not.
pub proof fn lemma_find(names: Seq<Seq<char>>, name: Seq<char>, from: int)
    requires
        0 <= from <= names.len(),
    ensures
        from <= spec_find(names, name, from) <= names.len(),
        spec_find(names, name, from) < names.len() ==> names[spec_find(names, name, from)] == name,
        forall|i: int| from <= i < spec_find(names, name, from) ==> names[i] != name,
    decreases names.len() - from,
{
    if from < names.len() && names[from] != name {
        lemma_find(names, name, from + 1);
    }
}

/// A name that is found stays where it is when another name is appended; one
/// that is not found is found at the end if it is the one appended.
pub proof fn lemma_position_push(names: Seq<Seq<char>>, name: Seq<char>, extra: Seq<char>)
    ensures
        spec_position(names, name) < names.len() ==> spec_position(names.push(extra), name)
            == spec_position(names, name),
        spec_position(names, name) >= names.len() && extra == name ==> spec_position(
            names.push(extra),
            name,
        ) == names.len(),
        spec_position(names, name) >= names.len() && extra != name ==> spec_position(
            names.push(extra),
            name,
        ) == names.len() + 1,
{
    lemma_find_push(names, name, extra, 0);
}

proof fn lemma_find_push(names: Seq<Seq<char>>, name: Seq<char>, extra: Seq<char>, from: int)
    requires
        0 <= from <= names.len(),
    ensures
        spec_find(names, name, from) < names.len() ==> spec_find(names.push(extra), name, from)
            == spec_find(names, name, from),
        spec_find(names, name, from) >= names.len() && extra == name ==> spec_find(
            names.push(extra),
            name,
            from,
        ) == names.len(),
        spec_find(names, name, from) >= names.len() && extra != name ==> spec_find(
            names.push(extra),
            name,
            from,
        ) == names.len() + 1,
    decreases names.len() - from,
{
    let longer = names.push(extra);
    if from < names.len() {
        assert(longer[from] == names[from]);
        if names[from] != name {
            lemma_find_push(names, name, extra, from + 1);
        }
    } else {
        assert(longer[from] == extra);
        if extra != name {
            assert(spec_find(longer, name, from + 1) == longer.len());
        }
    }
}

impl View for Index {
    type V = Seq<Seq<char>>;

    closed spec fn view(&self) -> Seq<Seq<char>> {
        spec_name_views(self.names@)
    }
}

impl Index {
    /// An index without variables.
    pub fn new() -> (index: Self)
        ensures
            index@ == Seq::<Seq<char>>::empty(),
    {
        let index = Index { names: Vec::new() };
        assert(index@ =~= Seq::<Seq<char>>::empty());
        index
    }

    /// How many variables the index knows.
    pub fn len(&self) -> (len: usize)
        ensures
            len == self@.len(),
    {
        self.names.len()
    }

    /// The name of the variable in slot `slot`.
    pub fn name(&self, slot: usize) -> (name: String)
        requires
            slot < self@.len(),
        ensures
            name@ == self@[slot as int],
    {
        self.names[slot].clone()
    }

    /// The slot of the variable `name`. A name that the index has not seen
    /// gets the next free slot.
    pub fn get(&mut self, name: &String) -> (slot: usize)
        ensures
            slot == spec_position(old(self)@, name@),
            slot < final(self)@.len(),
            final(self)@ == if slot < old(self)@.len() {
                old(self)@
            } else {
                old(self)@.push(name@)
            },
    {
        let ghost names = self@;
        let mut i: usize = 0;
        while i < self.names.len()
            invariant
                self@ == names,
                names.len() == self.names.len(),
                i <= self.names.len(),
                spec_position(names, name@) == spec_find(names, name@, i as int),
            decreases self.names.len() - i,
        {
            assert(names[i as int] == self.names[i as int]@);
            if self.names[i] == *name {
                return i;
            }
            i += 1;
        }
        self.names.push(name.clone());
        assert(self@ =~= names.push(name@));
        i
    }
}

/// What an error says, with the names of variables as sequences of characters.
pub enum PlanErrorView {
    NoVars,
    NoKnownVar { pattern: usize },
    ExpectedVar { place: Option<usize> },
    UnknownVars { names: Seq<Seq<char>> },
}

/// Why a rule was rejected.
#[derive(Clone, Debug, PartialEq, Eq)]
pub enum PlanError {
    /// The rule has no body, so nothing binds its variables.
    NoVars,
    /// Neither side of the body pattern numbered `pattern` is known when
    /// its turn comes.
    NoKnownVar { pattern: usize },
    /// A literal stands where only a variable can: on the left of the first
    /// body pattern, on the side that the body pattern numbered `place`
    /// would have to bind, or, with `None`, on the left of the head.
    ExpectedVar { place: Option<usize> },
    /// The head names variables that the body never binds: `names`, in
    /// the order in which the head names them.
    UnknownVars { names: Vec<String> },
}

impl View for PlanError {
    type V = PlanErrorView;

    open spec fn view(&self) -> PlanErrorView {
        match self {
            PlanError::NoVars => PlanErrorView::NoVars,
            PlanError::NoKnownVar { pattern } => PlanErrorView::NoKnownVar { pattern: *pattern },
            PlanError::ExpectedVar { place } => PlanErrorView::ExpectedVar { place: *place },
            PlanError::UnknownVars { names } => PlanErrorView::UnknownVars {
                names: spec_name_views(names@),
            },
        }
    }
}

/// The first `count` of `names`, with a backtick, a comma, a space and a
/// backtick between one and the next.
pub open spec fn spec_joined(names: Seq<Seq<char>>, count: nat) -> Seq<char>
    decreases count,
{
    if count == 0 || count > names.len() {
        Seq::empty()
    } else if count == 1 {
        names[0]
    } else {
        spec_joined(names, (count - 1) as nat) + "`, `"@ + names[count - 1]
    }
}

/// What an error says to the author of the rule.
pub open spec fn spec_message(error: PlanErrorView) -> Seq<char> {
    match error {
        PlanErrorView::NoVars => "no vars in rule"@,
        PlanErrorView::NoKnownVar { pattern } => "must reference at least one known variable"@,
        PlanErrorView::ExpectedVar { place } => "expected variable"@,
        PlanErrorView::UnknownVars { names } => "rule contains unknown vars: `"@ + spec_joined(
            names,
            names.len(),
        ) + "`"@,
    }
}

impl PlanError {
    /// What the error says to the author of the rule.
    pub fn message(&self) -> (text: String)
        ensures
            text@ == spec_message(self@),
    {
        match self {
            PlanError::NoVars => String::from_str("no vars in rule"),
            PlanError::NoKnownVar { pattern } => String::from_str(
                "must reference at least one known variable",
            ),
            PlanError::ExpectedVar { place } => String::from_str("expected variable"),
            PlanError::UnknownVars { names } => {
                let mut text = String::from_str("rule contains unknown vars: `");
                let ghost start = text@;
                let ghost views = spec_name_views(names@);
                let mut i: usize = 0;
                while i < names.len()
                    invariant
                        i <= names.len(),
                        views == spec_name_views(names@),
                        text@ == start + spec_joined(views, i as nat),
                    decreases names.len() - i,
                {
                    assert(views[i as int] == names[i as int]@);
                    if i > 0 {
                        text.append("`, `");
                    }
                    text.append(names[i].as_str());
                    assert(text@ =~= start + spec_joined(views, (i + 1) as nat));
                    i += 1;
                }
                text.append("`");
                text
            },
        }
    }
}

/// Whether `name` is among `names`.
pub open spec fn spec_registered(names: Seq<Seq<char>>, name: Seq<char>) -> bool {
    spec_position(names, name) < names.len()
}

/// The names after a term was seen: a variable that is new goes to the end.
pub open spec fn spec_register(names: Seq<Seq<char>>, term: TermView) -> Seq<Seq<char>> {
    match term {
        TermView::Var(name) => if spec_registered(names, name) {
            names
        } else {
            names.push(name)
        },
        TermView::Val(_) => names,
    }
}

/// The variables of a body in the order in which they first appear, each
/// pattern read from left to right.
pub open spec fn spec_body_names(body: Seq<PatternView>) -> Seq<Seq<char>>
    decreases body.len(),
{
    if body.len() == 0 {
        Seq::empty()
    } else {
        spec_register(
            spec_register(spec_body_names(body.drop_last()), body.last().left),
            body.last().right,
        )
    }
}

/// Whether a term is known when the turn of the body pattern numbered `i`
/// comes: a literal always; a variable if it is the left side of the first
/// pattern or occurs in an earlier pattern.
pub open spec fn spec_term_known(body: Seq<PatternView>, i: int, term: TermView) -> bool {
    match term {
        TermView::Val(_) => true,
        TermView::Var(name) => if i == 0 {
            body[0].left == term
        } else {
            spec_registered(spec_body_names(body.take(i)), name)
        },
    }
}

/// What is wrong with the body pattern numbered `i`, given that those
/// before it are in order; `None` if nothing is.
pub open spec fn spec_pattern_error(body: Seq<PatternView>, i: int) -> Option<PlanErrorView> {
    let pattern = body[i];
    if i == 0 && pattern.left is Val {
        Some(PlanErrorView::ExpectedVar { place: Some(0) })
    } else if spec_term_known(body, i, pattern.left) {
        if pattern.right is Var {
            None
        } else {
            Some(PlanErrorView::ExpectedVar { place: Some(i as usize) })
        }
    } else if spec_term_known(body, i, pattern.right) {
        None
    } else {
        Some(PlanErrorView::NoKnownVar { pattern: i as usize })
    }
}

/// What is wrong with the first body pattern below `upto` with which
/// something is wrong; `None` if all of them are in order.
pub open spec fn spec_first_error(body: Seq<PatternView>, upto: int) -> Option<PlanErrorView>
    decreases upto,
{
    if upto <= 0 {
        None
    } else {
        match spec_first_error(body, upto - 1) {
            Some(error) => Some(error),
            None => spec_pattern_error(body, upto - 1),
        }
    }
}

/// The slot of a term that is a variable.
pub open spec fn spec_slot_of(names: Seq<Seq<char>>, term: TermView) -> usize {
    match term {
        TermView::Var(name) => spec_position(names, name) as usize,
        TermView::Val(_) => 0,
    }
}

/// A term as the operand of a step: the literal, or the variable's slot.
pub open spec fn spec_term_operand(names: Seq<Seq<char>>, term: TermView) -> Result<ValView, usize> {
    match term {
        TermView::Var(name) => Err(spec_position(names, name) as usize),
        TermView::Val(v) => Ok(v),
    }
}

/// The join that the body pattern numbered `i` becomes: anchored on its
/// left side if that is known, else on its right side, and binding the other.
pub open spec fn spec_step(body: Seq<PatternView>, names: Seq<Seq<char>>, i: int) -> StepView {
    let pattern = body[i];
    if spec_term_known(body, i, pattern.left) {
        StepView {
            fact_key: pattern.fact_key,
            fact_name: pattern.fact_name,
            known: spec_term_operand(names, pattern.left),
            unknown: spec_slot_of(names, pattern.right),
            side: Side::Left,
        }
    } else {
        StepView {
            fact_key: pattern.fact_key,
            fact_name: pattern.fact_name,
            known: spec_term_operand(names, pattern.right),
            unknown: spec_slot_of(names, pattern.left),
            side: Side::Right,
        }
    }
}

/// The variables of the head that the body does not bind, in the order in
/// which the head names them.
pub open spec fn spec_unknown_names(head: PatternView, names: Seq<Seq<char>>) -> Seq<Seq<char>> {
    spec_register(spec_register(names, head.left), head.right).skip(names.len() as int)
}

/// The plan of a rule whose patterns are all in order: a slot for each
/// variable of the body, the first pattern as seed, a join for every body
/// pattern in the order of the body, and the head as the last step.
pub open spec fn spec_plan(head: PatternView, body: Seq<PatternView>) -> PlanView {
    let names = spec_body_names(body);
    PlanView {
        vars: names.len() as usize,
        first: FirstStepView {
            fact_key: body[0].fact_key,
            fact_name: body[0].fact_name,
            left: spec_slot_of(names, body[0].left),
        },
        steps: Seq::new(body.len(), |i: int| spec_step(body, names, i)),
        last: LastStepView {
            fact_key: head.fact_key,
            fact_name: head.fact_name,
            left: spec_slot_of(names, head.left),
            right: spec_term_operand(names, head.right),
        },
    }
}

/// What compiling a rule gives: its plan, or the first thing that is wrong
/// with it, the body read before the head.
pub open spec fn spec_make_plan(head: PatternView, body: Seq<PatternView>) -> Result<
    PlanView,
    PlanErrorView,
> {
    if body.len() == 0 {
        Err(PlanErrorView::NoVars)
    } else {
        match spec_first_error(body, body.len() as int) {
            Some(error) => Err(error),
            None => if head.left is Val {
                Err(PlanErrorView::ExpectedVar { place: None })
            } else if spec_unknown_names(head, spec_body_names(body)).len() > 0 {
                Err(
                    PlanErrorView::UnknownVars {
                        names: spec_unknown_names(head, spec_body_names(body)),
                    },
                )
            } else {
                Ok(spec_plan(head, body))
            },
        }
    }
}

/// Seeing a term keeps every name that was there in its place, and puts the
/// term's own name, if it has one, where it was or at the end.
pub proof fn lemma_register(names: Seq<Seq<char>>, term: TermView)
    ensures
        names.is_prefix_of(spec_register(names, term)),
        term matches TermView::Var(name) ==> spec_registered(spec_register(names, term), name)
            && spec_position(spec_register(names, term), name) == spec_position(names, name),
        forall|other: Seq<char>| #[trigger]
            spec_registered(names, other) ==> spec_registered(spec_register(names, term), other)
                && spec_position(spec_register(names, term), other) == spec_position(names, other),
        forall|other: Seq<char>|
            term != TermView::Var(other) ==> (#[trigger] spec_registered(
                spec_register(names, term),
                other,
            ) == spec_registered(names, other)),
{
    match term {
        TermView::Var(name) => {
            lemma_find(names, name, 0);
            lemma_position_push(names, name, name);
            assert forall|other: Seq<char>|
                spec_registered(spec_register(names, term), other) == (spec_registered(names, other)
                    || other == name) && (spec_registered(names, other) ==> spec_position(
                    spec_register(names, term),
                    other,
                ) == spec_position(names, other)) by {
                lemma_position_push(names, other, name);
                lemma_find(names, other, 0);
            }
        },
        TermView::Val(_) => {},
    }
}

/// Once a body pattern is found wrong, reading on changes nothing.
pub proof fn lemma_first_error_stays(body: Seq<PatternView>, from: int, to: int)
    requires
        from <= to,
        spec_first_error(body, from) is Some,
    ensures
        spec_first_error(body, to) == spec_first_error(body, from),
    decreases to - from,
{
    if from < to {
        lemma_first_error_stays(body, from, to - 1);
    }
}

/// Whether the variables of a pattern are among `names`.
pub open spec fn spec_pattern_registered(names: Seq<Seq<char>>, pattern: PatternView) -> bool {
    &&& pattern.left matches TermView::Var(name) ==> spec_registered(names, name)
    &&& pattern.right matches TermView::Var(name) ==> spec_registered(names, name)
}

/// Looks a term up: its operand, and whether it is known. A variable that
/// the index has not seen gets the next slot and is not known.
fn resolve(var_index: &mut Index, known: &mut Vec<bool>, term: &Term) -> (resolved: (
    Result<Val<Erased>, Var<Erased>>,
    bool,
))
    requires
        old(known).len() == old(var_index)@.len(),
    ensures
        final(var_index)@ == spec_register(old(var_index)@, term@),
        final(known).len() == final(var_index)@.len(),
        forall|s: int| 0 <= s < old(known).len() ==> final(known)[s] == old(known)[s],
        forall|s: int| old(known).len() <= s < final(known).len() ==> !final(known)[s],
        spec_operand(resolved.0) == spec_term_operand(old(var_index)@, term@),
        resolved.1 == match term@ {
            TermView::Val(_) => true,
            TermView::Var(name) => spec_registered(old(var_index)@, name) && old(known)[spec_position(
                old(var_index)@,
                name,
            )],
        },
{
    match term {
        Term::Var(name) => {
            let slot = var_index.get(name);
            if slot >= known.len() {
                known.push(false);
            }
            (Err(Var::new(slot)), known[slot])
        },
        Term::Val(v) => (Ok(v.clone()), true),
    }
}

/// Joins that were in order stay in order, and keep their slots, when the
/// index sees another term.
proof fn lemma_steps_stable(
    body: Seq<PatternView>,
    names: Seq<Seq<char>>,
    term: TermView,
    upto: int,
)
    requires
        0 <= upto <= body.len(),
        forall|j: int| 0 <= j < upto ==> spec_pattern_registered(names, #[trigger] body[j]),
    ensures
        forall|j: int|
            0 <= j < upto ==> spec_pattern_registered(
                spec_register(names, term),
                #[trigger] body[j],
            ),
        forall|j: int|
            0 <= j < upto ==> #[trigger] spec_step(body, spec_register(names, term), j) == spec_step(
                body,
                names,
                j,
            ),
{
    lemma_register(names, term);
    assert forall|j: int| 0 <= j < upto implies spec_pattern_registered(
        spec_register(names, term),
        #[trigger] body[j],
    ) && #[trigger] spec_step(body, spec_register(names, term), j) == spec_step(body, names, j) by {
        assert(spec_pattern_registered(names, body[j]));
    }
}

/// Compiles a rule: `query` is its head, `dependencies` are the patterns of
/// its body in the order in which they are to be joined. The variables get
/// their slots in the order in which they first appear, the body read before
/// the head. A plan that comes out is valid.
pub fn make_plan(query: &Pattern, dependencies: &Vec<Pattern>) -> (result: Result<Plan, PlanError>)
    ensures
        spec_outcome(result) == spec_make_plan(query@, spec_pattern_views(dependencies@)),
        result matches Ok(plan) ==> spec_plan_valid(plan@),
{
    let ghost body = spec_pattern_views(dependencies@);
    let mut var_index = Index::new();
    let mut first: Option<PlanFirstStep> = None;
    let mut steps: Vec<PlanStep> = Vec::new();
    let mut known: Vec<bool> = Vec::new();
    let mut i: usize = 0;
    assert(body.take(0) =~= Seq::<PatternView>::empty());
    while i < dependencies.len()
        invariant
            i <= dependencies.len(),
            body == spec_pattern_views(dependencies@),
            spec_first_error(body, i as int) is None,
            var_index@ == spec_body_names(body.take(i as int)),
            known.len() == var_index@.len(),
            forall|s: int| 0 <= s < known.len() ==> known[s],
            steps.len() == i,
            forall|j: int| 0 <= j < i ==> (#[trigger] steps[j])@ == spec_step(body, var_index@, j),
            forall|j: int| 0 <= j < i ==> spec_pattern_registered(var_index@, #[trigger] body[j]),
            (i == 0) == (first is None),
            first matches Some(step) ==> step@ == (FirstStepView {
                fact_key: body[0].fact_key,
                fact_name: body[0].fact_name,
                left: 0,
            }) && body[0].left is Var && spec_slot_of(var_index@, body[0].left) == 0,
            forall|j: int|
                0 <= j < i ==> (#[trigger] steps[j])@.unknown < var_index@.len() && (
                steps[j]@.known matches Err(var) ==> spec_bound(
                    0,
                    spec_step_views(steps@),
                    j,
                    var,
                )),
            i > 0 ==> forall|s: usize|
                s < var_index@.len() ==> #[trigger] spec_bound(
                    0,
                    spec_step_views(steps@),
                    i as int,
                    s,
                ),
        decreases dependencies.len() - i,
    {
        let dependency = &dependencies[i];
        let ghost pattern = body[i as int];
        let ghost names0 = var_index@;
        let ghost steps0 = spec_step_views(steps@);
        assert(pattern == dependency@);
        proof {
            assert(body.take(i + 1).drop_last() =~= body.take(i as int));
            assert(body.take(i + 1).last() == pattern);
            lemma_register(names0, pattern.left);
            lemma_register(spec_register(names0, pattern.left), pattern.right);
            lemma_steps_stable(body, names0, pattern.left, i as int);
            lemma_steps_stable(body, spec_register(names0, pattern.left), pattern.right, i as int);
        }
        if i == 0 {
            // The left variable of the first pattern is known from the start.
            match &dependency.left {
                Term::Var(name) => {
                    let slot = var_index.get(name);
                    known.push(true);
                    first = Some(
                        PlanFirstStep {
                            fact_key: dependency.fact_key,
                            fact_name: dependency.fact_name.clone(),
                            left: Var::new(slot),
                        },
                    );
                },
                Term::Val(_) => {
                    proof {
                        lemma_first_error_stays(body, 1, body.len() as int);
                    }
                    return Err(PlanError::ExpectedVar { place: Some(0) });
                },
            }
        }
        let ghost names1 = var_index@;
        proof {
            lemma_register(names1, pattern.left);
            if let TermView::Var(name) = pattern.left {
                lemma_find(names0, name, 0);
                lemma_find(names1, name, 0);
            }
        }
        let (left, left_known) = resolve(&mut var_index, &mut known, &dependency.left);
        let ghost names2 = var_index@;
        assert(names2 == spec_register(names0, pattern.left));
        proof {
            if let TermView::Var(name) = pattern.right {
                lemma_find(names0, name, 0);
                lemma_find(names2, name, 0);
            }
        }
        let (right, right_known) = resolve(&mut var_index, &mut known, &dependency.right);
        let ghost names3 = var_index@;
        assert(names3 == spec_body_names(body.take(i + 1)));
        assert(left_known == spec_term_known(body, i as int, pattern.left));
        assert(!left_known ==> right_known == spec_term_known(body, i as int, pattern.right));
        // Link the known side to the unknown side as the next step.
        let step = if left_known {
            match right {
                Err(unknown) => PlanStep {
                    fact_key: dependency.fact_key,
                    fact_name: dependency.fact_name.clone(),
                    known: left,
                    unknown,
                    side: Side::Left,
                },
                Ok(_) => {
                    proof {
                        lemma_first_error_stays(body, i + 1, body.len() as int);
                    }
                    return Err(PlanError::ExpectedVar { place: Some(i) });
                },
            }
        } else if right_known {
            match left {
                Err(unknown) => PlanStep {
                    fact_key: dependency.fact_key,
                    fact_name: dependency.fact_name.clone(),
                    known: right,
                    unknown,
                    side: Side::Right,
                },
                Ok(_) => {
                    assert(false);
                    return Err(PlanError::ExpectedVar { place: Some(i) });
                },
            }
        } else {
            proof {
                lemma_first_error_stays(body, i + 1, body.len() as int);
            }
            return Err(PlanError::NoKnownVar { pattern: i });
        };
        assert(step@ == spec_step(body, names3, i as int));
        // Once the step has run, its unknown side is known.
        known.set(step.unknown.index, true);
        steps.push(step);
        proof {
            let steps1 = spec_step_views(steps@);
            assert(steps1 =~= steps0.push(step@));
            assert forall|j: int| 0 <= j < i + 1 implies (#[trigger] steps[j])@.unknown
                < names3.len() && (steps[j]@.known matches Err(var) ==> spec_bound(
                0,
                steps1,
                j,
                var,
            )) by {
                if j < i {
                    if let Err(var) = steps[j]@.known {
                        assert(spec_bound(0, steps0, j, var));
                        if var != 0 {
                            let w = choose|w: int|
                                0 <= w < j && w < steps0.len() && (#[trigger] steps0[w]).unknown == var;
                            assert(steps1[w] == steps0[w]);
                        }
                    }
                } else {
                    if let Err(var) = step@.known {
                        if i > 0 {
                            assert(spec_bound(0, steps0, i as int, var));
                            if var != 0 {
                                let w = choose|w: int|
                                    0 <= w < i && w < steps0.len() && (#[trigger] steps0[w]).unknown
                                        == var;
                                assert(steps1[w] == steps0[w]);
                            }
                        }
                    }
                }
            }
            assert forall|s: usize| s < names3.len() implies #[trigger] spec_bound(
                0,
                steps1,
                i + 1,
                s,
            ) by {
                if s == step@.unknown {
                    assert(steps1[i as int].unknown == s);
                } else if i > 0 {
                    assert(s < names0.len());
                    assert(spec_bound(0, steps0, i as int, s));
                    if s != 0 {
                        let w = choose|w: int|
                            0 <= w < i && w < steps0.len() && (#[trigger] steps0[w]).unknown == s;
                        assert(steps1[w] == steps0[w]);
                    }
                }
            }
        }
        i += 1;
    }
    let first = match first {
        Some(first) => first,
        None => {
            return Err(PlanError::NoVars);
        },
    };
    assert(body.take(i as int) =~= body);
    let ghost names = var_index@;
    let ghost head = query@;
    proof {
        lemma_register(names, head.left);
        lemma_register(spec_register(names, head.left), head.right);
    }
    // Register the variables of the head that the body has not named.
    let (left, _) = resolve(&mut var_index, &mut known, &query.left);
    let left = match left {
        Err(var) => var,
        Ok(_) => {
            return Err(PlanError::ExpectedVar { place: None });
        },
    };
    let (right, _) = resolve(&mut var_index, &mut known, &query.right);
    // By now every variable must be known.
    let mut unknown: Vec<String> = Vec::new();
    let mut slot: usize = 0;
    while slot < var_index.len()
        invariant
            slot <= var_index@.len(),
            known.len() == var_index@.len(),
            names.len() <= var_index@.len(),
            forall|s: int| 0 <= s < known.len() ==> known[s] == (s < names.len()),
            spec_name_views(unknown@) == if slot <= names.len() {
                Seq::<Seq<char>>::empty()
            } else {
                var_index@.subrange(names.len() as int, slot as int)
            },
        decreases var_index@.len() - slot,
    {
        if !known[slot] {
            let ghost before = unknown@;
            unknown.push(var_index.name(slot));
            assert(spec_name_views(unknown@) =~= spec_name_views(before).push(
                var_index@[slot as int],
            ));
        }
        slot += 1;
    }
    assert(spec_name_views(unknown@) =~= spec_unknown_names(head, names));
    if unknown.len() > 0 {
        return Err(PlanError::UnknownVars { names: unknown });
    }
    assert(var_index@ =~= names);
    let last = PlanLastStep {
        fact_key: query.fact_key,
        fact_name: query.fact_name.clone(),
        left,
        right,
    };
    let plan = Plan { vars: var_index.len(), first, steps, last };
    proof {
        assert(plan@.steps =~= spec_plan(head, body).steps);
        assert(plan@ == spec_plan(head, body));
        let joins = spec_step_views(steps@);
        assert(plan@.steps == joins);
        assert(plan@.first.left == 0);
        if let TermView::Var(name) = head.left {
            lemma_find(names, name, 0);
            assert(spec_registered(names, name));
            assert(spec_bound(0, joins, i as int, left@));
        }
        if let TermView::Var(name) = head.right {
            lemma_find(names, name, 0);
            assert(spec_registered(names, name));
            assert(spec_bound(0, joins, i as int, spec_slot_of(names, head.right)));
        }
        assert forall|j: int| 0 <= j < plan@.steps.len() implies (#[trigger] plan@.steps[j]).unknown
            < plan@.vars && spec_operand_known(plan@, j, plan@.steps[j].known) by {
            assert(plan@.steps[j] == steps[j]@);
        }
    }
    Ok(plan)
}

/// What a result of compiling shows in contracts.
pub open spec fn spec_outcome(result: Result<Plan, PlanError>) -> Result<PlanView, PlanErrorView> {
    match result {
        Ok(plan) => Ok(plan@),
        Err(error) => Err(error@),
    }
}

} // verus!
