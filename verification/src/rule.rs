use crate::type_key::{Erased, TypeKey};
use crate::val::{Val, ValView};
use std::marker::PhantomData;
use vstd::prelude::*;
use vstd::std_specs::cmp::PartialEqSpecImpl;
use vstd::string::StringExecFns;

verus! {

/// A variable of a rule: the index of its slot in the rule's frame.
/// The sort `T` is checked when a rule is written and plays no part after.
pub struct Var<T> {
    pub index: usize,
    pub _data: PhantomData<T>,
}

impl<T> View for Var<T> {
    type V = usize;

    open spec fn view(&self) -> usize {
        self.index
    }
}

impl<T> Clone for Var<T> {
    fn clone(&self) -> (v: Self)
        ensures
            v@ == self@,
    {
        Var { index: self.index, _data: PhantomData }
    }
}

impl<T> Copy for Var<T> {

}

impl<T> PartialEq for Var<T> {
    fn eq(&self, other: &Self) -> (equal: bool) {
        self.index == other.index
    }
}

impl<T> Eq for Var<T> {

}

impl<T> PartialEqSpecImpl for Var<T> {
    open spec fn obeys_eq_spec() -> bool {
        true
    }

    open spec fn eq_spec(&self, other: &Self) -> bool {
        self@ == other@
    }
}

impl<T> Var<T> {
    /// The variable that lives in slot `index`.
    pub fn new(index: usize) -> (v: Self)
        ensures
            v@ == index,
    {
        Var { index, _data: PhantomData }
    }

    /// The same slot with its sort forgotten.
    pub fn erase(&self) -> (v: Var<Erased>)
        ensures
            v@ == self@,
    {
        Var { index: self.index, _data: PhantomData }
    }
}

/// A binary relation: the sorts of its two sides, its name and its key.
/// Relations with different meanings must have different keys.
pub trait BuildQuery {
    type Left;

    type Right;

    const NAME: &'static str;

    const KEY: u64;
}

impl BuildQuery for Erased {
    type Left = Erased;

    type Right = Erased;

    const NAME: &'static str = "<erased>";

    const KEY: u64 = 0;
}

/// What a query asks for: a relation and, for each side, the identity that
/// a fact must have there, or `None` where any atom will do.
pub struct QueryView {
    pub fact_key: u64,
    pub left: Option<u32>,
    pub right: Option<u32>,
}

/// A read filter over the facts of relation `F`.
pub struct Query<F: BuildQuery> {
    pub fact_key: TypeKey,
    pub left: Option<Val<Erased>>,
    pub right: Option<Val<Erased>>,
    pub _data: PhantomData<F>,
}

/// The identity of an atom that may be absent.
pub open spec fn spec_counter_of<T>(v: Option<Val<T>>) -> Option<u32> {
    match v {
        Some(v) => Some(v@.counter),
        None => None,
    }
}

impl<F: BuildQuery> View for Query<F> {
    type V = QueryView;

    open spec fn view(&self) -> QueryView {
        QueryView {
            fact_key: self.fact_key@,
            left: spec_counter_of(self.left),
            right: spec_counter_of(self.right),
        }
    }
}

impl<F: BuildQuery> Clone for Query<F> {
    fn clone(&self) -> (query: Self)
        ensures
            query@ == self@,
    {
        Query {
            fact_key: self.fact_key,
            left: match &self.left {
                Some(v) => Some(v.clone()),
                None => None,
            },
            right: match &self.right {
                Some(v) => Some(v.clone()),
                None => None,
            },
            _data: PhantomData,
        }
    }
}

impl<F: BuildQuery> Query<F> {
    /// The facts of `F` whose sides are the given atoms.
    pub fn new(left: Option<Val<F::Left>>, right: Option<Val<F::Right>>) -> (query: Self)
        ensures
            query@ == (QueryView {
                fact_key: F::KEY,
                left: spec_counter_of(left),
                right: spec_counter_of(right),
            }),
    {
        let left = match &left {
            Some(v) => Some(v.erase()),
            None => None,
        };
        let right = match &right {
            Some(v) => Some(v.erase()),
            None => None,
        };
        Query::raw(TypeKey::new(F::KEY), left, right)
    }

    /// The facts of the relation `fact_key` whose sides are the given atoms.
    pub fn raw(fact_key: TypeKey, left: Option<Val<Erased>>, right: Option<Val<Erased>>) -> (query:
        Self)
        ensures
            query.fact_key == fact_key,
            query.left == left,
            query.right == right,
    {
        Query { fact_key, left, right, _data: PhantomData }
    }

    /// Every fact of `F`.
    pub fn all() -> (query: Self)
        ensures
            query@ == (QueryView { fact_key: F::KEY, left: None, right: None }),
    {
        Query::new(None, None)
    }
}

/// A side of a binary relation.
#[derive(Clone, Copy, Debug, PartialEq, Eq, Structural)]
pub enum Side {
    Left,
    Right,
}

/// A pattern whose right side is a literal atom or a variable, and which
/// draws its left side from the patterns in `dependencies`.
pub struct QueryBuilder {
    pub left: Var<Erased>,
    pub right: Result<Val<Erased>, Var<Erased>>,
    pub dependencies: Vec<QueryBuilder>,
}

/// An operand of a step as contracts see it: a literal atom, or the slot of a variable.
pub open spec fn spec_operand(operand: Result<Val<Erased>, Var<Erased>>) -> Result<ValView, usize> {
    match operand {
        Ok(v) => Ok(v@),
        Err(var) => Err(var@),
    }
}

/// What a first step is: the relation it reads and the slot it binds.
pub struct FirstStepView {
    pub fact_key: u64,
    pub fact_name: Seq<char>,
    pub left: usize,
}

/// The step that seeds a rule: every fact of the relation is tried, and its
/// left atom goes into the slot `left`.
pub struct PlanFirstStep {
    pub fact_key: TypeKey,
    pub fact_name: String,
    pub left: Var<Erased>,
}

impl View for PlanFirstStep {
    type V = FirstStepView;

    open spec fn view(&self) -> FirstStepView {
        FirstStepView { fact_key: self.fact_key@, fact_name: self.fact_name@, left: self.left@ }
    }
}

/// What a join is: the relation it reads, the operand it is anchored on,
/// the slot it binds, and the side of the relation on which the anchor stands.
pub struct StepView {
    pub fact_key: u64,
    pub fact_name: Seq<char>,
    pub known: Result<ValView, usize>,
    pub unknown: usize,
    pub side: Side,
}

/// A join step: the facts of the relation that have the known operand on
/// `side` are tried, and the atom on their other side goes into the slot
/// `unknown`.
pub struct PlanStep {
    pub fact_key: TypeKey,
    pub fact_name: String,
    pub known: Result<Val<Erased>, Var<Erased>>,
    pub unknown: Var<Erased>,
    pub side: Side,
}

impl View for PlanStep {
    type V = StepView;

    open spec fn view(&self) -> StepView {
        StepView {
            fact_key: self.fact_key@,
            fact_name: self.fact_name@,
            known: spec_operand(self.known),
            unknown: self.unknown@,
            side: self.side,
        }
    }
}

/// What a last step is: the relation of the fact it states, the slot of
/// the fact's left atom, and the operand that gives its right atom.
pub struct LastStepView {
    pub fact_key: u64,
    pub fact_name: Seq<char>,
    pub left: usize,
    pub right: Result<ValView, usize>,
}

/// The step that states the derived fact: its left atom comes from the
/// slot `left`, its right atom is a literal or comes from a slot.
pub struct PlanLastStep {
    pub fact_key: TypeKey,
    pub fact_name: String,
    pub left: Var<Erased>,
    pub right: Result<Val<Erased>, Var<Erased>>,
}

impl View for PlanLastStep {
    type V = LastStepView;

    open spec fn view(&self) -> LastStepView {
        LastStepView {
            fact_key: self.fact_key@,
            fact_name: self.fact_name@,
            left: self.left@,
            right: spec_operand(self.right),
        }
    }
}

/// A copy of an operand.
fn clone_operand(operand: &Result<Val<Erased>, Var<Erased>>) -> (copy: Result<
    Val<Erased>,
    Var<Erased>,
>)
    ensures
        spec_operand(copy) == spec_operand(*operand),
{
    match operand {
        Ok(v) => Ok(v.clone()),
        Err(var) => Err(var.clone()),
    }
}

impl Clone for PlanFirstStep {
    fn clone(&self) -> (step: Self)
        ensures
            step@ == self@,
    {
        PlanFirstStep {
            fact_key: self.fact_key,
            fact_name: self.fact_name.clone(),
            left: self.left.clone(),
        }
    }
}

impl Clone for PlanStep {
    fn clone(&self) -> (step: Self)
        ensures
            step@ == self@,
    {
        PlanStep {
            fact_key: self.fact_key,
            fact_name: self.fact_name.clone(),
            known: clone_operand(&self.known),
            unknown: self.unknown.clone(),
            side: self.side,
        }
    }
}

impl Clone for PlanLastStep {
    fn clone(&self) -> (step: Self)
        ensures
            step@ == self@,
    {
        PlanLastStep {
            fact_key: self.fact_key,
            fact_name: self.fact_name.clone(),
            left: self.left.clone(),
            right: clone_operand(&self.right),
        }
    }
}

impl PlanFirstStep {
    /// Seeds a rule from the relation `F`, binding `left`.
    pub fn first<F: BuildQuery>(left: Var<F::Left>) -> (step: Self)
        ensures
            step@ == (FirstStepView { fact_key: F::KEY, fact_name: F::NAME@, left: left@ }),
    {
        PlanFirstStep {
            fact_key: TypeKey::of::<F>(),
            fact_name: String::from_str(F::NAME),
            left: left.erase(),
        }
    }
}

impl PlanStep {
    /// Joins on the relation `F` from its left side: `left` is known, `right` gets bound.
    pub fn plan<F: BuildQuery>(left: Var<F::Left>, right: Var<F::Right>) -> (step: Self)
        ensures
            step@ == (StepView {
                fact_key: F::KEY,
                fact_name: F::NAME@,
                known: Err(left@),
                unknown: right@,
                side: Side::Left,
            }),
    {
        PlanStep {
            fact_key: TypeKey::of::<F>(),
            fact_name: String::from_str(F::NAME),
            known: Err(left.erase()),
            unknown: right.erase(),
            side: Side::Left,
        }
    }

    /// Joins on the relation `F` from its right side: `right` is known, `left` gets bound.
    pub fn plan_from_right<F: BuildQuery>(left: Var<F::Left>, right: Var<F::Right>) -> (step: Self)
        ensures
            step@ == (StepView {
                fact_key: F::KEY,
                fact_name: F::NAME@,
                known: Err(right@),
                unknown: left@,
                side: Side::Right,
            }),
    {
        PlanStep {
            fact_key: TypeKey::of::<F>(),
            fact_name: String::from_str(F::NAME),
            known: Err(right.erase()),
            unknown: left.erase(),
            side: Side::Right,
        }
    }
}

impl PlanLastStep {
    /// States a fact of `F` between two variables.
    pub fn last_var<F: BuildQuery>(left: Var<F::Left>, right: Var<F::Right>) -> (step: Self)
        ensures
            step@ == (LastStepView {
                fact_key: F::KEY,
                fact_name: F::NAME@,
                left: left@,
                right: Err(right@),
            }),
    {
        PlanLastStep {
            fact_key: TypeKey::of::<F>(),
            fact_name: String::from_str(F::NAME),
            left: left.erase(),
            right: Err(right.erase()),
        }
    }

    /// States a fact of `F` between a variable and the atom `right`.
    pub fn last_val<F: BuildQuery>(left: Var<F::Left>, right: Val<F::Right>) -> (step: Self)
        ensures
            step@ == (LastStepView {
                fact_key: F::KEY,
                fact_name: F::NAME@,
                left: left@,
                right: Ok(right@),
            }),
    {
        PlanLastStep {
            fact_key: TypeKey::of::<F>(),
            fact_name: String::from_str(F::NAME),
            left: left.erase(),
            right: Ok(right.erase()),
        }
    }
}

/// What a plan is: the size of its frame and its steps.
pub struct PlanView {
    pub vars: usize,
    pub first: FirstStepView,
    pub steps: Seq<StepView>,
    pub last: LastStepView,
}

/// A compiled rule body and head: how many slots a frame has, the step that
/// seeds it, the joins in order, and the step that states the result.
pub struct Plan {
    pub vars: usize,
    pub first: PlanFirstStep,
    pub steps: Vec<PlanStep>,
    pub last: PlanLastStep,
}

/// The views of a sequence of steps, one for one.
pub open spec fn spec_step_views(steps: Seq<PlanStep>) -> Seq<StepView> {
    steps.map_values(|step: PlanStep| step@)
}

impl View for Plan {
    type V = PlanView;

    open spec fn view(&self) -> PlanView {
        PlanView {
            vars: self.vars,
            first: self.first@,
            steps: spec_step_views(self.steps@),
            last: self.last@,
        }
    }
}

/// Whether slot `var` holds an atom once the first step and the first `upto`
/// joins of `plan` have run.
pub open spec fn spec_known(plan: PlanView, upto: int, var: usize) -> bool {
    spec_bound(plan.first.left, plan.steps, upto, var)
}

/// Whether slot `var` is the slot `first` or one that the first `upto` of
/// the joins `steps` bind.
pub open spec fn spec_bound(first: usize, steps: Seq<StepView>, upto: int, var: usize) -> bool {
    var == first || exists|j: int|
        0 <= j < upto && j < steps.len() && (#[trigger] steps[j]).unknown == var
}

/// Whether an operand can be read after the first `upto` joins: a literal
/// always, a variable when its slot is bound.
pub open spec fn spec_operand_known(
    plan: PlanView,
    upto: int,
    operand: Result<ValView, usize>,
) -> bool {
    match operand {
        Ok(_) => true,
        Err(var) => spec_known(plan, upto, var),
    }
}

/// A plan is valid when every slot it names lies in the frame, every join
/// reads an operand that an earlier step has bound, and the last step reads
/// only bound slots.
pub open spec fn spec_plan_valid(plan: PlanView) -> bool {
    &&& plan.first.left < plan.vars
    &&& forall|i: int|
        0 <= i < plan.steps.len() ==> (#[trigger] plan.steps[i]).unknown < plan.vars
            && spec_operand_known(plan, i, plan.steps[i].known)
    &&& spec_known(plan, plan.steps.len() as int, plan.last.left)
    &&& spec_operand_known(plan, plan.steps.len() as int, plan.last.right)
}

impl Clone for Plan {
    fn clone(&self) -> (plan: Self)
        ensures
            plan@ == self@,
    {
        let mut steps: Vec<PlanStep> = Vec::new();
        let mut i: usize = 0;
        while i < self.steps.len()
            invariant
                i <= self.steps.len(),
                steps.len() == i,
                forall|j: int| 0 <= j < i ==> (#[trigger] steps[j])@ == self.steps[j]@,
            decreases self.steps.len() - i,
        {
            steps.push(self.steps[i].clone());
            i += 1;
        }
        assert(spec_step_views(steps@) =~= spec_step_views(self.steps@));
        Plan { vars: self.vars, first: self.first.clone(), steps, last: self.last.clone() }
    }
}

impl Plan {
    /// Decides whether the plan is valid.
    pub fn is_valid(&self) -> (valid: bool)
        ensures
            valid == spec_plan_valid(self@),
    {
        if self.first.left.index >= self.vars {
            return false;
        }
        let ghost plan = self@;
        let mut known: Vec<bool> = Vec::new();
        let mut v: usize = 0;
        while v < self.vars
            invariant
                v <= self.vars,
                known.len() == v,
                forall|j: int| 0 <= j < v ==> !(#[trigger] known[j]),
            decreases self.vars - v,
        {
            known.push(false);
            v += 1;
        }
        known.set(self.first.left.index, true);
        let mut i: usize = 0;
        while i < self.steps.len()
            invariant
                plan == self@,
                plan.steps.len() == self.steps.len(),
                plan.first.left < plan.vars,
                i <= self.steps.len(),
                known.len() == self.vars,
                forall|var: usize|
                    var < self.vars ==> (#[trigger] known[var as int]) == spec_known(
                        plan,
                        i as int,
                        var,
                    ),
                forall|j: int|
                    0 <= j < i ==> (#[trigger] plan.steps[j]).unknown < plan.vars
                        && spec_operand_known(plan, j, plan.steps[j].known),
            decreases self.steps.len() - i,
        {
            let step = &self.steps[i];
            assert(plan.steps[i as int] == step@);
            let anchored = match &step.known {
                Ok(_) => true,
                Err(var) => var.index < self.vars && known[var.index],
            };
            if !anchored || step.unknown.index >= self.vars {
                proof {
                    if let Err(var) = step@.known {
                        if var >= plan.vars {
                            lemma_known_in_frame(plan, i as int, var);
                        }
                    }
                }
                return false;
            }
            known.set(step.unknown.index, true);
            proof {
                assert forall|var: usize| var < self.vars implies (#[trigger] known[var as int])
                    == spec_known(plan, i + 1, var) by {
                    if var == step.unknown.index {
                        assert(plan.steps[i as int].unknown == var);
                    }
                }
            }
            i += 1;
        }
        let left_ok = self.last.left.index < self.vars && known[self.last.left.index];
        let right_ok = match &self.last.right {
            Ok(_) => true,
            Err(var) => var.index < self.vars && known[var.index],
        };
        proof {
            if self.last.left.index >= self.vars {
                lemma_known_in_frame(plan, i as int, plan.last.left);
            }
            if let Err(var) = plan.last.right {
                if var >= plan.vars {
                    lemma_known_in_frame(plan, i as int, var);
                }
            }
        }
        left_ok && right_ok
    }
}

/// A slot that is bound after valid steps lies in the frame.
pub proof fn lemma_known_in_frame(plan: PlanView, upto: int, var: usize)
    requires
        plan.first.left < plan.vars,
        forall|j: int|
            0 <= j < upto && j < plan.steps.len() ==> (#[trigger] plan.steps[j]).unknown
                < plan.vars,
    ensures
        spec_known(plan, upto, var) ==> var < plan.vars,
{
}

/// A rule as its author states it: a label and the plan that derives its facts.
pub trait BuildRule {
    const LABEL: &'static str;

    fn plan() -> Plan;
}

/// What a rule is: its label and its plan.
pub struct RuleView {
    pub label: Seq<char>,
    pub plan: PlanView,
}

/// A labelled plan.
pub struct Rule {
    pub label: String,
    pub plan: Plan,
}

impl View for Rule {
    type V = RuleView;

    open spec fn view(&self) -> RuleView {
        RuleView { label: self.label@, plan: self.plan@ }
    }
}

impl Clone for Rule {
    fn clone(&self) -> (rule: Self)
        ensures
            rule@ == self@,
    {
        Rule { label: self.label.clone(), plan: self.plan.clone() }
    }
}

impl Rule {
    /// The rule that `T` states. Its plan is whatever `T` hands out.
    pub fn new<T: BuildRule>() -> (rule: Self)
        ensures
            rule@.label == T::LABEL@,
    {
        Rule { label: String::from_str(T::LABEL), plan: T::plan() }
    }

    /// The rule labelled `label` that runs `plan`.
    pub fn with_plan(label: &str, plan: Plan) -> (rule: Self)
        ensures
            rule@ == (RuleView { label: label@, plan: plan@ }),
    {
        Rule { label: String::from_str(label), plan }
    }
}

/// The views of a sequence of rules, one for one.
pub open spec fn spec_rule_views(rules: Seq<Rule>) -> Seq<RuleView> {
    rules.map_values(|rule: Rule| rule@)
}

/// Whether every rule's plan is valid.
pub open spec fn spec_rules_valid(rules: Seq<RuleView>) -> bool {
    forall|i: int| 0 <= i < rules.len() ==> spec_plan_valid((#[trigger] rules[i]).plan)
}

/// An ordered set of rules. In each round of evaluation they run in the
/// order in which they were added.
pub struct Rules(Vec<Rule>);

impl View for Rules {
    type V = Seq<RuleView>;

    closed spec fn view(&self) -> Seq<RuleView> {
        spec_rule_views(self.0@)
    }
}

impl Default for Rules {
    fn default() -> (rules: Self)
        ensures
            rules@ == Seq::<RuleView>::empty(),
    {
        Rules::new()
    }
}

impl Rules {
    /// A set without rules.
    pub fn new() -> (rules: Self)
        ensures
            rules@ == Seq::<RuleView>::empty(),
    {
        let rules = Rules(Vec::new());
        assert(rules@ =~= Seq::<RuleView>::empty());
        rules
    }

    /// Adds the rule that `T` states, behind the rules already there.
    pub fn add<T: BuildRule>(self) -> (rules: Self)
        ensures
            rules@.len() == self@.len() + 1,
            rules@.drop_last() == self@,
            rules@.last().label == T::LABEL@,
    {
        self.with(Rule::new::<T>())
    }

    /// Adds `rule` behind the rules already there.
    pub fn with(self, rule: Rule) -> (rules: Self)
        ensures
            rules@ == self@.push(rule@),
    {
        let mut inner = self.0;
        inner.push(rule);
        let rules = Rules(inner);
        assert(rules@ =~= self@.push(rule@));
        rules
    }

    /// The rules in the order in which they were added.
    pub fn iter(&self) -> (rules: &Vec<Rule>)
        ensures
            spec_rule_views(rules@) == self@,
    {
        &self.0
    }

    /// Decides whether every rule's plan is valid.
    pub fn is_valid(&self) -> (valid: bool)
        ensures
            valid == spec_rules_valid(self@),
    {
        let mut i: usize = 0;
        while i < self.0.len()
            invariant
                i <= self.0.len(),
                forall|j: int| 0 <= j < i ==> spec_plan_valid((#[trigger] self@[j]).plan),
            decreases self.0.len() - i,
        {
            assert(self@[i as int] == self.0[i as int]@);
            if !self.0[i].plan.is_valid() {
                return false;
            }
            i += 1;
        }
        true
    }
}

} // verus!
