use crate::context::{
    lemma_extend_room, spec_extend, spec_get, spec_grows, spec_holds, spec_room, spec_store_ok,
    Context,
};
use crate::fact::{
    clone_facts, lemma_rule_trace_view, spec_views, Fact, FactView, Trace, TraceView,
};
use crate::laws::{lemma_rounds_ok, lemma_rounds_settle};
use crate::rule::{
    spec_known, spec_plan_valid, spec_rule_views, spec_rules_valid, LastStepView, PlanView, Query,
    QueryView, Rule, RuleView, Rules, Side, StepView,
};
use crate::type_key::Erased;
use crate::val::{Val, ValView};
use vstd::prelude::*;

verus! {

/// What a frame holds: for each slot the atom bound to it, if any.
pub open spec fn spec_frame(vars: Seq<Option<Val<Erased>>>) -> Seq<Option<ValView>> {
    vars.map_values(
        |slot: Option<Val<Erased>>|
            match slot {
                Some(v) => Some(v@),
                None => None,
            },
    )
}

/// The atom in a slot, if the frame has the slot and it is bound.
pub open spec fn spec_slot(frame: Seq<Option<ValView>>, var: usize) -> Option<ValView> {
    if var < frame.len() {
        frame[var as int]
    } else {
        None
    }
}

/// The atom that an operand stands for in a frame.
pub open spec fn spec_operand_value(
    operand: Result<ValView, usize>,
    frame: Seq<Option<ValView>>,
) -> Option<ValView> {
    match operand {
        Ok(v) => Some(v),
        Err(var) => spec_slot(frame, var),
    }
}

/// The identity of an atom that may be absent.
pub open spec fn spec_counter(v: Option<ValView>) -> Option<u32> {
    match v {
        Some(v) => Some(v.counter),
        None => None,
    }
}

/// The query that a join asks in a frame: its relation, the known operand on
/// its side, and on the other side the atom of the slot to bind, where that
/// slot is bound already.
pub open spec fn spec_step_query(step: StepView, frame: Seq<Option<ValView>>) -> QueryView {
    let known = spec_counter(spec_operand_value(step.known, frame));
    let unknown = spec_counter(spec_slot(frame, step.unknown));
    match step.side {
        Side::Left => QueryView { fact_key: step.fact_key, left: known, right: unknown },
        Side::Right => QueryView { fact_key: step.fact_key, left: unknown, right: known },
    }
}

/// The frame after a join has matched `fact`: the slot to bind holds the
/// atom on the fact's other side.
pub open spec fn spec_bind(step: StepView, frame: Seq<Option<ValView>>, fact: FactView) -> Seq<
    Option<ValView>,
> {
    frame.update(
        step.unknown as int,
        Some(
            match step.side {
                Side::Left => fact.right,
                Side::Right => fact.left,
            },
        ),
    )
}

/// The fact that a rule states once all its joins have matched: the last
/// step's relation over the atoms in the frame, justified by the rule's label
/// and the matched facts in the order of the joins.
pub open spec fn spec_conclude(
    last: LastStepView,
    label: Seq<char>,
    frame: Seq<Option<ValView>>,
    dependencies: Seq<FactView>,
) -> FactView {
    FactView {
        fact_key: last.fact_key,
        fact_name: last.fact_name,
        left: spec_slot(frame, last.left).unwrap(),
        right: spec_operand_value(last.right, frame).unwrap(),
        trace: Some(TraceView::Rule { label, dependencies }),
    }
}

/// The facts that a rule derives from the join numbered `index` on, depth
/// first: each fact that the join matches is tried in the order in which the
/// store yields it, and all that follows from one match comes before what
/// follows from the next.
pub open spec fn spec_walk(
    store: Map<u64, Seq<FactView>>,
    rule: RuleView,
    index: nat,
    frame: Seq<Option<ValView>>,
    dependencies: Seq<FactView>,
) -> Seq<FactView>
    decreases rule.plan.steps.len() - index, 1nat, 0nat,
{
    if index >= rule.plan.steps.len() {
        seq![spec_conclude(rule.plan.last, rule.label, frame, dependencies)]
    } else {
        spec_walk_over(
            store,
            rule,
            index,
            frame,
            dependencies,
            spec_get(store, spec_step_query(rule.plan.steps[index as int], frame)),
        )
    }
}

/// The facts that a rule derives when the join numbered `index` matches the
/// facts `candidates`, one after another.
pub open spec fn spec_walk_over(
    store: Map<u64, Seq<FactView>>,
    rule: RuleView,
    index: nat,
    frame: Seq<Option<ValView>>,
    dependencies: Seq<FactView>,
    candidates: Seq<FactView>,
) -> Seq<FactView>
    decreases rule.plan.steps.len() - index, 0nat, candidates.len(),
{
    if index >= rule.plan.steps.len() || candidates.len() == 0 {
        Seq::empty()
    } else {
        spec_walk_over(store, rule, index, frame, dependencies, candidates.drop_last())
            + spec_walk(
            store,
            rule,
            index + 1,
            spec_bind(rule.plan.steps[index as int], frame, candidates.last()),
            dependencies.push(candidates.last()),
        )
    }
}

/// The frame in which a rule starts from the fact `seed`: empty but for the
/// first step's slot, which holds the seed's left atom.
pub open spec fn spec_seed_frame(plan: PlanView, seed: FactView) -> Seq<Option<ValView>> {
    Seq::new(plan.vars as nat, |var: int| None::<ValView>).update(
        plan.first.left as int,
        Some(seed.left),
    )
}

/// The facts that a rule derives when it starts from the facts `seeds`, one
/// after another.
pub open spec fn spec_derive_over(
    store: Map<u64, Seq<FactView>>,
    rule: RuleView,
    seeds: Seq<FactView>,
) -> Seq<FactView>
    decreases seeds.len(),
{
    if seeds.len() == 0 {
        Seq::empty()
    } else {
        spec_derive_over(store, rule, seeds.drop_last()) + spec_walk(
            store,
            rule,
            0,
            spec_seed_frame(rule.plan, seeds.last()),
            Seq::empty(),
        )
    }
}

/// The query that seeds a rule: every fact of the first step's relation.
pub open spec fn spec_seed_query(plan: PlanView) -> QueryView {
    QueryView { fact_key: plan.first.fact_key, left: None, right: None }
}

/// The facts that one rule derives from a store.
pub open spec fn spec_derive(store: Map<u64, Seq<FactView>>, rule: RuleView) -> Seq<FactView> {
    spec_derive_over(store, rule, spec_get(store, spec_seed_query(rule.plan)))
}

/// The facts that rules derive from a store, rule after rule.
pub open spec fn spec_derive_all(store: Map<u64, Seq<FactView>>, rules: Seq<RuleView>) -> Seq<
    FactView,
>
    decreases rules.len(),
{
    if rules.len() == 0 {
        Seq::empty()
    } else {
        spec_derive_all(store, rules.drop_last()) + spec_derive(store, rules.last())
    }
}

/// One round of evaluation: every rule derives from the store as it stands,
/// and then the store is offered all that was derived.
pub open spec fn spec_round(store: Map<u64, Seq<FactView>>, rules: Seq<RuleView>) -> Map<
    u64,
    Seq<FactView>,
> {
    spec_extend(store, spec_derive_all(store, rules))
}

/// A store after `n` rounds of evaluation.
pub open spec fn spec_rounds(store: Map<u64, Seq<FactView>>, rules: Seq<RuleView>, n: nat) -> Map<
    u64,
    Seq<FactView>,
>
    decreases n,
{
    if n == 0 {
        store
    } else {
        spec_round(spec_rounds(store, rules, (n - 1) as nat), rules)
    }
}

/// A store is closed under rules when it holds every fact that they derive from it.
pub open spec fn spec_closed(store: Map<u64, Seq<FactView>>, rules: Seq<RuleView>) -> bool {
    forall|i: int|
        0 <= i < spec_derive_all(store, rules).len() ==> spec_holds(
            store,
            #[trigger] spec_derive_all(store, rules)[i],
        )
}

/// A copy of a frame.
fn clone_frame(vars: &Vec<Option<Val<Erased>>>) -> (copy: Vec<Option<Val<Erased>>>)
    ensures
        spec_frame(copy@) == spec_frame(vars@),
{
    let mut copy: Vec<Option<Val<Erased>>> = Vec::new();
    let mut i: usize = 0;
    while i < vars.len()
        invariant
            i <= vars.len(),
            copy.len() == i,
            forall|j: int| 0 <= j < i ==> spec_frame(copy@)[j] == spec_frame(vars@)[j],
        decreases vars.len() - i,
    {
        let slot = match &vars[i] {
            Some(v) => Some(v.clone()),
            None => None,
        };
        copy.push(slot);
        i += 1;
    }
    assert(spec_frame(copy@) =~= spec_frame(vars@));
    copy
}

/// Whether a frame holds an atom in every slot that the first step and the
/// first `upto` joins of `plan` bind.
pub open spec fn spec_frame_ready(plan: PlanView, upto: int, frame: Seq<Option<ValView>>) -> bool {
    &&& frame.len() == plan.vars
    &&& forall|var: usize| #[trigger] spec_known(plan, upto, var) ==> spec_slot(frame, var) is Some
}

impl Context {
    /// Runs the rules against the store until a round adds nothing. In each
    /// round every rule derives from the store as it stood when the round
    /// began; what the round derived is offered to the store at its end.
    pub fn run(&mut self, rules: Rules)
        requires
            old(self).wf(),
            spec_rules_valid(rules@),
        ensures
            final(self).wf(),
            exists|n: nat| final(self)@ == spec_rounds(old(self)@, rules@, n),
            spec_round(final(self)@, rules@) == final(self)@,
            spec_closed(final(self)@, rules@),
            spec_grows(old(self)@, final(self)@),
    {
        let ghost before = self@;
        let ghost mut rounds: nat = 0;
        proof {
            self.lemma_store_ok();
            lemma_rounds_ok(before, rules@, 0);
        }
        loop
            invariant
                self.wf(),
                spec_rules_valid(rules@),
                spec_store_ok(before),
                self@ == spec_rounds(before, rules@, rounds),
            ensures
                self.wf(),
                self@ == spec_rounds(before, rules@, rounds),
                spec_round(self@, rules@) == self@,
                spec_closed(self@, rules@),
            decreases spec_room(self@),
        {
            let ghost current = self@;
            proof {
                self.lemma_store_ok();
                lemma_extend_room(current, spec_derive_all(current, rules@));
            }
            let did_add = self.round(&rules);
            if !did_add {
                break ;
            }
            proof {
                rounds = rounds + 1;
            }
        }
        proof {
            lemma_rounds_ok(before, rules@, rounds);
        }
    }

    /// Runs at most `limit` rounds of the rules against the store, and stops
    /// before that once a round adds nothing. Says whether a round added
    /// nothing, in which case the store is closed under the rules.
    pub fn run_within(&mut self, rules: &Rules, limit: usize) -> (settled: bool)
        requires
            old(self).wf(),
            spec_rules_valid(rules@),
        ensures
            final(self).wf(),
            final(self)@ == spec_rounds(old(self)@, rules@, limit as nat),
            settled <==> exists|n: nat|
                n < limit && spec_round(#[trigger] spec_rounds(old(self)@, rules@, n), rules@)
                    == spec_rounds(old(self)@, rules@, n),
            settled ==> spec_closed(final(self)@, rules@),
            spec_grows(old(self)@, final(self)@),
    {
        let ghost before = self@;
        let mut count: usize = 0;
        proof {
            self.lemma_store_ok();
        }
        while count < limit
            invariant
                self.wf(),
                spec_rules_valid(rules@),
                count <= limit,
                before == old(self)@,
                spec_store_ok(before),
                self@ == spec_rounds(before, rules@, count as nat),
                forall|n: nat|
                    n < count ==> spec_round(#[trigger] spec_rounds(before, rules@, n), rules@)
                        != spec_rounds(before, rules@, n),
            decreases limit - count,
        {
            let did_add = self.round(rules);
            if !did_add {
                proof {
                    lemma_rounds_settle(before, rules@, count as nat, limit as nat);
                    lemma_rounds_ok(before, rules@, limit as nat);
                }
                return true;
            }
            count += 1;
        }
        proof {
            lemma_rounds_ok(before, rules@, limit as nat);
        }
        false
    }

    /// Runs one round: every rule derives from the store as it stands, and
    /// then the store is offered all that was derived. Says whether the store
    /// took anything; if it took nothing, it is closed under the rules.
    pub fn round(&mut self, rules: &Rules) -> (changed: bool)
        requires
            old(self).wf(),
            spec_rules_valid(rules@),
        ensures
            final(self).wf(),
            final(self)@ == spec_round(old(self)@, rules@),
            changed == (final(self)@ != old(self)@),
            !changed ==> spec_closed(final(self)@, rules@),
    {
        let new_facts = self.derive(rules);
        let did_add = self.extend(new_facts);
        if !did_add {
            assert forall|i: int| 0 <= i < spec_derive_all(self@, rules@).len() implies spec_holds(
                self@,
                #[trigger] spec_derive_all(self@, rules@)[i],
            ) by {
                assert(spec_derive_all(self@, rules@)[i] == new_facts@[i]@);
            }
        }
        did_add
    }

    /// The facts that the rules derive from the store as it stands, rule
    /// after rule in the order in which they were added. The store itself
    /// stays as it is.
    pub fn derive(&self, rules: &Rules) -> (new_facts: Vec<Fact<Erased>>)
        requires
            self.wf(),
            spec_rules_valid(rules@),
        ensures
            spec_views(new_facts@) == spec_derive_all(self@, rules@),
    {
        let mut new_facts: Vec<Fact<Erased>> = Vec::new();
        let list = rules.iter();
        let mut r: usize = 0;
        assert(rules@.take(0) =~= Seq::<RuleView>::empty());
        while r < list.len()
            invariant
                self.wf(),
                spec_rules_valid(rules@),
                spec_rule_views(list@) == rules@,
                r <= list.len(),
                spec_views(new_facts@) == spec_derive_all(self@, rules@.take(r as int)),
            decreases list.len() - r,
        {
            let rule = &list[r];
            let first = &rule.plan.first;
            let ghost start = spec_views(new_facts@);
            assert(rules@[r as int] == rule@);
            let facts = self.get(Query::<Erased>::raw(first.fact_key, None, None));
            let ghost seeds = spec_views(facts@);
            assert(seeds == spec_get(self@, spec_seed_query(rule@.plan)));
            let mut s: usize = 0;
            while s < facts.len()
                invariant
                    self.wf(),
                    spec_plan_valid(rule@.plan),
                    first == &rule.plan.first,
                    s <= facts.len(),
                    seeds == spec_views(facts@),
                    spec_views(new_facts@) == start + spec_derive_over(
                        self@,
                        rule@,
                        seeds.take(s as int),
                    ),
                decreases facts.len() - s,
            {
                let fact = &facts[s];
                let mut vars: Vec<Option<Val<Erased>>> = Vec::new();
                let mut v: usize = 0;
                while v < rule.plan.vars
                    invariant
                        v <= rule.plan.vars,
                        vars.len() == v,
                        forall|j: int| 0 <= j < v ==> (#[trigger] vars[j]) is None,
                    decreases rule.plan.vars - v,
                {
                    vars.push(None);
                    v += 1;
                }
                vars.set(first.left.index, Some(fact.left.clone()));
                proof {
                    assert(seeds.take(s + 1).drop_last() =~= seeds.take(s as int));
                    assert(seeds.take(s + 1).last() == fact@);
                    assert(spec_frame(vars@) =~= spec_seed_frame(rule@.plan, fact@));
                    assert(spec_views(Seq::<Fact<Erased>>::empty()) =~= Seq::<FactView>::empty());
                }
                self.run_rule(rule, 0, &vars, Vec::new(), &mut new_facts);
                s += 1;
            }
            proof {
                assert(seeds.take(s as int) =~= seeds);
                assert(rules@.take(r + 1).drop_last() =~= rules@.take(r as int));
                assert(rules@.take(r + 1).last() == rule@);
            }
            r += 1;
        }
        assert(rules@.take(r as int) =~= rules@);
        new_facts
    }

    /// Runs the joins of `rule` from the one numbered `index` on, in the
    /// frame `vars`, and puts every fact that the rule derives behind
    /// `new_facts`. The store itself stays as it is.
    fn run_rule(
        &self,
        rule: &Rule,
        index: usize,
        vars: &Vec<Option<Val<Erased>>>,
        dependencies: Vec<Fact<Erased>>,
        new_facts: &mut Vec<Fact<Erased>>,
    )
        requires
            self.wf(),
            spec_plan_valid(rule@.plan),
            index <= rule.plan.steps@.len(),
            spec_frame_ready(rule@.plan, index as int, spec_frame(vars@)),
        ensures
            spec_views(final(new_facts)@) == spec_views(old(new_facts)@) + spec_walk(
                self@,
                rule@,
                index as nat,
                spec_frame(vars@),
                spec_views(dependencies@),
            ),
        decreases rule.plan.steps@.len() - index,
    {
        let ghost plan = rule@.plan;
        let ghost frame = spec_frame(vars@);
        let ghost deps = spec_views(dependencies@);
        let ghost start = spec_views(new_facts@);
        if index < rule.plan.steps.len() {
            let step = &rule.plan.steps[index];
            assert(plan.steps[index as int] == step@);
            let known = match &step.known {
                Ok(v) => Some(v.clone()),
                Err(var) => {
                    assert(spec_known(plan, index as int, var@));
                    match &vars[var.index] {
                        Some(v) => Some(v.clone()),
                        None => None,
                    }
                },
            };
            let unknown = match &vars[step.unknown.index] {
                Some(v) => Some(v.clone()),
                None => None,
            };
            let query = match step.side {
                Side::Left => Query::<Erased>::raw(step.fact_key, known, unknown),
                Side::Right => Query::<Erased>::raw(step.fact_key, unknown, known),
            };
            assert(query@ == spec_step_query(step@, frame));
            let facts = self.get(query);
            let ghost candidates = spec_views(facts@);
            for fact in iter: facts
                invariant
                    self.wf(),
                    spec_plan_valid(plan),
                    plan == rule@.plan,
                    index < rule.plan.steps.len(),
                    step@ == plan.steps[index as int],
                    frame == spec_frame(vars@),
                    spec_frame_ready(plan, index as int, frame),
                    deps == spec_views(dependencies@),
                    iter.seq() == facts@,
                    candidates == spec_views(facts@),
                    spec_views(new_facts@) == start + spec_walk_over(
                        self@,
                        rule@,
                        index as nat,
                        frame,
                        deps,
                        candidates.take(iter.index()),
                    ),
            {
                let mut next_vars = clone_frame(vars);
                let bound = match step.side {
                    Side::Left => fact.right.clone(),
                    Side::Right => fact.left.clone(),
                };
                next_vars.set(step.unknown.index, Some(bound));
                let mut next_deps = clone_facts(&dependencies);
                next_deps.push(fact);
                proof {
                    let n = iter.index();
                    assert(candidates.take(n + 1).drop_last() =~= candidates.take(n));
                    assert(candidates.take(n + 1).last() == fact@);
                    assert(spec_frame(next_vars@) =~= spec_bind(step@, frame, fact@));
                    assert(spec_views(next_deps@) =~= deps.push(fact@));
                    assert forall|var: usize| #[trigger]
                        spec_known(plan, index + 1, var) implies spec_slot(
                        spec_frame(next_vars@),
                        var,
                    ) is Some by {
                        if var != step@.unknown {
                            assert(spec_known(plan, index as int, var));
                        }
                    }
                }
                self.run_rule(rule, index + 1, &next_vars, next_deps, new_facts);
            }
            assert(candidates.take(facts@.len() as int) =~= candidates);
        } else {
            let last = &rule.plan.last;
            let left = match &vars[last.left.index] {
                Some(v) => v.clone(),
                None => {
                    assert(false);
                    return ;
                },
            };
            let right = match &last.right {
                Ok(v) => v.clone(),
                Err(var) => {
                    assert(spec_known(plan, index as int, var@));
                    match &vars[var.index] {
                        Some(v) => v.clone(),
                        None => {
                            assert(false);
                            return ;
                        },
                    }
                },
            };
            let label = rule.label.clone();
            proof {
                lemma_rule_trace_view(label, dependencies);
            }
            let fact = Fact {
                fact_key: last.fact_key,
                fact_name: last.fact_name.clone(),
                left,
                right,
                trace: Some(Trace::Rule { label, dependencies }),
            };
            assert(fact@ == spec_conclude(plan.last, rule@.label, frame, deps));
            new_facts.push(fact);
            assert(spec_views(new_facts@) =~= start + seq![fact@]);
        }
    }
}

} // verus!
