use crate::context::{
    spec_facts_of, spec_get, spec_holds, spec_matches, spec_same_fact, spec_store_ok,
};
use crate::eval::{
    spec_bind, spec_closed, spec_conclude, spec_derive, spec_derive_all, spec_derive_over,
    spec_operand_value, spec_seed_frame, spec_seed_query, spec_slot, spec_step_query, spec_walk,
    spec_walk_over,
};
use crate::fact::FactView;
use crate::laws::{
    lemma_get_all, lemma_get_exact, lemma_registered_occurs, spec_anchors, spec_chained,
    spec_links, spec_occurs,
};
use crate::plan::{
    lemma_find, spec_body_names, spec_plan, spec_position, spec_slot_of, spec_term_operand,
    PatternView, TermView,
};
use crate::rule::{spec_known, spec_operand_known, spec_plan_valid, PlanView, RuleView, Side};
use crate::val::ValView;
use vstd::prelude::*;

verus! {

/// The frame after a rule has matched the first `count` of the facts
/// `matched` with its joins from the one numbered `index` on.
pub open spec fn spec_frame_after(
    plan: PlanView,
    index: nat,
    frame: Seq<Option<ValView>>,
    matched: Seq<FactView>,
    count: nat,
) -> Seq<Option<ValView>>
    decreases count,
{
    if count == 0 {
        frame
    } else {
        spec_bind(
            plan.steps[index + count - 1],
            spec_frame_after(plan, index, frame, matched, (count - 1) as nat),
            matched[count - 1],
        )
    }
}

/// Whether the facts `matched` are a way through the joins of a plan from
/// the one numbered `index` on: there is one fact for each join, and each
/// is among what its join asks of the store in the frame that the facts
/// before it have left.
pub open spec fn spec_is_path(
    store: Map<u64, Seq<FactView>>,
    plan: PlanView,
    index: nat,
    frame: Seq<Option<ValView>>,
    matched: Seq<FactView>,
) -> bool {
    &&& index + matched.len() == plan.steps.len()
    &&& forall|k: int|
        0 <= k < matched.len() ==> spec_get(
            store,
            spec_step_query(
                plan.steps[index + k],
                spec_frame_after(plan, index, frame, matched, k as nat),
            ),
        ).contains(#[trigger] matched[k])
}

/// The fact that a rule states at the end of a way through its joins.
pub open spec fn spec_path_fact(
    rule: RuleView,
    index: nat,
    frame: Seq<Option<ValView>>,
    dependencies: Seq<FactView>,
    matched: Seq<FactView>,
) -> FactView {
    spec_conclude(
        rule.plan.last,
        rule.label,
        spec_frame_after(rule.plan, index, frame, matched, matched.len()),
        dependencies + matched,
    )
}

/// Matching one fact and then `count` more is matching `count + 1` facts.
pub proof fn lemma_frame_after_shift(
    plan: PlanView,
    index: nat,
    frame: Seq<Option<ValView>>,
    first: FactView,
    rest: Seq<FactView>,
    count: nat,
)
    requires
        count <= rest.len(),
    ensures
        spec_frame_after(plan, index, frame, seq![first] + rest, count + 1) == spec_frame_after(
            plan,
            index + 1,
            spec_bind(plan.steps[index as int], frame, first),
            rest,
            count,
        ),
    decreases count,
{
    let all = seq![first] + rest;
    if count > 0 {
        lemma_frame_after_shift(plan, index, frame, first, rest, (count - 1) as nat);
        assert(all[count as int] == rest[count - 1]);
    } else {
        assert(all[0] == first);
        assert(spec_frame_after(plan, index, frame, all, 0) == frame);
    }
}

/// What a rule derives over candidates is what it derives behind one of them.
pub proof fn lemma_walk_over_members(
    store: Map<u64, Seq<FactView>>,
    rule: RuleView,
    index: nat,
    frame: Seq<Option<ValView>>,
    dependencies: Seq<FactView>,
    candidates: Seq<FactView>,
    fact: FactView,
)
    requires
        index < rule.plan.steps.len(),
    ensures
        spec_walk_over(store, rule, index, frame, dependencies, candidates).contains(fact)
            <==> exists|j: int|
            0 <= j < candidates.len() && #[trigger] spec_walk(
                store,
                rule,
                index + 1,
                spec_bind(rule.plan.steps[index as int], frame, candidates[j]),
                dependencies.push(candidates[j]),
            ).contains(fact),
    decreases candidates.len(),
{
    let all = spec_walk_over(store, rule, index, frame, dependencies, candidates);
    if candidates.len() > 0 {
        let front = candidates.drop_last();
        let before = spec_walk_over(store, rule, index, frame, dependencies, front);
        let behind = spec_walk(
            store,
            rule,
            index + 1,
            spec_bind(rule.plan.steps[index as int], frame, candidates.last()),
            dependencies.push(candidates.last()),
        );
        lemma_walk_over_members(store, rule, index, frame, dependencies, front, fact);
        lemma_concat_contains(before, behind, fact);
        if before.contains(fact) {
            let j = choose|j: int|
                0 <= j < front.len() && #[trigger] spec_walk(
                    store,
                    rule,
                    index + 1,
                    spec_bind(rule.plan.steps[index as int], frame, front[j]),
                    dependencies.push(front[j]),
                ).contains(fact);
            assert(front[j] == candidates[j]);
        }
        if behind.contains(fact) {
            assert(candidates[candidates.len() - 1] == candidates.last());
        }
        if exists|j: int|
            0 <= j < candidates.len() && #[trigger] spec_walk(
                store,
                rule,
                index + 1,
                spec_bind(rule.plan.steps[index as int], frame, candidates[j]),
                dependencies.push(candidates[j]),
            ).contains(fact) {
            let j = choose|j: int|
                0 <= j < candidates.len() && #[trigger] spec_walk(
                    store,
                    rule,
                    index + 1,
                    spec_bind(rule.plan.steps[index as int], frame, candidates[j]),
                    dependencies.push(candidates[j]),
                ).contains(fact);
            if j < front.len() {
                assert(front[j] == candidates[j]);
            }
        }
    }
}

/// An element is in two sequences put together exactly when it is in one of them.
pub proof fn lemma_concat_contains<A>(a: Seq<A>, b: Seq<A>, x: A)
    ensures
        (a + b).contains(x) <==> a.contains(x) || b.contains(x),
{
    if (a + b).contains(x) {
        let i = choose|i: int| 0 <= i < (a + b).len() && (a + b)[i] == x;
        if i < a.len() {
            assert(a[i] == x);
        } else {
            assert(b[i - a.len()] == x);
        }
    }
    if a.contains(x) {
        let i = choose|i: int| 0 <= i < a.len() && a[i] == x;
        assert((a + b)[i] == x);
    }
    if b.contains(x) {
        let i = choose|i: int| 0 <= i < b.len() && b[i] == x;
        assert((a + b)[a.len() + i] == x);
    }
}

/// A way through the joins from one of them on is a fact that this join
/// asks for, followed by a way through the joins behind it; and the two
/// ways end in the same fact.
pub proof fn lemma_path_split(
    store: Map<u64, Seq<FactView>>,
    rule: RuleView,
    index: nat,
    frame: Seq<Option<ValView>>,
    dependencies: Seq<FactView>,
    first: FactView,
    rest: Seq<FactView>,
)
    requires
        index < rule.plan.steps.len(),
    ensures
        spec_is_path(store, rule.plan, index, frame, seq![first] + rest) <==> spec_get(
            store,
            spec_step_query(rule.plan.steps[index as int], frame),
        ).contains(first) && spec_is_path(
            store,
            rule.plan,
            index + 1,
            spec_bind(rule.plan.steps[index as int], frame, first),
            rest,
        ),
        spec_path_fact(rule, index, frame, dependencies, seq![first] + rest) == spec_path_fact(
            rule,
            index + 1,
            spec_bind(rule.plan.steps[index as int], frame, first),
            dependencies.push(first),
            rest,
        ),
{
    let plan = rule.plan;
    let step = plan.steps[index as int];
    let next = spec_bind(step, frame, first);
    let matched = seq![first] + rest;
    let asked = spec_get(store, spec_step_query(step, frame));
    assert(matched[0] == first);
    assert(spec_frame_after(plan, index, frame, matched, 0) == frame);
    lemma_frame_after_shift(plan, index, frame, first, rest, rest.len());
    assert(dependencies.push(first) + rest =~= dependencies + matched);
    if spec_is_path(store, plan, index, frame, matched) {
        assert(asked.contains(matched[0]));
        assert forall|k: int| 0 <= k < rest.len() implies spec_get(
            store,
            spec_step_query(
                plan.steps[index + 1 + k],
                spec_frame_after(plan, index + 1, next, rest, k as nat),
            ),
        ).contains(#[trigger] rest[k]) by {
            lemma_frame_after_shift(plan, index, frame, first, rest, k as nat);
            assert(matched[k + 1] == rest[k]);
        }
    }
    if asked.contains(first) && spec_is_path(store, plan, index + 1, next, rest) {
        assert forall|k: int| 0 <= k < matched.len() implies spec_get(
            store,
            spec_step_query(
                plan.steps[index + k],
                spec_frame_after(plan, index, frame, matched, k as nat),
            ),
        ).contains(#[trigger] matched[k]) by {
            if k > 0 {
                lemma_frame_after_shift(plan, index, frame, first, rest, (k - 1) as nat);
                assert(matched[k] == rest[k - 1]);
            }
        }
    }
}

/// Every fact that a rule derives from a join on is stated at the end of a
/// way through its joins from there. The lemma hands out that way.
pub proof fn lemma_walk_has_path(
    store: Map<u64, Seq<FactView>>,
    rule: RuleView,
    index: nat,
    frame: Seq<Option<ValView>>,
    dependencies: Seq<FactView>,
    fact: FactView,
) -> (matched: Seq<FactView>)
    requires
        index <= rule.plan.steps.len(),
        spec_walk(store, rule, index, frame, dependencies).contains(fact),
    ensures
        spec_is_path(store, rule.plan, index, frame, matched),
        fact == spec_path_fact(rule, index, frame, dependencies, matched),
    decreases rule.plan.steps.len() - index,
{
    let plan = rule.plan;
    let walk = spec_walk(store, rule, index, frame, dependencies);
    if index >= plan.steps.len() {
        let none = Seq::<FactView>::empty();
        assert(dependencies + none =~= dependencies);
        none
    } else {
        let step = plan.steps[index as int];
        let candidates = spec_get(store, spec_step_query(step, frame));
        lemma_walk_over_members(store, rule, index, frame, dependencies, candidates, fact);
        let j = choose|j: int|
            0 <= j < candidates.len() && #[trigger] spec_walk(
                store,
                rule,
                index + 1,
                spec_bind(step, frame, candidates[j]),
                dependencies.push(candidates[j]),
            ).contains(fact);
        let first = candidates[j];
        let next = spec_bind(step, frame, first);
        let rest = lemma_walk_has_path(
            store,
            rule,
            index + 1,
            next,
            dependencies.push(first),
            fact,
        );
        lemma_path_split(store, rule, index, frame, dependencies, first, rest);
        seq![first] + rest
    }
}

/// The fact at the end of every way through the joins of a rule is among
/// what the rule derives.
pub proof fn lemma_path_is_walked(
    store: Map<u64, Seq<FactView>>,
    rule: RuleView,
    index: nat,
    frame: Seq<Option<ValView>>,
    dependencies: Seq<FactView>,
    matched: Seq<FactView>,
)
    requires
        spec_is_path(store, rule.plan, index, frame, matched),
    ensures
        spec_walk(store, rule, index, frame, dependencies).contains(
            spec_path_fact(rule, index, frame, dependencies, matched),
        ),
    decreases matched.len(),
{
    let plan = rule.plan;
    let walk = spec_walk(store, rule, index, frame, dependencies);
    let fact = spec_path_fact(rule, index, frame, dependencies, matched);
    if matched.len() == 0 {
        assert(dependencies + matched =~= dependencies);
        assert(walk[0] == fact);
    } else {
        let step = plan.steps[index as int];
        let candidates = spec_get(store, spec_step_query(step, frame));
        let first = matched[0];
        let rest = matched.skip(1);
        let next = spec_bind(step, frame, first);
        assert(matched =~= seq![first] + rest);
        lemma_path_split(store, rule, index, frame, dependencies, first, rest);
        lemma_path_is_walked(store, rule, index + 1, next, dependencies.push(first), rest);
        let j = choose|j: int| 0 <= j < candidates.len() && candidates[j] == first;
        assert(spec_walk(
            store,
            rule,
            index + 1,
            spec_bind(step, frame, candidates[j]),
            dependencies.push(candidates[j]),
        ).contains(fact));
        lemma_walk_over_members(store, rule, index, frame, dependencies, candidates, fact);
    }
}

/// The identity that a term stands for when each variable stands for the
/// identity that `assignment` gives it.
pub open spec fn spec_term_id(term: TermView, assignment: spec_fn(Seq<char>) -> u32) -> u32 {
    match term {
        TermView::Var(name) => assignment(name),
        TermView::Val(v) => v.counter,
    }
}

/// Whether `fact` is what `pattern` says under `assignment`: a fact of the
/// pattern's relation between the atoms that its two terms stand for.
pub open spec fn spec_instance(
    pattern: PatternView,
    assignment: spec_fn(Seq<char>) -> u32,
    fact: FactView,
) -> bool {
    &&& fact.fact_key == pattern.fact_key
    &&& fact.left.counter == spec_term_id(pattern.left, assignment)
    &&& fact.right.counter == spec_term_id(pattern.right, assignment)
}

/// Whether a store holds what `pattern` says under `assignment`.
pub open spec fn spec_satisfied(
    store: Map<u64, Seq<FactView>>,
    pattern: PatternView,
    assignment: spec_fn(Seq<char>) -> u32,
) -> bool {
    exists|i: int|
        0 <= i < spec_facts_of(store, pattern.fact_key).len() && spec_instance(
            pattern,
            assignment,
            #[trigger] spec_facts_of(store, pattern.fact_key)[i],
        )
}

/// Whether a rule yields `fact` from a store: some assignment of atoms to
/// the rule's variables makes the store hold every pattern of the body and
/// makes the head say `fact`.
pub open spec fn spec_entails(
    store: Map<u64, Seq<FactView>>,
    head: PatternView,
    body: Seq<PatternView>,
    fact: FactView,
) -> bool {
    exists|assignment: spec_fn(Seq<char>) -> u32| #[trigger]
        spec_instance(head, assignment, fact) && forall|i: int|
            0 <= i < body.len() ==> spec_satisfied(store, #[trigger] body[i], assignment)
}

/// The atom on one side of a fact.
pub open spec fn spec_side(fact: FactView, side: Side) -> ValView {
    match side {
        Side::Left => fact.left,
        Side::Right => fact.right,
    }
}

/// The other side.
pub open spec fn spec_across(side: Side) -> Side {
    match side {
        Side::Left => Side::Right,
        Side::Right => Side::Left,
    }
}

/// The term of a pattern on one side.
pub open spec fn spec_term_on(pattern: PatternView, side: Side) -> TermView {
    match side {
        Side::Left => pattern.left,
        Side::Right => pattern.right,
    }
}

/// The side on which the join of the body pattern numbered `i` is anchored.
pub open spec fn spec_anchor_side(body: Seq<PatternView>, i: int) -> Side {
    if spec_anchors(body, i, body[i].left) {
        Side::Left
    } else {
        Side::Right
    }
}

/// Whether a variable is bound when the turn of the body pattern numbered
/// `i` comes: it is the left side of the first pattern or occurs earlier.
pub open spec fn spec_bound_name(body: Seq<PatternView>, i: int, name: Seq<char>) -> bool {
    body[0].left == TermView::Var(name) || spec_occurs(body, i, name)
}

/// Every variable of a body pattern has a slot, and the slot holds its name.
pub proof fn lemma_slot(body: Seq<PatternView>, i: int, side: Side)
    requires
        0 <= i < body.len(),
    ensures
        spec_term_on(body[i], side) matches TermView::Var(name) ==> 0 <= spec_position(
            spec_body_names(body),
            name,
        ) < spec_body_names(body).len() && spec_body_names(body)[spec_position(
            spec_body_names(body),
            name,
        )] == name && spec_occurs(body, i + 1, name) && spec_occurs(body, body.len() as int, name),
{
    if let TermView::Var(name) = spec_term_on(body[i], side) {
        assert(body.take(body.len() as int) =~= body);
        assert(spec_occurs(body, i + 1, name));
        assert(spec_occurs(body, body.len() as int, name));
        lemma_registered_occurs(body, body.len() as int, name);
        lemma_find(spec_body_names(body), name, 0);
    }
}

/// What the join of a body pattern in a chain looks like: it reads the
/// pattern's relation, is anchored on the side whose term is known, and binds
/// the variable on the other side.
pub proof fn lemma_step_shape(head: PatternView, body: Seq<PatternView>, i: int)
    requires
        spec_chained(head, body),
        0 <= i < body.len(),
    ensures
        ({
            let step = spec_plan(head, body).steps[i];
            let names = spec_body_names(body);
            let side = spec_anchor_side(body, i);
            &&& step.fact_key == body[i].fact_key
            &&& step.side == side
            &&& step.known == spec_term_operand(names, spec_term_on(body[i], side))
            &&& spec_term_on(body[i], spec_across(side)) is Var
            &&& step.unknown == spec_slot_of(names, spec_term_on(body[i], spec_across(side)))
            &&& spec_anchors(body, i, spec_term_on(body[i], side))
        }),
{
    assert(spec_links(body, i));
    if let TermView::Var(name) = body[i].left {
        lemma_registered_occurs(body, i, name);
    }
    if let TermView::Var(name) = body[i].right {
        lemma_registered_occurs(body, i, name);
    }
}

/// In the plan of a chain, the slot of every variable that is bound when
/// the turn of a body pattern comes is bound by the steps before that pattern's join.
pub proof fn lemma_bound_known(head: PatternView, body: Seq<PatternView>, i: int, name: Seq<char>)
    requires
        spec_chained(head, body),
        spec_body_names(body).len() <= usize::MAX,
        0 <= i <= body.len(),
        spec_bound_name(body, i, name),
    ensures
        spec_known(
            spec_plan(head, body),
            i,
            spec_position(spec_body_names(body), name) as usize,
        ),
    decreases i,
{
    let plan = spec_plan(head, body);
    let names = spec_body_names(body);
    let slot = spec_position(names, name) as usize;
    assert(spec_links(body, 0));
    if body[0].left == TermView::Var(name) {
        assert(plan.first.left == slot);
    } else {
        let j = choose|j: int|
            0 <= j < i && j < body.len() && ((#[trigger] body[j]).left == TermView::Var(name)
                || body[j].right == TermView::Var(name));
        lemma_step_shape(head, body, j);
        let side = spec_anchor_side(body, j);
        if spec_term_on(body[j], spec_across(side)) == TermView::Var(name) {
            assert(plan.steps[j].unknown == slot);
        } else {
            assert(spec_term_on(body[j], side) == TermView::Var(name));
            assert(spec_bound_name(body, j, name));
            lemma_bound_known(head, body, j, name);
            if slot != plan.first.left {
                let w = choose|w: int|
                    0 <= w < j && w < plan.steps.len() && (#[trigger] plan.steps[w]).unknown == slot;
                assert(plan.steps[w].unknown == slot);
            }
        }
    }
}

/// The plan of a chain is valid.
pub proof fn lemma_chain_plan_valid(head: PatternView, body: Seq<PatternView>)
    requires
        spec_chained(head, body),
        spec_body_names(body).len() <= usize::MAX,
    ensures
        spec_plan_valid(spec_plan(head, body)),
{
    let plan = spec_plan(head, body);
    let names = spec_body_names(body);
    let count = body.len() as int;
    assert(spec_links(body, 0));
    lemma_slot(body, 0, Side::Left);
    assert forall|i: int| 0 <= i < plan.steps.len() implies (#[trigger] plan.steps[i]).unknown
        < plan.vars && spec_operand_known(plan, i, plan.steps[i].known) by {
        lemma_step_shape(head, body, i);
        lemma_unknown_in_frame(head, body, i);
        if let TermView::Var(name) = spec_term_on(body[i], spec_anchor_side(body, i)) {
            lemma_bound_known(head, body, i, name);
        }
    }
    if let TermView::Var(name) = head.left {
        lemma_bound_known(head, body, count, name);
    }
    if let TermView::Var(name) = head.right {
        lemma_bound_known(head, body, count, name);
    }
}

/// The frame after the first `count` joins of a compiled rule that started
/// from the fact `seed` and matched the facts `matched`.
pub open spec fn spec_stage(
    head: PatternView,
    body: Seq<PatternView>,
    seed: FactView,
    matched: Seq<FactView>,
    count: nat,
) -> Seq<Option<ValView>> {
    spec_frame_after(
        spec_plan(head, body),
        0,
        spec_seed_frame(spec_plan(head, body), seed),
        matched,
        count,
    )
}

/// Whether the facts `matched` are a way through all joins of a compiled
/// rule that started from the fact `seed`.
pub open spec fn spec_rule_path(
    store: Map<u64, Seq<FactView>>,
    head: PatternView,
    body: Seq<PatternView>,
    seed: FactView,
    matched: Seq<FactView>,
) -> bool {
    spec_is_path(
        store,
        spec_plan(head, body),
        0,
        spec_seed_frame(spec_plan(head, body), seed),
        matched,
    )
}

/// What one join does on a way through a compiled rule: the fact it
/// matches is a fact of the pattern's relation in the store; it has on the
/// anchored side the atom of the known term, and on the other side the atom
/// of the slot to bind where that was bound already; and afterwards that
/// slot holds the atom on the other side.
pub proof fn lemma_path_step(
    store: Map<u64, Seq<FactView>>,
    head: PatternView,
    body: Seq<PatternView>,
    seed: FactView,
    matched: Seq<FactView>,
    k: int,
)
    requires
        spec_store_ok(store),
        spec_chained(head, body),
        spec_rule_path(store, head, body, seed, matched),
        0 <= k < body.len(),
    ensures
        ({
            let step = spec_plan(head, body).steps[k];
            let frame = spec_stage(head, body, seed, matched, k as nat);
            let fact = matched[k];
            &&& k < matched.len()
            &&& spec_facts_of(store, body[k].fact_key).contains(fact)
            &&& fact.fact_key == body[k].fact_key
            &&& spec_operand_value(step.known, frame) matches Some(v) ==> spec_side(
                fact,
                step.side,
            ).counter == v.counter
            &&& spec_slot(frame, step.unknown) matches Some(v) ==> spec_side(
                fact,
                spec_across(step.side),
            ).counter == v.counter
            &&& spec_stage(head, body, seed, matched, (k + 1) as nat) == frame.update(
                step.unknown as int,
                Some(spec_side(fact, spec_across(step.side))),
            )
        }),
{
    let plan = spec_plan(head, body);
    let step = plan.steps[k];
    let frame = spec_stage(head, body, seed, matched, k as nat);
    let fact = matched[k];
    let query = spec_step_query(step, frame);
    lemma_step_shape(head, body, k);
    assert(spec_get(store, query).contains(matched[k]));
    lemma_get_exact(store, query, fact);
    let i = choose|i: int|
        0 <= i < spec_facts_of(store, query.fact_key).len() && spec_facts_of(
            store,
            query.fact_key,
        )[i] == fact;
    assert(spec_facts_of(store, query.fact_key)[i].fact_key == query.fact_key);
}

/// On a way through a compiled rule every frame has a slot for each
/// variable, and the slot of every variable that is bound by then holds an atom.
pub proof fn lemma_stage_bound(
    store: Map<u64, Seq<FactView>>,
    head: PatternView,
    body: Seq<PatternView>,
    seed: FactView,
    matched: Seq<FactView>,
    k: nat,
)
    requires
        spec_store_ok(store),
        spec_chained(head, body),
        spec_body_names(body).len() <= usize::MAX,
        spec_rule_path(store, head, body, seed, matched),
        k <= body.len(),
    ensures
        spec_stage(head, body, seed, matched, k).len() == spec_body_names(body).len(),
        forall|name: Seq<char>| #[trigger]
            spec_bound_name(body, k as int, name) ==> spec_slot(
                spec_stage(head, body, seed, matched, k),
                spec_position(spec_body_names(body), name) as usize,
            ) is Some,
    decreases k,
{
    let names = spec_body_names(body);
    let plan = spec_plan(head, body);
    let frame = spec_stage(head, body, seed, matched, k);
    assert(spec_links(body, 0));
    lemma_slot(body, 0, Side::Left);
    if k == 0 {
        assert forall|name: Seq<char>| #[trigger]
            spec_bound_name(body, 0, name) implies spec_slot(
            frame,
            spec_position(names, name) as usize,
        ) is Some by {}
    } else {
        let before = spec_stage(head, body, seed, matched, (k - 1) as nat);
        lemma_stage_bound(store, head, body, seed, matched, (k - 1) as nat);
        lemma_path_step(store, head, body, seed, matched, k - 1);
        lemma_step_shape(head, body, k - 1);
        lemma_slot(body, k - 1, Side::Left);
        lemma_slot(body, k - 1, Side::Right);
        assert forall|name: Seq<char>| #[trigger]
            spec_bound_name(body, k as int, name) implies spec_slot(
            frame,
            spec_position(names, name) as usize,
        ) is Some by {
            if !spec_bound_name(body, k - 1, name) {
                let j = choose|j: int|
                    0 <= j < k && j < body.len() && ((#[trigger] body[j]).left == TermView::Var(
                        name,
                    ) || body[j].right == TermView::Var(name));
                if j < k - 1 {
                    assert(spec_occurs(body, k - 1, name));
                }
                assert(j == k - 1);
            }
        }
    }
}

/// Putting into a slot of a frame the atom that was there, if one was,
/// leaves every slot that held an atom holding that atom.
pub proof fn lemma_update_keeps(
    before: Seq<Option<ValView>>,
    bound: usize,
    put: ValView,
    slot: usize,
)
    requires
        bound < before.len(),
        spec_slot(before, bound) matches Some(v) ==> put.counter == v.counter,
        spec_slot(before, slot) is Some,
    ensures
        spec_slot(before.update(bound as int, Some(put)), slot) is Some,
        spec_slot(before.update(bound as int, Some(put)), slot)->Some_0.counter == spec_slot(
            before,
            slot,
        )->Some_0.counter,
{
}

/// The slot that a join of a compiled rule binds lies in the frame.
pub proof fn lemma_unknown_in_frame(head: PatternView, body: Seq<PatternView>, k: int)
    requires
        spec_chained(head, body),
        spec_body_names(body).len() <= usize::MAX,
        0 <= k < body.len(),
    ensures
        spec_plan(head, body).steps[k].unknown < spec_body_names(body).len(),
{
    lemma_step_shape(head, body, k);
    lemma_slot(body, k, Side::Left);
    lemma_slot(body, k, Side::Right);
}

/// One join changes a frame in the slot that it binds and nowhere else, and
/// what it puts there is the atom that was there, if one was.
pub proof fn lemma_stage_next(
    store: Map<u64, Seq<FactView>>,
    head: PatternView,
    body: Seq<PatternView>,
    seed: FactView,
    matched: Seq<FactView>,
    k: nat,
    slot: usize,
)
    requires
        spec_store_ok(store),
        spec_chained(head, body),
        spec_body_names(body).len() <= usize::MAX,
        spec_rule_path(store, head, body, seed, matched),
        k < body.len(),
        spec_slot(spec_stage(head, body, seed, matched, k), slot) is Some,
    ensures
        spec_slot(spec_stage(head, body, seed, matched, k + 1), slot) is Some,
        spec_slot(spec_stage(head, body, seed, matched, k + 1), slot)->Some_0.counter == spec_slot(
            spec_stage(head, body, seed, matched, k),
            slot,
        )->Some_0.counter,
{
    let before = spec_stage(head, body, seed, matched, k);
    let after = spec_stage(head, body, seed, matched, k + 1);
    let step = spec_plan(head, body).steps[k as int];
    let put = spec_side(matched[k as int], spec_across(step.side));
    assert(after == before.update(step.unknown as int, Some(put)) && (spec_slot(
        before,
        step.unknown,
    ) matches Some(v) ==> put.counter == v.counter)) by {
        lemma_path_step(store, head, body, seed, matched, k as int);
    }
    assert(step.unknown < before.len()) by {
        lemma_stage_bound(store, head, body, seed, matched, k);
        lemma_unknown_in_frame(head, body, k as int);
    }
    lemma_update_keeps(before, step.unknown, put, slot);
}

/// On a way through a compiled rule a slot that holds an atom keeps
/// holding that atom, though perhaps under another label.
pub proof fn lemma_stage_stable(
    store: Map<u64, Seq<FactView>>,
    head: PatternView,
    body: Seq<PatternView>,
    seed: FactView,
    matched: Seq<FactView>,
    j: nat,
    k: nat,
    slot: usize,
)
    requires
        spec_store_ok(store),
        spec_chained(head, body),
        spec_body_names(body).len() <= usize::MAX,
        spec_rule_path(store, head, body, seed, matched),
        j <= k <= body.len(),
        spec_slot(spec_stage(head, body, seed, matched, j), slot) is Some,
    ensures
        spec_slot(spec_stage(head, body, seed, matched, k), slot) is Some,
        spec_slot(spec_stage(head, body, seed, matched, k), slot)->Some_0.counter == spec_slot(
            spec_stage(head, body, seed, matched, j),
            slot,
        )->Some_0.counter,
    decreases k,
{
    if j < k {
        lemma_stage_stable(store, head, body, seed, matched, j, (k - 1) as nat, slot);
        lemma_stage_next(store, head, body, seed, matched, (k - 1) as nat, slot);
    }
}

/// The assignment that a frame stands for: each variable gets the atom in
/// its slot.
pub open spec fn spec_frame_assignment(
    names: Seq<Seq<char>>,
    frame: Seq<Option<ValView>>,
) -> spec_fn(Seq<char>) -> u32 {
    |name: Seq<char>|
        match spec_slot(frame, spec_position(names, name) as usize) {
            Some(v) => v.counter,
            None => 0,
        }
}

/// The assignment at the end of a way through a compiled rule.
pub open spec fn spec_path_assignment(
    head: PatternView,
    body: Seq<PatternView>,
    seed: FactView,
    matched: Seq<FactView>,
) -> spec_fn(Seq<char>) -> u32 {
    spec_frame_assignment(
        spec_body_names(body),
        spec_stage(head, body, seed, matched, body.len()),
    )
}

/// On a way through a compiled rule, a term that is known when the turn of
/// a pattern comes stands at the end for the atom that it stood for then.
proof fn lemma_known_term(
    store: Map<u64, Seq<FactView>>,
    head: PatternView,
    body: Seq<PatternView>,
    seed: FactView,
    matched: Seq<FactView>,
    k: nat,
    term: TermView,
)
    requires
        spec_store_ok(store),
        spec_chained(head, body),
        spec_body_names(body).len() <= usize::MAX,
        spec_rule_path(store, head, body, seed, matched),
        k <= body.len(),
        term matches TermView::Var(name) ==> spec_bound_name(body, k as int, name),
    ensures
        spec_operand_value(
            spec_term_operand(spec_body_names(body), term),
            spec_stage(head, body, seed, matched, k),
        ) is Some,
        spec_operand_value(
            spec_term_operand(spec_body_names(body), term),
            spec_stage(head, body, seed, matched, k),
        )->Some_0.counter == spec_term_id(term, spec_path_assignment(head, body, seed, matched)),
{
    if let TermView::Var(name) = term {
        let slot = spec_position(spec_body_names(body), name) as usize;
        lemma_stage_bound(store, head, body, seed, matched, k);
        assert(spec_slot(spec_stage(head, body, seed, matched, k), slot) is Some);
        lemma_stage_stable(store, head, body, seed, matched, k, body.len(), slot);
    }
}

/// On a way through a compiled rule, the fact that a join matches is what
/// its pattern says under the assignment at the end of the way.
pub proof fn lemma_matched_instance(
    store: Map<u64, Seq<FactView>>,
    head: PatternView,
    body: Seq<PatternView>,
    seed: FactView,
    matched: Seq<FactView>,
    k: int,
)
    requires
        spec_store_ok(store),
        spec_chained(head, body),
        spec_body_names(body).len() <= usize::MAX,
        spec_rule_path(store, head, body, seed, matched),
        0 <= k < body.len(),
    ensures
        spec_facts_of(store, body[k].fact_key).contains(matched[k]),
        spec_instance(body[k], spec_path_assignment(head, body, seed, matched), matched[k]),
{
    let names = spec_body_names(body);
    let step = spec_plan(head, body).steps[k];
    let side = spec_anchor_side(body, k);
    let known = spec_term_on(body[k], side);
    let unknown = spec_term_on(body[k], spec_across(side));
    let fact = matched[k];
    let sigma = spec_path_assignment(head, body, seed, matched);
    let before = spec_stage(head, body, seed, matched, k as nat);
    let after = spec_stage(head, body, seed, matched, (k + 1) as nat);
    lemma_step_shape(head, body, k);
    lemma_path_step(store, head, body, seed, matched, k);
    assert(spec_side(fact, side).counter == spec_term_id(known, sigma)) by {
        lemma_known_term(store, head, body, seed, matched, k as nat, known);
    }
    assert(spec_side(fact, spec_across(side)).counter == spec_term_id(unknown, sigma)) by {
        lemma_unknown_in_frame(head, body, k);
        lemma_stage_bound(store, head, body, seed, matched, k as nat);
        assert(spec_slot(after, step.unknown) == Some(spec_side(fact, spec_across(side))));
        lemma_stage_stable(store, head, body, seed, matched, (k + 1) as nat, body.len(), step.unknown);
    }
}

/// The way through a compiled rule bears out the rule: under the
/// assignment at its end the store holds every pattern of the body, and the
/// head says the fact that the rule states.
pub proof fn lemma_path_sound(
    store: Map<u64, Seq<FactView>>,
    head: PatternView,
    body: Seq<PatternView>,
    label: Seq<char>,
    seed: FactView,
    matched: Seq<FactView>,
)
    requires
        spec_store_ok(store),
        spec_chained(head, body),
        spec_body_names(body).len() <= usize::MAX,
        spec_rule_path(store, head, body, seed, matched),
    ensures
        spec_instance(
            head,
            spec_path_assignment(head, body, seed, matched),
            spec_path_fact(
                RuleView { label, plan: spec_plan(head, body) },
                0,
                spec_seed_frame(spec_plan(head, body), seed),
                Seq::empty(),
                matched,
            ),
        ),
        forall|i: int|
            0 <= i < body.len() ==> spec_satisfied(
                store,
                #[trigger] body[i],
                spec_path_assignment(head, body, seed, matched),
            ),
{
    let sigma = spec_path_assignment(head, body, seed, matched);
    let count = body.len();
    assert forall|i: int| 0 <= i < body.len() implies spec_satisfied(
        store,
        #[trigger] body[i],
        sigma,
    ) by {
        lemma_matched_instance(store, head, body, seed, matched, i);
        let at = choose|at: int|
            0 <= at < spec_facts_of(store, body[i].fact_key).len() && spec_facts_of(
                store,
                body[i].fact_key,
            )[at] == matched[i];
        assert(spec_instance(body[i], sigma, spec_facts_of(store, body[i].fact_key)[at]));
    }
    assert(matched.len() == count);
    lemma_known_term(store, head, body, seed, matched, count, head.left);
    lemma_known_term(store, head, body, seed, matched, count, head.right);
}

/// A fact of the store that is what `pattern` says under `assignment`, if
/// the store holds one.
pub open spec fn spec_witness(
    store: Map<u64, Seq<FactView>>,
    pattern: PatternView,
    assignment: spec_fn(Seq<char>) -> u32,
) -> FactView {
    let facts = spec_facts_of(store, pattern.fact_key);
    facts[choose|i: int|
        0 <= i < facts.len() && spec_instance(pattern, assignment, #[trigger] facts[i])]
}

/// For each pattern of a body a fact of the store that is what the pattern
/// says under `assignment`.
pub open spec fn spec_witnesses(
    store: Map<u64, Seq<FactView>>,
    body: Seq<PatternView>,
    assignment: spec_fn(Seq<char>) -> u32,
) -> Seq<FactView> {
    Seq::new(body.len(), |i: int| spec_witness(store, body[i], assignment))
}

/// Whether a store holds every pattern of a body under `assignment`.
pub open spec fn spec_body_satisfied(
    store: Map<u64, Seq<FactView>>,
    body: Seq<PatternView>,
    assignment: spec_fn(Seq<char>) -> u32,
) -> bool {
    forall|i: int| 0 <= i < body.len() ==> spec_satisfied(store, #[trigger] body[i], assignment)
}

/// A witness is a fact of the store and is what its pattern says.
pub proof fn lemma_witness(
    store: Map<u64, Seq<FactView>>,
    body: Seq<PatternView>,
    assignment: spec_fn(Seq<char>) -> u32,
    k: int,
)
    requires
        spec_body_satisfied(store, body, assignment),
        0 <= k < body.len(),
    ensures
        spec_witnesses(store, body, assignment)[k] == spec_witness(store, body[k], assignment),
        spec_facts_of(store, body[k].fact_key).contains(spec_witness(store, body[k], assignment)),
        spec_instance(body[k], assignment, spec_witness(store, body[k], assignment)),
{
    assert(spec_satisfied(store, body[k], assignment));
}

/// Whether a frame agrees with an assignment: every slot that holds an atom
/// holds the atom of its variable.
pub open spec fn spec_agrees(
    names: Seq<Seq<char>>,
    frame: Seq<Option<ValView>>,
    assignment: spec_fn(Seq<char>) -> u32,
) -> bool {
    &&& frame.len() == names.len()
    &&& forall|slot: int|
        0 <= slot < names.len() ==> ((#[trigger] frame[slot]) matches Some(v) ==> v.counter
            == assignment(names[slot]))
}

/// Where a store holds the body of a compiled rule under an assignment,
/// the frames along the witnesses agree with the assignment, and the slot of
/// every variable that is bound by then holds an atom.
pub proof fn lemma_witness_stage(
    store: Map<u64, Seq<FactView>>,
    head: PatternView,
    body: Seq<PatternView>,
    assignment: spec_fn(Seq<char>) -> u32,
    k: nat,
)
    requires
        spec_chained(head, body),
        spec_body_names(body).len() <= usize::MAX,
        spec_body_satisfied(store, body, assignment),
        k <= body.len(),
    ensures
        ({
            let matched = spec_witnesses(store, body, assignment);
            let frame = spec_stage(head, body, matched[0], matched, k);
            &&& spec_agrees(spec_body_names(body), frame, assignment)
            &&& forall|name: Seq<char>| #[trigger]
                spec_bound_name(body, k as int, name) ==> spec_slot(
                    frame,
                    spec_position(spec_body_names(body), name) as usize,
                ) is Some
        }),
    decreases k,
{
    let names = spec_body_names(body);
    let matched = spec_witnesses(store, body, assignment);
    let frame = spec_stage(head, body, matched[0], matched, k);
    assert(spec_links(body, 0));
    lemma_slot(body, 0, Side::Left);
    lemma_witness(store, body, assignment, 0);
    if k == 0 {
        assert(spec_agrees(names, frame, assignment));
        assert forall|name: Seq<char>| #[trigger]
            spec_bound_name(body, 0, name) implies spec_slot(
            frame,
            spec_position(names, name) as usize,
        ) is Some by {}
    } else {
        let before = spec_stage(head, body, matched[0], matched, (k - 1) as nat);
        let step = spec_plan(head, body).steps[k - 1];
        let put = spec_side(matched[k - 1], spec_across(step.side));
        lemma_witness_stage(store, head, body, assignment, (k - 1) as nat);
        lemma_witness(store, body, assignment, k - 1);
        lemma_step_shape(head, body, k - 1);
        lemma_slot(body, k - 1, Side::Left);
        lemma_slot(body, k - 1, Side::Right);
        assert(frame == before.update(step.unknown as int, Some(put)));
        assert(put.counter == assignment(names[step.unknown as int]));
        assert(spec_agrees(names, frame, assignment));
        assert forall|name: Seq<char>| #[trigger]
            spec_bound_name(body, k as int, name) implies spec_slot(
            frame,
            spec_position(names, name) as usize,
        ) is Some by {
            if !spec_bound_name(body, k - 1, name) {
                let j = choose|j: int|
                    0 <= j < k && j < body.len() && ((#[trigger] body[j]).left == TermView::Var(
                        name,
                    ) || body[j].right == TermView::Var(name));
                if j < k - 1 {
                    assert(spec_occurs(body, k - 1, name));
                }
                assert(j == k - 1);
            }
        }
    }
}

/// In a frame that agrees with an assignment, a term that is known stands
/// for the atom that the assignment gives it.
proof fn lemma_agreed_term(
    body: Seq<PatternView>,
    frame: Seq<Option<ValView>>,
    assignment: spec_fn(Seq<char>) -> u32,
    term: TermView,
)
    requires
        spec_agrees(spec_body_names(body), frame, assignment),
        spec_body_names(body).len() <= usize::MAX,
        term matches TermView::Var(name) ==> spec_occurs(body, body.len() as int, name),
    ensures
        spec_operand_value(spec_term_operand(spec_body_names(body), term), frame) matches Some(v)
            ==> v.counter == spec_term_id(term, assignment),
{
    if let TermView::Var(name) = term {
        let names = spec_body_names(body);
        assert(body.take(body.len() as int) =~= body);
        lemma_registered_occurs(body, body.len() as int, name);
        lemma_find(names, name, 0);
        let slot = spec_position(names, name);
        assert(names[slot] == name);
        if let Some(v) = frame[slot] {
            assert(v.counter == assignment(names[slot]));
        }
    }
}

/// Where a store holds the body of a compiled rule under an assignment,
/// the witnesses are a way through the rule.
pub proof fn lemma_witness_path(
    store: Map<u64, Seq<FactView>>,
    head: PatternView,
    body: Seq<PatternView>,
    assignment: spec_fn(Seq<char>) -> u32,
)
    requires
        spec_chained(head, body),
        spec_body_names(body).len() <= usize::MAX,
        spec_body_satisfied(store, body, assignment),
    ensures
        spec_rule_path(
            store,
            head,
            body,
            spec_witnesses(store, body, assignment)[0],
            spec_witnesses(store, body, assignment),
        ),
{
    let names = spec_body_names(body);
    let plan = spec_plan(head, body);
    let matched = spec_witnesses(store, body, assignment);
    let seed = matched[0];
    assert forall|k: int| 0 <= k < matched.len() implies spec_get(
        store,
        spec_step_query(
            plan.steps[0 + k],
            spec_frame_after(plan, 0, spec_seed_frame(plan, seed), matched, k as nat),
        ),
    ).contains(#[trigger] matched[k]) by {
        let step = plan.steps[k];
        let frame = spec_stage(head, body, seed, matched, k as nat);
        let query = spec_step_query(step, frame);
        let side = spec_anchor_side(body, k);
        let fact = matched[k];
        lemma_witness(store, body, assignment, k);
        lemma_witness_stage(store, head, body, assignment, k as nat);
        lemma_step_shape(head, body, k);
        lemma_slot(body, k, Side::Left);
        lemma_slot(body, k, Side::Right);
        lemma_agreed_term(body, frame, assignment, spec_term_on(body[k], side));
        lemma_agreed_term(body, frame, assignment, spec_term_on(body[k], spec_across(side)));
        assert(spec_matches(fact, query));
        lemma_get_exact(store, query, fact);
    }
}

/// What a rule derives over seeds is what it derives from one of them.
pub proof fn lemma_derive_over_members(
    store: Map<u64, Seq<FactView>>,
    rule: RuleView,
    seeds: Seq<FactView>,
    fact: FactView,
)
    ensures
        spec_derive_over(store, rule, seeds).contains(fact) <==> exists|j: int|
            0 <= j < seeds.len() && spec_walk(
                store,
                rule,
                0,
                spec_seed_frame(rule.plan, #[trigger] seeds[j]),
                Seq::empty(),
            ).contains(fact),
    decreases seeds.len(),
{
    if seeds.len() > 0 {
        let front = seeds.drop_last();
        let before = spec_derive_over(store, rule, front);
        let behind = spec_walk(
            store,
            rule,
            0,
            spec_seed_frame(rule.plan, seeds.last()),
            Seq::empty(),
        );
        lemma_derive_over_members(store, rule, front, fact);
        lemma_concat_contains(before, behind, fact);
        if before.contains(fact) {
            let j = choose|j: int|
                0 <= j < front.len() && spec_walk(
                    store,
                    rule,
                    0,
                    spec_seed_frame(rule.plan, #[trigger] front[j]),
                    Seq::empty(),
                ).contains(fact);
            assert(front[j] == seeds[j]);
        }
        if behind.contains(fact) {
            assert(seeds[seeds.len() - 1] == seeds.last());
        }
        if exists|j: int|
            0 <= j < seeds.len() && spec_walk(
                store,
                rule,
                0,
                spec_seed_frame(rule.plan, #[trigger] seeds[j]),
                Seq::empty(),
            ).contains(fact) {
            let j = choose|j: int|
                0 <= j < seeds.len() && spec_walk(
                    store,
                    rule,
                    0,
                    spec_seed_frame(rule.plan, #[trigger] seeds[j]),
                    Seq::empty(),
                ).contains(fact);
            if j < front.len() {
                assert(front[j] == seeds[j]);
            }
        }
    }
}

/// What rules derive is what one of them derives.
pub proof fn lemma_derive_all_members(
    store: Map<u64, Seq<FactView>>,
    rules: Seq<RuleView>,
    fact: FactView,
)
    ensures
        spec_derive_all(store, rules).contains(fact) <==> exists|r: int|
            0 <= r < rules.len() && spec_derive(store, #[trigger] rules[r]).contains(fact),
    decreases rules.len(),
{
    if rules.len() > 0 {
        let front = rules.drop_last();
        lemma_derive_all_members(store, front, fact);
        lemma_concat_contains(
            spec_derive_all(store, front),
            spec_derive(store, rules.last()),
            fact,
        );
        if spec_derive_all(store, front).contains(fact) {
            let r = choose|r: int|
                0 <= r < front.len() && spec_derive(store, #[trigger] front[r]).contains(fact);
            assert(front[r] == rules[r]);
        }
        if spec_derive(store, rules.last()).contains(fact) {
            assert(rules[rules.len() - 1] == rules.last());
        }
        if exists|r: int|
            0 <= r < rules.len() && spec_derive(store, #[trigger] rules[r]).contains(fact) {
            let r = choose|r: int|
                0 <= r < rules.len() && spec_derive(store, #[trigger] rules[r]).contains(fact);
            if r < front.len() {
                assert(front[r] == rules[r]);
            }
        }
    }
}

/// Whether `fact` is among `facts`, under whatever justification.
pub open spec fn spec_among(facts: Seq<FactView>, fact: FactView) -> bool {
    exists|i: int| 0 <= i < facts.len() && spec_same_fact(#[trigger] facts[i], fact)
}

/// A compiled rule derives what the rule means: a fact is among what the
/// plan of a chain derives from a store if and only if some assignment of
/// atoms to the rule's variables makes the store hold every pattern of the
/// body and makes the head say that fact.
pub proof fn lemma_rule_meaning(
    store: Map<u64, Seq<FactView>>,
    head: PatternView,
    body: Seq<PatternView>,
    label: Seq<char>,
    fact: FactView,
)
    requires
        spec_store_ok(store),
        spec_chained(head, body),
        spec_body_names(body).len() <= usize::MAX,
    ensures
        spec_among(spec_derive(store, RuleView { label, plan: spec_plan(head, body) }), fact)
            <==> spec_entails(store, head, body, fact),
{
    let plan = spec_plan(head, body);
    let rule = RuleView { label, plan };
    let derived = spec_derive(store, rule);
    let seeds = spec_get(store, spec_seed_query(plan));
    let none = Seq::<FactView>::empty();
    if spec_among(derived, fact) {
        let i = choose|i: int| 0 <= i < derived.len() && spec_same_fact(#[trigger] derived[i], fact);
        let found = derived[i];
        assert(derived.contains(found));
        lemma_derive_over_members(store, rule, seeds, found);
        let j = choose|j: int|
            0 <= j < seeds.len() && spec_walk(
                store,
                rule,
                0,
                spec_seed_frame(plan, #[trigger] seeds[j]),
                none,
            ).contains(found);
        let seed = seeds[j];
        let matched = lemma_walk_has_path(store, rule, 0, spec_seed_frame(plan, seed), none, found);
        lemma_path_sound(store, head, body, label, seed, matched);
        let sigma = spec_path_assignment(head, body, seed, matched);
        assert(spec_instance(head, sigma, fact));
        assert(spec_entails(store, head, body, fact));
    }
    if spec_entails(store, head, body, fact) {
        let sigma = choose|sigma: spec_fn(Seq<char>) -> u32| #[trigger]
            spec_instance(head, sigma, fact) && forall|i: int|
                0 <= i < body.len() ==> spec_satisfied(store, #[trigger] body[i], sigma);
        let matched = spec_witnesses(store, body, sigma);
        let seed = matched[0];
        let frame = spec_seed_frame(plan, seed);
        lemma_witness_path(store, head, body, sigma);
        lemma_path_is_walked(store, rule, 0, frame, none, matched);
        let found = spec_path_fact(rule, 0, frame, none, matched);
        lemma_witness(store, body, sigma, 0);
        lemma_get_all(store, body[0].fact_key);
        let j = choose|j: int| 0 <= j < seeds.len() && seeds[j] == seed;
        assert(spec_walk(store, rule, 0, spec_seed_frame(plan, seeds[j]), none).contains(found));
        lemma_derive_over_members(store, rule, seeds, found);
        let i = choose|i: int| 0 <= i < derived.len() && derived[i] == found;
        assert(spec_same_fact(derived[i], fact)) by {
            let end = spec_stage(head, body, seed, matched, body.len());
            lemma_witness_stage(store, head, body, sigma, body.len());
            assert(spec_bound_name(body, body.len() as int, head.left->Var_0));
            lemma_agreed_term(body, end, sigma, head.left);
            lemma_agreed_term(body, end, sigma, head.right);
            if let TermView::Var(name) = head.right {
                assert(spec_bound_name(body, body.len() as int, name));
            }
        }
    }
}

/// A store that is closed under rules holds what its compiled rules mean:
/// whenever some assignment makes the store hold the body of one of them, the
/// store holds the fact that the head then says.
pub proof fn lemma_closed_meaning(
    store: Map<u64, Seq<FactView>>,
    rules: Seq<RuleView>,
    r: int,
    head: PatternView,
    body: Seq<PatternView>,
    fact: FactView,
)
    requires
        spec_store_ok(store),
        spec_closed(store, rules),
        0 <= r < rules.len(),
        spec_chained(head, body),
        spec_body_names(body).len() <= usize::MAX,
        rules[r].plan == spec_plan(head, body),
        spec_entails(store, head, body, fact),
    ensures
        spec_holds(store, fact),
{
    let rule = rules[r];
    let derived = spec_derive(store, rule);
    let all = spec_derive_all(store, rules);
    lemma_rule_meaning(store, head, body, rule.label, fact);
    let i = choose|i: int| 0 <= i < derived.len() && spec_same_fact(#[trigger] derived[i], fact);
    let found = derived[i];
    assert(derived.contains(found));
    lemma_derive_all_members(store, rules, found);
    let at = choose|at: int| 0 <= at < all.len() && all[at] == found;
    assert(spec_holds(store, all[at]));
    let held = choose|held: int|
        0 <= held < spec_facts_of(store, found.fact_key).len() && spec_same_fact(
            #[trigger] spec_facts_of(store, found.fact_key)[held],
            found,
        );
    assert(spec_same_fact(spec_facts_of(store, fact.fact_key)[held], fact));
}

} // verus!
