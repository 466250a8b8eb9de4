use crate::context::{
    lemma_add_grows, lemma_extend_ok, lemma_extend_room, spec_add, spec_extend, spec_facts_of,
    spec_get, spec_grows, spec_holds, spec_matches, spec_room, spec_same_fact, spec_store_ok,
};
use crate::eval::{spec_closed, spec_derive_all, spec_round, spec_rounds};
use crate::fact::FactView;
use crate::plan::{
    lemma_register, spec_body_names, spec_first_error, spec_make_plan, spec_pattern_error,
    spec_plan, spec_register, spec_registered, spec_unknown_names, PatternView, PlanErrorView,
    TermView,
};
use crate::rule::{PlanView, QueryView, RuleView};
use vstd::prelude::*;

verus! {

/// A store that is offered the same fact twice takes it once: the second
/// offer, whatever justification it carries, leaves the store as the first
/// left it, so the relation has no more facts than before and the fact keeps
/// the justification that came first.
pub proof fn lemma_add_twice(store: Map<u64, Seq<FactView>>, first: FactView, second: FactView)
    requires
        spec_same_fact(first, second),
    ensures
        spec_add(spec_add(store, first), second) == spec_add(store, first),
        spec_holds(spec_add(store, first), second),
{
    let after = spec_add(store, first);
    let key = first.fact_key;
    if spec_holds(store, first) {
        let i = choose|i: int|
            0 <= i < spec_facts_of(store, key).len() && spec_same_fact(
                #[trigger] spec_facts_of(store, key)[i],
                first,
            );
        assert(spec_same_fact(spec_facts_of(store, second.fact_key)[i], second));
    } else {
        let last = spec_facts_of(store, key).len() as int;
        assert(spec_facts_of(after, key)[last] == first);
        assert(spec_same_fact(spec_facts_of(after, second.fact_key)[last], second));
    }
}

/// A fact that a store holds stays the first of its kind: offering the
/// fact again changes neither the facts of its relation nor their number.
pub proof fn lemma_add_held(store: Map<u64, Seq<FactView>>, fact: FactView)
    requires
        spec_holds(store, fact),
    ensures
        spec_facts_of(spec_add(store, fact), fact.fact_key) == spec_facts_of(store, fact.fact_key),
{
}

/// A query yields exactly the facts of its relation that have the atoms it
/// asks for, whichever of its two sides is constrained: a fact is among what
/// the query yields if and only if it is among the facts of the relation and
/// matches, and what it yields is in the order of the relation.
pub proof fn lemma_get_exact(store: Map<u64, Seq<FactView>>, query: QueryView, fact: FactView)
    ensures
        spec_get(store, query).contains(fact) <==> spec_facts_of(store, query.fact_key).contains(
            fact,
        ) && spec_matches(fact, query),
        spec_get(store, query).len() <= spec_facts_of(store, query.fact_key).len(),
{
    let facts = spec_facts_of(store, query.fact_key);
    let pred = |other: FactView| spec_matches(other, query);
    lemma_filter_contains(facts, pred, fact);
    facts.lemma_filter_len(pred);
}

/// An element is in a filtered sequence exactly when it is in the sequence
/// and passes the filter.
pub proof fn lemma_filter_contains<A>(s: Seq<A>, pred: spec_fn(A) -> bool, a: A)
    ensures
        s.filter(pred).contains(a) <==> s.contains(a) && pred(a),
    decreases s.len(),
{
    reveal(Seq::filter);
    if s.len() > 0 {
        let front = s.drop_last();
        lemma_filter_contains(front, pred, a);
        if s.filter(pred).contains(a) {
            let i = choose|i: int| 0 <= i < s.filter(pred).len() && s.filter(pred)[i] == a;
            if pred(s.last()) && i == front.filter(pred).len() {
                assert(s[s.len() - 1] == a);
            } else {
                assert(front.filter(pred)[i] == a);
                let j = choose|j: int| 0 <= j < front.len() && front[j] == a;
                assert(s[j] == a);
            }
        }
        if s.contains(a) && pred(a) {
            let j = choose|j: int| 0 <= j < s.len() && s[j] == a;
            if j == s.len() - 1 {
                assert(s.filter(pred)[front.filter(pred).len() as int] == a);
            } else {
                assert(front[j] == a);
                let i = choose|i: int| 0 <= i < front.filter(pred).len() && front.filter(pred)[i] == a;
                assert(s.filter(pred)[i] == a);
            }
        }
    }
}

/// A query without constraints yields every fact of its relation.
pub proof fn lemma_get_all(store: Map<u64, Seq<FactView>>, key: u64)
    ensures
        spec_get(store, QueryView { fact_key: key, left: None, right: None }) == spec_facts_of(
            store,
            key,
        ),
{
    let query = QueryView { fact_key: key, left: None, right: None };
    lemma_filter_all(spec_facts_of(store, key), |fact: FactView| spec_matches(fact, query));
}

/// A filter that everything passes leaves a sequence as it is.
pub proof fn lemma_filter_all<A>(s: Seq<A>, pred: spec_fn(A) -> bool)
    requires
        forall|i: int| 0 <= i < s.len() ==> pred(#[trigger] s[i]),
    ensures
        s.filter(pred) == s,
    decreases s.len(),
{
    reveal(Seq::filter);
    if s.len() > 0 {
        let front = s.drop_last();
        assert forall|i: int| 0 <= i < front.len() implies pred(#[trigger] front[i]) by {
            assert(front[i] == s[i]);
        }
        lemma_filter_all(front, pred);
        assert(s.filter(pred) =~= s);
    }
}

/// Offering facts to a store leaves it as it was exactly when it holds all of them.
pub proof fn lemma_extend_same(store: Map<u64, Seq<FactView>>, facts: Seq<FactView>)
    requires
        spec_store_ok(store),
    ensures
        spec_extend(store, facts) == store <==> forall|i: int|
            0 <= i < facts.len() ==> spec_holds(store, #[trigger] facts[i]),
        spec_grows(store, spec_extend(store, facts)),
    decreases facts.len(),
{
    if facts.len() > 0 {
        let front = facts.drop_last();
        let middle = spec_extend(store, front);
        let after = spec_extend(store, facts);
        lemma_extend_same(store, front);
        lemma_extend_ok(store, front);
        lemma_add_grows(middle, facts.last());
        assert forall|key: u64| #[trigger]
            spec_facts_of(store, key).is_prefix_of(spec_facts_of(after, key)) by {
            assert(spec_facts_of(store, key).is_prefix_of(spec_facts_of(middle, key)));
            assert(spec_facts_of(middle, key).is_prefix_of(spec_facts_of(after, key)));
        }
        if after == store {
            // Nothing that was added can have gone away again.
            assert forall|key: u64| spec_facts_of(middle, key) == spec_facts_of(store, key) by {
                assert(spec_facts_of(store, key).is_prefix_of(spec_facts_of(middle, key)));
                assert(spec_facts_of(middle, key).is_prefix_of(spec_facts_of(after, key)));
                assert(spec_facts_of(middle, key) =~= spec_facts_of(store, key));
            }
            lemma_same_facts(middle, store);
            assert forall|i: int| 0 <= i < facts.len() implies spec_holds(
                store,
                #[trigger] facts[i],
            ) by {
                if i < front.len() {
                    assert(front[i] == facts[i]);
                }
            }
        }
        if forall|i: int| 0 <= i < facts.len() ==> spec_holds(store, #[trigger] facts[i]) {
            assert forall|i: int| 0 <= i < front.len() implies spec_holds(
                store,
                #[trigger] front[i],
            ) by {
                assert(front[i] == facts[i]);
            }
        }
    } else {
        assert forall|key: u64| #[trigger]
            spec_facts_of(store, key).is_prefix_of(spec_facts_of(store, key)) by {}
    }
}

/// Two stores that hold the same facts of every relation, and in which no
/// relation is known without a fact, are the same store.
pub proof fn lemma_same_facts(a: Map<u64, Seq<FactView>>, b: Map<u64, Seq<FactView>>)
    requires
        forall|key: u64| spec_facts_of(a, key) == spec_facts_of(b, key),
        forall|key: u64| a.dom().contains(key) ==> (#[trigger] a[key]).len() > 0,
        forall|key: u64| b.dom().contains(key) ==> (#[trigger] b[key]).len() > 0,
    ensures
        a == b,
{
    assert forall|key: u64| a.dom().contains(key) == b.dom().contains(key) by {
        assert(spec_facts_of(a, key) == spec_facts_of(b, key));
        if a.dom().contains(key) {
            assert(a[key].len() > 0);
        }
        if b.dom().contains(key) {
            assert(b[key].len() > 0);
        }
    }
    assert forall|key: u64| a.dom().contains(key) implies a[key] == b[key] by {
        assert(spec_facts_of(a, key) == spec_facts_of(b, key));
    }
    assert(a =~= b);
}

/// A store is closed under rules exactly when a round of evaluation leaves
/// it as it is.
pub proof fn lemma_closed_is_settled(store: Map<u64, Seq<FactView>>, rules: Seq<RuleView>)
    requires
        spec_store_ok(store),
    ensures
        spec_closed(store, rules) <==> spec_round(store, rules) == store,
{
    lemma_extend_same(store, spec_derive_all(store, rules));
}

/// Rounds of evaluation keep a store a store, and only make it grow.
pub proof fn lemma_rounds_ok(store: Map<u64, Seq<FactView>>, rules: Seq<RuleView>, n: nat)
    requires
        spec_store_ok(store),
    ensures
        spec_store_ok(spec_rounds(store, rules, n)),
        spec_grows(store, spec_rounds(store, rules, n)),
    decreases n,
{
    if n > 0 {
        let middle = spec_rounds(store, rules, (n - 1) as nat);
        let after = spec_rounds(store, rules, n);
        lemma_rounds_ok(store, rules, (n - 1) as nat);
        lemma_extend_ok(middle, spec_derive_all(middle, rules));
        assert forall|key: u64| #[trigger]
            spec_facts_of(store, key).is_prefix_of(spec_facts_of(after, key)) by {
            assert(spec_facts_of(store, key).is_prefix_of(spec_facts_of(middle, key)));
            assert(spec_facts_of(middle, key).is_prefix_of(spec_facts_of(after, key)));
        }
    } else {
        assert forall|key: u64| #[trigger]
            spec_facts_of(store, key).is_prefix_of(spec_facts_of(store, key)) by {}
    }
}

/// Once a round adds nothing, no later round adds anything: evaluation has
/// one result, whatever number of rounds is run beyond the first that
/// changes nothing.
pub proof fn lemma_rounds_settle(
    store: Map<u64, Seq<FactView>>,
    rules: Seq<RuleView>,
    n: nat,
    m: nat,
)
    requires
        n <= m,
        spec_round(spec_rounds(store, rules, n), rules) == spec_rounds(store, rules, n),
    ensures
        spec_rounds(store, rules, m) == spec_rounds(store, rules, n),
    decreases m,
{
    if n < m {
        lemma_rounds_settle(store, rules, n, (m - 1) as nat);
    }
}

/// Running one round first and `n` rounds after is running `n + 1` rounds.
pub proof fn lemma_rounds_shift(store: Map<u64, Seq<FactView>>, rules: Seq<RuleView>, n: nat)
    ensures
        spec_rounds(spec_round(store, rules), rules, n) == spec_rounds(store, rules, n + 1),
    decreases n,
{
    if n > 0 {
        lemma_rounds_shift(store, rules, (n - 1) as nat);
        assert(spec_rounds(store, rules, n + 1) == spec_round(
            spec_rounds(store, rules, n),
            rules,
        ));
    } else {
        assert(spec_rounds(store, rules, 0) == store);
        assert(spec_rounds(store, rules, 1) == spec_round(spec_rounds(store, rules, 0), rules));
    }
}

/// Evaluation comes to an end: within as many rounds as the store has room
/// for facts, a round adds nothing, and the store is then closed under the
/// rules. Rules only combine the atoms that are there, so the room never grows.
pub proof fn lemma_rounds_end(store: Map<u64, Seq<FactView>>, rules: Seq<RuleView>)
    requires
        spec_store_ok(store),
    ensures
        exists|n: nat|
            n <= spec_room(store) && spec_closed(#[trigger] spec_rounds(store, rules, n), rules),
    decreases spec_room(store),
{
    let derived = spec_derive_all(store, rules);
    let next = spec_round(store, rules);
    lemma_closed_is_settled(store, rules);
    if next == store {
        assert(spec_rounds(store, rules, 0) == store);
    } else {
        lemma_extend_room(store, derived);
        lemma_extend_ok(store, derived);
        lemma_rounds_end(next, rules);
        let n = choose|n: nat|
            n <= spec_room(next) && spec_closed(#[trigger] spec_rounds(next, rules, n), rules);
        lemma_rounds_shift(store, rules, n);
        assert(spec_closed(spec_rounds(store, rules, n + 1), rules));
    }
}

/// Whether the variable `name` occurs in one of the first `upto` body patterns.
pub open spec fn spec_occurs(body: Seq<PatternView>, upto: int, name: Seq<char>) -> bool {
    exists|j: int|
        0 <= j < upto && j < body.len() && ((#[trigger] body[j]).left == TermView::Var(name)
            || body[j].right == TermView::Var(name))
}

/// Whether a side of the body pattern numbered `i` can anchor its join: a
/// literal can; a variable can if it is the left side of the first pattern
/// or occurs in an earlier pattern.
pub open spec fn spec_anchors(body: Seq<PatternView>, i: int, term: TermView) -> bool {
    match term {
        TermView::Val(_) => true,
        TermView::Var(name) => if i == 0 {
            body[0].left == term
        } else {
            spec_occurs(body, i, name)
        },
    }
}

/// Whether the body pattern numbered `i` links up with what stands before
/// it: the first pattern starts with a variable; where the left side can
/// anchor the join the right side is a variable to bind, and where it cannot
/// the right side can.
pub open spec fn spec_links(body: Seq<PatternView>, i: int) -> bool {
    &&& i == 0 ==> body[0].left is Var
    &&& spec_anchors(body, i, body[i].left) ==> body[i].right is Var
    &&& !spec_anchors(body, i, body[i].left) ==> spec_anchors(body, i, body[i].right)
}

/// Whether a rule is a chain: it has a body, every body pattern links up
/// with what stands before it, the head starts with a variable, and every
/// variable of the head occurs in the body.
pub open spec fn spec_chained(head: PatternView, body: Seq<PatternView>) -> bool {
    &&& body.len() > 0
    &&& forall|i: int| 0 <= i < body.len() ==> spec_links(body, i)
    &&& head.left matches TermView::Var(name) && spec_occurs(body, body.len() as int, name)
    &&& head.right matches TermView::Var(name) ==> spec_occurs(body, body.len() as int, name)
}

/// The variables of the head that do not occur in the body, in the order in
/// which the head names them, each once.
pub open spec fn spec_unbound(head: PatternView, body: Seq<PatternView>) -> Seq<Seq<char>> {
    let left = match head.left {
        TermView::Var(name) => if spec_occurs(body, body.len() as int, name) {
            Seq::empty()
        } else {
            seq![name]
        },
        TermView::Val(_) => Seq::empty(),
    };
    let right = match head.right {
        TermView::Var(name) => if spec_occurs(body, body.len() as int, name) || head.left
            == head.right {
            Seq::empty()
        } else {
            seq![name]
        },
        TermView::Val(_) => Seq::empty(),
    };
    left + right
}

/// The variables that have a slot after the first `i` body patterns are
/// those that occur in them.
pub proof fn lemma_registered_occurs(body: Seq<PatternView>, i: int, name: Seq<char>)
    requires
        0 <= i <= body.len(),
    ensures
        spec_registered(spec_body_names(body.take(i)), name) <==> spec_occurs(body, i, name),
    decreases i,
{
    if i > 0 {
        let front = spec_body_names(body.take(i - 1));
        let pattern = body[i - 1];
        lemma_registered_occurs(body, i - 1, name);
        assert(body.take(i).drop_last() =~= body.take(i - 1));
        assert(body.take(i).last() == pattern);
        lemma_register(front, pattern.left);
        lemma_register(spec_register(front, pattern.left), pattern.right);
        if spec_occurs(body, i, name) {
            let j = choose|j: int|
                0 <= j < i && j < body.len() && ((#[trigger] body[j]).left == TermView::Var(name)
                    || body[j].right == TermView::Var(name));
            if j < i - 1 {
                assert(spec_occurs(body, i - 1, name));
            }
        }
        if spec_occurs(body, i - 1, name) {
            let j = choose|j: int|
                0 <= j < i - 1 && j < body.len() && ((#[trigger] body[j]).left == TermView::Var(
                    name,
                ) || body[j].right == TermView::Var(name));
            assert(spec_occurs(body, i, name));
        }
        if pattern.left == TermView::Var(name) || pattern.right == TermView::Var(name) {
            assert(spec_occurs(body, i, name));
        }
    } else {
        assert(body.take(0) =~= Seq::<PatternView>::empty());
    }
}

/// A body pattern is in order for the compiler exactly when it links up
/// with what stands before it.
pub proof fn lemma_links(body: Seq<PatternView>, i: int)
    requires
        0 <= i < body.len(),
    ensures
        spec_pattern_error(body, i) is None <==> spec_links(body, i),
{
    if let TermView::Var(name) = body[i].left {
        lemma_registered_occurs(body, i, name);
    }
    if let TermView::Var(name) = body[i].right {
        lemma_registered_occurs(body, i, name);
    }
}

/// The compiler finds nothing wrong in the first `upto` body patterns
/// exactly when each of them links up with what stands before it.
pub proof fn lemma_all_link(body: Seq<PatternView>, upto: int)
    requires
        0 <= upto <= body.len(),
    ensures
        spec_first_error(body, upto) is None <==> forall|i: int|
            0 <= i < upto ==> spec_links(body, i),
    decreases upto,
{
    if upto > 0 {
        lemma_all_link(body, upto - 1);
        lemma_links(body, upto - 1);
    }
}

/// The variables that the compiler reports as unknown are the variables of
/// the head that do not occur in the body.
pub proof fn lemma_unknown_are_unbound(head: PatternView, body: Seq<PatternView>)
    ensures
        spec_unknown_names(head, spec_body_names(body)) == spec_unbound(head, body),
{
    let names = spec_body_names(body);
    let with_left = spec_register(names, head.left);
    let with_both = spec_register(with_left, head.right);
    assert(body.take(body.len() as int) =~= body);
    lemma_register(names, head.left);
    lemma_register(with_left, head.right);
    if let TermView::Var(name) = head.left {
        lemma_registered_occurs(body, body.len() as int, name);
    }
    if let TermView::Var(name) = head.right {
        lemma_registered_occurs(body, body.len() as int, name);
    }
    assert(with_both.skip(names.len() as int) =~= spec_unbound(head, body));
}

/// A rule compiles exactly when it is a chain, and its plan then has one
/// join for each body pattern: one for each pattern behind the first, and
/// one more that reads the first pattern again to bind its right side.
pub proof fn lemma_chain_compiles(head: PatternView, body: Seq<PatternView>)
    ensures
        spec_make_plan(head, body) is Ok <==> spec_chained(head, body),
        spec_chained(head, body) ==> spec_make_plan(head, body) == Ok::<
            PlanView,
            PlanErrorView,
        >(spec_plan(head, body)) && spec_plan(head, body).steps.len() == (body.len() - 1) + 1,
{
    lemma_all_link(body, body.len() as int);
    lemma_unknown_are_unbound(head, body);
}

/// A rule whose body is a chain but whose head names variables that the
/// body does not bind is rejected, and the error names exactly those variables.
pub proof fn lemma_unbound_named(head: PatternView, body: Seq<PatternView>)
    requires
        body.len() > 0,
        forall|i: int| 0 <= i < body.len() ==> spec_links(body, i),
        head.left is Var,
        spec_unbound(head, body).len() > 0,
    ensures
        spec_make_plan(head, body) == Err::<PlanView, PlanErrorView>(
            PlanErrorView::UnknownVars { names: spec_unbound(head, body) },
        ),
{
    lemma_all_link(body, body.len() as int);
    lemma_unknown_are_unbound(head, body);
}

} // verus!
