use crate::fact::{clone_facts, spec_views, Fact, FactView};
use crate::rule::{BuildQuery, Query, QueryView};
use crate::type_key::Erased;
use vstd::prelude::*;
use vstd::set_lib::{lemma_int_range, set_int_range};

verus! {

/// The facts that a store holds of one relation, oldest first; none if it
/// holds no fact of that relation.
pub open spec fn spec_facts_of(store: Map<u64, Seq<FactView>>, key: u64) -> Seq<FactView> {
    if store.dom().contains(key) {
        store[key]
    } else {
        Seq::empty()
    }
}

/// Two facts are the same fact when they are of one relation and have the same
/// atoms on both sides. Their justifications play no part.
pub open spec fn spec_same_fact(a: FactView, b: FactView) -> bool {
    &&& a.fact_key == b.fact_key
    &&& a.left.counter == b.left.counter
    &&& a.right.counter == b.right.counter
}

/// Whether a store holds `fact`, under whatever justification.
pub open spec fn spec_holds(store: Map<u64, Seq<FactView>>, fact: FactView) -> bool {
    exists|i: int|
        0 <= i < spec_facts_of(store, fact.fact_key).len() && spec_same_fact(
            #[trigger] spec_facts_of(store, fact.fact_key)[i],
            fact,
        )
}

/// Whether the sides of `fact` are what `query` asks for.
pub open spec fn spec_matches(fact: FactView, query: QueryView) -> bool {
    &&& query.left matches Some(left) ==> fact.left.counter == left
    &&& query.right matches Some(right) ==> fact.right.counter == right
}

/// What a query yields: the facts of its relation that match it, oldest first.
pub open spec fn spec_get(store: Map<u64, Seq<FactView>>, query: QueryView) -> Seq<FactView> {
    spec_facts_of(store, query.fact_key).filter(|fact: FactView| spec_matches(fact, query))
}

/// A store after `fact` was offered to it: unchanged if it holds the fact
/// already, else with the fact behind the others of its relation.
pub open spec fn spec_add(store: Map<u64, Seq<FactView>>, fact: FactView) -> Map<u64, Seq<FactView>> {
    if spec_holds(store, fact) {
        store
    } else {
        store.insert(fact.fact_key, spec_facts_of(store, fact.fact_key).push(fact))
    }
}

/// A store after `facts` were offered to it one by one, first to last.
pub open spec fn spec_extend(store: Map<u64, Seq<FactView>>, facts: Seq<FactView>) -> Map<
    u64,
    Seq<FactView>,
>
    decreases facts.len(),
{
    if facts.len() == 0 {
        store
    } else {
        spec_add(spec_extend(store, facts.drop_last()), facts.last())
    }
}

/// What every store satisfies: each relation it knows has a fact, each fact is
/// filed under its own relation, and no fact is held twice.
pub open spec fn spec_store_ok(store: Map<u64, Seq<FactView>>) -> bool {
    &&& forall|key: u64| store.dom().contains(key) ==> (#[trigger] store[key]).len() > 0
    &&& forall|key: u64, i: int|
        0 <= i < spec_facts_of(store, key).len() ==> (#[trigger] spec_facts_of(
            store,
            key,
        )[i]).fact_key == key
    &&& forall|key: u64, i: int, j: int|
        0 <= i < j < spec_facts_of(store, key).len() ==> !spec_same_fact(
            #[trigger] spec_facts_of(store, key)[i],
            #[trigger] spec_facts_of(store, key)[j],
        )
}

/// The facts of the relations below `bound`, by rising key and, within a
/// relation, oldest first.
pub open spec fn spec_all_below(store: Map<u64, Seq<FactView>>, bound: nat) -> Seq<FactView>
    decreases bound,
{
    if bound == 0 {
        Seq::empty()
    } else {
        spec_all_below(store, (bound - 1) as nat) + spec_facts_of(store, (bound - 1) as u64)
    }
}

/// Every fact of a store, by rising key and, within a relation, oldest first.
pub open spec fn spec_all(store: Map<u64, Seq<FactView>>) -> Seq<FactView> {
    spec_all_below(store, 0x1_0000_0000_0000_0000)
}

/// Filtering one element more keeps it or leaves it out.
pub proof fn lemma_filter_step<A>(s: Seq<A>, pred: spec_fn(A) -> bool, n: int)
    requires
        0 <= n < s.len(),
    ensures
        s.take(n + 1).filter(pred) == if pred(s[n]) {
            s.take(n).filter(pred).push(s[n])
        } else {
            s.take(n).filter(pred)
        },
{
    reveal(Seq::filter);
    assert(s.take(n + 1).drop_last() =~= s.take(n));
}

/// A filter leaves nothing exactly when nothing passes it.
pub proof fn lemma_filter_empty<A>(s: Seq<A>, pred: spec_fn(A) -> bool)
    ensures
        s.filter(pred).len() == 0 <==> forall|i: int| 0 <= i < s.len() ==> !pred(#[trigger] s[i]),
    decreases s.len(),
{
    reveal(Seq::filter);
    if s.len() > 0 {
        lemma_filter_empty(s.drop_last(), pred);
        if s.filter(pred).len() == 0 {
            assert forall|i: int| 0 <= i < s.len() implies !pred(#[trigger] s[i]) by {
                if i < s.len() - 1 {
                    assert(s.drop_last()[i] == s[i]);
                }
            }
        } else if !pred(s.last()) {
            let i = choose|i: int| 0 <= i < s.drop_last().len() && pred(#[trigger] s.drop_last()[i]);
            assert(pred(s[i]));
        }
    }
}

/// The query that only the fact `fact` and its like match.
pub open spec fn spec_query_for(fact: FactView) -> QueryView {
    QueryView {
        fact_key: fact.fact_key,
        left: Some(fact.left.counter),
        right: Some(fact.right.counter),
    }
}

/// A store holds a fact exactly when the query for it yields something.
pub proof fn lemma_holds_by_query(store: Map<u64, Seq<FactView>>, fact: FactView)
    requires
        spec_store_ok(store),
    ensures
        spec_holds(store, fact) <==> spec_get(store, spec_query_for(fact)).len() > 0,
{
    let facts = spec_facts_of(store, fact.fact_key);
    let pred = |other: FactView| spec_matches(other, spec_query_for(fact));
    lemma_filter_empty(facts, pred);
    if spec_holds(store, fact) {
        let i = choose|i: int| 0 <= i < facts.len() && spec_same_fact(#[trigger] facts[i], fact);
        assert(pred(facts[i]));
    }
    if spec_get(store, spec_query_for(fact)).len() > 0 {
        let i = choose|i: int| 0 <= i < facts.len() && pred(#[trigger] facts[i]);
        assert(spec_same_fact(facts[i], fact));
    }
}

/// Whether `after` holds every fact of `before`, each relation's facts in
/// the same order and in front of those that came later.
pub open spec fn spec_grows(
    before: Map<u64, Seq<FactView>>,
    after: Map<u64, Seq<FactView>>,
) -> bool {
    forall|key: u64| #[trigger]
        spec_facts_of(before, key).is_prefix_of(spec_facts_of(after, key))
}

/// Offering a fact to a store makes it grow, and changes it only where the
/// store did not hold the fact.
pub proof fn lemma_add_grows(store: Map<u64, Seq<FactView>>, fact: FactView)
    ensures
        spec_grows(store, spec_add(store, fact)),
        spec_holds(store, fact) <==> spec_add(store, fact) == store,
        !spec_holds(store, fact) ==> spec_facts_of(spec_add(store, fact), fact.fact_key).len()
            == spec_facts_of(store, fact.fact_key).len() + 1,
{
    let after = spec_add(store, fact);
    assert forall|key: u64| #[trigger]
        spec_facts_of(store, key).is_prefix_of(spec_facts_of(after, key)) by {}
}

/// Keys that a store does not know add nothing to the facts below a bound.
pub proof fn lemma_all_below_gap(store: Map<u64, Seq<FactView>>, from: nat, to: nat)
    requires
        from <= to <= 0x1_0000_0000_0000_0000,
        forall|key: u64| from <= key < to ==> !store.dom().contains(key),
    ensures
        spec_all_below(store, to) == spec_all_below(store, from),
    decreases to - from,
{
    if from < to {
        lemma_all_below_gap(store, from, (to - 1) as nat);
        assert(!store.dom().contains((to - 1) as u64));
        assert(spec_all_below(store, to) =~= spec_all_below(store, (to - 1) as nat));
    }
}

/// Offering a fact to a store leaves it a store.
pub proof fn lemma_add_ok(store: Map<u64, Seq<FactView>>, fact: FactView)
    requires
        spec_store_ok(store),
    ensures
        spec_store_ok(spec_add(store, fact)),
{
    let after = spec_add(store, fact);
    if !spec_holds(store, fact) {
        let key = fact.fact_key;
        let old_facts = spec_facts_of(store, key);
        assert forall|k: u64| after.dom().contains(k) implies (#[trigger] after[k]).len() > 0 by {
            if k != key {
                assert(store.dom().contains(k));
            }
        }
        assert forall|k: u64, i: int| 0 <= i < spec_facts_of(after, k).len() implies (
        #[trigger] spec_facts_of(after, k)[i]).fact_key == k by {
            if k == key {
                if i < old_facts.len() {
                    assert(spec_facts_of(store, k)[i].fact_key == k);
                }
            } else {
                assert(spec_facts_of(store, k)[i].fact_key == k);
            }
        }
        assert forall|k: u64, i: int, j: int|
            0 <= i < j < spec_facts_of(after, k).len() implies !spec_same_fact(
            #[trigger] spec_facts_of(after, k)[i],
            #[trigger] spec_facts_of(after, k)[j],
        ) by {
            if k == key {
                if j < old_facts.len() {
                    assert(!spec_same_fact(
                        spec_facts_of(store, k)[i],
                        spec_facts_of(store, k)[j],
                    ));
                } else {
                    assert(!spec_same_fact(spec_facts_of(store, key)[i], fact));
                }
            } else {
                assert(!spec_same_fact(spec_facts_of(store, k)[i], spec_facts_of(store, k)[j]));
            }
        }
    }
}

/// Offering facts to a store leaves it a store that has grown.
pub proof fn lemma_extend_ok(store: Map<u64, Seq<FactView>>, facts: Seq<FactView>)
    requires
        spec_store_ok(store),
    ensures
        spec_store_ok(spec_extend(store, facts)),
        spec_grows(store, spec_extend(store, facts)),
    decreases facts.len(),
{
    if facts.len() > 0 {
        let middle = spec_extend(store, facts.drop_last());
        lemma_extend_ok(store, facts.drop_last());
        lemma_add_ok(middle, facts.last());
        lemma_add_grows(middle, facts.last());
        let after = spec_extend(store, facts);
        assert forall|key: u64| #[trigger]
            spec_facts_of(store, key).is_prefix_of(spec_facts_of(after, key)) by {
            assert(spec_facts_of(store, key).is_prefix_of(spec_facts_of(middle, key)));
            assert(spec_facts_of(middle, key).is_prefix_of(spec_facts_of(after, key)));
        }
    } else {
        assert forall|key: u64| #[trigger]
            spec_facts_of(store, key).is_prefix_of(spec_facts_of(store, key)) by {}
    }
}

/// A number that tells facts apart: two facts have the same number exactly
/// when they are the same fact.
pub open spec fn spec_code(fact: FactView) -> int {
    fact.fact_key * 0x1_0000_0000_0000_0000 + fact.left.counter * 0x1_0000_0000
        + fact.right.counter
}

/// The bound below which the number of every fact lies.
pub open spec fn spec_code_bound() -> int {
    0x1_0000_0000_0000_0000_0000_0000_0000_0000int
}

/// The numbers of the facts that a store holds.
pub open spec fn spec_codes(store: Map<u64, Seq<FactView>>) -> Set<int> {
    Set::new(
        |code: int|
            exists|key: u64, i: int|
                0 <= i < spec_facts_of(store, key).len() && spec_code(
                    #[trigger] spec_facts_of(store, key)[i],
                ) == code,
    )
}

/// How many facts a store could still take: those of all that can be told
/// apart which it does not hold.
pub open spec fn spec_room(store: Map<u64, Seq<FactView>>) -> nat {
    set_int_range(0, spec_code_bound()).difference(
        spec_codes(store),
    ).len()
}

/// A fact that a store takes uses up one place of its room; a fact that it
/// holds already uses none.
pub proof fn lemma_add_room(store: Map<u64, Seq<FactView>>, fact: FactView)
    requires
        spec_store_ok(store),
    ensures
        spec_holds(store, fact) ==> spec_room(spec_add(store, fact)) == spec_room(store),
        !spec_holds(store, fact) ==> spec_room(spec_add(store, fact)) + 1 == spec_room(store),
{
    if !spec_holds(store, fact) {
        let after = spec_add(store, fact);
        let key = fact.fact_key;
        let code = spec_code(fact);
        let full = set_int_range(0, spec_code_bound());
        lemma_int_range(0, spec_code_bound());
        assert(full.contains(code));
        if spec_codes(store).contains(code) {
            let (k, i): (u64, int) = choose|k: u64, i: int|
                0 <= i < spec_facts_of(store, k).len() && spec_code(
                    #[trigger] spec_facts_of(store, k)[i],
                ) == code;
            let other = spec_facts_of(store, k)[i];
            assert(other.fact_key == k);
            assert(spec_same_fact(other, fact));
            assert(false);
        }
        assert forall|c: int| #[trigger]
            spec_codes(after).contains(c) == spec_codes(store).insert(code).contains(c) by {
            if spec_codes(after).contains(c) {
                let (k, i): (u64, int) = choose|k: u64, i: int|
                    0 <= i < spec_facts_of(after, k).len() && spec_code(
                        #[trigger] spec_facts_of(after, k)[i],
                    ) == c;
                if k == key && i == spec_facts_of(store, key).len() {
                } else {
                    assert(spec_facts_of(store, k)[i] == spec_facts_of(after, k)[i]);
                }
            }
            if spec_codes(store).contains(c) {
                let (k, i): (u64, int) = choose|k: u64, i: int|
                    0 <= i < spec_facts_of(store, k).len() && spec_code(
                        #[trigger] spec_facts_of(store, k)[i],
                    ) == c;
                assert(spec_facts_of(after, k)[i] == spec_facts_of(store, k)[i]);
            }
            if c == code {
                let last = spec_facts_of(store, key).len() as int;
                assert(spec_facts_of(after, key)[last] == fact);
            }
        }
        assert(spec_codes(after) =~= spec_codes(store).insert(code));
        assert(full.difference(spec_codes(after)) =~= full.difference(spec_codes(store)).remove(code));
    }
}

/// Offering facts to a store never gives it room, and takes room away
/// whenever the store changes.
pub proof fn lemma_extend_room(store: Map<u64, Seq<FactView>>, facts: Seq<FactView>)
    requires
        spec_store_ok(store),
    ensures
        spec_room(spec_extend(store, facts)) <= spec_room(store),
        spec_extend(store, facts) != store ==> spec_room(spec_extend(store, facts)) < spec_room(store),
    decreases facts.len(),
{
    if facts.len() > 0 {
        let middle = spec_extend(store, facts.drop_last());
        lemma_extend_room(store, facts.drop_last());
        lemma_extend_ok(store, facts.drop_last());
        lemma_add_room(middle, facts.last());
        lemma_add_grows(middle, facts.last());
    }
}

/// The facts of one relation, oldest first.
struct Bucket {
    key: u64,
    facts: Vec<Fact<Erased>>,
}

/// The fact store: for each relation the facts known of it, in the order
/// in which they arrived.
pub struct Context {
    facts: Vec<Bucket>,
}

spec fn spec_has_bucket(buckets: Seq<Bucket>, key: u64) -> bool {
    exists|i: int| 0 <= i < buckets.len() && (#[trigger] buckets[i]).key == key
}

spec fn spec_bucket_index(buckets: Seq<Bucket>, key: u64) -> int {
    choose|i: int| 0 <= i < buckets.len() && (#[trigger] buckets[i]).key == key
}

impl View for Context {
    type V = Map<u64, Seq<FactView>>;

    closed spec fn view(&self) -> Map<u64, Seq<FactView>> {
        Map::new(
            |key: u64| spec_has_bucket(self.facts@, key),
            |key: u64| spec_views(self.facts@[spec_bucket_index(self.facts@, key)].facts@),
        )
    }
}

impl Default for Context {
    fn default() -> (ctx: Self)
        ensures
            ctx.wf(),
            ctx@ == Map::<u64, Seq<FactView>>::empty(),
    {
        Context::new()
    }
}

impl Clone for Context {
    fn clone(&self) -> (ctx: Self)
        ensures
            self.wf() ==> ctx.wf() && ctx@ == self@,
    {
        let mut facts: Vec<Bucket> = Vec::new();
        let mut i: usize = 0;
        while i < self.facts.len()
            invariant
                i <= self.facts.len(),
                facts.len() == i,
                forall|j: int|
                    0 <= j < i ==> (#[trigger] facts[j]).key == self.facts[j].key && spec_views(
                        facts[j].facts@,
                    ) == spec_views(self.facts[j].facts@),
            decreases self.facts.len() - i,
        {
            let bucket = &self.facts[i];
            facts.push(Bucket { key: bucket.key, facts: clone_facts(&bucket.facts) });
            i += 1;
        }
        let ctx = Context { facts };
        proof {
            if self.wf() {
                assert forall|j: int, n: int|
                    0 <= j < ctx.facts@.len() && 0 <= n < ctx.facts@[j].facts@.len() implies (
                #[trigger] ctx.facts@[j].facts@[n])@ == self.facts@[j].facts@[n]@ by {
                    assert(spec_views(ctx.facts@[j].facts@)[n] == spec_views(
                        self.facts@[j].facts@,
                    )[n]);
                }
                assert forall|j: int| 0 <= j < ctx.facts@.len() implies (
                #[trigger] ctx.facts@[j]).facts@.len() == self.facts@[j].facts@.len() by {
                    assert(spec_views(ctx.facts@[j].facts@).len() == spec_views(
                        self.facts@[j].facts@,
                    ).len());
                }
                assert(ctx.wf());
                assert forall|key: u64| #[trigger]
                    ctx@.dom().contains(key) == self@.dom().contains(key) by {
                    if spec_has_bucket(ctx.facts@, key) {
                        let j = spec_bucket_index(ctx.facts@, key);
                        assert(self.facts@[j].key == key);
                    }
                    if spec_has_bucket(self.facts@, key) {
                        let j = spec_bucket_index(self.facts@, key);
                        assert(ctx.facts@[j].key == key);
                    }
                }
                assert forall|key: u64| ctx@.dom().contains(key) implies #[trigger] ctx@[key]
                    == self@[key] by {
                    let j = spec_bucket_index(ctx.facts@, key);
                    ctx.lemma_view_at(j);
                    self.lemma_view_at(j);
                }
                assert(ctx@ =~= self@);
            }
        }
        ctx
    }
}

/// Whether the sides of `fact` are what `query` asks for.
pub fn filter_by<F: BuildQuery>(fact: &Fact<F>, query: &Query<F>) -> (matches: bool)
    ensures
        matches == spec_matches(fact@, query@),
{
    let left_ok = match &query.left {
        Some(left) => fact.left.counter() == left.counter(),
        None => true,
    };
    let right_ok = match &query.right {
        Some(right) => fact.right.counter() == right.counter(),
        None => true,
    };
    left_ok && right_ok
}

impl Context {
    /// The buckets are ordered by rising key, none is empty, each holds
    /// facts of its own relation only and none of them twice.
    pub closed spec fn wf(&self) -> bool {
        &&& forall|i: int, j: int|
            0 <= i < j < self.facts@.len() ==> (#[trigger] self.facts@[i]).key < (
            #[trigger] self.facts@[j]).key
        &&& forall|i: int| 0 <= i < self.facts@.len() ==> (#[trigger] self.facts@[i]).facts@.len() > 0
        &&& forall|i: int, n: int|
            0 <= i < self.facts@.len() && 0 <= n < self.facts@[i].facts@.len() ==> (
            #[trigger] self.facts@[i].facts@[n]).fact_key@ == self.facts@[i].key
        &&& forall|i: int, n: int, m: int|
            0 <= i < self.facts@.len() && 0 <= n < m < self.facts@[i].facts@.len()
                ==> !spec_same_fact(
                (#[trigger] self.facts@[i].facts@[n])@,
                (#[trigger] self.facts@[i].facts@[m])@,
            )
    }

    /// A store without facts.
    pub fn new() -> (ctx: Self)
        ensures
            ctx.wf(),
            ctx@ == Map::<u64, Seq<FactView>>::empty(),
    {
        let ctx = Context { facts: Vec::new() };
        assert(ctx@ =~= Map::<u64, Seq<FactView>>::empty());
        ctx
    }

    /// What the buckets say of the view at one key.
    proof fn lemma_view_at(&self, i: int)
        requires
            self.wf(),
            0 <= i < self.facts@.len(),
        ensures
            self@.dom().contains(self.facts@[i].key),
            self@[self.facts@[i].key] == spec_views(self.facts@[i].facts@),
            spec_facts_of(self@, self.facts@[i].key) == spec_views(self.facts@[i].facts@),
    {
        let key = self.facts@[i].key;
        assert(spec_has_bucket(self.facts@, key));
        let j = spec_bucket_index(self.facts@, key);
        assert(self.facts@[j].key == key);
        if i < j {
            assert(self.facts@[i].key < self.facts@[j].key);
        } else if j < i {
            assert(self.facts@[j].key < self.facts@[i].key);
        }
    }

    /// A well-formed store's view is what every store satisfies.
    pub proof fn lemma_store_ok(&self)
        requires
            self.wf(),
        ensures
            spec_store_ok(self@),
    {
        assert forall|key: u64| self@.dom().contains(key) implies (#[trigger] self@[key]).len()
            > 0 by {
            let i = spec_bucket_index(self.facts@, key);
            self.lemma_view_at(i);
        }
        assert forall|key: u64, n: int| 0 <= n < spec_facts_of(self@, key).len() implies (
        #[trigger] spec_facts_of(self@, key)[n]).fact_key == key by {
            let i = spec_bucket_index(self.facts@, key);
            self.lemma_view_at(i);
            assert(self.facts@[i].facts@[n].fact_key@ == key);
        }
        assert forall|key: u64, n: int, m: int|
            0 <= n < m < spec_facts_of(self@, key).len() implies !spec_same_fact(
            #[trigger] spec_facts_of(self@, key)[n],
            #[trigger] spec_facts_of(self@, key)[m],
        ) by {
            let i = spec_bucket_index(self.facts@, key);
            self.lemma_view_at(i);
            assert(!spec_same_fact(self.facts@[i].facts@[n]@, self.facts@[i].facts@[m]@));
        }
    }

    /// Every fact of the store: relation after relation by rising key, and
    /// within a relation oldest first.
    pub fn all(&self) -> (facts: Vec<Fact<Erased>>)
        requires
            self.wf(),
        ensures
            spec_views(facts@) == spec_all(self@),
    {
        let mut facts: Vec<Fact<Erased>> = Vec::new();
        let ghost mut bound: nat = 0;
        let mut i: usize = 0;
        assert(spec_views(facts@) =~= spec_all_below(self@, 0));
        while i < self.facts.len()
            invariant
                self.wf(),
                i <= self.facts@.len(),
                bound <= 0x1_0000_0000_0000_0000,
                forall|j: int| 0 <= j < i ==> (#[trigger] self.facts@[j]).key < bound,
                forall|j: int| i <= j < self.facts@.len() ==> (#[trigger] self.facts@[j]).key >= bound,
                spec_views(facts@) == spec_all_below(self@, bound),
            decreases self.facts.len() - i,
        {
            let bucket = &self.facts[i];
            let ghost start = facts@;
            proof {
                self.lemma_view_at(i as int);
                assert forall|key: u64| bound <= key < bucket.key implies !self@.dom().contains(
                    key,
                ) by {
                    if spec_has_bucket(self.facts@, key) {
                        let j = spec_bucket_index(self.facts@, key);
                        if j < i {
                            assert(self.facts@[j].key < bound);
                        } else if j > i {
                            assert(self.facts@[i as int].key < self.facts@[j].key);
                        }
                    }
                }
                lemma_all_below_gap(self@, bound, bucket.key as nat);
            }
            let mut n: usize = 0;
            while n < bucket.facts.len()
                invariant
                    n <= bucket.facts@.len(),
                    spec_views(facts@) == spec_views(start) + spec_views(bucket.facts@).take(n as int),
                decreases bucket.facts.len() - n,
            {
                let ghost prior = facts@;
                facts.push(bucket.facts[n].clone());
                assert(spec_views(facts@) =~= spec_views(prior).push(bucket.facts@[n as int]@));
                assert(spec_views(bucket.facts@).take(n + 1) =~= spec_views(bucket.facts@).take(
                    n as int,
                ).push(bucket.facts@[n as int]@));
                n += 1;
            }
            proof {
                assert(spec_views(bucket.facts@).take(n as int) =~= spec_views(bucket.facts@));
                assert forall|j: int| i < j < self.facts@.len() implies (
                #[trigger] self.facts@[j]).key >= bucket.key + 1 by {
                    assert(self.facts@[i as int].key < self.facts@[j].key);
                }
                bound = (bucket.key + 1) as nat;
            }
            i += 1;
        }
        proof {
            assert forall|key: u64|
                bound <= key < 0x1_0000_0000_0000_0000 implies !self@.dom().contains(key) by {
                if spec_has_bucket(self.facts@, key) {
                    let j = spec_bucket_index(self.facts@, key);
                    assert(self.facts@[j].key < bound);
                }
            }
            lemma_all_below_gap(self@, bound, 0x1_0000_0000_0000_0000);
        }
        facts
    }

    /// The facts of the query's relation that match it, oldest first.
    pub fn get<F: BuildQuery>(&self, query: Query<F>) -> (facts: Vec<Fact<F>>)
        requires
            self.wf(),
        ensures
            spec_views(facts@) == spec_get(self@, query@),
    {
        let mut found: Vec<Fact<F>> = Vec::new();
        let ghost pred = |fact: FactView| spec_matches(fact, query@);
        match self.find(query.fact_key.type_id()) {
            Ok(i) => {
                let bucket = &self.facts[i];
                let ghost all = spec_views(bucket.facts@);
                proof {
                    self.lemma_view_at(i as int);
                    reveal(Seq::filter);
                    assert(all.take(0).filter(pred) =~= Seq::<FactView>::empty());
                }
                let mut n: usize = 0;
                while n < bucket.facts.len()
                    invariant
                        n <= bucket.facts@.len(),
                        all == spec_views(bucket.facts@),
                        pred == (|fact: FactView| spec_matches(fact, query@)),
                        spec_views(found@) == all.take(n as int).filter(pred),
                    decreases bucket.facts.len() - n,
                {
                    let fact = bucket.facts[n].cast::<F>();
                    proof {
                        lemma_filter_step(all, pred, n as int);
                    }
                    if filter_by(&fact, &query) {
                        let ghost before = found@;
                        found.push(fact);
                        assert(spec_views(found@) =~= spec_views(before).push(fact@));
                    }
                    n += 1;
                }
                assert(all.take(n as int) =~= all);
            },
            Err(_) => {
                proof {
                    reveal(Seq::filter);
                    assert(spec_views(found@) =~= spec_get(self@, query@));
                }
            },
        }
        found
    }

    /// Offers `fact` to the store, which takes it unless it holds the fact
    /// already. Says whether the store took it.
    pub fn add(&mut self, fact: Fact<Erased>) -> (changed: bool)
        requires
            old(self).wf(),
        ensures
            final(self).wf(),
            final(self)@ == spec_add(old(self)@, fact@),
            changed == !spec_holds(old(self)@, fact@),
    {
        let query = Query::<Erased>::raw(
            fact.fact_key,
            Some(fact.left.clone()),
            Some(fact.right.clone()),
        );
        proof {
            self.lemma_store_ok();
            lemma_holds_by_query(self@, fact@);
            assert(query@ == spec_query_for(fact@));
        }
        let same = self.get(query);
        assert(spec_views(same@).len() == same@.len());
        if same.len() == 0 {
            self.insert(fact);
            true
        } else {
            false
        }
    }

    /// Offers `facts` to the store one by one, first to last, so that a fact
    /// that occurs twice among them is taken once. Says whether the store
    /// took any.
    pub fn extend(&mut self, facts: Vec<Fact<Erased>>) -> (changed: bool)
        requires
            old(self).wf(),
        ensures
            final(self).wf(),
            final(self)@ == spec_extend(old(self)@, spec_views(facts@)),
            changed == (final(self)@ != old(self)@),
            !changed ==> forall|i: int|
                0 <= i < facts@.len() ==> spec_holds(old(self)@, (#[trigger] facts@[i])@),
    {
        let ghost before = self@;
        let ghost offered = spec_views(facts@);
        let mut did_add = false;
        for fact in iter: facts
            invariant
                self.wf(),
                iter.seq() == facts@,
                offered == spec_views(facts@),
                before == old(self)@,
                self@ == spec_extend(before, offered.take(iter.index())),
                spec_grows(before, self@),
                did_add == (self@ != before),
                !did_add ==> forall|i: int|
                    0 <= i < iter.index() ==> spec_holds(before, (#[trigger] facts@[i])@),
        {
            let ghost current = self@;
            proof {
                let n = iter.index();
                assert(offered.take(n + 1).drop_last() =~= offered.take(n));
                assert(offered.take(n + 1).last() == fact@);
                lemma_add_grows(current, fact@);
            }
            if self.add(fact) {
                did_add = true;
            }
            proof {
                let key = fact@.fact_key;
                assert forall|k: u64| #[trigger]
                    spec_facts_of(before, k).is_prefix_of(spec_facts_of(self@, k)) by {
                    assert(spec_facts_of(before, k).is_prefix_of(spec_facts_of(current, k)));
                    assert(spec_facts_of(current, k).is_prefix_of(spec_facts_of(self@, k)));
                }
                if self@ != current {
                    assert(spec_facts_of(before, key).is_prefix_of(spec_facts_of(current, key)));
                    assert(spec_facts_of(self@, key).len() > spec_facts_of(before, key).len());
                }
            }
        }
        assert(offered.take(facts@.len() as int) =~= offered);
        did_add
    }

    /// Files a fact that the store does not hold yet.
    fn insert(&mut self, fact: Fact<Erased>)
        requires
            old(self).wf(),
            !spec_holds(old(self)@, fact@),
        ensures
            final(self).wf(),
            final(self)@ == old(self)@.insert(
                fact@.fact_key,
                spec_facts_of(old(self)@, fact@.fact_key).push(fact@),
            ),
    {
        let key = fact.fact_key.type_id();
        let ghost before = *self;
        let ghost target = before@.insert(key, spec_facts_of(before@, key).push(fact@));
        match self.find(key) {
            Ok(i) => {
                proof {
                    before.lemma_view_at(i as int);
                }
                self.facts[i].facts.push(fact);
                proof {
                    let old_facts = before.facts@[i as int].facts@;
                    assert(self.facts@.len() == before.facts@.len());
                    assert(forall|j: int|
                        0 <= j < self.facts@.len() && j != i ==> self.facts@[j] == before.facts@[j]);
                    assert(self.facts@[i as int].facts@ == old_facts.push(fact));
                    assert(self.facts@[i as int].key == key);
                    assert forall|n: int| 0 <= n < old_facts.len() implies !spec_same_fact(
                        (#[trigger] old_facts[n])@,
                        fact@,
                    ) by {
                        assert(spec_facts_of(before@, key)[n] == old_facts[n]@);
                    }
                    assert(self.wf());
                    assert forall|k: u64| #[trigger]
                        self@.dom().contains(k) == target.dom().contains(k) by {
                        if spec_has_bucket(self.facts@, k) {
                            let j = spec_bucket_index(self.facts@, k);
                            assert(before.facts@[j].key == k);
                        }
                        if spec_has_bucket(before.facts@, k) {
                            let j = spec_bucket_index(before.facts@, k);
                            assert(self.facts@[j].key == k);
                        }
                    }
                    assert forall|k: u64| self@.dom().contains(k) implies #[trigger] self@[k]
                        == target[k] by {
                        let j = spec_bucket_index(self.facts@, k);
                        self.lemma_view_at(j);
                        before.lemma_view_at(j);
                        if j == i {
                            assert(spec_views(old_facts.push(fact)) =~= spec_views(old_facts).push(
                                fact@,
                            ));
                        }
                    }
                    assert(self@ =~= target);
                }
            },
            Err(i) => {
                let mut facts: Vec<Fact<Erased>> = Vec::new();
                facts.push(fact);
                self.facts.insert(i, Bucket { key, facts });
                proof {
                    assert(self.facts@ == before.facts@.insert(i as int, self.facts@[i as int]));
                    assert(forall|j: int| 0 <= j < i ==> self.facts@[j] == before.facts@[j]);
                    assert(forall|j: int|
                        i < j < self.facts@.len() ==> self.facts@[j] == before.facts@[j - 1]);
                    assert(self.facts@[i as int].key == key);
                    assert(self.facts@[i as int].facts@ =~= seq![fact]);
                    assert(self.wf());
                    assert forall|k: u64| #[trigger]
                        self@.dom().contains(k) == target.dom().contains(k) by {
                        if spec_has_bucket(self.facts@, k) && k != key {
                            let j = spec_bucket_index(self.facts@, k);
                            if j < i {
                                assert(before.facts@[j].key == k);
                            } else {
                                assert(before.facts@[j - 1].key == k);
                            }
                        }
                        if spec_has_bucket(before.facts@, k) {
                            let j = spec_bucket_index(before.facts@, k);
                            if j < i {
                                assert(self.facts@[j].key == k);
                            } else {
                                assert(self.facts@[j + 1].key == k);
                            }
                        }
                        if k == key {
                            assert(self.facts@[i as int].key == k);
                        }
                    }
                    assert forall|k: u64| self@.dom().contains(k) implies #[trigger] self@[k]
                        == target[k] by {
                        let j = spec_bucket_index(self.facts@, k);
                        self.lemma_view_at(j);
                        if j < i {
                            before.lemma_view_at(j);
                        } else if j > i {
                            before.lemma_view_at(j - 1);
                        } else {
                            assert(spec_views(seq![fact]) =~= Seq::<FactView>::empty().push(fact@));
                        }
                    }
                    assert(self@ =~= target);
                }
            },
        }
    }

    /// Where the bucket of `key` is, or where it would have to go.
    fn find(&self, key: u64) -> (place: Result<usize, usize>)
        requires
            self.wf(),
        ensures
            match place {
                Ok(i) => i < self.facts@.len() && self.facts@[i as int].key == key,
                Err(i) => {
                    &&& i <= self.facts@.len()
                    &&& !self@.dom().contains(key)
                    &&& forall|j: int| 0 <= j < i ==> (#[trigger] self.facts@[j]).key < key
                    &&& forall|j: int|
                        i <= j < self.facts@.len() ==> (#[trigger] self.facts@[j]).key > key
                },
            },
    {
        let mut i: usize = 0;
        while i < self.facts.len()
            invariant
                self.wf(),
                i <= self.facts@.len(),
                forall|j: int| 0 <= j < i ==> (#[trigger] self.facts@[j]).key < key,
            decreases self.facts.len() - i,
        {
            if self.facts[i].key == key {
                return Ok(i);
            }
            if self.facts[i].key > key {
                assert forall|j: int| i <= j < self.facts@.len() implies (
                #[trigger] self.facts@[j]).key > key by {
                    if i < j {
                        assert(self.facts@[i as int].key < self.facts@[j].key);
                    }
                }
                return Err(i);
            }
            i += 1;
        }
        Err(i)
    }
}

} // verus!
