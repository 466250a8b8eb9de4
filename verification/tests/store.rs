use wipple_datalog::{
    filter_by, BuildQuery, Context, Erased, Fact, Query, Trace, TypeKey, Val, ValSource,
};

struct Num;

struct Less;

impl BuildQuery for Less {
    type Left = Num;
    type Right = Num;

    const NAME: &'static str = "Less";
    const KEY: u64 = 20;
}

struct More;

impl BuildQuery for More {
    type Left = Num;
    type Right = Num;

    const NAME: &'static str = "More";
    const KEY: u64 = 10;
}

fn atoms(count: usize) -> Vec<Val<Num>> {
    let mut source = ValSource::new();
    (0..count).map(|i| Val::new(&format!("{}", i), &mut source)).collect()
}

fn texts(facts: &[Fact<Erased>]) -> Vec<String> {
    facts.iter().map(|fact| fact.debug_string()).collect()
}

fn description<F: BuildQuery>(fact: &Fact<F>) -> Option<String> {
    match &fact.trace {
        Some(Trace::Custom(text)) => Some(text.clone()),
        _ => None,
    }
}

#[test]
fn new_store_is_empty() {
    let ctx = Context::new();
    assert!(ctx.all().is_empty());
    assert!(ctx.get(Query::<Less>::all()).is_empty());
}

#[test]
fn same_fact_is_taken_once_and_keeps_its_first_trace() {
    let a = atoms(2);
    let mut ctx = Context::new();
    assert!(ctx.add(Fact::new::<Less>(&a[0], &a[1], Some("first"))));
    assert!(!ctx.add(Fact::new::<Less>(&a[0], &a[1], Some("second"))));
    assert!(!ctx.add(Fact::new::<Less>(&a[0], &a[1], None)));

    let facts = ctx.get(Query::<Less>::all());
    assert_eq!(facts.len(), 1);
    assert_eq!(description(&facts[0]), Some("first".to_string()));
}

#[test]
fn same_atoms_in_another_relation_are_another_fact() {
    let a = atoms(2);
    let mut ctx = Context::new();
    assert!(ctx.add(Fact::new::<Less>(&a[0], &a[1], None)));
    assert!(ctx.add(Fact::new::<More>(&a[0], &a[1], None)));
    assert!(ctx.add(Fact::new::<Less>(&a[1], &a[0], None)));
    assert_eq!(ctx.all().len(), 3);
}

#[test]
fn atoms_are_told_apart_by_identity_not_by_label() {
    let mut source = ValSource::new();
    let x1: Val<Num> = Val::new("x", &mut source);
    let x2: Val<Num> = Val::new("x", &mut source);
    let mut ctx = Context::new();
    assert!(ctx.add(Fact::new::<Less>(&x1, &x1, None)));
    assert!(ctx.add(Fact::new::<Less>(&x1, &x2, None)));
    assert!(!ctx.add(Fact::new::<Less>(&x1.clone(), &x2.clone(), None)));
    assert_eq!(ctx.get(Query::<Less>::all()).len(), 2);
}

#[test]
fn extend_takes_a_repeated_fact_once() {
    let a = atoms(3);
    let mut ctx = Context::new();
    ctx.add(Fact::new::<Less>(&a[0], &a[1], Some("held")));

    let changed = ctx.extend(vec![
        Fact::new::<Less>(&a[0], &a[1], Some("again")),
        Fact::new::<Less>(&a[1], &a[2], Some("one")),
        Fact::new::<Less>(&a[1], &a[2], Some("two")),
    ]);
    assert!(changed);
    let facts = ctx.get(Query::<Less>::all());
    assert_eq!(facts.len(), 2);
    assert_eq!(description(&facts[0]), Some("held".to_string()));
    assert_eq!(description(&facts[1]), Some("one".to_string()));

    let again = ctx.extend(vec![
        Fact::new::<Less>(&a[1], &a[2], None),
        Fact::new::<Less>(&a[0], &a[1], None),
    ]);
    assert!(!again);
    assert!(!ctx.extend(Vec::new()));
    assert_eq!(ctx.all().len(), 2);
}

#[test]
fn all_goes_by_rising_key_then_by_arrival() {
    let a = atoms(3);
    let mut ctx = Context::new();
    ctx.add(Fact::new::<Less>(&a[0], &a[1], None));
    ctx.add(Fact::new::<More>(&a[2], &a[1], None));
    ctx.add(Fact::new::<Less>(&a[1], &a[2], None));
    ctx.add(Fact::new::<More>(&a[1], &a[0], None));
    assert_eq!(texts(&ctx.all()), vec!["More(2, 1)", "More(1, 0)", "Less(0, 1)", "Less(1, 2)"]);
}

#[test]
fn query_filters_by_each_combination_of_sides() {
    let a = atoms(3);
    let mut ctx = Context::new();
    ctx.add(Fact::new::<Less>(&a[0], &a[1], None));
    ctx.add(Fact::new::<Less>(&a[0], &a[2], None));
    ctx.add(Fact::new::<Less>(&a[1], &a[2], None));
    ctx.add(Fact::new::<More>(&a[0], &a[1], None));

    let text = |facts: Vec<Fact<Less>>| -> Vec<String> {
        facts.iter().map(|fact| fact.debug_string()).collect()
    };

    assert_eq!(
        text(ctx.get(Query::<Less>::new(None, None))),
        vec!["Less(0, 1)", "Less(0, 2)", "Less(1, 2)"]
    );
    assert_eq!(
        text(ctx.get(Query::<Less>::new(Some(a[0].clone()), None))),
        vec!["Less(0, 1)", "Less(0, 2)"]
    );
    assert_eq!(
        text(ctx.get(Query::<Less>::new(None, Some(a[2].clone())))),
        vec!["Less(0, 2)", "Less(1, 2)"]
    );
    assert_eq!(
        text(ctx.get(Query::<Less>::new(Some(a[0].clone()), Some(a[2].clone())))),
        vec!["Less(0, 2)"]
    );
    assert!(ctx.get(Query::<Less>::new(Some(a[2].clone()), None)).is_empty());
    assert!(ctx.get(Query::<Less>::new(Some(a[1].clone()), Some(a[1].clone()))).is_empty());
}

#[test]
fn raw_query_reads_a_relation_by_its_key() {
    let a = atoms(2);
    let mut ctx = Context::new();
    ctx.add(Fact::new::<More>(&a[0], &a[1], None));
    let found = ctx.get(Query::<Erased>::raw(TypeKey::new(10), None, None));
    assert_eq!(found.len(), 1);
    assert_eq!(found[0].debug_string(), "More(0, 1)");
    assert!(ctx.get(Query::<Erased>::raw(TypeKey::new(11), None, None)).is_empty());
}

#[test]
fn filter_matches_sides_by_identity() {
    let a = atoms(3);
    let fact: Fact<Less> = Fact::new::<Less>(&a[0], &a[1], None).cast();
    assert!(filter_by(&fact, &Query::<Less>::all()));
    assert!(filter_by(&fact, &Query::<Less>::new(Some(a[0].clone()), None)));
    assert!(filter_by(&fact, &Query::<Less>::new(None, Some(a[1].clone()))));
    assert!(filter_by(&fact, &Query::<Less>::new(Some(a[0].clone()), Some(a[1].clone()))));
    assert!(!filter_by(&fact, &Query::<Less>::new(Some(a[1].clone()), None)));
    assert!(!filter_by(&fact, &Query::<Less>::new(None, Some(a[2].clone()))));
    assert!(!filter_by(&fact, &Query::<Less>::new(Some(a[0].clone()), Some(a[2].clone()))));
}

#[test]
fn fact_without_description_has_no_trace() {
    let a = atoms(2);
    let fact = Fact::new::<Less>(&a[0], &a[1], None);
    assert!(fact.trace.is_none());
    assert_eq!(fact.fact_key, TypeKey::new(20));
    assert_eq!(fact.fact_name, "Less");
    assert_eq!(fact.left.counter(), 0);
    assert_eq!(fact.right.counter(), 1);
    assert_eq!(fact.to_plain_trace_string(), "Less(0, 1)\n");
    let copy = fact.clone();
    assert_eq!(copy.debug_string(), "Less(0, 1)");
}

#[test]
fn source_starts_over_after_the_largest_identity() {
    let mut source = ValSource::starting_at(u32::MAX - 1);
    let a: Val<Num> = Val::new("a", &mut source);
    let b: Val<Num> = Val::new("b", &mut source);
    let c: Val<Num> = Val::new("c", &mut source);
    assert_eq!(a.counter(), u32::MAX - 1);
    assert_eq!(b.counter(), u32::MAX);
    assert_eq!(c.counter(), 0);
    assert_eq!(source.next(), 1);
}

#[test]
fn copies_of_a_store_go_their_own_ways() {
    let a = atoms(3);
    let mut ctx = Context::default();
    assert!(ctx.all().is_empty());
    ctx.add(Fact::new::<Less>(&a[0], &a[1], Some("kept")));
    ctx.add(Fact::new::<More>(&a[1], &a[0], None));

    let mut copy = ctx.clone();
    assert_eq!(texts(&copy.all()), texts(&ctx.all()));
    assert!(!copy.add(Fact::new::<Less>(&a[0], &a[1], None)));
    assert!(copy.add(Fact::new::<Less>(&a[1], &a[2], None)));
    assert_eq!(copy.all().len(), 3);
    assert_eq!(ctx.all().len(), 2);
    assert_eq!(description(&copy.get(Query::<Less>::all())[0]), Some("kept".to_string()));
}

#[test]
fn copy_of_a_query_asks_the_same() {
    let a = atoms(2);
    let query = Query::<Less>::new(Some(a[0].clone()), None);
    let copy = query.clone();
    assert_eq!(copy.fact_key, query.fact_key);
    assert_eq!(copy.left.map(|v| v.counter()), Some(0));
    assert!(copy.right.is_none());
}
