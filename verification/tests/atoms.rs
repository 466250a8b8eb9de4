use wipple_datalog::{val, BuildQuery, Erased, Query, TypeKey, Val, ValSource, Var};

struct Num;

struct LessThan;

impl BuildQuery for LessThan {
    type Left = Num;
    type Right = Num;

    const NAME: &'static str = "LessThan";
    const KEY: u64 = 1;
}

#[test]
fn atoms_count_up_from_zero() {
    let mut source = ValSource::new();
    let one: Val<Num> = Val::new("1", &mut source);
    let two: Val<Num> = val("2", &mut source);
    assert_eq!(one.counter(), 0);
    assert_eq!(two.counter(), 1);
    assert_eq!(one.description(), "1");
    assert!(one != two);
    assert!(one == one.clone());
}

#[test]
fn atoms_with_one_label_differ() {
    let mut source = ValSource::new();
    let a: Val<Num> = Val::new("x", &mut source);
    let b: Val<Num> = Val::new("x", &mut source);
    assert!(a != b);
}

#[test]
fn variables_are_their_slots() {
    let a: Var<Num> = Var::new(3);
    let b: Var<Num> = Var::new(3);
    let c: Var<Erased> = Var::new(4);
    assert!(a == b);
    assert_eq!(a.index, 3);
    assert_eq!(c.index, 4);
}

#[test]
fn queries_carry_the_relation_key() {
    let mut source = ValSource::new();
    let one: Val<Num> = Val::new("1", &mut source);
    let all = Query::<LessThan>::all();
    assert_eq!(all.fact_key, TypeKey::new(1));
    assert!(all.left.is_none() && all.right.is_none());
    let from_one = Query::<LessThan>::new(Some(one.clone()), None);
    assert_eq!(from_one.left.map(|v| v.counter()), Some(0));
    assert_eq!(TypeKey::of::<LessThan>().type_id(), 1);
}
