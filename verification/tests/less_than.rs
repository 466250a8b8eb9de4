use wipple_datalog::{
    make_plan, BuildQuery, Context, Erased, Fact, Pattern, Query, Rule, Rules, Term, Trace, Val,
    ValSource,
};

struct Num;

struct LessThan;

impl BuildQuery for LessThan {
    type Left = Num;
    type Right = Num;

    const NAME: &'static str = "LessThan";
    const KEY: u64 = 1;
}

struct GreaterThan;

impl BuildQuery for GreaterThan {
    type Left = Num;
    type Right = Num;

    const NAME: &'static str = "GreaterThan";
    const KEY: u64 = 2;
}

fn var(name: &str) -> Term {
    Term::Var(name.to_string())
}

// LessThan(a, c) if LessThan(a, b), LessThan(b, c)
fn transitive() -> Rule {
    let head = Pattern::new::<LessThan>(var("a"), var("c"));
    let body = vec![
        Pattern::new::<LessThan>(var("a"), var("b")),
        Pattern::new::<LessThan>(var("b"), var("c")),
    ];
    match make_plan(&head, &body) {
        Ok(plan) => Rule::with_plan("transitive", plan),
        Err(error) => panic!("{}", error.message()),
    }
}

// GreaterThan(b, a) if LessThan(a, b)
fn inverse() -> Rule {
    let head = Pattern::new::<GreaterThan>(var("b"), var("a"));
    let body = vec![Pattern::new::<LessThan>(var("a"), var("b"))];
    match make_plan(&head, &body) {
        Ok(plan) => Rule::with_plan("inverse", plan),
        Err(error) => panic!("{}", error.message()),
    }
}

fn rules() -> Rules {
    Rules::new().with(transitive()).with(inverse())
}

fn pairs(facts: &[Fact<Erased>]) -> Vec<(String, String)> {
    facts
        .iter()
        .map(|fact| (fact.left.description().to_string(), fact.right.description().to_string()))
        .collect()
}

fn pair(left: &str, right: &str) -> (String, String) {
    (left.to_string(), right.to_string())
}

fn numbers(ctx: &mut Context, described: Option<&str>) -> Vec<Val<Num>> {
    let mut source = ValSource::new();
    let one: Val<Num> = Val::new("1", &mut source);
    let two: Val<Num> = Val::new("2", &mut source);
    let three: Val<Num> = Val::new("3", &mut source);
    let four: Val<Num> = Val::new("4", &mut source);
    ctx.add(Fact::new::<LessThan>(&one, &two, described));
    ctx.add(Fact::new::<LessThan>(&two, &three, described));
    ctx.add(Fact::new::<LessThan>(&three, &four, described));
    vec![one, two, three, four]
}

#[test]
fn test_less_than() {
    let mut ctx = Context::new();

    let mut source = ValSource::new();
    let one: Val<Num> = Val::new("1", &mut source);
    let two: Val<Num> = Val::new("2", &mut source);
    let three: Val<Num> = Val::new("3", &mut source);
    let four: Val<Num> = Val::new("4", &mut source);

    ctx.add(Fact::new::<LessThan>(&one, &two, None));
    ctx.add(Fact::new::<LessThan>(&two, &three, None));
    ctx.add(Fact::new::<LessThan>(&three, &four, None));

    assert!(rules().is_valid());
    ctx.run(rules());

    for fact in ctx.all() {
        println!("{}", fact.to_trace_string());
    }

    let all = ctx.all();
    assert_eq!(all.len(), 12);
    assert_eq!(
        pairs(&all[..6]),
        vec![pair("1", "2"), pair("2", "3"), pair("3", "4"), pair("1", "3"), pair("2", "4"), pair("1", "4")]
    );
    assert_eq!(
        pairs(&all[6..]),
        vec![pair("2", "1"), pair("3", "2"), pair("4", "3"), pair("3", "1"), pair("4", "2"), pair("4", "1")]
    );
}

#[test]
fn transitive_closure_of_a_chain() {
    let mut ctx = Context::new();
    numbers(&mut ctx, None);
    ctx.run(Rules::new().with(transitive()));

    let facts = ctx.all();
    assert_eq!(
        pairs(&facts),
        vec![pair("1", "2"), pair("2", "3"), pair("3", "4"), pair("1", "3"), pair("2", "4"), pair("1", "4")]
    );
    let less = ctx.get(Query::<LessThan>::all());
    assert_eq!(less.len(), 6);
    for (i, a) in less.iter().enumerate() {
        for b in less.iter().skip(i + 1) {
            assert!(!(a.left == b.left && a.right == b.right));
        }
    }
    assert!(ctx.get(Query::<GreaterThan>::all()).is_empty());
}

#[test]
fn inverse_relation_mirrors_every_fact() {
    let mut ctx = Context::new();
    numbers(&mut ctx, None);
    ctx.run(rules());

    let less = ctx.get(Query::<LessThan>::all());
    let greater = ctx.get(Query::<GreaterThan>::all());
    assert_eq!(less.len(), 6);
    assert_eq!(greater.len(), less.len());
    for fact in &less {
        let mirrored = ctx.get(Query::<GreaterThan>::new(
            Some(fact.right.clone()),
            Some(fact.left.clone()),
        ));
        assert_eq!(mirrored.len(), 1);
    }
    for fact in &greater {
        let origin =
            ctx.get(Query::<LessThan>::new(Some(fact.right.clone()), Some(fact.left.clone())));
        assert_eq!(origin.len(), 1);
    }
}

#[test]
fn derived_fact_shows_its_rule_and_antecedents() {
    let mut ctx = Context::new();
    let atoms = numbers(&mut ctx, Some("axiom"));
    ctx.run(Rules::new().with(transitive()));

    let found = ctx.get(Query::<LessThan>::new(Some(atoms[0].clone()), Some(atoms[2].clone())));
    assert_eq!(found.len(), 1);
    let fact = &found[0];
    match &fact.trace {
        Some(Trace::Rule { label, dependencies }) => {
            assert_eq!(label, "transitive");
            assert_eq!(dependencies.len(), 2);
            assert_eq!(dependencies[0].debug_string(), "LessThan(1, 2)");
            assert_eq!(dependencies[1].debug_string(), "LessThan(2, 3)");
        }
        _ => panic!("a derived fact carries its rule"),
    }
    assert_eq!(
        fact.to_plain_trace_string(),
        "LessThan(1, 3) - transitive\n  LessThan(1, 2) - axiom\n  LessThan(2, 3) - axiom\n"
    );

    let lines = fact.trace_lines();
    assert_eq!(lines.len(), 3);
    assert_eq!(lines[0].level, 0);
    assert_eq!(lines[0].note.as_deref(), Some("transitive"));
    assert_eq!(lines[1].level, 1);
    assert_eq!(lines[1].note.as_deref(), Some("axiom"));
    assert_eq!(lines[2].level, 1);
    assert_eq!(lines[2].note.as_deref(), Some("axiom"));
}

#[test]
fn deeper_derivations_indent_further() {
    let mut ctx = Context::new();
    let atoms = numbers(&mut ctx, Some("axiom"));
    ctx.run(Rules::new().with(transitive()));

    let found = ctx.get(Query::<LessThan>::new(Some(atoms[0].clone()), Some(atoms[3].clone())));
    assert_eq!(found.len(), 1);
    assert_eq!(
        found[0].to_plain_trace_string(),
        "LessThan(1, 4) - transitive\n  LessThan(1, 2) - axiom\n  LessThan(2, 4) - transitive\n    LessThan(2, 3) - axiom\n    LessThan(3, 4) - axiom\n"
    );
}
