use wipple_datalog::{
    make_plan, BuildQuery, BuildRule, Context, Erased, Fact, Pattern, Plan, PlanFirstStep,
    PlanLastStep, PlanStep, Query, Rule, Rules, Term, Trace, Val, ValSource, Var,
};

struct Num;

struct Edge;

impl BuildQuery for Edge {
    type Left = Num;
    type Right = Num;

    const NAME: &'static str = "Edge";
    const KEY: u64 = 1;
}

struct Path;

impl BuildQuery for Path {
    type Left = Num;
    type Right = Num;

    const NAME: &'static str = "Path";
    const KEY: u64 = 2;
}

struct Meet;

impl BuildQuery for Meet {
    type Left = Num;
    type Right = Num;

    const NAME: &'static str = "Meet";
    const KEY: u64 = 3;
}

fn var(name: &str) -> Term {
    Term::Var(name.to_string())
}

fn rule(label: &str, head: Pattern, body: Vec<Pattern>) -> Rule {
    match make_plan(&head, &body) {
        Ok(plan) => Rule::with_plan(label, plan),
        Err(error) => panic!("{}", error.message()),
    }
}

fn atoms(count: usize) -> Vec<Val<Num>> {
    let mut source = ValSource::new();
    (0..count).map(|i| Val::new(&format!("{}", i), &mut source)).collect()
}

fn texts(facts: &[Fact<Erased>]) -> Vec<String> {
    facts.iter().map(|fact| fact.debug_string()).collect()
}

// Path(a, b) if Edge(a, b); Path(a, c) if Path(a, b), Edge(b, c)
fn reach() -> Rules {
    Rules::new()
        .with(rule(
            "step",
            Pattern::new::<Path>(var("a"), var("b")),
            vec![Pattern::new::<Edge>(var("a"), var("b"))],
        ))
        .with(rule(
            "more",
            Pattern::new::<Path>(var("a"), var("c")),
            vec![Pattern::new::<Path>(var("a"), var("b")), Pattern::new::<Edge>(var("b"), var("c"))],
        ))
}

#[test]
fn run_ends_on_a_cycle_and_the_result_is_closed() {
    let a = atoms(3);
    let mut ctx = Context::new();
    ctx.add(Fact::new::<Edge>(&a[0], &a[1], None));
    ctx.add(Fact::new::<Edge>(&a[1], &a[2], None));
    ctx.add(Fact::new::<Edge>(&a[2], &a[0], None));
    ctx.run(reach());

    assert_eq!(ctx.get(Query::<Path>::all()).len(), 9);
    assert_eq!(ctx.get(Query::<Edge>::all()).len(), 3);

    // Every fact that the rules derive from the result is held by it.
    let derived = ctx.derive(&reach());
    assert!(!derived.is_empty());
    let held = ctx.all().len();
    assert!(!ctx.extend(derived));
    assert_eq!(ctx.all().len(), held);
}

#[test]
fn running_again_changes_nothing() {
    let a = atoms(3);
    let mut ctx = Context::new();
    ctx.add(Fact::new::<Edge>(&a[0], &a[1], Some("given")));
    ctx.add(Fact::new::<Edge>(&a[1], &a[2], Some("given")));
    ctx.run(reach());
    let once: Vec<String> = ctx.all().iter().map(|fact| fact.to_plain_trace_string()).collect();
    ctx.run(reach());
    let twice: Vec<String> = ctx.all().iter().map(|fact| fact.to_plain_trace_string()).collect();
    assert_eq!(once, twice);
    assert_eq!(
        texts(&ctx.all()),
        vec!["Edge(0, 1)", "Edge(1, 2)", "Path(0, 1)", "Path(1, 2)", "Path(0, 2)"]
    );
}

#[test]
fn a_round_reads_the_store_as_it_stood_when_it_began() {
    let a = atoms(3);
    let mut ctx = Context::new();
    ctx.add(Fact::new::<Edge>(&a[0], &a[1], None));
    ctx.add(Fact::new::<Edge>(&a[1], &a[2], None));
    // In the first round no path is known yet, so only `step` derives.
    assert_eq!(texts(&ctx.derive(&reach())), vec!["Path(0, 1)", "Path(1, 2)"]);
    assert!(ctx.get(Query::<Path>::all()).is_empty());
}

#[test]
fn run_without_rules_or_facts_changes_nothing() {
    let a = atoms(2);
    let mut ctx = Context::new();
    ctx.run(reach());
    assert!(ctx.all().is_empty());
    ctx.add(Fact::new::<Edge>(&a[0], &a[1], None));
    ctx.run(Rules::new());
    assert_eq!(texts(&ctx.all()), vec!["Edge(0, 1)"]);
}

#[test]
fn first_derivation_of_a_fact_keeps_its_trace() {
    let a = atoms(3);
    let mut ctx = Context::new();
    ctx.add(Fact::new::<Edge>(&a[0], &a[1], None));
    ctx.add(Fact::new::<Edge>(&a[0], &a[2], None));
    ctx.add(Fact::new::<Edge>(&a[1], &a[2], None));
    ctx.run(reach());
    // Path(0, 2) comes from `step` in the first round; `more` finds it again later.
    let found = ctx.get(Query::<Path>::new(Some(a[0].clone()), Some(a[2].clone())));
    assert_eq!(found.len(), 1);
    match &found[0].trace {
        Some(Trace::Rule { label, dependencies }) => {
            assert_eq!(label, "step");
            assert_eq!(dependencies.len(), 1);
        }
        _ => panic!("a derived fact carries its rule"),
    }
}

#[test]
fn a_join_anchored_on_the_right_reads_the_relation_backwards() {
    // Meet(a, c) if Edge(a, b), Edge(c, b)
    let rules = Rules::new().with(rule(
        "meet",
        Pattern::new::<Meet>(var("a"), var("c")),
        vec![Pattern::new::<Edge>(var("a"), var("b")), Pattern::new::<Edge>(var("c"), var("b"))],
    ));
    let a = atoms(4);
    let mut ctx = Context::new();
    ctx.add(Fact::new::<Edge>(&a[0], &a[2], None));
    ctx.add(Fact::new::<Edge>(&a[1], &a[2], None));
    ctx.add(Fact::new::<Edge>(&a[1], &a[3], None));
    ctx.run(rules);
    let meet: Vec<String> =
        ctx.get(Query::<Meet>::all()).iter().map(|fact| fact.debug_string()).collect();
    assert_eq!(meet, vec!["Meet(0, 0)", "Meet(0, 1)", "Meet(1, 0)", "Meet(1, 1)"]);
}

#[test]
fn a_join_with_both_sides_bound_only_filters() {
    // Meet(a, b) if Edge(a, b), Edge(b, a)
    let rules = Rules::new().with(rule(
        "both",
        Pattern::new::<Meet>(var("a"), var("b")),
        vec![Pattern::new::<Edge>(var("a"), var("b")), Pattern::new::<Edge>(var("b"), var("a"))],
    ));
    let a = atoms(3);
    let mut ctx = Context::new();
    ctx.add(Fact::new::<Edge>(&a[0], &a[1], None));
    ctx.add(Fact::new::<Edge>(&a[1], &a[0], None));
    ctx.add(Fact::new::<Edge>(&a[1], &a[2], None));
    ctx.run(rules);
    let meet: Vec<String> =
        ctx.get(Query::<Meet>::all()).iter().map(|fact| fact.debug_string()).collect();
    assert_eq!(meet, vec!["Meet(0, 1)", "Meet(1, 0)"]);
}

#[test]
fn literals_anchor_joins_and_end_heads() {
    let a = atoms(4);
    // Meet(x, 3) if Edge(s, t), Edge(x, 2)
    let rules = Rules::new().with(rule(
        "into_two",
        Pattern::new::<Meet>(var("x"), Term::Val(a[3].erase())),
        vec![
            Pattern::new::<Edge>(var("s"), var("t")),
            Pattern::new::<Edge>(var("x"), Term::Val(a[2].erase())),
        ],
    ));
    let mut ctx = Context::new();
    ctx.add(Fact::new::<Edge>(&a[0], &a[2], None));
    ctx.add(Fact::new::<Edge>(&a[1], &a[2], None));
    ctx.add(Fact::new::<Edge>(&a[1], &a[3], None));
    ctx.run(rules);
    let meet: Vec<String> =
        ctx.get(Query::<Meet>::all()).iter().map(|fact| fact.debug_string()).collect();
    assert_eq!(meet, vec!["Meet(0, 3)", "Meet(1, 3)"]);
}

struct Swap;

impl BuildRule for Swap {
    const LABEL: &'static str = "swap";

    fn plan() -> Plan {
        Plan {
            vars: 2,
            first: PlanFirstStep::first::<Edge>(Var::new(0)),
            steps: vec![PlanStep::plan::<Edge>(Var::new(0), Var::new(1))],
            last: PlanLastStep::last_var::<Path>(Var::new(1), Var::new(0)),
        }
    }
}

#[test]
fn rules_stated_by_types_run_like_compiled_ones() {
    let rules = Rules::new().add::<Swap>();
    assert_eq!(rules.iter().len(), 1);
    assert_eq!(rules.iter()[0].label, "swap");
    assert_eq!(Rule::new::<Swap>().label, "swap");
    assert!(rules.is_valid());

    let a = atoms(2);
    let mut ctx = Context::new();
    ctx.add(Fact::new::<Edge>(&a[0], &a[1], None));
    ctx.run(rules);
    assert_eq!(texts(&ctx.all()), vec!["Edge(0, 1)", "Path(1, 0)"]);
}

#[test]
fn rule_sets_tell_valid_from_invalid() {
    let invalid = Plan {
        vars: 2,
        first: PlanFirstStep::first::<Edge>(Var::new(0)),
        steps: Vec::new(),
        last: PlanLastStep::last_var::<Path>(Var::new(1), Var::new(0)),
    };
    assert!(Rules::new().is_valid());
    assert!(reach().is_valid());
    assert!(!reach().with(Rule::with_plan("broken", invalid)).is_valid());
}

fn chain() -> Context {
    let a = atoms(4);
    let mut ctx = Context::new();
    ctx.add(Fact::new::<Edge>(&a[0], &a[1], None));
    ctx.add(Fact::new::<Edge>(&a[1], &a[2], None));
    ctx.add(Fact::new::<Edge>(&a[2], &a[3], None));
    ctx
}

#[test]
fn rounds_add_until_nothing_is_new() {
    let mut ctx = chain();
    let rules = reach();
    assert!(ctx.round(&rules));
    assert_eq!(ctx.get(Query::<Path>::all()).len(), 3);
    assert!(ctx.round(&rules));
    assert_eq!(ctx.get(Query::<Path>::all()).len(), 5);
    assert!(ctx.round(&rules));
    assert_eq!(ctx.get(Query::<Path>::all()).len(), 6);
    assert!(!ctx.round(&rules));
    assert_eq!(ctx.get(Query::<Path>::all()).len(), 6);
}

#[test]
fn run_within_stops_at_its_limit() {
    let rules = reach();

    let mut none = chain();
    assert!(!none.run_within(&rules, 0));
    assert!(none.get(Query::<Path>::all()).is_empty());

    let mut short = chain();
    assert!(!short.run_within(&rules, 2));
    assert_eq!(short.get(Query::<Path>::all()).len(), 5);

    // Three rounds add all there is, but only a fourth one shows it.
    let mut full = chain();
    assert!(!full.run_within(&rules, 3));
    assert_eq!(full.get(Query::<Path>::all()).len(), 6);

    let mut settled = chain();
    assert!(settled.run_within(&rules, 4));
    assert_eq!(settled.get(Query::<Path>::all()).len(), 6);

    let mut ample = chain();
    assert!(ample.run_within(&rules, 100));
    let mut run = chain();
    run.run(reach());
    assert_eq!(texts(&ample.all()), texts(&run.all()));
}
