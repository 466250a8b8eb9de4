use wipple_datalog::{
    make_plan, BuildQuery, Erased, Index, Pattern, Plan, PlanError, PlanFirstStep, PlanLastStep,
    PlanStep, Rule, Rules, Side, Term, TypeKey, Val, ValSource, Var,
};

struct Num;

struct Less;

impl BuildQuery for Less {
    type Left = Num;
    type Right = Num;

    const NAME: &'static str = "Less";
    const KEY: u64 = 1;
}

struct More;

impl BuildQuery for More {
    type Left = Num;
    type Right = Num;

    const NAME: &'static str = "More";
    const KEY: u64 = 2;
}

fn var(name: &str) -> Term {
    Term::Var(name.to_string())
}

fn lit(v: &Val<Num>) -> Term {
    Term::Val(v.erase())
}

fn slot(operand: &Result<Val<Erased>, Var<Erased>>) -> Option<usize> {
    match operand {
        Ok(_) => None,
        Err(var) => Some(var.index),
    }
}

#[test]
fn chain_compiles_with_one_join_per_pattern() {
    let head = Pattern::new::<Less>(var("a"), var("c"));
    let body =
        vec![Pattern::new::<Less>(var("a"), var("b")), Pattern::new::<More>(var("b"), var("c"))];
    let plan = make_plan(&head, &body).unwrap();

    assert_eq!(plan.vars, 3);
    assert_eq!(plan.first.fact_key, TypeKey::new(1));
    assert_eq!(plan.first.fact_name, "Less");
    assert_eq!(plan.first.left.index, 0);

    assert_eq!(plan.steps.len(), body.len());
    assert_eq!(plan.steps[0].fact_key, TypeKey::new(1));
    assert_eq!(slot(&plan.steps[0].known), Some(0));
    assert_eq!(plan.steps[0].unknown.index, 1);
    assert_eq!(plan.steps[0].side, Side::Left);
    assert_eq!(plan.steps[1].fact_key, TypeKey::new(2));
    assert_eq!(plan.steps[1].fact_name, "More");
    assert_eq!(slot(&plan.steps[1].known), Some(1));
    assert_eq!(plan.steps[1].unknown.index, 2);
    assert_eq!(plan.steps[1].side, Side::Left);

    assert_eq!(plan.last.fact_key, TypeKey::new(1));
    assert_eq!(plan.last.left.index, 0);
    assert_eq!(slot(&plan.last.right), Some(2));
    assert!(plan.is_valid());
}

#[test]
fn slots_follow_first_appearance() {
    let head = Pattern::new::<Less>(var("z"), var("x"));
    let body = vec![
        Pattern::new::<Less>(var("x"), var("y")),
        Pattern::new::<Less>(var("y"), var("z")),
        Pattern::new::<Less>(var("x"), var("z")),
    ];
    let plan = make_plan(&head, &body).unwrap();
    assert_eq!(plan.vars, 3);
    assert_eq!(plan.last.left.index, 2);
    assert_eq!(slot(&plan.last.right), Some(0));
    // Both sides of the third pattern are known: the left one anchors.
    assert_eq!(slot(&plan.steps[2].known), Some(0));
    assert_eq!(plan.steps[2].unknown.index, 2);
    assert_eq!(plan.steps[2].side, Side::Left);
}

#[test]
fn join_anchors_on_the_right_when_only_the_right_is_known() {
    let head = Pattern::new::<Less>(var("c"), var("a"));
    let body =
        vec![Pattern::new::<Less>(var("a"), var("b")), Pattern::new::<Less>(var("c"), var("b"))];
    let plan = make_plan(&head, &body).unwrap();
    assert_eq!(plan.vars, 3);
    assert_eq!(slot(&plan.steps[1].known), Some(1));
    assert_eq!(plan.steps[1].unknown.index, 2);
    assert_eq!(plan.steps[1].side, Side::Right);
    assert!(plan.is_valid());
}

#[test]
fn literal_anchors_a_join_and_ends_a_head() {
    let mut source = ValSource::new();
    let five: Val<Num> = Val::new("5", &mut source);
    let head = Pattern::new::<More>(var("x"), lit(&five));
    let body =
        vec![Pattern::new::<Less>(var("a"), var("b")), Pattern::new::<Less>(var("x"), lit(&five))];
    let plan = make_plan(&head, &body).unwrap();
    assert_eq!(plan.vars, 3);
    assert_eq!(plan.steps[1].side, Side::Right);
    assert_eq!(plan.steps[1].unknown.index, 2);
    match &plan.steps[1].known {
        Ok(v) => assert_eq!(v.counter(), five.counter()),
        Err(_) => panic!("the literal anchors the join"),
    }
    match &plan.last.right {
        Ok(v) => assert_eq!(v.counter(), five.counter()),
        Err(_) => panic!("the head ends in the literal"),
    }
    assert!(plan.is_valid());
}

#[test]
fn empty_body_is_rejected() {
    let head = Pattern::new::<Less>(var("a"), var("b"));
    let error = make_plan(&head, &Vec::new()).err().unwrap();
    assert_eq!(error, PlanError::NoVars);
    assert_eq!(error.message(), "no vars in rule");
}

#[test]
fn pattern_without_known_side_is_rejected() {
    let head = Pattern::new::<Less>(var("a"), var("d"));
    let body = vec![
        Pattern::new::<Less>(var("a"), var("b")),
        Pattern::new::<Less>(var("c"), var("d")),
        Pattern::new::<Less>(var("b"), var("c")),
    ];
    let error = make_plan(&head, &body).err().unwrap();
    assert_eq!(error, PlanError::NoKnownVar { pattern: 1 });
    assert_eq!(error.message(), "must reference at least one known variable");
}

#[test]
fn pattern_that_repeats_a_new_variable_is_rejected() {
    let head = Pattern::new::<Less>(var("a"), var("b"));
    let body =
        vec![Pattern::new::<Less>(var("a"), var("b")), Pattern::new::<Less>(var("c"), var("c"))];
    assert_eq!(make_plan(&head, &body).err(), Some(PlanError::NoKnownVar { pattern: 1 }));
}

#[test]
fn literal_where_a_variable_is_needed_is_rejected() {
    let mut source = ValSource::new();
    let five: Val<Num> = Val::new("5", &mut source);

    let head = Pattern::new::<Less>(var("a"), var("b"));
    let first_left = vec![Pattern::new::<Less>(lit(&five), var("b"))];
    let error = make_plan(&head, &first_left).err().unwrap();
    assert_eq!(error, PlanError::ExpectedVar { place: Some(0) });
    assert_eq!(error.message(), "expected variable");

    let first_right = vec![Pattern::new::<Less>(var("a"), lit(&five))];
    assert_eq!(
        make_plan(&head, &first_right).err(),
        Some(PlanError::ExpectedVar { place: Some(0) })
    );

    let later = vec![
        Pattern::new::<Less>(var("a"), var("b")),
        Pattern::new::<Less>(var("b"), lit(&five)),
    ];
    assert_eq!(make_plan(&head, &later).err(), Some(PlanError::ExpectedVar { place: Some(1) }));

    let both = vec![
        Pattern::new::<Less>(var("a"), var("b")),
        Pattern::new::<Less>(lit(&five), lit(&five)),
    ];
    assert_eq!(make_plan(&head, &both).err(), Some(PlanError::ExpectedVar { place: Some(1) }));

    let body = vec![Pattern::new::<Less>(var("a"), var("b"))];
    let literal_head = Pattern::new::<Less>(lit(&five), var("b"));
    assert_eq!(make_plan(&literal_head, &body).err(), Some(PlanError::ExpectedVar { place: None }));
}

#[test]
fn unbound_head_variables_are_named() {
    let body = vec![Pattern::new::<Less>(var("a"), var("b"))];

    let right = Pattern::new::<Less>(var("a"), var("c"));
    let error = make_plan(&right, &body).err().unwrap();
    assert_eq!(error, PlanError::UnknownVars { names: vec!["c".to_string()] });
    assert_eq!(error.message(), "rule contains unknown vars: `c`");

    let both = Pattern::new::<Less>(var("x"), var("y"));
    let error = make_plan(&both, &body).err().unwrap();
    assert_eq!(error, PlanError::UnknownVars { names: vec!["x".to_string(), "y".to_string()] });
    assert_eq!(error.message(), "rule contains unknown vars: `x`, `y`");

    let twice = Pattern::new::<Less>(var("x"), var("x"));
    assert_eq!(
        make_plan(&twice, &body).err(),
        Some(PlanError::UnknownVars { names: vec!["x".to_string()] })
    );

    let left = Pattern::new::<Less>(var("x"), var("b"));
    assert_eq!(
        make_plan(&left, &body).err(),
        Some(PlanError::UnknownVars { names: vec!["x".to_string()] })
    );
}

#[test]
fn body_is_read_before_the_head() {
    let head = Pattern::new::<Less>(var("x"), var("y"));
    let body =
        vec![Pattern::new::<Less>(var("a"), var("b")), Pattern::new::<Less>(var("c"), var("d"))];
    assert_eq!(make_plan(&head, &body).err(), Some(PlanError::NoKnownVar { pattern: 1 }));
}

#[test]
fn index_hands_out_slots_in_order() {
    let mut index = Index::new();
    assert_eq!(index.len(), 0);
    assert_eq!(index.get(&"a".to_string()), 0);
    assert_eq!(index.get(&"b".to_string()), 1);
    assert_eq!(index.get(&"a".to_string()), 0);
    assert_eq!(index.get(&"c".to_string()), 2);
    assert_eq!(index.len(), 3);
    assert_eq!(index.name(1), "b");
}

fn hand_made(vars: usize, steps: Vec<PlanStep>, last: PlanLastStep) -> Plan {
    Plan { vars, first: PlanFirstStep::first::<Less>(Var::new(0)), steps, last }
}

#[test]
fn validity_of_hand_made_plans() {
    let good = hand_made(
        2,
        vec![PlanStep::plan::<Less>(Var::new(0), Var::new(1))],
        PlanLastStep::last_var::<More>(Var::new(1), Var::new(0)),
    );
    assert!(good.is_valid());

    let from_right = hand_made(
        3,
        vec![
            PlanStep::plan::<Less>(Var::new(0), Var::new(1)),
            PlanStep::plan_from_right::<Less>(Var::new(2), Var::new(1)),
        ],
        PlanLastStep::last_var::<More>(Var::new(2), Var::new(0)),
    );
    assert!(from_right.is_valid());
    assert_eq!(from_right.steps[1].side, Side::Right);
    assert_eq!(from_right.steps[1].unknown.index, 2);

    let unbound_last = hand_made(
        2,
        Vec::new(),
        PlanLastStep::last_var::<More>(Var::new(0), Var::new(1)),
    );
    assert!(!unbound_last.is_valid());

    let unbound_anchor = hand_made(
        3,
        vec![PlanStep::plan::<Less>(Var::new(1), Var::new(2))],
        PlanLastStep::last_var::<More>(Var::new(0), Var::new(0)),
    );
    assert!(!unbound_anchor.is_valid());

    let outside_frame = hand_made(
        1,
        vec![PlanStep::plan::<Less>(Var::new(0), Var::new(1))],
        PlanLastStep::last_var::<More>(Var::new(0), Var::new(0)),
    );
    assert!(!outside_frame.is_valid());

    let first_outside = hand_made(0, Vec::new(), PlanLastStep::last_var::<More>(Var::new(0), Var::new(0)));
    assert!(!first_outside.is_valid());

    let mut source = ValSource::new();
    let five: Val<Num> = Val::new("5", &mut source);
    let literal_last =
        hand_made(1, Vec::new(), PlanLastStep::last_val::<More>(Var::new(0), five));
    assert!(literal_last.is_valid());
}

#[test]
fn copy_of_a_plan_has_the_same_steps() {
    let mut source = ValSource::new();
    let five: Val<Num> = Val::new("5", &mut source);
    let head = Pattern::new::<More>(var("x"), lit(&five));
    let body =
        vec![Pattern::new::<Less>(var("a"), var("b")), Pattern::new::<Less>(var("x"), lit(&five))];
    let plan = make_plan(&head, &body.clone()).unwrap();
    let copy = plan.clone();
    assert_eq!(copy.vars, plan.vars);
    assert_eq!(copy.first.fact_name, "Less");
    assert_eq!(copy.first.left.index, plan.first.left.index);
    assert_eq!(copy.steps.len(), 2);
    for (a, b) in copy.steps.iter().zip(plan.steps.iter()) {
        assert_eq!(a.fact_key, b.fact_key);
        assert_eq!(a.fact_name, b.fact_name);
        assert_eq!(slot(&a.known), slot(&b.known));
        assert_eq!(a.unknown.index, b.unknown.index);
        assert_eq!(a.side, b.side);
    }
    assert_eq!(copy.last.fact_name, "More");
    assert_eq!(copy.last.left.index, plan.last.left.index);
    match &copy.last.right {
        Ok(v) => assert_eq!(v.counter(), five.counter()),
        Err(_) => panic!("the head ends in the literal"),
    }
    assert!(copy.is_valid());
    assert!(Rules::default().iter().is_empty());
    let rule = Rule::with_plan("r", plan);
    assert_eq!(rule.clone().label, "r");
}
