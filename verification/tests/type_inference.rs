use wipple_datalog::{
    make_plan, BuildQuery, Context, Fact, Pattern, Query, Rule, Rules, Term, Val, ValSource,
};

struct Expr;

struct ForParameter;

impl BuildQuery for ForParameter {
    type Left = Expr;
    type Right = Expr;

    const NAME: &'static str = "ForParameter";
    const KEY: u64 = 1;
}

struct ForOutput;

impl BuildQuery for ForOutput {
    type Left = Expr;
    type Right = Expr;

    const NAME: &'static str = "ForOutput";
    const KEY: u64 = 2;
}

struct FunctionParameter;

impl BuildQuery for FunctionParameter {
    type Left = Expr;
    type Right = Expr;

    const NAME: &'static str = "is_expr :: FunctionParameter";
    const KEY: u64 = 3;
}

struct FunctionOutput;

impl BuildQuery for FunctionOutput {
    type Left = Expr;
    type Right = Expr;

    const NAME: &'static str = "is_expr :: FunctionOutput";
    const KEY: u64 = 4;
}

struct CallFunction;

impl BuildQuery for CallFunction {
    type Left = Expr;
    type Right = Expr;

    const NAME: &'static str = "is_expr :: CallFunction";
    const KEY: u64 = 5;
}

struct CallParameter;

impl BuildQuery for CallParameter {
    type Left = Expr;
    type Right = Expr;

    const NAME: &'static str = "is_expr :: CallParameter";
    const KEY: u64 = 6;
}

struct Type;

struct HasType;

impl BuildQuery for HasType {
    type Left = Expr;
    type Right = Type;

    const NAME: &'static str = "HasType";
    const KEY: u64 = 7;
}

struct TypeContext;

struct Int;

impl BuildQuery for Int {
    type Left = TypeContext;
    type Right = Type;

    const NAME: &'static str = "is_type :: Int";
    const KEY: u64 = 8;
}

fn pattern<F: BuildQuery>(left: &str, right: &str) -> Pattern {
    Pattern::new::<F>(Term::Var(left.to_string()), Term::Var(right.to_string()))
}

fn rule(label: &str, head: Pattern, body: Vec<Pattern>) -> Rule {
    match make_plan(&head, &body) {
        Ok(plan) => Rule::with_plan(label, plan),
        Err(error) => panic!("{}", error.message()),
    }
}

fn rules() -> Rules {
    Rules::new()
        .with(rule(
            "link_parameters",
            pattern::<ForParameter>("a", "b"),
            vec![
                pattern::<CallFunction>("call", "function"),
                pattern::<CallParameter>("call", "a"),
                pattern::<FunctionParameter>("function", "b"),
            ],
        ))
        .with(rule(
            "link_returns",
            pattern::<ForOutput>("call", "output"),
            vec![
                pattern::<CallFunction>("call", "function"),
                pattern::<FunctionOutput>("function", "output"),
            ],
        ))
        .with(rule(
            "unify_parameters",
            pattern::<HasType>("b", "ty"),
            vec![pattern::<ForParameter>("a", "b"), pattern::<HasType>("a", "ty")],
        ))
        .with(rule(
            "unify_returns",
            pattern::<HasType>("call", "ty"),
            vec![pattern::<ForOutput>("call", "output"), pattern::<HasType>("output", "ty")],
        ))
}

#[test]
fn test_type_inference() {
    let mut ctx = Context::new();

    let mut source = ValSource::new();
    let function = Val::<Expr>::new("function", &mut source);
    let parameter = Val::<Expr>::new("parameter", &mut source);
    let call = Val::<Expr>::new("call", &mut source);
    let num = Val::<Expr>::new("num", &mut source);
    let int = Val::<Type>::new("int", &mut source);
    let type_ctx = Val::<TypeContext>::new("type_ctx", &mut source);

    ctx.add(Fact::new::<FunctionParameter>(&function, &parameter, Some("initial")));

    ctx.add(Fact::new::<FunctionOutput>(&function, &parameter, Some("initial")));

    ctx.add(Fact::new::<CallFunction>(&call, &function, Some("initial")));

    ctx.add(Fact::new::<CallParameter>(&call, &num, Some("initial")));

    ctx.add(Fact::new::<Int>(&type_ctx, &int, Some("initial")));

    ctx.add(Fact::new::<HasType>(&num, &int, Some("initial")));

    ctx.run(rules());

    for fact in ctx.all() {
        println!("{}", fact.to_trace_string());
    }

    let typed: Vec<String> =
        ctx.get(Query::<HasType>::all()).iter().map(|fact| fact.debug_string()).collect();
    assert_eq!(typed, vec!["HasType(num, int)", "HasType(parameter, int)", "HasType(call, int)"]);

    let linked: Vec<String> =
        ctx.get(Query::<ForParameter>::all()).iter().map(|fact| fact.debug_string()).collect();
    assert_eq!(linked, vec!["ForParameter(num, parameter)"]);

    let returned: Vec<String> =
        ctx.get(Query::<ForOutput>::all()).iter().map(|fact| fact.debug_string()).collect();
    assert_eq!(returned, vec!["ForOutput(call, parameter)"]);

    assert_eq!(ctx.all().len(), 10);

    let of_call = ctx.get(Query::<HasType>::new(Some(call.clone()), None));
    assert_eq!(of_call.len(), 1);
    assert_eq!(
        of_call[0].to_plain_trace_string(),
        "HasType(call, int) - unify_returns\n  ForOutput(call, parameter) - link_returns\n    is_expr :: CallFunction(call, function) - initial\n    is_expr :: FunctionOutput(function, parameter) - initial\n  HasType(parameter, int) - unify_parameters\n    ForParameter(num, parameter) - link_parameters\n      is_expr :: CallFunction(call, function) - initial\n      is_expr :: CallParameter(call, num) - initial\n      is_expr :: FunctionParameter(function, parameter) - initial\n    HasType(num, int) - initial\n"
    );
}
