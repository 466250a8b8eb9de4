use wipple_datalog::{plain_lines, style_lines, BuildQuery, Fact, Trace, TraceLine, Val, ValSource};

struct Num;

struct Less;

impl BuildQuery for Less {
    type Left = Num;
    type Right = Num;

    const NAME: &'static str = "Less";
    const KEY: u64 = 1;
}

fn derived() -> Fact<wipple_datalog::Erased> {
    let mut source = ValSource::new();
    let one: Val<Num> = Val::new("1", &mut source);
    let two: Val<Num> = Val::new("2", &mut source);
    let three: Val<Num> = Val::new("3", &mut source);
    let mut fact = Fact::new::<Less>(&one, &three, None);
    fact.trace = Some(Trace::Rule {
        label: "transitive".to_string(),
        dependencies: vec![
            Fact::new::<Less>(&one, &two, Some("given")),
            Fact::new::<Less>(&two, &three, None),
        ],
    });
    fact
}

#[test]
fn styling_on_sets_the_top_fact_bold_and_the_notes_dim() {
    colored::control::set_override(true);
    let styled = style_lines(&plain_lines(&derived().trace_lines()));
    assert_eq!(
        styled,
        vec![
            TraceLine {
                level: 0,
                fact: "\x1b[1mLess(1, 3)\x1b[0m".to_string(),
                note: Some("\x1b[2m - transitive\x1b[0m".to_string()),
            },
            TraceLine {
                level: 1,
                fact: "Less(1, 2)".to_string(),
                note: Some("\x1b[2m - given\x1b[0m".to_string()),
            },
            TraceLine { level: 1, fact: "Less(2, 3)".to_string(), note: None },
        ]
    );
}

#[test]
fn styled_trace_string_of_a_derived_fact() {
    colored::control::set_override(true);
    assert_eq!(
        derived().to_trace_string(),
        "\x1b[1mLess(1, 3)\x1b[0m\x1b[2m - transitive\x1b[0m\n  Less(1, 2)\x1b[2m - given\x1b[0m\n  Less(2, 3)\n"
    );
}
