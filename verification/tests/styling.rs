use wipple_datalog::{
    plain_lines, render_lines, style_lines, BuildQuery, Fact, Trace, TraceLine, Val, ValSource,
};

struct Num;

struct Less;

impl BuildQuery for Less {
    type Left = Num;
    type Right = Num;

    const NAME: &'static str = "Less";
    const KEY: u64 = 1;
}

fn line(level: usize, fact: &str, note: Option<&str>) -> TraceLine {
    TraceLine { level, fact: fact.to_string(), note: note.map(|note| note.to_string()) }
}

fn derived() -> Fact<wipple_datalog::Erased> {
    let mut source = ValSource::new();
    let one: Val<Num> = Val::new("1", &mut source);
    let two: Val<Num> = Val::new("2", &mut source);
    let three: Val<Num> = Val::new("3", &mut source);
    let mut fact = Fact::new::<Less>(&one, &three, None);
    fact.trace = Some(Trace::Rule {
        label: "transitive".to_string(),
        dependencies: vec![
            Fact::new::<Less>(&one, &two, Some("given")),
            Fact::new::<Less>(&two, &three, None),
        ],
    });
    fact
}

#[test]
fn lines_follow_the_derivation_depth_first() {
    let lines = derived().trace_lines();
    assert_eq!(
        lines,
        vec![
            line(0, "Less(1, 3)", Some("transitive")),
            line(1, "Less(1, 2)", Some("given")),
            line(1, "Less(2, 3)", None),
        ]
    );
}

#[test]
fn plain_lines_set_the_note_off_by_a_dash() {
    let plain = plain_lines(&derived().trace_lines());
    assert_eq!(
        plain,
        vec![
            line(0, "Less(1, 3)", Some(" - transitive")),
            line(1, "Less(1, 2)", Some(" - given")),
            line(1, "Less(2, 3)", None),
        ]
    );
}

#[test]
fn render_indents_two_spaces_a_level() {
    let lines = vec![line(0, "A", Some("!")), line(1, "B", None), line(3, "C", Some("?"))];
    assert_eq!(render_lines(&lines), "A!\n  B\n      C?\n");
    assert_eq!(render_lines(&vec![line(0, "A", None)]), "A\n");
    assert_eq!(render_lines(&Vec::new()), "\n");
}

#[test]
fn plain_trace_string_of_a_derived_fact() {
    assert_eq!(
        derived().to_plain_trace_string(),
        "Less(1, 3) - transitive\n  Less(1, 2) - given\n  Less(2, 3)\n"
    );
}

#[test]
fn styling_off_leaves_the_text_as_it_is() {
    colored::control::set_override(false);
    let plain = plain_lines(&derived().trace_lines());
    assert_eq!(style_lines(&plain), plain);
    assert_eq!(derived().to_trace_string(), derived().to_plain_trace_string());
}
