use crate::fact::{lemma_rule_trace_view, spec_views, Fact, FactView, Trace, TraceView};
use crate::rule::BuildQuery;
use colored::Colorize;
use vstd::prelude::*;
use vstd::string::StringExecFns;

verus! {

/// What a line of a derivation is: its level, the text of its fact, and
/// the text that follows the fact, if any.
pub struct TraceLineView {
    pub level: nat,
    pub fact: Seq<char>,
    pub note: Option<Seq<char>>,
}

/// One line of a rendered derivation: how deep it stands, the fact it
/// shows, and the explanation that follows the fact, if it has one.
#[derive(Clone, Debug, PartialEq, Eq)]
pub struct TraceLine {
    pub level: usize,
    pub fact: String,
    pub note: Option<String>,
}

impl View for TraceLine {
    type V = TraceLineView;

    open spec fn view(&self) -> TraceLineView {
        TraceLineView {
            level: self.level as nat,
            fact: self.fact@,
            note: match self.note {
                Some(note) => Some(note@),
                None => None,
            },
        }
    }
}

/// The views of a sequence of lines, one for one.
pub open spec fn spec_line_views(lines: Seq<TraceLine>) -> Seq<TraceLineView> {
    lines.map_values(|line: TraceLine| line@)
}

/// How a fact is written: its relation's name, and in brackets the labels
/// of its two atoms.
pub open spec fn spec_debug_string(fact: FactView) -> Seq<char> {
    fact.fact_name + "("@ + fact.left.description + ", "@ + fact.right.description + ")"@
}

/// What explains a fact in one line: the description it was asserted with,
/// or the label of the rule that derived it.
pub open spec fn spec_note(fact: FactView) -> Option<Seq<char>> {
    match fact.trace {
        Some(TraceView::Custom(description)) => Some(description),
        Some(TraceView::Rule { label, dependencies }) => Some(label),
        None => None,
    }
}

/// The facts from which a fact was derived; none for a fact that was asserted.
pub open spec fn spec_dependencies(fact: FactView) -> Seq<FactView> {
    match fact.trace {
        Some(TraceView::Rule { label, dependencies }) => dependencies,
        _ => Seq::empty(),
    }
}

/// The lines of a fact's derivation, depth first: the fact itself at `level`,
/// then the derivation of each of its antecedents one level deeper, in
/// their order.
pub open spec fn spec_trace_lines(fact: FactView, level: nat) -> Seq<TraceLineView>
    decreases fact, 1nat,
{
    seq![TraceLineView { level, fact: spec_debug_string(fact), note: spec_note(fact) }]
        + match fact.trace {
        Some(TraceView::Rule { label, dependencies }) => spec_trace_lines_of(
            dependencies,
            dependencies.len(),
            level + 1,
        ),
        _ => Seq::empty(),
    }
}

/// The lines of the derivations of the first `count` of `facts`, one
/// derivation after the other.
pub open spec fn spec_trace_lines_of(facts: Seq<FactView>, count: nat, level: nat) -> Seq<
    TraceLineView,
>
    decreases facts, 0nat, count,
{
    if count == 0 || count > facts.len() {
        Seq::empty()
    } else {
        spec_trace_lines_of(facts, (count - 1) as nat, level) + spec_trace_lines(
            facts[count - 1],
            level,
        )
    }
}

/// The indentation of a line at `level`: two spaces for each level.
pub open spec fn spec_indent(level: nat) -> Seq<char>
    decreases level,
{
    if level == 0 {
        Seq::empty()
    } else {
        spec_indent((level - 1) as nat) + "  "@
    }
}

/// The text of one line: its indentation, the fact, and what follows the fact.
pub open spec fn spec_line_text(line: TraceLineView) -> Seq<char> {
    spec_indent(line.level) + line.fact + match line.note {
        Some(note) => note,
        None => Seq::empty(),
    }
}

/// The text of the first `count` of `lines`, each on a line of its own.
pub open spec fn spec_render_upto(lines: Seq<TraceLineView>, count: nat) -> Seq<char>
    decreases count,
{
    if count == 0 || count > lines.len() {
        Seq::empty()
    } else if count == 1 {
        spec_line_text(lines[0])
    } else {
        spec_render_upto(lines, (count - 1) as nat) + "\n"@ + spec_line_text(lines[count - 1])
    }
}

/// The text of `lines`, each on a line of its own and the last one closed
/// by a line break.
pub open spec fn spec_render(lines: Seq<TraceLineView>) -> Seq<char> {
    spec_render_upto(lines, lines.len()) + "\n"@
}

/// A line as it goes to styling: what follows the fact is set off from it
/// by a dash.
pub open spec fn spec_prepared(line: TraceLineView) -> TraceLineView {
    TraceLineView {
        level: line.level,
        fact: line.fact,
        note: match line.note {
            Some(note) => Some(" - "@ + note),
            None => None,
        },
    }
}

/// Lines as they go to styling, one for one.
pub open spec fn spec_prepared_lines(lines: Seq<TraceLineView>) -> Seq<TraceLineView> {
    lines.map_values(|line: TraceLineView| spec_prepared(line))
}

/// What styling leaves of a line, whatever the terminal: its level, whether
/// something follows the fact, and below the top level the fact itself.
pub open spec fn spec_styled(line: TraceLineView, styled: TraceLineView) -> bool {
    &&& styled.level == line.level
    &&& (styled.note is Some) == (line.note is Some)
    &&& line.level > 0 ==> styled.fact == line.fact
}

/// Whether `styled` are the lines `lines` after styling, one for one.
pub open spec fn spec_styles(lines: Seq<TraceLineView>, styled: Seq<TraceLineView>) -> bool {
    &&& styled.len() == lines.len()
    &&& forall|i: int| 0 <= i < lines.len() ==> spec_styled(lines[i], #[trigger] styled[i])
}

/// `colored::Colorize::bold` on a string slice, written out through the
/// `Display` of the `ColoredString` that it returns. Whether escape sequences
/// are put around the text depends on the environment and on the overrides
/// of `colored::control`, so nothing is claimed of the result.
#[verifier::external_body]
fn bold(text: &str) -> (styled: String) {
    text.bold().to_string()
}

/// `colored::Colorize::dimmed` on a string slice, written out through the
/// `Display` of the `ColoredString` that it returns. Whether escape sequences
/// are put around the text depends on the environment and on the overrides
/// of `colored::control`, so nothing is claimed of the result.
#[verifier::external_body]
fn dimmed(text: &str) -> (styled: String) {
    text.dimmed().to_string()
}

/// Styles the lines of a derivation for a terminal: a fact at the top level
/// is set in bold, and what follows a fact is dimmed.
pub fn style_lines(lines: &Vec<TraceLine>) -> (styled: Vec<TraceLine>)
    ensures
        spec_styles(spec_line_views(lines@), spec_line_views(styled@)),
{
    let mut styled: Vec<TraceLine> = Vec::new();
    let mut i: usize = 0;
    while i < lines.len()
        invariant
            i <= lines.len(),
            styled.len() == i,
            forall|j: int| 0 <= j < i ==> spec_styled(lines[j]@, (#[trigger] styled[j])@),
        decreases lines.len() - i,
    {
        let line = &lines[i];
        let fact = if line.level == 0 {
            bold(line.fact.as_str())
        } else {
            line.fact.clone()
        };
        let note = match &line.note {
            Some(note) => Some(dimmed(note.as_str())),
            None => None,
        };
        styled.push(TraceLine { level: line.level, fact, note });
        i += 1;
    }
    styled
}

/// Prepares the lines of a derivation for reading: what follows a fact is
/// set off from it by a dash.
pub fn plain_lines(lines: &Vec<TraceLine>) -> (plain: Vec<TraceLine>)
    ensures
        spec_line_views(plain@) == spec_prepared_lines(spec_line_views(lines@)),
{
    let mut plain: Vec<TraceLine> = Vec::new();
    let mut i: usize = 0;
    while i < lines.len()
        invariant
            i <= lines.len(),
            plain.len() == i,
            forall|j: int| 0 <= j < i ==> (#[trigger] plain[j])@ == spec_prepared(lines[j]@),
        decreases lines.len() - i,
    {
        let line = &lines[i];
        let note = match &line.note {
            Some(note) => {
                let mut text = String::from_str(" - ");
                text.append(note.as_str());
                Some(text)
            },
            None => None,
        };
        plain.push(TraceLine { level: line.level, fact: line.fact.clone(), note });
        i += 1;
    }
    assert(spec_line_views(plain@) =~= spec_prepared_lines(spec_line_views(lines@)));
    plain
}

/// The text of `lines`, each on a line of its own, indented by two spaces
/// for each level, and the last one closed by a line break.
pub fn render_lines(lines: &Vec<TraceLine>) -> (text: String)
    ensures
        text@ == spec_render(spec_line_views(lines@)),
{
    let mut text = String::new();
    let ghost views = spec_line_views(lines@);
    let mut i: usize = 0;
    while i < lines.len()
        invariant
            i <= lines.len(),
            views == spec_line_views(lines@),
            text@ == spec_render_upto(views, i as nat),
        decreases lines.len() - i,
    {
        let line = &lines[i];
        assert(views[i as int] == line@);
        if i > 0 {
            text.append("\n");
        }
        let ghost start = text@;
        let mut level: usize = 0;
        while level < line.level
            invariant
                level <= line.level,
                text@ == start + spec_indent(level as nat),
            decreases line.level - level,
        {
            text.append("  ");
            level += 1;
        }
        text.append(line.fact.as_str());
        match &line.note {
            Some(note) => {
                text.append(note.as_str());
            },
            None => {},
        }
        assert(text@ =~= start + spec_line_text(line@));
        i += 1;
    }
    text.append("\n");
    text
}

impl<F: BuildQuery> Fact<F> {
    /// The fact's derivation as text for a terminal: the fact on the first
    /// line, followed by what explains it, and below it, one level deeper
    /// each, the derivations of the facts it was derived from.
    pub fn to_trace_string(&self) -> (text: String)
        ensures
            exists|styled: Seq<TraceLineView>|
                spec_styles(spec_prepared_lines(spec_trace_lines(self@, 0)), styled) && text@
                    == spec_render(styled),
    {
        let lines = self.trace_lines();
        let plain = plain_lines(&lines);
        let styled = style_lines(&plain);
        render_lines(&styled)
    }

    /// The fact's derivation as text without styling, laid out as
    /// `to_trace_string` lays it out.
    pub fn to_plain_trace_string(&self) -> (text: String)
        ensures
            text@ == spec_render(spec_prepared_lines(spec_trace_lines(self@, 0))),
    {
        let lines = self.trace_lines();
        let plain = plain_lines(&lines);
        render_lines(&plain)
    }

    /// The fact as it is written: `Name(left, right)`.
    pub fn debug_string(&self) -> (text: String)
        ensures
            text@ == spec_debug_string(self@),
    {
        let mut text = self.fact_name.clone();
        text.append("(");
        text.append(self.left.description());
        text.append(", ");
        text.append(self.right.description());
        text.append(")");
        text
    }

    /// The lines of the fact's derivation, depth first, the fact itself first
    /// and at level 0.
    pub fn trace_lines(&self) -> (lines: Vec<TraceLine>)
        ensures
            spec_line_views(lines@) == spec_trace_lines(self@, 0),
    {
        let mut lines: Vec<TraceLine> = Vec::new();
        assert(spec_line_views(lines@) =~= Seq::<TraceLineView>::empty());
        self.write_trace_inner(0, &mut lines);
        lines
    }

    /// Puts the lines of the fact's derivation behind `lines`, the fact
    /// itself at `level`.
    fn write_trace_inner(&self, level: usize, lines: &mut Vec<TraceLine>)
        requires
            level <= old(lines)@.len(),
        ensures
            spec_line_views(final(lines)@) == spec_line_views(old(lines)@) + spec_trace_lines(
                self@,
                level as nat,
            ),
        decreases self,
    {
        let ghost start = spec_line_views(lines@);
        let note = match &self.trace {
            Some(Trace::Custom(description)) => Some(description.clone()),
            Some(Trace::Rule { label, dependencies }) => {
                proof {
                    lemma_rule_trace_view(*label, *dependencies);
                }
                Some(label.clone())
            },
            None => None,
        };
        let line = TraceLine { level, fact: self.debug_string(), note };
        assert(line@ == (TraceLineView {
            level: level as nat,
            fact: spec_debug_string(self@),
            note: spec_note(self@),
        }));
        lines.push(line);
        assert(spec_line_views(lines@) =~= start + seq![line@]);
        if let Some(Trace::Rule { label, dependencies }) = &self.trace {
            let ghost deps = spec_views(dependencies@);
            let ghost own = start + seq![line@];
            proof {
                lemma_rule_trace_view(*label, *dependencies);
                assert(own + spec_trace_lines_of(deps, 0, (level + 1) as nat) =~= own);
            }
            let mut i: usize = 0;
            while i < dependencies.len()
                invariant
                    i <= dependencies.len(),
                    level < lines.len(),
                    deps == spec_views(dependencies@),
                    decreases_to!(self => dependencies),
                    spec_line_views(lines@) == own + spec_trace_lines_of(
                        deps,
                        i as nat,
                        (level + 1) as nat,
                    ),
                decreases dependencies.len() - i,
            {
                dependencies[i].write_trace_inner(level + 1, lines);
                proof {
                    assert(deps[i as int] == dependencies[i as int]@);
                    assert(spec_line_views(lines@) =~= own + spec_trace_lines_of(
                        deps,
                        (i + 1) as nat,
                        (level + 1) as nat,
                    ));
                }
                i += 1;
            }
            assert(spec_line_views(lines@) =~= start + spec_trace_lines(self@, level as nat));
        } else {
            assert(spec_line_views(lines@) =~= start + spec_trace_lines(self@, level as nat));
        }
    }
}

} // verus!
