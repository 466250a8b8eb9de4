use crate::rule::BuildQuery;
use crate::type_key::{Erased, TypeKey};
use crate::val::{Val, ValView};
use vstd::prelude::*;
use vstd::string::StringExecFns;

verus! {

/// What a fact is: its relation, its two atoms and why it holds.
pub struct FactView {
    pub fact_key: u64,
    pub fact_name: Seq<char>,
    pub left: ValView,
    pub right: ValView,
    pub trace: Option<TraceView>,
}

/// Why a fact holds: because somebody said so, or because a rule derived
/// it from other facts.
pub enum TraceView {
    Custom(Seq<char>),
    Rule { label: Seq<char>, dependencies: Seq<FactView> },
}

/// One instance of the relation `F` over two atoms.
pub struct Fact<F: BuildQuery> {
    pub fact_key: TypeKey,
    pub fact_name: String,
    pub left: Val<F::Left>,
    pub right: Val<F::Right>,
    pub trace: Option<Trace>,
}

/// The justification of a fact.
pub enum Trace {
    /// Asserted from outside, with a description.
    Custom(String),
    /// Derived by the rule `label` from `dependencies`, one per step of the
    /// rule's plan, in the order of the steps.
    Rule { label: String, dependencies: Vec<Fact<Erased>> },
}

/// The view of a justification.
pub open spec fn spec_trace_view(trace: Trace) -> TraceView
    decreases trace,
{
    match trace {
        Trace::Custom(description) => TraceView::Custom(description@),
        Trace::Rule { label, dependencies } => TraceView::Rule {
            label: label@,
            dependencies: Seq::new(
                dependencies@.len(),
                |i: int|
                    if 0 <= i < dependencies@.len() {
                        spec_erased_view(dependencies@[i])
                    } else {
                        arbitrary()
                    },
            ),
        },
    }
}

/// The view of a fact whose sorts have been forgotten.
pub open spec fn spec_erased_view(fact: Fact<Erased>) -> FactView
    decreases fact,
{
    FactView {
        fact_key: fact.fact_key@,
        fact_name: fact.fact_name@,
        left: fact.left@,
        right: fact.right@,
        trace: match fact.trace {
            Some(trace) => Some(spec_trace_view(trace)),
            None => None,
        },
    }
}

impl View for Trace {
    type V = TraceView;

    open spec fn view(&self) -> TraceView {
        spec_trace_view(*self)
    }
}

impl<F: BuildQuery> View for Fact<F> {
    type V = FactView;

    open spec fn view(&self) -> FactView {
        FactView {
            fact_key: self.fact_key@,
            fact_name: self.fact_name@,
            left: self.left@,
            right: self.right@,
            trace: match self.trace {
                Some(trace) => Some(trace@),
                None => None,
            },
        }
    }
}

impl Fact<Erased> {
    /// A fact of the relation `F` that holds because somebody says so:
    /// `description`, where there is one, is kept as its justification.
    pub fn new<F: BuildQuery>(
        left: &Val<F::Left>,
        right: &Val<F::Right>,
        description: Option<&str>,
    ) -> (fact: Self)
        ensures
            fact@ == (FactView {
                fact_key: F::KEY,
                fact_name: F::NAME@,
                left: left@,
                right: right@,
                trace: match description {
                    Some(description) => Some(TraceView::Custom(description@)),
                    None => None,
                },
            }),
    {
        Fact {
            fact_key: TypeKey::of::<F>(),
            fact_name: String::from_str(F::NAME),
            left: left.erase(),
            right: right.erase(),
            trace: match description {
                Some(description) => Some(Trace::Custom(String::from_str(description))),
                None => None,
            },
        }
    }

    /// The same fact, taken to be of the relation `F`. Nothing checks the
    /// relation: a caller casts only what it found under the key of `F`.
    pub fn cast<F: BuildQuery>(&self) -> (fact: Fact<F>)
        ensures
            fact@ == self@,
    {
        Fact {
            fact_key: self.fact_key,
            fact_name: self.fact_name.clone(),
            left: self.left.cast(),
            right: self.right.cast(),
            trace: match &self.trace {
                Some(trace) => Some(trace.clone()),
                None => None,
            },
        }
    }
}

/// The views of a sequence of facts, one for one.
pub open spec fn spec_views<F: BuildQuery>(facts: Seq<Fact<F>>) -> Seq<FactView> {
    facts.map_values(|fact: Fact<F>| fact@)
}

/// A rule's justification shows its label and the views of its antecedents.
pub proof fn lemma_rule_trace_view(label: String, dependencies: Vec<Fact<Erased>>)
    ensures
        (Trace::Rule { label, dependencies })@ == (TraceView::Rule {
            label: label@,
            dependencies: spec_views(dependencies@),
        }),
{
    let trace = Trace::Rule { label, dependencies };
    assert(trace@->dependencies =~= spec_views(dependencies@));
}

/// A copy of a list of facts.
pub(crate) fn clone_facts(facts: &Vec<Fact<Erased>>) -> (copy: Vec<Fact<Erased>>)
    ensures
        spec_views(copy@) == spec_views(facts@),
{
    let mut copy: Vec<Fact<Erased>> = Vec::new();
    let mut i: usize = 0;
    while i < facts.len()
        invariant
            i <= facts.len(),
            copy.len() == i,
            forall|j: int| 0 <= j < i ==> (#[trigger] copy[j])@ == facts[j]@,
        decreases facts.len() - i,
    {
        copy.push(facts[i].clone());
        i += 1;
    }
    assert(spec_views(copy@) =~= spec_views(facts@));
    copy
}

impl Clone for Trace {
    fn clone(&self) -> (trace: Self)
        ensures
            trace@ == self@,
        decreases self,
    {
        match self {
            Trace::Custom(description) => Trace::Custom(description.clone()),
            Trace::Rule { label, dependencies } => {
                let mut copies: Vec<Fact<Erased>> = Vec::new();
                let mut i: usize = 0;
                while i < dependencies.len()
                    invariant
                        i <= dependencies.len(),
                        copies.len() == i,
                        forall|j: int| 0 <= j < i ==> (#[trigger] copies[j])@ == dependencies[j]@,
                        decreases_to!(self => dependencies),
                    decreases dependencies.len() - i,
                {
                    copies.push(dependencies[i].clone());
                    i += 1;
                }
                proof {
                    lemma_rule_trace_view(*label, *dependencies);
                    lemma_rule_trace_view(*label, copies);
                    assert(spec_views(copies@) =~= spec_views(dependencies@));
                }
                Trace::Rule { label: label.clone(), dependencies: copies }
            },
        }
    }
}

impl<F: BuildQuery> Clone for Fact<F> {
    fn clone(&self) -> (fact: Self)
        ensures
            fact@ == self@,
        decreases self,
    {
        Fact {
            fact_key: self.fact_key,
            fact_name: self.fact_name.clone(),
            left: self.left.clone(),
            right: self.right.clone(),
            trace: match &self.trace {
                Some(trace) => Some(trace.clone()),
                None => None,
            },
        }
    }
}

} // verus!
