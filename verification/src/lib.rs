//! An in-memory engine for binary-relation facts: a store of facts, rules
//! compiled to join plans, and naive evaluation to a fixpoint that records for
//! every derived fact the rule and the facts it came from.

pub mod context;
pub mod eval;
pub mod fact;
pub mod laws;
pub mod meaning;
pub mod plan;
pub mod rule;
pub mod trace;
pub mod type_key;
pub mod val;

pub use crate::context::{filter_by, Context};
pub use crate::fact::{Fact, FactView, Trace, TraceView};
pub use crate::plan::{
    make_plan, Index, Pattern, PatternView, PlanError, PlanErrorView, Term, TermView,
};
pub use crate::rule::{
    BuildQuery, BuildRule, FirstStepView, LastStepView, Plan, PlanFirstStep, PlanLastStep, PlanStep,
    PlanView, Query, QueryBuilder, QueryView, Rule, RuleView, Rules, Side, StepView, Var,
};
pub use crate::trace::{plain_lines, render_lines, style_lines, TraceLine, TraceLineView};
pub use crate::type_key::{Erased, TypeKey};
pub use crate::val::{val, Val, ValSource, ValView};
