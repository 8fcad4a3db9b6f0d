//! Verdicts, resource limits and per-step telemetry of the kernel.
use vstd::prelude::*;
use vstd::string::*;
use core::time::Duration;

verus! {

/// Result of strict proof-kernel verification.
#[derive(Debug, Clone, PartialEq, Eq)]
pub enum KernelVerdict {
    /// Every node in the proof was checked by a kernel rule.
    Certified,
    /// The proof is structurally or logically invalid.
    Rejected(String),
    /// The proof uses a rule or resource shape not implemented by the kernel.
    Inconclusive(String),
}

/// A verdict as a value: certified, or rejected or inconclusive with a reason.
pub enum VerdictView {
    Certified,
    Rejected(Seq<char>),
    Inconclusive(Seq<char>),
}

impl View for KernelVerdict {
    type V = VerdictView;

    open spec fn view(&self) -> VerdictView {
        match self {
            KernelVerdict::Certified => VerdictView::Certified,
            KernelVerdict::Rejected(reason) => VerdictView::Rejected(reason@),
            KernelVerdict::Inconclusive(reason) => VerdictView::Inconclusive(reason@),
        }
    }
}

/// A rejection with the given reason.
pub fn rejected(reason: &str) -> (v: KernelVerdict)
    ensures
        v@ == VerdictView::Rejected(reason@),
{
    KernelVerdict::Rejected(String::from_str(reason))
}

/// An inconclusive verdict with the given reason.
pub fn inconclusive(reason: &str) -> (v: KernelVerdict)
    ensures
        v@ == VerdictView::Inconclusive(reason@),
{
    KernelVerdict::Inconclusive(String::from_str(reason))
}

/// The text a verdict is displayed as: `Certified`, `Rejected: <reason>` or
/// `Inconclusive: <reason>`.
pub open spec fn verdict_text(v: KernelVerdict) -> Seq<char> {
    match v {
        KernelVerdict::Certified => "Certified"@,
        KernelVerdict::Rejected(reason) => "Rejected: "@ + reason@,
        KernelVerdict::Inconclusive(reason) => "Inconclusive: "@ + reason@,
    }
}

impl KernelVerdict {
    /// Whether the verdict certifies.
    pub fn is_certified(&self) -> (r: bool)
        ensures
            r == (self@ == VerdictView::Certified),
    {
        match self {
            KernelVerdict::Certified => true,
            _ => false,
        }
    }

    /// Human-readable rendering of the verdict.
    pub fn to_display_string(&self) -> (s: String)
        ensures
            s@ == verdict_text(*self),
    {
        match self {
            KernelVerdict::Certified => String::from_str("Certified"),
            KernelVerdict::Rejected(reason) => {
                String::from_str("Rejected: ").concat(reason.as_str())
            },
            KernelVerdict::Inconclusive(reason) => {
                String::from_str("Inconclusive: ").concat(reason.as_str())
            },
        }
    }
}

/// `Duration::clone`: a `Duration` is `Copy`, so its clone is the same value.
pub assume_specification[ <Duration as Clone>::clone ](d: &Duration) -> (r: Duration)
    ensures
        r == *d,
;

/// Verification measurements collected alongside a kernel verdict.
#[derive(Debug, Clone, PartialEq, Eq)]
pub struct VerificationTelemetry {
    pub elapsed: Duration,
    pub problem_nodes: usize,
    pub proof_nodes: usize,
    pub proof_fof_nodes: usize,
    pub proof_cnf_nodes: usize,
    pub proof_clause_literals: usize,
    /// Structural measurements for proof nodes in topological order.
    pub steps: Vec<VerificationStepTelemetry>,
    pub verdict: KernelVerdict,
}

/// Structural measurements for one proof node.
#[derive(Debug, Clone, PartialEq, Eq)]
pub struct VerificationStepTelemetry {
    pub name: String,
    pub rule: Option<String>,
    pub parent_count: usize,
    pub formula_nodes: usize,
    pub clause_literals: usize,
}

/// Explicit resource limits for strict verification.
#[derive(Debug, Clone, Copy)]
pub struct VerificationLimits {
    pub max_nodes: usize,
    pub max_formula_nodes: usize,
    pub max_clause_literals: usize,
    pub max_term_depth: usize,
    pub max_rewrite_steps: usize,
    pub max_subsumption_steps: usize,
    pub max_skolem_steps: usize,
    pub max_equivalence_steps: usize,
    pub max_avatar_steps: usize,
}

/// The limits used when a caller states none.
pub open spec fn default_limits() -> VerificationLimits {
    VerificationLimits {
        max_nodes: 100_000,
        max_formula_nodes: 100_000,
        max_clause_literals: 10_000,
        max_term_depth: 256,
        max_rewrite_steps: 64,
        max_subsumption_steps: 5_000,
        max_skolem_steps: 5_000,
        max_equivalence_steps: 5_000,
        max_avatar_steps: 100_000,
    }
}

impl Default for VerificationLimits {
    fn default() -> (limits: Self)
        ensures
            limits == default_limits(),
    {
        VerificationLimits {
            max_nodes: 100_000,
            max_formula_nodes: 100_000,
            max_clause_literals: 10_000,
            max_term_depth: 256,
            max_rewrite_steps: 64,
            max_subsumption_steps: 5_000,
            max_skolem_steps: 5_000,
            max_equivalence_steps: 5_000,
            max_avatar_steps: 100_000,
        }
    }
}

} // verus!
