//! The machine-readable result of a check: a versioned envelope around the divergences.
//!
//! The verdict of each divergence is carried by its old and new fingerprints. The previous
//! code and the magnitude are advisory enrichment, `None` when unavailable, and never part of
//! the pass/fail decision. Within one version the envelope only grows: fields are added,
//! never removed, renamed or repurposed; a breaking change bumps `version`.

use vstd::prelude::*;
use crate::hash::Magnitude;
use crate::syntax::opt_view;

verus! {

/// Version of the report envelope. Bumped only on a breaking change.
pub const REPORT_VERSION: u32 = 1;

/// Why a claim diverged.
#[derive(Debug, Clone, Copy, PartialEq, Eq, Structural)]
pub enum DivergenceKind {
    /// A stored fingerprint exists and no longer matches the current span.
    Changed,
    /// The claim was never verified: there is no stored fingerprint to compare against.
    Unverified,
    /// The anchor no longer resolves to exactly one symbol.
    Unresolvable,
}

/// One claim that no longer holds as recorded.
#[derive(Debug, Clone)]
pub struct Divergence {
    pub hub: String,
    pub claim: String,
    pub at: String,
    pub kind: DivergenceKind,
    pub old_hash: Option<String>,
    pub new_hash: Option<String>,
    pub old_code: Option<String>,
    pub new_code: Option<String>,
    pub prose: String,
    pub magnitude: Option<Magnitude>,
    /// Why an `Unresolvable` divergence could not be resolved; `None` for clean verdicts.
    pub detail: Option<String>,
}

/// A divergence as text.
pub struct DivergenceModel {
    pub hub: Seq<char>,
    pub claim: Seq<char>,
    pub at: Seq<char>,
    pub kind: DivergenceKind,
    pub old_hash: Option<Seq<char>>,
    pub new_hash: Option<Seq<char>>,
    pub old_code: Option<Seq<char>>,
    pub new_code: Option<Seq<char>>,
    pub prose: Seq<char>,
    pub magnitude: Option<Magnitude>,
    pub detail: Option<Seq<char>>,
}

impl View for Divergence {
    type V = DivergenceModel;

    open spec fn view(&self) -> DivergenceModel {
        DivergenceModel {
            hub: self.hub@,
            claim: self.claim@,
            at: self.at@,
            kind: self.kind,
            old_hash: opt_view(self.old_hash),
            new_hash: opt_view(self.new_hash),
            old_code: opt_view(self.old_code),
            new_code: opt_view(self.new_code),
            prose: self.prose@,
            magnitude: self.magnitude,
            detail: opt_view(self.detail),
        }
    }
}

/// The versioned envelope.
#[derive(Debug, Clone)]
pub struct CheckReport {
    pub version: u32,
    pub divergences: Vec<Divergence>,
}

impl CheckReport {
    /// Wraps the divergences, in their order, under the current version.
    pub fn new(divergences: Vec<Divergence>) -> (r: CheckReport)
        ensures
            r.version == REPORT_VERSION,
            r.divergences@ == divergences@,
    {
        CheckReport { version: REPORT_VERSION, divergences }
    }
}

} // verus!
