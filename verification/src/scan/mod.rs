//! Deterministic batch scanning of captured readable memory.

pub mod automaton;
pub mod interval;
pub mod pattern;
pub mod scope;
pub mod search;
pub mod selector;
pub mod session;

use vstd::prelude::*;

pub use scope::{resolve_scope, ResolvedScope, MAX_SCOPE_SELECTORS};
pub use search::{scan, ModuleAttribution, RegionAttribution, ScanMatch, ScanReport, ScanScopeReport};
pub use session::{FoundMatch, ScanOutcome, ScanSession};
pub use pattern::{
    compile, default_alignment, default_max_matches, CompiledPattern, Endianness, ParsedFloat,
    PatternSpec, PatternValue, HARD_MAX_MATCHES, MAX_PATTERNS, MAX_PATTERN_BYTES, SCAN_SPEC_SCHEMA,
};

verus! {

/// A versioned batch scan request.
#[derive(Debug, Clone)]
pub struct ScanSpec {
    pub schema: u32,
    pub patterns: Vec<PatternSpec>,
    pub scope: Option<ScopeSpec>,
    pub max_matches: usize,
}

/// Bounded scan-scope selectors. Categories compose by intersection; the
/// selectors inside one category compose by union. An omitted category imposes
/// no constraint, and a present category must list at least one selector.
#[derive(Debug, Clone)]
pub struct ScopeSpec {
    pub modules: Option<Vec<String>>,
    pub regions: Option<Vec<usize>>,
    pub ranges: Option<Vec<AddressRangeSpec>>,
    pub protections: Option<Vec<String>>,
    pub types: Option<Vec<String>>,
}

#[derive(Debug, Clone)]
pub struct AddressRangeSpec {
    pub start: String,
    pub length: String,
}

} // verus!
