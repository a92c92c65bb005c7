//! Scan-scope resolution: each selector category becomes a canonical interval list
//! (selectors inside a category compose by union), and the categories compose by
//! intersection.

use vstd::prelude::*;

use crate::error::{Error, Result};
use crate::scan::interval::{
    canonical, covered_bytes, covers, intersect, merge, total_len, Interval,
};
use crate::scan::pattern::{blank, is_blank, parse_u64_literal, parsed_u64_literal};
use crate::scan::selector::{
    eq_ignore_ascii_case, equal_ignoring_ascii_case, file_name, file_name_chars,
    protection_token_list, protection_tokens,
};
use crate::scan::{AddressRangeSpec, ScopeSpec};
use crate::source::{MemoryRegion, ModuleInfo};
use crate::text::{
    debug_quoted, decimal, decimal_string, hex_prefixed, joined, lemma_concat_all_three, lemma_mentions_pieces, mentions, str_chars,
};

verus! {

/// Hard limit on the selectors one category may list.
pub const MAX_SCOPE_SELECTORS: usize = 32;

/// Why a scope cannot be resolved, by error kind.
#[derive(Debug, Clone, Copy, PartialEq, Eq)]
pub enum ScopeFault {
    /// `INVALID_SPEC`
    Invalid,
    /// `UNRESOLVED_SCOPE`
    Unresolved,
    /// `SCOPE_METADATA_UNAVAILABLE`
    MetadataUnavailable,
}

/// `e` is the error that reports `f`.
pub open spec fn reports(e: Error, f: ScopeFault) -> bool {
    match f {
        ScopeFault::Invalid => e is InvalidSpec,
        ScopeFault::Unresolved => e is UnresolvedScope,
        ScopeFault::MetadataUnavailable => e is ScopeMetadataUnavailable,
    }
}

/// `res` is the executable outcome `expected` describes.
pub open spec fn outcome_is(res: Result<Vec<Interval>>, expected: core::result::Result<Seq<Interval>, ScopeFault>) -> bool {
    match expected {
        Ok(iv) => res matches Ok(r) && r@ == iv,
        Err(f) => res matches Err(e) && reports(e, f),
    }
}

/// The interval `[start, start + size)`, which must not pass `u64::MAX`.
pub open spec fn span(start: u64, size: u64) -> core::result::Result<Interval, ScopeFault> {
    if start + size > u64::MAX {
        Err(ScopeFault::Invalid)
    } else {
        Ok(Interval { start, end: (start + size) as u64 })
    }
}

/// A category lists between one and `MAX_SCOPE_SELECTORS` selectors.
pub open spec fn selector_count_allowed(n: nat) -> bool {
    1 <= n <= MAX_SCOPE_SELECTORS
}

/// A module selector names `m` by its full image path or by its file name,
/// ignoring ASCII case.
pub open spec fn module_selected(m: ModuleInfo, selector: Seq<char>) -> bool {
    equal_ignoring_ascii_case(m.name@, selector) || equal_ignoring_ascii_case(file_name(m.name@), selector)
}

/// How many of `modules` a selector names.
pub open spec fn selected_module_count(modules: Seq<ModuleInfo>, selector: Seq<char>) -> nat
    decreases modules.len(),
{
    if modules.len() == 0 {
        0
    } else {
        selected_module_count(modules.drop_last(), selector) + if module_selected(modules.last(), selector) {
            1nat
        } else {
            0nat
        }
    }
}

/// The last of `modules` a selector names.
pub open spec fn last_selected_module(modules: Seq<ModuleInfo>, selector: Seq<char>) -> Option<ModuleInfo>
    decreases modules.len(),
{
    if modules.len() == 0 {
        None
    } else if module_selected(modules.last(), selector) {
        Some(modules.last())
    } else {
        last_selected_module(modules.drop_last(), selector)
    }
}

/// A module selector resolves to the one module it names.
pub open spec fn module_interval(modules: Seq<ModuleInfo>, selector: Seq<char>) -> core::result::Result<Interval, ScopeFault> {
    if is_blank(selector) {
        Err(ScopeFault::Invalid)
    } else if selected_module_count(modules, selector) == 1 {
        let m = last_selected_module(modules, selector).unwrap();
        span(m.base.0, m.size)
    } else {
        Err(ScopeFault::Unresolved)
    }
}

/// The first region with id `id`.
pub open spec fn region_with_id(regions: Seq<MemoryRegion>, id: usize) -> Option<MemoryRegion>
    decreases regions.len(),
{
    if regions.len() == 0 {
        None
    } else {
        match region_with_id(regions.drop_last(), id) {
            Some(r) => Some(r),
            None => if regions.last().id == id {
                Some(regions.last())
            } else {
                None
            },
        }
    }
}

/// A region selector resolves to the region with that id.
pub open spec fn region_interval(regions: Seq<MemoryRegion>, id: usize) -> core::result::Result<Interval, ScopeFault> {
    match region_with_id(regions, id) {
        Some(r) => span(r.base.0, r.size),
        None => Err(ScopeFault::Unresolved),
    }
}

/// A range selector resolves to its literal start and nonzero length.
pub open spec fn range_interval(range: AddressRangeSpec) -> core::result::Result<Interval, ScopeFault> {
    match (parsed_u64_literal(range.start@), parsed_u64_literal(range.length@)) {
        (Some(start), Some(length)) => if length == 0 {
            Err(ScopeFault::Invalid)
        } else {
            span(start, length)
        },
        _ => Err(ScopeFault::Invalid),
    }
}

/// Resolves module selectors in order; the first failure decides.
pub open spec fn module_intervals(modules: Seq<ModuleInfo>, selectors: Seq<String>) -> core::result::Result<Seq<Interval>, ScopeFault>
    decreases selectors.len(),
{
    if selectors.len() == 0 {
        Ok(Seq::empty())
    } else {
        match module_intervals(modules, selectors.drop_last()) {
            Err(f) => Err(f),
            Ok(prev) => match module_interval(modules, selectors.last()@) {
                Err(f) => Err(f),
                Ok(iv) => Ok(prev.push(iv)),
            },
        }
    }
}

/// Resolves region selectors in order; the first failure decides.
pub open spec fn region_intervals(regions: Seq<MemoryRegion>, ids: Seq<usize>) -> core::result::Result<Seq<Interval>, ScopeFault>
    decreases ids.len(),
{
    if ids.len() == 0 {
        Ok(Seq::empty())
    } else {
        match region_intervals(regions, ids.drop_last()) {
            Err(f) => Err(f),
            Ok(prev) => match region_interval(regions, ids.last()) {
                Err(f) => Err(f),
                Ok(iv) => Ok(prev.push(iv)),
            },
        }
    }
}

/// Resolves range selectors in order; the first failure decides.
pub open spec fn range_intervals(ranges: Seq<AddressRangeSpec>) -> core::result::Result<Seq<Interval>, ScopeFault>
    decreases ranges.len(),
{
    if ranges.len() == 0 {
        Ok(Seq::empty())
    } else {
        match range_intervals(ranges.drop_last()) {
            Err(f) => Err(f),
            Ok(prev) => match range_interval(ranges.last()) {
                Err(f) => Err(f),
                Ok(iv) => Ok(prev.push(iv)),
            },
        }
    }
}

/// The spans of the regions `pick` selects, in region order.
pub open spec fn picked_regions(regions: Seq<MemoryRegion>, pick: spec_fn(MemoryRegion) -> bool) -> core::result::Result<Seq<Interval>, ScopeFault>
    decreases regions.len(),
{
    if regions.len() == 0 {
        Ok(Seq::empty())
    } else {
        match picked_regions(regions.drop_last(), pick) {
            Err(f) => Err(f),
            Ok(prev) => if pick(regions.last()) {
                match span(regions.last().base.0, regions.last().size) {
                    Err(f) => Err(f),
                    Ok(iv) => Ok(prev.push(iv)),
                }
            } else {
                Ok(prev)
            },
        }
    }
}

/// A portable protection selector.
pub open spec fn protection_name(s: Seq<char>) -> bool {
    s == "read"@ || s == "write"@ || s == "execute"@
}

/// A selectable memory type.
pub open spec fn memory_type_name(s: Seq<char>) -> bool {
    s == "private"@ || s == "mapped"@ || s == "image"@
}

/// Some selector equals `s`.
pub open spec fn listed(selectors: Seq<String>, s: Seq<char>) -> bool {
    exists|k: int| 0 <= k < selectors.len() && #[trigger] selectors[k]@ == s
}

/// A region carries a protection token some selector lists.
pub open spec fn protection_selected(r: MemoryRegion, selectors: Seq<String>) -> bool {
    exists|t: int| 0 <= t < protection_tokens(r.protection@).len() && #[trigger] listed(selectors, protection_tokens(r.protection@)[t])
}

/// The outcome of the `modules` category.
pub open spec fn modules_category(modules: Seq<ModuleInfo>, selectors: Seq<String>) -> core::result::Result<Seq<Interval>, ScopeFault> {
    if !selector_count_allowed(selectors.len()) {
        Err(ScopeFault::Invalid)
    } else {
        module_intervals(modules, selectors)
    }
}

/// The outcome of the `regions` category.
pub open spec fn regions_category(regions: Seq<MemoryRegion>, ids: Seq<usize>) -> core::result::Result<Seq<Interval>, ScopeFault> {
    if !selector_count_allowed(ids.len()) {
        Err(ScopeFault::Invalid)
    } else {
        region_intervals(regions, ids)
    }
}

/// The outcome of the `ranges` category.
pub open spec fn ranges_category(ranges: Seq<AddressRangeSpec>) -> core::result::Result<Seq<Interval>, ScopeFault> {
    if !selector_count_allowed(ranges.len()) {
        Err(ScopeFault::Invalid)
    } else {
        range_intervals(ranges)
    }
}

/// The outcome of the `protections` category.
pub open spec fn protections_category(regions: Seq<MemoryRegion>, metadata_complete: bool, selectors: Seq<String>) -> core::result::Result<Seq<Interval>, ScopeFault> {
    if !selector_count_allowed(selectors.len()) {
        Err(ScopeFault::Invalid)
    } else if !metadata_complete {
        Err(ScopeFault::MetadataUnavailable)
    } else if exists|k: int| 0 <= k < selectors.len() && !protection_name(#[trigger] selectors[k]@) {
        Err(ScopeFault::Invalid)
    } else {
        picked_regions(regions, |r: MemoryRegion| protection_selected(r, selectors))
    }
}

/// The outcome of the `types` category.
pub open spec fn types_category(regions: Seq<MemoryRegion>, metadata_complete: bool, selectors: Seq<String>) -> core::result::Result<Seq<Interval>, ScopeFault> {
    if !selector_count_allowed(selectors.len()) {
        Err(ScopeFault::Invalid)
    } else if !metadata_complete {
        Err(ScopeFault::MetadataUnavailable)
    } else if exists|k: int| 0 <= k < selectors.len() && !memory_type_name(#[trigger] selectors[k]@) {
        Err(ScopeFault::Invalid)
    } else {
        picked_regions(regions, |r: MemoryRegion| listed(selectors, r.kind@))
    }
}

/// One applied category: its name and the intervals its selectors name.
pub type Category = (Seq<char>, Seq<Interval>);

/// Appends a category's outcome to those before it; the first failure decides.
pub open spec fn with_category(
    before: core::result::Result<Seq<Category>, ScopeFault>,
    name: Seq<char>,
    outcome: Option<core::result::Result<Seq<Interval>, ScopeFault>>,
) -> core::result::Result<Seq<Category>, ScopeFault> {
    match before {
        Err(f) => Err(f),
        Ok(cs) => match outcome {
            None => Ok(cs),
            Some(Err(f)) => Err(f),
            Some(Ok(iv)) => Ok(cs.push((name, iv))),
        },
    }
}

/// The categories a scope applies, in the fixed order modules, regions, ranges,
/// protections, types, or the first failure among them.
pub open spec fn scope_categories(
    regions: Seq<MemoryRegion>,
    modules: Seq<ModuleInfo>,
    metadata_complete: bool,
    spec: ScopeSpec,
) -> core::result::Result<Seq<Category>, ScopeFault> {
    let a = with_category(Ok(Seq::empty()), "modules"@, match spec.modules {
        None => None,
        Some(s) => Some(modules_category(modules, s@)),
    });
    let b = with_category(a, "regions"@, match spec.regions {
        None => None,
        Some(s) => Some(regions_category(regions, s@)),
    });
    let c = with_category(b, "ranges"@, match spec.ranges {
        None => None,
        Some(s) => Some(ranges_category(s@)),
    });
    let d = with_category(c, "protections"@, match spec.protections {
        None => None,
        Some(s) => Some(protections_category(regions, metadata_complete, s@)),
    });
    with_category(d, "types"@, match spec.types {
        None => None,
        Some(s) => Some(types_category(regions, metadata_complete, s@)),
    })
}

/// `a` lies in every category.
pub open spec fn in_every(cats: Seq<Category>, a: int) -> bool {
    forall|k: int| 0 <= k < cats.len() ==> #[trigger] covers(cats[k].1, a)
}

/// `iv` is the canonical form of the intersection of `cats`.
pub open spec fn intersection_of(iv: Seq<Interval>, cats: Seq<Category>) -> bool {
    &&& canonical(iv)
    &&& forall|a: int| #[trigger] covers(iv, a) <==> in_every(cats, a)
}

/// A resolved scan scope.
#[derive(Debug, Clone)]
pub struct ResolvedScope {
    /// Selector categories that were applied, in deterministic order.
    pub applied: Vec<&'static str>,
    /// `None` selects every captured readable byte.
    pub intervals: Option<Vec<Interval>>,
    /// Bytes the intersection selects; `None` when no scope was requested.
    pub selected_bytes: Option<u64>,
}

fn span_of(start: u64, size: u64) -> (res: Result<Interval>)
    ensures
        match span(start, size) {
            Ok(iv) => res matches Ok(r) && r == iv,
            Err(f) => res matches Err(e) && reports(e, f),
        },
{
    match start.checked_add(size) {
        Some(end) => Ok(Interval { start, end }),
        None => {
            let at = hex_prefixed(start, 16);
            Err(Error::InvalidSpec(joined(&["scope interval at ", at.as_str(), " overflows"])))
        },
    }
}

fn require_selectors(category: &str, count: usize) -> (res: Result<()>)
    ensures
        res is Ok <==> selector_count_allowed(count as nat),
        res matches Err(e) ==> e is InvalidSpec,
{
    let quoted = debug_quoted(category);
    if count == 0 {
        return Err(Error::InvalidSpec(joined(&["scope category ", quoted.as_str(), " lists no selectors; omit it instead"])));
    }
    if count > MAX_SCOPE_SELECTORS {
        let n = decimal_string(count as u64);
        return Err(Error::InvalidSpec(joined(&["scope category ", quoted.as_str(), " lists ", n.as_str(), " selectors; hard limit is 32"])));
    }
    Ok(())
}

fn require_metadata(metadata_complete: bool, category: &str) -> (res: Result<()>)
    ensures
        res is Ok <==> metadata_complete,
        res matches Err(e) ==> e is ScopeMetadataUnavailable,
{
    if metadata_complete {
        return Ok(());
    }
    let quoted = debug_quoted(category);
    Err(Error::ScopeMetadataUnavailable(joined(&["scope category ", quoted.as_str(), " needs region metadata that this source does not provide"])))
}

fn same_text(a: &Vec<char>, b: &str) -> (res: bool)
    ensures
        res == (a@ == b@),
{
    let chars = str_chars(b);
    if a.len() != chars.len() {
        return false;
    }
    let mut i: usize = 0;
    while i < a.len()
        invariant
            chars@ == b@,
            a@.len() == b@.len(),
            0 <= i <= a.len(),
            forall|k: int| 0 <= k < i ==> a@[k] == b@[k],
        decreases a.len() - i,
    {
        if a[i] != chars[i] {
            return false;
        }
        i = i + 1;
    }
    assert(a@ =~= b@);
    true
}

fn is_listed(selectors: &Vec<String>, s: &Vec<char>) -> (res: bool)
    ensures
        res == listed(selectors@, s@),
{
    let mut k: usize = 0;
    while k < selectors.len()
        invariant
            0 <= k <= selectors.len(),
            forall|m: int| 0 <= m < k ==> selectors@[m]@ != s@,
        decreases selectors.len() - k,
    {
        if same_text(s, selectors[k].as_str()) {
            return true;
        }
        k = k + 1;
    }
    false
}

fn require_protection_names(selectors: &Vec<String>) -> (res: Result<()>)
    ensures
        res is Ok <==> forall|k: int| 0 <= k < selectors@.len() ==> protection_name(#[trigger] selectors@[k]@),
        res matches Err(e) ==> e is InvalidSpec,
{
    let mut k: usize = 0;
    while k < selectors.len()
        invariant
            0 <= k <= selectors.len(),
            forall|m: int| 0 <= m < k ==> protection_name(#[trigger] selectors@[m]@),
        decreases selectors.len() - k,
    {
        let sel = str_chars(selectors[k].as_str());
        if !(same_text(&sel, "read") || same_text(&sel, "write") || same_text(&sel, "execute")) {
            let quoted = debug_quoted(selectors[k].as_str());
            return Err(Error::InvalidSpec(joined(&["unknown protection selector ", quoted.as_str(), "; expected one of read, write, execute"])));
        }
        k = k + 1;
    }
    Ok(())
}

fn require_type_names(selectors: &Vec<String>) -> (res: Result<()>)
    ensures
        res is Ok <==> forall|k: int| 0 <= k < selectors@.len() ==> memory_type_name(#[trigger] selectors@[k]@),
        res matches Err(e) ==> e is InvalidSpec,
{
    let mut k: usize = 0;
    while k < selectors.len()
        invariant
            0 <= k <= selectors.len(),
            forall|m: int| 0 <= m < k ==> memory_type_name(#[trigger] selectors@[m]@),
        decreases selectors.len() - k,
    {
        let sel = str_chars(selectors[k].as_str());
        if !(same_text(&sel, "private") || same_text(&sel, "mapped") || same_text(&sel, "image")) {
            let quoted = debug_quoted(selectors[k].as_str());
            return Err(Error::InvalidSpec(joined(&["unknown memory type selector ", quoted.as_str(), "; expected one of private, mapped, image"])));
        }
        k = k + 1;
    }
    Ok(())
}

/// Whether `selector` names `module` by its full image path or its file name,
/// ignoring ASCII case.
pub fn module_matches(module: &ModuleInfo, selector: &str) -> (res: bool)
    ensures
        res == module_selected(*module, selector@),
{
    if eq_ignore_ascii_case(module.name.as_str(), selector) {
        return true;
    }
    let name = file_name_chars(module.name.as_str());
    let sel = str_chars(selector);
    crate::scan::selector::chars_equal_ignoring_ascii_case(&name, &sel)
}

/// Resolves a module selector to the span of the one module it names. A selector
/// that names several modules fails with a message saying how many it matches.
pub fn resolve_module(modules: &Vec<ModuleInfo>, selector: &String) -> (res: Result<Interval>)
    ensures
        match module_interval(modules@, selector@) {
            Ok(iv) => res matches Ok(r) && r == iv,
            Err(f) => res matches Err(e) && reports(e, f),
        },
        !is_blank(selector@) && selected_module_count(modules@, selector@) > 1 ==> (res matches Err(Error::UnresolvedScope(m))
            && mentions(m@, "matches "@ + decimal(selected_module_count(modules@, selector@)) + " captured modules"@)),
{
    if blank(selector.as_str()) {
        return Err(Error::InvalidSpec(String::from_str("module scope selector cannot be empty")));
    }
    let mut matched: usize = 0;
    let mut count: usize = 0;
    let mut i: usize = 0;
    while i < modules.len()
        invariant
            0 <= i <= modules.len(),
            count <= i,
            count == selected_module_count(modules@.subrange(0, i as int), selector@),
            count > 0 ==> matched < i && last_selected_module(modules@.subrange(0, i as int), selector@) == Some(modules@[matched as int]),
            count == 0 ==> last_selected_module(modules@.subrange(0, i as int), selector@) is None,
        decreases modules.len() - i,
    {
        proof {
            assert(modules@.subrange(0, i as int + 1).drop_last() =~= modules@.subrange(0, i as int));
        }
        if module_matches(&modules[i], selector.as_str()) {
            count = count + 1;
            matched = i;
        }
        i = i + 1;
    }
    proof {
        assert(modules@.subrange(0, modules@.len() as int) =~= modules@);
    }
    let quoted = debug_quoted(selector.as_str());
    if count == 1 {
        let m = &modules[matched];
        span_of(m.base.0, m.size)
    } else if count == 0 {
        Err(Error::UnresolvedScope(joined(&["no captured module matches selector ", quoted.as_str()])))
    } else {
        let n = decimal_string(count as u64);
        let ns = n.as_str();
        let pieces = ["module selector ", quoted.as_str(), " ", "matches ", ns, " captured modules", "; use the full image path"];
        let message = joined(&pieces);
        proof {
            lemma_mentions_pieces(pieces@, 3, 6);
            assert(pieces@.subrange(3, 6) =~= seq!["matches ", ns, " captured modules"]);
            lemma_concat_all_three("matches ", ns, " captured modules");
        }
        Err(Error::UnresolvedScope(message))
    }
}

/// Resolves a region selector to the span of the region with that id.
pub fn resolve_region(regions: &Vec<MemoryRegion>, id: usize) -> (res: Result<Interval>)
    ensures
        match region_interval(regions@, id) {
            Ok(iv) => res matches Ok(r) && r == iv,
            Err(f) => res matches Err(e) && reports(e, f),
        },
{
    let mut i: usize = 0;
    while i < regions.len()
        invariant
            0 <= i <= regions.len(),
            region_with_id(regions@.subrange(0, i as int), id) is None,
        decreases regions.len() - i,
    {
        proof {
            assert(regions@.subrange(0, i as int + 1).drop_last() =~= regions@.subrange(0, i as int));
        }
        if regions[i].id == id {
            proof {
                lemma_region_with_id_prefix(regions@, id, i as int + 1);
            }
            return span_of(regions[i].base.0, regions[i].size);
        }
        i = i + 1;
    }
    proof {
        assert(regions@.subrange(0, regions@.len() as int) =~= regions@);
    }
    let n = decimal_string(id as u64);
    Err(Error::UnresolvedScope(joined(&["no captured region has id ", n.as_str()])))
}

proof fn lemma_region_with_id_prefix(regions: Seq<MemoryRegion>, id: usize, n: int)
    requires
        0 <= n <= regions.len(),
        region_with_id(regions.subrange(0, n), id) is Some,
    ensures
        region_with_id(regions, id) == region_with_id(regions.subrange(0, n), id),
    decreases regions.len() - n,
{
    if n < regions.len() {
        assert(regions.subrange(0, n + 1).drop_last() =~= regions.subrange(0, n));
        lemma_region_with_id_prefix(regions, id, n + 1);
    } else {
        assert(regions.subrange(0, n) =~= regions);
    }
}

/// Resolves an explicit address range: a decimal or `0x` literal start and a
/// nonzero length.
pub fn resolve_range(range: &AddressRangeSpec) -> (res: Result<Interval>)
    ensures
        match range_interval(*range) {
            Ok(iv) => res matches Ok(r) && r == iv,
            Err(f) => res matches Err(e) && reports(e, f),
        },
{
    let quoted = debug_quoted(range.start.as_str());
    let start = match parse_u64_literal(range.start.as_str()) {
        Some(v) => v,
        None => {
            return Err(Error::InvalidSpec(joined(&["invalid range start ", quoted.as_str()])));
        },
    };
    let length = match parse_u64_literal(range.length.as_str()) {
        Some(v) => v,
        None => {
            let len_quoted = debug_quoted(range.length.as_str());
            return Err(Error::InvalidSpec(joined(&["invalid range length ", len_quoted.as_str()])));
        },
    };
    if length == 0 {
        return Err(Error::InvalidSpec(joined(&["range starting at ", quoted.as_str(), " has zero length"])));
    }
    span_of(start, length)
}

fn modules_category_exec(modules: &Vec<ModuleInfo>, selectors: &Vec<String>) -> (res: Result<Vec<Interval>>)
    ensures
        outcome_is(res, modules_category(modules@, selectors@)),
{
    require_selectors("modules", selectors.len())?;
    let mut out: Vec<Interval> = Vec::new();
    let mut i: usize = 0;
    while i < selectors.len()
        invariant
            0 <= i <= selectors.len(),
            selector_count_allowed(selectors@.len()),
            module_intervals(modules@, selectors@.subrange(0, i as int)) == Ok::<Seq<Interval>, ScopeFault>(out@),
        decreases selectors.len() - i,
    {
        proof {
            assert(selectors@.subrange(0, i as int + 1).drop_last() =~= selectors@.subrange(0, i as int));
        }
        let iv = match resolve_module(modules, &selectors[i]) {
            Ok(iv) => iv,
            Err(e) => {
                proof {
                    let next = selectors@.subrange(0, i as int + 1);
                    assert(next.last() == selectors@[i as int]);
                    assert(next.drop_last() =~= selectors@.subrange(0, i as int));
                    if let Err(f) = module_interval(modules@, selectors@[i as int]@) {
                        assert(module_intervals(modules@, next) == Err::<Seq<Interval>, ScopeFault>(f));
                    }
                    lemma_module_intervals_err(modules@, selectors@, i as int + 1);
                }
                return Err(e);
            },
        };
        out.push(iv);
        i = i + 1;
    }
    proof {
        assert(selectors@.subrange(0, selectors@.len() as int) =~= selectors@);
    }
    Ok(out)
}

proof fn lemma_module_intervals_err(modules: Seq<ModuleInfo>, selectors: Seq<String>, n: int)
    requires
        0 <= n <= selectors.len(),
        module_intervals(modules, selectors.subrange(0, n)) is Err,
    ensures
        module_intervals(modules, selectors) == module_intervals(modules, selectors.subrange(0, n)),
    decreases selectors.len() - n,
{
    if n < selectors.len() {
        assert(selectors.subrange(0, n + 1).drop_last() =~= selectors.subrange(0, n));
        lemma_module_intervals_err(modules, selectors, n + 1);
    } else {
        assert(selectors.subrange(0, n) =~= selectors);
    }
}

fn regions_category_exec(regions: &Vec<MemoryRegion>, ids: &Vec<usize>) -> (res: Result<Vec<Interval>>)
    ensures
        outcome_is(res, regions_category(regions@, ids@)),
{
    require_selectors("regions", ids.len())?;
    let mut out: Vec<Interval> = Vec::new();
    let mut i: usize = 0;
    while i < ids.len()
        invariant
            0 <= i <= ids.len(),
            selector_count_allowed(ids@.len()),
            region_intervals(regions@, ids@.subrange(0, i as int)) == Ok::<Seq<Interval>, ScopeFault>(out@),
        decreases ids.len() - i,
    {
        let ghost next = ids@.subrange(0, i as int + 1);
        proof {
            assert(next.drop_last() =~= ids@.subrange(0, i as int));
        }
        let iv = match resolve_region(regions, ids[i]) {
            Ok(iv) => iv,
            Err(e) => {
                proof {
                    if let Err(f) = region_interval(regions@, ids@[i as int]) {
                        assert(region_intervals(regions@, next) == Err::<Seq<Interval>, ScopeFault>(f));
                    }
                    lemma_region_intervals_err(regions@, ids@, i as int + 1);
                }
                return Err(e);
            },
        };
        out.push(iv);
        i = i + 1;
    }
    proof {
        assert(ids@.subrange(0, ids@.len() as int) =~= ids@);
    }
    Ok(out)
}

proof fn lemma_region_intervals_err(regions: Seq<MemoryRegion>, ids: Seq<usize>, n: int)
    requires
        0 <= n <= ids.len(),
        region_intervals(regions, ids.subrange(0, n)) is Err,
    ensures
        region_intervals(regions, ids) == region_intervals(regions, ids.subrange(0, n)),
    decreases ids.len() - n,
{
    if n < ids.len() {
        assert(ids.subrange(0, n + 1).drop_last() =~= ids.subrange(0, n));
        lemma_region_intervals_err(regions, ids, n + 1);
    } else {
        assert(ids.subrange(0, n) =~= ids);
    }
}

fn ranges_category_exec(ranges: &Vec<AddressRangeSpec>) -> (res: Result<Vec<Interval>>)
    ensures
        outcome_is(res, ranges_category(ranges@)),
{
    require_selectors("ranges", ranges.len())?;
    let mut out: Vec<Interval> = Vec::new();
    let mut i: usize = 0;
    while i < ranges.len()
        invariant
            0 <= i <= ranges.len(),
            selector_count_allowed(ranges@.len()),
            range_intervals(ranges@.subrange(0, i as int)) == Ok::<Seq<Interval>, ScopeFault>(out@),
        decreases ranges.len() - i,
    {
        let ghost next = ranges@.subrange(0, i as int + 1);
        proof {
            assert(next.drop_last() =~= ranges@.subrange(0, i as int));
        }
        let iv = match resolve_range(&ranges[i]) {
            Ok(iv) => iv,
            Err(e) => {
                proof {
                    if let Err(f) = range_interval(ranges@[i as int]) {
                        assert(range_intervals(next) == Err::<Seq<Interval>, ScopeFault>(f));
                    }
                    lemma_range_intervals_err(ranges@, i as int + 1);
                }
                return Err(e);
            },
        };
        out.push(iv);
        i = i + 1;
    }
    proof {
        assert(ranges@.subrange(0, ranges@.len() as int) =~= ranges@);
    }
    Ok(out)
}

proof fn lemma_range_intervals_err(ranges: Seq<AddressRangeSpec>, n: int)
    requires
        0 <= n <= ranges.len(),
        range_intervals(ranges.subrange(0, n)) is Err,
    ensures
        range_intervals(ranges) == range_intervals(ranges.subrange(0, n)),
    decreases ranges.len() - n,
{
    if n < ranges.len() {
        assert(ranges.subrange(0, n + 1).drop_last() =~= ranges.subrange(0, n));
        lemma_range_intervals_err(ranges, n + 1);
    } else {
        assert(ranges.subrange(0, n) =~= ranges);
    }
}

proof fn lemma_picked_regions_err(regions: Seq<MemoryRegion>, pick: spec_fn(MemoryRegion) -> bool, n: int)
    requires
        0 <= n <= regions.len(),
        picked_regions(regions.subrange(0, n), pick) is Err,
    ensures
        picked_regions(regions, pick) == picked_regions(regions.subrange(0, n), pick),
    decreases regions.len() - n,
{
    if n < regions.len() {
        assert(regions.subrange(0, n + 1).drop_last() =~= regions.subrange(0, n));
        lemma_picked_regions_err(regions, pick, n + 1);
    } else {
        assert(regions.subrange(0, n) =~= regions);
    }
}

/// Whether `region` carries a protection token that some selector lists.
pub fn region_has_protection(region: &MemoryRegion, selectors: &Vec<String>) -> (res: bool)
    ensures
        res == protection_selected(*region, selectors@),
{
    let tokens = protection_token_list(region.protection.as_str());
    let mut t: usize = 0;
    while t < tokens.len()
        invariant
            0 <= t <= tokens@.len(),
            tokens@.len() == protection_tokens(region.protection@).len(),
            forall|k: int| 0 <= k < tokens@.len() ==> #[trigger] tokens@[k]@ == protection_tokens(region.protection@)[k],
            forall|k: int| 0 <= k < t ==> !#[trigger] listed(selectors@, protection_tokens(region.protection@)[k]),
        decreases tokens@.len() - t,
    {
        if is_listed(selectors, &tokens[t]) {
            return true;
        }
        t = t + 1;
    }
    false
}

fn protections_category_exec(regions: &Vec<MemoryRegion>, metadata_complete: bool, selectors: &Vec<String>) -> (res: Result<Vec<Interval>>)
    ensures
        outcome_is(res, protections_category(regions@, metadata_complete, selectors@)),
{
    require_selectors("protections", selectors.len())?;
    require_metadata(metadata_complete, "protections")?;
    require_protection_names(selectors)?;
    let ghost pick = |r: MemoryRegion| protection_selected(r, selectors@);
    let mut out: Vec<Interval> = Vec::new();
    let mut i: usize = 0;
    while i < regions.len()
        invariant
            0 <= i <= regions.len(),
            protections_category(regions@, metadata_complete, selectors@) == picked_regions(regions@, pick),
            pick == (|r: MemoryRegion| protection_selected(r, selectors@)),
            picked_regions(regions@.subrange(0, i as int), pick) == Ok::<Seq<Interval>, ScopeFault>(out@),
        decreases regions.len() - i,
    {
        let ghost next = regions@.subrange(0, i as int + 1);
        proof {
            assert(next.drop_last() =~= regions@.subrange(0, i as int));
        }
        if region_has_protection(&regions[i], selectors) {
            let iv = match span_of(regions[i].base.0, regions[i].size) {
                Ok(iv) => iv,
                Err(e) => {
                    proof {
                        lemma_picked_regions_err(regions@, pick, i as int + 1);
                    }
                    return Err(e);
                },
            };
            out.push(iv);
        }
        i = i + 1;
    }
    proof {
        assert(regions@.subrange(0, regions@.len() as int) =~= regions@);
    }
    Ok(out)
}

fn types_category_exec(regions: &Vec<MemoryRegion>, metadata_complete: bool, selectors: &Vec<String>) -> (res: Result<Vec<Interval>>)
    ensures
        outcome_is(res, types_category(regions@, metadata_complete, selectors@)),
{
    require_selectors("types", selectors.len())?;
    require_metadata(metadata_complete, "types")?;
    require_type_names(selectors)?;
    let ghost pick = |r: MemoryRegion| listed(selectors@, r.kind@);
    let mut out: Vec<Interval> = Vec::new();
    let mut i: usize = 0;
    while i < regions.len()
        invariant
            0 <= i <= regions.len(),
            types_category(regions@, metadata_complete, selectors@) == picked_regions(regions@, pick),
            pick == (|r: MemoryRegion| listed(selectors@, r.kind@)),
            picked_regions(regions@.subrange(0, i as int), pick) == Ok::<Seq<Interval>, ScopeFault>(out@),
        decreases regions.len() - i,
    {
        let ghost next = regions@.subrange(0, i as int + 1);
        proof {
            assert(next.drop_last() =~= regions@.subrange(0, i as int));
        }
        let kind = str_chars(regions[i].kind.as_str());
        if is_listed(selectors, &kind) {
            let iv = match span_of(regions[i].base.0, regions[i].size) {
                Ok(iv) => iv,
                Err(e) => {
                    proof {
                        lemma_picked_regions_err(regions@, pick, i as int + 1);
                    }
                    return Err(e);
                },
            };
            out.push(iv);
        }
        i = i + 1;
    }
    proof {
        assert(regions@.subrange(0, regions@.len() as int) =~= regions@);
    }
    Ok(out)
}

/// The views of the applied category names.
pub open spec fn names_of(applied: Seq<&'static str>) -> Seq<Seq<char>> {
    applied.map_values(|s: &'static str| s@)
}

/// The names of the categories.
pub open spec fn category_names(cats: Seq<Category>) -> Seq<Seq<char>> {
    cats.map_values(|c: Category| c.0)
}

/// The executable state after some categories: their names, and each category
/// merged into canonical form.
pub open spec fn tracks(applied: Seq<&'static str>, merged: Seq<Vec<Interval>>, cats: Seq<Category>) -> bool {
    &&& names_of(applied) =~= category_names(cats)
    &&& merged.len() == cats.len()
    &&& forall|k: int| 0 <= k < cats.len() ==> canonical(#[trigger] merged[k]@)
    &&& forall|k: int, a: int| 0 <= k < cats.len() ==> (#[trigger] covers(merged[k]@, a) <==> covers(cats[k].1, a))
}

proof fn lemma_in_every_push(cats: Seq<Category>, c: Category, a: int)
    ensures
        in_every(cats.push(c), a) <==> (in_every(cats, a) && covers(c.1, a)),
{
    let t = cats.push(c);
    if in_every(t, a) {
        assert(covers(t[cats.len() as int].1, a));
        assert forall|k: int| 0 <= k < cats.len() implies #[trigger] covers(cats[k].1, a) by {
            assert(covers(t[k].1, a));
        }
    }
    if in_every(cats, a) && covers(c.1, a) {
        assert forall|k: int| 0 <= k < t.len() implies #[trigger] covers(t[k].1, a) by {
            if k < cats.len() {
                assert(covers(cats[k].1, a));
            }
        }
    }
}

fn apply_category(
    applied: &mut Vec<&'static str>,
    merged: &mut Vec<Vec<Interval>>,
    Ghost(cats): Ghost<Seq<Category>>,
    name: &'static str,
    raw: Vec<Interval>,
) -> (res: Ghost<Seq<Category>>)
    requires
        tracks(old(applied)@, old(merged)@, cats),
    ensures
        res@ == cats.push((name@, raw@)),
        tracks(final(applied)@, final(merged)@, res@),
{
    let ghost before = applied@;
    applied.push(name);
    let m = merge(&raw);
    merged.push(m);
    let ghost next = cats.push((name@, raw@));
    proof {
        assert(names_of(applied@) =~= names_of(before).push(name@));
        assert(category_names(next) =~= category_names(cats).push(name@));
        assert(names_of(applied@) =~= category_names(next));
        assert forall|k: int, a: int| 0 <= k < next.len() implies (#[trigger] covers(merged@[k]@, a) <==> covers(next[k].1, a)) by {
            if k < cats.len() {
            } else {
                assert(merged@[k] == m);
            }
        }
    }
    Ghost(next)
}

/// The fault resolving `scope` meets against `regions` and `modules`, if any: the
/// first failing selector's, or an invalid scope when no category is present.
pub open spec fn scope_fault_in(regions: Seq<MemoryRegion>, modules: Seq<ModuleInfo>, metadata_complete: bool, scope: Option<ScopeSpec>) -> Option<ScopeFault> {
    match scope {
        None => None,
        Some(sc) => match scope_categories(regions, modules, metadata_complete, sc) {
            Err(f) => Some(f),
            Ok(cats) => if cats.len() == 0 { Some(ScopeFault::Invalid) } else { None },
        },
    }
}

/// `r` is the resolution of `scope` against `regions` and `modules`: nothing
/// applied and every byte selected without a scope; otherwise the names of the
/// present categories, in order, and the canonical intersection of their
/// intervals with its byte count.
pub open spec fn resolved_as(regions: Seq<MemoryRegion>, modules: Seq<ModuleInfo>, metadata_complete: bool, scope: Option<ScopeSpec>, r: ResolvedScope) -> bool {
    match scope {
        None => r.applied@.len() == 0 && r.intervals is None && r.selected_bytes is None,
        Some(sc) => match scope_categories(regions, modules, metadata_complete, sc) {
            Err(_) => false,
            Ok(cats) => {
                &&& names_of(r.applied@) == category_names(cats)
                &&& r.intervals matches Some(iv) && intersection_of(iv@, cats)
                    && r.selected_bytes == Some(total_len(iv@) as u64)
                    && total_len(iv@) <= u64::MAX
            },
        },
    }
}

/// Resolves a scan scope against a process's regions and modules.
///
/// Each present category resolves its selectors (the first failing selector
/// decides the error), categories apply in the order modules, regions, ranges,
/// protections, types, and the result is the canonical intersection of all of
/// them. Without a scope every captured readable byte is selected.
pub fn resolve_scope(
    regions: &Vec<MemoryRegion>,
    modules: &Vec<ModuleInfo>,
    metadata_complete: bool,
    spec: Option<&ScopeSpec>,
) -> (res: Result<ResolvedScope>)
    ensures
        spec is None ==> (res matches Ok(r) && r.applied@.len() == 0 && r.intervals is None && r.selected_bytes is None),
        spec matches Some(s) ==> match scope_categories(regions@, modules@, metadata_complete, *s) {
            Err(f) => res matches Err(e) && reports(e, f),
            Ok(cats) => if cats.len() == 0 {
                res matches Err(e) && e is InvalidSpec
            } else {
                res matches Ok(r) && {
                    &&& names_of(r.applied@) == category_names(cats)
                    &&& r.intervals matches Some(iv) && intersection_of(iv@, cats)
                        && r.selected_bytes == Some(total_len(iv@) as u64)
                        && total_len(iv@) <= u64::MAX
                }
            },
        },
{
    let s = match spec {
        None => {
            return Ok(ResolvedScope { applied: Vec::new(), intervals: None, selected_bytes: None });
        },
        Some(s) => s,
    };
    let mut applied: Vec<&'static str> = Vec::new();
    let mut merged: Vec<Vec<Interval>> = Vec::new();
    let ghost mut cats: Seq<Category> = Seq::empty();
    proof {
        assert(names_of(applied@) =~= category_names(cats));
    }
    if let Some(selectors) = &s.modules {
        let raw = modules_category_exec(modules, selectors)?;
        let Ghost(c) = apply_category(&mut applied, &mut merged, Ghost(cats), "modules", raw);
        proof { cats = c; }
    }
    let ghost after_modules = cats;
    if let Some(ids) = &s.regions {
        let raw = regions_category_exec(regions, ids)?;
        let Ghost(c) = apply_category(&mut applied, &mut merged, Ghost(cats), "regions", raw);
        proof { cats = c; }
    }
    if let Some(ranges) = &s.ranges {
        let raw = ranges_category_exec(ranges)?;
        let Ghost(c) = apply_category(&mut applied, &mut merged, Ghost(cats), "ranges", raw);
        proof { cats = c; }
    }
    if let Some(selectors) = &s.protections {
        let raw = protections_category_exec(regions, metadata_complete, selectors)?;
        let Ghost(c) = apply_category(&mut applied, &mut merged, Ghost(cats), "protections", raw);
        proof { cats = c; }
    }
    if let Some(selectors) = &s.types {
        let raw = types_category_exec(regions, metadata_complete, selectors)?;
        let Ghost(c) = apply_category(&mut applied, &mut merged, Ghost(cats), "types", raw);
        proof { cats = c; }
    }
    assert(scope_categories(regions@, modules@, metadata_complete, *s) == Ok::<Seq<Category>, ScopeFault>(cats));
    if merged.len() == 0 {
        return Err(Error::InvalidSpec(String::from_str(
            "scope requires at least one selector category; omit scope to scan every captured readable byte",
        )));
    }
    let ghost all = merged@;
    let mut intervals = merged.remove(0);
    proof {
        assert(all[0] == intervals);
        assert forall|a: int| #[trigger] covers(intervals@, a) <==> in_every(cats.subrange(0, 1), a) by {
            lemma_in_every_push(Seq::empty(), cats[0], a);
            assert(Seq::<Category>::empty().push(cats[0]) =~= cats.subrange(0, 1));
        }
    }
    let mut k: usize = 0;
    while k < merged.len()
        invariant
            0 <= k <= merged@.len(),
            merged@.len() + 1 == cats.len(),
            forall|m: int| 0 <= m < merged@.len() ==> merged@[m] == all[m + 1],
            tracks(applied@, all, cats),
            canonical(intervals@),
            forall|a: int| #[trigger] covers(intervals@, a) <==> in_every(cats.subrange(0, k + 1), a),
        decreases merged@.len() - k,
    {
        let next = intersect(&intervals, &merged[k]);
        proof {
            assert(merged@[k as int] == all[k + 1]);
            assert(cats.subrange(0, k + 2) =~= cats.subrange(0, k + 1).push(cats[k + 1]));
            assert forall|a: int| #[trigger] covers(next@, a) <==> in_every(cats.subrange(0, k + 2), a) by {
                lemma_in_every_push(cats.subrange(0, k + 1), cats[k + 1], a);
                assert(covers(all[k + 1]@, a) <==> covers(cats[k + 1].1, a));
            }
        }
        intervals = next;
        k = k + 1;
    }
    proof {
        assert(cats.subrange(0, cats.len() as int) =~= cats);
        assert(intersection_of(intervals@, cats));
    }
    match covered_bytes(&intervals) {
        Some(n) => Ok(ResolvedScope { applied, intervals: Some(intervals), selected_bytes: Some(n) }),
        None => Err(Error::InvalidSpec(String::from_str("scope byte count overflows u64"))),
    }
}

/// A module whose name is a path ending in `name` after a `/` or `\\` is
/// selected by `name`, in any ASCII case.
pub proof fn module_selected_by_file_name(m: ModuleInfo, prefix: Seq<char>, separator: char, name: Seq<char>, selector: Seq<char>)
    requires
        separator == '/' || separator == '\\',
        forall|i: int| 0 <= i < name.len() ==> #[trigger] name[i] != '/' && name[i] != '\\',
        m.name@ == prefix.push(separator) + name,
        equal_ignoring_ascii_case(name, selector),
    ensures
        module_selected(m, selector),
{
    crate::scan::selector::file_name_follows_last_separator(prefix, separator, name);
}

} // verus!
