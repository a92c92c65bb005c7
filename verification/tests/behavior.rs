use membridge::cli::{ABOUT, NAME, SUBCOMMANDS, VERSION};
use membridge::scan::{
    scan, AddressRangeSpec, Endianness, ParsedFloat, PatternSpec, PatternValue, ScanReport, ScanSession, ScanSpec,
    ScopeSpec,
};
use membridge::source::{CoverageLimitation, MinidumpSource, MAX_CAPTURED_SEGMENTS};
use membridge::Error;
use minidump_synth::{DumpString, Memory, MemoryInfo, Module, SimpleStream, SynthMinidump, SystemInfo};
use test_assembler::{Endian, Section};

const BASE: u64 = 0x0000_0001_4000_0000;
const CANARY: &[u8] = b"MBRIDGE!";
const FIRST_MATCH: u64 = BASE + 0x100;
const BOUNDARY_MATCH: u64 = BASE + 0x0ffc;
const NOACCESS_DECOY: u64 = BASE + 0x2100;

const TYPED_U32: u32 = 0xdead_beef;
const TYPED_U32_MATCH: u64 = BASE + 0x200;
const TYPED_I64: i64 = -2;
const TYPED_I64_MATCH: u64 = BASE + 0x208;
const TYPED_F32: f32 = 3.5;
const TYPED_F32_MATCH: u64 = BASE + 0x218;
const TYPED_F64: f64 = -0.5;
const TYPED_F64_MATCH: u64 = BASE + 0x220;
const TYPED_U16_BE: u16 = 0x1234;
const TYPED_U16_BE_MATCH: u64 = BASE + 0x228;
const UTF16_MATCH: u64 = BASE + 0x230;

#[derive(Clone, Copy)]
enum MemoryMetadataFixture {
    Complete,
    Missing,
    Partial,
    Unusable,
}

fn fixture() -> Vec<u8> {
    coverage_fixture(MemoryMetadataFixture::Partial)
}

fn coverage_fixture(metadata: MemoryMetadataFixture) -> Vec<u8> {
    dump_bytes(metadata, &[("C:\\dev\\fixture.exe", BASE, 0x2000)])
}

fn ambiguous_module_fixture() -> Vec<u8> {
    dump_bytes(
        MemoryMetadataFixture::Partial,
        &[("C:\\dev\\fixture.exe", BASE, 0x2000), ("C:\\other\\fixture.exe", BASE + 0x3000, 0x1000)],
    )
}

fn dump_bytes(metadata: MemoryMetadataFixture, modules: &[(&str, u64, u64)]) -> Vec<u8> {
    let mut memory_bytes = vec![0_u8; 0x3000];
    memory_bytes[0x100..0x108].copy_from_slice(CANARY);
    memory_bytes[0x0ffc..0x1004].copy_from_slice(CANARY);
    memory_bytes[0x2100..0x2108].copy_from_slice(CANARY);
    memory_bytes[0x200..0x204].copy_from_slice(&TYPED_U32.to_le_bytes());
    memory_bytes[0x208..0x210].copy_from_slice(&TYPED_I64.to_le_bytes());
    memory_bytes[0x218..0x21c].copy_from_slice(&TYPED_F32.to_le_bytes());
    memory_bytes[0x220..0x228].copy_from_slice(&TYPED_F64.to_le_bytes());
    memory_bytes[0x228..0x22a].copy_from_slice(&TYPED_U16_BE.to_be_bytes());
    for (index, byte) in CANARY.iter().enumerate() {
        memory_bytes[0x230 + index * 2] = *byte;
    }

    let endian = Endian::Little;
    let module_names = modules.iter().map(|(name, _, _)| DumpString::new(name, endian)).collect::<Vec<_>>();
    let module_entries = modules
        .iter()
        .zip(&module_names)
        .map(|((_, base, size), name)| Module::new(endian, *base, *size as u32, name, 0x65aa_5511, 0, None))
        .collect::<Vec<_>>();
    let memory = Memory::with_section(Section::with_endian(endian).append_bytes(&memory_bytes), BASE);
    let system = SystemInfo::new(endian).set_processor_architecture(9).set_platform_id(2);

    let mut dump = SynthMinidump::new().add_system_info(system);
    for name in module_names {
        dump = dump.add(name);
    }
    for module in module_entries {
        dump = dump.add_module(module);
    }
    let dump = dump.add_memory64(memory);
    let dump = match metadata {
        MemoryMetadataFixture::Complete => dump
            .add_memory_info(memory_info(endian, BASE, 0x2000, 0x04))
            .add_memory_info(memory_info(endian, BASE + 0x2000, 0x1000, 0x01)),
        MemoryMetadataFixture::Missing => dump,
        MemoryMetadataFixture::Partial => dump
            .add_memory_info(memory_info(endian, BASE, 0x2000, 0x04))
            .add_memory_info(memory_info(endian, BASE + 0x2000, 0x1000, 0x01))
            .add_memory_info(memory_info(endian, BASE + 0x3000, 0x1000, 0x04)),
        MemoryMetadataFixture::Unusable => dump.add_stream(SimpleStream {
            stream_type: 16,
            section: Section::with_endian(endian).D32(0),
        }),
    };
    dump.finish().expect("synthetic minidump labels resolve")
}

fn memory_info(endian: Endian, base: u64, size: u64, protection: u32) -> MemoryInfo {
    MemoryInfo::new(endian, base, base, protection, size, 0x1000, protection, 0x0002_0000)
}

fn oversized_capture_fixture(segment_count: usize) -> Vec<u8> {
    let endian = Endian::Little;
    let system = SystemInfo::new(endian).set_processor_architecture(9).set_platform_id(2);
    let mut dump = SynthMinidump::new().add_system_info(system);
    for index in 0..segment_count {
        let address = BASE + (index as u64) * 0x10;
        let memory = Memory::with_section(Section::with_endian(endian).append_bytes(&[0_u8]), address);
        dump = dump.add_memory64(memory);
    }
    dump.finish().expect("synthetic minidump labels resolve")
}

fn canary_text() -> &'static str {
    std::str::from_utf8(CANARY).expect("the fixture canary is ASCII")
}

fn pattern(tag: &str, value: PatternValue, alignment: u64) -> PatternSpec {
    PatternSpec { tag: tag.to_owned(), value, alignment }
}

fn utf8(text: &str) -> PatternValue {
    PatternValue::Utf8 { text: text.to_owned() }
}

fn int_value(number: &str, width: u32, signed: bool, endian: Endianness) -> PatternValue {
    PatternValue::Int { number: number.to_owned(), width, signed, endian }
}

fn float32(number: &str, endian: Endianness) -> PatternValue {
    let parsed = match number.parse::<f32>() {
        Ok(value) if value.is_nan() => ParsedFloat::NotANumber,
        Ok(value) => ParsedFloat::Bits(value.to_bits() as u64),
        Err(error) => ParsedFloat::Invalid(error.to_string()),
    };
    PatternValue::Float { number: number.to_owned(), width: 32, endian, parsed }
}

fn float64(number: &str, endian: Endianness) -> PatternValue {
    let parsed = match number.parse::<f64>() {
        Ok(value) if value.is_nan() => ParsedFloat::NotANumber,
        Ok(value) => ParsedFloat::Bits(value.to_bits()),
        Err(error) => ParsedFloat::Invalid(error.to_string()),
    };
    PatternValue::Float { number: number.to_owned(), width: 64, endian, parsed }
}

fn masked(bytes_hex: &str, mask_hex: &str) -> PatternValue {
    PatternValue::Masked { bytes_hex: bytes_hex.to_owned(), mask_hex: mask_hex.to_owned() }
}

fn spec(schema: u32, patterns: Vec<PatternSpec>, max_matches: usize) -> ScanSpec {
    ScanSpec { schema, patterns, scope: None, max_matches }
}

fn no_scope() -> ScopeSpec {
    ScopeSpec { modules: None, regions: None, ranges: None, protections: None, types: None }
}

fn modules_scope(names: &[&str]) -> ScopeSpec {
    ScopeSpec { modules: Some(names.iter().map(|name| name.to_string()).collect()), ..no_scope() }
}

fn range(start: &str, length: &str) -> AddressRangeSpec {
    AddressRangeSpec { start: start.to_owned(), length: length.to_owned() }
}

/// Two differently tagged patterns describing the same canary bytes.
fn canary_spec(max_matches: usize, scope: Option<ScopeSpec>) -> ScanSpec {
    ScanSpec {
        schema: 2,
        patterns: vec![pattern("canary-a", utf8(canary_text()), 1), pattern("canary-b", utf8(canary_text()), 1)],
        scope,
        max_matches,
    }
}

fn addresses(report: &ScanReport) -> Vec<u64> {
    report.matches.iter().map(|found| found.address.0).collect()
}

fn fixture_source() -> MinidumpSource {
    MinidumpSource::open(&fixture()).unwrap()
}

#[test]
fn minidump_reports_modules_regions_and_partial_coverage() {
    let source = fixture_source();
    assert_eq!(source.info().platform, "windows");
    assert_eq!(source.info().architecture, "x86_64");
    assert_eq!(source.info().fingerprint.len(), 64);

    let process = source.open_process("process:0").unwrap();
    assert_eq!(process.regions().len(), 3);
    assert_eq!(process.modules().len(), 1);
    assert!(process.modules()[0].name.ends_with("fixture.exe"));
    assert_eq!(process.modules()[0].base.0, BASE);
    assert_eq!(process.regions()[0].protection, "read | write");
    assert_eq!(process.regions()[0].native_protection, "page_readwrite");
    assert_eq!(process.regions()[1].protection, "none");
    assert_eq!(process.regions()[1].native_protection, "page_noaccess");
    assert_eq!(process.regions()[0].kind, "private");
    assert_eq!(process.regions()[0].captured_bytes, Some(0x2000));

    let coverage = process.coverage();
    assert_eq!(coverage.expected_readable_bytes, 0x3000);
    assert_eq!(coverage.captured_readable_bytes, 0x2000);
    assert_eq!(coverage.unavailable_readable_bytes, 0x1000);
    assert!(coverage.metadata_complete);
    assert!(!coverage.coverage_complete);
    assert_eq!(coverage.limitations, [CoverageLimitation::KnownReadableBytesMissing]);
}

#[test]
fn oversized_captured_segment_count_fails_closed_instead_of_hanging() {
    let error = MinidumpSource::open(&oversized_capture_fixture(MAX_CAPTURED_SEGMENTS + 1)).unwrap_err();
    assert_eq!(error.code(), "SOURCE_TOO_LARGE");
    assert!(matches!(error, Error::SourceTooLarge(_)));
}

#[test]
fn coverage_limitations_distinguish_missing_unusable_and_complete_metadata() {
    let cases = [
        (
            "missing",
            MemoryMetadataFixture::Missing,
            vec![CoverageLimitation::MemoryMetadataMissing, CoverageLimitation::ExpectedReadableScopeUnproven],
            false,
        ),
        (
            "unusable",
            MemoryMetadataFixture::Unusable,
            vec![CoverageLimitation::MemoryMetadataUnusable, CoverageLimitation::ExpectedReadableScopeUnproven],
            false,
        ),
        ("complete", MemoryMetadataFixture::Complete, vec![], true),
    ];

    for (name, metadata, expected_limitations, expected_complete) in cases {
        let source = MinidumpSource::open(&coverage_fixture(metadata)).unwrap();
        let process = source.open_process("process:0").unwrap();
        let coverage = process.coverage();

        assert_eq!(coverage.unavailable_readable_bytes, 0, "case {name}");
        assert_eq!(coverage.coverage_complete, expected_complete, "case {name}");
        assert_eq!(coverage.limitations, expected_limitations, "case {name}");
        assert!(coverage.limitations.len() <= membridge::source::MAX_COVERAGE_LIMITATIONS);
    }

    assert_eq!(membridge::source::MAX_COVERAGE_LIMITATIONS, 6);
}

#[test]
fn exact_scan_finds_boundary_matches_and_skips_noaccess_memory() {
    let source = fixture_source();
    let process = source.open_process("process:0").unwrap();

    let report = scan(process, &canary_spec(100, None)).unwrap();
    assert!(report.scan_complete);
    assert_eq!(report.terminal_reason, "exhausted_scope");
    assert_eq!(report.matches.len(), 2);
    assert_eq!(report.matches[0].address.0, FIRST_MATCH);
    assert_eq!(report.matches[1].address.0, BOUNDARY_MATCH);
    assert_eq!(report.matches[0].tags, ["canary-a", "canary-b"]);
    assert!(report.matches.iter().all(|found| found.address.0 != NOACCESS_DECOY));
    assert_eq!(report.matches[0].module.as_ref().unwrap().rva.0, 0x100);

    assert!(report.scope.applied.is_empty());
    assert_eq!(report.scope.interval_count, 0);
    assert_eq!(report.scope.selected_bytes, None);
    assert_eq!(report.scope.scanned_bytes, 0x2000);
}

#[test]
fn match_quota_is_explicit_and_deterministic() {
    let source = fixture_source();
    let process = source.open_process("process:0").unwrap();

    let report = scan(process, &canary_spec(1, None)).unwrap();
    assert!(!report.scan_complete);
    assert_eq!(report.terminal_reason, "match_limit");
    assert_eq!(report.matches.len(), 1);
    assert_eq!(report.matches[0].address.0, FIRST_MATCH);
    assert_eq!(report.next_address.unwrap().0, BOUNDARY_MATCH);
}

#[test]
fn typed_patterns_encode_width_signedness_and_byte_order() {
    let source = fixture_source();
    let process = source.open_process("process:0").unwrap();

    let report = scan(
        process,
        &spec(
            2,
            vec![
                pattern("canary.utf8", utf8(canary_text()), 1),
                pattern("canary.utf16le", PatternValue::Utf16le { text: canary_text().to_owned() }, 2),
                pattern("u32.le", int_value("0xdeadbeef", 32, false, Endianness::Little), 4),
                pattern("u32.be", int_value("0xdeadbeef", 32, false, Endianness::Big), 1),
                pattern("i64.le", int_value("-2", 64, true, Endianness::Little), 8),
                pattern("u16.be", int_value("4660", 16, false, Endianness::Big), 1),
                pattern("f32.le", float32("3.5", Endianness::Little), 4),
                pattern("f64.le", float64("-0.5", Endianness::Little), 8),
            ],
            100,
        ),
    )
    .unwrap();

    assert!(report.scan_complete);
    assert_eq!(report.pattern_count, 8);
    let found = report.matches.iter().map(|found| (found.address.0, found.tags.join(","), found.length)).collect::<Vec<_>>();
    assert_eq!(
        found,
        vec![
            (FIRST_MATCH, "canary.utf8".to_owned(), CANARY.len()),
            (TYPED_U32_MATCH, "u32.le".to_owned(), 4),
            (TYPED_I64_MATCH, "i64.le".to_owned(), 8),
            (TYPED_F32_MATCH, "f32.le".to_owned(), 4),
            (TYPED_F64_MATCH, "f64.le".to_owned(), 8),
            (TYPED_U16_BE_MATCH, "u16.be".to_owned(), 2),
            (UTF16_MATCH, "canary.utf16le".to_owned(), CANARY.len() * 2),
            (BOUNDARY_MATCH, "canary.utf8".to_owned(), CANARY.len()),
        ]
    );

    assert_eq!(TYPED_U32.to_be_bytes(), [0xde, 0xad, 0xbe, 0xef]);
    assert_eq!(TYPED_I64.to_le_bytes()[0], 0xfe);
    assert_eq!(TYPED_F32.to_le_bytes(), [0x00, 0x00, 0x60, 0x40]);
    assert_eq!(TYPED_F64.to_le_bytes()[7], 0xbf);
    assert_eq!(TYPED_U16_BE.to_be_bytes(), [0x12, 0x34]);
}

#[test]
fn masked_patterns_match_known_bytes_and_nibbles() {
    let source = fixture_source();
    let process = source.open_process("process:0").unwrap();

    let report = scan(
        process,
        &spec(
            2,
            vec![
                pattern("canary.bytes-masked", masked("4d42000000004521", "ffff00000000ffff"), 1),
                pattern("canary.nibble-masked", masked("4d42500000004521", "fffff0000000ffff"), 1),
            ],
            100,
        ),
    )
    .unwrap();

    assert!(report.scan_complete);
    assert_eq!(report.matches.len(), 2);
    assert_eq!(report.matches[0].address.0, FIRST_MATCH);
    assert_eq!(report.matches[1].address.0, BOUNDARY_MATCH);
    for found in &report.matches {
        assert_eq!(found.length, CANARY.len());
        assert_eq!(found.tags, ["canary.bytes-masked", "canary.nibble-masked"], "both masks describe the same eight canary bytes");
    }
    assert!(report.matches.iter().all(|found| found.address.0 != UTF16_MATCH));
}

#[test]
fn typed_and_masked_specifications_reject_ambiguous_input() {
    let source = fixture_source();
    let process = source.open_process("process:0").unwrap();

    let one = |value: PatternValue| vec![pattern("a", value, 1)];
    let cases: [(&str, ScanSpec); 9] = [
        ("schema", spec(1, one(utf8("x")), 100_000)),
        ("int width", spec(2, one(int_value("1", 24, false, Endianness::Little)), 100_000)),
        ("unsigned range", spec(2, one(int_value("256", 8, false, Endianness::Little)), 100_000)),
        ("signed range", spec(2, one(int_value("128", 8, true, Endianness::Little)), 100_000)),
        ("unsigned negative", spec(2, one(int_value("-1", 32, false, Endianness::Little)), 100_000)),
        ("float nan", spec(2, one(float32("NaN", Endianness::Little)), 100_000)),
        ("empty text", spec(2, one(utf8("")), 100_000)),
        ("mask length", spec(2, one(masked("4d42", "ff")), 100_000)),
        ("mask has no known byte", spec(2, one(masked("4040", "f0f0")), 100_000)),
    ];

    for (name, case) in cases {
        let error = scan(process, &case).unwrap_err();
        assert_eq!(error.code(), "INVALID_SCAN_SPEC", "case {name}");
    }

    let error = scan(process, &spec(2, one(masked("4d42", "ff00")), 100_000)).unwrap_err();
    assert_eq!(error.code(), "INVALID_SCAN_SPEC");
    assert!(error.message().contains("outside its mask"));
}

#[test]
fn scope_selectors_intersect_deterministically() {
    let source = fixture_source();
    let process = source.open_process("process:0").unwrap();

    let module = scan(process, &canary_spec(100, Some(modules_scope(&["fixture.exe"])))).unwrap();
    assert_eq!(module.scope.applied, ["modules"]);
    assert_eq!(module.scope.interval_count, 1);
    assert_eq!(module.scope.selected_bytes, Some(0x2000));
    assert_eq!(module.scope.scanned_bytes, 0x2000);
    assert_eq!(addresses(&module), vec![FIRST_MATCH, BOUNDARY_MATCH]);

    let path = scan(process, &canary_spec(100, Some(modules_scope(&["C:\\dev\\fixture.exe"])))).unwrap();
    assert_eq!(addresses(&path), vec![FIRST_MATCH, BOUNDARY_MATCH]);

    let captured_region = scan(process, &canary_spec(100, Some(ScopeSpec { regions: Some(vec![0]), ..no_scope() }))).unwrap();
    assert_eq!(addresses(&captured_region), vec![FIRST_MATCH, BOUNDARY_MATCH]);
    let missing_region = scan(process, &canary_spec(100, Some(ScopeSpec { regions: Some(vec![2]), ..no_scope() }))).unwrap();
    assert!(missing_region.scan_complete);
    assert!(addresses(&missing_region).is_empty());
    assert_eq!(missing_region.scope.selected_bytes, Some(0x1000));
    assert_eq!(missing_region.scope.scanned_bytes, 0);

    let partial_range = scan(
        process,
        &canary_spec(100, Some(ScopeSpec { ranges: Some(vec![range("0x140001000", "0x1000")]), ..no_scope() })),
    )
    .unwrap();
    assert!(partial_range.scan_complete);
    assert!(addresses(&partial_range).is_empty());
    assert_eq!(partial_range.scope.scanned_bytes, 0x1000);

    let overlapping = scan(
        process,
        &canary_spec(
            100,
            Some(ScopeSpec { ranges: Some(vec![range("0x140000000", "0x1000"), range("0x140000800", "0x1000")]), ..no_scope() }),
        ),
    )
    .unwrap();
    assert_eq!(overlapping.scope.interval_count, 1);
    assert_eq!(overlapping.scope.selected_bytes, Some(0x1800));
    assert_eq!(addresses(&overlapping), vec![FIRST_MATCH, BOUNDARY_MATCH]);

    let intersection = scan(
        process,
        &canary_spec(
            100,
            Some(ScopeSpec {
                modules: Some(vec!["fixture.exe".to_owned()]),
                ranges: Some(vec![range("0x140000000", "0x200")]),
                ..no_scope()
            }),
        ),
    )
    .unwrap();
    assert_eq!(intersection.scope.applied, ["modules", "ranges"]);
    assert_eq!(intersection.scope.selected_bytes, Some(0x200));
    assert_eq!(addresses(&intersection), vec![FIRST_MATCH]);

    let writable = scan(process, &canary_spec(100, Some(ScopeSpec { protections: Some(vec!["write".to_owned()]), ..no_scope() }))).unwrap();
    assert_eq!(writable.scope.selected_bytes, Some(0x3000));
    assert_eq!(addresses(&writable), vec![FIRST_MATCH, BOUNDARY_MATCH]);
    let executable = scan(process, &canary_spec(100, Some(ScopeSpec { protections: Some(vec!["execute".to_owned()]), ..no_scope() }))).unwrap();
    assert_eq!(executable.scope.selected_bytes, Some(0));
    assert!(addresses(&executable).is_empty());
    let private = scan(process, &canary_spec(100, Some(ScopeSpec { types: Some(vec!["private".to_owned()]), ..no_scope() }))).unwrap();
    assert_eq!(addresses(&private), vec![FIRST_MATCH, BOUNDARY_MATCH]);
    let image = scan(process, &canary_spec(100, Some(ScopeSpec { types: Some(vec!["image".to_owned()]), ..no_scope() }))).unwrap();
    assert!(addresses(&image).is_empty());
}

#[test]
fn scoped_match_limit_resumes_in_scope_order() {
    let source = fixture_source();
    let process = source.open_process("process:0").unwrap();

    let report = scan(process, &canary_spec(1, Some(modules_scope(&["fixture.exe"])))).unwrap();
    assert!(!report.scan_complete);
    assert_eq!(report.terminal_reason, "match_limit");
    assert_eq!(addresses(&report), vec![FIRST_MATCH]);
    assert_eq!(report.next_address.unwrap().0, BOUNDARY_MATCH);
}

#[test]
fn unresolvable_scopes_fail_with_stable_codes() {
    let source = fixture_source();
    let process = source.open_process("process:0").unwrap();

    let cases: [(&str, ScopeSpec, &str); 7] = [
        ("unknown module", modules_scope(&["absent.dll"]), "UNRESOLVED_SCOPE"),
        ("unknown region", ScopeSpec { regions: Some(vec![9]), ..no_scope() }, "UNRESOLVED_SCOPE"),
        ("unknown protection", ScopeSpec { protections: Some(vec!["page_readwriteish".to_owned()]), ..no_scope() }, "INVALID_SCAN_SPEC"),
        ("unknown type", ScopeSpec { types: Some(vec!["stack".to_owned()]), ..no_scope() }, "INVALID_SCAN_SPEC"),
        ("empty category", ScopeSpec { modules: Some(vec![]), ..no_scope() }, "INVALID_SCAN_SPEC"),
        ("empty scope", no_scope(), "INVALID_SCAN_SPEC"),
        ("zero-length range", ScopeSpec { ranges: Some(vec![range("0x140000000", "0")]), ..no_scope() }, "INVALID_SCAN_SPEC"),
    ];

    for (name, scope, code) in cases {
        let error = scan(process, &canary_spec(100, Some(scope))).unwrap_err();
        assert_eq!(error.code(), code, "case {name}");
    }

    let bare_source = MinidumpSource::open(&coverage_fixture(MemoryMetadataFixture::Missing)).unwrap();
    let bare = bare_source.open_process("process:0").unwrap();
    for scope in [
        ScopeSpec { protections: Some(vec!["page_readwrite".to_owned()]), ..no_scope() },
        ScopeSpec { types: Some(vec!["private".to_owned()]), ..no_scope() },
    ] {
        let error = scan(bare, &canary_spec(100, Some(scope))).unwrap_err();
        assert_eq!(error.code(), "SCOPE_METADATA_UNAVAILABLE");
        assert!(matches!(error, Error::ScopeMetadataUnavailable(_)));
    }

    let ambiguous_source = MinidumpSource::open(&ambiguous_module_fixture()).unwrap();
    let ambiguous = ambiguous_source.open_process("process:0").unwrap();
    let error = scan(ambiguous, &canary_spec(100, Some(modules_scope(&["fixture.exe"])))).unwrap_err();
    assert_eq!(error.code(), "UNRESOLVED_SCOPE");
    assert!(error.message().contains("matches 2 captured modules"));
    let resolved = scan(ambiguous, &canary_spec(100, Some(modules_scope(&["C:\\other\\fixture.exe"])))).unwrap();
    assert_eq!(resolved.scope.selected_bytes, Some(0x1000));
    assert!(addresses(&resolved).is_empty());
}

#[test]
fn bounded_read_reports_gaps_without_fabricating_bytes() {
    let source = fixture_source();
    let process = source.open_process("process:0").unwrap();

    let segments = process.read(BASE + 0x2ff0, 0x20).unwrap();
    assert_eq!(segments.len(), 1);
    assert_eq!(segments[0].address, BASE + 0x2ff0);
    assert_eq!(segments[0].bytes.len(), 0x10);
}

#[test]
fn chunked_spans_find_boundary_patterns_exactly_once() {
    const CHUNKED_BASE: u64 = 0x0000_0002_0000_0000;
    const CHUNK: usize = 4096;

    let mut bytes = vec![0_u8; CHUNK * 3];
    bytes[CHUNK - 4..CHUNK + 4].copy_from_slice(b"STRADDLE");
    bytes[CHUNK - 16..CHUNK - 8].copy_from_slice(b"INCARRY!");
    bytes[CHUNK + 64..CHUNK + 72].copy_from_slice(b"INTERIOR");

    let scan_spec = spec(
        2,
        vec![pattern("straddle", utf8("STRADDLE"), 1), pattern("carry", utf8("INCARRY!"), 1), pattern("interior", utf8("INTERIOR"), 1)],
        100,
    );
    let patterns = membridge::scan::compile(&scan_spec).unwrap();
    let overlap = patterns.iter().map(|pattern| pattern.bytes.len()).max().unwrap() - 1;
    let mut session = ScanSession::new(patterns, scan_spec.max_matches).unwrap();
    let mut offset = 0;
    while offset < bytes.len() {
        let carry = if offset == 0 { 0 } else { overlap.min(offset) };
        let end = (offset + CHUNK).min(bytes.len());
        let base = CHUNKED_BASE + (offset - carry) as u64;
        assert!(session.accepts_chunk(base, carry));
        session.feed(base, &bytes[offset - carry..end], carry, end == bytes.len());
        offset = end;
    }
    let outcome = session.finish();

    assert_eq!(
        outcome.matches.iter().map(|found| (found.address - CHUNKED_BASE, found.tags[0].clone())).collect::<Vec<_>>(),
        vec![
            (CHUNK as u64 - 16, "carry".to_owned()),
            (CHUNK as u64 - 4, "straddle".to_owned()),
            (CHUNK as u64 + 64, "interior".to_owned()),
        ]
    );
    assert_eq!(outcome.scanned_bytes, (CHUNK * 3) as u64);
}

fn cli_command() -> clap::Command {
    let mut command = clap::Command::new(NAME).version(VERSION).about(ABOUT).subcommand_required(true);
    for (name, about) in SUBCOMMANDS {
        command = command.subcommand(clap::Command::new(name).about(about));
    }
    command
}

#[test]
fn cli_help_and_version_flags_exit_successfully() {
    let command = cli_command();
    let version = command.render_version();
    assert_eq!(version, format!("membridge {}\n", VERSION));
    assert_eq!(membridge::cli::version_text(), version);

    let help = cli_command().render_help().to_string();
    assert!(help.contains("Usage:"));
    assert!(help.contains("<COMMAND>"));
    assert!(help.contains("Commands:"));
}

#[test]
fn non_windows_x64_dumps_and_dumps_without_memory_are_refused() {
    let endian = Endian::Little;
    let x86 = SystemInfo::new(endian).set_processor_architecture(0).set_platform_id(2);
    let memory = Memory::with_section(Section::with_endian(endian).append_bytes(&[0_u8; 16]), BASE);
    let dump = SynthMinidump::new().add_system_info(x86).add_memory64(memory).finish().unwrap();
    let error = MinidumpSource::open(&dump).unwrap_err();
    assert_eq!(error.code(), "UNSUPPORTED_TARGET");

    let system = SystemInfo::new(endian).set_processor_architecture(9).set_platform_id(2);
    let dump = SynthMinidump::new().add_system_info(system).finish().unwrap();
    let error = MinidumpSource::open(&dump).unwrap_err();
    assert_eq!(error.code(), "MISSING_MEMORY");
}

#[test]
fn fingerprints_are_the_blake3_digest_of_the_dump() {
    let bytes = fixture();
    let source = MinidumpSource::open(&bytes).unwrap();
    assert_eq!(source.info().fingerprint, blake3::hash(&bytes).to_hex().to_string());
    assert_eq!(source.open_process("process:1").unwrap_err().code(), "INVALID_ARGUMENT");
    let module_name = &source.process.modules[0].name;
    let shown = std::path::Path::new(module_name).file_name().and_then(|name| name.to_str()).unwrap();
    assert_eq!(source.process.process.display_name, shown);
    assert_eq!(source.process.modules[0].identity.as_deref(), Some("65aa5511"));
}

#[test]
fn hex_patterns_decode_exactly() {
    let source = fixture_source();
    let process = source.open_process("process:0").unwrap();
    let report = scan(process, &spec(2, vec![pattern("hex", PatternValue::Bytes { bytes_hex: "4D4252494447452b".to_owned() }, 1)], 100)).unwrap();
    assert!(report.matches.is_empty());
    let report = scan(process, &spec(2, vec![pattern("hex", PatternValue::Bytes { bytes_hex: "4D42524944474521".to_owned() }, 1)], 100)).unwrap();
    assert_eq!(addresses(&report), vec![FIRST_MATCH, BOUNDARY_MATCH]);
    let error = scan(process, &spec(2, vec![pattern("hex", PatternValue::Bytes { bytes_hex: "4D4".to_owned() }, 1)], 100)).unwrap_err();
    assert_eq!(error.code(), "INVALID_SCAN_SPEC");
}
