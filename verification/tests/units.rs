use membridge::capture::{capture_minidump, filetime_to_unix_millis, staging_name, CaptureWarning};
use membridge::cli::{ascii_view, check_read_length, parse_address, read_data, version_text, CommandKind};
use membridge::protocol::{Failure, Success, SCHEMA_VERSION};
use membridge::scan::interval::{covered_bytes, intersect, merge, Interval};
use membridge::scan::selector::{eq_ignore_ascii_case, protection_token_list};
use membridge::scan::session::ScanSession;
use membridge::scan::{compile, PatternSpec, PatternValue, ScanSpec};
use membridge::skill::{install_report, skill_destination, SKILL_FILES};
use membridge::source::hostfmt::{image_extent, mach_native_protection, page_type_name, pe_timestamp};
use membridge::source::live::{
    live_coverage, live_process_info, merge_readable_runs, normalize_regions, page_step, read_ranges, refused_skip,
    validate_regions, LiveSource, RawRegion, Sweep, TargetIdentity,
};
use membridge::source::minidump::hex_text;
use membridge::source::procfs::{
    modules_from_maps, parse_boot_seconds, parse_maps_line, parse_maps_module, parse_start_ticks, start_time_unix_ms,
};
use membridge::source::{
    windows_native_protection, windows_protection, Access, Address, CoverageLimitation, MemoryRegion, ModuleInfo,
    ReadSegment,
};
use membridge::Error;

fn interval(start: u64, end: u64) -> Interval {
    Interval { start, end }
}

fn region(id: usize, base: u64, size: u64, readable: bool) -> MemoryRegion {
    MemoryRegion {
        id,
        base: Address(base),
        size,
        captured_bytes: None,
        state: "committed".to_owned(),
        protection: "read".to_owned(),
        native_protection: "r--p".to_owned(),
        kind: "private".to_owned(),
        committed: true,
        readable,
    }
}

#[test]
fn merging_joins_overlapping_and_touching_intervals_and_drops_empty_ones() {
    let merged = merge(&vec![interval(30, 40), interval(0, 10), interval(10, 15), interval(12, 20), interval(50, 50)]);
    assert_eq!(merged, vec![interval(0, 20), interval(30, 40)]);
    assert_eq!(covered_bytes(&merged), Some(30));
}

#[test]
fn intersecting_keeps_only_common_addresses() {
    let left = vec![interval(0, 20), interval(30, 40)];
    let right = vec![interval(10, 35), interval(38, 60)];
    assert_eq!(intersect(&left, &right), vec![interval(10, 20), interval(30, 35), interval(38, 40)]);
    assert_eq!(intersect(&left, &vec![]), vec![]);
}

#[test]
fn covered_bytes_counts_every_covered_address_once() {
    assert_eq!(covered_bytes(&vec![interval(0, u64::MAX)]), Some(u64::MAX));
    assert_eq!(covered_bytes(&vec![interval(0, 10), interval(20, 25)]), Some(15));
}

#[test]
fn module_selectors_ignore_ascii_case_and_protection_tokens_are_trimmed() {
    assert!(eq_ignore_ascii_case("FIXTURE.exe", "fixture.EXE"));
    assert!(!eq_ignore_ascii_case("fixture.exe", "fixture.ex"));
    let tokens: Vec<String> =
        protection_token_list(" read |write|  execute ").iter().map(|token| token.iter().collect()).collect();
    assert_eq!(tokens, ["read", "write", "execute"]);
}

#[test]
fn renders_addresses_hex_and_protections() {
    assert_eq!(Address(0x1400_0100).render(), "0x0000000014000100");
    assert_eq!(hex_text(&[0x00, 0xab, 0x10]), "00ab10");
    assert_eq!(windows_native_protection(0x04), "page_readwrite");
    assert_eq!(windows_native_protection(0x104), "page_readwrite | page_guard");
    assert_eq!(windows_native_protection(0x1000), "0x1000");
    assert_eq!(windows_native_protection(0), "none");
    let (access, native) = windows_protection(0x20);
    assert_eq!(access, Access { read: true, write: false, execute: true });
    assert_eq!(native, "page_execute_read");
    assert_eq!(access.render(), "read | execute");
    assert_eq!(Access::none().render(), "none");
    assert_eq!(mach_native_protection(3, 7), "rw-/rwx");
    assert_eq!(page_type_name(0x40000), "mapped");
    assert_eq!(page_type_name(1), "unknown");
}

#[test]
fn error_codes_messages_and_retryability_are_stable() {
    let error = Error::ProcessNotFound(42);
    assert_eq!(error.code(), "PROCESS_NOT_FOUND");
    assert_eq!(error.message(), "process 42 was not found");
    assert!(!error.is_retryable());
    let io = Error::Io { path: "a.dmp".to_owned(), message: "denied".to_owned() };
    assert!(io.is_retryable());
    assert_eq!(io.message(), "failed to read a.dmp: denied");
    let failure = Failure::from_error("scan", &io);
    assert_eq!(failure.schema, SCHEMA_VERSION);
    assert!(!failure.ok);
    assert_eq!(failure.command, "scan");
    assert_eq!(failure.error.code, "IO_ERROR");
    assert!(failure.error.retryable);
    let success = Success::new("inspect", 7);
    assert!(success.ok);
    assert_eq!(success.schema, 4);
    assert_eq!(success.data, 7);
}

#[test]
fn garbage_is_not_a_minidump() {
    let error = membridge::source::MinidumpSource::open(b"not a minidump").unwrap_err();
    assert_eq!(error.code(), "INVALID_MINIDUMP");
    assert!(matches!(error, Error::Minidump(_)));
}

#[test]
fn capture_is_unsupported_without_a_windows_host() {
    let error = capture_minidump(4, "out.dmp", false).unwrap_err();
    assert_eq!(error.code(), "UNSUPPORTED_HOST");
    assert_eq!(filetime_to_unix_millis(0x01d9_0000, 0), Some(((0x01d9_0000_u64 << 32) - 116_444_736_000_000_000) / 10_000));
    assert_eq!(filetime_to_unix_millis(0, 5), None);
    assert_eq!(staging_name(12, Some("x.dmp")), ".membridge-capture-12-x.dmp");
    assert_eq!(staging_name(12, None), ".membridge-capture-12-capture.dmp");
    assert_eq!(CaptureWarning::ProcessAlreadyExited.code(), "PROCESS_ALREADY_EXITED");
}

#[test]
fn command_names_addresses_and_reads() {
    assert_eq!(CommandKind::SkillInstall.name(), "skill.install");
    assert_eq!(CommandKind::CaptureMinidump.name(), "capture.minidump");
    assert_eq!(parse_address("0x10"), Ok(16));
    assert_eq!(parse_address("0X10"), Ok(16));
    assert_eq!(parse_address("10"), Ok(10));
    assert!(parse_address("0xg").is_err());
    assert!(parse_address("").is_err());
    assert_eq!(ascii_view(b"A \x00~\x7f"), "A .~.");
    assert!(check_read_length(1).is_ok());
    assert_eq!(check_read_length(0).unwrap_err().code(), "INVALID_ARGUMENT");
    assert_eq!(check_read_length(65_537).unwrap_err().code(), "INVALID_ARGUMENT");
    let segments = vec![ReadSegment { address: 0x10, bytes: b"AB".to_vec() }];
    let data = read_data("f".to_owned(), "process:0".to_owned(), 0x10, 4, &segments);
    assert_eq!(data.returned_bytes, 2);
    assert!(!data.complete);
    assert_eq!(data.segments[0].bytes_hex, "4142");
    assert_eq!(data.segments[0].ascii, "AB");
    assert_eq!(version_text(), "membridge 0.1.0-alpha.4\n");
}

#[test]
fn skill_destination_needs_an_absolute_home() {
    assert_eq!(skill_destination(Some("/home/u"), true, '/').unwrap(), "/home/u/.agents/skills/membridge");
    assert_eq!(skill_destination(Some("/home/u/"), true, '/').unwrap(), "/home/u/.agents/skills/membridge");
    assert_eq!(skill_destination(None, false, '/').unwrap_err().code(), "HOME_DIRECTORY_UNAVAILABLE");
    let relative = skill_destination(Some("relative/home"), false, '/').unwrap_err();
    assert_eq!(relative.code(), "HOME_DIRECTORY_UNAVAILABLE");
    assert!(relative.message().contains("not absolute"));
    let report = install_report("/d".to_owned(), true);
    assert_eq!(report.files, SKILL_FILES);
    assert!(report.replaced);
    assert_eq!(report.binary_version, report.skill_version);
}

#[test]
fn live_regions_validate_and_merge_into_runs() {
    let raw = vec![
        RawRegion {
            base: 0x1000,
            size: 0x1000,
            access: Access { read: true, write: true, execute: false },
            native: "rw-p".to_owned(),
            kind: "private",
            state: "committed",
            committed: true,
        },
        RawRegion {
            base: 0x2000,
            size: 0x1000,
            access: Access { read: true, write: false, execute: true },
            native: "r-xp".to_owned(),
            kind: "image",
            state: "committed",
            committed: true,
        },
        RawRegion {
            base: 0x4000,
            size: 0x1000,
            access: Access { read: false, write: false, execute: false },
            native: "---p".to_owned(),
            kind: "private",
            state: "committed",
            committed: true,
        },
    ];
    let regions = normalize_regions(&raw);
    assert_eq!(regions[0].protection, "read | write");
    assert_eq!(regions[1].protection, "read | execute");
    assert_eq!(regions[2].protection, "none");
    assert_eq!(regions[0].captured_bytes, None);
    assert!(!regions[2].readable);
    assert!(validate_regions(&regions).is_ok());
    let runs = merge_readable_runs(&regions).unwrap();
    assert_eq!(runs.len(), 1);
    assert_eq!((runs[0].start, runs[0].end), (0x1000, 0x3000));

    let overlapping = vec![region(0, 0x1000, 0x2000, true), region(1, 0x2000, 0x1000, true)];
    assert_eq!(validate_regions(&overlapping).unwrap_err().code(), "SOURCE_INVARIANT");

    let identity = TargetIdentity { pid: 77, image_path: "/usr/bin/target".to_owned(), start_time_unix_ms: 5 };
    let info = live_process_info(&identity);
    assert_eq!(info.id, "pid:77");
    assert_eq!(info.display_name, "target");
    let source = LiveSource::assemble(&identity, &raw, vec![], "linux", "x86_64", 5).unwrap();
    assert_eq!(source.process.expected_readable_bytes, 0x2000);
    assert_eq!(source.info.kind, "live");
    assert!(!source.info.immutable);
    assert_eq!(source.info.fingerprint.len(), 64);
    assert!(source.open_process("pid:77").is_ok());
    assert_eq!(source.open_process("pid:78").unwrap_err().code(), "INVALID_ARGUMENT");

    let untouched = live_coverage(0x2000, 0, 0, 1, 2);
    assert_eq!(
        untouched.limitations,
        [CoverageLimitation::ReadsNotAttempted, CoverageLimitation::ExpectedReadableScopeUnproven]
    );
    assert!(untouched.metadata_complete);
    let refused = live_coverage(0x2000, 0x2000, 0x10, 1, 2);
    assert_eq!(refused.unavailable_readable_bytes, 0);
    assert_eq!(refused.limitations, [CoverageLimitation::ReadableBytesUnreadable]);
    assert!(!refused.coverage_complete);
}

#[test]
fn sweeps_carry_overlap_and_skip_refused_pages() {
    let mut sweep = Sweep::new(0x1000, 0x3000);
    let want = sweep.want().unwrap();
    assert_eq!(want, 0x2000);
    let step = sweep.advance(want, 0x800, 0x1000, 7);
    let chunk = step.chunk.unwrap();
    assert_eq!((chunk.base, chunk.length, chunk.carry), (0x1000, 0x800, 0));
    assert!(chunk.last_in_run);
    assert_eq!(step.refused, 0x800);
    assert_eq!(sweep.cursor, 0x2000);
    let want = sweep.want().unwrap();
    let step = sweep.advance(want, want, 0x1000, 7);
    assert_eq!(step.keep, 7);
    assert_eq!(sweep.want(), None);
    assert_eq!(refused_skip(0x1800, 0x1000, 0x1900), 0x100);
    assert_eq!(page_step(0x1ff0, 0x1000, 0x100), 0x10);
}

#[test]
fn live_reads_target_only_readable_regions() {
    let regions = vec![region(0, 0x1000, 0x1000, true), region(1, 0x2000, 0x1000, false), region(2, 0x3000, 0x1000, true)];
    assert_eq!(read_ranges(&regions, 0x1800, 0x2000).unwrap(), vec![(0x1800, 0x2000), (0x3000, 0x3800)]);
    assert_eq!(read_ranges(&regions, u64::MAX, 2).unwrap_err().code(), "INVALID_ARGUMENT");
}

#[test]
fn procfs_maps_lines_parse_into_regions_and_modules() {
    let line = "7f0000001000-7f0000003000 r-xp 00000000 08:01 1234 /usr/lib/libc.so.6";
    let region = parse_maps_line(line).unwrap();
    assert_eq!(region.base, 0x7f00_0000_1000);
    assert_eq!(region.size, 0x2000);
    assert_eq!(region.kind, "image");
    assert_eq!(region.native, "r-xp");
    assert!(region.access.read && region.access.execute && !region.access.write);
    assert_eq!(parse_maps_line("7f00-7f00 rw-p 00000000 00:00 0").is_none(), true);
    assert_eq!(parse_maps_line("1000-2000 rw-p 00000000 00:00 0 /memfd:x").unwrap().kind, "mapped");
    assert_eq!(parse_maps_line("1000-2000 rw-p 00000000 00:00 0 [heap]").unwrap().kind, "private");
    assert_eq!(parse_maps_module(line), Some(("/usr/lib/libc.so.6".to_owned(), 0x7f00_0000_1000, 0x7f00_0000_3000, true)));
    assert_eq!(parse_maps_module("1000-2000 rw-p 00000000 00:00 0 [heap]"), None);

    let maps = "2000-3000 r--p 0 08:01 5 /bin/app\n3000-4000 r-xp 0 08:01 5 /bin/app\n1000-1800 r-xp 0 08:01 9 /lib/a.so\n5000-6000 rw-p 0 00:00 0\n";
    let modules = modules_from_maps(maps).unwrap();
    let summary: Vec<(String, u64, u64)> = modules.iter().map(|module: &ModuleInfo| (module.name.clone(), module.base.0, module.size)).collect();
    assert_eq!(summary, vec![("/lib/a.so".to_owned(), 0x1000, 0x800), ("/bin/app".to_owned(), 0x3000, 0x1000)]);

    let stat = "12 (a b) c) S 1 1 1 0 -1 4194560 100 0 0 0 0 0 0 0 20 0 1 0 4242 1000 10";
    assert_eq!(parse_start_ticks(stat), Some(4242));
    assert_eq!(parse_boot_seconds("cpu 1 2\nbtime  1700000000 \nprocesses 5\n"), Some(1_700_000_000));
    assert_eq!(start_time_unix_ms(10, 250, 100), 12_500);
}

#[test]
fn pe_and_mach_o_headers_decode() {
    let mut header = vec![0_u8; 4096];
    header[0] = b'M';
    header[1] = b'Z';
    header[0x3c] = 0x80;
    header[0x80..0x84].copy_from_slice(b"PE\0\0");
    header[0x88..0x8c].copy_from_slice(&0x65aa_5511_u32.to_le_bytes());
    assert_eq!(pe_timestamp(&header), Some(0x65aa_5511));
    header[0x3c] = 0xff;
    header[0x3d] = 0xff;
    assert_eq!(pe_timestamp(&header), None);

    let mut commands = Vec::new();
    let segment = |name: &[u8], address: u64, size: u64| {
        let mut command = vec![0_u8; 72];
        command[0..4].copy_from_slice(&0x19_u32.to_le_bytes());
        command[4..8].copy_from_slice(&72_u32.to_le_bytes());
        command[8..8 + name.len()].copy_from_slice(name);
        command[24..32].copy_from_slice(&address.to_le_bytes());
        command[32..40].copy_from_slice(&size.to_le_bytes());
        command
    };
    commands.extend(segment(b"__PAGEZERO", 0, 0x1_0000_0000));
    commands.extend(segment(b"__TEXT", 0x1_0000_0000, 0x4000));
    commands.extend(segment(b"__DATA", 0x1_0000_4000, 0x1000));
    commands.extend(segment(b"__LINKEDIT", 0x2_0000_0000, 0x1000));
    let mut uuid = vec![0_u8; 24];
    uuid[0..4].copy_from_slice(&0x1b_u32.to_le_bytes());
    uuid[4..8].copy_from_slice(&24_u32.to_le_bytes());
    uuid[8..24].copy_from_slice(&[0xab; 16]);
    commands.extend(uuid);
    let (size, id) = image_extent(&commands, 5);
    assert_eq!(size, 0x5000);
    assert_eq!(id.unwrap(), "ab".repeat(16));
}

#[test]
fn sessions_report_the_least_matches_and_where_the_rest_begin() {
    let spec = ScanSpec {
        schema: 2,
        patterns: vec![PatternSpec { tag: "ab".to_owned(), value: PatternValue::Utf8 { text: "AB".to_owned() }, alignment: 1 }],
        scope: None,
        max_matches: 2,
    };
    let bytes = b"ABxxABxxAB".to_vec();
    let mut small = ScanSession::new(compile(&spec).unwrap(), 2).unwrap();
    small.feed(0x100, &bytes, 0, true);
    let small = small.finish();
    let mut large = ScanSession::new(compile(&spec).unwrap(), 10).unwrap();
    large.feed(0x100, &bytes, 0, true);
    let large = large.finish();
    let small_addresses: Vec<u64> = small.matches.iter().map(|found| found.address).collect();
    let large_addresses: Vec<u64> = large.matches.iter().map(|found| found.address).collect();
    assert_eq!(small_addresses, vec![0x100, 0x104]);
    assert_eq!(large_addresses, vec![0x100, 0x104, 0x108]);
    assert_eq!(small.next_address, Some(0x108));
    assert_eq!(large.next_address, None);
    assert_eq!(small_addresses[..], large_addresses[..2]);
}


#[test]
fn cli_rejects_unavailable_or_relative_user_home() {
    let missing = skill_destination(None, false, '/').unwrap_err();
    assert_eq!(CommandKind::SkillInstall.name(), "skill.install");
    assert_eq!(missing.code(), "HOME_DIRECTORY_UNAVAILABLE");

    let relative = skill_destination(Some("relative/home"), false, '/').unwrap_err();
    assert_eq!(relative.code(), "HOME_DIRECTORY_UNAVAILABLE");
    assert!(relative.message().contains("not absolute"));
}

#[test]
fn capture_minidump_reports_unsupported_host_off_windows() {
    let failure = capture_minidump(4242, "capture.dmp", false).unwrap_err();
    assert_eq!(CommandKind::CaptureMinidump.name(), "capture.minidump");
    assert_eq!(failure.code(), "UNSUPPORTED_HOST");
}

#[test]
fn merging_a_canonical_list_changes_nothing_and_intersection_commutes() {
    let canonical = vec![interval(0, 20), interval(30, 40)];
    assert_eq!(merge(&canonical), canonical);
    let other = vec![interval(10, 35), interval(38, 60)];
    assert_eq!(intersect(&canonical, &other), intersect(&other, &canonical));
}

#[test]
fn touching_readable_regions_form_one_run_in_address_order() {
    let regions = vec![
        region(0, 0x1000, 0x1000, true),
        region(1, 0x2000, 0x1000, true),
        region(2, 0x3000, 0x1000, false),
        region(3, 0x4000, 0x1000, true),
        region(4, 0x5000, 0x1000, true),
    ];
    let runs = merge_readable_runs(&regions).unwrap();
    assert_eq!(runs.iter().map(|run| (run.start, run.end)).collect::<Vec<_>>(), vec![(0x1000, 0x3000), (0x4000, 0x6000)]);
}

#[test]
fn masked_windows_compare_only_known_bits() {
    let bytes = [0x4d, 0x42, 0x50, 0x00];
    let mask = [0xff, 0xff, 0xf0, 0x00];
    assert!(membridge::scan::session::matches_mask(&[0x4d, 0x42, 0x5a, 0x00], &bytes, &mask));
    assert!(!membridge::scan::session::matches_mask(&[0x4d, 0x42, 0x6a, 0x00], &bytes, &mask));
}

#[test]
fn an_unread_live_source_proves_no_byte() {
    let coverage = live_coverage(0x2000, 0, 0, 5, 7);
    assert_eq!(coverage.captured_readable_bytes, 0);
    assert!(coverage.metadata_complete);
    assert!(!coverage.coverage_complete);
    assert_eq!(
        coverage.limitations,
        vec![CoverageLimitation::ReadsNotAttempted, CoverageLimitation::ExpectedReadableScopeUnproven]
    );
}

#[test]
fn reads_skip_refused_pages_and_stop_at_the_range_end() {
    let done = membridge::source::live::read_step(0x1000, 0x3000, 0x2000, 0x1000);
    assert_eq!((done.next, done.refused), (None, 0));
    let refused = membridge::source::live::read_step(0x1000, 0x3000, 0x800, 0x1000);
    assert_eq!((refused.next, refused.refused), (Some(0x2000), 0x800));
    let tail = membridge::source::live::read_step(0x1000, 0x1400, 0x100, 0x1000);
    assert_eq!((tail.next, tail.refused), (None, 0x300));
}
