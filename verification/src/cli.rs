//! The command surface of the `membridge` program: its name and version, the
//! names its responses carry, and the values its commands compute from a
//! source's answers.

use vstd::prelude::*;

use crate::error::{Error, Result};
use crate::scan::pattern::{parse_u64_literal, parsed_u64_literal};
use crate::source::minidump::{hex_bytes, hex_text};
use crate::source::{Address, ReadSegment};
use crate::text::{debug_quoted, joined, push_str, string_from_chars};

verus! {

/// The program's name.
pub const NAME: &'static str = "membridge";

/// The program's version; the embedded skill carries the same one.
pub const VERSION: &'static str = "0.1.0-alpha.4";

/// What the program is for.
pub const ABOUT: &'static str = "Deterministic, read-only bridge between process memory sources and bounded scan, inspect, and read workflows";

/// The most bytes one `read` command returns.
pub const MAX_READ_BYTES: usize = 65_536;

/// The length a `read` command uses when none is given.
pub const DEFAULT_READ_LENGTH: usize = 256;

/// The program's subcommands and what each does, in the order help lists them.
pub const SUBCOMMANDS: [(&'static str, &'static str); 5] = [
    ("inspect", "Describe a memory source and its scan coverage"),
    ("scan", "Scan readable memory for a tagged batch of typed patterns"),
    ("read", "Return bounded readable bytes at one virtual address"),
    ("skill", "Install the Agent Skill embedded in this binary"),
    ("capture", "Capture a live process into a Windows x64 minidump"),
];

/// The line `--version` prints: the name, a space, the version, a newline.
pub fn version_text() -> (res: String)
    ensures
        res@ == NAME@ + " "@ + VERSION@ + "\n"@,
{
    let mut out: Vec<char> = Vec::new();
    push_str(&mut out, NAME);
    push_str(&mut out, " ");
    push_str(&mut out, VERSION);
    push_str(&mut out, "\n");
    string_from_chars(out.as_slice())
}

/// The commands the program runs.
#[derive(Debug, Clone, Copy, PartialEq, Eq)]
pub enum CommandKind {
    Inspect,
    Scan,
    Read,
    SkillInstall,
    CaptureMinidump,
}

impl CommandKind {
    /// The name a command's response carries.
    pub open spec fn spec_name(&self) -> &'static str {
        match self {
            CommandKind::Inspect => "inspect",
            CommandKind::Scan => "scan",
            CommandKind::Read => "read",
            CommandKind::SkillInstall => "skill.install",
            CommandKind::CaptureMinidump => "capture.minidump",
        }
    }

    /// Returns the name a command's response carries.
    pub fn name(&self) -> (res: &'static str)
        ensures
            res == self.spec_name(),
    {
        match self {
            CommandKind::Inspect => "inspect",
            CommandKind::Scan => "scan",
            CommandKind::Read => "read",
            CommandKind::SkillInstall => "skill.install",
            CommandKind::CaptureMinidump => "capture.minidump",
        }
    }
}

/// Parses a `--address` value: `0x`/`0X` hexadecimal, otherwise decimal.
pub fn parse_address(raw: &str) -> (res: core::result::Result<u64, String>)
    ensures
        match parsed_u64_literal(raw@) {
            Some(v) => res == Ok::<u64, String>(v),
            None => res is Err,
        },
{
    match parse_u64_literal(raw) {
        Some(v) => Ok(v),
        None => {
            let quoted = debug_quoted(raw);
            Err(joined(&["invalid address ", quoted.as_str(), ": not a decimal or 0x-prefixed hexadecimal u64"]))
        },
    }
}

/// How a byte is shown in a read's ASCII column: printable ASCII and the space
/// stand for themselves, everything else is `.`.
pub open spec fn ascii_char(b: u8) -> char {
    if 0x20 <= b <= 0x7e {
        b as char
    } else {
        '.'
    }
}

/// Renders `bytes` as a read's ASCII column.
pub fn ascii_view(bytes: &[u8]) -> (res: String)
    ensures
        res@.len() == bytes@.len(),
        forall|i: int| 0 <= i < bytes@.len() ==> #[trigger] res@[i] == ascii_char(bytes@[i]),
{
    let mut out: Vec<char> = Vec::new();
    let mut i: usize = 0;
    while i < bytes.len()
        invariant
            0 <= i <= bytes@.len(),
            out@.len() == i,
            forall|k: int| 0 <= k < i ==> #[trigger] out@[k] == ascii_char(bytes@[k]),
        decreases bytes@.len() - i,
    {
        let b = bytes[i];
        let c = if 0x20 <= b && b <= 0x7e { b as char } else { '.' };
        out.push(c);
        i = i + 1;
    }
    string_from_chars(out.as_slice())
}

/// Checks a `read` command's length: between one and `MAX_READ_BYTES`.
pub fn check_read_length(length: usize) -> (res: Result<()>)
    ensures
        res is Ok <==> 1 <= length <= MAX_READ_BYTES,
        res matches Err(e) ==> e is InvalidArgument,
{
    if length == 0 || length > MAX_READ_BYTES {
        return Err(Error::InvalidArgument(String::from_str("length must be between 1 and 65536")));
    }
    Ok(())
}

/// One segment of a read, as the response shows it.
#[derive(Debug, Clone)]
pub struct ReadSegmentView {
    pub address: Address,
    pub bytes_hex: String,
    pub ascii: String,
}

/// The data of a `read` response.
#[derive(Debug, Clone)]
pub struct ReadData {
    pub source_fingerprint: String,
    pub process_id: String,
    pub address: Address,
    pub requested_bytes: usize,
    pub returned_bytes: usize,
    pub complete: bool,
    pub segments: Vec<ReadSegmentView>,
}

/// The bytes the segments hold together.
pub open spec fn segment_bytes(segments: Seq<ReadSegment>) -> int
    decreases segments.len(),
{
    if segments.len() == 0 {
        0
    } else {
        segment_bytes(segments.drop_last()) + segments.last().bytes@.len()
    }
}

/// The response data of reading `requested` bytes at `address`, which returned
/// `segments`; the read is complete when every requested byte came back.
pub fn read_data(fingerprint: String, process_id: String, address: u64, requested: usize, segments: &Vec<ReadSegment>) -> (res: ReadData)
    requires
        segment_bytes(segments@) <= usize::MAX,
    ensures
        res.source_fingerprint == fingerprint,
        res.process_id == process_id,
        res.address.0 == address,
        res.requested_bytes == requested,
        res.returned_bytes == segment_bytes(segments@),
        res.complete == (segment_bytes(segments@) == requested),
        res.segments@.len() == segments@.len(),
        forall|i: int| 0 <= i < segments@.len() ==> {
            &&& (#[trigger] res.segments@[i]).address.0 == segments@[i].address
            &&& res.segments@[i].bytes_hex@ == hex_bytes(segments@[i].bytes@)
            &&& res.segments@[i].ascii@.len() == segments@[i].bytes@.len()
            &&& forall|k: int| 0 <= k < segments@[i].bytes@.len() ==> #[trigger] res.segments@[i].ascii@[k] == ascii_char(segments@[i].bytes@[k])
        },
{
    let mut views: Vec<ReadSegmentView> = Vec::new();
    let mut total: usize = 0;
    let mut i: usize = 0;
    while i < segments.len()
        invariant
            0 <= i <= segments@.len(),
            segment_bytes(segments@) <= usize::MAX,
            total == segment_bytes(segments@.subrange(0, i as int)),
            views@.len() == i,
            forall|j: int| 0 <= j < i ==> {
                &&& (#[trigger] views@[j]).address.0 == segments@[j].address
                &&& views@[j].bytes_hex@ == hex_bytes(segments@[j].bytes@)
                &&& views@[j].ascii@.len() == segments@[j].bytes@.len()
                &&& forall|k: int| 0 <= k < segments@[j].bytes@.len() ==> #[trigger] views@[j].ascii@[k] == ascii_char(segments@[j].bytes@[k])
            },
        decreases segments@.len() - i,
    {
        let s = &segments[i];
        proof {
            assert(segments@.subrange(0, i as int + 1).drop_last() =~= segments@.subrange(0, i as int));
            lemma_segment_bytes_prefix(segments@, i as int + 1);
        }
        total = total + s.bytes.len();
        views.push(ReadSegmentView {
            address: Address(s.address),
            bytes_hex: hex_text(s.bytes.as_slice()),
            ascii: ascii_view(s.bytes.as_slice()),
        });
        i = i + 1;
    }
    proof {
        assert(segments@.subrange(0, segments@.len() as int) =~= segments@);
    }
    ReadData {
        source_fingerprint: fingerprint,
        process_id,
        address: Address(address),
        requested_bytes: requested,
        returned_bytes: total,
        complete: total == requested,
        segments: views,
    }
}

proof fn lemma_segment_bytes_prefix(segments: Seq<ReadSegment>, n: int)
    requires
        0 <= n <= segments.len(),
    ensures
        segment_bytes(segments.subrange(0, n)) <= segment_bytes(segments),
    decreases segments.len() - n,
{
    if n < segments.len() {
        lemma_segment_bytes_prefix(segments, n + 1);
        assert(segments.subrange(0, n + 1).drop_last() =~= segments.subrange(0, n));
    } else {
        assert(segments.subrange(0, n) =~= segments);
    }
}

} // verus!
