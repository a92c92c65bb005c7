//! What the `minidump` crate reads out of a minidump file, as plain values.
//!
//! Each reader parses the file bytes with the crate and hands back one stream's
//! content. The content is a function of the bytes alone, so each is named by an
//! uninterpreted function of them: nothing in this library restates the file
//! format the crate decodes.

use vstd::prelude::*;

use ::minidump::format::{MemoryProtection, MemoryState, MemoryType};
use ::minidump::system_info::{Cpu, Os};
use ::minidump::{Error as DumpError, Minidump, MinidumpMemoryInfoList, MinidumpModuleList, MinidumpSystemInfo, Module};

verus! {

/// The system-info stream: whether it names Windows and x86-64, and both as text.
#[derive(Debug, Clone)]
pub struct SystemFacts {
    pub windows: bool,
    pub x86_64: bool,
    pub os: String,
    pub cpu: String,
}

/// A module-list entry.
#[derive(Debug, Clone)]
pub struct RawModule {
    pub name: String,
    pub base: u64,
    pub size: u64,
    pub time_date_stamp: u32,
}

/// A memory-info-list entry, with its flag words as bits.
#[derive(Debug, Clone, Copy)]
pub struct RawRegionInfo {
    pub base: u64,
    pub size: u64,
    pub state: u32,
    pub protection: u32,
    pub kind: u32,
}

/// The memory-info stream: present, absent, or present but unreadable.
#[derive(Debug, Clone)]
pub enum MemoryInfoStream {
    Present(Vec<RawRegionInfo>),
    Missing,
    Unusable,
}

/// The system facts the crate reads from `data`, or its error text.
pub uninterp spec fn dump_system(data: Seq<u8>) -> core::result::Result<(bool, bool, Seq<char>, Seq<char>), Seq<char>>;

/// The module entries the crate reads from `data`, by address (empty when the
/// dump or its module list cannot be read).
pub uninterp spec fn dump_modules(data: Seq<u8>) -> Seq<(Seq<char>, u64, u64, u32)>;

/// The captured memory ranges the crate reads from `data`, by address, as base
/// address and bytes; `None` when the dump holds no memory list.
pub uninterp spec fn dump_memory(data: Seq<u8>) -> Option<Seq<(u64, Seq<u8>)>>;

/// The memory-info entries the crate reads from `data`, by address; otherwise
/// `Err(true)` when the stream is absent and `Err(false)` when it cannot be read.
pub uninterp spec fn dump_memory_info(data: Seq<u8>) -> core::result::Result<Seq<(u64, u64, u32, u32, u32)>, bool>;

/// The BLAKE3 digest of `data`.
pub uninterp spec fn blake3_digest(data: Seq<u8>) -> Seq<u8>;

/// Parses the dump header and its system-info stream (`Minidump::read`,
/// `Minidump::get_stream::<MinidumpSystemInfo>`): whether the stream names Windows
/// and x86-64, the OS as displayed and the CPU as debug-printed; or the crate's
/// error text.
#[verifier::external_body]
pub(crate) fn read_system(data: &[u8]) -> (res: core::result::Result<SystemFacts, String>)
    ensures
        match dump_system(data@) {
            Ok((w, x, os, cpu)) => res matches Ok(f) && f.windows == w && f.x86_64 == x && f.os@ == os && f.cpu@ == cpu,
            Err(text) => res matches Err(e) && e@ == text,
        },
{
    let dump = Minidump::read(data).map_err(|e| e.to_string())?;
    let system = dump.get_stream::<MinidumpSystemInfo>().map_err(|e| e.to_string())?;
    let windows = matches!(system.os, Os::Windows);
    let x86_64 = matches!(system.cpu, Cpu::X86_64);
    Ok(SystemFacts { windows, x86_64, os: system.os.to_string(), cpu: format!("{:?}", system.cpu) })
}

/// The module list (`Minidump::get_stream::<MinidumpModuleList>`, `by_addr`):
/// each module's code file, base address, size and PE time stamp; empty when the
/// list cannot be read.
#[verifier::external_body]
pub(crate) fn read_modules(data: &[u8]) -> (res: Vec<RawModule>)
    ensures
        res@.len() == dump_modules(data@).len(),
        forall|i: int| 0 <= i < res@.len() ==> {
            let (name, base, size, stamp) = #[trigger] dump_modules(data@)[i];
            res@[i].name@ == name && res@[i].base == base && res@[i].size == size && res@[i].time_date_stamp == stamp
        },
{
    let Ok(dump) = Minidump::read(data) else { return Vec::new() };
    let Ok(list) = dump.get_stream::<MinidumpModuleList>() else { return Vec::new() };
    list.by_addr().map(|m| RawModule {
        name: m.code_file().into_owned(),
        base: m.base_address(),
        size: m.size(),
        time_date_stamp: m.raw.time_date_stamp,
    }).collect()
}

/// The captured memory (`Minidump::get_memory`, `by_addr`): each range's base
/// address and a copy of its bytes; `None` when the dump holds no memory list.
#[verifier::external_body]
pub(crate) fn read_memory(data: &[u8]) -> (res: Option<Vec<(u64, Vec<u8>)>>)
    ensures
        match dump_memory(data@) {
            None => res is None,
            Some(ranges) => res matches Some(v) && v@.len() == ranges.len()
                && forall|i: int| 0 <= i < v@.len() ==> (#[trigger] v@[i]).0 == ranges[i].0 && v@[i].1@ == ranges[i].1,
        },
{
    let dump = Minidump::read(data).ok()?;
    let memory = dump.get_memory()?;
    Some(memory.by_addr().map(|range| (range.base_address(), range.bytes().to_vec())).collect())
}

/// The memory-info list (`Minidump::get_stream::<MinidumpMemoryInfoList>`,
/// `by_addr`): each region's base, size, and state, protection and type bits; or
/// whether the stream is absent (`Error::StreamNotFound`) or unreadable.
#[verifier::external_body]
pub(crate) fn read_memory_info(data: &[u8]) -> (res: MemoryInfoStream)
    ensures
        match dump_memory_info(data@) {
            Ok(items) => res matches MemoryInfoStream::Present(v) && v@.len() == items.len()
                && forall|i: int| 0 <= i < v@.len() ==> {
                    let (base, size, state, protection, kind) = #[trigger] items[i];
                    v@[i].base == base && v@[i].size == size && v@[i].state == state && v@[i].protection == protection && v@[i].kind == kind
                },
            Err(missing) => if missing { res is Missing } else { res is Unusable },
        },
{
    let Ok(dump) = Minidump::read(data) else { return MemoryInfoStream::Unusable };
    match dump.get_stream::<MinidumpMemoryInfoList>() {
        Ok(list) => MemoryInfoStream::Present(list.by_addr().map(|item| RawRegionInfo {
            base: item.raw.base_address,
            size: item.raw.region_size,
            state: MemoryState::bits(&item.state),
            protection: MemoryProtection::bits(&item.protection),
            kind: MemoryType::bits(&item.ty),
        }).collect()),
        Err(DumpError::StreamNotFound) => MemoryInfoStream::Missing,
        Err(_) => MemoryInfoStream::Unusable,
    }
}

/// The BLAKE3 hash of `data` (`blake3::hash`), as its 32 bytes.
#[verifier::external_body]
pub(crate) fn blake3_hash(data: &[u8]) -> (res: [u8; 32])
    ensures
        res@ == blake3_digest(data@),
{
    *blake3::hash(data).as_bytes()
}

} // verus!
