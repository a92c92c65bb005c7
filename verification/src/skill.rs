//! Installing the Agent Skill this binary embeds: where it goes, and what an
//! install reports. The files themselves are written by the command-line program.

use vstd::prelude::*;

use crate::error::{Error, Result};
use crate::text::{debug_quoted, mentions, push_str, string_from_chars};

verus! {

/// The files of the skill bundle, relative to its directory, in install order.
pub const SKILL_FILES: [&'static str; 6] = [
    "SKILL.md",
    "examples/canary-batch.json",
    "examples/scoped-batch.json",
    "examples/live-batch.json",
    "scripts/install.sh",
    "scripts/install.ps1",
];

/// What an install did.
#[derive(Debug, Clone)]
pub struct InstallReport {
    pub destination: String,
    pub files: Vec<&'static str>,
    pub replaced: bool,
    pub binary_version: &'static str,
    pub skill_version: &'static str,
}

/// `base` joined with `part` as `Path::join` does for a relative `part`: a
/// separator is added unless `base` is empty or already ends with one.
pub open spec fn joined_path(base: Seq<char>, separator: char, part: Seq<char>) -> Seq<char> {
    if base.len() == 0 || base.last() == separator {
        base + part
    } else {
        base.push(separator) + part
    }
}

/// Where the skill is installed under the home directory `home`:
/// `home/.agents/skills/membridge`.
pub open spec fn skill_path(home: Seq<char>, separator: char) -> Seq<char> {
    joined_path(joined_path(joined_path(home, separator, ".agents"@), separator, "skills"@), separator, "membridge"@)
}

fn join_part(out: &mut Vec<char>, separator: char, part: &str)
    ensures
        final(out)@ == joined_path(old(out)@, separator, part@),
{
    let n = out.len();
    if n > 0 && out[n - 1] != separator {
        out.push(separator);
    }
    push_str(out, part);
}

/// The skill's install directory for the user home directory `home`, which the
/// host judged `absolute` or not and whose paths use `separator`. A missing or
/// empty home fails with `HOME_DIRECTORY_UNAVAILABLE`, and so does a relative
/// one, whose message says it is not absolute.
pub fn skill_destination(home: Option<&str>, absolute: bool, separator: char) -> (res: Result<String>)
    ensures
        home is None ==> (res matches Err(e) && e is HomeDirectoryUnavailable),
        home is Some && home->0@.len() == 0 ==> (res matches Err(e) && e is HomeDirectoryUnavailable),
        home is Some && home->0@.len() > 0 && !absolute ==> (res matches Err(Error::HomeDirectoryUnavailable(m)) && mentions(m@, "not absolute"@)),
        home is Some && home->0@.len() > 0 && absolute ==> (res matches Ok(path) && path@ == skill_path(home->0@, separator)),
{
    let h = match home {
        None => {
            return Err(Error::HomeDirectoryUnavailable(String::from_str("the user home directory is not set")));
        },
        Some(h) => h,
    };
    if h.is_empty() {
        return Err(Error::HomeDirectoryUnavailable(String::from_str("the user home directory is empty")));
    }
    if !absolute {
        let quoted = debug_quoted(h);
        let message = crate::text::concat3("home directory ", quoted.as_str(), " is not absolute");
        proof {
            reveal_strlit(" is not absolute");
            reveal_strlit("not absolute");
            let m = message@;
            let i = m.len() - 12;
            assert(m.subrange(i, i + 12) =~= "not absolute"@);
            assert(0 <= i <= m.len() - 12);
            assert(mentions(message@, "not absolute"@));
        }
        return Err(Error::HomeDirectoryUnavailable(message));
    }
    let mut out: Vec<char> = Vec::new();
    push_str(&mut out, h);
    join_part(&mut out, separator, ".agents");
    join_part(&mut out, separator, "skills");
    join_part(&mut out, separator, "membridge");
    Ok(string_from_chars(out.as_slice()))
}

/// The report of installing the skill at `destination`, replacing an earlier
/// install when `replaced`; the binary and the skill carry the same version.
pub fn install_report(destination: String, replaced: bool) -> (res: InstallReport)
    ensures
        res.destination == destination,
        res.files@ == SKILL_FILES@,
        res.replaced == replaced,
        res.binary_version == crate::cli::VERSION,
        res.skill_version == crate::cli::VERSION,
{
    let mut files: Vec<&'static str> = Vec::new();
    let mut i: usize = 0;
    while i < 6
        invariant
            0 <= i <= 6,
            files@ == SKILL_FILES@.subrange(0, i as int),
        decreases 6 - i,
    {
        files.push(SKILL_FILES[i]);
        i = i + 1;
        proof {
            assert(files@ =~= SKILL_FILES@.subrange(0, i as int));
        }
    }
    proof {
        assert(SKILL_FILES@.subrange(0, 6) =~= SKILL_FILES@);
    }
    InstallReport { destination, files, replaced, binary_version: crate::cli::VERSION, skill_version: crate::cli::VERSION }
}

} // verus!
