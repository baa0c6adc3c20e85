//! What the inspection of a game's installation concludes: which Unity
//! executable and runtime it has, the processor architecture of that
//! executable, whether BepInEx is already there and in which version, and
//! whether an anti-cheat system forbids installing it.
use vstd::prelude::*;
use vstd::utf8::{encode_utf8, is_char_boundary};

use crate::bepinex::{
    anti_cheat_name, is_anti_cheat_name, strip_suffix_ignore_ascii_case, BepInExArchitecture,
    status_consistent, BepInExAvailability, BepInExGameStatus, BepInExReason, BepInExRuntime,
};
use crate::cfgfile::{lines_of, split_lines};
use crate::catalog::texts;
use crate::paths::{components_normal, inspect_path};
use crate::patterns::{find_from, find_index};
use crate::text::{
    ascii_fold_eq, ascii_lowercase, chars_of, eq_ignore_ascii_case, is_white_space, is_whitespace, lower_chars,
    str_eq_ignore_ascii_case, string_of, text_option, trim, trim_bounds, trim_start,
};

verus! {

/// How many directory entries an inspection looks at before it gives up.
pub const SCAN_MAX_ENTRIES: usize = 10000;

/// How deep below the game directory an inspection descends.
pub const SCAN_MAX_DEPTH: usize = 2;

/// How many files an installation marker may list.
pub const MARKER_MAX_FILES: usize = 10000;

/// How many lines of a BepInEx log are searched for its version.
pub const LOG_MAX_LINES: usize = 100;

// ---------------------------------------------------------------------------
// The executable's architecture.
// ---------------------------------------------------------------------------
/// The little-endian `u32` at `at`.
pub open spec fn le_u32(bytes: Seq<u8>, at: int) -> int {
    bytes[at] + 256 * bytes[at + 1] + 65536 * bytes[at + 2] + 16777216 * bytes[at + 3]
}

/// Where the PE header of an executable starts, read from its 64-byte DOS
/// header: it must begin with `MZ`, and the offset at 0x3c may not pass
/// 16 MiB.
pub open spec fn pe_offset_of(dos_header: Seq<u8>) -> Option<int> {
    if dos_header.len() >= 64 && dos_header[0] == 0x4d && dos_header[1] == 0x5a && le_u32(dos_header, 0x3c)
        <= 16777216 {
        Some(le_u32(dos_header, 0x3c))
    } else {
        None
    }
}

/// The architecture named by the first six bytes of a PE header: the
/// signature `PE\0\0`, then the machine type, 0x014c for x86 and 0x8664 for
/// x64.
pub open spec fn machine_of(pe_header: Seq<u8>) -> Option<BepInExArchitecture> {
    if pe_header.len() >= 6 && pe_header[0] == 0x50 && pe_header[1] == 0x45 && pe_header[2] == 0
        && pe_header[3] == 0 {
        let machine = pe_header[4] + 256 * pe_header[5];
        if machine == 0x014c {
            Some(BepInExArchitecture::X86)
        } else if machine == 0x8664 {
            Some(BepInExArchitecture::X64)
        } else {
            None
        }
    } else {
        None
    }
}

/// The offset of the PE header, from the bytes read at the start of an
/// executable (fewer than 64 when the file is shorter).
pub fn pe_header_offset(dos_header: &[u8]) -> (offset: Result<u64, BepInExReason>)
    ensures
        match pe_offset_of(dos_header@) {
            Some(o) => offset == Ok::<u64, BepInExReason>(o as u64),
            None => offset == Err::<u64, BepInExReason>(BepInExReason::UnsupportedArchitecture),
        },
{
    if dos_header.len() < 64 || dos_header[0] != 0x4d || dos_header[1] != 0x5a {
        return Err(BepInExReason::UnsupportedArchitecture);
    }
    let offset = dos_header[0x3c] as u64 + 256 * (dos_header[0x3d] as u64) + 65536 * (dos_header[0x3e] as u64)
        + 16777216 * (dos_header[0x3f] as u64);
    if offset > 16777216 {
        return Err(BepInExReason::UnsupportedArchitecture);
    }
    Ok(offset)
}

/// The architecture, from the bytes read where the PE header starts (fewer
/// than six when the file ends before).
pub fn pe_architecture(pe_header: &[u8]) -> (architecture: Result<BepInExArchitecture, BepInExReason>)
    ensures
        match machine_of(pe_header@) {
            Some(a) => architecture == Ok::<BepInExArchitecture, BepInExReason>(a),
            None => architecture == Err::<BepInExArchitecture, BepInExReason>(
                BepInExReason::UnsupportedArchitecture,
            ),
        },
{
    if pe_header.len() < 6 || pe_header[0] != 0x50 || pe_header[1] != 0x45 || pe_header[2] != 0 || pe_header[3]
        != 0 {
        return Err(BepInExReason::UnsupportedArchitecture);
    }
    let machine = pe_header[4] as u32 + 256 * (pe_header[5] as u32);
    if machine == 0x014c {
        Ok(BepInExArchitecture::X86)
    } else if machine == 0x8664 {
        Ok(BepInExArchitecture::X64)
    } else {
        Err(BepInExReason::UnsupportedArchitecture)
    }
}

// ---------------------------------------------------------------------------
// Walking the game directory.
// ---------------------------------------------------------------------------
/// What to do with a directory entry met while looking for Unity data
/// directories.
#[derive(Clone, Copy, Debug, PartialEq, Eq, Structural)]
pub enum ScanStep {
    /// Not a directory, or one too deep to enter.
    Skip,
    /// A `<name>_Data` directory.
    DataDirectory,
    /// A directory to look into.
    Descend,
}

/// What to do with an entry met while looking for anti-cheat systems.
#[derive(Clone, Copy, Debug, PartialEq, Eq, Structural)]
pub enum AntiCheatStep {
    Skip,
    Found,
    Descend,
}

/// Cutting `suffix`'s length of bytes from the end of `value` leaves whole
/// characters, or `value` is the shorter.
pub open spec fn suffix_cuttable(value: Seq<char>, suffix: Seq<char>) -> bool {
    let v = encode_utf8(value);
    let s = encode_utf8(suffix);
    v.len() < s.len() || is_char_boundary(v, v.len() - s.len())
}

/// Whether cutting `suffix`'s length of bytes from the end of `value`
/// leaves whole characters (or `value` is the shorter).
pub fn suffix_cut_allowed(value: &str, suffix: &str) -> (allowed: bool)
    ensures
        allowed == suffix_cuttable(value@, suffix@),
{
    let v = value.as_bytes().len();
    let s = suffix.as_bytes().len();
    if v < s {
        return true;
    }
    value.is_char_boundary(v - s)
}

/// `value` ends with `suffix` in any ASCII case, byte by byte.
pub open spec fn ends_ignoring_case(value: Seq<char>, suffix: Seq<char>) -> bool {
    let v = encode_utf8(value);
    let s = encode_utf8(suffix);
    v.len() >= s.len() && ascii_fold_eq(v.subrange(v.len() - s.len(), v.len() as int), s)
}

/// The inspection stops, blocked: after too many entries, or at a symbolic
/// link.
pub open spec fn scan_refusal(inspected: usize, is_symlink: bool) -> Option<BepInExReason> {
    if inspected > SCAN_MAX_ENTRIES {
        Some(BepInExReason::InspectionFailed)
    } else if is_symlink {
        Some(BepInExReason::UnsafeSymlink)
    } else {
        None
    }
}

/// What is done with an entry named `name` at `depth`, the `inspected`-th
/// entry met.
pub open spec fn unity_step(inspected: usize, is_symlink: bool, is_dir: bool, name: Seq<char>, depth: usize) -> ScanStep {
    if !is_dir {
        ScanStep::Skip
    } else if ends_ignoring_case(name, "_Data"@) {
        ScanStep::DataDirectory
    } else if depth < SCAN_MAX_DEPTH {
        ScanStep::Descend
    } else {
        ScanStep::Skip
    }
}

/// Decides what to do with an entry met while looking for Unity data
/// directories; `inspected` counts the entries met so far, this one
/// included.
pub fn unity_scan_step(inspected: usize, is_symlink: bool, is_dir: bool, name: &str, depth: usize) -> (step: Result<ScanStep, BepInExGameStatus>)
    requires
        inspected <= SCAN_MAX_ENTRIES && !is_symlink && is_dir ==> suffix_cuttable(name@, "_Data"@),
    ensures
        step matches Err(st) ==> status_consistent(st),
        match scan_refusal(inspected, is_symlink) {
            Some(reason) => step matches Err(s) && s.status == BepInExAvailability::Blocked && s.reason == Some(reason)
                && s.runtime is None && s.architecture is None,
            None => step == Ok::<ScanStep, BepInExGameStatus>(unity_step(inspected, is_symlink, is_dir, name@, depth)),
        },
{
    if inspected > SCAN_MAX_ENTRIES {
        return Err(BepInExGameStatus::blocked(BepInExReason::InspectionFailed, None, None));
    }
    if is_symlink {
        return Err(BepInExGameStatus::blocked(BepInExReason::UnsafeSymlink, None, None));
    }
    if !is_dir {
        return Ok(ScanStep::Skip);
    }
    if strip_suffix_ignore_ascii_case(name, "_Data").is_some() {
        Ok(ScanStep::DataDirectory)
    } else if depth < SCAN_MAX_DEPTH {
        Ok(ScanStep::Descend)
    } else {
        Ok(ScanStep::Skip)
    }
}

/// What is done with an entry named `name` at `depth` while looking for
/// anti-cheat systems.
pub open spec fn anti_cheat_step(is_dir: bool, name: Seq<char>, depth: usize) -> AntiCheatStep {
    if anti_cheat_name(lower_chars(name)) {
        AntiCheatStep::Found
    } else if is_dir && depth < SCAN_MAX_DEPTH {
        AntiCheatStep::Descend
    } else {
        AntiCheatStep::Skip
    }
}

/// Decides what to do with an entry met while looking for anti-cheat
/// systems; `inspected` counts the entries met so far, this one included.
pub fn anti_cheat_scan_step(inspected: usize, is_symlink: bool, is_dir: bool, name: &str, depth: usize) -> (step: Result<AntiCheatStep, BepInExGameStatus>)
    ensures
        step matches Err(st) ==> status_consistent(st),
        match scan_refusal(inspected, is_symlink) {
            Some(reason) => step matches Err(s) && s.status == BepInExAvailability::Blocked && s.reason == Some(reason)
                && s.runtime is None && s.architecture is None,
            None => step == Ok::<AntiCheatStep, BepInExGameStatus>(anti_cheat_step(is_dir, name@, depth)),
        },
{
    if inspected > SCAN_MAX_ENTRIES {
        return Err(BepInExGameStatus::blocked(BepInExReason::InspectionFailed, None, None));
    }
    if is_symlink {
        return Err(BepInExGameStatus::blocked(BepInExReason::UnsafeSymlink, None, None));
    }
    let lower = ascii_lowercase(name);
    if is_anti_cheat_name(lower.as_str()) {
        Ok(AntiCheatStep::Found)
    } else if is_dir && depth < SCAN_MAX_DEPTH {
        Ok(AntiCheatStep::Descend)
    } else {
        Ok(AntiCheatStep::Skip)
    }
}

// ---------------------------------------------------------------------------
// The Unity executable and its runtime.
// ---------------------------------------------------------------------------
/// What was found beside and inside a `<name>_Data` directory.
#[derive(Clone, Copy, Debug, PartialEq, Eq, Structural)]
pub struct DataDirectoryFacts {
    /// `<name>.exe` is a file beside the directory.
    pub executable: bool,
    /// The directory holds a `Managed` directory.
    pub managed: bool,
    /// `GameAssembly.dll` is a file beside the directory.
    pub game_assembly: bool,
    /// The directory holds `il2cpp_data/Metadata/global-metadata.dat`.
    pub metadata: bool,
}

/// The runtime that a data directory shows: Mono by its managed
/// assemblies, IL2CPP by its game assembly and metadata, none when it shows
/// neither or both.
pub open spec fn runtime_of(facts: DataDirectoryFacts) -> Option<BepInExRuntime> {
    let il2cpp = facts.game_assembly && facts.metadata;
    if facts.managed && !il2cpp {
        Some(BepInExRuntime::Mono)
    } else if !facts.managed && il2cpp {
        Some(BepInExRuntime::Il2Cpp)
    } else {
        None
    }
}

/// A data directory with its executable that shows both runtimes.
pub open spec fn shows_both_runtimes(facts: DataDirectoryFacts) -> bool {
    facts.executable && facts.managed && facts.game_assembly && facts.metadata
}

/// The candidates among the first `n` data directories: the index and
/// runtime of each one with an executable and one runtime, in order.
pub open spec fn candidates_among(facts: Seq<DataDirectoryFacts>, n: int) -> Seq<(usize, BepInExRuntime)>
    decreases n,
{
    if n <= 0 {
        Seq::empty()
    } else {
        let before = candidates_among(facts, n - 1);
        let f = facts[n - 1];
        if f.executable && runtime_of(f) is Some {
            before.push(((n - 1) as usize, runtime_of(f).unwrap()))
        } else {
            before
        }
    }
}

/// Some data directory with an executable shows both runtimes.
pub open spec fn runtime_conflict(facts: Seq<DataDirectoryFacts>) -> bool {
    exists|i: int| 0 <= i < facts.len() && shows_both_runtimes(#[trigger] facts[i])
}

/// The Unity executables that the data directories show, with their
/// runtimes; blocked when one shows both runtimes.
pub fn unity_candidates(facts: &Vec<DataDirectoryFacts>) -> (candidates: Result<Vec<(usize, BepInExRuntime)>, BepInExGameStatus>)
    ensures
        candidates matches Err(st) ==> status_consistent(st),
        runtime_conflict(facts@) ==> (candidates matches Err(s) && s.status == BepInExAvailability::Blocked
            && s.reason == Some(BepInExReason::AmbiguousRuntime) && s.runtime is None && s.architecture is None),
        !runtime_conflict(facts@) ==> (candidates matches Ok(c) && c@ == candidates_among(facts@, facts@.len() as int)),
{
    let mut found: Vec<(usize, BepInExRuntime)> = Vec::new();
    let mut conflict = false;
    let mut i: usize = 0;
    while i < facts.len()
        invariant
            i <= facts@.len(),
            found@ == candidates_among(facts@, i as int),
            conflict == exists|k: int| 0 <= k < i && shows_both_runtimes(#[trigger] facts@[k]),
        decreases facts@.len() - i,
    {
        let f = facts[i];
        if f.executable {
            let il2cpp = f.game_assembly && f.metadata;
            if f.managed && !il2cpp {
                found.push((i, BepInExRuntime::Mono));
            } else if !f.managed && il2cpp {
                found.push((i, BepInExRuntime::Il2Cpp));
            } else if f.managed && il2cpp {
                conflict = true;
            }
        }
        proof {
            assert(facts@[i as int] == f);
            if shows_both_runtimes(f) {
                assert(shows_both_runtimes(facts@[i as int]));
            }
        }
        i = i + 1;
    }
    if conflict {
        return Err(BepInExGameStatus::blocked(BepInExReason::AmbiguousRuntime, None, None));
    }
    Ok(found)
}

/// The one candidate of a game: none means the game is not a Unity game,
/// several that the executable is ambiguous.
pub fn single_candidate(candidates: &Vec<(usize, BepInExRuntime)>) -> (candidate: Result<(usize, BepInExRuntime), BepInExGameStatus>)
    ensures
        candidate matches Err(st) ==> status_consistent(st),
        candidates@.len() == 0 ==> (candidate matches Err(s) && s.status == BepInExAvailability::Unsupported
            && s.reason == Some(BepInExReason::NotUnity)),
        candidates@.len() > 1 ==> (candidate matches Err(s) && s.status == BepInExAvailability::Blocked
            && s.reason == Some(BepInExReason::AmbiguousExecutable) && s.runtime is None && s.architecture is None),
        candidates@.len() == 1 ==> candidate == Ok::<(usize, BepInExRuntime), BepInExGameStatus>(candidates@[0]),
{
    if candidates.len() == 0 {
        return Err(BepInExGameStatus::unsupported(BepInExReason::NotUnity));
    }
    if candidates.len() != 1 {
        return Err(BepInExGameStatus::blocked(BepInExReason::AmbiguousExecutable, None, None));
    }
    Ok(candidates[0])
}

// ---------------------------------------------------------------------------
// An existing BepInEx installation.
// ---------------------------------------------------------------------------
/// The record that an installation by this application leaves in
/// `BepInEx/.gametweaks-install.json`.
#[derive(Clone, Debug)]
pub struct InstallMarker {
    pub schema_version: u32,
    pub app_id: u32,
    pub version: String,
    pub runtime: String,
    pub architecture: String,
    pub source: String,
    pub asset_name: String,
    pub sha256: String,
    pub files: Vec<String>,
}

/// A marker can be trusted: the first schema, a version that is not blank,
/// and between one and the limit of files, each a relative path of plain
/// names.
pub open spec fn install_marker_valid(marker: InstallMarker) -> bool {
    &&& marker.schema_version == 1
    &&& trim(marker.version@).len() > 0
    &&& 0 < marker.files@.len() <= MARKER_MAX_FILES
    &&& forall|i: int| 0 <= i < marker.files@.len() ==> components_normal(#[trigger] marker.files@[i]@)
}

/// Whether an installation marker can be trusted.
pub fn valid_install_marker(marker: &InstallMarker) -> (valid: bool)
    ensures
        valid == install_marker_valid(*marker),
{
    if marker.schema_version != 1 {
        return false;
    }
    let version = chars_of(marker.version.as_str());
    let (start, end) = trim_bounds(&version, 0, version.len());
    proof {
        assert(version@.subrange(0, version@.len() as int) =~= version@);
    }
    if start == end {
        return false;
    }
    if marker.files.len() == 0 || marker.files.len() > MARKER_MAX_FILES {
        return false;
    }
    let mut i: usize = 0;
    while i < marker.files.len()
        invariant
            i <= marker.files@.len(),
            forall|k: int| 0 <= k < i ==> components_normal(#[trigger] marker.files@[k]@),
        decreases marker.files@.len() - i,
    {
        let (normal, _) = inspect_path(marker.files[i].as_str());
        if !normal {
            return false;
        }
        i = i + 1;
    }
    true
}

/// Which of the files of a BepInEx installation exist in a game directory.
#[derive(Clone, Copy, Debug, PartialEq, Eq, Structural)]
pub struct InstallationFiles {
    pub bepinex_exists: bool,
    pub bepinex_is_dir: bool,
    pub doorstop_exists: bool,
    pub doorstop_is_file: bool,
    pub winhttp_exists: bool,
    pub winhttp_is_file: bool,
    /// `BepInEx/core/BepInEx.dll` is a file.
    pub v5_core_is_file: bool,
    /// `BepInEx/core/BepInEx.Core.dll` is a file.
    pub v6_core_is_file: bool,
}

/// Some part of an installation is there.
pub open spec fn any_installation_part(files: InstallationFiles) -> bool {
    files.bepinex_exists || files.doorstop_exists || files.winhttp_exists
}

/// An installation is whole: the `BepInEx` directory with a core library,
/// the doorstop configuration and the proxy library.
pub open spec fn complete_installation(files: InstallationFiles) -> bool {
    files.bepinex_is_dir && files.doorstop_is_file && files.winhttp_is_file && (files.v5_core_is_file
        || files.v6_core_is_file)
}

/// The version an installation reports: that of a valid marker, else the
/// one found in `LogOutput.log`, else the one in `LogOutput.txt`.
pub open spec fn reported_version(
    marker: Option<InstallMarker>,
    log: Option<Seq<char>>,
    txt: Option<Seq<char>>,
) -> Option<Seq<char>> {
    match marker {
        Some(m) if install_marker_valid(m) => Some(m.version@),
        _ => match log {
            Some(v) => Some(v),
            None => txt,
        },
    }
}

/// Whether BepInEx is installed and in which version: `None` when no part
/// of it is there, blocked when it is there in part, and else the version
/// it reports, if any. `log` and `txt` are the versions found in the two
/// logs.
pub fn installed_bepinex_version(
    files: InstallationFiles,
    marker: Option<InstallMarker>,
    log: Option<String>,
    txt: Option<String>,
) -> (installed: Result<Option<Option<String>>, BepInExGameStatus>)
    ensures
        installed matches Err(st) ==> status_consistent(st),
        !any_installation_part(files) ==> (installed matches Ok(None)),
        any_installation_part(files) && !complete_installation(files) ==> (installed matches Err(s) && s.status
            == BepInExAvailability::Blocked && s.reason == Some(BepInExReason::ExistingFiles) && s.runtime is None
            && s.architecture is None),
        any_installation_part(files) && complete_installation(files) ==> (installed matches Ok(Some(v))
            && text_option(v) == reported_version(marker, text_option(log), text_option(txt))),
{
    if !(files.bepinex_exists || files.doorstop_exists || files.winhttp_exists) {
        return Ok(None);
    }
    if !(files.bepinex_is_dir && files.doorstop_is_file && files.winhttp_is_file && (files.v5_core_is_file
        || files.v6_core_is_file)) {
        return Err(BepInExGameStatus::blocked(BepInExReason::ExistingFiles, None, None));
    }
    let from_marker = match marker {
        Some(m) => if valid_install_marker(&m) {
            Some(m.version)
        } else {
            None
        },
        None => None,
    };
    let version = match from_marker {
        Some(v) => Some(v),
        None => match log {
            Some(v) => Some(v),
            None => txt,
        },
    };
    Ok(Some(version))
}

// ---------------------------------------------------------------------------
// The version that a BepInEx log reports.
// ---------------------------------------------------------------------------
/// A character that may belong to a version: an ASCII letter or digit,
/// `.`, `-` or `+`.
pub open spec fn version_char(c: char) -> bool {
    ('0' <= c <= '9') || ('a' <= c <= 'z') || ('A' <= c <= 'Z') || c == '.' || c == '-' || c == '+'
}

/// A text without the characters at its start that cannot belong to a
/// version.
pub open spec fn strip_front(s: Seq<char>) -> Seq<char>
    decreases s.len(),
{
    if s.len() > 0 && !version_char(s[0]) {
        strip_front(s.drop_first())
    } else {
        s
    }
}

/// A text without the characters at its end that cannot belong to a
/// version.
pub open spec fn strip_back(s: Seq<char>) -> Seq<char>
    decreases s.len(),
{
    if s.len() > 0 && !version_char(s.last()) {
        strip_back(s.drop_last())
    } else {
        s
    }
}

/// Where the run of non-white-space characters from `i` ends.
pub open spec fn word_end(s: Seq<char>, i: int) -> int
    decreases s.len() - i,
{
    if i < 0 || i >= s.len() || is_white_space(s[i]) {
        i
    } else {
        word_end(s, i + 1)
    }
}

/// The text `BepInEx ` that precedes the version in a log line.
pub open spec fn bepinex_label() -> Seq<char> {
    seq!['B', 'e', 'p', 'I', 'n', 'E', 'x', ' ']
}

/// The version a log line reports: after the first `BepInEx `, the first
/// word, without the characters around it that cannot belong to a version,
/// when it holds a digit.
pub open spec fn line_version(line: Seq<char>) -> Option<Seq<char>> {
    let k = find_from(line, bepinex_label(), 0);
    if k < 0 {
        None
    } else {
        let rest = trim_start(line.subrange(k + 8, line.len() as int));
        if rest.len() == 0 {
            None
        } else {
            let version = strip_back(strip_front(rest.subrange(0, word_end(rest, 0))));
            if exists|i: int| 0 <= i < version.len() && '0' <= #[trigger] version[i] <= '9' {
                Some(version)
            } else {
                None
            }
        }
    }
}

/// The version that the first of these lines to report one reports.
pub open spec fn first_line_version(lines: Seq<Seq<char>>) -> Option<Seq<char>>
    decreases lines.len(),
{
    if lines.len() == 0 {
        None
    } else {
        match line_version(lines[0]) {
            Some(v) => Some(v),
            None => first_line_version(lines.drop_first()),
        }
    }
}

/// The version that a BepInEx log reports in its first lines.
pub open spec fn log_version_of(text: Seq<char>) -> Option<Seq<char>> {
    let lines = lines_of(text);
    first_line_version(
        if lines.len() <= LOG_MAX_LINES {
            lines
        } else {
            lines.subrange(0, LOG_MAX_LINES as int)
        },
    )
}

proof fn lemma_word_end(s: Seq<char>, i: int)
    requires
        0 <= i <= s.len(),
    ensures
        i <= word_end(s, i) <= s.len(),
        forall|k: int| i <= k < word_end(s, i) ==> !is_white_space(#[trigger] s[k]),
        word_end(s, i) < s.len() ==> is_white_space(s[word_end(s, i)]),
    decreases s.len() - i,
{
    if i < s.len() && !is_white_space(s[i]) {
        lemma_word_end(s, i + 1);
    }
}

/// Whether a character may belong to a version.
fn is_version_char(c: char) -> (keep: bool)
    ensures
        keep == version_char(c),
{
    ('0' <= c && c <= '9') || ('a' <= c && c <= 'z') || ('A' <= c && c <= 'Z') || c == '.' || c == '-' || c
        == '+'
}

/// The version a log line reports.
pub fn version_in_line(line: &str) -> (version: Option<String>)
    ensures
        text_option(version) == line_version(line@),
{
    let chars = chars_of(line);
    let length = chars.len();
    let label = chars_of("BepInEx ");
    proof {
        reveal_strlit("BepInEx ");
        assert(label@ =~= bepinex_label());
    }
    let k = match find_index(&chars, &label, 0) {
        Some(k) => k,
        None => {
            return None;
        },
    };
    proof {
        crate::patterns::lemma_find_from(line@, bepinex_label(), 0);
    }
    let ghost after = line@.subrange(k + 8, line@.len() as int);
    let mut start = k + 8;
    proof {
        assert(line@.subrange(start as int, line@.len() as int) =~= after);
    }
    while start < chars.len() && is_whitespace(chars[start])
        invariant
            chars@ == line@,
            k + 8 <= start <= chars@.len(),
            after == line@.subrange(k + 8, line@.len() as int),
            trim_start(after) == trim_start(line@.subrange(start as int, line@.len() as int)),
        decreases chars@.len() - start,
    {
        proof {
            let u = line@.subrange(start as int, line@.len() as int);
            assert(u.drop_first() =~= line@.subrange(start + 1, line@.len() as int));
        }
        start = start + 1;
    }
    let ghost rest = trim_start(after);
    proof {
        let u = line@.subrange(start as int, line@.len() as int);
        if start < chars@.len() {
            assert(u[0] == chars@[start as int]);
        }
        assert(rest == u);
    }
    if start == chars.len() {
        return None;
    }
    let mut end = start;
    proof {
        lemma_word_end(rest, 0);
    }
    while end < chars.len() && !is_whitespace(chars[end])
        invariant
            chars@ == line@,
            start <= end <= chars@.len(),
            rest == line@.subrange(start as int, line@.len() as int),
            word_end(rest, 0) == word_end(rest, end - start),
        decreases chars@.len() - end,
    {
        proof {
            assert(rest[end - start] == chars@[end as int]);
        }
        end = end + 1;
    }
    proof {
        if end < chars@.len() {
            assert(rest[end - start] == chars@[end as int]);
        }
        assert(word_end(rest, end - start) == end - start);
    }
    let ghost word = rest.subrange(0, word_end(rest, 0));
    proof {
        assert(word =~= line@.subrange(start as int, end as int));
    }
    let mut a = start;
    while a < end && !is_version_char(chars[a])
        invariant
            chars@ == line@,
            start <= a <= end <= chars@.len(),
            strip_front(word) == strip_front(line@.subrange(a as int, end as int)),
        decreases end - a,
    {
        proof {
            let u = line@.subrange(a as int, end as int);
            assert(u.drop_first() =~= line@.subrange(a + 1, end as int));
        }
        a = a + 1;
    }
    proof {
        let u = line@.subrange(a as int, end as int);
        if a < end {
            assert(u[0] == chars@[a as int]);
        }
        assert(strip_front(word) == u);
    }
    let mut b = end;
    while b > a && !is_version_char(chars[b - 1])
        invariant
            chars@ == line@,
            start <= a <= b <= end <= chars@.len(),
            strip_back(strip_front(word)) == strip_back(line@.subrange(a as int, b as int)),
        decreases b,
    {
        proof {
            let u = line@.subrange(a as int, b as int);
            assert(u.drop_last() =~= line@.subrange(a as int, b - 1));
        }
        b = b - 1;
    }
    let ghost version = line@.subrange(a as int, b as int);
    proof {
        if b > a {
            assert(version.last() == chars@[b - 1]);
        }
        assert(strip_back(strip_front(word)) == version);
    }
    let mut i = a;
    let mut digit = false;
    while i < b
        invariant
            chars@ == line@,
            a <= i <= b <= chars@.len(),
            version == line@.subrange(a as int, b as int),
            digit == exists|j: int| 0 <= j < i - a && '0' <= #[trigger] version[j] <= '9',
        decreases b - i,
    {
        if '0' <= chars[i] && chars[i] <= '9' {
            proof {
                assert(version[i - a] == chars@[i as int]);
            }
            digit = true;
        } else {
            proof {
                assert(version[i - a] == chars@[i as int]);
                assert forall|j: int| 0 <= j < i + 1 - a && '0' <= #[trigger] version[j] <= '9' implies j < i - a by {}
            }
        }
        i = i + 1;
    }
    if digit {
        Some(string_of(&chars, a, b))
    } else {
        None
    }
}

/// The version that a BepInEx log reports, searching its first lines.
pub fn log_version(text: &str) -> (version: Option<String>)
    ensures
        text_option(version) == log_version_of(text@),
{
    let lines = split_lines(text);
    let ghost all = lines_of(text@);
    let ghost searched = if all.len() <= LOG_MAX_LINES {
        all
    } else {
        all.subrange(0, LOG_MAX_LINES as int)
    };
    let n = if lines.len() <= LOG_MAX_LINES {
        lines.len()
    } else {
        LOG_MAX_LINES
    };
    let mut i: usize = 0;
    proof {
        assert(searched.subrange(0, searched.len() as int) =~= searched);
    }
    while i < n
        invariant
            texts(lines@) == all,
            all == lines_of(text@),
            n == searched.len(),
            n <= lines@.len(),
            i <= n,
            searched == if all.len() <= LOG_MAX_LINES {
                all
            } else {
                all.subrange(0, LOG_MAX_LINES as int)
            },
            first_line_version(searched) == first_line_version(searched.subrange(i as int, n as int)),
        decreases n - i,
    {
        proof {
            assert(texts(lines@)[i as int] == lines@[i as int]@);
            assert(searched[i as int] == lines@[i as int]@);
            let u = searched.subrange(i as int, n as int);
            assert(u[0] == searched[i as int]);
            assert(u.drop_first() =~= searched.subrange(i + 1, n as int));
        }
        let found = version_in_line(lines[i].as_str());
        if found.is_some() {
            proof {
                let u = searched.subrange(i as int, n as int);
                assert(line_version(u[0]) == text_option(found));
                assert(first_line_version(u) == text_option(found));
                assert(first_line_version(searched) == text_option(found));
                assert(log_version_of(text@) == first_line_version(searched));
            }
            return found;
        }
        i = i + 1;
    }
    proof {
        assert(searched.subrange(n as int, n as int) =~= Seq::<Seq<char>>::empty());
    }
    None
}

/// The status of a game whose one Unity executable has `runtime` and
/// `architecture`. `installed` is what `installed_bepinex_version` found;
/// `anti_cheat` whether an anti-cheat system was found, which only counts
/// where BepInEx is not installed. A game that is installed by this
/// application has a valid marker.
pub fn installation_status(
    runtime: BepInExRuntime,
    architecture: BepInExArchitecture,
    installed: Option<Option<String>>,
    marker: Option<InstallMarker>,
    anti_cheat: bool,
) -> (status: Result<BepInExGameStatus, BepInExGameStatus>)
    ensures
        match status {
            Ok(st) => status_consistent(st),
            Err(st) => status_consistent(st),
        },
        match installed {
            Some(version) => status matches Ok(s) && s.status == BepInExAvailability::Installed && s.runtime
                == Some(runtime) && s.architecture == Some(architecture) && text_option(s.installed_version)
                == text_option(version) && s.reason is None && s.managed_by_game_tweaks == (marker matches Some(
                m) && install_marker_valid(m)),
            None => if anti_cheat {
                status matches Err(s) && s.status == BepInExAvailability::Blocked && s.reason == Some(
                    BepInExReason::AntiCheatDetected,
                ) && s.runtime == Some(runtime) && s.architecture == Some(architecture)
            } else {
                status matches Ok(s) && s.status == BepInExAvailability::Installable && s.runtime == Some(runtime)
                    && s.architecture == Some(architecture) && s.installed_version is None && s.reason is None
                    && !s.managed_by_game_tweaks
            },
        },
{
    match installed {
        Some(installed_version) => {
            let managed_by_game_tweaks = match &marker {
                Some(m) => valid_install_marker(m),
                None => false,
            };
            Ok(
                BepInExGameStatus {
                    status: BepInExAvailability::Installed,
                    runtime: Some(runtime),
                    architecture: Some(architecture),
                    installed_version,
                    reason: None,
                    managed_by_game_tweaks,
                },
            )
        },
        None => {
            if anti_cheat {
                return Err(
                    BepInExGameStatus::blocked(BepInExReason::AntiCheatDetected, Some(runtime), Some(architecture)),
                );
            }
            Ok(
                BepInExGameStatus {
                    status: BepInExAvailability::Installable,
                    runtime: Some(runtime),
                    architecture: Some(architecture),
                    installed_version: None,
                    reason: None,
                    managed_by_game_tweaks: false,
                },
            )
        },
    }
}

/// One entry of a directory listing, while looking for the child `wanted`
/// by name up to ASCII case: `Ok(true)` where the entry is that child,
/// `Ok(false)` where it is not, and blocked for an unsafe symbolic link
/// where it is that child but a symbolic link (or of unknown type).
pub fn child_lookup_step(name: &str, wanted: &str, is_symlink: bool) -> (step: Result<bool, BepInExGameStatus>)
    ensures
        step matches Err(st) ==> status_consistent(st),
        !eq_ignore_ascii_case(name@, wanted@) ==> step == Ok::<bool, BepInExGameStatus>(false),
        eq_ignore_ascii_case(name@, wanted@) && !is_symlink ==> step == Ok::<bool, BepInExGameStatus>(true),
        eq_ignore_ascii_case(name@, wanted@) && is_symlink ==> (step matches Err(s) && s.status
            == BepInExAvailability::Blocked && s.reason == Some(BepInExReason::UnsafeSymlink) && s.runtime is None
            && s.architecture is None),
{
    if !str_eq_ignore_ascii_case(name, wanted) {
        Ok(false)
    } else if is_symlink {
        Err(BepInExGameStatus::blocked(BepInExReason::UnsafeSymlink, None, None))
    } else {
        Ok(true)
    }
}

/// How the analysis of a game's installation directory on Windows ended:
/// it stopped because the game is not supported, or because installing is
/// blocked (with what it knew of the runtime and architecture by then), or
/// it found the one Unity executable, with its runtime and architecture,
/// what `installed_bepinex_version` found, the installation marker, and
/// whether an anti-cheat system was found.
pub enum WindowsAnalysis {
    Unsupported(BepInExReason),
    Blocked(BepInExReason, Option<BepInExRuntime>, Option<BepInExArchitecture>),
    Found {
        runtime: BepInExRuntime,
        architecture: BepInExArchitecture,
        installed: Option<Option<String>>,
        marker: Option<InstallMarker>,
        anti_cheat: bool,
    },
}

/// The status reported for a game's installation directory. Automatic
/// installation runs on Windows only: `windows_analysis` is how analysing
/// the directory there ended, and `None` on any other platform. Whatever
/// the analysis found, the status reported is consistent.
pub fn analyze_installation(windows_analysis: Option<WindowsAnalysis>) -> (status: BepInExGameStatus)
    ensures
        status_consistent(status),
        match windows_analysis {
            None => status.status == BepInExAvailability::Unsupported && status.reason == Some(
                BepInExReason::WindowsOnly,
            ) && status.runtime is None && status.architecture is None && status.installed_version is None
                && !status.managed_by_game_tweaks,
            Some(WindowsAnalysis::Unsupported(reason)) => status.status == BepInExAvailability::Unsupported
                && status.reason == Some(reason) && status.runtime is None && status.architecture is None
                && status.installed_version is None && !status.managed_by_game_tweaks,
            Some(WindowsAnalysis::Blocked(reason, runtime, architecture)) => status.status
                == BepInExAvailability::Blocked && status.reason == Some(reason) && status.runtime == runtime
                && status.architecture == architecture && status.installed_version is None
                && !status.managed_by_game_tweaks,
            Some(WindowsAnalysis::Found { runtime, architecture, installed, marker, anti_cheat }) => match installed {
                Some(version) => status.status == BepInExAvailability::Installed && status.runtime == Some(runtime)
                    && status.architecture == Some(architecture) && text_option(status.installed_version)
                    == text_option(version) && status.reason is None && status.managed_by_game_tweaks == (
                marker matches Some(m) && install_marker_valid(m)),
                None => if anti_cheat {
                    status.status == BepInExAvailability::Blocked && status.reason == Some(
                        BepInExReason::AntiCheatDetected,
                    ) && status.runtime == Some(runtime) && status.architecture == Some(architecture)
                } else {
                    status.status == BepInExAvailability::Installable && status.runtime == Some(runtime)
                        && status.architecture == Some(architecture) && status.installed_version is None
                        && status.reason is None && !status.managed_by_game_tweaks
                },
            },
        },
{
    match windows_analysis {
        None => BepInExGameStatus::unsupported(BepInExReason::WindowsOnly),
        Some(WindowsAnalysis::Unsupported(reason)) => BepInExGameStatus::unsupported(reason),
        Some(WindowsAnalysis::Blocked(reason, runtime, architecture)) => BepInExGameStatus::blocked(
            reason,
            runtime,
            architecture,
        ),
        Some(WindowsAnalysis::Found { runtime, architecture, installed, marker, anti_cheat }) => {
            match installation_status(runtime, architecture, installed, marker, anti_cheat) {
                Ok(status) => status,
                Err(status) => status,
            }
        },
    }
}

/// How an analysis that stopped on `status` ended, for a status that gives
/// its reason and is not one that allows an action: `None` for any other.
pub fn stopped_analysis(status: BepInExGameStatus) -> (analysis: Option<WindowsAnalysis>)
    ensures
        match status.reason {
            Some(reason) => if status.status == BepInExAvailability::Unsupported {
                analysis == Some(WindowsAnalysis::Unsupported(reason))
            } else if status.status == BepInExAvailability::Blocked {
                analysis == Some(WindowsAnalysis::Blocked(reason, status.runtime, status.architecture))
            } else {
                analysis is None
            },
            None => analysis is None,
        },
{
    match status.reason {
        Some(reason) => match status.status {
            BepInExAvailability::Unsupported => Some(WindowsAnalysis::Unsupported(reason)),
            BepInExAvailability::Blocked => Some(WindowsAnalysis::Blocked(reason, status.runtime, status.architecture)),
            _ => None,
        },
        None => None,
    }
}

/// A whole installation reports the version of its valid GameTweaks
/// marker, whatever its logs say; without a valid marker, the version in
/// `LogOutput.log`, and only where that log gives none, the one in
/// `LogOutput.txt`.
pub proof fn installed_version_prefers_the_marker(
    files: InstallationFiles,
    marker: Option<InstallMarker>,
    log: Option<String>,
    txt: Option<String>,
    installed: Result<Option<Option<String>>, BepInExGameStatus>,
)
    requires
        call_ensures(installed_bepinex_version, (files, marker, log, txt), installed),
        files.bepinex_exists,
        files.bepinex_is_dir,
        files.doorstop_is_file,
        files.winhttp_is_file,
        files.v5_core_is_file || files.v6_core_is_file,
    ensures
        marker is Some && install_marker_valid(marker->0) ==> (installed matches Ok(Some(Some(v))) && v@
            == marker->0.version@),
        !(marker is Some && install_marker_valid(marker->0)) && log is Some ==> (installed matches Ok(Some(Some(v)))
            && v@ == log->0@),
        !(marker is Some && install_marker_valid(marker->0)) && log is None ==> (installed matches Ok(Some(v))
            && text_option(v) == text_option(txt)),
{
}

} // verus!
