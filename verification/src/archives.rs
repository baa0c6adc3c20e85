//! The checks that a downloaded archive passes before anything of it is
//! extracted: for a BepInEx package and for a mod release.
use vstd::prelude::*;

use crate::bepinex::BepInExRuntime;
use crate::error::{bepinex_error, mod_error, ErrorResponse};
use crate::catalog::texts;
use crate::mods::{dll_name, is_dll_name};
use crate::paths::{
    safe_relative_path, valid_package_path, validate_archive_path,
    validate_relative_path,
};
use crate::text::{ascii_lowercase, chars_of, lower_chars};

verus! {

/// What the archive's directory says of one entry: whether it is
/// encrypted, its Unix mode where it has one, its path where the archive
/// library considers it enclosed, its uncompressed size, and whether it is
/// a directory.
#[derive(Clone, Debug)]
pub struct ArchiveEntry {
    pub encrypted: bool,
    pub unix_mode: Option<u32>,
    pub path: Option<String>,
    pub size: u64,
    pub is_dir: bool,
}

/// A Unix mode of a symbolic link.
pub open spec fn is_symlink_mode(mode: Option<u32>) -> bool {
    match mode {
        Some(m) => m & 0o170000u32 == 0o120000u32,
        None => false,
    }
}

/// A path with its backslashes turned into slashes.
pub open spec fn forward_slashes(path: Seq<char>) -> Seq<char> {
    path.map_values(|c: char| if c == '\\' { '/' } else { c })
}

/// An archive's entries pass, one after another: none encrypted or a
/// symbolic link, each with a path that `path_ok` accepts, no path twice
/// (with backslashes read as slashes), and a total size within `limit`.
/// Gives the paths seen, the total size, and the paths of the files.
pub open spec fn scan_entries(
    entries: Seq<ArchiveEntry>,
    n: int,
    package: bool,
    limit: int,
) -> Option<(Seq<Seq<char>>, int, Seq<Seq<char>>)>
    decreases n,
{
    if n <= 0 || n > entries.len() {
        Some((Seq::empty(), 0, Seq::empty()))
    } else {
        match scan_entries(entries, n - 1, package, limit) {
            None => None,
            Some((seen, total, files)) => {
                let e = entries[n - 1];
                match e.path {
                    None => None,
                    Some(path) => {
                        let p = forward_slashes(path@);
                        let t = total + e.size;
                        if e.encrypted || is_symlink_mode(e.unix_mode) || !(if package {
                            valid_package_path(path@)
                        } else {
                            safe_relative_path(path@)
                        }) || t > u64::MAX || t > limit || seen.contains(p) {
                            None
                        } else {
                            Some(
                                (
                                    seen.push(p),
                                    t,
                                    if e.is_dir {
                                        files
                                    } else {
                                        files.push(p)
                                    },
                                ),
                            )
                        }
                    },
                }
            },
        }
    }
}

/// The files that a BepInEx package for a runtime must hold.
pub open spec fn required_package_files(runtime: BepInExRuntime) -> Seq<Seq<char>> {
    let doorstop = seq!['d', 'o', 'o', 'r', 's', 't', 'o', 'p', '_', 'c', 'o', 'n', 'f', 'i', 'g', '.', 'i', 'n', 'i'];
    let winhttp = seq!['w', 'i', 'n', 'h', 't', 't', 'p', '.', 'd', 'l', 'l'];
    let core = seq!['B', 'e', 'p', 'I', 'n', 'E', 'x', '/', 'c', 'o', 'r', 'e', '/'];
    match runtime {
        BepInExRuntime::Mono => seq![core + seq!['B', 'e', 'p', 'I', 'n', 'E', 'x', '.', 'd', 'l', 'l'], doorstop, winhttp],
        BepInExRuntime::Il2Cpp => seq![
            core + seq!['B', 'e', 'p', 'I', 'n', 'E', 'x', '.', 'C', 'o', 'r', 'e', '.', 'd', 'l', 'l'],
            core + seq!['B', 'e', 'p', 'I', 'n', 'E', 'x', '.', 'U', 'n', 'i', 't', 'y', '.', 'I', 'L', '2', 'C', 'P', 'P', '.', 'd', 'l', 'l'],
            doorstop,
            winhttp,
        ],
    }
}

/// The most that a BepInEx package may hold when extracted: 1 GiB.
pub open spec fn package_limit() -> int {
    1073741824int
}

/// The most that a mod release may hold when extracted: 256 MiB.
pub open spec fn mod_archive_limit() -> int {
    268435456int
}

/// The files of a valid BepInEx package for `runtime`: 1 to 10000 entries
/// that pass, among them every file the runtime needs.
pub open spec fn package_files(entries: Seq<ArchiveEntry>, runtime: BepInExRuntime) -> Option<Seq<Seq<char>>> {
    if entries.len() == 0 || entries.len() > 10000 {
        None
    } else {
        match scan_entries(entries, entries.len() as int, true, package_limit()) {
            None => None,
            Some((seen, _, files)) => if forall|i: int|
                0 <= i < required_package_files(runtime).len() ==> seen.contains(
                    #[trigger] required_package_files(runtime)[i],
                ) {
                Some(files)
            } else {
                None
            },
        }
    }
}

/// A lowercase path names the file `name`: it is that name, or ends with a
/// slash and that name.
pub open spec fn names_file(lower: Seq<char>, name: Seq<char>) -> bool {
    ||| lower == name
    ||| (lower.len() > name.len() && lower[lower.len() - name.len() - 1] == '/' && lower.subrange(
        lower.len() - name.len(),
        lower.len() as int,
    ) == name)
}

/// A path names, in any ASCII case, one of the agent's shared assemblies,
/// which the app deploys itself and a mod release may not bring along.
pub open spec fn shared_agent_file(path: Seq<char>) -> bool {
    let lower = lower_chars(path);
    ||| names_file(lower, "gametweaks.agent.abstractions.dll"@)
    ||| names_file(lower, "gametweaks.agent.core.dll"@)
    ||| names_file(lower, "gametweaks.agent.mono.dll"@)
    ||| names_file(lower, "gametweaks.agent.il2cpp.dll"@)
}

/// The files of a valid mod release: 1 to 1000 entries that pass, among
/// their files a DLL and none of the agent's shared assemblies.
pub open spec fn mod_archive_files(entries: Seq<ArchiveEntry>) -> Option<Seq<Seq<char>>> {
    if entries.len() == 0 || entries.len() > 1000 {
        None
    } else {
        match scan_entries(entries, entries.len() as int, false, mod_archive_limit()) {
            None => None,
            Some((_, _, files)) => if (exists|i: int| 0 <= i < files.len() && #[trigger] is_dll_name(files[i]))
                && (forall|i: int| 0 <= i < files.len() ==> !#[trigger] shared_agent_file(files[i])) {
                Some(files)
            } else {
                None
            },
        }
    }
}

/// Whether the lowercase path `lower` names the file `name`.
fn names_file_of(lower: &Vec<char>, name: &str) -> (found: bool)
    ensures
        found == names_file(lower@, name@),
{
    let n = chars_of(name);
    let l = lower.len();
    let k = n.len();
    if l < k || (l > k && lower[l - k - 1] != '/') {
        return false;
    }
    let mut i: usize = 0;
    while i < k
        invariant
            n@ == name@,
            l == lower@.len(),
            k == n@.len(),
            k <= l,
            i <= k,
            forall|j: int| 0 <= j < i ==> lower@[l - k + j] == n@[j],
        decreases k - i,
    {
        if lower[l - k + i] != n[i] {
            proof {
                assert(lower@.subrange(l - k, l as int)[i as int] != name@[i as int]);
            }
            return false;
        }
        i = i + 1;
    }
    proof {
        assert(lower@.subrange(l - k, l as int) =~= name@);
        if l == k {
            assert(lower@ =~= name@);
        }
    }
    true
}

/// Whether a path names one of the agent's shared assemblies.
fn is_shared_agent_file(path: &str) -> (shared: bool)
    ensures
        shared == shared_agent_file(path@),
{
    let lower = chars_of(ascii_lowercase(path).as_str());
    names_file_of(&lower, "gametweaks.agent.abstractions.dll") || names_file_of(&lower, "gametweaks.agent.core.dll")
        || names_file_of(&lower, "gametweaks.agent.mono.dll") || names_file_of(&lower, "gametweaks.agent.il2cpp.dll")
}

/// A path with its backslashes turned into slashes.
pub fn with_forward_slashes(path: &str) -> (normalized: String)
    ensures
        normalized@ == forward_slashes(path@),
{
    let chars = chars_of(path);
    let mut out: Vec<char> = Vec::new();
    let mut i: usize = 0;
    while i < chars.len()
        invariant
            chars@ == path@,
            i <= chars@.len(),
            out@ == forward_slashes(path@).take(i as int),
        decreases chars@.len() - i,
    {
        let c = chars[i];
        out.push(if c == '\\' { '/' } else { c });
        proof {
            assert(forward_slashes(path@).take(i + 1) =~= forward_slashes(path@).take(i as int).push(
                if c == '\\' { '/' } else { c },
            ));
        }
        i = i + 1;
    }
    proof {
        assert(forward_slashes(path@).take(i as int) =~= forward_slashes(path@));
        assert(out@.subrange(0, out@.len() as int) =~= out@);
    }
    crate::text::string_of(&out, 0, out.len())
}

/// Once an archive scan fails on a prefix, it fails as a whole.
proof fn lemma_scan_fails(entries: Seq<ArchiveEntry>, n: int, package: bool, limit: int)
    requires
        0 < n <= entries.len(),
        scan_entries(entries, n, package, limit) is None,
    ensures
        scan_entries(entries, entries.len() as int, package, limit) is None,
    decreases entries.len() - n,
{
    if n < entries.len() {
        lemma_scan_fails(entries, n + 1, package, limit);
    }
}

/// Runs the scan of an archive's entries.
fn scan(entries: &Vec<ArchiveEntry>, package: bool, limit: u64) -> (result: Option<(Vec<String>, Vec<String>)>)
    ensures
        match scan_entries(entries@, entries@.len() as int, package, limit as int) {
            Some((seen, _, files)) => result matches Some((s, f)) && texts(s@) == seen && texts(f@)
                == files,
            None => result is None,
        },
{
    let mut seen: Vec<String> = Vec::new();
    let mut files: Vec<String> = Vec::new();
    let mut total: u64 = 0;
    let mut n: usize = 0;
    while n < entries.len()
        invariant
            n <= entries@.len(),
            scan_entries(entries@, n as int, package, limit as int) == Some::<(Seq<Seq<char>>, int, Seq<Seq<char>>)>((texts(seen@), total as int, texts(files@))),
        decreases entries@.len() - n,
    {
        let entry = &entries[n];
        let path = match &entry.path {
            Some(p) => p,
            None => {
                proof {
                    lemma_scan_fails(entries@, n as int + 1, package, limit as int);
                }
                return None;
            },
        };
        let path_ok = if package {
            validate_archive_path(path.as_str()).is_ok()
        } else {
            validate_relative_path(path.as_str()).is_ok()
        };
        let symlink = match entry.unix_mode {
            Some(m) => m & 0o170000u32 == 0o120000u32,
            None => false,
        };
        let normalized = with_forward_slashes(path.as_str());
        if entry.encrypted || symlink || !path_ok || entry.size > limit - total
            || crate::catalog::contains_text(&seen, normalized.as_str()) {
            proof {
                lemma_scan_fails(entries@, n as int + 1, package, limit as int);
            }
            return None;
        }
        total = total + entry.size;
        let ghost old_seen = seen@;
        let ghost old_files = files@;
        if !entry.is_dir {
            files.push(normalized.clone());
        }
        seen.push(normalized);
        proof {
            assert(texts(seen@) =~= texts(old_seen).push(forward_slashes(path@)));
            if !entry.is_dir {
                assert(texts(files@) =~= texts(old_files).push(forward_slashes(path@)));
            } else {
                assert(texts(files@) =~= texts(old_files));
            }
        }
        n = n + 1;
    }
    Some((seen, files))
}

/// Checks the entries of a BepInEx package for `runtime` and returns the
/// paths of its files; every breach is `bepinex_integrity_error`.
pub fn check_package_entries(entries: &Vec<ArchiveEntry>, runtime: BepInExRuntime) -> (result: Result<Vec<String>, ErrorResponse>)
    ensures
        match package_files(entries@, runtime) {
            Some(files) => result matches Ok(f) && texts(f@) == files,
            None => result matches Err(e) && e.code@ == "bepinex_integrity_error"@,
        },
{
    if entries.len() == 0 || entries.len() > 10000 {
        return Err(bepinex_error("bepinex_integrity_error", "the BepInEx archive contained an invalid number of entries"));
    }
    let (seen, files) = match scan(entries, true, 1024 * 1024 * 1024) {
        Some(found) => found,
        None => {
            return Err(bepinex_error("bepinex_integrity_error", "a BepInEx archive entry was invalid"));
        },
    };
    let required: Vec<&str> = match runtime {
        BepInExRuntime::Mono => vec!["BepInEx/core/BepInEx.dll", "doorstop_config.ini", "winhttp.dll"],
        BepInExRuntime::Il2Cpp => vec![
            "BepInEx/core/BepInEx.Core.dll",
            "BepInEx/core/BepInEx.Unity.IL2CPP.dll",
            "doorstop_config.ini",
            "winhttp.dll",
        ],
    };
    proof {
        reveal_strlit("BepInEx/core/BepInEx.dll");
        reveal_strlit("BepInEx/core/BepInEx.Core.dll");
        reveal_strlit("BepInEx/core/BepInEx.Unity.IL2CPP.dll");
        reveal_strlit("doorstop_config.ini");
        reveal_strlit("winhttp.dll");
        assert(required@.len() == required_package_files(runtime).len());
        assert forall|i: int| 0 <= i < required@.len() implies required@[i]@ == required_package_files(runtime)[i] by {
            match runtime {
                BepInExRuntime::Mono => {
                    assert(required@[0]@ =~= required_package_files(runtime)[0]);
                    assert(required@[1]@ =~= required_package_files(runtime)[1]);
                    assert(required@[2]@ =~= required_package_files(runtime)[2]);
                },
                BepInExRuntime::Il2Cpp => {
                    assert(required@[0]@ =~= required_package_files(runtime)[0]);
                    assert(required@[1]@ =~= required_package_files(runtime)[1]);
                    assert(required@[2]@ =~= required_package_files(runtime)[2]);
                    assert(required@[3]@ =~= required_package_files(runtime)[3]);
                },
            }
        }
    }
    let mut i: usize = 0;
    while i < required.len()
        invariant
            0 < entries@.len() <= 10000,
            scan_entries(entries@, entries@.len() as int, true, package_limit()) matches Some((s, _, f)) && s == texts(seen@) && f == texts(files@),
            i <= required@.len(),
            required@.len() == required_package_files(runtime).len(),
            forall|j: int| 0 <= j < required@.len() ==> required@[j]@ == required_package_files(runtime)[j],
            forall|j: int| 0 <= j < i ==> texts(seen@).contains(#[trigger] required_package_files(runtime)[j]),
        decreases required@.len() - i,
    {
        if !crate::catalog::contains_text(&seen, required[i]) {
            proof {
                assert(!texts(seen@).contains(required_package_files(runtime)[i as int]));
            }
            return Err(bepinex_error("bepinex_integrity_error", "the BepInEx archive did not match the detected Unity runtime"));
        }
        i = i + 1;
    }
    Ok(files)
}

/// Checks the entries of a mod release and returns the paths of its files;
/// every breach is `mod_integrity_error`.
pub fn check_mod_archive_entries(entries: &Vec<ArchiveEntry>) -> (result: Result<Vec<String>, ErrorResponse>)
    ensures
        match mod_archive_files(entries@) {
            Some(files) => result matches Ok(f) && texts(f@) == files,
            None => result matches Err(e) && e.code@ == "mod_integrity_error"@,
        },
{
    if entries.len() == 0 || entries.len() > 1000 {
        return Err(mod_error("mod_integrity_error", "the mod archive had an invalid entry count"));
    }
    let (_, files) = match scan(entries, false, 256 * 1024 * 1024) {
        Some(found) => found,
        None => {
            return Err(mod_error("mod_integrity_error", "the mod archive contained an unsafe entry"));
        },
    };
    let mut i: usize = 0;
    while i < files.len()
        invariant
            0 < entries@.len() <= 1000,
            scan_entries(entries@, entries@.len() as int, false, mod_archive_limit()) matches Some((_, _, f)) && f == texts(files@),
            i <= files@.len(),
            forall|j: int| 0 <= j < i ==> !is_dll_name(#[trigger] texts(files@)[j]),
        ensures
            i <= files@.len(),
            forall|j: int| 0 <= j < i ==> !is_dll_name(#[trigger] texts(files@)[j]),
            i < files@.len() ==> is_dll_name(texts(files@)[i as int]),
        decreases files@.len() - i,
    {
        if dll_name(files[i].as_str()) {
            proof {
                assert(is_dll_name(texts(files@)[i as int]));
            }
            break;
        }
        i = i + 1;
    }
    if i == files.len() {
        return Err(mod_error("mod_integrity_error", "the mod archive contained no plugin DLL"));
    }
    let ghost dll = i as int;
    let mut j: usize = 0;
    while j < files.len()
        invariant
            0 < entries@.len() <= 1000,
            scan_entries(entries@, entries@.len() as int, false, mod_archive_limit()) matches Some((_, _, f)) && f == texts(files@),
            0 <= dll < files@.len(),
            is_dll_name(texts(files@)[dll]),
            j <= files@.len(),
            forall|m: int| 0 <= m < j ==> !shared_agent_file(#[trigger] texts(files@)[m]),
        decreases files@.len() - j,
    {
        if is_shared_agent_file(files[j].as_str()) {
            proof {
                assert(shared_agent_file(texts(files@)[j as int]));
            }
            return Err(mod_error("mod_integrity_error", "the mod archive bundled a shared GameTweaks agent assembly"));
        }
        j = j + 1;
    }
    Ok(files)
}

/// An entry that may be extracted on its own: it has a path that the kind
/// of archive accepts, and is neither encrypted nor a symbolic link.
pub open spec fn entry_acceptable(entry: ArchiveEntry, package: bool) -> bool {
    &&& entry.path matches Some(path) && (if package {
        valid_package_path(path@)
    } else {
        safe_relative_path(path@)
    })
    &&& !entry.encrypted
    &&& !is_symlink_mode(entry.unix_mode)
}

/// An entry's path with backslashes read as slashes.
pub open spec fn entry_path(entry: ArchiveEntry) -> Seq<char> {
    match entry.path {
        Some(path) => forward_slashes(path@),
        None => Seq::empty(),
    }
}

/// The sizes of the first `n` entries added up.
pub open spec fn total_size(entries: Seq<ArchiveEntry>, n: int) -> int
    decreases n,
{
    if n <= 0 || n > entries.len() {
        0
    } else {
        total_size(entries, n - 1) + entries[n - 1].size
    }
}

proof fn lemma_total_size_grows(entries: Seq<ArchiveEntry>, m: int, n: int)
    requires
        0 <= m <= n <= entries.len(),
    ensures
        0 <= total_size(entries, m) <= total_size(entries, n),
    decreases n,
{
    if n > 0 {
        if m < n {
            lemma_total_size_grows(entries, m, n - 1);
        } else {
            lemma_total_size_grows(entries, 0, n - 1);
        }
    }
}

/// Each of the first `n` entries may be extracted on its own, no two have
/// the same path, and their sizes add up to at most the limit and to what
/// 64 bits hold.
pub open spec fn entries_acceptable(entries: Seq<ArchiveEntry>, n: int, package: bool, limit: int) -> bool {
    &&& forall|i: int| 0 <= i < n ==> entry_acceptable(#[trigger] entries[i], package)
    &&& forall|i: int, j: int| 0 <= i < j < n ==> entry_path(#[trigger] entries[i]) != entry_path(#[trigger] entries[j])
    &&& total_size(entries, n) <= limit
    &&& total_size(entries, n) <= u64::MAX
}

/// The first `n` entries of an archive pass the checks exactly when each
/// may be extracted on its own, no two have the same path, and their sizes
/// add up to at most the limit (and to what 64 bits hold); the paths seen
/// are then those of the entries, in order, and the total their sizes.
pub proof fn archive_scan_accepts_exactly(entries: Seq<ArchiveEntry>, n: int, package: bool, limit: int)
    requires
        0 <= n <= entries.len(),
        0 <= limit,
    ensures
        (scan_entries(entries, n, package, limit) is Some) <==> entries_acceptable(entries, n, package, limit),
        scan_entries(entries, n, package, limit) matches Some((seen, total, _)) ==> total == total_size(entries, n)
            && seen == Seq::new(n as nat, |i: int| entry_path(entries[i])),
    decreases n,
{
    if n > 0 {
        archive_scan_accepts_exactly(entries, n - 1, package, limit);
        lemma_total_size_grows(entries, n - 1, n);
        let e = entries[n - 1];
        if entries_acceptable(entries, n, package, limit) {
            assert(entry_acceptable(entries[n - 1], package));
            assert forall|i: int, j: int| 0 <= i < j < n - 1 implies entry_path(#[trigger] entries[i]) != entry_path(
                #[trigger] entries[j],
            ) by {
                assert(entry_path(entries[i]) != entry_path(entries[j]));
            }
            assert(entries_acceptable(entries, n - 1, package, limit));
        }
        match scan_entries(entries, n - 1, package, limit) {
            Some((seen, total, files)) => {
                assert(seen == Seq::new((n - 1) as nat, |i: int| entry_path(entries[i])));
                assert(total_size(entries, n) == total + e.size);
                if seen.contains(entry_path(e)) {
                    let k = choose|k: int| 0 <= k < seen.len() && seen[k] == entry_path(e);
                    assert(entry_path(entries[k]) == entry_path(entries[n - 1]));
                    assert(!entries_acceptable(entries, n, package, limit));
                }
                match scan_entries(entries, n, package, limit) {
                    Some((seen2, _, _)) => {
                        assert(seen2 =~= Seq::new(n as nat, |i: int| entry_path(entries[i])));
                        assert forall|i: int, j: int| 0 <= i < j < n implies entry_path(#[trigger] entries[i])
                            != entry_path(#[trigger] entries[j]) by {
                            if j == n - 1 {
                                assert(seen[i] == entry_path(entries[i]));
                            } else {
                                assert(entry_path(entries[i]) != entry_path(entries[j]));
                            }
                        }
                        assert forall|i: int| 0 <= i < n implies entry_acceptable(#[trigger] entries[i], package) by {
                            if i < n - 1 {
                                assert(entry_acceptable(entries[i], package));
                            }
                        }
                        assert(entries_acceptable(entries, n, package, limit));
                    },
                    None => {},
                }
            },
            None => {},
        }
    }
}

} // verus!
