use vstd::prelude::*;
use vstd::utf8::{encode_utf8, is_char_boundary};

use crate::error::{bepinex_error, ErrorResponse};
use crate::text::{ascii_fold_eq, ascii_fold_eq_bytes};

verus! {

/// The scripting runtime of a Unity game.
#[derive(Clone, Copy, Debug, PartialEq, Eq, Structural)]
pub enum BepInExRuntime {
    Mono,
    Il2Cpp,
}

impl BepInExRuntime {
    /// The label recorded in installation markers.
    pub fn label(self) -> (label: &'static str)
        ensures
            label@ == (match self {
                BepInExRuntime::Mono => "mono"@,
                BepInExRuntime::Il2Cpp => "il2cpp"@,
            }),
    {
        match self {
            BepInExRuntime::Mono => "mono",
            BepInExRuntime::Il2Cpp => "il2cpp",
        }
    }
}

/// The processor architecture of a game executable.
#[derive(Clone, Copy, Debug, PartialEq, Eq, Structural)]
pub enum BepInExArchitecture {
    X86,
    X64,
}

impl BepInExArchitecture {
    /// The label used in BepInEx package names.
    pub fn asset_label(self) -> (label: &'static str)
        ensures
            label@ == (match self {
                BepInExArchitecture::X86 => "x86"@,
                BepInExArchitecture::X64 => "x64"@,
            }),
    {
        match self {
            BepInExArchitecture::X86 => "x86",
            BepInExArchitecture::X64 => "x64",
        }
    }
}


/// Whether BepInEx can be installed into a game.
#[derive(Clone, Copy, Debug, PartialEq, Eq, Structural)]
pub enum BepInExAvailability {
    Installable,
    Installed,
    Unsupported,
    Blocked,
}

/// Why BepInEx cannot be installed automatically.
#[derive(Clone, Copy, Debug, PartialEq, Eq, Structural)]
pub enum BepInExReason {
    WindowsOnly,
    NotUnity,
    AmbiguousExecutable,
    AmbiguousRuntime,
    UnsupportedArchitecture,
    InspectionFailed,
    UnsafeSymlink,
    AntiCheatDetected,
    ExistingFiles,
}

/// What the analysis of a game's installation found.
#[derive(Clone, Debug)]
pub struct BepInExGameStatus {
    pub status: BepInExAvailability,
    pub runtime: Option<BepInExRuntime>,
    pub architecture: Option<BepInExArchitecture>,
    pub installed_version: Option<String>,
    pub reason: Option<BepInExReason>,
    pub managed_by_game_tweaks: bool,
}

/// How the fields of a status hang together: a reason is given exactly
/// when BepInEx can neither be installed nor is installed; without a reason
/// the runtime and architecture are known; only an installation can be
/// managed by GameTweaks or have a version; an unsupported game has no
/// known runtime.
pub open spec fn status_consistent(s: BepInExGameStatus) -> bool {
    &&& (s.reason is None <==> (s.status == BepInExAvailability::Installable || s.status
        == BepInExAvailability::Installed))
    &&& (s.reason is None ==> s.runtime is Some && s.architecture is Some)
    &&& (s.managed_by_game_tweaks ==> s.status == BepInExAvailability::Installed)
    &&& (s.installed_version is Some ==> s.status == BepInExAvailability::Installed)
    &&& (s.status == BepInExAvailability::Unsupported ==> s.runtime is None)
}

impl BepInExGameStatus {
    /// A game that automatic installation does not support, for `reason`.
    pub fn unsupported(reason: BepInExReason) -> (status: BepInExGameStatus)
        ensures
            status.status == BepInExAvailability::Unsupported,
            status.runtime is None,
            status.architecture is None,
            status.installed_version is None,
            status.reason == Some(reason),
            !status.managed_by_game_tweaks,
            status_consistent(status),
    {
        BepInExGameStatus {
            status: BepInExAvailability::Unsupported,
            runtime: None,
            architecture: None,
            installed_version: None,
            reason: Some(reason),
            managed_by_game_tweaks: false,
        }
    }

    /// A game where automatic installation is blocked, for `reason`, with
    /// what is known of its runtime and architecture.
    pub fn blocked(
        reason: BepInExReason,
        runtime: Option<BepInExRuntime>,
        architecture: Option<BepInExArchitecture>,
    ) -> (status: BepInExGameStatus)
        ensures
            status.status == BepInExAvailability::Blocked,
            status.runtime == runtime,
            status.architecture == architecture,
            status.installed_version is None,
            status.reason == Some(reason),
            !status.managed_by_game_tweaks,
            status_consistent(status),
    {
        BepInExGameStatus {
            status: BepInExAvailability::Blocked,
            runtime,
            architecture,
            installed_version: None,
            reason: Some(reason),
            managed_by_game_tweaks: false,
        }
    }
}

/// Where a BepInEx package comes from.
#[derive(Clone, Copy, Debug, PartialEq, Eq, Structural)]
pub enum PackageSource {
    GitHubStable,
    BepInBuilds,
}

impl PackageSource {
    /// The label recorded in installation markers.
    pub fn label(self) -> (label: &'static str)
        ensures
            label@ == (match self {
                PackageSource::GitHubStable => "github-stable"@,
                PackageSource::BepInBuilds => "bepinbuilds"@,
            }),
    {
        match self {
            PackageSource::GitHubStable => "github-stable",
            PackageSource::BepInBuilds => "bepinbuilds",
        }
    }
}

/// `value` without `suffix` at its end, compared without regard to ASCII
/// case, byte by byte as `str::eq_ignore_ascii_case` does; `None` where it
/// does not end so. Cutting a character in two is left out, as slicing
/// there panics.
pub fn strip_suffix_ignore_ascii_case<'a>(value: &'a str, suffix: &str) -> (stripped: Option<&'a str>)
    requires
        encode_utf8(value@).len() < encode_utf8(suffix@).len() || is_char_boundary(
            encode_utf8(value@),
            encode_utf8(value@).len() - encode_utf8(suffix@).len(),
        ),
    ensures
        ({
            let v = encode_utf8(value@);
            let s = encode_utf8(suffix@);
            let start = v.len() - s.len();
            match stripped {
                Some(head) => v.len() >= s.len() && ascii_fold_eq(v.subrange(start, v.len() as int), s)
                    && encode_utf8(head@) == v.subrange(0, start),
                None => !(v.len() >= s.len() && ascii_fold_eq(v.subrange(start, v.len() as int), s)),
            }
        }),
{
    let v = value.as_bytes();
    let s = suffix.as_bytes();
    if v.len() < s.len() {
        return None;
    }
    let start = v.len() - s.len();
    let tail = vstd::slice::slice_subrange(v, start, v.len());
    if ascii_fold_eq_bytes(tail, s) {
        let (head, _) = value.split_at(start);
        Some(head)
    } else {
        None
    }
}

/// A trimmed, lowercased file name is that of an anti-cheat system:
/// EasyAntiCheat, BattlEye or their launchers, services and libraries.
pub open spec fn anti_cheat_name(name: Seq<char>) -> bool {
    let eac = seq!['e', 'a', 's', 'y', 'a', 'n', 't', 'i', 'c', 'h', 'e', 'a', 't'];
    let exe = seq!['.', 'e', 'x', 'e'];
    let dll = seq!['.', 'd', 'l', 'l'];
    ||| name == eac
    ||| name == eac + seq!['_', 'e', 'o', 's']
    ||| name == seq!['b', 'a', 't', 't', 'l', 'e', 'y', 'e']
    ||| name == seq!['s', 't', 'a', 'r', 't', '_', 'p', 'r', 'o', 't', 'e', 'c', 't', 'e', 'd', '_',
        'g', 'a', 'm', 'e'] + exe
    ||| (starts_with(name, eac) && (ends_with(name, exe) || ends_with(name, dll)))
    ||| (starts_with(name, seq!['b', 'e', 's', 'e', 'r', 'v', 'i', 'c', 'e']) && ends_with(name, exe))
    ||| (starts_with(name, seq!['b', 'e', 'c', 'l', 'i', 'e', 'n', 't']) && ends_with(name, dll))
}

/// `s` begins with `p`.
pub open spec fn starts_with(s: Seq<char>, p: Seq<char>) -> bool {
    p.len() <= s.len() && s.subrange(0, p.len() as int) == p
}

/// `s` ends with `p`.
pub open spec fn ends_with(s: Seq<char>, p: Seq<char>) -> bool {
    p.len() <= s.len() && s.subrange(s.len() - p.len(), s.len() as int) == p
}

/// Whether `s` begins with `p`.
pub fn text_starts_with(s: &str, p: &str) -> (found: bool)
    ensures
        found == starts_with(s@, p@),
{
    let a = crate::text::chars_of(s);
    let b = crate::text::chars_of(p);
    if b.len() > a.len() {
        return false;
    }
    let mut i: usize = 0;
    while i < b.len()
        invariant
            a@ == s@,
            b@ == p@,
            b@.len() <= a@.len(),
            i <= b@.len(),
            forall|j: int| 0 <= j < i ==> a@[j] == b@[j],
        decreases b@.len() - i,
    {
        if a[i] != b[i] {
            return false;
        }
        i = i + 1;
    }
    proof {
        assert(s@.subrange(0, p@.len() as int) =~= p@);
    }
    true
}

/// Whether `s` ends with `p`.
pub fn text_ends_with(s: &str, p: &str) -> (found: bool)
    ensures
        found == ends_with(s@, p@),
{
    let a = crate::text::chars_of(s);
    let b = crate::text::chars_of(p);
    if b.len() > a.len() {
        return false;
    }
    let n = a.len();
    let offset = n - b.len();
    let mut i: usize = 0;
    while i < b.len()
        invariant
            n == a@.len(),
            a@ == s@,
            b@ == p@,
            b@.len() <= a@.len(),
            offset == a@.len() - b@.len(),
            i <= b@.len(),
            forall|j: int| 0 <= j < i ==> a@[offset + j] == b@[j],
        decreases b@.len() - i,
    {
        assert(offset + i < n);
        if a[offset + i] != b[i] {
            proof {
                assert(s@.subrange(offset as int, s@.len() as int)[i as int] == a@[offset + i]);
            }
            return false;
        }
        i = i + 1;
    }
    proof {
        assert(s@.subrange(offset as int, s@.len() as int) =~= p@);
    }
    true
}

/// Whether a lowercased file name is that of an anti-cheat system.
pub fn is_anti_cheat_name(name: &str) -> (found: bool)
    ensures
        found == anti_cheat_name(name@),
{
    let eac = "easyanticheat";
    let eac_eos = "easyanticheat_eos";
    let battleye = "battleye";
    let launcher = "start_protected_game.exe";
    let exe = ".exe";
    let dll = ".dll";
    let service = "beservice";
    let client = "beclient";
    proof {
        reveal_strlit("easyanticheat");
        reveal_strlit("easyanticheat_eos");
        reveal_strlit("battleye");
        reveal_strlit("start_protected_game.exe");
        reveal_strlit(".exe");
        reveal_strlit(".dll");
        reveal_strlit("beservice");
        reveal_strlit("beclient");
        assert(eac@ =~= seq!['e', 'a', 's', 'y', 'a', 'n', 't', 'i', 'c', 'h', 'e', 'a', 't']);
        assert(eac_eos@ =~= eac@ + seq!['_', 'e', 'o', 's']);
        assert(battleye@ =~= seq!['b', 'a', 't', 't', 'l', 'e', 'y', 'e']);
        assert(exe@ =~= seq!['.', 'e', 'x', 'e']);
        assert(dll@ =~= seq!['.', 'd', 'l', 'l']);
        assert(launcher@ =~= seq!['s', 't', 'a', 'r', 't', '_', 'p', 'r', 'o', 't', 'e', 'c', 't', 'e', 'd',
            '_', 'g', 'a', 'm', 'e'] + exe@);
        assert(service@ =~= seq!['b', 'e', 's', 'e', 'r', 'v', 'i', 'c', 'e']);
        assert(client@ =~= seq!['b', 'e', 'c', 'l', 'i', 'e', 'n', 't']);
    }
    crate::text::str_equal(name, eac) || crate::text::str_equal(name, eac_eos)
        || crate::text::str_equal(name, battleye) || crate::text::str_equal(name, launcher) || (
    text_starts_with(name, eac) && (text_ends_with(name, exe) || text_ends_with(name, dll))) || (
    text_starts_with(name, service) && text_ends_with(name, exe)) || (text_starts_with(name, client)
        && text_ends_with(name, dll))
}

/// The error that reports an installation status to the frontend.
pub open spec fn status_code(status: BepInExAvailability) -> Seq<char> {
    match status {
        BepInExAvailability::Installed => "bepinex_already_installed"@,
        BepInExAvailability::Unsupported => "bepinex_unsupported"@,
        BepInExAvailability::Blocked => "bepinex_blocked"@,
        BepInExAvailability::Installable => "bepinex_blocked"@,
    }
}

/// Turns an installation status into the error reported to the frontend.
pub fn status_error(status: BepInExGameStatus) -> (error: ErrorResponse)
    ensures
        error.code@ == status_code(status.status),
{
    match status.status {
        BepInExAvailability::Installed => bepinex_error(
            "bepinex_already_installed",
            "BepInEx is already installed for this game",
        ),
        BepInExAvailability::Unsupported => bepinex_error(
            "bepinex_unsupported",
            "this game is not supported for automatic BepInEx installation",
        ),
        BepInExAvailability::Blocked => bepinex_error(
            "bepinex_blocked",
            "automatic BepInEx installation is blocked for this game",
        ),
        BepInExAvailability::Installable => bepinex_error(
            "bepinex_blocked",
            "the BepInEx installation state was inconsistent",
        ),
    }
}

/// The percentage of a download, where its size is known and not zero:
/// `downloaded * 100 / total`, saturating, at most 100.
pub open spec fn spec_percentage(downloaded: u64, total: Option<u64>) -> Option<u64> {
    match total {
        Some(t) => if t > 0 {
            let scaled = if downloaded * 100 > u64::MAX {
                u64::MAX as int
            } else {
                downloaded * 100
            };
            Some(
                if scaled / (t as int) > 100 {
                    100u64
                } else {
                    (scaled / (t as int)) as u64
                },
            )
        } else {
            None
        },
        None => None,
    }
}

/// The percentage of a download for a progress event.
pub fn progress_percentage(downloaded: u64, total: Option<u64>) -> (percentage: Option<u64>)
    ensures
        percentage == spec_percentage(downloaded, total),
{
    match total {
        Some(t) => {
            if t > 0 {
                let scaled: u64 = if downloaded > u64::MAX / 100 {
                    u64::MAX
                } else {
                    downloaded * 100
                };
                let share = scaled / t;
                Some(
                    if share > 100 {
                        100
                    } else {
                        share
                    },
                )
            } else {
                None
            }
        },
        None => None,
    }
}

} // verus!
