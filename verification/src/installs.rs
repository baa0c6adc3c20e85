//! Confirmed BepInEx installations: the user confirms a plan for one game,
//! the plan runs once before it expires and only while the game is as it
//! was confirmed, and a game installs BepInEx once at a time.
use vstd::prelude::*;

use crate::bepinex::{
    status_code, status_error, BepInExArchitecture, BepInExAvailability, BepInExGameStatus, BepInExRuntime,
    PackageSource,
};
use crate::detection::InstallMarker;
use crate::error::{bepinex_error, ErrorResponse};
use crate::packages::PackageInfo;
use crate::pending::{
    add_game, distinct_ids, entries_map, has_game, kept_entries, no_repeats, put_entry, remove_game, retain_entries,
    take_entry,
};
use crate::text::str_equal;

verus! {

/// Where BepInEx goes in a game: the directory of its Unity executable,
/// the executable, and what the executable was built for.
#[derive(Clone, Debug)]
pub struct InstallTarget {
    pub game_root: String,
    pub executable: String,
    pub runtime: BepInExRuntime,
    pub architecture: BepInExArchitecture,
}

/// A confirmed installation: the game's Steam installation directory and
/// target, the executable's size and modification time (nanoseconds from
/// the Unix epoch, `None` where the file system reports none), the chosen
/// package, and the instant the plan expires at, in milliseconds of the
/// app's monotonic clock.
#[derive(Clone, Debug)]
pub struct PreparedInstall {
    pub app_id: u32,
    pub steam_install_directory: String,
    pub target: InstallTarget,
    pub executable_size: u64,
    pub executable_modified: Option<i128>,
    pub package: PackageInfo,
    pub expires_at: u64,
}

/// What the user is asked to confirm before BepInEx is installed.
#[derive(Clone, Debug)]
pub struct BepInExInstallPlan {
    pub plan_id: String,
    pub app_id: u32,
    pub version: String,
    pub runtime: BepInExRuntime,
    pub architecture: BepInExArchitecture,
    pub release_channel: &'static str,
}

/// What a finished installation reports.
#[derive(Clone, Debug)]
pub struct BepInExInstallResult {
    pub app_id: u32,
    pub version: String,
    pub runtime: BepInExRuntime,
    pub architecture: BepInExArchitecture,
}

/// What is found again when a confirmed installation is about to run.
/// The two directories are the canonical forms of the game's current
/// Steam installation directory and of the confirmed one (`None` where a
/// path no longer resolves); `analysis` is the result of analysing the
/// current installation, with its target; `executable` is the current size
/// and modification time of the target executable, `None` where it cannot
/// be read.
#[derive(Debug)]
pub struct ObservedInstall {
    pub current_steam_directory: Option<String>,
    pub confirmed_steam_directory: Option<String>,
    pub analysis: Result<(BepInExGameStatus, InstallTarget), BepInExGameStatus>,
    pub executable: Option<(u64, Option<i128>)>,
}

/// The release channel that a runtime's packages come from.
pub open spec fn channel_of(runtime: BepInExRuntime) -> Seq<char> {
    match runtime {
        BepInExRuntime::Mono => "stable"@,
        BepInExRuntime::Il2Cpp => "bleedingEdge"@,
    }
}

/// The plan shown for installing `package` into `target`.
pub fn install_plan(plan_id: String, app_id: u32, target: &InstallTarget, package: &PackageInfo) -> (plan:
    BepInExInstallPlan)
    ensures
        plan.plan_id == plan_id,
        plan.app_id == app_id,
        plan.version@ == package.version@,
        plan.runtime == target.runtime,
        plan.architecture == target.architecture,
        plan.release_channel@ == channel_of(target.runtime),
{
    let release_channel = match target.runtime {
        BepInExRuntime::Mono => "stable",
        BepInExRuntime::Il2Cpp => "bleedingEdge",
    };
    BepInExInstallPlan {
        plan_id,
        app_id,
        version: package.version.clone(),
        runtime: target.runtime,
        architecture: target.architecture,
        release_channel,
    }
}

/// What an installation that ran as `prepared` confirmed reports.
pub fn install_result(prepared: &PreparedInstall) -> (result: BepInExInstallResult)
    ensures
        result.app_id == prepared.app_id,
        result.version@ == prepared.package.version@,
        result.runtime == prepared.target.runtime,
        result.architecture == prepared.target.architecture,
{
    BepInExInstallResult {
        app_id: prepared.app_id,
        version: prepared.package.version.clone(),
        runtime: prepared.target.runtime,
        architecture: prepared.target.architecture,
    }
}

/// The marker recorded once a package is installed into a game: the
/// package's version, source and asset, the labels of the target's runtime
/// and architecture, the digest of the downloaded archive and the files the
/// package held.
pub fn bepinex_install_marker(
    app_id: u32,
    target: &InstallTarget,
    package: &PackageInfo,
    sha256: String,
    files: Vec<String>,
) -> (marker: InstallMarker)
    ensures
        marker.schema_version == 1,
        marker.app_id == app_id,
        marker.version@ == package.version@,
        marker.runtime@ == (match target.runtime {
            BepInExRuntime::Mono => "mono"@,
            BepInExRuntime::Il2Cpp => "il2cpp"@,
        }),
        marker.architecture@ == (match target.architecture {
            BepInExArchitecture::X86 => "x86"@,
            BepInExArchitecture::X64 => "x64"@,
        }),
        marker.source@ == (match package.source {
            PackageSource::GitHubStable => "github-stable"@,
            PackageSource::BepInBuilds => "bepinbuilds"@,
        }),
        marker.asset_name@ == package.asset_name@,
        marker.sha256 == sha256,
        marker.files == files,
{
    InstallMarker {
        schema_version: 1,
        app_id,
        version: package.version.clone(),
        runtime: String::from_str(target.runtime.label()),
        architecture: String::from_str(target.architecture.asset_label()),
        source: String::from_str(package.source.label()),
        asset_name: package.asset_name.clone(),
        sha256,
        files,
    }
}

/// Whether two targets name the same directory, executable, runtime and
/// architecture.
pub open spec fn same_target(a: InstallTarget, b: InstallTarget) -> bool {
    &&& a.game_root@ == b.game_root@
    &&& a.executable@ == b.executable@
    &&& a.runtime == b.runtime
    &&& a.architecture == b.architecture
}

/// Whether two targets name the same directory, executable, runtime and
/// architecture.
pub fn targets_match(a: &InstallTarget, b: &InstallTarget) -> (same: bool)
    ensures
        same == same_target(*a, *b),
{
    str_equal(a.game_root.as_str(), b.game_root.as_str()) && str_equal(a.executable.as_str(), b.executable.as_str())
        && a.runtime == b.runtime && a.architecture == b.architecture
}

/// Whether an installation may be planned, on the analysis of the game:
/// only on Windows, and only where analysis found BepInEx installable.
/// The target is handed back where it may.
pub fn check_installable(
    on_windows: bool,
    analysis: Result<(BepInExGameStatus, InstallTarget), BepInExGameStatus>,
) -> (checked: Result<InstallTarget, ErrorResponse>)
    ensures
        !on_windows ==> (checked matches Err(e) && e.code@ == "bepinex_unsupported"@),
        on_windows ==> match analysis {
            Err(status) => checked matches Err(e) && e.code@ == status_code(status.status),
            Ok((status, target)) => if status.status == BepInExAvailability::Installable {
                checked == Ok::<InstallTarget, ErrorResponse>(target)
            } else {
                checked matches Err(e) && e.code@ == status_code(status.status)
            },
        },
{
    if !on_windows {
        return Err(
            bepinex_error("bepinex_unsupported", "automatic BepInEx installation is only available on Windows"),
        );
    }
    match analysis {
        Err(status) => Err(status_error(status)),
        Ok((status, target)) => {
            if status.status != BepInExAvailability::Installable {
                Err(status_error(status))
            } else {
                Ok(target)
            }
        },
    }
}

/// Whether the Steam installation directory is the confirmed one.
pub open spec fn steam_directory_unchanged(observed: ObservedInstall) -> bool {
    &&& observed.current_steam_directory is Some
    &&& observed.confirmed_steam_directory is Some
    &&& observed.current_steam_directory.unwrap()@ == observed.confirmed_steam_directory.unwrap()@
}

/// Whether the analysis still finds BepInEx installable into the confirmed
/// target.
pub open spec fn target_unchanged(prepared: PreparedInstall, observed: ObservedInstall) -> bool {
    observed.analysis matches Ok((status, target)) && status.status == BepInExAvailability::Installable
        && same_target(target, prepared.target)
}

/// Whether the executable still has the confirmed size and modification
/// time.
pub open spec fn executable_unchanged(prepared: PreparedInstall, observed: ObservedInstall) -> bool {
    observed.executable matches Some((size, modified)) && size == prepared.executable_size && modified
        == prepared.executable_modified
}

/// Whether a confirmed installation may still run: the Steam directory, the
/// analysis and the executable are checked in that order, and the first
/// that changed since confirmation blocks the installation. An analysis
/// that fails reports its own status.
pub fn check_unchanged(prepared: &PreparedInstall, observed: ObservedInstall) -> (checked: Result<(), ErrorResponse>)
    ensures
        checked is Ok <==> (steam_directory_unchanged(observed) && target_unchanged(*prepared, observed)
            && executable_unchanged(*prepared, observed)),
        !steam_directory_unchanged(observed) ==> (checked matches Err(e) && e.code@ == "bepinex_blocked"@),
        steam_directory_unchanged(observed) ==> match observed.analysis {
            Err(status) => checked matches Err(e) && e.code@ == status_code(status.status),
            Ok(_) => !target_unchanged(*prepared, observed) ==> (checked matches Err(e) && e.code@
                == "bepinex_blocked"@),
        },
        steam_directory_unchanged(observed) && target_unchanged(*prepared, observed) && !executable_unchanged(
            *prepared,
            observed,
        ) ==> (checked matches Err(e) && e.code@ == "bepinex_blocked"@),
{
    let same_steam_directory = match (&observed.current_steam_directory, &observed.confirmed_steam_directory) {
        (Some(current), Some(confirmed)) => str_equal(current.as_str(), confirmed.as_str()),
        _ => false,
    };
    if !same_steam_directory {
        return Err(bepinex_error("bepinex_blocked", "the Steam installation changed after confirmation"));
    }
    match observed.analysis {
        Err(status) => {
            return Err(status_error(status));
        },
        Ok((status, target)) => {
            if status.status != BepInExAvailability::Installable || !targets_match(&target, &prepared.target) {
                return Err(bepinex_error("bepinex_blocked", "the game installation changed after confirmation"));
            }
        },
    }
    match observed.executable {
        Some((size, modified)) => {
            if size != prepared.executable_size || modified != prepared.executable_modified {
                return Err(bepinex_error("bepinex_blocked", "the game executable changed after confirmation"));
            }
        },
        None => {
            return Err(bepinex_error("bepinex_blocked", "the game executable changed after confirmation"));
        },
    }
    Ok(())
}

/// Whether a plan is still valid at instant `now`.
pub open spec fn valid_at(now: u64) -> spec_fn(PreparedInstall) -> bool {
    |plan: PreparedInstall| plan.expires_at > now
}

/// Whether a plan is for a game other than `app_id`.
pub open spec fn other_game(app_id: u32) -> spec_fn(PreparedInstall) -> bool {
    |plan: PreparedInstall| plan.app_id != app_id
}

/// The plans after `plan` was stored under `id` at instant `now`: expired
/// plans and the game's earlier plans are dropped.
pub open spec fn with_plan(plans: Map<Seq<char>, PreparedInstall>, id: Seq<char>, plan: PreparedInstall, now: u64) -> Map<
    Seq<char>,
    PreparedInstall,
> {
    kept_entries(kept_entries(plans, valid_at(now)), other_game(plan.app_id)).insert(id, plan)
}

/// The pending installation plans, by identifier, and the games whose
/// installation runs.
pub struct BepInExInstallState {
    pending: Vec<(String, PreparedInstall)>,
    installing: Vec<u32>,
}

impl BepInExInstallState {
    #[verifier::type_invariant]
    spec fn well_formed(self) -> bool {
        &&& distinct_ids(self.pending@)
        &&& no_repeats(self.installing@)
    }

    /// The pending plans.
    pub closed spec fn plans(self) -> Map<Seq<char>, PreparedInstall> {
        entries_map(self.pending@)
    }

    /// The games whose installation runs.
    pub closed spec fn installing_games(self) -> Set<u32> {
        self.installing@.to_set()
    }

    /// A state without plans and without running installations.
    pub fn new() -> (state: BepInExInstallState)
        ensures
            state.plans() == Map::<Seq<char>, PreparedInstall>::empty(),
            state.installing_games() == Set::<u32>::empty(),
    {
        let state = BepInExInstallState { pending: Vec::new(), installing: Vec::new() };
        proof {
            assert(entries_map(state.pending@) =~= Map::<Seq<char>, PreparedInstall>::empty());
            assert(state.installing@.to_set() =~= Set::<u32>::empty());
        }
        state
    }

    /// Stores a confirmed plan under `id` at instant `now`. Expired plans
    /// are dropped first; a game whose installation runs is `bepinex_busy`
    /// and gets no plan; otherwise the game's earlier plans give way to this
    /// one.
    pub fn prepare_plan(&mut self, id: String, plan: PreparedInstall, now: u64) -> (result: Result<
        (),
        ErrorResponse,
    >)
        ensures
            final(self).installing_games() == old(self).installing_games(),
            result is Ok <==> !old(self).installing_games().contains(plan.app_id),
            result is Ok ==> final(self).plans() == with_plan(old(self).plans(), id@, plan, now),
            result matches Err(e) ==> e.code@ == "bepinex_busy"@ && final(self).plans() == kept_entries(
                old(self).plans(),
                valid_at(now),
            ),
    {
        proof {
            use_type_invariant(&*self);
        }
        let mut pending: Vec<(String, PreparedInstall)> = Vec::new();
        std::mem::swap(&mut pending, &mut self.pending);
        let valid = |candidate: &PreparedInstall| -> (keep: bool)
            ensures
                keep == (candidate.expires_at > now),
            { candidate.expires_at > now };
        let pending = retain_entries(pending, valid, Ghost(valid_at(now)));
        if has_game(&self.installing, plan.app_id) {
            self.pending = pending;
            return Err(bepinex_error("bepinex_busy", "BepInEx is already being installed for this game"));
        }
        let app_id = plan.app_id;
        let other = |candidate: &PreparedInstall| -> (keep: bool)
            ensures
                keep == (candidate.app_id != app_id),
            { candidate.app_id != app_id };
        let mut pending = retain_entries(pending, other, Ghost(other_game(app_id)));
        put_entry(&mut pending, id, plan);
        self.pending = pending;
        Ok(())
    }

    /// Takes the plan `id` out of the state to run it at instant `now`: a
    /// missing or expired plan is `bepinex_plan_expired`, and a game whose
    /// installation already runs is `bepinex_busy`. The plan is removed in
    /// every case; where it runs, its game is marked as installing.
    pub fn start_install(&mut self, id: &str, now: u64) -> (result: Result<PreparedInstall, ErrorResponse>)
        ensures
            final(self).plans() == old(self).plans().remove(id@),
            !old(self).plans().contains_key(id@) ==> (result matches Err(e) && e.code@ == "bepinex_plan_expired"@
                && final(self).installing_games() == old(self).installing_games()),
            old(self).plans().contains_key(id@) ==> {
                let plan = old(self).plans()[id@];
                if plan.expires_at <= now {
                    result matches Err(e) && e.code@ == "bepinex_plan_expired"@ && final(self).installing_games()
                        == old(self).installing_games()
                } else if old(self).installing_games().contains(plan.app_id) {
                    result matches Err(e) && e.code@ == "bepinex_busy"@ && final(self).installing_games()
                        == old(self).installing_games()
                } else {
                    result == Ok::<PreparedInstall, ErrorResponse>(plan) && final(self).installing_games()
                        == old(self).installing_games().insert(plan.app_id)
                }
            },
    {
        proof {
            use_type_invariant(&*self);
        }
        let mut pending: Vec<(String, PreparedInstall)> = Vec::new();
        std::mem::swap(&mut pending, &mut self.pending);
        let taken = take_entry(&mut pending, id);
        self.pending = pending;
        let plan = match taken {
            Some(plan) => plan,
            None => {
                return Err(
                    bepinex_error("bepinex_plan_expired", "the BepInEx installation plan is missing or expired"),
                );
            },
        };
        if plan.expires_at <= now {
            return Err(bepinex_error("bepinex_plan_expired", "the BepInEx installation plan has expired"));
        }
        let mut installing: Vec<u32> = Vec::new();
        std::mem::swap(&mut installing, &mut self.installing);
        let added = add_game(&mut installing, plan.app_id);
        self.installing = installing;
        if !added {
            proof {
                assert(old(self).installing_games().insert(plan.app_id) =~= old(self).installing_games());
            }
            return Err(bepinex_error("bepinex_busy", "BepInEx is already being installed for this game"));
        }
        Ok(plan)
    }

    /// Marks a game's installation as finished, whatever its outcome.
    pub fn finish_install(&mut self, app_id: u32)
        ensures
            final(self).plans() == old(self).plans(),
            final(self).installing_games() == old(self).installing_games().remove(app_id),
    {
        proof {
            use_type_invariant(&*self);
        }
        let mut installing: Vec<u32> = Vec::new();
        std::mem::swap(&mut installing, &mut self.installing);
        remove_game(&mut installing, app_id);
        self.installing = installing;
    }

    /// Whether a game's installation runs.
    pub fn is_installing(&self, app_id: u32) -> (installing: bool)
        ensures
            installing == self.installing_games().contains(app_id),
    {
        has_game(&self.installing, app_id)
    }
}

/// A game has at most one pending installation plan: the one stored last.
pub proof fn one_plan_per_game(
    plans: Map<Seq<char>, PreparedInstall>,
    id: Seq<char>,
    plan: PreparedInstall,
    now: u64,
    other: Seq<char>,
)
    requires
        with_plan(plans, id, plan, now).contains_key(other),
        with_plan(plans, id, plan, now)[other].app_id == plan.app_id,
    ensures
        other == id,
{
}

/// A stored plan does not outlive its validity: storing a plan at instant
/// `now` keeps no other plan that had expired by then.
pub proof fn stored_plans_are_unexpired(
    plans: Map<Seq<char>, PreparedInstall>,
    id: Seq<char>,
    plan: PreparedInstall,
    now: u64,
    other: Seq<char>,
)
    requires
        with_plan(plans, id, plan, now).contains_key(other),
        other != id,
    ensures
        with_plan(plans, id, plan, now)[other].expires_at > now,
        with_plan(plans, id, plan, now)[other] == plans[other],
{
}

} // verus!
