use gametweaks::bepinex::{
    BepInExArchitecture, BepInExAvailability, BepInExGameStatus, BepInExReason, BepInExRuntime, PackageSource,
};
use gametweaks::detection::{analyze_installation, child_lookup_step, stopped_analysis, WindowsAnalysis};
use gametweaks::processes::{ensure_game_stopped, game_is_running, normalize_windows_path, ProcessImage};
use gametweaks::installs::{
    bepinex_install_marker, check_installable, check_unchanged, install_plan, install_result, BepInExInstallState, InstallTarget,
    ObservedInstall, PreparedInstall,
};
use gametweaks::packages::PackageInfo;
use gametweaks::version::app_overview;

fn target(runtime: BepInExRuntime) -> InstallTarget {
    InstallTarget {
        game_root: "C:/Games/Example".to_owned(),
        executable: "C:/Games/Example/Example.exe".to_owned(),
        runtime,
        architecture: BepInExArchitecture::X64,
    }
}

fn package() -> PackageInfo {
    PackageInfo {
        version: "5.4.23.5".to_owned(),
        asset_name: "BepInEx_win_x64_5.4.23.5.zip".to_owned(),
        download_url: "https://github.com/BepInEx/BepInEx/releases/download/v5.4.23.5/BepInEx_win_x64_5.4.23.5.zip"
            .to_owned(),
        expected_digest: Some("a".repeat(64)),
        source: PackageSource::GitHubStable,
    }
}

fn status(availability: BepInExAvailability) -> BepInExGameStatus {
    BepInExGameStatus {
        status: availability,
        runtime: Some(BepInExRuntime::Mono),
        architecture: Some(BepInExArchitecture::X64),
        installed_version: None,
        reason: None,
        managed_by_game_tweaks: false,
    }
}

fn prepared(app_id: u32, expires_at: u64) -> PreparedInstall {
    PreparedInstall {
        app_id,
        steam_install_directory: "C:/Steam/steamapps/common/Example".to_owned(),
        target: target(BepInExRuntime::Mono),
        executable_size: 4096,
        executable_modified: Some(1_700_000_000_000_000_000),
        package: package(),
        expires_at,
    }
}

fn observed() -> ObservedInstall {
    ObservedInstall {
        current_steam_directory: Some("C:/Steam/steamapps/common/Example".to_owned()),
        confirmed_steam_directory: Some("C:/Steam/steamapps/common/Example".to_owned()),
        analysis: Ok((status(BepInExAvailability::Installable), target(BepInExRuntime::Mono))),
        executable: Some((4096, Some(1_700_000_000_000_000_000))),
    }
}

#[test]
fn installation_analysis_is_windows_only() {
    let elsewhere = analyze_installation(None);
    assert_eq!(elsewhere.status, BepInExAvailability::Unsupported);
    assert_eq!(elsewhere.reason, Some(BepInExReason::WindowsOnly));

    let found = analyze_installation(Some(WindowsAnalysis::Found {
        runtime: BepInExRuntime::Mono,
        architecture: BepInExArchitecture::X64,
        installed: None,
        marker: None,
        anti_cheat: false,
    }));
    assert_eq!(found.status, BepInExAvailability::Installable);
    assert_eq!(found.reason, None);
    let guarded = analyze_installation(Some(WindowsAnalysis::Found {
        runtime: BepInExRuntime::Mono,
        architecture: BepInExArchitecture::X64,
        installed: None,
        marker: None,
        anti_cheat: true,
    }));
    assert_eq!(guarded.reason, Some(BepInExReason::AntiCheatDetected));
    let blocked = analyze_installation(Some(WindowsAnalysis::Blocked(
        BepInExReason::UnsafeSymlink,
        Some(BepInExRuntime::Mono),
        None,
    )));
    assert_eq!(blocked.status, BepInExAvailability::Blocked);
    assert_eq!(blocked.runtime, Some(BepInExRuntime::Mono));
    let stopped = stopped_analysis(BepInExGameStatus::unsupported(BepInExReason::NotUnity)).unwrap();
    assert_eq!(analyze_installation(Some(stopped)).reason, Some(BepInExReason::NotUnity));
    assert!(stopped_analysis(status(BepInExAvailability::Installable)).is_none());
}

#[test]
fn overview_names_the_application() {
    let overview = app_overview(None, 3);
    assert_eq!(overview.name, "GameTweaks");
    assert_eq!(overview.version, "DEV_WORKING");
    assert_eq!(overview.config_version, 3);
    assert_eq!(app_overview(Some("1.2.0"), 1).version, "1.2.0");
}

#[test]
fn install_plans_name_the_release_channel() {
    let mono = install_plan("plan".to_owned(), 10, &target(BepInExRuntime::Mono), &package());
    assert_eq!(mono.release_channel, "stable");
    assert_eq!(mono.version, "5.4.23.5");
    let il2cpp = install_plan("plan".to_owned(), 10, &target(BepInExRuntime::Il2Cpp), &package());
    assert_eq!(il2cpp.release_channel, "bleedingEdge");
    assert_eq!(il2cpp.runtime, BepInExRuntime::Il2Cpp);

    let result = install_result(&prepared(10, 0));
    assert_eq!(result.app_id, 10);
    assert_eq!(result.version, "5.4.23.5");
}

#[test]
fn only_installable_games_get_a_plan() {
    assert_eq!(
        check_installable(false, Ok((status(BepInExAvailability::Installable), target(BepInExRuntime::Mono))))
            .unwrap_err()
            .code,
        "bepinex_unsupported"
    );
    assert_eq!(
        check_installable(true, Ok((status(BepInExAvailability::Installed), target(BepInExRuntime::Mono))))
            .unwrap_err()
            .code,
        "bepinex_already_installed"
    );
    assert_eq!(
        check_installable(true, Err(status(BepInExAvailability::Blocked))).unwrap_err().code,
        "bepinex_blocked"
    );
    let checked =
        check_installable(true, Ok((status(BepInExAvailability::Installable), target(BepInExRuntime::Mono))))
            .unwrap();
    assert_eq!(checked.executable, "C:/Games/Example/Example.exe");
}

#[test]
fn confirmed_installation_must_be_unchanged() {
    assert!(check_unchanged(&prepared(10, 0), observed()).is_ok());

    let mut moved = observed();
    moved.current_steam_directory = Some("D:/Steam/steamapps/common/Example".to_owned());
    let error = check_unchanged(&prepared(10, 0), moved).unwrap_err();
    assert_eq!(error.code, "bepinex_blocked");
    assert!(error.message.contains("Steam installation changed"));

    let mut vanished = observed();
    vanished.confirmed_steam_directory = None;
    assert_eq!(check_unchanged(&prepared(10, 0), vanished).unwrap_err().code, "bepinex_blocked");

    let mut retargeted = observed();
    retargeted.analysis = Ok((status(BepInExAvailability::Installable), target(BepInExRuntime::Il2Cpp)));
    let error = check_unchanged(&prepared(10, 0), retargeted).unwrap_err();
    assert!(error.message.contains("game installation changed"));

    let mut installed = observed();
    installed.analysis = Ok((status(BepInExAvailability::Installed), target(BepInExRuntime::Mono)));
    assert!(check_unchanged(&prepared(10, 0), installed).unwrap_err().message.contains("game installation changed"));

    let mut unsupported = observed();
    unsupported.analysis = Err(status(BepInExAvailability::Unsupported));
    assert_eq!(check_unchanged(&prepared(10, 0), unsupported).unwrap_err().code, "bepinex_unsupported");

    let mut rebuilt = observed();
    rebuilt.executable = Some((4097, Some(1_700_000_000_000_000_000)));
    assert!(check_unchanged(&prepared(10, 0), rebuilt).unwrap_err().message.contains("executable changed"));

    let mut touched = observed();
    touched.executable = Some((4096, None));
    assert!(check_unchanged(&prepared(10, 0), touched).unwrap_err().message.contains("executable changed"));
}

#[test]
fn a_game_keeps_only_its_latest_install_plan() {
    let now = 1_000_000;
    let mut state = BepInExInstallState::new();
    assert!(state.prepare_plan("first".to_owned(), prepared(10, now + 600_000), now).is_ok());
    assert!(state.prepare_plan("other".to_owned(), prepared(11, now + 600_000), now).is_ok());
    assert!(state.prepare_plan("second".to_owned(), prepared(10, now + 600_000), now).is_ok());

    assert_eq!(state.start_install("first", now).unwrap_err().code, "bepinex_plan_expired");
    let plan = state.start_install("second", now).unwrap();
    assert_eq!(plan.app_id, 10);
    assert!(state.is_installing(10));
    assert!(state.start_install("other", now).is_ok());
}

#[test]
fn install_plans_run_once_before_they_expire() {
    let now = 1_000_000;
    let mut state = BepInExInstallState::new();
    assert!(state.prepare_plan("plan".to_owned(), prepared(10, now + 1), now).is_ok());
    let expired = state.start_install("plan", now + 1).unwrap_err();
    assert_eq!(expired.code, "bepinex_plan_expired");
    assert!(expired.message.contains("has expired"));
    assert!(!state.is_installing(10));

    assert!(state.prepare_plan("again".to_owned(), prepared(10, now + 600_000), now).is_ok());
    assert!(state.start_install("again", now).is_ok());
    let missing = state.start_install("again", now).unwrap_err();
    assert!(missing.message.contains("missing or expired"));
}

#[test]
fn a_game_installs_bepinex_once_at_a_time() {
    let now = 1_000_000;
    let mut state = BepInExInstallState::new();
    assert!(state.prepare_plan("one".to_owned(), prepared(10, now + 600_000), now).is_ok());
    assert!(state.start_install("one", now).is_ok());
    assert_eq!(
        state.prepare_plan("two".to_owned(), prepared(10, now + 600_000), now).unwrap_err().code,
        "bepinex_busy"
    );
    state.finish_install(10);
    assert!(!state.is_installing(10));
    assert!(state.prepare_plan("three".to_owned(), prepared(10, now + 600_000), now).is_ok());
    assert!(state.start_install("three", now).is_ok());
}

#[test]
fn windows_paths_are_compared_without_prefix_and_case() {
    assert_eq!(normalize_windows_path(r"\\?\C:/Games/Example/Example.EXE"), r"c:\games\example\example.exe");
    assert_eq!(normalize_windows_path(r"\\?\\\?\D:\Ä.exe"), r"d:\ä.exe");
    assert_eq!(normalize_windows_path(r"C:\Games"), r"c:\games");
    assert_eq!(normalize_windows_path(r"\\?"), r"\\?");
}

#[test]
fn a_running_game_blocks_changes() {
    let path = r"c:\games\example\example.exe";
    let other = ProcessImage { name: "explorer.exe".to_owned(), image: None };
    let copy_elsewhere =
        ProcessImage { name: "Example.exe".to_owned(), image: Some(r"d:\backup\example.exe".to_owned()) };
    let game = ProcessImage { name: "EXAMPLE.exe".to_owned(), image: Some(path.to_owned()) };
    let unreadable = ProcessImage { name: "example.exe".to_owned(), image: None };

    assert!(!game_is_running(&vec![other.clone(), copy_elsewhere.clone()], "Example.exe", path));
    assert!(game_is_running(&vec![other.clone(), game], "Example.exe", path));
    assert!(game_is_running(&vec![unreadable.clone()], "Example.exe", path));
    assert!(ensure_game_stopped(&vec![other, copy_elsewhere], "Example.exe", path).is_ok());
    assert_eq!(ensure_game_stopped(&vec![unreadable], "Example.exe", path).unwrap_err().code, "bepinex_game_running");
}

#[test]
fn child_lookup_refuses_symbolic_links() {
    assert_eq!(child_lookup_step("managed", "Managed", false).unwrap(), true);
    assert_eq!(child_lookup_step("Other", "Managed", true).unwrap(), false);
    let refused = child_lookup_step("MANAGED", "Managed", true).unwrap_err();
    assert_eq!(refused.reason, Some(BepInExReason::UnsafeSymlink));
}

#[test]
fn installation_markers_record_the_package() {
    let marker = bepinex_install_marker(
        10,
        &target(BepInExRuntime::Il2Cpp),
        &package(),
        "b".repeat(64),
        vec!["BepInEx/core/BepInEx.Core.dll".to_owned()],
    );
    assert_eq!(marker.schema_version, 1);
    assert_eq!(marker.runtime, "il2cpp");
    assert_eq!(marker.architecture, "x64");
    assert_eq!(marker.source, "github-stable");
    assert_eq!(marker.version, "5.4.23.5");
    assert_eq!(marker.asset_name, "BepInEx_win_x64_5.4.23.5.zip");
    assert_eq!(marker.files, vec!["BepInEx/core/BepInEx.Core.dll".to_owned()]);
}
