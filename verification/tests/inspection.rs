use gametweaks::bepinex::{BepInExArchitecture, BepInExAvailability, BepInExReason, BepInExRuntime};
use gametweaks::detection::{
    anti_cheat_scan_step, installed_bepinex_version, log_version, pe_architecture, pe_header_offset,
    unity_candidates, unity_scan_step, valid_install_marker, version_in_line, AntiCheatStep, DataDirectoryFacts,
    InstallMarker, InstallationFiles, ScanStep,
};
use gametweaks::steam::{file_name, join_path, steamapps_directories_for};

#[test]
fn pe_headers_are_read_little_endian() {
    let mut dos = vec![0_u8; 64];
    dos[0] = b'M';
    dos[1] = b'Z';
    dos[0x3c] = 0x80;
    dos[0x3d] = 0x01;
    assert_eq!(pe_header_offset(&dos), Ok(0x180));
    dos[0x3f] = 0x02;
    assert_eq!(pe_header_offset(&dos), Err(BepInExReason::UnsupportedArchitecture));
    assert_eq!(pe_header_offset(&dos[..63]), Err(BepInExReason::UnsupportedArchitecture));
    assert_eq!(pe_architecture(b"PE\0\0\x64\x86"), Ok(BepInExArchitecture::X64));
    assert_eq!(pe_architecture(b"PE\0\0\x4c\x01"), Ok(BepInExArchitecture::X86));
    assert_eq!(pe_architecture(b"PE\0\0\xaa\x64"), Err(BepInExReason::UnsupportedArchitecture));
    assert_eq!(pe_architecture(b"PE\0"), Err(BepInExReason::UnsupportedArchitecture));
}

#[test]
fn directory_walk_decisions() {
    assert_eq!(unity_scan_step(1, false, true, "Example_DATA", 0).unwrap(), ScanStep::DataDirectory);
    assert_eq!(unity_scan_step(1, false, true, "plugins", 1).unwrap(), ScanStep::Descend);
    assert_eq!(unity_scan_step(1, false, true, "plugins", 2).unwrap(), ScanStep::Skip);
    assert_eq!(unity_scan_step(1, false, false, "Example_Data", 0).unwrap(), ScanStep::Skip);
    assert_eq!(unity_scan_step(10_001, false, true, "x", 0).unwrap_err().reason, Some(BepInExReason::InspectionFailed));
    assert_eq!(unity_scan_step(2, true, false, "x", 0).unwrap_err().reason, Some(BepInExReason::UnsafeSymlink));
    assert_eq!(anti_cheat_scan_step(1, false, true, "EasyAntiCheat", 0).unwrap(), AntiCheatStep::Found);
    assert_eq!(anti_cheat_scan_step(1, false, false, "BEService_x64.exe", 2).unwrap(), AntiCheatStep::Found);
    assert_eq!(anti_cheat_scan_step(1, false, true, "Managed", 1).unwrap(), AntiCheatStep::Descend);
    assert_eq!(anti_cheat_scan_step(1, false, false, "game.exe", 0).unwrap(), AntiCheatStep::Skip);
}

#[test]
fn a_directory_with_both_runtimes_is_ambiguous() {
    let both = DataDirectoryFacts { executable: true, managed: true, game_assembly: true, metadata: true };
    let status = unity_candidates(&vec![both]).unwrap_err();
    assert_eq!(status.reason, Some(BepInExReason::AmbiguousRuntime));
    let without_executable = DataDirectoryFacts { executable: false, ..both };
    assert!(unity_candidates(&vec![without_executable]).unwrap().is_empty());
    let mono = DataDirectoryFacts { executable: true, managed: true, game_assembly: true, metadata: false };
    assert_eq!(unity_candidates(&vec![without_executable, mono]).unwrap(), vec![(1, BepInExRuntime::Mono)]);
}

#[test]
fn partial_installations_block() {
    let mut files = InstallationFiles {
        bepinex_exists: false,
        bepinex_is_dir: false,
        doorstop_exists: false,
        doorstop_is_file: false,
        winhttp_exists: false,
        winhttp_is_file: false,
        v5_core_is_file: false,
        v6_core_is_file: false,
    };
    assert_eq!(installed_bepinex_version(files, None, None, None).unwrap(), None);
    files.winhttp_exists = true;
    files.winhttp_is_file = true;
    let status = installed_bepinex_version(files, None, None, None).unwrap_err();
    assert_eq!(status.status, BepInExAvailability::Blocked);
    assert_eq!(status.reason, Some(BepInExReason::ExistingFiles));
    files = InstallationFiles {
        bepinex_exists: true,
        bepinex_is_dir: true,
        doorstop_exists: true,
        doorstop_is_file: true,
        winhttp_exists: true,
        winhttp_is_file: true,
        v5_core_is_file: false,
        v6_core_is_file: true,
    };
    assert_eq!(
        installed_bepinex_version(files, None, None, Some("6.0.0".into())).unwrap(),
        Some(Some("6.0.0".into()))
    );
    assert_eq!(
        installed_bepinex_version(files, None, Some("5.4.21".into()), Some("6.0.0".into())).unwrap(),
        Some(Some("5.4.21".into()))
    );
}

#[test]
fn installation_markers_must_list_plain_relative_files() {
    let mut marker = InstallMarker {
        schema_version: 1,
        app_id: 10,
        version: " 5.4 ".into(),
        runtime: "mono".into(),
        architecture: "x64".into(),
        source: "github-stable".into(),
        asset_name: "package.zip".into(),
        sha256: "a".repeat(64),
        files: vec!["winhttp.dll".into()],
    };
    assert!(valid_install_marker(&marker));
    marker.files.push("../outside.dll".into());
    assert!(!valid_install_marker(&marker));
    marker.files.pop();
    marker.version = "   ".into();
    assert!(!valid_install_marker(&marker));
}

#[test]
fn log_versions_are_read_from_the_first_lines() {
    assert_eq!(version_in_line("[Message:   BepInEx] BepInEx 5.4.23.2 - Game (1/1/2024)"), Some("5.4.23.2".into()));
    assert_eq!(version_in_line("BepInEx (v6.0.0-be.725+e1974e2)"), Some("v6.0.0-be.725+e1974e2".into()));
    assert_eq!(version_in_line("BepInEx loaded"), None);
    assert_eq!(version_in_line("nothing here"), None);
    let log = "first line\r\nChainloader ready\nBepInEx 5.4.22 - Example\nBepInEx 6.0.0\n";
    assert_eq!(log_version(log), Some("5.4.22".into()));
    let mut long = "filler\n".repeat(100);
    long.push_str("BepInEx 5.4.22\n");
    assert_eq!(log_version(&long), None);
}

#[test]
fn unix_paths_join_and_name_their_last_component() {
    assert_eq!(join_path("/home/person", "Steam"), "/home/person/Steam");
    assert_eq!(join_path("/home/person/", "Steam"), "/home/person/Steam");
    assert_eq!(join_path("", "Steam"), "Steam");
    assert_eq!(file_name("/games/SteamApps/"), Some("SteamApps".into()));
    assert_eq!(file_name("/games/SteamApps/."), Some("SteamApps".into()));
    assert_eq!(file_name("/games/.."), None);
    assert_eq!(file_name("/"), None);
    assert_eq!(steamapps_directories_for("/games/STEAMAPPS"), vec!["/games/STEAMAPPS".to_owned()]);
    assert_eq!(
        steamapps_directories_for("/games/Steam"),
        vec!["/games/Steam/steamapps".to_owned(), "/games/Steam/SteamApps".to_owned()]
    );
}
