use gametweaks::steam::{
    discover_installed_games, library_configuration_error, library_folders, linux_steam_roots, macos_steam_roots, read_manifest_entry,
    resolve_game, steamapps_directories_for, CandidateState, SteamDiscoveryError, SteamGame,
};
use gametweaks::vdf::{object_value, text_value, VdfParser};

#[test]
fn vdf_parser_handles_comments_unquoted_tokens_and_escapes() {
    let document = VdfParser::parse(
        br#"// comment
                "Root"
                {
                    unquoted "D:\\Steam Library"
                    "quote" "A \"quoted\" value"
                }
            "#,
    )
    .expect("VDF should parse");
    let root = object_value(&document, "root").expect("root object should exist");

    assert_eq!(text_value(root, "unquoted"), Some(r"D:\Steam Library"));
    assert_eq!(text_value(root, "quote"), Some("A \"quoted\" value"));
}

#[test]
fn library_folders_support_legacy_and_current_shapes() {
    let document = VdfParser::parse(
        br#""LibraryFolders" { "1" "/games/LegacyLibrary" "2" { "path" "/games/CurrentLibrary" } }"#,
    )
    .unwrap();
    let folders = object_value(&document, "libraryfolders").unwrap();
    let (libraries, problem) = library_folders(folders);

    assert!(!problem);
    assert_eq!(libraries, vec![(1, "/games/LegacyLibrary".to_owned()), (2, "/games/CurrentLibrary".to_owned())]);
    let legacy = steamapps_directories_for(&libraries[0].1);
    assert!(legacy.contains(&"/games/LegacyLibrary/steamapps".to_owned()));
    let current = steamapps_directories_for(&libraries[1].1);
    assert!(current.contains(&"/games/CurrentLibrary/steamapps".to_owned()));
}

#[test]
fn invalid_numeric_library_entries_are_reported() {
    let document =
        VdfParser::parse(br#""libraryfolders" { "0" { "label" "missing path" } "metadata" "ignored" }"#).unwrap();
    let folders = object_value(&document, "libraryfolders").unwrap();
    let (libraries, problem) = library_folders(folders);

    assert!(problem);
    assert!(libraries.is_empty());
}

#[test]
fn discovery_does_not_report_an_uncertain_empty_result() {
    assert!(discover_installed_games(Vec::new(), true).is_err());
    assert!(discover_installed_games(Vec::new(), false).unwrap().is_empty());
}

#[test]
fn discovery_scans_all_libraries_deduplicates_and_sorts_games() {
    let scanned = vec![
        SteamGame { app_id: 20, name: "Zulu".into() },
        SteamGame { app_id: 10, name: "alpha".into() },
        SteamGame { app_id: 20, name: "Duplicate".into() },
    ];

    let games = discover_installed_games(scanned, false).unwrap();

    assert_eq!(games.len(), 2);
    assert_eq!((games[0].app_id, games[0].name.as_str()), (10, "alpha"));
    assert_eq!((games[1].app_id, games[1].name.as_str()), (20, "Zulu"));
}

#[test]
fn platform_candidates_cover_supported_unix_installations() {
    let home = "/home/person";

    assert!(linux_steam_roots(None, Some(home)).contains(&"/home/person/.local/share/Steam".to_owned()));
    assert!(linux_steam_roots(None, Some(home))
        .contains(&"/home/person/.var/app/com.valvesoftware.Steam/.local/share/Steam".to_owned()));
    assert_eq!(macos_steam_roots(home), vec!["/home/person/Library/Application Support/Steam".to_owned()]);
}

#[test]
fn parser_rejects_unterminated_block_comments() {
    assert!(VdfParser::parse(br#""root" "value" /* unfinished"#).is_none());
}

#[test]
fn manifest_install_directory_must_stay_below_common() {
    let document =
        VdfParser::parse(br#""AppState" { "appid" "1" "name" "Example" "installdir" "." }"#).unwrap();

    assert!(read_manifest_entry(&document, 1).is_none());
}

#[test]
fn games_are_resolved_by_app_id() {
    let games = vec![
        SteamGame { app_id: 10, name: "Ten".to_owned() },
        SteamGame { app_id: 20, name: "Twenty".to_owned() },
    ];
    assert_eq!(resolve_game(Ok(games.clone()), 20).unwrap().name, "Twenty");
    assert_eq!(resolve_game(Ok(games), 30).unwrap_err().code, "bepinex_blocked");
    assert_eq!(resolve_game(Err(SteamDiscoveryError), 10).unwrap_err().code, "bepinex_blocked");
}

#[test]
fn missing_configured_library_does_not_look_like_an_empty_installation() {
    let document = VdfParser::parse(
        br#""libraryfolders" { "0" { "path" "/home/person/.local/share/Steam" } "1" { "path" "/mnt/UnavailableLibrary" } }"#,
    )
    .unwrap();
    let folders = object_value(&document, "libraryfolders").unwrap();
    let (libraries, problem) = library_folders(folders);
    assert!(!problem);
    assert_eq!(libraries.len(), 2);

    // The second library cannot be read, so the scan is incomplete and finds nothing.
    assert!(discover_installed_games(Vec::new(), true).is_err());
}

#[test]
fn manifest_games_have_an_id_and_a_trimmed_name() {
    let document =
        VdfParser::parse(br#""AppState" { "appid" "10" "name" "  Example Game  " "installdir" "Example" }"#).unwrap();
    let (id, name, _) = read_manifest_entry(&document, 10).unwrap();
    assert_eq!((id, name.as_str()), (10, "Example Game"));
    let zero = VdfParser::parse(br#""AppState" { "appid" "0" "name" "Zero" "installdir" "Zero" }"#).unwrap();
    assert!(read_manifest_entry(&zero, 0).is_none());
    let blank = VdfParser::parse(br#""AppState" { "appid" "11" "name" "   " "installdir" "Blank" }"#).unwrap();
    assert!(read_manifest_entry(&blank, 11).is_none());
}

#[test]
fn a_library_needs_one_readable_steamapps_directory() {
    assert!(!library_configuration_error(&vec![CandidateState::Missing, CandidateState::Directory]));
    assert!(!library_configuration_error(&vec![CandidateState::Directory, CandidateState::Directory]));
    assert!(library_configuration_error(&vec![CandidateState::Missing, CandidateState::Missing]));
    assert!(library_configuration_error(&Vec::new()));
    assert!(library_configuration_error(&vec![CandidateState::Directory, CandidateState::NotDirectory]));
    assert!(library_configuration_error(&vec![CandidateState::Unreadable, CandidateState::Directory]));
}
