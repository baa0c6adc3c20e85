use gametweaks::agent::{
    bundled_agent_meets, challenge_proof, decode_hex, encode_lower_hex, frame_length, frame_prefix,
    status_after_change, connection_status, AgentConnectionStatus, MAX_FRAME_BYTES,
};
use gametweaks::catalog::{resolve_install_set, ModCompatibility, ModDefinition, ModDependency, ModIntegration, ModRelease};
use gametweaks::bepinex::{BepInExArchitecture, BepInExRuntime};
use gametweaks::download::sha256_hex;
use gametweaks::fields::{BooleanDisplay, ConfigApplyMode, ConfigField, ConfigValue, LocalizedText};
use gametweaks::mods::{GameMod, GameModStatus};
use gametweaks::agent::AgentModSnapshot;
use gametweaks::overlay::{merge_runtime_fields, overlay_snapshot};
use gametweaks::steam::{discover_installed_games, SteamGame};
use hmac::Mac;

fn text(value: &str) -> LocalizedText {
    LocalizedText { en: value.to_owned(), de: None }
}

fn definition(mod_id: &str, dependencies: &[&str]) -> ModDefinition {
    ModDefinition {
        schema_version: 1,
        mod_id: mod_id.to_owned(),
        guid: format!("dev.gametweaks.{mod_id}"),
        version: "1.0.0".to_owned(),
        official: false,
        name: text(mod_id),
        description: text(mod_id),
        integration: ModIntegration::ConfigFile,
        compatibility: ModCompatibility {
            runtime: BepInExRuntime::Mono,
            architectures: vec![BepInExArchitecture::X64],
            minimum_agent_version: None,
        },
        release: ModRelease {
            repository: "gametweaks/test-mod".to_owned(),
            tag: "test-1.0.0".to_owned(),
            asset: "test.zip".to_owned(),
            sha256: "a".repeat(64),
        },
        dependencies: dependencies
            .iter()
            .map(|d| ModDependency { mod_id: (*d).to_owned(), minimum_version: "1.0.0".to_owned() })
            .collect(),
        conflicts: Vec::new(),
        config: Vec::new(),
    }
}

fn flag(id: &str, default: bool, locked: bool) -> ConfigField {
    let mut key = id.to_owned();
    key[..1].make_ascii_uppercase();
    ConfigField::Boolean {
        id: id.to_owned(),
        section: "General".to_owned(),
        key,
        label: text(id),
        description: None,
        locked,
        default,
        apply_mode: ConfigApplyMode::Live,
        display: BooleanDisplay::Switch,
    }
}

#[test]
fn frame_prefixes_read_back_as_their_length() {
    for length in [1_usize, 2, 255, 256, 65_536, MAX_FRAME_BYTES] {
        let prefix = frame_prefix(length).unwrap();
        assert_eq!(prefix, (length as u32).to_le_bytes());
        assert_eq!(frame_length(prefix), Some(length));
    }
    assert!(frame_prefix(MAX_FRAME_BYTES + 1).is_none());
    assert!(frame_length([0, 0, 0, 0]).is_none());
}

#[test]
fn hexadecimal_round_trip() {
    let bytes = vec![0x00_u8, 0x0f, 0x10, 0xab, 0xff];
    let encoded = encode_lower_hex(&bytes);
    assert_eq!(encoded, "000f10abff");
    assert_eq!(decode_hex(&encoded), Some(bytes));
    assert_eq!(decode_hex("ABcd"), Some(vec![0xab, 0xcd]));
    assert_eq!(decode_hex("abc"), None);
    assert_eq!(decode_hex("zz"), None);
}

#[test]
fn install_order_puts_every_dependency_first() {
    let definitions = vec![
        definition("top", &["middle", "base"]),
        definition("middle", &["base"]),
        definition("base", &[]),
    ];
    let order = resolve_install_set(&definitions, &vec!["top".to_owned(), "middle".to_owned()]).unwrap();
    assert_eq!(order, vec!["base", "middle", "top"]);
}

#[test]
fn install_order_holds_only_requested_mods_and_their_dependencies() {
    let definitions = vec![
        definition("unrelated", &["base"]),
        definition("top", &["base", "base"]),
        definition("base", &[]),
        definition("spare", &[]),
    ];
    let order = resolve_install_set(&definitions, &vec!["top".to_owned(), "top".to_owned()]).unwrap();
    assert_eq!(order, vec!["base", "top"]);
}

#[test]
fn missing_dependencies_are_reported() {
    let definitions = vec![definition("top", &["absent"])];
    let error = resolve_install_set(&definitions, &vec!["top".to_owned()]).unwrap_err();
    assert_eq!(error.code, "mod_not_found");
    let cycle = vec![definition("one", &["one"])];
    assert_eq!(resolve_install_set(&cycle, &vec!["one".to_owned()]).unwrap_err().code, "catalog_invalid");
}

#[test]
fn merging_keeps_known_fields_in_place() {
    let mut fields = vec![flag("first", false, false), flag("second", false, false)];
    assert!(fields[0].valid_for_agent());
    merge_runtime_fields(
        &mut fields,
        vec![flag("third", true, false), flag("first", false, false), flag("second", true, false)],
    );
    assert_eq!(fields.len(), 3);
    assert_eq!(fields[0].id(), "first");
    assert!(!fields[0].is_locked());
    assert_eq!(fields[1].id(), "second");
    assert!(fields[1].is_locked());
    assert_eq!(fields[2].id(), "third");
}

#[test]
fn locked_settings_keep_their_values() {
    let mut game_mod = GameMod {
        mod_id: "example".to_owned(),
        guid: "dev.example".to_owned(),
        version: "1.0.0".to_owned(),
        installed_version: Some("1.0.0".to_owned()),
        official: true,
        external: false,
        name: text("Example"),
        description: text("Example"),
        integration: ModIntegration::Agent,
        status: GameModStatus::Installed,
        dependencies: Vec::new(),
        conflicts: Vec::new(),
        config: vec![flag("locked", false, false), flag("open", false, false)],
        values: vec![("locked".to_owned(), ConfigValue::Bool(false)), ("open".to_owned(), ConfigValue::Bool(false))],
        restart_required: false,
    };
    let snapshot = AgentModSnapshot {
        mod_id: "example".to_owned(),
        version: "1.0.0".to_owned(),
        name: text("Example"),
        description: text("Example"),
        fields: vec![flag("locked", true, false)],
        values: vec![
            ("locked".to_owned(), ConfigValue::Bool(true)),
            ("open".to_owned(), ConfigValue::Bool(true)),
            ("new".to_owned(), ConfigValue::Bool(true)),
        ],
    };
    overlay_snapshot(&mut game_mod, snapshot);
    assert!(game_mod.config[0].is_locked());
    assert!(matches!(game_mod.values[0].1, ConfigValue::Bool(false)));
    assert!(matches!(game_mod.values[1].1, ConfigValue::Bool(true)));
    assert_eq!(game_mod.values.len(), 3);
    assert_eq!(game_mod.values[2].0, "new");
}

#[test]
fn discovery_reports_each_game_once() {
    let scanned = vec![
        SteamGame { app_id: 5, name: "beta".into() },
        SteamGame { app_id: 5, name: "Beta copy".into() },
        SteamGame { app_id: 7, name: "Alpha".into() },
        SteamGame { app_id: 6, name: "alpha".into() },
    ];
    let games = discover_installed_games(scanned, true).unwrap();
    let ids: Vec<u32> = games.iter().map(|g| g.app_id).collect();
    assert_eq!(ids, vec![7, 6, 5]);
}

#[test]
fn agent_status_follows_the_number_of_connections() {
    assert_eq!(connection_status(Some(1), None), AgentConnectionStatus::Connected);
    assert_eq!(connection_status(Some(2), Some(AgentConnectionStatus::Connected)), AgentConnectionStatus::Ambiguous);
    assert_eq!(connection_status(None, None), AgentConnectionStatus::Disconnected);
    assert_eq!(connection_status(Some(0), Some(AgentConnectionStatus::Incompatible)), AgentConnectionStatus::Incompatible);
    assert_eq!(status_after_change(0), AgentConnectionStatus::Disconnected);
    assert_eq!(status_after_change(1), AgentConnectionStatus::Connected);
    assert_eq!(status_after_change(3), AgentConnectionStatus::Ambiguous);
}

#[test]
fn digests_are_those_of_sha256() {
    assert_eq!(sha256_hex(b"abc"), "ba7816bf8f01cfea414140de5dae2223b00361a396177a9cb410ff61f20015ad");
}

#[test]
fn challenge_proofs_are_hmac_sha256_of_the_context() {
    let secret = "11".repeat(32);
    let mut mac = hmac::Hmac::<sha2::Sha256>::new_from_slice(&[0x11_u8; 32]).unwrap();
    mac.update(b"challenge|10|20|instance");
    let expected: String = mac.finalize().into_bytes().iter().map(|b| format!("{b:02x}")).collect();
    assert_eq!(challenge_proof(&secret, "challenge", 10, 20, "instance").unwrap(), expected);
    assert!(challenge_proof("xyz", "challenge", 10, 20, "instance").is_none());
}

#[test]
fn the_bundled_agent_is_compared_as_a_version() {
    assert!(bundled_agent_meets(None));
    assert!(bundled_agent_meets(Some("0.1.0")));
    assert!(bundled_agent_meets(Some("0.0.9")));
    assert!(!bundled_agent_meets(Some("0.2.0")));
    assert!(bundled_agent_meets(Some("not a version")));
}
