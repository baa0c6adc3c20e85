use gametweaks::agent::{
    accepts_config_changed_frame, accepts_hello, accepts_snapshot_frame, agent_files_are_relative, is_connected,
    agent_is_current, agent_is_installed, challenge_proof, frame_length, valid_agent_marker, valid_snapshot,
    frame_action, AgentConnectionStatus, AgentMarker, AgentModSnapshot, FrameAction, IncomingFrame, MAX_FRAME_BYTES,
};
use gametweaks::connections::{config_change_outcome, finish_config_exchange, AgentConnections, ConfigExchange};
use gametweaks::staging::{
    check_agent_replacement, check_development_agent_allowed, check_development_agent_target, staged_agent_marker,
};
use gametweaks::tokens::{random_hex, random_plan_id, random_token};
use gametweaks::bepinex::{BepInExAvailability, BepInExRuntime};
use gametweaks::fields::{BooleanDisplay, ConfigApplyMode, ConfigField, LocalizedText};
use gametweaks::mods::GameModStatus;
use gametweaks::overlay::{merge_runtime_fields, runtime_fields, runtime_snapshot_index, snapshot_to_external_mod};

fn text(value: &str) -> LocalizedText {
    LocalizedText { en: value.to_owned(), de: None }
}

#[test]
fn distinguishes_installed_and_current_agents() {
    let marker = AgentMarker {
        schema_version: 1,
        app_id: 2709570,
        version: "0.0.9".to_owned(),
        runtime: BepInExRuntime::Mono,
        secret: "11".repeat(32),
        files: vec!["agent.dll".to_owned()],
    };
    assert!(valid_agent_marker(&marker));

    assert!(agent_is_installed(Some(&marker), 2709570));
    assert!(!agent_is_current(Some(&marker), 2709570));
    assert!(!agent_is_installed(Some(&marker), 10));
}

#[test]
fn challenge_proof_is_stable_and_context_bound() {
    let secret = "11".repeat(32);
    let first = challenge_proof(&secret, "challenge", 10, 20, "instance").unwrap();
    assert_eq!(first, challenge_proof(&secret, "challenge", 10, 20, "instance").unwrap());
    assert_ne!(first, challenge_proof(&secret, "challenge", 11, 20, "instance").unwrap());
}

#[test]
fn frame_reader_rejects_oversized_messages() {
    let prefix = ((MAX_FRAME_BYTES as u32) + 1).to_le_bytes();
    assert!(frame_length(prefix).is_none());
}

#[test]
fn rejects_invalid_dynamic_mod_snapshots() {
    let snapshot = AgentModSnapshot {
        mod_id: "../unsafe".to_owned(),
        version: "1.0.0".to_owned(),
        name: text("Unsafe"),
        description: text("Unsafe"),
        fields: Vec::new(),
        values: Vec::new(),
    };
    assert!(!valid_snapshot(&snapshot));
}

#[test]
fn agent_only_mods_are_reported_as_external() {
    let snapshot = AgentModSnapshot {
        mod_id: "external.mod".to_owned(),
        version: "1.2.3".to_owned(),
        name: text("External"),
        description: text("External mod"),
        fields: Vec::new(),
        values: Vec::new(),
    };

    let game_mod = snapshot_to_external_mod(snapshot);

    assert!(game_mod.external);
    assert!(!game_mod.official);
    assert_eq!(game_mod.status, GameModStatus::External);
}

fn enabled_field(default: bool) -> ConfigField {
    ConfigField::Boolean {
        id: "enabled".to_owned(),
        section: "General".to_owned(),
        key: "Enabled".to_owned(),
        label: text("Enabled"),
        description: None,
        locked: false,
        default,
        apply_mode: ConfigApplyMode::Live,
        display: BooleanDisplay::Switch,
    }
}

#[test]
fn contradictory_dynamic_fields_lock_the_catalog_field() {
    let mut catalog = vec![enabled_field(false)];
    merge_runtime_fields(&mut catalog, vec![enabled_field(true)]);
    assert!(catalog[0].is_locked());
}

#[test]
fn agent_connections_decide_the_game_status() {
    let mut connections = AgentConnections::new();
    assert_eq!(connections.status(10), AgentConnectionStatus::Disconnected);
    connections.record(10, AgentConnectionStatus::Connecting);
    assert_eq!(connections.status(10), AgentConnectionStatus::Connecting);

    assert_eq!(connections.join(10, "first".to_owned()), AgentConnectionStatus::Connected);
    assert_eq!(connections.join(11, "other".to_owned()), AgentConnectionStatus::Connected);
    assert_eq!(connections.join(10, "second".to_owned()), AgentConnectionStatus::Ambiguous);
    assert_eq!(connections.count(10), 2);
    assert_eq!(connections.status(10), AgentConnectionStatus::Ambiguous);

    assert_eq!(connections.leave(10, "first"), AgentConnectionStatus::Connected);
    assert_eq!(connections.leave(10, "unknown"), AgentConnectionStatus::Connected);
    assert_eq!(connections.leave(10, "second"), AgentConnectionStatus::Disconnected);
    assert_eq!(connections.status(10), AgentConnectionStatus::Disconnected);
    assert_eq!(connections.status(11), AgentConnectionStatus::Connected);

    connections.record(10, AgentConnectionStatus::Incompatible);
    assert_eq!(connections.status(10), AgentConnectionStatus::Incompatible);
    assert_eq!(connections.join(10, "third".to_owned()), AgentConnectionStatus::Connected);
    assert_eq!(connections.status(10), AgentConnectionStatus::Connected);
}

fn agent_marker() -> AgentMarker {
    AgentMarker {
        schema_version: 1,
        app_id: 10,
        version: "0.1.0".to_owned(),
        runtime: BepInExRuntime::Mono,
        secret: "2a".repeat(32),
        files: vec!["agent.dll".to_owned(), "lib/helper.dll".to_owned()],
    }
}

#[test]
fn hello_is_accepted_only_with_the_expected_proof() {
    let marker = agent_marker();
    let proof = challenge_proof(&marker.secret, "c0ffee", 10, 4242, "instance-1").unwrap();
    let installed = Some((BepInExRuntime::Mono, &marker));
    let hello = |protocol: u32, process: u32, instance: &str, version: &str, runtime, matches: bool, proof: &str| {
        accepts_hello(protocol, process, 4242, instance, version, runtime, installed, matches, 10, "c0ffee", proof)
    };

    assert!(hello(1, 4242, "instance-1", "0.1.0", BepInExRuntime::Mono, true, &proof));
    assert!(hello(1, 4242, "instance-1", "0.1.0", BepInExRuntime::Mono, true, &proof.to_uppercase()));
    assert!(!hello(2, 4242, "instance-1", "0.1.0", BepInExRuntime::Mono, true, &proof));
    assert!(!hello(1, 4243, "instance-1", "0.1.0", BepInExRuntime::Mono, true, &proof));
    assert!(!hello(1, 4242, "", "0.1.0", BepInExRuntime::Mono, true, &proof));
    assert!(!hello(1, 4242, &"i".repeat(129), "0.1.0", BepInExRuntime::Mono, true, &proof));
    assert!(!hello(1, 4242, "instance-1", "0.2.0", BepInExRuntime::Mono, true, &proof));
    assert!(!hello(1, 4242, "instance-1", "0.1.0", BepInExRuntime::Il2Cpp, true, &proof));
    assert!(!hello(1, 4242, "instance-1", "0.1.0", BepInExRuntime::Mono, false, &proof));
    assert!(!hello(1, 4242, "instance-2", "0.1.0", BepInExRuntime::Mono, true, &proof));
    assert!(!accepts_hello(1, 4242, 4242, "instance-1", "0.1.0", BepInExRuntime::Mono, None, true, 10, "c0ffee", &proof));
}

#[test]
fn frames_must_come_from_the_connected_instance() {
    let snapshot = AgentModSnapshot {
        mod_id: "example.mod".to_owned(),
        version: "1.0.0".to_owned(),
        name: text("Example"),
        description: text("Example mod"),
        fields: Vec::new(),
        values: Vec::new(),
    };
    let mods = vec![snapshot];
    assert!(accepts_snapshot_frame(1, 10, 10, "a", "a", &mods));
    assert!(!accepts_snapshot_frame(1, 11, 10, "a", "a", &mods));
    assert!(!accepts_snapshot_frame(1, 10, 10, "b", "a", &mods));
    assert!(!accepts_snapshot_frame(0, 10, 10, "a", "a", &mods));

    assert!(accepts_config_changed_frame(1, 10, 10, "a", "a", 128));
    assert!(!accepts_config_changed_frame(1, 10, 10, "a", "a", 129));
    assert!(!accepts_config_changed_frame(1, 10, 10, "b", "a", 1));
}

#[test]
fn agent_files_must_stay_in_the_agent_directory() {
    let mut marker = agent_marker();
    assert!(agent_files_are_relative(&marker));
    marker.files.push("../outside.dll".to_owned());
    assert!(!agent_files_are_relative(&marker));
    marker.files = vec!["/absolute.dll".to_owned()];
    assert!(!agent_files_are_relative(&marker));
}

#[test]
fn runtime_settings_come_from_a_single_agent() {
    let snapshot = |mod_id: &str| AgentModSnapshot {
        mod_id: mod_id.to_owned(),
        version: "1.0.0".to_owned(),
        name: text("Example"),
        description: text("Example mod"),
        fields: vec![enabled_field(true)],
        values: Vec::new(),
    };
    let fields = runtime_fields(vec![vec![snapshot("other.mod"), snapshot("example.mod")]], "example.mod").unwrap();
    assert_eq!(fields.len(), 1);
    assert_eq!(fields[0].id_for_agent(), "enabled");
    assert!(runtime_fields(vec![vec![snapshot("other.mod")]], "example.mod").is_none());
    assert!(runtime_fields(vec![vec![snapshot("example.mod")], vec![snapshot("example.mod")]], "example.mod").is_none());

    assert!(is_connected(Some(1), None));
    assert!(!is_connected(Some(2), Some(AgentConnectionStatus::Connected)));
    assert!(is_connected(None, Some(AgentConnectionStatus::Connected)));
    assert!(!is_connected(None, None));
}

#[test]
fn random_identifiers_are_lowercase_hexadecimal() {
    let secret = random_hex(32).unwrap();
    assert_eq!(secret.len(), 64);
    assert!(secret.chars().all(|c| c.is_ascii_digit() || ('a'..='f').contains(&c)));
    assert_eq!(random_token("mod_install_error").unwrap().len(), 32);
    assert_eq!(random_plan_id().unwrap().len(), 32);
    assert_ne!(random_plan_id().unwrap(), random_plan_id().unwrap());
    assert_eq!(random_hex(0).unwrap(), "");
}

#[test]
fn staged_agents_are_trusted_once_committed() {
    let refused = staged_agent_marker(BepInExRuntime::Mono, vec!["readme.txt".to_owned()]).unwrap_err();
    assert_eq!(refused.code, "agent_unavailable");

    let mut marker =
        staged_agent_marker(BepInExRuntime::Il2Cpp, vec!["GameTweaks.Agent.DLL".to_owned(), "readme.txt".to_owned()])
            .unwrap();
    assert_eq!(marker.app_id, 0);
    assert_eq!(marker.version, "0.1.0");
    assert_eq!(marker.runtime, BepInExRuntime::Il2Cpp);
    marker.app_id = 10;
    assert!(valid_agent_marker(&marker));
    assert!(agent_is_current(Some(&marker), 10));

    assert!(check_agent_replacement(false, None, 10).is_ok());
    assert!(check_agent_replacement(true, Some(&marker), 10).is_ok());
    assert_eq!(check_agent_replacement(true, Some(&marker), 11).unwrap_err().code, "agent_collision");
    assert_eq!(check_agent_replacement(true, None, 10).unwrap_err().code, "agent_collision");
}

#[test]
fn settings_changes_through_the_agent_report_their_outcome() {
    assert_eq!(config_change_outcome(1, ConfigExchange::Accepted { restart_required: true }).unwrap(), true);
    assert_eq!(config_change_outcome(1, ConfigExchange::Accepted { restart_required: false }).unwrap(), false);
    assert_eq!(config_change_outcome(1, ConfigExchange::Rejected).unwrap_err().code, "agent_config_rejected");
    assert_eq!(config_change_outcome(1, ConfigExchange::NoAnswer).unwrap_err().code, "agent_timeout");
    assert_eq!(config_change_outcome(1, ConfigExchange::SendFailed).unwrap_err().code, "agent_disconnected");
    assert_eq!(
        config_change_outcome(2, ConfigExchange::Accepted { restart_required: true }).unwrap_err().code,
        "agent_not_connected"
    );
}

#[test]
fn incoming_frames_are_dispatched_by_kind() {
    let snapshot = |app_id: u32| IncomingFrame::Snapshot {
        protocol_version: 1,
        app_id,
        instance_id: "one".to_owned(),
        mods: Vec::new(),
    };
    assert!(matches!(frame_action(snapshot(10), 10, "one"), FrameAction::StoreSnapshot(mods) if mods.is_empty()));
    assert!(matches!(frame_action(snapshot(11), 10, "one"), FrameAction::Close));
    let changed = IncomingFrame::ConfigChanged {
        protocol_version: 1,
        app_id: 10,
        instance_id: "one".to_owned(),
        mod_id: "example".to_owned(),
        values: Vec::new(),
    };
    assert!(matches!(frame_action(changed, 10, "one"), FrameAction::MergeValues { mod_id, .. } if mod_id == "example"));
    let result = |protocol_version: u32, accepted: bool, error_code: Option<&str>| IncomingFrame::ConfigResult {
        protocol_version,
        request_id: "r1".to_owned(),
        accepted,
        error_code: error_code.map(str::to_owned),
        restart_required: true,
    };
    match frame_action(result(1, true, None), 10, "one") {
        FrameAction::Answer { request_id, outcome } => {
            assert_eq!(request_id, "r1");
            assert_eq!(outcome, Ok(true));
        }
        _ => panic!("an answer is handed to its request"),
    }
    match frame_action(result(1, false, None), 10, "one") {
        FrameAction::Answer { outcome, .. } => assert_eq!(outcome, Err("rejected".to_owned())),
        _ => panic!("a rejection is handed to its request"),
    }
    match frame_action(result(1, false, Some("invalid_value")), 10, "one") {
        FrameAction::Answer { outcome, .. } => assert_eq!(outcome, Err("invalid_value".to_owned())),
        _ => panic!("a rejection keeps its code"),
    }
    assert!(matches!(frame_action(result(2, true, None), 10, "one"), FrameAction::Close));
    let hello = IncomingFrame::Hello {
        protocol_version: 1,
        app_id: 10,
        process_id: 5,
        instance_id: "one".to_owned(),
        runtime: BepInExRuntime::Mono,
        agent_version: "0.1.0".to_owned(),
        proof: String::new(),
    };
    assert!(matches!(frame_action(hello, 10, "one"), FrameAction::Close));
}

#[test]
fn a_mod_takes_the_first_report_of_a_single_agent() {
    let snapshot = |mod_id: &str| AgentModSnapshot {
        mod_id: mod_id.to_owned(),
        version: "1.0.0".to_owned(),
        name: text("Example"),
        description: text("Example mod"),
        fields: vec![enabled_field(true)],
        values: Vec::new(),
    };
    let single = vec![vec![snapshot("other.mod"), snapshot("example.mod"), snapshot("example.mod")]];
    assert_eq!(runtime_snapshot_index(&single, "example.mod"), Some(1));
    assert_eq!(runtime_snapshot_index(&single, "missing.mod"), None);
    let two = vec![vec![snapshot("example.mod")], vec![snapshot("example.mod")]];
    assert_eq!(runtime_snapshot_index(&two, "example.mod"), None);
    assert_eq!(runtime_snapshot_index(&Vec::new(), "example.mod"), None);
}

#[test]
fn the_development_agent_needs_developer_mode_windows_and_bepinex() {
    assert_eq!(check_development_agent_allowed(false, true).unwrap_err().code, "developer_mode_required");
    assert_eq!(check_development_agent_allowed(true, false).unwrap_err().code, "agent_unsupported");
    assert!(check_development_agent_allowed(true, true).is_ok());
    assert_eq!(check_development_agent_target(None).unwrap_err().code, "agent_install_blocked");
    assert_eq!(
        check_development_agent_target(Some(BepInExAvailability::Installable)).unwrap_err().code,
        "mod_requires_bepinex"
    );
    assert!(check_development_agent_target(Some(BepInExAvailability::Installed)).is_ok());
}

#[test]
fn a_pending_request_is_answered_once() {
    let mut pending: Vec<(String, u32)> = Vec::new();
    gametweaks::pending::put_entry(&mut pending, "r1".to_owned(), 7);
    gametweaks::pending::put_entry(&mut pending, "r2".to_owned(), 8);
    assert_eq!(gametweaks::pending::take_entry(&mut pending, "r1"), Some(7));
    assert_eq!(gametweaks::pending::take_entry(&mut pending, "r1"), None);
    assert_eq!(gametweaks::pending::take_entry(&mut pending, "r2"), Some(8));
}

#[test]
fn a_finished_settings_change_is_no_longer_pending() {
    let mut pending: Vec<(String, u32)> = Vec::new();
    gametweaks::pending::put_entry(&mut pending, "r1".to_owned(), 1);
    gametweaks::pending::put_entry(&mut pending, "r2".to_owned(), 2);
    let timed_out = finish_config_exchange(&mut pending, "r1", ConfigExchange::NoAnswer);
    assert_eq!(timed_out.unwrap_err().code, "agent_timeout");
    assert!(gametweaks::pending::find_entry(&pending, "r1").is_none());
    let accepted = finish_config_exchange(&mut pending, "r2", ConfigExchange::Accepted { restart_required: true });
    assert_eq!(accepted.unwrap(), true);
    assert!(pending.is_empty());
}
