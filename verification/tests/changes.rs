use gametweaks::catalog::{ModCompatibility, ModDefinition, ModIntegration, ModRelease};
use gametweaks::bepinex::{BepInExArchitecture, BepInExRuntime};
use gametweaks::config::UpdateChannel;
use gametweaks::download::{
    check_bepinex_response, check_mod_response, content_media_type, definition_integrity, finish_bepinex_download,
    finish_mod_download, take_chunk, Sha256Stream, BEPINEX_ARCHIVE_MAX_BYTES,
};
use gametweaks::error::{error_response, AppError};
use gametweaks::fields::{BooleanDisplay, ConfigApplyMode, ConfigField, ConfigValue, LocalizedText};
use gametweaks::plan::ModInstallMarker;
use gametweaks::settings::{
    check_change_count, config_route, config_schema, plan_config_change, serialize_changes, ConfigRoute,
};
use gametweaks::updater::{update_channel_label, update_endpoint, update_progress, AppRelease, AppReleaseAsset};

fn text(value: &str) -> LocalizedText {
    LocalizedText { en: value.to_owned(), de: None }
}

fn flag(id: &str, key: &str, locked: bool) -> ConfigField {
    ConfigField::Boolean {
        id: id.to_owned(),
        section: "General".to_owned(),
        key: key.to_owned(),
        label: text(key),
        description: None,
        locked,
        default: false,
        apply_mode: ConfigApplyMode::Live,
        display: BooleanDisplay::Switch,
    }
}

fn definition(fields: Vec<ConfigField>) -> ModDefinition {
    ModDefinition {
        schema_version: 1,
        mod_id: "example".to_owned(),
        guid: "dev.example".to_owned(),
        version: "1.0.0".to_owned(),
        official: true,
        name: text("Example"),
        description: text("Example"),
        integration: ModIntegration::ConfigFile,
        compatibility: ModCompatibility {
            runtime: BepInExRuntime::Mono,
            architectures: vec![BepInExArchitecture::X64],
            minimum_agent_version: None,
        },
        release: ModRelease {
            repository: "example/example".to_owned(),
            tag: "v1.0.0".to_owned(),
            asset: "example.zip".to_owned(),
            sha256: "a".repeat(64),
        },
        dependencies: Vec::new(),
        conflicts: Vec::new(),
        config: fields,
    }
}

fn marker(guid: &str) -> ModInstallMarker {
    ModInstallMarker {
        schema_version: 1,
        app_id: 10,
        mod_id: "example".to_owned(),
        guid: guid.to_owned(),
        version: "1.0.0".to_owned(),
        sha256: "a".repeat(64),
        files: vec!["example.dll".to_owned()],
    }
}

#[test]
fn change_requests_are_bounded() {
    assert_eq!(check_change_count(0).unwrap_err().code, "mod_config_invalid");
    assert!(check_change_count(1).is_ok());
    assert!(check_change_count(128).is_ok());
    assert!(check_change_count(129).is_err());
}

#[test]
fn the_schema_of_a_catalog_mod_needs_its_marker() {
    let catalog = Ok(Some(definition(vec![flag("enabled", "Enabled", false)])));
    let (integration, guid, fields) =
        config_schema(catalog, Some(marker("dev.example")), 10, "example", None).unwrap();
    assert_eq!(integration, ModIntegration::ConfigFile);
    assert_eq!(guid.as_deref(), Some("dev.example"));
    assert_eq!(fields.len(), 1);

    let missing = config_schema(Ok(Some(definition(Vec::new()))), None, 10, "example", None).unwrap_err();
    assert_eq!(missing.code, "mod_not_managed");
    let foreign =
        config_schema(Ok(Some(definition(Vec::new()))), Some(marker("dev.other")), 10, "example", None).unwrap_err();
    assert_eq!(foreign.code, "mod_not_managed");
    let undefined = config_schema(Ok(None), Some(marker("dev.example")), 10, "example", None).unwrap_err();
    assert_eq!(undefined.code, "mod_not_found");
    let disconnected = config_schema(Ok(None), None, 10, "example", None).unwrap_err();
    assert_eq!(disconnected.code, "mod_not_found");
    let unavailable = error_response(AppError::Network("offline".to_owned()));
    let failed = config_schema(Err(unavailable), Some(marker("dev.example")), 10, "example", None).unwrap_err();
    assert_eq!(failed.code, "network_error");
    let (integration, guid, fields) =
        config_schema(Ok(None), None, 10, "example", Some(vec![flag("live", "Live", false)])).unwrap();
    assert_eq!(integration, ModIntegration::Agent);
    assert!(guid.is_none());
    assert_eq!(fields[0].id(), "live");
}

#[test]
fn changes_are_serialized_in_order_or_refused() {
    let fields = vec![flag("enabled", "Enabled", false), flag("locked", "Locked", true)];
    let out = serialize_changes(&fields, &vec![("enabled".to_owned(), ConfigValue::Bool(true))]).unwrap();
    assert_eq!(out, vec![(0, "true".to_owned())]);
    let unknown = serialize_changes(&fields, &vec![("absent".to_owned(), ConfigValue::Bool(true))]).unwrap_err();
    assert_eq!(unknown.code, "mod_config_invalid");
    let locked = serialize_changes(&fields, &vec![("locked".to_owned(), ConfigValue::Bool(true))]).unwrap_err();
    assert_eq!(locked.code, "mod_schema_conflict");
    let wrong = serialize_changes(&fields, &vec![("enabled".to_owned(), ConfigValue::Text("yes".into()))]).unwrap_err();
    assert_eq!(wrong.code, "mod_config_invalid");
}

#[test]
fn changes_go_to_the_agent_or_the_file() {
    assert!(matches!(config_route(true, ModIntegration::Agent, None), Ok(ConfigRoute::Agent)));
    match config_route(true, ModIntegration::ConfigFile, Some("dev.example".into())) {
        Ok(ConfigRoute::File(guid)) => assert_eq!(guid, "dev.example"),
        _ => panic!("the file route was expected"),
    }
    assert_eq!(config_route(false, ModIntegration::Agent, None).unwrap_err().code, "mod_agent_required");
}

#[test]
fn bepinex_downloads_are_checked_before_their_body() {
    assert!(check_bepinex_response(true, Some("application/zip; charset=binary"), Some(10)).is_ok());
    assert!(check_bepinex_response(true, Some("application/octet-stream"), None).is_ok());
    assert_eq!(check_bepinex_response(false, Some("application/zip"), None).unwrap_err().code, "bepinex_integrity_error");
    assert!(check_bepinex_response(true, Some("text/html"), None).is_err());
    assert!(check_bepinex_response(true, None, None).is_err());
    assert!(check_bepinex_response(true, Some("application/zip"), Some(BEPINEX_ARCHIVE_MAX_BYTES + 1)).is_err());
    assert_eq!(content_media_type("a/b;c;d"), "a/b");
    assert!(check_mod_response(true, Some(67_108_864)).is_ok());
    assert_eq!(check_mod_response(true, Some(67_108_865)).unwrap_err().code, "mod_integrity_error");
    assert!(check_mod_response(false, None).is_err());
}

#[test]
fn chunks_are_counted_hashed_and_checked() {
    let mut stream = Sha256Stream::new();
    let count = take_chunk(&mut stream, 0, b"ab", 10).unwrap();
    let count = take_chunk(&mut stream, count, b"c", 10).unwrap();
    assert_eq!(count, 3);
    assert!(take_chunk(&mut stream, count, &[0_u8; 8], 10).is_none());
    let digest = "BA7816BF8F01CFEA414140DE5DAE2223B00361A396177A9CB410FF61F20015AD";
    assert_eq!(
        finish_bepinex_download(stream, Some(digest)).unwrap(),
        "ba7816bf8f01cfea414140de5dae2223b00361a396177a9cb410ff61f20015ad"
    );
    let mut other = Sha256Stream::new();
    other.update(b"abd");
    assert_eq!(finish_bepinex_download(other, Some(digest)).unwrap_err().code, "bepinex_integrity_error");
    let mut third = Sha256Stream::new();
    third.update(b"abc");
    assert!(finish_mod_download(third, digest).is_ok());
    assert_eq!(finish_mod_download(Sha256Stream::new(), digest).unwrap_err().code, "mod_integrity_error");
    assert!(definition_integrity(b"abc", digest));
    assert!(!definition_integrity(b"abd", digest));
}

fn release(tag: &str, draft: bool, prerelease: bool, url: &str) -> AppRelease {
    AppRelease {
        draft,
        prerelease,
        tag_name: tag.to_owned(),
        assets: vec![AppReleaseAsset { name: "latest.json".to_owned(), browser_download_url: url.to_owned() }],
    }
}

#[test]
fn updates_come_from_the_first_release_of_the_channel() {
    let releases = vec![
        release("DEV_RELEASE", false, true, "https://example.com/dev/latest.json"),
        release("v2.0.0", true, false, "https://example.com/draft/latest.json"),
        release("v1.1.0-beta.1", false, true, "https://example.com/beta/latest.json"),
        release("v1.0.0", false, false, "https://example.com/stable/latest.json"),
    ];
    assert_eq!(update_endpoint(&releases, UpdateChannel::Stable).unwrap().text, "https://example.com/stable/latest.json");
    assert_eq!(update_endpoint(&releases, UpdateChannel::Beta).unwrap().text, "https://example.com/beta/latest.json");
    let none = update_endpoint(&releases[..2].to_vec(), UpdateChannel::Stable).unwrap_err();
    assert_eq!(none.code, "updater_error");
    assert!(none.message.contains("stable"));
    let mut no_manifest = release("v1.0.0", false, false, "x");
    no_manifest.assets[0].name = "other.json".to_owned();
    assert!(update_endpoint(&vec![no_manifest], UpdateChannel::Stable).is_err());
    assert!(update_endpoint(&vec![release("v1.0.0", false, false, "not a url")], UpdateChannel::Stable).is_err());
    assert_eq!(update_channel_label(UpdateChannel::Beta), "beta");
}

#[test]
fn update_progress_saturates_and_caps_the_percentage() {
    assert_eq!(update_progress(40, 10, Some(100)), (50, Some(50)));
    assert_eq!(update_progress(u64::MAX - 1, 10, Some(100)), (u64::MAX, Some(100)));
    assert_eq!(update_progress(10, 0, Some(0)), (10, None));
    assert_eq!(update_progress(10, 5, None), (15, None));
}

#[test]
fn a_settings_change_is_decided_before_anything_is_sent_or_written() {
    let on = vec![("enabled".to_owned(), ConfigValue::Bool(true))];
    let catalog = || Ok(Some(definition(vec![flag("enabled", "Enabled", false), flag("fixed", "Fixed", true)])));
    let plan = plan_config_change(&on, true, catalog(), Some(marker("dev.example")), 10, "example", None, false).unwrap();
    match plan.0 {
        ConfigRoute::File(guid) => assert_eq!(guid, "dev.example"),
        ConfigRoute::Agent => panic!("a config-file mod is written to its file"),
    }
    assert_eq!(plan.2, vec![(0, "true".to_owned())]);
    let none: Vec<(String, ConfigValue)> = Vec::new();
    let empty = plan_config_change(&none, true, catalog(), Some(marker("dev.example")), 10, "example", None, false);
    assert_eq!(empty.unwrap_err().code, "mod_config_invalid");
    let bare = plan_config_change(&on, false, catalog(), Some(marker("dev.example")), 10, "example", None, false);
    assert_eq!(bare.unwrap_err().code, "mod_requires_bepinex");
    let fixed = vec![("fixed".to_owned(), ConfigValue::Bool(true))];
    let locked = plan_config_change(&fixed, true, catalog(), Some(marker("dev.example")), 10, "example", None, false);
    assert_eq!(locked.unwrap_err().code, "mod_schema_conflict");
    let live = Some(vec![flag("enabled", "Enabled", false)]);
    let external = plan_config_change(&on, true, Ok(None), None, 10, "example", live.clone(), true).unwrap();
    assert!(matches!(external.0, ConfigRoute::Agent));
    let unreachable = plan_config_change(&on, true, Ok(None), None, 10, "example", live, false);
    assert_eq!(unreachable.unwrap_err().code, "mod_agent_required");
}
