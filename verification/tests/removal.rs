use gametweaks::bepinex::{BepInExArchitecture, BepInExAvailability, BepInExGameStatus, BepInExRuntime};
use gametweaks::catalog::{ModCompatibility, ModDefinition, ModDependency, ModIntegration, ModRelease};
use gametweaks::cfgfile::{config_value, parse_config, update_config_text};
use gametweaks::detection::InstallMarker;
use gametweaks::fields::{ConfigApplyMode, ConfigField, LocalizedText};
use gametweaks::plan::{ModInstallMarker, ModSlot};
use gametweaks::uninstall::{check_bepinex_uninstall, check_mod_uninstall, is_additional_file, removal_list, sorted_unique};

fn text(value: &str) -> LocalizedText {
    LocalizedText { en: value.to_owned(), de: None }
}

fn definition(mod_id: &str, dependencies: &[&str]) -> ModDefinition {
    ModDefinition {
        schema_version: 1,
        mod_id: mod_id.to_owned(),
        guid: format!("dev.{mod_id}"),
        version: "1.0.0".to_owned(),
        official: false,
        name: text(mod_id),
        description: text(mod_id),
        integration: ModIntegration::ConfigFile,
        compatibility: ModCompatibility {
            runtime: BepInExRuntime::Mono,
            architectures: vec![BepInExArchitecture::X64],
            minimum_agent_version: None,
        },
        release: ModRelease {
            repository: "owner/repo".to_owned(),
            tag: "v1".to_owned(),
            asset: "mod.zip".to_owned(),
            sha256: "a".repeat(64),
        },
        dependencies: dependencies
            .iter()
            .map(|d| ModDependency { mod_id: (*d).to_owned(), minimum_version: "1.0.0".to_owned() })
            .collect(),
        conflicts: Vec::new(),
        config: Vec::new(),
    }
}

fn installed(mod_id: &str, guid: &str) -> ModSlot {
    ModSlot {
        mod_id: mod_id.to_owned(),
        occupied: true,
        marker: Some(ModInstallMarker {
            schema_version: 1,
            app_id: 10,
            mod_id: mod_id.to_owned(),
            guid: guid.to_owned(),
            version: "1.0.0".to_owned(),
            sha256: "a".repeat(64),
            files: vec!["plugin.dll".to_owned()],
        }),
    }
}

#[test]
fn a_mod_another_installed_mod_needs_stays() {
    let definitions = vec![definition("base", &[]), definition("feature", &["base"])];
    let slots = vec![installed("base", "dev.base"), installed("feature", "dev.feature")];
    assert_eq!(check_mod_uninstall(&definitions, &slots, 10, "base", false).unwrap_err().code, "mod_required");
    assert!(check_mod_uninstall(&definitions, &slots, 10, "feature", false).is_ok());
    assert!(check_mod_uninstall(&definitions, &slots, 10, "feature", true).is_ok());
    assert_eq!(check_mod_uninstall(&definitions, &slots, 10, "absent", false).unwrap_err().code, "mod_not_found");
    assert_eq!(check_mod_uninstall(&definitions, &slots, 11, "feature", false).unwrap_err().code, "mod_not_managed");
    let foreign = vec![installed("base", "dev.base"), installed("feature", "dev.other")];
    assert!(check_mod_uninstall(&definitions, &foreign, 10, "feature", false).is_ok());
    assert_eq!(check_mod_uninstall(&definitions, &foreign, 10, "feature", true).unwrap_err().code, "mod_not_managed");
}

fn marker(app_id: u32) -> InstallMarker {
    InstallMarker {
        schema_version: 1,
        app_id,
        version: "5.4.23.5".into(),
        runtime: "mono".into(),
        architecture: "x64".into(),
        source: "github-stable".into(),
        asset_name: "package.zip".into(),
        sha256: "a".repeat(64),
        files: vec!["winhttp.dll".into()],
    }
}

#[test]
fn only_bepinex_installed_by_gametweaks_is_removed() {
    let mut status = BepInExGameStatus::blocked(gametweaks::bepinex::BepInExReason::ExistingFiles, None, None);
    status.status = BepInExAvailability::Installed;
    status.reason = None;
    assert_eq!(check_bepinex_uninstall(&status, Some(&marker(10)), 10).unwrap_err().code, "bepinex_not_managed");
    status.managed_by_game_tweaks = true;
    assert!(check_bepinex_uninstall(&status, Some(&marker(10)), 10).is_ok());
    assert!(check_bepinex_uninstall(&status, Some(&marker(11)), 10).is_err());
    assert!(check_bepinex_uninstall(&status, None, 10).is_err());
}

#[test]
fn removals_are_sorted_once_each() {
    assert_eq!(
        sorted_unique(vec!["b".into(), "a".into(), "b".into(), "C".into()]),
        vec!["C".to_owned(), "a".to_owned(), "b".to_owned()]
    );
    let owned = vec!["winhttp.dll".to_owned(), "BepInEx/core/BepInEx.dll".to_owned()];
    let removals = removal_list(&owned, vec!["BepInEx/plugins/extra.dll".to_owned(), "winhttp.dll".to_owned()]);
    assert_eq!(
        removals,
        vec![
            "BepInEx/.gametweaks-install.json".to_owned(),
            "BepInEx/core/BepInEx.dll".to_owned(),
            "BepInEx/plugins/extra.dll".to_owned(),
            "winhttp.dll".to_owned(),
        ]
    );
    assert!(!is_additional_file("BepInEx/core/BepInEx.dll", &vec!["BepInEx\\core\\BepInEx.dll".to_owned()]));
    assert!(!is_additional_file("BepInEx/.gametweaks-install.json", &Vec::new()));
    assert!(is_additional_file("BepInEx/plugins/extra.dll", &owned));
}

#[test]
fn a_written_setting_reads_back() {
    let field = ConfigField::String {
        id: "name".to_owned(),
        section: "Display".to_owned(),
        key: "Name".to_owned(),
        label: text("Name"),
        description: None,
        locked: false,
        default: String::new(),
        max_length: 64,
        apply_mode: ConfigApplyMode::Live,
    };
    for existing in ["", "[General]\nOther = 1\n", "[display]\nname = old\n", "[Display]\n# note\n[Other]\nName = x\n"] {
        let updated = update_config_text(existing, &[(&field, "new value".to_owned())]);
        let entries = parse_config(&updated);
        assert_eq!(config_value(&entries, "display", "name").map(String::as_str), Some("new value"));
    }
}

#[test]
fn writing_a_setting_keeps_the_other_settings() {
    let field = ConfigField::String {
        id: "name".to_owned(),
        section: "Display".to_owned(),
        key: "Name".to_owned(),
        label: text("Name"),
        description: None,
        locked: false,
        default: String::new(),
        max_length: 64,
        apply_mode: ConfigApplyMode::Live,
    };
    let existing = "[General]\nOther = 1\n[Display]\nWidth = 800\nname = old\n[Other]\nName = x\n";
    let before = parse_config(existing);
    let updated = update_config_text(existing, &[(&field, "new value".to_owned())]);
    let after = parse_config(&updated);
    for (section, key) in [("general", "other"), ("display", "width"), ("other", "name"), ("general", "missing")] {
        assert_eq!(config_value(&after, section, key), config_value(&before, section, key));
    }
    assert_eq!(config_value(&after, "display", "name").map(String::as_str), Some("new value"));
}

#[test]
fn several_written_settings_all_read_back() {
    let string_field = |section: &str, key: &str| ConfigField::String {
        id: key.to_lowercase(),
        section: section.to_owned(),
        key: key.to_owned(),
        label: text(key),
        description: None,
        locked: false,
        default: String::new(),
        max_length: 64,
        apply_mode: ConfigApplyMode::Live,
    };
    let name = string_field("Display", "Name");
    let width = string_field("Display", "Width");
    let speed = string_field("Player", "Speed");
    let existing = "[General]\nOther = 1\n[Display]\nwidth = 640\n";
    let before = parse_config(existing);
    let updated = update_config_text(
        existing,
        &[(&name, "Ada".to_owned()), (&width, "800".to_owned()), (&speed, "2".to_owned())],
    );
    let after = parse_config(&updated);
    assert_eq!(config_value(&after, "display", "name").map(String::as_str), Some("Ada"));
    assert_eq!(config_value(&after, "display", "width").map(String::as_str), Some("800"));
    assert_eq!(config_value(&after, "player", "speed").map(String::as_str), Some("2"));
    assert_eq!(config_value(&after, "general", "other"), config_value(&before, "general", "other"));
}

#[test]
fn untouched_lines_stay_in_their_order() {
    let field = ConfigField::String {
        id: "name".to_owned(),
        section: "Display".to_owned(),
        key: "Name".to_owned(),
        label: text("Name"),
        description: None,
        locked: false,
        default: String::new(),
        max_length: 64,
        apply_mode: ConfigApplyMode::Live,
    };
    let existing = "[General]\n# note\nOther = 1\n[Display]\nname = old\nwidth = 640\n[Other]\nName = x\n";
    let updated = update_config_text(existing, &[(&field, "new".to_owned())]);
    let lines: Vec<&str> = updated.lines().collect();
    let kept = ["[General]", "# note", "Other = 1", "[Display]", "width = 640", "[Other]", "Name = x"];
    let mut from = 0;
    for line in kept {
        let at = lines[from..].iter().position(|l| *l == line).expect("an untouched line is kept") + from;
        from = at + 1;
    }
    assert!(lines.contains(&"Name = new"));
    assert!(!lines.contains(&"name = old"));
}
