use gametweaks::archives::{check_mod_archive_entries, ArchiveEntry};
use gametweaks::bepinex::{BepInExArchitecture, BepInExRuntime};
use gametweaks::catalog::{
    resolve_install_set, ModCompatibility, ModDefinition, ModDependency, ModIntegration, ModRelease,
};
use gametweaks::cfgfile::update_config_text;
use gametweaks::fields::{
    BooleanDisplay, ConfigApplyMode, ConfigField, ConfigValue, LocalizedText, SelectOption, SelectionDisplay,
};
use gametweaks::mods::{describe_mod, install_marker, valid_marker_contents};
use gametweaks::catalog::{GameCatalog, ModReference};
use gametweaks::mods::field_value_from;
use gametweaks::plan::{resolve_action_set, validate_install_set, ModInstallMarker, ModSlot};
use gametweaks::plans::{
    install_plan_summary, installs_agent, uninstall_plan_summary, PlanStore, PreparedAction, PreparedPlan,
};
use gametweaks::validate::{catalog_release_tag, validate_catalog, validate_mod_definition, validate_relations};

fn text(value: &str) -> LocalizedText {
    LocalizedText { en: value.to_owned(), de: None }
}

fn definition(mod_id: &str) -> ModDefinition {
    ModDefinition {
        schema_version: 1,
        mod_id: mod_id.to_owned(),
        guid: format!("dev.gametweaks.{mod_id}"),
        version: "1.0.0".to_owned(),
        official: false,
        name: text("Test mod"),
        description: text("Test description"),
        integration: ModIntegration::ConfigFile,
        compatibility: ModCompatibility {
            runtime: BepInExRuntime::Mono,
            architectures: vec![BepInExArchitecture::X64],
            minimum_agent_version: None,
        },
        release: ModRelease {
            repository: "gametweaks/test-mod".to_owned(),
            tag: "test-1.0.0".to_owned(),
            asset: "test.zip".to_owned(),
            sha256: "a".repeat(64),
        },
        dependencies: Vec::new(),
        conflicts: Vec::new(),
        config: Vec::new(),
    }
}

fn installed_slot(definition: &ModDefinition, version: &str) -> ModSlot {
    ModSlot {
        mod_id: definition.mod_id.clone(),
        occupied: true,
        marker: Some(ModInstallMarker {
            schema_version: 1,
            app_id: 10,
            mod_id: definition.mod_id.clone(),
            guid: definition.guid.clone(),
            version: version.to_owned(),
            sha256: "a".repeat(64),
            files: vec!["plugin.dll".to_owned()],
        }),
    }
}

fn depends_on(definition: &mut ModDefinition, mod_id: &str) {
    definition
        .dependencies
        .push(ModDependency { mod_id: mod_id.to_owned(), minimum_version: "1.0.0".to_owned() });
}

#[test]
fn resolves_dependencies_before_requested_mod() {
    let base = definition("base");
    let mut feature = definition("feature");
    depends_on(&mut feature, "base");
    let definitions = vec![base, feature];
    assert_eq!(resolve_install_set(&definitions, &vec!["feature".to_owned()]).unwrap(), vec!["base", "feature"]);
}

#[test]
fn preserves_the_reviewed_official_status() {
    let mut definition = definition("official.mod");
    definition.official = true;

    let described = describe_mod(None, None, 10, definition, Vec::new());

    assert!(described.official);
    assert!(!described.external);
}

#[test]
fn derives_the_immutable_catalog_release_tag() {
    let definition = definition("author.mod");

    assert_eq!(catalog_release_tag(&definition), "mod-author.mod-v1.0.0");
    assert!(validate_mod_definition(&definition).is_ok());
}

#[test]
fn rejects_invalid_upstream_repositories() {
    let mut definition = definition("author.mod");
    definition.release.repository = "https://example.com/mod".to_owned();

    assert!(validate_mod_definition(&definition).is_err());
}

#[test]
fn install_plans_are_single_use() {
    let mut store = PlanStore::new();
    let now = 1_000_000;
    store.insert_plan(
        "single-use".to_owned(),
        PreparedPlan { action: PreparedAction::UninstallBepInEx { app_id: 10 }, expires_at: now + 60_000 },
    );

    assert!(store.consume_plan("single-use", now).is_ok());
    assert!(store.consume_plan("single-use", now).is_err());
}

#[test]
fn expired_install_plans_are_rejected() {
    let mut store = PlanStore::new();
    let now = 1_000_000;
    store.insert_plan(
        "expired".to_owned(),
        PreparedPlan { action: PreparedAction::UninstallBepInEx { app_id: 10 }, expires_at: now - 1_000 },
    );

    assert!(store.consume_plan("expired", now).is_err());
}

#[test]
fn rejects_dependency_cycles() {
    let mut one = definition("one");
    let mut two = definition("two");
    depends_on(&mut one, "two");
    depends_on(&mut two, "one");
    let definitions = vec![one, two];
    assert!(resolve_install_set(&definitions, &vec!["one".to_owned()]).is_err());
}

#[test]
fn skips_satisfied_dependencies_in_install_plan() {
    let base = definition("base");
    let slots = vec![installed_slot(&base, "1.0.0")];
    let mut feature = definition("feature");
    depends_on(&mut feature, "base");
    let definitions = vec![base, feature];
    let requested = vec!["feature".to_owned()];
    let resolved = resolve_install_set(&definitions, &requested).unwrap();
    let (actions, replacements) =
        resolve_action_set(10, &slots, &definitions, &requested, &resolved, false).unwrap();
    assert_eq!(actions, vec!["feature"]);
    assert!(replacements.is_empty());
}

#[test]
fn update_plan_installs_a_missing_dependency() {
    let base = definition("base");
    let mut feature = definition("feature");
    depends_on(&mut feature, "base");
    let slots = vec![installed_slot(&feature, "0.9.0")];
    let definitions = vec![base, feature];
    let requested = vec!["feature".to_owned()];
    let resolved = resolve_install_set(&definitions, &requested).unwrap();
    let (actions, replacements) =
        resolve_action_set(10, &slots, &definitions, &requested, &resolved, true).unwrap();
    assert_eq!(actions, vec!["base", "feature"]);
    assert_eq!(replacements, vec!["feature".to_owned()]);
}

#[test]
fn validates_all_config_control_values() {
    let field = ConfigField::Integer {
        id: "count".to_owned(),
        section: "General".to_owned(),
        key: "Count".to_owned(),
        label: text("Count"),
        description: None,
        locked: false,
        default: 2,
        min: 0,
        max: 10,
        step: 2,
        apply_mode: ConfigApplyMode::NextLaunch,
    };
    assert_eq!(field.serialize_value(&ConfigValue::Integer(8, None)).unwrap(), "8");
    assert!(field.serialize_value(&ConfigValue::Integer(9, None)).is_err());
}

fn boolean_field(id: &str, key: &str) -> ConfigField {
    ConfigField::Boolean {
        id: id.to_owned(),
        section: "General".to_owned(),
        key: key.to_owned(),
        label: text(key),
        description: None,
        locked: false,
        default: false,
        apply_mode: ConfigApplyMode::Live,
        display: BooleanDisplay::Switch,
    }
}

#[test]
fn config_writer_preserves_unknown_content() {
    let field = boolean_field("enabled", "Enabled");
    let updated = update_config_text(
        "# comment\n[General]\nEnabled = false\nUnknown = keep\n",
        &[(&field, "true".to_owned())],
    );
    assert!(updated.contains("# comment"));
    assert!(updated.contains("Enabled = true"));
    assert!(updated.contains("Unknown = keep"));
}

#[test]
fn config_writer_reuses_an_existing_section_for_multiple_new_fields() {
    let first = boolean_field("first", "First");
    let second = boolean_field("second", "Second");

    let updated = update_config_text(
        "[General]\nUnknown = keep\n[Other]\nValue = keep\n",
        &[(&first, "true".to_owned()), (&second, "false".to_owned())],
    );

    assert_eq!(updated.matches("[General]").count(), 1);
    assert!(updated.contains("First = true"));
    assert!(updated.contains("Second = false"));
    assert!(updated.find("Second = false").unwrap() < updated.find("[Other]").unwrap());
}

#[test]
fn rejects_zip_slip_and_requires_a_dll() {
    let entries = vec![ArchiveEntry { encrypted: false, unix_mode: None, path: None, size: 3, is_dir: false }];
    assert!(check_mod_archive_entries(&entries).is_err());
}

#[test]
fn rejects_duplicate_selection_options() {
    let field = ConfigField::SingleSelect {
        id: "mode".to_owned(),
        section: "General".to_owned(),
        key: "Mode".to_owned(),
        label: text("Mode"),
        description: None,
        locked: false,
        default: "same".to_owned(),
        options: vec![
            SelectOption { value: "same".to_owned(), label: text("First") },
            SelectOption { value: "same".to_owned(), label: text("Second") },
        ],
        apply_mode: ConfigApplyMode::Live,
        display: SelectionDisplay::Dropdown,
    };
    assert!(!field.valid_for_agent());
}

#[test]
fn agent_mods_deploy_the_agent_unless_it_is_current() {
    let mut agent_mod = definition("agent.mod");
    agent_mod.integration = ModIntegration::Agent;
    let definitions = vec![definition("plain.mod"), agent_mod];

    assert!(installs_agent(&definitions, &vec!["plain.mod".to_owned(), "agent.mod".to_owned()], false));
    assert!(!installs_agent(&definitions, &vec!["plain.mod".to_owned(), "agent.mod".to_owned()], true));
    assert!(!installs_agent(&definitions, &vec!["plain.mod".to_owned()], false));
    assert!(!installs_agent(&definitions, &vec!["unknown.mod".to_owned()], false));
}

#[test]
fn action_plans_name_their_action() {
    let install = install_plan_summary("p1".to_owned(), 10, vec!["a.mod".to_owned()], true, false);
    assert_eq!(install.action, "install");
    assert!(install.installs_agent);
    assert_eq!(install.mod_ids, vec!["a.mod".to_owned()]);

    let update = install_plan_summary("p2".to_owned(), 10, vec!["a.mod".to_owned()], false, true);
    assert_eq!(update.action, "update");

    let uninstall = uninstall_plan_summary("p3".to_owned(), 10, "a.mod".to_owned());
    assert_eq!(uninstall.action, "uninstall");
    assert_eq!(uninstall.mod_ids, vec!["a.mod".to_owned()]);
    assert!(!uninstall.installs_agent);
    assert_eq!(uninstall.plan_id, "p3");
}

#[test]
fn expired_plans_are_pruned_before_a_new_install_plan() {
    let mut store = PlanStore::new();
    let now = 1_000_000;
    store.insert_plan(
        "old".to_owned(),
        PreparedPlan { action: PreparedAction::UninstallBepInEx { app_id: 10 }, expires_at: now - 1 },
    );
    store.insert_plan(
        "fresh".to_owned(),
        PreparedPlan { action: PreparedAction::UninstallBepInEx { app_id: 11 }, expires_at: now + 60_000 },
    );
    let plan = PreparedPlan {
        action: PreparedAction::Install {
            app_id: 12,
            mod_ids: vec!["a.mod".to_owned()],
            required_mod_ids: vec!["a.mod".to_owned()],
            replace_existing: Vec::new(),
        },
        expires_at: now + 60_000,
    };
    assert!(store.store_install_plan("new".to_owned(), plan, now).is_ok());

    assert!(store.consume_plan("old", now - 10).is_err());
    assert!(store.consume_plan("fresh", now).is_ok());
    assert!(matches!(store.consume_plan("new", now), Ok(PreparedAction::Install { app_id: 12, .. })));
}

#[test]
fn busy_games_get_no_install_plan() {
    let mut store = PlanStore::new();
    let now = 1_000_000;
    assert!(store.mark_busy(12).is_ok());
    assert_eq!(store.mark_busy(12).unwrap_err().code, "mod_busy");
    let plan = PreparedPlan {
        action: PreparedAction::Install {
            app_id: 12,
            mod_ids: vec!["a.mod".to_owned()],
            required_mod_ids: vec!["a.mod".to_owned()],
            replace_existing: Vec::new(),
        },
        expires_at: now + 60_000,
    };
    let refused = store.store_install_plan("new".to_owned(), plan, now).unwrap_err();
    assert_eq!(refused.code, "mod_busy");
    assert_eq!(store.consume_plan("new", now).unwrap_err().code, "mod_plan_expired");

    store.clear_busy(12);
    assert!(!store.is_busy(12));
}

#[test]
fn markers_of_validated_releases_are_trusted() {
    let mut definition = definition("author.mod");
    definition.guid = "dev.author.mod".to_owned();
    assert!(validate_mod_definition(&definition).is_ok());
    let entries = vec![
        ArchiveEntry { encrypted: false, unix_mode: None, path: Some("plugin".to_owned()), size: 0, is_dir: true },
        ArchiveEntry {
            encrypted: false,
            unix_mode: Some(0o100644),
            path: Some("plugin\\Author.Mod.DLL".to_owned()),
            size: 2048,
            is_dir: false,
        },
        ArchiveEntry {
            encrypted: false,
            unix_mode: None,
            path: Some("plugin/readme.txt".to_owned()),
            size: 10,
            is_dir: false,
        },
    ];
    let files = check_mod_archive_entries(&entries).unwrap();
    assert_eq!(files, vec!["plugin/Author.Mod.DLL".to_owned(), "plugin/readme.txt".to_owned()]);

    definition.release.sha256 = "AB".repeat(32);
    let marker = install_marker(10, &definition, files.clone());
    assert_eq!(marker.sha256, "ab".repeat(32));
    assert_eq!(marker.files, files);
    assert_eq!(marker.mod_id, "author.mod");
    assert_eq!(marker.schema_version, 1);
    assert!(valid_marker_contents(&marker));
}

fn ids(values: &[&str]) -> Vec<String> {
    values.iter().map(|value| (*value).to_owned()).collect()
}

fn empty_slot(mod_id: &str) -> ModSlot {
    ModSlot { mod_id: mod_id.to_owned(), occupied: false, marker: None }
}

#[test]
fn install_sets_must_fit_the_game() {
    let base = definition("base");
    let mut conflicting = definition("conflicting");
    conflicting.conflicts = vec!["base".to_owned()];
    let mut il2cpp = definition("il2cpp");
    il2cpp.compatibility.runtime = BepInExRuntime::Il2Cpp;
    let definitions = vec![base.clone(), conflicting, il2cpp];
    let slots = vec![empty_slot("base"), empty_slot("conflicting"), empty_slot("il2cpp")];
    let check = |required: &[&str], write: &[&str], replace: &[&str], slots: &Vec<ModSlot>| {
        validate_install_set(
            10,
            BepInExRuntime::Mono,
            BepInExArchitecture::X64,
            slots,
            &definitions,
            &ids(write),
            &ids(required),
            &ids(replace),
        )
    };

    assert!(check(&["base"], &["base"], &[], &slots).is_ok());
    assert_eq!(check(&["missing"], &["missing"], &[], &slots).unwrap_err().code, "mod_not_found");
    assert_eq!(check(&["il2cpp"], &["il2cpp"], &[], &slots).unwrap_err().code, "mod_incompatible");
    assert_eq!(
        check(&["base", "conflicting"], &["base", "conflicting"], &[], &slots).unwrap_err().code,
        "mod_conflict"
    );
    assert_eq!(check(&["base"], &["base"], &["base"], &slots).unwrap_err().code, "mod_not_managed");

    let installed = vec![installed_slot(&base, "1.0.0"), empty_slot("conflicting"), empty_slot("il2cpp")];
    assert_eq!(check(&["base"], &["base"], &[], &installed).unwrap_err().code, "mod_collision");
    assert!(check(&["base"], &["base"], &["base"], &installed).is_ok());
    assert_eq!(check(&["conflicting"], &["conflicting"], &[], &installed).unwrap_err().code, "mod_conflict");

    let foreign = vec![ModSlot { mod_id: "base".to_owned(), occupied: true, marker: None }];
    assert_eq!(check(&["base"], &["base"], &[], &foreign).unwrap_err().code, "mod_collision");
}

#[test]
fn catalog_relations_must_resolve() {
    let base = definition("base");
    let mut feature = definition("feature");
    feature.dependencies = vec![ModDependency { mod_id: "base".to_owned(), minimum_version: "1.0.0".to_owned() }];
    assert!(validate_relations(&vec![base.clone(), feature.clone()]).is_ok());
    assert_eq!(validate_relations(&vec![feature.clone()]).unwrap_err().code, "catalog_invalid");

    feature.dependencies[0].minimum_version = "2.0.0".to_owned();
    assert!(validate_relations(&vec![base.clone(), feature]).is_err());

    let mut selfish = definition("selfish");
    selfish.conflicts = vec!["selfish".to_owned()];
    assert!(validate_relations(&vec![selfish]).is_err());
}

#[test]
fn catalogs_must_keep_their_contract() {
    let reference = |mod_id: &str| ModReference {
        mod_id: mod_id.to_owned(),
        file: format!("mods/{mod_id}.json"),
        sha256: "a".repeat(64),
    };
    let catalog = GameCatalog {
        schema_version: 1,
        app_id: 10,
        name: text("Example"),
        mods: vec![reference("base"), reference("feature")],
    };
    assert!(validate_catalog(10, &catalog).is_ok());
    assert_eq!(validate_catalog(11, &catalog).unwrap_err().code, "catalog_invalid");

    let mut repeated = catalog.clone();
    repeated.mods.push(reference("base"));
    assert!(validate_catalog(10, &repeated).is_err());

    let mut misplaced = catalog.clone();
    misplaced.mods[0].file = "mods/other.json".to_owned();
    assert!(validate_catalog(10, &misplaced).is_err());
}

#[test]
fn setting_values_fall_back_to_their_default() {
    let field = ConfigField::Boolean {
        id: "enabled".to_owned(),
        section: "General".to_owned(),
        key: "Enabled".to_owned(),
        label: text("Enabled"),
        description: None,
        locked: false,
        default: true,
        apply_mode: ConfigApplyMode::Live,
        display: BooleanDisplay::Switch,
    };
    assert!(matches!(field_value_from(&field, Some("false"), None), ConfigValue::Bool(false)));
    assert!(matches!(field_value_from(&field, Some("maybe"), None), ConfigValue::Bool(true)));
    assert!(matches!(field_value_from(&field, None, None), ConfigValue::Bool(true)));
}

#[test]
fn mod_archives_may_not_bundle_the_shared_agent() {
    let entry = |path: &str| ArchiveEntry {
        encrypted: false,
        unix_mode: None,
        path: Some(path.to_owned()),
        size: 10,
        is_dir: false,
    };
    for shared in [
        "GameTweaks.Agent.Abstractions.dll",
        "lib/GameTweaks.Agent.Core.dll",
        "lib\\gametweaks.agent.mono.DLL",
        "GAMETWEAKS.AGENT.IL2CPP.DLL",
    ] {
        let refused = check_mod_archive_entries(&vec![entry("Example.dll"), entry(shared)]).unwrap_err();
        assert_eq!(refused.code, "mod_integrity_error");
    }
    assert!(check_mod_archive_entries(&vec![entry("Example.dll"), entry("MyGameTweaks.Agent.Core.dll")]).is_ok());
}

#[test]
fn agent_mods_must_name_their_minimum_agent_version() {
    let mut agent_mod = definition("agent.mod");
    agent_mod.integration = ModIntegration::Agent;
    assert_eq!(validate_mod_definition(&agent_mod).unwrap_err().code, "catalog_invalid");
    agent_mod.compatibility.minimum_agent_version = Some("0.1.0".to_owned());
    assert!(validate_mod_definition(&agent_mod).is_ok());
}

#[test]
fn mod_releases_are_downloaded_from_the_catalog_releases() {
    let url = gametweaks::download::mod_release_url(&definition("author.mod")).unwrap();
    assert_eq!(
        url.text,
        "https://github.com/NicDev-Studios/GameTweaks-Games/releases/download/mod-author.mod-v1.0.0/test.zip"
    );
    assert_eq!(url.host.as_deref(), Some("github.com"));
}

#[test]
fn mod_archives_pass_only_with_distinct_paths_within_the_size_limit() {
    let entry = |path: &str, size: u64| ArchiveEntry {
        encrypted: false,
        unix_mode: None,
        path: Some(path.to_owned()),
        size,
        is_dir: false,
    };
    let good = vec![entry("plugins/Example.dll", 10), entry("plugins/readme.txt", 5)];
    assert_eq!(check_mod_archive_entries(&good).unwrap(), vec!["plugins/Example.dll", "plugins/readme.txt"]);
    let twice = vec![entry("plugins/Example.dll", 10), entry("plugins\\Example.dll", 10)];
    assert_eq!(check_mod_archive_entries(&twice).unwrap_err().code, "mod_integrity_error");
    let large = vec![entry("plugins/Example.dll", 200 * 1024 * 1024), entry("plugins/b.bin", 100 * 1024 * 1024)];
    assert_eq!(check_mod_archive_entries(&large).unwrap_err().code, "mod_integrity_error");
    let mut encrypted = entry("plugins/Example.dll", 10);
    encrypted.encrypted = true;
    assert!(check_mod_archive_entries(&vec![encrypted]).is_err());
}
