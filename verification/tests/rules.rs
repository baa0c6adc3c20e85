use gametweaks::agent::{AgentConnectionStatus, AgentModSnapshot};
use gametweaks::bepinex::{
    is_anti_cheat_name, progress_percentage, status_error, strip_suffix_ignore_ascii_case, BepInExAvailability,
    BepInExGameStatus, BepInExReason,
};
use gametweaks::catalog::{ModDependency, ModIntegration};
use gametweaks::fields::{
    valid_options, BooleanDisplay, ConfigApplyMode, ConfigField, ConfigValue, LocalizedText, SelectOption,
};
use gametweaks::mods::{GameMod, GameModStatus, GameSupportStatus};
use gametweaks::overlay::external_mods;
use gametweaks::packages::{
    decode_minimal_html_entities, href_values, parse_unsigned, parse_v5_version, trusted_catalog_url,
    trusted_response_url, WebUrl,
};
use gametweaks::error::agent_error;
use gametweaks::ieee::{at_most, finite_double, less_than, nan_double};
use gametweaks::layout::{agent_directory, config_path, mod_directory, safe_join};
use gametweaks::paths::validate_relative_path;
use gametweaks::patterns::{replace_text, split_by};
use gametweaks::rules::{
    valid_config_name, valid_guid, valid_identifier, valid_localized_text, valid_lower_sha256, valid_release_part,
    valid_repository, valid_sha256,
};
use gametweaks::settings::serialize_safely;
use gametweaks::steam::{parse_u32, text_before};
use gametweaks::support::{apply_restart_flags, game_support, order_by_name};

fn text(value: &str) -> LocalizedText {
    LocalizedText { en: value.to_owned(), de: None }
}

fn game_mod(mod_id: &str, name: &str) -> GameMod {
    GameMod {
        mod_id: mod_id.to_owned(),
        guid: format!("dev.example.{mod_id}"),
        version: "1.0.0".to_owned(),
        installed_version: None,
        official: false,
        external: false,
        name: text(name),
        description: text("A mod"),
        integration: ModIntegration::ConfigFile,
        status: GameModStatus::NotInstalled,
        dependencies: Vec::<ModDependency>::new(),
        conflicts: Vec::new(),
        config: Vec::new(),
        values: Vec::new(),
        restart_required: false,
    }
}

fn url(scheme: &str, host: Option<&str>) -> WebUrl {
    WebUrl {
        text: format!("{scheme}://{}/", host.unwrap_or("")),
        scheme: scheme.to_owned(),
        host: host.map(str::to_owned),
        segments: Vec::new(),
    }
}

#[test]
fn identifiers_and_names_follow_the_catalog_rules() {
    assert!(valid_identifier("author.mod-name_2"));
    assert!(!valid_identifier(""));
    assert!(!valid_identifier("bad/name"));
    assert!(!valid_identifier(&"a".repeat(97)));
    assert!(valid_guid("dev.author.mod"));
    assert!(!valid_guid("nodots"));
    assert!(valid_sha256(&"Ab".repeat(32)));
    assert!(!valid_sha256(&"g".repeat(64)));
    assert!(valid_lower_sha256(&"ab".repeat(32)));
    assert!(!valid_lower_sha256(&"AB".repeat(32)));
    assert!(valid_release_part("v1.0.0+build"));
    assert!(!valid_release_part("v1 0"));
    assert!(valid_repository("author/repo"));
    assert!(!valid_repository("author"));
    assert!(!valid_repository("https://example.com/mod"));
    assert!(valid_config_name("General"));
    assert!(valid_localized_text(&text("A name")));
    assert!(!valid_localized_text(&text("   ")));
}

#[test]
fn bepinex_helpers_compute_exact_values() {
    assert_eq!(parse_v5_version("v5.4.23.5"), Some((5, 4, 23, 5)));
    assert_eq!(parse_v5_version("v6.0.0.0"), None);
    assert_eq!(parse_v5_version("5.4.23.5"), None);
    assert_eq!(parse_unsigned("0042"), Some(42));
    assert_eq!(parse_unsigned("4x"), None);
    assert_eq!(decode_minimal_html_entities("a&amp;b&#43;c&#x2B;d&#x2b;e&lt;"), "a&b+c+d+e&lt;");
    assert_eq!(
        href_values(r#"<a href="/one">1</a> <a class="x" href="two?a=1&amp;b=2">2</a>"#),
        vec!["/one".to_owned(), "two?a=1&amp;b=2".to_owned()]
    );
    assert_eq!(progress_percentage(50, Some(200)), Some(25));
    assert_eq!(progress_percentage(300, Some(200)), Some(100));
    assert_eq!(progress_percentage(10, Some(0)), None);
    assert_eq!(progress_percentage(10, None), None);
    assert_eq!(strip_suffix_ignore_ascii_case("Game_DATA", "_data"), Some("Game"));
    assert_eq!(strip_suffix_ignore_ascii_case("Game", "_Data"), None);
    assert!(is_anti_cheat_name("easyanticheat"));
    assert!(is_anti_cheat_name("battleye"));
    assert!(is_anti_cheat_name("beclient_x64.dll"));
    assert!(!is_anti_cheat_name("EasyAntiCheat"));
    assert!(!is_anti_cheat_name("managed"));
    let blocked = BepInExGameStatus::blocked(BepInExReason::AntiCheatDetected, None, None);
    assert_eq!(status_error(blocked).code, "bepinex_blocked");
    assert_eq!(
        status_error(BepInExGameStatus::unsupported(BepInExReason::WindowsOnly)).code,
        "bepinex_unsupported"
    );
    let installed = BepInExGameStatus { status: BepInExAvailability::Installed, ..BepInExGameStatus::unsupported(BepInExReason::WindowsOnly) };
    assert_eq!(status_error(installed).code, "bepinex_already_installed");
}

#[test]
fn only_https_responses_of_known_hosts_are_trusted() {
    assert!(trusted_response_url(&url("https", Some("api.github.com"))));
    assert!(trusted_response_url(&url("https", Some("builds.bepinex.dev"))));
    assert!(!trusted_response_url(&url("http", Some("api.github.com"))));
    assert!(!trusted_response_url(&url("https", Some("example.com"))));
    assert!(!trusted_response_url(&url("https", None)));
    assert!(trusted_catalog_url(&url("https", Some("raw.githubusercontent.com"))));
    assert!(!trusted_catalog_url(&url("https", Some("builds.bepinex.dev"))));
}

#[test]
fn text_helpers_compute_exact_values() {
    assert_eq!(split_by("a|b||c", "|"), vec!["a".to_owned(), "b".to_owned(), String::new(), "c".to_owned()]);
    assert_eq!(replace_text("a\\b\\c", "\\", "/"), "a/b/c");
    assert!(text_before("Alpha", "alpha"));
    assert!(!text_before("b", "a"));
    assert!(text_before("a", "ab"));
    assert_eq!(parse_u32("4294967295"), Some(u32::MAX));
    assert_eq!(parse_u32("4294967296"), None);
    assert_eq!(parse_u32(""), None);
    assert!(validate_relative_path("plugin/mod.dll").is_ok());
    assert_eq!(validate_relative_path("../mod.dll").unwrap_err().code, "mod_integrity_error");
    assert!(validate_relative_path("/mod.dll").is_err());
    assert!(validate_relative_path("").is_err());
}

#[test]
fn mods_are_listed_by_name_with_restart_flags() {
    let ordered = order_by_name(vec![game_mod("z", "zeta"), game_mod("a", "Alpha"), game_mod("b", "beta")]);
    let ids: Vec<&str> = ordered.iter().map(|m| m.mod_id.as_str()).collect();
    assert_eq!(ids, vec!["a", "b", "z"]);

    let same = order_by_name(vec![game_mod("second", "Same"), game_mod("first", "same")]);
    assert_eq!(same[0].mod_id, "second");

    let restart = vec![(10, "b".to_owned()), (11, "a".to_owned())];
    let mut mods = vec![game_mod("a", "Alpha"), game_mod("b", "beta")];
    apply_restart_flags(&restart, 10, &mut mods);
    assert!(!mods[0].restart_required);
    assert!(mods[1].restart_required);

    let mut external = game_mod("ext", "Aardvark");
    external.external = true;
    let support = game_support(
        10,
        GameSupportStatus::Supported,
        Some(text("Example")),
        vec![game_mod("z", "zeta"), game_mod("b", "beta")],
        vec![external],
        &restart,
        AgentConnectionStatus::Connected,
        true,
    );
    let ids: Vec<&str> = support.mods.iter().map(|m| m.mod_id.as_str()).collect();
    assert_eq!(ids, vec!["b", "z", "ext"]);
    assert!(support.mods[0].restart_required);
    assert!(support.cached);
    assert_eq!(support.agent_status, AgentConnectionStatus::Connected);
}

#[test]
fn external_mods_need_exactly_one_agent() {
    let snapshot = || AgentModSnapshot {
        mod_id: "external.mod".to_owned(),
        version: "1.0.0".to_owned(),
        name: text("External"),
        description: text("External mod"),
        fields: Vec::new(),
        values: Vec::new(),
    };
    assert_eq!(external_mods(vec![vec![snapshot()]]).len(), 1);
    assert!(external_mods(vec![vec![snapshot()], vec![snapshot()]]).is_empty());
    assert!(external_mods(Vec::new()).is_empty());
}

#[test]
fn setting_metadata_and_options_are_checked() {
    let option = |value: &str| SelectOption { value: value.to_owned(), label: text(value) };
    assert!(valid_options(&vec![option("one"), option("two")]));
    assert!(!valid_options(&vec![option("same"), option("same")]));
    assert!(!valid_options(&Vec::new()));

    let mut field = ConfigField::Boolean {
        id: "enabled".to_owned(),
        section: "General".to_owned(),
        key: "Enabled".to_owned(),
        label: text("Enabled"),
        description: None,
        locked: false,
        default: true,
        apply_mode: ConfigApplyMode::Live,
        display: BooleanDisplay::Switch,
    };
    assert!(field.metadata_is_valid());
    assert_eq!(field.section_key(), ("General", "Enabled"));
    assert!(matches!(field.default_value(), ConfigValue::Bool(true)));
    field.set_locked(true);
    assert!(field.is_locked());
    assert_eq!(field.id(), "enabled");

    let fields = vec![field];
    assert!(serialize_safely(&fields, &vec![("enabled".to_owned(), ConfigValue::Bool(false))]));
}

#[test]
fn game_files_have_fixed_places() {
    assert_eq!(agent_directory("C:/Games/Example"), "C:/Games/Example/BepInEx/plugins/GameTweaks.Agent");
    assert_eq!(mod_directory("/games/example/", "author.mod"), "/games/example/BepInEx/plugins/GameTweaks/author.mod");
    assert_eq!(config_path("/games/example", "dev.author.mod"), "/games/example/BepInEx/config/dev.author.mod.cfg");
    assert_eq!(safe_join("/staging", "plugin/mod.dll").unwrap(), "/staging/plugin/mod.dll");
    assert_eq!(safe_join("/staging", "../mod.dll").unwrap_err().code, "mod_integrity_error");
    let error = agent_error("agent_timeout", "no answer");
    assert_eq!(error.code, "agent_timeout");
    assert_eq!(error.message, "game mod error: no answer");
}

#[test]
fn doubles_compare_as_ieee_numbers() {
    let values = [
        f64::NEG_INFINITY,
        -1.5e300,
        -2.0,
        -f64::MIN_POSITIVE / 4.0,
        -0.0,
        0.0,
        f64::MIN_POSITIVE / 4.0,
        1.0,
        1.0000000000000002,
        f64::MAX,
        f64::INFINITY,
        f64::NAN,
    ];
    for a in values {
        assert_eq!(finite_double(a.to_bits()), a.is_finite());
        assert_eq!(nan_double(a.to_bits()), a.is_nan());
        for b in values {
            assert_eq!(less_than(a.to_bits(), b.to_bits()), a < b, "{a} < {b}");
            assert_eq!(at_most(a.to_bits(), b.to_bits()), a <= b, "{a} <= {b}");
        }
    }
}

#[test]
fn multi_select_values_are_distinct_listed_choices_joined_by_commas() {
    let option = |value: &str| SelectOption {
        value: value.to_owned(),
        label: LocalizedText { en: value.to_owned(), de: None },
    };
    let field = ConfigField::MultiSelect {
        id: "tags".to_owned(),
        section: "General".to_owned(),
        key: "Tags".to_owned(),
        label: LocalizedText { en: "Tags".to_owned(), de: None },
        description: None,
        locked: false,
        default: Vec::new(),
        options: vec![option("a"), option("b"), option("c")],
        apply_mode: ConfigApplyMode::RestartRequired,
    };
    let texts = |values: &[&str]| ConfigValue::Array(values.iter().map(|v| ConfigValue::Text(v.to_string())).collect());
    assert_eq!(field.serialize_value(&texts(&["c", "a"])).unwrap(), "c,a");
    assert_eq!(field.serialize_value(&texts(&[])).unwrap(), "");
    assert_eq!(field.serialize_value(&texts(&["a", "a"])).unwrap_err().code, "mod_config_invalid");
    assert_eq!(field.serialize_value(&texts(&["d"])).unwrap_err().code, "mod_config_invalid");
    assert!(field.serialize_value(&ConfigValue::Text("a".to_owned())).is_err());
    assert!(field.serialize_value(&ConfigValue::Array(vec![ConfigValue::Bool(true)])).is_err());
}
