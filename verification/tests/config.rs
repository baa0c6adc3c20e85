use gametweaks::config::{developer_mode_enabled, AppConfig};
use gametweaks::version::{current, is_release_build, DEVELOPMENT_VERSION_LABEL};

#[test]
fn developer_mode_defaults_to_opt_in_outside_forced_builds() {
    let config = AppConfig::default();

    assert!(!config.developer_mode);
    for forced in [false, true] {
        assert_eq!(developer_mode_enabled(&config, forced), forced);
    }
}

#[test]
fn persisted_developer_mode_is_enabled() {
    let config = AppConfig { developer_mode: true, ..AppConfig::default() };

    assert!(developer_mode_enabled(&config, false));
}

#[test]
fn version_state_matches_the_compile_time_environment() {
    for release in [None, Some("1.0.0-beta.2")] {
        assert_eq!(current(release), release.unwrap_or(DEVELOPMENT_VERSION_LABEL));
        assert_eq!(is_release_build(release), release.is_some());
    }
}

#[test]
fn local_builds_show_the_working_label() {
    assert_eq!(current(None), "DEV_WORKING");
    assert!(!is_release_build(None));
}
