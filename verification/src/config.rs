use vstd::prelude::*;

use crate::error::ErrorResponse;

verus! {

/// The theme the interface uses.
#[derive(Clone, Copy, Debug, PartialEq, Eq, Structural)]
pub enum ThemePreference {
    System,
    Dark,
    Light,
}

/// The interface language.
#[derive(Clone, Copy, Debug, PartialEq, Eq, Structural)]
pub enum LanguagePreference {
    Automatic,
    En,
    De,
}

/// The release channel the updater follows.
#[derive(Clone, Copy, Debug, PartialEq, Eq, Structural)]
pub enum UpdateChannel {
    Stable,
    Beta,
}

/// The persisted application settings.
#[derive(Clone, Copy, Debug, PartialEq, Eq, Structural)]
pub struct AppConfig {
    pub version: u32,
    pub theme: ThemePreference,
    pub language: LanguagePreference,
    pub update_channel: UpdateChannel,
    pub developer_mode: bool,
}

impl Default for AppConfig {
    fn default() -> (config: AppConfig)
        ensures
            config == (AppConfig {
                version: 1,
                theme: ThemePreference::System,
                language: LanguagePreference::Automatic,
                update_channel: UpdateChannel::Stable,
                developer_mode: false,
            }),
    {
        AppConfig {
            version: 1,
            theme: ThemePreference::System,
            language: default_language(),
            update_channel: default_update_channel(),
            developer_mode: false,
        }
    }
}

/// Whether developer mode is on: always in builds that force it (debug
/// builds, `forced`), otherwise as the user persisted it.
pub fn developer_mode_enabled(config: &AppConfig, forced: bool) -> (enabled: bool)
    ensures
        enabled == (forced || config.developer_mode),
{
    forced || config.developer_mode
}

/// The language used when a stored configuration names none.
pub fn default_language() -> (language: LanguagePreference)
    ensures
        language == LanguagePreference::Automatic,
{
    LanguagePreference::Automatic
}

/// The update channel used when a stored configuration names none.
pub fn default_update_channel() -> (channel: UpdateChannel)
    ensures
        channel == UpdateChannel::Stable,
{
    UpdateChannel::Stable
}


/// The settings that are loaded: those of the primary file where it
/// exists and reads; else, where a backup exists, those of the backup (the
/// primary's error where the backup does not read either); the defaults
/// where neither exists. `None` stands for a file that does not exist.
pub fn select_config(
    primary: Option<Result<AppConfig, ErrorResponse>>,
    backup: Option<Result<AppConfig, ErrorResponse>>,
) -> (config: Result<AppConfig, ErrorResponse>)
    ensures
        match primary {
            None => match backup {
                Some(Ok(b)) => config == Ok::<AppConfig, ErrorResponse>(b),
                Some(Err(e)) => config matches Err(c) && c.code@ == e.code@ && c.message@ == e.message@,
                None => config == Ok::<AppConfig, ErrorResponse>(AppConfig {
                    version: 1,
                    theme: ThemePreference::System,
                    language: LanguagePreference::Automatic,
                    update_channel: UpdateChannel::Stable,
                    developer_mode: false,
                }),
            },
            Some(Ok(p)) => config == Ok::<AppConfig, ErrorResponse>(p),
            Some(Err(e)) => match backup {
                Some(Ok(b)) => config == Ok::<AppConfig, ErrorResponse>(b),
                _ => config matches Err(c) && c.code@ == e.code@ && c.message@ == e.message@,
            },
        },
{
    match primary {
        None => match backup {
            Some(result) => result,
            None => Ok(AppConfig::default()),
        },
        Some(Ok(config)) => Ok(config),
        Some(Err(error)) => match backup {
            Some(Ok(config)) => Ok(config),
            _ => Err(error),
        },
    }
}

} // verus!
