//! Verified core of the GameTweaks desktop backend: Steam library parsing,
//! BepInEx detection and package selection, the mod catalog rules, the mod
//! configuration file editor, the agent protocol rules and the updater's
//! release selection.
pub mod agent;
pub mod archives;
pub mod bepinex;
pub mod catalog;
pub mod commit;
pub mod cfgfile;
pub mod config;
pub mod connections;
pub mod detection;
pub mod download;
pub mod error;
pub mod fields;
pub mod ieee;
pub mod installs;
pub mod layout;
pub mod mods;
pub mod overlay;
pub mod packages;
pub mod paths;
pub mod patterns;
pub mod pending;
pub mod plan;
pub mod plans;
pub mod processes;
pub mod rules;
pub mod settings;
pub mod staging;
pub mod steam;
pub mod support;
pub mod text;
pub mod tokens;
pub mod uninstall;
pub mod updater;
pub mod validate;
pub mod vdf;
pub mod version;
pub mod versions;
