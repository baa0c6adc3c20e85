//! Where GameTweaks keeps its files inside a game: the agent's directory,
//! one directory per mod, the mods' configuration files, and paths below a
//! directory that come from archives and markers.
use vstd::prelude::*;

use crate::error::ErrorResponse;
use crate::paths::{safe_relative_path, validate_relative_path};
use crate::steam::{join_path, unix_join};
use crate::text::append_str;

verus! {

/// The directory of the agent, below a game's root.
pub const AGENT_DIRECTORY: &'static str = "BepInEx/plugins/GameTweaks.Agent";

/// The directory that holds one directory per mod, below a game's root.
pub const MODS_DIRECTORY: &'static str = "BepInEx/plugins/GameTweaks";

/// The directory of BepInEx configuration files, below a game's root.
pub const CONFIG_DIRECTORY: &'static str = "BepInEx/config";

/// The agent's directory in the game whose root is `game_root`.
pub fn agent_directory(game_root: &str) -> (directory: String)
    ensures
        directory@ == unix_join(game_root@, AGENT_DIRECTORY@),
{
    join_path(game_root, AGENT_DIRECTORY)
}

/// The directory of mod `mod_id` in the game whose root is `game_root`.
pub fn mod_directory(game_root: &str, mod_id: &str) -> (directory: String)
    ensures
        directory@ == unix_join(unix_join(game_root@, MODS_DIRECTORY@), mod_id@),
{
    let mods = join_path(game_root, MODS_DIRECTORY);
    join_path(mods.as_str(), mod_id)
}

/// The configuration file of the plugin `guid` in the game whose root is
/// `game_root`: `<guid>.cfg` in the configuration directory.
pub fn config_path(game_root: &str, guid: &str) -> (path: String)
    ensures
        path@ == unix_join(unix_join(game_root@, CONFIG_DIRECTORY@), guid@ + ".cfg"@),
{
    let directory = join_path(game_root, CONFIG_DIRECTORY);
    let mut file = guid.to_string();
    append_str(&mut file, ".cfg");
    join_path(directory.as_str(), file.as_str())
}

/// `relative` below `root`, where it is a relative path of plain names;
/// anything else is `mod_integrity_error`.
pub fn safe_join(root: &str, relative: &str) -> (joined: Result<String, ErrorResponse>)
    ensures
        joined is Ok <==> safe_relative_path(relative@),
        joined matches Ok(p) ==> p@ == unix_join(root@, relative@),
        joined matches Err(e) ==> e.code@ == "mod_integrity_error"@,
{
    validate_relative_path(relative)?;
    Ok(join_path(root, relative))
}

} // verus!
