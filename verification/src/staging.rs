//! The agent that ships with the app, as it is staged for a game and then
//! committed into the game's plugin directory.
use vstd::prelude::*;

use crate::agent::{agent_marker_valid, hex_round_trip, lower_hex, AgentMarker, AGENT_VERSION};
use crate::bepinex::{BepInExAvailability, BepInExRuntime};
use crate::error::{agent_error, ErrorResponse};
use crate::mods::{dll_name, is_dll_name};
use crate::tokens::{hex_of_bytes, random_hex};

verus! {

/// Whether one of the files is a DLL.
pub open spec fn holds_dll(files: Seq<String>) -> bool {
    exists|i: int| 0 <= i < files.len() && #[trigger] is_dll_name(files[i]@)
}

/// The marker of an agent staged for a game of `runtime` with `files`:
/// this app's agent version, a secret of 32 random bytes, no game yet.
pub open spec fn staged_marker(marker: AgentMarker, runtime: BepInExRuntime, files: Seq<String>) -> bool {
    &&& marker.schema_version == 1
    &&& marker.app_id == 0
    &&& marker.version@ == AGENT_VERSION@
    &&& marker.runtime == runtime
    &&& hex_of_bytes(marker.secret@, 32)
    &&& marker.files@ == files
}

/// The marker written beside a staged agent. Staged files without a DLL
/// are `agent_unavailable`, and a failing random source is
/// `agent_security_error`.
pub fn staged_agent_marker(runtime: BepInExRuntime, files: Vec<String>) -> (marker: Result<AgentMarker, ErrorResponse>)
    ensures
        !holds_dll(files@) ==> (marker matches Err(e) && e.code@ == "agent_unavailable"@),
        holds_dll(files@) ==> match marker {
            Ok(m) => staged_marker(m, runtime, files@),
            Err(e) => e.code@ == "agent_security_error"@,
        },
{
    let mut i: usize = 0;
    let mut found = false;
    while i < files.len()
        invariant
            i <= files@.len(),
            found == exists|j: int| 0 <= j < i && #[trigger] is_dll_name(files@[j]@),
        decreases files@.len() - i,
    {
        if dll_name(files[i].as_str()) {
            found = true;
        }
        i = i + 1;
    }
    if !found {
        return Err(agent_error("agent_unavailable", "the bundled agent contained no DLL"));
    }
    let secret = random_hex(32)?;
    Ok(
        AgentMarker {
            schema_version: 1,
            app_id: 0,
            version: String::from_str(AGENT_VERSION),
            runtime,
            secret,
            files,
        },
    )
}

/// Whether the staged agent may take the place of what the game's agent
/// directory holds: nothing, or a valid agent installation of the same
/// game (`installed`, where the directory exists and holds one). Anything
/// else is `agent_collision`.
pub fn check_agent_replacement(directory_exists: bool, installed: Option<&AgentMarker>, app_id: u32) -> (checked:
    Result<(), ErrorResponse>)
    ensures
        checked is Ok <==> (!directory_exists || (installed matches Some(m) && m.app_id == app_id)),
        checked matches Err(e) ==> e.code@ == "agent_collision"@,
{
    if !directory_exists {
        return Ok(());
    }
    match installed {
        None => Err(agent_error("agent_collision", "an existing agent directory is not managed by GameTweaks")),
        Some(m) => {
            if m.app_id != app_id {
                Err(agent_error("agent_collision", "the existing agent belongs to another game"))
            } else {
                Ok(())
            }
        },
    }
}

/// A staged agent, once committed into a game, is trusted and current
/// there: its marker, naming the game, is valid and carries this app's
/// agent version.
pub proof fn committed_agent_is_current(marker: AgentMarker, runtime: BepInExRuntime, files: Seq<String>, app_id: u32)
    requires
        staged_marker(marker, runtime, files),
        holds_dll(files),
    ensures
        agent_marker_valid(AgentMarker { app_id, ..marker }),
        (AgentMarker { app_id, ..marker }).app_id == app_id,
        (AgentMarker { app_id, ..marker }).version@ == AGENT_VERSION@,
{
    let bytes = choose|bytes: Seq<u8>| bytes.len() == 32 && marker.secret@ == lower_hex(bytes);
    hex_round_trip(bytes);
    assert(marker.secret@.len() == 64);
}

/// Whether the development agent may be installed at all: only in
/// developer mode (`developer_mode_required`), and only on Windows
/// (`agent_unsupported`).
pub fn check_development_agent_allowed(developer_mode: bool, windows: bool) -> (checked: Result<(), ErrorResponse>)
    ensures
        !developer_mode ==> (checked matches Err(e) && e.code@ == "developer_mode_required"@),
        developer_mode && !windows ==> (checked matches Err(e) && e.code@ == "agent_unsupported"@),
        developer_mode && windows ==> checked is Ok,
{
    if !developer_mode {
        return Err(agent_error("developer_mode_required", "developer mode is required to install the development agent"));
    }
    if !windows {
        return Err(agent_error("agent_unsupported", "the GameTweaks agent is currently available on Windows only"));
    }
    Ok(())
}

/// The development agent goes only into a game whose installation could be
/// analyzed (`agent_install_blocked` otherwise) and has BepInEx installed
/// (`mod_requires_bepinex` otherwise); `availability` is what the analysis
/// found, `None` where it failed.
pub fn check_development_agent_target(availability: Option<BepInExAvailability>) -> (checked: Result<(), ErrorResponse>)
    ensures
        availability is None ==> (checked matches Err(e) && e.code@ == "agent_install_blocked"@),
        availability matches Some(a) && a != BepInExAvailability::Installed ==> (checked matches Err(e) && e.code@
            == "mod_requires_bepinex"@),
        availability == Some(BepInExAvailability::Installed) ==> checked is Ok,
{
    match availability {
        None => Err(agent_error("agent_install_blocked", "the game installation is not compatible with the development agent")),
        Some(BepInExAvailability::Installed) => Ok(()),
        Some(_) => Err(agent_error("mod_requires_bepinex", "BepInEx must be installed before the development agent")),
    }
}

} // verus!
