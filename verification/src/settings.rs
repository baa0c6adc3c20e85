//! Changing the settings of an installed mod: which description of its
//! settings holds, which changes are accepted and what they are written
//! as, and whether they go to the running agent or to the configuration
//! file.
use vstd::prelude::*;

use crate::catalog::{ModDefinition, ModIntegration};
use crate::error::{mod_error, ErrorResponse};
use crate::fields::{ConfigField, ConfigValue};
use crate::overlay::{field_index, field_index_from, merge_runtime_fields, merged_fields};
use crate::plan::ModInstallMarker;
use crate::text::str_equal;

verus! {

/// The most settings that one request may change.
pub const MAX_CHANGES: usize = 128;

/// A request changes at least one setting and at most the limit.
pub fn check_change_count(count: usize) -> (result: Result<(), ErrorResponse>)
    ensures
        result is Ok <==> 0 < count <= MAX_CHANGES,
        result matches Err(e) ==> e.code@ == "mod_config_invalid"@,
{
    if count == 0 || count > MAX_CHANGES {
        return Err(mod_error("mod_config_invalid", "no valid settings were provided"));
    }
    Ok(())
}

/// The installed mod's marker belongs to this game, mod and release GUID.
pub open spec fn marker_matches(marker: ModInstallMarker, app_id: u32, mod_id: Seq<char>, guid: Seq<char>) -> bool {
    marker.app_id == app_id && marker.mod_id@ == mod_id && marker.guid@ == guid
}

/// The error a request for a mod's settings gets, if any: a catalog mod
/// must be installed by this app with a marker that matches it; a mod the
/// catalog no longer defines, or whose catalog cannot be read, may not be
/// installed by this app; and a mod the catalog does not know must be
/// described by a connected agent.
pub open spec fn schema_error(
    catalog: Result<Option<ModDefinition>, ErrorResponse>,
    marker: Option<ModInstallMarker>,
    app_id: u32,
    mod_id: Seq<char>,
    dynamic: Option<Seq<ConfigField>>,
) -> Option<Seq<char>> {
    match catalog {
        Ok(Some(definition)) => match marker {
            Some(m) => if marker_matches(m, app_id, mod_id, definition.guid@) {
                None
            } else {
                Some("mod_not_managed"@)
            },
            None => Some("mod_not_managed"@),
        },
        Ok(None) => if marker is Some {
            Some("mod_not_found"@)
        } else if dynamic is None {
            Some("mod_not_found"@)
        } else {
            None
        },
        Err(e) => if marker is Some {
            Some(e.code@)
        } else if dynamic is None {
            Some("mod_not_found"@)
        } else {
            None
        },
    }
}

/// The settings that hold for a mod's configuration: how they are applied,
/// the GUID of its configuration file where the catalog defines it, and the
/// settings themselves. `catalog` is the mod's definition where the catalog
/// could be read (`None` where it does not define the mod), `marker` the
/// marker of its installation by this app, and `dynamic` what a connected
/// agent describes.
pub fn config_schema(
    catalog: Result<Option<ModDefinition>, ErrorResponse>,
    marker: Option<ModInstallMarker>,
    app_id: u32,
    mod_id: &str,
    dynamic: Option<Vec<ConfigField>>,
) -> (schema: Result<(ModIntegration, Option<String>, Vec<ConfigField>), ErrorResponse>)
    ensures
        ({
            let dynamic_view = match dynamic {
                Some(d) => Some(d@),
                None => None,
            };
            match schema_error(catalog, marker, app_id, mod_id@, dynamic_view) {
                Some(code) => schema matches Err(e) && e.code@ == code,
                None => schema matches Ok((integration, guid, fields)) && match catalog {
                    Ok(Some(definition)) => integration == definition.integration && (guid matches Some(g)
                        && g@ == definition.guid@) && fields@ == match dynamic {
                        Some(d) => merged_fields(definition.config@, d@),
                        None => definition.config@,
                    },
                    _ => integration == ModIntegration::Agent && guid is None && (dynamic matches Some(d) && fields@
                        == d@),
                },
            }
        }),
{
    match catalog {
        Ok(Some(definition)) => {
            let m = match marker {
                Some(m) => m,
                None => {
                    return Err(mod_error("mod_not_managed", "the catalog mod is not installed"));
                },
            };
            if m.app_id != app_id || !str_equal(m.mod_id.as_str(), mod_id) || !str_equal(
                m.guid.as_str(),
                definition.guid.as_str(),
            ) {
                return Err(mod_error("mod_not_managed", "the mod marker no longer matches the selected game"));
            }
            let ModDefinition { guid, integration, config, .. } = definition;
            let mut fields = config;
            match dynamic {
                Some(d) => merge_runtime_fields(&mut fields, d),
                None => {},
            }
            Ok((integration, Some(guid), fields))
        },
        Ok(None) => {
            if marker.is_some() {
                return Err(mod_error("mod_not_found", "the installed catalog mod was no longer defined"));
            }
            match dynamic {
                Some(d) => Ok((ModIntegration::Agent, None, d)),
                None => Err(mod_error("mod_not_found", "the external mod was not connected")),
            }
        },
        Err(e) => {
            if marker.is_some() {
                return Err(e);
            }
            match dynamic {
                Some(d) => Ok((ModIntegration::Agent, None, d)),
                None => Err(mod_error("mod_not_found", "the external mod was not connected")),
            }
        },
    }
}

/// What is wrong with one requested change, if anything: an unknown
/// setting, a locked one, or a value that does not fit.
pub open spec fn change_problem(fields: Seq<ConfigField>, change: (String, ConfigValue)) -> Option<Seq<char>> {
    let k = field_index(fields, change.0@);
    if k < 0 {
        Some("mod_config_invalid"@)
    } else if fields[k].spec_locked() {
        Some("mod_schema_conflict"@)
    } else if fields[k].spec_serialized(change.1.model()) is None {
        Some("mod_config_invalid"@)
    } else {
        None
    }
}

/// The first problem among the changes, in order.
pub open spec fn first_problem(fields: Seq<ConfigField>, changes: Seq<(String, ConfigValue)>) -> Option<Seq<char>>
    decreases changes.len(),
{
    if changes.len() == 0 {
        None
    } else {
        match change_problem(fields, changes[0]) {
            Some(code) => Some(code),
            None => first_problem(fields, changes.drop_first()),
        }
    }
}

/// Serializing the changes stays clear of the one overflow that Rust's
/// arithmetic would panic on.
pub open spec fn changes_serialize_safely(fields: Seq<ConfigField>, changes: Seq<(String, ConfigValue)>) -> bool {
    forall|i: int|
        0 <= i < changes.len() && field_index(fields, (#[trigger] changes[i]).0@) >= 0 ==> fields[field_index(
            fields,
            changes[i].0@,
        )].serializes_without_overflow(changes[i].1.model())
}

proof fn lemma_field_index(fields: Seq<ConfigField>, id: Seq<char>, i: int)
    requires
        0 <= i <= fields.len(),
    ensures
        field_index_from(fields, id, i) == -1 || (i <= field_index_from(fields, id, i) < fields.len()),
    decreases fields.len() - i,
{
    if i < fields.len() && fields[i].spec_id() != id {
        lemma_field_index(fields, id, i + 1);
    }
}

fn locate(fields: &Vec<ConfigField>, id: &str) -> (found: Option<usize>)
    ensures
        match found {
            Some(k) => k as int == field_index(fields@, id@) && k < fields@.len(),
            None => field_index(fields@, id@) == -1,
        },
{
    proof {
        lemma_field_index(fields@, id@, 0);
    }
    let mut i: usize = 0;
    while i < fields.len()
        invariant
            i <= fields@.len(),
            field_index(fields@, id@) == field_index_from(fields@, id@, i as int),
            field_index(fields@, id@) == -1 || field_index(fields@, id@) < fields@.len(),
        decreases fields@.len() - i,
    {
        if str_equal(fields[i].id(), id) {
            return Some(i);
        }
        i = i + 1;
    }
    None
}

/// Whether serializing the changes stays clear of integer overflow.
pub fn serialize_safely(fields: &Vec<ConfigField>, changes: &Vec<(String, ConfigValue)>) -> (safe: bool)
    ensures
        safe == changes_serialize_safely(fields@, changes@),
{
    let mut i: usize = 0;
    while i < changes.len()
        invariant
            i <= changes@.len(),
            forall|j: int|
                0 <= j < i && field_index(fields@, (#[trigger] changes@[j]).0@) >= 0 ==> fields@[field_index(
                    fields@,
                    changes@[j].0@,
                )].serializes_without_overflow(changes@[j].1.model()),
        decreases changes@.len() - i,
    {
        match locate(fields, changes[i].0.as_str()) {
            Some(k) => {
                let safe = match &fields[k] {
                    ConfigField::Integer { min, max, step, .. } => match &changes[i].1 {
                        ConfigValue::Integer(v, _) => !(*min <= *v && *v <= *max && *step > 0) || (*v as i128)
                            - (*min as i128) <= i64::MAX as i128,
                        _ => true,
                    },
                    _ => true,
                };
                if !safe {
                    return false;
                }
            },
            None => {},
        }
        i = i + 1;
    }
    true
}

/// The changes as they are written: for each, in order, the index of its
/// setting and the text of its value; refused with the code of the first
/// change that names an unknown or locked setting or a value that does not
/// fit.
pub fn serialize_changes(fields: &Vec<ConfigField>, changes: &Vec<(String, ConfigValue)>) -> (result: Result<
    Vec<(usize, String)>,
    ErrorResponse,
>)
    requires
        changes_serialize_safely(fields@, changes@),
    ensures
        match first_problem(fields@, changes@) {
            Some(code) => result matches Err(e) && e.code@ == code,
            None => result matches Ok(out) && out@.len() == changes@.len() && forall|i: int|
                0 <= i < out@.len() ==> (#[trigger] out@[i]).0 as int == field_index(fields@, changes@[i].0@)
                    && fields@[out@[i].0 as int].spec_serialized(changes@[i].1.model()) == Some(out@[i].1@),
        },
{
    let mut out: Vec<(usize, String)> = Vec::new();
    let mut i: usize = 0;
    proof {
        assert(changes@.subrange(0, changes@.len() as int) =~= changes@);
    }
    while i < changes.len()
        invariant
            i <= changes@.len(),
            changes_serialize_safely(fields@, changes@),
            first_problem(fields@, changes@) == first_problem(fields@, changes@.subrange(i as int, changes@.len() as int)),
            out@.len() == i,
            forall|j: int|
                0 <= j < i ==> (#[trigger] out@[j]).0 as int == field_index(fields@, changes@[j].0@) && fields@[out@[j].0 as int].spec_serialized(
                    changes@[j].1.model(),
                ) == Some(out@[j].1@),
        decreases changes@.len() - i,
    {
        let ghost rest = changes@.subrange(i as int, changes@.len() as int);
        proof {
            assert(rest[0] == changes@[i as int]);
            assert(rest.drop_first() =~= changes@.subrange(i + 1, changes@.len() as int));
        }
        let k = match locate(fields, changes[i].0.as_str()) {
            Some(k) => k,
            None => {
                return Err(mod_error("mod_config_invalid", "an unknown setting was provided"));
            },
        };
        if fields[k].is_locked() {
            return Err(mod_error("mod_schema_conflict", "a dynamic Agent field contradicted the catalog schema"));
        }
        proof {
            assert(field_index(fields@, changes@[i as int].0@) >= 0);
        }
        let text = match fields[k].serialize_value(&changes[i].1) {
            Ok(text) => text,
            Err(e) => {
                return Err(e);
            },
        };
        out.push((k, text));
        i = i + 1;
    }
    proof {
        assert(changes@.subrange(i as int, changes@.len() as int) =~= Seq::<(String, ConfigValue)>::empty());
    }
    Ok(out)
}

/// Where changed settings go.
#[derive(Clone, Debug)]
pub enum ConfigRoute {
    /// To the connected agent, which applies them in the running game.
    Agent,
    /// To the configuration file with this GUID, while the game is stopped.
    File(String),
}

/// Where a mod's changed settings go: to the agent where one is connected
/// and the mod is integrated through it, else to the configuration file,
/// which only a catalog mod has.
pub fn config_route(connected: bool, integration: ModIntegration, guid: Option<String>) -> (route: Result<ConfigRoute, ErrorResponse>)
    ensures
        connected && integration == ModIntegration::Agent ==> route matches Ok(ConfigRoute::Agent),
        !(connected && integration == ModIntegration::Agent) ==> match guid {
            Some(g) => route matches Ok(ConfigRoute::File(f)) && f@ == g@,
            None => route matches Err(e) && e.code@ == "mod_agent_required"@,
        },
{
    if connected && integration == ModIntegration::Agent {
        return Ok(ConfigRoute::Agent);
    }
    match guid {
        Some(g) => Ok(ConfigRoute::File(g)),
        None => Err(mod_error("mod_agent_required", "an external mod requires a unique live Agent connection")),
    }
}

/// The settings that hold for a mod: the catalog's, with what a connected
/// agent describes merged in, or, for a mod the catalog does not define,
/// what the agent describes.
pub open spec fn schema_fields(
    catalog: Result<Option<ModDefinition>, ErrorResponse>,
    dynamic: Option<Vec<ConfigField>>,
) -> Seq<ConfigField> {
    match catalog {
        Ok(Some(definition)) => match dynamic {
            Some(d) => merged_fields(definition.config@, d@),
            None => definition.config@,
        },
        _ => match dynamic {
            Some(d) => d@,
            None => Seq::empty(),
        },
    }
}

/// Changes go to the agent: one is connected and the mod is integrated
/// through it (a mod the catalog does not define always is).
pub open spec fn agent_route(catalog: Result<Option<ModDefinition>, ErrorResponse>, connected: bool) -> bool {
    connected && match catalog {
        Ok(Some(definition)) => definition.integration == ModIntegration::Agent,
        _ => true,
    }
}

/// The error a request to change a mod's settings gets before anything is
/// sent or written, if any, in the order the checks are made: the number
/// of changes, BepInEx being installed, the settings that hold, each
/// change, and where the changes can go.
pub open spec fn config_change_error(
    changes: Seq<(String, ConfigValue)>,
    bepinex_installed: bool,
    catalog: Result<Option<ModDefinition>, ErrorResponse>,
    marker: Option<ModInstallMarker>,
    app_id: u32,
    mod_id: Seq<char>,
    dynamic: Option<Vec<ConfigField>>,
    connected: bool,
) -> Option<Seq<char>> {
    let dynamic_view = match dynamic {
        Some(d) => Some(d@),
        None => None,
    };
    if !(0 < changes.len() <= MAX_CHANGES) {
        Some("mod_config_invalid"@)
    } else if !bepinex_installed {
        Some("mod_requires_bepinex"@)
    } else if schema_error(catalog, marker, app_id, mod_id, dynamic_view) is Some {
        schema_error(catalog, marker, app_id, mod_id, dynamic_view)
    } else if first_problem(schema_fields(catalog, dynamic), changes) is Some {
        first_problem(schema_fields(catalog, dynamic), changes)
    } else {
        let catalog_mod = catalog matches Ok(Some(_));
        if !agent_route(catalog, connected) && !catalog_mod {
            Some("mod_agent_required"@)
        } else {
            None
        }
    }
}

/// Decides a request to change a mod's settings, before anything is sent
/// or written: the error it gets, or where the changes go, the settings
/// that hold, and for each change the index of its setting and the text it
/// is written as. The changes go to the agent exactly where one agent is
/// connected and the mod is integrated through it; otherwise to the
/// configuration file of the catalog mod.
pub fn plan_config_change(
    changes: &Vec<(String, ConfigValue)>,
    bepinex_installed: bool,
    catalog: Result<Option<ModDefinition>, ErrorResponse>,
    marker: Option<ModInstallMarker>,
    app_id: u32,
    mod_id: &str,
    dynamic: Option<Vec<ConfigField>>,
    connected: bool,
) -> (plan: Result<(ConfigRoute, Vec<ConfigField>, Vec<(usize, String)>), ErrorResponse>)
    requires
        changes_serialize_safely(schema_fields(catalog, dynamic), changes@),
    ensures
        match config_change_error(changes@, bepinex_installed, catalog, marker, app_id, mod_id@, dynamic, connected) {
            Some(code) => plan matches Err(e) && e.code@ == code,
            None => plan matches Ok((route, fields, writes)) && {
                &&& fields@ == schema_fields(catalog, dynamic)
                &&& match route {
                    ConfigRoute::Agent => agent_route(catalog, connected),
                    ConfigRoute::File(guid) => {
                        &&& !agent_route(catalog, connected)
                        &&& catalog matches Ok(Some(definition)) && guid@ == definition.guid@
                    },
                }
                &&& writes@.len() == changes@.len()
                &&& forall|i: int|
                    0 <= i < writes@.len() ==> (#[trigger] writes@[i]).0 as int == field_index(fields@, changes@[i].0@)
                        && fields@[writes@[i].0 as int].spec_serialized(changes@[i].1.model()) == Some(writes@[i].1@)
            },
        },
{
    match check_change_count(changes.len()) {
        Ok(()) => {},
        Err(e) => {
            return Err(e);
        },
    }
    if !bepinex_installed {
        return Err(mod_error("mod_requires_bepinex", "BepInEx is not installed"));
    }
    let ghost given_catalog = catalog;
    let (integration, guid, fields) = match config_schema(catalog, marker, app_id, mod_id, dynamic) {
        Ok(schema) => schema,
        Err(e) => {
            return Err(e);
        },
    };
    assert(fields@ == schema_fields(given_catalog, dynamic));
    let writes = match serialize_changes(&fields, changes) {
        Ok(w) => w,
        Err(e) => {
            return Err(e);
        },
    };
    match config_route(connected, integration, guid) {
        Ok(route) => Ok((route, fields, writes)),
        Err(e) => Err(e),
    }
}

} // verus!
