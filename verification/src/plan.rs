//! Planning mod installs and updates: which mods a request installs, which
//! installed mods it replaces, and whether the set is safe to install.
use vstd::prelude::*;

use crate::catalog::{
    contains_text, definition_index, find_definition, lemma_index_from, texts, ModDefinition,
};
use crate::agent::{bundled_agent_meets, AGENT_VERSION};
use crate::bepinex::{BepInExArchitecture, BepInExRuntime};
use crate::catalog::ModIntegration;
use crate::error::{mod_error, ErrorResponse};
use crate::text::str_equal;
use crate::versions::{compare_versions, parses_as_version, semver_order, semver_valid};

verus! {

/// The marker that GameTweaks writes into the directory of a mod it
/// installed.
#[derive(Clone, Debug)]
pub struct ModInstallMarker {
    pub schema_version: u32,
    pub app_id: u32,
    pub mod_id: String,
    pub guid: String,
    pub version: String,
    pub sha256: String,
    pub files: Vec<String>,
}

/// What the plugin directory of a game holds for one mod: whether its
/// directory exists, and its marker where a valid one is there.
#[derive(Clone, Debug)]
pub struct ModSlot {
    pub mod_id: String,
    pub occupied: bool,
    pub marker: Option<ModInstallMarker>,
}

/// The index of the first slot of a mod, or `-1`.
pub open spec fn slot_index(slots: Seq<ModSlot>, id: Seq<char>, i: int) -> int
    decreases slots.len() - i,
{
    if i < 0 || i >= slots.len() {
        -1
    } else if slots[i].mod_id@ == id {
        i
    } else {
        slot_index(slots, id, i + 1)
    }
}

pub proof fn lemma_slot_index(slots: Seq<ModSlot>, id: Seq<char>, i: int)
    requires
        0 <= i,
    ensures
        slot_index(slots, id, i) == -1 || (i <= slot_index(slots, id, i) < slots.len()
            && slots[slot_index(slots, id, i)].mod_id@ == id),
    decreases slots.len() - i,
{
    if 0 <= i < slots.len() && slots[i].mod_id@ != id {
        lemma_slot_index(slots, id, i + 1);
    }
}

/// The directory of the mod exists.
pub open spec fn slot_occupied(slots: Seq<ModSlot>, id: Seq<char>) -> bool {
    let k = slot_index(slots, id, 0);
    k >= 0 && slots[k].occupied
}

/// The valid marker in the directory of the mod.
pub open spec fn slot_marker(slots: Seq<ModSlot>, id: Seq<char>) -> Option<ModInstallMarker> {
    let k = slot_index(slots, id, 0);
    if k >= 0 {
        slots[k].marker
    } else {
        None
    }
}

/// What a game's plugin directory holds for a mod.
pub fn find_slot<'a>(slots: &'a Vec<ModSlot>, id: &str) -> (slot: (bool, Option<&'a ModInstallMarker>))
    ensures
        slot.0 == slot_occupied(slots@, id@),
        match slot_marker(slots@, id@) {
            Some(m) => slot.1 == Some(&m),
            None => slot.1 is None,
        },
{
    let mut i: usize = 0;
    while i < slots.len()
        invariant
            i <= slots@.len(),
            slot_index(slots@, id@, 0) == slot_index(slots@, id@, i as int),
        decreases slots@.len() - i,
    {
        if str_equal(slots[i].mod_id.as_str(), id) {
            return match &slots[i].marker {
                Some(m) => (slots[i].occupied, Some(m)),
                None => (slots[i].occupied, None),
            };
        }
        i = i + 1;
    }
    (false, None)
}

/// The marker belongs to mod `id` of the definition `guid` in game `app_id`.
pub open spec fn marker_matches(marker: ModInstallMarker, app_id: u32, id: Seq<char>, guid: Seq<char>) -> bool {
    marker.app_id == app_id && marker.mod_id@ == id && marker.guid@ == guid
}

// ---------------------------------------------------------------------------
// Dependency requirements.
// ---------------------------------------------------------------------------
/// The highest minimum version that `deps[0..m]` require of `id`, starting
/// from `acc`; a later minimum replaces the known one only when it is
/// strictly higher.
pub open spec fn require_from(deps: Seq<crate::catalog::ModDependency>, m: int, id: Seq<char>, acc: Option<Seq<char>>) -> Option<Seq<char>>
    decreases m,
{
    if m <= 0 || m > deps.len() {
        acc
    } else {
        let known = require_from(deps, m - 1, id, acc);
        let d = deps[m - 1];
        if d.mod_id@ == id {
            match known {
                None => Some(d.minimum_version@),
                Some(k) => if semver_order(d.minimum_version@, k) == 1 {
                    Some(d.minimum_version@)
                } else {
                    known
                },
            }
        } else {
            known
        }
    }
}

/// The highest minimum version that the first `n` resolved mods require of
/// `id`.
pub open spec fn requirement(definitions: Seq<ModDefinition>, resolved: Seq<Seq<char>>, n: int, id: Seq<char>) -> Option<Seq<char>>
    decreases n,
{
    if n <= 0 || n > resolved.len() {
        None
    } else {
        let acc = requirement(definitions, resolved, n - 1, id);
        let k = definition_index(definitions, resolved[n - 1]);
        if 0 <= k < definitions.len() {
            require_from(
                definitions[k].dependencies@,
                definitions[k].dependencies@.len() as int,
                id,
                acc,
            )
        } else {
            acc
        }
    }
}

/// One of the first `n` resolved mods is not in the catalog or has a
/// dependency whose minimum version does not parse.
pub open spec fn requirements_broken(definitions: Seq<ModDefinition>, resolved: Seq<Seq<char>>, n: int) -> bool {
    exists|i: int|
        0 <= i < n && #[trigger] mod_requirements_broken(definitions, resolved[i])
}

/// The mod is not in the catalog or has a dependency whose minimum version
/// does not parse.
pub open spec fn mod_requirements_broken(definitions: Seq<ModDefinition>, id: Seq<char>) -> bool {
    let k = definition_index(definitions, id);
    k < 0 || exists|j: int|
        0 <= j < definitions[k].dependencies@.len() && !semver_valid(
            #[trigger] definitions[k].dependencies@[j].minimum_version@,
        )
}

// ---------------------------------------------------------------------------
// The plan.
// ---------------------------------------------------------------------------
/// What happens to one resolved mod.
pub enum Step {
    /// The plan fails with this error code.
    Fail(Seq<char>),
    /// The mod is installed well enough already.
    Keep,
    /// The mod is installed; `true` where it replaces an installed one.
    Install(bool),
}

/// What happens to the resolved mod `id`: a directory without a valid
/// marker or a marker of another mod, game or GUID is a collision; a
/// requested mod is installed where it is missing and updates are not
/// asked for, and replaced where it is present and they are; a dependency
/// is installed where missing, kept where its installed version meets the
/// requirement, and replaced otherwise.
pub open spec fn plan_step(
    app_id: u32,
    definitions: Seq<ModDefinition>,
    slots: Seq<ModSlot>,
    requested: Seq<Seq<char>>,
    resolved: Seq<Seq<char>>,
    update: bool,
    id: Seq<char>,
) -> Step {
    let k = definition_index(definitions, id);
    let marker = slot_marker(slots, id);
    if k < 0 {
        Step::Fail("catalog_invalid"@)
    } else if slot_occupied(slots, id) && marker is None {
        Step::Fail("mod_collision"@)
    } else if marker matches Some(m) && !marker_matches(m, app_id, id, definitions[k].guid@) {
        Step::Fail("mod_collision"@)
    } else if requested.contains(id) {
        if update && marker is None {
            Step::Fail("mod_not_managed"@)
        } else if !update && marker is Some {
            Step::Fail("mod_already_installed"@)
        } else {
            Step::Install(update)
        }
    } else {
        match marker {
            Some(m) => if !semver_valid(m.version@) {
                Step::Fail("mod_collision"@)
            } else {
                match requirement(definitions, resolved, resolved.len() as int, id) {
                    None => Step::Fail("catalog_invalid"@),
                    Some(minimum) => if semver_order(m.version@, minimum) != -1 {
                        Step::Keep
                    } else {
                        Step::Install(true)
                    },
                }
            },
            None => Step::Install(false),
        }
    }
}

/// The mods to install and the installed mods they replace, after the
/// first `n` resolved mods, or the error code of the first that fails.
pub open spec fn plan_steps(
    app_id: u32,
    definitions: Seq<ModDefinition>,
    slots: Seq<ModSlot>,
    requested: Seq<Seq<char>>,
    resolved: Seq<Seq<char>>,
    update: bool,
    n: int,
) -> Result<(Seq<Seq<char>>, Seq<Seq<char>>), Seq<char>>
    decreases n,
{
    if n <= 0 || n > resolved.len() {
        Ok((Seq::empty(), Seq::empty()))
    } else {
        match plan_steps(app_id, definitions, slots, requested, resolved, update, n - 1) {
            Err(code) => Err(code),
            Ok((actions, replaced)) => match plan_step(
                app_id,
                definitions,
                slots,
                requested,
                resolved,
                update,
                resolved[n - 1],
            ) {
                Step::Fail(code) => Err(code),
                Step::Keep => Ok((actions, replaced)),
                Step::Install(replaces) => Ok(
                    (
                        actions.push(resolved[n - 1]),
                        if replaces {
                            replaced.push(resolved[n - 1])
                        } else {
                            replaced
                        },
                    ),
                ),
            },
        }
    }
}

/// No text occurs twice.
pub open spec fn no_repeats(ids: Seq<Seq<char>>) -> bool {
    forall|i: int, j: int| 0 <= i < j < ids.len() ==> ids[i] != ids[j]
}

/// The plan for a request: a mod requested twice is `mod_invalid_request`;
/// a resolved mod that is unknown or has an unreadable minimum version is
/// `catalog_invalid`; then each resolved mod in order.
pub open spec fn action_plan(
    app_id: u32,
    definitions: Seq<ModDefinition>,
    slots: Seq<ModSlot>,
    requested: Seq<Seq<char>>,
    resolved: Seq<Seq<char>>,
    update: bool,
) -> Result<(Seq<Seq<char>>, Seq<Seq<char>>), Seq<char>> {
    if !no_repeats(requested) {
        Err("mod_invalid_request"@)
    } else if requirements_broken(definitions, resolved, resolved.len() as int) {
        Err("catalog_invalid"@)
    } else {
        plan_steps(app_id, definitions, slots, requested, resolved, update, resolved.len() as int)
    }
}


/// The text of an optional string.
pub open spec fn opt_text(o: Option<String>) -> Option<Seq<char>> {
    match o {
        Some(s) => Some(s@),
        None => None,
    }
}

/// Whether no text occurs twice.
pub fn repeats_free(ids: &Vec<String>) -> (ok: bool)
    ensures
        ok == no_repeats(texts(ids@)),
{
    let ghost t = texts(ids@);
    let mut j: usize = 0;
    while j < ids.len()
        invariant
            j <= ids@.len(),
            t == texts(ids@),
            forall|a: int, b: int| 0 <= a < b < j ==> t[a] != t[b],
        decreases ids@.len() - j,
    {
        let mut i: usize = 0;
        while i < j
            invariant
                i <= j < ids@.len(),
                t == texts(ids@),
                forall|a: int, b: int| 0 <= a < b < j ==> t[a] != t[b],
                forall|a: int| 0 <= a < i ==> t[a] != t[j as int],
            decreases j - i,
        {
            if str_equal(ids[i].as_str(), ids[j].as_str()) {
                proof {
                    assert(t[i as int] == ids@[i as int]@);
                    assert(t[j as int] == ids@[j as int]@);
                }
                return false;
            }
            proof {
                assert(t[i as int] == ids@[i as int]@);
                assert(t[j as int] == ids@[j as int]@);
            }
            i = i + 1;
        }
        j = j + 1;
    }
    true
}

/// The highest minimum version that the resolved mods require of `id`.
pub fn requirement_of(definitions: &Vec<ModDefinition>, resolved: &Vec<String>, id: &str) -> (req:
    Option<String>)
    ensures
        opt_text(req) == requirement(definitions@, texts(resolved@), resolved@.len() as int, id@),
{
    let ghost r = texts(resolved@);
    let mut acc: Option<String> = None;
    let mut n: usize = 0;
    while n < resolved.len()
        invariant
            n <= resolved@.len(),
            r == texts(resolved@),
            r.len() == resolved@.len(),
            opt_text(acc) == requirement(definitions@, r, n as int, id@),
        decreases resolved@.len() - n,
    {
        proof {
            lemma_index_from(definitions@, r[n as int], 0);
            assert(r[n as int] == resolved@[n as int]@);
        }
        match find_definition(definitions, resolved[n].as_str()) {
            Some(definition) => {
                let ghost before = acc;
                let mut m: usize = 0;
                while m < definition.dependencies.len()
                    invariant
                        m <= definition.dependencies@.len(),
                        opt_text(acc) == require_from(
                            definition.dependencies@,
                            m as int,
                            id@,
                            opt_text(before),
                        ),
                    decreases definition.dependencies@.len() - m,
                {
                    let dependency = &definition.dependencies[m];
                    if str_equal(dependency.mod_id.as_str(), id) {
                        let replace = match &acc {
                            None => true,
                            Some(known) => compare_versions(
                                dependency.minimum_version.as_str(),
                                known.as_str(),
                            ) == 1,
                        };
                        if replace {
                            acc = Some(dependency.minimum_version.clone());
                        }
                    }
                    m = m + 1;
                }
            },
            None => {},
        }
        n = n + 1;
    }
    acc
}

/// Whether a resolved mod is unknown or has a minimum version that does not
/// parse.
fn requirements_unreadable(definitions: &Vec<ModDefinition>, resolved: &Vec<String>) -> (broken:
    bool)
    ensures
        broken == requirements_broken(definitions@, texts(resolved@), resolved@.len() as int),
{
    let ghost r = texts(resolved@);
    let mut n: usize = 0;
    while n < resolved.len()
        invariant
            n <= resolved@.len(),
            r == texts(resolved@),
            r.len() == resolved@.len(),
            forall|i: int| 0 <= i < n ==> !#[trigger] mod_requirements_broken(definitions@, r[i]),
        decreases resolved@.len() - n,
    {
        proof {
            assert(r[n as int] == resolved@[n as int]@);
        }
        match find_definition(definitions, resolved[n].as_str()) {
            Some(definition) => {
                let ghost k = definition_index(definitions@, r[n as int]);
                proof {
                    lemma_index_from(definitions@, r[n as int], 0);
                }
                let mut m: usize = 0;
                while m < definition.dependencies.len()
                    invariant
                        m <= definition.dependencies@.len(),
                        n < resolved@.len(),
                        r == texts(resolved@),
                        r.len() == resolved@.len(),
                        k == definition_index(definitions@, r[n as int]),
                        0 <= k < definitions@.len(),
                        *definition == definitions@[k],
                        forall|j: int|
                            0 <= j < m ==> semver_valid(
                                #[trigger] definition.dependencies@[j].minimum_version@,
                            ),
                    decreases definition.dependencies@.len() - m,
                {
                    if !parses_as_version(definition.dependencies[m].minimum_version.as_str()) {
                        proof {
                            assert(!semver_valid(
                                definitions@[k].dependencies@[m as int].minimum_version@,
                            ));
                            assert(mod_requirements_broken(definitions@, r[n as int]));
                        }
                        return true;
                    }
                    m = m + 1;
                }
            },
            None => {
                proof {
                    assert(mod_requirements_broken(definitions@, r[n as int]));
                }
                return true;
            },
        }
        n = n + 1;
    }
    false
}

/// What happens to one resolved mod, as the plan executes it.
enum StepResult {
    Fail(ErrorResponse),
    Keep,
    Install(bool),
}

fn run_step(
    app_id: u32,
    definitions: &Vec<ModDefinition>,
    slots: &Vec<ModSlot>,
    requested: &Vec<String>,
    resolved: &Vec<String>,
    update: bool,
    id: &str,
) -> (step: StepResult)
    ensures
        match plan_step(app_id, definitions@, slots@, texts(requested@), texts(resolved@), update, id@) {
            Step::Fail(code) => step matches StepResult::Fail(e) && e.code@ == code,
            Step::Keep => step is Keep,
            Step::Install(replaces) => step == StepResult::Install(replaces),
        },
{
    let definition = match find_definition(definitions, id) {
        Some(definition) => definition,
        None => {
            return StepResult::Fail(mod_error("catalog_invalid", "a resolved mod was missing"));
        },
    };
    proof {
        lemma_index_from(definitions@, id@, 0);
    }
    let (occupied, marker) = find_slot(slots, id);
    if occupied && marker.is_none() {
        return StepResult::Fail(
            mod_error("mod_collision", "an existing mod directory is not safely managed by GameTweaks"),
        );
    }
    match marker {
        Some(m) => {
            if m.app_id != app_id || !str_equal(m.mod_id.as_str(), id) || !str_equal(
                m.guid.as_str(),
                definition.guid.as_str(),
            ) {
                return StepResult::Fail(
                    mod_error("mod_collision", "an installed mod marker did not match the catalog"),
                );
            }
        },
        None => {},
    }
    if contains_text(requested, id) {
        if update && marker.is_none() {
            return StepResult::Fail(mod_error("mod_not_managed", "the mod is not installed"));
        }
        if !update && marker.is_some() {
            return StepResult::Fail(
                mod_error("mod_already_installed", "the selected mod is already installed"),
            );
        }
        return StepResult::Install(update);
    }
    match marker {
        Some(m) => {
            if !parses_as_version(m.version.as_str()) {
                return StepResult::Fail(
                    mod_error("mod_collision", "an installed dependency version was invalid"),
                );
            }
            match requirement_of(definitions, resolved, id) {
                None => StepResult::Fail(
                    mod_error("catalog_invalid", "a dependency requirement was missing"),
                ),
                Some(minimum) => {
                    if compare_versions(m.version.as_str(), minimum.as_str()) != -1 {
                        StepResult::Keep
                    } else {
                        StepResult::Install(true)
                    }
                },
            }
        },
        None => StepResult::Install(false),
    }
}

/// Plans a request: which of the resolved mods to install, in order, and
/// which installed mods they replace.
pub fn resolve_action_set(
    app_id: u32,
    slots: &Vec<ModSlot>,
    definitions: &Vec<ModDefinition>,
    requested: &Vec<String>,
    resolved: &Vec<String>,
    update: bool,
) -> (result: Result<(Vec<String>, Vec<String>), ErrorResponse>)
    ensures
        match action_plan(app_id, definitions@, slots@, texts(requested@), texts(resolved@), update) {
            Ok((actions, replaced)) => result matches Ok((a, r)) && texts(a@) == actions && texts(
                r@,
            ) == replaced,
            Err(code) => result matches Err(e) && e.code@ == code,
        },
{
    if !repeats_free(requested) {
        return Err(mod_error("mod_invalid_request", "the same mod was selected more than once"));
    }
    if requirements_unreadable(definitions, resolved) {
        return Err(mod_error("catalog_invalid", "a dependency version was invalid"));
    }
    let ghost r = texts(resolved@);
    let mut actions: Vec<String> = Vec::new();
    let mut replaced: Vec<String> = Vec::new();
    proof {
        assert(texts(actions@) =~= Seq::<Seq<char>>::empty());
        assert(texts(replaced@) =~= Seq::<Seq<char>>::empty());
    }
    let mut n: usize = 0;
    while n < resolved.len()
        invariant
            n <= resolved@.len(),
            r == texts(resolved@),
            r.len() == resolved@.len(),
            no_repeats(texts(requested@)),
            !requirements_broken(definitions@, r, r.len() as int),
            plan_steps(app_id, definitions@, slots@, texts(requested@), r, update, n as int) == Ok::<
                (Seq<Seq<char>>, Seq<Seq<char>>),
                Seq<char>,
            >((texts(actions@), texts(replaced@))),
        decreases resolved@.len() - n,
    {
        proof {
            assert(r[n as int] == resolved@[n as int]@);
        }
        let id = resolved[n].as_str();
        match run_step(app_id, definitions, slots, requested, resolved, update, id) {
            StepResult::Fail(error) => {
                proof {
                    lemma_plan_fails_later(
                        app_id,
                        definitions@,
                        slots@,
                        texts(requested@),
                        r,
                        update,
                        n as int + 1,
                    );
                }
                return Err(error);
            },
            StepResult::Keep => {},
            StepResult::Install(replaces) => {
                let ghost before_a = actions@;
                let ghost before_r = replaced@;
                actions.push(resolved[n].clone());
                if replaces {
                    replaced.push(resolved[n].clone());
                }
                proof {
                    assert(texts(actions@) =~= texts(before_a).push(r[n as int]));
                    if replaces {
                        assert(texts(replaced@) =~= texts(before_r).push(r[n as int]));
                    } else {
                        assert(texts(replaced@) =~= texts(before_r));
                    }
                }
            },
        }
        n = n + 1;
    }
    Ok((actions, replaced))
}

/// A plan that fails within the first `n` mods fails with the same code.
proof fn lemma_plan_fails_later(
    app_id: u32,
    definitions: Seq<ModDefinition>,
    slots: Seq<ModSlot>,
    requested: Seq<Seq<char>>,
    resolved: Seq<Seq<char>>,
    update: bool,
    n: int,
)
    requires
        0 < n <= resolved.len(),
        plan_steps(app_id, definitions, slots, requested, resolved, update, n) is Err,
    ensures
        plan_steps(app_id, definitions, slots, requested, resolved, update, resolved.len() as int)
            == plan_steps(app_id, definitions, slots, requested, resolved, update, n),
    decreases resolved.len() - n,
{
    if n < resolved.len() {
        lemma_plan_fails_later(app_id, definitions, slots, requested, resolved, update, n + 1);
    }
}


// ---------------------------------------------------------------------------
// Checking an install set.
// ---------------------------------------------------------------------------
/// The bundled agent meets a minimum version, if any.
pub open spec fn agent_meets(minimum: Option<String>) -> bool {
    match minimum {
        None => true,
        Some(m) => semver_order(AGENT_VERSION@, m@) != -1,
    }
}

/// A catalog mod has a valid marker in the game.
pub open spec fn is_installed(definitions: Seq<ModDefinition>, slots: Seq<ModSlot>, id: Seq<char>) -> bool {
    definition_index(definitions, id) >= 0 && slot_marker(slots, id) is Some
}

/// A conflict of a mod with another that is selected or installed.
pub open spec fn conflict_present(
    definitions: Seq<ModDefinition>,
    slots: Seq<ModSlot>,
    selected: Seq<Seq<char>>,
    d: ModDefinition,
) -> bool {
    exists|c: int|
        0 <= c < d.conflicts@.len() && (selected.contains(#[trigger] d.conflicts@[c]@)
            || is_installed(definitions, slots, d.conflicts@[c]@))
}

/// What is wrong with installing the selected mod `id` into a game of this
/// runtime and architecture: unknown (`mod_not_found`), for another runtime
/// or architecture, or needing a newer agent than the bundled one
/// (`mod_incompatible`), or in conflict with a selected or installed mod
/// (`mod_conflict`).
pub open spec fn required_problem(
    runtime: BepInExRuntime,
    architecture: BepInExArchitecture,
    definitions: Seq<ModDefinition>,
    slots: Seq<ModSlot>,
    selected: Seq<Seq<char>>,
    id: Seq<char>,
) -> Option<Seq<char>> {
    let k = definition_index(definitions, id);
    if k < 0 {
        Some("mod_not_found"@)
    } else {
        let d = definitions[k];
        if d.compatibility.runtime != runtime || !d.compatibility.architectures@.contains(architecture) {
            Some("mod_incompatible"@)
        } else if d.integration == ModIntegration::Agent && !agent_meets(
            d.compatibility.minimum_agent_version,
        ) {
            Some("mod_incompatible"@)
        } else if conflict_present(definitions, slots, selected, d) {
            Some("mod_conflict"@)
        } else {
            None
        }
    }
}

/// The first problem among the first `n` selected mods.
pub open spec fn required_problems(
    runtime: BepInExRuntime,
    architecture: BepInExArchitecture,
    definitions: Seq<ModDefinition>,
    slots: Seq<ModSlot>,
    selected: Seq<Seq<char>>,
    n: int,
) -> Option<Seq<char>>
    decreases n,
{
    if n <= 0 || n > selected.len() {
        None
    } else {
        match required_problems(runtime, architecture, definitions, slots, selected, n - 1) {
            Some(code) => Some(code),
            None => required_problem(runtime, architecture, definitions, slots, selected, selected[n - 1]),
        }
    }
}

/// What is wrong with writing mod `id` into its directory: a marker of this
/// very mod that the plan does not replace, a marker of anything else, or a
/// directory without a marker is a collision (`mod_collision`); a mod to
/// replace that is gone is `mod_not_managed`.
pub open spec fn slot_problem(
    app_id: u32,
    definitions: Seq<ModDefinition>,
    slots: Seq<ModSlot>,
    replaced: Seq<Seq<char>>,
    id: Seq<char>,
) -> Option<Seq<char>> {
    let k = definition_index(definitions, id);
    match slot_marker(slots, id) {
        Some(m) => if k >= 0 && marker_matches(m, app_id, id, definitions[k].guid@) {
            if !replaced.contains(id) {
                Some("mod_collision"@)
            } else {
                None
            }
        } else {
            Some("mod_collision"@)
        },
        None => if slot_occupied(slots, id) {
            Some("mod_collision"@)
        } else if replaced.contains(id) {
            Some("mod_not_managed"@)
        } else {
            None
        },
    }
}

/// The first problem among the first `n` mods to write.
pub open spec fn slot_problems(
    app_id: u32,
    definitions: Seq<ModDefinition>,
    slots: Seq<ModSlot>,
    replaced: Seq<Seq<char>>,
    ids: Seq<Seq<char>>,
    n: int,
) -> Option<Seq<char>>
    decreases n,
{
    if n <= 0 || n > ids.len() {
        None
    } else {
        match slot_problems(app_id, definitions, slots, replaced, ids, n - 1) {
            Some(code) => Some(code),
            None => slot_problem(app_id, definitions, slots, replaced, ids[n - 1]),
        }
    }
}

/// What is wrong with an install set: first the selected mods, then the
/// mods to write.
pub open spec fn install_set_problem(
    app_id: u32,
    runtime: BepInExRuntime,
    architecture: BepInExArchitecture,
    definitions: Seq<ModDefinition>,
    slots: Seq<ModSlot>,
    mod_ids: Seq<Seq<char>>,
    required: Seq<Seq<char>>,
    replaced: Seq<Seq<char>>,
) -> Option<Seq<char>> {
    match required_problems(runtime, architecture, definitions, slots, required, required.len() as int) {
        Some(code) => Some(code),
        None => slot_problems(app_id, definitions, slots, replaced, mod_ids, mod_ids.len() as int),
    }
}

proof fn lemma_required_problems_stay(
    runtime: BepInExRuntime,
    architecture: BepInExArchitecture,
    definitions: Seq<ModDefinition>,
    slots: Seq<ModSlot>,
    selected: Seq<Seq<char>>,
    n: int,
)
    requires
        0 < n <= selected.len(),
        required_problems(runtime, architecture, definitions, slots, selected, n) is Some,
    ensures
        required_problems(runtime, architecture, definitions, slots, selected, selected.len() as int)
            == required_problems(runtime, architecture, definitions, slots, selected, n),
    decreases selected.len() - n,
{
    if n < selected.len() {
        lemma_required_problems_stay(runtime, architecture, definitions, slots, selected, n + 1);
    }
}

proof fn lemma_slot_problems_stay(
    app_id: u32,
    definitions: Seq<ModDefinition>,
    slots: Seq<ModSlot>,
    replaced: Seq<Seq<char>>,
    ids: Seq<Seq<char>>,
    n: int,
)
    requires
        0 < n <= ids.len(),
        slot_problems(app_id, definitions, slots, replaced, ids, n) is Some,
    ensures
        slot_problems(app_id, definitions, slots, replaced, ids, ids.len() as int) == slot_problems(
            app_id,
            definitions,
            slots,
            replaced,
            ids,
            n,
        ),
    decreases ids.len() - n,
{
    if n < ids.len() {
        lemma_slot_problems_stay(app_id, definitions, slots, replaced, ids, n + 1);
    }
}

proof fn lemma_no_required_problem(
    runtime: BepInExRuntime,
    architecture: BepInExArchitecture,
    definitions: Seq<ModDefinition>,
    slots: Seq<ModSlot>,
    selected: Seq<Seq<char>>,
    n: int,
)
    requires
        0 <= n <= selected.len(),
        required_problems(runtime, architecture, definitions, slots, selected, n) is None,
    ensures
        forall|i: int|
            0 <= i < n ==> #[trigger] required_problem(runtime, architecture, definitions, slots, selected, selected[i])
                is None,
    decreases n,
{
    if n > 0 {
        lemma_no_required_problem(runtime, architecture, definitions, slots, selected, n - 1);
    }
}

/// Mods are installed only into a game they fit: where validation accepts
/// an install set, every selected mod is in the catalog, made for the
/// game's runtime, and lists the game's architecture; and where the first
/// selected mod does not fit the game, validation fails with
/// `mod_incompatible`.
pub proof fn installed_mods_fit_the_game(
    app_id: u32,
    runtime: BepInExRuntime,
    architecture: BepInExArchitecture,
    slots: &Vec<ModSlot>,
    definitions: &Vec<ModDefinition>,
    mod_ids: &Vec<String>,
    required_mod_ids: &Vec<String>,
    replace_existing: &Vec<String>,
    result: Result<(), ErrorResponse>,
)
    requires
        call_ensures(
            validate_install_set,
            (app_id, runtime, architecture, slots, definitions, mod_ids, required_mod_ids, replace_existing),
            result,
        ),
    ensures
        result is Ok ==> forall|i: int|
            0 <= i < required_mod_ids@.len() ==> {
                let k = definition_index(definitions@, #[trigger] required_mod_ids@[i]@);
                &&& 0 <= k < definitions@.len()
                &&& definitions@[k].mod_id@ == required_mod_ids@[i]@
                &&& definitions@[k].compatibility.runtime == runtime
                &&& definitions@[k].compatibility.architectures@.contains(architecture)
            },
        required_mod_ids@.len() > 0 && definition_index(definitions@, required_mod_ids@[0]@) >= 0 && {
            let d = definitions@[definition_index(definitions@, required_mod_ids@[0]@)];
            d.compatibility.runtime != runtime || !d.compatibility.architectures@.contains(architecture)
        } ==> (result matches Err(e) && e.code@ == "mod_incompatible"@),
{
    let selected = texts(required_mod_ids@);
    let n = selected.len() as int;
    if result is Ok {
        if required_problems(runtime, architecture, definitions@, slots@, selected, n) is Some {
            assert(false);
        }
        lemma_no_required_problem(runtime, architecture, definitions@, slots@, selected, n);
        assert forall|i: int| 0 <= i < required_mod_ids@.len() implies {
            let k = definition_index(definitions@, #[trigger] required_mod_ids@[i]@);
            &&& 0 <= k < definitions@.len()
            &&& definitions@[k].mod_id@ == required_mod_ids@[i]@
            &&& definitions@[k].compatibility.runtime == runtime
            &&& definitions@[k].compatibility.architectures@.contains(architecture)
        } by {
            assert(selected[i] == required_mod_ids@[i]@);
            assert(required_problem(runtime, architecture, definitions@, slots@, selected, selected[i]) is None);
            lemma_index_from(definitions@, selected[i], 0);
        }
    }
    if required_mod_ids@.len() > 0 && definition_index(definitions@, required_mod_ids@[0]@) >= 0 {
        assert(selected[0] == required_mod_ids@[0]@);
        let d = definitions@[definition_index(definitions@, required_mod_ids@[0]@)];
        let fits = d.compatibility.runtime == runtime && d.compatibility.architectures@.contains(architecture);
        if !fits {
            assert(required_problems(runtime, architecture, definitions@, slots@, selected, 0) is None);
            assert(required_problem(runtime, architecture, definitions@, slots@, selected, selected[0]) == Some(
                "mod_incompatible"@,
            ));
            assert(required_problems(runtime, architecture, definitions@, slots@, selected, 1) == Some(
                "mod_incompatible"@,
            ));
            lemma_required_problems_stay(runtime, architecture, definitions@, slots@, selected, 1);
        }
    }
}

/// Whether a catalog mod has a valid marker in the game.
fn installed_mod(definitions: &Vec<ModDefinition>, slots: &Vec<ModSlot>, id: &str) -> (installed: bool)
    ensures
        installed == is_installed(definitions@, slots@, id@),
{
    let known = find_definition(definitions, id).is_some();
    let (_, marker) = find_slot(slots, id);
    known && marker.is_some()
}

/// Whether a selected or installed mod conflicts with a definition.
fn has_conflict(
    definitions: &Vec<ModDefinition>,
    slots: &Vec<ModSlot>,
    selected: &Vec<String>,
    definition: &ModDefinition,
) -> (conflict: bool)
    ensures
        conflict == conflict_present(definitions@, slots@, texts(selected@), *definition),
{
    let mut c: usize = 0;
    while c < definition.conflicts.len()
        invariant
            c <= definition.conflicts@.len(),
            forall|j: int|
                0 <= j < c ==> !(texts(selected@).contains(#[trigger] definition.conflicts@[j]@)
                    || is_installed(definitions@, slots@, definition.conflicts@[j]@)),
        decreases definition.conflicts@.len() - c,
    {
        let other = definition.conflicts[c].as_str();
        if contains_text(selected, other) || installed_mod(definitions, slots, other) {
            return true;
        }
        c = c + 1;
    }
    false
}

/// Whether the architecture is among those of a mod.
pub fn architecture_listed(architectures: &Vec<BepInExArchitecture>, architecture: BepInExArchitecture) -> (found: bool)
    ensures
        found == architectures@.contains(architecture),
{
    let mut i: usize = 0;
    while i < architectures.len()
        invariant
            i <= architectures@.len(),
            forall|j: int| 0 <= j < i ==> architectures@[j] != architecture,
        decreases architectures@.len() - i,
    {
        if architectures[i] == architecture {
            return true;
        }
        i = i + 1;
    }
    false
}

/// Checks that an install set can be written into the game: every selected
/// mod fits the game and conflicts with nothing, and every mod to write
/// either is new or replaces its own managed installation as planned.
pub fn validate_install_set(
    app_id: u32,
    runtime: BepInExRuntime,
    architecture: BepInExArchitecture,
    slots: &Vec<ModSlot>,
    definitions: &Vec<ModDefinition>,
    mod_ids: &Vec<String>,
    required_mod_ids: &Vec<String>,
    replace_existing: &Vec<String>,
) -> (result: Result<(), ErrorResponse>)
    ensures
        match install_set_problem(
            app_id,
            runtime,
            architecture,
            definitions@,
            slots@,
            texts(mod_ids@),
            texts(required_mod_ids@),
            texts(replace_existing@),
        ) {
            None => result is Ok,
            Some(code) => result matches Err(e) && e.code@ == code,
        },
{
    let ghost selected = texts(required_mod_ids@);
    let mut i: usize = 0;
    while i < required_mod_ids.len()
        invariant
            i <= required_mod_ids@.len(),
            selected == texts(required_mod_ids@),
            selected.len() == required_mod_ids@.len(),
            required_problems(runtime, architecture, definitions@, slots@, selected, i as int) is None,
        decreases required_mod_ids@.len() - i,
    {
        let id = required_mod_ids[i].as_str();
        proof {
            assert(selected[i as int] == id@);
        }
        let failure = match find_definition(definitions, id) {
            None => Some(mod_error("mod_not_found", "a selected mod was missing")),
            Some(definition) => {
                proof {
                    lemma_index_from(definitions@, id@, 0);
                }
                if definition.compatibility.runtime != runtime || !architecture_listed(
                    &definition.compatibility.architectures,
                    architecture,
                ) {
                    Some(mod_error("mod_incompatible", "a selected mod is not compatible with this game"))
                } else if definition.integration == ModIntegration::Agent && !bundled_agent_meets(
                    match &definition.compatibility.minimum_agent_version {
                        Some(m) => Some(m.as_str()),
                        None => None,
                    },
                ) {
                    Some(
                        mod_error(
                            "mod_incompatible",
                            "the bundled agent does not meet a selected mod's minimum version",
                        ),
                    )
                } else if has_conflict(definitions, slots, required_mod_ids, definition) {
                    Some(mod_error("mod_conflict", "a selected mod conflicts with another mod"))
                } else {
                    None
                }
            },
        };
        match failure {
            Some(error) => {
                proof {
                    lemma_required_problems_stay(
                        runtime,
                        architecture,
                        definitions@,
                        slots@,
                        selected,
                        i as int + 1,
                    );
                }
                return Err(error);
            },
            None => {},
        }
        i = i + 1;
    }
    let ghost ids = texts(mod_ids@);
    let ghost replaced = texts(replace_existing@);
    let mut j: usize = 0;
    while j < mod_ids.len()
        invariant
            j <= mod_ids@.len(),
            ids == texts(mod_ids@),
            ids.len() == mod_ids@.len(),
            replaced == texts(replace_existing@),
            selected == texts(required_mod_ids@),
            required_problems(runtime, architecture, definitions@, slots@, selected, selected.len() as int) is None,
            slot_problems(app_id, definitions@, slots@, replaced, ids, j as int) is None,
        decreases mod_ids@.len() - j,
    {
        let id = mod_ids[j].as_str();
        proof {
            assert(ids[j as int] == id@);
            lemma_index_from(definitions@, id@, 0);
        }
        let (occupied, marker) = find_slot(slots, id);
        let failure = match marker {
            Some(m) => {
                let own = m.app_id == app_id && str_equal(m.mod_id.as_str(), id) && match find_definition(
                    definitions,
                    id,
                ) {
                    Some(definition) => str_equal(m.guid.as_str(), definition.guid.as_str()),
                    None => false,
                };
                if own {
                    if !contains_text(replace_existing, id) {
                        Some(mod_error("mod_collision", "an existing mod was not replaceable"))
                    } else {
                        None
                    }
                } else {
                    Some(mod_error("mod_collision", "a mod marker did not match this game"))
                }
            },
            None => {
                if occupied {
                    Some(mod_error("mod_collision", "a mod directory already exists"))
                } else if contains_text(replace_existing, id) {
                    Some(mod_error("mod_not_managed", "the mod is no longer installed"))
                } else {
                    None
                }
            },
        };
        match failure {
            Some(error) => {
                proof {
                    lemma_slot_problems_stay(app_id, definitions@, slots@, replaced, ids, j as int + 1);
                }
                return Err(error);
            },
            None => {},
        }
        j = j + 1;
    }
    Ok(())
}

} // verus!
