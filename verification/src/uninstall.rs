//! Removing what GameTweaks installed: when a mod or BepInEx may be
//! removed, and which files the removal takes.
use vstd::prelude::*;

use crate::archives::{forward_slashes, with_forward_slashes};
use crate::bepinex::{BepInExAvailability, BepInExGameStatus};
use crate::catalog::{definition_index, dependency_ids, find_definition, ModDefinition};
use crate::detection::{install_marker_valid, valid_install_marker, InstallMarker};
use crate::error::{mod_error, ErrorResponse};
use crate::plan::{find_slot, slot_marker, ModSlot};
use crate::steam::{text_before, text_less};
use crate::text::str_equal;

verus! {

/// The marker that an installation of BepInEx by GameTweaks leaves.
pub const BEPINEX_MARKER_PATH: &'static str = "BepInEx/.gametweaks-install.json";

// ---------------------------------------------------------------------------
// Removing a mod.
// ---------------------------------------------------------------------------
/// Some other mod of the catalog that is installed depends on `mod_id`.
pub open spec fn needed_by_installed(definitions: Seq<ModDefinition>, slots: Seq<ModSlot>, mod_id: Seq<char>) -> bool {
    exists|i: int|
        0 <= i < definitions.len() && (#[trigger] definitions[i]).mod_id@ != mod_id && slot_marker(
            slots,
            definitions[i].mod_id@,
        ) is Some && dependency_ids(definitions[i]).contains(mod_id)
}

/// The marker of the mod's directory is this game's and this mod's (and,
/// when `guid` is given, of this release GUID).
pub open spec fn own_marker(slots: Seq<ModSlot>, app_id: u32, mod_id: Seq<char>, guid: Option<Seq<char>>) -> bool {
    match slot_marker(slots, mod_id) {
        Some(m) => m.app_id == app_id && m.mod_id@ == mod_id && match guid {
            Some(g) => m.guid@ == g,
            None => true,
        },
        None => false,
    }
}

/// Why a mod may not be removed, if it may not: it must be in the
/// catalog, installed by GameTweaks for this game, and not needed by another
/// installed mod. When the removal is carried out (`confirming`), the
/// dependents are checked before the marker, which must then also name the
/// catalog's release GUID.
pub open spec fn uninstall_problem(
    definitions: Seq<ModDefinition>,
    slots: Seq<ModSlot>,
    app_id: u32,
    mod_id: Seq<char>,
    confirming: bool,
) -> Option<Seq<char>> {
    let k = definition_index(definitions, mod_id);
    if k < 0 {
        Some("mod_not_found"@)
    } else if confirming {
        if needed_by_installed(definitions, slots, mod_id) {
            Some("mod_required"@)
        } else if !own_marker(slots, app_id, mod_id, Some(definitions[k].guid@)) {
            Some("mod_not_managed"@)
        } else {
            None
        }
    } else {
        if !own_marker(slots, app_id, mod_id, None) {
            Some("mod_not_managed"@)
        } else if needed_by_installed(definitions, slots, mod_id) {
            Some("mod_required"@)
        } else {
            None
        }
    }
}

fn depends_on(definition: &ModDefinition, mod_id: &str) -> (found: bool)
    ensures
        found == dependency_ids(*definition).contains(mod_id@),
{
    let mut i: usize = 0;
    while i < definition.dependencies.len()
        invariant
            i <= definition.dependencies@.len(),
            forall|j: int| 0 <= j < i ==> dependency_ids(*definition)[j] != mod_id@,
        decreases definition.dependencies@.len() - i,
    {
        if str_equal(definition.dependencies[i].mod_id.as_str(), mod_id) {
            proof {
                assert(dependency_ids(*definition)[i as int] == mod_id@);
            }
            return true;
        }
        i = i + 1;
    }
    false
}

fn needed_by_other(definitions: &Vec<ModDefinition>, slots: &Vec<ModSlot>, mod_id: &str) -> (needed: bool)
    ensures
        needed == needed_by_installed(definitions@, slots@, mod_id@),
{
    let mut i: usize = 0;
    while i < definitions.len()
        invariant
            i <= definitions@.len(),
            forall|j: int|
                0 <= j < i ==> !((#[trigger] definitions@[j]).mod_id@ != mod_id@ && slot_marker(
                    slots@,
                    definitions@[j].mod_id@,
                ) is Some && dependency_ids(definitions@[j]).contains(mod_id@)),
        decreases definitions@.len() - i,
    {
        let other = &definitions[i];
        if !str_equal(other.mod_id.as_str(), mod_id) {
            let (_, marker) = find_slot(slots, other.mod_id.as_str());
            if marker.is_some() && depends_on(other, mod_id) {
                return true;
            }
        }
        i = i + 1;
    }
    false
}

fn marker_is_own(slots: &Vec<ModSlot>, app_id: u32, mod_id: &str, guid: Option<&str>) -> (own: bool)
    ensures
        own == own_marker(
            slots@,
            app_id,
            mod_id@,
            match guid {
                Some(g) => Some(g@),
                None => None,
            },
        ),
{
    let (_, marker) = find_slot(slots, mod_id);
    match marker {
        Some(m) => m.app_id == app_id && str_equal(m.mod_id.as_str(), mod_id) && match guid {
            Some(g) => str_equal(m.guid.as_str(), g),
            None => true,
        },
        None => false,
    }
}

/// Checks that a mod may be removed, when the removal is prepared or, with
/// `confirming`, carried out. `slots` tells what the plugin directories
/// hold.
pub fn check_mod_uninstall(
    definitions: &Vec<ModDefinition>,
    slots: &Vec<ModSlot>,
    app_id: u32,
    mod_id: &str,
    confirming: bool,
) -> (result: Result<(), ErrorResponse>)
    ensures
        match uninstall_problem(definitions@, slots@, app_id, mod_id@, confirming) {
            Some(code) => result matches Err(e) && e.code@ == code,
            None => result is Ok,
        },
{
    let definition = match find_definition(definitions, mod_id) {
        Some(d) => d,
        None => {
            return Err(mod_error("mod_not_found", "the mod was not found in the catalog"));
        },
    };
    if confirming {
        if needed_by_other(definitions, slots, mod_id) {
            return Err(mod_error("mod_required", "another installed mod now depends on this mod"));
        }
        if !marker_is_own(slots, app_id, mod_id, Some(definition.guid.as_str())) {
            return Err(mod_error("mod_not_managed", "the mod marker no longer matches the selected game"));
        }
    } else {
        if !marker_is_own(slots, app_id, mod_id, None) {
            return Err(mod_error("mod_not_managed", "the mod is not managed by GameTweaks"));
        }
        if needed_by_other(definitions, slots, mod_id) {
            return Err(mod_error("mod_required", "another installed mod depends on this mod"));
        }
    }
    Ok(())
}

// ---------------------------------------------------------------------------
// Removing BepInEx.
// ---------------------------------------------------------------------------
/// BepInEx may be removed from a game where it is installed by GameTweaks
/// and its marker is valid and this game's.
pub open spec fn bepinex_removable(status: BepInExGameStatus, marker: Option<InstallMarker>, app_id: u32) -> bool {
    &&& status.status == BepInExAvailability::Installed
    &&& status.managed_by_game_tweaks
    &&& marker matches Some(m) && install_marker_valid(m) && m.app_id == app_id
}

/// Checks that BepInEx may be removed from a game.
pub fn check_bepinex_uninstall(status: &BepInExGameStatus, marker: Option<&InstallMarker>, app_id: u32) -> (result:
    Result<(), ErrorResponse>)
    ensures
        result is Ok <==> bepinex_removable(
            *status,
            match marker {
                Some(m) => Some(*m),
                None => None,
            },
            app_id,
        ),
        result matches Err(e) ==> e.code@ == "bepinex_not_managed"@,
{
    if status.status != BepInExAvailability::Installed || !status.managed_by_game_tweaks {
        return Err(mod_error("bepinex_not_managed", "only GameTweaks BepInEx installations can be removed"));
    }
    match marker {
        Some(m) => {
            if !valid_install_marker(m) || m.app_id != app_id {
                return Err(mod_error("bepinex_not_managed", "the BepInEx marker was invalid"));
            }
        },
        None => {
            return Err(mod_error("bepinex_not_managed", "the BepInEx marker was invalid"));
        },
    }
    Ok(())
}

/// A file found below `BepInEx` or `dotnet` that the installation did not
/// bring: neither the marker nor a file the marker lists (with backslashes
/// read as slashes).
pub open spec fn additional(relative: Seq<char>, owned: Seq<String>) -> bool {
    relative != BEPINEX_MARKER_PATH@ && !exists|i: int|
        0 <= i < owned.len() && forward_slashes(#[trigger] owned[i]@) == relative
}

/// Whether a file found in the installation was not brought by it.
pub fn is_additional_file(relative: &str, owned: &Vec<String>) -> (extra: bool)
    ensures
        extra == additional(relative@, owned@),
{
    if str_equal(relative, BEPINEX_MARKER_PATH) {
        return false;
    }
    let mut i: usize = 0;
    while i < owned.len()
        invariant
            i <= owned@.len(),
            relative@ != BEPINEX_MARKER_PATH@,
            forall|j: int| 0 <= j < i ==> forward_slashes(#[trigger] owned@[j]@) != relative@,
        decreases owned@.len() - i,
    {
        let normalized = with_forward_slashes(owned[i].as_str());
        if str_equal(normalized.as_str(), relative) {
            return false;
        }
        i = i + 1;
    }
    true
}

// ---------------------------------------------------------------------------
// Ordering paths.
// ---------------------------------------------------------------------------
/// Each text comes before the next, as `String` orders them.
pub open spec fn ascending(texts: Seq<Seq<char>>) -> bool {
    forall|i: int| 0 <= i < texts.len() - 1 ==> text_less(#[trigger] texts[i], texts[i + 1])
}

/// No text occurs twice.
pub open spec fn distinct_texts(texts: Seq<Seq<char>>) -> bool {
    forall|i: int, j: int| 0 <= i < j < texts.len() ==> texts[i] != texts[j]
}

/// The texts of a list of strings.
pub open spec fn views(strings: Seq<String>) -> Seq<Seq<char>> {
    strings.map_values(|s: String| s@)
}

proof fn lemma_text_less_total(a: Seq<char>, b: Seq<char>)
    ensures
        a != b ==> text_less(a, b) || text_less(b, a),
    decreases a.len(),
{
    if a.len() > 0 && b.len() > 0 && a[0] == b[0] {
        lemma_text_less_total(a.drop_first(), b.drop_first());
        if a != b {
            assert(a.drop_first() != b.drop_first()) by {
                if a.drop_first() == b.drop_first() {
                    assert(a =~= seq![a[0]] + a.drop_first());
                    assert(b =~= seq![b[0]] + b.drop_first());
                }
            }
        }
    } else if a.len() == 0 && b.len() == 0 {
        assert(a =~= b);
    } else if a.len() > 0 && b.len() > 0 {
        lemma_char_code(a[0]);
        lemma_char_code(b[0]);
    }
}

proof fn lemma_char_code(c: char)
    ensures
        (c as u32) as int == c as int,
{
}

/// Sorts texts as `String` orders them and drops repeated ones.
pub fn sorted_unique(texts: Vec<String>) -> (sorted: Vec<String>)
    ensures
        ascending(views(sorted@)),
        distinct_texts(views(sorted@)),
        forall|x: Seq<char>| views(sorted@).contains(x) <==> views(texts@).contains(x),
{
    let mut texts = texts;
    let ghost all = views(texts@);
    let mut sorted: Vec<String> = Vec::new();
    while texts.len() > 0
        invariant
            ascending(views(sorted@)),
            distinct_texts(views(sorted@)),
            forall|x: Seq<char>| views(sorted@).contains(x) || views(texts@).contains(x) <==> all.contains(x),
        decreases texts@.len(),
    {
        let ghost before_texts = views(texts@);
        let ghost before = views(sorted@);
        let text = texts.pop().unwrap();
        proof {
            assert(before_texts =~= views(texts@).push(text@));
        }
        let mut present = false;
        let mut p: usize = 0;
        while p < sorted.len() && text_before(sorted[p].as_str(), text.as_str())
            invariant
                p <= sorted@.len(),
                before == views(sorted@),
                forall|j: int| 0 <= j < p ==> text_less(#[trigger] before[j], text@),
            decreases sorted@.len() - p,
        {
            p = p + 1;
        }
        if p < sorted.len() && str_equal(sorted[p].as_str(), text.as_str()) {
            present = true;
        }
        if !present {
            proof {
                if p < before.len() {
                    lemma_text_less_total(before[p as int], text@);
                    assert(text_less(text@, before[p as int]));
                }
                if p > 0 {
                    assert(text_less(before[p - 1], text@));
                }
            }
            sorted.insert(p, text);
            proof {
                let after = views(sorted@);
                assert(after =~= before.insert(p as int, text@));
                assert forall|i: int| 0 <= i < after.len() - 1 implies text_less(#[trigger] after[i], after[i + 1]) by {
                    if i < p - 1 {
                        assert(after[i] == before[i] && after[i + 1] == before[i + 1]);
                    } else if i == p - 1 {
                    } else if i == p {
                    } else {
                        assert(after[i] == before[i - 1] && after[i + 1] == before[i]);
                    }
                }
                assert forall|i: int, j: int| 0 <= i < j < after.len() implies after[i] != after[j] by {
                    crate::steam::lemma_text_less_asymmetric(text@, text@);
                    if i == p {
                        if j > p {
                            lemma_after_insert_greater(before, p as int, text@, j - 1);
                        }
                    } else if j == p {
                        lemma_before_insert_less(before, p as int, text@, i);
                    } else {
                        let bi = if i < p { i } else { i - 1 };
                        let bj = if j < p { j } else { j - 1 };
                        assert(after[i] == before[bi] && after[j] == before[bj]);
                    }
                }
                assert forall|x: Seq<char>| after.contains(x) || views(texts@).contains(x) <==> all.contains(x) by {
                    if after.contains(x) {
                        let i = choose|i: int| 0 <= i < after.len() && after[i] == x;
                        if i < p {
                            assert(before[i] == x);
                        } else if i > p {
                            assert(before[i - 1] == x);
                        } else {
                            assert(before_texts[before_texts.len() - 1] == x);
                        }
                    }
                    if before.contains(x) {
                        let i = choose|i: int| 0 <= i < before.len() && before[i] == x;
                        if i < p {
                            assert(after[i] == x);
                        } else {
                            assert(after[i + 1] == x);
                        }
                    }
                    if before_texts.contains(x) && !views(texts@).contains(x) {
                        let i = choose|i: int| 0 <= i < before_texts.len() && before_texts[i] == x;
                        if i < views(texts@).len() {
                            assert(views(texts@)[i] == x);
                        }
                        assert(x == text@);
                        assert(after[p as int] == x);
                    }
                    if views(texts@).contains(x) {
                        let i = choose|i: int| 0 <= i < views(texts@).len() && views(texts@)[i] == x;
                        assert(before_texts[i] == x);
                    }
                }
            }
        } else {
            proof {
                assert forall|x: Seq<char>| before.contains(x) || views(texts@).contains(x) <==> all.contains(x) by {
                    if before_texts.contains(x) && !views(texts@).contains(x) {
                        let i = choose|i: int| 0 <= i < before_texts.len() && before_texts[i] == x;
                        if i < views(texts@).len() {
                            assert(views(texts@)[i] == x);
                        }
                        assert(before[p as int] == x);
                    }
                    if views(texts@).contains(x) {
                        let i = choose|i: int| 0 <= i < views(texts@).len() && views(texts@)[i] == x;
                        assert(before_texts[i] == x);
                    }
                }
            }
        }
    }
    proof {
        assert(views(texts@) =~= Seq::<Seq<char>>::empty());
    }
    sorted
}

proof fn lemma_before_insert_less(before: Seq<Seq<char>>, p: int, x: Seq<char>, i: int)
    requires
        0 <= i < p <= before.len(),
        forall|j: int| 0 <= j < p ==> text_less(#[trigger] before[j], x),
    ensures
        before[i] != x,
{
    crate::steam::lemma_text_less_asymmetric(x, x);
}

proof fn lemma_after_insert_greater(before: Seq<Seq<char>>, p: int, x: Seq<char>, j: int)
    requires
        0 <= p <= j < before.len(),
        ascending(before),
        distinct_texts(before),
        p < before.len() ==> text_less(x, before[p]),
    ensures
        before[j] != x,
{
    crate::steam::lemma_text_less_asymmetric(x, x);
    if before[j] == x {
        if j > p {
            lemma_chain_less(before, p, j);
            crate::steam::lemma_text_less_transitive(x, before[p], before[j]);
        }
    }
}

proof fn lemma_chain_less(before: Seq<Seq<char>>, p: int, j: int)
    requires
        0 <= p < j < before.len(),
        ascending(before),
    ensures
        text_less(before[p], before[j]),
    decreases j - p,
{
    if j > p + 1 {
        lemma_chain_less(before, p, j - 1);
        crate::steam::lemma_text_less_transitive(before[p], before[j - 1], before[j]);
    }
}

/// The files that removing BepInEx takes: those its marker lists, those
/// added since, and the marker itself, sorted, each once.
pub fn removal_list(owned: &Vec<String>, extra: Vec<String>) -> (removals: Vec<String>)
    ensures
        ascending(views(removals@)),
        distinct_texts(views(removals@)),
        forall|x: Seq<char>|
            views(removals@).contains(x) <==> (views(owned@).contains(x) || views(extra@).contains(x) || x
                == BEPINEX_MARKER_PATH@),
{
    let mut all: Vec<String> = Vec::new();
    let mut i: usize = 0;
    while i < owned.len()
        invariant
            i <= owned@.len(),
            views(all@) == views(owned@).subrange(0, i as int),
        decreases owned@.len() - i,
    {
        let ghost previous = views(all@);
        all.push(owned[i].clone());
        proof {
            assert(views(all@) =~= previous.push(owned@[i as int]@));
            assert(views(owned@).subrange(0, i + 1) =~= views(owned@).subrange(0, i as int).push(owned@[i as int]@));
        }
        i = i + 1;
    }
    let ghost first = views(all@);
    let rest = extra;
    let mut j: usize = 0;
    while j < rest.len()
        invariant
            j <= rest@.len(),
            views(all@) == first + views(rest@).subrange(0, j as int),
        decreases rest@.len() - j,
    {
        let ghost previous = views(all@);
        all.push(rest[j].clone());
        proof {
            assert(views(all@) =~= previous.push(rest@[j as int]@));
            assert(views(rest@).subrange(0, j + 1) =~= views(rest@).subrange(0, j as int).push(rest@[j as int]@));
        }
        j = j + 1;
    }
    all.push(BEPINEX_MARKER_PATH.to_string());
    proof {
        assert(views(owned@).subrange(0, owned@.len() as int) =~= views(owned@));
        assert(views(rest@).subrange(0, rest@.len() as int) =~= views(rest@));
        assert forall|x: Seq<char>|
            views(all@).contains(x) <==> (views(owned@).contains(x) || views(rest@).contains(x) || x
                == BEPINEX_MARKER_PATH@) by {
            let a = views(all@);
            let o = views(owned@);
            let r = views(rest@);
            assert(a =~= o + r + seq![BEPINEX_MARKER_PATH@]);
            if a.contains(x) {
                let k = choose|k: int| 0 <= k < a.len() && a[k] == x;
                if k < o.len() {
                    assert(o[k] == x);
                } else if k < o.len() + r.len() {
                    assert(r[k - o.len()] == x);
                }
            }
            if o.contains(x) {
                let k = choose|k: int| 0 <= k < o.len() && o[k] == x;
                assert(a[k] == x);
            }
            if r.contains(x) {
                let k = choose|k: int| 0 <= k < r.len() && r[k] == x;
                assert(a[o.len() + k] == x);
            }
            if x == BEPINEX_MARKER_PATH@ {
                assert(a[a.len() - 1] == x);
            }
        }
    }
    sorted_unique(all)
}

} // verus!
