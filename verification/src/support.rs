//! What the frontend is told of a game's mods: the catalog's mods ordered
//! by name, then the mods only an agent reports, each marked where a
//! changed setting waits for a restart of the game.
use vstd::prelude::*;

use crate::agent::AgentConnectionStatus;
use crate::fields::LocalizedText;
use crate::mods::{GameMod, GameSupport, GameSupportStatus};
use crate::steam::{lowercase, text_before, text_less, unicode_lowercase};
use crate::text::str_equal;

verus! {

/// What a mod is ordered by: the Unicode lowercase of its English name.
pub open spec fn name_key(game_mod: GameMod) -> Seq<char> {
    unicode_lowercase(game_mod.name.en@)
}

/// Inserts a mod after every mod whose key does not come after its own, so
/// that mods with equal keys keep their order.
pub open spec fn insert_by_name(sorted: Seq<GameMod>, game_mod: GameMod) -> Seq<GameMod>
    decreases sorted.len(),
{
    if sorted.len() == 0 {
        seq![game_mod]
    } else if !text_less(name_key(game_mod), name_key(sorted.last())) {
        sorted.push(game_mod)
    } else {
        insert_by_name(sorted.drop_last(), game_mod).push(sorted.last())
    }
}

/// The mods sorted by name, stably, as `sort_by` sorts them.
pub open spec fn sort_by_name(mods: Seq<GameMod>) -> Seq<GameMod>
    decreases mods.len(),
{
    if mods.len() == 0 {
        Seq::empty()
    } else {
        insert_by_name(sort_by_name(mods.drop_last()), mods.last())
    }
}

proof fn lemma_insert_by_name(sorted: Seq<GameMod>, game_mod: GameMod, p: int)
    requires
        0 <= p <= sorted.len(),
        forall|j: int| p <= j < sorted.len() ==> text_less(name_key(game_mod), name_key(#[trigger] sorted[j])),
        p > 0 ==> !text_less(name_key(game_mod), name_key(sorted[p - 1])),
    ensures
        insert_by_name(sorted, game_mod) == sorted.insert(p, game_mod),
    decreases sorted.len(),
{
    if sorted.len() == 0 {
        assert(sorted.insert(p, game_mod) =~= seq![game_mod]);
    } else if !text_less(name_key(game_mod), name_key(sorted.last())) {
        assert(p == sorted.len());
        assert(sorted.insert(p, game_mod) =~= sorted.push(game_mod));
    } else {
        lemma_insert_by_name(sorted.drop_last(), game_mod, p);
        assert(sorted.drop_last().insert(p, game_mod).push(sorted.last()) =~= sorted.insert(p, game_mod));
    }
}

/// The mods ordered by the lowercase of their English names; mods with the
/// same key keep their order.
pub fn order_by_name(mods: Vec<GameMod>) -> (ordered: Vec<GameMod>)
    ensures
        ordered@ == sort_by_name(mods@),
{
    let ghost all = mods@;
    let mut rest = mods;
    let mut pending: Vec<GameMod> = Vec::new();
    while rest.len() > 0
        invariant
            all == rest@ + pending@.reverse(),
        decreases rest@.len(),
    {
        let ghost br = rest@;
        let ghost bp = pending@;
        let m = rest.pop().unwrap();
        pending.push(m);
        proof {
            assert(rest@ + pending@.reverse() =~= br + bp.reverse());
        }
    }
    proof {
        assert(all =~= pending@.reverse());
        assert(all.subrange(0, 0) =~= Seq::<GameMod>::empty());
    }
    let mut sorted: Vec<(String, GameMod)> = Vec::new();
    let ghost mut done: int = 0;
    while pending.len() > 0
        invariant
            0 <= done <= all.len(),
            all == all.subrange(0, done) + pending@.reverse(),
            sorted@.map_values(|e: (String, GameMod)| e.1) == sort_by_name(all.subrange(0, done)),
            forall|j: int| 0 <= j < sorted@.len() ==> (#[trigger] sorted@[j]).0@ == name_key(sorted@[j].1),
        decreases pending@.len(),
    {
        let ghost bp = pending@;
        let m = pending.pop().unwrap();
        proof {
            assert(bp.reverse() =~= seq![m] + pending@.reverse());
            assert(all[done] == m) by {
                assert(all[done] == (all.subrange(0, done) + bp.reverse())[done]);
            }
            assert(all =~= all.subrange(0, done + 1) + pending@.reverse());
            assert(all.subrange(0, done + 1).drop_last() =~= all.subrange(0, done));
            assert(all.subrange(0, done + 1).last() == m);
        }
        let key = lowercase(m.name.en.as_str());
        let ghost before = sorted@.map_values(|e: (String, GameMod)| e.1);
        let ghost old_sorted = sorted@;
        let mut p = sorted.len();
        while p > 0 && text_before(key.as_str(), sorted[p - 1].0.as_str())
            invariant
                p <= sorted@.len(),
                key@ == unicode_lowercase(m.name.en@),
                sorted@ == old_sorted,
                forall|j: int| 0 <= j < sorted@.len() ==> (#[trigger] sorted@[j]).0@ == name_key(sorted@[j].1),
                forall|k: int| p <= k < sorted@.len() ==> text_less(name_key(m), name_key(#[trigger] before[k])),
                before == sorted@.map_values(|e: (String, GameMod)| e.1),
            decreases p,
        {
            proof {
                assert(before[p - 1] == sorted@[p - 1].1);
            }
            p = p - 1;
        }
        proof {
            if p > 0 {
                assert(before[p - 1] == sorted@[p - 1].1);
            }
            lemma_insert_by_name(before, m, p as int);
        }
        let ghost key_view = key@;
        let ghost item = m;
        sorted.insert(p, (key, m));
        proof {
            assert(sorted@.map_values(|e: (String, GameMod)| e.1) =~= before.insert(p as int, item));
            assert forall|j: int| 0 <= j < sorted@.len() implies (#[trigger] sorted@[j]).0@ == name_key(sorted@[j].1) by {
                if j < p {
                    assert(sorted@[j] == old_sorted[j]);
                } else if j > p {
                    assert(sorted@[j] == old_sorted[j - 1]);
                } else {
                    assert(sorted@[j].0@ == key_view);
                }
            }
            done = done + 1;
        }
    }
    proof {
        assert(all.subrange(0, done) =~= all);
    }
    let ghost target = sorted@.map_values(|e: (String, GameMod)| e.1);
    let mut back: Vec<(String, GameMod)> = Vec::new();
    while sorted.len() > 0
        invariant
            target == sorted@.map_values(|e: (String, GameMod)| e.1) + back@.map_values(|e: (String, GameMod)| e.1).reverse(),
        decreases sorted@.len(),
    {
        let ghost bs = sorted@;
        let ghost bb = back@;
        let e = sorted.pop().unwrap();
        back.push(e);
        proof {
            assert(sorted@.map_values(|e: (String, GameMod)| e.1) + back@.map_values(|e: (String, GameMod)| e.1).reverse()
                =~= bs.map_values(|e: (String, GameMod)| e.1) + bb.map_values(|e: (String, GameMod)| e.1).reverse());
        }
    }
    proof {
        assert(target =~= back@.map_values(|e: (String, GameMod)| e.1).reverse());
    }
    let mut ordered: Vec<GameMod> = Vec::new();
    while back.len() > 0
        invariant
            target == ordered@ + back@.map_values(|e: (String, GameMod)| e.1).reverse(),
        decreases back@.len(),
    {
        let ghost bb = back@;
        let ghost bo = ordered@;
        let (_, m) = back.pop().unwrap();
        ordered.push(m);
        proof {
            assert(bb.map_values(|e: (String, GameMod)| e.1).reverse() =~= seq![m] + back@.map_values(
                |e: (String, GameMod)| e.1,
            ).reverse());
            assert(ordered@ + back@.map_values(|e: (String, GameMod)| e.1).reverse() =~= bo + bb.map_values(
                |e: (String, GameMod)| e.1,
            ).reverse());
        }
    }
    proof {
        assert(ordered@ =~= target);
    }
    ordered
}

/// A changed setting of the mod waits for the game to restart.
pub open spec fn waits_for_restart(restart: Seq<(u32, String)>, app_id: u32, mod_id: Seq<char>) -> bool {
    exists|i: int| 0 <= i < restart.len() && (#[trigger] restart[i]).0 == app_id && restart[i].1@ == mod_id
}

/// The mod with its restart flag set as `restart` says, nothing else
/// changed.
pub open spec fn flagged(before: GameMod, after: GameMod, restart: Seq<(u32, String)>, app_id: u32) -> bool {
    after == (GameMod { restart_required: waits_for_restart(restart, app_id, before.mod_id@), ..before })
}

fn restart_pending(restart: &Vec<(u32, String)>, app_id: u32, mod_id: &str) -> (pending: bool)
    ensures
        pending == waits_for_restart(restart@, app_id, mod_id@),
{
    let mut i: usize = 0;
    while i < restart.len()
        invariant
            i <= restart@.len(),
            forall|j: int| 0 <= j < i ==> !((#[trigger] restart@[j]).0 == app_id && restart@[j].1@ == mod_id@),
        decreases restart@.len() - i,
    {
        if restart[i].0 == app_id && str_equal(restart[i].1.as_str(), mod_id) {
            return true;
        }
        i = i + 1;
    }
    false
}

/// Marks each mod whose changed settings wait for a restart of the game.
pub fn apply_restart_flags(restart: &Vec<(u32, String)>, app_id: u32, mods: &mut Vec<GameMod>)
    ensures
        final(mods)@.len() == old(mods)@.len(),
        forall|i: int| 0 <= i < old(mods)@.len() ==> flagged(old(mods)@[i], #[trigger] final(mods)@[i], restart@, app_id),
{
    let ghost given = mods@;
    let mut i: usize = 0;
    while i < mods.len()
        invariant
            i <= mods@.len(),
            mods@.len() == given.len(),
            forall|j: int| 0 <= j < i ==> flagged(given[j], #[trigger] mods@[j], restart@, app_id),
            forall|j: int| i <= j < mods@.len() ==> #[trigger] mods@[j] == given[j],
        decreases mods@.len() - i,
    {
        let ghost previous = mods@;
        let mut m = mods.remove(i);
        m.restart_required = restart_pending(restart, app_id, m.mod_id.as_str());
        mods.insert(i, m);
        proof {
            assert forall|j: int| 0 <= j < i + 1 implies flagged(given[j], #[trigger] mods@[j], restart@, app_id) by {
                if j < i {
                    assert(mods@[j] == previous[j]);
                }
            }
            assert forall|j: int| i + 1 <= j < mods@.len() implies #[trigger] mods@[j] == given[j] by {
                assert(mods@[j] == previous[j]);
            }
        }
        i = i + 1;
    }
}

/// What the frontend is told of a game's mods: the catalog's mods ordered
/// by name, then those only an agent reports, each marked where its changed
/// settings wait for a restart.
pub fn game_support(
    app_id: u32,
    status: GameSupportStatus,
    name: Option<LocalizedText>,
    catalog_mods: Vec<GameMod>,
    external_mods: Vec<GameMod>,
    restart: &Vec<(u32, String)>,
    agent_status: AgentConnectionStatus,
    cached: bool,
) -> (support: GameSupport)
    ensures
        support.app_id == app_id,
        support.status == status,
        support.name == name,
        support.agent_status == agent_status,
        support.cached == cached,
        ({
            let listed = sort_by_name(catalog_mods@) + external_mods@;
            &&& support.mods@.len() == listed.len()
            &&& forall|i: int| 0 <= i < listed.len() ==> flagged(listed[i], #[trigger] support.mods@[i], restart@, app_id)
        }),
{
    let mut mods = order_by_name(catalog_mods);
    let mut external = external_mods;
    let ghost first = mods@;
    let ghost second = external@;
    mods.append(&mut external);
    proof {
        assert(mods@ =~= first + second);
    }
    apply_restart_flags(restart, app_id, &mut mods);
    GameSupport { app_id, status, name, mods, agent_status, cached }
}

} // verus!
