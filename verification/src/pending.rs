//! Entries kept under distinct identifiers, seen as a map from identifier to
//! value, and sets of games kept as lists without repeats.
use vstd::prelude::*;

use crate::text::str_equal;

verus! {

/// The first index from `i` on of the entry with identifier `id`, or `-1`.
pub open spec fn entry_index<P>(entries: Seq<(String, P)>, id: Seq<char>, i: int) -> int
    decreases entries.len() - i,
{
    if i < 0 || i >= entries.len() {
        -1
    } else if entries[i].0@ == id {
        i
    } else {
        entry_index(entries, id, i + 1)
    }
}

pub proof fn lemma_entry_index<P>(entries: Seq<(String, P)>, id: Seq<char>, i: int)
    requires
        0 <= i,
    ensures
        entry_index(entries, id, i) == -1 || (i <= entry_index(entries, id, i) < entries.len()
            && entries[entry_index(entries, id, i)].0@ == id),
        entry_index(entries, id, i) == -1 ==> forall|j: int| i <= j < entries.len() ==> entries[j].0@ != id,
        forall|j: int| i <= j < entries.len() && entries[j].0@ == id ==> entry_index(entries, id, i) != -1
            && entry_index(entries, id, i) <= j,
    decreases entries.len() - i,
{
    if 0 <= i < entries.len() && entries[i].0@ != id {
        lemma_entry_index(entries, id, i + 1);
    }
}

/// The entries as a map: each identifier to the value of its first entry.
pub open spec fn entries_map<P>(entries: Seq<(String, P)>) -> Map<Seq<char>, P> {
    Map::new(
        |id: Seq<char>| entry_index(entries, id, 0) >= 0,
        |id: Seq<char>| entries[entry_index(entries, id, 0)].1,
    )
}

/// No identifier occurs twice.
pub open spec fn distinct_ids<P>(entries: Seq<(String, P)>) -> bool {
    forall|i: int, j: int| 0 <= i < j < entries.len() ==> entries[i].0@ != entries[j].0@
}

/// Among distinct identifiers, each entry is the one its identifier maps to.
pub proof fn lemma_distinct_entry<P>(entries: Seq<(String, P)>, i: int)
    requires
        distinct_ids(entries),
        0 <= i < entries.len(),
    ensures
        entry_index(entries, entries[i].0@, 0) == i,
        entries_map(entries).contains_key(entries[i].0@),
        entries_map(entries)[entries[i].0@] == entries[i].1,
{
    lemma_entry_index(entries, entries[i].0@, 0);
}

proof fn lemma_push_index<P>(entries: Seq<(String, P)>, entry: (String, P), id: Seq<char>, i: int)
    requires
        0 <= i,
    ensures
        entry_index(entries.push(entry), id, i) == if entry_index(entries, id, i) >= 0 {
            entry_index(entries, id, i)
        } else if entry.0@ == id && i <= entries.len() {
            entries.len() as int
        } else {
            -1
        },
    decreases entries.len() + 1 - i,
{
    if i <= entries.len() {
        lemma_push_index(entries, entry, id, i + 1);
        if i < entries.len() {
            assert(entries.push(entry)[i] == entries[i]);
        }
    }
}

/// Appending an entry under a new identifier adds that identifier to the map.
pub proof fn lemma_push_entry<P>(entries: Seq<(String, P)>, entry: (String, P))
    requires
        !entries_map(entries).contains_key(entry.0@),
    ensures
        entries_map(entries.push(entry)) == entries_map(entries).insert(entry.0@, entry.1),
{
    let pushed = entries.push(entry);
    assert forall|k: Seq<char>| #[trigger] entries_map(pushed).contains_key(k) == entries_map(entries).insert(
        entry.0@,
        entry.1,
    ).contains_key(k) && (entries_map(pushed).contains_key(k) ==> entries_map(pushed)[k] == entries_map(
        entries,
    ).insert(entry.0@, entry.1)[k]) by {
        lemma_push_index(entries, entry, k, 0);
        lemma_entry_index(entries, k, 0);
        if entry_index(entries, k, 0) >= 0 {
            assert(pushed[entry_index(entries, k, 0)] == entries[entry_index(entries, k, 0)]);
        }
    }
    assert(entries_map(pushed) =~= entries_map(entries).insert(entry.0@, entry.1));
}

/// Finds the index of the entry with identifier `id`.
pub fn find_entry<P>(entries: &Vec<(String, P)>, id: &str) -> (found: Option<usize>)
    ensures
        match found {
            Some(i) => i < entries@.len() && i as int == entry_index(entries@, id@, 0),
            None => entry_index(entries@, id@, 0) == -1,
        },
{
    let mut i: usize = 0;
    while i < entries.len()
        invariant
            i <= entries@.len(),
            entry_index(entries@, id@, 0) == entry_index(entries@, id@, i as int),
        decreases entries@.len() - i,
    {
        if str_equal(entries[i].0.as_str(), id) {
            return Some(i);
        }
        i = i + 1;
    }
    None
}

/// Stores `value` under `id`, replacing the entry stored under it.
pub fn put_entry<P>(entries: &mut Vec<(String, P)>, id: String, value: P)
    requires
        distinct_ids(old(entries)@),
    ensures
        distinct_ids(final(entries)@),
        entries_map(final(entries)@) == entries_map(old(entries)@).insert(id@, value),
{
    let ghost before = entries@;
    let ghost key = id@;
    proof {
        lemma_entry_index(before, key, 0);
    }
    match find_entry(entries, id.as_str()) {
        Some(i) => {
            entries.set(i, (id, value));
            proof {
                let after = entries@;
                assert forall|k: Seq<char>| #[trigger] entry_index(after, k, 0) == entry_index(before, k, 0) by {
                    lemma_entry_index(after, k, 0);
                    lemma_entry_index(before, k, 0);
                    if entry_index(before, k, 0) >= 0 {
                        assert(after[entry_index(before, k, 0)].0@ == k);
                    }
                    if entry_index(after, k, 0) >= 0 {
                        assert(before[entry_index(after, k, 0)].0@ == k);
                    }
                }
                assert forall|k: Seq<char>| #[trigger] entries_map(after).contains_key(k) implies entries_map(
                    after,
                )[k] == entries_map(before).insert(key, value)[k] by {
                    lemma_entry_index(before, k, 0);
                    lemma_entry_index(after, k, 0);
                    let p = entry_index(after, k, 0);
                    if k != key {
                        assert(p != i);
                        assert(after[p] == before[p]);
                    }
                }
                assert(entries_map(after) =~= entries_map(before).insert(key, value));
                assert forall|a: int, b: int| 0 <= a < b < after.len() implies after[a].0@ != after[b].0@ by {
                    assert(after[a].0@ == before[a].0@);
                    assert(after[b].0@ == before[b].0@);
                }
            }
        },
        None => {
            let ghost pushed = (id, value);
            entries.push((id, value));
            proof {
                assert(entries@ == before.push(pushed));
                lemma_push_entry(before, pushed);
                assert forall|a: int, b: int| 0 <= a < b < entries@.len() implies entries@[a].0@
                    != entries@[b].0@ by {
                    if b == before.len() {
                        assert(before[a].0@ != key);
                    }
                }
            }
        },
    }
}

/// Removes the entry stored under `id` and returns its value, if there is one.
pub fn take_entry<P>(entries: &mut Vec<(String, P)>, id: &str) -> (taken: Option<P>)
    requires
        distinct_ids(old(entries)@),
    ensures
        distinct_ids(final(entries)@),
        entries_map(final(entries)@) == entries_map(old(entries)@).remove(id@),
        taken == (if entries_map(old(entries)@).contains_key(id@) {
            Some(entries_map(old(entries)@)[id@])
        } else {
            None
        }),
{
    let ghost before = entries@;
    let ghost key = id@;
    proof {
        lemma_entry_index(before, key, 0);
    }
    match find_entry(entries, id) {
        Some(i) => {
            let (_, value) = entries.remove(i);
            proof {
                let after = entries@;
                assert forall|k: Seq<char>| k != key implies #[trigger] entries_map(after).contains_key(k)
                    == entries_map(before).contains_key(k) && (entries_map(before).contains_key(k)
                    ==> entries_map(after)[k] == entries_map(before)[k]) by {
                    lemma_entry_index(after, k, 0);
                    lemma_entry_index(before, k, 0);
                    let b = entry_index(before, k, 0);
                    if b >= 0 {
                        let a = if b < i { b } else { b - 1 };
                        assert(after[a] == before[b]);
                    }
                    if entry_index(after, k, 0) >= 0 {
                        let p = entry_index(after, k, 0);
                        let q = if p < i { p } else { p + 1 };
                        assert(after[p] == before[q]);
                    }
                }
                lemma_entry_index(after, key, 0);
                if entry_index(after, key, 0) >= 0 {
                    let p = entry_index(after, key, 0);
                    let q = if p < i { p } else { p + 1 };
                    assert(after[p] == before[q]);
                    assert(before[i as int].0@ == key);
                }
                assert(entries_map(after) =~= entries_map(before).remove(key));
                assert forall|a: int, b: int| 0 <= a < b < after.len() implies after[a].0@ != after[b].0@ by {
                    let qa = if a < i { a } else { a + 1 };
                    let qb = if b < i { b } else { b + 1 };
                    assert(after[a] == before[qa]);
                    assert(after[b] == before[qb]);
                }
            }
            Some(value)
        },
        None => {
            proof {
                assert(entries_map(before) =~= entries_map(before).remove(key));
            }
            None
        },
    }
}

/// Taking an entry is done once: after it is taken nothing is stored under
/// its identifier, so a second answer to the same request finds nothing,
/// and every other entry stays as it was.
pub proof fn entries_are_taken_once<P>(map: Map<Seq<char>, P>, id: Seq<char>)
    ensures
        !map.remove(id).contains_key(id),
        forall|k: Seq<char>|
            k != id ==> (#[trigger] map.remove(id).contains_key(k) == map.contains_key(k) && (map.contains_key(k)
                ==> map.remove(id)[k] == map[k])),
{
}

/// The entries of `map` whose value satisfies `keep`.
pub open spec fn kept_entries<P>(map: Map<Seq<char>, P>, keep: spec_fn(P) -> bool) -> Map<Seq<char>, P> {
    Map::new(|k: Seq<char>| map.contains_key(k) && keep(map[k]), |k: Seq<char>| map[k])
}

/// Keeps the entries whose value `decide` accepts; `decide` answers as
/// `keep` says.
pub fn retain_entries<P, F: Fn(&P) -> bool>(
    entries: Vec<(String, P)>,
    decide: F,
    Ghost(keep): Ghost<spec_fn(P) -> bool>,
) -> (kept: Vec<(String, P)>)
    requires
        distinct_ids(entries@),
        forall|p: &P| #[trigger] decide.requires((p,)),
        forall|p: &P, r: bool| decide.ensures((p,), r) ==> r == keep(*p),
    ensures
        distinct_ids(kept@),
        entries_map(kept@) == kept_entries(entries_map(entries@), keep),
{
    let ghost before = entries@;
    let mut rest = entries;
    let mut kept: Vec<(String, P)> = Vec::new();
    let ghost mut i: int = 0;
    while rest.len() > 0
        invariant
            distinct_ids(before),
            0 <= i <= before.len(),
            rest@ == before.skip(i),
            distinct_ids(kept@),
            entries_map(kept@) == kept_entries(entries_map(before.take(i)), keep),
            forall|p: &P| #[trigger] decide.requires((p,)),
            forall|p: &P, r: bool| decide.ensures((p,), r) ==> r == keep(*p),
        decreases rest@.len(),
    {
        let entry = rest.remove(0);
        let ghost taken = before.take(i);
        proof {
            assert(entry == before[i]);
            assert(before.take(i + 1) =~= taken.push(entry));
            assert(rest@ =~= before.skip(i + 1));
            lemma_entry_index(taken, entry.0@, 0);
            assert forall|j: int| 0 <= j < taken.len() implies taken[j].0@ != entry.0@ by {
                assert(taken[j] == before[j]);
            }
            lemma_push_entry(taken, entry);
        }
        let accept = decide(&entry.1);
        if accept {
            let ghost old_kept = kept@;
            proof {
                assert forall|a: int| 0 <= a < old_kept.len() implies old_kept[a].0@ != entry.0@ by {
                    lemma_distinct_entry(old_kept, a);
                }
                lemma_entry_index(old_kept, entry.0@, 0);
                lemma_push_entry(old_kept, entry);
            }
            kept.push(entry);
            proof {
                assert(kept@ == old_kept.push(entry));
                assert(entries_map(kept@) =~= kept_entries(entries_map(before.take(i + 1)), keep));
                assert forall|a: int, b: int| 0 <= a < b < kept@.len() implies kept@[a].0@ != kept@[b].0@ by {
                    if b == old_kept.len() {
                        lemma_distinct_entry(old_kept, a);
                    }
                }
            }
        } else {
            proof {
                assert(entries_map(kept@) =~= kept_entries(entries_map(before.take(i + 1)), keep));
            }
        }
        proof {
            i = i + 1;
        }
    }
    proof {
        assert(before.take(i) =~= before);
    }
    kept
}

/// No game occurs twice.
pub open spec fn no_repeats(games: Seq<u32>) -> bool {
    forall|i: int, j: int| 0 <= i < j < games.len() ==> games[i] != games[j]
}

/// Whether `game` is in the list.
pub fn has_game(games: &Vec<u32>, game: u32) -> (found: bool)
    ensures
        found == games@.to_set().contains(game),
{
    let mut i: usize = 0;
    while i < games.len()
        invariant
            i <= games@.len(),
            forall|j: int| 0 <= j < i ==> games@[j] != game,
        decreases games@.len() - i,
    {
        if games[i] == game {
            proof {
                assert(games@.to_set().contains(game));
            }
            return true;
        }
        i = i + 1;
    }
    false
}

/// Adds `game` to the list; `added` says whether it was missing.
pub fn add_game(games: &mut Vec<u32>, game: u32) -> (added: bool)
    requires
        no_repeats(old(games)@),
    ensures
        no_repeats(final(games)@),
        final(games)@.to_set() == old(games)@.to_set().insert(game),
        added == !old(games)@.to_set().contains(game),
{
    if has_game(games, game) {
        proof {
            assert(games@.to_set().insert(game) =~= games@.to_set());
        }
        return false;
    }
    let ghost before = games@;
    games.push(game);
    proof {
        before.lemma_push_to_set_commute(game);
        assert(games@.to_set() =~= before.to_set().insert(game));
        assert forall|a: int, b: int| 0 <= a < b < games@.len() implies games@[a] != games@[b] by {
            if b == before.len() {
                assert(before.to_set().contains(before[a]));
            }
        }
    }
    true
}

/// Removes `game` from the list.
pub fn remove_game(games: &mut Vec<u32>, game: u32)
    requires
        no_repeats(old(games)@),
    ensures
        no_repeats(final(games)@),
        final(games)@.to_set() == old(games)@.to_set().remove(game),
{
    let ghost before = games@;
    let mut kept: Vec<u32> = Vec::new();
    let mut i: usize = 0;
    while i < games.len()
        invariant
            i <= games@.len(),
            before == games@,
            no_repeats(before),
            kept@.to_set() == before.take(i as int).to_set().remove(game),
            no_repeats(kept@),
            forall|a: int| 0 <= a < kept@.len() ==> before.take(i as int).contains(#[trigger] kept@[a]),
        decreases games@.len() - i,
    {
        let next = games[i];
        proof {
            assert(before.take(i + 1) =~= before.take(i as int).push(next));
            before.take(i as int).lemma_push_to_set_commute(next);
        }
        if next != game {
            let ghost old_kept = kept@;
            kept.push(next);
            proof {
                old_kept.lemma_push_to_set_commute(next);
                assert(kept@.to_set() =~= before.take(i + 1).to_set().remove(game));
                assert forall|a: int, b: int| 0 <= a < b < kept@.len() implies kept@[a] != kept@[b] by {
                    if b == old_kept.len() {
                        let j = choose|j: int| 0 <= j < i && before.take(i as int)[j] == kept@[a];
                        assert(before[j] == kept@[a]);
                    }
                }
                assert forall|a: int| 0 <= a < kept@.len() implies before.take(i + 1).contains(
                    #[trigger] kept@[a],
                ) by {
                    if a < old_kept.len() {
                        let j = choose|j: int| 0 <= j < i && before.take(i as int)[j] == kept@[a];
                        assert(before.take(i + 1)[j] == kept@[a]);
                    } else {
                        assert(before.take(i + 1)[i as int] == next);
                    }
                }
            }
        } else {
            proof {
                assert(kept@.to_set() =~= before.take(i + 1).to_set().remove(game));
                assert forall|a: int| 0 <= a < kept@.len() implies before.take(i + 1).contains(
                    #[trigger] kept@[a],
                ) by {
                    let j = choose|j: int| 0 <= j < i && before.take(i as int)[j] == kept@[a];
                    assert(before.take(i + 1)[j] == kept@[a]);
                }
            }
        }
        i = i + 1;
    }
    proof {
        assert(before.take(i as int) =~= before);
    }
    *games = kept;
}

} // verus!
