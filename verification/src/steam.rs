//! The installed Steam games: app manifests, library folders, and the list
//! that discovery reports.
use vstd::prelude::*;

use crate::bepinex::{ends_with, starts_with, text_ends_with, text_starts_with};
use crate::error::{bepinex_error, ErrorResponse};
use crate::fields::{all_digits, is_digit};
use crate::packages::{parse_unsigned, spec_parse_unsigned};
use crate::paths::{components_normal, inspect_path};
use crate::text::{append_str, chars_of, lemma_trim_idempotent, eq_ignore_ascii_case, str_eq_ignore_ascii_case, string_of, trim, trimmed};
use crate::vdf::{entries_model, find_object, find_text, object_value, text_value, VdfModel, VdfObject, VdfValue};

verus! {

/// An installed Steam game.
#[derive(Clone, Debug)]
pub struct SteamGame {
    pub app_id: u32,
    pub name: String,
}

/// Discovery found no game and could not read everything it looked at.
#[derive(Clone, Debug)]
pub struct SteamDiscoveryError;

/// `u32::from_str`.
pub open spec fn spec_parse_u32(s: Seq<char>) -> Option<u32> {
    match spec_parse_unsigned(s) {
        Some(v) => if v <= u32::MAX {
            Some(v as u32)
        } else {
            None
        },
        None => None,
    }
}

/// Parses a decimal number as `u32::from_str` does.
pub fn parse_u32(text: &str) -> (value: Option<u32>)
    ensures
        value == spec_parse_u32(text@),
{
    match parse_unsigned(text) {
        Some(v) => if v <= 0xffff_ffffu64 {
            Some(v as u32)
        } else {
            None
        },
        None => None,
    }
}

/// The app a manifest file `appmanifest_<digits>.acf` is named for.
pub open spec fn spec_manifest_app_id(name: Seq<char>) -> Option<u32> {
    let prefix = "appmanifest_"@;
    if !starts_with(name, prefix) {
        None
    } else {
        let rest = name.subrange(prefix.len() as int, name.len() as int);
        if !ends_with(rest, ".acf"@) {
            None
        } else {
            let id = rest.subrange(0, rest.len() - 4);
            if id.len() == 0 || !all_digits(id) {
                None
            } else {
                spec_parse_u32(id)
            }
        }
    }
}

/// The app a manifest file is named for.
pub fn manifest_app_id(file_name: &str) -> (app_id: Option<u32>)
    ensures
        app_id == spec_manifest_app_id(file_name@),
{
    let prefix = "appmanifest_";
    let suffix = ".acf";
    proof {
        reveal_strlit("appmanifest_");
        reveal_strlit(".acf");
    }
    if !text_starts_with(file_name, prefix) {
        return None;
    }
    let chars = chars_of(file_name);
    let rest = string_of(&chars, 12, chars.len());
    if !text_ends_with(rest.as_str(), suffix) {
        return None;
    }
    let rest_chars = chars_of(rest.as_str());
    let id = string_of(&rest_chars, 0, rest_chars.len() - 4);
    let id_chars = chars_of(id.as_str());
    proof {
        assert(rest@ =~= file_name@.subrange("appmanifest_"@.len() as int, file_name@.len() as int));
        assert(spec_manifest_app_id(file_name@) == (if id@.len() == 0 || !all_digits(id@) {
            None
        } else {
            spec_parse_u32(id@)
        }));
    }
    let mut i: usize = 0;
    while i < id_chars.len()
        invariant
            id_chars@ == id@,
            spec_manifest_app_id(file_name@) == (if id@.len() == 0 || !all_digits(id@) {
                None
            } else {
                spec_parse_u32(id@)
            }),
            i <= id_chars@.len(),
            forall|j: int| 0 <= j < i ==> is_digit(#[trigger] id_chars@[j]),
        decreases id_chars@.len() - i,
    {
        if !('0' <= id_chars[i] && id_chars[i] <= '9') {
            proof {
                assert(!is_digit(id@[i as int]));
            }
            return None;
        }
        i = i + 1;
    }
    if id_chars.len() == 0 {
        return None;
    }
    parse_u32(id.as_str())
}

/// What an app manifest says of its game, where it says enough: the
/// `AppState` object's app id (not 0, and that of the file's name), name
/// and install directory, both trimmed and not empty, the directory a
/// relative path of plain names that stays below `common`.
pub open spec fn manifest_entry(document: Seq<(Seq<char>, VdfModel)>, file_app_id: u32) -> Option<(u32, Seq<char>, Seq<char>)> {
    match find_object(document, "appstate"@, 0) {
        None => None,
        Some(state) => match find_text(state, "appid"@, 0) {
            None => None,
            Some(id_text) => match spec_parse_u32(id_text) {
                None => None,
                Some(id) => match find_text(state, "name"@, 0) {
                    None => None,
                    Some(name) => match find_text(state, "installdir"@, 0) {
                        None => None,
                        Some(directory) => {
                            let name = trim(name);
                            let directory = trim(directory);
                            if id == 0 || id != file_app_id || name.len() == 0 || directory.len() == 0
                                || !components_normal(directory) {
                                None
                            } else {
                                Some((id, name, directory))
                            }
                        },
                    },
                },
            },
        },
    }
}

/// Reads an app manifest's game: its app id, name and install directory.
pub fn read_manifest_entry(document: &VdfObject, file_app_id: u32) -> (entry: Option<(u32, String, String)>)
    ensures
        match manifest_entry(entries_model(document@), file_app_id) {
            Some((id, name, directory)) => entry matches Some((i, n, d)) && i == id && n@ == name
                && d@ == directory,
            None => entry is None,
        },
{
    let state = match object_value(document, "appstate") {
        Some(state) => state,
        None => {
            return None;
        },
    };
    let id_text = match text_value(state, "appid") {
        Some(t) => t,
        None => {
            return None;
        },
    };
    let id = match parse_u32(id_text) {
        Some(id) => id,
        None => {
            return None;
        },
    };
    let name = match text_value(state, "name") {
        Some(n) => trimmed(n),
        None => {
            return None;
        },
    };
    let directory = match text_value(state, "installdir") {
        Some(d) => trimmed(d),
        None => {
            return None;
        },
    };
    if id == 0 || id != file_app_id || name.as_str().is_empty() || directory.as_str().is_empty() {
        return None;
    }
    let (normal, _) = inspect_path(directory.as_str());
    if !normal {
        return None;
    }
    Some((id, name, directory))
}


// ---------------------------------------------------------------------------
// Library folders.
// ---------------------------------------------------------------------------
/// The libraries that a `libraryfolders` object lists, in its order: each
/// entry whose key is all digits names a library by a path given as text or
/// as the `path` of an object. Also tells whether an entry with a numeric
/// key was unreadable (a key beyond `u32` or no path).
pub open spec fn library_entries(folders: Seq<(Seq<char>, VdfModel)>) -> (Seq<(u32, Seq<char>)>, bool)
    decreases folders.len(),
{
    if folders.len() == 0 {
        (Seq::empty(), false)
    } else {
        let (entries, error) = library_entries(folders.drop_last());
        let (key, value) = folders.last();
        if key.len() == 0 || !all_digits(key) {
            (entries, error)
        } else {
            match spec_parse_u32(key) {
                None => (entries, true),
                Some(index) => {
                    let path = match value {
                        VdfModel::Text(t) => Some(t),
                        VdfModel::Object(o) => find_text(o, "path"@, 0),
                    };
                    match path {
                        None => (entries, true),
                        Some(p) => (entries.push((index, p)), error),
                    }
                },
            }
        }
    }
}

/// Inserts a library after every library whose index is not greater.
pub open spec fn insert_by_index(sorted: Seq<(u32, Seq<char>)>, entry: (u32, Seq<char>)) -> Seq<(u32, Seq<char>)>
    decreases sorted.len(),
{
    if sorted.len() == 0 {
        seq![entry]
    } else if sorted.last().0 <= entry.0 {
        sorted.push(entry)
    } else {
        insert_by_index(sorted.drop_last(), entry).push(sorted.last())
    }
}

/// Libraries sorted by index, keeping the order of equal indices (a stable
/// sort).
pub open spec fn sort_by_index(entries: Seq<(u32, Seq<char>)>) -> Seq<(u32, Seq<char>)>
    decreases entries.len(),
{
    if entries.len() == 0 {
        Seq::empty()
    } else {
        insert_by_index(sort_by_index(entries.drop_last()), entries.last())
    }
}

/// The index and path of each library.
pub open spec fn library_view(entries: Seq<(u32, String)>) -> Seq<(u32, Seq<char>)> {
    entries.map_values(|e: (u32, String)| (e.0, e.1@))
}

proof fn lemma_insert_by_index(sorted: Seq<(u32, Seq<char>)>, entry: (u32, Seq<char>), p: int)
    requires
        0 <= p <= sorted.len(),
        forall|j: int| p <= j < sorted.len() ==> sorted[j].0 > entry.0,
        p > 0 ==> sorted[p - 1].0 <= entry.0,
    ensures
        insert_by_index(sorted, entry) == sorted.insert(p, entry),
    decreases sorted.len(),
{
    if sorted.len() == 0 {
        assert(sorted.insert(p, entry) =~= seq![entry]);
    } else if sorted.last().0 <= entry.0 {
        assert(p == sorted.len());
        assert(sorted.insert(p, entry) =~= sorted.push(entry));
    } else {
        lemma_insert_by_index(sorted.drop_last(), entry, p);
        assert(sorted.drop_last().insert(p, entry).push(sorted.last()) =~= sorted.insert(p, entry));
    }
}

/// Inserts a library into a list sorted by index, after the equal ones.
fn insert_library(sorted: &mut Vec<(u32, String)>, entry: (u32, String))
    ensures
        library_view(final(sorted)@) == insert_by_index(library_view(old(sorted)@), (entry.0, entry.1@)),
{
    let ghost before = library_view(sorted@);
    let mut p = sorted.len();
    while p > 0 && sorted[p - 1].0 > entry.0
        invariant
            p <= sorted@.len(),
            before == library_view(sorted@),
            forall|j: int| p <= j < sorted@.len() ==> sorted@[j].0 > entry.0,
        decreases p,
    {
        p = p - 1;
    }
    proof {
        lemma_insert_by_index(before, (entry.0, entry.1@), p as int);
    }
    let ghost key = (entry.0, entry.1@);
    sorted.insert(p, entry);
    proof {
        assert(library_view(sorted@) =~= before.insert(p as int, key));
    }
}

/// The libraries a `libraryfolders` object lists, sorted by index, and
/// whether an entry with a numeric key was unreadable.
pub fn library_folders(folders: &VdfObject) -> (libraries: (Vec<(u32, String)>, bool))
    ensures
        library_view(libraries.0@) == sort_by_index(library_entries(entries_model(folders@)).0),
        libraries.1 == library_entries(entries_model(folders@)).1,
{
    let ghost model = entries_model(folders@);
    let mut sorted: Vec<(u32, String)> = Vec::new();
    let mut error = false;
    let mut i: usize = 0;
    proof {
        assert(model.take(0) =~= Seq::<(Seq<char>, VdfModel)>::empty());
        assert(library_view(sorted@) =~= Seq::<(u32, Seq<char>)>::empty());
    }
    while i < folders.len()
        invariant
            i <= folders@.len(),
            model == entries_model(folders@),
            library_view(sorted@) == sort_by_index(library_entries(model.take(i as int)).0),
            error == library_entries(model.take(i as int)).1,
        decreases folders@.len() - i,
    {
        proof {
            assert(model.take(i + 1).drop_last() =~= model.take(i as int));
            assert(model.take(i + 1).last() == model[i as int]);
            assert(model[i as int] == (folders@[i as int].0@, folders@[i as int].1.model()));
        }
        let (key, value) = &folders[i];
        let key_chars = chars_of(key.as_str());
        let mut numeric = key_chars.len() > 0;
        let mut k: usize = 0;
        while k < key_chars.len()
            invariant
                k <= key_chars@.len(),
                numeric == (key_chars@.len() > 0 && forall|j: int| 0 <= j < k ==> is_digit(#[trigger] key_chars@[j])),
            decreases key_chars@.len() - k,
        {
            if !('0' <= key_chars[k] && key_chars[k] <= '9') {
                numeric = false;
            }
            k = k + 1;
        }
        proof {
            assert(numeric == (key@.len() > 0 && all_digits(key@)));
        }
        if numeric {
            match parse_u32(key.as_str()) {
                None => {
                    error = true;
                },
                Some(index) => {
                    let path = match value {
                        VdfValue::Text(t) => Some(t.as_str()),
                        VdfValue::Object(o) => {
                            proof {
                                crate::vdf::lemma_object_model(*o);
                            }
                            text_value(o, "path")
                        },
                    };
                    match path {
                        None => {
                            error = true;
                        },
                        Some(p) => {
                            let ghost before = library_view(sorted@);
                            let ghost unsorted = library_entries(model.take(i as int)).0;
                            insert_library(&mut sorted, (index, p.to_string()));
                            proof {
                                assert(library_entries(model.take(i + 1)).0 =~= unsorted.push((index, p@)));
                                assert(unsorted.push((index, p@)).drop_last() =~= unsorted);
                            }
                        },
                    }
                },
            }
        }
        i = i + 1;
    }
    proof {
        assert(model.take(i as int) =~= model);
    }
    (sorted, error)
}


// ---------------------------------------------------------------------------
// The games that discovery reports.
// ---------------------------------------------------------------------------
/// `str::to_lowercase`: the Unicode lowercase mapping of a text.
pub uninterp spec fn unicode_lowercase(text: Seq<char>) -> Seq<char>;

/// The Unicode lowercase of a text, by `str::to_lowercase`.
#[verifier::external_body]
pub(crate) fn lowercase(text: &str) -> (lower: String)
    ensures
        lower@ == unicode_lowercase(text@),
{
    text.to_lowercase()
}

/// `a < b` for texts as `String` orders them: byte by byte in UTF-8, which
/// orders them as their code points do.
pub open spec fn text_less(a: Seq<char>, b: Seq<char>) -> bool
    decreases a.len(),
{
    if a.len() == 0 {
        b.len() > 0
    } else if b.len() == 0 {
        false
    } else if a[0] != b[0] {
        (a[0] as u32) < (b[0] as u32)
    } else {
        text_less(a.drop_first(), b.drop_first())
    }
}

/// Whether `a < b` as `String` orders texts.
pub fn text_before(a: &str, b: &str) -> (less: bool)
    ensures
        less == text_less(a@, b@),
{
    let x = chars_of(a);
    let y = chars_of(b);
    let mut i: usize = 0;
    proof {
        assert(a@.subrange(0, a@.len() as int) =~= a@);
        assert(b@.subrange(0, b@.len() as int) =~= b@);
    }
    while i < x.len() && i < y.len() && x[i] == y[i]
        invariant
            x@ == a@,
            y@ == b@,
            i <= x@.len(),
            i <= y@.len(),
            text_less(a@, b@) == text_less(a@.subrange(i as int, a@.len() as int), b@.subrange(i as int, b@.len() as int)),
        decreases x@.len() - i,
    {
        proof {
            let u = a@.subrange(i as int, a@.len() as int);
            let v = b@.subrange(i as int, b@.len() as int);
            assert(u.drop_first() =~= a@.subrange(i + 1, a@.len() as int));
            assert(v.drop_first() =~= b@.subrange(i + 1, b@.len() as int));
        }
        i = i + 1;
    }
    proof {
        let u = a@.subrange(i as int, a@.len() as int);
        let v = b@.subrange(i as int, b@.len() as int);
        if i < x@.len() {
            assert(u[0] == x@[i as int]);
        }
        if i < y@.len() {
            assert(v[0] == y@[i as int]);
        }
    }
    if i == x.len() {
        i < y.len()
    } else if i == y.len() {
        false
    } else {
        (x[i] as u32) < (y[i] as u32)
    }
}

/// The app id and name of a game.
pub open spec fn game_view(game: SteamGame) -> (u32, Seq<char>) {
    (game.app_id, game.name@)
}

/// The app ids and names of games.
pub open spec fn games_view(games: Seq<SteamGame>) -> Seq<(u32, Seq<char>)> {
    games.map_values(|g: SteamGame| game_view(g))
}

/// A game with this app id is among the games.
pub open spec fn has_app(games: Seq<(u32, Seq<char>)>, app_id: u32) -> bool {
    exists|i: int| 0 <= i < games.len() && #[trigger] games[i].0 == app_id
}

/// The first game of each app id, in order.
pub open spec fn first_of_each(games: Seq<(u32, Seq<char>)>) -> Seq<(u32, Seq<char>)>
    decreases games.len(),
{
    if games.len() == 0 {
        Seq::empty()
    } else {
        let kept = first_of_each(games.drop_last());
        if has_app(kept, games.last().0) {
            kept
        } else {
            kept.push(games.last())
        }
    }
}

/// `a` comes before `b` in the list: by lowercase name, then by name, then
/// by app id.
pub open spec fn game_before(a: (u32, Seq<char>), b: (u32, Seq<char>)) -> bool {
    let la = unicode_lowercase(a.1);
    let lb = unicode_lowercase(b.1);
    text_less(la, lb) || (la == lb && (text_less(a.1, b.1) || (a.1 == b.1 && a.0 < b.0)))
}

/// Inserts a game after every game that does not come after it.
pub open spec fn insert_game(sorted: Seq<(u32, Seq<char>)>, game: (u32, Seq<char>)) -> Seq<(u32, Seq<char>)>
    decreases sorted.len(),
{
    if sorted.len() == 0 {
        seq![game]
    } else if !game_before(game, sorted.last()) {
        sorted.push(game)
    } else {
        insert_game(sorted.drop_last(), game).push(sorted.last())
    }
}

/// Games sorted by lowercase name, name and app id.
pub open spec fn sort_games(games: Seq<(u32, Seq<char>)>) -> Seq<(u32, Seq<char>)>
    decreases games.len(),
{
    if games.len() == 0 {
        Seq::empty()
    } else {
        insert_game(sort_games(games.drop_last()), games.last())
    }
}

/// What discovery reports for the games its scan found, in scan order:
/// the first game of each app id, sorted; nothing found while a location
/// could not be read is a failure, as an empty list would then be untrue.
pub open spec fn discovery_result(scanned: Seq<(u32, Seq<char>)>, incomplete: bool) -> Option<Seq<(u32, Seq<char>)>> {
    let kept = first_of_each(scanned);
    if kept.len() == 0 && incomplete {
        None
    } else {
        Some(sort_games(kept))
    }
}

proof fn lemma_insert_game(sorted: Seq<(u32, Seq<char>)>, game: (u32, Seq<char>), p: int)
    requires
        0 <= p <= sorted.len(),
        forall|j: int| p <= j < sorted.len() ==> game_before(game, #[trigger] sorted[j]),
        p > 0 ==> !game_before(game, sorted[p - 1]),
    ensures
        insert_game(sorted, game) == sorted.insert(p, game),
    decreases sorted.len(),
{
    if sorted.len() == 0 {
        assert(sorted.insert(p, game) =~= seq![game]);
    } else if !game_before(game, sorted.last()) {
        assert(p == sorted.len());
        assert(sorted.insert(p, game) =~= sorted.push(game));
    } else {
        lemma_insert_game(sorted.drop_last(), game, p);
        assert(sorted.drop_last().insert(p, game).push(sorted.last()) =~= sorted.insert(p, game));
    }
}

proof fn lemma_insert_game_apps(sorted: Seq<(u32, Seq<char>)>, game: (u32, Seq<char>))
    ensures
        forall|id: u32| #[trigger] has_app(insert_game(sorted, game), id) == (has_app(sorted, id) || game.0 == id),
    decreases sorted.len(),
{
    if sorted.len() == 0 {
        assert forall|id: u32| has_app(insert_game(sorted, game), id) == (has_app(sorted, id) || game.0 == id) by {
            if game.0 == id {
                assert(insert_game(sorted, game)[0].0 == id);
            }
        }
    } else if !game_before(game, sorted.last()) {
        assert forall|id: u32| has_app(insert_game(sorted, game), id) == (has_app(sorted, id) || game.0 == id) by {
            let r = sorted.push(game);
            if has_app(r, id) {
                let i = choose|i: int| 0 <= i < r.len() && #[trigger] r[i].0 == id;
                if i < sorted.len() {
                    assert(sorted[i].0 == id);
                }
            }
            if has_app(sorted, id) {
                let i = choose|i: int| 0 <= i < sorted.len() && #[trigger] sorted[i].0 == id;
                assert(r[i].0 == id);
            }
            if game.0 == id {
                assert(r[sorted.len() as int].0 == id);
            }
        }
    } else {
        let rest = sorted.drop_last();
        lemma_insert_game_apps(rest, game);
        let inner = insert_game(rest, game);
        assert forall|id: u32| has_app(insert_game(sorted, game), id) == (has_app(sorted, id) || game.0 == id) by {
            let r = inner.push(sorted.last());
            if has_app(r, id) {
                let i = choose|i: int| 0 <= i < r.len() && #[trigger] r[i].0 == id;
                if i < inner.len() {
                    assert(inner[i].0 == id);
                    assert(has_app(inner, id));
                    assert(has_app(rest, id) || game.0 == id);
                    if has_app(rest, id) {
                        let j = choose|j: int| 0 <= j < rest.len() && #[trigger] rest[j].0 == id;
                        assert(sorted[j].0 == id);
                        assert(has_app(sorted, id));
                    }
                } else {
                    assert(sorted[sorted.len() - 1].0 == id);
                }
            }
            if has_app(sorted, id) {
                let i = choose|i: int| 0 <= i < sorted.len() && #[trigger] sorted[i].0 == id;
                if i < sorted.len() - 1 {
                    assert(rest[i].0 == id);
                    assert(has_app(rest, id));
                    assert(has_app(inner, id));
                    let j = choose|j: int| 0 <= j < inner.len() && #[trigger] inner[j].0 == id;
                    assert(r[j].0 == id);
                } else {
                    assert(r[inner.len() as int].0 == id);
                }
            }
            if game.0 == id {
                assert(has_app(inner, id));
                let j = choose|j: int| 0 <= j < inner.len() && #[trigger] inner[j].0 == id;
                assert(r[j].0 == id);
            }
        }
    }
}

proof fn lemma_sort_games_apps(games: Seq<(u32, Seq<char>)>)
    ensures
        forall|id: u32| has_app(sort_games(games), id) == has_app(games, id),
    decreases games.len(),
{
    if games.len() > 0 {
        let rest = games.drop_last();
        lemma_sort_games_apps(rest);
        lemma_insert_game_apps(sort_games(rest), games.last());
        assert forall|id: u32| has_app(sort_games(games), id) == has_app(games, id) by {
            if has_app(games, id) {
                let i = choose|i: int| 0 <= i < games.len() && #[trigger] games[i].0 == id;
                if i < games.len() - 1 {
                    assert(rest[i].0 == id);
                }
            }
            if has_app(rest, id) {
                let i = choose|i: int| 0 <= i < rest.len() && #[trigger] rest[i].0 == id;
                assert(games[i].0 == id);
            }
        }
    }
}

/// Whether a game comes before another.
fn comes_before(a_lower: &str, a: &SteamGame, b_lower: &str, b: &SteamGame) -> (before: bool)
    requires
        a_lower@ == unicode_lowercase(a.name@),
        b_lower@ == unicode_lowercase(b.name@),
    ensures
        before == game_before(game_view(*a), game_view(*b)),
{
    text_before(a_lower, b_lower) || (crate::text::str_equal(a_lower, b_lower) && (text_before(
        a.name.as_str(),
        b.name.as_str(),
    ) || (crate::text::str_equal(a.name.as_str(), b.name.as_str()) && a.app_id < b.app_id)))
}

/// Reports the installed games that a scan found: the first game of each
/// app id, sorted by lowercase name, name and app id. A scan that found
/// nothing while a location could not be read fails.
pub fn discover_installed_games(scanned: Vec<SteamGame>, incomplete: bool) -> (result: Result<Vec<SteamGame>, SteamDiscoveryError>)
    ensures
        match discovery_result(games_view(scanned@), incomplete) {
            Some(games) => result matches Ok(g) && games_view(g@) == games,
            None => result is Err,
        },
{
    let ghost all = games_view(scanned@);
    let mut sorted: Vec<(String, SteamGame)> = Vec::new();
    let ghost mut kept: Seq<(u32, Seq<char>)> = Seq::empty();
    let mut scanned = scanned;
    let mut remaining: Vec<SteamGame> = Vec::new();
    while scanned.len() > 0
        invariant
            all == games_view(scanned@) + games_view(remaining@).reverse(),
        decreases scanned@.len(),
    {
        let ghost before_s = scanned@;
        let ghost before_r = remaining@;
        let game = scanned.pop().unwrap();
        remaining.push(game);
        proof {
            assert(games_view(scanned@) + games_view(remaining@).reverse() =~= games_view(before_s)
                + games_view(before_r).reverse());
        }
    }
    proof {
        assert(games_view(scanned@) =~= Seq::<(u32, Seq<char>)>::empty());
        assert(all =~= games_view(remaining@).reverse());
    }
    let mut n: usize = 0;
    let total = remaining.len();
    proof {
        assert(all.take(0) =~= Seq::<(u32, Seq<char>)>::empty());
    }
    while remaining.len() > 0
        invariant
            all == all.take(n as int) + games_view(remaining@).reverse(),
            n + remaining@.len() == all.len(),
            all.len() == total,
            kept == first_of_each(all.take(n as int)),
            sorted@.len() == kept.len(),
            forall|j: int| 0 <= j < sorted@.len() ==> sorted@[j].0@ == unicode_lowercase(#[trigger] sorted@[j].1.name@),
            sorted@.map_values(|e: (String, SteamGame)| game_view(e.1)) == sort_games(kept),
        decreases remaining@.len(),
    {
        let ghost before_r = remaining@;
        let game = remaining.pop().unwrap();
        proof {
            assert(games_view(before_r).reverse() =~= seq![game_view(game)] + games_view(remaining@).reverse());
            assert(all[n as int] == game_view(game));
            assert(all.take(n + 1) =~= all.take(n as int).push(game_view(game)));
            assert(all.take(n + 1).drop_last() =~= all.take(n as int));
            assert(all =~= all.take(n + 1) + games_view(remaining@).reverse());
        }
        let mut seen = false;
        let mut j: usize = 0;
        while j < sorted.len()
            invariant
                j <= sorted@.len(),
                seen == exists|k: int| 0 <= k < j && #[trigger] sorted@[k].1.app_id == game.app_id,
            decreases sorted@.len() - j,
        {
            if sorted[j].1.app_id == game.app_id {
                seen = true;
            }
            j = j + 1;
        }
        if !seen {
            let lower = lowercase(game.name.as_str());
            let ghost before = sorted@.map_values(|e: (String, SteamGame)| game_view(e.1));
            let ghost old_sorted = sorted@;
            let mut p = sorted.len();
            while p > 0 && comes_before(lower.as_str(), &game, sorted[p - 1].0.as_str(), &sorted[p - 1].1)
                invariant
                    p <= sorted@.len(),
                    lower@ == unicode_lowercase(game.name@),
                    forall|j: int| 0 <= j < sorted@.len() ==> sorted@[j].0@ == unicode_lowercase(#[trigger] sorted@[j].1.name@),
                    forall|k: int| p <= k < sorted@.len() ==> game_before(game_view(game), #[trigger] before[k]),
                    before == sorted@.map_values(|e: (String, SteamGame)| game_view(e.1)),
                decreases p,
            {
                p = p - 1;
            }
            proof {
                lemma_insert_game(before, game_view(game), p as int);
            }
            let ghost g = game_view(game);
            let ghost game_id = game.app_id;
            let ghost lower_view = lower@;
            sorted.insert(p, (lower, game));
            proof {
                assert(sorted@[p as int].0@ == lower_view);
                assert forall|j: int| 0 <= j < sorted@.len() implies sorted@[j].0@ == unicode_lowercase(#[trigger] sorted@[j].1.name@) by {
                    if j < p {
                        assert(sorted@[j] == old_sorted[j]);
                        assert(old_sorted[j].0@ == unicode_lowercase(old_sorted[j].1.name@));
                    } else if j > p {
                        assert(sorted@[j] == old_sorted[j - 1]);
                        assert(old_sorted[j - 1].0@ == unicode_lowercase(old_sorted[j - 1].1.name@));
                    } else {
                        assert(sorted@[j].1 == game);
                        assert(lower_view == unicode_lowercase(game.name@));
                    }
                }
                assert(sorted@.map_values(|e: (String, SteamGame)| game_view(e.1)) =~= before.insert(p as int, g));
                lemma_sort_games_apps(kept);
                assert(!has_app(kept, game_id)) by {
                    if has_app(kept, game_id) {
                        assert(has_app(sort_games(kept), game_id));
                        let k = choose|k: int| 0 <= k < before.len() && #[trigger] before[k].0 == game_id;
                        assert(old_sorted[k].1.app_id == game_id);
                    }
                }
                assert(kept.push(g).drop_last() =~= kept);
                assert(all.take(n + 1).last() == g);
                kept = kept.push(g);
            }
        } else {
            proof {
                lemma_sort_games_apps(kept);
                let k = choose|k: int| 0 <= k < sorted@.len() && #[trigger] sorted@[k].1.app_id == game.app_id;
                let v = sorted@.map_values(|e: (String, SteamGame)| game_view(e.1));
                assert(v[k].0 == game.app_id);
                assert(has_app(sort_games(kept), game.app_id));
            }
        }
        n = n + 1;
    }
    proof {
        assert(all.take(n as int) =~= all);
    }
    if sorted.len() == 0 && incomplete {
        return Err(SteamDiscoveryError);
    }
    let mut games: Vec<SteamGame> = Vec::new();
    let ghost view = sorted@.map_values(|e: (String, SteamGame)| game_view(e.1));
    let mut sorted = sorted;
    let mut reversed: Vec<(String, SteamGame)> = Vec::new();
    while sorted.len() > 0
        invariant
            view == sorted@.map_values(|e: (String, SteamGame)| game_view(e.1)) + reversed@.map_values(|e: (String, SteamGame)| game_view(e.1)).reverse(),
        decreases sorted@.len(),
    {
        let ghost bs = sorted@;
        let ghost br = reversed@;
        let e = sorted.pop().unwrap();
        reversed.push(e);
        proof {
            assert(sorted@.map_values(|e: (String, SteamGame)| game_view(e.1)) + reversed@.map_values(|e: (String, SteamGame)| game_view(e.1)).reverse()
                =~= bs.map_values(|e: (String, SteamGame)| game_view(e.1)) + br.map_values(|e: (String, SteamGame)| game_view(e.1)).reverse());
        }
    }
    proof {
        assert(sorted@.map_values(|e: (String, SteamGame)| game_view(e.1)) =~= Seq::<(u32, Seq<char>)>::empty());
        assert(games_view(games@) =~= Seq::<(u32, Seq<char>)>::empty());
    }
    while reversed.len() > 0
        invariant
            view == games_view(games@) + reversed@.map_values(|e: (String, SteamGame)| game_view(e.1)).reverse(),
        decreases reversed@.len(),
    {
        let ghost br = reversed@;
        let ghost bg = games@;
        let (_, game) = reversed.pop().unwrap();
        games.push(game);
        proof {
            assert(games_view(games@) + reversed@.map_values(|e: (String, SteamGame)| game_view(e.1)).reverse()
                =~= games_view(bg) + br.map_values(|e: (String, SteamGame)| game_view(e.1)).reverse());
        }
    }
    proof {
        assert(reversed@.map_values(|e: (String, SteamGame)| game_view(e.1)) =~= Seq::<(u32, Seq<char>)>::empty());
        assert(games_view(games@) =~= view);
    }
    Ok(games)
}


/// The installed game with `app_id` among those that discovery reports:
/// the first game with that app id. A failed discovery, or a game that is
/// no longer installed, is `bepinex_blocked`.
pub fn resolve_game(discovered: Result<Vec<SteamGame>, SteamDiscoveryError>, app_id: u32) -> (game: Result<
    SteamGame,
    ErrorResponse,
>)
    ensures
        discovered is Err ==> (game matches Err(e) && e.code@ == "bepinex_blocked"@),
        discovered matches Ok(games) ==> match game {
            Ok(g) => exists|k: int|
                0 <= k < games@.len() && games@[k] == g && g.app_id == app_id && forall|j: int|
                    0 <= j < k ==> (#[trigger] games@[j]).app_id != app_id,
            Err(e) => e.code@ == "bepinex_blocked"@ && forall|j: int|
                0 <= j < games@.len() ==> (#[trigger] games@[j]).app_id != app_id,
        },
{
    let mut games = match discovered {
        Ok(games) => games,
        Err(_) => {
            return Err(bepinex_error("bepinex_blocked", "Steam games could not be resolved"));
        },
    };
    let ghost all = games@;
    assert(discovered matches Ok(g) && g@ == all);
    let mut i: usize = 0;
    while i < games.len()
        invariant
            games@ == all,
            discovered matches Ok(g) && g@ == all,
            i <= games@.len(),
            forall|j: int| 0 <= j < i ==> (#[trigger] games@[j]).app_id != app_id,
        decreases games@.len() - i,
    {
        if games[i].app_id == app_id {
            let game = games.remove(i);
            assert(all[i as int] == game);
            return Ok(game);
        }
        i = i + 1;
    }
    Err(bepinex_error("bepinex_blocked", "the selected Steam game is no longer installed"))
}

/// What looking at one candidate `steamapps` directory of a configured
/// library found.
#[derive(Clone, Copy, Debug, PartialEq, Eq, Structural)]
pub enum CandidateState {
    Directory,
    NotDirectory,
    Missing,
    Unreadable,
}

/// Whether a configured library's candidates make the library
/// configuration questionable: a candidate that is there but not a
/// directory, one that cannot be inspected, or no candidate that is a
/// directory at all.
pub open spec fn library_unavailable(states: Seq<CandidateState>) -> bool {
    ||| (exists|i: int|
        0 <= i < states.len() && (#[trigger] states[i] == CandidateState::NotDirectory || states[i]
            == CandidateState::Unreadable))
    ||| !(exists|i: int| 0 <= i < states.len() && #[trigger] states[i] == CandidateState::Directory)
}

/// Whether a configured library counts as a configuration error, from what
/// its candidate `steamapps` directories are.
pub fn library_configuration_error(states: &Vec<CandidateState>) -> (error: bool)
    ensures
        error == library_unavailable(states@),
{
    let mut available = false;
    let mut error = false;
    let mut i: usize = 0;
    while i < states.len()
        invariant
            i <= states@.len(),
            available == exists|j: int| 0 <= j < i && #[trigger] states@[j] == CandidateState::Directory,
            error == exists|j: int|
                0 <= j < i && (#[trigger] states@[j] == CandidateState::NotDirectory || states@[j]
                    == CandidateState::Unreadable),
        decreases states@.len() - i,
    {
        match states[i] {
            CandidateState::Directory => {
                available = true;
            },
            CandidateState::NotDirectory => {
                error = true;
            },
            CandidateState::Unreadable => {
                error = true;
            },
            CandidateState::Missing => {},
        }
        i = i + 1;
    }
    error || !available
}

// ---------------------------------------------------------------------------
// Where Steam installations are looked for.
// ---------------------------------------------------------------------------
/// `base` joined with the relative path `rest`, as Unix paths join.
pub open spec fn unix_join(base: Seq<char>, rest: Seq<char>) -> Seq<char> {
    if base.len() == 0 {
        rest
    } else if base.last() == '/' {
        base + rest
    } else {
        base + seq!['/'] + rest
    }
}

/// Joins a relative path to a Unix path.
pub fn join_path(base: &str, rest: &str) -> (joined: String)
    ensures
        joined@ == unix_join(base@, rest@),
{
    let chars = chars_of(base);
    let mut joined = string_of(&chars, 0, chars.len());
    proof {
        assert(chars@.subrange(0, chars@.len() as int) =~= chars@);
    }
    if chars.len() > 0 && chars[chars.len() - 1] != '/' {
        append_str(&mut joined, "/");
        proof {
            reveal_strlit("/");
        }
    }
    append_str(&mut joined, rest);
    proof {
        if chars@.len() > 0 && chars@.last() != '/' {
            assert(base@ + "/"@ + rest@ =~= base@ + seq!['/'] + rest@);
        }
        if chars@.len() == 0 {
            assert(base@ + rest@ =~= rest@);
        }
    }
    joined
}

/// The directories below the home directory where Steam is installed on
/// Linux: native, Debian, Flatpak and Snap installations.
pub open spec fn linux_home_locations() -> Seq<Seq<char>> {
    seq![
        ".local/share/Steam"@,
        ".local/share/steam"@,
        ".steam/root"@,
        ".steam/steam"@,
        ".steam/debian-installation"@,
        ".var/app/com.valvesoftware.Steam/data/Steam"@,
        ".var/app/com.valvesoftware.Steam/data/steam"@,
        ".var/app/com.valvesoftware.Steam/.local/share/Steam"@,
        ".var/app/com.valvesoftware.Steam/.local/share/steam"@,
        "snap/steam/common/.local/share/Steam"@,
        "snap/steam/common/.local/share/steam"@,
    ]
}

/// The Steam roots looked for on Linux: `Steam` and `steam` below an
/// absolute `XDG_DATA_HOME`, then the usual places below the home
/// directory.
pub open spec fn linux_roots(xdg_data_home: Option<Seq<char>>, home_dir: Option<Seq<char>>) -> Seq<Seq<char>> {
    let from_data_home = match xdg_data_home {
        Some(data) => if data.len() > 0 && data[0] == '/' {
            seq![unix_join(data, "Steam"@), unix_join(data, "steam"@)]
        } else {
            Seq::empty()
        },
        None => Seq::empty(),
    };
    let from_home = match home_dir {
        Some(home) => linux_home_locations().map_values(|rest: Seq<char>| unix_join(home, rest)),
        None => Seq::empty(),
    };
    from_data_home + from_home
}

/// The Steam installations to look for on Linux, given the value of
/// `XDG_DATA_HOME` and the home directory.
pub fn linux_steam_roots(xdg_data_home: Option<&str>, home_dir: Option<&str>) -> (roots: Vec<String>)
    ensures
        roots@.map_values(|r: String| r@) == linux_roots(
            match xdg_data_home { Some(d) => Some(d@), None => None },
            match home_dir { Some(h) => Some(h@), None => None },
        ),
{
    let ghost data_view = match xdg_data_home { Some(d) => Some(d@), None => None };
    let ghost home_view = match home_dir { Some(h) => Some(h@), None => None };
    let mut roots: Vec<String> = Vec::new();
    if let Some(data) = xdg_data_home {
        let chars = chars_of(data);
        if chars.len() > 0 && chars[0] == '/' {
            roots.push(join_path(data, "Steam"));
            roots.push(join_path(data, "steam"));
        }
    }
    let ghost first = roots@.map_values(|r: String| r@);
    if let Some(home) = home_dir {
        let locations: Vec<&str> = vec![
            ".local/share/Steam",
            ".local/share/steam",
            ".steam/root",
            ".steam/steam",
            ".steam/debian-installation",
            ".var/app/com.valvesoftware.Steam/data/Steam",
            ".var/app/com.valvesoftware.Steam/data/steam",
            ".var/app/com.valvesoftware.Steam/.local/share/Steam",
            ".var/app/com.valvesoftware.Steam/.local/share/steam",
            "snap/steam/common/.local/share/Steam",
            "snap/steam/common/.local/share/steam",
        ];
        let ghost wanted = linux_home_locations().map_values(|rest: Seq<char>| unix_join(home@, rest));
        proof {
            assert(locations@.map_values(|l: &str| l@) =~= linux_home_locations());
        }
        let mut i: usize = 0;
        while i < locations.len()
            invariant
                i <= locations@.len(),
                locations@.map_values(|l: &str| l@) == linux_home_locations(),
                wanted == linux_home_locations().map_values(|rest: Seq<char>| unix_join(home@, rest)),
                roots@.map_values(|r: String| r@) == first + wanted.subrange(0, i as int),
            decreases locations@.len() - i,
        {
            let ghost before = roots@;
            roots.push(join_path(home, locations[i]));
            proof {
                assert(locations@.map_values(|l: &str| l@)[i as int] == locations@[i as int]@);
                assert(roots@.map_values(|r: String| r@) =~= before.map_values(|r: String| r@).push(wanted[i as int]));
                assert(wanted.subrange(0, i + 1) =~= wanted.subrange(0, i as int).push(wanted[i as int]));
            }
            i = i + 1;
        }
        proof {
            assert(wanted.subrange(0, 11) =~= wanted);
        }
    }
    proof {
        if home_dir.is_none() {
            assert(roots@.map_values(|r: String| r@) =~= first + Seq::<Seq<char>>::empty());
        }
        if let Some(data) = xdg_data_home {
            if !(data@.len() > 0 && data@[0] == '/') {
                assert(first =~= Seq::<Seq<char>>::empty());
            }
        } else {
            assert(first =~= Seq::<Seq<char>>::empty());
        }
    }
    roots
}

/// The Steam installation looked for on macOS, below the home directory.
pub fn macos_steam_roots(home_dir: &str) -> (roots: Vec<String>)
    ensures
        roots@.map_values(|r: String| r@) == seq![unix_join(home_dir@, "Library/Application Support/Steam"@)],
{
    let root = join_path(home_dir, "Library/Application Support/Steam");
    let roots = vec![root];
    proof {
        assert(roots@.map_values(|r: String| r@) =~= seq![unix_join(home_dir@, "Library/Application Support/Steam"@)]);
    }
    roots
}

/// Where the component that ends at `end` starts: just after the last
/// slash before `end`.
pub open spec fn part_start(path: Seq<char>, end: int) -> int
    decreases end,
{
    if end <= 0 {
        0
    } else if path[end - 1] == '/' {
        end
    } else {
        part_start(path, end - 1)
    }
}

/// `Path::file_name` for a Unix path, looking at `path[..end]`: the last
/// component that is neither empty nor `.`, or nothing when that is `..`
/// or there is none.
pub open spec fn file_name_before(path: Seq<char>, end: int) -> Option<Seq<char>>
    decreases end,
{
    if end <= 0 || end > path.len() {
        None
    } else if path[end - 1] == '/' {
        file_name_before(path, end - 1)
    } else {
        let start = part_start(path, end);
        let part = path.subrange(start, end);
        if part == seq!['.'] {
            if 0 <= start < end {
                file_name_before(path, start)
            } else {
                None
            }
        } else if part == seq!['.', '.'] {
            None
        } else {
            Some(part)
        }
    }
}

proof fn lemma_part_start(path: Seq<char>, end: int)
    requires
        0 <= end <= path.len(),
    ensures
        0 <= part_start(path, end) <= end,
        forall|k: int| part_start(path, end) <= k < end ==> path[k] != '/',
        part_start(path, end) > 0 ==> path[part_start(path, end) - 1] == '/',
    decreases end,
{
    if end > 0 && path[end - 1] != '/' {
        lemma_part_start(path, end - 1);
    }
}

/// The steamapps directories of a Steam root: the root itself when it is
/// named `steamapps` in any ASCII case, else its `steamapps` and
/// `SteamApps` directories.
pub open spec fn steamapps_candidates(root: Seq<char>) -> Seq<Seq<char>> {
    match file_name_before(root, root.len() as int) {
        Some(name) if eq_ignore_ascii_case(name, "steamapps"@) => seq![root],
        _ => seq![unix_join(root, "steamapps"@), unix_join(root, "SteamApps"@)],
    }
}

/// The last named component of a Unix path, as `Path::file_name` gives it.
pub fn file_name(path: &str) -> (name: Option<String>)
    ensures
        name matches Some(n) ==> file_name_before(path@, path@.len() as int) == Some(n@),
        name is None ==> file_name_before(path@, path@.len() as int) is None,
{
    let chars = chars_of(path);
    let mut end = chars.len();
    loop
        invariant
            chars@ == path@,
            end <= chars@.len(),
            file_name_before(path@, path@.len() as int) == file_name_before(path@, end as int),
        decreases end,
    {
        if end == 0 {
            return None;
        }
        if chars[end - 1] == '/' {
            end = end - 1;
        } else {
            let mut start = end;
            while start > 0 && chars[start - 1] != '/'
                invariant
                    chars@ == path@,
                    start <= end <= chars@.len(),
                    part_start(path@, end as int) == part_start(path@, start as int),
                    forall|k: int| start <= k < end ==> chars@[k] != '/',
                decreases start,
            {
                start = start - 1;
            }
            proof {
                lemma_part_start(path@, end as int);
            }
            let dot = end - start == 1 && chars[start] == '.';
            let dots = end - start == 2 && chars[start] == '.' && chars[start + 1] == '.';
            proof {
                let part = path@.subrange(start as int, end as int);
                if dot {
                    assert(part =~= seq!['.']);
                } else {
                    assert(part != seq!['.']) by {
                        if part == seq!['.'] {
                            assert(part.len() == 1);
                            assert(seq!['.'][0] == '.');
                            assert(part[0] == chars@[start as int]);
                        }
                    }
                }
                if dots {
                    assert(part =~= seq!['.', '.']);
                } else {
                    assert(part != seq!['.', '.']) by {
                        if part == seq!['.', '.'] {
                            assert(part.len() == 2);
                            assert(seq!['.', '.'][0] == '.');
                            assert(seq!['.', '.'][1] == '.');
                            assert(part[0] == chars@[start as int]);
                            assert(part[1] == chars@[start + 1]);
                        }
                    }
                }
            }
            if dot {
                end = start;
            } else if dots {
                return None;
            } else {
                return Some(string_of(&chars, start, end));
            }
        }
    }
}

/// The steamapps directories to look at below a Steam root.
pub fn steamapps_directories_for(root: &str) -> (directories: Vec<String>)
    ensures
        directories@.map_values(|d: String| d@) == steamapps_candidates(root@),
{
    let name = file_name(root);
    let named = match &name {
        Some(n) => str_eq_ignore_ascii_case(n.as_str(), "steamapps"),
        None => false,
    };
    let directories = if named {
        let chars = chars_of(root);
        vec![string_of(&chars, 0, chars.len())]
    } else {
        vec![join_path(root, "steamapps"), join_path(root, "SteamApps")]
    };
    proof {
        assert(root@.subrange(0, root@.len() as int) =~= root@);
        assert(directories@.map_values(|d: String| d@) =~= steamapps_candidates(root@));
    }
    directories
}


// ---------------------------------------------------------------------------
// What discovery guarantees.
// ---------------------------------------------------------------------------
/// No two games share an app id.
pub open spec fn distinct_apps(games: Seq<(u32, Seq<char>)>) -> bool {
    forall|i: int, j: int| 0 <= i < j < games.len() ==> games[i].0 != games[j].0
}

proof fn lemma_first_of_each_distinct(games: Seq<(u32, Seq<char>)>)
    ensures
        distinct_apps(first_of_each(games)),
    decreases games.len(),
{
    if games.len() > 0 {
        let kept = first_of_each(games.drop_last());
        lemma_first_of_each_distinct(games.drop_last());
        if !has_app(kept, games.last().0) {
            let r = kept.push(games.last());
            assert forall|i: int, j: int| 0 <= i < j < r.len() implies r[i].0 != r[j].0 by {
                if j == kept.len() {
                    assert(r[i] == kept[i]);
                    if kept[i].0 == games.last().0 {
                        assert(has_app(kept, games.last().0));
                    }
                }
            }
        }
    }
}

proof fn lemma_insert_game_distinct(sorted: Seq<(u32, Seq<char>)>, game: (u32, Seq<char>))
    requires
        distinct_apps(sorted),
        !has_app(sorted, game.0),
    ensures
        distinct_apps(insert_game(sorted, game)),
    decreases sorted.len(),
{
    if sorted.len() == 0 {
    } else if !game_before(game, sorted.last()) {
        let r = sorted.push(game);
        assert forall|i: int, j: int| 0 <= i < j < r.len() implies r[i].0 != r[j].0 by {
            if j == sorted.len() {
                assert(r[i] == sorted[i]);
                if sorted[i].0 == game.0 {
                    assert(has_app(sorted, game.0));
                }
            }
        }
    } else {
        let rest = sorted.drop_last();
        assert(!has_app(rest, game.0)) by {
            if has_app(rest, game.0) {
                let k = choose|k: int| 0 <= k < rest.len() && #[trigger] rest[k].0 == game.0;
                assert(sorted[k].0 == game.0);
            }
        }
        lemma_insert_game_distinct(rest, game);
        lemma_insert_game_apps(rest, game);
        let inner = insert_game(rest, game);
        let last = sorted.last();
        assert(!has_app(inner, last.0)) by {
            if has_app(inner, last.0) {
                assert(has_app(rest, last.0) || game.0 == last.0);
                if has_app(rest, last.0) {
                    let k = choose|k: int| 0 <= k < rest.len() && #[trigger] rest[k].0 == last.0;
                    assert(sorted[k].0 == sorted[sorted.len() - 1].0);
                } else {
                    assert(sorted[sorted.len() - 1].0 == game.0);
                }
            }
        }
        let r = inner.push(last);
        assert forall|i: int, j: int| 0 <= i < j < r.len() implies r[i].0 != r[j].0 by {
            if j == inner.len() {
                assert(r[i] == inner[i]);
                if inner[i].0 == last.0 {
                    assert(has_app(inner, last.0));
                }
            }
        }
    }
}

proof fn lemma_sort_games_distinct(games: Seq<(u32, Seq<char>)>)
    requires
        distinct_apps(games),
    ensures
        distinct_apps(sort_games(games)),
    decreases games.len(),
{
    if games.len() > 0 {
        let rest = games.drop_last();
        lemma_sort_games_distinct(rest);
        lemma_sort_games_apps(rest);
        assert(!has_app(sort_games(rest), games.last().0)) by {
            if has_app(sort_games(rest), games.last().0) {
                assert(has_app(rest, games.last().0));
                let k = choose|k: int| 0 <= k < rest.len() && #[trigger] rest[k].0 == games.last().0;
                assert(games[k].0 == games[games.len() - 1].0);
            }
        }
        lemma_insert_game_distinct(sort_games(rest), games.last());
    }
}

proof fn lemma_first_of_each_apps(games: Seq<(u32, Seq<char>)>)
    ensures
        forall|id: u32| #[trigger] has_app(first_of_each(games), id) == has_app(games, id),
    decreases games.len(),
{
    if games.len() > 0 {
        let rest = games.drop_last();
        lemma_first_of_each_apps(rest);
        let kept = first_of_each(rest);
        assert forall|id: u32| #[trigger] has_app(first_of_each(games), id) == has_app(games, id) by {
            if has_app(games, id) {
                let i = choose|i: int| 0 <= i < games.len() && #[trigger] games[i].0 == id;
                if i < games.len() - 1 {
                    assert(rest[i].0 == id);
                    assert(has_app(rest, id));
                    assert(has_app(kept, id));
                    let k = choose|k: int| 0 <= k < kept.len() && #[trigger] kept[k].0 == id;
                    if !has_app(kept, games.last().0) {
                        assert(kept.push(games.last())[k].0 == id);
                    }
                } else {
                    if !has_app(kept, games.last().0) {
                        assert(kept.push(games.last())[kept.len() as int].0 == id);
                    }
                }
            }
            if has_app(first_of_each(games), id) {
                let r = first_of_each(games);
                let i = choose|i: int| 0 <= i < r.len() && #[trigger] r[i].0 == id;
                if i < kept.len() {
                    assert(kept[i].0 == id);
                    assert(has_app(kept, id));
                    let j = choose|j: int| 0 <= j < rest.len() && #[trigger] rest[j].0 == id;
                    assert(games[j].0 == id);
                } else {
                    assert(games[games.len() - 1].0 == id);
                }
            }
        }
    }
}

/// Discovery reports every app id that its scan found, and each once.
pub proof fn discovery_reports_each_game_once(scanned: Seq<(u32, Seq<char>)>, incomplete: bool)
    ensures
        discovery_result(scanned, incomplete) matches Some(games) ==> distinct_apps(games) && forall|id: u32|
            #[trigger] has_app(games, id) == has_app(scanned, id),
{
    lemma_first_of_each_distinct(scanned);
    lemma_sort_games_distinct(first_of_each(scanned));
    lemma_sort_games_apps(first_of_each(scanned));
    lemma_first_of_each_apps(scanned);
    let kept = first_of_each(scanned);
    assert forall|id: u32| #[trigger] has_app(sort_games(kept), id) == has_app(scanned, id) by {
        assert(has_app(sort_games(kept), id) == has_app(kept, id));
        assert(has_app(kept, id) == has_app(scanned, id));
    }
}


pub proof fn lemma_text_less_asymmetric(a: Seq<char>, b: Seq<char>)
    ensures
        text_less(a, b) ==> !text_less(b, a),
        !text_less(a, a),
    decreases a.len(),
{
    if a.len() > 0 && b.len() > 0 && a[0] == b[0] {
        lemma_text_less_asymmetric(a.drop_first(), b.drop_first());
    }
    if a.len() > 0 {
        lemma_text_less_asymmetric(a.drop_first(), a.drop_first());
    }
}

proof fn lemma_game_before_asymmetric(a: (u32, Seq<char>), b: (u32, Seq<char>))
    ensures
        game_before(a, b) ==> !game_before(b, a),
{
    lemma_text_less_asymmetric(unicode_lowercase(a.1), unicode_lowercase(b.1));
    lemma_text_less_asymmetric(unicode_lowercase(b.1), unicode_lowercase(a.1));
    lemma_text_less_asymmetric(a.1, b.1);
    lemma_text_less_asymmetric(b.1, a.1);
}

/// No game of the list comes before the one preceding it.
pub open spec fn in_order(games: Seq<(u32, Seq<char>)>) -> bool {
    forall|i: int| 0 <= i < games.len() - 1 ==> !game_before(#[trigger] games[i + 1], games[i])
}

proof fn lemma_insert_game_order(sorted: Seq<(u32, Seq<char>)>, game: (u32, Seq<char>))
    requires
        in_order(sorted),
    ensures
        in_order(insert_game(sorted, game)),
        insert_game(sorted, game).len() == sorted.len() + 1,
        insert_game(sorted, game).last() == if sorted.len() > 0 && game_before(game, sorted.last()) {
            sorted.last()
        } else {
            game
        },
    decreases sorted.len(),
{
    if sorted.len() == 0 {
    } else if !game_before(game, sorted.last()) {
        let r = sorted.push(game);
        assert forall|i: int| 0 <= i < r.len() - 1 implies !game_before(#[trigger] r[i + 1], r[i]) by {
            if i < sorted.len() - 1 {
                assert(r[i] == sorted[i] && r[i + 1] == sorted[i + 1]);
            }
        }
    } else {
        let rest = sorted.drop_last();
        assert(in_order(rest)) by {
            assert forall|i: int| 0 <= i < rest.len() - 1 implies !game_before(#[trigger] rest[i + 1], rest[i]) by {
                assert(rest[i] == sorted[i] && rest[i + 1] == sorted[i + 1]);
            }
        }
        lemma_insert_game_order(rest, game);
        let inner = insert_game(rest, game);
        let r = inner.push(sorted.last());
        lemma_game_before_asymmetric(game, sorted.last());
        assert forall|i: int| 0 <= i < r.len() - 1 implies !game_before(#[trigger] r[i + 1], r[i]) by {
            if i < inner.len() - 1 {
                assert(r[i] == inner[i] && r[i + 1] == inner[i + 1]);
            } else {
                assert(r[i] == inner.last());
                assert(r[i + 1] == sorted.last());
                if rest.len() > 0 && game_before(game, rest.last()) {
                    assert(rest.last() == sorted[sorted.len() - 2]);
                    assert(!game_before(sorted[sorted.len() - 2 + 1], sorted[sorted.len() - 2]));
                }
            }
        }
    }
}

proof fn lemma_sort_games_order(games: Seq<(u32, Seq<char>)>)
    ensures
        in_order(sort_games(games)),
        sort_games(games).len() == games.len(),
    decreases games.len(),
{
    if games.len() > 0 {
        lemma_sort_games_order(games.drop_last());
        lemma_insert_game_order(sort_games(games.drop_last()), games.last());
    }
}

/// Discovery reports its games in order: by lowercase name, then by name,
/// then by app id, no game coming before the one it follows.
pub proof fn discovery_reports_games_in_order(scanned: Seq<(u32, Seq<char>)>, incomplete: bool)
    ensures
        discovery_result(scanned, incomplete) matches Some(games) ==> in_order(games),
{
    lemma_sort_games_order(first_of_each(scanned));
}


/// A game as discovery may report it: a non-zero app id and a name that is
/// not empty and has no white space at either end.
pub open spec fn valid_game(game: (u32, Seq<char>)) -> bool {
    game.0 != 0 && game.1.len() > 0 && trim(game.1) == game.1
}

proof fn lemma_first_of_each_from(games: Seq<(u32, Seq<char>)>)
    ensures
        forall|i: int| 0 <= i < first_of_each(games).len() ==> games.contains(#[trigger] first_of_each(games)[i]),
    decreases games.len(),
{
    if games.len() > 0 {
        let rest = games.drop_last();
        lemma_first_of_each_from(rest);
        assert forall|i: int| 0 <= i < first_of_each(games).len() implies games.contains(
            #[trigger] first_of_each(games)[i],
        ) by {
            let g = first_of_each(games)[i];
            if i < first_of_each(rest).len() {
                assert(rest.contains(g));
                let j = choose|j: int| 0 <= j < rest.len() && rest[j] == g;
                assert(games[j] == g);
            } else {
                assert(games[games.len() - 1] == g);
            }
        }
    }
}

proof fn lemma_insert_game_from(sorted: Seq<(u32, Seq<char>)>, game: (u32, Seq<char>))
    ensures
        forall|i: int|
            0 <= i < insert_game(sorted, game).len() ==> #[trigger] insert_game(sorted, game)[i] == game
                || sorted.contains(insert_game(sorted, game)[i]),
    decreases sorted.len(),
{
    if sorted.len() > 0 && game_before(game, sorted.last()) {
        let rest = sorted.drop_last();
        lemma_insert_game_from(rest, game);
        assert forall|i: int| 0 <= i < insert_game(sorted, game).len() implies #[trigger] insert_game(sorted, game)[i]
            == game || sorted.contains(insert_game(sorted, game)[i]) by {
            let g = insert_game(sorted, game)[i];
            if i < insert_game(rest, game).len() {
                if g != game {
                    let j = choose|j: int| 0 <= j < rest.len() && rest[j] == g;
                    assert(sorted[j] == g);
                }
            } else {
                assert(sorted[sorted.len() - 1] == g);
            }
        }
    } else if sorted.len() > 0 {
        assert forall|i: int| 0 <= i < insert_game(sorted, game).len() implies #[trigger] insert_game(sorted, game)[i]
            == game || sorted.contains(insert_game(sorted, game)[i]) by {
            if i < sorted.len() {
                assert(sorted[i] == insert_game(sorted, game)[i]);
            }
        }
    }
}

proof fn lemma_sort_games_from(games: Seq<(u32, Seq<char>)>)
    ensures
        forall|i: int| 0 <= i < sort_games(games).len() ==> games.contains(#[trigger] sort_games(games)[i]),
    decreases games.len(),
{
    if games.len() > 0 {
        let rest = games.drop_last();
        lemma_sort_games_from(rest);
        lemma_insert_game_from(sort_games(rest), games.last());
        assert forall|i: int| 0 <= i < sort_games(games).len() implies games.contains(#[trigger] sort_games(games)[i]) by {
            let g = sort_games(games)[i];
            if g == games.last() {
                assert(games[games.len() - 1] == g);
            } else {
                assert(sort_games(rest).contains(g));
                let k = choose|k: int| 0 <= k < sort_games(rest).len() && sort_games(rest)[k] == g;
                assert(rest.contains(sort_games(rest)[k]));
                let j = choose|j: int| 0 <= j < rest.len() && rest[j] == g;
                assert(games[j] == g);
            }
        }
    }
}

/// Discovery reports only games that the scan found.
pub proof fn discovery_reports_only_scanned_games(scanned: Seq<(u32, Seq<char>)>, incomplete: bool)
    ensures
        discovery_result(scanned, incomplete) matches Some(games) ==> forall|i: int|
            0 <= i < games.len() ==> scanned.contains(#[trigger] games[i]),
{
    let kept = first_of_each(scanned);
    lemma_first_of_each_from(scanned);
    lemma_sort_games_from(kept);
    assert forall|i: int| 0 <= i < sort_games(kept).len() implies scanned.contains(#[trigger] sort_games(kept)[i]) by {
        let g = sort_games(kept)[i];
        assert(kept.contains(g));
        let k = choose|k: int| 0 <= k < kept.len() && kept[k] == g;
        assert(scanned.contains(kept[k]));
    }
}

/// A game read from an app manifest has a non-zero app id and a trimmed,
/// non-empty name.
pub proof fn manifest_games_are_valid(document: Seq<(Seq<char>, VdfModel)>, file_app_id: u32)
    ensures
        manifest_entry(document, file_app_id) matches Some((id, name, _)) ==> valid_game((id, name)),
{
    if let Some(state) = find_object(document, "appstate"@, 0) {
        if let Some(name) = find_text(state, "name"@, 0) {
            lemma_trim_idempotent(name);
        }
    }
}

/// Where every scanned game came from a manifest, and so is valid, every
/// game that discovery reports is valid: a non-zero app id and a trimmed,
/// non-empty name.
pub proof fn discovered_games_are_valid(scanned: Seq<(u32, Seq<char>)>, incomplete: bool)
    requires
        forall|i: int| 0 <= i < scanned.len() ==> valid_game(#[trigger] scanned[i]),
    ensures
        discovery_result(scanned, incomplete) matches Some(games) ==> forall|i: int|
            0 <= i < games.len() ==> valid_game(#[trigger] games[i]),
{
    discovery_reports_only_scanned_games(scanned, incomplete);
    if let Some(games) = discovery_result(scanned, incomplete) {
        assert forall|i: int| 0 <= i < games.len() implies valid_game(#[trigger] games[i]) by {
            assert(scanned.contains(games[i]));
            let j = choose|j: int| 0 <= j < scanned.len() && scanned[j] == games[i];
            assert(valid_game(scanned[j]));
        }
    }
}

pub proof fn lemma_text_less_transitive(a: Seq<char>, b: Seq<char>, c: Seq<char>)
    ensures
        text_less(a, b) && text_less(b, c) ==> text_less(a, c),
    decreases a.len(),
{
    if a.len() > 0 && b.len() > 0 && c.len() > 0 && a[0] == b[0] && b[0] == c[0] {
        lemma_text_less_transitive(a.drop_first(), b.drop_first(), c.drop_first());
    }
}

} // verus!
