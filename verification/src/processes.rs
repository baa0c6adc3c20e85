//! Whether a game is running, from the processes that Windows lists: a
//! process counts where its file name is the game executable's and its
//! image is the game executable, or its image cannot be read.
use vstd::prelude::*;

use crate::error::{bepinex_error, ErrorResponse};
use crate::steam::{lowercase, unicode_lowercase};
use crate::text::{chars_of, eq_ignore_ascii_case, str_eq_ignore_ascii_case, str_equal, string_of};

verus! {

/// The prefix of verbatim Windows paths, which canonical paths carry.
pub const VERBATIM_PREFIX: &'static str = "\\\\?\\";

/// The path without the verbatim prefixes it starts with.
pub open spec fn without_verbatim_prefixes(path: Seq<char>) -> Seq<char>
    decreases path.len(),
{
    if path.len() >= 4 && path.take(4) == VERBATIM_PREFIX@ {
        without_verbatim_prefixes(path.skip(4))
    } else {
        path
    }
}

/// The path with each forward slash turned into a backslash.
pub open spec fn with_backslashes(path: Seq<char>) -> Seq<char> {
    Seq::new(path.len(), |i: int| if path[i] == '/' { '\\' } else { path[i] })
}

/// A canonical Windows path in the form executables are compared in:
/// without verbatim prefixes, with backslashes, in lowercase.
pub open spec fn normalized_windows_path(path: Seq<char>) -> Seq<char> {
    unicode_lowercase(with_backslashes(without_verbatim_prefixes(path)))
}

/// The form of a canonical Windows path that executables are compared in:
/// the verbatim prefixes are dropped, forward slashes become backslashes,
/// and the path is lowercased.
pub fn normalize_windows_path(path: &str) -> (normalized: String)
    ensures
        normalized@ == normalized_windows_path(path@),
{
    let chars = chars_of(path);
    let n = chars.len();
    let mut start: usize = 0;
    proof {
        assert(path@.skip(0) =~= path@);
    }
    while n - start >= 4 && chars[start] == '\\' && chars[start + 1] == '\\' && chars[start + 2] == '?'
        && chars[start + 3] == '\\'
        invariant
            chars@ == path@,
            n == chars@.len(),
            start <= n,
            without_verbatim_prefixes(path@) == without_verbatim_prefixes(path@.skip(start as int)),
        decreases n - start,
    {
        proof {
            reveal_strlit("\\\\?\\");
            let rest = path@.skip(start as int);
            assert(rest.take(4) =~= VERBATIM_PREFIX@);
            assert(rest.skip(4) =~= path@.skip(start + 4));
        }
        start = start + 4;
    }
    let ghost rest = path@.skip(start as int);
    proof {
        reveal_strlit("\\\\?\\");
        if rest.len() >= 4 && rest.take(4) == VERBATIM_PREFIX@ {
            assert(rest.take(4)[0] == chars@[start as int]);
            assert(rest.take(4)[1] == chars@[start + 1]);
            assert(rest.take(4)[2] == chars@[start + 2]);
            assert(rest.take(4)[3] == chars@[start + 3]);
        }
        assert(without_verbatim_prefixes(path@) == rest);
    }
    let mut replaced: Vec<char> = Vec::new();
    let mut i: usize = start;
    while i < n
        invariant
            chars@ == path@,
            n == chars@.len(),
            start <= i <= n,
            rest == path@.skip(start as int),
            replaced@ =~= with_backslashes(rest).take(i - start),
        decreases n - i,
    {
        let c = chars[i];
        if c == '/' {
            replaced.push('\\');
        } else {
            replaced.push(c);
        }
        proof {
            assert(with_backslashes(rest).take(i + 1 - start) =~= with_backslashes(rest).take(i - start).push(
                replaced@.last(),
            ));
        }
        i = i + 1;
    }
    proof {
        assert(with_backslashes(rest).take(n - start) =~= with_backslashes(rest));
    }
    let joined = string_of(&replaced, 0, replaced.len());
    proof {
        assert(joined@ =~= with_backslashes(rest));
    }
    lowercase(joined.as_str())
}

/// A process that Windows lists: the file name of its executable, and the
/// normalized path of its image where the process could be opened and its
/// image read (only needed for processes whose name is the game's).
#[derive(Clone, Debug)]
pub struct ProcessImage {
    pub name: String,
    pub image: Option<String>,
}

/// Whether a process may be the game: its name is the executable's, up to
/// ASCII case, and its image is the executable or cannot be read.
pub open spec fn may_be_game(process: ProcessImage, executable_name: Seq<char>, executable_path: Seq<char>) -> bool {
    &&& eq_ignore_ascii_case(process.name@, executable_name)
    &&& match process.image {
        Some(image) => image@ == executable_path,
        None => true,
    }
}

/// Whether one of the processes may be the game whose executable has file
/// name `executable_name` and normalized path `executable_path`.
pub fn game_is_running(processes: &Vec<ProcessImage>, executable_name: &str, executable_path: &str) -> (running: bool)
    ensures
        running == exists|i: int|
            0 <= i < processes@.len() && may_be_game(#[trigger] processes@[i], executable_name@, executable_path@),
{
    let mut i: usize = 0;
    while i < processes.len()
        invariant
            i <= processes@.len(),
            forall|j: int|
                0 <= j < i ==> !may_be_game(#[trigger] processes@[j], executable_name@, executable_path@),
        decreases processes@.len() - i,
    {
        let process = &processes[i];
        if str_eq_ignore_ascii_case(process.name.as_str(), executable_name) {
            let matched = match &process.image {
                Some(image) => str_equal(image.as_str(), executable_path),
                None => true,
            };
            if matched {
                proof {
                    assert(may_be_game(processes@[i as int], executable_name@, executable_path@));
                }
                return true;
            }
        }
        i = i + 1;
    }
    false
}

/// Refuses to change a game while it runs: `bepinex_game_running` where one
/// of the processes may be the game.
pub fn ensure_game_stopped(processes: &Vec<ProcessImage>, executable_name: &str, executable_path: &str) -> (checked:
    Result<(), ErrorResponse>)
    ensures
        checked is Ok <==> !exists|i: int|
            0 <= i < processes@.len() && may_be_game(#[trigger] processes@[i], executable_name@, executable_path@),
        checked matches Err(e) ==> e.code@ == "bepinex_game_running"@,
{
    if game_is_running(processes, executable_name, executable_path) {
        Err(bepinex_error("bepinex_game_running", "close the game before installing BepInEx"))
    } else {
        Ok(())
    }
}

} // verus!
