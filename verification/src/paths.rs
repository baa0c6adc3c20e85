//! Relative paths inside a game directory, read by the rules of Windows
//! paths (the platform that mods and BepInEx are installed on): `/` and `\`
//! both separate components, a drive such as `C:` or a leading separator
//! makes a path rooted, `..` climbs, and `.` stands for the current
//! directory only at the start.
use vstd::prelude::*;

use crate::error::{bepinex_error, mod_error, ErrorResponse};
use crate::text::chars_of;

verus! {

/// A path separator.
pub open spec fn is_separator(c: char) -> bool {
    c == '/' || c == '\\'
}

/// The index of the first separator in `s[i..]`, or the length of `s`.
pub open spec fn segment_end(s: Seq<char>, i: int) -> int
    decreases s.len() - i,
{
    if i < 0 || i >= s.len() {
        s.len() as int
    } else if is_separator(s[i]) {
        i
    } else {
        segment_end(s, i + 1)
    }
}

pub proof fn lemma_segment_end(s: Seq<char>, i: int)
    requires
        0 <= i <= s.len(),
    ensures
        i <= segment_end(s, i) <= s.len(),
        segment_end(s, i) < s.len() ==> is_separator(s[segment_end(s, i)]),
        forall|k: int| i <= k < segment_end(s, i) ==> !is_separator(s[k]),
    decreases s.len() - i,
{
    if i < s.len() && !is_separator(s[i]) {
        lemma_segment_end(s, i + 1);
    }
}

/// The texts between separators from index `i` on, empty ones included.
pub open spec fn segments_from(s: Seq<char>, i: int) -> Seq<Seq<char>>
    decreases s.len() - i,
{
    if 0 <= i <= s.len() {
        proof {
            lemma_segment_end(s, i);
        }
        let e = segment_end(s, i);
        if e < s.len() {
            seq![s.subrange(i, e)] + segments_from(s, e + 1)
        } else {
            seq![s.subrange(i, e)]
        }
    } else {
        Seq::empty()
    }
}

/// The texts between the separators of a path.
pub open spec fn segments(s: Seq<char>) -> Seq<Seq<char>> {
    segments_from(s, 0)
}

/// The path starts with a drive such as `C:`.
pub open spec fn has_drive_prefix(s: Seq<char>) -> bool {
    s.len() >= 2 && s[1] == ':' && (('a' <= s[0] <= 'z') || ('A' <= s[0] <= 'Z'))
}

/// Every component of the path is a plain name: no drive, no root, no
/// leading `.`, no `..`. The empty path has no components.
pub open spec fn components_normal(s: Seq<char>) -> bool {
    s.len() == 0 || {
        &&& !is_separator(s[0])
        &&& !has_drive_prefix(s)
        &&& segments(s)[0] != seq!['.']
        &&& !segments(s).contains(seq!['.', '.'])
    }
}

/// A non-empty path whose components are all plain names.
pub open spec fn safe_relative_path(s: Seq<char>) -> bool {
    s.len() > 0 && components_normal(s)
}

/// The facts that decide whether a path is a safe relative path: whether
/// its components are plain names, and its first component.
pub fn inspect_path(path: &str) -> (facts: (bool, Vec<char>))
    ensures
        facts.0 == components_normal(path@),
        path@.len() > 0 ==> facts.1@ == segments(path@)[0],
{
    let chars = chars_of(path);
    let ghost s = path@;
    if chars.len() == 0 {
        return (true, Vec::new());
    }
    if chars[0] == '/' || chars[0] == '\\' {
        proof {
            lemma_segments_first(s);
        }
        return (false, first_segment(&chars));
    }
    if chars.len() >= 2 && chars[1] == ':' && (('a' <= chars[0] && chars[0] <= 'z') || ('A'
        <= chars[0] && chars[0] <= 'Z')) {
        proof {
            lemma_segments_first(s);
        }
        return (false, first_segment(&chars));
    }
    let first = first_segment(&chars);
    proof {
        lemma_segments_first(s);
    }
    if first.len() == 1 && first[0] == '.' {
        proof {
            assert(first@ =~= seq!['.']);
        }
        return (false, first);
    }
    let mut i: usize = 0;
    proof {
        assert(segments(s).subrange(0, segments(s).len() as int) =~= segments(s));
    }
    loop
        invariant
            chars@ == s,
            s == path@,
            s.len() > 0,
            !is_separator(s[0]),
            !has_drive_prefix(s),
            segments(s)[0] != seq!['.'],
            first@ == segments(s)[0],
            i <= s.len(),
            segments_from(s, i as int).len() > 0,
            segments_from(s, i as int).len() <= segments(s).len(),
            segments(s).subrange(
                segments(s).len() - segments_from(s, i as int).len(),
                segments(s).len() as int,
            ) == segments_from(s, i as int),
            forall|j: int|
                0 <= j < segments(s).len() - segments_from(s, i as int).len() ==> #[trigger] segments(
                    s,
                )[j] != seq!['.', '.'],
        decreases s.len() - i,
    {
        let mut e = i;
        while e < chars.len() && chars[e] != '/' && chars[e] != '\\'
            invariant
                chars@ == s,
                i <= e <= s.len(),
                segment_end(s, i as int) == segment_end(s, e as int),
            decreases s.len() - e,
        {
            e = e + 1;
        }
        proof {
            lemma_segment_end(s, i as int);
        }
        let ghost k = segments(s).len() - segments_from(s, i as int).len();
        let ghost seg = s.subrange(i as int, e as int);
        let parent = e - i == 2 && chars[i] == '.' && chars[i + 1] == '.';
        proof {
            let rest: Seq<Seq<char>> = if e < s.len() {
                segments_from(s, e + 1)
            } else {
                Seq::empty()
            };
            assert(segments_from(s, i as int) =~= seq![seg] + rest);
            assert(segments(s)[k] == segments(s).subrange(k, segments(s).len() as int)[0]);
            assert(segments(s)[k] == seg);
            assert(seg.len() == e - i);
            if parent {
                assert(seg =~= seq!['.', '.']);
            } else {
                if e - i == 2 {
                    assert(seg[0] == chars@[i as int]);
                    assert(seg[1] == chars@[i + 1]);
                }
                assert(seg != seq!['.', '.']);
            }
        }
        if parent {
            return (false, first);
        }
        if e == chars.len() {
            proof {
                assert(k == segments(s).len() - 1);
                assert forall|j: int| 0 <= j < segments(s).len() implies segments(s)[j] != seq![
                    '.',
                    '.',
                ] by {}
            }
            return (true, first);
        }
        proof {
            assert(segments_from(s, i as int) =~= seq![seg] + segments_from(s, e + 1));
            assert(segments(s).subrange(k + 1, segments(s).len() as int) =~= segments(s).subrange(
                k,
                segments(s).len() as int,
            ).drop_first());
        }
        i = e + 1;
    }
}

proof fn lemma_segments_first(s: Seq<char>)
    requires
        s.len() > 0,
    ensures
        segments(s).len() > 0,
        segments(s)[0] == s.subrange(0, segment_end(s, 0)),
{
    lemma_segment_end(s, 0);
}

/// The text before the first separator.
fn first_segment(chars: &Vec<char>) -> (first: Vec<char>)
    ensures
        first@ == chars@.subrange(0, segment_end(chars@, 0)),
{
    let mut first: Vec<char> = Vec::new();
    let mut i: usize = 0;
    while i < chars.len() && chars[i] != '/' && chars[i] != '\\'
        invariant
            i <= chars@.len(),
            first@ == chars@.subrange(0, i as int),
            segment_end(chars@, 0) == segment_end(chars@, i as int),
        decreases chars@.len() - i,
    {
        first.push(chars[i]);
        proof {
            assert(chars@.subrange(0, i + 1) =~= chars@.subrange(0, i as int).push(chars@[i as int]));
        }
        i = i + 1;
    }
    first
}

/// Checks that a path names a file below a directory: not empty, and made
/// of plain names only; anything else is `mod_integrity_error`.
pub fn validate_relative_path(path: &str) -> (result: Result<(), ErrorResponse>)
    ensures
        result is Ok <==> safe_relative_path(path@),
        result matches Err(e) ==> e.code@ == "mod_integrity_error"@,
{
    let (normal, _) = inspect_path(path);
    if path.is_empty() || !normal {
        return Err(mod_error("mod_integrity_error", "a mod path was unsafe"));
    }
    Ok(())
}

/// The names that a BepInEx package may hold at its top level.
pub open spec fn allowed_top_level(name: Seq<char>) -> bool {
    ||| name == seq!['B', 'e', 'p', 'I', 'n', 'E', 'x']
    ||| name == seq!['d', 'o', 't', 'n', 'e', 't']
    ||| name == seq!['.', 'd', 'o', 'o', 'r', 's', 't', 'o', 'p', '_', 'v', 'e', 'r', 's', 'i', 'o', 'n']
    ||| name == seq!['d', 'o', 'o', 'r', 's', 't', 'o', 'p', '_', 'c', 'o', 'n', 'f', 'i', 'g', '.', 'i', 'n', 'i']
    ||| name == seq!['w', 'i', 'n', 'h', 't', 't', 'p', '.', 'd', 'l', 'l']
    ||| name == seq!['c', 'h', 'a', 'n', 'g', 'e', 'l', 'o', 'g', '.', 't', 'x', 't']
    ||| name == seq!['R', 'E', 'A', 'D', 'M', 'E', '.', 'm', 'd']
    ||| name == seq!['L', 'I', 'C', 'E', 'N', 'S', 'E']
}

/// A path inside a BepInEx package: plain names only, and a first name
/// that a package may hold at its top level.
pub open spec fn valid_package_path(s: Seq<char>) -> bool {
    components_normal(s) && s.len() > 0 && allowed_top_level(segments(s)[0])
}

fn is_allowed_top_level(name: &Vec<char>) -> (allowed: bool)
    ensures
        allowed == allowed_top_level(name@),
{
    let n0 = "BepInEx";
    let n1 = "dotnet";
    let n2 = ".doorstop_version";
    let n3 = "doorstop_config.ini";
    let n4 = "winhttp.dll";
    let n5 = "changelog.txt";
    let n6 = "README.md";
    let n7 = "LICENSE";
    proof {
        reveal_strlit("BepInEx");
        reveal_strlit("dotnet");
        reveal_strlit(".doorstop_version");
        reveal_strlit("doorstop_config.ini");
        reveal_strlit("winhttp.dll");
        reveal_strlit("changelog.txt");
        reveal_strlit("README.md");
        reveal_strlit("LICENSE");
        assert(n0@ =~= seq!['B', 'e', 'p', 'I', 'n', 'E', 'x']);
        assert(n1@ =~= seq!['d', 'o', 't', 'n', 'e', 't']);
        assert(n2@ =~= seq!['.', 'd', 'o', 'o', 'r', 's', 't', 'o', 'p', '_', 'v', 'e', 'r', 's', 'i', 'o', 'n']);
        assert(n3@ =~= seq!['d', 'o', 'o', 'r', 's', 't', 'o', 'p', '_', 'c', 'o', 'n', 'f', 'i', 'g', '.', 'i', 'n', 'i']);
        assert(n4@ =~= seq!['w', 'i', 'n', 'h', 't', 't', 'p', '.', 'd', 'l', 'l']);
        assert(n5@ =~= seq!['c', 'h', 'a', 'n', 'g', 'e', 'l', 'o', 'g', '.', 't', 'x', 't']);
        assert(n6@ =~= seq!['R', 'E', 'A', 'D', 'M', 'E', '.', 'm', 'd']);
        assert(n7@ =~= seq!['L', 'I', 'C', 'E', 'N', 'S', 'E']);
    }
    same_chars(name, &chars_of(n0)) || same_chars(name, &chars_of(n1)) || same_chars(
        name,
        &chars_of(n2),
    ) || same_chars(name, &chars_of(n3)) || same_chars(name, &chars_of(n4)) || same_chars(
        name,
        &chars_of(n5),
    ) || same_chars(name, &chars_of(n6)) || same_chars(name, &chars_of(n7))
}

/// Whether two character lists are equal.
pub fn same_chars(a: &Vec<char>, b: &Vec<char>) -> (same: bool)
    ensures
        same == (a@ == b@),
{
    if a.len() != b.len() {
        return false;
    }
    let mut i: usize = 0;
    while i < a.len()
        invariant
            a@.len() == b@.len(),
            i <= a@.len(),
            forall|j: int| 0 <= j < i ==> a@[j] == b@[j],
        decreases a@.len() - i,
    {
        if a[i] != b[i] {
            return false;
        }
        i = i + 1;
    }
    proof {
        assert(a@ =~= b@);
    }
    true
}

/// Checks a path inside a BepInEx package: a path that leaves the game
/// directory or holds anything but the package's own top-level entries is
/// `bepinex_integrity_error`.
pub fn validate_archive_path(path: &str) -> (result: Result<(), ErrorResponse>)
    ensures
        result is Ok <==> valid_package_path(path@),
        result matches Err(e) ==> e.code@ == "bepinex_integrity_error"@,
{
    let (normal, first) = inspect_path(path);
    if !normal {
        return Err(bepinex_error("bepinex_integrity_error", "the BepInEx archive contained an unsafe path"));
    }
    if path.is_empty() {
        return Err(bepinex_error("bepinex_integrity_error", "the BepInEx archive contained an invalid path"));
    }
    if !is_allowed_top_level(&first) {
        return Err(
            bepinex_error(
                "bepinex_integrity_error",
                "the BepInEx archive contained an unexpected top-level entry",
            ),
        );
    }
    Ok(())
}

} // verus!
