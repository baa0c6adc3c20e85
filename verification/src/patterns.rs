//! Searching, splitting and replacing within texts, as `str` does it for
//! patterns that are texts or characters.
use vstd::prelude::*;

use crate::text::{chars_of, string_of};

verus! {

/// `pat` stands in `s` at index `i`.
pub open spec fn occurs_at(s: Seq<char>, pat: Seq<char>, i: int) -> bool {
    0 <= i && i + pat.len() <= s.len() && s.subrange(i, i + pat.len()) == pat
}

/// The first index from `i` on where a non-empty `pat` stands, or `-1`.
pub open spec fn find_from(s: Seq<char>, pat: Seq<char>, i: int) -> int
    decreases s.len() + 1 - i,
{
    if i < 0 || i + pat.len() > s.len() {
        -1
    } else if occurs_at(s, pat, i) {
        i
    } else {
        find_from(s, pat, i + 1)
    }
}

pub proof fn lemma_find_from(s: Seq<char>, pat: Seq<char>, i: int)
    requires
        0 <= i,
    ensures
        find_from(s, pat, i) == -1 || (i <= find_from(s, pat, i) && occurs_at(s, pat, find_from(s, pat, i))),
        forall|k: int| i <= k && (find_from(s, pat, i) == -1 || k < find_from(s, pat, i)) ==> !occurs_at(s, pat, k),
    decreases s.len() + 1 - i,
{
    if i + pat.len() <= s.len() && !occurs_at(s, pat, i) {
        lemma_find_from(s, pat, i + 1);
    }
}

/// The last index where a non-empty `pat` stands, or `-1`.
pub open spec fn find_last(s: Seq<char>, pat: Seq<char>, i: int) -> int
    decreases i + 1,
{
    if i < 0 {
        -1
    } else if occurs_at(s, pat, i) {
        i
    } else {
        find_last(s, pat, i - 1)
    }
}

/// `str::split` by a non-empty pattern, from index `i` on.
pub open spec fn split_from(s: Seq<char>, pat: Seq<char>, i: int) -> Seq<Seq<char>>
    decreases s.len() - i,
{
    if pat.len() == 0 || i < 0 || i > s.len() {
        Seq::empty()
    } else {
        proof {
            lemma_find_from(s, pat, i);
        }
        let k = find_from(s, pat, i);
        if k < 0 {
            seq![s.subrange(i, s.len() as int)]
        } else {
            seq![s.subrange(i, k)] + split_from(s, pat, k + pat.len())
        }
    }
}

/// `str::replace` of a non-empty pattern: every occurrence, found from the
/// left without overlapping, is replaced.
pub open spec fn replace_all(s: Seq<char>, pat: Seq<char>, rep: Seq<char>) -> Seq<char>
    decreases s.len(),
{
    if pat.len() == 0 || s.len() < pat.len() {
        s
    } else if s.subrange(0, pat.len() as int) == pat {
        rep + replace_all(s.subrange(pat.len() as int, s.len() as int), pat, rep)
    } else {
        seq![s[0]] + replace_all(s.drop_first(), pat, rep)
    }
}

/// Whether `pat` stands in `chars` at `i`.
pub fn occurs_at_index(chars: &Vec<char>, pat: &Vec<char>, i: usize) -> (found: bool)
    ensures
        found == occurs_at(chars@, pat@, i as int),
{
    let n = chars.len();
    if i > n || pat.len() > n - i {
        return false;
    }
    let mut j: usize = 0;
    while j < pat.len()
        invariant
            n == chars@.len(),
            i + pat@.len() <= chars@.len(),
            j <= pat@.len(),
            forall|k: int| 0 <= k < j ==> chars@[i + k] == pat@[k],
        decreases pat@.len() - j,
    {
        if chars[i + j] != pat[j] {
            proof {
                assert(chars@.subrange(i as int, i + pat@.len())[j as int] == chars@[i + j]);
            }
            return false;
        }
        j = j + 1;
    }
    proof {
        assert(chars@.subrange(i as int, i + pat@.len()) =~= pat@);
    }
    true
}

/// The first index from `i` on where `pat` stands.
pub fn find_index(chars: &Vec<char>, pat: &Vec<char>, i: usize) -> (found: Option<usize>)
    requires
        i <= chars@.len(),
        pat@.len() > 0,
    ensures
        match found {
            Some(k) => k as int == find_from(chars@, pat@, i as int),
            None => find_from(chars@, pat@, i as int) == -1,
        },
{
    let mut k = i;
    while k <= chars.len() && pat.len() <= chars.len() - k
        invariant
            i <= k,
            pat@.len() > 0,
            find_from(chars@, pat@, i as int) == find_from(chars@, pat@, k as int),
        decreases chars@.len() + 1 - k,
    {
        if occurs_at_index(chars, pat, k) {
            return Some(k);
        }
        k = k + 1;
    }
    None
}

/// `str::split` by a non-empty pattern.
pub fn split_by(text: &str, pattern: &str) -> (pieces: Vec<String>)
    requires
        pattern@.len() > 0,
    ensures
        crate::catalog::texts(pieces@) == split_from(text@, pattern@, 0),
{
    let chars = chars_of(text);
    let pat = chars_of(pattern);
    let ghost s = text@;
    let mut pieces: Vec<String> = Vec::new();
    let mut i: usize = 0;
    loop
        invariant
            chars@ == s,
            s == text@,
            pat@ == pattern@,
            pat@.len() > 0,
            i <= s.len(),
            crate::catalog::texts(pieces@) + split_from(s, pat@, i as int) == split_from(s, pat@, 0),
        decreases s.len() - i,
    {
        proof {
            lemma_find_from(s, pat@, i as int);
        }
        let ghost before = pieces@;
        match find_index(&chars, &pat, i) {
            None => {
                pieces.push(string_of(&chars, i, chars.len()));
                proof {
                    assert(crate::catalog::texts(pieces@) =~= crate::catalog::texts(before).push(
                        s.subrange(i as int, s.len() as int),
                    ));
                    assert(split_from(s, pat@, i as int) =~= seq![s.subrange(i as int, s.len() as int)]);
                    assert(crate::catalog::texts(pieces@) =~= crate::catalog::texts(before) + split_from(s, pat@, i as int));
                }
                return pieces;
            },
            Some(k) => {
                assert(occurs_at(s, pat@, k as int));
                let n = chars.len();
                assert(k + pat@.len() <= n);
                pieces.push(string_of(&chars, i, k));
                proof {
                    assert(crate::catalog::texts(pieces@) =~= crate::catalog::texts(before).push(
                        s.subrange(i as int, k as int),
                    ));
                    assert(split_from(s, pat@, i as int) =~= seq![s.subrange(i as int, k as int)]
                        + split_from(s, pat@, k + pat@.len()));
                    assert(crate::catalog::texts(pieces@) + split_from(s, pat@, k + pat@.len()) =~= crate::catalog::texts(before)
                        + split_from(s, pat@, i as int));
                }
                i = k + pat.len();
            },
        }
    }
}

/// `str::replace` of a non-empty pattern.
pub fn replace_text(text: &str, pattern: &str, replacement: &str) -> (replaced: String)
    requires
        pattern@.len() > 0,
    ensures
        replaced@ == replace_all(text@, pattern@, replacement@),
{
    let chars = chars_of(text);
    let pat = chars_of(pattern);
    let rep = chars_of(replacement);
    let ghost s = text@;
    let mut out: Vec<char> = Vec::new();
    let mut i: usize = 0;
    proof {
        assert(s.subrange(0, s.len() as int) =~= s);
        assert(out@ + replace_all(s, pat@, rep@) =~= replace_all(s, pat@, rep@));
    }
    while i < chars.len()
        invariant
            chars@ == s,
            s == text@,
            pat@ == pattern@,
            rep@ == replacement@,
            pat@.len() > 0,
            i <= s.len(),
            out@ + replace_all(s.subrange(i as int, s.len() as int), pat@, rep@) == replace_all(s, pat@, rep@),
        decreases s.len() - i,
    {
        let ghost rest = s.subrange(i as int, s.len() as int);
        if occurs_at_index(&chars, &pat, i) {
            let ghost old_out = out@;
            let mut j: usize = 0;
            while j < rep.len()
                invariant
                    j <= rep@.len(),
                    out@ == old_out + rep@.take(j as int),
                decreases rep@.len() - j,
            {
                out.push(rep[j]);
                proof {
                    assert(rep@.take(j + 1) =~= rep@.take(j as int).push(rep@[j as int]));
                }
                j = j + 1;
            }
            proof {
                assert(rep@.take(j as int) =~= rep@);
                assert(rest.subrange(0, pat@.len() as int) =~= s.subrange(i as int, i + pat@.len()));
                assert(rest.subrange(pat@.len() as int, rest.len() as int) =~= s.subrange(i + pat@.len(), s.len() as int));
                assert(out@ + replace_all(s.subrange(i + pat@.len(), s.len() as int), pat@, rep@) =~= old_out + replace_all(rest, pat@, rep@));
            }
            i = i + pat.len();
        } else {
            let ghost old_out = out@;
            out.push(chars[i]);
            proof {
                if rest.len() >= pat@.len() {
                    assert(rest.subrange(0, pat@.len() as int) =~= s.subrange(i as int, i + pat@.len()));
                }
                assert(rest.drop_first() =~= s.subrange(i + 1, s.len() as int));
                assert(rest[0] == chars@[i as int]);
                assert(out@ + replace_all(s.subrange(i + 1, s.len() as int), pat@, rep@) =~= old_out + replace_all(rest, pat@, rep@));
            }
            i = i + 1;
        }
    }
    proof {
        assert(s.subrange(i as int, s.len() as int) =~= Seq::<char>::empty());
        assert(out@ =~= replace_all(s, pat@, rep@));
        assert(out@.subrange(0, out@.len() as int) =~= out@);
    }
    string_of(&out, 0, out.len())
}


/// The last index at or before `from` where `pat` stands.
pub fn find_last_index(chars: &Vec<char>, pat: &Vec<char>, from: usize) -> (found: Option<usize>)
    ensures
        match found {
            Some(k) => k as int == find_last(chars@, pat@, from as int),
            None => find_last(chars@, pat@, from as int) == -1,
        },
{
    let mut k = from;
    loop
        invariant
            k <= from,
            find_last(chars@, pat@, from as int) == find_last(chars@, pat@, k as int),
        decreases k,
    {
        if occurs_at_index(chars, pat, k) {
            return Some(k);
        }
        if k == 0 {
            proof {
                assert(find_last(chars@, pat@, -1) == -1);
            }
            return None;
        }
        k = k - 1;
    }
}

} // verus!
