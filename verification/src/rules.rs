//! The rules that names, digests and texts of the mod catalog follow.
use vstd::prelude::*;
use vstd::utf8::encode_utf8;

use crate::fields::LocalizedText;
use crate::text::{chars_of, trim, trim_bounds};

verus! {

/// An ASCII letter or digit.
pub open spec fn is_alphanumeric(b: u8) -> bool {
    (0x30 <= b <= 0x39) || (0x41 <= b <= 0x5a) || (0x61 <= b <= 0x7a)
}

/// A byte that an identifier may hold: an ASCII letter or digit, `.`, `_`
/// or `-`.
pub open spec fn is_identifier_byte(b: u8) -> bool {
    is_alphanumeric(b) || b == 0x2e || b == 0x5f || b == 0x2d
}

/// A byte that a release tag or asset name may hold: those of an identifier
/// and `+`.
pub open spec fn is_release_byte(b: u8) -> bool {
    is_identifier_byte(b) || b == 0x2b
}

/// An ASCII hexadecimal digit, in either case.
pub open spec fn is_hex_digit(b: u8) -> bool {
    (0x30 <= b <= 0x39) || (0x41 <= b <= 0x46) || (0x61 <= b <= 0x66)
}

/// An ASCII digit or a lowercase hexadecimal letter.
pub open spec fn is_lower_hex_digit(b: u8) -> bool {
    (0x30 <= b <= 0x39) || (0x61 <= b <= 0x66)
}

/// A mod identifier: 1 to 96 bytes, each a letter, digit, `.`, `_` or `-`.
pub open spec fn spec_valid_identifier(s: Seq<char>) -> bool {
    let b = encode_utf8(s);
    &&& 0 < b.len() <= 96
    &&& forall|i: int| 0 <= i < b.len() ==> is_identifier_byte(#[trigger] b[i])
}

/// A plugin GUID: an identifier that holds a `.`.
pub open spec fn spec_valid_guid(s: Seq<char>) -> bool {
    spec_valid_identifier(s) && s.contains('.')
}

/// A release tag or asset name: 1 to 180 bytes of identifier bytes or `+`.
pub open spec fn spec_valid_release_part(s: Seq<char>) -> bool {
    let b = encode_utf8(s);
    &&& 0 < b.len() <= 180
    &&& forall|i: int| 0 <= i < b.len() ==> is_release_byte(#[trigger] b[i])
}

/// One segment of a repository name: 1 to 100 identifier bytes, the first a
/// letter or digit.
pub open spec fn valid_repository_segment(b: Seq<u8>) -> bool {
    &&& 0 < b.len() <= 100
    &&& is_alphanumeric(b[0])
    &&& forall|i: int| 0 <= i < b.len() ==> is_identifier_byte(#[trigger] b[i])
}

/// The index of the first byte `c` in `b`, or `-1`.
pub open spec fn byte_index(b: Seq<u8>, c: u8, i: int) -> int
    decreases b.len() - i,
{
    if i < 0 || i >= b.len() {
        -1
    } else if b[i] == c {
        i
    } else {
        byte_index(b, c, i + 1)
    }
}

/// A GitHub repository `owner/name`: exactly one `/` between two valid
/// segments.
pub open spec fn spec_valid_repository(s: Seq<char>) -> bool {
    let b = encode_utf8(s);
    let k = byte_index(b, 0x2f, 0);
    &&& k >= 0
    &&& valid_repository_segment(b.subrange(0, k))
    &&& valid_repository_segment(b.subrange(k + 1, b.len() as int))
}

/// A SHA-256 digest: 64 hexadecimal digits in either case.
pub open spec fn spec_valid_sha256(s: Seq<char>) -> bool {
    let b = encode_utf8(s);
    &&& b.len() == 64
    &&& forall|i: int| 0 <= i < b.len() ==> is_hex_digit(#[trigger] b[i])
}

/// A SHA-256 digest in lowercase.
pub open spec fn spec_valid_lower_sha256(s: Seq<char>) -> bool {
    let b = encode_utf8(s);
    &&& b.len() == 64
    &&& forall|i: int| 0 <= i < b.len() ==> is_lower_hex_digit(#[trigger] b[i])
}

/// A displayed text: not blank, at most 512 bytes, no NUL.
pub open spec fn valid_display_text(s: Seq<char>) -> bool {
    &&& trim(s).len() > 0
    &&& encode_utf8(s).len() <= 512
    &&& !s.contains('\0')
}

/// A localized text whose English text and German text, if any, are valid.
pub open spec fn spec_valid_localized_text(value: LocalizedText) -> bool {
    &&& valid_display_text(value.en@)
    &&& (value.de matches Some(de) ==> valid_display_text(de@))
}

/// A section or key of a configuration file: not blank, at most 128 bytes,
/// none of CR, LF, `[`, `]` and `=`.
pub open spec fn spec_valid_config_name(s: Seq<char>) -> bool {
    &&& trim(s).len() > 0
    &&& encode_utf8(s).len() <= 128
    &&& forall|i: int|
        0 <= i < s.len() ==> #[trigger] s[i] != '\r' && s[i] != '\n' && s[i] != '[' && s[i] != ']'
            && s[i] != '='
}

/// Whether every byte of `b[from..to]` passes `class`: 0 identifier,
/// 1 release, 2 hexadecimal, 3 lowercase hexadecimal.
fn all_bytes(b: &[u8], from: usize, to: usize, class: u8) -> (all: bool)
    requires
        from <= to <= b@.len(),
        class <= 3,
    ensures
        all == forall|i: int|
            from <= i < to ==> (if class == 0 {
                is_identifier_byte(#[trigger] b@[i])
            } else if class == 1 {
                is_release_byte(b@[i])
            } else if class == 2 {
                is_hex_digit(b@[i])
            } else {
                is_lower_hex_digit(b@[i])
            }),
{
    let mut i = from;
    while i < to
        invariant
            from <= i <= to <= b@.len(),
            class <= 3,
            forall|j: int|
                from <= j < i ==> (if class == 0 {
                    is_identifier_byte(#[trigger] b@[j])
                } else if class == 1 {
                    is_release_byte(b@[j])
                } else if class == 2 {
                    is_hex_digit(b@[j])
                } else {
                    is_lower_hex_digit(b@[j])
                }),
        decreases to - i,
    {
        let c = b[i];
        let alnum = (0x30 <= c && c <= 0x39) || (0x41 <= c && c <= 0x5a) || (0x61 <= c && c <= 0x7a);
        let ok = if class == 0 {
            alnum || c == 0x2e || c == 0x5f || c == 0x2d
        } else if class == 1 {
            alnum || c == 0x2e || c == 0x5f || c == 0x2d || c == 0x2b
        } else if class == 2 {
            (0x30 <= c && c <= 0x39) || (0x41 <= c && c <= 0x46) || (0x61 <= c && c <= 0x66)
        } else {
            (0x30 <= c && c <= 0x39) || (0x61 <= c && c <= 0x66)
        };
        if !ok {
            return false;
        }
        i = i + 1;
    }
    true
}

/// Whether a text is a valid mod identifier.
pub fn valid_identifier(value: &str) -> (valid: bool)
    ensures
        valid == spec_valid_identifier(value@),
{
    let b = value.as_bytes();
    b.len() > 0 && b.len() <= 96 && all_bytes(b, 0, b.len(), 0)
}

/// Whether a text is a valid plugin GUID.
pub fn valid_guid(value: &str) -> (valid: bool)
    ensures
        valid == spec_valid_guid(value@),
{
    valid_identifier(value) && contains_char(value, '.')
}

/// Whether a text holds a character.
pub fn contains_char(value: &str, c: char) -> (found: bool)
    ensures
        found == value@.contains(c),
{
    let chars = chars_of(value);
    let mut i: usize = 0;
    while i < chars.len()
        invariant
            chars@ == value@,
            i <= chars@.len(),
            forall|j: int| 0 <= j < i ==> chars@[j] != c,
        decreases chars@.len() - i,
    {
        if chars[i] == c {
            proof {
                assert(value@[i as int] == c);
            }
            return true;
        }
        i = i + 1;
    }
    false
}

/// Whether a text is a valid release tag or asset name.
pub fn valid_release_part(value: &str) -> (valid: bool)
    ensures
        valid == spec_valid_release_part(value@),
{
    let b = value.as_bytes();
    b.len() > 0 && b.len() <= 180 && all_bytes(b, 0, b.len(), 1)
}

fn valid_segment(b: &[u8], from: usize, to: usize) -> (valid: bool)
    requires
        from <= to <= b@.len(),
    ensures
        valid == valid_repository_segment(b@.subrange(from as int, to as int)),
{
    let ghost s = b@.subrange(from as int, to as int);
    if to - from == 0 || to - from > 100 {
        return false;
    }
    let c = b[from];
    let alnum = (0x30 <= c && c <= 0x39) || (0x41 <= c && c <= 0x5a) || (0x61 <= c && c <= 0x7a);
    let all = all_bytes(b, from, to, 0);
    proof {
        assert(s[0] == b@[from as int]);
        if all {
            assert forall|i: int| 0 <= i < s.len() implies is_identifier_byte(#[trigger] s[i]) by {
                assert(s[i] == b@[from + i]);
            }
        } else {
            let j = choose|j: int| from <= j < to && !is_identifier_byte(#[trigger] b@[j]);
            assert(s[j - from] == b@[j]);
        }
    }
    alnum && all
}

/// Whether a text names a GitHub repository as `owner/name`.
pub fn valid_repository(value: &str) -> (valid: bool)
    ensures
        valid == spec_valid_repository(value@),
{
    let b = value.as_bytes();
    let mut k: usize = 0;
    while k < b.len() && b[k] != 0x2f
        invariant
            k <= b@.len(),
            byte_index(b@, 0x2f, 0) == byte_index(b@, 0x2f, k as int),
        decreases b@.len() - k,
    {
        k = k + 1;
    }
    if k == b.len() {
        return false;
    }
    valid_segment(b, 0, k) && valid_segment(b, k + 1, b.len())
}

/// Whether a text is a SHA-256 digest in hexadecimal.
pub fn valid_sha256(value: &str) -> (valid: bool)
    ensures
        valid == spec_valid_sha256(value@),
{
    let b = value.as_bytes();
    b.len() == 64 && all_bytes(b, 0, b.len(), 2)
}

/// Whether a text is a SHA-256 digest in lowercase hexadecimal.
pub fn valid_lower_sha256(value: &str) -> (valid: bool)
    ensures
        valid == spec_valid_lower_sha256(value@),
{
    let b = value.as_bytes();
    b.len() == 64 && all_bytes(b, 0, b.len(), 3)
}

fn valid_text(value: &str) -> (valid: bool)
    ensures
        valid == valid_display_text(value@),
{
    let chars = chars_of(value);
    let (a, z) = trim_bounds(&chars, 0, chars.len());
    proof {
        assert(chars@.subrange(0, chars@.len() as int) =~= value@);
        assert(trim(value@).len() == z - a);
    }
    a < z && value.as_bytes().len() <= 512 && !contains_char(value, '\0')
}

/// Whether a localized text is valid.
pub fn valid_localized_text(value: &LocalizedText) -> (valid: bool)
    ensures
        valid == spec_valid_localized_text(*value),
{
    valid_text(value.en.as_str()) && match &value.de {
        Some(de) => valid_text(de.as_str()),
        None => true,
    }
}

/// Whether a text may name a section or key of a configuration file.
pub fn valid_config_name(value: &str) -> (valid: bool)
    ensures
        valid == spec_valid_config_name(value@),
{
    let chars = chars_of(value);
    let (a, z) = trim_bounds(&chars, 0, chars.len());
    proof {
        assert(chars@.subrange(0, chars@.len() as int) =~= value@);
        assert(trim(value@).len() == z - a);
    }
    if a == z || value.as_bytes().len() > 128 {
        return false;
    }
    let mut i: usize = 0;
    while i < chars.len()
        invariant
            chars@ == value@,
            i <= chars@.len(),
            forall|j: int|
                0 <= j < i ==> #[trigger] chars@[j] != '\r' && chars@[j] != '\n' && chars@[j] != '['
                    && chars@[j] != ']' && chars@[j] != '=',
        decreases chars@.len() - i,
    {
        let c = chars[i];
        if c == '\r' || c == '\n' || c == '[' || c == ']' || c == '=' {
            return false;
        }
        i = i + 1;
    }
    true
}

} // verus!
