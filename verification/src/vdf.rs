use vstd::prelude::*;
use vstd::slice::slice_to_vec;
use vstd::utf8::{decode_utf8, valid_utf8};

use crate::text::{ascii_fold_eq_bytes, eq_ignore_ascii_case, utf8_string};

verus! {

/// Nested objects deeper than this are rejected.
pub const VDF_MAX_DEPTH: usize = 64;

/// A value of a Valve Data Format (VDF/KeyValues) document: a text token or a
/// nested object.
#[derive(Debug)]
pub enum VdfValue {
    Text(String),
    Object(Vec<(String, VdfValue)>),
}

/// An object of a VDF document: its entries in document order.
pub type VdfObject = Vec<(String, VdfValue)>;

/// The mathematical model of a VDF value.
pub enum VdfModel {
    Text(Seq<char>),
    Object(Seq<(Seq<char>, VdfModel)>),
}

impl VdfValue {
    pub open spec fn model(&self) -> VdfModel
        decreases self,
    {
        match self {
            VdfValue::Text(text) => VdfModel::Text(text@),
            VdfValue::Object(entries) => VdfModel::Object(
                Seq::new(
                    entries@.len(),
                    |i: int|
                        if 0 <= i < entries@.len() {
                            (entries@[i].0@, entries@[i].1.model())
                        } else {
                            (Seq::empty(), VdfModel::Text(Seq::empty()))
                        },
                ),
            ),
        }
    }
}

/// The model of the entries of an object.
pub open spec fn entries_model(entries: Seq<(String, VdfValue)>) -> Seq<(Seq<char>, VdfModel)> {
    Seq::new(entries.len(), |i: int| (entries[i].0@, entries[i].1.model()))
}

pub proof fn lemma_object_model(entries: VdfObject)
    ensures
        VdfValue::Object(entries).model() == VdfModel::Object(entries_model(entries@)),
{
    assert(entries_model(entries@) =~= match VdfValue::Object(entries).model() {
        VdfModel::Object(m) => m,
        _ => Seq::empty(),
    });
}

// ---------------------------------------------------------------------------
// The grammar, as functions from a byte string and a position to what is
// recognised there and the position after it.
// ---------------------------------------------------------------------------
/// `u8::is_ascii_whitespace`: space, tab, line feed, form feed, carriage return.
pub open spec fn is_ascii_whitespace(byte: u8) -> bool {
    byte == 0x20u8 || byte == 0x09u8 || byte == 0x0au8 || byte == 0x0cu8 || byte == 0x0du8
}

/// The two bytes `a b` stand at position `p`.
pub open spec fn pair_at(s: Seq<u8>, p: int, a: u8, b: u8) -> bool {
    0 <= p && p + 1 < s.len() && s[p] == a && s[p + 1] == b
}

/// The first position at or after `p` that does not hold ASCII whitespace.
pub open spec fn whitespace_end(s: Seq<u8>, p: int) -> int
    decreases s.len() - p,
{
    if 0 <= p < s.len() && is_ascii_whitespace(s[p]) {
        whitespace_end(s, p + 1)
    } else {
        p
    }
}

/// The end of a `//` comment whose text starts at `p`: the next line feed
/// (which is not consumed) or the end of the input.
pub open spec fn line_comment_end(s: Seq<u8>, p: int) -> int
    decreases s.len() - p,
{
    if 0 <= p < s.len() && s[p] != 0x0au8 {
        line_comment_end(s, p + 1)
    } else {
        p
    }
}

/// The position after the `*/` that closes a block comment whose text starts
/// at `p`, or `None` when the comment is never closed.
pub open spec fn block_comment_end(s: Seq<u8>, p: int) -> Option<int>
    decreases s.len() - p,
{
    if pair_at(s, p, 0x2au8, 0x2fu8) {
        Some(p + 2)
    } else if 0 <= p < s.len() {
        block_comment_end(s, p + 1)
    } else {
        None
    }
}

/// Skips whitespace, `//` line comments and `/* */` block comments; `None`
/// when a block comment is left open.
pub open spec fn skip_ignored(s: Seq<u8>, p: int) -> Option<int>
    decreases s.len() - p,
    when 0 <= p <= s.len()
{
    let q = whitespace_end(s, p);
    proof {
        lemma_whitespace_end(s, p);
    }
    if pair_at(s, q, 0x2fu8, 0x2fu8) {
        proof {
            lemma_line_comment_end(s, q + 2);
        }
        skip_ignored(s, line_comment_end(s, q + 2))
    } else if pair_at(s, q, 0x2fu8, 0x2au8) {
        proof {
            lemma_block_comment_end(s, q + 2);
        }
        match block_comment_end(s, q + 2) {
            Some(r) => skip_ignored(s, r),
            None => None,
        }
    } else {
        Some(q)
    }
}

/// The bytes that an escape sequence `\e` inside a quoted token stands for.
pub open spec fn escape_bytes(e: u8) -> Seq<u8> {
    if e == 0x22u8 || e == 0x5cu8 {
        seq![e]
    } else if e == 0x6eu8 {
        seq![0x0au8]
    } else if e == 0x72u8 {
        seq![0x0du8]
    } else if e == 0x74u8 {
        seq![0x09u8]
    } else {
        seq![0x5cu8, e]
    }
}

/// The decoded bytes of a quoted token whose body starts at `p` (just after
/// the opening quote) and the position after the closing quote.
pub open spec fn quoted_body(s: Seq<u8>, p: int) -> Option<(Seq<u8>, int)>
    decreases s.len() - p,
{
    if p < 0 || p >= s.len() {
        None
    } else if s[p] == 0x22u8 {
        Some((Seq::empty(), p + 1))
    } else if s[p] == 0x5cu8 {
        if p + 1 >= s.len() {
            None
        } else {
            match quoted_body(s, p + 2) {
                Some((rest, end)) => Some((escape_bytes(s[p + 1]) + rest, end)),
                None => None,
            }
        }
    } else {
        match quoted_body(s, p + 1) {
            Some((rest, end)) => Some((seq![s[p]] + rest, end)),
            None => None,
        }
    }
}

/// A quoted token whose body holds neither a quote nor a backslash reads as
/// its bytes, and ends just after its closing quote.
pub proof fn plain_quoted_body_reads_as_itself(s: Seq<u8>, p: int, n: int)
    requires
        0 <= p,
        0 <= n,
        p + n < s.len(),
        forall|i: int| p <= i < p + n ==> #[trigger] s[i] != 0x22u8 && s[i] != 0x5cu8,
        s[p + n] == 0x22u8,
    ensures
        quoted_body(s, p) == Some((s.subrange(p, p + n), p + n + 1)),
    decreases n,
{
    if n == 0 {
        assert(s.subrange(p, p) =~= Seq::<u8>::empty());
    } else {
        assert(s[p] != 0x22u8 && s[p] != 0x5cu8);
        plain_quoted_body_reads_as_itself(s, p + 1, n - 1);
        assert(seq![s[p]] + s.subrange(p + 1, p + n) =~= s.subrange(p, p + n));
    }
}

/// Bytes that end an unquoted token.
pub open spec fn ends_unquoted(byte: u8) -> bool {
    is_ascii_whitespace(byte) || byte == 0x7bu8 || byte == 0x7du8 || byte == 0x22u8
}

/// The end of an unquoted token that starts at `p`.
pub open spec fn unquoted_end(s: Seq<u8>, p: int) -> int
    decreases s.len() - p,
{
    if 0 <= p < s.len() && !ends_unquoted(s[p]) {
        unquoted_end(s, p + 1)
    } else {
        p
    }
}

/// The raw bytes of the token after position `p` (after skipping ignored
/// input) and the position after it.
pub open spec fn token_bytes(s: Seq<u8>, p: int) -> Option<(Seq<u8>, int)> {
    match skip_ignored(s, p) {
        None => None,
        Some(q) => if q >= s.len() || q < 0 {
            None
        } else if s[q] == 0x22u8 {
            quoted_body(s, q + 1)
        } else if s[q] == 0x7bu8 || s[q] == 0x7du8 {
            None
        } else {
            let e = unquoted_end(s, q);
            if e == q {
                None
            } else {
                Some((s.subrange(q, e), e))
            }
        },
    }
}

/// The token after position `p` as text; a token that is not valid UTF-8 is
/// rejected.
pub open spec fn token(s: Seq<u8>, p: int) -> Option<(Seq<char>, int)> {
    match token_bytes(s, p) {
        Some((bytes, end)) => if valid_utf8(bytes) {
            Some((decode_utf8(bytes), end))
        } else {
            None
        },
        None => None,
    }
}

/// Prepends parsed entries to the result of parsing the rest of an object.
pub open spec fn prepend_entries(
    prefix: Seq<(Seq<char>, VdfModel)>,
    rest: Option<(Seq<(Seq<char>, VdfModel)>, int)>,
) -> Option<(Seq<(Seq<char>, VdfModel)>, int)> {
    match rest {
        Some((entries, end)) => Some((prefix + entries, end)),
        None => None,
    }
}

/// An object whose entries start at `p`, at nesting depth `depth`: `None`
/// beyond the maximal depth, otherwise its entries.
pub open spec fn object_at(s: Seq<u8>, p: int, nested: bool, depth: int) -> Option<
    (Seq<(Seq<char>, VdfModel)>, int),
>
    decreases s.len() - p, 1int,
    when 0 <= p <= s.len()
{
    if depth > VDF_MAX_DEPTH {
        None
    } else {
        entries_at(s, p, nested, depth)
    }
}

/// The entries of an object from position `p` on. A nested object ends at its
/// closing brace; the top-level object ends at the end of the input.
pub open spec fn entries_at(s: Seq<u8>, p: int, nested: bool, depth: int) -> Option<
    (Seq<(Seq<char>, VdfModel)>, int),
>
    decreases s.len() - p, 0int,
    when 0 <= p <= s.len()
{
    proof {
        lemma_skip_ignored(s, p);
    }
    match skip_ignored(s, p) {
        None => None,
        Some(q) => if q >= s.len() {
            if nested {
                None
            } else {
                Some((Seq::empty(), q))
            }
        } else if s[q] == 0x7du8 {
            if nested {
                Some((Seq::empty(), q + 1))
            } else {
                None
            }
        } else {
            proof {
                lemma_token(s, q);
            }
            match token(s, q) {
                None => None,
                Some((key, q1)) => {
                    proof {
                        lemma_skip_ignored(s, q1);
                    }
                    match skip_ignored(s, q1) {
                        None => None,
                        Some(q2) => {
                            let value = if q2 < s.len() && s[q2] == 0x7bu8 {
                                match object_at(s, q2 + 1, true, depth + 1) {
                                    Some((entries, q3)) => Some((VdfModel::Object(entries), q3)),
                                    None => None,
                                }
                            } else {
                                proof {
                                    lemma_token(s, q2);
                                }
                                match token(s, q2) {
                                    Some((text, q3)) => Some((VdfModel::Text(text), q3)),
                                    None => None,
                                }
                            };
                            match value {
                                None => None,
                                Some((v, q3)) => if p < q3 <= s.len() {
                                    prepend_entries(
                                        seq![(key, v)],
                                        entries_at(s, q3, nested, depth),
                                    )
                                } else {
                                    None
                                },
                            }
                        },
                    }
                },
            }
        },
    }
}

/// Where a document starts: after a UTF-8 byte order mark, if any.
pub open spec fn document_start(s: Seq<u8>) -> int {
    if s.len() >= 3 && s[0] == 0xefu8 && s[1] == 0xbbu8 && s[2] == 0xbfu8 {
        3
    } else {
        0
    }
}

/// The parsed document: the top-level object, which must extend to the end
/// of the input (up to trailing whitespace and comments).
pub open spec fn vdf_document(s: Seq<u8>) -> Option<Seq<(Seq<char>, VdfModel)>> {
    match object_at(s, document_start(s), false, 0) {
        None => None,
        Some((entries, end)) => match skip_ignored(s, end) {
            Some(q) => if q == s.len() {
                Some(entries)
            } else {
                None
            },
            None => None,
        },
    }
}

// ---------------------------------------------------------------------------
// Lemmas on positions.
// ---------------------------------------------------------------------------
pub proof fn lemma_whitespace_end(s: Seq<u8>, p: int)
    requires
        0 <= p <= s.len(),
    ensures
        p <= whitespace_end(s, p) <= s.len(),
    decreases s.len() - p,
{
    if p < s.len() && is_ascii_whitespace(s[p]) {
        lemma_whitespace_end(s, p + 1);
    }
}

pub proof fn lemma_line_comment_end(s: Seq<u8>, p: int)
    requires
        0 <= p <= s.len(),
    ensures
        p <= line_comment_end(s, p) <= s.len(),
    decreases s.len() - p,
{
    if p < s.len() && s[p] != 0x0au8 {
        lemma_line_comment_end(s, p + 1);
    }
}

pub proof fn lemma_block_comment_end(s: Seq<u8>, p: int)
    requires
        0 <= p <= s.len(),
    ensures
        block_comment_end(s, p) matches Some(r) ==> p + 2 <= r <= s.len(),
    decreases s.len() - p,
{
    if !pair_at(s, p, 0x2au8, 0x2fu8) && p < s.len() {
        lemma_block_comment_end(s, p + 1);
    }
}

pub proof fn lemma_skip_ignored(s: Seq<u8>, p: int)
    requires
        0 <= p <= s.len(),
    ensures
        skip_ignored(s, p) matches Some(q) ==> p <= q <= s.len(),
    decreases s.len() - p,
{
    let q = whitespace_end(s, p);
    lemma_whitespace_end(s, p);
    if pair_at(s, q, 0x2fu8, 0x2fu8) {
        lemma_line_comment_end(s, q + 2);
        lemma_skip_ignored(s, line_comment_end(s, q + 2));
    } else if pair_at(s, q, 0x2fu8, 0x2au8) {
        lemma_block_comment_end(s, q + 2);
        if let Some(r) = block_comment_end(s, q + 2) {
            lemma_skip_ignored(s, r);
        }
    }
}

pub proof fn lemma_quoted_body(s: Seq<u8>, p: int)
    requires
        0 <= p <= s.len(),
    ensures
        quoted_body(s, p) matches Some((_, e)) ==> p < e <= s.len(),
    decreases s.len() - p,
{
    if p < s.len() && s[p] != 0x22u8 {
        if s[p] == 0x5cu8 {
            if p + 1 < s.len() {
                lemma_quoted_body(s, p + 2);
            }
        } else {
            lemma_quoted_body(s, p + 1);
        }
    }
}

pub proof fn lemma_unquoted_end(s: Seq<u8>, p: int)
    requires
        0 <= p <= s.len(),
    ensures
        p <= unquoted_end(s, p) <= s.len(),
    decreases s.len() - p,
{
    if p < s.len() && !ends_unquoted(s[p]) {
        lemma_unquoted_end(s, p + 1);
    }
}

pub proof fn lemma_token(s: Seq<u8>, p: int)
    requires
        0 <= p <= s.len(),
    ensures
        token_bytes(s, p) matches Some((_, e)) ==> p < e <= s.len(),
        token(s, p) matches Some((_, e)) ==> p < e <= s.len(),
{
    lemma_skip_ignored(s, p);
    if let Some(q) = skip_ignored(s, p) {
        if 0 <= q < s.len() {
            lemma_quoted_body(s, q + 1);
            lemma_unquoted_end(s, q);
        }
    }
}

// ---------------------------------------------------------------------------
// The parser.
// ---------------------------------------------------------------------------
/// A recursive-descent parser over the bytes of a VDF document.
pub struct VdfParser<'a> {
    pub raw: &'a [u8],
    pub position: usize,
}

impl<'a> VdfParser<'a> {
    /// Parses a whole document. Returns `None` unless the input is a
    /// well-formed VDF object that extends to the end of the input.
    pub fn parse(raw: &'a [u8]) -> (document: Option<VdfObject>)
        ensures
            document is Some <==> vdf_document(raw@) is Some,
            document matches Some(d) ==> entries_model(d@) == vdf_document(raw@)->0,
    {
        let start: usize = if raw.len() >= 3 && raw[0] == 0xefu8 && raw[1] == 0xbbu8 && raw[2]
            == 0xbfu8 {
            3
        } else {
            0
        };
        let mut parser = VdfParser { raw, position: start };
        let document = match parser.parse_object(false, 0) {
            Some(document) => document,
            None => return None,
        };
        match parser.skip_ignored() {
            Some(()) => {},
            None => return None,
        }
        if parser.position == parser.raw.len() {
            Some(document)
        } else {
            None
        }
    }

    /// Parses the entries of an object at nesting depth `depth`.
    pub fn parse_object(&mut self, nested: bool, depth: usize) -> (object: Option<VdfObject>)
        requires
            old(self).position <= old(self).raw@.len(),
            depth <= VDF_MAX_DEPTH + 1,
        ensures
            final(self).raw@ == old(self).raw@,
            old(self).position <= final(self).position <= final(self).raw@.len(),
            object is Some <==> object_at(
                old(self).raw@,
                old(self).position as int,
                nested,
                depth as int,
            ) is Some,
            object matches Some(o) ==> object_at(
                old(self).raw@,
                old(self).position as int,
                nested,
                depth as int,
            ) == Some((entries_model(o@), final(self).position as int)),
        decreases old(self).raw@.len() - old(self).position, 1int,
    {
        if depth > VDF_MAX_DEPTH {
            return None;
        }
        let ghost s = self.raw@;
        let ghost start = self.position as int;
        let length = self.raw.len();
        let mut object: VdfObject = Vec::new();
        loop
            invariant
                self.raw@ == s,
                old(self).raw@ == s,
                old(self).position == start,
                start <= self.position <= s.len(),
                s.len() <= usize::MAX,
                depth <= VDF_MAX_DEPTH,
                0 <= start <= s.len(),
                object_at(s, start, nested, depth as int) == prepend_entries(
                    entries_model(object@),
                    entries_at(s, self.position as int, nested, depth as int),
                ),
            decreases s.len() - self.position,
        {
            let ghost p = self.position as int;
            proof {
                lemma_skip_ignored(s, p);
            }
            match self.skip_ignored() {
                Some(()) => {},
                None => return None,
            }
            let ghost q = self.position as int;
            match self.peek() {
                None => {
                    if nested {
                        return None;
                    }
                    proof {
                        assert(entries_model(object@) + Seq::empty() =~= entries_model(object@));
                    }
                    return Some(object);
                },
                Some(byte) => {
                    if byte == 0x7du8 {
                        if nested {
                            self.position = self.position + 1;
                            proof {
                                assert(entries_model(object@) + Seq::empty() =~= entries_model(
                                    object@,
                                ));
                            }
                            return Some(object);
                        }
                        return None;
                    }
                },
            }
            proof {
                lemma_token(s, q);
            }
            let key = match self.parse_token() {
                Some(key) => key,
                None => return None,
            };
            let ghost q1 = self.position as int;
            proof {
                lemma_skip_ignored(s, q1);
            }
            match self.skip_ignored() {
                Some(()) => {},
                None => return None,
            }
            let ghost q2 = self.position as int;
            let value = if self.peek() == Some(0x7bu8) {
                self.position = self.position + 1;
                match self.parse_object(true, depth + 1) {
                    Some(inner) => {
                        proof {
                            lemma_object_model(inner);
                        }
                        VdfValue::Object(inner)
                    },
                    None => return None,
                }
            } else {
                proof {
                    lemma_token(s, q2);
                }
                match self.parse_token() {
                    Some(text) => VdfValue::Text(text),
                    None => return None,
                }
            };
            let ghost q3 = self.position as int;
            let ghost before = entries_model(object@);
            object.push((key, value));
            proof {
                assert(entries_model(object@) =~= before + seq![(key@, value.model())]);
                let rest = entries_at(s, q3, nested, depth as int);
                assert(entries_at(s, p, nested, depth as int) == prepend_entries(
                    seq![(key@, value.model())],
                    rest,
                ));
                match rest {
                    Some((r, e)) => {
                        assert(before + (seq![(key@, value.model())] + r) =~= entries_model(
                            object@,
                        ) + r);
                    },
                    None => {},
                }
            }
        }
    }

    /// Parses one token: a quoted string with escapes or a run of bytes that
    /// are neither whitespace, braces nor quotes.
    pub fn parse_token(&mut self) -> (text: Option<String>)
        requires
            old(self).position <= old(self).raw@.len(),
        ensures
            final(self).raw@ == old(self).raw@,
            old(self).position <= final(self).position <= final(self).raw@.len(),
            text is Some <==> token(old(self).raw@, old(self).position as int) is Some,
            text matches Some(t) ==> token(old(self).raw@, old(self).position as int) == Some(
                (t@, final(self).position as int),
            ),
    {
        let ghost s = self.raw@;
        proof {
            lemma_skip_ignored(s, self.position as int);
        }
        match self.skip_ignored() {
            Some(()) => {},
            None => return None,
        }
        match self.peek() {
            None => None,
            Some(byte) => {
                if byte == 0x22u8 {
                    self.parse_quoted_token()
                } else if byte == 0x7bu8 || byte == 0x7du8 {
                    None
                } else {
                    self.parse_unquoted_token()
                }
            },
        }
    }

    /// Parses a quoted token; the parser stands on its opening quote.
    pub fn parse_quoted_token(&mut self) -> (text: Option<String>)
        requires
            old(self).position < old(self).raw@.len(),
        ensures
            final(self).raw@ == old(self).raw@,
            old(self).position <= final(self).position <= final(self).raw@.len(),
            text is Some <==> (quoted_body(old(self).raw@, old(self).position + 1) matches Some(
                (b, _),
            ) && valid_utf8(b)),
            text matches Some(t) ==> quoted_body(old(self).raw@, old(self).position + 1) matches Some(
                (b, e),
            ) && t@ == decode_utf8(b) && e == final(self).position,
    {
        let ghost s = self.raw@;
        let length = self.raw.len();
        self.position = self.position + 1;
        let ghost start = self.position as int;
        let mut value: Vec<u8> = Vec::new();
        while self.position < self.raw.len()
            invariant
                self.raw@ == s,
                old(self).raw@ == s,
                old(self).position + 1 == start,
                start <= self.position <= s.len(),
                quoted_body(s, start) == match quoted_body(s, self.position as int) {
                    Some((rest, end)) => Some((value@ + rest, end)),
                    None => None,
                },
            decreases s.len() - self.position,
        {
            let ghost p = self.position as int;
            let byte = self.raw[self.position];
            self.position = self.position + 1;
            if byte == 0x22u8 {
                proof {
                    assert(value@ + Seq::<u8>::empty() =~= value@);
                }
                return utf8_string(value);
            } else if byte == 0x5cu8 {
                if self.position >= self.raw.len() {
                    return None;
                }
                let escaped = self.raw[self.position];
                self.position = self.position + 1;
                let ghost before = value@;
                if escaped == 0x22u8 || escaped == 0x5cu8 {
                    value.push(escaped);
                } else if escaped == 0x6eu8 {
                    value.push(0x0au8);
                } else if escaped == 0x72u8 {
                    value.push(0x0du8);
                } else if escaped == 0x74u8 {
                    value.push(0x09u8);
                } else {
                    value.push(0x5cu8);
                    value.push(escaped);
                }
                proof {
                    assert(value@ =~= before + escape_bytes(escaped));
                    match quoted_body(s, self.position as int) {
                        Some((rest, end)) => {
                            assert(before + (escape_bytes(escaped) + rest) =~= value@ + rest);
                        },
                        None => {},
                    }
                }
            } else {
                let ghost before = value@;
                value.push(byte);
                proof {
                    match quoted_body(s, self.position as int) {
                        Some((rest, end)) => {
                            assert(before + (seq![byte] + rest) =~= value@ + rest);
                        },
                        None => {},
                    }
                }
            }
        }
        None
    }

    /// Parses an unquoted token.
    pub fn parse_unquoted_token(&mut self) -> (text: Option<String>)
        requires
            old(self).position <= old(self).raw@.len(),
        ensures
            final(self).raw@ == old(self).raw@,
            old(self).position <= final(self).position <= final(self).raw@.len(),
            final(self).position == unquoted_end(old(self).raw@, old(self).position as int),
            ({
                let (s, p) = (old(self).raw@, old(self).position as int);
                let e = unquoted_end(s, p);
                &&& text is Some <==> (e != p && valid_utf8(s.subrange(p, e)))
                &&& text matches Some(t) ==> t@ == decode_utf8(s.subrange(p, e))
            }),
    {
        let ghost s = self.raw@;
        let start = self.position;
        proof {
            lemma_unquoted_end(s, start as int);
        }
        while self.position < self.raw.len()
            invariant
                self.raw@ == s,
                start <= self.position <= s.len(),
                unquoted_end(s, start as int) == unquoted_end(s, self.position as int),
            ensures
                self.raw@ == s,
                start <= self.position <= s.len(),
                unquoted_end(s, start as int) == self.position,
            decreases s.len() - self.position,
        {
            let byte = self.raw[self.position];
            if byte == 0x20u8 || byte == 0x09u8 || byte == 0x0au8 || byte == 0x0cu8 || byte
                == 0x0du8 || byte == 0x7bu8 || byte == 0x7du8 || byte == 0x22u8 {
                break ;
            }
            self.position = self.position + 1;
        }
        if self.position == start {
            return None;
        }
        let bytes = slice_to_vec(&self.raw[start..self.position]);
        utf8_string(bytes)
    }

    /// Skips whitespace and comments. Returns `None` on an unterminated block
    /// comment.
    pub fn skip_ignored(&mut self) -> (skipped: Option<()>)
        requires
            old(self).position <= old(self).raw@.len(),
        ensures
            final(self).raw@ == old(self).raw@,
            old(self).position <= final(self).position <= final(self).raw@.len(),
            skipped is Some <==> skip_ignored(old(self).raw@, old(self).position as int) is Some,
            skipped is Some ==> skip_ignored(old(self).raw@, old(self).position as int) == Some(
                final(self).position as int,
            ),
    {
        let ghost s = self.raw@;
        let ghost start = self.position as int;
        loop
            invariant
                self.raw@ == s,
                old(self).raw@ == s,
                old(self).position == start,
                start <= self.position <= s.len(),
                0 <= start,
                skip_ignored(s, start) == skip_ignored(s, self.position as int),
            decreases s.len() - self.position,
        {
            let ghost p = self.position as int;
            while self.position < self.raw.len() && is_whitespace_byte(self.raw[self.position])
                invariant
                    self.raw@ == s,
                    p <= self.position <= s.len(),
                    whitespace_end(s, p) == whitespace_end(s, self.position as int),
                decreases s.len() - self.position,
            {
                self.position = self.position + 1;
            }
            let ghost q = self.position as int;
            if self.remaining_starts_with(0x2fu8, 0x2fu8) {
                self.position = self.position + 2;
                proof {
                    lemma_line_comment_end(s, q + 2);
                }
                while self.position < self.raw.len() && self.raw[self.position] != 0x0au8
                    invariant
                        self.raw@ == s,
                        q + 2 <= self.position <= s.len(),
                        line_comment_end(s, q + 2) == line_comment_end(s, self.position as int),
                    decreases s.len() - self.position,
                {
                    self.position = self.position + 1;
                }
                continue ;
            }
            if self.remaining_starts_with(0x2fu8, 0x2au8) {
                self.position = self.position + 2;
                while self.position < self.raw.len() && !self.remaining_starts_with(
                    0x2au8,
                    0x2fu8,
                )
                    invariant
                        self.raw@ == s,
                        q + 2 <= self.position <= s.len(),
                        block_comment_end(s, q + 2) == block_comment_end(s, self.position as int),
                    decreases s.len() - self.position,
                {
                    self.position = self.position + 1;
                }
                if !self.remaining_starts_with(0x2au8, 0x2fu8) {
                    return None;
                }
                self.position = self.position + 2;
                continue ;
            }
            return Some(());
        }
    }

    /// Whether the unread input starts with the two bytes `a b`.
    fn remaining_starts_with(&self, a: u8, b: u8) -> (found: bool)
        requires
            self.position <= self.raw@.len(),
        ensures
            found == pair_at(self.raw@, self.position as int, a, b),
    {
        let remaining = self.remaining();
        remaining.len() >= 2 && remaining[0] == a && remaining[1] == b
    }

    /// The unread input.
    pub fn remaining(&self) -> (rest: &'a [u8])
        requires
            self.position <= self.raw@.len(),
        ensures
            rest@ == self.raw@.subrange(self.position as int, self.raw@.len() as int),
    {
        &self.raw[self.position..self.raw.len()]
    }

    /// The next byte, if any, without consuming it.
    pub fn peek(&self) -> (byte: Option<u8>)
        ensures
            byte == (if self.position < self.raw@.len() {
                Some(self.raw@[self.position as int])
            } else {
                None
            }),
    {
        if self.position < self.raw.len() {
            Some(self.raw[self.position])
        } else {
            None
        }
    }

    /// Consumes and returns the next byte, if any.
    pub fn next(&mut self) -> (byte: Option<u8>)
        ensures
            final(self).raw@ == old(self).raw@,
            old(self).position < old(self).raw@.len() ==> byte == Some(
                old(self).raw@[old(self).position as int],
            ) && final(self).position == old(self).position + 1,
            old(self).position >= old(self).raw@.len() ==> byte is None && final(self).position
                == old(self).position,
    {
        let length = self.raw.len();
        let byte = self.peek();
        if byte.is_some() {
            self.position = self.position + 1;
        }
        byte
    }
}

/// `u8::is_ascii_whitespace`.
pub fn is_whitespace_byte(byte: u8) -> (whitespace: bool)
    ensures
        whitespace == is_ascii_whitespace(byte),
{
    byte == 0x20u8 || byte == 0x09u8 || byte == 0x0au8 || byte == 0x0cu8 || byte == 0x0du8
}

// ---------------------------------------------------------------------------
// Lookups.
// ---------------------------------------------------------------------------
/// The first object-valued entry from index `i` on whose key equals `key`
/// up to ASCII case.
pub open spec fn find_object(entries: Seq<(Seq<char>, VdfModel)>, key: Seq<char>, i: int) -> Option<
    Seq<(Seq<char>, VdfModel)>,
>
    decreases entries.len() - i,
{
    if 0 <= i < entries.len() {
        if eq_ignore_ascii_case(entries[i].0, key) && entries[i].1 is Object {
            Some(entries[i].1->Object_0)
        } else {
            find_object(entries, key, i + 1)
        }
    } else {
        None
    }
}

/// The first text-valued entry from index `i` on whose key equals `key` up
/// to ASCII case.
pub open spec fn find_text(entries: Seq<(Seq<char>, VdfModel)>, key: Seq<char>, i: int) -> Option<
    Seq<char>,
>
    decreases entries.len() - i,
{
    if 0 <= i < entries.len() {
        if eq_ignore_ascii_case(entries[i].0, key) && entries[i].1 is Text {
            Some(entries[i].1->Text_0)
        } else {
            find_text(entries, key, i + 1)
        }
    } else {
        None
    }
}

/// The first nested object under `key` (compared without regard to ASCII
/// case); entries under that key that hold text are passed over.
pub fn object_value<'a>(object: &'a VdfObject, key: &str) -> (found: Option<&'a VdfObject>)
    ensures
        found is Some <==> find_object(entries_model(object@), key@, 0) is Some,
        found matches Some(o) ==> entries_model(o@) == find_object(
            entries_model(object@),
            key@,
            0,
        )->0,
{
    let mut i: usize = 0;
    while i < object.len()
        invariant
            i <= object@.len(),
            find_object(entries_model(object@), key@, 0) == find_object(
                entries_model(object@),
                key@,
                i as int,
            ),
        decreases object@.len() - i,
    {
        if ascii_fold_eq_bytes(object[i].0.as_str().as_bytes(), key.as_bytes()) {
            match &object[i].1 {
                VdfValue::Object(value) => {
                    proof {
                        lemma_object_model(*value);
                    }
                    return Some(value);
                },
                VdfValue::Text(_) => {},
            }
        }
        i = i + 1;
    }
    None
}

/// The first text under `key` (compared without regard to ASCII case);
/// entries under that key that hold objects are passed over.
pub fn text_value<'a>(object: &'a VdfObject, key: &str) -> (found: Option<&'a str>)
    ensures
        found is Some <==> find_text(entries_model(object@), key@, 0) is Some,
        found matches Some(t) ==> t@ == find_text(entries_model(object@), key@, 0)->0,
{
    let mut i: usize = 0;
    while i < object.len()
        invariant
            i <= object@.len(),
            find_text(entries_model(object@), key@, 0) == find_text(
                entries_model(object@),
                key@,
                i as int,
            ),
        decreases object@.len() - i,
    {
        if ascii_fold_eq_bytes(object[i].0.as_str().as_bytes(), key.as_bytes()) {
            match &object[i].1 {
                VdfValue::Text(value) => {
                    return Some(value.as_str());
                },
                VdfValue::Object(_) => {},
            }
        }
        i = i + 1;
    }
    None
}

} // verus!
