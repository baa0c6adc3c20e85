//! The BepInEx configuration files of mods: reading the values they hold and
//! rewriting single settings while every other line stays as it was.
use vstd::prelude::*;

use crate::catalog::texts;
use crate::fields::ConfigField;
use vstd::string::StringExecFns;
use crate::text::{
    ascii_lowercase, chars_of, is_white_space, lower_char, lower_chars, same_ignoring_case,
    same_text_ignoring_case, string_of, trim, trim_bounds, trim_end, trim_start,
};

verus! {

// ---------------------------------------------------------------------------
// Lines.
// ---------------------------------------------------------------------------
/// The index of the first line feed in `s[i..]`, or the length of `s`.
pub open spec fn line_end(s: Seq<char>, i: int) -> int
    decreases s.len() - i,
{
    if i < 0 || i >= s.len() {
        s.len() as int
    } else if s[i] == '\n' {
        i
    } else {
        line_end(s, i + 1)
    }
}

pub proof fn lemma_line_end(s: Seq<char>, i: int)
    requires
        0 <= i <= s.len(),
    ensures
        i <= line_end(s, i) <= s.len(),
        line_end(s, i) < s.len() ==> s[line_end(s, i)] == '\n',
        forall|k: int| i <= k < line_end(s, i) ==> s[k] != '\n',
    decreases s.len() - i,
{
    if i < s.len() && s[i] != '\n' {
        lemma_line_end(s, i + 1);
    }
}

/// `str::lines` from index `i` on: the text is cut at each line feed, a
/// carriage return before a line feed is dropped, and a final line feed ends
/// the last line without starting another.
pub open spec fn lines_from(s: Seq<char>, i: int) -> Seq<Seq<char>>
    decreases s.len() - i,
{
    if 0 <= i < s.len() {
        proof {
            lemma_line_end(s, i);
        }
        let j = line_end(s, i);
        let raw = s.subrange(i, j);
        let line = if j < s.len() && raw.len() > 0 && raw.last() == '\r' {
            raw.drop_last()
        } else {
            raw
        };
        if j < s.len() {
            seq![line] + lines_from(s, j + 1)
        } else {
            seq![line]
        }
    } else {
        Seq::empty()
    }
}

/// `str::lines`.
pub open spec fn lines_of(s: Seq<char>) -> Seq<Seq<char>> {
    lines_from(s, 0)
}

/// Splits a text into its lines, as `str::lines` does.
pub fn split_lines(text: &str) -> (lines: Vec<String>)
    ensures
        texts(lines@) == lines_of(text@),
{
    let chars = chars_of(text);
    let ghost s = text@;
    let mut lines: Vec<String> = Vec::new();
    let mut i: usize = 0;
    while i < chars.len()
        invariant
            chars@ == s,
            i <= s.len(),
            lines_of(s) == texts(lines@) + lines_from(s, i as int),
        decreases s.len() - i,
    {
        let mut j = i;
        while j < chars.len() && chars[j] != '\n'
            invariant
                chars@ == s,
                i <= j <= s.len(),
                line_end(s, i as int) == line_end(s, j as int),
            decreases s.len() - j,
        {
            j = j + 1;
        }
        proof {
            lemma_line_end(s, i as int);
        }
        let end = if j < chars.len() && j > i && chars[j - 1] == '\r' {
            j - 1
        } else {
            j
        };
        let line = string_of(&chars, i, end);
        proof {
            let raw = s.subrange(i as int, j as int);
            if j < s.len() && raw.len() > 0 && raw.last() == '\r' {
                assert(raw.drop_last() =~= s.subrange(i as int, end as int));
            }
            let next: int = if j < s.len() {
                j + 1
            } else {
                j as int
            };
            assert(lines_from(s, i as int) =~= seq![line@] + lines_from(s, next));
            assert(texts(lines@.push(line)) =~= texts(lines@).push(line@));
            assert(texts(lines@) + lines_from(s, i as int) =~= texts(lines@).push(line@)
                + lines_from(s, next));
        }
        lines.push(line);
        i = if j < chars.len() {
            j + 1
        } else {
            j
        };
    }
    proof {
        assert(texts(lines@) + lines_from(s, i as int) =~= texts(lines@));
    }
    lines
}


// ---------------------------------------------------------------------------
// The shape of a line.
// ---------------------------------------------------------------------------
/// A trimmed line `[name]` opens a section.
pub open spec fn is_section_header(t: Seq<char>) -> bool {
    t.len() > 0 && t[0] == '[' && t.last() == ']'
}

/// The name of the section that a header opens, trimmed.
pub open spec fn header_name(t: Seq<char>) -> Seq<char> {
    trim(t.subrange(1, t.len() - 1))
}

/// A trimmed line that starts with `#` or `;` is a comment.
pub open spec fn is_comment(t: Seq<char>) -> bool {
    t.len() > 0 && (t[0] == '#' || t[0] == ';')
}

/// The index of the first `c` in `t[i..]`, or `-1`.
pub open spec fn index_of_char(t: Seq<char>, c: char, i: int) -> int
    decreases t.len() - i,
{
    if i < 0 || i >= t.len() {
        -1
    } else if t[i] == c {
        i
    } else {
        index_of_char(t, c, i + 1)
    }
}

pub proof fn lemma_index_of_char(t: Seq<char>, c: char, i: int)
    requires
        0 <= i,
    ensures
        index_of_char(t, c, i) == -1 || (i <= index_of_char(t, c, i) < t.len() && t[index_of_char(
            t,
            c,
            i,
        )] == c),
        forall|k: int| i <= k < t.len() && (index_of_char(t, c, i) == -1 || k < index_of_char(t, c, i)) ==> t[k] != c,
    decreases t.len() - i,
{
    if i < t.len() && t[i] != c {
        lemma_index_of_char(t, c, i + 1);
    }
}

/// The index of the first `=` of a trimmed line, or `-1`.
pub open spec fn equals_index(t: Seq<char>) -> int {
    index_of_char(t, '=', 0)
}

/// A trimmed line that is neither a header nor a comment and holds an `=`
/// assigns a value to a key.
pub open spec fn is_assignment(t: Seq<char>) -> bool {
    !is_section_header(t) && !is_comment(t) && equals_index(t) >= 0
}

/// The key of an assignment: what stands before the first `=`, trimmed.
pub open spec fn assignment_key(t: Seq<char>) -> Seq<char> {
    trim(t.subrange(0, equals_index(t)))
}

/// The value of an assignment: what follows the first `=`, trimmed.
pub open spec fn assignment_value(t: Seq<char>) -> Seq<char> {
    trim(t.subrange(equals_index(t) + 1, t.len() as int))
}

/// What a line of a configuration file is.
#[derive(Clone, Debug)]
pub enum LineShape {
    /// A section header, with the section's name.
    Header(String),
    /// An assignment, with its key and value.
    Assignment(String, String),
    /// A comment, a blank line or anything else.
    Other,
}

/// What a line is, by the rules above, applied to the trimmed line.
pub open spec fn shape_matches(line: Seq<char>, shape: LineShape) -> bool {
    let t = trim(line);
    match shape {
        LineShape::Header(name) => is_section_header(t) && name@ == header_name(t),
        LineShape::Assignment(key, value) => is_assignment(t) && key@ == assignment_key(t)
            && value@ == assignment_value(t),
        LineShape::Other => !is_section_header(t) && !is_assignment(t),
    }
}

/// Classifies a line of a configuration file.
#[verifier::rlimit(40)]
pub fn classify_line(line: &str) -> (shape: LineShape)
    ensures
        shape_matches(line@, shape),
{
    let chars = chars_of(line);
    let (a, b) = trim_bounds(&chars, 0, chars.len());
    let ghost t = chars@.subrange(a as int, b as int);
    proof {
        assert(chars@.subrange(0, chars@.len() as int) =~= line@);
        assert(t == trim(line@));
    }
    if a < b && chars[a] == '[' && chars[b - 1] == ']' {
        let (c, d) = trim_bounds(&chars, a + 1, b - 1);
        proof {
            assert(t.subrange(1, t.len() - 1) =~= chars@.subrange(a + 1, b - 1));
        }
        return LineShape::Header(string_of(&chars, c, d));
    }
    if a < b && (chars[a] == '#' || chars[a] == ';') {
        return LineShape::Other;
    }
    let mut e = a;
    while e < b && chars[e] != '='
        invariant
            a <= e <= b <= chars@.len(),
            t == chars@.subrange(a as int, b as int),
            index_of_char(t, '=', 0) == index_of_char(t, '=', e - a),
        decreases b - e,
    {
        e = e + 1;
    }
    proof {
        lemma_index_of_char(t, '=', 0);
    }
    if e == b {
        return LineShape::Other;
    }
    let (k1, k2) = trim_bounds(&chars, a, e);
    let (v1, v2) = trim_bounds(&chars, e + 1, b);
    proof {
        assert(t.subrange(0, e - a) =~= chars@.subrange(a as int, e as int));
        assert(t.subrange(e - a + 1, t.len() as int) =~= chars@.subrange(e + 1, b as int));
    }
    LineShape::Assignment(string_of(&chars, k1, k2), string_of(&chars, v1, v2))
}


// ---------------------------------------------------------------------------
// Reading values.
// ---------------------------------------------------------------------------
/// The values that lines assign, keyed by lowercased section and key: a
/// header switches the current section, and a later assignment to the same
/// key of the same section replaces an earlier one. Also gives the section
/// that the last line leaves current.
pub open spec fn parse_lines(lines: Seq<Seq<char>>) -> (Seq<char>, Map<(Seq<char>, Seq<char>), Seq<char>>)
    decreases lines.len(),
{
    if lines.len() == 0 {
        (Seq::empty(), Map::empty())
    } else {
        let (section, values) = parse_lines(lines.drop_last());
        let t = trim(lines.last());
        if is_section_header(t) {
            (lower_chars(header_name(t)), values)
        } else if is_assignment(t) {
            (section, values.insert((section, lower_chars(assignment_key(t))), assignment_value(t)))
        } else {
            (section, values)
        }
    }
}

/// The values of a configuration file's text.
pub open spec fn config_values(text: Seq<char>) -> Map<(Seq<char>, Seq<char>), Seq<char>> {
    parse_lines(lines_of(text)).1
}

/// A value that a configuration file assigns, under its lowercased section
/// and key.
#[derive(Clone, Debug)]
pub struct ConfigEntry {
    pub section: String,
    pub key: String,
    pub value: String,
}

/// The map that a list of entries describes: a later entry for the same
/// section and key replaces an earlier one.
pub open spec fn entries_map(entries: Seq<ConfigEntry>) -> Map<(Seq<char>, Seq<char>), Seq<char>>
    decreases entries.len(),
{
    if entries.len() == 0 {
        Map::empty()
    } else {
        entries_map(entries.drop_last()).insert(
            (entries.last().section@, entries.last().key@),
            entries.last().value@,
        )
    }
}

/// Reads the values of a configuration file's text.
pub fn parse_config(text: &str) -> (entries: Vec<ConfigEntry>)
    ensures
        entries_map(entries@) == config_values(text@),
{
    let lines = split_lines(text);
    let ghost all = lines_of(text@);
    let mut section = String::new();
    let mut entries: Vec<ConfigEntry> = Vec::new();
    let mut i: usize = 0;
    while i < lines.len()
        invariant
            i <= lines@.len(),
            texts(lines@) == all,
            all.len() == lines@.len(),
            parse_lines(all.take(i as int)) == (section@, entries_map(entries@)),
        decreases lines@.len() - i,
    {
        proof {
            assert(all.take(i + 1).drop_last() =~= all.take(i as int));
            assert(all.take(i + 1).last() == lines@[i as int]@);
        }
        match classify_line(lines[i].as_str()) {
            LineShape::Header(name) => {
                section = ascii_lowercase(name.as_str());
            },
            LineShape::Assignment(key, value) => {
                let entry = ConfigEntry {
                    section: section.clone(),
                    key: ascii_lowercase(key.as_str()),
                    value,
                };
                proof {
                    assert(entries@.push(entry).drop_last() =~= entries@);
                }
                entries.push(entry);
            },
            LineShape::Other => {},
        }
        i = i + 1;
    }
    proof {
        assert(all.take(i as int) =~= all);
    }
    entries
}

/// The section and key of an entry.
pub open spec fn entry_key(entry: ConfigEntry) -> (Seq<char>, Seq<char>) {
    (entry.section@, entry.key@)
}

/// The map holds the value of the last entry for a key, and no key that no
/// entry has.
#[verifier::spinoff_prover]
pub proof fn lemma_entries_map(entries: Seq<ConfigEntry>, k: (Seq<char>, Seq<char>))
    ensures
        entries_map(entries).contains_key(k) <==> exists|j: int|
            0 <= j < entries.len() && entry_key(#[trigger] entries[j]) == k,
        forall|j: int|
            0 <= j < entries.len() && entry_key(#[trigger] entries[j]) == k && (forall|m: int|
                j < m < entries.len() ==> entry_key(#[trigger] entries[m]) != k) ==> entries_map(
                entries,
            )[k] == entries[j].value@,
    decreases entries.len(),
{
    if entries.len() > 0 {
        let rest = entries.drop_last();
        lemma_entries_map(rest, k);
        assert forall|j: int| 0 <= j < rest.len() implies rest[j] == entries[j] by {}
        if entries_map(entries).contains_key(k) && entry_key(entries.last()) != k {
            let j = choose|j: int| 0 <= j < rest.len() && entry_key(#[trigger] rest[j]) == k;
            assert(entry_key(entries[j]) == k);
        }
        assert forall|j: int|
            0 <= j < entries.len() && entry_key(#[trigger] entries[j]) == k && (forall|m: int|
                j < m < entries.len() ==> entry_key(#[trigger] entries[m]) != k) implies entries_map(
            entries,
        )[k] == entries[j].value@ by {
            if j < entries.len() - 1 {
                assert(entry_key(entries[entries.len() - 1]) != k);
                assert(entry_key(rest[j]) == k);
                assert forall|m: int| j < m < rest.len() implies entry_key(#[trigger] rest[m]) != k by {
                    assert(entry_key(entries[m]) != k);
                }
            }
        }
    }
}

/// Looks up the value of a section's key among parsed entries.
pub fn config_value<'a>(entries: &'a Vec<ConfigEntry>, section: &str, key: &str) -> (value: Option<
    &'a String,
>)
    ensures
        entries_map(entries@).contains_key((section@, key@)) <==> value is Some,
        value matches Some(v) ==> v@ == entries_map(entries@)[(section@, key@)],
{
    let ghost k = (section@, key@);
    proof {
        lemma_entries_map(entries@, k);
    }
    let mut i = entries.len();
    while i > 0
        invariant
            i <= entries@.len(),
            k == (section@, key@),
            forall|m: int| i <= m < entries@.len() ==> entry_key(#[trigger] entries@[m]) != k,
        decreases i,
    {
        let entry = &entries[i - 1];
        if crate::text::str_equal(entry.section.as_str(), section) && crate::text::str_equal(
            entry.key.as_str(),
            key,
        ) {
            proof {
                assert(entry_key(entries@[i - 1]) == k);
                lemma_entries_map(entries@, k);
            }
            return Some(&entry.value);
        }
        i = i - 1;
    }
    None
}


// ---------------------------------------------------------------------------
// Writing values.
// ---------------------------------------------------------------------------
/// The name of the section that line `i` lies in: that of the last header
/// before it, as written there, or the empty name.
pub open spec fn section_before(lines: Seq<Seq<char>>, i: int) -> Seq<char>
    decreases i,
{
    if i <= 0 || i > lines.len() {
        Seq::empty()
    } else if is_section_header(trim(lines[i - 1])) {
        header_name(trim(lines[i - 1]))
    } else {
        section_before(lines, i - 1)
    }
}

/// Line `i` assigns `key` in `section`, both compared without regard to
/// ASCII case.
pub open spec fn assigns(lines: Seq<Seq<char>>, i: int, section: Seq<char>, key: Seq<char>) -> bool {
    let t = trim(lines[i]);
    &&& is_assignment(t)
    &&& same_ignoring_case(section_before(lines, i), section)
    &&& same_ignoring_case(assignment_key(t), key)
}

/// The first line from `i` on that assigns `key` in `section`, or `-1`.
pub open spec fn first_assignment(lines: Seq<Seq<char>>, section: Seq<char>, key: Seq<char>, i: int) -> int
    decreases lines.len() - i,
{
    if i < 0 || i >= lines.len() {
        -1
    } else if assigns(lines, i, section, key) {
        i
    } else {
        first_assignment(lines, section, key, i + 1)
    }
}

/// The line is a header of `section`, compared without regard to ASCII case.
pub open spec fn opens_section(line: Seq<char>, section: Seq<char>) -> bool {
    is_section_header(trim(line)) && same_ignoring_case(header_name(trim(line)), section)
}

/// The first header of `section` from line `i` on, or `-1`.
pub open spec fn first_header_of(lines: Seq<Seq<char>>, section: Seq<char>, i: int) -> int
    decreases lines.len() - i,
{
    if i < 0 || i >= lines.len() {
        -1
    } else if opens_section(lines[i], section) {
        i
    } else {
        first_header_of(lines, section, i + 1)
    }
}

/// The first header of any section from line `i` on, or the number of lines.
pub open spec fn next_header(lines: Seq<Seq<char>>, i: int) -> int
    decreases lines.len() - i,
{
    if i < 0 || i >= lines.len() {
        lines.len() as int
    } else if is_section_header(trim(lines[i])) {
        i
    } else {
        next_header(lines, i + 1)
    }
}

/// The line `key = value`.
pub open spec fn setting_line(key: Seq<char>, value: Seq<char>) -> Seq<char> {
    key + seq![' ', '=', ' '] + value
}

/// The line `[section]`.
pub open spec fn header_line(section: Seq<char>) -> Seq<char> {
    seq!['['] + section + seq![']']
}

/// Sets one value: the first assignment of the key in the section is
/// replaced; without one, the setting is added at the end of the first
/// header of the section; without such a header, a new section is appended,
/// after an empty line where the last line is not empty.
pub open spec fn apply_setting(
    lines: Seq<Seq<char>>,
    section: Seq<char>,
    key: Seq<char>,
    value: Seq<char>,
) -> Seq<Seq<char>> {
    let line = setting_line(key, value);
    let i = first_assignment(lines, section, key, 0);
    if i >= 0 {
        lines.update(i, line)
    } else {
        let h = first_header_of(lines, section, 0);
        if h >= 0 {
            lines.insert(next_header(lines, h + 1), line)
        } else {
            let padded = if lines.len() > 0 && lines.last().len() > 0 {
                lines.push(Seq::empty())
            } else {
                lines
            };
            padded.push(header_line(section)).push(line)
        }
    }
}

/// The section, key and value text of each change.
pub open spec fn change_settings(changes: Seq<(&ConfigField, String)>) -> Seq<(Seq<char>, Seq<char>, Seq<char>)> {
    changes.map_values(|c: (&ConfigField, String)| (c.0.spec_section(), c.0.spec_key(), c.1@))
}

/// Applies the settings one after another.
pub open spec fn apply_settings(
    lines: Seq<Seq<char>>,
    settings: Seq<(Seq<char>, Seq<char>, Seq<char>)>,
) -> Seq<Seq<char>>
    decreases settings.len(),
{
    if settings.len() == 0 {
        lines
    } else {
        let s = settings.last();
        apply_setting(apply_settings(lines, settings.drop_last()), s.0, s.1, s.2)
    }
}

/// Each line followed by a line feed.
pub open spec fn terminated(lines: Seq<Seq<char>>) -> Seq<char>
    decreases lines.len(),
{
    if lines.len() == 0 {
        Seq::empty()
    } else {
        terminated(lines.drop_last()) + lines.last() + seq!['\n']
    }
}

/// The lines joined by line feeds, with a final line feed.
pub open spec fn render_lines(lines: Seq<Seq<char>>) -> Seq<char> {
    if lines.len() == 0 {
        seq!['\n']
    } else {
        terminated(lines)
    }
}

/// The text of a configuration file after the changes.
pub open spec fn updated_config(text: Seq<char>, settings: Seq<(Seq<char>, Seq<char>, Seq<char>)>) -> Seq<char> {
    render_lines(apply_settings(lines_of(text), settings))
}

/// The index of the first line that assigns `key` in `section`.
fn find_assignment(lines: &Vec<String>, section: &str, key: &str) -> (found: Option<usize>)
    ensures
        match found {
            Some(i) => i < lines@.len() && i as int == first_assignment(texts(lines@), section@, key@, 0),
            None => first_assignment(texts(lines@), section@, key@, 0) == -1,
        },
{
    let ghost all = texts(lines@);
    let mut current = String::new();
    let mut i: usize = 0;
    while i < lines.len()
        invariant
            i <= lines@.len(),
            all == texts(lines@),
            all.len() == lines@.len(),
            current@ == section_before(all, i as int),
            first_assignment(all, section@, key@, 0) == first_assignment(all, section@, key@, i as int),
        decreases lines@.len() - i,
    {
        proof {
            assert(all[i as int] == lines@[i as int]@);
        }
        match classify_line(lines[i].as_str()) {
            LineShape::Header(name) => {
                current = name;
            },
            LineShape::Assignment(k, _) => {
                if same_text_ignoring_case(current.as_str(), section) && same_text_ignoring_case(
                    k.as_str(),
                    key,
                ) {
                    return Some(i);
                }
            },
            LineShape::Other => {},
        }
        i = i + 1;
    }
    None
}

/// The index of the first header of `section`.
fn find_section(lines: &Vec<String>, section: &str) -> (found: Option<usize>)
    ensures
        match found {
            Some(i) => i < lines@.len() && i as int == first_header_of(texts(lines@), section@, 0),
            None => first_header_of(texts(lines@), section@, 0) == -1,
        },
{
    let ghost all = texts(lines@);
    let mut i: usize = 0;
    while i < lines.len()
        invariant
            i <= lines@.len(),
            all == texts(lines@),
            all.len() == lines@.len(),
            first_header_of(all, section@, 0) == first_header_of(all, section@, i as int),
        decreases lines@.len() - i,
    {
        proof {
            assert(all[i as int] == lines@[i as int]@);
        }
        match classify_line(lines[i].as_str()) {
            LineShape::Header(name) => {
                if same_text_ignoring_case(name.as_str(), section) {
                    return Some(i);
                }
            },
            _ => {},
        }
        i = i + 1;
    }
    None
}

/// The index of the first header at or after `from`, or the number of lines.
fn find_next_header(lines: &Vec<String>, from: usize) -> (end: usize)
    requires
        from <= lines@.len(),
    ensures
        end as int == next_header(texts(lines@), from as int),
        end <= lines@.len(),
{
    let ghost all = texts(lines@);
    let mut i: usize = from;
    while i < lines.len()
        invariant
            from <= i <= lines@.len(),
            all == texts(lines@),
            all.len() == lines@.len(),
            next_header(all, from as int) == next_header(all, i as int),
        decreases lines@.len() - i,
    {
        proof {
            assert(all[i as int] == lines@[i as int]@);
        }
        match classify_line(lines[i].as_str()) {
            LineShape::Header(_) => {
                return i;
            },
            _ => {},
        }
        i = i + 1;
    }
    i
}

/// The line `key = value`.
fn make_setting_line(key: &str, value: &str) -> (line: String)
    ensures
        line@ == setting_line(key@, value@),
{
    let mut line = String::from_str(key);
    let separator = " = ";
    proof {
        reveal_strlit(" = ");
    }
    line.append(separator);
    line.append(value);
    proof {
        assert(line@ =~= setting_line(key@, value@));
    }
    line
}

/// The line `[section]`.
fn make_header_line(section: &str) -> (line: String)
    ensures
        line@ == header_line(section@),
{
    let open = "[";
    let close = "]";
    proof {
        reveal_strlit("[");
        reveal_strlit("]");
    }
    let mut line = String::from_str(open);
    line.append(section);
    line.append(close);
    proof {
        assert(line@ =~= header_line(section@));
    }
    line
}

/// Sets one value in the lines of a configuration file.
fn apply_setting_to(lines: &mut Vec<String>, section: &str, key: &str, value: &str)
    ensures
        texts(final(lines)@) == apply_setting(texts(old(lines)@), section@, key@, value@),
{
    let line = make_setting_line(key, value);
    let ghost before = texts(lines@);
    match find_assignment(lines, section, key) {
        Some(i) => {
            lines.set(i, line);
            proof {
                assert(texts(lines@) =~= before.update(i as int, line@));
            }
        },
        None => match find_section(lines, section) {
            Some(h) => {
                assert(h < lines.len());
                let end = find_next_header(lines, h + 1);
                lines.insert(end, line);
                proof {
                    assert(texts(lines@) =~= before.insert(end as int, line@));
                }
            },
            None => {
                if lines.len() > 0 && !lines[lines.len() - 1].as_str().is_empty() {
                    lines.push(String::new());
                }
                let ghost padded = texts(lines@);
                proof {
                    if before.len() > 0 && before.last().len() > 0 {
                        assert(padded =~= before.push(Seq::empty()));
                    } else {
                        if before.len() > 0 {
                            assert(before.last() == lines@[lines@.len() - 1]@);
                            assert(lines@[lines@.len() - 1]@.len() == 0);
                        }
                        assert(padded =~= before);
                    }
                }
                lines.push(make_header_line(section));
                lines.push(line);
                proof {
                    assert(texts(lines@) =~= padded.push(header_line(section@)).push(line@));
                }
            },
        },
    }
}

/// The text of a configuration file after the changes: each change sets its
/// field's key in its field's section to its value, in order, and every
/// other line stays as it was.
pub fn update_config_text(existing: &str, changes: &[(&ConfigField, String)]) -> (updated: String)
    ensures
        updated@ == updated_config(existing@, change_settings(changes@)),
{
    let mut lines = split_lines(existing);
    let ghost settings = change_settings(changes@);
    let mut i: usize = 0;
    while i < changes.len()
        invariant
            i <= changes@.len(),
            settings == change_settings(changes@),
            settings.len() == changes@.len(),
            texts(lines@) == apply_settings(lines_of(existing@), settings.take(i as int)),
        decreases changes@.len() - i,
    {
        let (field, value) = &changes[i];
        let (section, key) = field.section_key();
        apply_setting_to(&mut lines, section, key, value.as_str());
        proof {
            assert(settings.take(i + 1).drop_last() =~= settings.take(i as int));
            assert(settings.take(i + 1).last() == settings[i as int]);
        }
        i = i + 1;
    }
    proof {
        assert(settings.take(i as int) =~= settings);
    }
    let mut output = String::new();
    let mut j: usize = 0;
    while j < lines.len()
        invariant
            j <= lines@.len(),
            output@ == terminated(texts(lines@).take(j as int)),
        decreases lines@.len() - j,
    {
        output.append(lines[j].as_str());
        let newline = "\n";
        proof {
            reveal_strlit("\n");
            assert(texts(lines@).take(j + 1).drop_last() =~= texts(lines@).take(j as int));
        }
        output.append(newline);
        proof {
            assert(output@ =~= terminated(texts(lines@).take(j + 1)));
        }
        j = j + 1;
    }
    proof {
        assert(texts(lines@).take(j as int) =~= texts(lines@));
    }
    if lines.len() == 0 {
        let newline = "\n";
        proof {
            reveal_strlit("\n");
        }
        output.append(newline);
    }
    output
}


// ---------------------------------------------------------------------------
// Reading back what was written.
// ---------------------------------------------------------------------------
/// Line `j` assigns, as reading sees it, the value of the lowercased
/// section and key `k`.
pub open spec fn reads_key(lines: Seq<Seq<char>>, j: int, k: (Seq<char>, Seq<char>)) -> bool {
    let t = trim(lines[j]);
    is_assignment(t) && lower_chars(section_before(lines, j)) == k.0 && lower_chars(assignment_key(t)) == k.1
}

/// A text without white space at either end.
pub open spec fn plain_text(s: Seq<char>) -> bool {
    s.len() == 0 || (!is_white_space(s[0]) && !is_white_space(s.last()))
}

/// A setting whose line reads back as itself: section, key and value
/// without white space at their ends, a key without `=` that does not make
/// its line a comment or a header.
pub open spec fn writable_setting(section: Seq<char>, key: Seq<char>, value: Seq<char>) -> bool {
    &&& plain_text(section)
    &&& plain_text(key)
    &&& plain_text(value)
    &&& forall|i: int| 0 <= i < key.len() ==> key[i] != '='
    &&& key.len() > 0 ==> key[0] != '#' && key[0] != ';' && !(key[0] == '[' && value.len() > 0 && value.last()
        == ']')
}

/// Every line that assigns the key in the section, but the first, assigns
/// the value being written.
pub open spec fn other_assignments_agree(lines: Seq<Seq<char>>, section: Seq<char>, key: Seq<char>, value: Seq<char>) -> bool {
    forall|j: int|
        0 <= j < lines.len() && #[trigger] assigns(lines, j, section, key) && j != first_assignment(lines, section, key, 0)
            ==> assignment_value(trim(lines[j])) == value
}

proof fn lemma_same_ignoring_case(a: Seq<char>, b: Seq<char>)
    ensures
        same_ignoring_case(a, b) <==> lower_chars(a) == lower_chars(b),
{
    if same_ignoring_case(a, b) {
        assert(lower_chars(a) =~= lower_chars(b));
    }
    if lower_chars(a) == lower_chars(b) {
        assert(lower_chars(a).len() == a.len());
        assert forall|i: int| 0 <= i < a.len() implies lower_char(#[trigger] a[i]) == lower_char(b[i]) by {
            assert(lower_chars(a)[i] == lower_chars(b)[i]);
        }
    }
}

proof fn lemma_section_state(lines: Seq<Seq<char>>, n: int)
    requires
        0 <= n <= lines.len(),
    ensures
        parse_lines(lines.subrange(0, n)).0 == lower_chars(section_before(lines, n)),
    decreases n,
{
    if n == 0 {
        assert(lower_chars(Seq::<char>::empty()) =~= Seq::<char>::empty());
        assert(lines.subrange(0, 0) =~= Seq::<Seq<char>>::empty());
    } else {
        lemma_section_state(lines, n - 1);
        let p = lines.subrange(0, n);
        assert(p.drop_last() =~= lines.subrange(0, n - 1));
        assert(p.last() == lines[n - 1]);
    }
}

/// The last line before `n` that reads the key `k`, or `-1`.
pub open spec fn last_reader(lines: Seq<Seq<char>>, k: (Seq<char>, Seq<char>), n: int) -> int
    decreases n,
{
    if n <= 0 {
        -1
    } else if reads_key(lines, n - 1, k) {
        n - 1
    } else {
        last_reader(lines, k, n - 1)
    }
}

/// Reading the first `n` lines holds a value for `k` exactly where one of
/// them reads it, and then the value the last of them assigns.
proof fn lemma_parse_reads(lines: Seq<Seq<char>>, k: (Seq<char>, Seq<char>), n: int)
    requires
        0 <= n <= lines.len(),
    ensures
        -1 <= last_reader(lines, k, n) < n,
        last_reader(lines, k, n) >= 0 ==> reads_key(lines, last_reader(lines, k, n), k),
        parse_lines(lines.subrange(0, n)).1.contains_key(k) <==> last_reader(lines, k, n) >= 0,
        last_reader(lines, k, n) >= 0 ==> parse_lines(lines.subrange(0, n)).1[k] == assignment_value(
            trim(lines[last_reader(lines, k, n)]),
        ),
    decreases n,
{
    if n > 0 {
        lemma_parse_reads(lines, k, n - 1);
        lemma_section_state(lines, n - 1);
        let p = lines.subrange(0, n);
        assert(p.drop_last() =~= lines.subrange(0, n - 1));
        assert(p.last() == lines[n - 1]);
    }
}

/// Two texts whose first `n` lines read `k` at the same places, with the
/// same values, have the same last reader of `k` among them.
proof fn lemma_same_readers(a: Seq<Seq<char>>, b: Seq<Seq<char>>, k: (Seq<char>, Seq<char>), n: int)
    requires
        0 <= n <= a.len(),
        n <= b.len(),
        forall|j: int| 0 <= j < n ==> #[trigger] reads_key(a, j, k) == reads_key(b, j, k),
    ensures
        last_reader(a, k, n) == last_reader(b, k, n),
    decreases n,
{
    if n > 0 {
        assert(reads_key(a, n - 1, k) == reads_key(b, n - 1, k));
        lemma_same_readers(a, b, k, n - 1);
    }
}

/// Inserting at `p` a line that does not read `k` moves the readers of `k`
/// from `p` on one line down.
proof fn lemma_inserted_readers(lines: Seq<Seq<char>>, x: Seq<char>, p: int, k: (Seq<char>, Seq<char>), n: int)
    requires
        0 <= p <= lines.len(),
        0 <= n <= lines.len() + 1,
        !reads_key(lines.insert(p, x), p, k),
        forall|j: int| 0 <= j < p ==> #[trigger] reads_key(lines.insert(p, x), j, k) == reads_key(lines, j, k),
        forall|j: int| p < j <= lines.len() ==> #[trigger] reads_key(lines.insert(p, x), j, k) == reads_key(
            lines,
            j - 1,
            k,
        ),
    ensures
        n <= p ==> last_reader(lines.insert(p, x), k, n) == last_reader(lines, k, n),
        n > p ==> last_reader(lines.insert(p, x), k, n) == (if last_reader(lines, k, n - 1) >= p {
            last_reader(lines, k, n - 1) + 1
        } else {
            last_reader(lines, k, n - 1)
        }),
    decreases n,
{
    let written = lines.insert(p, x);
    if n > 0 {
        lemma_inserted_readers(lines, x, p, k, n - 1);
        lemma_parse_reads(lines, k, n - 1);
        if n - 1 < p {
            assert(reads_key(written, n - 1, k) == reads_key(lines, n - 1, k));
        } else if n - 1 > p {
            assert(reads_key(written, n - 1, k) == reads_key(lines, n - 2, k));
            lemma_parse_reads(lines, k, n - 2);
        } else {
            assert(!reads_key(written, n - 1, k));
        }
    }
}

/// Writing a setting leaves every other setting as reading finds it: each
/// other section and key holds a value after the write exactly where it
/// held one before, and the same value.
pub proof fn other_settings_keep_their_values(
    lines: Seq<Seq<char>>,
    section: Seq<char>,
    key: Seq<char>,
    value: Seq<char>,
    other: (Seq<char>, Seq<char>),
)
    requires
        writable_setting(section, key, value),
        other != (lower_chars(section), lower_chars(key)),
    ensures
        ({
            let written = apply_setting(lines, section, key, value);
            &&& parse_lines(written).1.contains_key(other) == parse_lines(lines).1.contains_key(other)
            &&& parse_lines(lines).1.contains_key(other) ==> parse_lines(written).1[other] == parse_lines(lines).1[other]
        }),
{
    let line = setting_line(key, value);
    let written = apply_setting(lines, section, key, value);
    let k = (lower_chars(section), lower_chars(key));
    lemma_setting_line(key, value);
    lemma_first_assignment(lines, section, key, 0);
    let t = trim(line);
    assert(!is_section_header(t));
    let i = first_assignment(lines, section, key, 0);
    assert(written.subrange(0, written.len() as int) =~= written);
    assert(lines.subrange(0, lines.len() as int) =~= lines);
    lemma_parse_reads(lines, other, lines.len() as int);
    lemma_parse_reads(written, other, written.len() as int);
    let r = last_reader(lines, other, lines.len() as int);
    if i >= 0 {
        assert(written == lines.update(i, line));
        assert forall|j: int| 0 <= j < lines.len() implies #[trigger] reads_key(written, j, other) == reads_key(
            lines,
            j,
            other,
        ) by {
            lemma_section_before_update(lines, i, line, j);
            if j == i {
                lemma_same_ignoring_case(section_before(lines, i), section);
                lemma_same_ignoring_case(assignment_key(trim(lines[i])), key);
            }
        }
        lemma_same_readers(written, lines, other, lines.len() as int);
        if r >= 0 {
            if r == i {
                lemma_same_ignoring_case(section_before(lines, i), section);
                lemma_same_ignoring_case(assignment_key(trim(lines[i])), key);
            }
            assert(written[r] == lines[r]);
        }
    } else {
        let h = first_header_of(lines, section, 0);
        lemma_first_header(lines, section, 0);
        if h >= 0 {
            let p = next_header(lines, h + 1);
            lemma_next_header(lines, h + 1);
            assert(written == lines.insert(p, line));
            lemma_section_before_prefix(written, lines, p);
            lemma_section_after_header(lines, h, p);
            lemma_same_ignoring_case(header_name(trim(lines[h])), section);
            lemma_same_ignoring_case(section, section);
            assert(reads_key(written, p, k));
            assert forall|j: int| 0 <= j < p implies #[trigger] reads_key(written, j, other) == reads_key(
                lines,
                j,
                other,
            ) by {
                lemma_section_before_prefix(written, lines, j);
            }
            assert forall|j: int| p < j <= lines.len() implies #[trigger] reads_key(written, j, other) == reads_key(
                lines,
                j - 1,
                other,
            ) by {
                lemma_section_before_insert(lines, p, line, j);
            }
            lemma_inserted_readers(lines, line, p, other, lines.len() as int + 1);
            if r >= 0 {
                if r >= p {
                    assert(written[r + 1] == lines[r]);
                } else {
                    assert(written[r] == lines[r]);
                }
            }
        } else {
            let padded = if lines.len() > 0 && lines.last().len() > 0 {
                lines.push(Seq::empty())
            } else {
                lines
            };
            let header = header_line(section);
            assert(written == padded.push(header).push(line));
            lemma_header_line(section);
            assert(written[padded.len() as int] == header);
            let q = padded.len() as int + 1;
            assert(section_before(written, q) == section);
            lemma_same_ignoring_case(section, section);
            assert(reads_key(written, q, k));
            assert(!reads_key(written, padded.len() as int, other));
            if padded.len() > lines.len() {
                assert(written[lines.len() as int] == Seq::<char>::empty());
                assert(trim(Seq::<char>::empty()) =~= Seq::<char>::empty());
                lemma_index_of_char(Seq::<char>::empty(), '=', 0);
                assert(!reads_key(written, lines.len() as int, other));
            }
            assert forall|j: int| 0 <= j < lines.len() implies #[trigger] reads_key(written, j, other) == reads_key(
                lines,
                j,
                other,
            ) by {
                lemma_section_before_prefix(written, lines, j);
                assert(written[j] == lines[j]);
            }
            lemma_same_readers(written, lines, other, lines.len() as int);
            assert(!reads_key(written, q, other));
            assert(last_reader(written, other, q + 1) == last_reader(written, other, q));
            assert(last_reader(written, other, q) == last_reader(written, other, padded.len() as int));
            if padded.len() > lines.len() {
                assert(last_reader(written, other, padded.len() as int) == last_reader(
                    written,
                    other,
                    lines.len() as int,
                ));
            }
            if r >= 0 {
                assert(written[r] == lines[r]);
            }
        }
    }
}

/// Every line before `n` that reads the key assigns `value`.
pub open spec fn readers_agree(lines: Seq<Seq<char>>, n: int, k: (Seq<char>, Seq<char>), value: Seq<char>) -> bool {
    forall|j: int| 0 <= j < n && #[trigger] reads_key(lines, j, k) ==> assignment_value(trim(lines[j])) == value
}

proof fn lemma_read_value(lines: Seq<Seq<char>>, n: int, k: (Seq<char>, Seq<char>), value: Seq<char>)
    requires
        0 <= n <= lines.len(),
        readers_agree(lines, n, k, value),
    ensures
        (exists|j: int| 0 <= j < n && #[trigger] reads_key(lines, j, k)) ==> parse_lines(
            lines.subrange(0, n),
        ).1.contains_key(k) && parse_lines(lines.subrange(0, n)).1[k] == value,
    decreases n,
{
    if n > 0 {
        lemma_read_value(lines, n - 1, k, value);
        lemma_section_state(lines, n - 1);
        let p = lines.subrange(0, n);
        assert(p.drop_last() =~= lines.subrange(0, n - 1));
        assert(p.last() == lines[n - 1]);
        if exists|j: int| 0 <= j < n && #[trigger] reads_key(lines, j, k) {
            if !reads_key(lines, n - 1, k) {
                let j = choose|j: int| 0 <= j < n && #[trigger] reads_key(lines, j, k);
                assert(j < n - 1);
                assert(exists|j: int| 0 <= j < n - 1 && #[trigger] reads_key(lines, j, k));
            }
        }
    }
}

proof fn lemma_section_before_prefix(a: Seq<Seq<char>>, b: Seq<Seq<char>>, r: int)
    requires
        0 <= r <= a.len(),
        r <= b.len(),
        forall|j: int| 0 <= j < r ==> a[j] == b[j],
    ensures
        section_before(a, r) == section_before(b, r),
    decreases r,
{
    if r > 0 {
        lemma_section_before_prefix(a, b, r - 1);
    }
}

proof fn lemma_section_before_update(lines: Seq<Seq<char>>, i: int, x: Seq<char>, r: int)
    requires
        0 <= i < lines.len(),
        0 <= r <= lines.len(),
        !is_section_header(trim(lines[i])),
        !is_section_header(trim(x)),
    ensures
        section_before(lines.update(i, x), r) == section_before(lines, r),
    decreases r,
{
    if r > 0 {
        lemma_section_before_update(lines, i, x, r - 1);
    }
}

proof fn lemma_section_before_insert(lines: Seq<Seq<char>>, p: int, x: Seq<char>, r: int)
    requires
        0 <= p <= lines.len(),
        p < r <= lines.len() + 1,
        !is_section_header(trim(x)),
    ensures
        section_before(lines.insert(p, x), r) == section_before(lines, r - 1),
    decreases r,
{
    let l2 = lines.insert(p, x);
    if r == p + 1 {
        assert(l2[p] == x);
        lemma_section_before_prefix(l2, lines, p);
    } else {
        lemma_section_before_insert(lines, p, x, r - 1);
        assert(l2[r - 1] == lines[r - 2]);
    }
}

proof fn lemma_section_after_header(lines: Seq<Seq<char>>, h: int, p: int)
    requires
        0 <= h < p <= lines.len(),
        is_section_header(trim(lines[h])),
        forall|j: int| h < j < p ==> !is_section_header(#[trigger] trim(lines[j])),
    ensures
        section_before(lines, p) == header_name(trim(lines[h])),
    decreases p,
{
    if p > h + 1 {
        lemma_section_after_header(lines, h, p - 1);
    }
}

proof fn lemma_no_assignment(lines: Seq<Seq<char>>, section: Seq<char>, key: Seq<char>, i: int)
    requires
        0 <= i,
        first_assignment(lines, section, key, i) == -1,
    ensures
        forall|j: int| i <= j < lines.len() ==> !#[trigger] assigns(lines, j, section, key),
    decreases lines.len() - i,
{
    if i < lines.len() {
        lemma_no_assignment(lines, section, key, i + 1);
    }
}

proof fn lemma_first_assignment(lines: Seq<Seq<char>>, section: Seq<char>, key: Seq<char>, i: int)
    requires
        0 <= i,
    ensures
        first_assignment(lines, section, key, i) == -1 || (i <= first_assignment(lines, section, key, i) < lines.len()
            && assigns(lines, first_assignment(lines, section, key, i), section, key)),
    decreases lines.len() - i,
{
    if i < lines.len() && !assigns(lines, i, section, key) {
        lemma_first_assignment(lines, section, key, i + 1);
    }
}

proof fn lemma_first_header(lines: Seq<Seq<char>>, section: Seq<char>, i: int)
    requires
        0 <= i,
    ensures
        first_header_of(lines, section, i) == -1 || (i <= first_header_of(lines, section, i) < lines.len()
            && opens_section(lines[first_header_of(lines, section, i)], section)),
    decreases lines.len() - i,
{
    if i < lines.len() && !opens_section(lines[i], section) {
        lemma_first_header(lines, section, i + 1);
    }
}

proof fn lemma_next_header(lines: Seq<Seq<char>>, i: int)
    requires
        0 <= i <= lines.len(),
    ensures
        i <= next_header(lines, i) <= lines.len(),
        forall|j: int| i <= j < next_header(lines, i) ==> !is_section_header(#[trigger] trim(lines[j])),
    decreases lines.len() - i,
{
    if i < lines.len() && !is_section_header(trim(lines[i])) {
        lemma_next_header(lines, i + 1);
    }
}

proof fn lemma_trim_end_space(s: Seq<char>)
    ensures
        trim_end(s.push(' ')) == trim_end(s),
{
    assert(s.push(' ').drop_last() =~= s);
}

proof fn lemma_trim_start_space(s: Seq<char>)
    ensures
        trim_start(seq![' '] + s) == trim_start(s),
{
    assert((seq![' '] + s).drop_first() =~= s);
}

/// The trimmed setting line splits at its first `=` into the key, with a
/// space after it, and the value, with a space before it.
proof fn lemma_setting_line(key: Seq<char>, value: Seq<char>)
    requires
        writable_setting(Seq::empty(), key, value),
    ensures
        is_assignment(trim(setting_line(key, value))),
        assignment_key(trim(setting_line(key, value))) == key,
        assignment_value(trim(setting_line(key, value))) == value,
{
    let line = setting_line(key, value);
    let pre = if key.len() > 0 {
        key.push(' ')
    } else {
        Seq::empty()
    };
    let post = if value.len() > 0 {
        seq![' '] + value
    } else {
        Seq::empty()
    };
    let t = pre + seq!['='] + post;
    if key.len() > 0 {
        assert(line[0] == key[0]);
        assert(trim_start(line) == line);
        if value.len() > 0 {
            assert(line.last() == value.last());
            assert(trim_end(line) == line);
            assert(line =~= t);
        } else {
            assert(line =~= (key + seq![' ', '=']).push(' '));
            lemma_trim_end_space(key + seq![' ', '=']);
            assert((key + seq![' ', '=']).last() == '=');
            assert(trim_end(key + seq![' ', '=']) == key + seq![' ', '=']);
            assert(key + seq![' ', '='] =~= t);
        }
    } else {
        assert(line =~= seq![' '] + (seq!['=', ' '] + value));
        lemma_trim_start_space(seq!['=', ' '] + value);
        assert((seq!['=', ' '] + value)[0] == '=');
        assert(trim_start(line) == seq!['=', ' '] + value);
        if value.len() > 0 {
            assert((seq!['=', ' '] + value).last() == value.last());
            assert(seq!['=', ' '] + value =~= t);
        } else {
            assert(seq!['=', ' '] + value =~= seq!['='].push(' '));
            lemma_trim_end_space(seq!['=']);
            assert(seq!['='] =~= t);
        }
    }
    assert(trim(line) == t);
    assert(t[pre.len() as int] == '=');
    lemma_index_of_char(t, '=', 0);
    assert forall|j: int| 0 <= j < pre.len() implies t[j] != '=' by {
        assert(t[j] == pre[j]);
        if j < key.len() {
            assert(pre[j] == key[j]);
        }
    }
    assert(equals_index(t) == pre.len());
    assert(t.subrange(0, pre.len() as int) =~= pre);
    assert(t.subrange(pre.len() as int + 1, t.len() as int) =~= post);
    if key.len() > 0 {
        lemma_trim_end_space(key);
        assert(pre[0] == key[0]);
        assert(trim_start(pre) == pre);
        assert(trim(pre) == key);
    } else {
        assert(trim(pre) =~= key);
    }
    if value.len() > 0 {
        lemma_trim_start_space(value);
        assert(trim(post) == value);
    } else {
        assert(trim(post) =~= value);
    }
    if key.len() > 0 {
        assert(t[0] == key[0]);
        if value.len() > 0 {
            assert(t.last() == value.last());
        } else {
            assert(t.last() == '=');
        }
    } else {
        assert(t[0] == '=');
    }
}

/// A header line of a section opens that section.
proof fn lemma_header_line(section: Seq<char>)
    requires
        plain_text(section),
    ensures
        is_section_header(trim(header_line(section))),
        header_name(trim(header_line(section))) == section,
{
    let h = header_line(section);
    assert(h[0] == '[');
    assert(h.last() == ']');
    assert(trim(h) == h);
    assert(h.subrange(1, h.len() - 1) =~= section);
}

/// A setting written into the lines of a configuration file reads back:
/// afterwards the lines map the lowercased section and key to the value
/// written. This holds where the setting's line reads as itself and every
/// other line that assigned the key in the section held the same value.
pub proof fn written_setting_is_read_back(lines: Seq<Seq<char>>, section: Seq<char>, key: Seq<char>, value: Seq<char>)
    requires
        writable_setting(section, key, value),
        other_assignments_agree(lines, section, key, value),
    ensures
        ({
            let written = apply_setting(lines, section, key, value);
            let k = (lower_chars(section), lower_chars(key));
            parse_lines(written).1.contains_key(k) && parse_lines(written).1[k] == value
        }),
{
    let line = setting_line(key, value);
    let written = apply_setting(lines, section, key, value);
    let k = (lower_chars(section), lower_chars(key));
    lemma_setting_line(key, value);
    lemma_first_assignment(lines, section, key, 0);
    lemma_same_ignoring_case(key, key);
    let t = trim(line);
    assert(!is_section_header(t));
    let i = first_assignment(lines, section, key, 0);
    let q: int;
    if i >= 0 {
        q = i;
        assert(written == lines.update(i, line));
        assert forall|r: int| 0 <= r <= lines.len() implies section_before(written, r) == section_before(lines, r) by {
            lemma_section_before_update(lines, i, line, r);
        }
        lemma_same_ignoring_case(section_before(lines, i), section);
        assert(reads_key(written, q, k));
        assert forall|j: int| 0 <= j < written.len() && #[trigger] reads_key(written, j, k) implies assignment_value(
            trim(written[j]),
        ) == value by {
            if j != i {
                assert(written[j] == lines[j]);
                lemma_same_ignoring_case(section_before(lines, j), section);
                lemma_same_ignoring_case(assignment_key(trim(lines[j])), key);
                assert(assigns(lines, j, section, key));
            }
        }
    } else {
        lemma_no_assignment(lines, section, key, 0);
        let h = first_header_of(lines, section, 0);
        lemma_first_header(lines, section, 0);
        if h >= 0 {
            let p = next_header(lines, h + 1);
            lemma_next_header(lines, h + 1);
            q = p;
            assert(written == lines.insert(p, line));
            assert(written[p] == line);
            lemma_section_before_prefix(written, lines, p);
            lemma_section_after_header(lines, h, p);
            lemma_same_ignoring_case(header_name(trim(lines[h])), section);
            assert(reads_key(written, q, k));
            assert forall|j: int| 0 <= j < written.len() && #[trigger] reads_key(written, j, k) implies assignment_value(
                trim(written[j]),
            ) == value by {
                if j < p {
                    assert(written[j] == lines[j]);
                    lemma_section_before_prefix(written, lines, j);
                    lemma_same_ignoring_case(section_before(lines, j), section);
                    lemma_same_ignoring_case(assignment_key(trim(lines[j])), key);
                    assert(assigns(lines, j, section, key));
                } else if j > p {
                    assert(written[j] == lines[j - 1]);
                    lemma_section_before_insert(lines, p, line, j);
                    lemma_same_ignoring_case(section_before(lines, j - 1), section);
                    lemma_same_ignoring_case(assignment_key(trim(lines[j - 1])), key);
                    assert(assigns(lines, j - 1, section, key));
                }
            }
        } else {
            let padded = if lines.len() > 0 && lines.last().len() > 0 {
                lines.push(Seq::empty())
            } else {
                lines
            };
            let header = header_line(section);
            assert(written == padded.push(header).push(line));
            q = padded.len() as int + 1;
            lemma_header_line(section);
            assert(written[padded.len() as int] == header);
            assert(written[q] == line);
            lemma_same_ignoring_case(section, section);
            assert(section_before(written, q) == section);
            assert(reads_key(written, q, k));
            assert forall|j: int| 0 <= j < written.len() && #[trigger] reads_key(written, j, k) implies assignment_value(
                trim(written[j]),
            ) == value by {
                if j < padded.len() {
                    lemma_section_before_prefix(written, padded, j);
                    if j < lines.len() {
                        assert(written[j] == lines[j]);
                        lemma_section_before_prefix(padded, lines, j);
                        lemma_same_ignoring_case(section_before(lines, j), section);
                        lemma_same_ignoring_case(assignment_key(trim(lines[j])), key);
                        assert(assigns(lines, j, section, key));
                    } else {
                        assert(written[j] == Seq::<char>::empty());
                        assert(trim(Seq::<char>::empty()) =~= Seq::<char>::empty());
                        lemma_index_of_char(Seq::<char>::empty(), '=', 0);
                    }
                } else if j == padded.len() {
                    assert(!is_assignment(trim(written[j])));
                }
            }
        }
    }
    assert(written.subrange(0, written.len() as int) =~= written);
    lemma_read_value(written, written.len() as int, k, value);
}


/// At most one line reads the key `k`.
pub open spec fn lone_reader(lines: Seq<Seq<char>>, k: (Seq<char>, Seq<char>)) -> bool {
    forall|a: int, b: int|
        0 <= a < b < lines.len() ==> !(#[trigger] reads_key(lines, a, k) && #[trigger] reads_key(lines, b, k))
}

/// Writing one setting keeps every other key read by at most one line
/// where it was before.
proof fn lemma_lone_reader_kept(
    lines: Seq<Seq<char>>,
    section: Seq<char>,
    key: Seq<char>,
    value: Seq<char>,
    other: (Seq<char>, Seq<char>),
)
    requires
        writable_setting(section, key, value),
        other != (lower_chars(section), lower_chars(key)),
        lone_reader(lines, other),
    ensures
        lone_reader(apply_setting(lines, section, key, value), other),
{
    let line = setting_line(key, value);
    let written = apply_setting(lines, section, key, value);
    let k = (lower_chars(section), lower_chars(key));
    lemma_setting_line(key, value);
    lemma_first_assignment(lines, section, key, 0);
    let t = trim(line);
    assert(!is_section_header(t));
    let i = first_assignment(lines, section, key, 0);
    if i >= 0 {
        assert(written == lines.update(i, line));
        assert forall|j: int| 0 <= j < lines.len() implies #[trigger] reads_key(written, j, other) == reads_key(
            lines,
            j,
            other,
        ) by {
            lemma_section_before_update(lines, i, line, j);
            if j == i {
                lemma_same_ignoring_case(section_before(lines, i), section);
                lemma_same_ignoring_case(assignment_key(trim(lines[i])), key);
            }
        }
        assert forall|a: int, b: int| 0 <= a < b < written.len() implies !(#[trigger] reads_key(written, a, other)
            && #[trigger] reads_key(written, b, other)) by {
            assert(reads_key(written, a, other) == reads_key(lines, a, other));
            assert(reads_key(written, b, other) == reads_key(lines, b, other));
        }
    } else {
        let h = first_header_of(lines, section, 0);
        lemma_first_header(lines, section, 0);
        if h >= 0 {
            let p = next_header(lines, h + 1);
            lemma_next_header(lines, h + 1);
            assert(written == lines.insert(p, line));
            lemma_section_before_prefix(written, lines, p);
            lemma_section_after_header(lines, h, p);
            lemma_same_ignoring_case(header_name(trim(lines[h])), section);
            lemma_same_ignoring_case(section, section);
            assert(reads_key(written, p, k));
            assert(!reads_key(written, p, other));
            assert forall|j: int| 0 <= j < p implies #[trigger] reads_key(written, j, other) == reads_key(
                lines,
                j,
                other,
            ) by {
                lemma_section_before_prefix(written, lines, j);
            }
            assert forall|j: int| p < j <= lines.len() implies #[trigger] reads_key(written, j, other) == reads_key(
                lines,
                j - 1,
                other,
            ) by {
                lemma_section_before_insert(lines, p, line, j);
            }
            assert forall|a: int, b: int| 0 <= a < b < written.len() implies !(#[trigger] reads_key(
                written,
                a,
                other,
            ) && #[trigger] reads_key(written, b, other)) by {
                if reads_key(written, a, other) && reads_key(written, b, other) {
                    let a2 = if a < p { a } else { a - 1 };
                    let b2 = if b < p { b } else { b - 1 };
                    assert(reads_key(lines, a2, other));
                    assert(reads_key(lines, b2, other));
                    assert(a2 < b2);
                }
            }
        } else {
            let padded = if lines.len() > 0 && lines.last().len() > 0 {
                lines.push(Seq::empty())
            } else {
                lines
            };
            let header = header_line(section);
            assert(written == padded.push(header).push(line));
            lemma_header_line(section);
            assert(written[padded.len() as int] == header);
            let q = padded.len() as int + 1;
            assert(section_before(written, q) == section);
            lemma_same_ignoring_case(section, section);
            assert(reads_key(written, q, k));
            assert(!reads_key(written, q, other));
            assert(!reads_key(written, padded.len() as int, other));
            if padded.len() > lines.len() {
                assert(written[lines.len() as int] == Seq::<char>::empty());
                assert(trim(Seq::<char>::empty()) =~= Seq::<char>::empty());
                lemma_index_of_char(Seq::<char>::empty(), '=', 0);
                assert(!reads_key(written, lines.len() as int, other));
            }
            assert forall|j: int| 0 <= j < lines.len() implies #[trigger] reads_key(written, j, other) == reads_key(
                lines,
                j,
                other,
            ) by {
                lemma_section_before_prefix(written, lines, j);
                assert(written[j] == lines[j]);
            }
            assert forall|a: int, b: int| 0 <= a < b < written.len() implies !(#[trigger] reads_key(
                written,
                a,
                other,
            ) && #[trigger] reads_key(written, b, other)) by {
                if reads_key(written, a, other) && reads_key(written, b, other) {
                    assert(b < lines.len());
                    assert(reads_key(lines, a, other));
                    assert(reads_key(lines, b, other));
                }
            }
        }
    }
}

/// A key read by at most one line has no other assignment to disagree with
/// a value written to it.
proof fn lemma_lone_reader_agrees(lines: Seq<Seq<char>>, section: Seq<char>, key: Seq<char>, value: Seq<char>)
    requires
        lone_reader(lines, (lower_chars(section), lower_chars(key))),
    ensures
        other_assignments_agree(lines, section, key, value),
{
    let k = (lower_chars(section), lower_chars(key));
    lemma_first_assignment(lines, section, key, 0);
    let f = first_assignment(lines, section, key, 0);
    assert forall|j: int|
        0 <= j < lines.len() && #[trigger] assigns(lines, j, section, key) && j != f implies assignment_value(
        trim(lines[j]),
    ) == value by {
        lemma_same_ignoring_case(section_before(lines, j), section);
        lemma_same_ignoring_case(assignment_key(trim(lines[j])), key);
        assert(reads_key(lines, j, k));
        if f == -1 {
            lemma_no_assignment(lines, section, key, 0);
        }
        lemma_same_ignoring_case(section_before(lines, f), section);
        lemma_same_ignoring_case(assignment_key(trim(lines[f])), key);
        assert(reads_key(lines, f, k));
        if f < j {
            assert(!(reads_key(lines, f, k) && reads_key(lines, j, k)));
        } else {
            assert(!(reads_key(lines, j, k) && reads_key(lines, f, k)));
        }
    }
}

/// The lowercased section and key that reading files a setting under.
pub open spec fn setting_key(setting: (Seq<char>, Seq<char>, Seq<char>)) -> (Seq<char>, Seq<char>) {
    (lower_chars(setting.0), lower_chars(setting.1))
}

proof fn lemma_lone_reader_after(
    lines: Seq<Seq<char>>,
    settings: Seq<(Seq<char>, Seq<char>, Seq<char>)>,
    k: (Seq<char>, Seq<char>),
)
    requires
        forall|i: int| 0 <= i < settings.len() ==> writable_setting(#[trigger] settings[i].0, settings[i].1, settings[i].2),
        forall|i: int| 0 <= i < settings.len() ==> #[trigger] setting_key(settings[i]) != k,
        lone_reader(lines, k),
    ensures
        lone_reader(apply_settings(lines, settings), k),
    decreases settings.len(),
{
    if settings.len() > 0 {
        let prev = settings.drop_last();
        let last = settings.len() - 1;
        assert forall|i: int| 0 <= i < prev.len() implies prev[i] == settings[i] by {}
        assert forall|i: int| 0 <= i < prev.len() implies writable_setting(#[trigger] prev[i].0, prev[i].1, prev[i].2) by {
            assert(prev[i] == settings[i]);
        }
        assert forall|i: int| 0 <= i < prev.len() implies #[trigger] setting_key(prev[i]) != k by {
            assert(prev[i] == settings[i]);
        }
        lemma_lone_reader_after(lines, prev, k);
        let s = settings[last];
        assert(writable_setting(s.0, s.1, s.2));
        assert(setting_key(s) != k);
        lemma_lone_reader_kept(apply_settings(lines, prev), s.0, s.1, s.2, k);
    }
}

/// Several settings with different sections or keys, written one after
/// another, all read back: afterwards the lines map each lowercased section
/// and key to the value written for it, and every other key as before. This
/// holds where each setting's line reads as itself and no key written was
/// assigned by more than one line before.
pub proof fn written_settings_are_read_back(lines: Seq<Seq<char>>, settings: Seq<(Seq<char>, Seq<char>, Seq<char>)>)
    requires
        forall|i: int| 0 <= i < settings.len() ==> writable_setting(#[trigger] settings[i].0, settings[i].1, settings[i].2),
        forall|i: int, j: int|
            0 <= i < j < settings.len() ==> #[trigger] setting_key(settings[i]) != #[trigger] setting_key(settings[j]),
        forall|i: int| 0 <= i < settings.len() ==> lone_reader(lines, #[trigger] setting_key(settings[i])),
    ensures
        ({
            let values = parse_lines(apply_settings(lines, settings)).1;
            &&& forall|i: int|
                0 <= i < settings.len() ==> values.contains_key(#[trigger] setting_key(settings[i]))
                    && values[setting_key(settings[i])] == settings[i].2
            &&& forall|other: (Seq<char>, Seq<char>)|
                #![trigger values.contains_key(other)]
                (forall|i: int| 0 <= i < settings.len() ==> #[trigger] setting_key(settings[i]) != other) ==> (
                values.contains_key(other) == parse_lines(lines).1.contains_key(other) && (parse_lines(
                    lines,
                ).1.contains_key(other) ==> values[other] == parse_lines(lines).1[other]))
        }),
    decreases settings.len(),
{
    if settings.len() > 0 {
        let prev = settings.drop_last();
        let last = settings.len() - 1;
        let s = settings[last];
        assert forall|i: int| 0 <= i < prev.len() implies prev[i] == settings[i] by {}
        assert forall|i: int| 0 <= i < prev.len() implies writable_setting(#[trigger] prev[i].0, prev[i].1, prev[i].2) by {
            assert(prev[i] == settings[i]);
        }
        assert forall|i: int, j: int| 0 <= i < j < prev.len() implies #[trigger] setting_key(prev[i])
            != #[trigger] setting_key(prev[j]) by {
            assert(prev[i] == settings[i]);
            assert(prev[j] == settings[j]);
            assert(setting_key(settings[i]) != setting_key(settings[j]));
        }
        assert forall|i: int| 0 <= i < prev.len() implies lone_reader(lines, #[trigger] setting_key(prev[i])) by {
            assert(prev[i] == settings[i]);
            assert(lone_reader(lines, setting_key(settings[i])));
        }
        written_settings_are_read_back(lines, prev);
        let before = apply_settings(lines, prev);
        let values0 = parse_lines(before).1;
        let written = apply_settings(lines, settings);
        assert(written == apply_setting(before, s.0, s.1, s.2));
        let values = parse_lines(written).1;
        assert(writable_setting(s.0, s.1, s.2));
        assert forall|i: int| 0 <= i < prev.len() implies #[trigger] setting_key(prev[i]) != setting_key(s) by {
            assert(prev[i] == settings[i]);
            assert(setting_key(settings[i]) != setting_key(settings[last]));
        }
        assert(lone_reader(lines, setting_key(s)));
        lemma_lone_reader_after(lines, prev, setting_key(s));
        lemma_lone_reader_agrees(before, s.0, s.1, s.2);
        written_setting_is_read_back(before, s.0, s.1, s.2);
        assert forall|i: int| 0 <= i < settings.len() implies values.contains_key(#[trigger] setting_key(settings[i]))
            && values[setting_key(settings[i])] == settings[i].2 by {
            if i < last {
                assert(prev[i] == settings[i]);
                assert(setting_key(prev[i]) != setting_key(s));
                other_settings_keep_their_values(before, s.0, s.1, s.2, setting_key(settings[i]));
                assert(values0.contains_key(setting_key(prev[i])));
            }
        }
        assert forall|other: (Seq<char>, Seq<char>)|
            #![trigger values.contains_key(other)]
            (forall|i: int| 0 <= i < settings.len() ==> #[trigger] setting_key(settings[i]) != other) implies (
            values.contains_key(other) == parse_lines(lines).1.contains_key(other) && (parse_lines(
                lines,
            ).1.contains_key(other) ==> values[other] == parse_lines(lines).1[other])) by {
            assert(setting_key(settings[last]) != other);
            assert forall|i: int| 0 <= i < prev.len() implies #[trigger] setting_key(prev[i]) != other by {
                assert(prev[i] == settings[i]);
                assert(setting_key(settings[i]) != other);
            }
            assert(values0.contains_key(other) == parse_lines(lines).1.contains_key(other));
            assert(parse_lines(lines).1.contains_key(other) ==> values0[other] == parse_lines(lines).1[other]);
            other_settings_keep_their_values(before, s.0, s.1, s.2, other);
        }
    } else {
        assert(apply_settings(lines, settings) == lines);
    }
}

// ---------------------------------------------------------------------------
// Reading back the written text.
// ---------------------------------------------------------------------------
/// A line without its one trailing carriage return, as `str::lines` reads
/// a line that a line feed ends.
pub open spec fn without_cr(line: Seq<char>) -> Seq<char> {
    if line.len() > 0 && line.last() == '\r' {
        line.drop_last()
    } else {
        line
    }
}

/// No line holds a line feed.
pub open spec fn single_lines(lines: Seq<Seq<char>>) -> bool {
    forall|k: int| 0 <= k < lines.len() ==> !(#[trigger] lines[k]).contains('\n')
}

proof fn lemma_line_end_shift(p: Seq<char>, q: Seq<char>, j: int)
    requires
        0 <= j <= q.len(),
    ensures
        line_end(p + q, p.len() + j) == p.len() + line_end(q, j),
    decreases q.len() - j,
{
    let s = p + q;
    if j < q.len() {
        assert(s[p.len() + j] == q[j]);
        if q[j] != '\n' {
            lemma_line_end_shift(p, q, j + 1);
        }
    }
}

proof fn lemma_lines_from_shift(p: Seq<char>, q: Seq<char>, j: int)
    requires
        0 <= j <= q.len(),
    ensures
        lines_from(p + q, p.len() + j) == lines_from(q, j),
    decreases q.len() - j,
{
    let s = p + q;
    if j < q.len() {
        lemma_line_end_shift(p, q, j);
        lemma_line_end(q, j);
        let e = line_end(q, j);
        assert(s.subrange(p.len() + j, p.len() + e) =~= q.subrange(j, e));
        if e < q.len() {
            lemma_lines_from_shift(p, q, e + 1);
        }
    }
}

proof fn lemma_line_end_before(t: Seq<char>, u: Seq<char>, i: int)
    requires
        0 <= i <= t.len(),
        line_end(t, i) < t.len(),
    ensures
        line_end(t + u, i) == line_end(t, i),
    decreases t.len() - i,
{
    if i < t.len() {
        assert((t + u)[i] == t[i]);
        if t[i] != '\n' {
            lemma_line_end_before(t, u, i + 1);
        }
    }
}

proof fn lemma_lines_from_split(t: Seq<char>, u: Seq<char>, i: int)
    requires
        0 <= i <= t.len(),
        t.len() == 0 || t.last() == '\n',
    ensures
        lines_from(t + u, i) == lines_from(t, i) + lines_from(u, 0),
    decreases t.len() - i,
{
    let s = t + u;
    if i == t.len() {
        lemma_lines_from_shift(t, u, 0);
        assert(lines_from(t, i) =~= Seq::<Seq<char>>::empty());
        assert(lines_from(t, i) + lines_from(u, 0) =~= lines_from(u, 0));
    } else {
        lemma_line_end(t, i);
        let e = line_end(t, i);
        if e == t.len() {
            assert(t[t.len() - 1] == '\n');
            assert(false);
        }
        lemma_line_end_before(t, u, i);
        assert(s.subrange(i, e) =~= t.subrange(i, e));
        lemma_lines_from_split(t, u, e + 1);
        let raw = t.subrange(i, e);
        let line = if raw.len() > 0 && raw.last() == '\r' {
            raw.drop_last()
        } else {
            raw
        };
        assert(lines_from(s, i) == seq![line] + lines_from(s, e + 1));
        assert(lines_from(t, i) == seq![line] + lines_from(t, e + 1));
        assert(seq![line] + (lines_from(t, e + 1) + lines_from(u, 0)) =~= (seq![line] + lines_from(t, e + 1))
            + lines_from(u, 0));
    }
}

proof fn lemma_terminated_shape(lines: Seq<Seq<char>>)
    ensures
        terminated(lines).len() == 0 <==> lines.len() == 0,
        lines.len() > 0 ==> terminated(lines).last() == '\n',
    decreases lines.len(),
{
    if lines.len() > 0 {
        lemma_terminated_shape(lines.drop_last());
    }
}

/// Lines without line feeds, each followed by a line feed, read back as
/// themselves, each without one trailing carriage return.
proof fn lemma_lines_of_terminated(lines: Seq<Seq<char>>)
    requires
        single_lines(lines),
    ensures
        lines_of(terminated(lines)) == lines.map_values(|l: Seq<char>| without_cr(l)),
    decreases lines.len(),
{
    if lines.len() == 0 {
        assert(lines_of(terminated(lines)) =~= lines.map_values(|l: Seq<char>| without_cr(l)));
    } else {
        let prev = lines.drop_last();
        let x = lines.last();
        assert forall|k: int| 0 <= k < prev.len() implies !(#[trigger] prev[k]).contains('\n') by {
            assert(prev[k] == lines[k]);
        }
        lemma_lines_of_terminated(prev);
        lemma_terminated_shape(prev);
        let t = terminated(prev);
        let u = x + seq!['\n'];
        assert(terminated(lines) == t + x + seq!['\n']);
        assert(t + x + seq!['\n'] =~= t + u);
        lemma_lines_from_split(t, u, 0);
        assert(!x.contains('\n'));
        assert forall|k: int| 0 <= k < x.len() implies u[k] != '\n' by {
            assert(u[k] == x[k]);
            if x[k] == '\n' {
                assert(x.contains('\n'));
            }
        }
        lemma_line_end(u, 0);
        assert(u[x.len() as int] == '\n');
        assert(line_end(u, 0) == x.len()) by {
            if line_end(u, 0) < x.len() {
                assert(u[line_end(u, 0)] != '\n');
            } else if line_end(u, 0) > x.len() {
                assert(u[x.len() as int] != '\n');
            }
        }
        assert(u.subrange(0, x.len() as int) =~= x);
        assert(lines_from(u, x.len() as int + 1) =~= Seq::<Seq<char>>::empty());
        assert(lines_from(u, 0) =~= seq![without_cr(x)]);
        assert(lines_of(terminated(lines)) =~= lines.map_values(|l: Seq<char>| without_cr(l)));
    }
}

proof fn lemma_trim_without_last_space(x: Seq<char>)
    requires
        x.len() > 0,
        is_white_space(x.last()),
    ensures
        trim(x.drop_last()) == trim(x),
    decreases x.len(),
{
    if is_white_space(x[0]) {
        if x.len() == 1 {
            assert(x.drop_last() =~= Seq::<char>::empty());
            assert(x.drop_first() =~= Seq::<char>::empty());
        } else {
            let y = x.drop_first();
            assert(y.last() == x.last());
            lemma_trim_without_last_space(y);
            assert(x.drop_last()[0] == x[0]);
            assert(x.drop_last().drop_first() =~= y.drop_last());
        }
    } else {
        assert(x.len() > 1);
        assert(x.drop_last()[0] == x[0]);
        assert(trim_start(x) == x);
        assert(trim_start(x.drop_last()) == x.drop_last());
    }
}

/// Reading lines gives the same values whether or not each line has one
/// trailing carriage return taken off.
proof fn lemma_parse_without_cr(lines: Seq<Seq<char>>)
    ensures
        parse_lines(lines.map_values(|l: Seq<char>| without_cr(l))) == parse_lines(lines),
    decreases lines.len(),
{
    let m = lines.map_values(|l: Seq<char>| without_cr(l));
    if lines.len() > 0 {
        lemma_parse_without_cr(lines.drop_last());
        assert(m.drop_last() =~= lines.drop_last().map_values(|l: Seq<char>| without_cr(l)));
        let x = lines.last();
        assert(m.last() == without_cr(x));
        if x.len() > 0 && x.last() == '\r' {
            lemma_trim_without_last_space(x);
        }
        assert(trim(m.last()) == trim(x));
    }
}

/// The lines of a text hold no line feed.
proof fn lemma_lines_from_single(s: Seq<char>, i: int)
    requires
        0 <= i,
    ensures
        single_lines(lines_from(s, i)),
    decreases s.len() - i,
{
    if 0 <= i < s.len() {
        lemma_line_end(s, i);
        let j = line_end(s, i);
        let raw = s.subrange(i, j);
        assert(!raw.contains('\n')) by {
            if raw.contains('\n') {
                let k = choose|k: int| 0 <= k < raw.len() && raw[k] == '\n';
                assert(s[i + k] == '\n');
            }
        }
        let line = if j < s.len() && raw.len() > 0 && raw.last() == '\r' {
            raw.drop_last()
        } else {
            raw
        };
        assert(!line.contains('\n')) by {
            if line.contains('\n') {
                let k = choose|k: int| 0 <= k < line.len() && line[k] == '\n';
                assert(raw[k] == '\n');
            }
        }
        if j < s.len() {
            lemma_lines_from_single(s, j + 1);
            let rest = lines_from(s, j + 1);
            assert forall|k: int| 0 <= k < (seq![line] + rest).len() implies !(#[trigger] (seq![line]
                + rest)[k]).contains('\n') by {
                if k > 0 {
                    assert((seq![line] + rest)[k] == rest[k - 1]);
                }
            }
        }
    }
}

/// A setting whose section, key and value hold no line feed.
pub open spec fn single_line_setting(setting: (Seq<char>, Seq<char>, Seq<char>)) -> bool {
    !setting.0.contains('\n') && !setting.1.contains('\n') && !setting.2.contains('\n')
}

proof fn lemma_no_feed_concat(a: Seq<char>, b: Seq<char>)
    requires
        !a.contains('\n'),
        !b.contains('\n'),
    ensures
        !(a + b).contains('\n'),
{
    if (a + b).contains('\n') {
        let k = choose|k: int| 0 <= k < (a + b).len() && (a + b)[k] == '\n';
        if k < a.len() {
            assert(a[k] == '\n');
        } else {
            assert(b[k - a.len()] == '\n');
        }
    }
}

proof fn lemma_apply_setting_single(lines: Seq<Seq<char>>, setting: (Seq<char>, Seq<char>, Seq<char>))
    requires
        single_lines(lines),
        single_line_setting(setting),
    ensures
        single_lines(apply_setting(lines, setting.0, setting.1, setting.2)),
{
    let (section, key, value) = setting;
    let line = setting_line(key, value);
    let sep = seq![' ', '=', ' '];
    assert(!sep.contains('\n')) by {
        if sep.contains('\n') {
            let k = choose|k: int| 0 <= k < sep.len() && sep[k] == '\n';
        }
    }
    lemma_no_feed_concat(key, sep);
    lemma_no_feed_concat(key + sep, value);
    assert(!line.contains('\n'));
    let written = apply_setting(lines, section, key, value);
    lemma_first_assignment(lines, section, key, 0);
    let i = first_assignment(lines, section, key, 0);
    if i >= 0 {
        assert forall|k: int| 0 <= k < written.len() implies !(#[trigger] written[k]).contains('\n') by {
            if k != i {
                assert(written[k] == lines[k]);
            }
        }
    } else {
        let h = first_header_of(lines, section, 0);
        lemma_first_header(lines, section, 0);
        if h >= 0 {
            let p = next_header(lines, h + 1);
            lemma_next_header(lines, h + 1);
            assert forall|k: int| 0 <= k < written.len() implies !(#[trigger] written[k]).contains('\n') by {
                if k < p {
                    assert(written[k] == lines[k]);
                } else if k > p {
                    assert(written[k] == lines[k - 1]);
                }
            }
        } else {
            let open = seq!['['];
            let close = seq![']'];
            assert(!open.contains('\n')) by {
                if open.contains('\n') {
                    let k = choose|k: int| 0 <= k < open.len() && open[k] == '\n';
                }
            }
            assert(!close.contains('\n')) by {
                if close.contains('\n') {
                    let k = choose|k: int| 0 <= k < close.len() && close[k] == '\n';
                }
            }
            lemma_no_feed_concat(open, section);
            lemma_no_feed_concat(open + section, close);
            let header = header_line(section);
            assert(!header.contains('\n'));
            let padded = if lines.len() > 0 && lines.last().len() > 0 {
                lines.push(Seq::empty())
            } else {
                lines
            };
            assert forall|k: int| 0 <= k < written.len() implies !(#[trigger] written[k]).contains('\n') by {
                if k < lines.len() {
                    assert(written[k] == lines[k]);
                } else if k < padded.len() {
                    assert(written[k] == Seq::<char>::empty());
                } else if k == padded.len() {
                    assert(written[k] == header);
                } else {
                    assert(written[k] == line);
                }
            }
        }
    }
}

proof fn lemma_apply_settings_single(lines: Seq<Seq<char>>, settings: Seq<(Seq<char>, Seq<char>, Seq<char>)>)
    requires
        single_lines(lines),
        forall|i: int| 0 <= i < settings.len() ==> single_line_setting(#[trigger] settings[i]),
    ensures
        single_lines(apply_settings(lines, settings)),
    decreases settings.len(),
{
    if settings.len() > 0 {
        let prev = settings.drop_last();
        assert forall|i: int| 0 <= i < prev.len() implies single_line_setting(#[trigger] prev[i]) by {
            assert(prev[i] == settings[i]);
        }
        lemma_apply_settings_single(lines, prev);
        assert(single_line_setting(settings[settings.len() - 1]));
        lemma_apply_setting_single(apply_settings(lines, prev), settings.last());
    }
}

/// Reading the rendered lines gives what reading the lines gives.
proof fn lemma_rendered_values(lines: Seq<Seq<char>>)
    requires
        single_lines(lines),
    ensures
        parse_lines(lines_of(render_lines(lines))) == parse_lines(lines),
{
    if lines.len() == 0 {
        let nl = seq!['\n'];
        assert(render_lines(lines) == nl);
        lemma_line_end(nl, 0);
        assert(line_end(nl, 0) == 0);
        assert(nl.subrange(0, 0) =~= Seq::<char>::empty());
        assert(lines_from(nl, 1) =~= Seq::<Seq<char>>::empty());
        assert(lines_of(nl) =~= seq![Seq::<char>::empty()]);
        let one = seq![Seq::<char>::empty()];
        assert(one.drop_last() =~= Seq::<Seq<char>>::empty());
        assert(trim(Seq::<char>::empty()) =~= Seq::<char>::empty());
        lemma_index_of_char(Seq::<char>::empty(), '=', 0);
        assert(!is_section_header(Seq::<char>::empty()));
        assert(!is_assignment(Seq::<char>::empty()));
        assert(parse_lines(one) == parse_lines(one.drop_last()));
        assert(parse_lines(lines_of(nl)) == parse_lines(lines));
    } else {
        assert(render_lines(lines) == terminated(lines));
        lemma_lines_of_terminated(lines);
        lemma_parse_without_cr(lines);
        assert(lines_of(render_lines(lines)) == lines.map_values(|l: Seq<char>| without_cr(l)));
    }
}

/// The text of a configuration file after several settings with different
/// sections or keys were written reads back, as `parse_config` reads it:
/// each lowercased section and key maps to the value written for it, and
/// every other one as in the text before. This holds where each setting's
/// line reads as itself, no section, key or value holds a line feed, and no
/// key written was assigned by more than one line of the text before.
pub proof fn written_text_reads_back(text: Seq<char>, settings: Seq<(Seq<char>, Seq<char>, Seq<char>)>)
    requires
        forall|i: int| 0 <= i < settings.len() ==> writable_setting(#[trigger] settings[i].0, settings[i].1, settings[i].2),
        forall|i: int| 0 <= i < settings.len() ==> single_line_setting(#[trigger] settings[i]),
        forall|i: int, j: int|
            0 <= i < j < settings.len() ==> #[trigger] setting_key(settings[i]) != #[trigger] setting_key(settings[j]),
        forall|i: int| 0 <= i < settings.len() ==> lone_reader(lines_of(text), #[trigger] setting_key(settings[i])),
    ensures
        ({
            let values = config_values(updated_config(text, settings));
            &&& forall|i: int|
                0 <= i < settings.len() ==> values.contains_key(#[trigger] setting_key(settings[i]))
                    && values[setting_key(settings[i])] == settings[i].2
            &&& forall|other: (Seq<char>, Seq<char>)|
                #![trigger values.contains_key(other)]
                (forall|i: int| 0 <= i < settings.len() ==> #[trigger] setting_key(settings[i]) != other) ==> (
                values.contains_key(other) == config_values(text).contains_key(other) && (config_values(
                    text,
                ).contains_key(other) ==> values[other] == config_values(text)[other]))
        }),
{
    let lines = lines_of(text);
    let written = apply_settings(lines, settings);
    written_settings_are_read_back(lines, settings);
    lemma_lines_from_single(text, 0);
    lemma_apply_settings_single(lines, settings);
    lemma_rendered_values(written);
}

/// Where writing one setting moves each line: nowhere, except that an
/// inserted setting line moves the lines from its place on one down.
pub open spec fn setting_shift(lines: Seq<Seq<char>>, section: Seq<char>, key: Seq<char>) -> spec_fn(int) -> int {
    if first_assignment(lines, section, key, 0) < 0 && first_header_of(lines, section, 0) >= 0 {
        let p = next_header(lines, first_header_of(lines, section, 0) + 1);
        |j: int|
            if j < p {
                j
            } else {
                j + 1
            }
    } else {
        |j: int| j
    }
}

/// Where writing the settings one after another moves each line.
pub open spec fn settings_shift(lines: Seq<Seq<char>>, settings: Seq<(Seq<char>, Seq<char>, Seq<char>)>) -> spec_fn(
    int,
) -> int
    decreases settings.len(),
{
    if settings.len() == 0 {
        |j: int| j
    } else {
        let prev = settings.drop_last();
        let f = settings_shift(lines, prev);
        let g = setting_shift(apply_settings(lines, prev), settings.last().0, settings.last().1);
        |j: int| g(f(j))
    }
}

/// Line `j` assigns none of the keys written.
pub open spec fn untouched(lines: Seq<Seq<char>>, settings: Seq<(Seq<char>, Seq<char>, Seq<char>)>, j: int) -> bool {
    forall|i: int| 0 <= i < settings.len() ==> !reads_key(lines, j, #[trigger] setting_key(settings[i]))
}

proof fn lemma_setting_shift(lines: Seq<Seq<char>>, section: Seq<char>, key: Seq<char>, value: Seq<char>)
    requires
        writable_setting(section, key, value),
    ensures
        ({
            let written = apply_setting(lines, section, key, value);
            let g = setting_shift(lines, section, key);
            &&& forall|a: int, b: int| a < b ==> #[trigger] g(a) < #[trigger] g(b)
            &&& forall|j: int|
                0 <= j < lines.len() && !reads_key(lines, j, (lower_chars(section), lower_chars(key))) ==> {
                    &&& 0 <= g(j) < written.len()
                    &&& written[g(j)] == lines[j]
                    &&& forall|k: (Seq<char>, Seq<char>)| #[trigger] reads_key(written, g(j), k) == reads_key(lines, j, k)
                }
        }),
{
    let line = setting_line(key, value);
    let written = apply_setting(lines, section, key, value);
    let g = setting_shift(lines, section, key);
    let k0 = (lower_chars(section), lower_chars(key));
    lemma_setting_line(key, value);
    lemma_first_assignment(lines, section, key, 0);
    assert(!is_section_header(trim(line)));
    let i = first_assignment(lines, section, key, 0);
    if i >= 0 {
        assert(written == lines.update(i, line));
        lemma_same_ignoring_case(section_before(lines, i), section);
        lemma_same_ignoring_case(assignment_key(trim(lines[i])), key);
        assert(reads_key(lines, i, k0));
        assert forall|j: int| 0 <= j < lines.len() && !reads_key(lines, j, k0) implies {
            &&& 0 <= g(j) < written.len()
            &&& written[g(j)] == lines[j]
            &&& forall|k: (Seq<char>, Seq<char>)| #[trigger] reads_key(written, g(j), k) == reads_key(lines, j, k)
        } by {
            assert(j != i);
            assert(g(j) == j);
            lemma_section_before_update(lines, i, line, j);
        }
    } else {
        let h = first_header_of(lines, section, 0);
        lemma_first_header(lines, section, 0);
        if h >= 0 {
            let p = next_header(lines, h + 1);
            lemma_next_header(lines, h + 1);
            assert(written == lines.insert(p, line));
            assert forall|j: int| 0 <= j < lines.len() && !reads_key(lines, j, k0) implies {
                &&& 0 <= g(j) < written.len()
                &&& written[g(j)] == lines[j]
                &&& forall|k: (Seq<char>, Seq<char>)| #[trigger] reads_key(written, g(j), k) == reads_key(lines, j, k)
            } by {
                if j < p {
                    assert(g(j) == j);
                    lemma_section_before_prefix(written, lines, j);
                } else {
                    assert(g(j) == j + 1);
                    assert(written[j + 1] == lines[j]);
                    lemma_section_before_insert(lines, p, line, j + 1);
                }
            }
        } else {
            let padded = if lines.len() > 0 && lines.last().len() > 0 {
                lines.push(Seq::empty())
            } else {
                lines
            };
            assert(written == padded.push(header_line(section)).push(line));
            assert forall|j: int| 0 <= j < lines.len() && !reads_key(lines, j, k0) implies {
                &&& 0 <= g(j) < written.len()
                &&& written[g(j)] == lines[j]
                &&& forall|k: (Seq<char>, Seq<char>)| #[trigger] reads_key(written, g(j), k) == reads_key(lines, j, k)
            } by {
                assert(g(j) == j);
                assert(written[j] == lines[j]);
                assert forall|q: int| 0 <= q < j implies written[q] == lines[q] by {}
                lemma_section_before_prefix(written, lines, j);
            }
        }
    }
}

/// Writing settings keeps every line that assigns none of the keys
/// written, and keeps such lines in their order: the line at `j` stands at
/// `settings_shift(lines, settings)(j)` afterwards, a later line at a later
/// place.
pub proof fn untouched_lines_keep_their_order(lines: Seq<Seq<char>>, settings: Seq<(Seq<char>, Seq<char>, Seq<char>)>)
    requires
        forall|i: int| 0 <= i < settings.len() ==> writable_setting(#[trigger] settings[i].0, settings[i].1, settings[i].2),
    ensures
        ({
            let written = apply_settings(lines, settings);
            let m = settings_shift(lines, settings);
            &&& forall|a: int, b: int| a < b ==> #[trigger] m(a) < #[trigger] m(b)
            &&& forall|j: int|
                0 <= j < lines.len() && #[trigger] untouched(lines, settings, j) ==> 0 <= m(j) < written.len()
                    && written[m(j)] == lines[j] && forall|k: (Seq<char>, Seq<char>)|
                    #[trigger] reads_key(written, m(j), k) == reads_key(lines, j, k)
        }),
    decreases settings.len(),
{
    if settings.len() > 0 {
        let prev = settings.drop_last();
        let s = settings.last();
        assert forall|i: int| 0 <= i < prev.len() implies writable_setting(#[trigger] prev[i].0, prev[i].1, prev[i].2) by {
            assert(prev[i] == settings[i]);
        }
        untouched_lines_keep_their_order(lines, prev);
        let before = apply_settings(lines, prev);
        let f = settings_shift(lines, prev);
        let g = setting_shift(before, s.0, s.1);
        let m = settings_shift(lines, settings);
        assert(writable_setting(settings[settings.len() - 1].0, settings[settings.len() - 1].1, settings[settings.len() - 1].2));
        lemma_setting_shift(before, s.0, s.1, s.2);
        let written = apply_settings(lines, settings);
        assert(written == apply_setting(before, s.0, s.1, s.2));
        assert forall|a: int, b: int| a < b implies #[trigger] m(a) < #[trigger] m(b) by {
            assert(f(a) < f(b));
            assert(m(a) == g(f(a)));
            assert(m(b) == g(f(b)));
        }
        assert forall|j: int| 0 <= j < lines.len() && #[trigger] untouched(lines, settings, j) implies 0 <= m(j)
            < written.len() && written[m(j)] == lines[j] && forall|k: (Seq<char>, Seq<char>)|
            #[trigger] reads_key(written, m(j), k) == reads_key(lines, j, k) by {
            assert(untouched(lines, prev, j)) by {
                assert forall|i: int| 0 <= i < prev.len() implies !reads_key(lines, j, #[trigger] setting_key(prev[i])) by {
                    assert(prev[i] == settings[i]);
                    assert(!reads_key(lines, j, setting_key(settings[i])));
                }
            }
            let k0 = (lower_chars(s.0), lower_chars(s.1));
            assert(setting_key(settings[settings.len() - 1]) == k0);
            assert(!reads_key(lines, j, k0));
            assert(reads_key(before, f(j), k0) == reads_key(lines, j, k0));
            assert(m(j) == g(f(j)));
            assert forall|k: (Seq<char>, Seq<char>)| #[trigger] reads_key(written, m(j), k) == reads_key(lines, j, k) by {
                assert(reads_key(written, g(f(j)), k) == reads_key(before, f(j), k));
                assert(reads_key(before, f(j), k) == reads_key(lines, j, k));
            }
        }
    }
}

/// The lines of a configuration file's text that assign none of the keys
/// written stand in the text after the write, in their order: line `j`
/// as line `settings_shift(..)(j)`, a later line at a later place, each
/// read as before but for one carriage return that reading leaves at its
/// end, which the rewritten text no longer has.
pub proof fn untouched_text_lines_keep_their_order(text: Seq<char>, settings: Seq<(Seq<char>, Seq<char>, Seq<char>)>)
    requires
        forall|i: int| 0 <= i < settings.len() ==> writable_setting(#[trigger] settings[i].0, settings[i].1, settings[i].2),
        forall|i: int| 0 <= i < settings.len() ==> single_line_setting(#[trigger] settings[i]),
    ensures
        ({
            let before = lines_of(text);
            let after = lines_of(updated_config(text, settings));
            let m = settings_shift(before, settings);
            &&& forall|a: int, b: int| a < b ==> #[trigger] m(a) < #[trigger] m(b)
            &&& forall|j: int|
                0 <= j < before.len() && #[trigger] untouched(before, settings, j) ==> 0 <= m(j) < after.len()
                    && after[m(j)] == without_cr(before[j])
        }),
{
    let before = lines_of(text);
    let written = apply_settings(before, settings);
    let m = settings_shift(before, settings);
    untouched_lines_keep_their_order(before, settings);
    lemma_lines_from_single(text, 0);
    lemma_apply_settings_single(before, settings);
    assert forall|j: int| 0 <= j < before.len() && #[trigger] untouched(before, settings, j) implies 0 <= m(j)
        < lines_of(updated_config(text, settings)).len() && lines_of(updated_config(text, settings))[m(j)]
        == without_cr(before[j]) by {
        assert(written.len() > 0);
        assert(render_lines(written) == terminated(written));
        lemma_lines_of_terminated(written);
    }
}

} // verus!
