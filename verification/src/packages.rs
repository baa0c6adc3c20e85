//! Choosing the official BepInEx package for a game: the latest stable
//! BepInEx 5 release on GitHub for Mono games, the first bleeding-edge
//! BepInEx 6 build for IL2CPP games.
use vstd::prelude::*;

use crate::bepinex::{ends_with, starts_with, text_ends_with, text_starts_with, BepInExArchitecture, PackageSource};
use crate::catalog::texts;
use crate::error::{bepinex_error, ErrorResponse};
use crate::fields::{all_digits, digits_number, is_digit};
use crate::patterns::{find_last, occurs_at, replace_all, replace_text, split_by, split_from};
use crate::text::{chars_of, lower_chars, string_of};
use vstd::string::StringExecFns;

verus! {

// ---------------------------------------------------------------------------
// URLs.
// ---------------------------------------------------------------------------
/// A parsed URL: its serialization, scheme, host and path segments (still
/// percent-encoded; none for a URL that cannot be a base).
#[derive(Clone, Debug)]
pub struct WebUrl {
    pub text: String,
    pub scheme: String,
    pub host: Option<String>,
    pub segments: Vec<String>,
}

/// The model of a parsed URL.
pub struct UrlView {
    pub text: Seq<char>,
    pub scheme: Seq<char>,
    pub host: Option<Seq<char>>,
    pub segments: Seq<Seq<char>>,
}

impl WebUrl {
    pub open spec fn view_of(&self) -> UrlView {
        UrlView {
            text: self.text@,
            scheme: self.scheme@,
            host: match self.host {
                Some(h) => Some(h@),
                None => None,
            },
            segments: texts(self.segments@),
        }
    }
}

/// The model of an optional parsed URL.
pub open spec fn url_view(url: Option<WebUrl>) -> Option<UrlView> {
    match url {
        Some(u) => Some(u.view_of()),
        None => None,
    }
}

/// What `url::Url::parse` makes of a text.
pub uninterp spec fn parsed_url(text: Seq<char>) -> Option<UrlView>;

/// What `url::Url::parse(base)` and then `Url::join(reference)` make of two
/// texts.
pub uninterp spec fn joined_url(base: Seq<char>, reference: Seq<char>) -> Option<UrlView>;

/// Parses a URL with `url::Url::parse` and reads its serialization,
/// scheme, host and path segments.
#[verifier::external_body]
pub(crate) fn parse_url(text: &str) -> (url: Option<WebUrl>)
    ensures
        url_view(url) == parsed_url(text@),
{
    match url::Url::parse(text) {
        Ok(u) => Some(WebUrl {
            text: u.as_str().to_string(),
            scheme: u.scheme().to_string(),
            host: match u.host_str() { Some(h) => Some(h.to_string()), None => None },
            segments: match u.path_segments() { Some(p) => p.map(|s| s.to_string()).collect(), None => Vec::new() },
        }),
        Err(_) => None,
    }
}

/// Resolves a reference against a base URL with `url::Url::parse` and
/// `Url::join`, and reads the result as `parse_url` does.
#[verifier::external_body]
fn join_url(base: &str, reference: &str) -> (url: Option<WebUrl>)
    ensures
        url_view(url) == joined_url(base@, reference@),
{
    let joined = match url::Url::parse(base) { Ok(b) => b.join(reference), Err(e) => Err(e) };
    match joined {
        Ok(u) => Some(WebUrl {
            text: u.as_str().to_string(),
            scheme: u.scheme().to_string(),
            host: match u.host_str() { Some(h) => Some(h.to_string()), None => None },
            segments: match u.path_segments() { Some(p) => p.map(|s| s.to_string()).collect(), None => Vec::new() },
        }),
        Err(_) => None,
    }
}

/// The hosts that BepInEx metadata and packages are fetched from.
pub open spec fn trusted_bepinex_host(host: Seq<char>) -> bool {
    ||| host == "api.github.com"@
    ||| host == "github.com"@
    ||| host == "objects.githubusercontent.com"@
    ||| host == "release-assets.githubusercontent.com"@
    ||| host == "builds.bepinex.dev"@
}

/// The hosts that the mod catalog and mod releases are fetched from.
pub open spec fn trusted_catalog_host(host: Seq<char>) -> bool {
    ||| host == "raw.githubusercontent.com"@
    ||| host == "github.com"@
    ||| host == "objects.githubusercontent.com"@
    ||| host == "release-assets.githubusercontent.com"@
}

/// Whether a response of the BepInEx sources may be trusted: HTTPS from
/// one of their hosts.
pub fn trusted_response_url(url: &WebUrl) -> (trusted: bool)
    ensures
        trusted == (url.scheme@ == "https"@ && match url.host {
            Some(h) => trusted_bepinex_host(h@),
            None => false,
        }),
{
    let https = crate::text::str_equal(url.scheme.as_str(), "https");
    match &url.host {
        Some(h) => https && (crate::text::str_equal(h.as_str(), "api.github.com")
            || crate::text::str_equal(h.as_str(), "github.com") || crate::text::str_equal(
            h.as_str(),
            "objects.githubusercontent.com",
        ) || crate::text::str_equal(h.as_str(), "release-assets.githubusercontent.com")
            || crate::text::str_equal(h.as_str(), "builds.bepinex.dev")),
        None => false,
    }
}

/// Whether a response of the mod catalog may be trusted: HTTPS from one of
/// its hosts.
pub fn trusted_catalog_url(url: &WebUrl) -> (trusted: bool)
    ensures
        trusted == (url.scheme@ == "https"@ && match url.host {
            Some(h) => trusted_catalog_host(h@),
            None => false,
        }),
{
    let https = crate::text::str_equal(url.scheme.as_str(), "https");
    match &url.host {
        Some(h) => https && (crate::text::str_equal(h.as_str(), "raw.githubusercontent.com")
            || crate::text::str_equal(h.as_str(), "github.com") || crate::text::str_equal(
            h.as_str(),
            "objects.githubusercontent.com",
        ) || crate::text::str_equal(h.as_str(), "release-assets.githubusercontent.com")),
        None => false,
    }
}

// ---------------------------------------------------------------------------
// Numbers and names.
// ---------------------------------------------------------------------------
/// `u64::from_str`: an optional `+`, then at least one digit, within range.
pub open spec fn spec_parse_unsigned(s: Seq<char>) -> Option<u64> {
    let body = if s.len() > 0 && s[0] == '+' {
        s.drop_first()
    } else {
        s
    };
    if body.len() == 0 || !all_digits(body) {
        None
    } else if digits_number(body) <= u64::MAX {
        Some(digits_number(body) as u64)
    } else {
        None
    }
}

/// Parses a decimal number as `u64::from_str` does.
pub fn parse_unsigned(text: &str) -> (value: Option<u64>)
    ensures
        value == spec_parse_unsigned(text@),
{
    let chars = chars_of(text);
    let ghost s = text@;
    let start: usize = if chars.len() > 0 && chars[0] == '+' {
        1
    } else {
        0
    };
    let ghost body = if s.len() > 0 && s[0] == '+' {
        s.drop_first()
    } else {
        s
    };
    proof {
        assert(body =~= s.subrange(start as int, s.len() as int));
    }
    if start == chars.len() {
        return None;
    }
    let limit: u128 = 0xffff_ffff_ffff_ffffu128;
    let mut acc: u128 = 0;
    let mut i: usize = start;
    while i < chars.len()
        invariant
            chars@ == s,
            s == text@,
            start <= i <= s.len(),
            body == s.subrange(start as int, s.len() as int),
            body == if s.len() > 0 && s[0] == '+' {
                s.drop_first()
            } else {
                s
            },
            limit == 0xffff_ffff_ffff_ffffu128,
            forall|k: int| start <= k < i ==> is_digit(#[trigger] s[k]),
            acc <= 10 * limit + 9,
            digits_number(body.take(i - start)) <= limit ==> acc == digits_number(
                body.take(i - start),
            ),
            digits_number(body.take(i - start)) > limit ==> acc > limit,
            digits_number(body.take(i - start)) >= 0,
        decreases s.len() - i,
    {
        let c = chars[i];
        if !('0' <= c && c <= '9') {
            proof {
                assert(body[i - start] == c);
                assert(!is_digit(body[i - start]));
                assert(!all_digits(body));
            }
            return None;
        }
        let d = (c as u8 - 48) as u128;
        proof {
            let p = body.take(i - start);
            assert(body.take(i - start + 1).drop_last() =~= p);
            assert(body.take(i - start + 1).last() == c);
        }
        if acc <= limit {
            acc = acc * 10 + d;
        }
        i = i + 1;
    }
    proof {
        assert(body.take(i - start) =~= body);
        assert forall|k: int| 0 <= k < body.len() implies is_digit(#[trigger] body[k]) by {
            assert(body[k] == s[k + start]);
        }
    }
    if acc <= limit {
        Some(acc as u64)
    } else {
        None
    }
}

/// A BepInEx 5.4 release tag `v5.4.<build>.<revision>`, as four numbers.
pub open spec fn spec_parse_v5(tag: Seq<char>) -> Option<(u64, u64, u64, u64)> {
    if tag.len() > 0 && tag[0] == 'v' {
        let parts = split_from(tag.drop_first(), seq!['.'], 0);
        if parts.len() == 4 {
            match (
                spec_parse_unsigned(parts[0]),
                spec_parse_unsigned(parts[1]),
                spec_parse_unsigned(parts[2]),
                spec_parse_unsigned(parts[3]),
            ) {
                (Some(a), Some(b), Some(c), Some(d)) => if a == 5 && b == 4 {
                    Some((a, b, c, d))
                } else {
                    None
                },
                _ => None,
            }
        } else {
            None
        }
    } else {
        None
    }
}

/// Reads a BepInEx 5.4 release tag.
pub fn parse_v5_version(tag: &str) -> (version: Option<(u64, u64, u64, u64)>)
    ensures
        version == spec_parse_v5(tag@),
{
    let chars = chars_of(tag);
    if chars.len() == 0 || chars[0] != 'v' {
        return None;
    }
    let body = string_of(&chars, 1, chars.len());
    proof {
        assert(body@ =~= tag@.drop_first());
        reveal_strlit(".");
    }
    let parts = split_by(body.as_str(), ".");
    proof {
        assert("."@ =~= seq!['.']);
    }
    if parts.len() != 4 {
        return None;
    }
    proof {
        assert(texts(parts@)[0] == parts@[0]@);
        assert(texts(parts@)[1] == parts@[1]@);
        assert(texts(parts@)[2] == parts@[2]@);
        assert(texts(parts@)[3] == parts@[3]@);
    }
    let a = parse_unsigned(parts[0].as_str());
    let b = parse_unsigned(parts[1].as_str());
    let c = parse_unsigned(parts[2].as_str());
    let d = parse_unsigned(parts[3].as_str());
    match (a, b, c, d) {
        (Some(a), Some(b), Some(c), Some(d)) => if a == 5 && b == 4 {
            Some((a, b, c, d))
        } else {
            None
        },
        _ => None,
    }
}

/// An ASCII hexadecimal digit.
pub open spec fn is_hex_char(c: char) -> bool {
    ('0' <= c <= '9') || ('a' <= c <= 'f') || ('A' <= c <= 'F')
}

/// Whether every character of `chars[from..to]` is a hexadecimal digit.
fn all_hex(chars: &Vec<char>, from: usize, to: usize) -> (all: bool)
    requires
        from <= to <= chars@.len(),
    ensures
        all == forall|i: int| from <= i < to ==> is_hex_char(#[trigger] chars@[i]),
{
    let mut i = from;
    while i < to
        invariant
            from <= i <= to <= chars@.len(),
            forall|j: int| from <= j < i ==> is_hex_char(#[trigger] chars@[j]),
        decreases to - i,
    {
        let c = chars[i];
        if !(('0' <= c && c <= '9') || ('a' <= c && c <= 'f') || ('A' <= c && c <= 'F')) {
            return false;
        }
        i = i + 1;
    }
    true
}

/// Three non-empty runs of digits separated by dots.
pub open spec fn dotted_triple(s: Seq<char>) -> bool {
    let parts = split_from(s, seq!['.'], 0);
    parts.len() == 3 && forall|i: int| 0 <= i < 3 ==> #[trigger] parts[i].len() > 0 && all_digits(parts[i])
}

/// A bleeding-edge package name `...-<x.y.z>-be.<build>+<commit>.zip` for
/// the build `path_build`, with a commit of at least seven hexadecimal
/// digits.
pub open spec fn spec_valid_bleeding_edge_name(name: Seq<char>, path_build: Seq<char>) -> bool {
    let marker = seq!['-', 'b', 'e', '.'];
    let k = find_last(name, marker, name.len() - 4);
    if k < 0 {
        false
    } else {
        let version = name.subrange(0, k);
        let suffix = name.subrange(k + 4, name.len() as int);
        let d = find_last(version, seq!['-'], version.len() - 1);
        let last = if d < 0 {
            version
        } else {
            version.subrange(d + 1, version.len() as int)
        };
        let zip = seq!['.', 'z', 'i', 'p'];
        if !dotted_triple(last) || !ends_with(suffix, zip) {
            false
        } else {
            let core = suffix.subrange(0, suffix.len() - 4);
            let plus = crate::patterns::find_from(core, seq!['+'], 0);
            if plus < 0 {
                false
            } else {
                let build = core.subrange(0, plus);
                let commit = core.subrange(plus + 1, core.len() as int);
                build == path_build && commit.len() >= 7 && forall|i: int|
                    0 <= i < commit.len() ==> is_hex_char(#[trigger] commit[i])
            }
        }
    }
}


/// Whether every character of `chars[from..to]` is a digit.
fn all_digit_chars(chars: &Vec<char>, from: usize, to: usize) -> (all: bool)
    requires
        from <= to <= chars@.len(),
    ensures
        all == all_digits(chars@.subrange(from as int, to as int)),
{
    let mut i = from;
    while i < to
        invariant
            from <= i <= to <= chars@.len(),
            forall|j: int| from <= j < i ==> is_digit(#[trigger] chars@[j]),
        decreases to - i,
    {
        if !('0' <= chars[i] && chars[i] <= '9') {
            proof {
                assert(chars@.subrange(from as int, to as int)[i - from] == chars@[i as int]);
            }
            return false;
        }
        i = i + 1;
    }
    proof {
        assert forall|j: int| 0 <= j < to - from implies is_digit(#[trigger] chars@.subrange(from as int, to as int)[j]) by {
            assert(chars@.subrange(from as int, to as int)[j] == chars@[from + j]);
        }
    }
    true
}

/// Whether a text is three non-empty runs of digits separated by dots.
fn is_dotted_triple(text: &str) -> (triple: bool)
    ensures
        triple == dotted_triple(text@),
{
    proof {
        reveal_strlit(".");
        assert("."@ =~= seq!['.']);
    }
    let parts = split_by(text, ".");
    if parts.len() != 3 {
        return false;
    }
    let mut i: usize = 0;
    while i < 3
        invariant
            i <= 3,
            parts@.len() == 3,
            texts(parts@) == split_from(text@, seq!['.'], 0),
            forall|j: int| 0 <= j < i ==> #[trigger] texts(parts@)[j].len() > 0 && all_digits(texts(parts@)[j]),
        decreases 3 - i,
    {
        let piece = chars_of(parts[i].as_str());
        proof {
            assert(texts(parts@)[i as int] == parts@[i as int]@);
        }
        if piece.len() == 0 || !all_digit_chars(&piece, 0, piece.len()) {
            proof {
                assert(piece@.subrange(0, piece@.len() as int) =~= piece@);
            }
            return false;
        }
        proof {
            assert(piece@.subrange(0, piece@.len() as int) =~= piece@);
        }
        i = i + 1;
    }
    true
}

/// Whether a package name is a bleeding-edge BepInEx build for the build
/// number of its download path.
pub fn valid_bleeding_edge_name(asset_name: &str, path_build: &str) -> (valid: bool)
    ensures
        valid == spec_valid_bleeding_edge_name(asset_name@, path_build@),
{
    let name = chars_of(asset_name);
    let marker = chars_of("-be.");
    proof {
        reveal_strlit("-be.");
        assert(marker@ =~= seq!['-', 'b', 'e', '.']);
    }
    if name.len() < 4 {
        proof {
            assert(crate::patterns::find_last(name@, marker@, name@.len() - 4) == -1);
        }
        return false;
    }
    let k = match crate::patterns::find_last_index(&name, &marker, name.len() - 4) {
        Some(k) => k,
        None => {
            return false;
        },
    };
    proof {
        lemma_find_last(name@, marker@, name@.len() - 4);
    }
    let version = string_of(&name, 0, k);
    let suffix = string_of(&name, k + 4, name.len());
    let vchars = chars_of(version.as_str());
    let dash = chars_of("-");
    proof {
        reveal_strlit("-");
        assert(dash@ =~= seq!['-']);
    }
    let last = if vchars.len() == 0 {
        proof {
            assert(find_last(vchars@, dash@, vchars@.len() - 1) == -1);
        }
        string_of(&vchars, 0, 0)
    } else {
        match crate::patterns::find_last_index(&vchars, &dash, vchars.len() - 1) {
            Some(d) => {
                proof {
                    lemma_find_last(vchars@, dash@, vchars@.len() - 1);
                }
                string_of(&vchars, d + 1, vchars.len())
            },
            None => string_of(&vchars, 0, vchars.len()),
        }
    };
    proof {
        assert(vchars@.subrange(0, vchars@.len() as int) =~= vchars@);
        if vchars@.len() == 0 {
            assert(vchars@.subrange(0, 0) =~= vchars@);
        }
    }
    if !is_dotted_triple(last.as_str()) || !text_ends_with(suffix.as_str(), ".zip") {
        proof {
            reveal_strlit(".zip");
            assert(".zip"@ =~= seq!['.', 'z', 'i', 'p']);
        }
        return false;
    }
    proof {
        reveal_strlit(".zip");
        assert(".zip"@ =~= seq!['.', 'z', 'i', 'p']);
    }
    let schars = chars_of(suffix.as_str());
    let core = string_of(&schars, 0, schars.len() - 4);
    let cchars = chars_of(core.as_str());
    let plus = chars_of("+");
    proof {
        reveal_strlit("+");
        assert(plus@ =~= seq!['+']);
        crate::patterns::lemma_find_from(cchars@, plus@, 0);
    }
    let p = match crate::patterns::find_index(&cchars, &plus, 0) {
        Some(p) => p,
        None => {
            return false;
        },
    };
    let build = string_of(&cchars, 0, p);
    let commit_len = cchars.len() - (p + 1);
    let ghost commit = cchars@.subrange(p + 1, cchars@.len() as int);
    let hex = all_hex(&cchars, p + 1, cchars.len());
    proof {
        assert(core@ =~= suffix@.subrange(0, suffix@.len() - 4));
        if hex {
            assert forall|i: int| 0 <= i < commit.len() implies is_hex_char(#[trigger] commit[i]) by {
                assert(commit[i] == cchars@[p + 1 + i]);
            }
        } else {
            let j = choose|j: int| p + 1 <= j < cchars@.len() && !is_hex_char(#[trigger] cchars@[j]);
            assert(commit[j - p - 1] == cchars@[j]);
        }
    }
    crate::text::str_equal(build.as_str(), path_build) && commit_len >= 7 && hex
}

pub proof fn lemma_find_last(s: Seq<char>, pat: Seq<char>, i: int)
    ensures
        find_last(s, pat, i) == -1 || (0 <= find_last(s, pat, i) <= i && occurs_at(s, pat, find_last(s, pat, i))),
    decreases i + 1,
{
    if i >= 0 && !occurs_at(s, pat, i) {
        lemma_find_last(s, pat, i - 1);
    }
}


// ---------------------------------------------------------------------------
// The IL2CPP builds page.
// ---------------------------------------------------------------------------
/// What precedes the first `"` of each piece, for the pieces that hold one.
pub open spec fn quoted_prefixes(pieces: Seq<Seq<char>>) -> Seq<Seq<char>>
    decreases pieces.len(),
{
    if pieces.len() == 0 {
        Seq::empty()
    } else {
        let rest = quoted_prefixes(pieces.drop_last());
        let last = pieces.last();
        let q = crate::patterns::find_from(last, seq!['"'], 0);
        if q >= 0 {
            rest.push(last.subrange(0, q))
        } else {
            rest
        }
    }
}

/// The values of the `href="..."` attributes of a page, in order.
pub open spec fn spec_href_values(html: Seq<char>) -> Seq<Seq<char>> {
    quoted_prefixes(split_from(html, "href=\""@, 0).drop_first())
}

/// The values of the `href="..."` attributes of a page, in order.
pub fn href_values(html: &str) -> (hrefs: Vec<String>)
    ensures
        texts(hrefs@) == spec_href_values(html@),
{
    let opener = "href=\"";
    proof {
        reveal_strlit("href=\"");
    }
    let pieces = split_by(html, opener);
    let quote = chars_of("\"");
    proof {
        reveal_strlit("\"");
        assert(quote@ =~= seq!['"']);
    }
    let ghost all = texts(pieces@);
    let mut hrefs: Vec<String> = Vec::new();
    let mut i: usize = 1;
    proof {
        assert(all.drop_first().take(0) =~= Seq::<Seq<char>>::empty());
        assert(texts(hrefs@) =~= Seq::<Seq<char>>::empty());
    }
    while i < pieces.len()
        invariant
            1 <= i <= pieces@.len() || pieces@.len() == 0,
            all == texts(pieces@),
            quote@ == seq!['"'],
            texts(hrefs@) == quoted_prefixes(all.drop_first().take(i - 1)),
        decreases pieces@.len() - i,
    {
        let piece = chars_of(pieces[i].as_str());
        proof {
            assert(all.drop_first().take(i as int).drop_last() =~= all.drop_first().take(i - 1));
            assert(all.drop_first().take(i as int).last() == pieces@[i as int]@);
            crate::patterns::lemma_find_from(piece@, quote@, 0);
        }
        let ghost before = hrefs@;
        match crate::patterns::find_index(&piece, &quote, 0) {
            Some(q) => {
                hrefs.push(string_of(&piece, 0, q));
                proof {
                    assert(texts(hrefs@) =~= texts(before).push(piece@.subrange(0, q as int)));
                }
            },
            None => {},
        }
        i = i + 1;
    }
    proof {
        if pieces@.len() > 0 {
            assert(all.drop_first().take(i - 1) =~= all.drop_first());
        }
    }
    hrefs
}

/// The HTML entities that the builds page writes in its links, decoded.
pub open spec fn spec_decode_entities(value: Seq<char>) -> Seq<char> {
    replace_all(
        replace_all(
            replace_all(replace_all(value, "&amp;"@, "&"@), "&#43;"@, "+"@),
            "&#x2B;"@,
            "+"@,
        ),
        "&#x2b;"@,
        "+"@,
    )
}

/// Decodes `&amp;` and the encodings of `+` in a link.
pub fn decode_minimal_html_entities(value: &str) -> (decoded: String)
    ensures
        decoded@ == spec_decode_entities(value@),
{
    proof {
        reveal_strlit("&amp;");
        reveal_strlit("&#43;");
        reveal_strlit("&#x2B;");
        reveal_strlit("&#x2b;");
    }
    let a = replace_text(value, "&amp;", "&");
    let b = replace_text(a.as_str(), "&#43;", "+");
    let c = replace_text(b.as_str(), "&#x2B;", "+");
    replace_text(c.as_str(), "&#x2b;", "+")
}

// ---------------------------------------------------------------------------
// Packages.
// ---------------------------------------------------------------------------
/// An asset of a GitHub release.
#[derive(Clone, Debug)]
pub struct GitHubAsset {
    pub name: String,
    pub browser_download_url: String,
    pub digest: Option<String>,
}

/// A GitHub release.
#[derive(Clone, Debug)]
pub struct GitHubRelease {
    pub draft: bool,
    pub prerelease: bool,
    pub tag_name: String,
    pub assets: Vec<GitHubAsset>,
}

/// The BepInEx package chosen for a game.
#[derive(Clone, Debug)]
pub struct PackageInfo {
    pub version: String,
    pub asset_name: String,
    pub download_url: String,
    pub expected_digest: Option<String>,
    pub source: PackageSource,
}

/// The model of a chosen package.
pub struct PackageView {
    pub version: Seq<char>,
    pub asset_name: Seq<char>,
    pub download_url: Seq<char>,
    pub expected_digest: Option<Seq<char>>,
    pub source: PackageSource,
}

impl PackageInfo {
    pub open spec fn view_of(&self) -> PackageView {
        PackageView {
            version: self.version@,
            asset_name: self.asset_name@,
            download_url: self.download_url@,
            expected_digest: match self.expected_digest {
                Some(d) => Some(d@),
                None => None,
            },
            source: self.source,
        }
    }
}

/// The label of an architecture in package names.
pub open spec fn architecture_label(architecture: BepInExArchitecture) -> Seq<char> {
    match architecture {
        BepInExArchitecture::X86 => "x86"@,
        BepInExArchitecture::X64 => "x64"@,
    }
}

/// A release that may hold the stable BepInEx 5 package: published, not a
/// pre-release, tagged `v5.4.`.
pub open spec fn stable_candidate(release: GitHubRelease) -> bool {
    !release.draft && !release.prerelease && starts_with(release.tag_name@, "v5.4."@)
}

/// `a <= b` for the version keys of releases, as `Option` and tuples order
/// them.
pub open spec fn key_at_most(a: Option<(u64, u64, u64, u64)>, b: Option<(u64, u64, u64, u64)>) -> bool {
    match (a, b) {
        (None, _) => true,
        (Some(_), None) => false,
        (Some(x), Some(y)) => x.0 < y.0 || (x.0 == y.0 && (x.1 < y.1 || (x.1 == y.1 && (x.2 < y.2
            || (x.2 == y.2 && x.3 <= y.3))))),
    }
}

/// The index of the candidate with the greatest version key among the first
/// `n` releases, the last one among equals (as `Iterator::max_by_key`
/// picks), or `-1`.
pub open spec fn best_release(releases: Seq<GitHubRelease>, n: int) -> int
    decreases n,
{
    if n <= 0 || n > releases.len() {
        -1
    } else {
        let b = best_release(releases, n - 1);
        if stable_candidate(releases[n - 1]) && (b < 0 || key_at_most(
            spec_parse_v5(releases[b].tag_name@),
            spec_parse_v5(releases[n - 1].tag_name@),
        )) {
            n - 1
        } else {
            b
        }
    }
}

/// The index of the first asset with the name, or `-1`.
pub open spec fn asset_index(assets: Seq<GitHubAsset>, name: Seq<char>, i: int) -> int
    decreases assets.len() - i,
{
    if i < 0 || i >= assets.len() {
        -1
    } else if assets[i].name@ == name {
        i
    } else {
        asset_index(assets, name, i + 1)
    }
}

/// A digest `sha256:` followed by 64 hexadecimal digits; gives the digits.
pub open spec fn sha256_digest(digest: Seq<char>) -> Option<Seq<char>> {
    let prefix = "sha256:"@;
    if starts_with(digest, prefix) {
        let hex = digest.subrange(prefix.len() as int, digest.len() as int);
        if hex.len() == 64 && forall|i: int| 0 <= i < hex.len() ==> is_hex_char(#[trigger] hex[i]) {
            Some(hex)
        } else {
            None
        }
    } else {
        None
    }
}

/// Where a stable package downloads from, given its parsed download URL:
/// only an HTTPS URL on `github.com` is taken.
pub open spec fn stable_download_url(url: UrlView) -> Option<Seq<char>> {
    if url.scheme == "https"@ && url.host == Some("github.com"@) {
        Some(url.text)
    } else {
        None
    }
}

/// The download address of a stable package from its parsed download URL,
/// or `bepinex_integrity_error` for a host that is not trusted.
pub fn stable_download(url: &WebUrl) -> (download: Result<String, ErrorResponse>)
    ensures
        match stable_download_url(url.view_of()) {
            Some(text) => download matches Ok(d) && d@ == text,
            None => download matches Err(e) && e.code@ == "bepinex_integrity_error"@,
        },
{
    let github = match &url.host {
        Some(h) => crate::text::str_equal(h.as_str(), "github.com"),
        None => false,
    };
    if !crate::text::str_equal(url.scheme.as_str(), "https") || !github {
        return Err(bepinex_error("bepinex_integrity_error", "the stable BepInEx download host was not trusted"));
    }
    Ok(url.text.clone())
}

/// The stable BepInEx 5 package for an architecture: the Windows asset of
/// the latest 5.4 release, with its SHA-256 digest and a download from
/// GitHub over HTTPS. No release is `bepinex_network_error`; any other
/// shortcoming is `bepinex_integrity_error`.
pub open spec fn mono_package(releases: Seq<GitHubRelease>, architecture: BepInExArchitecture) -> Result<PackageView, Seq<char>> {
    let b = best_release(releases, releases.len() as int);
    if b < 0 {
        Err("bepinex_network_error"@)
    } else {
        let release = releases[b];
        if spec_parse_v5(release.tag_name@) is None {
            Err("bepinex_integrity_error"@)
        } else {
            let version = release.tag_name@.drop_first();
            let expected = "BepInEx_win_"@ + architecture_label(architecture) + "_"@ + version + ".zip"@;
            let a = asset_index(release.assets@, expected, 0);
            if a < 0 {
                Err("bepinex_integrity_error"@)
            } else {
                let asset = release.assets@[a];
                match asset.digest {
                    None => Err("bepinex_integrity_error"@),
                    Some(d) => match sha256_digest(d@) {
                        None => Err("bepinex_integrity_error"@),
                        Some(hex) => match parsed_url(asset.browser_download_url@) {
                            None => Err("bepinex_integrity_error"@),
                            Some(url) => match stable_download_url(url) {
                                None => Err("bepinex_integrity_error"@),
                                Some(download_url) => Ok(
                                    PackageView {
                                        version,
                                        asset_name: expected,
                                        download_url,
                                        expected_digest: Some(lower_chars(hex)),
                                        source: PackageSource::GitHubStable,
                                    },
                                ),
                            },
                        },
                    },
                }
            }
        }
    }
}


fn key_not_above(a: Option<(u64, u64, u64, u64)>, b: Option<(u64, u64, u64, u64)>) -> (le: bool)
    ensures
        le == key_at_most(a, b),
{
    match (a, b) {
        (None, _) => true,
        (Some(_), None) => false,
        (Some(x), Some(y)) => x.0 < y.0 || (x.0 == y.0 && (x.1 < y.1 || (x.1 == y.1 && (x.2 < y.2
            || (x.2 == y.2 && x.3 <= y.3))))),
    }
}

/// The index of the latest stable BepInEx 5 release.
fn best_release_index(releases: &Vec<GitHubRelease>) -> (best: Option<usize>)
    ensures
        match best {
            Some(b) => b < releases@.len() && b as int == best_release(releases@, releases@.len() as int),
            None => best_release(releases@, releases@.len() as int) == -1,
        },
{
    let prefix = "v5.4.";
    let mut best: Option<usize> = None;
    let mut best_key: Option<(u64, u64, u64, u64)> = None;
    let mut n: usize = 0;
    while n < releases.len()
        invariant
            n <= releases@.len(),
            prefix@ == "v5.4."@,
            match best {
                Some(b) => b < n && b as int == best_release(releases@, n as int) && best_key
                    == spec_parse_v5(releases@[b as int].tag_name@),
                None => best_release(releases@, n as int) == -1,
            },
        decreases releases@.len() - n,
    {
        let release = &releases[n];
        let candidate = !release.draft && !release.prerelease && text_starts_with(
            release.tag_name.as_str(),
            prefix,
        );
        if candidate {
            let key = parse_v5_version(release.tag_name.as_str());
            let replace = match best {
                None => true,
                Some(_) => key_not_above(best_key, key),
            };
            if replace {
                best = Some(n);
                best_key = key;
            }
        }
        n = n + 1;
    }
    best
}

/// The index of the first asset with the name.
fn find_asset(assets: &Vec<GitHubAsset>, name: &str) -> (found: Option<usize>)
    ensures
        match found {
            Some(a) => a < assets@.len() && a as int == asset_index(assets@, name@, 0),
            None => asset_index(assets@, name@, 0) == -1,
        },
{
    let mut i: usize = 0;
    while i < assets.len()
        invariant
            i <= assets@.len(),
            asset_index(assets@, name@, 0) == asset_index(assets@, name@, i as int),
        decreases assets@.len() - i,
    {
        if crate::text::str_equal(assets[i].name.as_str(), name) {
            return Some(i);
        }
        i = i + 1;
    }
    None
}

/// The hexadecimal digits of a `sha256:` digest.
fn digest_hex(digest: &str) -> (hex: Option<String>)
    ensures
        match sha256_digest(digest@) {
            Some(h) => hex matches Some(x) && x@ == h,
            None => hex is None,
        },
{
    let prefix = "sha256:";
    proof {
        reveal_strlit("sha256:");
    }
    if !text_starts_with(digest, prefix) {
        return None;
    }
    let chars = chars_of(digest);
    let start: usize = 7;
    if chars.len() - start != 64 || !all_hex(&chars, start, chars.len()) {
        proof {
            let h = chars@.subrange(7, chars@.len() as int);
            if h.len() == 64 && forall|i: int| 0 <= i < h.len() ==> is_hex_char(#[trigger] h[i]) {
                assert forall|j: int| 7 <= j < chars@.len() implies is_hex_char(#[trigger] chars@[j]) by {
                    assert(h[j - 7] == chars@[j]);
                }
            }
        }
        return None;
    }
    proof {
        let h = chars@.subrange(7, chars@.len() as int);
        assert forall|i: int| 0 <= i < h.len() implies is_hex_char(#[trigger] h[i]) by {
            assert(h[i] == chars@[7 + i]);
        }
    }
    Some(string_of(&chars, start, chars.len()))
}

/// Chooses the stable BepInEx 5 package for an architecture among GitHub
/// releases.
pub fn select_mono_package(releases: Vec<GitHubRelease>, architecture: BepInExArchitecture) -> (result: Result<PackageInfo, ErrorResponse>)
    ensures
        match mono_package(releases@, architecture) {
            Ok(package) => result matches Ok(p) && p.view_of() == package,
            Err(code) => result matches Err(e) && e.code@ == code,
        },
{
    let b = match best_release_index(&releases) {
        Some(b) => b,
        None => {
            return Err(bepinex_error("bepinex_network_error", "no stable BepInEx 5 release was found"));
        },
    };
    let release = &releases[b];
    if parse_v5_version(release.tag_name.as_str()).is_none() {
        return Err(bepinex_error("bepinex_integrity_error", "the BepInEx release version was invalid"));
    }
    let tag = chars_of(release.tag_name.as_str());
    let version = string_of(&tag, 1, tag.len());
    let mut expected = String::from_str("BepInEx_win_");
    expected.append(architecture.asset_label());
    expected.append("_");
    expected.append(version.as_str());
    expected.append(".zip");
    proof {
        assert(version@ =~= release.tag_name@.drop_first());
        reveal_strlit("BepInEx_win_");
        reveal_strlit("_");
        reveal_strlit(".zip");
        reveal_strlit("x86");
        reveal_strlit("x64");
        assert(expected@ =~= "BepInEx_win_"@ + architecture_label(architecture) + "_"@ + version@ + ".zip"@);
    }
    let a = match find_asset(&release.assets, expected.as_str()) {
        Some(a) => a,
        None => {
            return Err(bepinex_error("bepinex_integrity_error", "the stable BepInEx release has no matching Windows package"));
        },
    };
    let asset = &release.assets[a];
    let hex = match &asset.digest {
        Some(d) => match digest_hex(d.as_str()) {
            Some(h) => h,
            None => {
                return Err(bepinex_error("bepinex_integrity_error", "the stable BepInEx package has no valid SHA-256 digest"));
            },
        },
        None => {
            return Err(bepinex_error("bepinex_integrity_error", "the stable BepInEx package has no valid SHA-256 digest"));
        },
    };
    let url = match parse_url(asset.browser_download_url.as_str()) {
        Some(u) => u,
        None => {
            return Err(bepinex_error("bepinex_integrity_error", "the stable BepInEx download URL was invalid"));
        },
    };
    let download_url = match stable_download(&url) {
        Ok(d) => d,
        Err(e) => {
            return Err(e);
        },
    };
    Ok(PackageInfo {
        version,
        asset_name: expected,
        download_url,
        expected_digest: Some(crate::text::ascii_lowercase(hex.as_str())),
        source: PackageSource::GitHubStable,
    })
}


/// The page that lists the bleeding-edge BepInEx builds.
pub const BEPINEX_BUILDS_URL: &'static str = "https://builds.bepinex.dev/projects/bepinex_be";

/// The beginning of the name of an IL2CPP package for an architecture.
pub open spec fn il2cpp_prefix(architecture: BepInExArchitecture) -> Seq<char> {
    "BepInEx-Unity.IL2CPP-win-"@ + architecture_label(architecture) + "-"@
}

/// What a link of the builds page offers: nothing (`None`), or the package
/// it downloads: an HTTPS link to `builds.bepinex.dev` under
/// `projects/bepinex_be/<digits>/`, to a `.zip` package for the
/// architecture whose name is a valid bleeding-edge build for those
/// digits; its version is the name between the prefix and `.zip`.
pub open spec fn il2cpp_candidate(href: Seq<char>, architecture: BepInExArchitecture) -> Option<Result<PackageView, Seq<char>>> {
    match joined_url(BEPINEX_BUILDS_URL@, spec_decode_entities(href)) {
        None => None,
        Some(url) => il2cpp_offer(url, architecture),
    }
}

/// What a resolved link of the builds page offers: nothing (`None`), or the
/// package of an HTTPS link to `builds.bepinex.dev` under
/// `projects/bepinex_be/<digits>/` whose last segment is a valid
/// bleeding-edge `.zip` build of the architecture for those digits.
pub open spec fn il2cpp_offer(url: UrlView, architecture: BepInExArchitecture) -> Option<Result<PackageView, Seq<char>>> {
            let segs = url.segments;
            if url.scheme != "https"@ || url.host != Some("builds.bepinex.dev"@) {
                None
            } else if segs.len() != 4 || segs[0] != "projects"@ || segs[1] != "bepinex_be"@
                || !all_digits(segs[2]) {
                None
            } else {
                let name = replace_all(replace_all(segs[3], "%2B"@, "+"@), "%2b"@, "+"@);
                let prefix = il2cpp_prefix(architecture);
                if !starts_with(name, prefix) || !ends_with(name, ".zip"@)
                    || !spec_valid_bleeding_edge_name(name, segs[2]) {
                    None
                } else {
                    let rest = name.subrange(prefix.len() as int, name.len() as int);
                    if ends_with(rest, ".zip"@) {
                        Some(
                            Ok(
                                PackageView {
                                    version: rest.subrange(0, rest.len() - 4),
                                    asset_name: name,
                                    download_url: url.text,
                                    expected_digest: None,
                                    source: PackageSource::BepInBuilds,
                                },
                            ),
                        )
                    } else {
                        Some(Err("bepinex_integrity_error"@))
                    }
                }
            }
}

/// The package of the first link from index `i` on that offers one, or
/// `bepinex_network_error`.
pub open spec fn il2cpp_package_from(hrefs: Seq<Seq<char>>, i: int, architecture: BepInExArchitecture) -> Result<PackageView, Seq<char>>
    decreases hrefs.len() - i,
{
    if i < 0 || i >= hrefs.len() {
        Err("bepinex_network_error"@)
    } else {
        match il2cpp_candidate(hrefs[i], architecture) {
            Some(result) => result,
            None => il2cpp_package_from(hrefs, i + 1, architecture),
        }
    }
}

/// The bleeding-edge IL2CPP package of the builds page for an architecture.
pub open spec fn il2cpp_package(html: Seq<char>, architecture: BepInExArchitecture) -> Result<PackageView, Seq<char>> {
    il2cpp_package_from(spec_href_values(html), 0, architecture)
}

/// What a link of the builds page offers.
fn il2cpp_link(href: &str, architecture: BepInExArchitecture) -> (offer: Option<Result<PackageInfo, ErrorResponse>>)
    ensures
        match il2cpp_candidate(href@, architecture) {
            None => offer is None,
            Some(Ok(package)) => offer matches Some(Ok(p)) && p.view_of() == package,
            Some(Err(code)) => offer matches Some(Err(e)) && e.code@ == code,
        },
{
    let decoded = decode_minimal_html_entities(href);
    match join_url(BEPINEX_BUILDS_URL, decoded.as_str()) {
        Some(url) => il2cpp_package_at(&url, architecture),
        None => None,
    }
}

/// What a link of the builds page, resolved against the page, offers.
pub fn il2cpp_package_at(url: &WebUrl, architecture: BepInExArchitecture) -> (offer: Option<Result<PackageInfo, ErrorResponse>>)
    ensures
        match il2cpp_offer(url.view_of(), architecture) {
            None => offer is None,
            Some(Ok(package)) => offer matches Some(Ok(p)) && p.view_of() == package,
            Some(Err(code)) => offer matches Some(Err(e)) && e.code@ == code,
        },
{
    let official = match &url.host {
        Some(h) => crate::text::str_equal(h.as_str(), "builds.bepinex.dev"),
        None => false,
    };
    if !crate::text::str_equal(url.scheme.as_str(), "https") || !official {
        return None;
    }
    if url.segments.len() != 4 {
        return None;
    }
    proof {
        assert(texts(url.segments@)[0] == url.segments@[0]@);
        assert(texts(url.segments@)[1] == url.segments@[1]@);
        assert(texts(url.segments@)[2] == url.segments@[2]@);
        assert(texts(url.segments@)[3] == url.segments@[3]@);
    }
    let build_chars = chars_of(url.segments[2].as_str());
    let digits = all_digit_chars(&build_chars, 0, build_chars.len());
    proof {
        assert(build_chars@.subrange(0, build_chars@.len() as int) =~= build_chars@);
    }
    if !crate::text::str_equal(url.segments[0].as_str(), "projects") || !crate::text::str_equal(
        url.segments[1].as_str(),
        "bepinex_be",
    ) || !digits {
        return None;
    }
    proof {
        reveal_strlit("%2B");
        reveal_strlit("%2b");
    }
    let upper = replace_text(url.segments[3].as_str(), "%2B", "+");
    let name = replace_text(upper.as_str(), "%2b", "+");
    let mut prefix = String::from_str("BepInEx-Unity.IL2CPP-win-");
    prefix.append(architecture.asset_label());
    prefix.append("-");
    proof {
        reveal_strlit("BepInEx-Unity.IL2CPP-win-");
        reveal_strlit("-");
        reveal_strlit("x86");
        reveal_strlit("x64");
        assert(prefix@ =~= il2cpp_prefix(architecture));
    }
    if !text_starts_with(name.as_str(), prefix.as_str()) || !text_ends_with(name.as_str(), ".zip")
        || !valid_bleeding_edge_name(name.as_str(), url.segments[2].as_str()) {
        return None;
    }
    let name_chars = chars_of(name.as_str());
    let plen = chars_of(prefix.as_str()).len();
    let rest = string_of(&name_chars, plen, name_chars.len());
    if !text_ends_with(rest.as_str(), ".zip") {
        return Some(Err(bepinex_error("bepinex_integrity_error", "the BepInBuilds package name was invalid")));
    }
    let rest_chars = chars_of(rest.as_str());
    proof {
        reveal_strlit(".zip");
    }
    let version = string_of(&rest_chars, 0, rest_chars.len() - 4);
    Some(Ok(PackageInfo {
        version,
        asset_name: name,
        download_url: url.text.clone(),
        expected_digest: None,
        source: PackageSource::BepInBuilds,
    }))
}

/// Chooses the bleeding-edge IL2CPP package for an architecture from the
/// builds page: the first link that offers one.
pub fn select_il2cpp_package(html: &str, architecture: BepInExArchitecture) -> (result: Result<PackageInfo, ErrorResponse>)
    ensures
        match il2cpp_package(html@, architecture) {
            Ok(package) => result matches Ok(p) && p.view_of() == package,
            Err(code) => result matches Err(e) && e.code@ == code,
        },
{
    let hrefs = href_values(html);
    let ghost links = texts(hrefs@);
    let mut i: usize = 0;
    while i < hrefs.len()
        invariant
            i <= hrefs@.len(),
            links == texts(hrefs@),
            links == spec_href_values(html@),
            il2cpp_package(html@, architecture) == il2cpp_package_from(links, i as int, architecture),
        decreases hrefs@.len() - i,
    {
        proof {
            assert(links[i as int] == hrefs@[i as int]@);
        }
        match il2cpp_link(hrefs[i].as_str(), architecture) {
            Some(offer) => {
                return offer;
            },
            None => {},
        }
        i = i + 1;
    }
    Err(bepinex_error("bepinex_network_error", "no matching BepInEx IL2CPP package was found"))
}

/// The four numbers of a version key, in order.
pub open spec fn key_numbers(k: (u64, u64, u64, u64)) -> Seq<int> {
    seq![k.0 as int, k.1 as int, k.2 as int, k.3 as int]
}

/// `a` comes before `b` as versions do: they agree up to some place and
/// `a` is smaller there.
pub open spec fn numbers_before(a: Seq<int>, b: Seq<int>) -> bool {
    exists|p: int| 0 <= p < a.len() && p < b.len() && a.subrange(0, p) == b.subrange(0, p) && #[trigger] a[p] < b[p]
}

proof fn lemma_key_at_most_not_before(x: (u64, u64, u64, u64), y: (u64, u64, u64, u64))
    requires
        key_at_most(Some(x), Some(y)),
    ensures
        !numbers_before(key_numbers(y), key_numbers(x)),
{
    let a = key_numbers(y);
    let b = key_numbers(x);
    if numbers_before(a, b) {
        let p = choose|p: int| 0 <= p < a.len() && p < b.len() && a.subrange(0, p) == b.subrange(0, p) && #[trigger] a[p]
            < b[p];
        if p >= 1 {
            assert(a.subrange(0, p)[0] == b.subrange(0, p)[0]);
        }
        if p >= 2 {
            assert(a.subrange(0, p)[1] == b.subrange(0, p)[1]);
        }
        if p >= 3 {
            assert(a.subrange(0, p)[2] == b.subrange(0, p)[2]);
        }
    }
}

proof fn lemma_key_at_most_order(a: Option<(u64, u64, u64, u64)>, b: Option<(u64, u64, u64, u64)>, c: Option<(u64, u64, u64, u64)>)
    ensures
        key_at_most(a, b) || key_at_most(b, a),
        key_at_most(a, b) && key_at_most(b, c) ==> key_at_most(a, c),
{
}

proof fn lemma_best_release(releases: Seq<GitHubRelease>, n: int)
    requires
        0 <= n <= releases.len(),
    ensures
        best_release(releases, n) < n,
        best_release(releases, n) >= 0 ==> stable_candidate(releases[best_release(releases, n)]),
        forall|j: int|
            0 <= j < n && stable_candidate(#[trigger] releases[j]) ==> best_release(releases, n) >= 0 && key_at_most(
                spec_parse_v5(releases[j].tag_name@),
                spec_parse_v5(releases[best_release(releases, n)].tag_name@),
            ),
    decreases n,
{
    if n > 0 {
        lemma_best_release(releases, n - 1);
        let b = best_release(releases, n - 1);
        assert forall|j: int| 0 <= j < n && stable_candidate(#[trigger] releases[j]) implies best_release(releases, n)
            >= 0 && key_at_most(
            spec_parse_v5(releases[j].tag_name@),
            spec_parse_v5(releases[best_release(releases, n)].tag_name@),
        ) by {
            let nb = best_release(releases, n);
            if j < n - 1 {
                lemma_key_at_most_order(
                    spec_parse_v5(releases[j].tag_name@),
                    spec_parse_v5(releases[b].tag_name@),
                    spec_parse_v5(releases[n - 1].tag_name@),
                );
            } else {
                if b >= 0 {
                    lemma_key_at_most_order(
                        spec_parse_v5(releases[b].tag_name@),
                        spec_parse_v5(releases[n - 1].tag_name@),
                        spec_parse_v5(releases[n - 1].tag_name@),
                    );
                }
                lemma_key_at_most_order(
                    spec_parse_v5(releases[n - 1].tag_name@),
                    spec_parse_v5(releases[n - 1].tag_name@),
                    spec_parse_v5(releases[n - 1].tag_name@),
                );
            }
        }
    }
}

/// The stable package comes from the latest stable 5.4 release: where one
/// is chosen, its version is that of a published, non-pre-release
/// release tagged `v5.4.` whose version numbers no other such release
/// exceeds, compared number by number from the first.
pub proof fn stable_package_is_the_latest_release(
    releases: Vec<GitHubRelease>,
    architecture: BepInExArchitecture,
    result: Result<PackageInfo, ErrorResponse>,
)
    requires
        call_ensures(select_mono_package, (releases, architecture), result),
    ensures
        result matches Ok(package) ==> exists|r: int|
            {
                &&& 0 <= r < releases@.len()
                &&& !(#[trigger] releases@[r]).draft
                &&& !releases@[r].prerelease
                &&& starts_with(releases@[r].tag_name@, "v5.4."@)
                &&& package.version@ == releases@[r].tag_name@.drop_first()
                &&& spec_parse_v5(releases@[r].tag_name@) is Some
                &&& forall|c: int|
                    0 <= c < releases@.len() && !(#[trigger] releases@[c]).draft && !releases@[c].prerelease
                        && starts_with(releases@[c].tag_name@, "v5.4."@) && spec_parse_v5(
                        releases@[c].tag_name@,
                    ) is Some ==> !numbers_before(
                        key_numbers(spec_parse_v5(releases@[r].tag_name@)->0),
                        key_numbers(spec_parse_v5(releases@[c].tag_name@)->0),
                    )
            },
{
    let rs = releases@;
    lemma_best_release(rs, rs.len() as int);
    let b = best_release(rs, rs.len() as int);
    if result is Ok {
        assert(b >= 0);
        let kb = spec_parse_v5(rs[b].tag_name@)->0;
        assert forall|c: int|
            0 <= c < rs.len() && !(#[trigger] rs[c]).draft && !rs[c].prerelease && starts_with(rs[c].tag_name@, "v5.4."@)
                && spec_parse_v5(rs[c].tag_name@) is Some implies !numbers_before(
            key_numbers(kb),
            key_numbers(spec_parse_v5(rs[c].tag_name@)->0),
        ) by {
            assert(stable_candidate(rs[c]));
            lemma_key_at_most_not_before(spec_parse_v5(rs[c].tag_name@)->0, kb);
        }
        assert(stable_candidate(rs[b]));
    }
}

} // verus!
