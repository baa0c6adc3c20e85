//! Checks made while a package is downloaded: where it came from, what it
//! claims to be, how large it grows, and whether its SHA-256 digest is the
//! one expected.
use vstd::prelude::*;

use sha2::Digest;

use crate::catalog::ModDefinition;
use crate::error::{bepinex_error, mod_error, ErrorResponse};
use crate::packages::{parse_url, parsed_url, WebUrl};
use crate::text::append_str;
use crate::validate::{catalog_release_tag, spec_release_tag};
use crate::patterns::{find_from, lemma_find_from};
use crate::text::{
    ascii_lowercase, chars_of, eq_ignore_ascii_case, lower_chars, str_eq_ignore_ascii_case,
    str_equal, string_of,
};

verus! {

/// Where the catalog publishes mod release archives.
pub const MOD_RELEASE_ROOT: &'static str = "https://github.com/NicDev-Studios/GameTweaks-Games/releases/download";

/// The text of a mod's release URL: the release root, the catalog's
/// release tag of the mod, and the asset name, joined by slashes.
pub open spec fn mod_release_text(definition: ModDefinition) -> Seq<char> {
    MOD_RELEASE_ROOT@ + "/"@ + spec_release_tag(definition) + "/"@ + definition.release.asset@
}

/// The URL a mod's release archive is downloaded from, as `url::Url::parse`
/// reads it; a text that does not parse is `mod_download_invalid`.
pub fn mod_release_url(definition: &ModDefinition) -> (url: Result<WebUrl, ErrorResponse>)
    ensures
        match parsed_url(mod_release_text(*definition)) {
            Some(v) => url matches Ok(u) && u.view_of() == v,
            None => url matches Err(e) && e.code@ == "mod_download_invalid"@,
        },
{
    let mut text = MOD_RELEASE_ROOT.to_string();
    append_str(&mut text, "/");
    let tag = catalog_release_tag(definition);
    append_str(&mut text, tag.as_str());
    append_str(&mut text, "/");
    append_str(&mut text, definition.release.asset.as_str());
    proof {
        assert(text@ =~= mod_release_text(*definition));
    }
    match parse_url(text.as_str()) {
        Some(u) => Ok(u),
        None => Err(mod_error("mod_download_invalid", "the mod release URL was invalid")),
    }
}

/// The largest BepInEx archive that is downloaded.
pub const BEPINEX_ARCHIVE_MAX_BYTES: u64 = 268435456;

/// The largest mod archive that is downloaded.
pub const MOD_ARCHIVE_MAX_BYTES: u64 = 67108864;

/// `sha2::Sha256` over these bytes, written with `{:x}`: the digest as
/// lowercase hexadecimal.
pub uninterp spec fn sha256_lower_hex(bytes: Seq<u8>) -> Seq<char>;

/// A SHA-256 computation that is fed its input piece by piece.
#[verifier::external_body]
pub struct Sha256Stream {
    hasher: sha2::Sha256,
}

/// The bytes that a SHA-256 computation has been fed so far.
pub uninterp spec fn streamed_bytes(stream: Sha256Stream) -> Seq<u8>;

/// `Sha256::new`: a computation that has been fed nothing.
#[verifier::external_body]
fn new_stream() -> (stream: Sha256Stream)
    ensures
        streamed_bytes(stream) == Seq::<u8>::empty(),
{
    Sha256Stream { hasher: sha2::Sha256::new() }
}

/// `Digest::update`: feeds the bytes after those fed before.
#[verifier::external_body]
fn stream_update(stream: &mut Sha256Stream, chunk: &[u8])
    ensures
        streamed_bytes(*final(stream)) == streamed_bytes(*old(stream)) + chunk@,
{
    stream.hasher.update(chunk);
}

/// `Digest::finalize`, written with `{:x}`: the digest of every byte fed.
#[verifier::external_body]
fn stream_finish(stream: Sha256Stream) -> (hex: String)
    ensures
        hex@ == sha256_lower_hex(streamed_bytes(stream)),
{
    format!("{:x}", stream.hasher.finalize())
}

impl Sha256Stream {
    /// A computation that has been fed nothing.
    pub fn new() -> (stream: Sha256Stream)
        ensures
            streamed_bytes(stream) == Seq::<u8>::empty(),
    {
        new_stream()
    }

    /// Feeds more bytes.
    pub fn update(&mut self, chunk: &[u8])
        ensures
            streamed_bytes(*final(self)) == streamed_bytes(*old(self)) + chunk@,
    {
        stream_update(self, chunk)
    }

    /// The lowercase hexadecimal digest of everything fed.
    pub fn finish(self) -> (hex: String)
        ensures
            hex@ == sha256_lower_hex(streamed_bytes(self)),
    {
        stream_finish(self)
    }
}

/// The lowercase hexadecimal SHA-256 digest of some bytes.
pub fn sha256_hex(raw: &[u8]) -> (hex: String)
    ensures
        hex@ == sha256_lower_hex(raw@),
{
    let mut stream = Sha256Stream::new();
    stream.update(raw);
    proof {
        assert(Seq::<u8>::empty() + raw@ =~= raw@);
    }
    stream.finish()
}

/// A mod definition's bytes are the ones the catalog lists: their digest
/// equals the listed one once that is in lowercase.
pub open spec fn definition_digest_matches(raw: Seq<u8>, listed: Seq<char>) -> bool {
    sha256_lower_hex(raw) == lower_chars(listed)
}

/// Whether the bytes of a mod definition have the digest that the catalog
/// lists for it.
pub fn definition_integrity(raw: &[u8], listed: &str) -> (matches: bool)
    ensures
        matches == definition_digest_matches(raw@, listed@),
{
    let digest = sha256_hex(raw);
    let expected = ascii_lowercase(listed);
    str_equal(digest.as_str(), expected.as_str())
}

/// The media type of a `Content-Type` value: what stands before its first
/// `;`.
pub open spec fn media_type(content_type: Seq<char>) -> Seq<char> {
    let k = find_from(content_type, seq![';'], 0);
    if k < 0 {
        content_type
    } else {
        content_type.subrange(0, k)
    }
}

/// The media types under which a ZIP archive is accepted.
pub open spec fn zip_media_type(media: Seq<char>) -> bool {
    media == "application/zip"@ || media == "application/x-zip-compressed"@ || media
        == "application/octet-stream"@
}

/// The media type of a `Content-Type` value.
pub fn content_media_type(content_type: &str) -> (media: String)
    ensures
        media@ == media_type(content_type@),
{
    let chars = chars_of(content_type);
    let mut i: usize = 0;
    while i < chars.len() && chars[i] != ';'
        invariant
            chars@ == content_type@,
            i <= chars@.len(),
            forall|k: int| 0 <= k < i ==> chars@[k] != ';',
        decreases chars@.len() - i,
    {
        i = i + 1;
    }
    proof {
        lemma_find_from(content_type@, seq![';'], 0);
        let k = find_from(content_type@, seq![';'], 0);
        if i < chars@.len() {
            assert(content_type@.subrange(i as int, i + 1) =~= seq![';']);
            if k < 0 || k > i {
                assert(!crate::patterns::occurs_at(content_type@, seq![';'], i as int));
            }
            if 0 <= k < i {
                assert(content_type@.subrange(k, k + 1)[0] == content_type@[k]);
            }
        } else {
            if k >= 0 {
                assert(content_type@.subrange(k, k + 1)[0] == content_type@[k]);
            }
            assert(content_type@.subrange(0, i as int) =~= content_type@);
        }
    }
    string_of(&chars, 0, i)
}

/// What is decided of a BepInEx download before its body is read: it must
/// come from a trusted host, be labelled as a ZIP archive, and not announce
/// more than the archive limit.
pub open spec fn bepinex_download_accepted(trusted: bool, content_type: Option<Seq<char>>, total: Option<u64>) -> bool {
    &&& trusted
    &&& zip_media_type(media_type(
        match content_type {
            Some(c) => c,
            None => Seq::empty(),
        },
    ))
    &&& match total {
        Some(t) => t <= BEPINEX_ARCHIVE_MAX_BYTES,
        None => true,
    }
}

/// Checks the response to a BepInEx download before its body is read.
pub fn check_bepinex_response(trusted: bool, content_type: Option<&str>, total: Option<u64>) -> (result: Result<(), ErrorResponse>)
    ensures
        result is Ok <==> bepinex_download_accepted(
            trusted,
            match content_type {
                Some(c) => Some(c@),
                None => None,
            },
            total,
        ),
        result matches Err(e) ==> e.code@ == "bepinex_integrity_error"@,
{
    if !trusted {
        return Err(bepinex_error("bepinex_integrity_error", "the BepInEx download redirected to an untrusted host"));
    }
    let media = match content_type {
        Some(c) => content_media_type(c),
        None => {
            proof {
                lemma_find_from(Seq::<char>::empty(), seq![';'], 0);
                assert(Seq::<char>::empty().subrange(0, 0) =~= Seq::<char>::empty());
            }
            String::new()
        },
    };
    proof {
        reveal_strlit("application/zip");
        reveal_strlit("application/x-zip-compressed");
        reveal_strlit("application/octet-stream");
    }
    let zip = str_equal(media.as_str(), "application/zip") || str_equal(media.as_str(), "application/x-zip-compressed")
        || str_equal(media.as_str(), "application/octet-stream");
    if !zip {
        return Err(bepinex_error("bepinex_integrity_error", "the BepInEx download was not a ZIP archive"));
    }
    match total {
        Some(t) => {
            if t > BEPINEX_ARCHIVE_MAX_BYTES {
                return Err(bepinex_error("bepinex_integrity_error", "the BepInEx archive was too large"));
            }
        },
        None => {},
    }
    Ok(())
}

/// Checks the response to a mod download before its body is read: it must
/// come from a trusted host and not announce more than the archive limit.
pub fn check_mod_response(trusted: bool, total: Option<u64>) -> (result: Result<(), ErrorResponse>)
    ensures
        result is Ok <==> (trusted && match total {
            Some(t) => t <= MOD_ARCHIVE_MAX_BYTES,
            None => true,
        }),
        result matches Err(e) ==> e.code@ == "mod_integrity_error"@,
{
    let too_large = match total {
        Some(t) => t > MOD_ARCHIVE_MAX_BYTES,
        None => false,
    };
    if !trusted || too_large {
        return Err(mod_error("mod_integrity_error", "the mod package source was not trusted"));
    }
    Ok(())
}

/// The byte count after a chunk, saturating at the largest `u64`.
pub open spec fn counted(downloaded: u64, chunk: int) -> u64 {
    if downloaded + chunk > u64::MAX {
        u64::MAX
    } else {
        (downloaded + chunk) as u64
    }
}

/// Takes in one chunk of a download: counts its bytes, refuses it when the
/// count passes the limit, and else feeds it to the digest. Returns the new
/// count, or `None` when the limit was passed; nothing is fed then.
pub fn take_chunk(stream: &mut Sha256Stream, downloaded: u64, chunk: &[u8], limit: u64) -> (count: Option<u64>)
    ensures
        counted(downloaded, chunk@.len() as int) > limit ==> count is None && streamed_bytes(*final(stream))
            == streamed_bytes(*old(stream)),
        counted(downloaded, chunk@.len() as int) <= limit ==> count == Some(counted(downloaded, chunk@.len() as int))
            && streamed_bytes(*final(stream)) == streamed_bytes(*old(stream)) + chunk@,
{
    let length = chunk.len() as u64;
    let total = if downloaded > u64::MAX - length {
        u64::MAX
    } else {
        downloaded + length
    };
    if total > limit {
        return None;
    }
    stream.update(chunk);
    Some(total)
}

/// The digest of a finished BepInEx download, when it matches the expected
/// one in any ASCII case, or when none is expected.
pub fn finish_bepinex_download(stream: Sha256Stream, expected: Option<&str>) -> (result: Result<String, ErrorResponse>)
    ensures
        match result {
            Ok(hex) => hex@ == sha256_lower_hex(streamed_bytes(stream)) && match expected {
                Some(e) => eq_ignore_ascii_case(e@, hex@),
                None => true,
            },
            Err(e) => e.code@ == "bepinex_integrity_error"@ && (expected matches Some(x) && !eq_ignore_ascii_case(
                x@,
                sha256_lower_hex(streamed_bytes(stream)),
            )),
        },
{
    let hex = stream.finish();
    match expected {
        Some(e) => {
            if !str_eq_ignore_ascii_case(e, hex.as_str()) {
                return Err(bepinex_error("bepinex_integrity_error", "the BepInEx archive failed SHA-256 verification"));
            }
        },
        None => {},
    }
    Ok(hex)
}

/// Whether a finished mod download has the digest that the mod's release
/// lists, in any ASCII case.
pub fn finish_mod_download(stream: Sha256Stream, listed: &str) -> (result: Result<(), ErrorResponse>)
    ensures
        result is Ok <==> eq_ignore_ascii_case(sha256_lower_hex(streamed_bytes(stream)), listed@),
        result matches Err(e) ==> e.code@ == "mod_integrity_error"@,
{
    let hex = stream.finish();
    if !str_eq_ignore_ascii_case(hex.as_str(), listed) {
        return Err(mod_error("mod_integrity_error", "the mod package digest did not match"));
    }
    Ok(())
}

} // verus!
