//! The GameTweaks agent: the plugin that runs inside a game and talks to the
//! desktop app over a local pipe. Here are the rules the app applies to it.
use vstd::prelude::*;

use crate::bepinex::BepInExRuntime;
use crate::fields::{ConfigField, ConfigValue, LocalizedText};
use crate::paths::{inspect_path, safe_relative_path};
use crate::text::{decimal_text, integer_text};
use crate::versions::{compare_versions, semver_order};
use vstd::utf8::encode_utf8;

use hmac::Mac;

verus! {

/// The version of the agent protocol.
pub const PROTOCOL_VERSION: u32 = 1;

/// The version of the agent that ships with the app.
pub const AGENT_VERSION: &'static str = "0.1.0";

/// The state of the connection between the app and a game's agent.
#[derive(Clone, Copy, Debug, PartialEq, Eq, Structural)]
pub enum AgentConnectionStatus {
    Disconnected,
    Connecting,
    Connected,
    Incompatible,
    Ambiguous,
}

/// Whether the bundled agent is at least the minimum version a mod asks
/// for (always, where it asks for none).
pub fn bundled_agent_meets(minimum: Option<&str>) -> (meets: bool)
    ensures
        meets == match minimum {
            None => true,
            Some(m) => semver_order(AGENT_VERSION@, m@) != -1,
        },
{
    match minimum {
        None => true,
        Some(m) => compare_versions(AGENT_VERSION, m) != -1,
    }
}


/// The largest frame, in bytes, that the app and an agent exchange.
pub const MAX_FRAME_BYTES: usize = 1048576;

/// The status of a game's agent connection from the number of connected
/// agents: one is connected, several are ambiguous, and without any the
/// status last recorded holds (disconnected where none was).
pub open spec fn status_of(connections: Option<usize>, recorded: Option<AgentConnectionStatus>) -> AgentConnectionStatus {
    match connections {
        Some(n) if n == 1 => AgentConnectionStatus::Connected,
        Some(n) if n > 1 => AgentConnectionStatus::Ambiguous,
        _ => match recorded {
            Some(s) => s,
            None => AgentConnectionStatus::Disconnected,
        },
    }
}

/// The status of a game's agent connection, given how many agents of the
/// game are connected (`None` where none ever was) and the status last
/// recorded for it.
pub fn connection_status(connections: Option<usize>, recorded: Option<AgentConnectionStatus>) -> (status: AgentConnectionStatus)
    ensures
        status == status_of(connections, recorded),
{
    match connections {
        Some(n) if n == 1 => AgentConnectionStatus::Connected,
        Some(n) if n > 1 => AgentConnectionStatus::Ambiguous,
        _ => match recorded {
            Some(s) => s,
            None => AgentConnectionStatus::Disconnected,
        },
    }
}

/// Whether a game's agent is connected.
pub fn is_connected(connections: Option<usize>, recorded: Option<AgentConnectionStatus>) -> (connected: bool)
    ensures
        connected == (status_of(connections, recorded) == AgentConnectionStatus::Connected),
{
    connection_status(connections, recorded) == AgentConnectionStatus::Connected
}

/// The status recorded once an agent has joined or left: none left is
/// disconnected, one connected, several ambiguous.
pub fn status_after_change(remaining: usize) -> (status: AgentConnectionStatus)
    ensures
        remaining == 0 ==> status == AgentConnectionStatus::Disconnected,
        remaining == 1 ==> status == AgentConnectionStatus::Connected,
        remaining > 1 ==> status == AgentConnectionStatus::Ambiguous,
{
    if remaining == 0 {
        AgentConnectionStatus::Disconnected
    } else if remaining == 1 {
        AgentConnectionStatus::Connected
    } else {
        AgentConnectionStatus::Ambiguous
    }
}

/// The record an installed agent keeps in its directory.
#[derive(Clone, Debug)]
pub struct AgentMarker {
    pub schema_version: u32,
    pub app_id: u32,
    pub version: String,
    pub runtime: BepInExRuntime,
    pub secret: String,
    pub files: Vec<String>,
}

/// What an agent reports of one mod it runs.
#[derive(Debug)]
pub struct AgentModSnapshot {
    pub mod_id: String,
    pub version: String,
    pub name: LocalizedText,
    pub description: LocalizedText,
    pub fields: Vec<ConfigField>,
    pub values: Vec<(String, ConfigValue)>,
}

/// An ASCII hexadecimal digit.
pub open spec fn hex_digit(c: char) -> bool {
    ('0' <= c <= '9') || ('a' <= c <= 'f') || ('A' <= c <= 'F')
}

/// The value of a hexadecimal digit.
pub open spec fn hex_value(c: char) -> int {
    if '0' <= c <= '9' {
        c as int - '0' as int
    } else if 'a' <= c <= 'f' {
        c as int - 'a' as int + 10
    } else {
        c as int - 'A' as int + 10
    }
}

/// The text is all hexadecimal digits.
pub open spec fn all_hex(s: Seq<char>) -> bool {
    forall|i: int| 0 <= i < s.len() ==> hex_digit(#[trigger] s[i])
}

/// A marker that can be trusted: the first schema, a secret of 64
/// hexadecimal digits, and at least one file.
pub open spec fn agent_marker_valid(marker: AgentMarker) -> bool {
    &&& marker.schema_version == 1
    &&& marker.secret@.len() == 64
    &&& all_hex(marker.secret@)
    &&& marker.files@.len() > 0
}

/// Every file that a marker lists is a relative path of plain names.
pub open spec fn agent_files_relative(marker: AgentMarker) -> bool {
    forall|i: int| 0 <= i < marker.files@.len() ==> safe_relative_path(#[trigger] marker.files@[i]@)
}

/// Whether a text is made of hexadecimal digits.
fn hex_text(text: &str) -> (hex: bool)
    ensures
        hex == all_hex(text@),
{
    let chars = crate::text::chars_of(text);
    let mut i: usize = 0;
    while i < chars.len()
        invariant
            chars@ == text@,
            i <= chars@.len(),
            forall|k: int| 0 <= k < i ==> hex_digit(#[trigger] chars@[k]),
        decreases chars@.len() - i,
    {
        let c = chars[i];
        if !(('0' <= c && c <= '9') || ('a' <= c && c <= 'f') || ('A' <= c && c <= 'F')) {
            return false;
        }
        i = i + 1;
    }
    true
}

/// Whether an agent marker can be trusted.
pub fn valid_agent_marker(marker: &AgentMarker) -> (valid: bool)
    ensures
        valid == agent_marker_valid(*marker),
{
    if marker.schema_version != 1 || marker.files.len() == 0 {
        return false;
    }
    let secret = crate::text::chars_of(marker.secret.as_str());
    if secret.len() != 64 {
        return false;
    }
    hex_text(marker.secret.as_str())
}

/// Whether every file of a marker is a relative path of plain names.
pub fn agent_files_are_relative(marker: &AgentMarker) -> (relative: bool)
    ensures
        relative == agent_files_relative(*marker),
{
    let mut i: usize = 0;
    while i < marker.files.len()
        invariant
            i <= marker.files@.len(),
            forall|k: int| 0 <= k < i ==> safe_relative_path(#[trigger] marker.files@[k]@),
        decreases marker.files@.len() - i,
    {
        let (normal, _) = inspect_path(marker.files[i].as_str());
        if !normal || marker.files[i].as_str().is_empty() {
            return false;
        }
        i = i + 1;
    }
    true
}

/// The agent installed in a game is this game's, where a valid installation
/// was found.
pub fn agent_is_installed(installed: Option<&AgentMarker>, app_id: u32) -> (found: bool)
    ensures
        found == (installed matches Some(m) && m.app_id == app_id),
{
    match installed {
        Some(m) => m.app_id == app_id,
        None => false,
    }
}

/// The agent installed in a game is this game's and the one that ships
/// with the app.
pub fn agent_is_current(installed: Option<&AgentMarker>, app_id: u32) -> (current: bool)
    ensures
        current == (installed matches Some(m) && m.app_id == app_id && m.version@ == AGENT_VERSION@),
{
    match installed {
        Some(m) => m.app_id == app_id && crate::text::str_equal(m.version.as_str(), AGENT_VERSION),
        None => false,
    }
}

/// The bytes that a text of hexadecimal digit pairs stands for, or `None`
/// where it has an odd length or another character.
pub open spec fn decoded_hex(s: Seq<char>) -> Option<Seq<u8>> {
    if s.len() % 2 == 0 && all_hex(s) {
        Some(Seq::new((s.len() / 2) as nat, |i: int| (16 * hex_value(s[2 * i]) + hex_value(s[2 * i + 1])) as u8))
    } else {
        None
    }
}

/// The value of a hexadecimal digit.
fn digit_value(c: char) -> (value: u8)
    requires
        hex_digit(c),
    ensures
        value == hex_value(c),
{
    if '0' <= c && c <= '9' {
        (c as u32 - '0' as u32) as u8
    } else if 'a' <= c && c <= 'f' {
        (c as u32 - 'a' as u32 + 10) as u8
    } else {
        (c as u32 - 'A' as u32 + 10) as u8
    }
}

/// Decodes a text of hexadecimal digit pairs.
pub fn decode_hex(value: &str) -> (bytes: Option<Vec<u8>>)
    ensures
        match decoded_hex(value@) {
            Some(b) => bytes matches Some(v) && v@ == b,
            None => bytes is None,
        },
{
    let chars = crate::text::chars_of(value);
    let n = chars.len();
    if n % 2 != 0 || !hex_text(value) {
        return None;
    }
    let ghost expected = decoded_hex(value@).unwrap();
    let mut bytes: Vec<u8> = Vec::new();
    let mut i: usize = 0;
    while i < n / 2
        invariant
            chars@ == value@,
            n == chars@.len(),
            n % 2 == 0,
            all_hex(value@),
            expected == decoded_hex(value@).unwrap(),
            i <= n / 2,
            bytes@ == expected.subrange(0, i as int),
        decreases n / 2 - i,
    {
        assert(hex_digit(value@[2 * i as int]));
        assert(hex_digit(value@[2 * i + 1]));
        let high = digit_value(chars[2 * i]);
        let low = digit_value(chars[2 * i + 1]);
        bytes.push(16 * high + low);
        proof {
            assert(expected.subrange(0, i + 1) =~= expected.subrange(0, i as int).push(expected[i as int]));
        }
        i = i + 1;
    }
    proof {
        assert(expected.subrange(0, (n / 2) as int) =~= expected);
    }
    Some(bytes)
}

/// The lowercase hexadecimal digit for a value below sixteen.
pub open spec fn lower_hex_digit(v: int) -> char {
    if v < 10 {
        ((v + 48) as u8) as char
    } else {
        ((v + 87) as u8) as char
    }
}

/// Bytes written as pairs of lowercase hexadecimal digits, each as
/// `{:02x}` writes it.
pub open spec fn lower_hex(bytes: Seq<u8>) -> Seq<char> {
    Seq::new(2 * bytes.len(), |i: int| if i % 2 == 0 {
        lower_hex_digit((bytes[i / 2] / 16) as int)
    } else {
        lower_hex_digit((bytes[i / 2] % 16) as int)
    })
}

fn hex_digit_of(v: u8) -> (c: char)
    requires
        v < 16,
    ensures
        c == lower_hex_digit(v as int),
{
    if v < 10 {
        (v + 48) as char
    } else {
        (v + 87) as char
    }
}

/// Writes bytes as lowercase hexadecimal digit pairs.
pub fn encode_lower_hex(bytes: &[u8]) -> (text: String)
    ensures
        text@ == lower_hex(bytes@),
{
    let mut digits: Vec<char> = Vec::new();
    let mut i: usize = 0;
    while i < bytes.len()
        invariant
            i <= bytes@.len(),
            digits@ == lower_hex(bytes@).subrange(0, 2 * i),
        decreases bytes@.len() - i,
    {
        digits.push(hex_digit_of(bytes[i] / 16));
        digits.push(hex_digit_of(bytes[i] % 16));
        proof {
            let h = lower_hex(bytes@);
            assert((2 * i) % 2 == 0);
            assert((2 * i + 1) % 2 == 1);
            assert((2 * i) / 2 == i);
            assert((2 * i + 1) / 2 == i);
            assert(h.subrange(0, 2 * i + 2) =~= h.subrange(0, 2 * i).push(h[2 * i]).push(h[2 * i + 1]));
        }
        i = i + 1;
    }
    proof {
        assert(lower_hex(bytes@).subrange(0, 2 * bytes@.len() as int) =~= lower_hex(bytes@));
    }
    crate::text::string_of(&digits, 0, digits.len())
}

/// The HMAC-SHA256 tag of a message under a key, by the `hmac` and `sha2`
/// crates.
pub uninterp spec fn hmac_sha256_tag(key: Seq<u8>, message: Seq<u8>) -> Seq<u8>;

/// `Hmac::<Sha256>::new_from_slice`, `update` and `finalize`: the tag of
/// the message under the key. `new_from_slice` accepts keys of every
/// length for HMAC.
#[verifier::external_body]
fn hmac_sha256(key: &[u8], message: &[u8]) -> (tag: Option<Vec<u8>>)
    ensures
        tag is Some,
        tag is Some ==> tag.unwrap()@ == hmac_sha256_tag(key@, message@),
{
    match hmac::Hmac::<sha2::Sha256>::new_from_slice(key) {
        Ok(mut mac) => {
            mac.update(message);
            Some(mac.finalize().into_bytes().to_vec())
        },
        Err(_) => None,
    }
}

/// What the agent signs to answer a challenge: the challenge, the app id,
/// the process id and the instance id, joined by `|`.
pub open spec fn proof_message(challenge: Seq<char>, app_id: u32, process_id: u32, instance_id: Seq<char>) -> Seq<u8> {
    encode_utf8(challenge + seq!['|'] + decimal_text(app_id as int) + seq!['|'] + decimal_text(process_id as int)
        + seq!['|'] + instance_id)
}

/// The answer an agent with `secret` owes to a challenge: the HMAC-SHA256
/// of the message under the decoded secret, in lowercase hexadecimal.
pub open spec fn expected_proof(
    secret: Seq<char>,
    challenge: Seq<char>,
    app_id: u32,
    process_id: u32,
    instance_id: Seq<char>,
) -> Option<Seq<char>> {
    match decoded_hex(secret) {
        Some(key) => Some(lower_hex(hmac_sha256_tag(key, proof_message(challenge, app_id, process_id, instance_id)))),
        None => None,
    }
}

/// The proof an agent with `secret` must send back for a challenge.
pub fn challenge_proof(secret: &str, challenge: &str, app_id: u32, process_id: u32, instance_id: &str) -> (answer: Option<String>)
    ensures
        match expected_proof(secret@, challenge@, app_id, process_id, instance_id@) {
            Some(p) => answer matches Some(a) && a@ == p,
            None => answer is None,
        },
{
    let key = match decode_hex(secret) {
        Some(key) => key,
        None => {
            return None;
        },
    };
    let mut message = challenge.to_string();
    message.append("|");
    let app = integer_text(app_id as i64);
    message.append(app.as_str());
    message.append("|");
    let process = integer_text(process_id as i64);
    message.append(process.as_str());
    message.append("|");
    message.append(instance_id);
    proof {
        reveal_strlit("|");
        assert(message@ =~= challenge@ + seq!['|'] + decimal_text(app_id as int) + seq!['|'] + decimal_text(
            process_id as int,
        ) + seq!['|'] + instance_id@);
    }
    let tag = match hmac_sha256(key.as_slice(), message.as_str().as_bytes()) {
        Some(tag) => tag,
        None => {
            return None;
        },
    };
    Some(encode_lower_hex(tag.as_slice()))
}

/// The length that a frame's four-byte prefix announces, when it is
/// neither zero nor above the frame limit.
pub open spec fn announced_length(prefix: Seq<u8>) -> Option<int> {
    let n = prefix[0] + 256 * prefix[1] + 65536 * prefix[2] + 16777216 * prefix[3];
    if n == 0 || n > MAX_FRAME_BYTES {
        None
    } else {
        Some(n)
    }
}

/// The payload length of an incoming frame, from its little-endian prefix.
pub fn frame_length(prefix: [u8; 4]) -> (length: Option<usize>)
    ensures
        match announced_length(prefix@) {
            Some(n) => length == Some(n as usize),
            None => length is None,
        },
{
    let n = prefix[0] as u64 + 256 * (prefix[1] as u64) + 65536 * (prefix[2] as u64) + 16777216 * (prefix[3] as u64);
    if n == 0 || n > MAX_FRAME_BYTES as u64 {
        return None;
    }
    Some(n as usize)
}

/// The four-byte little-endian prefix of an outgoing frame of `length`
/// bytes, unless it is above the frame limit.
pub fn frame_prefix(length: usize) -> (prefix: Option<[u8; 4]>)
    ensures
        length > MAX_FRAME_BYTES ==> prefix is None,
        length <= MAX_FRAME_BYTES ==> (prefix matches Some(p) && p@[0] + 256 * p@[1] + 65536 * p@[2] + 16777216
            * p@[3] == length),
{
    if length > MAX_FRAME_BYTES {
        return None;
    }
    let n = length as u32;
    let b0 = (n % 256) as u8;
    let b1 = ((n / 256) % 256) as u8;
    let b2 = ((n / 65536) % 256) as u8;
    let b3 = (n / 16777216) as u8;
    let prefix = [b0, b1, b2, b3];
    proof {
        assert(prefix@[0] == b0 && prefix@[1] == b1 && prefix@[2] == b2 && prefix@[3] == b3);
        assert(b0 + 256 * b1 + 65536 * b2 + 16777216 * b3 == n) by (nonlinear_arith)
            requires
                n <= 1048576,
                b0 == n % 256,
                b1 == (n / 256) % 256,
                b2 == (n / 65536) % 256,
                b3 == n / 16777216,
        ;
    }
    Some(prefix)
}

/// A mod identifier an agent may report: ASCII letters, digits, `.`, `_`
/// and `-`.
pub open spec fn snapshot_id_char(c: char) -> bool {
    ('0' <= c <= '9') || ('a' <= c <= 'z') || ('A' <= c <= 'Z') || c == '.' || c == '_' || c == '-'
}

/// A snapshot an agent may report: a mod identifier of at most 96 allowed
/// characters, a version of at most 64 bytes, at most 512 fields and 512
/// values, and only fields an agent may describe.
pub open spec fn snapshot_valid(snapshot: AgentModSnapshot) -> bool {
    &&& 0 < snapshot.mod_id@.len() <= 96
    &&& forall|i: int| 0 <= i < snapshot.mod_id@.len() ==> snapshot_id_char(#[trigger] snapshot.mod_id@[i])
    &&& 0 < encode_utf8(snapshot.version@).len() <= 64
    &&& snapshot.fields@.len() <= 512
    &&& snapshot.values@.len() <= 512
    &&& forall|i: int| 0 <= i < snapshot.fields@.len() ==> (#[trigger] snapshot.fields@[i]).spec_valid_for_agent()
}

/// Whether a snapshot an agent reports can be accepted.
pub fn valid_snapshot(snapshot: &AgentModSnapshot) -> (valid: bool)
    ensures
        valid == snapshot_valid(*snapshot),
{
    let id = crate::text::chars_of(snapshot.mod_id.as_str());
    if id.len() == 0 || id.len() > 96 {
        return false;
    }
    let mut i: usize = 0;
    while i < id.len()
        invariant
            id@ == snapshot.mod_id@,
            i <= id@.len(),
            forall|k: int| 0 <= k < i ==> snapshot_id_char(#[trigger] id@[k]),
        decreases id@.len() - i,
    {
        let c = id[i];
        if !(('0' <= c && c <= '9') || ('a' <= c && c <= 'z') || ('A' <= c && c <= 'Z') || c == '.' || c == '_'
            || c == '-') {
            return false;
        }
        i = i + 1;
    }
    let version_bytes = snapshot.version.as_str().as_bytes().len();
    if version_bytes == 0 || version_bytes > 64 {
        return false;
    }
    if snapshot.fields.len() > 512 || snapshot.values.len() > 512 {
        return false;
    }
    let mut j: usize = 0;
    while j < snapshot.fields.len()
        invariant
            j <= snapshot.fields@.len(),
            forall|k: int| 0 <= k < j ==> (#[trigger] snapshot.fields@[k]).spec_valid_for_agent(),
        decreases snapshot.fields@.len() - j,
    {
        if !snapshot.fields[j].valid_for_agent() {
            return false;
        }
        j = j + 1;
    }
    true
}

/// A snapshot frame is accepted from a connected agent when it speaks this
/// protocol, names the agent's game and instance, and holds at most 256
/// valid mods.
pub open spec fn snapshot_frame_ok(
    protocol_version: u32,
    frame_app_id: u32,
    app_id: u32,
    frame_instance: Seq<char>,
    instance_id: Seq<char>,
    mods: Seq<AgentModSnapshot>,
) -> bool {
    &&& protocol_version == PROTOCOL_VERSION
    &&& frame_app_id == app_id
    &&& frame_instance == instance_id
    &&& mods.len() <= 256
    &&& forall|i: int| 0 <= i < mods.len() ==> snapshot_valid(#[trigger] mods[i])
}

/// Whether a snapshot frame from a connected agent is accepted.
pub fn accepts_snapshot_frame(
    protocol_version: u32,
    frame_app_id: u32,
    app_id: u32,
    frame_instance: &str,
    instance_id: &str,
    mods: &Vec<AgentModSnapshot>,
) -> (accepted: bool)
    ensures
        accepted == snapshot_frame_ok(protocol_version, frame_app_id, app_id, frame_instance@, instance_id@, mods@),
{
    if protocol_version != PROTOCOL_VERSION || frame_app_id != app_id || !crate::text::str_equal(
        frame_instance,
        instance_id,
    ) || mods.len() > 256 {
        return false;
    }
    let mut i: usize = 0;
    while i < mods.len()
        invariant
            i <= mods@.len(),
            forall|k: int| 0 <= k < i ==> snapshot_valid(#[trigger] mods@[k]),
        decreases mods@.len() - i,
    {
        if !valid_snapshot(&mods[i]) {
            return false;
        }
        i = i + 1;
    }
    true
}

/// Whether a frame reporting changed settings is accepted from a connected
/// agent: this protocol, the agent's game and instance, at most 128 values.
pub fn accepts_config_changed_frame(
    protocol_version: u32,
    frame_app_id: u32,
    app_id: u32,
    frame_instance: &str,
    instance_id: &str,
    values: usize,
) -> (accepted: bool)
    ensures
        accepted == (protocol_version == PROTOCOL_VERSION && frame_app_id == app_id && frame_instance@ == instance_id@
            && values <= 128),
{
    protocol_version == PROTOCOL_VERSION && frame_app_id == app_id && crate::text::str_equal(frame_instance, instance_id)
        && values <= 128
}

/// A hello from an agent is accepted when it speaks this protocol, comes
/// from the process connected to the pipe, names an instance of 1 to 128
/// bytes and a version, and the game has an installed agent whose runtime
/// and version it reports, running as the game's executable, with the
/// proof that the installation's secret gives.
pub open spec fn hello_ok(
    protocol_version: u32,
    process_id: u32,
    client_process_id: u32,
    instance_id: Seq<char>,
    agent_version: Seq<char>,
    runtime: BepInExRuntime,
    installed: Option<(BepInExRuntime, AgentMarker)>,
    process_matches: bool,
    app_id: u32,
    challenge: Seq<char>,
    received_proof: Seq<char>,
) -> bool {
    &&& protocol_version == PROTOCOL_VERSION
    &&& process_id == client_process_id
    &&& 0 < encode_utf8(instance_id).len() <= 128
    &&& agent_version.len() > 0
    &&& installed matches Some((target_runtime, marker))
    &&& runtime == target_runtime
    &&& agent_version == marker.version@
    &&& process_matches
    &&& expected_proof(marker.secret@, challenge, app_id, process_id, instance_id) matches Some(p)
    &&& crate::text::eq_ignore_ascii_case(p, received_proof)
}

/// Whether to accept an agent's hello. `installed` is the runtime of the
/// game's executable and the marker of its installed agent, where one was
/// found; `process_matches` whether the process runs that executable.
pub fn accepts_hello(
    protocol_version: u32,
    process_id: u32,
    client_process_id: u32,
    instance_id: &str,
    agent_version: &str,
    runtime: BepInExRuntime,
    installed: Option<(BepInExRuntime, &AgentMarker)>,
    process_matches: bool,
    app_id: u32,
    challenge: &str,
    received_proof: &str,
) -> (accepted: bool)
    ensures
        accepted == hello_ok(
            protocol_version,
            process_id,
            client_process_id,
            instance_id@,
            agent_version@,
            runtime,
            match installed {
                Some((r, m)) => Some((r, *m)),
                None => None,
            },
            process_matches,
            app_id,
            challenge@,
            received_proof@,
        ),
{
    let instance_bytes = instance_id.as_bytes().len();
    if protocol_version != PROTOCOL_VERSION || process_id != client_process_id || instance_bytes == 0
        || instance_bytes > 128 || agent_version.is_empty() {
        proof {
            if agent_version.is_empty() {
                assert(agent_version@.len() == 0);
            }
        }
        return false;
    }
    proof {
        assert(agent_version@.len() > 0);
    }
    match installed {
        None => false,
        Some((target_runtime, marker)) => {
            if runtime != target_runtime || !crate::text::str_equal(agent_version, marker.version.as_str())
                || !process_matches {
                return false;
            }
            match challenge_proof(marker.secret.as_str(), challenge, app_id, process_id, instance_id) {
                Some(expected) => crate::text::str_eq_ignore_ascii_case(expected.as_str(), received_proof),
                None => false,
            }
        },
    }
}


/// A prefix written for an outgoing frame is read back as the length it
/// was written for, for every length a frame may have.
pub proof fn frame_prefix_round_trip(prefix: Seq<u8>, length: int)
    requires
        prefix.len() == 4,
        0 < length <= MAX_FRAME_BYTES,
        prefix[0] + 256 * prefix[1] + 65536 * prefix[2] + 16777216 * prefix[3] == length,
    ensures
        announced_length(prefix) == Some(length),
{
}

proof fn lemma_hex_digit_value(v: int)
    requires
        0 <= v < 16,
    ensures
        hex_digit(lower_hex_digit(v)),
        hex_value(lower_hex_digit(v)) == v,
{
    if v < 10 {
        assert(((v + 48) as u8) as char as int == v + 48);
    } else {
        assert(((v + 87) as u8) as char as int == v + 87);
    }
}

/// Bytes written in hexadecimal decode back to the same bytes.
pub proof fn hex_round_trip(bytes: Seq<u8>)
    ensures
        decoded_hex(lower_hex(bytes)) == Some(bytes),
{
    let h = lower_hex(bytes);
    assert forall|i: int| 0 <= i < h.len() implies hex_digit(#[trigger] h[i]) by {
        if i % 2 == 0 {
            lemma_hex_digit_value((bytes[i / 2] / 16) as int);
        } else {
            lemma_hex_digit_value((bytes[i / 2] % 16) as int);
        }
    }
    assert(h.len() % 2 == 0);
    let d = decoded_hex(h).unwrap();
    assert(d.len() == bytes.len());
    assert forall|i: int| 0 <= i < bytes.len() implies d[i] == bytes[i] by {
        assert((2 * i) % 2 == 0 && (2 * i) / 2 == i);
        assert((2 * i + 1) % 2 == 1 && (2 * i + 1) / 2 == i);
        lemma_hex_digit_value((bytes[i] / 16) as int);
        lemma_hex_digit_value((bytes[i] % 16) as int);
        assert(h[2 * i] == lower_hex_digit((bytes[i] / 16) as int));
        assert(h[2 * i + 1] == lower_hex_digit((bytes[i] % 16) as int));
        assert(16 * (bytes[i] / 16) + bytes[i] % 16 == bytes[i]);
    }
    assert(d =~= bytes);
}

/// A frame that a connected agent sends.
pub enum IncomingFrame {
    Hello {
        protocol_version: u32,
        app_id: u32,
        process_id: u32,
        instance_id: String,
        runtime: BepInExRuntime,
        agent_version: String,
        proof: String,
    },
    Snapshot { protocol_version: u32, app_id: u32, instance_id: String, mods: Vec<AgentModSnapshot> },
    ConfigChanged {
        protocol_version: u32,
        app_id: u32,
        instance_id: String,
        mod_id: String,
        values: Vec<(String, ConfigValue)>,
    },
    ConfigResult {
        protocol_version: u32,
        request_id: String,
        accepted: bool,
        error_code: Option<String>,
        restart_required: bool,
    },
}

/// What the app does with a frame from a connected agent.
pub enum FrameAction {
    /// Keep the mods as what the connection reports.
    StoreSnapshot(Vec<AgentModSnapshot>),
    /// Lay the values over the mod's reported values and tell the frontend.
    MergeValues { mod_id: String, values: Vec<(String, ConfigValue)> },
    /// Hand the answer to the pending request with this identifier and
    /// forget the request: whether the change waits for a restart, or the
    /// code it was rejected with.
    Answer { request_id: String, outcome: Result<bool, String> },
    /// Close the connection.
    Close,
}

/// What a frame from the agent connected for `app_id` as `instance_id`
/// makes the app do: a snapshot or a settings report is taken only as
/// `snapshot_frame_ok` and the settings report rules say; an answer to a
/// settings change only in this protocol, a rejection without a code
/// reading `rejected`; anything else, a second hello among them, closes the
/// connection.
pub open spec fn frame_action_ok(frame: IncomingFrame, app_id: u32, instance_id: Seq<char>, action: FrameAction) -> bool {
    match frame {
        IncomingFrame::Snapshot { protocol_version, app_id: frame_app_id, instance_id: frame_instance, mods } => if snapshot_frame_ok(
            protocol_version,
            frame_app_id,
            app_id,
            frame_instance@,
            instance_id,
            mods@,
        ) {
            action == FrameAction::StoreSnapshot(mods)
        } else {
            action is Close
        },
        IncomingFrame::ConfigChanged {
            protocol_version,
            app_id: frame_app_id,
            instance_id: frame_instance,
            mod_id,
            values,
        } => if protocol_version == PROTOCOL_VERSION && frame_app_id == app_id && frame_instance@ == instance_id
            && values@.len() <= 128 {
            action == FrameAction::MergeValues { mod_id, values }
        } else {
            action is Close
        },
        IncomingFrame::ConfigResult { protocol_version, request_id, accepted, error_code, restart_required } => if protocol_version
            == PROTOCOL_VERSION {
            action matches FrameAction::Answer { request_id: r, outcome } && r == request_id && if accepted {
                outcome == Ok::<bool, String>(restart_required)
            } else {
                outcome matches Err(code) && match error_code {
                    Some(given) => code == given,
                    None => code@ == "rejected"@,
                }
            }
        } else {
            action is Close
        },
        IncomingFrame::Hello { .. } => action is Close,
    }
}

/// Decides what a frame from the agent connected for `app_id` as
/// `instance_id` makes the app do.
pub fn frame_action(frame: IncomingFrame, app_id: u32, instance_id: &str) -> (action: FrameAction)
    ensures
        frame_action_ok(frame, app_id, instance_id@, action),
{
    match frame {
        IncomingFrame::Snapshot { protocol_version, app_id: frame_app_id, instance_id: frame_instance, mods } => {
            if accepts_snapshot_frame(protocol_version, frame_app_id, app_id, frame_instance.as_str(), instance_id, &mods) {
                FrameAction::StoreSnapshot(mods)
            } else {
                FrameAction::Close
            }
        },
        IncomingFrame::ConfigChanged { protocol_version, app_id: frame_app_id, instance_id: frame_instance, mod_id, values } => {
            if accepts_config_changed_frame(
                protocol_version,
                frame_app_id,
                app_id,
                frame_instance.as_str(),
                instance_id,
                values.len(),
            ) {
                FrameAction::MergeValues { mod_id, values }
            } else {
                FrameAction::Close
            }
        },
        IncomingFrame::ConfigResult { protocol_version, request_id, accepted, error_code, restart_required } => {
            if protocol_version != PROTOCOL_VERSION {
                return FrameAction::Close;
            }
            let outcome = if accepted {
                Ok(restart_required)
            } else {
                match error_code {
                    Some(code) => Err(code),
                    None => {
                        proof {
                            reveal_strlit("rejected");
                        }
                        Err("rejected".to_string())
                    },
                }
            };
            FrameAction::Answer { request_id, outcome }
        },
        IncomingFrame::Hello { .. } => FrameAction::Close,
    }
}

} // verus!
