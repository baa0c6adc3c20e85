//! Random identifiers and secrets: bytes from the operating system's secure
//! random source, written as lowercase hexadecimal digits.
use vstd::prelude::*;

use crate::agent::{encode_lower_hex, lower_hex};
use crate::error::{agent_error, bepinex_error, mod_error, ErrorResponse};

verus! {

/// Fills `bytes` from the operating system's secure random source with
/// `getrandom::getrandom`; `false` where that source failed. Which bytes
/// are drawn is chance and is not stated; their number stays. As its
/// documentation says, an empty buffer succeeds at once.
#[verifier::external_body]
fn fill_random(bytes: &mut Vec<u8>) -> (filled: bool)
    ensures
        final(bytes)@.len() == old(bytes)@.len(),
        old(bytes)@.len() == 0 ==> filled,
{
    getrandom::getrandom(bytes.as_mut_slice()).is_ok()
}

/// Whether a text is the lowercase hexadecimal form of `count` bytes.
pub open spec fn hex_of_bytes(text: Seq<char>, count: nat) -> bool {
    exists|bytes: Seq<u8>| bytes.len() == count && text == lower_hex(bytes)
}

/// `count` random bytes in lowercase hexadecimal, or `None` where the
/// secure random source failed; no bytes need no source and give the empty
/// text.
pub fn random_hex_digits(count: usize) -> (text: Option<String>)
    ensures
        text matches Some(t) ==> hex_of_bytes(t@, count as nat),
        count == 0 ==> (text matches Some(t) && t@.len() == 0),
{
    let mut bytes: Vec<u8> = Vec::new();
    let mut i: usize = 0;
    while i < count
        invariant
            i <= count,
            bytes@.len() == i,
        decreases count - i,
    {
        bytes.push(0);
        i = i + 1;
    }
    if !fill_random(&mut bytes) {
        return None;
    }
    let text = encode_lower_hex(bytes.as_slice());
    proof {
        assert(text@ == lower_hex(bytes@));
    }
    Some(text)
}

/// `count` random bytes in lowercase hexadecimal, for the agent protocol:
/// challenges, request identifiers and secrets. A failing random source is
/// `agent_security_error`.
pub fn random_hex(count: usize) -> (text: Result<String, ErrorResponse>)
    ensures
        match text {
            Ok(t) => hex_of_bytes(t@, count as nat),
            Err(e) => e.code@ == "agent_security_error"@,
        },
        count == 0 ==> match text {
            Ok(t) => t@.len() == 0,
            Err(_) => false,
        },
{
    match random_hex_digits(count) {
        Some(text) => Ok(text),
        None => Err(agent_error("agent_security_error", "secure agent randomness was unavailable")),
    }
}

/// The identifier of a mod action plan: 16 random bytes in lowercase
/// hexadecimal. A failing random source is reported under `code`.
pub fn random_token(code: &'static str) -> (token: Result<String, ErrorResponse>)
    ensures
        match token {
            Ok(t) => hex_of_bytes(t@, 16),
            Err(e) => e.code@ == code@,
        },
{
    match random_hex_digits(16) {
        Some(text) => Ok(text),
        None => Err(mod_error(code, "a secure action plan could not be created")),
    }
}

/// The identifier of a BepInEx installation plan: 16 random bytes in
/// lowercase hexadecimal. A failing random source is
/// `bepinex_install_error`.
pub fn random_plan_id() -> (id: Result<String, ErrorResponse>)
    ensures
        match id {
            Ok(t) => hex_of_bytes(t@, 16),
            Err(e) => e.code@ == "bepinex_install_error"@,
        },
{
    match random_hex_digits(16) {
        Some(text) => Ok(text),
        None => Err(bepinex_error("bepinex_install_error", "a secure BepInEx installation plan could not be created")),
    }
}

} // verus!
