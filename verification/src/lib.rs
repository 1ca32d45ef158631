//! A relay core for real-time collaborative editing sessions: a session/peer
//! registry, the join (login) protocol, the late-joiner bootstrap ("value
//! petition"), operation broadcast, disconnect cleanup, and the JSON wire
//! codec for the command/event envelope.
use vstd::prelude::*;

verus! {

/// Maximum length, in UTF-8 code units (bytes), of a username or session
/// identifier.
pub const MAX_STRING_LEN: usize = 24;

/// A login field (username or session id) is valid when it is non-empty and
/// its UTF-8 encoding is no longer than `MAX_STRING_LEN` code units (the
/// byte length, measured as the running code measures it).
pub open spec fn valid_field(s: Seq<char>) -> bool {
    s.len() >= 1 && vstd::utf8::encode_utf8(s).len() as usize <= MAX_STRING_LEN
}

} // verus!

pub mod json;
pub mod msgs;
pub mod codec;
pub mod registry;
pub mod laws;
