//! The wire data model: the five command/event payload shapes, the outer
//! event envelope, session members, and outbound deliveries, together with
//! their specification-level views.
use vstd::prelude::*;

verus! {

// ---------------------------------------------------------------------------
// Payloads
// ---------------------------------------------------------------------------

/// Join a session under a username.
#[derive(Debug)]
pub struct LoginCommand {
    pub username: String,
    pub session_id: String,
}

/// Specification view of `LoginCommand`.
pub struct LoginV {
    pub username: Seq<char>,
    pub session_id: Seq<char>,
}

impl View for LoginCommand {
    type V = LoginV;

    open spec fn view(&self) -> LoginV {
        LoginV { username: self.username@, session_id: self.session_id@ }
    }
}

/// A position in the document, as a row and a column.
#[derive(Debug, Clone, Copy, PartialEq, Eq, Structural)]
pub struct Pos {
    pub row: u64,
    pub column: u64,
}

/// A range-addressed edit operation, relayed verbatim between peers.
#[derive(Debug)]
pub struct ChangeCommand {
    pub id: Option<u64>,
    pub action: String,
    pub start: Pos,
    pub end: Pos,
    pub lines: Vec<String>,
}

/// Specification view of `ChangeCommand`.
pub struct ChangeV {
    pub id: Option<u64>,
    pub action: Seq<char>,
    pub start: Pos,
    pub end: Pos,
    pub lines: Seq<Seq<char>>,
}

impl View for ChangeCommand {
    type V = ChangeV;

    open spec fn view(&self) -> ChangeV {
        ChangeV {
            id: self.id,
            action: self.action@,
            start: self.start,
            end: self.end,
            lines: self.lines.deep_view(),
        }
    }
}

/// A document snapshot addressed to one username.
#[derive(Debug)]
pub struct ValueCommand {
    pub target: String,
    pub text: String,
}

/// Specification view of `ValueCommand`.
pub struct ValueV {
    pub target: Seq<char>,
    pub text: Seq<char>,
}

impl View for ValueCommand {
    type V = ValueV;

    open spec fn view(&self) -> ValueV {
        ValueV { target: self.target@, text: self.text@ }
    }
}

/// A participant-list update carrying one username.
#[derive(Debug)]
pub struct UserEvent {
    pub username: String,
}

/// Specification view of `UserEvent`.
pub struct UserV {
    pub username: Seq<char>,
}

impl View for UserEvent {
    type V = UserV;

    open spec fn view(&self) -> UserV {
        UserV { username: self.username@ }
    }
}

/// An error report sent back to the offending connection.
#[derive(Debug)]
pub struct ErrorCommand {
    pub msg: String,
}

/// Specification view of `ErrorCommand`.
pub struct ErrorV {
    pub msg: Seq<char>,
}

impl View for ErrorCommand {
    type V = ErrorV;

    open spec fn view(&self) -> ErrorV {
        ErrorV { msg: self.msg@ }
    }
}

// ---------------------------------------------------------------------------
// Envelope
// ---------------------------------------------------------------------------

/// The outer wire envelope common to every message: who sent it, what kind
/// of event it is, the encoded payload, and a millisecond timestamp.
#[derive(Debug)]
pub struct Event {
    pub username: String,
    pub event: String,
    pub data: String,
    pub ts: u64,
}

/// Specification view of `Event`.
pub struct EventV {
    pub username: Seq<char>,
    pub event: Seq<char>,
    pub data: Seq<char>,
    pub ts: u64,
}

impl View for Event {
    type V = EventV;

    open spec fn view(&self) -> EventV {
        EventV { username: self.username@, event: self.event@, data: self.data@, ts: self.ts }
    }
}

// ---------------------------------------------------------------------------
// Registry entries and outbound deliveries
// ---------------------------------------------------------------------------

/// A member of a session: a username bound to a connection, joined to one
/// session.
#[derive(Debug)]
pub struct Member {
    pub username: String,
    pub session_id: String,
    pub conn: u64,
}

impl Member {
    /// An exact copy.
    pub fn duplicate(&self) -> (r: Member)
        ensures
            r == *self,
    {
        Member {
            username: self.username.clone(),
            session_id: self.session_id.clone(),
            conn: self.conn,
        }
    }
}

/// One decided delivery: an event to be enqueued into the mailbox of the
/// connection `to`.
#[derive(Debug)]
pub struct Outbound {
    pub to: u64,
    pub event: Event,
}

/// Field-wise description of an event envelope.
pub open spec fn is_event(
    e: Event,
    username: Seq<char>,
    kind: Seq<char>,
    data: Seq<char>,
    ts: u64,
) -> bool {
    e.username@ == username && e.event@ == kind && e.data@ == data && e.ts == ts
}

} // verus!
