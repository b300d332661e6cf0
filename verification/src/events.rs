//! Outbound event values.
//!
//! Rooms and the registry never send anything themselves: every operation
//! returns the events it wants delivered, each addressed to one connection,
//! together with the deferred callbacks it wants scheduled.  The transport
//! encodes and delivers them.

use vstd::prelude::*;

verus! {

/// One message for one connection's outbound channel.
#[derive(Debug, PartialEq)]
#[verifier::ext_equal]
pub enum Event {
    /// Chat relay: sender connection id and text.
    Message(usize, String),
    /// Stroke relay: x1, x2, y1, y2, pen size.
    Draw(u32, u32, u32, u32, u32),
    /// The canvas was cleared.
    ClearCanvas,
    /// A round began: leader connection id and optional deadline (ms).
    NewRound(usize, Option<u64>),
    /// Private round start for the leader: clearing allowed, the secret
    /// word, and the optional deadline (ms).
    NewLeader(bool, String, Option<u64>),
    /// Entered a room: its key and the roster of (connection id, username).
    EnterRoom(String, Vec<(usize, String)>),
    /// The requested username is already taken in that room.
    UsernameExists(String),
    /// The requested room key does not exist.
    NonExistantRoom(String),
    /// The recipient left its room.
    LeaveRoom,
    /// Round result: winner connection id if any, their points, the word,
    /// and the matched alternate spelling if any.
    Winner(Option<usize>, usize, String, Option<String>),
    /// Another user joined: connection id and username.
    UserJoin(usize, String),
    /// Another user left: connection id.
    UserGone(usize),
    /// Entered a lobby: the host's connection id.
    EnterLobby(usize),
    /// Word-pack catalogue: (pack id, name, description) per pack.
    SettingsData(Vec<(usize, String, String)>),
}

/// An event addressed to one connection.
#[derive(Debug, PartialEq)]
pub struct Directed {
    pub to: usize,
    pub event: Event,
}

/// Work to run again inside the serialized context after a delay.
#[derive(Debug, PartialEq)]
pub enum Deferred {
    /// End the round of `key` with no winner, unless the round counter has
    /// moved past `round_id` by then.
    RoundTimeout { key: String, round_id: usize, delay_ms: u64 },
    /// Start the next round of `key`.
    NextRound { key: String, delay_ms: u64 },
}

/// Duplicates an event so that each recipient of a broadcast gets its own
/// copy.  The two roster-carrying events are only ever addressed to a single
/// connection and are left out.
pub(crate) fn dup_event(ev: &Event) -> (r: Event)
    requires
        !(ev is EnterRoom),
        !(ev is SettingsData),
    ensures
        r == *ev,
{
    match ev {
        Event::Message(id, text) => Event::Message(*id, text.clone()),
        Event::Draw(x1, x2, y1, y2, pen) => Event::Draw(*x1, *x2, *y1, *y2, *pen),
        Event::ClearCanvas => Event::ClearCanvas,
        Event::NewRound(leader, deadline) => Event::NewRound(*leader, *deadline),
        Event::NewLeader(allow_clear, word, deadline) => Event::NewLeader(
            *allow_clear,
            word.clone(),
            *deadline,
        ),
        Event::EnterRoom(..) => vstd::pervasive::unreached(),
        Event::UsernameExists(name) => Event::UsernameExists(name.clone()),
        Event::NonExistantRoom(key) => Event::NonExistantRoom(key.clone()),
        Event::LeaveRoom => Event::LeaveRoom,
        Event::Winner(winner, points, word, alternate) => Event::Winner(
            *winner,
            *points,
            word.clone(),
            match alternate {
                Some(a) => Some(a.clone()),
                None => None,
            },
        ),
        Event::UserJoin(id, name) => Event::UserJoin(*id, name.clone()),
        Event::UserGone(id) => Event::UserGone(*id),
        Event::EnterLobby(host) => Event::EnterLobby(*host),
        Event::SettingsData(..) => vstd::pervasive::unreached(),
    }
}

/// Appends one addressed event.
pub fn direct(out: &mut Vec<Directed>, to: usize, event: Event)
    ensures
        final(out)@ == old(out)@.push(Directed { to, event }),
{
    out.push(Directed { to, event });
}

} // verus!
