//! The process-wide registry: it owns every room and the set of connected
//! ids, allocates session ids and room keys, and routes each inbound
//! command to the right room.  Every operation returns the events to
//! deliver and the callbacks to schedule; the transport does the rest.

use vstd::prelude::*;
use vstd::string::*;

use crate::events::{direct, Deferred, Directed, Event};
use crate::rng::{gen_alphanumeric, gen_usize, is_alphanumeric_char};
use crate::room::{
    added, draw_rel, extends, guess_rel, is_enter_room, is_occupant, is_settings_data, join_rel,
    leave_rel, remove_all, rotation_ready, start_rel, Occupant, Room, RoomState, Stroke,
    ROUND_LIMIT_MS,
};
use crate::text::{split_lines, split_on, split_str, valid_username, validate_username};
use crate::word_pack::WordPack;

verus! {

/// Bound on retries when a freshly drawn session id or room key collides;
/// past it the operation reports resource exhaustion.
pub const ALLOC_RETRIES: usize = 100;

/// Length of a room key.
pub const ROOM_KEY_LEN: usize = 5;

/// One inbound command: the sending connection, the raw text, and the room
/// the connection is currently in, if any.
pub struct ClientMessage {
    pub session_id: usize,
    pub content: String,
    pub room: Option<String>,
}

/// A connection went away; `room` is where it was, if anywhere.
pub struct DisconnectMessage {
    pub session_id: usize,
    pub room: Option<String>,
}

/// The registry.
pub struct GameServer {
    pub rooms: Vec<Room>,
    pub recipients: Vec<usize>,
    pub word_packs: Vec<WordPack>,
    pub rng: rand::rngs::ThreadRng,
}

/// Whether some room carries this key.
pub open spec fn has_room(rooms: Seq<Room>, key: Seq<char>) -> bool {
    exists|i: int| 0 <= i < rooms.len() && rooms[i].key@ == key
}

/// The position of the room carrying `key` (meaningful only when present).
pub open spec fn room_index_of(rooms: Seq<Room>, key: Seq<char>) -> int {
    choose|i: int| 0 <= i < rooms.len() && rooms[i].key@ == key
}

impl GameServer {
    /// Registry well-formedness: every stored room is well-formed, agrees
    /// with the word packs and is occupied; room keys are unique; connected
    /// ids are unique and never zero.
    pub open spec fn wf(self) -> bool {
        &&& forall|i: int| 0 <= i < self.rooms@.len() ==> {
            &&& (#[trigger] self.rooms@[i]).wf()
            &&& self.rooms@[i].words_ok(self.word_packs@)
            &&& self.rooms@[i].occupants@.len() > 0
        }
        &&& forall|i: int, j: int|
            0 <= i < j < self.rooms@.len() ==> self.rooms@[i].key@ != self.rooms@[j].key@
        &&& forall|i: int, j: int|
            0 <= i < j < self.recipients@.len() ==> self.recipients@[i] != self.recipients@[j]
        &&& forall|i: int| 0 <= i < self.recipients@.len() ==> (#[trigger] self.recipients@[i]) != 0
    }

    /// A fresh registry over an already-loaded word-pack list.
    pub fn new(word_packs: Vec<WordPack>) -> (r: GameServer)
        ensures
            r.wf(),
            r.rooms@ == Seq::<Room>::empty(),
            r.recipients@ == Seq::<usize>::empty(),
            r.word_packs == word_packs,
    {
        GameServer {
            rooms: Vec::new(),
            recipients: Vec::new(),
            word_packs,
            rng: crate::rng::new_rng(),
        }
    }

    /// Registers a new connection under a random non-zero id not yet in
    /// use.  Fails only when the bounded retry budget is exhausted.
    pub fn connect(&mut self) -> (r: Option<usize>)
        requires
            old(self).wf(),
        ensures
            final(self).wf(),
            final(self).rooms == old(self).rooms,
            final(self).word_packs == old(self).word_packs,
            r matches Some(id) ==> {
                &&& id != 0
                &&& !old(self).recipients@.contains(id)
                &&& final(self).recipients@ == old(self).recipients@.push(id)
            },
            r is None ==> final(self).recipients == old(self).recipients,
    {
        let mut tries: usize = 0;
        while tries < ALLOC_RETRIES
            invariant
                old(self).wf(),
                self.rooms == old(self).rooms,
                self.word_packs == old(self).word_packs,
                self.recipients == old(self).recipients,
            decreases ALLOC_RETRIES - tries,
        {
            let id = gen_usize(&mut self.rng);
            if id != 0 && !crate::room::contains_usize(&self.recipients, id) {
                self.recipients.push(id);
                proof {
                    assert forall|a: int, b: int|
                        0 <= a < b < self.recipients@.len() implies self.recipients@[a]
                        != self.recipients@[b] by {
                        if b == self.recipients@.len() - 1 {
                            assert(old(self).recipients@.contains(old(self).recipients@[a]));
                        }
                    }
                }
                return Some(id);
            }
            tries = tries + 1;
        }
        None
    }

    /// Unregisters a connection id.
    pub fn disconnect(&mut self, session_id: usize)
        requires
            old(self).wf(),
        ensures
            final(self).wf(),
            final(self).rooms == old(self).rooms,
            final(self).word_packs == old(self).word_packs,
            final(self).recipients@ == remove_all(old(self).recipients@, session_id),
    {
        let filtered = crate::room::remove_all_exec(&self.recipients, session_id);
        self.recipients = filtered;
        proof {
            let r1 = self.recipients@;
            let r0 = old(self).recipients@;
            assert forall|t: int| 0 <= t < r1.len() implies exists|s: int|
                0 <= s < r0.len() && r0[s] == (#[trigger] r1[t]) by {
                crate::room::lemma_remove_all_occ(r0, session_id, r1[t]);
                crate::room::lemma_occ_contains(r1, r1[t]);
                crate::room::lemma_occ_contains(r0, r1[t]);
                assert(r1.contains(r1[t]));
            }
            assert forall|a: int, b: int| 0 <= a < b < r1.len() implies r1[a] != r1[b] by {
                lemma_remove_all_keeps_distinct(r0, session_id, a, b);
            }
            assert forall|t: int| 0 <= t < r1.len() implies (#[trigger] r1[t]) != 0 by {
                crate::room::lemma_occ_contains(r1, r1[t]);
                crate::room::lemma_remove_all_occ(r0, session_id, r1[t]);
                crate::room::lemma_occ_contains(r0, r1[t]);
                let s = choose|s: int| 0 <= s < r0.len() && r0[s] == r1[t];
                assert(r0[s] != 0);
            }
        }
    }
}

/// Removing every copy of one value keeps the remaining entries distinct.
pub proof fn lemma_remove_all_keeps_distinct(q: Seq<usize>, id: usize, a: int, b: int)
    requires
        forall|i: int, j: int| 0 <= i < j < q.len() ==> q[i] != q[j],
        0 <= a < b < remove_all(q, id).len(),
    ensures
        remove_all(q, id)[a] != remove_all(q, id)[b],
    decreases q.len(),
{
    if q.len() > 0 {
        let rest = remove_all(q.drop_last(), id);
        assert(forall|i: int, j: int|
            0 <= i < j < q.drop_last().len() ==> q.drop_last()[i] != q.drop_last()[j]);
        if q.last() == id {
            lemma_remove_all_keeps_distinct(q.drop_last(), id, a, b);
        } else {
            if b < remove_all(q, id).len() - 1 {
                lemma_remove_all_keeps_distinct(q.drop_last(), id, a, b);
            } else {
                lemma_remove_all_is_subseq(q.drop_last(), id, a);
            }
        }
    }
}

/// Every entry that survives `remove_all` occurs in the unfiltered queue.
pub proof fn lemma_remove_all_is_subseq(q: Seq<usize>, id: usize, t: int)
    requires
        0 <= t < remove_all(q, id).len(),
    ensures
        q.contains(remove_all(q, id)[t]),
    decreases q.len(),
{
    if q.len() > 0 {
        let rest = remove_all(q.drop_last(), id);
        if q.last() == id {
            lemma_remove_all_is_subseq(q.drop_last(), id, t);
            let s = choose|s: int| 0 <= s < q.drop_last().len() && q.drop_last()[s] == remove_all(q, id)[t];
            assert(q[s] == remove_all(q, id)[t]);
        } else {
            if t < rest.len() {
                lemma_remove_all_is_subseq(q.drop_last(), id, t);
                let s = choose|s: int| 0 <= s < q.drop_last().len() && q.drop_last()[s] == rest[t];
                assert(q[s] == rest[t]);
            } else {
                assert(q[q.len() - 1] == remove_all(q, id)[t]);
            }
        }
    }
}

fn find_room(rooms: &Vec<Room>, key: &String) -> (r: Option<usize>)
    ensures
        r is Some <==> has_room(rooms@, key@),
        r matches Some(i) ==> i < rooms@.len() && rooms@[i as int].key@ == key@,
{
    let mut i: usize = 0;
    while i < rooms.len()
        invariant
            0 <= i <= rooms@.len(),
            forall|t: int| 0 <= t < i ==> rooms@[t].key@ != key@,
        decreases rooms@.len() - i,
    {
        if rooms[i].key == *key {
            return Some(i);
        }
        i = i + 1;
    }
    None
}

} // verus!

verus! {

/// A just-created room: its creator is host and sole occupant, nothing is
/// configured yet, and the key has the fixed length.
pub open spec fn fresh_room(room: Room, id: usize, username: String) -> bool {
    &&& room.state == (RoomState::Lobby { host: id })
    &&& room.occupants@ == seq![Occupant { id, name: username, points: 0 }]
    &&& room.queue@ == seq![id]
    &&& room.excluded_words@ == Seq::<usize>::empty()
    &&& room.draw_history@ == Seq::<Stroke>::empty()
    &&& room.max_excluded_words == 0
    &&& room.num_words == 0
    &&& room.round_id == 0
    &&& room.settings.round_timer == false
    &&& room.settings.allow_clear == false
    &&& room.settings.enabled_word_packs@ == Seq::<usize>::empty()
    &&& room.key@.len() == ROOM_KEY_LEN
    &&& forall|i: int| 0 <= i < room.key@.len() ==> is_alphanumeric_char(#[trigger] room.key@[i])
}

/// What creating a room does: for a known connection, either key
/// allocation was exhausted (rare, and possible only when other rooms
/// exist to collide with — the very first room is always created) or a
/// fresh room under an unused key appears, with the creator inside and
/// told everything a joiner would be; an unknown connection changes
/// nothing.
pub open spec fn create_room_rel(
    pre: GameServer,
    post: GameServer,
    ev: Seq<Directed>,
    id: usize,
    username: String,
) -> bool {
    &&& post.recipients == pre.recipients
    &&& post.word_packs == pre.word_packs
    &&& if pre.recipients@.contains(id) {
        ||| (pre.rooms@.len() > 0 && post.rooms == pre.rooms && ev == Seq::<Directed>::empty())
        ||| exists|room: Room|
            {
                &&& #[trigger] room.wf()
                &&& fresh_room(room, id, username)
                &&& !has_room(pre.rooms@, room.key@)
                &&& post.rooms@ == pre.rooms@.push(room)
                &&& ev.len() == 3
                &&& is_enter_room(ev[0], id, room.key, seq![(id, username)])
                &&& ev[1] == (Directed { to: id, event: Event::EnterLobby(id) })
                &&& is_settings_data(ev[2], id, pre.word_packs@)
            }
    } else {
        post.rooms == pre.rooms && ev == Seq::<Directed>::empty()
    }
}

/// What a join addressed to a key does: delegated to that room when it
/// exists, else answered with an explicit room-not-found event.
pub open spec fn join_room_rel(
    pre: GameServer,
    post: GameServer,
    ev: Seq<Directed>,
    key: Seq<char>,
    id: usize,
    username: String,
) -> bool {
    &&& post.recipients == pre.recipients
    &&& post.word_packs == pre.word_packs
    &&& if has_room(pre.rooms@, key) {
        let i = room_index_of(pre.rooms@, key);
        &&& post.rooms@.len() == pre.rooms@.len()
        &&& post.rooms@ == pre.rooms@.update(i, post.rooms@[i])
        &&& join_rel(pre.rooms@[i], post.rooms@[i], ev, pre.word_packs@, id, username)
    } else {
        &&& post.rooms == pre.rooms
        &&& ev.len() == 1
        &&& ev[0].to == id
        &&& match ev[0].event {
            Event::NonExistantRoom(k) => k@ == key,
            _ => false,
        }
    }
}

/// What a leave addressed to a key does: delegated to that room when it
/// exists, and the room is removed from the registry exactly when its last
/// occupant left, never before.
pub open spec fn leave_room_rel(
    pre: GameServer,
    post: GameServer,
    ev: Seq<Directed>,
    df: Seq<Deferred>,
    key: Seq<char>,
    id: usize,
    now_ms: u64,
) -> bool {
    &&& post.recipients == pre.recipients
    &&& post.word_packs == pre.word_packs
    &&& if has_room(pre.rooms@, key) {
        let i = room_index_of(pre.rooms@, key);
        let r0 = pre.rooms@[i];
        if is_occupant(r0.occupants@, id) && r0.occupants@.len() == 1 {
            exists|r1: Room|
                {
                    &&& #[trigger] leave_rel(r0, r1, ev, df, pre.word_packs@, id, now_ms)
                    &&& post.rooms@ == pre.rooms@.remove(i)
                }
        } else {
            &&& post.rooms@.len() == pre.rooms@.len()
            &&& post.rooms@ == pre.rooms@.update(i, post.rooms@[i])
            &&& leave_rel(r0, post.rooms@[i], ev, df, pre.word_packs@, id, now_ms)
        }
    } else {
        post.rooms == pre.rooms && ev == Seq::<Directed>::empty() && df == Seq::<
            Deferred,
        >::empty()
    }
}

impl GameServer {
    /// Creates a room for a connected user under a fresh random key.
    pub fn create_room(&mut self, session_id: usize, username: String, out: &mut Vec<Directed>)
        requires
            old(self).wf(),
        ensures
            final(self).wf(),
            extends(final(out)@, old(out)@),
            create_room_rel(
                *old(self),
                *final(self),
                added(final(out)@, old(out)@),
                session_id,
                username,
            ),
    {
        let mut tries: usize = 0;
        while tries < ALLOC_RETRIES
            invariant
                old(self).wf(),
                self.rooms == old(self).rooms,
                self.recipients == old(self).recipients,
                self.word_packs == old(self).word_packs,
                out@ == old(out)@,
                tries > 0 ==> old(self).rooms@.len() > 0,
            decreases ALLOC_RETRIES - tries,
        {
            let key = gen_alphanumeric(&mut self.rng, ROOM_KEY_LEN);
            let taken = find_room(&self.rooms, &key);
            if taken.is_none() {
                if crate::room::contains_usize(&self.recipients, session_id) {
                    let ghost fresh_key = key@;
                    let room = Room::new(key, &self.word_packs, session_id, username, out);
                    let ghost new_room = room;
                    self.rooms.push(room);
                    proof {
                        assert(out@.take(old(out)@.len() as int) =~= old(out)@);
                        let ev = added(out@, old(out)@);
                        assert(ev.len() == 3);
                        assert(ev[0] == out@[old(out)@.len() as int]);
                        assert(ev[1] == out@[old(out)@.len() as int + 1]);
                        assert(ev[2] == out@[old(out)@.len() as int + 2]);
                        assert(new_room.wf());
                        assert(fresh_room(new_room, session_id, username));
                        assert(!has_room(old(self).rooms@, new_room.key@));
                        assert(self.rooms@ == old(self).rooms@.push(new_room));
                        assert forall|a: int, b: int|
                            0 <= a < b < self.rooms@.len() implies self.rooms@[a].key@
                            != self.rooms@[b].key@ by {
                            if b == self.rooms@.len() - 1 {
                                assert(self.rooms@[a] == old(self).rooms@[a]);
                                if self.rooms@[a].key@ == new_room.key@ {
                                    assert(has_room(old(self).rooms@, new_room.key@));
                                }
                            }
                        }
                    }
                    return ;
                } else {
                    proof {
                        assert(out@.take(old(out)@.len() as int) =~= out@);
                        assert(added(out@, old(out)@) =~= Seq::<Directed>::empty());
                    }
                    return ;
                }
            }
            tries = tries + 1;
        }
        proof {
            assert(out@.take(old(out)@.len() as int) =~= out@);
            assert(added(out@, old(out)@) =~= Seq::<Directed>::empty());
        }
    }

    /// Routes a join to the room under `key`, or reports that no such room
    /// exists.
    pub fn join_room(
        &mut self,
        key: &String,
        username: String,
        session_id: usize,
        out: &mut Vec<Directed>,
    )
        requires
            old(self).wf(),
        ensures
            final(self).wf(),
            extends(final(out)@, old(out)@),
            join_room_rel(
                *old(self),
                *final(self),
                added(final(out)@, old(out)@),
                key@,
                session_id,
                username,
            ),
    {
        match find_room(&self.rooms, key) {
            Some(i) => {
                proof {
                    let ci = room_index_of(self.rooms@, key@);
                    assert(self.rooms@[ci].key@ == key@);
                    assert(ci == i as int);
                }
                let mut room = self.rooms.remove(i);
                room.join(&self.word_packs, session_id, username, out);
                self.rooms.insert(i, room);
                proof {
                    assert(self.rooms@ =~= old(self).rooms@.update(i as int, self.rooms@[i as int]));
                    assert forall|t: int| 0 <= t < self.rooms@.len() implies {
                        &&& (#[trigger] self.rooms@[t]).wf()
                        &&& self.rooms@[t].words_ok(self.word_packs@)
                        &&& self.rooms@[t].occupants@.len() > 0
                    } by {
                        if t != i as int {
                            assert(self.rooms@[t] == old(self).rooms@[t]);
                        }
                    }
                    assert forall|a: int, b: int|
                        0 <= a < b < self.rooms@.len() implies self.rooms@[a].key@
                        != self.rooms@[b].key@ by {
                        if a != i as int && b != i as int {
                            assert(self.rooms@[a] == old(self).rooms@[a]);
                            assert(self.rooms@[b] == old(self).rooms@[b]);
                        } else if a == i as int {
                            assert(self.rooms@[b] == old(self).rooms@[b]);
                            assert(self.rooms@[a].key@ == old(self).rooms@[a].key@);
                        } else {
                            assert(self.rooms@[a] == old(self).rooms@[a]);
                            assert(self.rooms@[b].key@ == old(self).rooms@[b].key@);
                        }
                    }
                }
            },
            None => {
                direct(out, session_id, Event::NonExistantRoom(key.clone()));
                proof {
                    assert(out@.take(old(out)@.len() as int) =~= old(out)@);
                    assert(added(out@, old(out)@) =~= seq![
                        Directed { to: session_id, event: Event::NonExistantRoom(*key) },
                    ]);
                }
            },
        }
    }

    /// Routes a leave to the room under `key`; an emptied room is dropped
    /// from the registry.
    pub fn leave_room(
        &mut self,
        key: &String,
        session_id: usize,
        now_ms: u64,
        out: &mut Vec<Directed>,
        defer: &mut Vec<Deferred>,
    )
        requires
            old(self).wf(),
            now_ms <= u64::MAX - ROUND_LIMIT_MS,
        ensures
            final(self).wf(),
            extends(final(out)@, old(out)@),
            extends(final(defer)@, old(defer)@),
            leave_room_rel(
                *old(self),
                *final(self),
                added(final(out)@, old(out)@),
                added(final(defer)@, old(defer)@),
                key@,
                session_id,
                now_ms,
            ),
    {
        match find_room(&self.rooms, key) {
            Some(i) => {
                proof {
                    let ci = room_index_of(self.rooms@, key@);
                    assert(self.rooms@[ci].key@ == key@);
                    assert(ci == i as int);
                }
                let mut room = self.rooms.remove(i);
                let emptied = room.leave(
                    session_id,
                    &self.word_packs,
                    &mut self.rng,
                    now_ms,
                    out,
                    defer,
                );
                if emptied {
                    proof {
                        assert(self.rooms@ =~= old(self).rooms@.remove(i as int));
                        assert forall|t: int| 0 <= t < self.rooms@.len() implies {
                            &&& (#[trigger] self.rooms@[t]).wf()
                            &&& self.rooms@[t].words_ok(self.word_packs@)
                            &&& self.rooms@[t].occupants@.len() > 0
                        } by {
                            if t < i as int {
                                assert(self.rooms@[t] == old(self).rooms@[t]);
                            } else {
                                assert(self.rooms@[t] == old(self).rooms@[t + 1]);
                            }
                        }
                        assert forall|a: int, b: int|
                            0 <= a < b < self.rooms@.len() implies self.rooms@[a].key@
                            != self.rooms@[b].key@ by {
                            if b < i as int {
                            } else if a < i as int {
                                assert(self.rooms@[b] == old(self).rooms@[b + 1]);
                            } else {
                                assert(self.rooms@[a] == old(self).rooms@[a + 1]);
                                assert(self.rooms@[b] == old(self).rooms@[b + 1]);
                            }
                        }
                        assert(leave_rel(
                            old(self).rooms@[i as int],
                            room,
                            added(out@, old(out)@),
                            added(defer@, old(defer)@),
                            old(self).word_packs@,
                            session_id,
                            now_ms,
                        ));
                    }
                } else {
                    self.rooms.insert(i, room);
                    proof {
                        assert(self.rooms@ =~= old(self).rooms@.update(
                            i as int,
                            self.rooms@[i as int],
                        ));
                        assert forall|t: int| 0 <= t < self.rooms@.len() implies {
                            &&& (#[trigger] self.rooms@[t]).wf()
                            &&& self.rooms@[t].words_ok(self.word_packs@)
                            &&& self.rooms@[t].occupants@.len() > 0
                        } by {
                            if t != i as int {
                                assert(self.rooms@[t] == old(self).rooms@[t]);
                            }
                        }
                        assert forall|a: int, b: int|
                            0 <= a < b < self.rooms@.len() implies self.rooms@[a].key@
                            != self.rooms@[b].key@ by {
                            if a != i as int && b != i as int {
                                assert(self.rooms@[a] == old(self).rooms@[a]);
                                assert(self.rooms@[b] == old(self).rooms@[b]);
                            } else if a == i as int {
                                assert(self.rooms@[b] == old(self).rooms@[b]);
                                assert(self.rooms@[a].key@ == old(self).rooms@[a].key@);
                            } else {
                                assert(self.rooms@[a] == old(self).rooms@[a]);
                                assert(self.rooms@[b].key@ == old(self).rooms@[b].key@);
                            }
                        }
                    }
                }
            },
            None => {
                proof {
                    assert(out@.take(old(out)@.len() as int) =~= out@);
                    assert(defer@.take(old(defer)@.len() as int) =~= defer@);
                    assert(added(out@, old(out)@) =~= Seq::<Directed>::empty());
                    assert(added(defer@, old(defer)@) =~= Seq::<Deferred>::empty());
                }
            },
        }
    }
}

} // verus!

verus! {

/// Replacing one room, everything else equal, keeps the registry
/// invariant, provided the replacement is sound and kept its key.
pub proof fn lemma_rooms_update_wf(
    pre: Seq<Room>,
    post: Seq<Room>,
    i: int,
    packs: Seq<WordPack>,
)
    requires
        0 <= i < pre.len(),
        post == pre.update(i, post[i]),
        forall|t: int| 0 <= t < pre.len() ==> {
            &&& (#[trigger] pre[t]).wf()
            &&& pre[t].words_ok(packs)
            &&& pre[t].occupants@.len() > 0
        },
        forall|a: int, b: int| 0 <= a < b < pre.len() ==> pre[a].key@ != pre[b].key@,
        post[i].wf(),
        post[i].words_ok(packs),
        post[i].occupants@.len() > 0,
        post[i].key == pre[i].key,
    ensures
        forall|t: int| 0 <= t < post.len() ==> {
            &&& (#[trigger] post[t]).wf()
            &&& post[t].words_ok(packs)
            &&& post[t].occupants@.len() > 0
        },
        forall|a: int, b: int| 0 <= a < b < post.len() ==> post[a].key@ != post[b].key@,
{
    assert forall|t: int| 0 <= t < post.len() implies {
        &&& (#[trigger] post[t]).wf()
        &&& post[t].words_ok(packs)
        &&& post[t].occupants@.len() > 0
    } by {
        if t != i {
            assert(post[t] == pre[t]);
        }
    }
    assert forall|a: int, b: int|
        0 <= a < b < post.len() implies post[a].key@ != post[b].key@ by {
        if a != i && b != i {
            assert(post[a] == pre[a]);
            assert(post[b] == pre[b]);
        } else if a == i {
            assert(post[b] == pre[b]);
        } else {
            assert(post[a] == pre[a]);
        }
    }
}

/// What a start addressed to a key does: delegated to that room when it
/// exists, silent otherwise.
pub open spec fn start_room_rel(
    pre: GameServer,
    post: GameServer,
    ev: Seq<Directed>,
    df: Seq<Deferred>,
    key: Seq<char>,
    id: usize,
    lines: Seq<Seq<char>>,
    now_ms: u64,
) -> bool {
    &&& post.recipients == pre.recipients
    &&& post.word_packs == pre.word_packs
    &&& if has_room(pre.rooms@, key) {
        let i = room_index_of(pre.rooms@, key);
        &&& post.rooms@.len() == pre.rooms@.len()
        &&& post.rooms@ == pre.rooms@.update(i, post.rooms@[i])
        &&& start_rel(
            pre.rooms@[i],
            post.rooms@[i],
            ev,
            df,
            pre.word_packs@,
            id,
            lines,
            now_ms,
        )
    } else {
        post.rooms == pre.rooms && ev == Seq::<Directed>::empty() && df == Seq::<
            Deferred,
        >::empty()
    }
}

impl GameServer {
    /// Routes a start command to the room under `key`.
    pub fn start_room(
        &mut self,
        key: &String,
        session_id: usize,
        lines: &Vec<String>,
        now_ms: u64,
        out: &mut Vec<Directed>,
        defer: &mut Vec<Deferred>,
    )
        requires
            old(self).wf(),
            now_ms <= u64::MAX - ROUND_LIMIT_MS,
        ensures
            final(self).wf(),
            extends(final(out)@, old(out)@),
            extends(final(defer)@, old(defer)@),
            start_room_rel(
                *old(self),
                *final(self),
                added(final(out)@, old(out)@),
                added(final(defer)@, old(defer)@),
                key@,
                session_id,
                lines@.map_values(|l: String| l@),
                now_ms,
            ),
    {
        match find_room(&self.rooms, key) {
            Some(i) => {
                proof {
                    let ci = room_index_of(self.rooms@, key@);
                    assert(self.rooms@[ci].key@ == key@);
                    assert(ci == i as int);
                }
                let mut room = self.rooms.remove(i);
                room.start(session_id, lines, &self.word_packs, &mut self.rng, now_ms, out, defer);
                self.rooms.insert(i, room);
                proof {
                    assert(self.rooms@ =~= old(self).rooms@.update(i as int, self.rooms@[i as int]));
                    lemma_rooms_update_wf(
                        old(self).rooms@,
                        self.rooms@,
                        i as int,
                        self.word_packs@,
                    );
                }
            },
            None => {
                proof {
                    assert(out@.take(old(out)@.len() as int) =~= out@);
                    assert(defer@.take(old(defer)@.len() as int) =~= defer@);
                    assert(added(out@, old(out)@) =~= Seq::<Directed>::empty());
                    assert(added(defer@, old(defer)@) =~= Seq::<Deferred>::empty());
                }
            },
        }
    }

    /// Routes a clear-canvas command to the room under `key`.
    pub fn handle_clear(&mut self, key: &String, session_id: usize, out: &mut Vec<Directed>)
        requires
            old(self).wf(),
        ensures
            final(self).wf(),
            final(self).recipients == old(self).recipients,
            final(self).word_packs == old(self).word_packs,
            extends(final(out)@, old(out)@),
            ({
                let ev = added(final(out)@, old(out)@);
                if has_room(old(self).rooms@, key@) {
                    let i = room_index_of(old(self).rooms@, key@);
                    &&& final(self).rooms@.len() == old(self).rooms@.len()
                    &&& final(self).rooms@ == old(self).rooms@.update(i, final(self).rooms@[i])
                    &&& crate::room::clear_rel(
                        old(self).rooms@[i],
                        final(self).rooms@[i],
                        ev,
                        session_id,
                    )
                } else {
                    final(self).rooms == old(self).rooms && ev == Seq::<Directed>::empty()
                }
            }),
    {
        match find_room(&self.rooms, key) {
            Some(i) => {
                proof {
                    let ci = room_index_of(self.rooms@, key@);
                    assert(self.rooms@[ci].key@ == key@);
                    assert(ci == i as int);
                }
                let mut room = self.rooms.remove(i);
                room.clear(session_id, out);
                self.rooms.insert(i, room);
                proof {
                    assert(self.rooms@ =~= old(self).rooms@.update(i as int, self.rooms@[i as int]));
                    lemma_rooms_update_wf(
                        old(self).rooms@,
                        self.rooms@,
                        i as int,
                        self.word_packs@,
                    );
                }
            },
            None => {
                proof {
                    assert(out@.take(old(out)@.len() as int) =~= out@);
                    assert(added(out@, old(out)@) =~= Seq::<Directed>::empty());
                }
            },
        }
    }

    /// Routes a scheduled round timeout to the room under `key`; a room
    /// that disappeared meanwhile is a normal race and is ignored.
    pub fn round_timeout(
        &mut self,
        key: &String,
        round_id: usize,
        out: &mut Vec<Directed>,
        defer: &mut Vec<Deferred>,
    )
        requires
            old(self).wf(),
        ensures
            final(self).wf(),
            final(self).recipients == old(self).recipients,
            final(self).word_packs == old(self).word_packs,
            extends(final(out)@, old(out)@),
            extends(final(defer)@, old(defer)@),
            ({
                let ev = added(final(out)@, old(out)@);
                let df = added(final(defer)@, old(defer)@);
                if has_room(old(self).rooms@, key@) {
                    let i = room_index_of(old(self).rooms@, key@);
                    &&& final(self).rooms@.len() == old(self).rooms@.len()
                    &&& final(self).rooms@ == old(self).rooms@.update(i, final(self).rooms@[i])
                    &&& crate::room::timeout_rel(
                        old(self).rooms@[i],
                        final(self).rooms@[i],
                        ev,
                        df,
                        old(self).word_packs@,
                        round_id,
                    )
                } else {
                    final(self).rooms == old(self).rooms && ev == Seq::<Directed>::empty() && df
                        == Seq::<Deferred>::empty()
                }
            }),
    {
        match find_room(&self.rooms, key) {
            Some(i) => {
                proof {
                    let ci = room_index_of(self.rooms@, key@);
                    assert(self.rooms@[ci].key@ == key@);
                    assert(ci == i as int);
                }
                let mut room = self.rooms.remove(i);
                room.round_timeout(round_id, &self.word_packs, out, defer);
                self.rooms.insert(i, room);
                proof {
                    assert(self.rooms@ =~= old(self).rooms@.update(i as int, self.rooms@[i as int]));
                    lemma_rooms_update_wf(
                        old(self).rooms@,
                        self.rooms@,
                        i as int,
                        self.word_packs@,
                    );
                }
            },
            None => {
                proof {
                    assert(out@.take(old(out)@.len() as int) =~= out@);
                    assert(defer@.take(old(defer)@.len() as int) =~= defer@);
                    assert(added(out@, old(out)@) =~= Seq::<Directed>::empty());
                    assert(added(defer@, old(defer)@) =~= Seq::<Deferred>::empty());
                }
            },
        }
    }

    /// Runs the deferred start of the next round for the room under `key`.
    /// A room already back in a round, or gone, is left alone.
    pub fn new_round(
        &mut self,
        key: &String,
        now_ms: u64,
        out: &mut Vec<Directed>,
        defer: &mut Vec<Deferred>,
    )
        requires
            old(self).wf(),
            now_ms <= u64::MAX - ROUND_LIMIT_MS,
        ensures
            final(self).wf(),
            final(self).recipients == old(self).recipients,
            final(self).word_packs == old(self).word_packs,
            extends(final(out)@, old(out)@),
            extends(final(defer)@, old(defer)@),
            ({
                let ev = added(final(out)@, old(out)@);
                let df = added(final(defer)@, old(defer)@);
                if has_room(old(self).rooms@, key@) && !(old(self).rooms@[room_index_of(
                    old(self).rooms@,
                    key@,
                )].state is Round) {
                    let i = room_index_of(old(self).rooms@, key@);
                    &&& final(self).rooms@.len() == old(self).rooms@.len()
                    &&& final(self).rooms@ == old(self).rooms@.update(i, final(self).rooms@[i])
                    &&& crate::room::new_round_rel(
                        old(self).rooms@[i],
                        final(self).rooms@[i],
                        ev,
                        df,
                        old(self).word_packs@,
                        now_ms,
                    )
                } else {
                    final(self).rooms == old(self).rooms && ev == Seq::<Directed>::empty() && df
                        == Seq::<Deferred>::empty()
                }
            }),
    {
        match find_room(&self.rooms, key) {
            Some(i) => {
                proof {
                    let ci = room_index_of(self.rooms@, key@);
                    assert(self.rooms@[ci].key@ == key@);
                    assert(ci == i as int);
                }
                let in_round: bool = match self.rooms[i].state {
                    RoomState::Round { .. } => true,
                    _ => false,
                };
                if in_round {
                    proof {
                        assert(out@.take(old(out)@.len() as int) =~= out@);
                        assert(defer@.take(old(defer)@.len() as int) =~= defer@);
                        assert(added(out@, old(out)@) =~= Seq::<Directed>::empty());
                        assert(added(defer@, old(defer)@) =~= Seq::<Deferred>::empty());
                    }
                    return ;
                }
                let mut room = self.rooms.remove(i);
                proof {
                    assert(rotation_ready(room));
                }
                room.new_round(&self.word_packs, &mut self.rng, now_ms, out, defer);
                self.rooms.insert(i, room);
                proof {
                    assert(self.rooms@ =~= old(self).rooms@.update(i as int, self.rooms@[i as int]));
                    lemma_rooms_update_wf(
                        old(self).rooms@,
                        self.rooms@,
                        i as int,
                        self.word_packs@,
                    );
                }
            },
            None => {
                proof {
                    assert(out@.take(old(out)@.len() as int) =~= out@);
                    assert(defer@.take(old(defer)@.len() as int) =~= defer@);
                    assert(added(out@, old(out)@) =~= Seq::<Directed>::empty());
                    assert(added(defer@, old(defer)@) =~= Seq::<Deferred>::empty());
                }
            },
        }
    }
}

} // verus!

verus! {

/// Nothing in the registry moved and nothing was said.
pub open spec fn server_no_effect(
    pre: GameServer,
    post: GameServer,
    ev: Seq<Directed>,
    df: Seq<Deferred>,
) -> bool {
    &&& post.rooms == pre.rooms
    &&& post.recipients == pre.recipients
    &&& post.word_packs == pre.word_packs
    &&& ev == Seq::<Directed>::empty()
    &&& df == Seq::<Deferred>::empty()
}

/// What one inbound command does, by its leading marker character and
/// whether the sender is in a room.  In a room: `m` chats or guesses, `d`
/// draws, `q` leaves, `s` starts with the remaining lines as settings and
/// `c` clears.  Outside: `j` joins by key and username, `n` creates a
/// room.  Anything else — unknown markers, empty text, empty chat, a
/// malformed join, an invalid username — is dropped without effect.
pub open spec fn handle_rel(
    pre: GameServer,
    post: GameServer,
    ev: Seq<Directed>,
    df: Seq<Deferred>,
    id: usize,
    room: Option<String>,
    content: Seq<char>,
    now_ms: u64,
) -> bool {
    if content.len() == 0 {
        server_no_effect(pre, post, ev, df)
    } else {
        let marker = content[0];
        let payload = content.skip(1);
        match room {
            Some(k) => {
                let key = k@;
                if marker == 'm' {
                    if payload.len() == 0 {
                        server_no_effect(pre, post, ev, df)
                    } else if has_room(pre.rooms@, key) {
                        let i = room_index_of(pre.rooms@, key);
                        &&& post.recipients == pre.recipients
                        &&& post.word_packs == pre.word_packs
                        &&& post.rooms@.len() == pre.rooms@.len()
                        &&& post.rooms@ == pre.rooms@.update(i, post.rooms@[i])
                        &&& exists|message: String|
                            {
                                &&& #[trigger] guess_rel(
                                    pre.rooms@[i],
                                    post.rooms@[i],
                                    ev,
                                    df,
                                    pre.word_packs@,
                                    id,
                                    message,
                                )
                                &&& message@ == payload
                            }
                    } else {
                        server_no_effect(pre, post, ev, df)
                    }
                } else if marker == 'd' {
                    if has_room(pre.rooms@, key) {
                        let i = room_index_of(pre.rooms@, key);
                        &&& post.recipients == pre.recipients
                        &&& post.word_packs == pre.word_packs
                        &&& post.rooms@.len() == pre.rooms@.len()
                        &&& post.rooms@ == pre.rooms@.update(i, post.rooms@[i])
                        &&& draw_rel(pre.rooms@[i], post.rooms@[i], ev, id, payload)
                        &&& df == Seq::<Deferred>::empty()
                    } else {
                        server_no_effect(pre, post, ev, df)
                    }
                } else if marker == 'q' {
                    leave_room_rel(pre, post, ev, df, key, id, now_ms)
                } else if marker == 's' {
                    start_room_rel(
                        pre,
                        post,
                        ev,
                        df,
                        key,
                        id,
                        crate::text::lines_of(content).skip(1),
                        now_ms,
                    )
                } else if marker == 'c' {
                    if has_room(pre.rooms@, key) {
                        let i = room_index_of(pre.rooms@, key);
                        &&& post.recipients == pre.recipients
                        &&& post.word_packs == pre.word_packs
                        &&& post.rooms@.len() == pre.rooms@.len()
                        &&& post.rooms@ == pre.rooms@.update(i, post.rooms@[i])
                        &&& crate::room::clear_rel(pre.rooms@[i], post.rooms@[i], ev, id)
                        &&& df == Seq::<Deferred>::empty()
                    } else {
                        server_no_effect(pre, post, ev, df)
                    }
                } else {
                    server_no_effect(pre, post, ev, df)
                }
            },
            None => {
                if marker == 'j' {
                    let comps = split_on(payload, ',');
                    if comps.len() == 2 && valid_username(comps[1]) {
                        &&& df == Seq::<Deferred>::empty()
                        &&& exists|username: String|
                            {
                                &&& #[trigger] join_room_rel(
                                    pre,
                                    post,
                                    ev,
                                    comps[0],
                                    id,
                                    username,
                                )
                                &&& username@ == comps[1]
                            }
                    } else {
                        server_no_effect(pre, post, ev, df)
                    }
                } else if marker == 'n' {
                    if valid_username(payload) {
                        &&& df == Seq::<Deferred>::empty()
                        &&& exists|username: String|
                            {
                                &&& #[trigger] create_room_rel(pre, post, ev, id, username)
                                &&& username@ == payload
                            }
                    } else {
                        server_no_effect(pre, post, ev, df)
                    }
                } else {
                    server_no_effect(pre, post, ev, df)
                }
            },
        }
    }
}

impl GameServer {
    /// Dispatches one inbound command to the room or registry operation
    /// its marker selects.
    #[verifier::rlimit(50)]
    pub fn handle(
        &mut self,
        msg: ClientMessage,
        now_ms: u64,
        out: &mut Vec<Directed>,
        defer: &mut Vec<Deferred>,
    )
        requires
            old(self).wf(),
            now_ms <= u64::MAX - ROUND_LIMIT_MS,
        ensures
            final(self).wf(),
            extends(final(out)@, old(out)@),
            extends(final(defer)@, old(defer)@),
            handle_rel(
                *old(self),
                *final(self),
                added(final(out)@, old(out)@),
                added(final(defer)@, old(defer)@),
                msg.session_id,
                msg.room,
                msg.content@,
                now_ms,
            ),
    {
        let n = msg.content.as_str().unicode_len();
        if n == 0 {
            proof {
                assert(out@.take(old(out)@.len() as int) =~= out@);
                assert(defer@.take(old(defer)@.len() as int) =~= defer@);
                assert(added(out@, old(out)@) =~= Seq::<Directed>::empty());
                assert(added(defer@, old(defer)@) =~= Seq::<Deferred>::empty());
            }
            return ;
        }
        let marker = msg.content.as_str().get_char(0);
        let ghost payload_view = msg.content@.skip(1);
        match msg.room {
            Some(room_key) => {
                if marker == 'm' {
                    let chat = msg.content.as_str().substring_char(1, n).to_owned();
                    proof {
                        assert(chat@ =~= payload_view);
                    }
                    if chat.as_str().unicode_len() == 0 {
                        proof {
                            assert(out@.take(old(out)@.len() as int) =~= out@);
                            assert(defer@.take(old(defer)@.len() as int) =~= defer@);
                            assert(added(out@, old(out)@) =~= Seq::<Directed>::empty());
                            assert(added(defer@, old(defer)@) =~= Seq::<Deferred>::empty());
                        }
                        return ;
                    }
                    match find_room(&self.rooms, &room_key) {
                        Some(i) => {
                            proof {
                                let ci = room_index_of(self.rooms@, room_key@);
                                assert(self.rooms@[ci].key@ == room_key@);
                                assert(ci == i as int);
                            }
                            let ghost chat_snap = chat;
                            let mut room = self.rooms.remove(i);
                            room.handle_guess(
                                msg.session_id,
                                chat,
                                &self.word_packs,
                                out,
                                defer,
                            );
                            self.rooms.insert(i, room);
                            proof {
                                assert(self.rooms@ =~= old(self).rooms@.update(
                                    i as int,
                                    self.rooms@[i as int],
                                ));
                                lemma_rooms_update_wf(
                                    old(self).rooms@,
                                    self.rooms@,
                                    i as int,
                                    self.word_packs@,
                                );
                                assert(guess_rel(
                                    old(self).rooms@[i as int],
                                    self.rooms@[i as int],
                                    added(out@, old(out)@),
                                    added(defer@, old(defer)@),
                                    old(self).word_packs@,
                                    msg.session_id,
                                    chat_snap,
                                ));
                            }
                        },
                        None => {
                            proof {
                                assert(out@.take(old(out)@.len() as int) =~= out@);
                                assert(defer@.take(old(defer)@.len() as int) =~= defer@);
                                assert(added(out@, old(out)@) =~= Seq::<Directed>::empty());
                                assert(added(defer@, old(defer)@) =~= Seq::<Deferred>::empty());
                            }
                        },
                    }
                } else if marker == 'd' {
                    let data = msg.content.as_str().substring_char(1, n).to_owned();
                    proof {
                        assert(data@ =~= payload_view);
                    }
                    match find_room(&self.rooms, &room_key) {
                        Some(i) => {
                            proof {
                                let ci = room_index_of(self.rooms@, room_key@);
                                assert(self.rooms@[ci].key@ == room_key@);
                                assert(ci == i as int);
                            }
                            let mut room = self.rooms.remove(i);
                            room.handle_draw(msg.session_id, data, out);
                            self.rooms.insert(i, room);
                            proof {
                                assert(self.rooms@ =~= old(self).rooms@.update(
                                    i as int,
                                    self.rooms@[i as int],
                                ));
                                lemma_rooms_update_wf(
                                    old(self).rooms@,
                                    self.rooms@,
                                    i as int,
                                    self.word_packs@,
                                );
                                assert(defer@.take(old(defer)@.len() as int) =~= defer@);
                                assert(added(defer@, old(defer)@) =~= Seq::<Deferred>::empty());
                            }
                        },
                        None => {
                            proof {
                                assert(out@.take(old(out)@.len() as int) =~= out@);
                                assert(defer@.take(old(defer)@.len() as int) =~= defer@);
                                assert(added(out@, old(out)@) =~= Seq::<Directed>::empty());
                                assert(added(defer@, old(defer)@) =~= Seq::<Deferred>::empty());
                            }
                        },
                    }
                } else if marker == 'q' {
                    self.leave_room(&room_key, msg.session_id, now_ms, out, defer);
                } else if marker == 's' {
                    let all_lines = split_lines(msg.content.as_str());
                    let mut lines = all_lines;
                    proof {
                        crate::text::lemma_lines_of_pos(msg.content@);
                    }
                    lines.remove(0);
                    proof {
                        assert(lines@.map_values(|l: String| l@) =~= crate::text::lines_of(
                            msg.content@,
                        ).skip(1));
                    }
                    self.start_room(&room_key, msg.session_id, &lines, now_ms, out, defer);
                } else if marker == 'c' {
                    self.handle_clear(&room_key, msg.session_id, out);
                    proof {
                        assert(defer@.take(old(defer)@.len() as int) =~= defer@);
                        assert(added(defer@, old(defer)@) =~= Seq::<Deferred>::empty());
                    }
                } else {
                    proof {
                        assert(out@.take(old(out)@.len() as int) =~= out@);
                        assert(defer@.take(old(defer)@.len() as int) =~= defer@);
                        assert(added(out@, old(out)@) =~= Seq::<Directed>::empty());
                        assert(added(defer@, old(defer)@) =~= Seq::<Deferred>::empty());
                    }
                }
            },
            None => {
                if marker == 'j' {
                    let payload = msg.content.as_str().substring_char(1, n).to_owned();
                    proof {
                        assert(payload@ =~= payload_view);
                    }
                    let comps = split_str(payload.as_str(), ',');
                    if comps.len() == 2 {
                        let username = comps[1].clone();
                        let key = comps[0].clone();
                        proof {
                            assert(comps@.map_values(|p: String| p@)[0] == key@);
                            assert(comps@.map_values(|p: String| p@)[1] == username@);
                        }
                        if validate_username(username.as_str()) {
                            let ghost username_snap = username;
                            self.join_room(&key, username, msg.session_id, out);
                            proof {
                                assert(defer@.take(old(defer)@.len() as int) =~= defer@);
                                assert(added(defer@, old(defer)@) =~= Seq::<Deferred>::empty());
                                assert(join_room_rel(
                                    *old(self),
                                    *self,
                                    added(out@, old(out)@),
                                    split_on(payload_view, ',')[0],
                                    msg.session_id,
                                    username_snap,
                                ));
                            }
                        } else {
                            proof {
                                assert(out@.take(old(out)@.len() as int) =~= out@);
                                assert(defer@.take(old(defer)@.len() as int) =~= defer@);
                                assert(added(out@, old(out)@) =~= Seq::<Directed>::empty());
                                assert(added(defer@, old(defer)@) =~= Seq::<Deferred>::empty());
                            }
                        }
                    } else {
                        proof {
                            assert(out@.take(old(out)@.len() as int) =~= out@);
                            assert(defer@.take(old(defer)@.len() as int) =~= defer@);
                            assert(added(out@, old(out)@) =~= Seq::<Directed>::empty());
                            assert(added(defer@, old(defer)@) =~= Seq::<Deferred>::empty());
                        }
                    }
                } else if marker == 'n' {
                    let username = msg.content.as_str().substring_char(1, n).to_owned();
                    proof {
                        assert(username@ =~= payload_view);
                    }
                    if validate_username(username.as_str()) {
                        let ghost username_snap = username;
                        self.create_room(msg.session_id, username, out);
                        proof {
                            assert(defer@.take(old(defer)@.len() as int) =~= defer@);
                            assert(added(defer@, old(defer)@) =~= Seq::<Deferred>::empty());
                            assert(create_room_rel(
                                *old(self),
                                *self,
                                added(out@, old(out)@),
                                msg.session_id,
                                username_snap,
                            ));
                        }
                    } else {
                        proof {
                            assert(out@.take(old(out)@.len() as int) =~= out@);
                            assert(defer@.take(old(defer)@.len() as int) =~= defer@);
                            assert(added(out@, old(out)@) =~= Seq::<Directed>::empty());
                            assert(added(defer@, old(defer)@) =~= Seq::<Deferred>::empty());
                        }
                    }
                } else {
                    proof {
                        assert(out@.take(old(out)@.len() as int) =~= out@);
                        assert(defer@.take(old(defer)@.len() as int) =~= defer@);
                        assert(added(out@, old(out)@) =~= Seq::<Directed>::empty());
                        assert(added(defer@, old(defer)@) =~= Seq::<Deferred>::empty());
                    }
                }
            },
        }
    }

    /// Handles a connection going away: its id is released, and if it sat
    /// in a room it leaves that room too.
    pub fn handle_disconnect(
        &mut self,
        msg: DisconnectMessage,
        now_ms: u64,
        out: &mut Vec<Directed>,
        defer: &mut Vec<Deferred>,
    )
        requires
            old(self).wf(),
            now_ms <= u64::MAX - ROUND_LIMIT_MS,
        ensures
            final(self).wf(),
            final(self).recipients@ == remove_all(old(self).recipients@, msg.session_id),
            final(self).word_packs == old(self).word_packs,
            extends(final(out)@, old(out)@),
            extends(final(defer)@, old(defer)@),
            match msg.room {
                None => final(self).rooms == old(self).rooms && added(final(out)@, old(out)@)
                    == Seq::<Directed>::empty() && added(final(defer)@, old(defer)@) == Seq::<
                    Deferred,
                >::empty(),
                Some(k) => exists|mid: GameServer|
                    {
                        &&& mid.rooms == old(self).rooms
                        &&& mid.word_packs == old(self).word_packs
                        &&& #[trigger] leave_room_rel(
                            mid,
                            *final(self),
                            added(final(out)@, old(out)@),
                            added(final(defer)@, old(defer)@),
                            k@,
                            msg.session_id,
                            now_ms,
                        )
                    },
            },
    {
        self.disconnect(msg.session_id);
        match msg.room {
            Some(key) => {
                let ghost mid = *self;
                self.leave_room(&key, msg.session_id, now_ms, out, defer);
                proof {
                    assert(leave_room_rel(
                        mid,
                        *self,
                        added(out@, old(out)@),
                        added(defer@, old(defer)@),
                        key@,
                        msg.session_id,
                        now_ms,
                    ));
                }
            },
            None => {
                proof {
                    assert(out@.take(old(out)@.len() as int) =~= out@);
                    assert(defer@.take(old(defer)@.len() as int) =~= defer@);
                    assert(added(out@, old(out)@) =~= Seq::<Directed>::empty());
                    assert(added(defer@, old(defer)@) =~= Seq::<Deferred>::empty());
                }
            },
        }
    }
}

} // verus!
