use drawguess::events::{Deferred, Directed, Event};
use drawguess::server::{ClientMessage, DisconnectMessage, GameServer};
use drawguess::room::RoomState;
use drawguess::word_pack::WordPack;

const NOW: u64 = 1_000;

fn six_word_pack() -> WordPack {
    WordPack::parse("Pack\nSix words sharing an alternate\nw0,zz\nw1,zz\nw2,zz\nw3,zz\nw4,zz\nw5,zz")
        .expect("pack parses")
}

fn server() -> GameServer {
    GameServer::new(vec![six_word_pack()])
}

fn events_for<'a>(out: &'a [Directed], to: usize) -> Vec<&'a Event> {
    out.iter().filter(|d| d.to == to).map(|d| &d.event).collect()
}

/// A server with one room and `extra` additional members beyond the host.
/// Returns the server, the room key and the member ids (host first).
fn room_with_members(extra: usize) -> (GameServer, String, Vec<usize>) {
    let mut srv = server();
    let mut out = Vec::new();
    let host = srv.connect().expect("id allocated");
    srv.create_room(host, "user0".to_string(), &mut out);
    let key = srv.rooms[0].key.clone();
    let mut ids = vec![host];
    for k in 1..=extra {
        let id = srv.connect().expect("id allocated");
        let mut out2 = Vec::new();
        srv.join_room(&key, format!("user{}", k), id, &mut out2);
        ids.push(id);
    }
    (srv, key, ids)
}

fn start_lines(timer: &str, clear: &str) -> Vec<String> {
    vec!["0".to_string(), timer.to_string(), clear.to_string()]
}

fn leader_of(srv: &GameServer) -> usize {
    match srv.rooms[0].state {
        RoomState::Round { leader, .. } => leader,
        _ => panic!("room is not in a round"),
    }
}

#[test]
fn connect_gives_distinct_nonzero_ids() {
    let mut srv = server();
    let a = srv.connect().expect("id allocated");
    let b = srv.connect().expect("id allocated");
    assert_ne!(a, 0);
    assert_ne!(b, 0);
    assert_ne!(a, b);
}

#[test]
fn create_room_key_and_welcome() {
    let mut srv = server();
    let mut out = Vec::new();
    let host = srv.connect().expect("id allocated");
    srv.create_room(host, "Alice".to_string(), &mut out);
    assert_eq!(srv.rooms.len(), 1);
    let key = srv.rooms[0].key.clone();
    assert_eq!(key.chars().count(), 5);
    assert!(key.chars().all(|c| c.is_ascii_alphanumeric()));
    let evs = events_for(&out, host);
    assert_eq!(
        evs[0],
        &Event::EnterRoom(key.clone(), vec![(host, "Alice".to_string())])
    );
    assert_eq!(evs[1], &Event::EnterLobby(host));
    assert_eq!(
        evs[2],
        &Event::SettingsData(vec![(
            0,
            "Pack".to_string(),
            "Six words sharing an alternate".to_string()
        )])
    );
}

#[test]
fn join_nonexistent_room_is_answered() {
    let mut srv = server();
    let mut out = Vec::new();
    let id = srv.connect().expect("id allocated");
    srv.join_room(&"nope!".to_string(), "Bob".to_string(), id, &mut out);
    assert_eq!(
        out,
        vec![Directed {
            to: id,
            event: Event::NonExistantRoom("nope!".to_string())
        }]
    );
    assert!(srv.rooms.is_empty());
}

#[test]
fn username_collision_rejected() {
    // a room holds "user0"; a new connection tries the same name
    let (mut srv, key, ids) = room_with_members(0);
    let intruder = srv.connect().expect("id allocated");
    let mut out = Vec::new();
    srv.join_room(&key, "user0".to_string(), intruder, &mut out);
    assert_eq!(
        out,
        vec![Directed {
            to: intruder,
            event: Event::UsernameExists("user0".to_string())
        }]
    );
    assert_eq!(srv.rooms[0].occupants.len(), 1);
    assert_eq!(srv.rooms[0].occupants[0].id, ids[0]);
}

#[test]
fn settings_rejection_keeps_lobby() {
    // "abc" is not a valid pack index: the room must stay in the lobby,
    // with nothing sent to anyone
    let (mut srv, key, ids) = room_with_members(1);
    let mut out = Vec::new();
    let mut defer = Vec::new();
    srv.start_room(
        &key,
        ids[0],
        &vec!["abc".to_string(), "T".to_string(), "F".to_string()],
        NOW,
        &mut out,
        &mut defer,
    );
    assert!(matches!(srv.rooms[0].state, RoomState::Lobby { .. }));
    assert!(out.is_empty());
    assert!(defer.is_empty());
}

#[test]
fn out_of_range_pack_index_rejected() {
    let (mut srv, key, ids) = room_with_members(0);
    let mut out = Vec::new();
    let mut defer = Vec::new();
    srv.start_room(&key, ids[0], &vec!["0".to_string()], NOW, &mut out, &mut defer);
    assert!(matches!(srv.rooms[0].state, RoomState::Lobby { .. }));
    srv.start_room(
        &key,
        ids[0],
        &vec!["1".to_string(), "F".to_string(), "F".to_string()],
        NOW,
        &mut out,
        &mut defer,
    );
    assert!(matches!(srv.rooms[0].state, RoomState::Lobby { .. }));
    assert!(out.is_empty());
}

#[test]
fn only_host_may_start() {
    let (mut srv, key, ids) = room_with_members(1);
    let mut out = Vec::new();
    let mut defer = Vec::new();
    srv.start_room(&key, ids[1], &start_lines("F", "F"), NOW, &mut out, &mut defer);
    assert!(matches!(srv.rooms[0].state, RoomState::Lobby { .. }));
    assert!(out.is_empty());
}

#[test]
fn starting_begins_a_round() {
    let (mut srv, key, ids) = room_with_members(1);
    let mut out = Vec::new();
    let mut defer = Vec::new();
    srv.start_room(&key, ids[0], &start_lines("T", "F"), NOW, &mut out, &mut defer);
    let leader = leader_of(&srv);
    assert_eq!(leader, ids[0], "the host is first in the turn queue");
    assert_eq!(srv.rooms[0].round_id, 1);
    assert_eq!(srv.rooms[0].num_words, 6);
    assert_eq!(srv.rooms[0].max_excluded_words, 3);
    // the leader privately learns the word; the other member only the leader
    let leader_evs = events_for(&out, ids[0]);
    assert_eq!(leader_evs.len(), 1);
    match leader_evs[0] {
        Event::NewLeader(allow_clear, word, deadline) => {
            assert!(!*allow_clear);
            assert!(word.starts_with('w'));
            assert_eq!(*deadline, Some(NOW + 120_000));
        }
        other => panic!("leader got {:?}", other),
    }
    assert_eq!(
        events_for(&out, ids[1]),
        vec![&Event::NewRound(ids[0], Some(NOW + 120_000))]
    );
    // a timeout was scheduled for this round
    assert_eq!(
        defer,
        vec![Deferred::RoundTimeout {
            key: key.clone(),
            round_id: 1,
            delay_ms: 120_000
        }]
    );
}

#[test]
fn guess_is_normalized_and_wins() {
    let (mut srv, key, ids) = room_with_members(1);
    let mut out = Vec::new();
    let mut defer = Vec::new();
    srv.start_room(&key, ids[0], &start_lines("F", "F"), NOW, &mut out, &mut defer);
    let guesser = ids[1];
    out.clear();
    defer.clear();
    // trimming and lowercasing must happen before matching
    srv.handle(
        ClientMessage {
            session_id: guesser,
            content: "m  ZZ ".to_string(),
            room: Some(key.clone()),
        },
        NOW,
        &mut out,
        &mut defer,
    );
    match &srv.rooms[0].state {
        RoomState::Winner { winner, points, alternate, .. } => {
            assert_eq!(*winner, Some(guesser));
            assert_eq!(*points, 1);
            assert_eq!(*alternate, Some(0));
        }
        _ => panic!("round did not end"),
    }
    // chat first, then the reveal, to everyone
    let evs = events_for(&out, ids[0]);
    assert_eq!(evs[0], &Event::Message(guesser, "  ZZ ".to_string()));
    match evs[1] {
        Event::Winner(winner, points, word, alternate) => {
            assert_eq!(*winner, Some(guesser));
            assert_eq!(*points, 1);
            assert!(word.starts_with('w'));
            assert_eq!(alternate.as_deref(), Some("zz"));
        }
        other => panic!("expected a reveal, got {:?}", other),
    }
    assert_eq!(
        defer,
        vec![Deferred::NextRound {
            key: key.clone(),
            delay_ms: 5_000
        }]
    );
    // the guesser's points are recorded
    let winner_occ = srv.rooms[0]
        .occupants
        .iter()
        .find(|o| o.id == guesser)
        .expect("winner still in room");
    assert_eq!(winner_occ.points, 1);
}

#[test]
fn leader_guess_is_refused() {
    let (mut srv, key, ids) = room_with_members(1);
    let mut out = Vec::new();
    let mut defer = Vec::new();
    srv.start_room(&key, ids[0], &start_lines("F", "F"), NOW, &mut out, &mut defer);
    let leader = leader_of(&srv);
    out.clear();
    srv.handle(
        ClientMessage {
            session_id: leader,
            content: "mzz".to_string(),
            room: Some(key.clone()),
        },
        NOW,
        &mut out,
        &mut defer,
    );
    assert!(out.is_empty());
    assert!(matches!(srv.rooms[0].state, RoomState::Round { .. }));
}

#[test]
fn draw_history_replay() {
    // the leader sends two strokes; a mid-round joiner receives exactly
    // those two draw events, in order, before any later stroke
    let (mut srv, key, ids) = room_with_members(1);
    let mut out = Vec::new();
    let mut defer = Vec::new();
    srv.start_room(&key, ids[0], &start_lines("F", "F"), NOW, &mut out, &mut defer);
    let leader = leader_of(&srv);
    for stroke in ["d1,2,3,4,5", "d6,7,8,9,1"] {
        srv.handle(
            ClientMessage {
                session_id: leader,
                content: stroke.to_string(),
                room: Some(key.clone()),
            },
            NOW,
            &mut out,
            &mut defer,
        );
    }
    let late = srv.connect().expect("id allocated");
    let mut out2 = Vec::new();
    srv.join_room(&key, "late".to_string(), late, &mut out2);
    let evs = events_for(&out2, late);
    assert!(matches!(*evs[0], Event::EnterRoom(..)));
    assert_eq!(evs[1], &Event::NewRound(leader, None));
    assert_eq!(evs[2], &Event::Draw(1, 2, 3, 4, 5));
    assert_eq!(evs[3], &Event::Draw(6, 7, 8, 9, 1));
    assert_eq!(evs.len(), 4);
}

#[test]
fn draw_rejected_from_non_leader_and_out_of_range() {
    let (mut srv, key, ids) = room_with_members(1);
    let mut out = Vec::new();
    let mut defer = Vec::new();
    srv.start_room(&key, ids[0], &start_lines("F", "F"), NOW, &mut out, &mut defer);
    let leader = leader_of(&srv);
    let other = if leader == ids[0] { ids[1] } else { ids[0] };
    out.clear();
    for bad in [
        (other, "d1,2,3,4,5"),    // not the leader
        (leader, "d501,2,3,4,5"), // coordinate beyond the canvas
        (leader, "d1,2,3,4,11"),  // pen too large
        (leader, "d1,2,3,4"),     // too few fields
        (leader, "d1,2,3,4,x"),   // not a number
    ] {
        srv.handle(
            ClientMessage {
                session_id: bad.0,
                content: bad.1.to_string(),
                room: Some(key.clone()),
            },
            NOW,
            &mut out,
            &mut defer,
        );
    }
    assert!(out.is_empty());
    assert!(srv.rooms[0].draw_history.is_empty());
}

#[test]
fn clear_only_when_enabled() {
    let (mut srv, key, ids) = room_with_members(1);
    let mut out = Vec::new();
    let mut defer = Vec::new();
    srv.start_room(&key, ids[0], &start_lines("F", "T"), NOW, &mut out, &mut defer);
    let leader = leader_of(&srv);
    srv.handle(
        ClientMessage {
            session_id: leader,
            content: "d1,2,3,4,5".to_string(),
            room: Some(key.clone()),
        },
        NOW,
        &mut out,
        &mut defer,
    );
    assert_eq!(srv.rooms[0].draw_history.len(), 1);
    out.clear();
    srv.handle_clear(&key, leader, &mut out);
    assert!(srv.rooms[0].draw_history.is_empty());
    assert_eq!(events_for(&out, ids[1]), vec![&Event::ClearCanvas]);
}

#[test]
fn clear_refused_when_disabled() {
    let (mut srv, key, ids) = room_with_members(1);
    let mut out = Vec::new();
    let mut defer = Vec::new();
    srv.start_room(&key, ids[0], &start_lines("F", "F"), NOW, &mut out, &mut defer);
    let leader = leader_of(&srv);
    out.clear();
    srv.handle_clear(&key, leader, &mut out);
    assert!(out.is_empty());
}

#[test]
fn timeout_ends_round_without_winner() {
    let (mut srv, key, ids) = room_with_members(1);
    let mut out = Vec::new();
    let mut defer = Vec::new();
    srv.start_room(&key, ids[0], &start_lines("T", "F"), NOW, &mut out, &mut defer);
    out.clear();
    defer.clear();
    srv.round_timeout(&key, 1, &mut out, &mut defer);
    match &srv.rooms[0].state {
        RoomState::Winner { winner, points, alternate, .. } => {
            assert_eq!(*winner, None);
            assert_eq!(*points, 0);
            assert_eq!(*alternate, None);
        }
        _ => panic!("round did not end on timeout"),
    }
    let evs = events_for(&out, ids[1]);
    assert!(matches!(*evs[0], Event::Winner(None, 0, _, None)));
}

#[test]
fn round_timeout_race_is_a_no_op() {
    // reach the third round, win it by a correct guess, then let the stale
    // timeout for that same round fire: nothing may change, nothing be sent
    let (mut srv, key, ids) = room_with_members(1);
    let mut out = Vec::new();
    let mut defer = Vec::new();
    srv.start_room(&key, ids[0], &start_lines("T", "F"), NOW, &mut out, &mut defer);
    for _ in 0..2 {
        // end the current round by timeout, then run the deferred start
        let rid = srv.rooms[0].round_id;
        srv.round_timeout(&key, rid, &mut out, &mut defer);
        srv.new_round(&key, NOW, &mut out, &mut defer);
    }
    assert_eq!(srv.rooms[0].round_id, 3);
    let leader = leader_of(&srv);
    let guesser = if leader == ids[0] { ids[1] } else { ids[0] };
    srv.handle(
        ClientMessage {
            session_id: guesser,
            content: "mzz".to_string(),
            room: Some(key.clone()),
        },
        NOW,
        &mut out,
        &mut defer,
    );
    assert!(matches!(srv.rooms[0].state, RoomState::Winner { .. }));
    let frozen_points: Vec<usize> = srv.rooms[0].occupants.iter().map(|o| o.points).collect();
    let mut out2 = Vec::new();
    let mut defer2 = Vec::new();
    srv.round_timeout(&key, 3, &mut out2, &mut defer2);
    assert!(out2.is_empty(), "stale timeout must not send anything");
    assert!(defer2.is_empty());
    match &srv.rooms[0].state {
        RoomState::Winner { winner, .. } => assert_eq!(*winner, Some(guesser)),
        _ => panic!("stale timeout changed the state"),
    }
    let points_after: Vec<usize> = srv.rooms[0].occupants.iter().map(|o| o.points).collect();
    assert_eq!(frozen_points, points_after);
}

#[test]
fn turn_fairness_over_one_pass() {
    // three members, no churn: three rounds make each member leader once
    let (mut srv, key, ids) = room_with_members(2);
    let mut out = Vec::new();
    let mut defer = Vec::new();
    srv.start_room(&key, ids[0], &start_lines("F", "F"), NOW, &mut out, &mut defer);
    let mut leaders = Vec::new();
    for _ in 0..3 {
        leaders.push(leader_of(&srv));
        let rid = srv.rooms[0].round_id;
        srv.round_timeout(&key, rid, &mut out, &mut defer);
        srv.new_round(&key, NOW, &mut out, &mut defer);
    }
    assert_eq!(leaders, ids, "leadership follows join order, each exactly once");
}

#[test]
fn word_exclusion_window() {
    // four words, so the window keeps the last two draws out of reach
    let pack =
        WordPack::parse("P\nD\na\nb\nc\nd").expect("pack parses");
    let mut srv = GameServer::new(vec![pack]);
    let mut out = Vec::new();
    let mut defer = Vec::new();
    let host = srv.connect().expect("id allocated");
    srv.create_room(host, "solo-ish".to_string(), &mut out);
    let key = srv.rooms[0].key.clone();
    let second = srv.connect().expect("id allocated");
    srv.join_room(&key, "other".to_string(), second, &mut out);
    srv.start_room(&key, host, &start_lines("F", "F"), NOW, &mut out, &mut defer);
    assert_eq!(srv.rooms[0].max_excluded_words, 2);
    let mut drawn = Vec::new();
    for _ in 0..12 {
        match srv.rooms[0].state {
            RoomState::Round { word, .. } => drawn.push(word),
            _ => panic!("expected a running round"),
        }
        let rid = srv.rooms[0].round_id;
        srv.round_timeout(&key, rid, &mut out, &mut defer);
        srv.new_round(&key, NOW, &mut out, &mut defer);
    }
    for k in 0..drawn.len() {
        if k + 1 < drawn.len() {
            assert_ne!(drawn[k], drawn[k + 1]);
        }
        if k + 2 < drawn.len() {
            assert_ne!(drawn[k], drawn[k + 2]);
        }
    }
}

#[test]
fn empty_room_teardown() {
    // leaving drains one occupant at a time; the registry drops the room
    // exactly when the last occupant leaves, never before
    let (mut srv, key, ids) = room_with_members(2);
    let mut out = Vec::new();
    let mut defer = Vec::new();
    srv.leave_room(&key, ids[1], NOW, &mut out, &mut defer);
    assert_eq!(srv.rooms.len(), 1);
    assert_eq!(srv.rooms[0].occupants.len(), 2);
    srv.leave_room(&key, ids[2], NOW, &mut out, &mut defer);
    assert_eq!(srv.rooms.len(), 1);
    assert_eq!(srv.rooms[0].occupants.len(), 1);
    // a second leave by someone already gone changes nothing
    let mut out2 = Vec::new();
    srv.leave_room(&key, ids[2], NOW, &mut out2, &mut defer);
    assert!(out2.is_empty());
    assert_eq!(srv.rooms.len(), 1);
    srv.leave_room(&key, ids[0], NOW, &mut out, &mut defer);
    assert!(srv.rooms.is_empty(), "room is gone once empty");
}

#[test]
fn host_handoff_when_host_leaves_lobby() {
    let (mut srv, key, ids) = room_with_members(1);
    let mut out = Vec::new();
    let mut defer = Vec::new();
    srv.leave_room(&key, ids[0], NOW, &mut out, &mut defer);
    match srv.rooms[0].state {
        RoomState::Lobby { host } => assert_eq!(host, ids[1]),
        _ => panic!("room left the lobby"),
    }
    let evs = events_for(&out, ids[1]);
    assert!(evs.iter().any(|e| **e == Event::UserGone(ids[0])));
    assert!(evs.iter().any(|e| **e == Event::EnterLobby(ids[1])));
    assert!(evs.iter().any(|e| matches!(**e, Event::SettingsData(..))));
}

#[test]
fn leader_leaving_starts_new_round() {
    let (mut srv, key, ids) = room_with_members(2);
    let mut out = Vec::new();
    let mut defer = Vec::new();
    srv.start_room(&key, ids[0], &start_lines("F", "F"), NOW, &mut out, &mut defer);
    let first_leader = leader_of(&srv);
    assert_eq!(first_leader, ids[0]);
    out.clear();
    srv.leave_room(&key, first_leader, NOW, &mut out, &mut defer);
    let next_leader = leader_of(&srv);
    assert_eq!(next_leader, ids[1], "the next queued member takes over");
    assert_eq!(srv.rooms[0].round_id, 2);
}

#[test]
fn wire_protocol_round_trip() {
    // drive a whole little game through the text dispatcher alone
    let mut srv = server();
    let mut out = Vec::new();
    let mut defer = Vec::new();
    let a = srv.connect().expect("id allocated");
    let b = srv.connect().expect("id allocated");
    srv.handle(
        ClientMessage { session_id: a, content: "nAlice".to_string(), room: None },
        NOW,
        &mut out,
        &mut defer,
    );
    assert_eq!(srv.rooms.len(), 1);
    let key = srv.rooms[0].key.clone();
    srv.handle(
        ClientMessage {
            session_id: b,
            content: format!("j{},Bob", key),
            room: None,
        },
        NOW,
        &mut out,
        &mut defer,
    );
    assert_eq!(srv.rooms[0].occupants.len(), 2);
    srv.handle(
        ClientMessage {
            session_id: a,
            content: "s\n0\nF\nF".to_string(),
            room: Some(key.clone()),
        },
        NOW,
        &mut out,
        &mut defer,
    );
    assert!(matches!(srv.rooms[0].state, RoomState::Round { .. }));
    // an unknown marker inside a room is dropped silently
    out.clear();
    srv.handle(
        ClientMessage { session_id: a, content: "x?".to_string(), room: Some(key.clone()) },
        NOW,
        &mut out,
        &mut defer,
    );
    assert!(out.is_empty());
    // leaving over the wire
    srv.handle(
        ClientMessage { session_id: b, content: "q".to_string(), room: Some(key.clone()) },
        NOW,
        &mut out,
        &mut defer,
    );
    assert_eq!(srv.rooms[0].occupants.len(), 1);
}

#[test]
fn invalid_wire_input_is_dropped() {
    let mut srv = server();
    let mut out = Vec::new();
    let mut defer = Vec::new();
    let a = srv.connect().expect("id allocated");
    // empty message, invalid username, malformed join: all silent
    for (content, room) in [
        ("".to_string(), None),
        ("n".to_string(), None),
        ("nwaytoolongusername".to_string(), None),
        ("na,b".to_string(), None),
        ("jonlykey".to_string(), None),
        ("jkey,a,b".to_string(), None),
    ] {
        srv.handle(
            ClientMessage { session_id: a, content, room },
            NOW,
            &mut out,
            &mut defer,
        );
    }
    assert!(out.is_empty());
    assert!(srv.rooms.is_empty());
}

#[test]
fn disconnect_releases_id_and_leaves_room() {
    let (mut srv, key, ids) = room_with_members(1);
    let mut out = Vec::new();
    let mut defer = Vec::new();
    srv.handle_disconnect(
        DisconnectMessage { session_id: ids[1], room: Some(key.clone()) },
        NOW,
        &mut out,
        &mut defer,
    );
    assert_eq!(srv.rooms[0].occupants.len(), 1);
    assert!(!srv.recipients.contains(&ids[1]));
    assert!(srv.recipients.contains(&ids[0]));
}
