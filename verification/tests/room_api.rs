use drawguess::events::{Directed, Event};
use drawguess::room::{Room, RoomState, Settings};
use drawguess::word_pack::WordPack;

const NOW: u64 = 500;

fn packs() -> Vec<WordPack> {
    vec![
        WordPack::parse("First\nA\na1\na2\na3").expect("pack parses"),
        WordPack::parse("Second\nB\nb1\nb2").expect("pack parses"),
    ]
}

#[test]
fn settings_lines_parse() {
    let packs = packs();
    let lines = |a: &str, b: &str, c: &str| vec![a.to_string(), b.to_string(), c.to_string()];
    let s = Settings::parse_from_lines(&lines("0,1", "T", "F"), packs.len()).expect("parses");
    assert_eq!(s.enabled_word_packs, vec![0, 1]);
    assert!(s.round_timer);
    assert!(!s.allow_clear);
    // anything but the exact letter T leaves a flag off
    let s = Settings::parse_from_lines(&lines("1", "t", "TT"), packs.len()).expect("parses");
    assert_eq!(s.enabled_word_packs, vec![1]);
    assert!(!s.round_timer);
    assert!(!s.allow_clear);
    // out-of-range index, junk, wrong line count: refused
    assert!(Settings::parse_from_lines(&lines("2", "T", "F"), packs.len()).is_none());
    assert!(Settings::parse_from_lines(&lines("abc", "T", "F"), packs.len()).is_none());
    assert!(Settings::parse_from_lines(&lines("", "T", "F"), packs.len()).is_none());
    assert!(
        Settings::parse_from_lines(&vec!["0".to_string(), "T".to_string()], packs.len()).is_none()
    );
}

#[test]
fn room_lifecycle_against_two_packs() {
    let packs = packs();
    let mut rng = rand::thread_rng();
    let mut out: Vec<Directed> = Vec::new();
    let mut defer = Vec::new();
    let mut room = Room::new("key12".to_string(), &packs, 7, "Ann".to_string(), &mut out);
    room.join(&packs, 8, "Ben".to_string(), &mut out);
    assert_eq!(
        room.get_user_list(),
        vec![(7, "Ann".to_string()), (8, "Ben".to_string())]
    );
    // enable both packs: five words in the flat space, window capacity two
    let lines = vec!["0,1".to_string(), "F".to_string(), "F".to_string()];
    room.start(7, &lines, &packs, &mut rng, NOW, &mut out, &mut defer);
    assert_eq!(room.num_words, 5);
    assert_eq!(room.max_excluded_words, 2);
    let (pack, word) = match room.state {
        RoomState::Round { pack, word, .. } => (pack, word),
        _ => panic!("start did not begin a round"),
    };
    assert!(pack < 2);
    assert!(word < packs[pack].list_len());
    // the leader learns exactly the word the round carries
    let told: Vec<&Event> = out
        .iter()
        .filter(|d| d.to == 7 && matches!(d.event, Event::NewLeader(..)))
        .map(|d| &d.event)
        .collect();
    match told.last().expect("leader was told the word") {
        Event::NewLeader(_, w, _) => assert_eq!(w, packs[pack].get_word(word)),
        _ => unreachable!(),
    }
    // drain the room: never empty-reported until the last occupant
    assert!(!room.leave(7, &packs, &mut rng, NOW, &mut out, &mut defer));
    assert!(room.leave(8, &packs, &mut rng, NOW, &mut out, &mut defer));
}

#[test]
fn guessing_as_outsider_cannot_win() {
    let packs = packs();
    let mut rng = rand::thread_rng();
    let mut out: Vec<Directed> = Vec::new();
    let mut defer = Vec::new();
    let mut room = Room::new("key12".to_string(), &packs, 7, "Ann".to_string(), &mut out);
    room.join(&packs, 8, "Ben".to_string(), &mut out);
    let lines = vec!["0".to_string(), "F".to_string(), "F".to_string()];
    room.start(7, &lines, &packs, &mut rng, NOW, &mut out, &mut defer);
    let word = match room.state {
        RoomState::Round { word, .. } => word,
        _ => panic!("no round"),
    };
    // a connection that never joined guesses correctly: chat is relayed,
    // but the round keeps running and nobody scores
    out.clear();
    room.handle_guess(99, packs[0].get_word(word).clone(), &packs, &mut out, &mut defer);
    assert!(matches!(room.state, RoomState::Round { .. }));
    assert!(out.iter().all(|d| matches!(d.event, Event::Message(..))));
}
