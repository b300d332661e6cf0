//! The per-room state machine: lobby, round and winner phases, the turn
//! queue, the word-exclusion window, draw history and settings.
//!
//! Every operation returns the events it wants delivered and the callbacks
//! it wants scheduled; nothing here performs I/O.  All methods preserve the
//! room's well-formedness (`wf`) and its agreement with the word packs
//! (`words_ok`).

use vstd::prelude::*;
use vstd::string::*;

use crate::events::{direct, dup_event, Deferred, Directed, Event};
use crate::rng::gen_below;
use crate::text::{all_digits, dec_val, lower_of, normalize, split_on, split_str, trim_of};
use crate::word_pack::{entry_matches, entry_view, WordPack};

verus! {

/// Length of a timed round, in milliseconds.
pub const ROUND_LIMIT_MS: u64 = 120000;

/// Pause between a round's end and the next round, in milliseconds.
pub const WINNER_DELAY_MS: u64 = 5000;

/// Bound on redraws when the random word index keeps hitting the exclusion
/// window; past it the draw reports resource exhaustion.
pub const DRAW_RETRIES: usize = 100;

/// Largest accepted stroke coordinate.
pub const MAX_COORD: u32 = 500;

/// Largest accepted pen size.
pub const MAX_PEN_SIZE: u32 = 10;

/// One drawing stroke.
#[derive(Clone, Copy, PartialEq, Eq, Structural, Debug)]
pub struct Stroke {
    pub x1: u32,
    pub x2: u32,
    pub y1: u32,
    pub y2: u32,
    pub pen: u32,
}

/// One connection joined to the room.
pub struct Occupant {
    pub id: usize,
    pub name: String,
    pub points: usize,
}

/// The phase of a room, with the data belonging to that phase alone.
pub enum RoomState {
    /// Waiting for the host to start.
    Lobby { host: usize },
    /// A round is running: the word is `(pack, word)` in the enabled flat
    /// space, `leader` draws, and `deadline` (ms) is set when timed.
    Round { pack: usize, word: usize, leader: usize, deadline: Option<u64> },
    /// A round just ended; the next one is scheduled.
    Winner {
        winner: Option<usize>,
        points: usize,
        pack: usize,
        word: usize,
        alternate: Option<usize>,
    },
}

/// Game settings, fixed by the host when the game starts.
pub struct Settings {
    pub round_timer: bool,
    pub allow_clear: bool,
    pub enabled_word_packs: Vec<usize>,
}

/// One game instance.
pub struct Room {
    pub state: RoomState,
    pub key: String,
    pub occupants: Vec<Occupant>,
    pub num_words: usize,
    pub settings: Settings,
    pub queue: Vec<usize>,
    pub excluded_words: Vec<usize>,
    pub max_excluded_words: usize,
    pub draw_history: Vec<Stroke>,
    pub round_id: usize,
}

// ---------------------------------------------------------------------
// Model functions
// ---------------------------------------------------------------------

/// Whether `id` is currently joined.
pub open spec fn is_occupant(occs: Seq<Occupant>, id: usize) -> bool {
    exists|i: int| 0 <= i < occs.len() && occs[i].id == id
}

pub open spec fn distinct_ids(occs: Seq<Occupant>) -> bool {
    forall|i: int, j: int| 0 <= i < j < occs.len() ==> occs[i].id != occs[j].id
}

pub open spec fn distinct_names(occs: Seq<Occupant>) -> bool {
    forall|i: int, j: int| 0 <= i < j < occs.len() ==> occs[i].name@ != occs[j].name@
}

/// Whether some occupant already carries this username.
pub open spec fn name_taken(occs: Seq<Occupant>, name: Seq<char>) -> bool {
    exists|i: int| 0 <= i < occs.len() && occs[i].name@ == name
}

/// How often `id` occurs in the queue.
pub open spec fn occurrences(q: Seq<usize>, id: usize) -> nat
    decreases q.len(),
{
    if q.len() == 0 {
        0
    } else {
        occurrences(q.drop_last(), id) + if q.last() == id {
            1nat
        } else {
            0nat
        }
    }
}

/// The queue with every occurrence of `id` removed.
pub open spec fn remove_all(q: Seq<usize>, id: usize) -> Seq<usize>
    decreases q.len(),
{
    if q.len() == 0 {
        Seq::empty()
    } else {
        let rest = remove_all(q.drop_last(), id);
        if q.last() == id {
            rest
        } else {
            rest.push(q.last())
        }
    }
}

pub open spec fn distinct_seq(q: Seq<usize>) -> bool {
    forall|i: int, j: int| 0 <= i < j < q.len() ==> q[i] != q[j]
}

/// The exclusion window holds at least one entry once a word was drawn,
/// even with capacity zero.
pub open spec fn eff_cap(cap: usize) -> int {
    if cap == 0 {
        1
    } else {
        cap as int
    }
}

/// One step of the exclusion window: evict the oldest entry when full,
/// then remember the new draw.
pub open spec fn slide(window: Seq<usize>, cap: int, x: usize) -> Seq<usize> {
    if window.len() >= cap && window.len() > 0 {
        window.drop_first().push(x)
    } else {
        window.push(x)
    }
}

/// A draw is valid when it lies in the flat word space and avoids the
/// current exclusion window.
pub open spec fn valid_draw(pre: Room, flat: usize) -> bool {
    flat < pre.num_words && !pre.excluded_words@.contains(flat)
}

/// All enabled pack indices name existing packs.
pub open spec fn enabled_ok(packs: Seq<WordPack>, enabled: Seq<usize>) -> bool {
    forall|i: int| 0 <= i < enabled.len() ==> (#[trigger] enabled[i]) < packs.len()
}

/// The number of words in the enabled packs, counted in settings order.
pub open spec fn flat_count(packs: Seq<WordPack>, enabled: Seq<usize>) -> int
    decreases enabled.len(),
{
    if enabled.len() == 0 {
        0
    } else {
        packs[enabled[0] as int].list@.len() + flat_count(packs, enabled.drop_first())
    }
}

/// Maps a flat word index back to a (pack, word-in-pack) pair by walking
/// the enabled packs.
pub open spec fn locate(packs: Seq<WordPack>, enabled: Seq<usize>, flat: int) -> (usize, usize)
    decreases enabled.len(),
{
    if enabled.len() == 0 {
        (0, 0)
    } else if flat < packs[enabled[0] as int].list@.len() {
        (enabled[0], flat as usize)
    } else {
        locate(packs, enabled.drop_first(), flat - packs[enabled[0] as int].list@.len())
    }
}

/// The roster as sent with an enter-room event.
pub open spec fn roster_of(occs: Seq<Occupant>) -> Seq<(usize, String)> {
    occs.map_values(|o: Occupant| (o.id, o.name))
}

/// The word-pack catalogue as sent with a settings-data event.
pub open spec fn catalogue_of(packs: Seq<WordPack>) -> Seq<(usize, String, String)> {
    Seq::new(packs.len(), |i: int| (i as usize, packs[i].name, packs[i].description))
}

/// One copy of `ev` for every occupant, in roster order.
pub open spec fn broadcast_to(occs: Seq<Occupant>, ev: Event) -> Seq<Directed> {
    occs.map_values(|o: Occupant| Directed { to: o.id, event: ev })
}

/// The replayed draw history, one event per stroke, in order.
pub open spec fn history_events(to: usize, history: Seq<Stroke>) -> Seq<Directed> {
    history.map_values(
        |s: Stroke| Directed { to, event: Event::Draw(s.x1, s.x2, s.y1, s.y2, s.pen) },
    )
}

/// An enter-room event for `to` carrying this key and roster.
pub open spec fn is_enter_room(
    d: Directed,
    to: usize,
    key: String,
    roster: Seq<(usize, String)>,
) -> bool {
    d.to == to && match d.event {
        Event::EnterRoom(k, r) => k == key && r@ == roster,
        _ => false,
    }
}

/// A settings-data event for `to` carrying the catalogue of `packs`.
pub open spec fn is_settings_data(d: Directed, to: usize, packs: Seq<WordPack>) -> bool {
    d.to == to && match d.event {
        Event::SettingsData(c) => c@ == catalogue_of(packs),
        _ => false,
    }
}

/// `post` begins with `pre` and only appends.
pub open spec fn extends<T>(post: Seq<T>, pre: Seq<T>) -> bool {
    post.len() >= pre.len() && post.take(pre.len() as int) == pre
}

/// What `post` appended after `pre`.
pub open spec fn added<T>(post: Seq<T>, pre: Seq<T>) -> Seq<T> {
    post.skip(pre.len() as int)
}

impl Room {
    /// The turn-rotation duty of the queue: who still owes a turn this pass.
    pub open spec fn queue_counts_ok(self) -> bool {
        match self.state {
            RoomState::Lobby { host } => is_occupant(self.occupants@, host) && forall|i: int|
                0 <= i < self.occupants@.len() ==> occurrences(
                    self.queue@,
                    (#[trigger] self.occupants@[i]).id,
                ) == 1,
            RoomState::Round { leader, .. } => occurrences(self.queue@, leader) == 0 && forall|
                i: int,
            |
                0 <= i < self.occupants@.len() && (#[trigger] self.occupants@[i]).id != leader
                    ==> occurrences(self.queue@, self.occupants@[i].id) == 1,
            RoomState::Winner { .. } => forall|i: int|
                0 <= i < self.occupants@.len() ==> occurrences(
                    self.queue@,
                    (#[trigger] self.occupants@[i]).id,
                ) == 1,
        }
    }

    /// Structural well-formedness: distinct connection ids and usernames,
    /// the queue holding exactly the occupants owing a turn, and a bounded,
    /// repeat-free exclusion window.
    pub open spec fn wf(self) -> bool {
        &&& distinct_ids(self.occupants@)
        &&& distinct_names(self.occupants@)
        &&& self.queue_counts_ok()
        &&& distinct_seq(self.excluded_words@)
        &&& self.excluded_words@.len() <= eff_cap(self.max_excluded_words)
    }

    /// Agreement with the word packs: once words are loaded the settings
    /// name real packs, the flat count and window capacity match them, and
    /// any current word lies in range.
    pub open spec fn words_ok(self, packs: Seq<WordPack>) -> bool {
        &&& self.num_words > 0 ==> {
            &&& enabled_ok(packs, self.settings.enabled_word_packs@)
            &&& flat_count(packs, self.settings.enabled_word_packs@) == self.num_words
            &&& self.max_excluded_words == self.num_words / 2
        }
        &&& (self.state is Round || self.state is Winner) ==> self.num_words > 0
        &&& match self.state {
            RoomState::Lobby { .. } => true,
            RoomState::Round { pack, word, .. } => pack < packs.len() && word
                < packs[pack as int].list@.len(),
            RoomState::Winner { pack, word, alternate, .. } => pack < packs.len() && word
                < packs[pack as int].list@.len() && match alternate {
                Some(a) => a < packs[pack as int].list@[word as int].alternates@.len(),
                None => true,
            },
        }
    }
}

// ---------------------------------------------------------------------
// Small verified helpers
// ---------------------------------------------------------------------

/// Appends one copy of `ev` for every occupant, in roster order.
pub(crate) fn broadcast(out: &mut Vec<Directed>, occupants: &Vec<Occupant>, ev: Event)
    requires
        !(ev is EnterRoom),
        !(ev is SettingsData),
    ensures
        final(out)@ == old(out)@ + broadcast_to(occupants@, ev),
{
    let mut i: usize = 0;
    proof {
        assert(out@ =~= old(out)@ + broadcast_to(occupants@.take(0), ev));
    }
    while i < occupants.len()
        invariant
            0 <= i <= occupants@.len(),
            !(ev is EnterRoom),
            !(ev is SettingsData),
            out@ == old(out)@ + broadcast_to(occupants@.take(i as int), ev),
        decreases occupants@.len() - i,
    {
        let copy = dup_event(&ev);
        direct(out, occupants[i].id, copy);
        proof {
            assert(broadcast_to(occupants@.take(i + 1), ev) =~= broadcast_to(
                occupants@.take(i as int),
                ev,
            ).push(Directed { to: occupants@[i as int].id, event: ev }));
            assert(out@ =~= old(out)@ + broadcast_to(occupants@.take(i + 1), ev));
        }
        i = i + 1;
    }
    proof {
        assert(occupants@.take(occupants@.len() as int) =~= occupants@);
    }
}

pub(crate) fn contains_usize(v: &Vec<usize>, x: usize) -> (r: bool)
    ensures
        r == v@.contains(x),
{
    let mut i: usize = 0;
    while i < v.len()
        invariant
            0 <= i <= v@.len(),
            forall|t: int| 0 <= t < i ==> v@[t] != x,
        decreases v@.len() - i,
    {
        if v[i] == x {
            return true;
        }
        i = i + 1;
    }
    false
}

fn contains_id(occs: &Vec<Occupant>, id: usize) -> (r: bool)
    ensures
        r == is_occupant(occs@, id),
{
    let mut i: usize = 0;
    while i < occs.len()
        invariant
            0 <= i <= occs@.len(),
            forall|t: int| 0 <= t < i ==> occs@[t].id != id,
        decreases occs@.len() - i,
    {
        if occs[i].id == id {
            return true;
        }
        i = i + 1;
    }
    false
}

fn settings_catalogue(word_packs: &Vec<WordPack>) -> (r: Vec<(usize, String, String)>)
    ensures
        r@ == catalogue_of(word_packs@),
{
    let mut r: Vec<(usize, String, String)> = Vec::new();
    let mut i: usize = 0;
    while i < word_packs.len()
        invariant
            0 <= i <= word_packs@.len(),
            r@ =~= catalogue_of(word_packs@).take(i as int),
        decreases word_packs@.len() - i,
    {
        r.push((i, word_packs[i].get_name().clone(), word_packs[i].get_description().clone()));
        proof {
            assert(catalogue_of(word_packs@).take(i + 1) =~= catalogue_of(word_packs@).take(
                i as int,
            ).push(catalogue_of(word_packs@)[i as int]));
        }
        i = i + 1;
    }
    proof {
        assert(catalogue_of(word_packs@).take(word_packs@.len() as int) =~= catalogue_of(
            word_packs@,
        ));
    }
    r
}

/// Appends the word-pack catalogue event for `to`.
pub(crate) fn send_settings_data(out: &mut Vec<Directed>, to: usize, word_packs: &Vec<WordPack>)
    ensures
        final(out)@.len() == old(out)@.len() + 1,
        forall|i: int| 0 <= i < old(out)@.len() ==> final(out)@[i] == old(out)@[i],
        is_settings_data(final(out)@[old(out)@.len() as int], to, word_packs@),
{
    let catalogue = settings_catalogue(word_packs);
    direct(out, to, Event::SettingsData(catalogue));
}

/// Appends the stored draw history for `to`, stroke by stroke, in order.
pub(crate) fn send_draw_history(out: &mut Vec<Directed>, to: usize, history: &Vec<Stroke>)
    ensures
        final(out)@ == old(out)@ + history_events(to, history@),
{
    let mut i: usize = 0;
    proof {
        assert(out@ =~= old(out)@ + history_events(to, history@.take(0)));
    }
    while i < history.len()
        invariant
            0 <= i <= history@.len(),
            out@ == old(out)@ + history_events(to, history@.take(i as int)),
        decreases history@.len() - i,
    {
        let s = history[i];
        direct(out, to, Event::Draw(s.x1, s.x2, s.y1, s.y2, s.pen));
        proof {
            assert(history_events(to, history@.take(i + 1)) =~= history_events(
                to,
                history@.take(i as int),
            ).push(Directed { to, event: Event::Draw(s.x1, s.x2, s.y1, s.y2, s.pen) }));
            assert(out@ =~= old(out)@ + history_events(to, history@.take(i + 1)));
        }
        i = i + 1;
    }
    proof {
        assert(history@.take(history@.len() as int) =~= history@);
    }
}

// ---------------------------------------------------------------------
// Settings parsing
// ---------------------------------------------------------------------

/// A settings flag is on exactly when its line is the single letter `T`.
pub open spec fn is_tee(s: Seq<char>) -> bool {
    s.len() == 1 && s[0] == 'T'
}

fn is_tee_str(s: &String) -> (r: bool)
    ensures
        r == is_tee(s@),
{
    let a = s.as_str();
    a.unicode_len() == 1 && a.get_char(0) == 'T'
}

/// One comma-separated pack index is acceptable when it is a decimal
/// number below the pack count.
pub open spec fn piece_ok(p: Seq<char>, max: int) -> bool {
    p.len() > 0 && all_digits(p) && dec_val(p) < max
}

pub open spec fn pieces_ok(ps: Seq<Seq<char>>, max: int) -> bool {
    forall|i: int| 0 <= i < ps.len() ==> piece_ok(#[trigger] ps[i], max)
}

pub open spec fn piece_vals(ps: Seq<Seq<char>>) -> Seq<usize> {
    ps.map_values(|p: Seq<char>| dec_val(p) as usize)
}

impl Settings {
    /// Parses the three settings lines sent with a start command: the
    /// enabled pack indices (all must be below `max_wordpack_id`), the
    /// round-timer flag and the canvas-clear flag.  Anything else is
    /// refused.
    pub fn parse_from_lines(lines: &Vec<String>, max_wordpack_id: usize) -> (r: Option<Settings>)
        ensures
            ({
                let lv = lines@.map_values(|l: String| l@);
                &&& r is Some <==> (lv.len() == 3 && pieces_ok(
                    split_on(lv[0], ','),
                    max_wordpack_id as int,
                ))
                &&& r matches Some(s) ==> {
                    &&& s.enabled_word_packs@ == piece_vals(split_on(lv[0], ','))
                    &&& s.round_timer == is_tee(lv[1])
                    &&& s.allow_clear == is_tee(lv[2])
                }
            }),
    {
        let ghost lv = lines@.map_values(|l: String| l@);
        if lines.len() != 3 {
            return None;
        }
        let parts = split_str(lines[0].as_str(), ',');
        let ghost ps = split_on(lv[0], ',');
        let mut ids: Vec<usize> = Vec::new();
        let mut i: usize = 0;
        proof {
            assert(parts@.map_values(|p: String| p@) == ps);
            assert(ids@ =~= piece_vals(ps.take(0)));
        }
        while i < parts.len()
            invariant
                0 <= i <= parts@.len(),
                lines@.len() == 3,
                ps == split_on(lines@.map_values(|l: String| l@)[0], ','),
                parts@.map_values(|p: String| p@) == ps,
                forall|t: int| 0 <= t < i ==> piece_ok(#[trigger] ps[t], max_wordpack_id as int),
                ids@ == piece_vals(ps.take(i as int)),
            decreases parts@.len() - i,
        {
            match crate::text::parse_usize(parts[i].as_str()) {
                Some(v) => {
                    if v < max_wordpack_id {
                        ids.push(v);
                        proof {
                            assert(piece_vals(ps.take(i + 1)) =~= piece_vals(
                                ps.take(i as int),
                            ).push(dec_val(ps[i as int]) as usize));
                        }
                    } else {
                        proof {
                            assert(!piece_ok(ps[i as int], max_wordpack_id as int));
                            assert(!pieces_ok(ps, max_wordpack_id as int));
                        }
                        return None;
                    }
                },
                None => {
                    proof {
                        assert(!piece_ok(ps[i as int], max_wordpack_id as int));
                        assert(!pieces_ok(ps, max_wordpack_id as int));
                    }
                    return None;
                },
            }
            i = i + 1;
        }
        proof {
            assert(ps.take(parts@.len() as int) =~= ps);
        }
        let round_timer = is_tee_str(&lines[1]);
        let allow_clear = is_tee_str(&lines[2]);
        Some(Settings { round_timer, allow_clear, enabled_word_packs: ids })
    }
}

// ---------------------------------------------------------------------
// Word selection
// ---------------------------------------------------------------------

fn locate_word(word_packs: &Vec<WordPack>, enabled: &Vec<usize>, flat: usize) -> (r: (usize, usize))
    requires
        enabled_ok(word_packs@, enabled@),
        0 <= flat < flat_count(word_packs@, enabled@),
    ensures
        r == locate(word_packs@, enabled@, flat as int),
        r.0 < word_packs@.len(),
        r.1 < word_packs@[r.0 as int].list@.len(),
{
    let mut i: usize = 0;
    let mut rem: usize = flat;
    proof {
        assert(enabled@.skip(0) =~= enabled@);
    }
    while i < enabled.len()
        invariant
            0 <= i <= enabled@.len(),
            enabled_ok(word_packs@, enabled@),
            rem <= flat,
            rem < flat_count(word_packs@, enabled@.skip(i as int)),
            locate(word_packs@, enabled@, flat as int) == locate(
                word_packs@,
                enabled@.skip(i as int),
                rem as int,
            ),
        decreases enabled@.len() - i,
    {
        let p = enabled[i];
        let len_p = word_packs[p].list_len();
        proof {
            assert(enabled@.skip(i as int)[0] == enabled@[i as int]);
            assert(enabled@.skip(i as int).drop_first() =~= enabled@.skip(i + 1));
        }
        if rem < len_p {
            return (p, rem);
        }
        rem = rem - len_p;
        i = i + 1;
    }
    proof {
        assert(enabled@.skip(enabled@.len() as int) =~= Seq::<usize>::empty());
        assert(false);
    }
    vstd::pervasive::unreached()
}

impl Room {
    /// Draws a word index outside the exclusion window, slides the window,
    /// and maps the index to its (pack, word) pair; the result is the flat
    /// index together with that pair.  Fails only when the bounded redraw
    /// budget is exhausted, leaving the room untouched.
    fn choose_new_word(
        &mut self,
        word_packs: &Vec<WordPack>,
        rng: &mut rand::rngs::ThreadRng,
    ) -> (r: Option<(usize, usize, usize)>)
        requires
            old(self).num_words > 0,
            enabled_ok(word_packs@, old(self).settings.enabled_word_packs@),
            flat_count(word_packs@, old(self).settings.enabled_word_packs@) == old(
                self,
            ).num_words,
            distinct_seq(old(self).excluded_words@),
            old(self).excluded_words@.len() <= eff_cap(old(self).max_excluded_words),
        ensures
            *final(self) == (Room { excluded_words: final(self).excluded_words, ..*old(self) }),
            distinct_seq(final(self).excluded_words@),
            final(self).excluded_words@.len() <= eff_cap(final(self).max_excluded_words),
            r is None ==> *final(self) == *old(self),
            r is None ==> old(self).excluded_words@.len() > 0,
            r matches Some(t) ==> {
                &&& valid_draw(*old(self), t.0)
                &&& final(self).excluded_words@ == slide(
                    old(self).excluded_words@,
                    old(self).max_excluded_words as int,
                    t.0,
                )
                &&& (t.1, t.2) == locate(
                    word_packs@,
                    old(self).settings.enabled_word_packs@,
                    t.0 as int,
                )
                &&& t.1 < word_packs@.len()
                &&& t.2 < word_packs@[t.1 as int].list@.len()
            },
    {
        let mut tries: usize = 0;
        while tries < DRAW_RETRIES
            invariant
                *self == *old(self),
                old(self).num_words > 0,
                enabled_ok(word_packs@, old(self).settings.enabled_word_packs@),
                flat_count(word_packs@, old(self).settings.enabled_word_packs@) == old(
                    self,
                ).num_words,
                distinct_seq(old(self).excluded_words@),
                old(self).excluded_words@.len() <= eff_cap(old(self).max_excluded_words),
                tries > 0 ==> old(self).excluded_words@.len() > 0,
            decreases DRAW_RETRIES - tries,
        {
            let flat = gen_below(rng, self.num_words);
            if !contains_usize(&self.excluded_words, flat) {
                let ghost pre_window = self.excluded_words@;
                if self.excluded_words.len() >= self.max_excluded_words
                    && self.excluded_words.len() > 0 {
                    self.excluded_words.remove(0);
                    proof {
                        assert(self.excluded_words@ =~= pre_window.drop_first());
                    }
                }
                self.excluded_words.push(flat);
                proof {
                    assert(self.excluded_words@ == slide(
                        pre_window,
                        old(self).max_excluded_words as int,
                        flat,
                    ));
                    let w = self.excluded_words@;
                    assert forall|a: int, b: int| 0 <= a < b < w.len() implies w[a] != w[b] by {
                        if pre_window.len() >= old(self).max_excluded_words && pre_window.len()
                            > 0 {
                            if b < w.len() - 1 {
                                assert(w[a] == pre_window[a + 1] && w[b] == pre_window[b + 1]);
                            } else {
                                assert(pre_window.contains(pre_window[a + 1]));
                            }
                        } else {
                            if b < w.len() - 1 {
                            } else {
                                assert(pre_window.contains(pre_window[a]));
                            }
                        }
                    }
                }
                let pw = locate_word(word_packs, &self.settings.enabled_word_packs, flat);
                proof {
                    assert(valid_draw(*old(self), flat));
                    assert(self.excluded_words@ == slide(
                        old(self).excluded_words@,
                        old(self).max_excluded_words as int,
                        flat,
                    ));
                }
                return Some((flat, pw.0, pw.1));
            }
            tries = tries + 1;
        }
        None
    }
}

} // verus!

verus! {

// ---------------------------------------------------------------------
// Queue lemmas
// ---------------------------------------------------------------------

pub proof fn lemma_occ_push(q: Seq<usize>, y: usize, x: usize)
    ensures
        occurrences(q.push(y), x) == occurrences(q, x) + if y == x {
            1nat
        } else {
            0nat
        },
{
    assert(q.push(y).drop_last() =~= q);
}

pub proof fn lemma_occ_split(q: Seq<usize>, k: int, x: usize)
    requires
        0 <= k <= q.len(),
    ensures
        occurrences(q, x) == occurrences(q.take(k), x) + occurrences(q.skip(k), x),
    decreases q.len() - k,
{
    if k == q.len() {
        assert(q.take(k) =~= q);
        assert(q.skip(k) =~= Seq::<usize>::empty());
    } else {
        lemma_occ_split(q.drop_last(), k, x);
        assert(q.drop_last().take(k) =~= q.take(k));
        assert(q.drop_last().skip(k) =~= q.skip(k).drop_last());
        assert(q.skip(k).last() == q.last());
    }
}

pub proof fn lemma_occ_zero(q: Seq<usize>, x: usize)
    requires
        forall|t: int| 0 <= t < q.len() ==> q[t] != x,
    ensures
        occurrences(q, x) == 0,
    decreases q.len(),
{
    if q.len() > 0 {
        lemma_occ_zero(q.drop_last(), x);
    }
}

pub proof fn lemma_occ_contains(q: Seq<usize>, x: usize)
    ensures
        (occurrences(q, x) > 0) <==> q.contains(x),
    decreases q.len(),
{
    if q.len() > 0 {
        lemma_occ_contains(q.drop_last(), x);
        if q.last() == x {
            assert(q[q.len() - 1] == x);
        } else {
            if q.drop_last().contains(x) {
                let t = choose|t: int| 0 <= t < q.drop_last().len() && q.drop_last()[t] == x;
                assert(q[t] == x);
            }
            if q.contains(x) {
                let t = choose|t: int| 0 <= t < q.len() && q[t] == x;
                assert(q.drop_last()[t] == x);
            }
        }
    }
}

pub proof fn lemma_remove_all_occ(q: Seq<usize>, id: usize, x: usize)
    ensures
        occurrences(remove_all(q, id), x) == if x == id {
            0nat
        } else {
            occurrences(q, x)
        },
    decreases q.len(),
{
    if q.len() > 0 {
        lemma_remove_all_occ(q.drop_last(), id, x);
        if q.last() != id {
            lemma_occ_push(remove_all(q.drop_last(), id), q.last(), x);
        }
    }
}

pub(crate) fn remove_all_exec(q: &Vec<usize>, id: usize) -> (r: Vec<usize>)
    ensures
        r@ == remove_all(q@, id),
{
    let mut r: Vec<usize> = Vec::new();
    let mut i: usize = 0;
    proof {
        assert(q@.take(0) =~= Seq::<usize>::empty());
    }
    while i < q.len()
        invariant
            0 <= i <= q@.len(),
            r@ == remove_all(q@.take(i as int), id),
        decreases q@.len() - i,
    {
        proof {
            assert(q@.take(i + 1).drop_last() =~= q@.take(i as int));
        }
        if q[i] != id {
            r.push(q[i]);
        }
        i = i + 1;
    }
    proof {
        assert(q@.take(q@.len() as int) =~= q@);
    }
    r
}

fn name_taken_exec(occs: &Vec<Occupant>, name: &String) -> (r: bool)
    ensures
        r == name_taken(occs@, name@),
{
    let mut i: usize = 0;
    while i < occs.len()
        invariant
            0 <= i <= occs@.len(),
            forall|t: int| 0 <= t < i ==> occs@[t].name@ != name@,
        decreases occs@.len() - i,
    {
        if occs[i].name == *name {
            return true;
        }
        i = i + 1;
    }
    false
}

impl Room {
    /// The roster in join order: (connection id, username) per occupant.
    pub fn get_user_list(&self) -> (r: Vec<(usize, String)>)
        ensures
            r@ == roster_of(self.occupants@),
    {
        let mut r: Vec<(usize, String)> = Vec::new();
        let mut i: usize = 0;
        while i < self.occupants.len()
            invariant
                0 <= i <= self.occupants@.len(),
                r@ =~= roster_of(self.occupants@).take(i as int),
            decreases self.occupants@.len() - i,
        {
            let o = &self.occupants[i];
            r.push((o.id, o.name.clone()));
            proof {
                assert(roster_of(self.occupants@).take(i + 1) =~= roster_of(
                    self.occupants@,
                ).take(i as int).push((self.occupants@[i as int].id, self.occupants@[i as int].name)));
            }
            i = i + 1;
        }
        proof {
            assert(roster_of(self.occupants@).take(self.occupants@.len() as int) =~= roster_of(
                self.occupants@,
            ));
        }
        r
    }

    /// A fresh room in the lobby phase, with its creator as host and sole
    /// occupant; the creator is told the room, the lobby host and the
    /// word-pack catalogue.
    pub fn new(
        key: String,
        word_packs: &Vec<WordPack>,
        session_id: usize,
        username: String,
        out: &mut Vec<Directed>,
    ) -> (r: Room)
        ensures
            r.state == (RoomState::Lobby { host: session_id }),
            r.key == key,
            r.occupants@ == seq![Occupant { id: session_id, name: username, points: 0 }],
            r.queue@ == seq![session_id],
            r.excluded_words@ == Seq::<usize>::empty(),
            r.draw_history@ == Seq::<Stroke>::empty(),
            r.max_excluded_words == 0,
            r.num_words == 0,
            r.round_id == 0,
            r.settings.round_timer == false,
            r.settings.allow_clear == false,
            r.settings.enabled_word_packs@ == Seq::<usize>::empty(),
            r.wf(),
            r.words_ok(word_packs@),
            final(out)@.len() == old(out)@.len() + 3,
            final(out)@.take(old(out)@.len() as int) == old(out)@,
            is_enter_room(
                final(out)@[old(out)@.len() as int],
                session_id,
                key,
                seq![(session_id, username)],
            ),
            final(out)@[old(out)@.len() as int + 1] == (Directed {
                to: session_id,
                event: Event::EnterLobby(session_id),
            }),
            is_settings_data(final(out)@[old(out)@.len() as int + 2], session_id, word_packs@),
    {
        let occupant = Occupant { id: session_id, name: username.clone(), points: 0 };
        let mut occupants: Vec<Occupant> = Vec::new();
        occupants.push(occupant);
        let mut queue: Vec<usize> = Vec::new();
        queue.push(session_id);
        let mut roster: Vec<(usize, String)> = Vec::new();
        roster.push((session_id, username.clone()));
        proof {
            assert(roster@ =~= seq![(session_id, username)]);
        }
        let room = Room {
            state: RoomState::Lobby { host: session_id },
            key: key.clone(),
            occupants,
            max_excluded_words: 0,
            num_words: 0,
            settings: Settings {
                round_timer: false,
                allow_clear: false,
                enabled_word_packs: Vec::new(),
            },
            queue,
            excluded_words: Vec::new(),
            draw_history: Vec::new(),
            round_id: 0,
        };
        direct(out, session_id, Event::EnterRoom(key, roster));
        direct(out, session_id, Event::EnterLobby(session_id));
        send_settings_data(out, session_id, word_packs);
        proof {
            assert(room.occupants@ =~= seq![Occupant { id: session_id, name: username, points: 0 }]);
            assert(room.queue@ =~= Seq::<usize>::empty().push(session_id));
            assert(room.queue@ =~= seq![session_id]);
            lemma_occ_push(Seq::<usize>::empty(), session_id, session_id);
            assert(occurrences(room.queue@, session_id) == 1);
            assert(room.occupants@[0].id == session_id);
            assert(is_occupant(room.occupants@, session_id));
            assert forall|i: int| 0 <= i < room.occupants@.len() implies occurrences(
                room.queue@,
                (#[trigger] room.occupants@[i]).id,
            ) == 1 by {
                assert(room.occupants@[i].id == session_id);
            }
            assert(out@.take(old(out)@.len() as int) =~= old(out)@);
        }
        room
    }
}

// ---------------------------------------------------------------------
// Round transitions
// ---------------------------------------------------------------------

/// Every occupant owes exactly one turn.
pub open spec fn rotation_ready(r: Room) -> bool {
    forall|i: int| 0 <= i < r.occupants@.len() ==> occurrences(
        r.queue@,
        (#[trigger] r.occupants@[i]).id,
    ) == 1
}

/// Nothing happened: the room, events and deferred work are untouched.
pub open spec fn no_effect(pre: Room, post: Room, ev: Seq<Directed>, df: Seq<Deferred>) -> bool {
    post == pre && ev == Seq::<Directed>::empty() && df == Seq::<Deferred>::empty()
}

/// The position of the first queue entry still present in the room, or -1
/// when every entry is stale.
pub open spec fn first_live(q: Seq<usize>, occs: Seq<Occupant>) -> int
    decreases q.len(),
{
    if q.len() == 0 {
        -1
    } else if is_occupant(occs, q[0]) {
        0
    } else {
        let r = first_live(q.drop_first(), occs);
        if r == -1 {
            -1
        } else {
            r + 1
        }
    }
}

pub proof fn lemma_first_live_at(q: Seq<usize>, occs: Seq<Occupant>, j: int)
    requires
        0 <= j < q.len(),
        is_occupant(occs, q[j]),
        forall|t: int| 0 <= t < j ==> !is_occupant(occs, q[t]),
    ensures
        first_live(q, occs) == j,
    decreases j,
{
    if j > 0 {
        assert(q.drop_first()[j - 1] == q[j as int]);
        assert(forall|t: int| 0 <= t < j - 1 ==> q.drop_first()[t] == q[t + 1]);
        lemma_first_live_at(q.drop_first(), occs, j - 1);
    }
}

/// The round-start notifications, one per occupant in roster order: the
/// leader gets the private word, everyone else the leader's id.
pub open spec fn new_round_events(
    occs: Seq<Occupant>,
    leader: usize,
    deadline: Option<u64>,
    allow_clear: bool,
    word: String,
) -> Seq<Directed> {
    occs.map_values(
        |o: Occupant|
            Directed {
                to: o.id,
                event: if o.id == leader {
                    Event::NewLeader(allow_clear, word, deadline)
                } else {
                    Event::NewRound(leader, deadline)
                },
            },
    )
}

/// What one round start does: nothing before words are loaded or when the
/// round counter is spent; otherwise the counter advances and either the
/// draw budget was exhausted (rare, and possible only once the exclusion
/// window holds entries — with an empty window the first draw always
/// lands, so a round is owed) or a fresh word is drawn, the first
/// still-present queue entry leads, stale entries ahead of it are dropped,
/// the history clears, everyone is notified, and a timeout is scheduled
/// when the round timer is on.
pub open spec fn new_round_rel(
    pre: Room,
    post: Room,
    ev: Seq<Directed>,
    df: Seq<Deferred>,
    packs: Seq<WordPack>,
    now_ms: u64,
) -> bool {
    if pre.num_words == 0 || pre.round_id == usize::MAX {
        no_effect(pre, post, ev, df)
    } else {
        let rid = (pre.round_id + 1) as usize;
        ||| (pre.excluded_words@.len() > 0 && post == (Room { round_id: rid, ..pre }) && ev
            == Seq::<Directed>::empty() && df == Seq::<Deferred>::empty())
        ||| exists|flat: usize|
            {
                let pw = locate(packs, pre.settings.enabled_word_packs@, flat as int);
                let k = first_live(pre.queue@, pre.occupants@);
                let leader = pre.queue@[k];
                let deadline = if pre.settings.round_timer {
                    Some((now_ms + ROUND_LIMIT_MS) as u64)
                } else {
                    None::<u64>
                };
                &&& #[trigger] valid_draw(pre, flat)
                &&& 0 <= k < pre.queue@.len()
                &&& is_occupant(pre.occupants@, leader)
                &&& post == (Room {
                    state: RoomState::Round { pack: pw.0, word: pw.1, leader, deadline },
                    round_id: rid,
                    excluded_words: post.excluded_words,
                    draw_history: post.draw_history,
                    queue: post.queue,
                    ..pre
                })
                &&& post.excluded_words@ == slide(
                    pre.excluded_words@,
                    pre.max_excluded_words as int,
                    flat,
                )
                &&& post.draw_history@ == Seq::<Stroke>::empty()
                &&& post.queue@ == pre.queue@.skip(k + 1)
                &&& ev == new_round_events(
                    pre.occupants@,
                    leader,
                    deadline,
                    pre.settings.allow_clear,
                    packs[pw.0 as int].list@[pw.1 as int].word,
                )
                &&& df == if pre.settings.round_timer {
                    seq![
                        Deferred::RoundTimeout { key: pre.key, round_id: rid, delay_ms: ROUND_LIMIT_MS },
                    ]
                } else {
                    Seq::<Deferred>::empty()
                }
            }
    }
}

fn send_round_events(
    out: &mut Vec<Directed>,
    occupants: &Vec<Occupant>,
    leader: usize,
    deadline: Option<u64>,
    allow_clear: bool,
    word: String,
)
    ensures
        final(out)@ == old(out)@ + new_round_events(occupants@, leader, deadline, allow_clear, word),
{
    let mut i: usize = 0;
    proof {
        assert(out@ =~= old(out)@ + new_round_events(
            occupants@.take(0),
            leader,
            deadline,
            allow_clear,
            word,
        ));
    }
    while i < occupants.len()
        invariant
            0 <= i <= occupants@.len(),
            out@ == old(out)@ + new_round_events(
                occupants@.take(i as int),
                leader,
                deadline,
                allow_clear,
                word,
            ),
        decreases occupants@.len() - i,
    {
        let oid = occupants[i].id;
        if oid != leader {
            direct(out, oid, Event::NewRound(leader, deadline));
        } else {
            direct(out, oid, Event::NewLeader(allow_clear, word.clone(), deadline));
        }
        proof {
            assert(new_round_events(occupants@.take(i + 1), leader, deadline, allow_clear, word)
                =~= new_round_events(
                occupants@.take(i as int),
                leader,
                deadline,
                allow_clear,
                word,
            ).push(
                Directed {
                    to: oid,
                    event: if oid == leader {
                        Event::NewLeader(allow_clear, word, deadline)
                    } else {
                        Event::NewRound(leader, deadline)
                    },
                },
            ));
            assert(out@ =~= old(out)@ + new_round_events(
                occupants@.take(i + 1),
                leader,
                deadline,
                allow_clear,
                word,
            ));
        }
        i = i + 1;
    }
    proof {
        assert(occupants@.take(occupants@.len() as int) =~= occupants@);
    }
}

impl Room {
    /// Starts the next round: advances the round counter, draws a fresh
    /// word, hands leadership to the first queue entry still present, and
    /// notifies everyone.
    pub fn new_round(
        &mut self,
        word_packs: &Vec<WordPack>,
        rng: &mut rand::rngs::ThreadRng,
        now_ms: u64,
        out: &mut Vec<Directed>,
        defer: &mut Vec<Deferred>,
    )
        requires
            old(self).wf(),
            old(self).words_ok(word_packs@),
            rotation_ready(*old(self)),
            old(self).occupants@.len() > 0,
            now_ms <= u64::MAX - ROUND_LIMIT_MS,
        ensures
            final(self).wf(),
            final(self).words_ok(word_packs@),
            final(self).occupants@ == old(self).occupants@,
            final(self).key == old(self).key,
            extends(final(out)@, old(out)@),
            extends(final(defer)@, old(defer)@),
            new_round_rel(
                *old(self),
                *final(self),
                added(final(out)@, old(out)@),
                added(final(defer)@, old(defer)@),
                word_packs@,
                now_ms,
            ),
    {
        if self.num_words == 0 || self.round_id == usize::MAX {
            proof {
                assert(out@.take(old(out)@.len() as int) =~= out@);
                assert(defer@.take(old(defer)@.len() as int) =~= defer@);
                assert(added(out@, old(out)@) =~= Seq::<Directed>::empty());
                assert(added(defer@, old(defer)@) =~= Seq::<Deferred>::empty());
            }
            return ;
        }
        self.round_id = self.round_id + 1;
        let drawn = self.choose_new_word(word_packs, rng);
        let (flat, pack, word) = match drawn {
            None => {
                proof {
                    assert(*self == (Room { round_id: self.round_id, ..*old(self) }));
                    assert(out@.take(old(out)@.len() as int) =~= out@);
                    assert(defer@.take(old(defer)@.len() as int) =~= defer@);
                    assert(added(out@, old(out)@) =~= Seq::<Directed>::empty());
                    assert(added(defer@, old(defer)@) =~= Seq::<Deferred>::empty());
                }
                return ;
            },
            Some(t) => t,
        };
        self.draw_history = Vec::new();
        let ghost q0 = self.queue@;
        let ghost pre = *old(self);
        let n0: usize = self.queue.len();
        let mut j: usize = 0;
        proof {
            assert(q0.skip(0) =~= q0);
        }
        loop
            invariant
                n0 == q0.len(),
                0 <= j <= q0.len(),
                pre == *old(self),
                pre.wf(),
                pre.words_ok(word_packs@),
                rotation_ready(pre),
                pre.occupants@.len() > 0,
                pre.num_words > 0,
                pre.round_id < usize::MAX,
                now_ms <= u64::MAX - ROUND_LIMIT_MS,
                q0 == pre.queue@,
                self.queue@ == q0.skip(j as int),
                forall|t: int| 0 <= t < j ==> !is_occupant(pre.occupants@, q0[t]),
                *self == (Room {
                    round_id: self.round_id,
                    excluded_words: self.excluded_words,
                    draw_history: self.draw_history,
                    queue: self.queue,
                    ..pre
                }),
                self.round_id == pre.round_id + 1,
                valid_draw(pre, flat),
                self.excluded_words@ == slide(
                    pre.excluded_words@,
                    pre.max_excluded_words as int,
                    flat,
                ),
                distinct_seq(self.excluded_words@),
                self.excluded_words@.len() <= eff_cap(self.max_excluded_words),
                self.draw_history@ == Seq::<Stroke>::empty(),
                (pack, word) == locate(word_packs@, pre.settings.enabled_word_packs@, flat as int),
                pack < word_packs@.len(),
                word < word_packs@[pack as int].list@.len(),
                out@ == old(out)@,
                defer@ == old(defer)@,
            decreases q0.len() - j,
        {
            if self.queue.len() == 0 {
                proof {
                    assert(j == q0.len());
                    let o = pre.occupants@[0];
                    assert(is_occupant(pre.occupants@, o.id));
                    assert(occurrences(q0, o.id) == 1);
                    lemma_occ_contains(q0, o.id);
                    let t = choose|t: int| 0 <= t < q0.len() && q0[t] == o.id;
                    assert(!is_occupant(pre.occupants@, q0[t]));
                    assert(false);
                }
                return ;
            }
            let head = self.queue.remove(0);
            proof {
                assert(q0.skip(j as int)[0] == q0[j as int]);
                assert(q0.skip(j as int).remove(0) =~= q0.skip(j + 1));
            }
            if contains_id(&self.occupants, head) {
                let leader = head;
                let deadline: Option<u64> = if self.settings.round_timer {
                    Some(now_ms + ROUND_LIMIT_MS)
                } else {
                    None
                };
                self.state = RoomState::Round { pack, word, leader, deadline };
                let word_string = word_packs[pack].get_word(word).clone();
                send_round_events(
                    out,
                    &self.occupants,
                    leader,
                    deadline,
                    self.settings.allow_clear,
                    word_string,
                );
                if self.settings.round_timer {
                    defer.push(
                        Deferred::RoundTimeout {
                            key: self.key.clone(),
                            round_id: self.round_id,
                            delay_ms: ROUND_LIMIT_MS,
                        },
                    );
                }
                proof {
                    let k = j as int;
                    lemma_first_live_at(q0, pre.occupants@, k);
                    assert(valid_draw(pre, flat));
                    assert(out@.take(old(out)@.len() as int) =~= old(out)@);
                    assert(added(out@, old(out)@) =~= new_round_events(
                        pre.occupants@,
                        leader,
                        deadline,
                        pre.settings.allow_clear,
                        word_packs@[pack as int].list@[word as int].word,
                    ));
                    assert(defer@.take(old(defer)@.len() as int) =~= old(defer)@);
                    if pre.settings.round_timer {
                        assert(added(defer@, old(defer)@) =~= seq![
                            Deferred::RoundTimeout {
                                key: pre.key,
                                round_id: self.round_id,
                                delay_ms: ROUND_LIMIT_MS,
                            },
                        ]);
                    } else {
                        assert(added(defer@, old(defer)@) =~= Seq::<Deferred>::empty());
                    }
                    // queue duties after the pop: the leader is out, every
                    // other occupant still owes its single turn
                    assert forall|i: int|
                        0 <= i < self.occupants@.len() implies occurrences(
                        self.queue@,
                        (#[trigger] self.occupants@[i]).id,
                    ) == (if self.occupants@[i].id == leader {
                        0nat
                    } else {
                        1nat
                    }) by {
                        let oid = pre.occupants@[i].id;
                        assert(is_occupant(pre.occupants@, oid));
                        assert(occurrences(q0, oid) == 1);
                        lemma_occ_split(q0, k + 1, oid);
                        assert(q0.take(k + 1).drop_last() =~= q0.take(k));
                        if oid == leader {
                            lemma_occ_zero(q0.take(k), oid);
                            assert(occurrences(q0.take(k + 1), oid) == 1);
                        } else {
                            lemma_occ_zero(q0.take(k), oid);
                            assert(occurrences(q0.take(k + 1), oid) == 0);
                        }
                    }
                    assert(new_round_rel(
                        pre,
                        *self,
                        added(out@, old(out)@),
                        added(defer@, old(defer)@),
                        word_packs@,
                        now_ms,
                    ));
                }
                return ;
            }
            j = j + 1;
        }
    }
}

} // verus!

verus! {

// ---------------------------------------------------------------------
// Ending a round
// ---------------------------------------------------------------------

/// The alternate spelling resolved against the packs, if one matched.
pub open spec fn alt_string(
    packs: Seq<WordPack>,
    pack: usize,
    word: usize,
    alternate: Option<usize>,
) -> Option<String> {
    match alternate {
        Some(a) => Some(packs[pack as int].list@[word as int].alternates@[a as int]),
        None => None,
    }
}

/// What ending a round does: outside the round phase nothing at all;
/// otherwise the room shows the result, re-queues the departing leader,
/// broadcasts the reveal and schedules the next round.
pub open spec fn end_round_rel(
    pre: Room,
    post: Room,
    ev: Seq<Directed>,
    df: Seq<Deferred>,
    packs: Seq<WordPack>,
    winner: Option<usize>,
    points: usize,
    alternate: Option<usize>,
) -> bool {
    match pre.state {
        RoomState::Round { pack, word, leader, .. } => {
            &&& post == (Room {
                state: RoomState::Winner { winner, points, pack, word, alternate },
                queue: post.queue,
                ..pre
            })
            &&& post.queue@ == pre.queue@.push(leader)
            &&& ev == broadcast_to(
                pre.occupants@,
                Event::Winner(
                    winner,
                    points,
                    packs[pack as int].list@[word as int].word,
                    alt_string(packs, pack, word, alternate),
                ),
            )
            &&& df == seq![Deferred::NextRound { key: pre.key, delay_ms: WINNER_DELAY_MS }]
        },
        _ => no_effect(pre, post, ev, df),
    }
}

impl Room {
    /// Ends the current round, revealing the word and the winner if any;
    /// called with no winner on a round timeout.  Outside the round phase
    /// this is a defensive no-op.
    pub fn end_round(
        &mut self,
        winner: Option<usize>,
        points: usize,
        alternate: Option<usize>,
        word_packs: &Vec<WordPack>,
        out: &mut Vec<Directed>,
        defer: &mut Vec<Deferred>,
    )
        requires
            old(self).wf(),
            old(self).words_ok(word_packs@),
            match old(self).state {
                RoomState::Round { pack, word, .. } => match alternate {
                    Some(a) => a < word_packs@[pack as int].list@[word as int].alternates@.len(),
                    None => true,
                },
                _ => true,
            },
        ensures
            final(self).wf(),
            final(self).words_ok(word_packs@),
            final(self).occupants@ == old(self).occupants@,
            final(self).key == old(self).key,
            extends(final(out)@, old(out)@),
            extends(final(defer)@, old(defer)@),
            end_round_rel(
                *old(self),
                *final(self),
                added(final(out)@, old(out)@),
                added(final(defer)@, old(defer)@),
                word_packs@,
                winner,
                points,
                alternate,
            ),
    {
        if let RoomState::Round { pack, word, leader, .. } = self.state {
            let word_string = word_packs[pack].get_word(word).clone();
            let alt: Option<String> = match alternate {
                Some(a) => Some(word_packs[pack].get_alternate(word, a).clone()),
                None => None,
            };
            broadcast(out, &self.occupants, Event::Winner(winner, points, word_string, alt));
            self.state = RoomState::Winner { winner, points, pack, word, alternate };
            let ghost q1 = self.queue@;
            self.queue.push(leader);
            defer.push(Deferred::NextRound { key: self.key.clone(), delay_ms: WINNER_DELAY_MS });
            proof {
                assert(out@.take(old(out)@.len() as int) =~= old(out)@);
                assert(defer@.take(old(defer)@.len() as int) =~= old(defer)@);
                assert(added(out@, old(out)@) =~= broadcast_to(
                    old(self).occupants@,
                    Event::Winner(
                        winner,
                        points,
                        word_packs@[pack as int].list@[word as int].word,
                        alt_string(word_packs@, pack, word, alternate),
                    ),
                ));
                assert(added(defer@, old(defer)@) =~= seq![
                    Deferred::NextRound { key: old(self).key, delay_ms: WINNER_DELAY_MS },
                ]);
                assert forall|i: int| 0 <= i < self.occupants@.len() implies occurrences(
                    self.queue@,
                    (#[trigger] self.occupants@[i]).id,
                ) == 1 by {
                    lemma_occ_push(q1, leader, self.occupants@[i].id);
                }
            }
        } else {
            proof {
                assert(out@.take(old(out)@.len() as int) =~= out@);
                assert(defer@.take(old(defer)@.len() as int) =~= defer@);
                assert(added(out@, old(out)@) =~= Seq::<Directed>::empty());
                assert(added(defer@, old(defer)@) =~= Seq::<Deferred>::empty());
            }
        }
    }
}

// ---------------------------------------------------------------------
// Starting the game
// ---------------------------------------------------------------------

pub proof fn lemma_flat_count_nonneg(packs: Seq<WordPack>, enabled: Seq<usize>)
    ensures
        flat_count(packs, enabled) >= 0,
    decreases enabled.len(),
{
    if enabled.len() > 0 {
        lemma_flat_count_nonneg(packs, enabled.drop_first());
    }
}

pub proof fn lemma_flat_count_split(packs: Seq<WordPack>, enabled: Seq<usize>, i: int)
    requires
        0 <= i <= enabled.len(),
    ensures
        flat_count(packs, enabled) == flat_count(packs, enabled.take(i)) + flat_count(
            packs,
            enabled.skip(i),
        ),
    decreases i,
{
    if i == 0 {
        assert(enabled.take(0) =~= Seq::<usize>::empty());
        assert(enabled.skip(0) =~= enabled);
    } else {
        lemma_flat_count_split(packs, enabled.drop_first(), i - 1);
        assert(enabled.drop_first().take(i - 1) =~= enabled.take(i).drop_first());
        assert(enabled.drop_first().skip(i - 1) =~= enabled.skip(i));
        assert(enabled.take(i)[0] == enabled[0]);
    }
}

/// What a start command does: only the host, only in the lobby, and only
/// with three well-formed settings lines naming at least one word, may
/// move the room into its first round; every other start attempt leaves
/// the room untouched and silent.
pub open spec fn start_rel(
    pre: Room,
    post: Room,
    ev: Seq<Directed>,
    df: Seq<Deferred>,
    packs: Seq<WordPack>,
    session_id: usize,
    lines: Seq<Seq<char>>,
    now_ms: u64,
) -> bool {
    match pre.state {
        RoomState::Lobby { host } => {
            if host != session_id {
                no_effect(pre, post, ev, df)
            } else if !(lines.len() == 3 && pieces_ok(split_on(lines[0], ','), packs.len() as int)) {
                no_effect(pre, post, ev, df)
            } else {
                let enabled = piece_vals(split_on(lines[0], ','));
                let nw = flat_count(packs, enabled);
                if nw == 0 || nw > usize::MAX {
                    no_effect(pre, post, ev, df)
                } else {
                    exists|mid: Room|
                        {
                            &&& #[trigger] mid.wf()
                            &&& mid == (Room {
                                num_words: nw as usize,
                                max_excluded_words: (nw / 2) as usize,
                                settings: mid.settings,
                                excluded_words: mid.excluded_words,
                                ..pre
                            })
                            &&& mid.excluded_words@ == Seq::<usize>::empty()
                            &&& mid.settings.enabled_word_packs@ == enabled
                            &&& mid.settings.round_timer == is_tee(lines[1])
                            &&& mid.settings.allow_clear == is_tee(lines[2])
                            &&& new_round_rel(mid, post, ev, df, packs, now_ms)
                        }
                }
            }
        },
        _ => no_effect(pre, post, ev, df),
    }
}

impl Room {
    /// Handles the host's start command: validates the settings lines,
    /// loads the enabled word counts, and begins the first round.
    pub fn start(
        &mut self,
        session_id: usize,
        lines: &Vec<String>,
        word_packs: &Vec<WordPack>,
        rng: &mut rand::rngs::ThreadRng,
        now_ms: u64,
        out: &mut Vec<Directed>,
        defer: &mut Vec<Deferred>,
    )
        requires
            old(self).wf(),
            old(self).words_ok(word_packs@),
            now_ms <= u64::MAX - ROUND_LIMIT_MS,
        ensures
            final(self).wf(),
            final(self).words_ok(word_packs@),
            final(self).occupants@ == old(self).occupants@,
            final(self).key == old(self).key,
            extends(final(out)@, old(out)@),
            extends(final(defer)@, old(defer)@),
            start_rel(
                *old(self),
                *final(self),
                added(final(out)@, old(out)@),
                added(final(defer)@, old(defer)@),
                word_packs@,
                session_id,
                lines@.map_values(|l: String| l@),
                now_ms,
            ),
            ({
                // a valid start owes a round: the host, three well-formed
                // lines, at least one enabled word, and a round counter
                // with headroom leave the lobby for the round phase
                let lv = lines@.map_values(|l: String| l@);
                let host_ok = match old(self).state {
                    RoomState::Lobby { host } => host == session_id,
                    _ => false,
                };
                let w = flat_count(word_packs@, piece_vals(split_on(lv[0], ',')));
                let started = final(self).state is Round;
                (host_ok && lv.len() == 3 && pieces_ok(split_on(lv[0], ','), word_packs@.len() as int)
                    && 0 < w <= usize::MAX as int && old(self).round_id < usize::MAX) ==> started
            }),
    {
        let ghost lv = lines@.map_values(|l: String| l@);
        let is_host: bool = match self.state {
            RoomState::Lobby { host } => host == session_id,
            _ => false,
        };
        if !is_host {
            proof {
                assert(out@.take(old(out)@.len() as int) =~= out@);
                assert(defer@.take(old(defer)@.len() as int) =~= defer@);
                assert(added(out@, old(out)@) =~= Seq::<Directed>::empty());
                assert(added(defer@, old(defer)@) =~= Seq::<Deferred>::empty());
            }
            return ;
        }
        let parsed = Settings::parse_from_lines(lines, word_packs.len());
        let settings = match parsed {
            None => {
                proof {
                    assert(out@.take(old(out)@.len() as int) =~= out@);
                    assert(defer@.take(old(defer)@.len() as int) =~= defer@);
                    assert(added(out@, old(out)@) =~= Seq::<Directed>::empty());
                    assert(added(defer@, old(defer)@) =~= Seq::<Deferred>::empty());
                }
                return ;
            },
            Some(s) => s,
        };
        let ghost enabled = settings.enabled_word_packs@;
        proof {
            assert(enabled == piece_vals(split_on(lv[0], ',')));
            assert forall|i: int| 0 <= i < enabled.len() implies (#[trigger] enabled[i])
                < word_packs@.len() by {
                let ps = split_on(lv[0], ',');
                assert(piece_ok(ps[i], word_packs@.len() as int));
                crate::text::lemma_dec_val_nonneg(ps[i]);
            }
        }
        let mut nw: usize = 0;
        let mut i: usize = 0;
        proof {
            assert(enabled.take(0) =~= Seq::<usize>::empty());
        }
        while i < settings.enabled_word_packs.len()
            invariant
                0 <= i <= enabled.len(),
                enabled == settings.enabled_word_packs@,
                enabled_ok(word_packs@, enabled),
                nw == flat_count(word_packs@, enabled.take(i as int)),
                enabled == piece_vals(split_on(lv[0], ',')),
                lv == lines@.map_values(|l: String| l@),
                lv.len() == 3,
                pieces_ok(split_on(lv[0], ','), word_packs@.len() as int),
                match old(self).state {
                    RoomState::Lobby { host } => host == session_id,
                    _ => false,
                },
                *self == *old(self),
                old(self).wf(),
                old(self).words_ok(word_packs@),
                out@ == old(out)@,
                defer@ == old(defer)@,
            decreases enabled.len() - i,
        {
            let e = settings.enabled_word_packs[i];
            let l = word_packs[e].list_len();
            proof {
                lemma_flat_count_split(word_packs@, enabled.take(i + 1), i as int);
                assert(enabled.take(i + 1).take(i as int) =~= enabled.take(i as int));
                assert(enabled.take(i + 1).skip(i as int) =~= seq![enabled[i as int]]);
                assert(seq![enabled[i as int]].drop_first() =~= Seq::<usize>::empty());
                assert(flat_count(word_packs@, Seq::<usize>::empty()) == 0);
                assert(flat_count(word_packs@, seq![enabled[i as int]]) == word_packs@[e as int].list@.len());
            }
            if nw > usize::MAX - l {
                proof {
                    lemma_flat_count_split(word_packs@, enabled, i + 1);
                    lemma_flat_count_nonneg(word_packs@, enabled.skip(i + 1));
                    assert(flat_count(word_packs@, enabled) > usize::MAX);
                    assert(out@.take(old(out)@.len() as int) =~= out@);
                    assert(defer@.take(old(defer)@.len() as int) =~= defer@);
                    assert(added(out@, old(out)@) =~= Seq::<Directed>::empty());
                    assert(added(defer@, old(defer)@) =~= Seq::<Deferred>::empty());
                }
                return ;
            }
            nw = nw + l;
            i = i + 1;
        }
        proof {
            assert(enabled.take(enabled.len() as int) =~= enabled);
        }
        if nw == 0 {
            proof {
                assert(out@.take(old(out)@.len() as int) =~= out@);
                assert(defer@.take(old(defer)@.len() as int) =~= defer@);
                assert(added(out@, old(out)@) =~= Seq::<Directed>::empty());
                assert(added(defer@, old(defer)@) =~= Seq::<Deferred>::empty());
            }
            return ;
        }
        self.settings = settings;
        self.num_words = nw;
        self.max_excluded_words = nw / 2;
        self.excluded_words = Vec::new();
        let ghost mid = *self;
        proof {
            assert(mid.wf());
            assert(mid.words_ok(word_packs@));
            assert(rotation_ready(mid));
            assert(mid.occupants@.len() > 0) by {
                match mid.state {
                    RoomState::Lobby { host } => {
                        assert(is_occupant(mid.occupants@, host));
                    },
                    _ => {},
                }
            }
        }
        self.new_round(word_packs, rng, now_ms, out, defer);
        proof {
            assert(start_rel(
                *old(self),
                *self,
                added(out@, old(out)@),
                added(defer@, old(defer)@),
                word_packs@,
                session_id,
                lv,
                now_ms,
            ));
            if old(self).round_id < usize::MAX {
                assert(self.state is Round);
            }
        }
    }
}

} // verus!

verus! {

// ---------------------------------------------------------------------
// Joining
// ---------------------------------------------------------------------

/// The catch-up messages a joiner receives after entering, depending on
/// the phase: the lobby host, or the running round plus the draw history,
/// or the last reveal plus the draw history.
pub open spec fn join_tail(pre: Room, id: usize, packs: Seq<WordPack>) -> Seq<Directed> {
    match pre.state {
        RoomState::Lobby { host } => seq![Directed { to: id, event: Event::EnterLobby(host) }],
        RoomState::Round { leader, deadline, .. } => seq![
            Directed { to: id, event: Event::NewRound(leader, deadline) },
        ] + history_events(id, pre.draw_history@),
        RoomState::Winner { winner, points, pack, word, alternate } => seq![
            Directed {
                to: id,
                event: Event::Winner(
                    winner,
                    points,
                    packs[pack as int].list@[word as int].word,
                    alt_string(packs, pack, word, alternate),
                ),
            },
        ] + history_events(id, pre.draw_history@),
    }
}

/// What a join does: a connection already present is ignored, a taken
/// username is refused with an explicit event and no other change, and
/// otherwise the joiner is announced to the room, added to the roster and
/// the turn queue, and caught up on the current phase.
pub open spec fn join_rel(
    pre: Room,
    post: Room,
    ev: Seq<Directed>,
    packs: Seq<WordPack>,
    id: usize,
    username: String,
) -> bool {
    if is_occupant(pre.occupants@, id) {
        post == pre && ev == Seq::<Directed>::empty()
    } else if name_taken(pre.occupants@, username@) {
        post == pre && ev == seq![Directed { to: id, event: Event::UsernameExists(username) }]
    } else {
        let head = broadcast_to(pre.occupants@, Event::UserJoin(id, username));
        let tail = join_tail(pre, id, packs);
        &&& post == (Room { occupants: post.occupants, queue: post.queue, ..pre })
        &&& post.occupants@ == pre.occupants@.push(Occupant { id, name: username, points: 0 })
        &&& post.queue@ == match pre.state {
            RoomState::Round { leader, .. } => if leader == id {
                remove_all(pre.queue@, id)
            } else {
                remove_all(pre.queue@, id).push(id)
            },
            _ => remove_all(pre.queue@, id).push(id),
        }
        &&& ev.len() == head.len() + 1 + tail.len()
        &&& ev.take(head.len() as int) == head
        &&& is_enter_room(ev[head.len() as int], id, pre.key, roster_of(post.occupants@))
        &&& ev.skip(head.len() as int + 1) == tail
    }
}

impl Room {
    /// Adds a connection to the room under a username, refusing duplicates
    /// of either, and catches the joiner up on the current phase.
    #[verifier::rlimit(50)]
    pub fn join(
        &mut self,
        word_packs: &Vec<WordPack>,
        session_id: usize,
        username: String,
        out: &mut Vec<Directed>,
    )
        requires
            old(self).wf(),
            old(self).words_ok(word_packs@),
        ensures
            final(self).wf(),
            final(self).words_ok(word_packs@),
            final(self).key == old(self).key,
            *final(self) == (Room {
                occupants: final(self).occupants,
                queue: final(self).queue,
                ..*old(self)
            }),
            final(self).occupants@.len() >= old(self).occupants@.len(),
            extends(final(out)@, old(out)@),
            join_rel(
                *old(self),
                *final(self),
                added(final(out)@, old(out)@),
                word_packs@,
                session_id,
                username,
            ),
    {
        let ghost pre = *old(self);
        if contains_id(&self.occupants, session_id) {
            proof {
                assert(out@.take(old(out)@.len() as int) =~= out@);
                assert(added(out@, old(out)@) =~= Seq::<Directed>::empty());
            }
            return ;
        }
        if name_taken_exec(&self.occupants, &username) {
            direct(out, session_id, Event::UsernameExists(username));
            proof {
                assert(out@.take(old(out)@.len() as int) =~= old(out)@);
                assert(added(out@, old(out)@) =~= seq![
                    Directed { to: session_id, event: Event::UsernameExists(username) },
                ]);
            }
            return ;
        }
        broadcast(out, &self.occupants, Event::UserJoin(session_id, username.clone()));
        let ghost o1 = out@;
        let newcomer = Occupant { id: session_id, name: username.clone(), points: 0 };
        proof {
            assert(newcomer == (Occupant { id: session_id, name: username, points: 0 }));
        }
        self.occupants.push(newcomer);
        let roster = self.get_user_list();
        direct(out, session_id, Event::EnterRoom(self.key.clone(), roster));
        let ghost o2 = out@;
        match self.state {
            RoomState::Lobby { host } => {
                direct(out, session_id, Event::EnterLobby(host));
            },
            RoomState::Round { leader, deadline, .. } => {
                direct(out, session_id, Event::NewRound(leader, deadline));
                send_draw_history(out, session_id, &self.draw_history);
            },
            RoomState::Winner { winner, points, pack, word, alternate } => {
                let word_string = word_packs[pack].get_word(word).clone();
                let alt: Option<String> = match alternate {
                    Some(a) => Some(word_packs[pack].get_alternate(word, a).clone()),
                    None => None,
                };
                direct(out, session_id, Event::Winner(winner, points, word_string, alt));
                send_draw_history(out, session_id, &self.draw_history);
            },
        }
        proof {
            assert(out@ =~= o2 + join_tail(pre, session_id, word_packs@));
        }
        let filtered = remove_all_exec(&self.queue, session_id);
        self.queue = filtered;
        let push_it: bool = match self.state {
            RoomState::Round { leader, .. } => leader != session_id,
            _ => true,
        };
        if push_it {
            self.queue.push(session_id);
        }
        proof {
            let head = broadcast_to(pre.occupants@, Event::UserJoin(session_id, username));
            let tail = join_tail(pre, session_id, word_packs@);
            let ev = added(out@, old(out)@);
            assert(out@.take(old(out)@.len() as int) =~= old(out)@);
            assert(ev.len() == head.len() + 1 + tail.len());
            assert(ev.take(head.len() as int) =~= head);
            assert(ev[head.len() as int] == o2[o1.len() as int]);
            assert(ev.skip(head.len() as int + 1) =~= tail);
            // well-formedness of the grown room
            assert(self.occupants@ == pre.occupants@.push(
                Occupant { id: session_id, name: username, points: 0 },
            ));
            assert forall|a: int, b: int|
                0 <= a < b < self.occupants@.len() implies self.occupants@[a].id
                != self.occupants@[b].id by {
                if b == self.occupants@.len() - 1 {
                    if self.occupants@[a].id == session_id {
                        assert(pre.occupants@[a].id == session_id);
                        assert(is_occupant(pre.occupants@, session_id));
                    }
                }
            }
            assert forall|a: int, b: int|
                0 <= a < b < self.occupants@.len() implies self.occupants@[a].name@
                != self.occupants@[b].name@ by {
                if b == self.occupants@.len() - 1 {
                    if self.occupants@[a].name@ == username@ {
                        assert(pre.occupants@[a].name@ == username@);
                        assert(name_taken(pre.occupants@, username@));
                    }
                }
            }
            match pre.state {
                RoomState::Lobby { host } => {
                    let wit = choose|t: int|
                        0 <= t < pre.occupants@.len() && pre.occupants@[t].id == host;
                    assert(self.occupants@[wit].id == host);
                    assert(is_occupant(self.occupants@, host));
                },
                _ => {},
            }
            match pre.state {
                RoomState::Round { leader, .. } => {
                    lemma_remove_all_occ(pre.queue@, session_id, leader);
                    if push_it {
                        lemma_occ_push(remove_all(pre.queue@, session_id), session_id, leader);
                    }
                    assert(occurrences(self.queue@, leader) == 0);
                },
                _ => {},
            }
            assert forall|i: int| 0 <= i < self.occupants@.len() implies {
                let oid = (#[trigger] self.occupants@[i]).id;
                occurrences(self.queue@, oid) == match pre.state {
                    RoomState::Round { leader, .. } => if oid == leader {
                        0nat
                    } else {
                        1nat
                    },
                    _ => 1nat,
                }
            } by {
                let oid = self.occupants@[i].id;
                lemma_remove_all_occ(pre.queue@, session_id, oid);
                if push_it {
                    lemma_occ_push(remove_all(pre.queue@, session_id), session_id, oid);
                }
                if i < pre.occupants@.len() {
                    assert(pre.occupants@[i].id == oid);
                    assert(oid != session_id) by {
                        if oid == session_id {
                            assert(is_occupant(pre.occupants@, session_id));
                        }
                    }
                } else {
                    assert(oid == session_id);
                }
            }
        }
    }
}

// ---------------------------------------------------------------------
// Leaving
// ---------------------------------------------------------------------

/// The position of `id` in the roster (meaningful only when present).
pub open spec fn occ_index_of(occs: Seq<Occupant>, id: usize) -> int {
    choose|i: int| 0 <= i < occs.len() && occs[i].id == id
}

fn find_occupant(occs: &Vec<Occupant>, id: usize) -> (r: Option<usize>)
    ensures
        r is Some <==> is_occupant(occs@, id),
        r matches Some(i) ==> i < occs@.len() && occs@[i as int].id == id,
{
    let mut i: usize = 0;
    while i < occs.len()
        invariant
            0 <= i <= occs@.len(),
            forall|t: int| 0 <= t < i ==> occs@[t].id != id,
        decreases occs@.len() - i,
    {
        if occs[i].id == id {
            return Some(i);
        }
        i = i + 1;
    }
    None
}

/// What leaving does: a non-member is ignored; otherwise the leaver is
/// dropped from the roster and told so, the rest learn it, and — when the
/// room is not emptied — a departing lobby host is replaced by the first
/// still-present queue entry (who also gets the catalogue), and a departing
/// round leader forces the next round.
pub open spec fn leave_rel(
    pre: Room,
    post: Room,
    ev: Seq<Directed>,
    df: Seq<Deferred>,
    packs: Seq<WordPack>,
    id: usize,
    now_ms: u64,
) -> bool {
    if !is_occupant(pre.occupants@, id) {
        no_effect(pre, post, ev, df)
    } else {
        let occs1 = pre.occupants@.remove(occ_index_of(pre.occupants@, id));
        let head = seq![Directed { to: id, event: Event::LeaveRoom }] + broadcast_to(
            occs1,
            Event::UserGone(id),
        );
        if occs1.len() == 0 {
            &&& post == (Room { occupants: post.occupants, ..pre })
            &&& post.occupants@ == occs1
            &&& ev == head
            &&& df == Seq::<Deferred>::empty()
        } else {
            match pre.state {
                RoomState::Lobby { host } => if host == id {
                    let k = first_live(pre.queue@, occs1);
                    let h = pre.queue@[k];
                    &&& 0 <= k < pre.queue@.len()
                    &&& is_occupant(occs1, h)
                    &&& post == (Room {
                        state: RoomState::Lobby { host: h },
                        occupants: post.occupants,
                        ..pre
                    })
                    &&& post.occupants@ == occs1
                    &&& ev.len() == head.len() + occs1.len() + 1
                    &&& ev.take(head.len() as int) == head
                    &&& ev.subrange(head.len() as int, head.len() as int + occs1.len() as int)
                        == broadcast_to(occs1, Event::EnterLobby(h))
                    &&& is_settings_data(ev.last(), h, packs)
                    &&& df == Seq::<Deferred>::empty()
                } else {
                    &&& post == (Room { occupants: post.occupants, ..pre })
                    &&& post.occupants@ == occs1
                    &&& ev == head
                    &&& df == Seq::<Deferred>::empty()
                },
                RoomState::Round { leader, .. } => if leader == id {
                    exists|mid: Room|
                        {
                            &&& #[trigger] mid.wf()
                            &&& mid == (Room { occupants: mid.occupants, ..pre })
                            &&& mid.occupants@ == occs1
                            &&& ev.len() >= head.len()
                            &&& ev.take(head.len() as int) == head
                            &&& new_round_rel(mid, post, ev.skip(head.len() as int), df, packs, now_ms)
                        }
                } else {
                    &&& post == (Room { occupants: post.occupants, ..pre })
                    &&& post.occupants@ == occs1
                    &&& ev == head
                    &&& df == Seq::<Deferred>::empty()
                },
                RoomState::Winner { .. } => {
                    &&& post == (Room { occupants: post.occupants, ..pre })
                    &&& post.occupants@ == occs1
                    &&& ev == head
                    &&& df == Seq::<Deferred>::empty()
                },
            }
        }
    }
}

impl Room {
    /// Removes a connection from the room; the result says whether the
    /// room is now empty and should be dropped by the registry.
    #[verifier::rlimit(50)]
    pub fn leave(
        &mut self,
        session_id: usize,
        word_packs: &Vec<WordPack>,
        rng: &mut rand::rngs::ThreadRng,
        now_ms: u64,
        out: &mut Vec<Directed>,
        defer: &mut Vec<Deferred>,
    ) -> (emptied: bool)
        requires
            old(self).wf(),
            old(self).words_ok(word_packs@),
            now_ms <= u64::MAX - ROUND_LIMIT_MS,
        ensures
            !emptied ==> final(self).wf() && final(self).words_ok(word_packs@),
            final(self).key == old(self).key,
            emptied ==> final(self).occupants@.len() == 0,
            emptied <==> (is_occupant(old(self).occupants@, session_id) && old(
                self,
            ).occupants@.len() == 1),
            extends(final(out)@, old(out)@),
            extends(final(defer)@, old(defer)@),
            leave_rel(
                *old(self),
                *final(self),
                added(final(out)@, old(out)@),
                added(final(defer)@, old(defer)@),
                word_packs@,
                session_id,
                now_ms,
            ),
    {
        let ghost pre = *old(self);
        let idx = match find_occupant(&self.occupants, session_id) {
            None => {
                proof {
                    assert(out@.take(old(out)@.len() as int) =~= out@);
                    assert(defer@.take(old(defer)@.len() as int) =~= defer@);
                    assert(added(out@, old(out)@) =~= Seq::<Directed>::empty());
                    assert(added(defer@, old(defer)@) =~= Seq::<Deferred>::empty());
                }
                return false;
            },
            Some(ix) => ix,
        };
        proof {
            let ci = occ_index_of(pre.occupants@, session_id);
            assert(pre.occupants@[ci].id == session_id);
            assert(ci == idx as int);
        }
        self.occupants.remove(idx);
        let ghost occs1 = self.occupants@;
        proof {
            assert(occs1 =~= pre.occupants@.subrange(0, idx as int) + pre.occupants@.subrange(
                idx as int + 1,
                pre.occupants@.len() as int,
            ));
            // the survivors are the old occupants, the leaver excepted
            assert forall|t: int| 0 <= t < occs1.len() implies exists|s: int|
                0 <= s < pre.occupants@.len() && pre.occupants@[s] == (#[trigger] occs1[t]) && s
                    != idx as int by {
                if t < idx as int {
                    assert(pre.occupants@[t] == occs1[t]);
                } else {
                    assert(pre.occupants@[t + 1] == occs1[t]);
                }
            }
            assert(distinct_ids(occs1)) by {
                assert forall|a: int, b: int|
                    0 <= a < b < occs1.len() implies occs1[a].id != occs1[b].id by {
                    if b < idx as int {
                    } else if a < idx as int {
                        assert(occs1[b] == pre.occupants@[b + 1]);
                    } else {
                        assert(occs1[a] == pre.occupants@[a + 1]);
                        assert(occs1[b] == pre.occupants@[b + 1]);
                    }
                }
            }
            assert(distinct_names(occs1)) by {
                assert forall|a: int, b: int|
                    0 <= a < b < occs1.len() implies occs1[a].name@ != occs1[b].name@ by {
                    if b < idx as int {
                    } else if a < idx as int {
                        assert(occs1[b] == pre.occupants@[b + 1]);
                    } else {
                        assert(occs1[a] == pre.occupants@[a + 1]);
                        assert(occs1[b] == pre.occupants@[b + 1]);
                    }
                }
            }
            // no survivor carries the leaver's id
            assert forall|t: int| 0 <= t < occs1.len() implies (#[trigger] occs1[t]).id
                != session_id by {
                if t < idx as int {
                    assert(occs1[t] == pre.occupants@[t]);
                } else {
                    assert(occs1[t] == pre.occupants@[t + 1]);
                }
            }
        }
        direct(out, session_id, Event::LeaveRoom);
        broadcast(out, &self.occupants, Event::UserGone(session_id));
        let ghost head = seq![Directed { to: session_id, event: Event::LeaveRoom }] + broadcast_to(
            occs1,
            Event::UserGone(session_id),
        );
        proof {
            assert(out@.take(old(out)@.len() as int) =~= old(out)@);
            assert(added(out@, old(out)@) =~= head);
        }
        if self.occupants.len() == 0 {
            proof {
                assert(defer@.take(old(defer)@.len() as int) =~= defer@);
                assert(added(defer@, old(defer)@) =~= Seq::<Deferred>::empty());
            }
            return true;
        }
        let is_lobby_host: bool = match self.state {
            RoomState::Lobby { host } => host == session_id,
            _ => false,
        };
        let is_round_leader: bool = match self.state {
            RoomState::Round { leader, .. } => leader == session_id,
            _ => false,
        };
        if is_lobby_host {
            let mut j: usize = 0;
            let mut new_host: usize = 0;
            proof {
                let o = occs1[0];
                assert(is_occupant(pre.occupants@, o.id));
                assert(occurrences(pre.queue@, o.id) == 1);
                lemma_occ_contains(pre.queue@, o.id);
            }
            loop
                invariant_except_break
                    0 <= j <= self.queue@.len(),
                    forall|t: int| 0 <= t < j ==> !is_occupant(self.occupants@, self.queue@[t]),
                    self.occupants@ == occs1,
                    occs1.len() > 0,
                    exists|t: int|
                        0 <= t < self.queue@.len() && self.queue@[t] == (#[trigger] occs1[0]).id,
                ensures
                    0 <= j < self.queue@.len(),
                    new_host == self.queue@[j as int],
                    is_occupant(self.occupants@, new_host),
                    forall|t: int| 0 <= t < j ==> !is_occupant(self.occupants@, self.queue@[t]),
                    self.occupants@ == occs1,
                decreases self.queue@.len() - j,
            {
                if j >= self.queue.len() {
                    proof {
                        let t = choose|t: int|
                            0 <= t < self.queue@.len() && self.queue@[t] == occs1[0].id;
                        assert(occs1[0].id == self.queue@[t]);
                        assert(is_occupant(occs1, self.queue@[t]));
                        assert(false);
                    }
                    break ;
                }
                let h = self.queue[j];
                if contains_id(&self.occupants, h) {
                    new_host = h;
                    break ;
                }
                j = j + 1;
            }
            proof {
                lemma_first_live_at(pre.queue@, occs1, j as int);
            }
            self.state = RoomState::Lobby { host: new_host };
            broadcast(out, &self.occupants, Event::EnterLobby(new_host));
            send_settings_data(out, new_host, word_packs);
            proof {
                let ev = added(out@, old(out)@);
                assert(out@.take(old(out)@.len() as int) =~= old(out)@);
                assert(ev.take(head.len() as int) =~= head);
                assert(ev.subrange(head.len() as int, head.len() as int + occs1.len() as int)
                    =~= broadcast_to(occs1, Event::EnterLobby(new_host)));
                assert(ev.last() == out@[out@.len() - 1]);
                assert(defer@.take(old(defer)@.len() as int) =~= defer@);
                assert(added(defer@, old(defer)@) =~= Seq::<Deferred>::empty());
                // queue duties are untouched; every survivor still owes one
                assert forall|i: int| 0 <= i < self.occupants@.len() implies occurrences(
                    self.queue@,
                    (#[trigger] self.occupants@[i]).id,
                ) == 1 by {
                    let s = choose|s: int|
                        0 <= s < pre.occupants@.len() && pre.occupants@[s] == occs1[i] && s
                            != idx as int;
                    assert(occurrences(pre.queue@, pre.occupants@[s].id) == 1);
                }
            }
            return false;
        }
        if is_round_leader {
            let ghost mid = *self;
            proof {
                assert(mid.wf()) by {
                    assert forall|i: int| 0 <= i < occs1.len() implies occurrences(
                        mid.queue@,
                        (#[trigger] occs1[i]).id,
                    ) == match mid.state {
                        RoomState::Round { leader, .. } => if occs1[i].id == leader {
                            0nat
                        } else {
                            1nat
                        },
                        _ => 1nat,
                    } by {
                        let s = choose|s: int|
                            0 <= s < pre.occupants@.len() && pre.occupants@[s] == occs1[i] && s
                                != idx as int;
                        assert(pre.occupants@[s].id == occs1[i].id);
                    }
                }
                assert(rotation_ready(mid)) by {
                    assert forall|i: int| 0 <= i < occs1.len() implies occurrences(
                        mid.queue@,
                        (#[trigger] occs1[i]).id,
                    ) == 1 by {
                        let s = choose|s: int|
                            0 <= s < pre.occupants@.len() && pre.occupants@[s] == occs1[i] && s
                                != idx as int;
                        assert(pre.occupants@[s].id == occs1[i].id);
                    }
                }
            }
            let ghost o_mid = out@;
            let ghost d_mid = defer@;
            self.new_round(word_packs, rng, now_ms, out, defer);
            proof {
                let ev = added(out@, old(out)@);
                let df = added(defer@, old(defer)@);
                assert(out@.take(old(out)@.len() as int) =~= old(out)@);
                assert(ev.take(head.len() as int) =~= head);
                assert(ev.skip(head.len() as int) =~= added(out@, o_mid));
                assert(df =~= added(defer@, d_mid));
                assert(mid.wf() && mid == (Room { occupants: mid.occupants, ..pre })
                    && mid.occupants@ == occs1 && ev.len() >= head.len() && ev.take(
                    head.len() as int,
                ) == head && new_round_rel(
                    mid,
                    *self,
                    ev.skip(head.len() as int),
                    df,
                    word_packs@,
                    now_ms,
                ));
                assert(leave_rel(pre, *self, ev, df, word_packs@, session_id, now_ms));
            }
            return false;
        }
        proof {
            assert(defer@.take(old(defer)@.len() as int) =~= defer@);
            assert(added(defer@, old(defer)@) =~= Seq::<Deferred>::empty());
            assert forall|i: int| 0 <= i < self.occupants@.len() implies occurrences(
                self.queue@,
                (#[trigger] self.occupants@[i]).id,
            ) == match self.state {
                RoomState::Round { leader, .. } => if self.occupants@[i].id == leader {
                    0nat
                } else {
                    1nat
                },
                _ => 1nat,
            } by {
                let s = choose|s: int|
                    0 <= s < pre.occupants@.len() && pre.occupants@[s] == occs1[i] && s
                        != idx as int;
                assert(pre.occupants@[s].id == occs1[i].id);
            }
            match pre.state {
                RoomState::Lobby { host } => {
                    let wit = choose|t: int|
                        0 <= t < pre.occupants@.len() && pre.occupants@[t].id == host;
                    assert(wit != idx as int);
                    if wit < idx as int {
                        assert(occs1[wit] == pre.occupants@[wit]);
                        assert(is_occupant(occs1, host));
                    } else {
                        assert(occs1[wit - 1] == pre.occupants@[wit]);
                        assert(is_occupant(occs1, host));
                    }
                },
                _ => {},
            }
            let ev = added(out@, old(out)@);
            let df = added(defer@, old(defer)@);
            assert(ev == head);
            assert(df == Seq::<Deferred>::empty());
            assert(*self == (Room { occupants: self.occupants, ..pre }));
            match pre.state {
                RoomState::Lobby { host } => {
                    assert(host != session_id);
                    assert(leave_rel(pre, *self, ev, df, word_packs@, session_id, now_ms));
                },
                RoomState::Round { leader, .. } => {
                    assert(leader != session_id);
                    assert(leave_rel(pre, *self, ev, df, word_packs@, session_id, now_ms));
                },
                RoomState::Winner { .. } => {
                    assert(leave_rel(pre, *self, ev, df, word_packs@, session_id, now_ms));
                },
            }
        }
        false
    }
}

} // verus!

verus! {

// ---------------------------------------------------------------------
// Guesses
// ---------------------------------------------------------------------

/// The position of the first alternate equal to the guess, or -1.
pub open spec fn first_alt_index(alts: Seq<Seq<char>>, guess: Seq<char>) -> int
    decreases alts.len(),
{
    if alts.len() == 0 {
        -1
    } else if alts[0] == guess {
        0
    } else {
        let r = first_alt_index(alts.drop_first(), guess);
        if r == -1 {
            -1
        } else {
            r + 1
        }
    }
}

pub proof fn lemma_first_alt_at(alts: Seq<Seq<char>>, guess: Seq<char>, a: int)
    requires
        0 <= a < alts.len(),
        alts[a] == guess,
        forall|t: int| 0 <= t < a ==> alts[t] != guess,
    ensures
        first_alt_index(alts, guess) == a,
    decreases a,
{
    if a > 0 {
        assert(alts.drop_first()[a - 1] == alts[a as int]);
        assert(forall|t: int| 0 <= t < a - 1 ==> alts.drop_first()[t] == alts[t + 1]);
        lemma_first_alt_at(alts.drop_first(), guess, a - 1);
    }
}

/// How a matching guess names its alternate: none when the primary word
/// itself matched, else the first matching alternate.
pub open spec fn match_alt(entry: (Seq<char>, Seq<Seq<char>>), guess: Seq<char>) -> Option<usize> {
    if entry.0 == guess {
        None
    } else if first_alt_index(entry.1, guess) >= 0 {
        Some(first_alt_index(entry.1, guess) as usize)
    } else {
        None
    }
}

/// One more point, saturating at the top of the range.
pub open spec fn bump(points: usize) -> usize {
    if points == usize::MAX {
        points
    } else {
        (points + 1) as usize
    }
}

/// What a guess does.  Outside a round it is chat, broadcast to everyone.
/// During a round the leader's guesses are refused outright; anyone else's
/// is broadcast as chat, and when its trimmed, lowercased form hits the
/// secret word the guesser gains a point and the round ends with them as
/// winner.
pub open spec fn guess_rel(
    pre: Room,
    post: Room,
    ev: Seq<Directed>,
    df: Seq<Deferred>,
    packs: Seq<WordPack>,
    id: usize,
    message: String,
) -> bool {
    match pre.state {
        RoomState::Round { pack, word, leader, .. } => {
            if id == leader {
                no_effect(pre, post, ev, df)
            } else {
                let chat = broadcast_to(pre.occupants@, Event::Message(id, message));
                let norm = lower_of(trim_of(message@));
                let entry = entry_view(packs[pack as int].list@[word as int]);
                if !entry_matches(entry, norm) || !is_occupant(pre.occupants@, id) {
                    &&& post == pre
                    &&& ev == chat
                    &&& df == Seq::<Deferred>::empty()
                } else {
                    let ix = occ_index_of(pre.occupants@, id);
                    let pts = bump(pre.occupants@[ix].points);
                    exists|mid: Room|
                        {
                            &&& #[trigger] mid.wf()
                            &&& mid == (Room { occupants: mid.occupants, ..pre })
                            &&& mid.occupants@ == pre.occupants@.update(
                                ix,
                                Occupant {
                                    id,
                                    name: pre.occupants@[ix].name,
                                    points: pts,
                                },
                            )
                            &&& ev.len() >= chat.len()
                            &&& ev.take(chat.len() as int) == chat
                            &&& end_round_rel(
                                mid,
                                post,
                                ev.skip(chat.len() as int),
                                df,
                                packs,
                                Some(id),
                                pts,
                                match_alt(entry, norm),
                            )
                        }
                }
            }
        },
        _ => {
            &&& post == pre
            &&& ev == broadcast_to(pre.occupants@, Event::Message(id, message))
            &&& df == Seq::<Deferred>::empty()
        },
    }
}

impl Room {
    /// Handles a chat line: relays it, and during a round checks it as a
    /// guess against the secret word.
    #[verifier::rlimit(50)]
    pub fn handle_guess(
        &mut self,
        session_id: usize,
        message: String,
        word_packs: &Vec<WordPack>,
        out: &mut Vec<Directed>,
        defer: &mut Vec<Deferred>,
    )
        requires
            old(self).wf(),
            old(self).words_ok(word_packs@),
        ensures
            final(self).wf(),
            final(self).words_ok(word_packs@),
            final(self).key == old(self).key,
            final(self).occupants@.len() == old(self).occupants@.len(),
            extends(final(out)@, old(out)@),
            extends(final(defer)@, old(defer)@),
            guess_rel(
                *old(self),
                *final(self),
                added(final(out)@, old(out)@),
                added(final(defer)@, old(defer)@),
                word_packs@,
                session_id,
                message,
            ),
    {
        let ghost pre = *old(self);
        let (pack, word, leader, in_round): (usize, usize, usize, bool) = match self.state {
            RoomState::Round { pack, word, leader, .. } => (pack, word, leader, true),
            _ => (0, 0, 0, false),
        };
        if !in_round {
            broadcast(out, &self.occupants, Event::Message(session_id, message.clone()));
            proof {
                assert(out@.take(old(out)@.len() as int) =~= old(out)@);
                assert(added(out@, old(out)@) =~= broadcast_to(
                    pre.occupants@,
                    Event::Message(session_id, message),
                ));
                assert(defer@.take(old(defer)@.len() as int) =~= defer@);
                assert(added(defer@, old(defer)@) =~= Seq::<Deferred>::empty());
            }
            return ;
        }
        if session_id == leader {
            proof {
                assert(out@.take(old(out)@.len() as int) =~= out@);
                assert(defer@.take(old(defer)@.len() as int) =~= defer@);
                assert(added(out@, old(out)@) =~= Seq::<Directed>::empty());
                assert(added(defer@, old(defer)@) =~= Seq::<Deferred>::empty());
            }
            return ;
        }
        broadcast(out, &self.occupants, Event::Message(session_id, message.clone()));
        let ghost chat = broadcast_to(pre.occupants@, Event::Message(session_id, message));
        let ghost o_mid = out@;
        proof {
            assert(out@.take(old(out)@.len() as int) =~= old(out)@);
            assert(added(out@, old(out)@) =~= chat);
        }
        let normalized = normalize(message.as_str());
        let (matched, alternate) = word_packs[pack].word_matches(word, &normalized);
        if !matched {
            proof {
                assert(defer@.take(old(defer)@.len() as int) =~= defer@);
                assert(added(defer@, old(defer)@) =~= Seq::<Deferred>::empty());
            }
            return ;
        }
        let ix = match find_occupant(&self.occupants, session_id) {
            None => {
                proof {
                    assert(defer@.take(old(defer)@.len() as int) =~= defer@);
                    assert(added(defer@, old(defer)@) =~= Seq::<Deferred>::empty());
                }
                return ;
            },
            Some(i) => i,
        };
        proof {
            let ci = occ_index_of(pre.occupants@, session_id);
            assert(pre.occupants@[ci].id == session_id);
            assert(ci == ix as int);
            match alternate {
                Some(a) => {
                    lemma_first_alt_at(
                        entry_view(word_packs@[pack as int].list@[word as int]).1,
                        normalized@,
                        a as int,
                    );
                },
                None => {},
            }
            assert(match_alt(
                entry_view(word_packs@[pack as int].list@[word as int]),
                normalized@,
            ) == alternate);
        }
        let prior = self.occupants.remove(ix);
        let pts: usize = if prior.points < usize::MAX {
            prior.points + 1
        } else {
            prior.points
        };
        let winner_occ = Occupant { id: prior.id, name: prior.name, points: pts };
        self.occupants.insert(ix, winner_occ);
        let ghost mid = *self;
        proof {
            assert(mid.occupants@ =~= pre.occupants@.update(
                ix as int,
                Occupant { id: session_id, name: pre.occupants@[ix as int].name, points: pts },
            ));
            // ids and names are untouched, so well-formedness carries over
            assert forall|t: int| 0 <= t < mid.occupants@.len() implies (#[trigger] mid.occupants@[t]).id
                == pre.occupants@[t].id && mid.occupants@[t].name@ == pre.occupants@[t].name@ by {
                if t != ix as int {
                    assert(mid.occupants@[t] == pre.occupants@[t]);
                }
            }
            assert(mid.wf()) by {
                assert forall|i: int| 0 <= i < mid.occupants@.len() implies occurrences(
                    mid.queue@,
                    (#[trigger] mid.occupants@[i]).id,
                ) == (if mid.occupants@[i].id == leader {
                    0nat
                } else {
                    1nat
                }) by {
                    assert(mid.occupants@[i].id == pre.occupants@[i].id);
                    if pre.occupants@[i].id != leader {
                        assert(occurrences(pre.queue@, pre.occupants@[i].id) == 1);
                    }
                }
            }
        }
        let ghost d_mid = defer@;
        self.end_round(Some(session_id), pts, alternate, word_packs, out, defer);
        proof {
            let ev = added(out@, old(out)@);
            let df = added(defer@, old(defer)@);
            assert(out@.take(old(out)@.len() as int) =~= old(out)@);
            assert(defer@.take(old(defer)@.len() as int) =~= old(defer)@);
            assert(ev.take(chat.len() as int) =~= chat);
            assert(ev.skip(chat.len() as int) =~= added(out@, o_mid));
            assert(df =~= added(defer@, d_mid));
            assert(mid.wf() && mid == (Room { occupants: mid.occupants, ..pre })
                && ev.len() >= chat.len() && ev.take(chat.len() as int) == chat && end_round_rel(
                mid,
                *self,
                ev.skip(chat.len() as int),
                df,
                word_packs@,
                Some(session_id),
                pts,
                match_alt(
                    entry_view(word_packs@[pack as int].list@[word as int]),
                    lower_of(trim_of(message@)),
                ),
            ));
            assert(guess_rel(pre, *self, ev, df, word_packs@, session_id, message));
        }
    }
}

// ---------------------------------------------------------------------
// Drawing
// ---------------------------------------------------------------------

/// A draw payload piece must be a decimal number fitting a `u32`.
pub open spec fn piece_u32_ok(p: Seq<char>) -> bool {
    p.len() > 0 && all_digits(p) && dec_val(p) <= u32::MAX as int
}

/// The stroke encoded by a draw payload: exactly five comma-separated
/// `u32` values.
pub open spec fn stroke_of(data: Seq<char>) -> Option<Stroke> {
    let ps = split_on(data, ',');
    if ps.len() == 5 && (forall|i: int| 0 <= i < 5 ==> piece_u32_ok(#[trigger] ps[i])) {
        Some(
            Stroke {
                x1: dec_val(ps[0]) as u32,
                x2: dec_val(ps[1]) as u32,
                y1: dec_val(ps[2]) as u32,
                y2: dec_val(ps[3]) as u32,
                pen: dec_val(ps[4]) as u32,
            },
        )
    } else {
        None
    }
}

/// Coordinates stay on the canvas and the pen stays reasonable.
pub open spec fn stroke_in_range(s: Stroke) -> bool {
    s.x1 <= MAX_COORD && s.x2 <= MAX_COORD && s.y1 <= MAX_COORD && s.y2 <= MAX_COORD && s.pen
        <= MAX_PEN_SIZE
}

/// What a draw command does: only the current leader, only during a round,
/// and only with a well-formed, in-range stroke, extends the history and
/// reaches the room; everything else changes nothing.
pub open spec fn draw_rel(
    pre: Room,
    post: Room,
    ev: Seq<Directed>,
    id: usize,
    data: Seq<char>,
) -> bool {
    match pre.state {
        RoomState::Round { leader, .. } => {
            if id != leader {
                post == pre && ev == Seq::<Directed>::empty()
            } else {
                match stroke_of(data) {
                    Some(st) => if stroke_in_range(st) {
                        &&& post == (Room { draw_history: post.draw_history, ..pre })
                        &&& post.draw_history@ == pre.draw_history@.push(st)
                        &&& ev == broadcast_to(
                            pre.occupants@,
                            Event::Draw(st.x1, st.x2, st.y1, st.y2, st.pen),
                        )
                    } else {
                        post == pre && ev == Seq::<Directed>::empty()
                    },
                    None => post == pre && ev == Seq::<Directed>::empty(),
                }
            }
        },
        _ => post == pre && ev == Seq::<Directed>::empty(),
    }
}

/// What a clear-canvas command does: only the leader, during a round, and
/// only when the host enabled clearing, wipes the history and tells the
/// room; anything else changes nothing.
pub open spec fn clear_rel(pre: Room, post: Room, ev: Seq<Directed>, id: usize) -> bool {
    match pre.state {
        RoomState::Round { leader, .. } => {
            if id == leader && pre.settings.allow_clear {
                &&& post == (Room { draw_history: post.draw_history, ..pre })
                &&& post.draw_history@ == Seq::<Stroke>::empty()
                &&& ev == broadcast_to(pre.occupants@, Event::ClearCanvas)
            } else {
                post == pre && ev == Seq::<Directed>::empty()
            }
        },
        _ => post == pre && ev == Seq::<Directed>::empty(),
    }
}

/// What a scheduled timeout does: it ends the round with no winner only
/// while the round it was scheduled for is still running; a stale timeout
/// changes nothing and says nothing.
pub open spec fn timeout_rel(
    pre: Room,
    post: Room,
    ev: Seq<Directed>,
    df: Seq<Deferred>,
    packs: Seq<WordPack>,
    round_id: usize,
) -> bool {
    if pre.state is Round && round_id == pre.round_id {
        end_round_rel(pre, post, ev, df, packs, None, 0, None)
    } else {
        no_effect(pre, post, ev, df)
    }
}

impl Room {
    /// Handles a draw command from a connection: the stroke is validated,
    /// broadcast and remembered for replay.
    pub fn handle_draw(&mut self, session_id: usize, data: String, out: &mut Vec<Directed>)
        requires
            old(self).wf(),
        ensures
            final(self).wf(),
            forall|packs: Seq<WordPack>| #[trigger]
                old(self).words_ok(packs) ==> final(self).words_ok(packs),
            final(self).key == old(self).key,
            final(self).occupants == old(self).occupants,
            extends(final(out)@, old(out)@),
            draw_rel(*old(self), *final(self), added(final(out)@, old(out)@), session_id, data@),
    {
        let ghost pre = *old(self);
        let (leader, in_round): (usize, bool) = match self.state {
            RoomState::Round { leader, .. } => (leader, true),
            _ => (0, false),
        };
        if !in_round || session_id != leader {
            proof {
                assert(out@.take(old(out)@.len() as int) =~= out@);
                assert(added(out@, old(out)@) =~= Seq::<Directed>::empty());
            }
            return ;
        }
        let parts = split_str(data.as_str(), ',');
        let ghost ps = split_on(data@, ',');
        let mut vals: Vec<u32> = Vec::new();
        let mut i: usize = 0;
        while i < parts.len()
            invariant
                0 <= i <= parts@.len(),
                parts@.map_values(|p: String| p@) == ps,
                vals@.len() == i,
                forall|t: int|
                    0 <= t < i ==> piece_u32_ok(#[trigger] ps[t]) && vals@[t] as int == dec_val(
                        ps[t],
                    ),
                *self == *old(self),
                old(self).wf(),
                out@ == old(out)@,
                pre == *old(self),
                pre.state matches RoomState::Round { leader: l, .. } && l == session_id,
                ps == split_on(data@, ','),
            decreases parts@.len() - i,
        {
            match crate::text::parse_u32(parts[i].as_str()) {
                Some(v) => {
                    vals.push(v);
                },
                None => {
                    proof {
                        assert(!piece_u32_ok(ps[i as int]));
                        assert(stroke_of(data@) is None);
                        assert(out@.take(old(out)@.len() as int) =~= out@);
                        assert(added(out@, old(out)@) =~= Seq::<Directed>::empty());
                    }
                    return ;
                },
            }
            i = i + 1;
        }
        if vals.len() != 5 {
            proof {
                assert(ps.len() != 5);
                assert(stroke_of(data@) is None);
                assert(out@.take(old(out)@.len() as int) =~= out@);
                assert(added(out@, old(out)@) =~= Seq::<Directed>::empty());
            }
            return ;
        }
        let st = Stroke { x1: vals[0], x2: vals[1], y1: vals[2], y2: vals[3], pen: vals[4] };
        proof {
            assert(stroke_of(data@) == Some(st));
        }
        if st.x1 <= MAX_COORD && st.x2 <= MAX_COORD && st.y1 <= MAX_COORD && st.y2 <= MAX_COORD
            && st.pen <= MAX_PEN_SIZE {
            broadcast(out, &self.occupants, Event::Draw(st.x1, st.x2, st.y1, st.y2, st.pen));
            self.draw_history.push(st);
            proof {
                assert(out@.take(old(out)@.len() as int) =~= old(out)@);
                assert(added(out@, old(out)@) =~= broadcast_to(
                    pre.occupants@,
                    Event::Draw(st.x1, st.x2, st.y1, st.y2, st.pen),
                ));
            }
        } else {
            proof {
                assert(!stroke_in_range(st));
                assert(out@.take(old(out)@.len() as int) =~= out@);
                assert(added(out@, old(out)@) =~= Seq::<Directed>::empty());
            }
        }
    }

    /// Handles a clear-canvas command: only the leader, during a round,
    /// and only when the host enabled clearing; the history is wiped and
    /// everyone told.
    pub fn clear(&mut self, session_id: usize, out: &mut Vec<Directed>)
        requires
            old(self).wf(),
        ensures
            final(self).wf(),
            forall|packs: Seq<WordPack>| #[trigger]
                old(self).words_ok(packs) ==> final(self).words_ok(packs),
            final(self).key == old(self).key,
            final(self).occupants == old(self).occupants,
            extends(final(out)@, old(out)@),
            clear_rel(*old(self), *final(self), added(final(out)@, old(out)@), session_id),
    {
        let ghost pre = *old(self);
        let (leader, in_round): (usize, bool) = match self.state {
            RoomState::Round { leader, .. } => (leader, true),
            _ => (0, false),
        };
        if in_round && session_id == leader && self.settings.allow_clear {
            broadcast(out, &self.occupants, Event::ClearCanvas);
            self.draw_history = Vec::new();
            proof {
                assert(out@.take(old(out)@.len() as int) =~= old(out)@);
                assert(added(out@, old(out)@) =~= broadcast_to(pre.occupants@, Event::ClearCanvas));
            }
        } else {
            proof {
                assert(out@.take(old(out)@.len() as int) =~= out@);
                assert(added(out@, old(out)@) =~= Seq::<Directed>::empty());
            }
        }
    }

    /// Handles a scheduled round timeout: it ends the round with no winner
    /// only while the round it was scheduled for is still the current one;
    /// a stale timeout changes nothing and says nothing.
    pub fn round_timeout(
        &mut self,
        round_id: usize,
        word_packs: &Vec<WordPack>,
        out: &mut Vec<Directed>,
        defer: &mut Vec<Deferred>,
    )
        requires
            old(self).wf(),
            old(self).words_ok(word_packs@),
        ensures
            final(self).wf(),
            final(self).words_ok(word_packs@),
            final(self).key == old(self).key,
            final(self).occupants@ == old(self).occupants@,
            extends(final(out)@, old(out)@),
            extends(final(defer)@, old(defer)@),
            timeout_rel(
                *old(self),
                *final(self),
                added(final(out)@, old(out)@),
                added(final(defer)@, old(defer)@),
                word_packs@,
                round_id,
            ),
    {
        let current: bool = match self.state {
            RoomState::Round { .. } => round_id == self.round_id,
            _ => false,
        };
        if current {
            self.end_round(None, 0, None, word_packs, out, defer);
        } else {
            proof {
                assert(out@.take(old(out)@.len() as int) =~= out@);
                assert(defer@.take(old(defer)@.len() as int) =~= defer@);
                assert(added(out@, old(out)@) =~= Seq::<Directed>::empty());
                assert(added(defer@, old(defer)@) =~= Seq::<Deferred>::empty());
            }
        }
    }
}

} // verus!

verus! {

// ---------------------------------------------------------------------
// Stated properties of the rotation and the exclusion window
// ---------------------------------------------------------------------

/// The leader of a room in the round phase.
pub open spec fn round_leader(s: RoomState) -> usize {
    match s {
        RoomState::Round { leader, .. } => leader,
        _ => 0,
    }
}

/// At most one leader: in the round phase the leader designation is one
/// id, and, connection ids being unique, at most one occupant carries it.
/// That a draw stroke from any other connection is refused outright is
/// `draw_rel`, the contract of `handle_draw`.
pub proof fn lemma_at_most_one_leader(r: Room)
    requires
        r.wf(),
        r.state is Round,
    ensures
        forall|i: int, j: int|
            0 <= i < r.occupants@.len() && 0 <= j < r.occupants@.len() && (
            #[trigger] r.occupants@[i]).id == round_leader(r.state) && (
            #[trigger] r.occupants@[j]).id == round_leader(r.state) ==> i == j,
{
    assert forall|i: int, j: int|
        0 <= i < r.occupants@.len() && 0 <= j < r.occupants@.len() && (
        #[trigger] r.occupants@[i]).id == round_leader(r.state) && (
        #[trigger] r.occupants@[j]).id == round_leader(r.state) implies i == j by {
        if i < j {
            assert(r.occupants@[i].id != r.occupants@[j].id);
        } else if j < i {
            assert(r.occupants@[j].id != r.occupants@[i].id);
        }
    }
}

/// One full round under steady membership: the head leads, then is
/// re-queued at the back — `new_round` pops the head (every entry is
/// present, so none is skipped) and `end_round` pushes the leader back.
pub open spec fn rot(q: Seq<usize>) -> Seq<usize> {
    q.drop_first().push(q[0])
}

/// The leaders of `n` successive rounds under steady membership.
pub open spec fn leaders_of(q: Seq<usize>, n: nat) -> Seq<usize>
    decreases n,
{
    if n == 0 {
        Seq::empty()
    } else {
        seq![q[0]] + leaders_of(rot(q), (n - 1) as nat)
    }
}

proof fn lemma_leaders_take(q: Seq<usize>, n: nat)
    requires
        q.len() > 0,
        n <= q.len(),
    ensures
        leaders_of(q, n) =~= q.take(n as int),
    decreases n,
{
    if n > 0 {
        assert(rot(q).len() == q.len());
        lemma_leaders_take(rot(q), (n - 1) as nat);
        assert(rot(q).take(n - 1) =~= q.subrange(1, n as int));
        assert(leaders_of(q, n) =~= seq![q[0]] + q.subrange(1, n as int));
        assert(seq![q[0]] + q.subrange(1, n as int) =~= q.take(n as int));
    }
}

/// Turn fairness: in a room with `N` occupants and no churn — the queue
/// holds exactly the occupants, each once — `N` successive round
/// transitions hand leadership to the queue entries in order, so every
/// occupant is leader exactly once.
pub proof fn lemma_turn_fairness(q: Seq<usize>, occs: Seq<Occupant>)
    requires
        q.len() == occs.len(),
        q.len() > 0,
        distinct_ids(occs),
        forall|i: int| 0 <= i < occs.len() ==> occurrences(q, (#[trigger] occs[i]).id) == 1,
        forall|t: int| 0 <= t < q.len() ==> is_occupant(occs, #[trigger] q[t]),
    ensures
        leaders_of(q, q.len()) == q,
        forall|i: int| 0 <= i < occs.len() ==> occurrences(
            leaders_of(q, q.len()),
            (#[trigger] occs[i]).id,
        ) == 1,
        first_live(q, occs) == 0,
{
    lemma_leaders_take(q, q.len());
    assert(q.take(q.len() as int) =~= q);
}

/// The exclusion window after a sequence of draws, evolving one `slide`
/// per draw from empty.
pub open spec fn window_after(draws: Seq<usize>, cap: int) -> Seq<usize>
    decreases draws.len(),
{
    if draws.len() == 0 {
        Seq::empty()
    } else {
        slide(window_after(draws.drop_last(), cap), cap, draws.last())
    }
}

/// One more draw folds into the window exactly as `choose_new_word`'s
/// contract slides it.
pub proof fn lemma_window_step(draws: Seq<usize>, cap: int, x: usize)
    ensures
        window_after(draws.push(x), cap) == slide(window_after(draws, cap), cap, x),
{
    assert(draws.push(x).drop_last() =~= draws);
}

/// The window always holds exactly the last `min(draws, max(cap, 1))`
/// draws, in order.
pub proof fn lemma_window_is_suffix(draws: Seq<usize>, cap: int)
    requires
        cap >= 0,
    ensures
        ({
            let m = if cap == 0 {
                1int
            } else {
                cap
            };
            let w = if draws.len() <= m {
                draws.len() as int
            } else {
                m
            };
            window_after(draws, cap) =~= draws.skip(draws.len() - w)
        }),
    decreases draws.len(),
{
    let m = if cap == 0 {
        1int
    } else {
        cap
    };
    if draws.len() == 0 {
        assert(window_after(draws, cap) =~= draws.skip(0));
    } else {
        lemma_window_is_suffix(draws.drop_last(), cap);
        let d1 = draws.drop_last();
        let w1 = if d1.len() <= m {
            d1.len() as int
        } else {
            m
        };
        let prev = window_after(d1, cap);
        assert(prev =~= d1.skip(d1.len() - w1));
        assert(prev.len() == w1);
        let w = if draws.len() <= m {
            draws.len() as int
        } else {
            m
        };
        assert forall|t: int| 0 <= t < d1.len() implies d1[t] == draws[t] by {}
        if prev.len() >= cap && prev.len() > 0 {
            assert(window_after(draws, cap) =~= prev.drop_first().push(draws.last()));
            assert(window_after(draws, cap) =~= draws.skip(draws.len() - w));
        } else {
            assert(window_after(draws, cap) =~= prev.push(draws.last()));
            assert(window_after(draws, cap) =~= draws.skip(draws.len() - w));
        }
    }
}

/// Word exclusion: across any sequence of draws in which every draw avoids
/// the window of its moment — which `choose_new_word` guarantees draw by
/// draw — no flat word index repeats within `max(windowCapacity, 1)`
/// consecutive draws, and so none within `min(windowCapacity, drawsSoFar)`.
pub proof fn lemma_word_exclusion(draws: Seq<usize>, cap: int, i: int, j: int)
    requires
        cap >= 0,
        forall|k: int| 0 <= k < draws.len() ==> !window_after(draws.take(k), cap).contains(
            #[trigger] draws[k],
        ),
        0 <= i < j < draws.len(),
        j - i <= if cap == 0 {
            1int
        } else {
            cap
        },
    ensures
        draws[i] != draws[j],
{
    let m = if cap == 0 {
        1int
    } else {
        cap
    };
    let p = draws.take(j);
    lemma_window_is_suffix(p, cap);
    let w = if p.len() <= m {
        p.len() as int
    } else {
        m
    };
    assert(p.skip(p.len() - w)[i - (j - w)] == draws[i]);
    assert(window_after(p, cap)[i - (j - w)] == draws[i]);
    assert(window_after(p, cap).contains(draws[i]));
}

} // verus!

verus! {

/// Steady membership between rounds: the turn queue is exactly the
/// occupants, each once and none stale — the no-churn shape of the
/// fairness property.
pub open spec fn steady(r: Room) -> bool {
    &&& r.occupants@.len() > 0
    &&& r.queue@.len() == r.occupants@.len()
    &&& distinct_ids(r.occupants@)
    &&& rotation_ready(r)
    &&& forall|t: int| 0 <= t < r.queue@.len() ==> is_occupant(r.occupants@, #[trigger] r.queue@[t])
    &&& !(r.state is Round)
}

/// One observed round transition: some round start (`new_round_rel`) that
/// did enter the round phase with this leader, followed by some normal
/// round end (`end_round_rel`), which re-queues the departing leader.
pub open spec fn observed_round(
    pre: Room,
    mid: Room,
    post: Room,
    packs: Seq<WordPack>,
    leader: usize,
) -> bool {
    &&& (exists|ev: Seq<Directed>, df: Seq<Deferred>, now_ms: u64|
        new_round_rel(pre, mid, ev, df, packs, now_ms))
    &&& mid.state is Round
    &&& round_leader(mid.state) == leader
    &&& (exists|
        ev: Seq<Directed>,
        df: Seq<Deferred>,
        winner: Option<usize>,
        points: usize,
        alternate: Option<usize>,
    |
        end_round_rel(mid, post, ev, df, packs, winner, points, alternate))
}

/// Under steady membership one observed round hands leadership to the
/// queue's head and rotates the queue, leaving membership steady again.
pub proof fn lemma_observed_round_rotates(
    pre: Room,
    mid: Room,
    post: Room,
    packs: Seq<WordPack>,
    leader: usize,
)
    requires
        steady(pre),
        observed_round(pre, mid, post, packs, leader),
    ensures
        leader == pre.queue@[0],
        post.queue@ == rot(pre.queue@),
        post.occupants@ == pre.occupants@,
        steady(post),
{
    let q = pre.queue@;
    assert(is_occupant(pre.occupants@, q[0]));
    assert(first_live(q, pre.occupants@) == 0);
    // the round start: the no-op and no-draw outcomes keep the old phase,
    // which is not a round, so the started disjunct holds
    assert(mid.occupants == pre.occupants && round_leader(mid.state) == q[0] && mid.queue@
        == q.skip(1) && mid.key == pre.key);
    // the round end: the round phase forces the reveal outcome
    assert(post.occupants == mid.occupants && post.queue@ == mid.queue@.push(
        round_leader(mid.state),
    ) && post.state is Winner);
    assert(q.skip(1) =~= q.drop_first());
    assert(post.queue@ =~= rot(q));
    // every occupant still owes exactly one turn in the rotated queue
    assert forall|i: int| 0 <= i < post.occupants@.len() implies occurrences(
        post.queue@,
        (#[trigger] post.occupants@[i]).id,
    ) == 1 by {
        let oid = pre.occupants@[i].id;
        assert(occurrences(q, oid) == 1);
        lemma_occ_split(q, 1, oid);
        assert(q.take(1).drop_last() =~= Seq::<usize>::empty());
        assert(occurrences(Seq::<usize>::empty(), oid) == 0);
        assert(q.take(1).last() == q[0]);
        assert(occurrences(q.take(1), oid) == if q[0] == oid {
            1nat
        } else {
            0nat
        });
        lemma_occ_push(q.drop_first(), q[0], oid);
        assert(q.skip(1) =~= q.drop_first());
    }
    // and every rotated entry is still an occupant
    assert forall|t: int| 0 <= t < post.queue@.len() implies is_occupant(
        post.occupants@,
        #[trigger] post.queue@[t],
    ) by {
        if t < post.queue@.len() - 1 {
            assert(post.queue@[t] == q[t + 1]);
        } else {
            assert(post.queue@[t] == q[0]);
        }
    }
}

/// Fewer observed rounds than queue entries follow the queue as a prefix.
proof fn lemma_rounds_follow_queue(
    trace: Seq<Room>,
    mids: Seq<Room>,
    leaders: Seq<usize>,
    packs: Seq<WordPack>,
)
    requires
        trace.len() == leaders.len() + 1,
        mids.len() == leaders.len(),
        leaders.len() <= trace[0].queue@.len(),
        steady(trace[0]),
        forall|k: int| 0 <= k < leaders.len() ==> #[trigger] observed_round(
            trace[k],
            mids[k],
            trace[k + 1],
            packs,
            leaders[k],
        ),
    ensures
        leaders =~= trace[0].queue@.take(leaders.len() as int),
    decreases leaders.len(),
{
    let q = trace[0].queue@;
    if leaders.len() == 0 {
        assert(leaders =~= q.take(0));
    } else {
        let k0: int = 0;
        assert(observed_round(trace[k0], mids[k0], trace[k0 + 1], packs, leaders[k0]));
        lemma_observed_round_rotates(trace[0], mids[0], trace[1], packs, leaders[0]);
        let trace1 = trace.drop_first();
        let mids1 = mids.drop_first();
        let leaders1 = leaders.drop_first();
        assert(trace1[0] == trace[1]);
        assert(rot(q).len() == q.len());
        assert forall|k: int| 0 <= k < leaders1.len() implies #[trigger] observed_round(
            trace1[k],
            mids1[k],
            trace1[k + 1],
            packs,
            leaders1[k],
        ) by {
            assert(trace1[k] == trace[k + 1]);
            assert(trace1[k + 1] == trace[k + 2]);
            assert(mids1[k] == mids[k + 1]);
            assert(leaders1[k] == leaders[k + 1]);
            assert(observed_round(trace[k + 1], mids[k + 1], trace[k + 2], packs, leaders[k + 1]));
        }
        lemma_rounds_follow_queue(trace1, mids1, leaders1, packs);
        assert(leaders1 =~= rot(q).take(leaders.len() - 1));
        assert(rot(q).take(leaders.len() - 1) =~= q.subrange(1, leaders.len() as int));
        assert forall|t: int|
            0 <= t < leaders.len() implies leaders[t] == q.take(leaders.len() as int)[t] by {
            if t == 0 {
                assert(leaders[0] == q[0]);
            } else {
                assert(leaders1[t - 1] == leaders[t]);
                assert(leaders1[t - 1] == q.subrange(1, leaders.len() as int)[t - 1]);
                assert(q.subrange(1, leaders.len() as int)[t - 1] == q[t]);
            }
        }
        assert(leaders =~= q.take(leaders.len() as int));
    }
}

/// Turn fairness over whole transitions: in a room with `N` occupants and
/// no churn, `N` consecutive observed round transitions — each a round
/// start and a normal round end, as `new_round` and `end_round` promise —
/// hand leadership to the initial queue's entries in order, so every
/// occupant is leader exactly once.
pub proof fn lemma_turn_fairness_over_rounds(
    trace: Seq<Room>,
    mids: Seq<Room>,
    leaders: Seq<usize>,
    packs: Seq<WordPack>,
)
    requires
        trace.len() == leaders.len() + 1,
        mids.len() == leaders.len(),
        leaders.len() == trace[0].occupants@.len(),
        steady(trace[0]),
        forall|k: int| 0 <= k < leaders.len() ==> #[trigger] observed_round(
            trace[k],
            mids[k],
            trace[k + 1],
            packs,
            leaders[k],
        ),
    ensures
        leaders == trace[0].queue@,
        forall|i: int| 0 <= i < trace[0].occupants@.len() ==> occurrences(
            leaders,
            (#[trigger] trace[0].occupants@[i]).id,
        ) == 1,
{
    lemma_rounds_follow_queue(trace, mids, leaders, packs);
    assert(trace[0].queue@.take(leaders.len() as int) =~= trace[0].queue@);
}

} // verus!
