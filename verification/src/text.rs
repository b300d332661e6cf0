//! Character-level text utilities: splitting, line handling, decimal
//! parsing and username validation, each against an exact specification.

use vstd::prelude::*;
use vstd::string::*;

verus! {

/// The pieces of `s` cut at every occurrence of `sep`; the separator itself
/// is dropped, and n separators give n + 1 pieces (so the empty sequence
/// yields one empty piece).
pub open spec fn split_on(s: Seq<char>, sep: char) -> Seq<Seq<char>>
    decreases s.len(),
{
    if s.len() == 0 {
        seq![Seq::<char>::empty()]
    } else if s[0] == sep {
        seq![Seq::<char>::empty()] + split_on(s.drop_first(), sep)
    } else {
        let rest = split_on(s.drop_first(), sep);
        seq![seq![s[0]] + rest[0]] + rest.drop_first()
    }
}

pub proof fn lemma_split_on_pos(s: Seq<char>, sep: char)
    ensures
        split_on(s, sep).len() >= 1,
    decreases s.len(),
{
    if s.len() > 0 {
        lemma_split_on_pos(s.drop_first(), sep);
    }
}

/// A sequence without the separator splits into itself alone.
pub proof fn lemma_split_on_no_sep(s: Seq<char>, sep: char)
    requires
        forall|i: int| 0 <= i < s.len() ==> s[i] != sep,
    ensures
        split_on(s, sep) =~~= seq![s],
    decreases s.len(),
{
    if s.len() == 0 {
        assert(split_on(s, sep) =~~= seq![s]);
    } else {
        lemma_split_on_no_sep(s.drop_first(), sep);
        assert(seq![s[0]] + s.drop_first() =~= s);
        assert(split_on(s, sep) =~~= seq![s]);
    }
}

/// Splitting at the first separator occurrence: everything before it is the
/// first piece, and the rest splits on its own.
pub proof fn lemma_split_on_first_sep(s: Seq<char>, sep: char, i: int)
    requires
        0 <= i < s.len(),
        s[i] == sep,
        forall|j: int| 0 <= j < i ==> s[j] != sep,
    ensures
        split_on(s, sep) =~~= seq![s.take(i)] + split_on(s.skip(i + 1), sep),
    decreases i,
{
    lemma_split_on_pos(s.drop_first(), sep);
    if i == 0 {
        assert(s.take(0) =~= Seq::<char>::empty());
        assert(s.skip(1) =~= s.drop_first());
    } else {
        let t = s.drop_first();
        lemma_split_on_first_sep(t, sep, i - 1);
        let rest = split_on(t, sep);
        assert(rest =~~= seq![t.take(i - 1)] + split_on(t.skip(i), sep));
        assert(rest[0] == t.take(i - 1));
        assert(rest.drop_first() =~~= split_on(t.skip(i), sep));
        assert(seq![s[0]] + t.take(i - 1) =~= s.take(i));
        assert(t.skip(i) =~= s.skip(i + 1));
        assert(split_on(s, sep) =~~= seq![s.take(i)] + split_on(s.skip(i + 1), sep));
    }
}

/// Splits `s` at every occurrence of `sep`, dropping the separators.
pub fn split_str(s: &str, sep: char) -> (parts: Vec<String>)
    ensures
        parts@.map_values(|p: String| p@) == split_on(s@, sep),
        parts@.len() >= 1,
{
    let n = s.unicode_len();
    let mut parts: Vec<String> = Vec::new();
    let mut start: usize = 0;
    let mut i: usize = 0;
    proof {
        assert(s@.skip(0) =~= s@);
        assert(parts@.map_values(|p: String| p@) + split_on(s@, sep) =~~= split_on(s@, sep));
    }
    while i < n
        invariant
            start <= i <= n,
            n == s@.len(),
            forall|j: int| start <= j < i ==> s@[j] != sep,
            split_on(s@, sep) =~~= parts@.map_values(|p: String| p@) + split_on(
                s@.skip(start as int),
                sep,
            ),
        decreases n - i,
    {
        if s.get_char(i) == sep {
            let piece = s.substring_char(start, i).to_owned();
            proof {
                let tail = s@.skip(start as int);
                assert(tail[i - start as int] == sep);
                assert(forall|j: int| 0 <= j < i - start as int ==> tail[j] != sep);
                lemma_split_on_first_sep(tail, sep, i - start as int);
                assert(tail.take(i - start as int) =~= s@.subrange(start as int, i as int));
                assert(tail.skip(i - start as int + 1) =~= s@.skip(i as int + 1));
                assert((parts@.push(piece)).map_values(|p: String| p@) =~~= parts@.map_values(
                    |p: String| p@,
                ).push(piece@));
            }
            parts.push(piece);
            start = i + 1;
        }
        i = i + 1;
    }
    let piece = s.substring_char(start, n).to_owned();
    proof {
        let tail = s@.skip(start as int);
        assert(forall|j: int| 0 <= j < tail.len() ==> tail[j] != sep);
        lemma_split_on_no_sep(tail, sep);
        assert(tail =~= s@.subrange(start as int, n as int));
        assert((parts@.push(piece)).map_values(|p: String| p@) =~~= parts@.map_values(
            |p: String| p@,
        ).push(piece@));
    }
    parts.push(piece);
    proof {
        assert(parts@.map_values(|p: String| p@) =~~= split_on(s@, sep));
    }
    parts
}

/// A trailing carriage return is dropped; anything else is kept.
pub open spec fn strip_cr(s: Seq<char>) -> Seq<char> {
    if s.len() > 0 && s.last() == '\r' {
        s.drop_last()
    } else {
        s
    }
}

/// The lines of `s`: pieces split at `'\n'`, a carriage return directly
/// before a line feed dropped, and an optional final line ending allowed.
/// The empty sequence has no lines.
pub open spec fn lines_of(s: Seq<char>) -> Seq<Seq<char>> {
    if s.len() == 0 {
        Seq::empty()
    } else if s.last() == '\n' {
        split_on(s.drop_last(), '\n').map_values(|p: Seq<char>| strip_cr(p))
    } else {
        let raw = split_on(s, '\n');
        raw.take(raw.len() - 1).map_values(|p: Seq<char>| strip_cr(p)) + seq![raw.last()]
    }
}

/// Cuts `s` into lines as `lines_of` describes.
pub fn split_lines(s: &str) -> (lines: Vec<String>)
    ensures
        lines@.map_values(|p: String| p@) == lines_of(s@),
{
    let n = s.unicode_len();
    if n == 0 {
        let lines: Vec<String> = Vec::new();
        proof {
            assert(lines@.map_values(|p: String| p@) =~~= lines_of(s@));
        }
        return lines;
    }
    let ends_nl = s.get_char(n - 1) == '\n';
    let raw: Vec<String> = if ends_nl {
        split_str(s.substring_char(0, n - 1), '\n')
    } else {
        split_str(s, '\n')
    };
    proof {
        if ends_nl {
            assert(s@.subrange(0, n - 1) =~= s@.drop_last());
        }
    }
    let mut lines: Vec<String> = Vec::new();
    let stop: usize = if ends_nl {
        raw.len()
    } else {
        raw.len() - 1
    };
    let raw_views = Ghost(raw@.map_values(|p: String| p@));
    let mut i: usize = 0;
    while i < stop
        invariant
            0 <= i <= stop <= raw.len(),
            raw_views@ == raw@.map_values(|p: String| p@),
            lines@.map_values(|p: String| p@) =~~= raw_views@.take(i as int).map_values(
                |p: Seq<char>| strip_cr(p),
            ),
        decreases stop - i,
    {
        let line = &raw[i];
        let m = line.as_str().unicode_len();
        let stripped: String = if m > 0 && line.as_str().get_char(m - 1) == '\r' {
            line.as_str().substring_char(0, m - 1).to_owned()
        } else {
            line.clone()
        };
        proof {
            assert(stripped@ =~= strip_cr(raw_views@[i as int]));
            assert((lines@.push(stripped)).map_values(|p: String| p@) =~~= lines@.map_values(
                |p: String| p@,
            ).push(stripped@));
            assert(raw_views@.take(i + 1).map_values(|p: Seq<char>| strip_cr(p)) =~~= raw_views@.take(
                i as int,
            ).map_values(|p: Seq<char>| strip_cr(p)).push(strip_cr(raw_views@[i as int])));
        }
        lines.push(stripped);
        i = i + 1;
    }
    if !ends_nl {
        let last = raw[raw.len() - 1].clone();
        proof {
            assert((lines@.push(last)).map_values(|p: String| p@) =~~= lines@.map_values(
                |p: String| p@,
            ).push(last@));
            assert(raw_views@.take(stop as int) =~= raw_views@.take(raw_views@.len() - 1));
            assert(lines@.map_values(|p: String| p@).push(last@) =~~= lines_of(s@));
        }
        lines.push(last);
    } else {
        proof {
            assert(raw_views@.take(stop as int) =~= raw_views@);
            assert(lines@.map_values(|p: String| p@) =~~= lines_of(s@));
        }
    }
    lines
}

/// The non-empty pieces among `parts`, order kept.
pub open spec fn keep_nonempty(parts: Seq<Seq<char>>) -> Seq<Seq<char>>
    decreases parts.len(),
{
    if parts.len() == 0 {
        Seq::empty()
    } else {
        let rest = keep_nonempty(parts.drop_last());
        if parts.last().len() != 0 {
            rest.push(parts.last())
        } else {
            rest
        }
    }
}

/// Non-empty text has at least one line.
pub proof fn lemma_lines_of_pos(s: Seq<char>)
    requires
        s.len() > 0,
    ensures
        lines_of(s).len() >= 1,
{
    if s.last() == '\n' {
        lemma_split_on_pos(s.drop_last(), '\n');
    } else {
        lemma_split_on_pos(s, '\n');
    }
}

pub open spec fn is_digit(c: char) -> bool {
    '0' as int <= c as int <= '9' as int
}

pub open spec fn all_digits(s: Seq<char>) -> bool {
    forall|i: int| 0 <= i < s.len() ==> is_digit(s[i])
}

/// The value of a sequence of decimal digits, most significant first.
pub open spec fn dec_val(s: Seq<char>) -> int
    decreases s.len(),
{
    if s.len() == 0 {
        0
    } else {
        dec_val(s.drop_last()) * 10 + (s.last() as int - '0' as int)
    }
}

pub proof fn lemma_dec_val_nonneg(s: Seq<char>)
    requires
        all_digits(s),
    ensures
        dec_val(s) >= 0,
    decreases s.len(),
{
    if s.len() > 0 {
        assert(all_digits(s.drop_last()));
        lemma_dec_val_nonneg(s.drop_last());
    }
}

/// Extending a digit string never shrinks its value.
pub proof fn lemma_dec_val_prefix(s: Seq<char>, k: int)
    requires
        all_digits(s),
        0 <= k <= s.len(),
    ensures
        dec_val(s) >= dec_val(s.take(k)),
    decreases s.len() - k,
{
    if k < s.len() {
        assert(all_digits(s.drop_last()));
        assert(s.drop_last().take(k) =~= s.take(k));
        lemma_dec_val_prefix(s.drop_last(), k);
        lemma_dec_val_nonneg(s.drop_last());
    } else {
        assert(s.take(k) =~= s);
    }
}

/// Parses a non-empty, all-digit decimal string into a `usize`; anything
/// else, and any value over `usize::MAX`, is refused.
pub fn parse_usize(s: &str) -> (r: Option<usize>)
    ensures
        r is Some <==> (s@.len() > 0 && all_digits(s@) && dec_val(s@) <= usize::MAX as int),
        r matches Some(v) ==> v as int == dec_val(s@),
{
    let n = s.unicode_len();
    if n == 0 {
        return None;
    }
    let mut acc: usize = 0;
    let mut i: usize = 0;
    while i < n
        invariant
            0 <= i <= n,
            n == s@.len(),
            n > 0,
            all_digits(s@.take(i as int)),
            acc as int == dec_val(s@.take(i as int)),
        decreases n - i,
    {
        let c = s.get_char(i);
        let u = c as u32;
        if !(48 <= u && u <= 57) {
            assert(!is_digit(s@[i as int]));
            return None;
        }
        let d = (u - 48) as usize;
        if acc > (usize::MAX - d) / 10 {
            proof {
                assert(acc * 10 + d > usize::MAX) by (nonlinear_arith)
                    requires
                        acc > (usize::MAX - d) / 10,
                        d <= 9,
                ;
                assert(s@.take(i + 1).drop_last() =~= s@.take(i as int));
                assert(dec_val(s@.take(i + 1)) == acc * 10 + d);
                assert(all_digits(s@.take(i + 1)));
                if all_digits(s@) {
                    lemma_dec_val_prefix(s@, i + 1);
                }
            }
            return None;
        }
        proof {
            assert(acc * 10 + d <= usize::MAX) by (nonlinear_arith)
                requires
                    acc <= (usize::MAX - d) / 10,
                    d <= 9,
            ;
            assert(s@.take(i + 1).drop_last() =~= s@.take(i as int));
        }
        acc = acc * 10 + d;
        i = i + 1;
    }
    proof {
        assert(s@.take(n as int) =~= s@);
    }
    Some(acc)
}

/// Parses a decimal string into a `u32` under the same rules as
/// `parse_usize`, with the `u32` range as the bound.
pub fn parse_u32(s: &str) -> (r: Option<u32>)
    ensures
        r is Some <==> (s@.len() > 0 && all_digits(s@) && dec_val(s@) <= u32::MAX as int),
        r matches Some(v) ==> v as int == dec_val(s@),
{
    match parse_usize(s) {
        Some(v) => {
            if v <= u32::MAX as usize {
                Some(v as u32)
            } else {
                None
            }
        },
        None => None,
    }
}

/// A username is accepted when it is non-empty, shorter than 15 characters
/// and free of the comma separator.
pub open spec fn valid_username(s: Seq<char>) -> bool {
    0 < s.len() < 15 && forall|i: int| 0 <= i < s.len() ==> s[i] != ','
}

pub fn validate_username(username: &str) -> (r: bool)
    ensures
        r == valid_username(username@),
{
    let n = username.unicode_len();
    if n == 0 || n >= 15 {
        return false;
    }
    let mut i: usize = 0;
    while i < n
        invariant
            0 <= i <= n,
            n == username@.len(),
            forall|j: int| 0 <= j < i ==> username@[j] != ',',
        decreases n - i,
    {
        if username.get_char(i) == ',' {
            return false;
        }
        i = i + 1;
    }
    true
}

/// What `str::trim` returns: a function of the characters alone.
pub uninterp spec fn trim_of(s: Seq<char>) -> Seq<char>;

/// What `str::to_lowercase` returns: a function of the characters alone.
pub uninterp spec fn lower_of(s: Seq<char>) -> Seq<char>;

/// Relies on `str::trim` for dropping leading and trailing whitespace.
#[verifier::external_body]
pub(crate) fn trim_str(s: &str) -> (r: &str)
    ensures
        r@ == trim_of(s@),
{
    s.trim()
}

/// Relies on `str::to_lowercase` for Unicode lowercasing.
#[verifier::external_body]
pub(crate) fn lowercase_str(s: &str) -> (r: String)
    ensures
        r@ == lower_of(s@),
{
    s.to_lowercase()
}

/// Trims `s` and lowercases the remainder, the normal form in which both
/// guesses and stored words are compared.
pub fn normalize(s: &str) -> (r: String)
    ensures
        r@ == lower_of(trim_of(s@)),
{
    lowercase_str(trim_str(s))
}

} // verus!
