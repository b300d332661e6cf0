//! Word packs: named, described collections of entries, each a primary word
//! with optional accepted alternate spellings.
//!
//! A pack is parsed from plain text: the first line names it, the second
//! describes it, and every further line is one entry of comma-separated
//! parts.  Each part is trimmed and lowercased; empty parts are dropped, and
//! a line whose primary word already occurs in the pack is skipped.

use vstd::prelude::*;
use vstd::string::*;

use crate::text::{
    keep_nonempty, lines_of, lower_of, normalize, split_lines, split_on, split_str, trim_of,
};

verus! {

/// One entry: the primary word and its accepted alternates, all normalized.
pub struct WordEntry {
    pub word: String,
    pub alternates: Vec<String>,
}

/// The abstract value of an entry.
pub open spec fn entry_view(e: WordEntry) -> (Seq<char>, Seq<Seq<char>>) {
    (e.word@, e.alternates@.map_values(|a: String| a@))
}

/// The abstract value of a pack's entry list.
pub open spec fn pack_view(list: Seq<WordEntry>) -> Seq<(Seq<char>, Seq<Seq<char>>)> {
    list.map_values(|e: WordEntry| entry_view(e))
}

/// Whether a normalized guess hits an entry: its primary word or any
/// alternate, compared exactly.
pub open spec fn entry_matches(entry: (Seq<char>, Seq<Seq<char>>), guess: Seq<char>) -> bool {
    entry.0 == guess || exists|i: int| 0 <= i < entry.1.len() && entry.1[i] == guess
}

/// The normalized, non-empty parts of one entry line.
pub open spec fn norm_parts(line: Seq<char>) -> Seq<Seq<char>> {
    keep_nonempty(split_on(line, ',').map_values(|p: Seq<char>| lower_of(trim_of(p))))
}

/// Folds one entry line into an accumulated entry list: blank lines and
/// duplicate primary words leave the list unchanged.
pub open spec fn add_line(
    acc: Seq<(Seq<char>, Seq<Seq<char>>)>,
    line: Seq<char>,
) -> Seq<(Seq<char>, Seq<Seq<char>>)> {
    let ps = norm_parts(line);
    if ps.len() == 0 {
        acc
    } else if exists|t: int| 0 <= t < acc.len() && acc[t].0 == ps[0] {
        acc
    } else {
        acc.push((ps[0], ps.drop_first()))
    }
}

/// The entry list that a sequence of entry lines yields.
pub open spec fn list_of_lines(lines: Seq<Seq<char>>) -> Seq<(Seq<char>, Seq<Seq<char>>)>
    decreases lines.len(),
{
    if lines.len() == 0 {
        Seq::empty()
    } else {
        add_line(list_of_lines(lines.drop_last()), lines.last())
    }
}

/// A named, described collection of word entries.
pub struct WordPack {
    pub name: String,
    pub description: String,
    pub list: Vec<WordEntry>,
}

impl WordPack {
    /// Parses a pack from its file contents: name line, description line,
    /// then one entry per line.  Refused when the two header lines are
    /// missing.
    pub fn parse(contents: &str) -> (r: Option<WordPack>)
        ensures
            r is Some <==> lines_of(contents@).len() >= 2,
            r matches Some(pack) ==> {
                let ls = lines_of(contents@);
                &&& pack.name@ == ls[0]
                &&& pack.description@ == ls[1]
                &&& pack_view(pack.list@) == list_of_lines(ls.skip(2))
            },
    {
        let lines = split_lines(contents);
        let ghost lviews = lines@.map_values(|l: String| l@);
        if lines.len() < 2 {
            return None;
        }
        let name = lines[0].clone();
        let description = lines[1].clone();
        let mut list: Vec<WordEntry> = Vec::new();
        let mut i: usize = 2;
        proof {
            assert(lviews.subrange(2, 2) =~= Seq::<Seq<char>>::empty());
        }
        while i < lines.len()
            invariant
                2 <= i <= lines.len(),
                lviews == lines@.map_values(|l: String| l@),
                lviews == lines_of(contents@),
                pack_view(list@) == list_of_lines(lviews.subrange(2, i as int)),
            decreases lines.len() - i,
        {
            let parts = split_str(lines[i].as_str(), ',');
            let ghost mapped = split_on(lviews[i as int], ',').map_values(
                |p: Seq<char>| lower_of(trim_of(p)),
            );
            let mut kept: Vec<String> = Vec::new();
            let mut j: usize = 0;
            proof {
                assert(parts@.map_values(|p: String| p@) == split_on(lviews[i as int], ','));
                assert(mapped.take(0) =~= Seq::<Seq<char>>::empty());
                assert(kept@.map_values(|p: String| p@) =~= keep_nonempty(mapped.take(0)));
            }
            while j < parts.len()
                invariant
                    0 <= j <= parts.len(),
                    parts@.map_values(|p: String| p@) == split_on(lviews[i as int], ','),
                    mapped == split_on(lviews[i as int], ',').map_values(
                        |p: Seq<char>| lower_of(trim_of(p)),
                    ),
                    kept@.map_values(|p: String| p@) == keep_nonempty(mapped.take(j as int)),
                decreases parts.len() - j,
            {
                let norm = normalize(parts[j].as_str());
                proof {
                    assert(mapped[j as int] == lower_of(trim_of(parts@[j as int]@)));
                    assert(mapped.take(j + 1).drop_last() =~= mapped.take(j as int));
                    if norm@.len() != 0 {
                        assert((kept@.push(norm)).map_values(|p: String| p@) =~= kept@.map_values(
                            |p: String| p@,
                        ).push(norm@));
                    }
                }
                if norm.as_str().unicode_len() > 0 {
                    kept.push(norm);
                }
                j = j + 1;
            }
            proof {
                assert(mapped.take(parts@.len() as int) =~= mapped);
                assert(kept@.map_values(|p: String| p@) == norm_parts(lviews[i as int]));
            }
            if kept.len() > 0 {
                let mut dup = false;
                let mut k: usize = 0;
                while k < list.len()
                    invariant
                        0 <= k <= list.len(),
                        kept@.len() > 0,
                        dup <==> exists|t: int|
                            0 <= t < k && list@[t].word@ == kept@[0]@,
                    decreases list.len() - k,
                {
                    if list[k].word == kept[0] {
                        dup = true;
                    }
                    k = k + 1;
                }
                proof {
                    let ps = norm_parts(lviews[i as int]);
                    assert(kept@[0]@ == ps[0]);
                    assert(forall|t: int|
                        0 <= t < list@.len() ==> pack_view(list@)[t].0 == (#[trigger] list@[t]).word@);
                    assert(dup <==> exists|t: int|
                        0 <= t < pack_view(list@).len() && pack_view(list@)[t].0 == ps[0]);
                }
                if !dup {
                    let mut kept = kept;
                    let word = kept.remove(0);
                    let ghost ps = norm_parts(lviews[i as int]);
                    proof {
                        assert(kept@.map_values(|p: String| p@) =~= ps.drop_first());
                    }
                    let entry = WordEntry { word, alternates: kept };
                    proof {
                        assert(entry_view(entry) == (ps[0], ps.drop_first()));
                        assert(pack_view(list@.push(entry)) =~= pack_view(list@).push(
                            entry_view(entry),
                        ));
                    }
                    list.push(entry);
                }
            }
            proof {
                assert(lviews.subrange(2, i + 1).drop_last() =~= lviews.subrange(2, i as int));
                assert(lviews.subrange(2, i + 1).last() == lviews[i as int]);
            }
            i = i + 1;
        }
        proof {
            assert(lviews.subrange(2, lines@.len() as int) =~= lviews.skip(2));
        }
        Some(WordPack { name, description, list })
    }

    /// The number of entries in the pack.
    pub fn list_len(&self) -> (n: usize)
        ensures
            n == self.list@.len(),
    {
        self.list.len()
    }

    pub fn get_name(&self) -> (r: &String)
        ensures
            r == &self.name,
    {
        &self.name
    }

    pub fn get_description(&self) -> (r: &String)
        ensures
            r == &self.description,
    {
        &self.description
    }

    /// The primary word of the entry at `index`.
    pub fn get_word(&self, index: usize) -> (r: &String)
        requires
            index < self.list@.len(),
        ensures
            r == &self.list@[index as int].word,
    {
        &self.list[index].word
    }

    /// The alternate spelling `alternate` of the entry at `word`.
    pub fn get_alternate(&self, word: usize, alternate: usize) -> (r: &String)
        requires
            word < self.list@.len(),
            alternate < self.list@[word as int].alternates@.len(),
        ensures
            r == &self.list@[word as int].alternates@[alternate as int],
    {
        &self.list[word].alternates[alternate]
    }

    /// Whether a normalized guess hits the entry at `index`: equal to the
    /// primary word (then no alternate index), or to the first matching
    /// alternate (then its index).
    pub fn word_matches(&self, index: usize, guess: &String) -> (r: (bool, Option<usize>))
        requires
            index < self.list@.len(),
        ensures
            r.0 == entry_matches(entry_view(self.list@[index as int]), guess@),
            self.list@[index as int].word@ == guess@ ==> r.1 is None,
            r.1 matches Some(a) ==> {
                let alts = entry_view(self.list@[index as int]).1;
                &&& self.list@[index as int].word@ != guess@
                &&& 0 <= a < alts.len()
                &&& alts[a as int] == guess@
                &&& forall|t: int| 0 <= t < a ==> alts[t] != guess@
            },
            r.0 && self.list@[index as int].word@ != guess@ ==> r.1 is Some,
            !r.0 ==> r.1 is None,
    {
        let entry = &self.list[index];
        if entry.word == *guess {
            return (true, None);
        }
        let ghost alts = entry_view(self.list@[index as int]).1;
        let mut a: usize = 0;
        while a < entry.alternates.len()
            invariant
                0 <= a <= entry.alternates@.len(),
                index < self.list@.len(),
                *entry == self.list@[index as int],
                self.list@[index as int].word@ != guess@,
                alts == entry_view(self.list@[index as int]).1,
                forall|t: int| 0 <= t < a ==> alts[t] != guess@,
            decreases entry.alternates@.len() - a,
        {
            if entry.alternates[a] == *guess {
                proof {
                    assert(alts[a as int] == entry.alternates@[a as int]@);
                    assert(entry_matches(entry_view(self.list@[index as int]), guess@));
                }
                return (true, Some(a));
            }
            a = a + 1;
        }
        (false, None)
    }
}

} // verus!
