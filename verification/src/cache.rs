//! The titles seen at the last listing: the set that decides which topics are
//! new, and the text in which it is kept between runs, one title to a line.

use vstd::prelude::*;
use vstd::string::StringExecFns;
use crate::text::{
    chars_of, free_of, lemma_first_line, lemma_single_line, lines_of, rows, split_lines,
    string_of, texts,
};

verus! {

/// A set of titles. A title is in it or not by its exact characters.
pub struct TitleSet {
    titles: Vec<String>,
}

impl View for TitleSet {
    type V = Set<Seq<char>>;

    closed spec fn view(&self) -> Set<Seq<char>> {
        texts(self.titles@).to_set()
    }
}

impl TitleSet {
    /// The set is well formed: no title is held twice.
    pub closed spec fn wf(&self) -> bool {
        texts(self.titles@).no_duplicates()
    }

    /// The set that holds no title.
    pub fn new() -> (known: Self)
        ensures
            known.wf(),
            known@ == Set::<Seq<char>>::empty(),
    {
        let known = TitleSet { titles: Vec::new() };
        assert(known@ =~= Set::<Seq<char>>::empty());
        known
    }

    /// Tells whether `title` is in the set.
    pub fn contains(&self, title: &String) -> (r: bool)
        ensures
            r == self@.contains(title@),
    {
        let mut i: usize = 0;
        while i < self.titles.len()
            invariant
                i <= self.titles.len(),
                forall|j: int| 0 <= j < i ==> texts(self.titles@)[j] != title@,
            decreases self.titles.len() - i,
        {
            if self.titles[i] == *title {
                assert(texts(self.titles@)[i as int] == title@);
                return true;
            }
            i += 1;
        }
        false
    }

    /// Puts `title` into the set.
    pub fn insert(&mut self, title: String)
        requires
            old(self).wf(),
        ensures
            final(self).wf(),
            final(self)@ == old(self)@.insert(title@),
    {
        if !self.contains(&title) {
            let ghost before = self.titles@;
            self.titles.push(title);
            assert(texts(self.titles@) =~= texts(before).push(title@));
            proof {
                texts(before).lemma_push_to_set_commute(title@);
            }
        } else {
            assert(self@ =~= old(self)@.insert(title@));
        }
    }

    /// How many titles the set holds.
    pub fn len(&self) -> (n: usize)
        requires
            self.wf(),
        ensures
            n == self@.len(),
    {
        proof {
            texts(self.titles@).unique_seq_to_set();
        }
        self.titles.len()
    }
}

/// The text in which a list of titles is kept: each title, then a line feed.
pub open spec fn encoded(titles: Seq<Seq<char>>) -> Seq<char>
    decreases titles.len(),
{
    if titles.len() == 0 {
        Seq::empty()
    } else {
        titles[0] + seq!['\n'] + encoded(titles.skip(1))
    }
}

/// No title of the list holds a line feed.
pub open spec fn single_lines(titles: Seq<Seq<char>>) -> bool {
    forall|i: int| 0 <= i < titles.len() ==> free_of(#[trigger] titles[i], '\n')
}

/// Reading back what was written gives the titles that were written, in
/// their order, and one empty line behind them, provided that no title holds
/// a line feed. As a set that is the titles written and the empty title.
pub proof fn lemma_cache_round_trip(titles: Seq<Seq<char>>)
    requires
        single_lines(titles),
    ensures
        lines_of(encoded(titles)) == titles.push(Seq::empty()),
        lines_of(encoded(titles)).to_set() == titles.to_set().insert(Seq::empty()),
    decreases titles.len(),
{
    let text = encoded(titles);
    if titles.len() == 0 {
        lemma_single_line(text);
        assert(lines_of(text) =~= titles.push(Seq::empty()));
    } else {
        let first = titles[0];
        let rest = titles.skip(1);
        assert(single_lines(rest)) by {
            assert forall|i: int| 0 <= i < rest.len() implies free_of(#[trigger] rest[i], '\n') by {
                assert(rest[i] == titles[i + 1]);
            }
        }
        assert(free_of(first, '\n'));
        lemma_cache_round_trip(rest);
        lemma_first_line(first, encoded(rest));
        assert(seq![first] + rest.push(Seq::empty()) =~= titles.push(Seq::empty()));
    }
    titles.lemma_push_to_set_commute(Seq::<char>::empty());
}

/// The text in which `titles` are kept: each title, then a line feed.
pub fn encode_cache(titles: &Vec<String>) -> (out: String)
    ensures
        out@ == encoded(texts(titles@)),
{
    let mut out = String::new();
    let mut i: usize = 0;
    let ghost all = texts(titles@);
    assert(all.skip(0) =~= all);
    assert(out@ + encoded(all) =~= encoded(all));
    while i < titles.len()
        invariant
            i <= titles.len(),
            all == texts(titles@),
            out@ + encoded(all.skip(i as int)) == encoded(all),
        decreases titles.len() - i,
    {
        let ghost before = out@;
        out.append(titles[i].as_str());
        out.push('\n');
        assert(all.skip(i as int).skip(1) =~= all.skip(i + 1));
        assert(all.skip(i as int)[0] == titles@[i as int]@);
        assert(out@ + encoded(all.skip(i + 1)) =~= before + (titles@[i as int]@ + seq!['\n']
            + encoded(all.skip(i + 1))));
        i += 1;
    }
    assert(all.skip(i as int) =~= Seq::<Seq<char>>::empty());
    assert(out@ + Seq::<char>::empty() =~= out@);
    out
}

/// The set of titles that a kept text holds: its lines. A text that ends in
/// a line feed gives the empty title too.
pub fn decode_cache(contents: &str) -> (known: TitleSet)
    ensures
        known.wf(),
        known@ == lines_of(contents@).to_set(),
{
    let chars = chars_of(contents);
    let lines = split_lines(chars.as_slice());
    let mut known = TitleSet::new();
    let mut i: usize = 0;
    assert(rows(lines@).take(0).to_set() =~= Set::<Seq<char>>::empty());
    while i < lines.len()
        invariant
            i <= lines.len(),
            known.wf(),
            known@ == rows(lines@).take(i as int).to_set(),
        decreases lines.len() - i,
    {
        known.insert(string_of(lines[i].as_slice()));
        proof {
            let all = rows(lines@);
            assert(all.take(i + 1) =~= all.take(i as int).push(all[i as int]));
            all.take(i as int).lemma_push_to_set_commute(all[i as int]);
        }
        i += 1;
    }
    assert(rows(lines@).take(i as int) =~= rows(lines@));
    known
}

} // verus!
