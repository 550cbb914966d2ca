//! One listing of the menu: the topics of its pages are marked against the
//! titles kept at the listing before, and their own titles are kept in turn,
//! in place of the earlier ones.

use vstd::prelude::*;
use crate::cache::{
    decode_cache, encode_cache, encoded, lemma_cache_round_trip, single_lines, TitleSet,
};
use crate::extract::{body_of, extract_topics, topics_in, ParseError};
use crate::number::all_digits;
use crate::page::{
    lemma_topics_of_line, lemma_topics_of_line_whatever_known, topic_models, topics_of_line,
    Topic, TopicModel,
};
use crate::text::{free_of, lemma_lines_hold_no_line_feed, lines_of, texts};

verus! {

/// The titles of the given topics, in their order.
pub open spec fn titles_of(topics: Seq<TopicModel>) -> Seq<Seq<char>> {
    topics.map_values(|t: TopicModel| t.title)
}

/// Adds the titles of `topics`, in their order, to the titles `seen` in this
/// listing: the list that is kept once the listing is complete.
pub fn remember(seen: &mut Vec<String>, topics: &Vec<Topic>)
    ensures
        texts(final(seen)@) == texts(old(seen)@) + titles_of(topic_models(topics@)),
{
    let mut i: usize = 0;
    let ghost titles = titles_of(topic_models(topics@));
    assert(texts(seen@) + titles.take(0) =~= texts(seen@));
    while i < topics.len()
        invariant
            i <= topics.len(),
            titles == titles_of(topic_models(topics@)),
            texts(seen@) == texts(old(seen)@) + titles.take(i as int),
        decreases topics.len() - i,
    {
        let ghost before = seen@;
        let title = topics[i].title.clone();
        seen.push(title);
        assert(texts(seen@) =~= texts(before).push(title@));
        assert(titles.take(i + 1) =~= titles.take(i as int).push(titles[i as int]));
        assert(texts(seen@) =~= texts(old(seen)@) + titles.take(i + 1));
        i += 1;
    }
    assert(titles.take(i as int) =~= titles);
}

/// A listing under way: the titles known before it, and the titles seen in
/// it so far.
pub struct Listing {
    known: TitleSet,
    seen: Vec<String>,
}

impl Listing {
    /// The titles known before this listing.
    pub closed spec fn known(&self) -> Set<Seq<char>> {
        self.known@
    }

    /// The titles seen in this listing so far, in the order of the pages.
    pub closed spec fn seen(&self) -> Seq<Seq<char>> {
        texts(self.seen@)
    }

    /// Begins a listing. `kept` is the text kept at the listing before, or
    /// nothing where none was kept: then no title is known.
    pub fn begin(kept: Option<&str>) -> (listing: Self)
        ensures
            listing.seen() == Seq::<Seq<char>>::empty(),
            listing.known() == match kept {
                Some(text) => lines_of(text@).to_set(),
                None => Set::<Seq<char>>::empty(),
            },
    {
        let known = match kept {
            Some(text) => decode_cache(text),
            None => TitleSet::new(),
        };
        let listing = Listing { known, seen: Vec::new() };
        assert(listing.seen() =~= Seq::<Seq<char>>::empty());
        listing
    }

    /// The topics of one page of the menu, marked against the titles known
    /// before the listing; their titles are added to the titles seen. A
    /// response that is refused adds none.
    pub fn page(&mut self, raw: &str) -> (r: Result<Vec<Topic>, ParseError>)
        ensures
            final(self).known() == old(self).known(),
            match r {
                Ok(topics) => {
                    &&& body_of(raw@) is Some
                    &&& topic_models(topics@) == topics_in(
                        lines_of(body_of(raw@).unwrap()),
                        old(self).known(),
                    )
                    &&& final(self).seen() == old(self).seen() + titles_of(topic_models(topics@))
                },
                Err(e) => {
                    &&& body_of(raw@) is None
                    &&& e == ParseError::MissingSeparator
                    &&& final(self).seen() == old(self).seen()
                },
            },
    {
        match extract_topics(raw, &self.known) {
            Ok(topics) => {
                remember(&mut self.seen, &topics);
                Ok(topics)
            },
            Err(e) => Err(e),
        }
    }

    /// Ends the listing: the text to keep, which holds the titles seen in it
    /// and none of those known before.
    pub fn finish(self) -> (kept: String)
        ensures
            kept@ == encoded(self.seen()),
    {
        encode_cache(&self.seen)
    }
}

/// A topic is marked new exactly where its title is not among the known ones.
pub proof fn lemma_new_means_unknown(lines: Seq<Seq<char>>, known: Set<Seq<char>>)
    ensures
        forall|i: int|
            0 <= i < topics_in(lines, known).len() ==> (#[trigger] topics_in(lines, known)[i]).is_new
                == !known.contains(topics_in(lines, known)[i].title),
    decreases lines.len(),
{
    if lines.len() > 0 {
        lemma_new_means_unknown(lines.drop_last(), known);
        lemma_topics_of_line(lines.last(), known, ' ');
        let before = topics_in(lines.drop_last(), known);
        let row = topics_of_line(lines.last(), known);
        let all = topics_in(lines, known);
        assert forall|i: int| 0 <= i < all.len() implies (#[trigger] all[i]).is_new
            == !known.contains(all[i].title) by {
            if i < before.len() {
                assert(all[i] == before[i]);
            } else {
                assert(all[i] == row[i - before.len()]);
            }
        }
    }
}

/// The page reference of every topic is made of digits, at least one.
pub proof fn lemma_indices_are_digits(lines: Seq<Seq<char>>, known: Set<Seq<char>>)
    ensures
        forall|i: int|
            0 <= i < topics_in(lines, known).len() ==> (#[trigger] topics_in(lines, known)[i]).index.len()
                >= 1 && all_digits(topics_in(lines, known)[i].index),
    decreases lines.len(),
{
    if lines.len() > 0 {
        lemma_indices_are_digits(lines.drop_last(), known);
        lemma_topics_of_line(lines.last(), known, ' ');
        let before = topics_in(lines.drop_last(), known);
        let row = topics_of_line(lines.last(), known);
        let all = topics_in(lines, known);
        assert forall|i: int| 0 <= i < all.len() implies (#[trigger] all[i]).index.len() >= 1
            && all_digits(all[i].index) by {
            if i < before.len() {
                assert(all[i] == before[i]);
            } else {
                assert(all[i] == row[i - before.len()]);
            }
        }
    }
}

/// Which titles a page shows does not depend on the titles known.
pub proof fn lemma_titles_whatever_known(
    lines: Seq<Seq<char>>,
    one: Set<Seq<char>>,
    other: Set<Seq<char>>,
)
    ensures
        titles_of(topics_in(lines, one)) == titles_of(topics_in(lines, other)),
    decreases lines.len(),
{
    if lines.len() > 0 {
        lemma_titles_whatever_known(lines.drop_last(), one, other);
        lemma_topics_of_line_whatever_known(lines.last(), one, other);
        let a = topics_in(lines.drop_last(), one);
        let b = topics_in(lines.drop_last(), other);
        let ra = topics_of_line(lines.last(), one);
        let rb = topics_of_line(lines.last(), other);
        assert(titles_of(ra) =~= titles_of(rb));
        assert(titles_of(a + ra) =~= titles_of(a) + titles_of(ra));
        assert(titles_of(b + rb) =~= titles_of(b) + titles_of(rb));
    }
}

/// The titles that a page shows hold no line feed, as its lines hold none.
pub proof fn lemma_titles_single_lines(lines: Seq<Seq<char>>, known: Set<Seq<char>>)
    requires
        forall|i: int| 0 <= i < lines.len() ==> free_of(#[trigger] lines[i], '\n'),
    ensures
        single_lines(titles_of(topics_in(lines, known))),
    decreases lines.len(),
{
    if lines.len() > 0 {
        let before = lines.drop_last();
        assert forall|i: int| 0 <= i < before.len() implies free_of(#[trigger] before[i], '\n') by {
            assert(before[i] == lines[i]);
        }
        lemma_titles_single_lines(before, known);
        assert(free_of(lines.last(), '\n'));
        lemma_topics_of_line(lines.last(), known, '\n');
        let a = topics_in(before, known);
        let row = topics_of_line(lines.last(), known);
        let titles = titles_of(topics_in(lines, known));
        assert(titles =~= titles_of(a) + titles_of(row));
        assert forall|i: int| 0 <= i < titles.len() implies free_of(#[trigger] titles[i], '\n') by {
            if i < a.len() {
                assert(titles[i] == titles_of(a)[i]);
            } else {
                assert(titles[i] == row[i - a.len()].title);
            }
        }
    }
}

/// On a first run, when no title is known, every topic is marked new.
pub proof fn lemma_first_listing_all_new(lines: Seq<Seq<char>>)
    ensures
        forall|i: int|
            0 <= i < topics_in(lines, Set::empty()).len() ==> (#[trigger] topics_in(
                lines,
                Set::empty(),
            )[i]).is_new,
{
    lemma_new_means_unknown(lines, Set::empty());
}

/// A page that is listed again unchanged shows nothing new: against the
/// titles read back from what the first listing kept, whatever was known at
/// that first listing, the same titles come out and none is marked new.
pub proof fn lemma_repeated_listing_nothing_new(body: Seq<char>, known: Set<Seq<char>>)
    ensures
        ({
            let lines = lines_of(body);
            let first = topics_in(lines, known);
            let kept = encoded(titles_of(first));
            let again = topics_in(lines, lines_of(kept).to_set());
            &&& titles_of(again) == titles_of(first)
            &&& forall|i: int| 0 <= i < again.len() ==> !(#[trigger] again[i]).is_new
        }),
{
    let lines = lines_of(body);
    let first = topics_in(lines, known);
    let titles = titles_of(first);
    let kept = encoded(titles);
    let read = lines_of(kept).to_set();
    let again = topics_in(lines, read);
    lemma_lines_hold_no_line_feed(body);
    lemma_titles_single_lines(lines, known);
    lemma_cache_round_trip(titles);
    lemma_titles_whatever_known(lines, read, known);
    lemma_new_means_unknown(lines, read);
    assert forall|i: int| 0 <= i < again.len() implies !(#[trigger] again[i]).is_new by {
        assert(titles_of(again)[i] == again[i].title);
        assert(titles[i] == again[i].title);
        assert(titles.to_set().contains(titles[i]));
    }
}

} // verus!
