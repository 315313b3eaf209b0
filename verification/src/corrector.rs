//! The corrector: an alphabet, a frequency table, training and correction.

use vstd::prelude::*;
use vstd::hash_map::*;
use vstd::string::*;
use crate::edits::{
    edit_count, edits_of, edits_of_each, edits_over, lemma_edits_of_each_step, second_edits_of,
};
use crate::extract::{extract_sites, site_tokens};
use crate::frequency::{
    count_of, fits, lemma_fits_prefix, lemma_occurrences_prefix, lemma_occurrences_push,
    lemma_tally_nothing, lemma_tally_push, occurrences, tally,
};
use crate::ranking::{best_known, best_of, is_winner_of, lemma_winner_iff_known, prefer};

verus! {

/// The correction of `word`: the word itself where it is known; else the
/// winner among its edits; else the winner among the edits of its edits;
/// else none.
pub open spec fn correction(table: Map<Seq<char>, u32>, letters: Seq<char>, word: Seq<char>) -> Option<
    Seq<char>,
> {
    if table.contains_key(word) {
        Some(word)
    } else if best_of(table, edits_of(word, letters)) is Some {
        best_of(table, edits_of(word, letters))
    } else {
        best_of(table, second_edits_of(word, letters))
    }
}

/// Every token that has an entry was seen at least once.
spec fn all_seen(table: Map<Seq<char>, u32>) -> bool {
    forall|token: Seq<char>| #[trigger] table.contains_key(token) ==> table[token] >= 1
}

/// Counts each entry of `tokens` once in `table`.
fn count_each(table: &mut StringHashMap<u32>, tokens: &Vec<String>)
    requires
        fits(old(table)@, tokens.deep_view()),
        all_seen(old(table)@),
    ensures
        final(table)@ == tally(old(table)@, tokens.deep_view()),
        all_seen(final(table)@),
{
    let ghost start = table@;
    let mut i: usize = 0;
    proof {
        lemma_tally_nothing(start);
        assert(tokens.deep_view().take(0) =~= Seq::<Seq<char>>::empty());
    }
    while i < tokens.len()
        invariant
            i <= tokens.len(),
            fits(start, tokens.deep_view()),
            table@ == tally(start, tokens.deep_view().take(i as int)),
            all_seen(table@),
        decreases tokens.len() - i,
    {
        let token = &tokens[i];
        let seen: u32 = match table.get(token.as_str()) {
            Some(seen) => *seen,
            None => 0,
        };
        proof {
            let sofar = tokens.deep_view().take(i as int);
            assert(sofar.push(token@) =~= tokens.deep_view().take(i + 1));
            lemma_fits_prefix(start, tokens.deep_view(), i + 1);
            lemma_tally_push(start, sofar, token@);
        }
        table.insert(token.clone(), seen + 1);
        i += 1;
    }
    assert(tokens.deep_view().take(i as int) =~= tokens.deep_view());
}

/// The most frequent known token among the edits of each of `tokens`; among
/// several of the highest count, the last one.
fn best_known_edit(table: &StringHashMap<u32>, letters: &str, tokens: &Vec<String>) -> (winner:
    Option<String>)
    ensures
        winner.deep_view() == best_of(table@, edits_of_each(tokens.deep_view(), letters@)),
{
    let mut best: Option<(String, u32)> = None;
    let ghost mut seen: Seq<Seq<char>> = Seq::empty();
    let mut i: usize = 0;
    proof {
        lemma_winner_iff_known(table@, seen);
        assert(tokens.deep_view().take(0).map_values(|token: Seq<char>| edits_of(token, letters@))
            =~= Seq::<Seq<Seq<char>>>::empty());
    }
    while i < tokens.len()
        invariant
            i <= tokens.len(),
            seen == edits_of_each(tokens.deep_view().take(i as int), letters@),
            is_winner_of(best, table@, seen),
        decreases tokens.len() - i,
    {
        let second = edits_over(tokens[i].as_str(), letters);
        let ghost done = seen;
        let mut j: usize = 0;
        assert(seen =~= done + second.deep_view().take(0));
        while j < second.len()
            invariant
                j <= second.len(),
                seen == done + second.deep_view().take(j as int),
                is_winner_of(best, table@, seen),
            decreases second.len() - j,
        {
            best = prefer(table, best, &second[j], Ghost(seen));
            proof {
                seen = seen.push(second[j as int]@);
                assert(seen =~= done + second.deep_view().take(j + 1));
            }
            j += 1;
        }
        proof {
            assert(second.deep_view().take(j as int) =~= second.deep_view());
            lemma_edits_of_each_step(tokens.deep_view(), letters@, i as int);
        }
        i += 1;
    }
    assert(tokens.deep_view().take(i as int) =~= tokens.deep_view());
    match best {
        Some(pair) => Some(pair.0),
        None => None,
    }
}

/// A corrector for tokens over a fixed alphabet.
pub struct URL {
    /// The characters that an edit may put into a token.
    letters: String,
    /// How often each token was seen in training.
    url_counts: StringHashMap<u32>,
}

impl URL {
    /// The alphabet is not empty, and a token that has an entry was seen at
    /// least once.
    #[verifier::type_invariant]
    spec fn valid(self) -> bool {
        &&& self.letters@.len() > 0
        &&& all_seen(self.url_counts@)
    }

    /// The alphabet, in the order in which edits draw on it.
    pub closed spec fn alphabet(&self) -> Seq<char> {
        self.letters@
    }

    /// The frequency table.
    pub closed spec fn counts(&self) -> Map<Seq<char>, u32> {
        self.url_counts@
    }

    /// A corrector over the alphabet `letters` that has seen no token yet.
    pub fn new(letters: &str) -> (url: URL)
        requires
            letters@.len() > 0,
        ensures
            url.alphabet() == letters@,
            url.counts() == Map::<Seq<char>, u32>::empty(),
    {
        URL { letters: String::from_str(letters), url_counts: StringHashMap::new() }
    }

    /// The alphabet.
    pub fn letters(&self) -> (letters: &str)
        ensures
            letters@ == self.alphabet(),
            letters@.len() > 0,
    {
        proof {
            use_type_invariant(self);
        }
        self.letters.as_str()
    }

    /// How often `token` was seen in training. It is zero exactly for a token
    /// that has no entry.
    pub fn count(&self, token: &str) -> (seen: u32)
        ensures
            seen == count_of(self.counts(), token@),
            seen == 0 <==> !self.counts().contains_key(token@),
    {
        proof {
            use_type_invariant(self);
        }
        match self.url_counts.get(token) {
            Some(seen) => *seen,
            None => 0,
        }
    }

    /// Every result of one edit of `word` over the alphabet: the deletions,
    /// the transpositions, the substitutions and the insertions, in this
    /// order and with duplicates.
    pub fn edits(&mut self, word: &str) -> (out: Vec<String>)
        ensures
            *final(self) == *old(self),
            out.deep_view() == edits_of(word@, old(self).alphabet()),
            out.len() == edit_count(word@.len(), old(self).alphabet().len()),
    {
        edits_over(word, self.letters.as_str())
    }

    /// The most frequent known token among `candidates`; among several of
    /// the highest count, the last one. `None` where none is known.
    pub fn best_among(&self, candidates: &Vec<String>) -> (winner: Option<String>)
        ensures
            winner.deep_view() == best_of(self.counts(), candidates.deep_view()),
    {
        best_known(&self.url_counts, candidates)
    }

    /// Counts each entry of `tokens` once.
    pub fn observe(&mut self, tokens: &Vec<String>)
        requires
            fits(old(self).counts(), tokens.deep_view()),
        ensures
            final(self).alphabet() == old(self).alphabet(),
            final(self).counts() == tally(old(self).counts(), tokens.deep_view()),
    {
        proof {
            use_type_invariant(&*self);
        }
        // The table leaves the corrector while it is updated.
        let mut table: StringHashMap<u32> = StringHashMap::new();
        core::mem::swap(&mut self.url_counts, &mut table);
        count_each(&mut table, tokens);
        core::mem::swap(&mut self.url_counts, &mut table);
    }

    /// Whether every count stays within `u32` once each entry of `tokens`
    /// has been counted.
    pub fn has_room_for(&self, tokens: &Vec<String>) -> (ok: bool)
        ensures
            ok == fits(self.counts(), tokens.deep_view()),
    {
        let mut pending: StringHashMap<u32> = StringHashMap::new();
        let mut i: usize = 0;
        proof {
            assert(tokens.deep_view().take(0) =~= Seq::<Seq<char>>::empty());
            assert(Seq::<Seq<char>>::empty().to_multiset() =~= vstd::multiset::Multiset::empty())
                by {
                Seq::<Seq<char>>::empty().to_multiset_ensures();
            }
        }
        while i < tokens.len()
            invariant
                i <= tokens.len(),
                forall|token: Seq<char>|
                    count_of(pending@, token) == #[trigger] occurrences(
                        tokens.deep_view().take(i as int),
                        token,
                    ),
                fits(self.url_counts@, tokens.deep_view().take(i as int)),
            decreases tokens.len() - i,
        {
            let token = &tokens[i];
            let seen = self.count(token.as_str());
            let more: u32 = match pending.get(token.as_str()) {
                Some(more) => *more,
                None => 0,
            };
            let ghost sofar = tokens.deep_view().take(i as int);
            proof {
                assert(sofar.push(token@) =~= tokens.deep_view().take(i + 1));
                assert(count_of(self.url_counts@, token@) + occurrences(sofar, token@) <= u32::MAX);
                assert forall|other: Seq<char>|
                    occurrences(tokens.deep_view().take(i + 1), other) == occurrences(
                        sofar,
                        other,
                    ) + (if other == token@ {
                        1nat
                    } else {
                        0nat
                    }) by {
                    lemma_occurrences_push(sofar, token@, other);
                }
            }
            if more >= u32::MAX - seen {
                proof {
                    lemma_occurrences_prefix(tokens.deep_view(), i + 1, token@);
                    assert(count_of(self.url_counts@, token@) + occurrences(
                        tokens.deep_view(),
                        token@,
                    ) > u32::MAX);
                }
                return false;
            }
            pending.insert(token.clone(), more + 1);
            proof {
                assert forall|other: Seq<char>|
                    count_of(pending@, other) == #[trigger] occurrences(
                        tokens.deep_view().take(i + 1),
                        other,
                    ) by {
                    assert(count_of(pending@, other) == occurrences(sofar, other) + (if other
                        == token@ {
                        1nat
                    } else {
                        0nat
                    }));
                }
                assert forall|other: Seq<char>|
                    count_of(self.url_counts@, other) + #[trigger] occurrences(
                        tokens.deep_view().take(i + 1),
                        other,
                    ) <= u32::MAX by {
                    assert(count_of(self.url_counts@, other) + occurrences(sofar, other)
                        <= u32::MAX);
                }
            }
            i += 1;
        }
        assert(tokens.deep_view().take(i as int) =~= tokens.deep_view());
        true
    }

    /// Counts each token of `text` once: the host part of each link in the
    /// lowercased text.
    pub fn train(&mut self, text: &str)
        requires
            fits(old(self).counts(), site_tokens(text@)),
        ensures
            final(self).alphabet() == old(self).alphabet(),
            final(self).counts() == tally(old(self).counts(), site_tokens(text@)),
    {
        let tokens = extract_sites(text);
        self.observe(&tokens);
    }

    /// The correction of `word`. A known word is its own correction. Else
    /// the most frequent known token among the edits of the word is returned,
    /// and where none of them is known, the most frequent known token among
    /// the edits of those edits. Among several of the highest count the last
    /// one generated wins. `None` says that nothing known is within two edits.
    pub fn correct(&mut self, word: &str) -> (found: Option<String>)
        ensures
            *final(self) == *old(self),
            found.deep_view() == correction(old(self).counts(), old(self).alphabet(), word@),
    {
        if self.url_counts.contains_key(word) {
            return Some(String::from_str(word));
        }
        let firsts = self.edits(word);
        let first = self.best_among(&firsts);
        if first.is_some() {
            return first;
        }
        best_known_edit(&self.url_counts, self.letters.as_str(), &firsts)
    }

    /// Trains on `text` where every count stays within `u32`, and says
    /// whether it did. Where it did not, nothing changes.
    pub fn try_train(&mut self, text: &str) -> (trained: bool)
        ensures
            trained == fits(old(self).counts(), site_tokens(text@)),
            final(self).alphabet() == old(self).alphabet(),
            trained ==> final(self).counts() == tally(old(self).counts(), site_tokens(text@)),
            !trained ==> final(self).counts() == old(self).counts(),
    {
        let tokens = extract_sites(text);
        if self.has_room_for(&tokens) {
            self.train(text);
            true
        } else {
            false
        }
    }
}

} // verus!
