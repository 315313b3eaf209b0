//! What holds of correction and training, whatever the table, the alphabet
//! and the word.

use vstd::prelude::*;
use crate::corrector::correction;
use crate::edits::{
    edits_of, lemma_deletion_is_edit, lemma_edits_of_each_members, lemma_insertion_is_edit,
    lemma_substitution_is_edit, lemma_transposition_is_edit, second_edits_of, swapped,
};
use crate::frequency::{
    count_of, fits, lemma_occurrences_concat, lemma_tally_concat, occurrences, tally,
};
use crate::ranking::{any_known, best_of, leads, lemma_leader_wins, lemma_winner_iff_known};

verus! {

/// The winner of a list is one of its known candidates, and no known
/// candidate of the list is more frequent. A list without a winner has no
/// known candidate.
pub proof fn lemma_winner_is_most_frequent(table: Map<Seq<char>, u32>, candidates: Seq<Seq<char>>)
    ensures
        match best_of(table, candidates) {
            Some(winner) => {
                &&& candidates.contains(winner)
                &&& table.contains_key(winner)
                &&& forall|i: int|
                    0 <= i < candidates.len() && table.contains_key(#[trigger] candidates[i])
                        ==> table[candidates[i]] <= table[winner]
            },
            None => !any_known(table, candidates),
        },
{
    lemma_winner_iff_known(table, candidates);
    if any_known(table, candidates) {
        let at = choose|at: int| leads(table, candidates, at);
        lemma_leader_wins(table, candidates, at);
        assert(candidates[at] == best_of(table, candidates)->0);
    }
}

/// A known word is its own correction, whatever else the table holds.
pub proof fn lemma_known_word_stays(table: Map<Seq<char>, u32>, letters: Seq<char>, word: Seq<char>)
    requires
        table.contains_key(word),
    ensures
        correction(table, letters, word) == Some(word),
{
}

/// Where an unknown word has a known edit, its correction is one of its
/// known edits, and one at least as frequent as that edit.
pub proof fn lemma_known_edit_found(
    table: Map<Seq<char>, u32>,
    letters: Seq<char>,
    word: Seq<char>,
    edit: Seq<char>,
)
    requires
        !table.contains_key(word),
        edits_of(word, letters).contains(edit),
        table.contains_key(edit),
    ensures
        correction(table, letters, word) is Some,
        edits_of(word, letters).contains(correction(table, letters, word)->0),
        table.contains_key(correction(table, letters, word)->0),
        table[edit] <= table[correction(table, letters, word)->0],
{
    let firsts = edits_of(word, letters);
    let at = choose|at: int| 0 <= at < firsts.len() && firsts[at] == edit;
    assert(table.contains_key(firsts[at]));
    lemma_winner_is_most_frequent(table, firsts);
}

/// A known token that is the word without one of its characters is found
/// among the word's edits.
pub proof fn lemma_deletion_found(
    table: Map<Seq<char>, u32>,
    letters: Seq<char>,
    word: Seq<char>,
    i: int,
)
    requires
        0 <= i < word.len(),
        !table.contains_key(word),
        table.contains_key(word.remove(i)),
    ensures
        correction(table, letters, word) is Some,
        edits_of(word, letters).contains(correction(table, letters, word)->0),
        table[word.remove(i)] <= table[correction(table, letters, word)->0],
{
    lemma_deletion_is_edit(word, letters, i);
    lemma_known_edit_found(table, letters, word, word.remove(i));
}

/// A known token that is the word with two adjacent characters exchanged is
/// found among the word's edits.
pub proof fn lemma_transposition_found(
    table: Map<Seq<char>, u32>,
    letters: Seq<char>,
    word: Seq<char>,
    i: int,
)
    requires
        0 <= i < word.len() - 1,
        !table.contains_key(word),
        table.contains_key(swapped(word, i)),
    ensures
        correction(table, letters, word) is Some,
        edits_of(word, letters).contains(correction(table, letters, word)->0),
        table[swapped(word, i)] <= table[correction(table, letters, word)->0],
{
    lemma_transposition_is_edit(word, letters, i);
    lemma_known_edit_found(table, letters, word, swapped(word, i));
}

/// A known token that is the word with one character replaced by a letter
/// of the alphabet is found among the word's edits.
pub proof fn lemma_substitution_found(
    table: Map<Seq<char>, u32>,
    letters: Seq<char>,
    word: Seq<char>,
    i: int,
    letter: char,
)
    requires
        0 <= i < word.len(),
        letters.contains(letter),
        !table.contains_key(word),
        table.contains_key(word.update(i, letter)),
    ensures
        correction(table, letters, word) is Some,
        edits_of(word, letters).contains(correction(table, letters, word)->0),
        table[word.update(i, letter)] <= table[correction(table, letters, word)->0],
{
    let j = choose|j: int| 0 <= j < letters.len() && letters[j] == letter;
    lemma_substitution_is_edit(word, letters, i, j);
    lemma_known_edit_found(table, letters, word, word.update(i, letter));
}

/// A known token that is the word with one letter of the alphabet inserted
/// is found among the word's edits.
pub proof fn lemma_insertion_found(
    table: Map<Seq<char>, u32>,
    letters: Seq<char>,
    word: Seq<char>,
    i: int,
    letter: char,
)
    requires
        0 <= i <= word.len(),
        letters.contains(letter),
        !table.contains_key(word),
        table.contains_key(word.insert(i, letter)),
    ensures
        correction(table, letters, word) is Some,
        edits_of(word, letters).contains(correction(table, letters, word)->0),
        table[word.insert(i, letter)] <= table[correction(table, letters, word)->0],
{
    let j = choose|j: int| 0 <= j < letters.len() && letters[j] == letter;
    lemma_insertion_is_edit(word, letters, i, j);
    lemma_known_edit_found(table, letters, word, word.insert(i, letter));
}

/// The correction of an unknown word is the winner among its edits where one
/// of them is known, however frequent the edits of its edits are. Only where
/// none is known is it the winner among the edits of its edits.
pub proof fn lemma_second_edits_come_last(
    table: Map<Seq<char>, u32>,
    letters: Seq<char>,
    word: Seq<char>,
)
    requires
        !table.contains_key(word),
    ensures
        any_known(table, edits_of(word, letters)) ==> correction(table, letters, word) == best_of(
            table,
            edits_of(word, letters),
        ),
        !any_known(table, edits_of(word, letters)) ==> correction(table, letters, word) == best_of(
            table,
            second_edits_of(word, letters),
        ),
        correction(table, letters, word) is Some && !edits_of(word, letters).contains(
            correction(table, letters, word)->0,
        ) ==> !any_known(table, edits_of(word, letters)),
{
    lemma_winner_iff_known(table, edits_of(word, letters));
    lemma_winner_is_most_frequent(table, edits_of(word, letters));
}

/// Where no edit of an unknown word is known but an edit of one of its edits
/// is, the correction is a known edit of one of its edits, and one at least
/// as frequent as that edit.
pub proof fn lemma_second_edit_found(
    table: Map<Seq<char>, u32>,
    letters: Seq<char>,
    word: Seq<char>,
    first: int,
    second: Seq<char>,
)
    requires
        !table.contains_key(word),
        !any_known(table, edits_of(word, letters)),
        0 <= first < edits_of(word, letters).len(),
        edits_of(edits_of(word, letters)[first], letters).contains(second),
        table.contains_key(second),
    ensures
        correction(table, letters, word) is Some,
        second_edits_of(word, letters).contains(correction(table, letters, word)->0),
        table.contains_key(correction(table, letters, word)->0),
        table[second] <= table[correction(table, letters, word)->0],
{
    let seconds = second_edits_of(word, letters);
    lemma_second_edits_come_last(table, letters, word);
    lemma_edits_of_each_members(edits_of(word, letters), letters, second);
    let at = choose|at: int| 0 <= at < seconds.len() && seconds[at] == second;
    assert(table.contains_key(seconds[at]));
    lemma_winner_is_most_frequent(table, seconds);
}

/// A word has no correction exactly where it is unknown and so is every
/// token within two edits of it.
pub proof fn lemma_no_correction(table: Map<Seq<char>, u32>, letters: Seq<char>, word: Seq<char>)
    ensures
        correction(table, letters, word) is None <==> {
            &&& !table.contains_key(word)
            &&& !any_known(table, edits_of(word, letters))
            &&& !any_known(table, second_edits_of(word, letters))
        },
{
    lemma_winner_iff_known(table, edits_of(word, letters));
    lemma_winner_iff_known(table, second_edits_of(word, letters));
}

/// Two tables know the same tokens and order them alike by frequency.
pub open spec fn same_ranking(one: Map<Seq<char>, u32>, other: Map<Seq<char>, u32>) -> bool {
    &&& forall|token: Seq<char>| one.contains_key(token) == other.contains_key(token)
    &&& forall|a: Seq<char>, b: Seq<char>|
        one.contains_key(a) && one.contains_key(b) ==> (#[trigger] one[a] <= #[trigger] one[b])
            == (other[a] <= other[b])
}

/// Tables that know the same tokens and order them alike have the same
/// winner in every list.
pub proof fn lemma_same_ranking_same_winner(
    one: Map<Seq<char>, u32>,
    other: Map<Seq<char>, u32>,
    candidates: Seq<Seq<char>>,
)
    requires
        same_ranking(one, other),
    ensures
        best_of(one, candidates) == best_of(other, candidates),
{
    assert forall|at: int| leads(one, candidates, at) == leads(other, candidates, at) by {
        if 0 <= at < candidates.len() && one.contains_key(candidates[at]) {
            let top = candidates[at];
            assert forall|i: int|
                0 <= i < candidates.len() && one.contains_key(#[trigger] candidates[i]) implies (
            one[candidates[i]] <= one[top]) == (other[candidates[i]] <= other[top]) && (
            one[candidates[i]] < one[top]) == (other[candidates[i]] < other[top]) by {
                let c = candidates[i];
                assert((one[c] <= one[top]) == (other[c] <= other[top]));
                assert((one[top] <= one[c]) == (other[top] <= other[c]));
            }
        }
    }
    if exists|at: int| leads(one, candidates, at) {
        let at = choose|at: int| leads(one, candidates, at);
        assert(leads(other, candidates, at));
        lemma_leader_wins(one, candidates, at);
        lemma_leader_wins(other, candidates, at);
    } else {
        assert forall|at: int| !leads(other, candidates, at) by {
            assert(leads(one, candidates, at) == leads(other, candidates, at));
        }
    }
}

/// Tables that know the same tokens and order them alike by frequency
/// correct every word alike.
pub proof fn lemma_same_ranking_same_correction(
    one: Map<Seq<char>, u32>,
    other: Map<Seq<char>, u32>,
    letters: Seq<char>,
    word: Seq<char>,
)
    requires
        same_ranking(one, other),
    ensures
        correction(one, letters, word) == correction(other, letters, word),
{
    lemma_same_ranking_same_winner(one, other, edits_of(word, letters));
    lemma_same_ranking_same_winner(one, other, second_edits_of(word, letters));
}

/// Counting the same tokens a second time adds to each count as much as the
/// first time did. A token that was unknown before has its count doubled.
pub proof fn lemma_training_twice_doubles(
    table: Map<Seq<char>, u32>,
    tokens: Seq<Seq<char>>,
    token: Seq<char>,
)
    requires
        fits(table, tokens),
        fits(tally(table, tokens), tokens),
    ensures
        count_of(tally(tally(table, tokens), tokens), token) == count_of(table, token) + 2
            * occurrences(tokens, token),
        count_of(tally(tally(table, tokens), tokens), token) - count_of(tally(table, tokens), token)
            == count_of(tally(table, tokens), token) - count_of(table, token),
        !table.contains_key(token) ==> count_of(tally(tally(table, tokens), tokens), token) == 2
            * count_of(tally(table, tokens), token),
        tally(tally(table, tokens), tokens).contains_key(token) == tally(
            table,
            tokens,
        ).contains_key(token),
{
    lemma_tally_concat(table, tokens, tokens);
    lemma_occurrences_concat(tokens, tokens, token);
    assert(count_of(table, token) + occurrences(tokens + tokens, token) <= u32::MAX);
    assert(count_of(table, token) + occurrences(tokens, token) <= u32::MAX);
}

/// A corrector that was trained twice on the same tokens and on nothing
/// else corrects every word as it did after the first time.
pub proof fn lemma_training_twice_keeps_corrections(
    tokens: Seq<Seq<char>>,
    letters: Seq<char>,
    word: Seq<char>,
)
    requires
        fits(Map::empty(), tokens),
        fits(tally(Map::empty(), tokens), tokens),
    ensures
        correction(tally(tally(Map::empty(), tokens), tokens), letters, word) == correction(
            tally(Map::empty(), tokens),
            letters,
            word,
        ),
{
    let fresh = Map::<Seq<char>, u32>::empty();
    let once = tally(fresh, tokens);
    let twice = tally(once, tokens);
    assert forall|token: Seq<char>| once.contains_key(token) == twice.contains_key(token) by {
        lemma_training_twice_doubles(fresh, tokens, token);
    }
    assert forall|a: Seq<char>, b: Seq<char>| once.contains_key(a) && once.contains_key(b) implies (
    #[trigger] once[a] <= #[trigger] once[b]) == (twice[a] <= twice[b]) by {
        lemma_training_twice_doubles(fresh, tokens, a);
        lemma_training_twice_doubles(fresh, tokens, b);
    }
    lemma_same_ranking_same_correction(once, twice, letters, word);
}

} // verus!
