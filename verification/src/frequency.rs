//! The frequency table as a mathematical map, and what training does to it.
//!
//! The table maps each token seen so far to the number of times it was seen.
//! A token that was never seen has no entry and counts as zero.

use vstd::prelude::*;

verus! {

/// How often `token` was seen: its entry, or zero where it has none.
pub open spec fn count_of(table: Map<Seq<char>, u32>, token: Seq<char>) -> nat {
    if table.contains_key(token) {
        table[token] as nat
    } else {
        0
    }
}

/// How many entries of `tokens` equal `token`.
pub open spec fn occurrences(tokens: Seq<Seq<char>>, token: Seq<char>) -> nat {
    tokens.to_multiset().count(token)
}

/// Every count stays within `u32` once each entry of `tokens` has been
/// counted.
pub open spec fn fits(table: Map<Seq<char>, u32>, tokens: Seq<Seq<char>>) -> bool {
    forall|token: Seq<char>|
        count_of(table, token) + #[trigger] occurrences(tokens, token) <= u32::MAX
}

/// The table after each entry of `tokens` has been counted once: a token's
/// count grows by the number of its occurrences, and a token that occurs
/// gets an entry.
pub open spec fn tally(table: Map<Seq<char>, u32>, tokens: Seq<Seq<char>>) -> Map<
    Seq<char>,
    u32,
> {
    Map::new(
        |token: Seq<char>| table.contains_key(token) || occurrences(tokens, token) > 0,
        |token: Seq<char>| (count_of(table, token) + occurrences(tokens, token)) as u32,
    )
}

/// Counting no tokens leaves the table as it is.
pub proof fn lemma_tally_nothing(table: Map<Seq<char>, u32>)
    ensures
        tally(table, Seq::empty()) == table,
{
    assert(Seq::<Seq<char>>::empty().to_multiset() =~= vstd::multiset::Multiset::empty()) by {
        Seq::<Seq<char>>::empty().to_multiset_ensures();
    }
    assert(tally(table, Seq::empty()) =~= table);
}

/// One more token at the end is one more occurrence of that token and of no
/// other.
pub proof fn lemma_occurrences_push(tokens: Seq<Seq<char>>, next: Seq<char>, token: Seq<char>)
    ensures
        occurrences(tokens.push(next), token) == occurrences(tokens, token) + (if token == next {
            1nat
        } else {
            0nat
        }),
{
    vstd::seq_lib::to_multiset_build(tokens, next);
}

/// A token occurs in the first `upto` entries at most as often as in all.
pub proof fn lemma_occurrences_prefix(tokens: Seq<Seq<char>>, upto: int, token: Seq<char>)
    requires
        0 <= upto <= tokens.len(),
    ensures
        occurrences(tokens.take(upto), token) <= occurrences(tokens, token),
    decreases tokens.len() - upto,
{
    if upto < tokens.len() {
        lemma_occurrences_prefix(tokens, upto + 1, token);
        assert(tokens.take(upto).push(tokens[upto]) =~= tokens.take(upto + 1));
        lemma_occurrences_push(tokens.take(upto), tokens[upto], token);
    } else {
        assert(tokens.take(upto) =~= tokens);
    }
}

/// Where all the tokens fit, the first `upto` of them fit.
pub proof fn lemma_fits_prefix(table: Map<Seq<char>, u32>, tokens: Seq<Seq<char>>, upto: int)
    requires
        0 <= upto <= tokens.len(),
        fits(table, tokens),
    ensures
        fits(table, tokens.take(upto)),
{
    assert forall|token: Seq<char>|
        count_of(table, token) + #[trigger] occurrences(tokens.take(upto), token) <= u32::MAX by {
        lemma_occurrences_prefix(tokens, upto, token);
        assert(count_of(table, token) + occurrences(tokens, token) <= u32::MAX);
    }
}

/// Counting one more token raises the entry of that token by one and
/// changes no other, as long as the counts fit.
pub proof fn lemma_tally_push(table: Map<Seq<char>, u32>, tokens: Seq<Seq<char>>, next: Seq<char>)
    requires
        fits(table, tokens.push(next)),
    ensures
        fits(table, tokens),
        count_of(tally(table, tokens), next) < u32::MAX,
        tally(table, tokens.push(next)) == tally(table, tokens).insert(
            next,
            (count_of(tally(table, tokens), next) + 1) as u32,
        ),
{
    let longer = tokens.push(next);
    assert forall|token: Seq<char>|
        count_of(table, token) + #[trigger] occurrences(tokens, token) <= u32::MAX by {
        lemma_occurrences_push(tokens, next, token);
        assert(count_of(table, token) + occurrences(longer, token) <= u32::MAX);
    }
    lemma_occurrences_push(tokens, next, next);
    assert(count_of(table, next) + occurrences(longer, next) <= u32::MAX);
    assert forall|token: Seq<char>|
        #![auto]
        tally(table, longer).contains_key(token) == tally(table, tokens).insert(
            next,
            (count_of(tally(table, tokens), next) + 1) as u32,
        ).contains_key(token) by {
        lemma_occurrences_push(tokens, next, token);
    }
    assert forall|token: Seq<char>| #![auto] tally(table, longer).contains_key(token) implies tally(
        table,
        longer,
    )[token] == tally(table, tokens).insert(
        next,
        (count_of(tally(table, tokens), next) + 1) as u32,
    )[token] by {
        lemma_occurrences_push(tokens, next, token);
        assert(count_of(table, token) + occurrences(longer, token) <= u32::MAX);
    }
    assert(tally(table, longer) =~= tally(table, tokens).insert(
        next,
        (count_of(tally(table, tokens), next) + 1) as u32,
    ));
}

/// A token occurs in two lists put together as often as in both.
pub proof fn lemma_occurrences_concat(
    first: Seq<Seq<char>>,
    second: Seq<Seq<char>>,
    token: Seq<char>,
)
    ensures
        occurrences(first + second, token) == occurrences(first, token) + occurrences(
            second,
            token,
        ),
{
    vstd::seq_lib::lemma_multiset_commutative(first, second);
}

/// Counting one list and then another is counting the two put together.
pub proof fn lemma_tally_concat(
    table: Map<Seq<char>, u32>,
    first: Seq<Seq<char>>,
    second: Seq<Seq<char>>,
)
    requires
        fits(table, first),
        fits(tally(table, first), second),
    ensures
        fits(table, first + second),
        tally(tally(table, first), second) == tally(table, first + second),
{
    let once = tally(table, first);
    assert forall|token: Seq<char>|
        count_of(table, token) + #[trigger] occurrences(first + second, token) <= u32::MAX by {
        lemma_occurrences_concat(first, second, token);
        assert(count_of(table, token) + occurrences(first, token) <= u32::MAX);
        assert(count_of(once, token) + occurrences(second, token) <= u32::MAX);
    }
    assert forall|token: Seq<char>|
        #![auto]
        tally(once, second).contains_key(token) == tally(table, first + second).contains_key(
            token,
        ) by {
        lemma_occurrences_concat(first, second, token);
    }
    assert forall|token: Seq<char>| #![auto] tally(once, second).contains_key(token) implies tally(
        once,
        second,
    )[token] == tally(table, first + second)[token] by {
        lemma_occurrences_concat(first, second, token);
        assert(count_of(table, token) + occurrences(first, token) <= u32::MAX);
        assert(count_of(once, token) + occurrences(second, token) <= u32::MAX);
    }
    assert(tally(once, second) =~= tally(table, first + second));
}

} // verus!
