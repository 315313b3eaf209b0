//! Choosing among candidates by how often each was seen.
//!
//! Only candidates that the frequency table knows take part. The most
//! frequent one wins; where several share the highest count, the one that
//! stands last in the list wins.

use vstd::prelude::*;
use vstd::hash_map::*;

verus! {

/// Some candidate is a key of the table.
pub open spec fn any_known(table: Map<Seq<char>, u32>, candidates: Seq<Seq<char>>) -> bool {
    exists|i: int| 0 <= i < candidates.len() && table.contains_key(#[trigger] candidates[i])
}

/// The candidate at `at` is known, no known candidate before it is more
/// frequent, and every known candidate after it is less frequent.
pub open spec fn leads(table: Map<Seq<char>, u32>, candidates: Seq<Seq<char>>, at: int) -> bool {
    &&& 0 <= at < candidates.len()
    &&& table.contains_key(candidates[at])
    &&& forall|i: int|
        0 <= i < at && table.contains_key(#[trigger] candidates[i]) ==> table[candidates[i]]
            <= table[candidates[at]]
    &&& forall|i: int|
        at < i < candidates.len() && table.contains_key(#[trigger] candidates[i])
            ==> table[candidates[i]] < table[candidates[at]]
}

/// The winning candidate, or `None` where no candidate is known.
pub open spec fn best_of(table: Map<Seq<char>, u32>, candidates: Seq<Seq<char>>) -> Option<
    Seq<char>,
> {
    if exists|at: int| leads(table, candidates, at) {
        Some(candidates[choose|at: int| leads(table, candidates, at)])
    } else {
        None
    }
}

/// At most one position leads.
pub proof fn lemma_leader_unique(
    table: Map<Seq<char>, u32>,
    candidates: Seq<Seq<char>>,
    a: int,
    b: int,
)
    requires
        leads(table, candidates, a),
        leads(table, candidates, b),
    ensures
        a == b,
{
    if a < b {
        assert(table[candidates[b]] < table[candidates[a]]);
    } else if b < a {
        assert(table[candidates[a]] < table[candidates[b]]);
    }
}

/// The candidate at a leading position is the winner.
pub proof fn lemma_leader_wins(table: Map<Seq<char>, u32>, candidates: Seq<Seq<char>>, at: int)
    requires
        leads(table, candidates, at),
    ensures
        best_of(table, candidates) == Some(candidates[at]),
{
    let chosen = choose|at: int| leads(table, candidates, at);
    lemma_leader_unique(table, candidates, at, chosen);
}

/// Where a position leads in a list, the list with one more candidate has a
/// leader too: the new candidate if it is known and at least as frequent,
/// else the same position.
pub proof fn lemma_leader_step(
    table: Map<Seq<char>, u32>,
    candidates: Seq<Seq<char>>,
    at: int,
    next: Seq<char>,
)
    requires
        leads(table, candidates, at),
    ensures
        table.contains_key(next) && table[candidates[at]] <= table[next] ==> leads(
            table,
            candidates.push(next),
            candidates.len() as int,
        ),
        !(table.contains_key(next) && table[candidates[at]] <= table[next]) ==> leads(
            table,
            candidates.push(next),
            at,
        ),
{
    let longer = candidates.push(next);
    assert forall|i: int| 0 <= i < candidates.len() implies #[trigger] longer[i] == candidates[i] by {}
    if table.contains_key(next) && table[candidates[at]] <= table[next] {
        assert forall|i: int|
            0 <= i < candidates.len() && table.contains_key(#[trigger] longer[i]) implies table[longer[i]]
            <= table[next] by {
            assert(longer[i] == candidates[i]);
            if i < at {
                assert(table[candidates[i]] <= table[candidates[at]]);
            } else if i > at {
                assert(table[candidates[i]] < table[candidates[at]]);
            }
        }
    } else {
        assert(longer[at] == candidates[at]);
        assert forall|i: int|
            0 <= i < at && table.contains_key(#[trigger] longer[i]) implies table[longer[i]]
            <= table[longer[at]] by {
            assert(longer[i] == candidates[i]);
        }
        assert forall|i: int|
            at < i < longer.len() && table.contains_key(#[trigger] longer[i]) implies table[longer[i]]
            < table[longer[at]] by {
            if i < candidates.len() {
                assert(longer[i] == candidates[i]);
            }
        }
    }
}

/// A list has a winner exactly where one of its candidates is known.
pub proof fn lemma_winner_iff_known(table: Map<Seq<char>, u32>, candidates: Seq<Seq<char>>)
    ensures
        best_of(table, candidates) is Some <==> any_known(table, candidates),
        any_known(table, candidates) ==> exists|at: int| leads(table, candidates, at),
    decreases candidates.len(),
{
    if candidates.len() > 0 {
        let shorter = candidates.drop_last();
        let next = candidates.last();
        assert(shorter.push(next) =~= candidates);
        lemma_winner_iff_known(table, shorter);
        if any_known(table, shorter) {
            let at = choose|at: int| leads(table, shorter, at);
            lemma_leader_step(table, shorter, at, next);
            if table.contains_key(next) && table[shorter[at]] <= table[next] {
                assert(leads(table, candidates, shorter.len() as int));
            } else {
                assert(leads(table, candidates, at));
            }
        } else if table.contains_key(next) {
            let at = shorter.len() as int;
            assert forall|i: int| 0 <= i < at implies !table.contains_key(#[trigger] candidates[i]) by {
                assert(candidates[i] == shorter[i]);
            }
            assert(leads(table, candidates, at));
        } else {
            assert forall|i: int| 0 <= i < candidates.len() implies !table.contains_key(
                #[trigger] candidates[i],
            ) by {
                if i < shorter.len() {
                    assert(candidates[i] == shorter[i]);
                }
            }
        }
    }
    if exists|at: int| leads(table, candidates, at) {
        let at = choose|at: int| leads(table, candidates, at);
        assert(table.contains_key(candidates[at]));
    }
}

/// Adding one candidate at the end changes the winner only where the new
/// candidate is known and at least as frequent as the winner so far.
pub proof fn lemma_best_of_push(
    table: Map<Seq<char>, u32>,
    candidates: Seq<Seq<char>>,
    next: Seq<char>,
)
    ensures
        best_of(table, candidates.push(next)) == (match best_of(table, candidates) {
            Some(winner) => if table.contains_key(next) && table[winner] <= table[next] {
                Some(next)
            } else {
                Some(winner)
            },
            None => if table.contains_key(next) {
                Some(next)
            } else {
                None
            },
        }),
{
    let longer = candidates.push(next);
    let end = candidates.len() as int;
    lemma_winner_iff_known(table, candidates);
    lemma_winner_iff_known(table, longer);
    assert forall|i: int| 0 <= i < end implies #[trigger] longer[i] == candidates[i] by {}
    if any_known(table, candidates) {
        let at = choose|at: int| leads(table, candidates, at);
        lemma_leader_wins(table, candidates, at);
        lemma_leader_step(table, candidates, at, next);
        if table.contains_key(next) && table[candidates[at]] <= table[next] {
            lemma_leader_wins(table, longer, end);
        } else {
            lemma_leader_wins(table, longer, at);
        }
    } else if table.contains_key(next) {
        assert forall|i: int| 0 <= i < end implies !table.contains_key(#[trigger] longer[i]) by {
            assert(longer[i] == candidates[i]);
        }
        assert(leads(table, longer, end));
        lemma_leader_wins(table, longer, end);
    } else {
        assert forall|i: int| 0 <= i < longer.len() implies !table.contains_key(
            #[trigger] longer[i],
        ) by {
            if i < end {
                assert(longer[i] == candidates[i]);
            }
        }
    }
}

/// `best` is the winner among `seen`, together with its count.
pub(crate) open spec fn is_winner_of(
    best: Option<(String, u32)>,
    table: Map<Seq<char>, u32>,
    seen: Seq<Seq<char>>,
) -> bool {
    match best {
        Some(pair) => {
            &&& best_of(table, seen) == Some(pair.0@)
            &&& table.contains_key(pair.0@)
            &&& table[pair.0@] == pair.1
        },
        None => best_of(table, seen) is None,
    }
}

/// The winner among the candidates seen so far and one more candidate.
pub(crate) fn prefer(
    table: &StringHashMap<u32>,
    best: Option<(String, u32)>,
    candidate: &String,
    Ghost(seen): Ghost<Seq<Seq<char>>>,
) -> (next: Option<(String, u32)>)
    requires
        is_winner_of(best, table@, seen),
    ensures
        is_winner_of(next, table@, seen.push(candidate@)),
{
    proof {
        lemma_best_of_push(table@, seen, candidate@);
    }
    match table.get(candidate.as_str()) {
        None => best,
        Some(count) => {
            let count: u32 = *count;
            let replace = match &best {
                None => true,
                Some(pair) => pair.1 <= count,
            };
            if replace {
                Some((candidate.clone(), count))
            } else {
                best
            }
        },
    }
}

/// The most frequent known token among `candidates`; among several of the
/// highest count, the last one.
pub(crate) fn best_known(table: &StringHashMap<u32>, candidates: &Vec<String>) -> (winner: Option<String>)
    ensures
        winner.deep_view() == best_of(table@, candidates.deep_view()),
{
    let mut best: Option<(String, u32)> = None;
    let mut i: usize = 0;
    proof {
        lemma_winner_iff_known(table@, candidates.deep_view().take(0));
    }
    while i < candidates.len()
        invariant
            i <= candidates.len(),
            is_winner_of(best, table@, candidates.deep_view().take(i as int)),
        decreases candidates.len() - i,
    {
        let ghost seen = candidates.deep_view().take(i as int);
        best = prefer(table, best, &candidates[i], Ghost(seen));
        assert(seen.push(candidates[i as int]@) =~= candidates.deep_view().take(i + 1));
        i += 1;
    }
    assert(candidates.deep_view().take(i as int) =~= candidates.deep_view());
    match best {
        Some(pair) => Some(pair.0),
        None => None,
    }
}

} // verus!
