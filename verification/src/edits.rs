//! The single-edit neighbourhood of a token.
//!
//! A token is a sequence of characters. One edit deletes a character, swaps
//! two adjacent characters, replaces a character by a letter of the alphabet,
//! or inserts a letter of the alphabet. The neighbourhood lists every result
//! of one edit, duplicates included, in a fixed order.

use vstd::prelude::*;
use vstd::string::*;
use vstd::arithmetic::div_mod::lemma_fundamental_div_mod_converse;

verus! {

/// The token with each of its characters removed in turn, from the first
/// position to the last.
pub open spec fn deletions_of(word: Seq<char>) -> Seq<Seq<char>> {
    Seq::new(word.len(), |i: int| word.remove(i))
}

/// `word` with the characters at `i` and `i + 1` exchanged.
pub open spec fn swapped(word: Seq<char>, i: int) -> Seq<char> {
    word.update(i, word[i + 1]).update(i + 1, word[i])
}

/// The token with each pair of adjacent characters exchanged in turn, from
/// the first pair to the last. A token of fewer than two characters has none.
pub open spec fn transpositions_of(word: Seq<char>) -> Seq<Seq<char>> {
    Seq::new(
        if word.len() < 2 { 0 } else { (word.len() - 1) as nat },
        |i: int| swapped(word, i),
    )
}

/// The token with each of its characters replaced by each letter in turn:
/// position by position, and for one position letter by letter. A letter
/// that equals the character it replaces is not left out.
pub open spec fn substitutions_of(word: Seq<char>, letters: Seq<char>) -> Seq<Seq<char>> {
    Seq::new(
        word.len() * letters.len(),
        |x: int| word.update(x / (letters.len() as int), letters[x % (letters.len() as int)]),
    )
}

/// The token with each letter inserted before each position and at the end:
/// position by position, and for one position letter by letter.
pub open spec fn insertions_of(word: Seq<char>, letters: Seq<char>) -> Seq<Seq<char>> {
    Seq::new(
        (word.len() + 1) * letters.len(),
        |x: int| word.insert(x / (letters.len() as int), letters[x % (letters.len() as int)]),
    )
}

/// Every result of one edit of `word`: the deletions, then the
/// transpositions, then the substitutions, then the insertions.
pub open spec fn edits_of(word: Seq<char>, letters: Seq<char>) -> Seq<Seq<char>> {
    deletions_of(word) + transpositions_of(word) + substitutions_of(word, letters)
        + insertions_of(word, letters)
}

/// The edits of each token of a list, one token's edits after those of the
/// token before it.
pub open spec fn edits_of_each(tokens: Seq<Seq<char>>, letters: Seq<char>) -> Seq<Seq<char>> {
    tokens.map_values(|token: Seq<char>| edits_of(token, letters)).flatten()
}

/// Every result of two edits of `word`: the edits of each of its edits.
pub open spec fn second_edits_of(word: Seq<char>, letters: Seq<char>) -> Seq<Seq<char>> {
    edits_of_each(edits_of(word, letters), letters)
}

/// How many results one edit of a token of `len` characters has over an
/// alphabet of `letters` letters.
pub open spec fn edit_count(len: nat, letters: nat) -> nat {
    len + (if len < 2 { 0 } else { (len - 1) as nat }) + len * letters + (len + 1) * letters
}

/// The neighbourhood of a token has as many entries as its four blocks
/// together.
pub proof fn lemma_edit_count(word: Seq<char>, letters: Seq<char>)
    ensures
        edits_of(word, letters).len() == edit_count(word.len(), letters.len()),
{
}

/// Deleting any one character of a token is one of its edits.
pub proof fn lemma_deletion_is_edit(word: Seq<char>, letters: Seq<char>, i: int)
    requires
        0 <= i < word.len(),
    ensures
        edits_of(word, letters).contains(word.remove(i)),
{
    assert(edits_of(word, letters)[i] == word.remove(i));
}

/// Exchanging any two adjacent characters of a token is one of its edits.
pub proof fn lemma_transposition_is_edit(word: Seq<char>, letters: Seq<char>, i: int)
    requires
        0 <= i < word.len() - 1,
    ensures
        edits_of(word, letters).contains(swapped(word, i)),
{
    assert(edits_of(word, letters)[word.len() + i] == swapped(word, i));
}

/// Replacing any one character of a token by any letter is one of its edits.
pub proof fn lemma_substitution_is_edit(word: Seq<char>, letters: Seq<char>, i: int, j: int)
    requires
        0 <= i < word.len(),
        0 <= j < letters.len(),
    ensures
        edits_of(word, letters).contains(word.update(i, letters[j])),
{
    let width = letters.len() as int;
    let rows = word.len() as int;
    lemma_row_index(i, j, width, rows);
    let before = deletions_of(word).len() + transpositions_of(word).len();
    assert(substitutions_of(word, letters)[i * width + j] == word.update(i, letters[j]));
    assert(edits_of(word, letters)[before + i * width + j] == word.update(i, letters[j]));
}

/// Inserting any letter at any position of a token, the end included, is
/// one of its edits.
pub proof fn lemma_insertion_is_edit(word: Seq<char>, letters: Seq<char>, i: int, j: int)
    requires
        0 <= i <= word.len(),
        0 <= j < letters.len(),
    ensures
        edits_of(word, letters).contains(word.insert(i, letters[j])),
{
    let width = letters.len() as int;
    let rows = word.len() as int + 1;
    lemma_row_index(i, j, width, rows);
    let before = deletions_of(word).len() + transpositions_of(word).len() + substitutions_of(
        word,
        letters,
    ).len();
    assert(insertions_of(word, letters)[i * width + j] == word.insert(i, letters[j]));
    assert(edits_of(word, letters)[before + i * width + j] == word.insert(i, letters[j]));
}

/// A token is among the edits of each of `tokens` exactly where it is an
/// edit of one of them.
pub proof fn lemma_edits_of_each_members(tokens: Seq<Seq<char>>, letters: Seq<char>, token: Seq<char>)
    ensures
        edits_of_each(tokens, letters).contains(token) <==> exists|i: int|
            0 <= i < tokens.len() && #[trigger] edits_of(tokens[i], letters).contains(token),
    decreases tokens.len(),
{
    if tokens.len() == 0 {
        assert(tokens.map_values(|t: Seq<char>| edits_of(t, letters)) =~= Seq::<
            Seq<Seq<char>>,
        >::empty());
    } else {
        let last = tokens.len() - 1;
        let shorter = tokens.take(last);
        lemma_edits_of_each_members(shorter, letters, token);
        lemma_edits_of_each_step(tokens, letters, last);
        assert(tokens.take(last + 1) =~= tokens);
        let head = edits_of_each(shorter, letters);
        let tail = edits_of(tokens[last], letters);
        assert(edits_of_each(tokens, letters) == head + tail);
        if (head + tail).contains(token) {
            let x = choose|x: int| 0 <= x < (head + tail).len() && (head + tail)[x] == token;
            if x < head.len() {
                assert(head[x] == token);
                let i = choose|i: int|
                    0 <= i < shorter.len() && #[trigger] edits_of(shorter[i], letters).contains(
                        token,
                    );
                assert(shorter[i] == tokens[i]);
                assert(edits_of(tokens[i], letters).contains(token));
            } else {
                assert(tail[x - head.len()] == token);
                assert(edits_of(tokens[last], letters).contains(token));
            }
        }
        if exists|i: int|
            0 <= i < tokens.len() && #[trigger] edits_of(tokens[i], letters).contains(token) {
            let i = choose|i: int|
                0 <= i < tokens.len() && #[trigger] edits_of(tokens[i], letters).contains(token);
            if i < last {
                assert(shorter[i] == tokens[i]);
                assert(edits_of(shorter[i], letters).contains(token));
                let x = choose|x: int| 0 <= x < head.len() && head[x] == token;
                assert((head + tail)[x] == token);
            } else {
                let y = choose|y: int| 0 <= y < tail.len() && tail[y] == token;
                assert((head + tail)[head.len() + y] == token);
            }
        }
    }
}

/// The edits of one more token follow the edits of the tokens before it.
pub proof fn lemma_edits_of_each_step(tokens: Seq<Seq<char>>, letters: Seq<char>, upto: int)
    requires
        0 <= upto < tokens.len(),
    ensures
        edits_of_each(tokens.take(upto + 1), letters) == edits_of_each(tokens.take(upto), letters)
            + edits_of(tokens[upto], letters),
{
    let each = |token: Seq<char>| edits_of(token, letters);
    let before = tokens.take(upto).map_values(each);
    assert(tokens.take(upto + 1).map_values(each) =~= before.push(each(tokens[upto])));
    before.lemma_flatten_push(each(tokens[upto]));
}

/// `word` with everything between the positions `upto` and `from` replaced
/// by `middle`.
fn splice(word: &str, upto: usize, middle: &str, from: usize, len: usize) -> (out: String)
    requires
        upto <= from <= len,
        len == word@.len(),
    ensures
        out@ == word@.subrange(0, upto as int) + middle@ + word@.subrange(from as int, len as int),
{
    let mut out = String::from_str(word.substring_char(0, upto));
    out.append(middle);
    out.append(word.substring_char(from, len));
    out
}

/// Every token obtained from `word` by deleting one character.
pub fn deletions(word: &str) -> (out: Vec<String>)
    ensures
        out.deep_view() == deletions_of(word@),
{
    let len = word.unicode_len();
    let mut out: Vec<String> = Vec::new();
    let mut i: usize = 0;
    while i < len
        invariant
            i <= len,
            len == word@.len(),
            out.deep_view() == deletions_of(word@).take(i as int),
        decreases len - i,
    {
        let edit = splice(word, i, "", i + 1, len);
        proof {
            reveal_strlit("");
            assert(edit@ =~= word@.remove(i as int));
        }
        let ghost before = out.deep_view();
        out.push(edit);
        assert(out.deep_view() =~= before.push(edit@));
        assert(out.deep_view() =~= deletions_of(word@).take(i + 1));
        i += 1;
    }
    out
}

/// Every token obtained from `word` by exchanging two adjacent characters.
pub fn transpositions(word: &str) -> (out: Vec<String>)
    ensures
        out.deep_view() == transpositions_of(word@),
{
    let len = word.unicode_len();
    let mut out: Vec<String> = Vec::new();
    if len < 2 {
        assert(out.deep_view() =~= transpositions_of(word@));
        return out;
    }
    let mut i: usize = 0;
    while i < len - 1
        invariant
            2 <= len,
            i <= len - 1,
            len == word@.len(),
            out.deep_view() == transpositions_of(word@).take(i as int),
        decreases len - i,
    {
        let mut pair = String::from_str(word.substring_char(i + 1, i + 2));
        pair.append(word.substring_char(i, i + 1));
        let edit = splice(word, i, pair.as_str(), i + 2, len);
        assert(edit@ =~= swapped(word@, i as int));
        let ghost before = out.deep_view();
        out.push(edit);
        assert(out.deep_view() =~= before.push(edit@));
        assert(out.deep_view() =~= transpositions_of(word@).take(i + 1));
        i += 1;
    }
    out
}

/// The tokens that `splice` gives for one position and each letter in turn.
spec fn row_of(word: Seq<char>, letters: Seq<char>, upto: int, from: int) -> Seq<Seq<char>> {
    Seq::new(
        letters.len(),
        |j: int| word.subrange(0, upto) + seq![letters[j]] + word.subrange(from, word.len() as int),
    )
}

/// Appends to `out`, for each letter in turn, `word` with everything between
/// the positions `upto` and `from` replaced by that letter.
fn push_row(out: &mut Vec<String>, word: &str, letters: &str, upto: usize, from: usize, len: usize, width: usize)
    requires
        upto <= from <= len,
        len == word@.len(),
        width == letters@.len(),
    ensures
        final(out).deep_view() == old(out).deep_view() + row_of(word@, letters@, upto as int, from as int),
{
    let ghost before = out.deep_view();
    let ghost row = row_of(word@, letters@, upto as int, from as int);
    let mut j: usize = 0;
    assert(out.deep_view() =~= before + row.take(0));
    while j < width
        invariant
            j <= width,
            upto <= from <= len,
            len == word@.len(),
            width == letters@.len(),
            row == row_of(word@, letters@, upto as int, from as int),
            out.deep_view() == before + row.take(j as int),
        decreases width - j,
    {
        let edit = splice(word, upto, letters.substring_char(j, j + 1), from, len);
        assert(letters@.subrange(j as int, j + 1) =~= seq![letters@[j as int]]);
        let ghost so_far = out.deep_view();
        out.push(edit);
        assert(out.deep_view() =~= so_far.push(edit@));
        assert(out.deep_view() =~= before + row.take(j + 1));
        j += 1;
    }
    assert(row.take(width as int) =~= row);
}

/// In a listing that runs position by position and, for one position, letter
/// by letter, the entry for position `i` and letter `j` stands at
/// `i * width + j`, and the rows up to position `i` end where row `i + 1`
/// starts.
proof fn lemma_row_index(i: int, j: int, width: int, rows: int)
    requires
        0 <= i < rows,
        0 <= j < width,
    ensures
        (i * width + j) / width == i,
        (i * width + j) % width == j,
        0 <= i * width,
        i * width + width == (i + 1) * width,
        (i + 1) * width <= rows * width,
{
    lemma_fundamental_div_mod_converse(i * width + j, width, i, j);
    assert(0 <= i * width) by (nonlinear_arith)
        requires
            0 <= i,
            0 <= width,
    ;
    assert(i * width + width == (i + 1) * width) by (nonlinear_arith);
    assert((i + 1) * width <= rows * width) by (nonlinear_arith)
        requires
            i + 1 <= rows,
            0 <= width,
    ;
}

/// The substitutions at position `i` follow those at the positions before it.
proof fn lemma_substitution_row(word: Seq<char>, letters: Seq<char>, i: int)
    requires
        0 <= i < word.len(),
    ensures
        substitutions_of(word, letters).take((i + 1) * letters.len()) == substitutions_of(
            word,
            letters,
        ).take(i * letters.len()) + row_of(word, letters, i, i + 1),
{
    let width = letters.len() as int;
    let rows = word.len() as int;
    let all = substitutions_of(word, letters);
    let row = row_of(word, letters, i, i + 1);
    if width == 0 {
        assert(all.take((i + 1) * width) =~= all.take(i * width) + row);
    } else {
        lemma_row_index(i, 0, width, rows);
        let upper = all.take((i + 1) * width);
        let joined = all.take(i * width) + row;
        assert forall|x: int| 0 <= x < upper.len() implies upper[x] == joined[x] by {
            if x >= i * width {
                let j = x - i * width;
                lemma_row_index(i, j, width, rows);
                assert(word.update(i, letters[j]) =~= row[j]);
            }
        }
        assert(upper =~= joined);
    }
}

/// The insertions at position `i` follow those at the positions before it.
proof fn lemma_insertion_row(word: Seq<char>, letters: Seq<char>, i: int)
    requires
        0 <= i <= word.len(),
    ensures
        insertions_of(word, letters).take((i + 1) * letters.len()) == insertions_of(
            word,
            letters,
        ).take(i * letters.len()) + row_of(word, letters, i, i),
{
    let width = letters.len() as int;
    let rows = word.len() as int + 1;
    let all = insertions_of(word, letters);
    let row = row_of(word, letters, i, i);
    if width == 0 {
        assert(all.take((i + 1) * width) =~= all.take(i * width) + row);
    } else {
        lemma_row_index(i, 0, width, rows);
        let upper = all.take((i + 1) * width);
        let joined = all.take(i * width) + row;
        assert forall|x: int| 0 <= x < upper.len() implies upper[x] == joined[x] by {
            if x >= i * width {
                let j = x - i * width;
                lemma_row_index(i, j, width, rows);
                assert(word.insert(i, letters[j]) =~= row[j]);
            }
        }
        assert(upper =~= joined);
    }
}

/// Every token obtained from `word` by replacing one character by a letter.
pub fn substitutions(word: &str, letters: &str) -> (out: Vec<String>)
    ensures
        out.deep_view() == substitutions_of(word@, letters@),
{
    let len = word.unicode_len();
    let width = letters.unicode_len();
    let mut out: Vec<String> = Vec::new();
    let mut i: usize = 0;
    assert(out.deep_view() =~= substitutions_of(word@, letters@).take(0 * width));
    while i < len
        invariant
            i <= len,
            len == word@.len(),
            width == letters@.len(),
            out.deep_view() == substitutions_of(word@, letters@).take(i * width),
        decreases len - i,
    {
        push_row(&mut out, word, letters, i, i + 1, len, width);
        proof {
            lemma_substitution_row(word@, letters@, i as int);
        }
        i += 1;
    }
    assert(substitutions_of(word@, letters@).take(len * width) =~= substitutions_of(
        word@,
        letters@,
    ));
    out
}

/// Every token obtained from `word` by inserting one letter.
pub fn insertions(word: &str, letters: &str) -> (out: Vec<String>)
    ensures
        out.deep_view() == insertions_of(word@, letters@),
{
    let len = word.unicode_len();
    let width = letters.unicode_len();
    let mut out: Vec<String> = Vec::new();
    let mut i: usize = 0;
    assert(out.deep_view() =~= insertions_of(word@, letters@).take(0 * width));
    while i < len
        invariant
            i <= len,
            len == word@.len(),
            width == letters@.len(),
            out.deep_view() == insertions_of(word@, letters@).take(i * width),
        decreases len - i,
    {
        push_row(&mut out, word, letters, i, i, len, width);
        proof {
            lemma_insertion_row(word@, letters@, i as int);
        }
        i += 1;
    }
    push_row(&mut out, word, letters, len, len, len, width);
    proof {
        lemma_insertion_row(word@, letters@, len as int);
    }
    assert(insertions_of(word@, letters@).take((len + 1) * width) =~= insertions_of(
        word@,
        letters@,
    ));
    out
}

/// Every result of one edit of `word` over the alphabet `letters`.
pub fn edits_over(word: &str, letters: &str) -> (out: Vec<String>)
    ensures
        out.deep_view() == edits_of(word@, letters@),
        out.len() == edit_count(word@.len(), letters@.len()),
{
    let mut out = deletions(word);
    let mut swaps = transpositions(word);
    let mut replaced = substitutions(word, letters);
    let mut inserted = insertions(word, letters);
    let ghost first = out.deep_view();
    out.append(&mut swaps);
    assert(out.deep_view() =~= first + transpositions_of(word@));
    let ghost second = out.deep_view();
    out.append(&mut replaced);
    assert(out.deep_view() =~= second + substitutions_of(word@, letters@));
    let ghost third = out.deep_view();
    out.append(&mut inserted);
    assert(out.deep_view() =~= third + insertions_of(word@, letters@));
    proof {
        lemma_edit_count(word@, letters@);
    }
    out
}

} // verus!
