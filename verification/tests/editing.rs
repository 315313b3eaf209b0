use url_corrector::edits::{deletions, edits_over, insertions, substitutions, transpositions};
use url_corrector::URL;

fn list(items: &[&str]) -> Vec<String> {
    items.iter().map(|item| item.to_string()).collect()
}

fn expected_count(len: usize, letters: usize) -> usize {
    len + len.saturating_sub(1) + len * letters + (len + 1) * letters
}

#[test]
fn edits_come_in_four_blocks() {
    let mut url = URL::new("ab");
    assert_eq!(
        url.edits("xy"),
        list(&[
            "y", "x", // deletions
            "yx", // transpositions
            "ay", "by", "xa", "xb", // substitutions
            "axy", "bxy", "xay", "xby", "xya", "xyb", // insertions
        ])
    );
}

#[test]
fn edits_of_three_characters() {
    assert_eq!(deletions("abc"), list(&["bc", "ac", "ab"]));
    assert_eq!(transpositions("abc"), list(&["bac", "acb"]));
    assert_eq!(substitutions("abc", "xy"), list(&["xbc", "ybc", "axc", "ayc", "abx", "aby"]));
    assert_eq!(
        insertions("abc", "xy"),
        list(&["xabc", "yabc", "axbc", "aybc", "abxc", "abyc", "abcx", "abcy"])
    );
}

#[test]
fn edits_of_the_empty_word_are_the_letters() {
    let mut url = URL::new("abc");
    assert_eq!(url.edits(""), list(&["a", "b", "c"]));
    assert_eq!(deletions(""), list(&[]));
    assert_eq!(transpositions(""), list(&[]));
    assert_eq!(substitutions("", "abc"), list(&[]));
    assert_eq!(insertions("", "abc"), list(&["a", "b", "c"]));
}

#[test]
fn edits_of_one_character_have_no_transposition() {
    let mut url = URL::new("ab");
    assert_eq!(transpositions("x"), list(&[]));
    assert_eq!(url.edits("x"), list(&["", "a", "b", "ax", "bx", "xa", "xb"]));
}

#[test]
fn edits_keep_duplicates_and_unchanged_words() {
    let mut url = URL::new("a");
    assert_eq!(url.edits("aa"), list(&["a", "a", "aa", "aa", "aa", "aaa", "aaa", "aaa"]));
    let mut twice = URL::new("aa");
    assert_eq!(twice.edits("b"), list(&["", "a", "a", "ab", "ab", "ba", "ba"]));
}

#[test]
fn edits_over_no_letters_are_deletions_and_transpositions() {
    assert_eq!(edits_over("abc", ""), list(&["bc", "ac", "ab", "bac", "acb"]));
    assert_eq!(edits_over("", ""), list(&[]));
}

#[test]
fn edits_count_follows_the_formula() {
    let letters = "1234567890._-@abcdefghijklmnopqrstuvwxyz";
    let mut url = URL::new(letters);
    assert_eq!(url.edits("docs.rs").len(), 613);
    assert_eq!(url.edits("docs").len(), 367);
    assert_eq!(url.edits("d").len(), 1 + 0 + 40 + 80);
    assert_eq!(url.edits("").len(), 40);
    for word in ["", "a", "ab", "abc", "docs.rs", "norvig.com", "zzzzzzzzzz"] {
        for alphabet in ["a", "ab", "xyz", letters] {
            let mut other = URL::new(alphabet);
            assert_eq!(other.edits(word).len(), expected_count(word.len(), alphabet.len()));
            assert_eq!(edits_over(word, alphabet), other.edits(word));
        }
    }
}

#[test]
fn edits_are_the_four_blocks_in_order() {
    let letters = "1234567890._-@abcdefghijklmnopqrstuvwxyz";
    let word = "docs.rs";
    let mut joined = deletions(word);
    joined.extend(transpositions(word));
    joined.extend(substitutions(word, letters));
    joined.extend(insertions(word, letters));
    assert_eq!(URL::new(letters).edits(word), joined);
}

#[test]
fn edits_place_each_kind_where_the_order_says() {
    let letters = "1234567890._-@abcdefghijklmnopqrstuvwxyz";
    let out = URL::new(letters).edits("docs.rs");
    // deletion of the character at 3
    assert_eq!(out[3], "doc.rs");
    // transposition of the characters at 1 and 2
    assert_eq!(out[7 + 1], "dcos.rs");
    // substitution at 1 by the letter at 9, which is '0'
    assert_eq!(out[7 + 6 + 1 * 40 + 9], "d0cs.rs");
    // insertion at 7 by the letter at 32, which is 's'
    assert_eq!(out[7 + 6 + 280 + 7 * 40 + 32], "docs.rss");
    // the last entry inserts the last letter at the end
    assert_eq!(out[612], "docs.rsz");
}

#[test]
fn edits_work_on_characters_not_bytes() {
    let mut url = URL::new("aé");
    assert_eq!(
        url.edits("ñb"),
        list(&[
            "b", "ñ", "bñ", "ab", "éb", "ña", "ñé", "añb", "éñb", "ñab", "ñéb", "ñba", "ñbé",
        ])
    );
}

#[test]
fn letters_are_kept_as_given() {
    let url = URL::new("ba");
    assert_eq!(url.letters(), "ba");
    assert_eq!(URL::new("ba").edits(""), list(&["b", "a"]));
}
