use url_corrector::URL;

const LETTERS: &str = "1234567890._-@abcdefghijklmnopqrstuvwxyz";
const LOWER: &str = "abcdefghijklmnopqrstuvwxyz";

fn repeated(token: &str, times: usize) -> Vec<String> {
    vec![token.to_string(); times]
}

fn some(token: &str) -> Option<String> {
    Some(token.to_string())
}

#[test]
fn test_correcting() {
    let mut url = URL::new("1234567890._-@abcdefghijklmnopqrstuvwxyz");
    url.train("https://docs.rs/regex/latest/regex/ https://norvig.com/spell-correct.html https://doc.rust-lang.org/stable/std/thread/fn.scope.html");
    // deletion
    assert_eq!(url.correct("doc.rs"), Some("docs.rs".to_string()));
    // transposition
    assert_eq!(url.correct("dcos.rs"), Some("docs.rs".to_string()));
    // alteration
    assert_eq!(url.correct("docs.rr"), Some("docs.rs".to_string()));
    assert_eq!(url.correct("doks.rs"), Some("docs.rs".to_string()));
    assert_eq!(url.correct("d0cs.rs"), Some("docs.rs".to_string()));
    // insertion
    assert_eq!(url.correct("docs.rss"), Some("docs.rs".to_string()));
    assert_eq!(url.correct("docks.rs"), Some("docs.rs".to_string()));
}

#[test]
fn trained_on_two_links() {
    let mut url = URL::new(LETTERS);
    url.train("https://docs.rs/regex/latest/regex/ https://norvig.com/spell-correct.html");
    assert_eq!(url.count("docs.rs"), 1);
    assert_eq!(url.count("norvig.com"), 1);
    assert_eq!(url.correct("doc.rs"), some("docs.rs"));
    assert_eq!(url.correct("dcos.rs"), some("docs.rs"));
    assert_eq!(url.correct("d0cs.rs"), some("docs.rs"));
    assert_eq!(url.correct("docs.rss"), some("docs.rs"));
    assert_eq!(url.correct("zzzzzzzzzz"), None);
}

#[test]
fn known_word_is_returned_unchanged() {
    let mut url = URL::new(LOWER);
    url.observe(&repeated("cat", 1));
    url.observe(&repeated("cot", 10));
    url.observe(&repeated("at", 7));
    assert_eq!(url.correct("cat"), some("cat"));
    assert_eq!(url.correct("cot"), some("cot"));
    assert_eq!(url.correct("at"), some("at"));
}

#[test]
fn token_with_one_character_less_is_found() {
    let mut url = URL::new(LOWER);
    url.observe(&repeated("cat", 1));
    assert_eq!(url.correct("xcat"), some("cat"));
    assert_eq!(url.correct("cxat"), some("cat"));
    assert_eq!(url.correct("caxt"), some("cat"));
    assert_eq!(url.correct("catx"), some("cat"));
}

#[test]
fn token_with_two_characters_exchanged_is_found() {
    let mut url = URL::new(LOWER);
    url.observe(&repeated("cat", 1));
    assert_eq!(url.correct("act"), some("cat"));
    assert_eq!(url.correct("cta"), some("cat"));
}

#[test]
fn token_with_one_character_replaced_is_found() {
    let mut url = URL::new(LOWER);
    url.observe(&repeated("cat", 1));
    assert_eq!(url.correct("bat"), some("cat"));
    assert_eq!(url.correct("cut"), some("cat"));
    assert_eq!(url.correct("cab"), some("cat"));
    // A character outside the alphabet can be replaced, but not put in.
    assert_eq!(url.correct("c?t"), some("cat"));
}

#[test]
fn token_with_one_more_character_is_found() {
    let mut url = URL::new(LOWER);
    url.observe(&repeated("cat", 1));
    assert_eq!(url.correct("at"), some("cat"));
    assert_eq!(url.correct("ct"), some("cat"));
    assert_eq!(url.correct("ca"), some("cat"));
}

#[test]
fn token_outside_the_alphabet_is_found_only_by_deleting_or_exchanging() {
    let mut url = URL::new(LOWER);
    url.observe(&repeated("c?t", 1));
    assert_eq!(url.correct("c?t"), some("c?t"));
    assert_eq!(url.correct("c?xt"), some("c?t"));
    assert_eq!(url.correct("?ct"), some("c?t"));
    assert_eq!(url.correct("ct"), None);
    assert_eq!(url.correct("cat"), None);
}

#[test]
fn more_frequent_candidate_wins() {
    let mut url = URL::new(LOWER);
    url.observe(&repeated("cat", 5));
    url.observe(&repeated("cot", 10));
    assert_eq!(url.count("cat"), 5);
    assert_eq!(url.count("cot"), 10);
    assert_eq!(url.correct("cbt"), some("cot"));

    let mut other = URL::new(LOWER);
    other.observe(&repeated("cat", 10));
    other.observe(&repeated("cot", 5));
    assert_eq!(other.correct("cbt"), some("cat"));
}

#[test]
fn among_equally_frequent_candidates_the_last_generated_wins() {
    let mut url = URL::new(LOWER);
    url.observe(&repeated("cat", 3));
    url.observe(&repeated("cot", 3));
    // Substitutions run through the alphabet in order: "cat" comes before "cot".
    assert_eq!(url.correct("cbt"), some("cot"));
    // Insertions come after substitutions.
    url.observe(&repeated("cbbt", 3));
    assert_eq!(url.correct("cbt"), some("cbbt"));

    let mut backwards = URL::new("zyxwvutsrqponmlkjihgfedcba");
    backwards.observe(&repeated("cat", 3));
    backwards.observe(&repeated("cot", 3));
    assert_eq!(backwards.correct("cbt"), some("cat"));
}

#[test]
fn best_among_ranks_known_candidates() {
    let mut url = URL::new(LOWER);
    url.observe(&repeated("one", 1));
    url.observe(&repeated("two", 2));
    url.observe(&repeated("too", 2));
    let list = |items: &[&str]| items.iter().map(|item| item.to_string()).collect::<Vec<String>>();
    assert_eq!(url.best_among(&list(&[])), None);
    assert_eq!(url.best_among(&list(&["three", "four"])), None);
    assert_eq!(url.best_among(&list(&["three", "one", "four"])), some("one"));
    assert_eq!(url.best_among(&list(&["two", "one"])), some("two"));
    assert_eq!(url.best_among(&list(&["one", "two"])), some("two"));
    assert_eq!(url.best_among(&list(&["two", "too", "one"])), some("too"));
    assert_eq!(url.best_among(&list(&["too", "one", "two", "three"])), some("two"));
    assert_eq!(url.best_among(&list(&["two", "two", "one", "one"])), some("two"));
}

#[test]
fn first_tier_wins_over_a_more_frequent_second_tier() {
    let mut url = URL::new(LOWER);
    url.observe(&repeated("cat", 1));
    url.observe(&repeated("coa", 10));
    assert_eq!(url.correct("cbt"), some("cat"));
}

#[test]
fn second_tier_is_used_when_the_first_finds_nothing() {
    let mut url = URL::new(LOWER);
    url.observe(&repeated("coa", 10));
    assert_eq!(url.correct("cbt"), some("coa"));

    let mut links = URL::new(LETTERS);
    links.train("https://docs.rs/regex/latest/regex/");
    // One deletion and one transposition away.
    assert_eq!(links.correct("dosc.rss"), some("docs.rs"));
    // One deletion and one substitution away.
    assert_eq!(links.correct("d0cs.rss"), some("docs.rs"));
}

#[test]
fn second_tier_picks_the_most_frequent() {
    let mut url = URL::new(LOWER);
    url.observe(&repeated("coa", 2));
    url.observe(&repeated("xbx", 3));
    assert_eq!(url.correct("cbt"), some("xbx"));
}

#[test]
fn nothing_within_two_edits_gives_no_correction() {
    let mut url = URL::new(LOWER);
    assert_eq!(url.correct("cat"), None);
    url.observe(&repeated("cat", 4));
    assert_eq!(url.correct("zzzz"), None);
    assert_eq!(url.correct("dogs"), None);
    assert_eq!(url.correct(""), None);
}

#[test]
fn empty_word_is_corrected_by_insertions() {
    let mut url = URL::new(LOWER);
    url.observe(&repeated("a", 1));
    assert_eq!(url.correct(""), some("a"));
    let mut two = URL::new(LOWER);
    two.observe(&repeated("ab", 1));
    assert_eq!(two.correct(""), some("ab"));
}

#[test]
fn query_is_not_lowercased() {
    let mut url = URL::new(LETTERS);
    url.train("https://DOCS.rs/regex/");
    assert_eq!(url.count("docs.rs"), 1);
    assert_eq!(url.count("DOCS.rs"), 0);
    // Four substitutions away from the only known token.
    assert_eq!(url.correct("DOCS.rs"), None);
    assert_eq!(url.correct("Docs.rs"), some("docs.rs"));
}

#[test]
fn correcting_changes_nothing() {
    let mut url = URL::new(LOWER);
    url.observe(&repeated("cat", 2));
    url.correct("cbt");
    url.correct("zzzz");
    url.edits("cat");
    assert_eq!(url.count("cat"), 2);
    assert_eq!(url.count("cbt"), 0);
    assert_eq!(url.letters(), LOWER);
}
