//! Finding the tokens in training text.
//!
//! A token is the host part of a link: what stands between `//` and the next
//! `/`. The text is lowercased first, and the scan itself is left to the
//! `regex` crate.

use vstd::prelude::*;

verus! {

/// The text that `str::to_lowercase` returns for `text`.
pub uninterp spec fn lowercase_of(text: Seq<char>) -> Seq<char>;

/// What a scan of `haystack` with the regular expression `pattern` yields for
/// the capture group named `group`: `None` where the `regex` crate rejects
/// the pattern; otherwise one entry for each match, in the order of the
/// matches, holding the text that the group matched, or `None` where the
/// pattern has no such group or the group took no part in that match.
pub uninterp spec fn group_captures(
    pattern: Seq<char>,
    group: Seq<char>,
    haystack: Seq<char>,
) -> Option<Seq<Option<Seq<char>>>>;

/// The regular expression that finds a link's host part: letters, digits,
/// dots, underscores and hyphens between `//` and `/`.
pub open spec fn site_pattern() -> Seq<char> {
    "//(?P<site>[a-zA-Z0-9._-]+)/"@
}

/// The name of the group that holds the host part.
pub open spec fn site_group() -> Seq<char> {
    "site"@
}

/// The captured texts, without the captures in which the group took no part.
pub open spec fn present(captures: Seq<Option<Seq<char>>>) -> Seq<Seq<char>> {
    captures.filter_map(|capture: Option<Seq<char>>| capture)
}

/// The tokens of a training text: the host parts of the links in the
/// lowercased text, in the order in which they stand. A rejected pattern
/// yields no tokens.
pub open spec fn site_tokens(text: Seq<char>) -> Seq<Seq<char>> {
    match group_captures(site_pattern(), site_group(), lowercase_of(text)) {
        Some(captures) => present(captures),
        None => Seq::empty(),
    }
}

/// Calls `str::to_lowercase` of the standard library. Nothing is proved of
/// the lowercase mapping; the result is only given its name.
#[verifier::external_body]
fn lowercase(text: &str) -> (lowered: String)
    ensures
        lowered@ == lowercase_of(text@),
{
    text.to_lowercase()
}

/// Compiles `pattern` with `regex::Regex::new` and walks the matches that
/// `regex::Regex::captures_iter` finds in `haystack`, taking from each the
/// text of the group `group` as `regex::Captures::name` gives it. Nothing is
/// proved of the matching; the result is only given its name.
#[verifier::external_body]
fn scan_group(pattern: &str, group: &str, haystack: &str) -> (found: Option<Vec<Option<String>>>)
    ensures
        found.deep_view() == group_captures(pattern@, group@, haystack@),
{
    let re = regex::Regex::new(pattern).ok()?;
    let mut found = Vec::new();
    for captures in re.captures_iter(haystack) {
        found.push(captures.name(group).map(|m| m.as_str().to_string()));
    }
    Some(found)
}

/// The captured texts of a scan, without the captures in which the group
/// took no part.
pub fn participating(captures: &Vec<Option<String>>) -> (tokens: Vec<String>)
    ensures
        tokens.deep_view() == present(captures.deep_view()),
{
    let mut tokens: Vec<String> = Vec::new();
    let mut i: usize = 0;
    let ghost keep = |capture: Option<Seq<char>>| capture;
    assert(tokens.deep_view() =~= present(captures.deep_view().take(0)));
    while i < captures.len()
        invariant
            i <= captures.len(),
            keep == |capture: Option<Seq<char>>| capture,
            tokens.deep_view() == captures.deep_view().take(i as int).filter_map(keep),
        decreases captures.len() - i,
    {
        proof {
            captures.deep_view().lemma_filter_map_take_succ(keep, i as int);
        }
        let ghost before = tokens.deep_view();
        match &captures[i] {
            Some(token) => {
                tokens.push(token.clone());
                assert(tokens.deep_view() =~= before + seq![token@]);
            },
            None => {},
        }
        i += 1;
    }
    assert(captures.deep_view().take(i as int) =~= captures.deep_view());
    tokens
}

/// The tokens of a training text.
pub fn extract_sites(text: &str) -> (tokens: Vec<String>)
    ensures
        tokens.deep_view() == site_tokens(text@),
{
    let lowered = lowercase(text);
    match scan_group("//(?P<site>[a-zA-Z0-9._-]+)/", "site", lowered.as_str()) {
        Some(captures) => participating(&captures),
        None => {
            let tokens: Vec<String> = Vec::new();
            assert(tokens.deep_view() =~= Seq::<Seq<char>>::empty());
            tokens
        },
    }
}

} // verus!
