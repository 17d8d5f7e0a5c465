//! Fuzzy matching of a candidate's name against the typed query.

use fuzzy_matcher::skim::SkimMatcherV2;
use fuzzy_matcher::FuzzyMatcher;
use vstd::prelude::*;
use vstd::string::*;

verus! {

/// The longest query, in characters, that is handed to the matcher. The
/// matcher adds its scores in 32 bits, and each character of the query can
/// raise a score by 32 at most (16 for the match and 16 for the best bonus),
/// so its sums hold for every query of fewer than 2^26 characters. A longer
/// query matches nothing. The length of a name does not enter into the sums.
pub const QUERY_LIMIT: usize = 0x3ff_ffff;

/// Whether `c` is one of the letters `A` to `Z`.
pub open spec fn is_upper(c: char) -> bool {
    'A' <= c <= 'Z'
}

/// Whether `pattern` holds a letter from `A` to `Z`. Such a pattern is
/// matched with regard to case, any other without.
pub open spec fn has_upper(pattern: Seq<char>) -> bool {
    exists|i: int| 0 <= i < pattern.len() && is_upper(#[trigger] pattern[i])
}

/// Whether two characters count as the same: equal, or, where case is not
/// regarded, one of `A` to `Z` and its lower-case letter.
pub open spec fn same_letter(a: char, b: char, exact: bool) -> bool {
    a == b || (!exact && ((is_upper(a) && b as u32 == a as u32 + 32) || (is_upper(b) && a as u32
        == b as u32 + 32)))
}

/// Whether the characters of `pattern` occur in `choice` in their order,
/// not necessarily side by side.
pub open spec fn subsequence(pattern: Seq<char>, choice: Seq<char>, exact: bool) -> bool
    decreases choice.len(),
{
    if pattern.len() == 0 {
        true
    } else if choice.len() == 0 {
        false
    } else if same_letter(choice[0], pattern[0], exact) {
        subsequence(pattern.drop_first(), choice.drop_first(), exact)
    } else {
        subsequence(pattern, choice.drop_first(), exact)
    }
}

/// Whether `pattern` matches `choice` at all: as a subsequence, with regard
/// to case exactly if the pattern holds an upper-case letter.
pub open spec fn fuzzy_matches(choice: Seq<char>, pattern: Seq<char>) -> bool {
    subsequence(pattern, choice, has_upper(pattern))
}

/// The score that the skim matcher (version 2, default settings) gives to
/// `choice` for `pattern`; `None` where the pattern does not match.
pub uninterp spec fn skim_score(choice: Seq<char>, pattern: Seq<char>) -> Option<i64>;

/// Calls `fuzzy_match` of `fuzzy_matcher::skim::SkimMatcherV2`, on a matcher
/// made by `default()` for this one call, so that nothing of an earlier call
/// is left in the matcher's buffers.
///
/// Believed, not proved: the score depends on the two strings alone, and
/// there is a score exactly if the pattern is a subsequence of the choice
/// (the matcher's first pass, which compares letters without regard to case
/// unless the pattern holds one of `A` to `Z`). The pattern's length is
/// bounded so that the matcher's 32-bit sums cannot overflow.
#[verifier::external_body]
fn skim_match(choice: &str, pattern: &str) -> (score: Option<i64>)
    requires
        pattern@.len() <= QUERY_LIMIT,
    ensures
        score == skim_score(choice@, pattern@),
        score is Some <==> fuzzy_matches(choice@, pattern@),
{
    SkimMatcherV2::default().fuzzy_match(choice, pattern)
}

/// How well `name` matches `query`. The empty query matches every name with
/// score 0; a query of more than `QUERY_LIMIT` characters matches nothing;
/// otherwise the matcher decides.
pub open spec fn match_score(name: Seq<char>, query: Seq<char>) -> Option<i64> {
    if query.len() == 0 {
        Some(0i64)
    } else if query.len() > QUERY_LIMIT {
        None
    } else {
        skim_score(name, query)
    }
}

/// Whether `query` matches `name`: it is empty, or it is within the limit
/// and a subsequence of the name.
pub open spec fn is_match(name: Seq<char>, query: Seq<char>) -> bool {
    query.len() == 0 || (query.len() <= QUERY_LIMIT && fuzzy_matches(name, query))
}

/// The match score of `name` for `query`, `None` where the query does not
/// match the name.
pub fn fuzzy_score(name: &str, query: &str) -> (score: Option<i64>)
    ensures
        score == match_score(name@, query@),
        score is Some <==> is_match(name@, query@),
{
    if query.is_empty() {
        Some(0)
    } else if query.unicode_len() > QUERY_LIMIT {
        None
    } else {
        skim_match(name, query)
    }
}

} // verus!
