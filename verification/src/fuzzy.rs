//! Fuzzy matching of one pattern against one text, with nucleo's matcher.
use nucleo_matcher::pattern::{AtomKind, CaseMatching, Normalization, Pattern};
use vstd::prelude::*;

verus! {

/// The score and matched character positions that nucleo's matcher gives
/// for `pattern` against `haystack` (smart case, smart normalisation, fuzzy
/// atoms), or `None` when it does not match.
pub uninterp spec fn nucleo_fuzzy(pattern: Seq<char>, haystack: Seq<char>) -> Option<(u32, Seq<u32>)>;

/// `nucleo_matcher::pattern::Pattern::indices` with a fresh default matcher:
/// the score and positions for `pattern` against `haystack`, as named by
/// [`nucleo_fuzzy`].
#[verifier::external_body]
fn nucleo_indices(pattern: &str, haystack: &str) -> (r: Option<(u32, Vec<u32>)>)
    ensures
        match r {
            Some((score, positions)) => nucleo_fuzzy(pattern@, haystack@) == Some(
                (score, positions@),
            ),
            None => nucleo_fuzzy(pattern@, haystack@) is None,
        },
{
    let mut matcher = nucleo_matcher::Matcher::new(nucleo_matcher::Config::DEFAULT);
    let pat = Pattern::new(pattern, CaseMatching::Smart, Normalization::Smart, AtomKind::Fuzzy);
    let chars: Vec<char> = haystack.chars().collect();
    let mut positions = Vec::new();
    let score = pat.indices(nucleo_matcher::Utf32Str::Unicode(&chars), &mut matcher, &mut positions)?;
    Some((score, positions))
}

/// Positions as machine-size numbers.
pub open spec fn widened(p: Seq<u32>) -> Seq<usize> {
    p.map_values(|i: u32| i as usize)
}

/// A match with its positions as machine-size numbers.
pub fn widen(found: Option<(u32, Vec<u32>)>) -> (r: Option<(u32, Vec<usize>)>)
    ensures
        match found {
            Some((s, p)) => (r matches Some((s2, p2)) && s2 == s && p2@ == widened(p@)),
            None => r is None,
        },
{
    let (score, positions) = match found {
        Some(x) => x,
        None => return None,
    };
    let mut out: Vec<usize> = Vec::new();
    let mut i: usize = 0;
    while i < positions.len()
        invariant
            i <= positions@.len(),
            out@ == widened(positions@.subrange(0, i as int)),
        decreases positions@.len() - i,
    {
        out.push(positions[i] as usize);
        proof {
            assert(widened(positions@.subrange(0, i + 1)) =~= widened(
                positions@.subrange(0, i as int),
            ).push(positions@[i as int] as usize));
        }
        i = i + 1;
    }
    proof {
        assert(positions@.subrange(0, i as int) =~= positions@);
    }
    Some((score, out))
}

/// Fuzzy matcher. Each match runs on a matcher of its own.
pub struct FuzzyMatcher {}

impl FuzzyMatcher {
    /// A matcher.
    pub fn new() -> (r: Self) {
        FuzzyMatcher {}
    }

    /// The score and matched positions of `pattern` in `haystack`. An empty
    /// pattern matches anything, with the highest score and no positions.
    pub fn match_with_indices(&mut self, pattern: &str, haystack: &str) -> (r: Option<(u32, Vec<usize>)>)
        ensures
            pattern@.len() == 0 ==> (r matches Some((s, p)) && s == u32::MAX && p@.len() == 0),
            pattern@.len() > 0 ==> match nucleo_fuzzy(pattern@, haystack@) {
                Some((s, p)) => (r matches Some((s2, p2)) && s2 == s && p2@ == widened(p)),
                None => r is None,
            },
    {
        if pattern.unicode_len() == 0 {
            return Some((u32::MAX, Vec::new()));
        }
        widen(nucleo_indices(pattern, haystack))
    }

    /// The score of `pattern` in `haystack`, as [`FuzzyMatcher::match_with_indices`].
    pub fn match_score(&mut self, pattern: &str, haystack: &str) -> (r: Option<u32>)
        ensures
            pattern@.len() == 0 ==> r == Some(u32::MAX),
            pattern@.len() > 0 ==> match nucleo_fuzzy(pattern@, haystack@) {
                Some((s, _)) => r == Some(s),
                None => r is None,
            },
    {
        match self.match_with_indices(pattern, haystack) {
            Some((score, _)) => Some(score),
            None => None,
        }
    }
}

impl Default for FuzzyMatcher {
    fn default() -> (r: Self) {
        FuzzyMatcher::new()
    }
}

} // verus!
