use keva_core::fuzzy::{widen, FuzzyMatcher};

#[test]
fn test_exact_match() {
    let mut matcher = FuzzyMatcher::new();
    let result = matcher.match_with_indices("hello", "hello");
    assert!(result.is_some());
    let (score, _) = result.unwrap();
    assert!(score > 0);
}

#[test]
fn test_fuzzy_match() {
    let mut matcher = FuzzyMatcher::new();
    let result = matcher.match_with_indices("prj", "project");
    assert!(result.is_some());
}

#[test]
fn test_path_match() {
    let mut matcher = FuzzyMatcher::new();
    let result = matcher.match_with_indices("cfg", "project/config");
    assert!(result.is_some());
}

#[test]
fn test_no_match() {
    let mut matcher = FuzzyMatcher::new();
    let result = matcher.match_with_indices("xyz", "abc");
    assert!(result.is_none());
}

#[test]
fn test_empty_pattern() {
    let mut matcher = FuzzyMatcher::new();
    let result = matcher.match_with_indices("", "anything");
    assert!(result.is_some());
}

#[test]
fn empty_pattern_scores_highest_with_no_positions() {
    let mut matcher = FuzzyMatcher::default();
    assert_eq!(matcher.match_with_indices("", "x"), Some((u32::MAX, vec![])));
    assert_eq!(matcher.match_score("", "x"), Some(u32::MAX));
}

#[test]
fn positions_point_at_matched_characters() {
    let mut matcher = FuzzyMatcher::new();
    let (_, mut positions) = matcher.match_with_indices("prj", "project").unwrap();
    positions.sort_unstable();
    let chars: Vec<char> = "project".chars().collect();
    let picked: String = positions.iter().map(|&i| chars[i]).collect();
    assert_eq!(picked, "prj");
    assert_eq!(matcher.match_score("prj", "project"), matcher.match_with_indices("prj", "project").map(|(s, _)| s));
}

#[test]
fn widen_keeps_score_and_positions() {
    assert_eq!(widen(Some((7, vec![0, 3, 9]))), Some((7, vec![0usize, 3, 9])));
    assert_eq!(widen(None), None);
}
