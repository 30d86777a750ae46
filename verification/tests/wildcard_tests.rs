use wminspect::wildcard::{
    is_wild_string, wild_match, BatchMatcher, OptimizedWildcardMatcher,
};

#[test]
fn test_wild_match() {
    assert!(is_wild_string("dde*"));
    assert!(is_wild_string("*"));
    assert!(is_wild_string("dde?desktop"));
    assert!(!is_wild_string("dde-desktop"));

    assert_eq!(wild_match("dd?", "dde"), true);
    assert_eq!(wild_match("dd*", "dde"), true);
    assert_eq!(wild_match("dde*", "dde-osd"), true);
    assert_eq!(wild_match("dde*osd", "dde-osd"), true);
    assert_eq!(wild_match("dde*-osd", "dde-osd"), true);
    assert_eq!(wild_match("dd*?osd", "dde-osd"), true);
    assert_eq!(wild_match("dd*?", "dde-osd"), true);
    assert_eq!(wild_match("dd?*", "dde-osd"), true);
    assert_eq!(wild_match("*dde*", "dde-osd"), true);
    assert_eq!(wild_match("*dde*", "dde-desktop"), true);
    assert_eq!(wild_match("*?", "dde-osd"), true);
    assert_eq!(wild_match("?*", "dde-osd"), true);
    assert_eq!(wild_match("*", "dde-osd"), true);
    assert_eq!(wild_match("?*d", "dde-osd"), true);
    assert_eq!(wild_match("*d", "dde-osd"), true);
    assert_eq!(wild_match("???*sd", "dde-osd"), true);
    assert_eq!(wild_match("??*-*", "deepin-wm-switcher"), true);
    assert_eq!(wild_match("??*-*-??", "deepin-wm-switcher"), false);
    assert_eq!(wild_match("??*-wm-*", "deepin-wm-switcher"), true);

    assert_eq!(wild_match("*dde*", "ClutterActor: Clutter Reference Manual"), false);
}

#[test]
fn test_wildcard_match_basic() {
    assert!(wild_match("test*", "test123"));
    assert!(wild_match("*123", "test123"));
    assert!(!wild_match("?123", "test123"));
}

#[test]
fn test_wildcard_match_complex() {
    // "t*t?23" asks for a literal t, one arbitrary character, then "23";
    // nothing in "testing123" lines up that way.
    assert!(!wild_match("t*t?23", "testing123"));
    assert!(wild_match("*te?t*", "xxxtestxx"));
    // "tes?xx" does occur at the tail: "t e s t x x".
    assert!(wild_match("*tes?xx", "xxxtestxx"));
}

#[test]
fn test_wildcard_match_edge_cases() {
    assert!(!wild_match("", "test"));
    assert!(wild_match("*", "test"));
    assert!(wild_match("test", "test"));
}

#[test]
fn test_simple_wildcard() {
    let mut m = OptimizedWildcardMatcher::new();
    assert!(m.match_pattern("test*", "test123"));
    assert!(m.match_pattern("*test", "123test"));
    assert!(!m.match_pattern("test*", "example"));
}

#[test]
fn test_question_mark_wildcard() {
    let mut m = OptimizedWildcardMatcher::new();
    assert!(m.match_pattern("t?st", "test"));
    assert!(m.match_pattern("t?st", "tast"));
    assert!(!m.match_pattern("t?st", "toast"));
}

#[test]
fn test_complex_patterns() {
    let mut m = OptimizedWildcardMatcher::new();
    assert!(m.match_pattern("*t*st*", "testing"));
    assert!(m.match_pattern("a*b*c", "aabbcc"));
    assert!(!m.match_pattern("a*b*c", "aabbdd"));
}

#[test]
fn test_non_wildcard_patterns() {
    let mut m = OptimizedWildcardMatcher::new();
    assert!(m.match_pattern("test", "test123"));
    assert!(m.match_pattern("test", "123test456"));
    assert!(!m.match_pattern("test", "example"));
}

#[test]
fn test_batch_matching() {
    let mut m = OptimizedWildcardMatcher::new();
    let patterns = vec![
        "test*".to_string(),
        "*example*".to_string(),
        "exact".to_string(),
    ];
    let results = m.batch_match(&patterns, "test123");
    assert_eq!(results, vec![true, false, false]);

    let results = m.batch_match(&patterns, "example_text");
    assert_eq!(results, vec![false, true, false]);
}

#[test]
fn test_batch_matcher() {
    let patterns = vec![
        "test*".to_string(),
        "*example*".to_string(),
        "exact".to_string(),
    ];
    let matcher = OptimizedWildcardMatcher::create_batch_matcher(&patterns);

    assert!(matcher.matches_any("test123"));
    assert!(matcher.matches_any("example_text"));
    assert!(!matcher.matches_any("other"));

    let matches = matcher.match_all("test123");
    assert_eq!(matches, vec![0]); // First pattern matches
}

#[test]
fn test_batch_matcher_patterns_kept() {
    let patterns = vec!["a*".to_string(), "?b".to_string()];
    let matcher = OptimizedWildcardMatcher::create_batch_matcher(&patterns);
    assert_eq!(matcher.patterns(), &patterns);
    let matches = matcher.match_all("ab");
    assert_eq!(matches, vec![0, 1]);
}

#[test]
fn test_cache_behavior() {
    // The cache mechanism must never change outcomes; reuse of a memoized
    // pattern matches exactly as its first use did.
    let mut m = OptimizedWildcardMatcher::new();

    let unique_pattern1 = "cache_behavior_test_pattern_xyz_123_unique_alpha*";
    let unique_pattern2 = "*cache_behavior_test_pattern_xyz_456_unique_beta";

    let result1 =
        m.match_pattern(unique_pattern1, "cache_behavior_test_pattern_xyz_123_unique_alpha_match");
    assert!(result1, "First wildcard pattern should match correctly");

    let result2 = m.match_pattern(
        unique_pattern1,
        "cache_behavior_test_pattern_xyz_123_unique_alpha_different",
    );
    assert!(result2, "Reusing same wildcard pattern should match correctly");

    let result3 =
        m.match_pattern(unique_pattern2, "match_cache_behavior_test_pattern_xyz_456_unique_beta");
    assert!(result3, "Different wildcard pattern should match correctly");

    let final_cache_size = m.cache_stats();
    assert!(
        final_cache_size > 0,
        "Cache should contain entries after wildcard pattern operations"
    );

    let result4 = m.match_pattern("exact_match", "exact_match");
    assert!(result4, "Exact pattern matching should work correctly");

    let result5 = m.match_pattern("no_match", "different");
    assert!(!result5, "Non-matching patterns should return false correctly");
}

#[test]
fn test_edge_cases() {
    let mut m = OptimizedWildcardMatcher::new();
    assert!(m.match_pattern("*", "anything"));
    assert!(m.match_pattern("", ""));
    assert!(!m.match_pattern("test", ""));
    assert!(!m.match_pattern("", "test"));
}

#[test]
fn test_clear_cache() {
    let mut m = OptimizedWildcardMatcher::new();
    assert!(m.match_pattern("ca?he*", "cache_cleared"));
    assert!(m.cache_stats() > 0);
    m.clear_cache();
    assert_eq!(m.cache_stats(), 0);
    assert!(m.match_pattern("ca?he*", "cache_cleared"));
}

// The two matchers agree on outcome for any input.
#[test]
fn test_matchers_agree() {
    let mut m = OptimizedWildcardMatcher::new();
    let cases = [
        ("dde*", "dde-osd"),
        ("", ""),
        ("", "x"),
        ("*", ""),
        ("d?e", "dde"),
        ("plain", "contains plain here"),
        ("plain", "nothing here"),
        ("*a*b", "xaxb"),
    ];
    for (p, t) in cases.iter() {
        assert_eq!(wild_match(p, t), m.match_pattern(p, t));
    }
}

fn make_batch(p: &[&str]) -> BatchMatcher {
    let owned: Vec<String> = p.iter().map(|s| s.to_string()).collect();
    OptimizedWildcardMatcher::create_batch_matcher(&owned)
}

#[test]
fn test_batch_matcher_no_match() {
    let matcher = make_batch(&["zz*", "yy"]);
    assert!(!matcher.matches_any("aaa"));
    assert!(matcher.match_all("aaa").is_empty());
}
