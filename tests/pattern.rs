use modular::error::PatternError;
use modular::pattern::{split_topic, Pattern};

fn pat(s: &str) -> Pattern {
    match Pattern::parse(s) {
        Ok(p) => p,
        Err(e) => panic!("{} did not parse: {:?}", s, e),
    }
}

#[test]
fn a() {}

#[test]
fn matches_is_repeatable() {
    let p = pat("a.{}.c");
    for topic in ["a.x.c", "a.c", "", "a..c"] {
        assert_eq!(p.matches(topic), p.matches(topic));
    }
}

#[test]
fn wildcard_matches_one_segment() {
    let p = pat("a.{}.c");
    assert!(p.matches("a.x.c"));
    assert!(p.matches("a.y.c"));
    assert!(!p.matches("a.c"));
    assert!(!p.matches("a.x.y.c"));
}

#[test]
fn wildcard_rejects_empty_segment() {
    let p = pat("a.{}.c");
    assert!(!p.matches("a..c"));
}

#[test]
fn named_wildcard_matches_like_unnamed() {
    let p = pat("a.{id}.c");
    assert!(p.matches("a.x.c"));
    assert!(!p.matches("a.c"));
}

#[test]
fn trailing_any_matches_zero_or_more() {
    let p = pat("a.>");
    assert!(p.matches("a"));
    assert!(p.matches("a.b"));
    assert!(p.matches("a.b.c"));
    assert!(!p.matches("b.c"));
}

#[test]
fn literal_matches_exact_topic_only() {
    let p = pat("a.b");
    assert!(p.matches("a.b"));
    assert!(!p.matches("a"));
    assert!(!p.matches("a.b.c"));
    assert!(!p.matches("a.c"));
    assert!(!p.matches("ab"));
}

#[test]
fn escaped_dot_literal_matches_across_segments() {
    let p = pat("a\\.b");
    assert_eq!(p.display(), "a.b");
    assert!(p.matches("a.b"));
    assert!(!p.matches("a"));
    assert!(!p.matches("a.b.c"));
    assert!(!p.matches("a.c"));
    let q = pat("x.a\\.b.{}");
    assert!(q.matches("x.a.b.y"));
    assert!(!q.matches("x.a.b"));
    assert!(!q.matches("x.a.y"));
    let r = pat("\\.a.>");
    assert!(r.matches(".a"));
    assert!(r.matches(".a.z.w"));
    assert!(!r.matches("a"));
}

#[test]
fn bare_gt_matches_everything() {
    let p = pat(">");
    assert!(p.matches(""));
    assert!(p.matches("x"));
    assert!(p.matches("$.sys.anything"));
    let q = pat(".>");
    assert!(q.matches("x.y"));
}

#[test]
fn empty_pattern_matches_nothing() {
    let p = pat("");
    assert!(!p.matches(""));
    assert!(!p.matches("a"));
}

#[test]
fn parse_errors_carry_position() {
    assert_eq!(Pattern::parse("a..b").err(), Some(PatternError { position: 2 }));
    assert_eq!(Pattern::parse("a.>.b").err(), Some(PatternError { position: 3 }));
    assert_eq!(Pattern::parse("a.").err(), Some(PatternError { position: 2 }));
    assert_eq!(Pattern::parse("a\\x").err(), Some(PatternError { position: 2 }));
    assert_eq!(Pattern::parse("a\\").err(), Some(PatternError { position: 2 }));
    assert_eq!(Pattern::parse("{1}").err(), Some(PatternError { position: 1 }));
    assert_eq!(Pattern::parse("{ab").err(), Some(PatternError { position: 3 }));
    assert_eq!(Pattern::parse("a{}").err(), Some(PatternError { position: 1 }));
    assert_eq!(Pattern::parse("}").err(), Some(PatternError { position: 0 }));
    assert_eq!(Pattern::parse(".").err(), Some(PatternError { position: 1 }));
}

#[test]
fn display_renders_canonical_form() {
    assert_eq!(pat("a.{}.c").display(), "a.{}.c");
    assert_eq!(pat("a.{name}.>").display(), "a.{name}.>");
    assert_eq!(pat(">").display(), ">");
    assert_eq!(pat("x\\>y").display(), "x>y");
    assert_eq!(pat("").display(), "");
}

#[test]
fn split_topic_keeps_empty_segments() {
    let segs = split_topic("a..b.");
    let want: Vec<Vec<char>> = vec![vec!['a'], vec![], vec!['b'], vec![]];
    assert_eq!(segs, want);
    assert_eq!(split_topic(""), vec![Vec::<char>::new()]);
}

#[test]
fn matches_segments_agrees_with_matches() {
    let p = pat("a.{}.>");
    let segs = split_topic("a.b.c.d");
    assert!(p.matches_segments(&segs));
    assert!(p.matches("a.b.c.d"));
    assert!(!p.matches_segments(&split_topic("a")));
}

#[test]
fn unicode_literals_match() {
    let p = pat("héllo.{}");
    assert!(p.matches("héllo.wörld"));
    assert!(!p.matches("hello.world"));
}
