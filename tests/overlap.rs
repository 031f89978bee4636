use path_overlap::{Fragment, ParseError, Path};

fn overlap(a: &str, b: &str) -> bool {
    Path::overlap(
        a.parse::<Path>().unwrap().as_ref(),
        b.parse::<Path>().unwrap().as_ref(),
    )
}

fn all_agree(a: &str, b: &str) -> bool {
    let pa = a.parse::<Path>().unwrap();
    let pb = b.parse::<Path>().unwrap();
    let r = Path::recursive_overlap(pa.as_ref(), pb.as_ref());
    let d = Path::dp_overlap(pa.as_ref(), pb.as_ref());
    let o = Path::optimized_overlap(pa.as_ref(), pb.as_ref());
    let p = Path::overlap(pa.as_ref(), pb.as_ref());
    assert_eq!(r, d, "recursive and table disagree on {} / {}", a, b);
    assert_eq!(d, o, "table and rolling rows disagree on {} / {}", a, b);
    assert_eq!(o, p);
    r
}

const SAMPLES: [&str; 14] = [
    "",
    "a",
    "a/b/c",
    "d/e/f",
    "a/b/*",
    "a/b/c/d/e",
    "**",
    "**/d/e",
    "a/b/c/d",
    "a/b/c/d/e/f",
    "*/**/*",
    "**/**",
    "a/**/c",
    "*",
];

#[test]
fn empty_paths_overlap() {
    assert!(overlap("", ""));
}

#[test]
fn literal_paths_overlap_if_equal() {
    assert!(overlap("a/b/c", "a/b/c"));
    assert!(!overlap("a/b/c", "d/e/f"));
}

#[test]
fn wildcards_match_any_literal() {
    assert!(overlap("a/b/*", "a/b/c"));
}

#[test]
fn wildcards_do_not_match_multiple_literals() {
    assert!(!overlap("a/b/*", "a"));
    assert!(!overlap("a/b/*", "a/b/c/d/e"));
}

#[test]
fn globs_match_empty_paths() {
    assert!(overlap("**", ""));
}

#[test]
fn globs_match_many_literals() {
    assert!(overlap("**", "a/b/c/d/e"));
}

#[test]
fn globs_with_suffixes_only_match_suffixed_strings() {
    assert!(overlap("**/d/e", "a/b/c/d/e"));
    assert!(!overlap("**/d/e", "a/b/c/d"));
    assert!(!overlap("**/d/e", "a/b/c/d/e/f"));
}

#[test]
fn every_sample_overlaps_itself() {
    for s in SAMPLES.iter() {
        assert!(overlap(s, s), "{} should overlap itself", s);
    }
}

#[test]
fn overlap_is_symmetric_on_samples() {
    for a in SAMPLES.iter() {
        for b in SAMPLES.iter() {
            assert_eq!(overlap(a, b), overlap(b, a), "{} / {}", a, b);
        }
    }
}

#[test]
fn three_algorithms_agree_on_samples() {
    for a in SAMPLES.iter() {
        for b in SAMPLES.iter() {
            all_agree(a, b);
        }
    }
}

#[test]
fn three_algorithms_agree_on_glob_runs() {
    let mut x = vec![Fragment::Glob; 5];
    let mut y = vec![Fragment::Glob; 5];
    x.push(Fragment::Literal("a".to_string()));
    y.push(Fragment::Literal("b".to_string()));
    assert!(!Path::recursive_overlap(&x, &y));
    assert!(!Path::dp_overlap(&x, &y));
    assert!(!Path::optimized_overlap(&x, &y));
    assert!(!Path::overlap(&x, &y));
}

#[test]
fn three_algorithms_agree_on_long_literals() {
    let mut x = vec![Fragment::Literal("a".to_string()); 32];
    let mut y = x.clone();
    x.push(Fragment::Literal("a".to_string()));
    y.push(Fragment::Literal("b".to_string()));
    assert!(!Path::recursive_overlap(&x, &y));
    assert!(!Path::dp_overlap(&x, &y));
    assert!(!Path::optimized_overlap(&x, &y));
    assert!(Path::optimized_overlap(&x, &x));
}

#[test]
fn empty_pattern_overlaps_only_globs() {
    assert!(all_agree("", "**/**"));
    assert!(!all_agree("", "*"));
    assert!(!all_agree("", "a"));
    assert!(!all_agree("**/a", ""));
}

#[test]
fn globs_facing_each_other() {
    assert!(all_agree("**/a", "b/**"));
    assert!(!all_agree("**/a", "**/b"));
    assert!(all_agree("a/**/c", "a/b/c"));
    assert!(all_agree("a/**/c", "a/c"));
    assert!(!all_agree("a/**/c", "a/b/d"));
    assert!(all_agree("*/**/*", "a/b/c"));
    assert!(all_agree("*/**/*", "a/b"));
    assert!(!all_agree("*/**/*", "a"));
}

#[test]
fn parse_rejects_empty_segment() {
    assert_eq!(Path::parse("a//b"), Err(ParseError::EmptyFragment));
    assert_eq!("/a".parse::<Path>(), Err(ParseError::EmptyFragment));
    assert_eq!("a/".parse::<Path>(), Err(ParseError::EmptyFragment));
    assert_eq!("/".parse::<Path>(), Err(ParseError::EmptyFragment));
}

#[test]
fn parse_rejects_misused_wildcard() {
    assert_eq!(Path::parse("a*b"), Err(ParseError::InvalidWildcardUsage));
    assert_eq!(Path::parse("***"), Err(ParseError::InvalidWildcardUsage));
    assert_eq!(Path::parse("a/*b/c"), Err(ParseError::InvalidWildcardUsage));
    assert_ne!(ParseError::EmptyFragment, ParseError::InvalidWildcardUsage);
}

#[test]
fn first_bad_segment_decides_the_error() {
    assert_eq!(Path::parse("a*//b"), Err(ParseError::InvalidWildcardUsage));
    assert_eq!(Path::parse("a//b*"), Err(ParseError::EmptyFragment));
}

#[test]
fn parse_empty_is_root() {
    let p = Path::parse("").unwrap();
    assert_eq!(p, Path::new());
    assert_eq!(p.fragments().len(), 0);
}

#[test]
fn parse_classifies_segments() {
    let p = Path::parse("a/*/**/b").unwrap();
    assert_eq!(
        p.fragments(),
        &[
            Fragment::Literal("a".to_string()),
            Fragment::Wildcard,
            Fragment::Glob,
            Fragment::Literal("b".to_string()),
        ][..]
    );
}

#[test]
fn fragment_parse_and_render() {
    assert_eq!(Fragment::parse("*"), Ok(Fragment::Wildcard));
    assert_eq!("**".parse::<Fragment>(), Ok(Fragment::Glob));
    assert_eq!(Fragment::parse("x"), Ok(Fragment::Literal("x".to_string())));
    assert_eq!(Fragment::parse(""), Err(ParseError::EmptyFragment));
    assert_eq!(Fragment::parse("*x"), Err(ParseError::InvalidWildcardUsage));
    assert_eq!(Fragment::Glob.render(), "**");
    assert_eq!(Fragment::Wildcard.render(), "*");
    assert_eq!(Fragment::Literal("abc".to_string()).render(), "abc");
    assert!(Fragment::Glob.is_glob());
    assert!(!Fragment::Wildcard.is_glob());
}

#[test]
fn text_round_trips() {
    for s in SAMPLES.iter() {
        let p = Path::parse(s).unwrap();
        assert_eq!(p.to_text(), *s);
        assert_eq!(Path::parse(&p.to_text()), Ok(p));
    }
}

#[test]
fn render_prefixes_each_fragment() {
    assert_eq!(Path::parse("a/*/**").unwrap().render(), "/a/*/**");
    assert_eq!(Path::new().render(), "");
    let p = Path::parse("x/y").unwrap();
    assert_eq!(p.render(), format!("/{}", p.to_text()));
}

#[test]
fn into_iter_yields_fragments_in_order() {
    let v: Vec<Fragment> = Path::parse("a/**").unwrap().into_iter().collect();
    assert_eq!(v, vec![Fragment::Literal("a".to_string()), Fragment::Glob]);
}

#[test]
fn unicode_literals_are_kept_whole() {
    let p = Path::parse("é/ü").unwrap();
    assert_eq!(p.to_text(), "é/ü");
    assert!(overlap("é/*", "é/ü"));
    assert!(!overlap("é/ü", "é/u"));
}

#[test]
fn glob_takes_zero_levels_before_a_fixed_fragment() {
    assert!(all_agree("**/x", "x"));
    assert!(all_agree("x/**", "x"));
    assert!(all_agree("**/**/x", "y/x"));
    assert!(all_agree("**/x", "y/x"));
    assert!(all_agree("a/**/**/b", "a/b"));
    assert!(!all_agree("**/x", "y"));
}

#[test]
fn reversing_both_patterns_keeps_the_result() {
    let pairs = [("**/x", "x"), ("a/**/c", "a/b/c"), ("**/d/e", "a/b/c/d")];
    for (a, b) in pairs.iter() {
        let ra: String = a.split('/').rev().collect::<Vec<_>>().join("/");
        let rb: String = b.split('/').rev().collect::<Vec<_>>().join("/");
        assert_eq!(all_agree(a, b), all_agree(&ra, &rb), "{} / {}", a, b);
    }
}

#[test]
fn rolling_rows_follow_the_shorter_pattern() {
    assert!(Path::optimized_overlap(
        Path::parse("**").unwrap().as_ref(),
        Path::parse("a/b/c/d/e/f/g").unwrap().as_ref()
    ));
    assert!(!Path::optimized_overlap(
        Path::parse("a").unwrap().as_ref(),
        Path::parse("*/*/*/*").unwrap().as_ref()
    ));
    assert!(Path::optimized_overlap(
        Path::parse("a/b/c/d/**").unwrap().as_ref(),
        Path::parse("*/**").unwrap().as_ref()
    ));
}

#[test]
fn as_ref_gives_fragments_in_order() {
    let p = Path::parse("a/*").unwrap();
    let r: &[Fragment] = p.as_ref();
    assert_eq!(r, &[Fragment::Literal("a".to_string()), Fragment::Wildcard][..]);
}
