use req::check::{check, compile_patterns};
use req::model::{ConfigDefault, Definition, Project, Requirement, Topic};
use req::render::{render_lines, to_markdown, word_description_text};
use req::text::{contains_str, emphasize, join_lines, replace_all, trim_str};
use req::version::Version;

fn requirement(name: &str, description: &str, info: &[&str]) -> Requirement {
    Requirement {
        name: name.to_string(),
        description: description.to_string(),
        additional_info: info.iter().map(|s| s.to_string()).collect(),
    }
}

fn simple_project(topics: Vec<(String, Topic)>) -> Project {
    Project {
        name: "Demo".to_string(),
        version: Version::new(1, 2, 3),
        description: "A demo catalogue.".to_string(),
        topics,
        definitions: Vec::new(),
        config_defaults: Vec::new(),
    }
}

fn one_topic_project() -> Project {
    simple_project(vec![(
        "T1".to_string(),
        Topic {
            name: "Main".to_string(),
            requirements: vec![(
                "REQ-1".to_string(),
                requirement("Must work", "It has to work.", &[]),
            )],
            subtopics: Vec::new(),
        },
    )])
}

fn patterns(pats: &[&str]) -> Vec<regex::Regex> {
    compile_patterns(&pats.iter().map(|s| s.to_string()).collect()).expect("valid patterns")
}

#[test]
fn version_parses_exact_triple() {
    let v = Version::parse("1.2.3").expect("should parse");
    assert_eq!(v, Version::new(1, 2, 3));
    assert_eq!(v.text(), "1.2.3");
}

#[test]
fn version_rejects_two_parts() {
    assert!(Version::parse("1.2").is_none());
}

#[test]
fn version_rejects_letters() {
    assert!(Version::parse("a.b.c").is_none());
}

#[test]
fn version_rejects_four_parts_and_empty_parts() {
    assert!(Version::parse("1.2.3.4").is_none());
    assert!(Version::parse("1..3").is_none());
    assert!(Version::parse("").is_none());
}

#[test]
fn version_rejects_overflow() {
    assert!(Version::parse("99999999999999999999.0.0").is_none());
    assert_eq!(
        Version::parse("18446744073709551615.0.1"),
        Some(Version::new(u64::MAX, 0, 1))
    );
}

#[test]
fn version_accepts_leading_zeros() {
    assert_eq!(Version::parse("01.002.3"), Some(Version::new(1, 2, 3)));
}

#[test]
fn version_renders_multi_digit() {
    assert_eq!(Version::new(10, 0, 250).text(), "10.0.250");
}

#[test]
fn trim_removes_surrounding_whitespace() {
    assert_eq!(trim_str("  a b\t\n"), "a b");
    assert_eq!(trim_str("ab"), "ab");
    assert_eq!(trim_str(" \t "), "");
}

#[test]
fn contains_finds_substring() {
    assert!(contains_str("REQ-1: failed - oops", "REQ-1: failed"));
    assert!(!contains_str("REQ-1: passed", "REQ-1: failed"));
}

#[test]
fn replace_all_is_left_to_right_without_overlap() {
    assert_eq!(replace_all("aaa", "aa", "b"), "ba");
    assert_eq!(replace_all("must must", "must", "M"), "M M");
}

#[test]
fn emphasis_wraps_keywords_in_order() {
    assert_eq!(
        emphasize("you must not fail and you must act"),
        "you **_MUST NOT_** fail and you **_MUST_** act"
    );
    assert_eq!(emphasize("this is optional"), "this is **_OPTIONAL_**");
}

#[test]
fn emphasis_is_idempotent_on_its_own_output() {
    let once = emphasize("you must not fail; it may be required");
    let twice = emphasize(&once);
    assert_eq!(twice, once);
}

#[test]
fn render_minimal_project() {
    let p = simple_project(Vec::new());
    let lines = render_lines(&p, false);
    let expected = vec![
        "# Requirements for Demo".to_string(),
        "".to_string(),
        word_description_text().trim().to_string(),
        "".to_string(),
        "**VERSION: 1.2.3**".to_string(),
        "".to_string(),
        "## Description".to_string(),
        "A demo catalogue.".to_string(),
        "".to_string(),
    ];
    assert_eq!(lines, expected);
}

#[test]
fn render_adds_toc_marker_when_asked() {
    let p = simple_project(Vec::new());
    let lines = render_lines(&p, true);
    assert_eq!(lines[2], "[[_TOC_]]");
    assert_eq!(lines[3], "");
}

#[test]
fn render_topic_headings_depth_and_order() {
    let sub = Topic {
        name: "Inner".to_string(),
        requirements: Vec::new(),
        subtopics: Vec::new(),
    };
    let p = simple_project(vec![
        (
            "T1".to_string(),
            Topic {
                name: " Main ".to_string(),
                requirements: vec![(
                    " REQ-1 ".to_string(),
                    requirement(" Must work ", " It has to work. ", &["note one "]),
                )],
                subtopics: vec![("T1a".to_string(), sub)],
            },
        ),
        (
            "T2".to_string(),
            Topic {
                name: "Other".to_string(),
                requirements: Vec::new(),
                subtopics: Vec::new(),
            },
        ),
    ]);
    let lines = render_lines(&p, false);
    let tail = &lines[9..];
    let expected = vec![
        "## Requirements".to_string(),
        "### _T1_ - Main".to_string(),
        "- **_REQ-1_ - Must work:** It has to work.".to_string(),
        "  - note one".to_string(),
        "".to_string(),
        "#### _T1a_ - Inner".to_string(),
        "".to_string(),
        "### _T2_ - Other".to_string(),
    ];
    assert_eq!(tail, expected.as_slice());
}

#[test]
fn render_definitions_and_config_defaults() {
    let mut p = simple_project(Vec::new());
    p.definitions = vec![Definition {
        name: " Term ".to_string(),
        value: " Meaning ".to_string(),
        additional_info: vec![" extra ".to_string()],
    }];
    p.config_defaults = vec![
        ConfigDefault {
            name: "timeout".to_string(),
            typ: "integer".to_string(),
            valid_values: Some(vec!["1".to_string(), "2".to_string()]),
            unit: Some("seconds".to_string()),
            default_value: Some("2".to_string()),
            hint: Some("(keep it small)".to_string()),
        },
        ConfigDefault {
            name: "token".to_string(),
            typ: "string".to_string(),
            valid_values: None,
            unit: None,
            default_value: None,
            hint: None,
        },
    ];
    let lines = render_lines(&p, false);
    let tail = &lines[9..];
    let expected = vec![
        "## Definitions".to_string(),
        "- Term: Meaning".to_string(),
        "  - extra".to_string(),
        "".to_string(),
        "## Config Defaults".to_string(),
        "- **timeout**".to_string(),
        "  - Type: integer".to_string(),
        "  - Unit: seconds".to_string(),
        "  - Valid Values: _1, 2_".to_string(),
        "  - Default Value: _2_ (keep it small)".to_string(),
        "".to_string(),
        "- **token**".to_string(),
        "  - Type: string".to_string(),
        "  - **Required**: This value **_MUST_** be provided as a start parameter.".to_string(),
        "".to_string(),
    ];
    assert_eq!(tail, expected.as_slice());
}

#[test]
fn to_markdown_applies_emphasis_to_joined_text() {
    let mut p = simple_project(Vec::new());
    p.description = "the value may change".to_string();
    let text = to_markdown(&p, false);
    assert!(text.contains("the value **_MAY_** change"));
    assert!(text.starts_with("# Requirements for Demo\n"));
}

#[test]
fn check_reports_failure_with_error_line() {
    let p = one_topic_project();
    let pats = patterns(&["REQ-.*"]);
    let texts = vec!["REQ-1: failed - timeout waiting for response".to_string()];
    let out = check(&p, &pats, &texts);
    let expected = vec![
        "# Test Results - Demo".to_string(),
        "## _T1_ - Main".to_string(),
        "- _REQ-1_ - Must work: :x:".to_string(),
        "  - timeout waiting for response".to_string(),
        "".to_string(),
    ];
    assert_eq!(out, expected);
}

#[test]
fn check_reports_pass_without_error_lines() {
    let p = one_topic_project();
    let pats = patterns(&["REQ-.*"]);
    let texts = vec!["REQ-1: passed".to_string()];
    let out = check(&p, &pats, &texts);
    let expected = vec![
        "# Test Results - Demo".to_string(),
        "## _T1_ - Main".to_string(),
        "- _REQ-1_ - Must work: :white_check_mark:".to_string(),
        "".to_string(),
    ];
    assert_eq!(out, expected);
}

#[test]
fn check_reports_unknown_when_no_text_mentions_id() {
    let p = one_topic_project();
    let pats = patterns(&["REQ-.*"]);
    let texts = vec!["nothing to see here".to_string()];
    let out = check(&p, &pats, &texts);
    assert_eq!(out[2], "- _REQ-1_ - Must work: :warning:");
}

#[test]
fn check_failure_dominates_in_both_scan_orders() {
    let p = one_topic_project();
    let pats = patterns(&["REQ-.*"]);
    let ta = "REQ-1: passed".to_string();
    let tb = "REQ-1: failed - broke badly".to_string();
    let out_ab = check(&p, &pats, &vec![ta.clone(), tb.clone()]);
    let out_ba = check(&p, &pats, &vec![tb, ta]);
    assert_eq!(out_ab[2], "- _REQ-1_ - Must work: :x:");
    assert_eq!(out_ab[3], "  - broke badly");
    assert_eq!(out_ab, out_ba);
}

#[test]
fn check_keeps_only_last_failing_texts_errors() {
    let p = one_topic_project();
    let pats = patterns(&["REQ-.*"]);
    let texts = vec![
        "REQ-1: failed - first cause".to_string(),
        "REQ-1: failed - second cause".to_string(),
    ];
    let out = check(&p, &pats, &texts);
    assert_eq!(out[3], "  - second cause");
    assert_eq!(out.len(), 5);
}

#[test]
fn check_prunes_topics_without_matching_requirements() {
    let p = simple_project(vec![(
        "T1".to_string(),
        Topic {
            name: "Main".to_string(),
            requirements: vec![(
                "OTHER-1".to_string(),
                requirement("Else", "Something else.", &[]),
            )],
            subtopics: Vec::new(),
        },
    )]);
    let pats = patterns(&["REQ-.*"]);
    let texts = vec!["OTHER-1: passed".to_string()];
    let out = check(&p, &pats, &texts);
    assert_eq!(out, vec!["# Test Results - Demo".to_string()]);
}

#[test]
fn check_recurses_into_subtopics_with_deeper_headings() {
    let p = simple_project(vec![(
        "T1".to_string(),
        Topic {
            name: "Main".to_string(),
            requirements: Vec::new(),
            subtopics: vec![(
                "T1a".to_string(),
                Topic {
                    name: "Inner".to_string(),
                    requirements: vec![(
                        "REQ-9".to_string(),
                        requirement("Deep", "Nested requirement.", &[]),
                    )],
                    subtopics: Vec::new(),
                },
            )],
        },
    )]);
    let pats = patterns(&["REQ-.*"]);
    let texts = vec!["REQ-9: passed".to_string()];
    let out = check(&p, &pats, &texts);
    let expected = vec![
        "# Test Results - Demo".to_string(),
        "## _T1_ - Main".to_string(),
        "### _T1a_ - Inner".to_string(),
        "- _REQ-9_ - Deep: :white_check_mark:".to_string(),
        "".to_string(),
        "".to_string(),
    ];
    assert_eq!(out, expected);
}

#[test]
fn check_pattern_match_is_substring_based() {
    let p = one_topic_project();
    let pats = patterns(&["EQ-1"]);
    let texts = vec!["REQ-1: passed".to_string()];
    let out = check(&p, &pats, &texts);
    assert_eq!(out[2], "- _REQ-1_ - Must work: :white_check_mark:");
}

#[test]
fn compile_rejects_invalid_pattern() {
    assert!(compile_patterns(&vec!["REQ-(".to_string()]).is_none());
}

#[test]
fn join_lines_uses_single_newlines() {
    let lines = vec!["a".to_string(), "".to_string(), "b".to_string()];
    assert_eq!(join_lines(&lines), "a\n\nb");
}

#[test]
fn error_line_needs_a_dash_to_carry_a_message() {
    let p = one_topic_project();
    let pats = patterns(&["REQ-.*"]);
    let texts = vec!["REQ-1: failed\nREQ-1: failed - real cause".to_string()];
    let out = check(&p, &pats, &texts);
    assert_eq!(out[2], "- _REQ-1_ - Must work: :x:");
    assert_eq!(out[3], "  - real cause");
    assert_eq!(out.len(), 5);
}

#[test]
fn check_collects_every_matching_error_line() {
    let p = one_topic_project();
    let pats = patterns(&["REQ-.*"]);
    let texts = vec!["REQ-1: failed - first\r\nREQ-1: failed - second\nREQ-1: unrelated".to_string()];
    let out = check(&p, &pats, &texts);
    assert_eq!(out[3], "  - first");
    assert_eq!(out[4], "  - second");
    assert_eq!(out.len(), 6);
}

#[test]
fn check_looks_up_status_by_untrimmed_identifier() {
    let p = simple_project(vec![(
        "T1".to_string(),
        Topic {
            name: "Main".to_string(),
            requirements: vec![(
                " REQ-1 ".to_string(),
                requirement("Padded", "Whitespace around the key.", &[]),
            )],
            subtopics: Vec::new(),
        },
    )]);
    let pats = patterns(&["REQ-.*"]);
    let texts = vec!["REQ-1: passed".to_string()];
    let out = check(&p, &pats, &texts);
    assert_eq!(out[2], "- _REQ-1_ - Padded: :warning:");
}
