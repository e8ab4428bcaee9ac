use strata::tags::{get_version_tags, score_tags, version_tag, TagRef};

fn tag(name: &str, ts: Option<i64>) -> TagRef {
    TagRef { name: name.as_bytes().to_vec(), ts }
}

fn is_version(name: &str) -> bool {
    get_version_tags(&vec![tag(name, Some(1))]).len() == 1
}

#[test]
fn names_of_version_tags() {
    assert!(is_version("refs/tags/v1.2.3"));
    assert!(is_version("refs/tags/1.2.3"));
    assert!(is_version("refs/tags/V10.20.30-rc1"));
    assert!(!is_version("refs/tags/v1.2"));
    assert!(!is_version("refs/tags/release-1.2.3"));
    assert!(!is_version("x/refs/tags/v1.2.3"));
    assert!(!is_version("v1.2.3"));
}

#[test]
fn names_without_regard_to_case() {
    assert!(is_version("Refs/TAGS/V1.22.3x"));
    assert!(is_version("refs/tags/0.0.0"));
    assert!(is_version("refs/tags/v1.2.3.4"));
    assert!(is_version("refs/tags/v001.2.30\n"));
}

#[test]
fn names_that_miss_a_part() {
    assert!(!is_version(""));
    assert!(!is_version("refs/tags/"));
    assert!(!is_version("refs/tags/v"));
    assert!(!is_version("refs/tags/vv1.2.3"));
    assert!(!is_version("refs/tags/v1.2."));
    assert!(!is_version("refs/tags/v1..3"));
    assert!(!is_version("refs/tags/v.1.2.3"));
    assert!(!is_version("refs/tags/v1.x"));
    assert!(!is_version("refs/tags/v-1.2.3"));
    assert!(!is_version("refs-tags/v1.2.3"));
    assert!(!is_version("\nrefs/tags/v1.2.3"));
}

#[test]
fn names_beyond_ascii() {
    assert!(is_version("refs/tags/v1.2.3-\u{e9}"));
    assert!(is_version("refs/tags/v\u{661}.2.3"));
    assert!(is_version("ref\u{17f}/tags/v1.2.3"));
    assert!(!is_version("refs/tags/\u{e9}1.2.3"));
}

#[test]
fn what_follows_the_answer_of_the_pattern() {
    let full = "refs/tags/v1.2.3";
    assert_eq!(version_tag(full, Some(true), Some(9)), Some(("v1.2.3".to_string(), 9)));
    assert_eq!(version_tag(full, Some(false), Some(9)), None);
    assert_eq!(version_tag(full, None, Some(9)), None);
    assert_eq!(version_tag(full, Some(true), None), None);
    assert_eq!(version_tag("refs/tags/refs/tags/x", Some(true), Some(0)), Some(("x".to_string(), 0)));
    assert_eq!(version_tag("REFS/tags/x", Some(true), Some(0)), Some(("REFS/tags/x".to_string(), 0)));
}

#[test]
fn version_tags_in_the_order_of_time() {
    let refs = vec![
        tag("refs/tags/v2.0.0", Some(1000)),
        tag("refs/tags/nightly", Some(5)),
        tag("refs/tags/v1.0.0", Some(0)),
        tag("refs/tags/v1.0.1", Some(100)),
        tag("refs/tags/v9.0.0", None),
        TagRef { name: b"refs/tags/v1.0.\xff".to_vec(), ts: Some(1) },
    ];
    let tags = get_version_tags(&refs);
    let got: Vec<(String, i64, u64, u64)> =
        tags.into_iter().map(|t| (t.name, t.ts, t.spacing, t.max_spacing)).collect();
    assert_eq!(
        got,
        vec![
            ("v1.0.0".to_string(), 0, 100, 900),
            ("v1.0.1".to_string(), 100, 100, 900),
            ("v2.0.0".to_string(), 1000, 900, 900)
        ]
    );
}

#[test]
fn a_single_tag_stands_alone() {
    let tags = score_tags(&vec![("a".to_string(), 5)]);
    assert_eq!(tags[0].spacing, i64::MAX as u64);
    assert_eq!(tags[0].max_spacing, i64::MAX as u64);
}

#[test]
fn no_tags() {
    assert_eq!(get_version_tags(&vec![tag("refs/tags/x", Some(1))]).len(), 0);
    assert_eq!(score_tags(&vec![]).len(), 0);
}

#[test]
fn tags_of_the_same_time() {
    let tags = score_tags(&vec![("b".to_string(), 5), ("a".to_string(), 5)]);
    assert_eq!(tags[0].name, "b");
    assert_eq!((tags[0].spacing, tags[0].max_spacing), (0, 1));
    assert_eq!((tags[1].spacing, tags[1].max_spacing), (0, 1));
}

#[test]
fn importance_is_a_share_of_one_whole() {
    let times = [3i64, 50, 51, 52, 400, 900, 901];
    let tags =
        score_tags(&times.iter().map(|t| (t.to_string(), *t)).collect::<Vec<_>>());
    assert!(tags.iter().all(|t| t.spacing <= t.max_spacing && t.max_spacing == 348));
    assert!(tags.iter().any(|t| t.spacing == t.max_spacing));
    let gaps: Vec<u64> = tags.iter().map(|t| t.spacing).collect();
    assert_eq!(gaps, vec![47, 1, 1, 1, 348, 1, 1]);
}

#[test]
fn times_as_far_apart_as_can_be() {
    let tags = score_tags(&vec![("a".to_string(), i64::MIN), ("b".to_string(), i64::MAX)]);
    assert_eq!((tags[0].spacing, tags[0].max_spacing), (u64::MAX, u64::MAX));
    assert_eq!((tags[1].spacing, tags[1].max_spacing), (u64::MAX, u64::MAX));
    let tags = score_tags(&vec![
        ("a".to_string(), i64::MIN),
        ("b".to_string(), 0),
        ("c".to_string(), i64::MAX),
    ]);
    let gaps: Vec<u64> = tags.iter().map(|t| t.spacing).collect();
    assert_eq!(gaps, vec![1 << 63, i64::MAX as u64, i64::MAX as u64]);
    assert_eq!(tags[0].max_spacing, 1 << 63);
}
