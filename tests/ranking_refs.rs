use gittools::{
    explicit_selection, is_listed, latest_record, rank_refs, RefInfo, RefLog, ReflogError,
    Selection,
};

fn line(ts: i64, msg: &str) -> String {
    format!("{} {} U <u@x> {} +0000\t{}", "0".repeat(40), "a".repeat(40), ts, msg)
}

fn info(full: &str, short: &str, remote: bool, tag: bool) -> RefInfo {
    RefInfo {
        full_name: full.to_string(),
        shorthand: short.to_string(),
        is_remote: remote,
        is_tag: tag,
    }
}

fn with_log(full: &str, short: &str, times: &[i64]) -> RefLog {
    RefLog {
        info: info(full, short, false, false),
        log: Some(times.iter().map(|t| line(*t, short)).collect()),
    }
}

fn names(refs: &[RefLog], head: Option<&str>, remotes: bool, tags: bool) -> Vec<String> {
    let head = head.map(|h| h.to_string());
    rank_refs(&refs.to_vec(), &head, remotes, tags)
        .unwrap()
        .iter()
        .map(|r| r.display_name.clone())
        .collect()
}

#[test]
fn scenario_b_head_branch_left_out() {
    let refs = vec![
        with_log("refs/heads/main", "main", &[100]),
        with_log("refs/heads/feature", "feature", &[200]),
    ];
    let head = Some("refs/heads/main".to_string());
    let ranked = rank_refs(&refs, &head, false, false).unwrap();
    assert_eq!(ranked.len(), 1);
    assert_eq!(ranked[0].display_name, "feature");
    assert_eq!(ranked[0].full_name, "refs/heads/feature");
    match explicit_selection(0, ranked.len()) {
        Selection::Chosen(i) => assert_eq!(ranked[i].full_name, "refs/heads/feature"),
        other => panic!("{:?}", other),
    }
}

#[test]
fn most_recent_first() {
    let refs = vec![
        with_log("refs/heads/a", "a", &[10]),
        with_log("refs/heads/b", "b", &[30]),
        with_log("refs/heads/c", "c", &[20]),
    ];
    assert_eq!(names(&refs, None, false, false), vec!["b", "c", "a"]);
}

#[test]
fn equal_times_keep_enumeration_order() {
    let refs = vec![
        with_log("refs/heads/x", "x", &[5]),
        with_log("refs/heads/y", "y", &[9]),
        with_log("refs/heads/z", "z", &[5]),
        with_log("refs/heads/w", "w", &[5]),
    ];
    assert_eq!(names(&refs, None, false, false), vec!["y", "x", "z", "w"]);
}

#[test]
fn only_the_last_record_counts() {
    let refs = vec![
        with_log("refs/heads/old", "old", &[1000, 1]),
        with_log("refs/heads/new", "new", &[1, 500]),
    ];
    assert_eq!(names(&refs, None, false, false), vec!["new", "old"]);
}

#[test]
fn remotes_and_tags_only_when_asked() {
    let refs = vec![
        RefLog { info: info("refs/remotes/o/m", "o/m", true, false), log: Some(vec![line(3, "r")]) },
        RefLog { info: info("refs/tags/v1", "v1", false, true), log: Some(vec![line(2, "t")]) },
        with_log("refs/heads/m", "m", &[1]),
    ];
    assert_eq!(names(&refs, None, false, false), vec!["m"]);
    assert_eq!(names(&refs, None, true, false), vec!["o/m", "m"]);
    assert_eq!(names(&refs, None, false, true), vec!["v1", "m"]);
    assert_eq!(names(&refs, None, true, true), vec!["o/m", "v1", "m"]);
    assert_eq!(names(&refs, Some("refs/heads/m"), true, true), vec!["o/m", "v1"]);
}

#[test]
fn refs_without_log_are_left_out() {
    let refs = vec![
        RefLog { info: info("refs/heads/n", "n", false, false), log: None },
        RefLog { info: info("refs/heads/e", "e", false, false), log: Some(vec![]) },
        with_log("refs/heads/k", "k", &[7]),
    ];
    assert_eq!(names(&refs, None, false, false), vec!["k"]);
    assert!(rank_refs(&vec![], &None, true, true).unwrap().is_empty());
}

#[test]
fn malformed_last_line_fails_the_ranking() {
    let mut bad = with_log("refs/heads/b", "b", &[1]);
    bad.log.as_mut().unwrap().push("garbage".to_string());
    let refs = vec![with_log("refs/heads/a", "a", &[2]), bad];
    assert_eq!(rank_refs(&refs, &None, false, false).unwrap_err(), ReflogError::MalformedReflogLine);
}

#[test]
fn malformed_earlier_line_is_ignored() {
    let mut ok = with_log("refs/heads/b", "b", &[4]);
    ok.log.as_mut().unwrap().insert(0, "garbage".to_string());
    assert_eq!(names(&[ok], None, false, false), vec!["b"]);
}

#[test]
fn malformed_log_of_filtered_ref_is_not_read() {
    let bad = RefLog {
        info: info("refs/tags/x", "x", false, true),
        log: Some(vec!["garbage".to_string()]),
    };
    assert_eq!(names(&[bad], None, false, false), Vec::<String>::new());
}

#[test]
fn listing_policy() {
    let head = Some("refs/heads/main".to_string());
    assert!(!is_listed(&info("refs/heads/main", "main", false, false), &head, true, true));
    assert!(is_listed(&info("refs/heads/dev", "dev", false, false), &head, false, false));
    assert!(!is_listed(&info("refs/remotes/o/x", "o/x", true, false), &None, false, true));
    assert!(is_listed(&info("refs/remotes/o/x", "o/x", true, false), &None, true, false));
    assert!(!is_listed(&info("refs/tags/t", "t", false, true), &None, true, false));
}

#[test]
fn latest_record_of_a_log() {
    assert_eq!(latest_record(&vec![]), Ok(None));
    let rec = latest_record(&vec![line(1, "first"), line(2, "second")]).unwrap().unwrap();
    assert_eq!(rec.timestamp, 2);
    assert_eq!(rec.message, "second");
    assert_eq!(latest_record(&vec![line(1, "x"), "bad".to_string()]), Err(ReflogError::MalformedReflogLine));
}
