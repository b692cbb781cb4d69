use goback::reflog::{extract_branch_history, get_nth_previous_branch};

#[test]
fn test_basic_checkout_history() {
    let reflog = r#"
9c346b78 HEAD@{0}: commit: fix typo
9c346b78 HEAD@{1}: checkout: moving from feature/fix_board to feature/fix_rake
e5f6g7h8 HEAD@{2}: checkout: moving from main to feature/fix_board
m3n4o5p6 HEAD@{3}: checkout: moving from develop to main
"#;
    let history = extract_branch_history(reflog);

    assert_eq!(history.len(), 4);
    assert_eq!(history[0], "feature/fix_rake"); // current
    assert_eq!(history[1], "feature/fix_board"); // 1 step back
    assert_eq!(history[2], "main"); // 2 steps back
    assert_eq!(history[3], "develop"); // 3 steps back
}

#[test]
fn test_single_checkout() {
    let reflog = "abc123 HEAD@{0}: checkout: moving from main to feature/new";
    let history = extract_branch_history(reflog);

    assert_eq!(history.len(), 2);
    assert_eq!(history[0], "feature/new");
    assert_eq!(history[1], "main");
}

#[test]
fn test_no_checkout_history() {
    let reflog = r#"
abc123 HEAD@{0}: commit: add feature
def456 HEAD@{1}: commit: initial commit
"#;
    let history = extract_branch_history(reflog);
    assert!(history.is_empty());
}

#[test]
fn test_branch_with_slashes() {
    let reflog = r#"
abc123 HEAD@{0}: checkout: moving from feature/2024/12/24_fix to release/v1.0.0
def456 HEAD@{1}: checkout: moving from hotfix/urgent-fix to feature/2024/12/24_fix
"#;
    let history = extract_branch_history(reflog);

    assert_eq!(history.len(), 3);
    assert_eq!(history[0], "release/v1.0.0");
    assert_eq!(history[1], "feature/2024/12/24_fix");
    assert_eq!(history[2], "hotfix/urgent-fix");
}

#[test]
fn test_same_branch_multiple_times() {
    let reflog = r#"
abc123 HEAD@{0}: checkout: moving from main to feature/a
def456 HEAD@{1}: checkout: moving from feature/a to main
ghi789 HEAD@{2}: checkout: moving from main to feature/a
"#;
    let history = extract_branch_history(reflog);

    assert_eq!(history.len(), 4);
    assert_eq!(history[0], "feature/a");
    assert_eq!(history[1], "main");
    assert_eq!(history[2], "feature/a");
    assert_eq!(history[3], "main");
}

#[test]
fn test_get_nth_previous_branch() {
    let history = vec![
        "current".to_string(),
        "first".to_string(),
        "second".to_string(),
        "third".to_string(),
    ];

    assert_eq!(get_nth_previous_branch(&history, 0), Some(&"current".to_string()));
    assert_eq!(get_nth_previous_branch(&history, 1), Some(&"first".to_string()));
    assert_eq!(get_nth_previous_branch(&history, 3), Some(&"third".to_string()));
    assert_eq!(get_nth_previous_branch(&history, 4), None);
}

#[test]
fn test_empty_history() {
    let history: Vec<String> = vec![];
    assert_eq!(get_nth_previous_branch(&history, 0), None);
}

#[test]
fn test_mixed_reflog_entries() {
    let reflog = r#"
abc123 HEAD@{0}: commit: fix bug
def456 HEAD@{1}: pull: Fast-forward
ghi789 HEAD@{2}: checkout: moving from develop to feature/test
jkl012 HEAD@{3}: merge feature/other: Merge made by recursive
mno345 HEAD@{4}: checkout: moving from main to develop
pqr678 HEAD@{5}: rebase finished: refs/heads/main onto abc123
stu901 HEAD@{6}: checkout: moving from feature/old to main
"#;
    let history = extract_branch_history(reflog);

    assert_eq!(history.len(), 4);
    assert_eq!(history[0], "feature/test");
    assert_eq!(history[1], "develop");
    assert_eq!(history[2], "main");
    assert_eq!(history[3], "feature/old");
}

#[test]
fn test_branch_with_special_characters() {
    let reflog = r#"
abc123 HEAD@{0}: checkout: moving from feature/fix_bug-123 to release-v2.0
def456 HEAD@{1}: checkout: moving from bugfix/issue#456 to feature/fix_bug-123
"#;
    let history = extract_branch_history(reflog);

    assert_eq!(history.len(), 3);
    assert_eq!(history[0], "release-v2.0");
    assert_eq!(history[1], "feature/fix_bug-123");
    assert_eq!(history[2], "bugfix/issue#456");
}

#[test]
fn single_transition_then_one_step_back() {
    let history = extract_branch_history("...checkout: moving from main to feature/x");
    assert_eq!(history, vec!["feature/x".to_string(), "main".to_string()]);
    assert_eq!(get_nth_previous_branch(&history, 1), Some(&"main".to_string()));
}

#[test]
fn empty_log_gives_no_branch() {
    let history = extract_branch_history("");
    assert!(history.is_empty());
    for n in 0..5 {
        assert_eq!(get_nth_previous_branch(&history, n), None);
    }
}

#[test]
fn transition_count_gives_length_plus_one() {
    let log = "a: checkout: moving from x to y\nb: checkout: moving from w to x\nc: checkout: moving from v to w\n";
    let history = extract_branch_history(log);
    assert_eq!(history.len(), 4);
    assert_eq!(history, vec!["y", "x", "w", "v"]);
}

#[test]
fn current_is_destination_of_first_transition() {
    let log = "a: commit: one\nb: pull: fast-forward\nc: reset: moving to HEAD~1\nd: checkout: moving from base to top\ne: checkout: moving from other to base\n";
    let history = extract_branch_history(log);
    assert_eq!(history[0], "top");
    assert_eq!(history, vec!["top", "base", "other"]);
}

#[test]
fn marker_without_separator_is_skipped() {
    let log = "a: checkout: moving from nowhere\nb: checkout: moving from main to dev\n";
    let history = extract_branch_history(log);
    assert_eq!(history, vec!["dev", "main"]);
}

#[test]
fn carriage_return_line_endings_are_dropped() {
    let log = "a: checkout: moving from main to dev\r\nb: checkout: moving from old to main\r\n";
    let history = extract_branch_history(log);
    assert_eq!(history, vec!["dev", "main", "old"]);
}

#[test]
fn nth_previous_beyond_end_is_none() {
    let history = vec!["a".to_string(), "b".to_string()];
    assert_eq!(get_nth_previous_branch(&history, 1), Some(&"b".to_string()));
    assert_eq!(get_nth_previous_branch(&history, 2), None);
    assert_eq!(get_nth_previous_branch(&history, usize::MAX), None);
}
