use synapcmd::git::{
    build_git_items, check_rebaseable, classify_revisions, first_line, git_cmd_at,
    git_file_last_name, parse_ahead_behind, parse_count, pull_failure_message, short_hash,
    status_file_list, ActionPlan, CommitSummary, GitAction, GitActor, GitItemKind, PullStatus,
    RepoProbe, RepoStatusInfo, RevRelation,
};

fn info(dirty: bool, ahead: usize, behind: usize) -> RepoStatusInfo {
    RepoStatusInfo {
        branch: "main".to_string(),
        upstream: "origin/main".to_string(),
        dirty,
        ahead,
        behind,
    }
}

#[test]
fn test_repo_status_info_formatting() {
    assert_eq!(info(false, 0, 0).format_status(), "");
    assert_eq!(info(true, 0, 0).format_status(), " *");
    assert_eq!(info(false, 5, 0).format_status(), " +5");
    assert_eq!(info(false, 0, 3).format_status(), " -3");
    assert_eq!(info(true, 2, 1).format_status(), " * +2 -1");
}

#[test]
fn test_commit_summary_label() {
    let item = CommitSummary {
        hash: "abc1234".to_string(),
        author: "me".to_string(),
        date: "2026-01-01".to_string(),
        subject: "message".to_string(),
    };
    assert_eq!(item.to_list_label(), "abc1234 2026-01-01 me message");
}

#[test]
fn test_short_hash() {
    assert_eq!(short_hash("1234567890abcdef"), "1234567");
    assert_eq!(short_hash("abcd"), "abcd");
}

#[test]
fn test_first_line() {
    assert_eq!(first_line("title\nbody"), "title");
    assert_eq!(first_line(""), "< no message >");
    assert_eq!(first_line("\n\n"), "< no message >");
}

#[test]
fn pull_status_labels() {
    assert_eq!(PullStatus::Pending.label(), "PEND");
    assert_eq!(PullStatus::Running.label(), "RUN");
    assert_eq!(PullStatus::Done { code: 0, message: None }.label(), "OK");
    assert_eq!(
        PullStatus::Done { code: 1, message: Some("boom".to_string()) }.label(),
        "ERR"
    );
}

#[test]
fn git_cmd_quotes_the_root() {
    assert_eq!(git_cmd_at("/work/repo", "status"), "git -C \"/work/repo\" status");
}

#[test]
fn file_last_name_handles_renames_and_quotes() {
    assert_eq!(git_file_last_name("M  lib.rs"), Some("lib.rs".to_string()));
    assert_eq!(
        git_file_last_name("R  old.rs -> new.rs"),
        Some("new.rs".to_string())
    );
    assert_eq!(
        git_file_last_name("?? \"has space.txt\""),
        Some("has space.txt".to_string())
    );
    assert_eq!(git_file_last_name("word"), None);
}

#[test]
fn status_list_and_items_sections() {
    let out = "M  changed.rs\n?? fresh.txt\nMM both.rs\nx\n";
    let list = status_file_list(out);
    assert_eq!(list.len(), 3);
    assert_eq!(list[0].1, "M ");
    let items = build_git_items(&list);
    let labels: Vec<&str> = items.iter().map(|i| i.label.as_str()).collect();
    assert_eq!(
        labels,
        vec!["< Modified >", "MM both.rs", "< Untracked >", "?? fresh.txt", "< Staged >", "M  changed.rs", "MM both.rs"]
    );
    assert!(matches!(items[0].kind, GitItemKind::Header));
    assert_eq!(items[1].status.as_deref(), Some(""));
    assert_eq!(items[3].status.as_deref(), Some("?"));
    assert_eq!(items[5].status.as_deref(), Some("s"));
}

#[test]
fn revision_classification() {
    assert!(matches!(classify_revisions("aaa", "aaa", "aaa"), RevRelation::Identical));
    assert!(matches!(classify_revisions("bbb", "aaa", "aaa"), RevRelation::Ahead));
    assert!(matches!(classify_revisions("bbb", "aaa", "ccc"), RevRelation::Diverged));
}

#[test]
fn rebaseable_heuristic_on_file_sets() {
    let disjoint = check_rebaseable("one.rs\ntwo.rs", "three.rs");
    assert!(disjoint.is_empty());
    let shared = check_rebaseable("shared.txt\nlocal.rs", "shared.txt remote.rs");
    assert_eq!(shared, vec!["shared.txt".to_string()]);
}

#[test]
fn counts_parse_with_fallback() {
    assert_eq!(parse_count("42"), 42);
    assert_eq!(parse_count(""), 0);
    assert_eq!(parse_count("4x2"), 0);
    assert_eq!(parse_ahead_behind("3\t7\n"), (3, 7));
    assert_eq!(parse_ahead_behind("nonsense"), (0, 0));
}

#[test]
fn failure_message_prefers_error_lines() {
    let lines = vec![
        "Updating refs".to_string(),
        "error: cannot lock ref".to_string(),
        "  done".to_string(),
    ];
    assert_eq!(
        pull_failure_message(&lines, 1),
        Some("error: cannot lock ref".to_string())
    );
    let plain = vec!["first".to_string(), "last words".to_string(), "  ".to_string()];
    assert_eq!(pull_failure_message(&plain, 1), Some("last words".to_string()));
    assert_eq!(pull_failure_message(&plain, 0), None);
    let empty: Vec<String> = vec![];
    assert_eq!(pull_failure_message(&empty, 9), None);
}

fn probe(tracking: Option<&str>, local: &str, remote: &str, base: &str, gap: usize) -> RepoProbe {
    RepoProbe {
        branch: "main".to_string(),
        tracking: tracking.map(|t| t.to_string()),
        local_rev: local.to_string(),
        remote_rev: remote.to_string(),
        merge_base: base.to_string(),
        gap,
        stash_present: false,
        local_diff: "a.rs".to_string(),
        remote_diff: "b.rs".to_string(),
    }
}

#[test]
fn status_plan_distinguishes_ahead_from_identical() {
    let actor = GitActor::new(true, vec![]);
    let same = actor.apply(GitAction::Status, &probe(Some("origin/main"), "x", "x", "x", 0));
    assert!(matches!(same, ActionPlan::ShowStatus));

    let ahead = actor.apply(GitAction::Status, &probe(Some("origin/main"), "y", "x", "x", 4));
    assert!(matches!(ahead, ActionPlan::ShowAhead { gap: 4 }));

    let merge_ahead = actor.apply(GitAction::Merge, &probe(Some("origin/main"), "y", "x", "x", 4));
    assert!(matches!(merge_ahead, ActionPlan::UpToDate));

    let untracked = actor.apply(GitAction::Status, &probe(None, "y", "", "", 0));
    assert!(matches!(untracked, ActionPlan::NoTracking));
}
