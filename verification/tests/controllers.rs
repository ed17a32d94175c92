use synapcmd::config::RegItem;
use synapcmd::git::CommitSummary;
use synapcmd::git_commit_ctrl::GitCommitCtrl;
use synapcmd::git_history_ctrl::GitHistoryCtrl;
use synapcmd::goto_ctrl::{GotoCtrl, GotoItem};
use synapcmd::grep_ctrl::GrepCtrl;
use synapcmd::find_ctrl::FindCtrl;

#[test]
fn test_git_commit_ctrl_basic() {
    let files = vec!["s file1.rs".to_string(), "s file2.rs".to_string()];
    let commits = vec!["hash1 msg1".to_string()];
    let mut ctrl = GitCommitCtrl::with_data(".".to_string(), files, commits);

    assert_eq!(ctrl.files.len(), 2);
    assert_eq!(ctrl.focus_file_name(), Some("file1.rs".to_string()));

    ctrl.next();
    assert_eq!(ctrl.selected_idx, 1);
    assert_eq!(ctrl.focus_file_name(), Some("file2.rs".to_string()));

    ctrl.prev();
    assert_eq!(ctrl.selected_idx, 0);
}

fn sample_commits() -> Vec<CommitSummary> {
    vec![
        CommitSummary {
            hash: "aaa1111".to_string(),
            author: "Alice".to_string(),
            date: "2026-02-15".to_string(),
            subject: "Add history screen".to_string(),
        },
        CommitSummary {
            hash: "bbb2222".to_string(),
            author: "Bob".to_string(),
            date: "2026-02-14".to_string(),
            subject: "Fix filter logic".to_string(),
        },
        CommitSummary {
            hash: "ccc3333".to_string(),
            author: "Chris".to_string(),
            date: "2026-02-13".to_string(),
            subject: "Refactor stage screen".to_string(),
        },
    ]
}

#[test]
fn test_git_history_ctrl_filter_by_author_and_subject() {
    let mut ctrl = GitHistoryCtrl::with_data(".".to_string(), sample_commits());

    ctrl.set_filter("alice".to_string());
    assert_eq!(ctrl.filtered.len(), 1);
    assert_eq!(ctrl.filtered[0].author, "Alice");

    ctrl.set_filter("filter".to_string());
    assert_eq!(ctrl.filtered.len(), 1);
    assert_eq!(ctrl.filtered[0].subject, "Fix filter logic");
}

#[test]
fn test_git_history_ctrl_navigation_bounds() {
    let mut ctrl = GitHistoryCtrl::with_data(".".to_string(), sample_commits());

    ctrl.next();
    ctrl.next();
    ctrl.next();
    assert_eq!(ctrl.selected_idx, 2);

    ctrl.prev();
    ctrl.prev();
    ctrl.prev();
    assert_eq!(ctrl.selected_idx, 0);
}

#[test]
fn test_goto_ctrl_filtering() {
    let repos = vec![
        RegItem {
            names: vec!["project1".to_string()],
            path: "/path/to/p1".to_string(),
            groups: vec![],
            repo: true,
        },
        RegItem {
            names: vec!["awesome".to_string()],
            path: "/path/to/awesome".to_string(),
            groups: vec![],
            repo: true,
        },
    ];

    let mut ctrl = GotoCtrl::with_repos(repos);

    assert!(ctrl.items.iter().any(|i| match i {
        GotoItem::Repo(r) => r.names[0] == "project1",
        _ => false,
    }));

    ctrl.filter = "awe".to_string();
    let filtered = ctrl.filtered_items();
    assert!(filtered.len() >= 1);
    let has_awesome = filtered.iter().any(|i| match i {
        GotoItem::Repo(r) => r.names[0] == "awesome",
        _ => false,
    });
    assert!(has_awesome);

    let has_p1 = filtered.iter().any(|i| match i {
        GotoItem::Repo(r) => r.names[0] == "project1",
        _ => false,
    });
    assert!(!has_p1);
}

#[test]
fn test_grep_ctrl_basic() {
    let lines = vec!["file1:1:match1".to_string(), "file2:10:match2".to_string()];
    let mut ctrl = GrepCtrl::with_lines(lines);

    assert_eq!(ctrl.lines.len(), 2);
    assert_eq!(ctrl.focus_line(), Some("file1:1:match1".to_string()));

    ctrl.next();
    assert_eq!(ctrl.selected_idx, 1);
    assert_eq!(ctrl.focus_line(), Some("file2:10:match2".to_string()));

    ctrl.prev();
    assert_eq!(ctrl.selected_idx, 0);

    ctrl.set_selected(1);
    assert_eq!(ctrl.selected_idx, 1);
}

#[test]
fn find_ctrl_loads_preview_text() {
    let mut ctrl = FindCtrl::with_files(vec!["one.txt".to_string(), "two.txt".to_string()]);
    assert_eq!(ctrl.focus_file(), Some("one.txt".to_string()));
    ctrl.load_content("line1\tend\nline2");
    assert_eq!(ctrl.content, vec!["line1    end".to_string(), "line2".to_string()]);
    ctrl.next();
    assert_eq!(ctrl.selected_idx, 1);
    ctrl.prev();
    ctrl.prev();
    assert_eq!(ctrl.selected_idx, 0);
}

#[test]
fn double_click_needs_same_row_twice() {
    let mut last: Option<(u64, usize)> = None;
    assert!(!synapcmd::common::is_double_click(&mut last, 1000, 3));
    assert!(synapcmd::common::is_double_click(&mut last, 1200, 3));
    assert!(!synapcmd::common::is_double_click(&mut last, 1300, 3));
    assert!(!synapcmd::common::is_double_click(&mut last, 2000, 3));
}

#[test]
fn goto_results_come_best_first() {
    let repos = vec![
        RegItem {
            names: vec!["other".to_string()],
            path: "/somewhere/xabcy".to_string(),
            groups: vec![],
            repo: true,
        },
        RegItem {
            names: vec!["exact".to_string()],
            path: "/somewhere/abc".to_string(),
            groups: vec![],
            repo: true,
        },
        RegItem {
            names: vec!["prefixed".to_string()],
            path: "/somewhere/abcd".to_string(),
            groups: vec![],
            repo: true,
        },
    ];
    let mut ctrl = GotoCtrl::with_repos(repos);
    ctrl.filter = "abc".to_string();
    let ranked = ctrl.filtered_items();
    let paths: Vec<String> = ranked
        .iter()
        .map(|i| match i {
            GotoItem::Repo(r) => r.path.clone(),
            GotoItem::LocalDir(d) => d.name.clone(),
            GotoItem::LocalFile(d) => d.name.clone(),
        })
        .collect();
    assert_eq!(
        paths,
        vec![
            "/somewhere/abc".to_string(),
            "/somewhere/abcd".to_string(),
            "/somewhere/xabcy".to_string(),
        ]
    );
}
