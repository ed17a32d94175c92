use synapcmd::config::RegItem;
use synapcmd::git::{PullEvent, PullEventKind, RepoStatusInfo, StatusEvent};
use synapcmd::reg_list_ctrl::RegListCtrl;
use synapcmd::util::Semaphore;

fn reg(name: &str, path: &str) -> RegItem {
    RegItem {
        names: vec![name.to_string()],
        path: path.to_string(),
        groups: vec![],
        repo: true,
    }
}

fn health(dirty: bool, ahead: usize, behind: usize) -> RepoStatusInfo {
    RepoStatusInfo {
        branch: "main".to_string(),
        upstream: "origin/main".to_string(),
        dirty,
        ahead,
        behind,
    }
}

#[test]
fn test_reg_list_ctrl_filtering() {
    let items = vec![reg("repo1", "/p1"), reg("other", "/other")];
    let mut ctrl = RegListCtrl::with_repos(items);

    assert_eq!(ctrl.filtered_items().len(), 2);

    ctrl.filter = "repo".to_string();
    let filtered = ctrl.filtered_items();
    assert_eq!(filtered.len(), 1);
    assert_eq!(filtered[0].names[0], "repo1");

    ctrl.select_at(0);
    assert_eq!(ctrl.focus_item().unwrap().names[0], "repo1");
}

#[test]
fn test_reg_list_ctrl_status_update() {
    let items = vec![reg("repo1", "/p1"), reg("repo2", "/p2")];
    let mut ctrl = RegListCtrl::with_repos(items);

    let events = vec![StatusEvent {
        path: "/p2".to_string(),
        info: Some(health(true, 1, 0)),
    }];
    ctrl.drain_status_events(events);

    let found = ctrl.status_infos.iter().find(|e| e.0 == "/p2");
    assert!(found.is_some());
    let info = &found.unwrap().1;
    assert!(info.dirty);
    assert_eq!(info.ahead, 1);

    assert_eq!(ctrl.items[0].path, "/p2");
    assert_eq!(ctrl.items[1].path, "/p1");
}

#[test]
fn test_reg_list_ctrl_clear_detail() {
    let items = vec![reg("repo1", "/p1"), reg("repo2", "/p2")];
    let mut ctrl = RegListCtrl::with_repos(items);

    ctrl.status_lines = vec!["some old detail".to_string()];
    ctrl.select_at(1);

    assert!(ctrl.status_lines.is_empty());
    assert_eq!(ctrl.log_path, Some("/p2".to_string()));
}

#[test]
fn test_reg_list_ctrl_initial_status_check() {
    let items = vec![reg("repo1", "/p1")];
    let ctrl = RegListCtrl::with_repos(items);

    let probes = ctrl.start_status_check();
    assert_eq!(probes, vec!["/p1".to_string()]);
}

#[test]
fn test_reg_list_ctrl_refresh_after_pull() {
    let items = vec![reg("repo1", "/p1")];
    let mut ctrl = RegListCtrl::with_repos(items);

    let finished = ctrl.drain_pull_events(vec![PullEvent {
        path: "/p1".to_string(),
        kind: PullEventKind::Finished(0, None),
    }]);

    assert_eq!(finished, vec!["/p1".to_string()]);
}

#[test]
fn health_sort_puts_attention_first() {
    let items = vec![reg("a", "A"), reg("b", "B"), reg("c", "C")];
    let mut ctrl = RegListCtrl::with_repos(items);
    ctrl.drain_status_events(vec![
        StatusEvent { path: "A".to_string(), info: Some(health(false, 0, 0)) },
        StatusEvent { path: "B".to_string(), info: Some(health(true, 0, 0)) },
        StatusEvent { path: "C".to_string(), info: Some(health(false, 2, 0)) },
    ]);
    let order: Vec<&str> = ctrl.items.iter().map(|i| i.path.as_str()).collect();
    assert_eq!(order, vec!["B", "C", "A"]);
}

#[test]
fn duplicate_submission_is_suppressed() {
    let items = vec![reg("repo1", "/p1")];
    let mut ctrl = RegListCtrl::with_repos(items.clone());

    let first = ctrl.start_pull(&items, true);
    assert_eq!(first, vec!["/p1".to_string()]);

    // resubmitting while the task is pending starts nothing
    let second = ctrl.start_pull(&items, true);
    assert!(second.is_empty());

    // one batch offering the same path twice starts it once
    let mut fresh = RegListCtrl::with_repos(items.clone());
    let doubled = vec![reg("repo1", "/p1"), reg("repo1", "/p1")];
    let started = fresh.start_pull(&doubled, true);
    assert_eq!(started.len(), 1);

    // still suppressed while running; free again once the task finished
    ctrl.drain_pull_events(vec![PullEvent {
        path: "/p1".to_string(),
        kind: PullEventKind::Started,
    }]);
    assert!(ctrl.start_pull(&items, true).is_empty());
    ctrl.drain_pull_events(vec![PullEvent {
        path: "/p1".to_string(),
        kind: PullEventKind::Finished(0, None),
    }]);
    assert_eq!(ctrl.start_pull(&items, true).len(), 1);
}

#[test]
fn pull_log_is_recorded_and_stripped() {
    let items = vec![reg("repo1", "/p1")];
    let mut ctrl = RegListCtrl::with_repos(items.clone());
    ctrl.start_pull(&items, false);
    ctrl.drain_pull_events(vec![
        PullEvent { path: "/p1".to_string(), kind: PullEventKind::Started },
        PullEvent {
            path: "/p1".to_string(),
            kind: PullEventKind::Line("\x1b[32mpulling\x1b[0m\r".to_string()),
        },
    ]);
    let rec = ctrl.pull_infos.iter().find(|e| e.0 == "/p1").unwrap();
    assert_eq!(rec.1.log, vec!["pulling".to_string()]);
}

#[test]
fn worker_pool_never_exceeds_its_bound() {
    let mut sem = Semaphore::new(5);
    let mut running: usize = 0;
    for task in 0..50 {
        if sem.count == sem.max {
            // a full pool forces a finish before the next start
            sem.release();
            running -= 1;
        }
        sem.acquire();
        running += 1;
        assert!(sem.count <= 5);
        assert_eq!(sem.count, running);
        let _ = task;
    }
    while running > 0 {
        sem.release();
        running -= 1;
    }
    assert_eq!(sem.count, 0);
}

#[test]
fn redundant_health_report_does_not_resort() {
    let items = vec![reg("b", "B"), reg("a", "A")];
    let mut ctrl = RegListCtrl::with_repos(items);
    // an unchanged-value report keeps the (unsorted) order as it is
    ctrl.drain_status_events(vec![StatusEvent {
        path: "B".to_string(),
        info: Some(health(false, 0, 0)),
    }]);
    ctrl.drain_status_events(vec![StatusEvent {
        path: "B".to_string(),
        info: Some(health(false, 0, 0)),
    }]);
    let order: Vec<&str> = ctrl.items.iter().map(|i| i.path.as_str()).collect();
    assert_eq!(order, vec!["A", "B"]);
}

#[test]
fn pull_counters_track_submissions_and_finishes() {
    let items = vec![reg("a", "/a"), reg("b", "/b")];
    let mut ctrl = RegListCtrl::with_repos(items.clone());
    let started = ctrl.start_pull(&items, true);
    assert_eq!(started.len(), 2);
    assert_eq!(ctrl.pull_total, 2);
    let again = ctrl.start_pull(&items, true);
    assert!(again.is_empty());
    assert_eq!(ctrl.pull_total, 2);
    let finished = ctrl.drain_pull_events(vec![PullEvent {
        path: "/a".to_string(),
        kind: PullEventKind::Finished(0, None),
    }]);
    assert_eq!(finished, vec!["/a".to_string()]);
    assert_eq!(ctrl.pull_done, 1);
}
