use synapcmd::git::{GitItem, GitItemKind};
use synapcmd::git_stage_ctrl::GitStageCtrl;
use synapcmd::main_ctrl::{DirEntry, MainCtrl};

fn entry(label: &str, status: &str, path: &str) -> GitItem {
    GitItem {
        label: label.to_string(),
        status: Some(status.to_string()),
        kind: GitItemKind::Entry,
        path: Some(path.to_string()),
    }
}

fn header(label: &str) -> GitItem {
    GitItem {
        label: label.to_string(),
        status: None,
        kind: GitItemKind::Header,
        path: None,
    }
}

#[test]
fn stage_ctrl_skips_headers_when_navigating() {
    let items = vec![
        header("Header"),
        entry("file1", "s", "file1"),
        entry("file2", "?", "file2"),
    ];
    let mut ctrl = GitStageCtrl::with_items(items).unwrap();

    assert_eq!(ctrl.selected_idx, Some(1));
    assert_eq!(ctrl.focus_file_name(), Some("file1".to_string()));

    ctrl.next();
    assert_eq!(ctrl.selected_idx, Some(2));
    assert_eq!(ctrl.focus_file_name(), Some("file2".to_string()));

    ctrl.prev();
    assert_eq!(ctrl.selected_idx, Some(1));

    ctrl.set_selected(0);
    assert_eq!(ctrl.selected_idx, Some(1));
}

#[test]
fn stage_ctrl_needs_at_least_one_entry() {
    let only_headers = vec![header("one"), header("two")];
    assert!(GitStageCtrl::with_items(only_headers).is_err());
}

#[test]
fn browser_lists_parent_first_and_hides_data_dir() {
    let mut ctrl = MainCtrl::with_ctx("/work".to_string(), vec![]);
    ctrl.refresh(vec![
        DirEntry { name: ".dcdata".to_string(), is_dir: true },
        DirEntry { name: "docs".to_string(), is_dir: true },
        DirEntry { name: "readme.md".to_string(), is_dir: false },
    ]);
    let names: Vec<&str> = ctrl.items.iter().map(|e| e.name.as_str()).collect();
    assert_eq!(names, vec!["..", "docs", "readme.md"]);

    assert_eq!(ctrl.focus_name(), Some("..".to_string()));
    ctrl.select_next();
    assert_eq!(ctrl.selected_idx, 1);
    ctrl.select_prev();
    ctrl.select_prev();
    assert_eq!(ctrl.selected_idx, 0);
    let last = ctrl.items.len() - 1;
    ctrl.set_selected(last);
    ctrl.select_next();
    assert_eq!(ctrl.selected_idx, last);
}
