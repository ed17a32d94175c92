use synapcmd::config::{is_executable_in_path, Config, RegItem};
use synapcmd::registry::AppContext;

#[test]
fn normalize_reg_item() {
    let item = RegItem {
        names: vec![],
        path: "/tmp".to_string(),
        groups: vec![],
        repo: false,
    }
    .normalized();
    assert!(!item.names.is_empty());
}

#[test]
fn config_normalize_reg_item() {
    let item = RegItem {
        names: vec![],
        path: "/tmp".to_string(),
        groups: vec![],
        repo: false,
    }
    .normalized();
    assert_eq!(item.names, vec!["tmp".to_string()]);
}

#[test]
fn integration_test_normalize_reg_item() {
    let item = RegItem {
        names: vec!["kept".to_string()],
        path: "/tmp".to_string(),
        groups: vec![],
        repo: true,
    }
    .normalized();
    assert_eq!(item.names, vec!["kept".to_string()]);
    assert!(item.repo);
}

fn fake_context() -> AppContext {
    let mut cfg = Config::fresh();
    cfg.path.push(RegItem {
        names: vec!["MyRepo".to_string()],
        path: "/path/to/repo".to_string(),
        groups: vec![],
        repo: true,
    });
    AppContext { config: cfg, config_path: "fake".to_string() }
}

#[test]
fn test_reg_find_by_name() {
    let ctx = fake_context();
    let found = ctx.reg_find_by_name("myrepo");
    assert!(found.is_ok());
    assert_eq!(found.unwrap().path, "/path/to/repo");
    assert!(ctx.reg_find_by_name("OTHER").is_err());
}

#[test]
fn reg_find_by_path_and_remove() {
    let mut ctx = fake_context();
    assert!(ctx.reg_find_by_path("/path/to/repo").is_some());
    assert!(ctx.reg_find_by_path("/nowhere").is_none());
    assert!(ctx.reg_remove("/path/to/repo"));
    assert!(!ctx.reg_remove("/path/to/repo"));
    assert!(ctx.reg_find_by_path("/path/to/repo").is_none());
}

#[test]
fn reg_find_items_matches_case_insensitively() {
    let ctx = fake_context();
    assert_eq!(ctx.reg_find_items("YRE").len(), 1);
    assert_eq!(ctx.reg_find_items("zzz").len(), 0);
}

#[test]
fn executable_lookup_sees_the_shell() {
    assert!(is_executable_in_path("sh"));
    assert!(!is_executable_in_path("no-such-tool-here-at-all"));
}

#[test]
fn fresh_config_picks_installed_tools() {
    let cfg = Config::fresh();
    assert!(["ag", "ack", "grep"].contains(&cfg.grep_app.as_str()));
    assert!(["code", "vi"].contains(&cfg.edit_app.as_str()));
    assert!(cfg.is_pull_rebase);
    assert!(cfg.is_push_rebase);
}
