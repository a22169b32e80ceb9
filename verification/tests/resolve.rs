use teleport::resolve::{resolve_logical_cwd, sorted_worktrees};

fn is_dir(p: &str) -> bool {
    std::path::Path::new(p).is_dir()
}

#[test]
fn sorted_worktrees_current_first() {
    let main = "/repo".to_string();
    let wt_a = "/repo.wt-a".to_string();
    let wt_b = "/repo.wt-b".to_string();
    let worktrees = vec![main.clone(), wt_a.clone(), wt_b.clone()];

    let sorted = sorted_worktrees(&worktrees, &main, Some(&wt_a));

    assert_eq!(sorted.len(), 3);
    assert_eq!(sorted[0].path, wt_a);
    assert!(sorted[0].is_current);
    assert!(!sorted[0].is_main);
    assert_eq!(sorted[1].path, main);
    assert!(sorted[1].is_main);
    assert!(!sorted[1].is_current);
    assert_eq!(sorted[2].path, wt_b);
    assert!(!sorted[2].is_main);
    assert!(!sorted[2].is_current);
}

#[test]
fn sorted_worktrees_current_is_main() {
    let main = "/repo".to_string();
    let wt_a = "/repo.wt-a".to_string();
    let worktrees = vec![main.clone(), wt_a.clone()];

    let sorted = sorted_worktrees(&worktrees, &main, Some(&main));

    assert_eq!(sorted.len(), 2);
    assert_eq!(sorted[0].path, main);
    assert!(sorted[0].is_current);
    assert!(sorted[0].is_main);
    assert_eq!(sorted[1].path, wt_a);
}

#[test]
fn logical_cwd_prefers_valid_pwd() {
    let fallback = "/fallback".to_string();
    let result = resolve_logical_cwd(Some("/tmp"), fallback, is_dir("/tmp"));
    assert_eq!(result, "/tmp");
}

#[test]
fn logical_cwd_rejects_relative_pwd() {
    let fallback = "/fallback".to_string();
    let result = resolve_logical_cwd(Some("relative/path"), fallback.clone(), is_dir("relative/path"));
    assert_eq!(result, fallback);
}

#[test]
fn logical_cwd_rejects_nonexistent_pwd() {
    let fallback = "/fallback".to_string();
    let pwd = "/surely/this/does/not/exist/anywhere";
    let result = resolve_logical_cwd(Some(pwd), fallback.clone(), is_dir(pwd));
    assert_eq!(result, fallback);
}

#[test]
fn logical_cwd_falls_back_when_unset() {
    let fallback = "/fallback".to_string();
    let result = resolve_logical_cwd(None, fallback.clone(), false);
    assert_eq!(result, fallback);
}

#[test]
fn sorted_worktrees_no_current() {
    let main = "/repo".to_string();
    let wt_a = "/repo.wt-a".to_string();
    let worktrees = vec![main.clone(), wt_a.clone()];

    let sorted = sorted_worktrees(&worktrees, &main, None);

    assert_eq!(sorted.len(), 2);
    assert_eq!(sorted[0].path, main);
    assert!(sorted[0].is_main);
    assert!(!sorted[0].is_current);
}
