use teleport::history::is_excluded;

#[test]
fn excluded_paths_are_skipped() {
    assert_eq!(is_excluded("/tmp"), Some(true));
    assert_eq!(is_excluded("/private/tmp"), Some(true));
    assert_eq!(is_excluded("/nix/store/something"), Some(true));
}

#[test]
fn normal_paths_not_excluded() {
    assert_eq!(is_excluded("/Users/me/code/project"), Some(false));
    assert_eq!(is_excluded("/Users/me/Documents"), Some(false));
}
