use teleport::config::Config;
use teleport::path::{expand_tilde, file_name_of};

#[test]
fn auto_name_from_basename() {
    let path = "/Users/jeff/code/teleport";
    let name = file_name_of(path).unwrap();
    assert_eq!(name, "teleport");
}

#[test]
fn auto_name_from_basename_nested() {
    let path = "/Users/jeff/code/my-project/sub";
    let name = file_name_of(path).unwrap();
    assert_eq!(name, "sub");
}

/// The names of the portals whose expanded path is `cwd`.
fn portals_at(config: &Config, cwd: &str) -> Vec<String> {
    let flags: Vec<bool> = config
        .portal_targets()
        .iter()
        .map(|t| t.as_deref() == Some(cwd))
        .collect();
    config.names_where(&flags)
}

#[test]
fn find_portal_by_path_single_match() {
    let mut config = Config::default();
    config.portals.insert("myproject".to_string(), "~/code/myproject".to_string());
    config.portals.insert("notes".to_string(), "~/Documents/notes".to_string());

    let cwd = expand_tilde("~/code/myproject").unwrap();
    let matches = portals_at(&config, &cwd);

    assert_eq!(matches.len(), 1);
    assert_eq!(matches[0], "myproject");
}

#[test]
fn find_portal_by_path_no_match() {
    let mut config = Config::default();
    config.portals.insert("notes".to_string(), "~/Documents/notes".to_string());

    let cwd = expand_tilde("~/code/other").unwrap();
    let matches = portals_at(&config, &cwd);

    assert_eq!(matches.len(), 0);
}

#[test]
fn find_portal_by_path_multiple_matches() {
    let mut config = Config::default();
    config.portals.insert("proj".to_string(), "~/code/myproject".to_string());
    config.portals.insert("proj2".to_string(), "~/code/myproject".to_string());

    let cwd = expand_tilde("~/code/myproject").unwrap();
    let matches = portals_at(&config, &cwd);

    assert_eq!(matches.len(), 2);
}
