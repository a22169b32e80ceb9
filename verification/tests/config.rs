use std::io::Write;

use teleport::config::Config;

/// Whether each portal's directory exists, in order of name.
fn dirs_exist(config: &Config) -> Vec<bool> {
    config
        .portal_targets()
        .iter()
        .map(|t| std::path::Path::new(t.as_deref().expect("could not determine home directory")).is_dir())
        .collect()
}

#[test]
fn broken_portals_finds_missing_dirs() {
    let existing = tempfile::tempdir().unwrap();
    let gone = tempfile::tempdir().unwrap();
    let missing_path = gone.path().display().to_string();
    drop(gone);

    let mut config = Config::default();
    config.add_portal("good".to_string(), format!("{}", existing.path().display()));
    config.add_portal("bad".to_string(), missing_path.clone());

    let broken = config.broken_portals(&dirs_exist(&config));
    assert_eq!(broken.len(), 1);
    assert_eq!(broken[0].0, "bad");
    assert_eq!(broken[0].1, missing_path);
}

#[test]
fn broken_portals_empty_when_all_valid() {
    let existing = tempfile::tempdir().unwrap();

    let mut config = Config::default();
    config.add_portal("good".to_string(), format!("{}", existing.path().display()));

    let broken = config.broken_portals(&dirs_exist(&config));
    assert!(broken.is_empty());
}

#[test]
fn broken_portals_detects_file_not_dir() {
    let mut file = tempfile::NamedTempFile::new().unwrap();
    file.write_all(b"i am a file").unwrap();
    let file_path = file.path().to_path_buf();

    let mut config = Config::default();
    config.add_portal("file-portal".to_string(), format!("{}", file_path.display()));

    let broken = config.broken_portals(&dirs_exist(&config));
    assert_eq!(broken.len(), 1);
    assert_eq!(broken[0].0, "file-portal");
}
