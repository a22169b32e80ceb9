use teleport::cli::{
    cd_directive, choose_single, find_matching_portals, join_names, landing, needs_worktree_picker, Landing,
    prune_summary, resolve_query, select_command, worktree_mode, Choice, Command, QueryOutcome,
    WorktreeMode,
};
use teleport::config::{config_file_in, Config, NavMode, Settings};
use teleport::fzf::{
    format_portal_entries, format_prune_entries, format_worktree_entries_with, pick_selection,
    strip_ansi,
};
use teleport::history::{entry_matches, is_excluded_with, tokens_match_in_order};
use teleport::path::{
    collapse_tilde, collapse_tilde_with, components_of, expand_tilde, expand_tilde_with,
    file_name_of, is_absolute_path, join_paths, paths_equal, strip_path_prefix,
};
use teleport::portals::PortalMap;
use teleport::resolve::{
    containing_worktree, parse_toplevel, parse_worktree_list, relative_path_within,
    sorted_worktrees, PortalContext, WorktreeInfo,
};

fn portal_map(pairs: &[(&str, &str)]) -> PortalMap {
    let mut m = PortalMap::new();
    for (name, path) in pairs {
        m.insert(name.to_string(), path.to_string());
    }
    m
}

fn strings(v: &[&str]) -> Vec<String> {
    v.iter().map(|s| s.to_string()).collect()
}

// --- the portal table ---

#[test]
fn portal_map_reads_back_what_was_written() {
    let mut m = PortalMap::new();
    assert!(m.is_empty());
    assert_eq!(m.insert("b".to_string(), "~/b".to_string()), None);
    assert_eq!(m.insert("a".to_string(), "~/a".to_string()), None);
    assert_eq!(m.get("a").map(|s| s.as_str()), Some("~/a"));
    assert_eq!(m.get("b").map(|s| s.as_str()), Some("~/b"));
    assert_eq!(m.get("c"), None);
    assert_eq!(m.insert("a".to_string(), "~/z".to_string()), Some("~/a".to_string()));
    assert_eq!(m.get("a").map(|s| s.as_str()), Some("~/z"));
    assert_eq!(m.len(), 2);
    assert_eq!(m.remove("a"), Some("~/z".to_string()));
    assert_eq!(m.remove("a"), None);
    assert!(!m.contains_key("a"));
    assert!(m.contains_key("b"));
}

#[test]
fn portal_map_keeps_names_sorted() {
    let m = portal_map(&[("zeta", "1"), ("alpha", "2"), ("Mid", "3"), ("beta", "4"), ("é", "5")]);
    let names: Vec<&str> = m.entries().iter().map(|(n, _)| n.as_str()).collect();
    assert_eq!(names, vec!["Mid", "alpha", "beta", "zeta", "é"]);
}

#[test]
fn config_add_and_remove() {
    let mut config = Config::default();
    assert_eq!(config.settings.default_nav_mode, NavMode::Picker);
    config.add_portal("x".to_string(), "~/x".to_string());
    assert!(!config.add_new_portal("x".to_string(), "~/other".to_string()));
    assert_eq!(config.portals.get("x").map(|s| s.as_str()), Some("~/x"));
    assert!(config.add_new_portal("y".to_string(), "~/y".to_string()));
    assert!(config.remove("x"));
    assert!(!config.remove("x"));
    assert_eq!(config.portals.len(), 1);
}

#[test]
fn config_remove_portals_removes_each_named() {
    let mut config = Config::default();
    config.add_portal("a".to_string(), "~/a".to_string());
    config.add_portal("b".to_string(), "~/b".to_string());
    config.add_portal("c".to_string(), "~/c".to_string());
    let broken = vec![("a".to_string(), "~/a".to_string()), ("c".to_string(), "~/c".to_string())];
    config.remove_portals(&broken);
    let names: Vec<&str> = config.portals.entries().iter().map(|(n, _)| n.as_str()).collect();
    assert_eq!(names, vec!["b"]);
}

#[test]
fn config_broken_portals_by_flags() {
    let mut config = Config::default();
    config.add_portal("a".to_string(), "/a".to_string());
    config.add_portal("b".to_string(), "/b".to_string());
    config.add_portal("c".to_string(), "/c".to_string());
    let broken = config.broken_portals(&vec![true, false, false]);
    assert_eq!(broken, vec![("b".to_string(), "/b".to_string()), ("c".to_string(), "/c".to_string())]);
    let targets = config.portal_targets();
    assert_eq!(targets, vec![Some("/a".to_string()), Some("/b".to_string()), Some("/c".to_string())]);
}

#[test]
fn config_portals_under_directory() {
    let mut config = Config::default();
    config.add_portal("a".to_string(), "/w/a".to_string());
    config.add_portal("b".to_string(), "/w/ab".to_string());
    config.add_portal("c".to_string(), "/elsewhere".to_string());
    config.add_portal("d".to_string(), "/w".to_string());
    let targets = config.portal_targets();
    let under = config.portals_under(&targets, "/w");
    let names: Vec<&str> = under.entries().iter().map(|(n, _)| n.as_str()).collect();
    assert_eq!(names, vec!["a", "b", "d"]);
    let under_a = config.portals_under(&targets, "/w/a");
    assert_eq!(under_a.len(), 1);
}

#[test]
fn config_paths_end_in_config_dir() {
    if let Some(p) = Config::path() {
        assert!(p.ends_with("/.config/tp/config.toml"));
    }
    if let Some(p) = Config::legacy_path() {
        assert!(p.ends_with("/.config/tp/portals.toml"));
    }
    let s = Settings::default();
    assert_eq!(s.default_nav_mode, NavMode::Picker);
}

// --- listing lines ---

#[test]
fn portal_entries_exact_lines() {
    let portals = portal_map(&[("a", "~/x"), ("bb", "~/y")]);
    let entries = format_portal_entries(&portals, "* ");
    assert_eq!(
        entries,
        vec![
            ("  * a   ~/x".to_string(), "a".to_string()),
            ("  * bb  ~/y".to_string(), "bb".to_string()),
        ]
    );
}

#[test]
fn portal_entries_sorted_by_first_name_and_grouped() {
    let portals = portal_map(&[("d", "~/one"), ("a", "~/two"), ("c", "~/one"), ("b", "~/three")]);
    let entries = format_portal_entries(&portals, "");
    let keys: Vec<&str> = entries.iter().map(|(_, k)| k.as_str()).collect();
    assert_eq!(keys, vec!["a", "b", "c"]);
    assert_eq!(entries[2].0, "  c, d  ~/one");
    assert_eq!(entries[0].0, "  a     ~/two");
}

#[test]
fn portal_entries_cap_exact() {
    let portals = portal_map(&[
        ("a", "~/same"),
        ("b", "~/same"),
        ("c", "~/same"),
        ("d", "~/same"),
        ("e", "~/same"),
        ("f", "~/same"),
        ("g", "~/same"),
        ("h", "~/same"),
        ("i", "~/same"),
        ("j", "~/same"),
        ("k", "~/same"),
        ("l", "~/same"),
        ("m", "~/same"),
    ]);
    let entries = format_portal_entries(&portals, "");
    assert_eq!(entries[0].0, "  a, b, c +10 more  ~/same");
    assert_eq!(entries[0].1, "a");
}

#[test]
fn portal_entries_width_counts_bytes() {
    // "é" takes two bytes, so the column is two wide and "é" gets one space
    let portals = portal_map(&[("é", "~/p"), ("a", "~/q")]);
    let entries = format_portal_entries(&portals, "");
    assert_eq!(entries[0].0, "  a   ~/q");
    assert_eq!(entries[1].0, "  é   ~/p");
}

#[test]
fn portal_entries_empty() {
    let portals = PortalMap::new();
    assert!(format_portal_entries(&portals, "").is_empty());
}

#[test]
fn prune_entries_exact_lines() {
    let portals = vec![("ab".to_string(), "~/a".to_string()), ("c".to_string(), "~/c".to_string())];
    assert_eq!(format_prune_entries(&portals), vec!["  ab  ~/a".to_string(), "  c   ~/c".to_string()]);
}

#[test]
fn worktree_entries_exact_lines() {
    let worktrees = vec![
        WorktreeInfo { path: "/h/u/r".to_string(), is_main: true, is_current: true },
        WorktreeInfo { path: "/h/u/r.wt".to_string(), is_main: false, is_current: true },
        WorktreeInfo { path: "/x/r".to_string(), is_main: true, is_current: false },
        WorktreeInfo { path: "/x/s".to_string(), is_main: false, is_current: false },
    ];
    let entries = format_worktree_entries_with(&worktrees, Some("/h/u"));
    assert_eq!(entries[0].0, "  ~/r  \x1b[32m(current, main)\x1b[0m");
    assert_eq!(entries[1].0, "  ~/r.wt  \x1b[32m(current)\x1b[0m");
    assert_eq!(entries[2].0, "  /x/r  \x1b[34m(main)\x1b[0m");
    assert_eq!(entries[3].0, "  /x/s");
    assert_eq!(entries[3].1, "/x/s");
    let plain = format_worktree_entries_with(&worktrees, None);
    assert_eq!(plain[0].0, "  /h/u/r  \x1b[32m(current, main)\x1b[0m");
}

#[test]
fn strip_ansi_removes_escapes() {
    assert_eq!(strip_ansi("  ~/r  \x1b[32m(current)\x1b[0m"), "  ~/r  (current)");
    assert_eq!(strip_ansi("plain"), "plain");
    assert_eq!(strip_ansi("\x1b[1;31mred"), "red");
}

#[test]
fn pick_selection_finds_line() {
    let lines = vec![
        "  ~/a  \x1b[32m(current)\x1b[0m".to_string(),
        "  ~/b".to_string(),
    ];
    assert_eq!(pick_selection(&lines, "  ~/b\n"), Some(1));
    assert_eq!(pick_selection(&lines, "  ~/a  (current)\n"), Some(0));
    assert_eq!(pick_selection(&lines, "\n"), None);
    assert_eq!(pick_selection(&lines, "  ~/c\n"), None);
}

// --- paths ---

#[test]
fn paths_compare_by_components() {
    assert!(paths_equal("/a/b", "/a//b/"));
    assert!(paths_equal("/a/./b", "/a/b"));
    assert!(!paths_equal("/a/b", "a/b"));
    assert!(!paths_equal("/a/../b", "/b"));
    assert_eq!(components_of("./a/"), vec![vec!['.'], vec!['a']]);
    assert_eq!(components_of("/"), vec![vec!['/']]);
}

#[test]
fn join_paths_like_pathbuf() {
    assert_eq!(join_paths("/h", "x"), "/h/x");
    assert_eq!(join_paths("/h/", "x"), "/h/x");
    assert_eq!(join_paths("/h", "/abs"), "/abs");
    assert_eq!(join_paths("", "x"), "x");
    assert_eq!(join_paths("/h", ""), "/h/");
}

#[test]
fn file_name_edge_cases() {
    assert_eq!(file_name_of("/"), None);
    assert_eq!(file_name_of("a/.."), None);
    assert_eq!(file_name_of("foo.txt/."), Some("foo.txt".to_string()));
    assert_eq!(file_name_of("/a/b/"), Some("b".to_string()));
    assert!(is_absolute_path("/a"));
    assert!(!is_absolute_path("a"));
}

#[test]
fn tilde_expansion_and_collapse() {
    assert_eq!(expand_tilde_with("~/code", "/home/u"), "/home/u/code");
    assert_eq!(expand_tilde_with("~", "/home/u"), "/home/u");
    assert_eq!(expand_tilde_with("/abs", "/home/u"), "/abs");
    assert_eq!(expand_tilde_with("~other", "/home/u"), "~other");
    assert_eq!(collapse_tilde_with("/home/u/code", Some("/home/u")), "~/code");
    assert_eq!(collapse_tilde_with("/home/user", Some("/home/u")), "/home/user");
    assert_eq!(collapse_tilde_with("/home/u", Some("/home/u")), "~/");
    assert_eq!(collapse_tilde_with("/home/u/x", None), "/home/u/x");
    assert_eq!(expand_tilde("/plain"), Some("/plain".to_string()));
    assert_eq!(strip_path_prefix("/a/b/c", "/a"), Some("b/c".to_string()));
    assert_eq!(strip_path_prefix("/ab", "/a"), None);
}

#[test]
fn collapse_uses_home_directory() {
    // with the real home directory: collapsing and expanding go back and forth
    if let Some(home) = expand_tilde("~") {
        let inside = format!("{}/some/dir", home.trim_end_matches('/'));
        let collapsed = collapse_tilde(&inside);
        assert_eq!(collapsed, "~/some/dir");
        assert_eq!(expand_tilde(&collapsed).unwrap(), inside);
    }
}

// --- git output and worktrees ---

#[test]
fn worktree_list_parses_porcelain() {
    let out = "worktree /repo\nHEAD abc\nbranch refs/heads/main\n\nworktree /repo.wt-a\r\nHEAD def\ndetached\n\nworktree /repo.wt-b";
    assert_eq!(parse_worktree_list(out), strings(&["/repo", "/repo.wt-a", "/repo.wt-b"]));
    assert!(parse_worktree_list("").is_empty());
    assert_eq!(parse_toplevel("  /repo \n"), "/repo");
}

#[test]
fn sorted_worktrees_dedups_and_orders() {
    let worktrees = strings(&["/repo", "/repo.wt-a", "/repo/", "/repo.wt-b", "/repo.wt-a"]);
    let sorted = sorted_worktrees(&worktrees, "/repo", Some("/repo.wt-b/"));
    let paths: Vec<&str> = sorted.iter().map(|w| w.path.as_str()).collect();
    assert_eq!(paths, vec!["/repo.wt-b/", "/repo", "/repo.wt-a"]);
    assert!(sorted[0].is_current && !sorted[0].is_main);
    let not_listed = sorted_worktrees(&worktrees, "/repo", Some("/elsewhere"));
    assert!(!not_listed.iter().any(|w| w.is_current));
    assert_eq!(not_listed[0].path, "/repo");
}

#[test]
fn context_from_parts() {
    let worktrees = strings(&["/repo", "/repo.wt-a"]);
    assert_eq!(containing_worktree(&worktrees, "/repo.wt-a/src"), Some("/repo.wt-a".to_string()));
    assert_eq!(containing_worktree(&worktrees, "/other"), None);
    let ctx = PortalContext::from_parts(worktrees.clone(), "/top", Some("/repo/x"), "sub".to_string());
    assert_eq!(ctx.main_worktree, "/repo");
    assert_eq!(ctx.current_worktree, Some("/repo".to_string()));
    assert_eq!(ctx.relative_path, "sub");
    let empty = PortalContext::from_parts(Vec::new(), "/top", None, String::new());
    assert_eq!(empty.main_worktree, "/top");
    assert_eq!(empty.current_worktree, None);
    assert_eq!(relative_path_within("/repo/a/b", "/repo"), "a/b");
    assert_eq!(relative_path_within("/elsewhere", "/repo"), "");
}

// --- history rules ---

#[test]
fn tokens_match_in_order_cases() {
    assert!(tokens_match_in_order("~/r/app/src/components", &["src", "comp"]));
    assert!(!tokens_match_in_order("~/components/src", &["src", "comp"]));
    assert!(tokens_match_in_order("~/Documents/notes", &["DOC"]));
    assert!(!tokens_match_in_order("~/Downloads", &["doc"]));
    assert!(tokens_match_in_order("anything", &[]));
    // tokens may not overlap
    assert!(!tokens_match_in_order("abc", &["ab", "bc"]));
    assert!(tokens_match_in_order("abcbc", &["ab", "bc"]));
}

#[test]
fn entry_matches_uses_repo() {
    assert!(entry_matches("src/components", Some("~/r/app"), &["app", "comp"]));
    assert!(!entry_matches("src/components", None, &["app", "comp"]));
}

#[test]
fn excluded_with_home() {
    assert!(is_excluded_with("/home/u", "/home/u"));
    assert!(is_excluded_with("/home/u/", "/home/u"));
    assert!(!is_excluded_with("/home/u/x", "/home/u"));
    assert!(is_excluded_with("/tmp/x", "/home/u"));
    assert!(!is_excluded_with("/tmpx", "/home/u"));
    assert!(is_excluded_with("/private/tmp", "/home/u"));
    assert!(is_excluded_with("/nix/store", "/home/u"));
}

// --- command decisions ---

#[test]
fn command_decisions() {
    assert_eq!(worktree_mode(true, true, true, NavMode::Picker), WorktreeMode::Direct);
    assert_eq!(worktree_mode(false, true, true, NavMode::Picker), WorktreeMode::MainOnly);
    assert_eq!(worktree_mode(false, false, true, NavMode::Direct), WorktreeMode::Picker);
    assert_eq!(worktree_mode(false, false, false, NavMode::Direct), WorktreeMode::Direct);
    assert_eq!(worktree_mode(false, false, false, NavMode::Picker), WorktreeMode::Picker);
    assert!(needs_worktree_picker(WorktreeMode::Picker, 2));
    assert!(!needs_worktree_picker(WorktreeMode::Picker, 1));
    assert!(!needs_worktree_picker(WorktreeMode::MainOnly, 3));
    assert_eq!(select_command(false, true, true, false, false, Some("x")), Command::Remove);
    assert_eq!(select_command(false, false, false, false, false, Some("auth")), Command::Teleport);
    assert_eq!(select_command(false, false, false, false, false, Some(".")), Command::Here);
    assert_eq!(select_command(false, false, false, false, false, None), Command::Pick);
    assert_eq!(cd_directive("/x", false), "cd:/x");
    assert_eq!(cd_directive("/x", true), "cd+c:/x");
    assert_eq!(prune_summary(1, false), "Found 1 broken portal:");
    assert_eq!(prune_summary(12, true), "Removed 12 broken portals:");
    assert_eq!(join_names(&strings(&["a", "b"])), "a, b");
}

#[test]
fn choose_single_cases() {
    assert!(matches!(choose_single(Vec::new()), Choice::Nothing));
    match choose_single(strings(&["a"])) {
        Choice::One(n) => assert_eq!(n, "a"),
        _ => panic!("expected one"),
    }
    match choose_single(strings(&["a", "b"])) {
        Choice::Several(v) => assert_eq!(v, strings(&["a", "b"])),
        _ => panic!("expected several"),
    }
}

#[test]
fn queries_find_portals() {
    let mut config = Config::default();
    config.add_portal("auth".to_string(), "~/code/authentication-service".to_string());
    config.add_portal("notes".to_string(), "~/Documents/notes".to_string());
    config.add_portal("Docs".to_string(), "~/docs".to_string());
    let found = find_matching_portals(&config, "DOC");
    let names: Vec<&str> = found.iter().map(|(n, _)| n.as_str()).collect();
    assert_eq!(names, vec!["Docs", "notes"]);
    match resolve_query(&config, "notes") {
        QueryOutcome::Exact(p) => assert_eq!(p, "~/Documents/notes"),
        _ => panic!("expected the exact portal"),
    }
    match resolve_query(&config, "AUTH") {
        QueryOutcome::Single(n, p) => {
            assert_eq!(n, "auth");
            assert_eq!(p, "~/code/authentication-service");
        }
        _ => panic!("expected one match"),
    }
    assert!(matches!(resolve_query(&config, "zzz"), QueryOutcome::NoMatch));
    match resolve_query(&config, "doc") {
        QueryOutcome::Several(m) => assert_eq!(m.len(), 2),
        _ => panic!("expected several"),
    }
}

#[test]
fn strip_ansi_drops_an_unterminated_escape() {
    assert_eq!(strip_ansi("x\x1b[12"), "x");
    assert_eq!(strip_ansi("a\x1b[1mb\x1b[0mc"), "abc");
}

#[test]
fn config_files_live_under_dot_config_tp() {
    assert_eq!(config_file_in("/home/u", "config.toml"), "/home/u/.config/tp/config.toml");
    assert_eq!(config_file_in("/home/u/", "portals.toml"), "/home/u/.config/tp/portals.toml");
}

#[test]
fn config_path_and_legacy_path_share_a_directory() {
    if let (Some(p), Some(l)) = (Config::path(), Config::legacy_path()) {
        assert!(p.ends_with("/.config/tp/config.toml"));
        assert_eq!(l, format!("{}portals.toml", &p[..p.len() - "config.toml".len()]));
    }
}

#[test]
fn landing_follows_mode_and_worktrees() {
    assert_eq!(landing(WorktreeMode::Direct, Some(3)), Landing::StoredPath);
    assert_eq!(landing(WorktreeMode::Picker, None), Landing::StoredPath);
    assert_eq!(landing(WorktreeMode::Picker, Some(2)), Landing::PickWorktree);
    assert_eq!(landing(WorktreeMode::Picker, Some(1)), Landing::MainWorktree);
    assert_eq!(landing(WorktreeMode::MainOnly, Some(4)), Landing::MainWorktree);
    assert_eq!(landing(WorktreeMode::MainOnly, None), Landing::StoredPath);
}

#[test]
fn token_matching_laws_on_examples() {
    let h = "~/r/app/src/components";
    assert!(tokens_match_in_order(h, &["app", "src", "comp"]));
    assert!(tokens_match_in_order(h, &["app", "src"]));
    assert!(tokens_match_in_order(h, &["components"]));
    assert!(tokens_match_in_order(h, &["compo", "nents"]));
    assert!(tokens_match_in_order(&format!("/x{}y", h), &["app", "src", "comp"]));
}

#[test]
fn strip_path_prefix_agrees_with_std() {
    let cases: &[(&str, &str)] = &[
        ("/h/a//b", "/h"),
        ("/h/./a/./b/.", "/h"),
        ("/h//a/", "/h/"),
        ("/h/a/b", "/h/a/b"),
        ("/h/a/b/", "/h/a"),
        ("//h///a", "/h"),
        ("/a/b", "/"),
        ("/a/b/", ""),
        ("//", ""),
        ("/", ""),
        ("./a/./b/", ""),
        ("./", ""),
        (".//.", ""),
        ("a/b/.", ""),
        ("", ""),
        ("./a//b", "."),
        ("./a//b", "./a"),
        (".", "."),
        ("a/../b", "a"),
        ("a/../b/.", "a/.."),
        ("a/b", "a/c"),
        ("/a", "a"),
        ("/h/x", "/h/x/y"),
    ];
    for (p, base) in cases {
        let expected = std::path::Path::new(p)
            .strip_prefix(base)
            .ok()
            .map(|r| r.to_str().unwrap().to_string());
        assert_eq!(strip_path_prefix(p, base), expected, "strip_prefix({:?}, {:?})", p, base);
    }
}

#[test]
fn collapse_tilde_keeps_the_rest_as_written() {
    assert_eq!(collapse_tilde_with("/h/a//b", Some("/h")), "~/a//b");
    assert_eq!(relative_path_within("/r/./src//x/", "/r"), "src//x");
}

#[test]
fn ascii_token_matching_ignores_case_in_every_form() {
    assert!(tokens_match_in_order("~/Documents/Notes", &["DOCUMENTS"]));
    assert!(tokens_match_in_order("~/Documents/Notes", &["DOCU", "ments"]));
    assert!(tokens_match_in_order("/x~/Documents/NotesY", &["DOCU", "ments", "notes"]));
    assert!(tokens_match_in_order("~/Documents/Notes", &["DOCU"]));
    assert!(!tokens_match_in_order("~/Documents/Notes", &["notes", "doc"]));
}
