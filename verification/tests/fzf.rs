use teleport::fzf::{format_portal_entries, format_prune_entries, format_worktree_entries};
use teleport::portals::PortalMap;
use teleport::resolve::WorktreeInfo;

fn portal_map(pairs: &[(&str, &str)]) -> PortalMap {
    let mut m = PortalMap::new();
    for (name, path) in pairs {
        m.insert(name.to_string(), path.to_string());
    }
    m
}

#[test]
fn portal_entries_with_star_prefix() {
    let portals = portal_map(&[("notes", "~/Documents/notes")]);

    let entries = format_portal_entries(&portals, "* ");
    assert_eq!(entries.len(), 1);
    assert!(entries[0].0.contains("*"));
    assert!(entries[0].0.contains("notes"));
}

#[test]
fn worktree_entries_show_labels() {
    let worktrees = vec![
        WorktreeInfo {
            path: "/Users/jeff/r/k-repo.wt-auth".to_string(),
            is_main: false,
            is_current: true,
        },
        WorktreeInfo {
            path: "/Users/jeff/r/k-repo".to_string(),
            is_main: true,
            is_current: false,
        },
        WorktreeInfo {
            path: "/Users/jeff/r/k-repo.wt-other".to_string(),
            is_main: false,
            is_current: false,
        },
    ];

    let entries = format_worktree_entries(&worktrees);
    assert_eq!(entries.len(), 3);

    // Current worktree has (current) label
    assert!(entries[0].0.contains("(current)"));
    assert!(!entries[0].0.contains("(main)"));
    assert_eq!(entries[0].1, "/Users/jeff/r/k-repo.wt-auth");

    // Main worktree has (main) label
    assert!(entries[1].0.contains("(main)"));
    assert!(!entries[1].0.contains("(current)"));

    // Neither has no labels
    assert!(!entries[2].0.contains("(current)"));
    assert!(!entries[2].0.contains("(main)"));
}

#[test]
fn portal_entries_dedup_same_path() {
    let portals = portal_map(&[
        ("insights", "~/r/k-repo/insights_service"),
        ("is", "~/r/k-repo/insights_service"),
        ("app", "~/r/app"),
    ]);

    let entries = format_portal_entries(&portals, "* ");
    assert_eq!(entries.len(), 2);

    let grouped = entries.iter().find(|(d, _)| d.contains("insights")).unwrap();
    assert!(grouped.0.contains("insights, is"));
    assert!(grouped.0.contains("~/r/k-repo/insights_service"));
    assert_eq!(grouped.1, "insights");

    let singleton = entries.iter().find(|(d, _)| d.contains("app")).unwrap();
    assert!(singleton.0.contains("app"));
    assert_eq!(singleton.1, "app");
}

#[test]
fn portal_entries_cap_names_at_three() {
    let portals = portal_map(&[
        ("a", "~/same"),
        ("b", "~/same"),
        ("c", "~/same"),
        ("d", "~/same"),
        ("e", "~/same"),
    ]);

    let entries = format_portal_entries(&portals, "* ");
    assert_eq!(entries.len(), 1);
    let display = &entries[0].0;
    assert!(display.contains("a, b, c"));
    assert!(display.contains("+2 more"));
    // Portal names "d" and "e" must not appear as listed names (only a, b, c shown)
    let name_section = display.split("  ~/").next().unwrap_or(display);
    assert!(!name_section.contains(", d") && !name_section.contains("d,"));
    assert!(!name_section.contains(", e") && !name_section.contains("e,"));
}

#[test]
fn worktree_entries_both_labels() {
    let worktrees = vec![WorktreeInfo {
        path: "/Users/jeff/r/k-repo".to_string(),
        is_main: true,
        is_current: true,
    }];

    let entries = format_worktree_entries(&worktrees);
    assert!(entries[0].0.contains("(current, main)"));
}

#[test]
fn format_prune_entries_aligns_columns() {
    let portals = vec![
        ("short".to_string(), "~/a".to_string()),
        ("much-longer".to_string(), "~/b".to_string()),
    ];

    let lines = format_prune_entries(&portals);
    assert_eq!(lines.len(), 2);
    // Both paths should start at the same column
    let pos_a = lines[0].find("~/a").unwrap();
    let pos_b = lines[1].find("~/b").unwrap();
    assert_eq!(pos_a, pos_b);
}

#[test]
fn format_prune_entries_empty() {
    let portals: Vec<(String, String)> = vec![];
    let lines = format_prune_entries(&portals);
    assert!(lines.is_empty());
}
