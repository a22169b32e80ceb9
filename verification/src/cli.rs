//! The decisions of the command-line tool: which command runs, how a query
//! finds a portal, and what is printed for the shell.

use vstd::prelude::*;
use crate::config::{Config, NavMode};
use crate::portals::{lemma_select_members, lemma_select_sorted, names_increasing, pair_views, select_entries, EntryView, PortalMap};
use crate::text::{
    chars_of, contains_chars, contains_str, decimal, join_with, lowercase, push_decimal,
    push_joined_strings, string_views, to_lowercase,
};

verus! {

/// How a jump treats a repository with several worktrees.
#[derive(Clone, Copy, Debug, PartialEq, Eq, Structural)]
pub enum WorktreeMode {
    /// Ask which worktree to land in.
    Picker,
    /// Go to the main worktree.
    MainOnly,
    /// Go to the stored path as it is.
    Direct,
}

/// The worktree mode the flags ask for: `--direct` wins over `--main`,
/// which wins over `--worktree` (the picker); without any of them the
/// configured default applies.
pub fn worktree_mode(direct: bool, main_worktree: bool, picker: bool, default_mode: NavMode) -> (m: WorktreeMode)
    ensures
        m == if direct {
            WorktreeMode::Direct
        } else if main_worktree {
            WorktreeMode::MainOnly
        } else if picker {
            WorktreeMode::Picker
        } else if default_mode == NavMode::Direct {
            WorktreeMode::Direct
        } else {
            WorktreeMode::Picker
        },
{
    if direct {
        WorktreeMode::Direct
    } else if main_worktree {
        WorktreeMode::MainOnly
    } else if picker {
        WorktreeMode::Picker
    } else {
        match default_mode {
            NavMode::Direct => WorktreeMode::Direct,
            NavMode::Picker => WorktreeMode::Picker,
        }
    }
}

/// Whether the worktree picker is shown: only in picker mode, and only when
/// the repository has more than one worktree.
pub fn needs_worktree_picker(mode: WorktreeMode, worktree_count: usize) -> (b: bool)
    ensures
        b == (mode == WorktreeMode::Picker && worktree_count > 1),
{
    worktree_count > 1 && mode == WorktreeMode::Picker
}

/// Where a jump to a portal lands.
#[derive(Clone, Copy, Debug, PartialEq, Eq, Structural)]
pub enum Landing {
    /// The stored path itself.
    StoredPath,
    /// The same place in the repository's main worktree.
    MainWorktree,
    /// The same place in a worktree the user picks.
    PickWorktree,
}

/// Where a jump lands, given the worktree mode and, when the stored path was
/// found inside a repository, how many worktrees that repository has.
pub open spec fn landing_for(mode: WorktreeMode, worktree_count: Option<usize>) -> Landing {
    if mode == WorktreeMode::Direct {
        Landing::StoredPath
    } else {
        match worktree_count {
            None => Landing::StoredPath,
            Some(n) => if mode == WorktreeMode::Picker && n > 1 {
                Landing::PickWorktree
            } else {
                Landing::MainWorktree
            },
        }
    }
}

/// Whether a jump looks at the repository around the stored path at all:
/// not in direct mode.
pub fn looks_up_repository(mode: WorktreeMode) -> (b: bool)
    ensures
        b == (mode != WorktreeMode::Direct),
{
    mode != WorktreeMode::Direct
}

/// Where a jump lands: in direct mode, or when the stored path lies in no
/// repository, at the stored path; else in a picked worktree when the picker
/// is asked for and there are several, and in the main worktree otherwise.
pub fn landing(mode: WorktreeMode, worktree_count: Option<usize>) -> (l: Landing)
    ensures
        l == landing_for(mode, worktree_count),
{
    if !looks_up_repository(mode) {
        return Landing::StoredPath;
    }
    match worktree_count {
        None => Landing::StoredPath,
        Some(n) => if needs_worktree_picker(mode, n) {
            Landing::PickWorktree
        } else {
            Landing::MainWorktree
        },
    }
}

/// What the tool was asked to do.
#[derive(Clone, Copy, Debug, PartialEq, Eq, Structural)]
pub enum Command {
    Add,
    Remove,
    List,
    Edit,
    Prune,
    /// Jump to the portal a name or query gives.
    Teleport,
    /// Open the worktree picker for the repository of the working directory.
    Here,
    /// Choose a portal in the picker.
    Pick,
}

/// The command the flags select, in this order of precedence: add, remove,
/// list, edit, prune; then, given a name, the worktree picker for the
/// working directory when the name is `.`, a jump otherwise; else the portal
/// picker.
pub fn select_command(add: bool, remove: bool, list: bool, edit: bool, prune: bool, name: Option<&str>) -> (c: Command)
    ensures
        c == if add {
            Command::Add
        } else if remove {
            Command::Remove
        } else if list {
            Command::List
        } else if edit {
            Command::Edit
        } else if prune {
            Command::Prune
        } else {
            match name {
                Some(n) => if n@ == seq!['.'] {
                    Command::Here
                } else {
                    Command::Teleport
                },
                None => Command::Pick,
            }
        },
{
    if add {
        Command::Add
    } else if remove {
        Command::Remove
    } else if list {
        Command::List
    } else if edit {
        Command::Edit
    } else if prune {
        Command::Prune
    } else {
        match name {
            Some(n) => {
                let cs = chars_of(n);
                if cs.len() == 1 && cs[0] == '.' {
                    assert(cs@ =~= seq!['.']);
                    Command::Here
                } else {
                    assert(cs@ != seq!['.']) by {
                        if cs@ == seq!['.'] {
                            assert(cs@.len() == 1);
                        }
                    }
                    Command::Teleport
                }
            },
            None => Command::Pick,
        }
    }
}

/// The line that tells the shell function where to go: `cd:<dir>`, or
/// `cd+c:<dir>` when the `-c` flag asks for the assistant to be opened there.
pub open spec fn cd_line(target: Seq<char>, claude: bool) -> Seq<char> {
    (if claude {
        "cd+c"@
    } else {
        "cd"@
    }) + ":"@ + target
}

/// The line that tells the shell function where to go.
pub fn cd_directive(target: &str, claude: bool) -> (out: String)
    ensures
        out@ == cd_line(target@, claude),
{
    let mut out = String::new();
    if claude {
        out.append("cd+c");
    } else {
        out.append("cd");
    }
    out.append(":");
    out.append(target);
    out
}

// ---------------------------------------------------------------------------
// Queries
// ---------------------------------------------------------------------------

/// A portal matches a query when its name or its path contains the query,
/// ignoring case.
pub open spec fn matches_query(e: EntryView, q: Seq<char>) -> bool {
    contains_str(lowercase(e.0), lowercase(q)) || contains_str(lowercase(e.1), lowercase(q))
}

/// For each portal, whether it matches the query.
pub open spec fn query_flags(s: Seq<EntryView>, q: Seq<char>) -> Seq<bool> {
    s.map_values(|e: EntryView| matches_query(e, q))
}

/// The portals that match the query, in order of name.
pub open spec fn matching_portals(s: Seq<EntryView>, q: Seq<char>) -> Seq<EntryView> {
    select_entries(s, query_flags(s, q))
}

fn query_flags_exec(entries: &Vec<(String, String)>, query: &str) -> (flags: Vec<bool>)
    ensures
        flags@ == query_flags(pair_views(entries@), query@),
{
    let q = to_lowercase(query);
    let qc = chars_of(q.as_str());
    let ghost s = pair_views(entries@);
    let mut flags: Vec<bool> = Vec::new();
    let mut i: usize = 0;
    while i < entries.len()
        invariant
            i <= entries.len(),
            s == pair_views(entries@),
            qc@ == lowercase(query@),
            flags@ == query_flags(s, query@).take(i as int),
        decreases entries.len() - i,
    {
        let n = to_lowercase(entries[i].0.as_str());
        let nc = chars_of(n.as_str());
        let p = to_lowercase(entries[i].1.as_str());
        let pc = chars_of(p.as_str());
        let m = contains_chars(&nc, &qc) || contains_chars(&pc, &qc);
        flags.push(m);
        assert(query_flags(s, query@).take(i + 1) =~= query_flags(s, query@).take(i as int).push(
            m,
        ));
        i = i + 1;
    }
    assert(query_flags(s, query@).take(entries.len() as int) =~= query_flags(s, query@));
    flags
}

/// The portals whose name or path contains the query, ignoring case, in
/// order of name.
pub fn find_matching_portals(config: &Config, query: &str) -> (out: Vec<(String, String)>)
    ensures
        pair_views(out@) == matching_portals(config.portals.ordered(), query@),
{
    let entries = config.portals.entries();
    let flags = query_flags_exec(entries, query);
    let m = config.portals.select(&flags);
    m.to_vec()
}

/// Where a jump request leads.
pub enum QueryOutcome {
    /// A portal has exactly this name; its path.
    Exact(String),
    /// No portal matches.
    NoMatch,
    /// Exactly one portal matches: its name and path.
    Single(String, String),
    /// Several portals match; the picker chooses among them.
    Several(PortalMap),
}

/// Where a jump request for `query` leads: the portal of that exact name if
/// there is one; otherwise the portals whose name or path contains it,
/// ignoring case.
pub fn resolve_query(config: &Config, query: &str) -> (r: QueryOutcome)
    ensures
        config.portals@.contains_key(query@) ==> (r matches QueryOutcome::Exact(p) && p@
            == config.portals@[query@]),
        !config.portals@.contains_key(query@) ==> {
            let m = matching_portals(config.portals.ordered(), query@);
            &&& m.len() == 0 ==> r is NoMatch
            &&& m.len() == 1 ==> (r matches QueryOutcome::Single(n, p) && n@ == m[0].0 && p@
                == m[0].1)
            &&& m.len() > 1 ==> (r matches QueryOutcome::Several(pm) && pm.ordered() == m)
        },
{
    match config.portals.get(query) {
        Some(p) => {
            return QueryOutcome::Exact(p.clone());
        },
        None => {},
    }
    let entries = config.portals.entries();
    let flags = query_flags_exec(entries, query);
    let m = config.portals.select(&flags);
    let n = m.len();
    if n == 0 {
        QueryOutcome::NoMatch
    } else if n == 1 {
        let v = m.to_vec();
        assert(pair_views(v@)[0] == (v@[0].0@, v@[0].1@));
        let name = v[0].0.clone();
        let path = v[0].1.clone();
        QueryOutcome::Single(name, path)
    } else {
        QueryOutcome::Several(m)
    }
}

// ---------------------------------------------------------------------------
// Choosing one name
// ---------------------------------------------------------------------------

/// How many portals a lookup found.
pub enum Choice {
    Nothing,
    One(String),
    Several(Vec<String>),
}

/// None, one, or several of `names`.
pub fn choose_single(names: Vec<String>) -> (c: Choice)
    ensures
        names.len() == 0 ==> c is Nothing,
        names.len() == 1 ==> (c matches Choice::One(n) && n@ == names@[0]@),
        names.len() > 1 ==> (c matches Choice::Several(v) && string_views(v@) == string_views(
            names@,
        )),
{
    if names.len() == 0 {
        Choice::Nothing
    } else if names.len() == 1 {
        let mut names = names;
        let n = names.remove(0);
        Choice::One(n)
    } else {
        Choice::Several(names)
    }
}

/// The names joined by `, `.
pub fn join_names(names: &Vec<String>) -> (out: String)
    ensures
        out@ == join_with(string_views(names@), ", "@),
{
    let mut out = String::new();
    push_joined_strings(&mut out, names, names.len(), ", ");
    assert(string_views(names@).take(names.len() as int) =~= string_views(names@));
    out
}

// ---------------------------------------------------------------------------
// Pruning
// ---------------------------------------------------------------------------

/// The heading of the prune report: how many broken portals were found, or
/// removed.
pub open spec fn prune_heading(count: nat, force: bool) -> Seq<char> {
    (if force {
        "Removed "@
    } else {
        "Found "@
    }) + decimal(count) + " broken "@ + (if count == 1 {
        "portal"@
    } else {
        "portals"@
    }) + ":"@
}

/// The heading of the prune report.
pub fn prune_summary(count: usize, force: bool) -> (out: String)
    ensures
        out@ == prune_heading(count as nat, force),
{
    let mut out = String::new();
    if force {
        out.append("Removed ");
    } else {
        out.append("Found ");
    }
    push_decimal(&mut out, count);
    out.append(" broken ");
    if count == 1 {
        out.append("portal");
    } else {
        out.append("portals");
    }
    out.append(":");
    out
}

/// Law of portal queries: a portal is among those matching a query exactly
/// when its name or its path contains the query, ignoring case; nothing else
/// is; and they come in order of name.
pub proof fn law_matching_portals(s: Seq<EntryView>, q: Seq<char>)
    ensures
        forall|i: int|
            0 <= i < s.len() ==> ((exists|k: int|
                0 <= k < matching_portals(s, q).len() && #[trigger] matching_portals(s, q)[k]
                    == s[i]) <==> (contains_str(lowercase(s[i].0), lowercase(q)) || contains_str(
                lowercase(s[i].1),
                lowercase(q),
            ))),
        forall|k: int|
            0 <= k < matching_portals(s, q).len() ==> exists|j: int|
                0 <= j < s.len() && #[trigger] matching_portals(s, q)[k] == s[j],
        names_increasing(s) ==> names_increasing(matching_portals(s, q)),
{
    let keep = query_flags(s, q);
    lemma_select_members(s, keep);
    lemma_select_sorted(s, keep);
    let m = matching_portals(s, q);
    assert forall|i: int| 0 <= i < s.len() implies ((exists|k: int|
        0 <= k < m.len() && #[trigger] m[k] == s[i]) <==> (contains_str(lowercase(s[i].0), lowercase(q))
        || contains_str(lowercase(s[i].1), lowercase(q)))) by {
        assert(keep[i] == matches_query(s[i], q));
        if exists|k: int| 0 <= k < m.len() && #[trigger] m[k] == s[i] {
            let k = choose|k: int| 0 <= k < m.len() && #[trigger] m[k] == s[i];
            let j = choose|j: int| 0 <= j < s.len() && keep[j] && #[trigger] m[k] == s[j];
            assert(keep[j] == matches_query(s[j], q));
        }
    }
    assert forall|k: int| 0 <= k < m.len() implies exists|j: int|
        0 <= j < s.len() && #[trigger] m[k] == s[j] by {
        let j = choose|j: int| 0 <= j < s.len() && keep[j] && #[trigger] m[k] == s[j];
    }
}

/// Law of landing: in direct mode, or outside a repository, a jump lands at
/// the stored path; in picker mode it opens the worktree picker exactly when
/// the repository has more than one worktree, and goes to the main worktree
/// otherwise; with `--main` it always goes to the main worktree.
pub proof fn law_landing(n: usize, count: Option<usize>)
    ensures
        landing_for(WorktreeMode::Direct, count) == Landing::StoredPath,
        landing_for(WorktreeMode::Picker, None) == Landing::StoredPath,
        landing_for(WorktreeMode::MainOnly, None) == Landing::StoredPath,
        (landing_for(WorktreeMode::Picker, Some(n)) == Landing::PickWorktree) <==> n > 1,
        n <= 1 ==> landing_for(WorktreeMode::Picker, Some(n)) == Landing::MainWorktree,
        landing_for(WorktreeMode::MainOnly, Some(n)) == Landing::MainWorktree,
{
}

} // verus!
