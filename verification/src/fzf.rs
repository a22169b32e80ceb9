//! The lines shown in the fuzzy picker and in listings.

use vstd::prelude::*;
use crate::path::{collapse_tilde_in, collapse_tilde_with};
use crate::portals::{pair_views, EntryView, PortalMap};
use crate::resolve::{info_views, InfoView, WorktreeInfo};
use crate::text::{
    chars_eq, chars_of, decimal, join_with, max_byte_len, max_byte_len_of, pad_right, push_char,
    push_decimal, push_joined_strings, push_padded, string_of, string_views, trim_end,
    trim_end_chars,
};

verus! {

/// The most names shown for one path.
pub const MAX_DISPLAYED_NAMES: usize = 3;

/// A path and the names of the portals that point at it.
pub type GroupView = (Seq<char>, Seq<Seq<char>>);

/// The position of the first group for path `p`, or -1.
pub open spec fn find_group(g: Seq<GroupView>, p: Seq<char>) -> int
    decreases g.len(),
{
    if g.len() == 0 {
        -1
    } else if g[0].0 == p {
        0
    } else {
        let r = find_group(g.drop_first(), p);
        if r < 0 {
            -1
        } else {
            r + 1
        }
    }
}

/// The portals grouped by path: one group per distinct path, in order of the
/// first portal that points at it, each holding the names of its portals in
/// their order.
pub open spec fn group_by_path(s: Seq<EntryView>) -> Seq<GroupView>
    decreases s.len(),
{
    if s.len() == 0 {
        Seq::empty()
    } else {
        let g = group_by_path(s.drop_last());
        let e = s.last();
        let k = find_group(g, e.1);
        if k >= 0 {
            g.update(k, (e.1, g[k].1.push(e.0)))
        } else {
            g.push((e.1, seq![e.0]))
        }
    }
}

/// The names shown for a group: at most three, joined by `, `, with
/// ` +N more` for the N left out.
pub open spec fn display_names(names: Seq<Seq<char>>) -> Seq<char> {
    if names.len() > MAX_DISPLAYED_NAMES {
        join_with(names.take(MAX_DISPLAYED_NAMES as int), ", "@) + " +"@ + decimal(
            (names.len() - MAX_DISPLAYED_NAMES) as nat,
        ) + " more"@
    } else {
        join_with(names, ", "@)
    }
}

/// A listing line: two spaces, the prefix, the names padded to the common
/// width, two spaces and the path.
pub open spec fn portal_line(prefix: Seq<char>, names: Seq<char>, width: nat, path: Seq<char>) -> Seq<
    char,
> {
    "  "@ + prefix + pad_right(names, width) + "  "@ + path
}

/// The width of the names column: the most UTF-8 bytes of any group's names.
pub open spec fn names_width(groups: Seq<GroupView>) -> nat {
    max_byte_len(groups.map_values(|g: GroupView| display_names(g.1)))
}

/// The lines of the portal listing and the portal each one stands for (the
/// alphabetically first name of its group), one per distinct path.
pub open spec fn portal_entries(s: Seq<EntryView>, prefix: Seq<char>) -> Seq<EntryView> {
    let groups = group_by_path(s);
    let w = names_width(groups);
    groups.map_values(|g: GroupView| (portal_line(prefix, display_names(g.1), w, g.0), g.1[0]))
}

/// The first group at position `k` has path `p` when no earlier one has it.
pub proof fn lemma_find_group_at(g: Seq<GroupView>, p: Seq<char>, k: int)
    requires
        0 <= k < g.len(),
        g[k].0 == p,
        forall|j: int| 0 <= j < k ==> g[j].0 != p,
    ensures
        find_group(g, p) == k,
    decreases k,
{
    if k > 0 {
        lemma_find_group_at(g.drop_first(), p, k - 1);
    }
}

/// No group has path `p`.
pub proof fn lemma_find_group_none(g: Seq<GroupView>, p: Seq<char>)
    requires
        forall|j: int| 0 <= j < g.len() ==> g[j].0 != p,
    ensures
        find_group(g, p) == -1,
    decreases g.len(),
{
    if g.len() > 0 {
        lemma_find_group_none(g.drop_first(), p);
    }
}

/// What `find_group` finds.
pub proof fn lemma_find_group(g: Seq<GroupView>, p: Seq<char>)
    ensures
        -1 <= find_group(g, p) < g.len(),
        find_group(g, p) >= 0 ==> g[find_group(g, p)].0 == p,
        find_group(g, p) < 0 ==> forall|j: int| 0 <= j < g.len() ==> g[j].0 != p,
    decreases g.len(),
{
    if g.len() > 0 {
        lemma_find_group(g.drop_first(), p);
        if g[0].0 != p && find_group(g.drop_first(), p) < 0 {
            assert forall|j: int| 0 <= j < g.len() implies g[j].0 != p by {
                if j > 0 {
                    assert(g[j] == g.drop_first()[j - 1]);
                }
            }
        }
    }
}

/// Every group holds at least one name.
pub proof fn lemma_groups_nonempty(s: Seq<EntryView>)
    ensures
        forall|k: int|
            0 <= k < group_by_path(s).len() ==> #[trigger] group_by_path(s)[k].1.len() > 0,
    decreases s.len(),
{
    if s.len() > 0 {
        lemma_groups_nonempty(s.drop_last());
        lemma_find_group(group_by_path(s.drop_last()), s.last().1);
    }
}

/// The views of groups of strings.
pub open spec fn group_views(v: Seq<(String, Vec<String>)>) -> Seq<GroupView> {
    v.map_values(|g: (String, Vec<String>)| (g.0@, string_views(g.1@)))
}

fn find_group_exec(groups: &Vec<(String, Vec<String>)>, path: &String) -> (r: Option<usize>)
    ensures
        match r {
            Some(k) => find_group(group_views(groups@), path@) == k,
            None => find_group(group_views(groups@), path@) == -1,
        },
{
    let ghost gv = group_views(groups@);
    let mut k: usize = 0;
    while k < groups.len()
        invariant
            k <= groups.len(),
            gv == group_views(groups@),
            forall|j: int| 0 <= j < k ==> gv[j].0 != path@,
        decreases groups.len() - k,
    {
        if groups[k].0 == *path {
            proof {
                lemma_find_group_at(gv, path@, k as int);
            }
            return Some(k);
        }
        k = k + 1;
    }
    proof {
        lemma_find_group_none(gv, path@);
    }
    None
}

fn clone_strings(v: &Vec<String>) -> (out: Vec<String>)
    ensures
        string_views(out@) == string_views(v@),
{
    let mut out: Vec<String> = Vec::new();
    let mut i: usize = 0;
    while i < v.len()
        invariant
            i <= v.len(),
            string_views(out@) == string_views(v@).take(i as int),
        decreases v.len() - i,
    {
        let ghost before = string_views(out@);
        out.push(v[i].clone());
        assert(string_views(out@) =~= before.push(v@[i as int]@));
        assert(string_views(v@).take(i + 1) =~= string_views(v@).take(i as int).push(
            v@[i as int]@,
        ));
        i = i + 1;
    }
    assert(string_views(v@).take(v.len() as int) =~= string_views(v@));
    out
}

/// Groups the portals by path.
fn group_portals(entries: &Vec<(String, String)>) -> (groups: Vec<(String, Vec<String>)>)
    ensures
        group_views(groups@) == group_by_path(pair_views(entries@)),
{
    let ghost s = pair_views(entries@);
    let mut groups: Vec<(String, Vec<String>)> = Vec::new();
    let mut i: usize = 0;
    assert(s.take(0) =~= Seq::<EntryView>::empty());
    while i < entries.len()
        invariant
            i <= entries.len(),
            s == pair_views(entries@),
            group_views(groups@) == group_by_path(s.take(i as int)),
        decreases entries.len() - i,
    {
        let ghost t = s.take(i + 1);
        let ghost g = group_views(groups@);
        assert(t.drop_last() =~= s.take(i as int));
        assert(t.last() == (entries@[i as int].0@, entries@[i as int].1@));
        let name = entries[i].0.clone();
        let path = entries[i].1.clone();
        proof {
            lemma_find_group(g, path@);
        }
        match find_group_exec(&groups, &path) {
            Some(k) => {
                let (p, names) = groups.remove(k);
                let mut names2 = clone_strings(&names);
                names2.push(name);
                let ghost nv = string_views(names2@);
                assert(nv =~= g[k as int].1.push(entries@[i as int].0@));
                groups.insert(k, (p, names2));
                assert(group_views(groups@) =~= g.update(
                    k as int,
                    (entries@[i as int].1@, g[k as int].1.push(entries@[i as int].0@)),
                ));
            },
            None => {
                let ghost pv = path@;
                let ghost nm = name@;
                let names = vec![name];
                assert(string_views(names@) =~= seq![nm]);
                groups.push((path, names));
                assert(group_views(groups@) =~= g.push((pv, seq![nm])));
            },
        }
        i = i + 1;
    }
    assert(s.take(entries.len() as int) =~= s);
    groups
}

/// The names shown for one group.
fn display_names_exec(names: &Vec<String>) -> (out: String)
    ensures
        out@ == display_names(string_views(names@)),
{
    let mut out = String::new();
    if names.len() > MAX_DISPLAYED_NAMES {
        push_joined_strings(&mut out, names, MAX_DISPLAYED_NAMES, ", ");
        out.append(" +");
        push_decimal(&mut out, names.len() - MAX_DISPLAYED_NAMES);
        out.append(" more");
    } else {
        push_joined_strings(&mut out, names, names.len(), ", ");
        assert(string_views(names@).take(names.len() as int) =~= string_views(names@));
    }
    out
}

/// Builds one listing line.
fn portal_line_exec(prefix: &str, names: &str, width: usize, path: &str) -> (out: String)
    ensures
        out@ == portal_line(prefix@, names@, width as nat, path@),
{
    let mut out = String::new();
    out.append("  ");
    out.append(prefix);
    push_padded(&mut out, names, width);
    out.append("  ");
    out.append(path);
    out
}

/// The portal listing: one line per distinct path, with the names of the
/// portals that point at it (at most three, then `+N more`) padded to a
/// common width, and for each line the portal it stands for, the
/// alphabetically first name of its group.
pub fn format_portal_entries(portals: &PortalMap, prefix: &str) -> (out: Vec<(String, String)>)
    ensures
        pair_views(out@) == portal_entries(portals.ordered(), prefix@),
{
    let entries = portals.entries();
    let groups = group_portals(entries);
    let ghost gv = group_views(groups@);
    let ghost dns = gv.map_values(|g: GroupView| display_names(g.1));
    // the names shown for each group
    let mut shown: Vec<String> = Vec::new();
    let mut i: usize = 0;
    while i < groups.len()
        invariant
            i <= groups.len(),
            gv == group_views(groups@),
            dns == gv.map_values(|g: GroupView| display_names(g.1)),
            string_views(shown@) == dns.take(i as int),
        decreases groups.len() - i,
    {
        let d = display_names_exec(&groups[i].1);
        let ghost before = string_views(shown@);
        shown.push(d);
        assert(string_views(shown@) =~= before.push(dns[i as int]));
        assert(dns.take(i + 1) =~= dns.take(i as int).push(dns[i as int]));
        i = i + 1;
    }
    assert(dns.take(groups.len() as int) =~= dns);
    assert(string_views(shown@).take(shown.len() as int) =~= string_views(shown@));
    let width = max_byte_len_of(&shown, shown.len());
    assert(width == names_width(gv));
    let ghost expected = portal_entries(pair_views(entries@), prefix@);
    proof {
        lemma_groups_nonempty(pair_views(entries@));
    }
    let mut out: Vec<(String, String)> = Vec::new();
    let mut j: usize = 0;
    while j < groups.len()
        invariant
            j <= groups.len(),
            shown.len() == groups.len(),
            gv == group_views(groups@),
            string_views(shown@) == dns,
            dns == gv.map_values(|g: GroupView| display_names(g.1)),
            width == names_width(gv),
            gv == group_by_path(pair_views(entries@)),
            expected == portal_entries(pair_views(entries@), prefix@),
            pair_views(out@) == expected.take(j as int),
            forall|k: int| 0 <= k < gv.len() ==> #[trigger] gv[k].1.len() > 0,
        decreases groups.len() - j,
    {
        assert(shown@[j as int]@ == dns[j as int]);
        assert(groups@[j as int].0@ == gv[j as int].0);
        assert(gv[j as int].1 == string_views(groups@[j as int].1@));
        assert(gv[j as int].1.len() > 0);
        assert(groups@[j as int].1@[0]@ == gv[j as int].1[0]);
        let line = portal_line_exec(prefix, shown[j].as_str(), width, groups[j].0.as_str());
        let key = groups[j].1[0].clone();
        let ghost before = pair_views(out@);
        out.push((line, key));
        assert(pair_views(out@) =~= before.push(expected[j as int]));
        assert(expected.take(j + 1) =~= expected.take(j as int).push(expected[j as int]));
        j = j + 1;
    }
    assert(expected.take(groups.len() as int) =~= expected);
    out
}

// ---------------------------------------------------------------------------
// Worktree lines
// ---------------------------------------------------------------------------

/// The label after a worktree's path: green `(current, main)` or
/// `(current)`, blue `(main)`, or nothing.
pub open spec fn worktree_label(is_current: bool, is_main: bool) -> Seq<char> {
    if is_current && is_main {
        "  \x1b[32m(current, main)\x1b[0m"@
    } else if is_current {
        "  \x1b[32m(current)\x1b[0m"@
    } else if is_main {
        "  \x1b[34m(main)\x1b[0m"@
    } else {
        Seq::empty()
    }
}

/// The picker line of a worktree and its path, with `~/` for the home
/// directory `home`.
pub open spec fn worktree_entry(w: InfoView, home: Option<Seq<char>>) -> EntryView {
    ("  "@ + collapse_tilde_in(w.0, home) + worktree_label(w.2, w.1), w.0)
}

/// The picker lines of the worktrees, in order.
pub open spec fn worktree_entries(ws: Seq<InfoView>, home: Option<Seq<char>>) -> Seq<EntryView> {
    ws.map_values(|w: InfoView| worktree_entry(w, home))
}

/// The picker lines of the worktrees, with `~/` for the home directory
/// `home`, each paired with its path.
pub fn format_worktree_entries_with(worktrees: &Vec<WorktreeInfo>, home: Option<&str>) -> (out: Vec<
    (String, String),
>)
    ensures
        pair_views(out@) == worktree_entries(info_views(worktrees@), match home {
            Some(h) => Some(h@),
            None => None,
        }),
{
    let ghost hv = match home {
        Some(h) => Some(h@),
        None => None,
    };
    let ghost expected = worktree_entries(info_views(worktrees@), hv);
    let mut out: Vec<(String, String)> = Vec::new();
    let mut i: usize = 0;
    while i < worktrees.len()
        invariant
            i <= worktrees.len(),
            hv == match home {
                Some(h) => Some(h@),
                None => None,
            },
            expected == worktree_entries(info_views(worktrees@), hv),
            pair_views(out@) == expected.take(i as int),
        decreases worktrees.len() - i,
    {
        let w = &worktrees[i];
        let shown = collapse_tilde_with(w.path.as_str(), home);
        let line = worktree_line(w, shown.as_str());
        let path = w.path.clone();
        let ghost before = pair_views(out@);
        assert(line@ =~= expected[i as int].0);
        out.push((line, path));
        assert(pair_views(out@) =~= before.push(expected[i as int]));
        assert(expected.take(i + 1) =~= expected.take(i as int).push(expected[i as int]));
        i = i + 1;
    }
    assert(expected.take(worktrees.len() as int) =~= expected);
    out
}

/// The picker line of one worktree, with `~/` for the home directory `home`.
fn worktree_line(w: &WorktreeInfo, shown: &str) -> (line: String)
    ensures
        line@ == "  "@ + shown@ + worktree_label(w.is_current, w.is_main),
{
    let mut line = String::new();
    line.append("  ");
    line.append(shown);
    if w.is_current && w.is_main {
        line.append("  \x1b[32m(current, main)\x1b[0m");
    } else if w.is_current {
        line.append("  \x1b[32m(current)\x1b[0m");
    } else if w.is_main {
        line.append("  \x1b[34m(main)\x1b[0m");
    }
    assert(line@ =~= "  "@ + shown@ + worktree_label(w.is_current, w.is_main));
    line
}

/// `e` is the picker line of the worktree `w` and its path, for some home
/// directory or none.
pub open spec fn shows_worktree(e: EntryView, w: InfoView) -> bool {
    exists|h: Option<Seq<char>>| e == #[trigger] worktree_entry(w, h)
}

/// The picker lines of the worktrees, each paired with its path; a path below
/// the home directory the system reports when its line is made (if any) is
/// shown with `~/`.
pub fn format_worktree_entries(worktrees: &Vec<WorktreeInfo>) -> (out: Vec<(String, String)>)
    ensures
        out.len() == worktrees.len(),
        forall|i: int|
            0 <= i < out.len() ==> #[trigger] shows_worktree(
                pair_views(out@)[i],
                info_views(worktrees@)[i],
            ),
{
    let ghost ws = info_views(worktrees@);
    let mut out: Vec<(String, String)> = Vec::new();
    let mut i: usize = 0;
    while i < worktrees.len()
        invariant
            i <= worktrees.len(),
            ws == info_views(worktrees@),
            out.len() == i,
            forall|k: int| 0 <= k < i ==> #[trigger] shows_worktree(pair_views(out@)[k], ws[k]),
        decreases worktrees.len() - i,
    {
        let w = &worktrees[i];
        let shown = crate::path::collapse_tilde(w.path.as_str());
        let line = worktree_line(w, shown.as_str());
        let path = w.path.clone();
        let ghost h = choose|h: Option<Seq<char>>| shown@ == #[trigger] collapse_tilde_in(
            w.path@,
            h,
        );
        assert(ws[i as int] == (w.path@, w.is_main, w.is_current));
        assert((line@, path@) == worktree_entry(ws[i as int], h));
        assert(shows_worktree((line@, path@), ws[i as int]));
        let ghost before = pair_views(out@);
        out.push((line, path));
        assert(pair_views(out@) =~= before.push((out@[i as int].0@, out@[i as int].1@)));
        assert forall|k: int| 0 <= k < i + 1 implies #[trigger] shows_worktree(
            pair_views(out@)[k],
            ws[k],
        ) by {
            if k < i {
                assert(pair_views(out@)[k] == before[k]);
            }
        }
        i = i + 1;
    }
    out
}

// ---------------------------------------------------------------------------
// ANSI escapes
// ---------------------------------------------------------------------------

/// An ASCII letter.
pub open spec fn is_ascii_letter(c: char) -> bool {
    (0x41 <= (c as u32) <= 0x5a) || (0x61 <= (c as u32) <= 0x7a)
}

/// `s` without ANSI escape sequences, where a sequence runs from an escape
/// character to the first ASCII letter after it, inclusive; `in_escape` tells
/// whether `s` starts inside one.
pub open spec fn strip_ansi_from(s: Seq<char>, in_escape: bool) -> Seq<char>
    decreases s.len(),
{
    if s.len() == 0 {
        Seq::empty()
    } else if in_escape {
        strip_ansi_from(s.drop_first(), !is_ascii_letter(s[0]))
    } else if s[0] == '\x1b' {
        strip_ansi_from(s.drop_first(), true)
    } else {
        seq![s[0]] + strip_ansi_from(s.drop_first(), false)
    }
}

/// `s` without ANSI escape sequences.
pub open spec fn without_ansi(s: Seq<char>) -> Seq<char> {
    strip_ansi_from(s, false)
}

fn strip_ansi_chars(cs: &Vec<char>) -> (out: Vec<char>)
    ensures
        out@ == without_ansi(cs@),
{
    let mut out: Vec<char> = Vec::new();
    let mut in_escape = false;
    let mut i: usize = 0;
    assert(cs@.skip(0) =~= cs@);
    while i < cs.len()
        invariant
            i <= cs.len(),
            out@ + strip_ansi_from(cs@.skip(i as int), in_escape) == without_ansi(cs@),
        decreases cs.len() - i,
    {
        let c = cs[i];
        assert(cs@.skip(i as int).drop_first() =~= cs@.skip(i + 1));
        assert(cs@.skip(i as int)[0] == c);
        if in_escape {
            if (0x41 <= (c as u32) && (c as u32) <= 0x5a) || (0x61 <= (c as u32) && (c as u32)
                <= 0x7a) {
                in_escape = false;
            }
        } else if c == '\x1b' {
            in_escape = true;
        } else {
            let ghost before = out@;
            out.push(c);
            assert(before + (seq![c] + strip_ansi_from(cs@.skip(i + 1), false)) =~= out@
                + strip_ansi_from(cs@.skip(i + 1), false));
        }
        i = i + 1;
    }
    assert(out@ =~= out@ + strip_ansi_from(cs@.skip(cs.len() as int), in_escape));
    out
}

/// `s` without ANSI escape sequences.
pub fn strip_ansi(s: &str) -> (out: String)
    ensures
        out@ == without_ansi(s@),
{
    let cs = chars_of(s);
    let stripped = strip_ansi_chars(&cs);
    string_of(&stripped)
}

// ---------------------------------------------------------------------------
// Prune lines
// ---------------------------------------------------------------------------

/// The lines reporting broken portals: two spaces, the name padded to the
/// longest name (in UTF-8 bytes), two spaces and the path.
pub open spec fn prune_lines(s: Seq<EntryView>) -> Seq<Seq<char>> {
    let w = max_byte_len(s.map_values(|e: EntryView| e.0));
    s.map_values(|e: EntryView| "  "@ + pad_right(e.0, w) + "  "@ + e.1)
}

/// The lines reporting broken portals, with aligned columns.
pub fn format_prune_entries(portals: &Vec<(String, String)>) -> (out: Vec<String>)
    ensures
        string_views(out@) == prune_lines(pair_views(portals@)),
{
    let ghost s = pair_views(portals@);
    let mut names: Vec<String> = Vec::new();
    let mut i: usize = 0;
    while i < portals.len()
        invariant
            i <= portals.len(),
            s == pair_views(portals@),
            string_views(names@) == s.take(i as int).map_values(|e: EntryView| e.0),
        decreases portals.len() - i,
    {
        let ghost before = string_views(names@);
        names.push(portals[i].0.clone());
        assert(string_views(names@) =~= before.push(s[i as int].0));
        assert(s.take(i + 1).map_values(|e: EntryView| e.0) =~= s.take(i as int).map_values(
            |e: EntryView| e.0,
        ).push(s[i as int].0));
        i = i + 1;
    }
    assert(s.take(portals.len() as int) =~= s);
    assert(string_views(names@).take(names.len() as int) =~= string_views(names@));
    let width = max_byte_len_of(&names, names.len());
    let ghost expected = prune_lines(s);
    let mut out: Vec<String> = Vec::new();
    let mut j: usize = 0;
    while j < portals.len()
        invariant
            j <= portals.len(),
            s == pair_views(portals@),
            width == max_byte_len(s.map_values(|e: EntryView| e.0)),
            expected == prune_lines(s),
            string_views(out@) == expected.take(j as int),
        decreases portals.len() - j,
    {
        let mut line = String::new();
        line.append("  ");
        push_padded(&mut line, portals[j].0.as_str(), width);
        line.append("  ");
        line.append(portals[j].1.as_str());
        let ghost before = string_views(out@);
        assert(line@ =~= expected[j as int]);
        out.push(line);
        assert(string_views(out@) =~= before.push(expected[j as int]));
        assert(expected.take(j + 1) =~= expected.take(j as int).push(expected[j as int]));
        j = j + 1;
    }
    assert(expected.take(portals.len() as int) =~= expected);
    out
}

// ---------------------------------------------------------------------------
// The picker's answer
// ---------------------------------------------------------------------------

/// The position of the first line that reads `target` once escapes are
/// removed.
pub open spec fn first_line_reading(ls: Seq<Seq<char>>, target: Seq<char>) -> Option<int>
    decreases ls.len(),
{
    if ls.len() == 0 {
        None
    } else if without_ansi(ls[0]) == target {
        Some(0)
    } else {
        match first_line_reading(ls.drop_first(), target) {
            Some(i) => Some(i + 1),
            None => None,
        }
    }
}

/// The line the picker's output names: its output without trailing
/// whitespace, compared with each line with escapes removed on both sides;
/// nothing for an empty answer.
pub open spec fn selected_line(ls: Seq<Seq<char>>, output: Seq<char>) -> Option<int> {
    let selected = trim_end(output);
    if selected.len() == 0 {
        None
    } else {
        first_line_reading(ls, without_ansi(selected))
    }
}

/// Which of `lines` the picker printed in `output`.
pub fn pick_selection(lines: &Vec<String>, output: &str) -> (r: Option<usize>)
    ensures
        match r {
            Some(i) => selected_line(string_views(lines@), output@) == Some(i as int),
            None => selected_line(string_views(lines@), output@) is None,
        },
{
    let cs = chars_of(output);
    let selected = trim_end_chars(&cs);
    if selected.len() == 0 {
        return None;
    }
    let target = strip_ansi_chars(&selected);
    let ghost lv = string_views(lines@);
    let mut i: usize = 0;
    assert(lv.skip(0) =~= lv);
    while i < lines.len()
        invariant
            i <= lines.len(),
            lv == string_views(lines@),
            selected@ == trim_end(output@),
            selected.len() > 0,
            target@ == without_ansi(selected@),
            first_line_reading(lv, target@) == match first_line_reading(lv.skip(i as int), target@) {
                Some(k) => Some(k + i),
                None => None,
            },
        decreases lines.len() - i,
    {
        assert(lv.skip(i as int).drop_first() =~= lv.skip(i + 1));
        assert(lv.skip(i as int)[0] == lines@[i as int]@);
        let lc = chars_of(lines[i].as_str());
        let stripped = strip_ansi_chars(&lc);
        if chars_eq(&stripped, &target) {
            assert(first_line_reading(lv.skip(i as int), target@) == Some(0int));
            assert(first_line_reading(lv, target@) == Some(i as int));
            assert(selected@ == trim_end(output@));
            assert(selected_line(lv, output@) == first_line_reading(lv, target@));
            return Some(i);
        }
        i = i + 1;
    }
    None
}

// ---------------------------------------------------------------------------
// Laws of the portal listing
// ---------------------------------------------------------------------------

/// Some group lists the portal under its path.
pub open spec fn listed_under(g: Seq<GroupView>, e: EntryView) -> bool {
    exists|k: int| 0 <= k < g.len() && #[trigger] g[k].0 == e.1 && g[k].1.contains(e.0)
}

/// Some portal has this name and path.
pub open spec fn is_entry(s: Seq<EntryView>, n: Seq<char>, p: Seq<char>) -> bool {
    exists|j: int| 0 <= j < s.len() && #[trigger] s[j] == (n, p)
}

/// The names strictly increase along the sequence.
pub open spec fn strictly_increasing(v: Seq<Seq<char>>) -> bool {
    forall|a: int, b: int| #![trigger v[a], v[b]] 0 <= a < b < v.len() ==> crate::text::str_lt(v[a], v[b])
}

/// What the grouping of the portals by path amounts to.
pub open spec fn groups_ok(s: Seq<EntryView>, g: Seq<GroupView>) -> bool {
    &&& forall|k: int| 0 <= k < g.len() ==> #[trigger] g[k].1.len() > 0
    &&& forall|a: int, b: int| #![trigger g[a], g[b]] 0 <= a < b < g.len() ==> g[a].0 != g[b].0
    &&& forall|j: int| 0 <= j < s.len() ==> #[trigger] listed_under(g, s[j])
    &&& forall|k: int, m: int|
        0 <= k < g.len() && 0 <= m < g[k].1.len() ==> #[trigger] is_entry(s, g[k].1[m], g[k].0)
    &&& forall|k: int| 0 <= k < g.len() ==> #[trigger] strictly_increasing(g[k].1)
    &&& forall|a: int, b: int|
        #![trigger g[a], g[b]]
        0 <= a < b < g.len() ==> crate::text::str_lt(g[a].1[0], g[b].1[0])
}

proof fn lemma_groups_ok(s: Seq<EntryView>)
    requires
        crate::portals::names_increasing(s),
    ensures
        groups_ok(s, group_by_path(s)),
    decreases s.len(),
{
    if s.len() == 0 {
        return;
    }
    let d = s.drop_last();
    let e = s.last();
    let g0 = group_by_path(d);
    let g = group_by_path(s);
    assert(crate::portals::names_increasing(d)) by {
        assert forall|i: int, j: int| 0 <= i < j < d.len() implies #[trigger] crate::text::str_lt(
            d[i].0,
            d[j].0,
        ) by {
            assert(s[i] == d[i] && s[j] == d[j]);
        }
    }
    lemma_groups_ok(d);
    lemma_find_group(g0, e.1);
    // every name already grouped comes before the new one
    assert forall|k: int, m: int| 0 <= k < g0.len() && 0 <= m < g0[k].1.len() implies crate::text::str_lt(
        #[trigger] g0[k].1[m],
        e.0,
    ) by {
        assert(is_entry(d, g0[k].1[m], g0[k].0));
        let j = choose|j: int| 0 <= j < d.len() && #[trigger] d[j] == (g0[k].1[m], g0[k].0);
        assert(s[j] == d[j]);
        assert(crate::text::str_lt(s[j].0, s[s.len() - 1].0));
    }
    let k = find_group(g0, e.1);
    assert(s.len() - 1 == d.len());
    assert forall|k2: int, m: int| 0 <= k2 < g0.len() && 0 <= m < g0[k2].1.len() implies #[trigger] is_entry(
        s,
        g0[k2].1[m],
        g0[k2].0,
    ) by {
        assert(is_entry(d, g0[k2].1[m], g0[k2].0));
        let j = choose|j: int| 0 <= j < d.len() && #[trigger] d[j] == (g0[k2].1[m], g0[k2].0);
        assert(s[j] == d[j]);
    }
    assert(is_entry(s, e.0, e.1)) by {
        assert(s[s.len() - 1] == (e.0, e.1));
    }
    if k >= 0 {
        let names = g0[k].1.push(e.0);
        assert(g == g0.update(k, (e.1, names)));
        assert forall|kk: int| 0 <= kk < g.len() implies #[trigger] g[kk].1.len() > 0 by {
            if kk != k {
                assert(g[kk] == g0[kk]);
            }
        }
        assert forall|a: int, b: int| #![trigger g[a], g[b]] 0 <= a < b < g.len() implies g[a].0
            != g[b].0 by {
            assert(g[a].0 == g0[a].0 && g[b].0 == g0[b].0);
            assert(g0[a].0 != g0[b].0);
        }
        assert forall|j: int| 0 <= j < s.len() implies #[trigger] listed_under(g, s[j]) by {
            if j < d.len() {
                assert(s[j] == d[j]);
                assert(listed_under(g0, d[j]));
                let kk = choose|kk: int|
                    0 <= kk < g0.len() && #[trigger] g0[kk].0 == d[j].1 && g0[kk].1.contains(
                        d[j].0,
                    );
                if kk == k {
                    let m = choose|m: int| 0 <= m < g0[k].1.len() && g0[k].1[m] == d[j].0;
                    assert(names[m] == d[j].0);
                    assert(g[kk].0 == s[j].1 && g[kk].1.contains(s[j].0));
                } else {
                    assert(g[kk] == g0[kk]);
                    assert(g[kk].0 == s[j].1 && g[kk].1.contains(s[j].0));
                }
            } else {
                assert(names[names.len() - 1] == e.0);
                assert(g[k].0 == s[j].1 && g[k].1.contains(s[j].0));
            }
        }
        assert forall|kk: int, m: int| 0 <= kk < g.len() && 0 <= m < g[kk].1.len() implies #[trigger] is_entry(
            s,
            g[kk].1[m],
            g[kk].0,
        ) by {
            if kk != k {
                assert(g[kk] == g0[kk]);
            } else if m < g0[k].1.len() {
                assert(g[kk].1[m] == g0[k].1[m]);
                assert(g[kk].0 == g0[k].0);
            } else {
                assert(g[kk].1[m] == e.0);
            }
        }
        assert forall|kk: int| 0 <= kk < g.len() implies #[trigger] strictly_increasing(g[kk].1) by {
            if kk != k {
                assert(g[kk] == g0[kk]);
            } else {
                assert(strictly_increasing(g0[k].1));
                assert forall|a: int, b: int| 0 <= a < b < names.len() implies crate::text::str_lt(
                    #[trigger] names[a],
                    #[trigger] names[b],
                ) by {
                    if b < g0[k].1.len() {
                        assert(names[a] == g0[k].1[a] && names[b] == g0[k].1[b]);
                    } else {
                        assert(names[a] == g0[k].1[a]);
                        assert(crate::text::str_lt(g0[k].1[a], e.0));
                    }
                }
            }
        }
        assert forall|a: int, b: int| #![trigger g[a], g[b]] 0 <= a < b < g.len() implies crate::text::str_lt(
            g[a].1[0],
            g[b].1[0],
        ) by {
            assert(g[a].1[0] == g0[a].1[0]);
            assert(g[b].1[0] == g0[b].1[0]);
            assert(crate::text::str_lt(g0[a].1[0], g0[b].1[0]));
        }
    } else {
        assert(g == g0.push((e.1, seq![e.0])));
        let n: int = g0.len() as int;
        assert forall|kk: int| 0 <= kk < g.len() implies #[trigger] g[kk].1.len() > 0 by {
            if kk < n {
                assert(g[kk] == g0[kk]);
            }
        }
        assert forall|a: int, b: int| #![trigger g[a], g[b]] 0 <= a < b < g.len() implies g[a].0
            != g[b].0 by {
            assert(g[a] == g0[a]);
            if b < n {
                assert(g[b] == g0[b]);
            } else {
                assert(g0[a].0 != e.1);
            }
        }
        assert forall|j: int| 0 <= j < s.len() implies #[trigger] listed_under(g, s[j]) by {
            if j < d.len() {
                assert(s[j] == d[j]);
                assert(listed_under(g0, d[j]));
                let kk = choose|kk: int|
                    0 <= kk < g0.len() && #[trigger] g0[kk].0 == d[j].1 && g0[kk].1.contains(
                        d[j].0,
                    );
                assert(g[kk] == g0[kk]);
                assert(g[kk].0 == s[j].1 && g[kk].1.contains(s[j].0));
            } else {
                assert(g[n].1[0] == e.0);
                assert(g[n].0 == s[j].1 && g[n].1.contains(s[j].0));
            }
        }
        assert forall|kk: int, m: int| 0 <= kk < g.len() && 0 <= m < g[kk].1.len() implies #[trigger] is_entry(
            s,
            g[kk].1[m],
            g[kk].0,
        ) by {
            if kk < n {
                assert(g[kk] == g0[kk]);
            } else {
                assert(g[kk].1[m] == e.0);
            }
        }
        assert forall|kk: int| 0 <= kk < g.len() implies #[trigger] strictly_increasing(g[kk].1) by {
            if kk < n {
                assert(g[kk] == g0[kk]);
            }
        }
        assert forall|a: int, b: int| #![trigger g[a], g[b]] 0 <= a < b < g.len() implies crate::text::str_lt(
            g[a].1[0],
            g[b].1[0],
        ) by {
            assert(g[a] == g0[a]);
            if b < n {
                assert(g[b] == g0[b]);
                assert(crate::text::str_lt(g0[a].1[0], g0[b].1[0]));
            } else {
                assert(g[b].1[0] == e.0);
                assert(crate::text::str_lt(g0[a].1[0], e.0));
            }
        }
    }
}

/// Law of the portal listing: one line per distinct path, no path twice;
/// every portal is counted in the line of its path, and a line counts only
/// portals that point at its path; the names of a line are in alphabetical
/// order, so a line stands for the alphabetically first portal of its path;
/// and the lines come in alphabetical order of the portal each stands for.
pub proof fn law_portal_listing_groups(s: Seq<EntryView>, prefix: Seq<char>)
    requires
        crate::portals::names_increasing(s),
    ensures
        portal_entries(s, prefix).len() == group_by_path(s).len(),
        groups_ok(s, group_by_path(s)),
        forall|i: int|
            0 <= i < group_by_path(s).len() ==> #[trigger] portal_entries(s, prefix)[i].1
                == group_by_path(s)[i].1[0],
        forall|i: int, j: int|
            #![trigger portal_entries(s, prefix)[i], portal_entries(s, prefix)[j]]
            0 <= i < j < portal_entries(s, prefix).len() ==> crate::text::str_lt(
                portal_entries(s, prefix)[i].1,
                portal_entries(s, prefix)[j].1,
            ),
{
    lemma_groups_ok(s);
    let g = group_by_path(s);
    let out = portal_entries(s, prefix);
    assert forall|i: int, j: int| #![trigger out[i], out[j]] 0 <= i < j < out.len() implies crate::text::str_lt(
        out[i].1,
        out[j].1,
    ) by {
        assert(out[i].1 == g[i].1[0]);
        assert(out[j].1 == g[j].1[0]);
        assert(crate::text::str_lt(g[i].1[0], g[j].1[0]));
    }
}

/// Law of the portal listing: the path of every line starts at the same
/// column, since each line is two spaces, the prefix, the names padded to one
/// common width (the most UTF-8 bytes of any line's names, never fewer than
/// their characters), two spaces and the path.
pub proof fn law_portal_listing_aligned(s: Seq<EntryView>, prefix: Seq<char>)
    ensures
        forall|i: int|
            0 <= i < portal_entries(s, prefix).len() ==> {
                let g = group_by_path(s);
                let padded = pad_right(display_names(g[i].1), names_width(g));
                &&& padded.len() == names_width(g)
                &&& #[trigger] portal_entries(s, prefix)[i].0 == "  "@ + prefix + padded + "  "@
                    + g[i].0
            },
{
    let g = group_by_path(s);
    let out = portal_entries(s, prefix);
    let w = names_width(g);
    let dns = g.map_values(|gr: GroupView| display_names(gr.1));
    assert forall|i: int| 0 <= i < out.len() implies pad_right(display_names(g[i].1), w).len()
        == w by {
        let dn = display_names(g[i].1);
        assert(dns[i] == dn);
        crate::text::lemma_max_byte_len_bounds(dns, i);
        crate::text::lemma_byte_len_at_least_len(dn);
    }
}

/// Law of the prune report: the path of every line starts at the same
/// column.
pub proof fn law_prune_lines_aligned(s: Seq<EntryView>)
    ensures
        prune_lines(s).len() == s.len(),
        forall|i: int|
            0 <= i < s.len() ==> {
                let padded = pad_right(s[i].0, max_byte_len(s.map_values(|e: EntryView| e.0)));
                &&& padded.len() == max_byte_len(s.map_values(|e: EntryView| e.0))
                &&& #[trigger] prune_lines(s)[i] == "  "@ + padded + "  "@ + s[i].1
            },
{
    let names = s.map_values(|e: EntryView| e.0);
    let w = max_byte_len(names);
    assert forall|i: int| 0 <= i < s.len() implies pad_right(s[i].0, w).len() == w by {
        assert(names[i] == s[i].0);
        crate::text::lemma_max_byte_len_bounds(names, i);
        crate::text::lemma_byte_len_at_least_len(s[i].0);
    }
}

/// Law of the portal listing: at most three names are shown for a path, and
/// the count of the others follows.
pub proof fn law_display_names_capped(names: Seq<Seq<char>>)
    requires
        names.len() > MAX_DISPLAYED_NAMES,
    ensures
        display_names(names) == join_with(names.take(3), ", "@) + " +"@ + decimal(
            (names.len() - 3) as nat,
        ) + " more"@,
{
}

/// Law of the portal listing: a path with at most three names shows them
/// all, joined by `, `, with no count of others.
pub proof fn law_display_names_all_shown(names: Seq<Seq<char>>)
    requires
        names.len() <= 3,
    ensures
        display_names(names) == join_with(names, ", "@),
{
}

/// Law of escape stripping: what is left holds no escape character, and a
/// string without escape characters is left as it is.
pub proof fn law_strip_ansi(s: Seq<char>, in_escape: bool)
    ensures
        !strip_ansi_from(s, in_escape).contains('\x1b'),
        !s.contains('\x1b') ==> strip_ansi_from(s, false) == s,
    decreases s.len(),
{
    if s.len() > 0 {
        let rest = s.drop_first();
        law_strip_ansi(rest, true);
        law_strip_ansi(rest, false);
        law_strip_ansi(rest, !is_ascii_letter(s[0]));
        if !in_escape && s[0] != '\x1b' {
            let out = seq![s[0]] + strip_ansi_from(rest, false);
            assert(!out.contains('\x1b')) by {
                if out.contains('\x1b') {
                    let j = choose|j: int| 0 <= j < out.len() && out[j] == '\x1b';
                    if j > 0 {
                        assert(strip_ansi_from(rest, false)[j - 1] == '\x1b');
                    }
                }
            }
        }
        if !s.contains('\x1b') {
            assert(s[0] != '\x1b');
            assert(!rest.contains('\x1b')) by {
                if rest.contains('\x1b') {
                    let j = choose|j: int| 0 <= j < rest.len() && rest[j] == '\x1b';
                    assert(s[j + 1] == '\x1b');
                }
            }
            assert(seq![s[0]] + rest =~= s);
        }
    } else {
        assert(s =~= Seq::<char>::empty());
    }
}

/// `idx` picks the characters of `a` out of `b`, in order.
pub open spec fn picks_out(a: Seq<char>, b: Seq<char>, idx: Seq<int>) -> bool {
    &&& idx.len() == a.len()
    &&& forall|i: int| 0 <= i < a.len() ==> 0 <= #[trigger] idx[i] < b.len() && b[idx[i]] == a[i]
    &&& forall|i: int, j: int| #![trigger idx[i], idx[j]] 0 <= i < j < a.len() ==> idx[i] < idx[j]
}

/// `a` is `b` with some characters left out.
pub open spec fn is_subsequence(a: Seq<char>, b: Seq<char>) -> bool {
    exists|idx: Seq<int>| #[trigger] picks_out(a, b, idx)
}

/// Law of escape stripping: what is left is the input with some characters
/// left out.
pub proof fn law_strip_ansi_subsequence(s: Seq<char>, in_escape: bool)
    ensures
        is_subsequence(strip_ansi_from(s, in_escape), s),
    decreases s.len(),
{
    let r = strip_ansi_from(s, in_escape);
    if s.len() == 0 {
        assert(picks_out(r, s, Seq::<int>::empty()));
        return;
    }
    let rest = s.drop_first();
    let next = if in_escape {
        !is_ascii_letter(s[0])
    } else if s[0] == '\x1b' {
        true
    } else {
        false
    };
    law_strip_ansi_subsequence(rest, next);
    let t = strip_ansi_from(rest, next);
    let idx = choose|idx: Seq<int>| #[trigger] picks_out(t, rest, idx);
    let shifted = idx.map_values(|i: int| i + 1);
    if in_escape || s[0] == '\x1b' {
        assert(r == t);
        assert forall|i: int| 0 <= i < r.len() implies 0 <= #[trigger] shifted[i] < s.len() && s[shifted[i]] == r[i] by {
            assert(shifted[i] == idx[i] + 1);
            assert(rest[idx[i]] == s[idx[i] + 1]);
        }
        assert(picks_out(r, s, shifted));
    } else {
        assert(r == seq![s[0]] + t);
        let w = seq![0int] + shifted;
        assert forall|i: int| 0 <= i < r.len() implies 0 <= #[trigger] w[i] < s.len() && s[w[i]] == r[i] by {
            if i > 0 {
                assert(w[i] == idx[i - 1] + 1);
                assert(rest[idx[i - 1]] == s[idx[i - 1] + 1]);
            }
        }
        assert forall|i: int, j: int| #![trigger w[i], w[j]] 0 <= i < j < r.len() implies w[i] < w[j] by {
            if i > 0 {
                assert(w[i] == idx[i - 1] + 1 && w[j] == idx[j - 1] + 1);
                assert(idx[i - 1] < idx[j - 1]);
            } else {
                assert(w[j] == idx[j - 1] + 1);
            }
        }
        assert(picks_out(r, s, w));
    }
}

/// Law of escape stripping: stripping twice strips no more than once.
pub proof fn law_strip_ansi_idempotent(s: Seq<char>)
    ensures
        without_ansi(without_ansi(s)) == without_ansi(s),
{
    law_strip_ansi(s, false);
    law_strip_ansi(without_ansi(s), false);
}

} // verus!
