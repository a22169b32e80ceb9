//! Worktrees of a git repository: reading git's answers, choosing the main and
//! the current worktree, and ordering them for the picker.

use vstd::prelude::*;
use crate::path::{
    is_absolute, is_absolute_path, path_components, path_eq, path_starts_with, path_starts_with_exec,
    path_strip_prefix, paths_equal, strip_path_prefix,
};
use crate::text::{
    chars_of, lemma_split_on_nonempty, split_chars, split_on, starts_with, starts_with_chars,
    string_from, string_of, string_views, trim, trim_string,
};

verus! {

// ---------------------------------------------------------------------------
// Reading git's output
// ---------------------------------------------------------------------------

/// A line without the `\r` that ended it, if any.
pub open spec fn strip_cr(l: Seq<char>) -> Seq<char> {
    if l.len() > 0 && l.last() == '\r' {
        l.drop_last()
    } else {
        l
    }
}

/// The lines of `s` (`str::lines`): split at `\n`, each line ended by `\n`
/// loses a `\r` before it; a last piece not ended by `\n` is a line only if
/// it is not empty, and keeps its characters as they are.
pub open spec fn lines(s: Seq<char>) -> Seq<Seq<char>> {
    let pieces = split_on(s, '\n');
    let ended = pieces.take(pieces.len() - 1).map_values(|l: Seq<char>| strip_cr(l));
    if pieces.last().len() == 0 {
        ended
    } else {
        ended.push(pieces.last())
    }
}

/// `worktree ` (with the space), the tag of a worktree line in
/// `git worktree list --porcelain`.
pub open spec fn worktree_tag() -> Seq<char> {
    seq!['w', 'o', 'r', 'k', 't', 'r', 'e', 'e', ' ']
}

/// The paths named by the worktree lines among `ls`, in order.
pub open spec fn worktree_paths(ls: Seq<Seq<char>>) -> Seq<Seq<char>>
    decreases ls.len(),
{
    if ls.len() == 0 {
        Seq::empty()
    } else {
        let r = worktree_paths(ls.drop_last());
        if starts_with(ls.last(), worktree_tag()) {
            r.push(ls.last().skip(worktree_tag().len() as int))
        } else {
            r
        }
    }
}

fn strip_cr_exec(l: &Vec<char>) -> (out: String)
    ensures
        out@ == strip_cr(l@),
{
    let mut v: Vec<char> = Vec::new();
    let n = if l.len() > 0 && l[l.len() - 1] == '\r' {
        l.len() - 1
    } else {
        l.len()
    };
    let mut i: usize = 0;
    while i < n
        invariant
            i <= n <= l.len(),
            v@ == l@.take(i as int),
        decreases n - i,
    {
        v.push(l[i]);
        assert(l@.take(i + 1) =~= l@.take(i as int).push(l@[i as int]));
        i = i + 1;
    }
    assert(v@ =~= strip_cr(l@));
    string_of(&v)
}

/// The lines of `s`.
pub fn lines_of(s: &str) -> (out: Vec<String>)
    ensures
        string_views(out@) == lines(s@),
{
    let cs = chars_of(s);
    let pieces = split_chars(&cs, '\n');
    proof {
        lemma_split_on_nonempty(cs@, '\n');
    }
    let ghost pv = pieces@.map_values(|p: Vec<char>| p@);
    let n = pieces.len() - 1;
    let mut out: Vec<String> = Vec::new();
    let mut i: usize = 0;
    while i < n
        invariant
            i <= n,
            n + 1 == pieces.len(),
            pv == pieces@.map_values(|p: Vec<char>| p@),
            string_views(out@) == pv.take(i as int).map_values(|l: Seq<char>| strip_cr(l)),
        decreases n - i,
    {
        let l = strip_cr_exec(&pieces[i]);
        let ghost before = string_views(out@);
        out.push(l);
        assert(string_views(out@) =~= before.push(strip_cr(pv[i as int])));
        assert(pv.take(i + 1).map_values(|l: Seq<char>| strip_cr(l)) =~= pv.take(
            i as int,
        ).map_values(|l: Seq<char>| strip_cr(l)).push(strip_cr(pv[i as int])));
        i = i + 1;
    }
    if pieces[n].len() > 0 {
        let last = string_of(&pieces[n]);
        let ghost before = string_views(out@);
        out.push(last);
        assert(string_views(out@) =~= before.push(pv.last()));
    }
    out
}

/// The worktree paths in the output of `git worktree list --porcelain`.
pub fn parse_worktree_list(stdout: &str) -> (out: Vec<String>)
    ensures
        string_views(out@) == worktree_paths(lines(stdout@)),
{
    let ls = lines_of(stdout);
    let ghost lv = string_views(ls@);
    let tag = vec!['w', 'o', 'r', 'k', 't', 'r', 'e', 'e', ' '];
    assert(tag@ =~= worktree_tag());
    let mut out: Vec<String> = Vec::new();
    let mut i: usize = 0;
    assert(lv.take(0) =~= Seq::<Seq<char>>::empty());
    while i < ls.len()
        invariant
            i <= ls.len(),
            lv == string_views(ls@),
            tag@ == worktree_tag(),
            string_views(out@) == worktree_paths(lv.take(i as int)),
        decreases ls.len() - i,
    {
        assert(lv.take(i + 1).drop_last() =~= lv.take(i as int));
        let cs = chars_of(ls[i].as_str());
        if starts_with_chars(&cs, &tag) {
            let mut rest: Vec<char> = Vec::new();
            let mut j: usize = 9;
            while j < cs.len()
                invariant
                    9 <= j <= cs.len(),
                    rest@ == cs@.subrange(9, j as int),
                decreases cs.len() - j,
            {
                rest.push(cs[j]);
                assert(cs@.subrange(9, j + 1) =~= cs@.subrange(9, j as int).push(cs@[j as int]));
                j = j + 1;
            }
            assert(rest@ =~= cs@.skip(9));
            let p = string_of(&rest);
            let ghost before = string_views(out@);
            out.push(p);
            assert(string_views(out@) =~= before.push(lv[i as int].skip(9)));
        }
        i = i + 1;
    }
    assert(lv.take(ls.len() as int) =~= lv);
    out
}

/// The repository's top-level directory from the output of
/// `git rev-parse --show-toplevel`: the output with surrounding whitespace
/// removed.
pub fn parse_toplevel(stdout: &str) -> (out: String)
    ensures
        out@ == trim(stdout@),
{
    trim_string(stdout)
}

// ---------------------------------------------------------------------------
// The logical working directory
// ---------------------------------------------------------------------------

/// The working directory to use: `$PWD` when it is set, absolute and an
/// existing directory (`pwd_is_dir` tells whether it is one), so that paths
/// through symlinks are kept; otherwise `fallback`.
pub fn resolve_logical_cwd(pwd: Option<&str>, fallback: String, pwd_is_dir: bool) -> (out: String)
    ensures
        out@ == match pwd {
            Some(p) => if is_absolute(p@) && pwd_is_dir {
                p@
            } else {
                fallback@
            },
            None => fallback@,
        },
{
    match pwd {
        Some(p) => {
            if is_absolute_path(p) && pwd_is_dir {
                string_from(p)
            } else {
                fallback
            }
        },
        None => fallback,
    }
}

// ---------------------------------------------------------------------------
// The context of a portal inside a repository
// ---------------------------------------------------------------------------

/// Context for resolving a portal that lives inside a git repository.
pub struct PortalContext {
    pub worktrees: Vec<String>,
    pub main_worktree: String,
    pub current_worktree: Option<String>,
    pub relative_path: String,
}

/// The first of the worktrees that `cwd` lies in.
pub open spec fn first_containing(wts: Seq<Seq<char>>, cwd: Seq<char>) -> Option<Seq<char>>
    decreases wts.len(),
{
    if wts.len() == 0 {
        None
    } else if path_starts_with(cwd, wts[0]) {
        Some(wts[0])
    } else {
        first_containing(wts.drop_first(), cwd)
    }
}

/// The main worktree: the first one git lists, else the top-level directory.
pub open spec fn main_worktree_of(wts: Seq<Seq<char>>, toplevel: Seq<char>) -> Seq<char> {
    if wts.len() > 0 {
        wts[0]
    } else {
        toplevel
    }
}

/// Where the portal lies below the repository's top level: what is left of
/// `path` below `toplevel`, or nothing.
pub open spec fn relative_within(path: Seq<char>, toplevel: Seq<char>) -> Seq<char> {
    match path_strip_prefix(path, toplevel) {
        Some(r) => r,
        None => Seq::empty(),
    }
}

/// Where `path` lies below `toplevel`, or the empty string when it does not.
pub fn relative_path_within(path: &str, toplevel: &str) -> (out: String)
    ensures
        out@ == relative_within(path@, toplevel@),
{
    match strip_path_prefix(path, toplevel) {
        Some(r) => r,
        None => String::new(),
    }
}

/// The first of `worktrees` that `cwd` lies in.
pub fn containing_worktree(worktrees: &Vec<String>, cwd: &str) -> (out: Option<String>)
    ensures
        match out {
            Some(w) => first_containing(string_views(worktrees@), cwd@) == Some(w@),
            None => first_containing(string_views(worktrees@), cwd@) is None,
        },
{
    let ghost wv = string_views(worktrees@);
    let mut i: usize = 0;
    assert(wv.skip(0) =~= wv);
    while i < worktrees.len()
        invariant
            i <= worktrees.len(),
            wv == string_views(worktrees@),
            first_containing(wv, cwd@) == first_containing(wv.skip(i as int), cwd@),
        decreases worktrees.len() - i,
    {
        assert(wv.skip(i as int).drop_first() =~= wv.skip(i + 1));
        assert(wv.skip(i as int)[0] == worktrees@[i as int]@);
        if path_starts_with_exec(cwd, worktrees[i].as_str()) {
            return Some(worktrees[i].clone());
        }
        i = i + 1;
    }
    None
}

impl PortalContext {
    /// The context from what was learnt of the repository: the worktrees git
    /// lists, its top-level directory, the working directory if known, and
    /// where the portal lies below the top level.
    pub fn from_parts(
        worktrees: Vec<String>,
        toplevel: &str,
        cwd: Option<&str>,
        relative_path: String,
    ) -> (ctx: PortalContext)
        ensures
            string_views(ctx.worktrees@) == string_views(worktrees@),
            ctx.main_worktree@ == main_worktree_of(string_views(worktrees@), toplevel@),
            match cwd {
                Some(c) => match ctx.current_worktree {
                    Some(w) => first_containing(string_views(worktrees@), c@) == Some(w@),
                    None => first_containing(string_views(worktrees@), c@) is None,
                },
                None => ctx.current_worktree is None,
            },
            ctx.relative_path@ == relative_path@,
    {
        let main = if worktrees.len() > 0 {
            worktrees[0].clone()
        } else {
            string_from(toplevel)
        };
        let current = match cwd {
            Some(c) => containing_worktree(&worktrees, c),
            None => None,
        };
        PortalContext {
            worktrees,
            main_worktree: main,
            current_worktree: current,
            relative_path,
        }
    }
}

// ---------------------------------------------------------------------------
// Ordering worktrees for the picker
// ---------------------------------------------------------------------------

/// A worktree with what the picker shows of it.
pub struct WorktreeInfo {
    pub path: String,
    pub is_main: bool,
    pub is_current: bool,
}

/// A worktree's path, whether it is the main one, whether it is the current
/// one.
pub type InfoView = (Seq<char>, bool, bool);

pub open spec fn info_views(v: Seq<WorktreeInfo>) -> Seq<InfoView> {
    v.map_values(|w: WorktreeInfo| (w.path@, w.is_main, w.is_current))
}

/// Some entry of `r` is the path `p`, compared as paths.
pub open spec fn listed(r: Seq<InfoView>, p: Seq<char>) -> bool {
    exists|i: int| 0 <= i < r.len() && path_eq(#[trigger] r[i].0, p)
}

/// `p` is one of `wts`, compared as paths.
pub open spec fn among(wts: Seq<Seq<char>>, p: Seq<char>) -> bool {
    exists|i: int| 0 <= i < wts.len() && path_eq(#[trigger] wts[i], p)
}

/// The current worktree if it is one of the worktrees, then the main one
/// unless it is the current one.
pub open spec fn picker_head(wts: Seq<Seq<char>>, main: Seq<char>, current: Option<Seq<char>>) -> Seq<
    InfoView,
> {
    let first: Seq<InfoView> = match current {
        Some(c) => if among(wts, c) {
            seq![(c, path_eq(c, main), true)]
        } else {
            Seq::empty()
        },
        None => Seq::empty(),
    };
    if listed(first, main) {
        first
    } else {
        first.push((main, true, false))
    }
}

/// `r` followed by each of `wts` not listed yet, in order.
pub open spec fn append_unlisted(r: Seq<InfoView>, wts: Seq<Seq<char>>) -> Seq<InfoView>
    decreases wts.len(),
{
    if wts.len() == 0 {
        r
    } else {
        let r2 = append_unlisted(r, wts.drop_last());
        if listed(r2, wts.last()) {
            r2
        } else {
            r2.push((wts.last(), false, false))
        }
    }
}

/// The picker's order: the current worktree first, then the main one, then
/// the rest in the order git lists them (creation order), each path once.
pub open spec fn picker_order(wts: Seq<Seq<char>>, main: Seq<char>, current: Option<Seq<char>>) -> Seq<
    InfoView,
> {
    append_unlisted(picker_head(wts, main, current), wts)
}

fn is_listed(r: &Vec<WorktreeInfo>, p: &str) -> (b: bool)
    ensures
        b == listed(info_views(r@), p@),
{
    let ghost rv = info_views(r@);
    let mut i: usize = 0;
    while i < r.len()
        invariant
            i <= r.len(),
            rv == info_views(r@),
            forall|j: int| 0 <= j < i ==> !path_eq(#[trigger] rv[j].0, p@),
        decreases r.len() - i,
    {
        if paths_equal(r[i].path.as_str(), p) {
            assert(path_eq(rv[i as int].0, p@));
            return true;
        }
        i = i + 1;
    }
    false
}

fn is_among(wts: &Vec<String>, p: &str) -> (b: bool)
    ensures
        b == among(string_views(wts@), p@),
{
    let ghost wv = string_views(wts@);
    let mut i: usize = 0;
    while i < wts.len()
        invariant
            i <= wts.len(),
            wv == string_views(wts@),
            forall|j: int| 0 <= j < i ==> !path_eq(#[trigger] wv[j], p@),
        decreases wts.len() - i,
    {
        if paths_equal(wts[i].as_str(), p) {
            assert(path_eq(wv[i as int], p@));
            return true;
        }
        i = i + 1;
    }
    false
}

/// The worktrees in the picker's order: the current one first (if it is one
/// of them), then the main one, then the rest in creation order; paths are
/// compared as paths, and each appears once.
pub fn sorted_worktrees(
    worktrees: &Vec<String>,
    main_worktree: &str,
    current_worktree: Option<&str>,
) -> (out: Vec<WorktreeInfo>)
    ensures
        info_views(out@) == picker_order(string_views(worktrees@), main_worktree@, match current_worktree {
            Some(c) => Some(c@),
            None => None,
        }),
{
    let ghost wv = string_views(worktrees@);
    let ghost cur = match current_worktree {
        Some(c) => Some(c@),
        None => None,
    };
    let mut result: Vec<WorktreeInfo> = Vec::new();
    let ghost first: Seq<InfoView> = match cur {
        Some(c) => if among(wv, c) {
            seq![(c, path_eq(c, main_worktree@), true)]
        } else {
            Seq::empty()
        },
        None => Seq::empty(),
    };
    match current_worktree {
        Some(current) => {
            if is_among(worktrees, current) {
                let is_main = paths_equal(current, main_worktree);
                result.push(WorktreeInfo { path: string_from(current), is_main, is_current: true });
            }
        },
        None => {},
    }
    assert(info_views(result@) =~= first);
    if !is_listed(&result, main_worktree) {
        let ghost before = info_views(result@);
        result.push(WorktreeInfo { path: string_from(main_worktree), is_main: true, is_current: false });
        assert(info_views(result@) =~= before.push((main_worktree@, true, false)));
    }
    let ghost head = info_views(result@);
    assert(head == picker_head(wv, main_worktree@, cur));
    let mut i: usize = 0;
    assert(wv.take(0) =~= Seq::<Seq<char>>::empty());
    while i < worktrees.len()
        invariant
            i <= worktrees.len(),
            wv == string_views(worktrees@),
            info_views(result@) == append_unlisted(head, wv.take(i as int)),
        decreases worktrees.len() - i,
    {
        assert(wv.take(i + 1).drop_last() =~= wv.take(i as int));
        assert(wv.take(i + 1).last() == worktrees@[i as int]@);
        if !is_listed(&result, worktrees[i].as_str()) {
            let ghost before = info_views(result@);
            result.push(WorktreeInfo { path: worktrees[i].clone(), is_main: false, is_current: false });
            assert(info_views(result@) =~= before.push((worktrees@[i as int]@, false, false)));
        }
        i = i + 1;
    }
    assert(wv.take(worktrees.len() as int) =~= wv);
    result
}

// ---------------------------------------------------------------------------
// Laws of the picker's order
// ---------------------------------------------------------------------------

/// No two entries are the same path.
pub open spec fn distinct_paths(r: Seq<InfoView>) -> bool {
    forall|a: int, b: int| #![trigger r[a], r[b]] 0 <= a < b < r.len() ==> !path_eq(r[a].0, r[b].0)
}

proof fn lemma_append_unlisted(r: Seq<InfoView>, wts: Seq<Seq<char>>)
    requires
        distinct_paths(r),
    ensures
        distinct_paths(append_unlisted(r, wts)),
        append_unlisted(r, wts).len() >= r.len(),
        forall|i: int| 0 <= i < r.len() ==> #[trigger] append_unlisted(r, wts)[i] == r[i],
        forall|i: int|
            r.len() <= i < append_unlisted(r, wts).len() ==> {
                let e = #[trigger] append_unlisted(r, wts)[i];
                &&& !e.1 && !e.2
                &&& !listed(r, e.0)
                &&& exists|j: int| 0 <= j < wts.len() && wts[j] == e.0
            },
        forall|j: int| 0 <= j < wts.len() ==> listed(append_unlisted(r, wts), #[trigger] wts[j]),
    decreases wts.len(),
{
    if wts.len() == 0 {
        return;
    }
    let d = wts.drop_last();
    let w = wts.last();
    lemma_append_unlisted(r, d);
    let r2 = append_unlisted(r, d);
    let out = append_unlisted(r, wts);
    assert forall|j: int| 0 <= j < d.len() implies listed(r2, #[trigger] d[j]) by {}
    if listed(r2, w) {
        assert(out == r2);
        assert forall|i: int| r.len() <= i < out.len() implies exists|j: int|
            0 <= j < wts.len() && wts[j] == #[trigger] out[i].0 by {
            let j = choose|j: int| 0 <= j < d.len() && d[j] == r2[i].0;
            assert(wts[j] == d[j]);
        }
        assert forall|j: int| 0 <= j < wts.len() implies listed(out, #[trigger] wts[j]) by {
            if j < d.len() {
                assert(wts[j] == d[j]);
            }
        }
    } else {
        assert(out == r2.push((w, false, false)));
        let n = r2.len() as int;
        assert forall|a: int, b: int| #![trigger out[a], out[b]] 0 <= a < b < out.len() implies !path_eq(
            out[a].0,
            out[b].0,
        ) by {
            assert(out[a] == r2[a]);
            if b < n {
                assert(out[b] == r2[b]);
            } else {
                assert(out[b].0 == w);
                if path_eq(r2[a].0, w) {
                    assert(listed(r2, w));
                }
            }
        }
        assert forall|i: int| 0 <= i < r.len() implies #[trigger] out[i] == r[i] by {
            assert(out[i] == r2[i]);
        }
        assert forall|i: int| r.len() <= i < out.len() implies {
            let e = #[trigger] out[i];
            &&& !e.1 && !e.2
            &&& !listed(r, e.0)
            &&& exists|j: int| 0 <= j < wts.len() && wts[j] == e.0
        } by {
            if i < n {
                assert(out[i] == r2[i]);
                let j = choose|j: int| 0 <= j < d.len() && d[j] == r2[i].0;
                assert(wts[j] == d[j]);
            } else {
                assert(out[i] == (w, false, false));
                assert(wts[wts.len() - 1] == w);
                if listed(r, w) {
                    let a = choose|a: int| 0 <= a < r.len() && path_eq(#[trigger] r[a].0, w);
                    assert(r2[a] == r[a]);
                    assert(listed(r2, w));
                }
            }
        }
        assert forall|j: int| 0 <= j < wts.len() implies listed(out, #[trigger] wts[j]) by {
            if j < d.len() {
                assert(wts[j] == d[j]);
                let a = choose|a: int| 0 <= a < r2.len() && path_eq(#[trigger] r2[a].0, d[j]);
                assert(out[a] == r2[a]);
            } else {
                assert(out[n].0 == w);
            }
        }
    }
}

/// Law of the picker's order: no path appears twice; every worktree appears,
/// and so does the main worktree; the current worktree, when it is one of the
/// worktrees, comes first and is the only one marked current; exactly the
/// entries for the main worktree's path are marked main; every entry is the
/// current worktree, the main one, or one of the worktrees.
pub proof fn law_picker_order(wts: Seq<Seq<char>>, main: Seq<char>, current: Option<Seq<char>>)
    ensures
        ({
            let r = picker_order(wts, main, current);
            &&& distinct_paths(r)
            &&& forall|j: int| 0 <= j < wts.len() ==> listed(r, #[trigger] wts[j])
            &&& listed(r, main)
            &&& current matches Some(c) ==> (among(wts, c) ==> r.len() > 0 && r[0] == (
                c,
                path_eq(c, main),
                true,
            ))
            &&& forall|i: int| 0 < i < r.len() ==> !(#[trigger] r[i]).2
            &&& forall|i: int| 0 <= i < r.len() ==> ((#[trigger] r[i]).1 <==> path_eq(r[i].0, main))
            &&& forall|i: int|
                0 <= i < r.len() ==> (current == Some((#[trigger] r[i]).0) || r[i].0 == main
                    || exists|j: int| 0 <= j < wts.len() && wts[j] == r[i].0)
        }),
{
    let head = picker_head(wts, main, current);
    let first: Seq<InfoView> = match current {
        Some(c) => if among(wts, c) {
            seq![(c, path_eq(c, main), true)]
        } else {
            Seq::empty()
        },
        None => Seq::empty(),
    };
    assert(distinct_paths(head)) by {
        if !listed(first, main) && first.len() == 1 {
            assert(head[1].0 == main);
            if path_eq(head[0].0, main) {
                assert(listed(first, main));
            }
        }
    }
    assert(listed(head, main)) by {
        if !listed(first, main) {
            assert(head[head.len() - 1].0 == main);
        } else {
            let a = choose|a: int| 0 <= a < first.len() && path_eq(#[trigger] first[a].0, main);
            assert(head[a] == first[a]);
        }
    }
    assert forall|i: int| 0 <= i < head.len() implies ((#[trigger] head[i]).1 <==> path_eq(
        head[i].0,
        main,
    )) by {}
    lemma_append_unlisted(head, wts);
    let r = picker_order(wts, main, current);
    assert(listed(r, main)) by {
        let a = choose|a: int| 0 <= a < head.len() && path_eq(#[trigger] head[a].0, main);
        assert(r[a] == head[a]);
    }
    assert forall|i: int| 0 <= i < r.len() implies ((#[trigger] r[i]).1 <==> path_eq(r[i].0, main)) by {
        if i < head.len() {
            assert(r[i] == head[i]);
        } else {
            assert(!listed(head, r[i].0));
            if path_eq(r[i].0, main) {
                let a = choose|a: int| 0 <= a < head.len() && path_eq(#[trigger] head[a].0, main);
                assert(path_eq(head[a].0, r[i].0));
            }
        }
    }
    assert forall|i: int| 0 < i < r.len() implies !(#[trigger] r[i]).2 by {
        if i < head.len() {
            assert(r[i] == head[i]);
        }
    }
    assert forall|i: int| 0 <= i < r.len() implies (current == Some((#[trigger] r[i]).0) || r[i].0
        == main || exists|j: int| 0 <= j < wts.len() && wts[j] == r[i].0) by {
        if i < head.len() {
            assert(r[i] == head[i]);
        }
    }
    match current {
        Some(c) => {
            if among(wts, c) {
                assert(r[0] == head[0]);
            }
        },
        None => {},
    }
}

/// The entries appended after `r` come in the order of `wts`: each is some
/// `wts[j]`, with increasing `j`.
proof fn lemma_append_unlisted_order(r: Seq<InfoView>, wts: Seq<Seq<char>>)
    requires
        distinct_paths(r),
    ensures
        forall|a: int, b: int|
            #![trigger append_unlisted(r, wts)[a], append_unlisted(r, wts)[b]]
            r.len() <= a < b < append_unlisted(r, wts).len() ==> exists|ja: int, jb: int|
                0 <= ja < jb < wts.len() && wts[ja] == append_unlisted(r, wts)[a].0 && wts[jb]
                    == append_unlisted(r, wts)[b].0,
    decreases wts.len(),
{
    if wts.len() == 0 {
        return;
    }
    let d = wts.drop_last();
    let w = wts.last();
    lemma_append_unlisted_order(r, d);
    lemma_append_unlisted(r, d);
    let r2 = append_unlisted(r, d);
    let out = append_unlisted(r, wts);
    let n = r2.len() as int;
    assert forall|a: int, b: int|
        #![trigger out[a], out[b]]
        r.len() <= a < b < out.len() implies exists|ja: int, jb: int|
            0 <= ja < jb < wts.len() && wts[ja] == out[a].0 && wts[jb] == out[b].0 by {
        if b < n {
            assert(out[a] == r2[a] && out[b] == r2[b]);
            let (ja, jb) = choose|ja: int, jb: int|
                0 <= ja < jb < d.len() && d[ja] == r2[a].0 && d[jb] == r2[b].0;
            assert(wts[ja] == d[ja] && wts[jb] == d[jb]);
        } else {
            assert(out == r2.push((w, false, false)));
            assert(out[a] == r2[a]);
            assert(out[b].0 == w);
            let ja = choose|j: int| 0 <= j < d.len() && d[j] == r2[a].0;
            assert(wts[ja] == d[ja]);
            assert(wts[wts.len() - 1] == w);
        }
    }
}

/// Law of the picker's order: after the current and the main worktree (the
/// entries marked current or main), the other worktrees come in the order
/// git lists them, that is in creation order.
pub proof fn law_picker_rest_in_list_order(
    wts: Seq<Seq<char>>,
    main: Seq<char>,
    current: Option<Seq<char>>,
)
    ensures
        ({
            let r = picker_order(wts, main, current);
            forall|a: int, b: int|
                #![trigger r[a], r[b]]
                0 <= a < b < r.len() && !r[a].1 && !r[a].2 && !r[b].1 && !r[b].2 ==> exists|
                    ja: int,
                    jb: int,
                | 0 <= ja < jb < wts.len() && wts[ja] == r[a].0 && wts[jb] == r[b].0
        }),
{
    let head = picker_head(wts, main, current);
    let first: Seq<InfoView> = match current {
        Some(c) => if among(wts, c) {
            seq![(c, path_eq(c, main), true)]
        } else {
            Seq::empty()
        },
        None => Seq::empty(),
    };
    assert(distinct_paths(head)) by {
        if !listed(first, main) && first.len() == 1 {
            assert(head[1].0 == main);
            if path_eq(head[0].0, main) {
                assert(listed(first, main));
            }
        }
    }
    assert forall|i: int| 0 <= i < head.len() implies (#[trigger] head[i]).1 || head[i].2 by {}
    lemma_append_unlisted(head, wts);
    lemma_append_unlisted_order(head, wts);
    let r = picker_order(wts, main, current);
    assert forall|a: int, b: int|
        #![trigger r[a], r[b]]
        0 <= a < b < r.len() && !r[a].1 && !r[a].2 && !r[b].1 && !r[b].2 implies exists|
            ja: int,
            jb: int,
        | 0 <= ja < jb < wts.len() && wts[ja] == r[a].0 && wts[jb] == r[b].0 by {
        if a < head.len() {
            assert(r[a] == head[a]);
            assert(head[a].1 || head[a].2);
        }
    }
}

/// A path lies at or below itself, and below any path equal to it.
pub proof fn lemma_path_eq_starts_with(p: Seq<char>, b: Seq<char>)
    requires
        path_eq(p, b),
    ensures
        path_starts_with(p, b),
{
    let pc = path_components(p);
    assert(pc.take(pc.len() as int) =~= pc);
}

/// Law of the current worktree: the one found is the first worktree the
/// directory lies at or below, and none is found when it lies in none; in
/// particular a directory equal to a worktree, and in no earlier one, is in
/// that worktree.
pub proof fn law_first_containing(wts: Seq<Seq<char>>, cwd: Seq<char>)
    ensures
        first_containing(wts, cwd) matches Some(w) ==> exists|i: int|
            0 <= i < wts.len() && wts[i] == w && path_starts_with(cwd, w) && forall|j: int|
                0 <= j < i ==> !path_starts_with(cwd, #[trigger] wts[j]),
        first_containing(wts, cwd) is None <==> forall|j: int|
            0 <= j < wts.len() ==> !path_starts_with(cwd, #[trigger] wts[j]),
        forall|i: int|
            0 <= i < wts.len() && path_eq(cwd, #[trigger] wts[i]) && (forall|j: int|
                0 <= j < i ==> !path_starts_with(cwd, #[trigger] wts[j])) ==> first_containing(
                wts,
                cwd,
            ) == Some(wts[i]),
    decreases wts.len(),
{
    if wts.len() == 0 {
        return;
    }
    let rest = wts.drop_first();
    law_first_containing(rest, cwd);
    assert forall|i: int|
        0 <= i < wts.len() && path_eq(cwd, #[trigger] wts[i]) && (forall|j: int|
            0 <= j < i ==> !path_starts_with(cwd, #[trigger] wts[j])) implies first_containing(
        wts,
        cwd,
    ) == Some(wts[i]) by {
        lemma_path_eq_starts_with(cwd, wts[i]);
        if i > 0 {
            assert(!path_starts_with(cwd, wts[0]));
            assert(rest[i - 1] == wts[i]);
            assert forall|j: int| 0 <= j < i - 1 implies !path_starts_with(cwd, #[trigger] rest[j]) by {
                assert(rest[j] == wts[j + 1]);
            }
        }
    }
    if path_starts_with(cwd, wts[0]) {
    } else {
        match first_containing(rest, cwd) {
            Some(w) => {
                let i = choose|i: int|
                    0 <= i < rest.len() && rest[i] == w && path_starts_with(cwd, w) && forall|j: int|
                        0 <= j < i ==> !path_starts_with(cwd, #[trigger] rest[j]);
                assert(wts[i + 1] == w);
                assert forall|j: int| 0 <= j < i + 1 implies !path_starts_with(cwd, #[trigger] wts[j]) by {
                    if j > 0 {
                        assert(wts[j] == rest[j - 1]);
                    }
                }
            },
            None => {
                assert forall|j: int| 0 <= j < wts.len() implies !path_starts_with(cwd, #[trigger] wts[j]) by {
                    if j > 0 {
                        assert(wts[j] == rest[j - 1]);
                    }
                }
            },
        }
    }
    if first_containing(wts, cwd) is None {
    } else {
        assert(!forall|j: int| 0 <= j < wts.len() ==> !path_starts_with(cwd, #[trigger] wts[j])) by {
            if path_starts_with(cwd, wts[0]) {
            } else {
                let w = first_containing(rest, cwd)->0;
                let i = choose|i: int|
                    0 <= i < rest.len() && rest[i] == w && path_starts_with(cwd, w) && forall|j: int|
                        0 <= j < i ==> !path_starts_with(cwd, #[trigger] rest[j]);
                assert(wts[i + 1] == rest[i]);
            }
        }
    }
}

} // verus!
