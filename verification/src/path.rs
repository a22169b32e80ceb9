//! Unix paths as strings: their components, joining, and the `~` shorthand for
//! the home directory.

use vstd::prelude::*;
use crate::text::{
    chars_eq, chars_of, lemma_split_on_concat, lemma_split_on_nonempty, lemma_split_on_pieces,
    lemma_split_on_single, push_char, push_chars, split_chars, split_on, starts_with, string_from,
    string_of,
};

verus! {

/// The views of a vector of character vectors.
pub open spec fn views(v: Seq<Vec<char>>) -> Seq<Seq<char>> {
    v.map_values(|p: Vec<char>| p@)
}

/// `"/"`, which stands for the root component.
pub open spec fn root_component() -> Seq<char> {
    seq!['/']
}

/// `"."`, which stands for a leading current-directory component.
pub open spec fn cur_dir_component() -> Seq<char> {
    seq!['.']
}

/// A piece between separators that names a component of its own: neither
/// empty nor `.`.
pub open spec fn is_named_piece(p: Seq<char>) -> bool {
    p.len() > 0 && p != cur_dir_component()
}

/// The named pieces among `pieces`, in order.
pub open spec fn named_pieces(pieces: Seq<Seq<char>>) -> Seq<Seq<char>>
    decreases pieces.len(),
{
    if pieces.len() == 0 {
        Seq::empty()
    } else {
        let r = named_pieces(pieces.drop_last());
        if is_named_piece(pieces.last()) {
            r.push(pieces.last())
        } else {
            r
        }
    }
}

/// The path starts at the root.
pub open spec fn is_absolute(s: Seq<char>) -> bool {
    s.len() > 0 && s[0] == '/'
}

/// The components of a path, as `Path::components` yields them on Unix: the
/// root (written `/`) if the path is absolute, else a current-directory marker
/// (written `.`) if the path begins with the piece `.`; then every piece
/// between separators that is neither empty nor `.`.
pub open spec fn path_components(s: Seq<char>) -> Seq<Seq<char>> {
    let pieces = split_on(s, '/');
    let lead: Seq<Seq<char>> = if is_absolute(s) {
        seq![root_component()]
    } else if pieces[0] == cur_dir_component() {
        seq![cur_dir_component()]
    } else {
        Seq::empty()
    };
    lead + named_pieces(pieces)
}

/// Two paths are equal as `Path`s: they have the same components.
pub open spec fn path_eq(a: Seq<char>, b: Seq<char>) -> bool {
    path_components(a) == path_components(b)
}

/// `p` lies at or below `base`, component by component (`Path::starts_with`).
pub open spec fn path_starts_with(p: Seq<char>, base: Seq<char>) -> bool {
    let pc = path_components(p);
    let bc = path_components(base);
    bc.len() <= pc.len() && pc.take(bc.len() as int) == bc
}

/// The pieces joined with `/` between them.
pub open spec fn join_pieces(pieces: Seq<Seq<char>>) -> Seq<char>
    decreases pieces.len(),
{
    if pieces.len() == 0 {
        Seq::empty()
    } else if pieces.len() == 1 {
        pieces[0]
    } else {
        join_pieces(pieces.drop_last()) + seq!['/'] + pieces.last()
    }
}

/// The pieces after the first `n` named ones (all of them when `n` is 0).
pub open spec fn drop_named(pieces: Seq<Seq<char>>, n: nat) -> Seq<Seq<char>>
    decreases pieces.len(),
{
    if n == 0 || pieces.len() == 0 {
        if n == 0 {
            pieces
        } else {
            Seq::empty()
        }
    } else if is_named_piece(pieces[0]) {
        drop_named(pieces.drop_first(), (n - 1) as nat)
    } else {
        drop_named(pieces.drop_first(), n)
    }
}

/// The pieces without the empty and `.` ones they start with.
pub open spec fn trim_front(pieces: Seq<Seq<char>>) -> Seq<Seq<char>>
    decreases pieces.len(),
{
    if pieces.len() > 0 && !is_named_piece(pieces[0]) {
        trim_front(pieces.drop_first())
    } else {
        pieces
    }
}

/// The pieces without the empty and `.` ones they end with.
pub open spec fn trim_back(pieces: Seq<Seq<char>>) -> Seq<Seq<char>>
    decreases pieces.len(),
{
    if pieces.len() > 0 && !is_named_piece(pieces.last()) {
        trim_back(pieces.drop_last())
    } else {
        pieces
    }
}

/// Whether the path has a leading component (the root, or a leading `.`).
pub open spec fn has_lead(s: Seq<char>) -> bool {
    is_absolute(s) || split_on(s, '/')[0] == cur_dir_component()
}

/// The path as a full component iterator gives it back (`Components::as_path`
/// before any component is taken): the path without the empty and `.`
/// pieces it ends with, its leading root or `.` kept.
pub open spec fn whole_path_trimmed(s: Seq<char>) -> Seq<char> {
    let pieces = split_on(s, '/');
    if is_absolute(s) {
        seq!['/'] + join_pieces(trim_back(pieces.drop_first()))
    } else if pieces[0] == cur_dir_component() {
        join_pieces(seq![cur_dir_component()] + trim_back(pieces.drop_first()))
    } else {
        join_pieces(trim_back(pieces))
    }
}

/// What is left of `p` below `base` (`Path::strip_prefix`): the text of `p`
/// after its first components, those of `base`, as it stands, without the
/// empty and `.` pieces at either end; `None` when `p` does not lie at or
/// below `base`.
pub open spec fn path_strip_prefix(p: Seq<char>, base: Seq<char>) -> Option<Seq<char>> {
    if path_starts_with(p, base) {
        let k = path_components(base).len();
        if k == 0 {
            Some(whole_path_trimmed(p))
        } else {
            let lead: nat = if has_lead(p) {
                1
            } else {
                0
            };
            Some(join_pieces(trim_back(trim_front(drop_named(split_on(p, '/'), (k - lead) as nat)))))
        }
    } else {
        None
    }
}

/// `base` extended by `rest` (`PathBuf::push`): an absolute `rest` replaces
/// `base`; otherwise a separator is put between them unless `base` is empty
/// or already ends with one.
pub open spec fn join_path(base: Seq<char>, rest: Seq<char>) -> Seq<char> {
    if is_absolute(rest) {
        rest
    } else if base.len() == 0 || base.last() == '/' {
        base + rest
    } else {
        base + seq!['/'] + rest
    }
}

/// The final component of a path if it is a name (`Path::file_name`): not
/// the root, not a leading `.`, not `..`.
pub open spec fn file_name(s: Seq<char>) -> Option<Seq<char>> {
    let cs = path_components(s);
    if cs.len() > 0 && cs.last() != root_component() && cs.last() != cur_dir_component()
        && cs.last() != seq!['.', '.'] {
        Some(cs.last())
    } else {
        None
    }
}

fn copy_chars(v: &Vec<char>) -> (out: Vec<char>)
    ensures
        out@ == v@,
{
    let mut out: Vec<char> = Vec::new();
    let mut i: usize = 0;
    while i < v.len()
        invariant
            i <= v.len(),
            out@ == v@.take(i as int),
        decreases v.len() - i,
    {
        out.push(v[i]);
        assert(v@.take(i + 1) =~= v@.take(i as int).push(v@[i as int]));
        i = i + 1;
    }
    assert(v@.take(v.len() as int) =~= v@);
    out
}

fn is_named_piece_exec(p: &Vec<char>) -> (r: bool)
    ensures
        r == is_named_piece(p@),
{
    if p.len() == 0 {
        false
    } else if p.len() == 1 && p[0] == '.' {
        assert(p@ =~= cur_dir_component());
        false
    } else {
        assert(p@.len() != 1 || p@[0] != '.');
        true
    }
}

/// The components of the path `s`.
pub fn components_of(s: &str) -> (out: Vec<Vec<char>>)
    ensures
        views(out@) == path_components(s@),
{
    let cs = chars_of(s);
    let pieces = split_chars(&cs, '/');
    proof {
        lemma_split_on_nonempty(cs@, '/');
    }
    let ghost pv = views(pieces@);
    let mut out: Vec<Vec<char>> = Vec::new();
    let ghost lead: Seq<Seq<char>> = if is_absolute(s@) {
        seq![root_component()]
    } else if pv[0] == cur_dir_component() {
        seq![cur_dir_component()]
    } else {
        Seq::empty()
    };
    if cs.len() > 0 && cs[0] == '/' {
        let root = vec!['/'];
        assert(root@ =~= root_component());
        out.push(root);
        assert(views(out@) =~= lead);
    } else if pieces[0].len() == 1 && pieces[0][0] == '.' {
        assert(pieces@[0]@ =~= cur_dir_component());
        let cur = vec!['.'];
        assert(cur@ =~= cur_dir_component());
        out.push(cur);
        assert(views(out@) =~= lead);
    } else {
        assert(pv[0] != cur_dir_component()) by {
            if pv[0] == cur_dir_component() {
                assert(pieces@[0]@.len() == 1);
            }
        }
        assert(views(out@) =~= lead);
    }
    assert(views(out@) =~= lead + named_pieces(pv.take(0)));
    let mut i: usize = 0;
    while i < pieces.len()
        invariant
            i <= pieces.len(),
            pv == views(pieces@),
            views(out@) == lead + named_pieces(pv.take(i as int)),
        decreases pieces.len() - i,
    {
        let ghost t = pv.take(i + 1);
        assert(t.drop_last() =~= pv.take(i as int));
        assert(t.last() == pieces@[i as int]@);
        if is_named_piece_exec(&pieces[i]) {
            let p = copy_chars(&pieces[i]);
            assert(named_pieces(t) == named_pieces(pv.take(i as int)).push(p@));
            let ghost before = views(out@);
            let ghost pp = p@;
            out.push(p);
            assert(views(out@) =~= before.push(pp));
            assert(views(out@) =~= lead + named_pieces(t));
        } else {
            assert(named_pieces(t) == named_pieces(pv.take(i as int)));
        }
        i = i + 1;
    }
    assert(pv.take(pieces.len() as int) =~= pv);
    assert(views(out@) =~= path_components(s@));
    out
}

fn component_lists_eq(a: &Vec<Vec<char>>, b: &Vec<Vec<char>>, n: usize) -> (r: bool)
    requires
        n <= a.len(),
        n <= b.len(),
    ensures
        r == (views(a@).take(n as int) == views(b@).take(n as int)),
{
    let mut i: usize = 0;
    while i < n
        invariant
            n <= a.len(),
            n <= b.len(),
            i <= n,
            views(a@).take(i as int) == views(b@).take(i as int),
        decreases n - i,
    {
        if !chars_eq(&a[i], &b[i]) {
            assert(views(a@).take(n as int)[i as int] != views(b@).take(n as int)[i as int]);
            return false;
        }
        assert(views(a@).take(i + 1) =~= views(a@).take(i as int).push(a@[i as int]@));
        assert(views(b@).take(i + 1) =~= views(b@).take(i as int).push(b@[i as int]@));
        i = i + 1;
    }
    true
}

/// Whether two paths are equal as `Path`s (`Path == Path`).
pub fn paths_equal(a: &str, b: &str) -> (r: bool)
    ensures
        r == path_eq(a@, b@),
{
    let ca = components_of(a);
    let cb = components_of(b);
    if ca.len() != cb.len() {
        return false;
    }
    let r = component_lists_eq(&ca, &cb, ca.len());
    assert(views(ca@).take(ca.len() as int) =~= views(ca@));
    assert(views(cb@).take(cb.len() as int) =~= views(cb@));
    r
}

/// Whether `p` lies at or below `base` (`Path::starts_with`).
pub fn path_starts_with_exec(p: &str, base: &str) -> (r: bool)
    ensures
        r == path_starts_with(p@, base@),
{
    let pc = components_of(p);
    let bc = components_of(base);
    if bc.len() > pc.len() {
        return false;
    }
    let r = component_lists_eq(&pc, &bc, bc.len());
    assert(views(bc@).take(bc.len() as int) =~= views(bc@));
    r
}

fn push_joined(out: &mut String, pieces: &Vec<Vec<char>>, from: usize, to: usize)
    requires
        from <= to <= pieces.len(),
    ensures
        final(out)@ == old(out)@ + join_pieces(views(pieces@).subrange(from as int, to as int)),
{
    let ghost start = old(out)@;
    let ghost pv = views(pieces@);
    let mut i: usize = from;
    assert(pv.subrange(from as int, from as int) =~= Seq::<Seq<char>>::empty());
    while i < to
        invariant
            from <= i <= to,
            to <= pieces.len(),
            pv == views(pieces@),
            out@ == start + join_pieces(pv.subrange(from as int, i as int)),
        decreases to - i,
    {
        let ghost done = pv.subrange(from as int, i as int);
        let ghost next = pv.subrange(from as int, i + 1);
        assert(next.drop_last() =~= done);
        if i > from {
            push_char(out, '/');
        } else {
            assert(next =~= seq![pieces@[i as int]@]);
        }
        push_chars(out, &pieces[i]);
        assert(out@ =~= start + join_pieces(next));
        i = i + 1;
    }
}

/// What is left of `p` below `base` (`Path::strip_prefix`), or `None`.
pub fn strip_path_prefix(p: &str, base: &str) -> (r: Option<String>)
    ensures
        r matches Some(x) ==> path_strip_prefix(p@, base@) == Some(x@),
        r is None ==> path_strip_prefix(p@, base@) is None,
{
    if !path_starts_with_exec(p, base) {
        return None;
    }
    let bc = components_of(base);
    let k = bc.len();
    let cs = chars_of(p);
    let pieces = split_chars(&cs, '/');
    proof {
        lemma_split_on_nonempty(cs@, '/');
    }
    let ghost pv = views(pieces@);
    let ghost len = pv.len();
    let abs = cs.len() > 0 && cs[0] == '/';
    let dot = pieces[0].len() == 1 && pieces[0][0] == '.';
    proof {
        assert(abs == is_absolute(p@));
        assert(dot == (pv[0] == cur_dir_component())) by {
            if dot {
                assert(pv[0] =~= cur_dir_component());
            }
            if pv[0] == cur_dir_component() {
                assert(pv[0].len() == 1);
            }
        }
    }
    let mut out = String::new();
    if k == 0 {
        let start: usize = if abs || dot {
            1
        } else {
            0
        };
        let mut b = pieces.len();
        while b > start && !is_named_piece_exec(&pieces[b - 1])
            invariant
                start <= b <= pieces.len(),
                pv == views(pieces@),
                trim_back(pv.subrange(start as int, len as int)) == trim_back(
                    pv.subrange(start as int, b as int),
                ),
            decreases b,
        {
            assert(pv.subrange(start as int, b as int).drop_last() =~= pv.subrange(
                start as int,
                b - 1,
            ));
            b = b - 1;
        }
        assert(trim_back(pv.subrange(start as int, b as int)) == pv.subrange(start as int, b as int));
        if abs {
            push_char(&mut out, '/');
            push_joined(&mut out, &pieces, 1, b);
            assert(pv.drop_first() =~= pv.subrange(1, len as int));
            assert(out@ =~= seq!['/'] + join_pieces(pv.subrange(1, b as int)));
        } else {
            push_joined(&mut out, &pieces, 0, b);
            if dot {
                assert(pv.drop_first() =~= pv.subrange(1, len as int));
                assert(pv.subrange(0, b as int) =~= seq![cur_dir_component()] + pv.subrange(
                    1,
                    b as int,
                ));
            } else {
                assert(pv.subrange(0, len as int) =~= pv);
            }
        }
    } else {
        let lead: usize = if abs || dot {
            1
        } else {
            0
        };
        let n = k - lead;
        let mut i: usize = 0;
        let mut count: usize = 0;
        assert(pv.skip(0) =~= pv);
        while count < n && i < pieces.len()
            invariant
                i <= pieces.len(),
                count <= n,
                pv == views(pieces@),
                drop_named(pv, n as nat) == drop_named(pv.skip(i as int), (n - count) as nat),
            decreases pieces.len() - i,
        {
            assert(pv.skip(i as int).drop_first() =~= pv.skip(i + 1));
            assert(pv.skip(i as int)[0] == pv[i as int]);
            if is_named_piece_exec(&pieces[i]) {
                count = count + 1;
            }
            i = i + 1;
        }
        assert(drop_named(pv, n as nat) == pv.skip(i as int)) by {
            if count < n {
                assert(pv.skip(i as int) =~= Seq::<Seq<char>>::empty());
            }
        }
        let mut a = i;
        while a < pieces.len() && !is_named_piece_exec(&pieces[a])
            invariant
                i <= a <= pieces.len(),
                pv == views(pieces@),
                trim_front(pv.skip(i as int)) == trim_front(pv.skip(a as int)),
            decreases pieces.len() - a,
        {
            assert(pv.skip(a as int).drop_first() =~= pv.skip(a + 1));
            assert(pv.skip(a as int)[0] == pv[a as int]);
            a = a + 1;
        }
        assert(trim_front(pv.skip(a as int)) == pv.skip(a as int));
        assert(pv.skip(a as int) =~= pv.subrange(a as int, len as int));
        let mut b = pieces.len();
        while b > a && !is_named_piece_exec(&pieces[b - 1])
            invariant
                a <= b <= pieces.len(),
                pv == views(pieces@),
                trim_back(pv.subrange(a as int, len as int)) == trim_back(
                    pv.subrange(a as int, b as int),
                ),
            decreases b,
        {
            assert(pv.subrange(a as int, b as int).drop_last() =~= pv.subrange(a as int, b - 1));
            b = b - 1;
        }
        assert(trim_back(pv.subrange(a as int, b as int)) == pv.subrange(a as int, b as int));
        push_joined(&mut out, &pieces, a, b);
    }
    Some(out)
}

/// `base` extended by `rest` (`PathBuf::join`).
pub fn join_paths(base: &str, rest: &str) -> (out: String)
    ensures
        out@ == join_path(base@, rest@),
{
    let b = chars_of(base);
    let r = chars_of(rest);
    if r.len() > 0 && r[0] == '/' {
        return string_of(&r);
    }
    let mut out = string_of(&b);
    if b.len() > 0 && b[b.len() - 1] != '/' {
        push_char(&mut out, '/');
    }
    push_chars(&mut out, &r);
    out
}

/// The final component of `path` if it is a name (`Path::file_name`).
pub fn file_name_of(path: &str) -> (r: Option<String>)
    ensures
        r matches Some(x) ==> file_name(path@) == Some(x@),
        r is None ==> file_name(path@) is None,
{
    let cs = components_of(path);
    if cs.len() == 0 {
        return None;
    }
    let last = &cs[cs.len() - 1];
    let is_root = last.len() == 1 && last[0] == '/';
    let is_cur = last.len() == 1 && last[0] == '.';
    let is_parent = last.len() == 2 && last[0] == '.' && last[1] == '.';
    proof {
        let l = views(cs@).last();
        assert(l == last@);
        assert(is_root == (l == root_component())) by {
            if l == root_component() { assert(l.len() == 1); }
            if is_root { assert(l =~= root_component()); }
        }
        assert(is_cur == (l == cur_dir_component())) by {
            if l == cur_dir_component() { assert(l.len() == 1); }
            if is_cur { assert(l =~= cur_dir_component()); }
        }
        assert(is_parent == (l == seq!['.', '.'])) by {
            if l == seq!['.', '.'] { assert(l.len() == 2); }
            if is_parent { assert(l =~= seq!['.', '.']); }
        }
    }
    if is_root || is_cur || is_parent {
        None
    } else {
        Some(string_of(last))
    }
}

/// Whether `path` starts at the root (`Path::is_absolute` on Unix).
pub fn is_absolute_path(path: &str) -> (r: bool)
    ensures
        r == is_absolute(path@),
{
    let cs = chars_of(path);
    cs.len() > 0 && cs[0] == '/'
}

// ---------------------------------------------------------------------------
// The home directory and `~`
// ---------------------------------------------------------------------------

/// `dirs::home_dir`: on Unix, `$HOME` when it is set and not empty, else the
/// home directory of the current user from the password database; `None`
/// when neither gives a non-empty answer. The path is read as UTF-8, with
/// invalid sequences replaced. Nothing is claimed of which directory comes
/// back, only that it is not empty.
#[verifier::external_body]
pub(crate) fn home_dir() -> (h: Option<String>)
    ensures
        h matches Some(x) ==> x@.len() > 0,
{
    dirs::home_dir().map(|p| p.to_string_lossy().into_owned())
}

/// `~/`
pub open spec fn tilde_slash() -> Seq<char> {
    seq!['~', '/']
}

/// `~`
pub open spec fn tilde() -> Seq<char> {
    seq!['~']
}

/// The path needs the home directory to be expanded.
pub open spec fn mentions_home(path: Seq<char>) -> bool {
    starts_with(path, tilde_slash()) || path == tilde()
}

/// `path` with a leading `~/` or a lone `~` replaced by `home`.
pub open spec fn expand_tilde_in(path: Seq<char>, home: Seq<char>) -> Seq<char> {
    if starts_with(path, tilde_slash()) {
        join_path(home, path.skip(2))
    } else if path == tilde() {
        home
    } else {
        path
    }
}

/// `path` with a leading `~/` or a lone `~` replaced by `home`.
pub fn expand_tilde_with(path: &str, home: &str) -> (out: String)
    ensures
        out@ == expand_tilde_in(path@, home@),
{
    let cs = chars_of(path);
    if cs.len() >= 2 && cs[0] == '~' && cs[1] == '/' {
        assert(starts_with(cs@, tilde_slash())) by {
            assert(cs@.subrange(0, 2) =~= tilde_slash());
        }
        let mut rest: Vec<char> = Vec::new();
        let mut i: usize = 2;
        while i < cs.len()
            invariant
                2 <= i <= cs.len(),
                rest@ == cs@.subrange(2, i as int),
            decreases cs.len() - i,
        {
            rest.push(cs[i]);
            assert(cs@.subrange(2, i + 1) =~= cs@.subrange(2, i as int).push(cs@[i as int]));
            i = i + 1;
        }
        assert(rest@ =~= cs@.skip(2));
        let r = string_of(&rest);
        join_paths(home, r.as_str())
    } else {
        assert(!starts_with(cs@, tilde_slash())) by {
            if starts_with(cs@, tilde_slash()) {
                assert(cs@.subrange(0, 2)[0] == '~');
                assert(cs@.subrange(0, 2)[1] == '/');
            }
        }
        if cs.len() == 1 && cs[0] == '~' {
            assert(cs@ =~= tilde());
            string_from(home)
        } else {
            assert(cs@ != tilde()) by {
                if cs@ == tilde() {
                    assert(cs@.len() == 1);
                }
            }
            string_of(&cs)
        }
    }
}

/// Expands `~` in `path` with the home directory. A path that does not start with `~` comes back unchanged;
/// one that does is expanded with whatever home directory the system reports,
/// and is `None` when it reports none.
pub fn expand_tilde(path: &str) -> (out: Option<String>)
    ensures
        !mentions_home(path@) ==> (out matches Some(x) && x@ == path@),
        mentions_home(path@) ==> (out matches Some(x) ==> exists|h: Seq<char>|
            h.len() > 0 && x@ == #[trigger] expand_tilde_in(path@, h)),
{
    let cs = chars_of(path);
    let needs = (cs.len() >= 2 && cs[0] == '~' && cs[1] == '/') || (cs.len() == 1 && cs[0]
        == '~');
    proof {
        if needs {
            if cs.len() >= 2 && cs[0] == '~' && cs[1] == '/' {
                assert(cs@.subrange(0, 2) =~= tilde_slash());
            } else {
                assert(cs@ =~= tilde());
            }
        } else {
            if starts_with(cs@, tilde_slash()) {
                assert(cs@.subrange(0, 2)[0] == '~');
                assert(cs@.subrange(0, 2)[1] == '/');
            }
            if cs@ == tilde() {
                assert(cs@.len() == 1);
            }
        }
    }
    if !needs {
        let out = string_of(&cs);
        return Some(out);
    }
    match home_dir() {
        Some(h) => {
            let out = expand_tilde_with(path, h.as_str());
            assert(expand_tilde_in(path@, h@) == out@);
            Some(out)
        },
        None => None,
    }
}

/// `path` written with `~/` in place of the home directory when it lies
/// below it.
pub open spec fn collapse_tilde_in(path: Seq<char>, home: Option<Seq<char>>) -> Seq<char> {
    match home {
        Some(h) => match path_strip_prefix(path, h) {
            Some(rest) => tilde_slash() + rest,
            None => path,
        },
        None => path,
    }
}

/// `path` written with `~/` in place of `home` when it lies below it.
pub fn collapse_tilde_with(path: &str, home: Option<&str>) -> (out: String)
    ensures
        out@ == collapse_tilde_in(path@, match home {
            Some(h) => Some(h@),
            None => None,
        }),
{
    match home {
        Some(h) => match strip_path_prefix(path, h) {
            Some(rest) => {
                let mut out = String::new();
                push_char(&mut out, '~');
                push_char(&mut out, '/');
                out.append(rest.as_str());
                assert(out@ =~= tilde_slash() + rest@);
                out
            },
            None => string_from(path),
        },
        None => string_from(path),
    }
}

/// `path` written with `~/` in place of the home directory, for display. The
/// home directory is the one the system reports at the call, which may be
/// none.
pub fn collapse_tilde(path: &str) -> (out: String)
    ensures
        exists|h: Option<Seq<char>>| out@ == #[trigger] collapse_tilde_in(path@, h),
{
    let home = home_dir();
    match home {
        Some(h) => {
            let out = collapse_tilde_with(path, Some(h.as_str()));
            assert(out@ == collapse_tilde_in(path@, Some(h@)));
            out
        },
        None => {
            let out = collapse_tilde_with(path, None);
            assert(out@ == collapse_tilde_in(path@, None));
            out
        },
    }
}

// ---------------------------------------------------------------------------
// `~` and back
// ---------------------------------------------------------------------------

/// A component name: a named piece without a separator.
pub open spec fn is_name(p: Seq<char>) -> bool {
    is_named_piece(p) && !p.contains('/')
}

proof fn lemma_named_pieces_concat(a: Seq<Seq<char>>, b: Seq<Seq<char>>)
    ensures
        named_pieces(a + b) == named_pieces(a) + named_pieces(b),
    decreases b.len(),
{
    if b.len() == 0 {
        assert(a + b =~= a);
        assert(named_pieces(a) + named_pieces(b) =~= named_pieces(a));
    } else {
        lemma_named_pieces_concat(a, b.drop_last());
        assert((a + b).drop_last() =~= a + b.drop_last());
        assert((a + b).last() == b.last());
        if is_named_piece(b.last()) {
            assert(named_pieces(a + b) =~= named_pieces(a) + named_pieces(b));
        }
    }
}

proof fn lemma_named_pieces_are_names(s: Seq<char>)
    ensures
        forall|i: int|
            0 <= i < named_pieces(split_on(s, '/')).len() ==> is_name(
                #[trigger] named_pieces(split_on(s, '/'))[i],
            ),
{
    lemma_split_on_pieces(s, '/');
    lemma_named_pieces_from(split_on(s, '/'));
}

proof fn lemma_named_pieces_from(v: Seq<Seq<char>>)
    requires
        forall|i: int| 0 <= i < v.len() ==> !(#[trigger] v[i]).contains('/'),
    ensures
        forall|i: int| 0 <= i < named_pieces(v).len() ==> is_name(#[trigger] named_pieces(v)[i]),
    decreases v.len(),
{
    if v.len() > 0 {
        assert forall|i: int| 0 <= i < v.drop_last().len() implies !(
        #[trigger] v.drop_last()[i]).contains('/') by {
            assert(v.drop_last()[i] == v[i]);
        }
        lemma_named_pieces_from(v.drop_last());
        assert(!v[v.len() - 1].contains('/'));
        let r = named_pieces(v.drop_last());
        if is_named_piece(v.last()) {
            assert forall|i: int| 0 <= i < named_pieces(v).len() implies is_name(
                #[trigger] named_pieces(v)[i],
            ) by {
                if i < r.len() {
                    assert(named_pieces(v)[i] == r[i]);
                } else {
                    assert(named_pieces(v)[i] == v[v.len() - 1]);
                }
            }
        }
    }
}

proof fn lemma_named_pieces_of_empty_piece()
    ensures
        named_pieces(seq![Seq::<char>::empty()]) == Seq::<Seq<char>>::empty(),
{
    let v = seq![Seq::<char>::empty()];
    assert(v.drop_last() =~= Seq::<Seq<char>>::empty());
    assert(v.last().len() == 0);
    assert(!is_named_piece(v.last()));
    assert(named_pieces(v.drop_last()) =~= Seq::<Seq<char>>::empty());
    assert(named_pieces(v) == named_pieces(v.drop_last()));
}

proof fn lemma_split_join(v: Seq<Seq<char>>)
    requires
        v.len() > 0,
        forall|i: int| 0 <= i < v.len() ==> !(#[trigger] v[i]).contains('/'),
    ensures
        split_on(join_pieces(v), '/') == v,
    decreases v.len(),
{
    if v.len() == 1 {
        assert(!v[0].contains('/'));
        lemma_split_on_single(v[0], '/');
        assert(seq![v[0]] =~= v);
    } else {
        let d = v.drop_last();
        assert forall|i: int| 0 <= i < d.len() implies !(#[trigger] d[i]).contains('/') by {
            assert(d[i] == v[i]);
        }
        lemma_split_join(d);
        assert(!v[v.len() - 1].contains('/'));
        lemma_split_on_single(v.last(), '/');
        lemma_split_on_concat(join_pieces(d), v.last(), '/');
        assert(d + seq![v.last()] =~= v);
    }
}

/// The named pieces of a sequence: those of its first piece, then those of
/// the rest.
proof fn lemma_named_pieces_cons(v: Seq<Seq<char>>)
    requires
        v.len() > 0,
    ensures
        named_pieces(v) == (if is_named_piece(v[0]) {
            seq![v[0]]
        } else {
            Seq::<Seq<char>>::empty()
        }) + named_pieces(v.drop_first()),
{
    let one = seq![v[0]];
    assert(one + v.drop_first() =~= v);
    lemma_named_pieces_concat(one, v.drop_first());
    assert(one.drop_last() =~= Seq::<Seq<char>>::empty());
    assert(named_pieces(Seq::<Seq<char>>::empty()) =~= Seq::<Seq<char>>::empty());
    if is_named_piece(v[0]) {
        assert(named_pieces(one) =~= seq![v[0]]);
    } else {
        assert(named_pieces(one) =~= Seq::<Seq<char>>::empty());
    }
}

/// After the first `n` named pieces come the named pieces from the `n`-th on.
proof fn lemma_drop_named(v: Seq<Seq<char>>, n: nat)
    requires
        n <= named_pieces(v).len(),
        forall|i: int| 0 <= i < v.len() ==> !(#[trigger] v[i]).contains('/'),
    ensures
        named_pieces(drop_named(v, n)) == named_pieces(v).skip(n as int),
        forall|i: int|
            0 <= i < drop_named(v, n).len() ==> !(#[trigger] drop_named(v, n)[i]).contains('/'),
    decreases v.len(),
{
    if n == 0 {
        assert(named_pieces(v).skip(0) =~= named_pieces(v));
    } else if v.len() == 0 {
        assert(named_pieces(v) =~= Seq::<Seq<char>>::empty());
    } else {
        let rest = v.drop_first();
        assert forall|i: int| 0 <= i < rest.len() implies !(#[trigger] rest[i]).contains('/') by {
            assert(rest[i] == v[i + 1]);
        }
        lemma_named_pieces_cons(v);
        if is_named_piece(v[0]) {
            lemma_drop_named(rest, (n - 1) as nat);
            assert(named_pieces(v).skip(n as int) =~= named_pieces(rest).skip(n - 1));
        } else {
            assert(named_pieces(v) =~= named_pieces(rest));
            lemma_drop_named(rest, n);
        }
    }
}

/// Dropping the empty and `.` pieces in front keeps the named pieces; what
/// is left starts with a named piece.
proof fn lemma_trim_front(v: Seq<Seq<char>>)
    requires
        forall|i: int| 0 <= i < v.len() ==> !(#[trigger] v[i]).contains('/'),
    ensures
        named_pieces(trim_front(v)) == named_pieces(v),
        trim_front(v).len() > 0 ==> is_named_piece(trim_front(v)[0]),
        forall|i: int| 0 <= i < trim_front(v).len() ==> !(#[trigger] trim_front(v)[i]).contains('/'),
    decreases v.len(),
{
    if v.len() > 0 && !is_named_piece(v[0]) {
        let rest = v.drop_first();
        assert forall|i: int| 0 <= i < rest.len() implies !(#[trigger] rest[i]).contains('/') by {
            assert(rest[i] == v[i + 1]);
        }
        lemma_named_pieces_cons(v);
        assert(named_pieces(v) =~= named_pieces(rest));
        lemma_trim_front(rest);
    }
}

/// Dropping the empty and `.` pieces at the end keeps the named pieces and
/// leaves a prefix.
proof fn lemma_trim_back(v: Seq<Seq<char>>)
    ensures
        named_pieces(trim_back(v)) == named_pieces(v),
        trim_back(v).len() <= v.len(),
        trim_back(v) == v.take(trim_back(v).len() as int),
        trim_back(v).len() > 0 ==> is_named_piece(trim_back(v).last()),
    decreases v.len(),
{
    if v.len() > 0 && !is_named_piece(v.last()) {
        lemma_trim_back(v.drop_last());
        let t = trim_back(v.drop_last());
        assert(v.drop_last().take(t.len() as int) =~= v.take(t.len() as int));
    } else {
        assert(v.take(v.len() as int) =~= v);
    }
}

/// The components of `base`, a separator, and pieces written out are those
/// of `base` followed by the named pieces, when `base` (or `base` and a
/// separator) is the absolute path `h`.
proof fn lemma_components_extend(h: Seq<char>, base: Seq<char>, names: Seq<Seq<char>>)
    requires
        is_absolute(h),
        h == base || h == base + seq!['/'],
        names.len() > 0,
        forall|i: int| 0 <= i < names.len() ==> !(#[trigger] names[i]).contains('/'),
    ensures
        path_components(base + seq!['/'] + join_pieces(names)) == path_components(h)
            + named_pieces(names),
{
    let rest = join_pieces(names);
    let r = base + seq!['/'] + rest;
    lemma_split_join(names);
    lemma_split_on_concat(base, rest, '/');
    lemma_named_pieces_concat(split_on(base, '/'), names);
    assert(named_pieces(split_on(h, '/')) == named_pieces(split_on(base, '/'))) by {
        if h != base {
            assert(h =~= base + seq!['/'] + Seq::<char>::empty());
            lemma_split_on_concat(base, Seq::<char>::empty(), '/');
            assert(split_on(Seq::<char>::empty(), '/') =~= seq![Seq::<char>::empty()]);
            lemma_named_pieces_concat(split_on(base, '/'), seq![Seq::<char>::empty()]);
            lemma_named_pieces_of_empty_piece();
            assert(named_pieces(split_on(base, '/')) + Seq::<Seq<char>>::empty() =~= named_pieces(
                split_on(base, '/'),
            ));
        }
    }
    assert(is_absolute(r)) by {
        if base.len() > 0 {
            assert(r[0] == base[0]);
            assert(h[0] == base[0]);
        } else {
            assert(r[0] == '/');
        }
    }
    assert(path_components(r) =~= path_components(h) + named_pieces(names));
}

/// Law: a path below the home directory, written with `~/` and expanded
/// again, is the same path (compared as paths). This is what the table
/// stores for a new portal and where a jump to it leads.
pub proof fn law_collapse_then_expand(p: Seq<char>, h: Seq<char>)
    requires
        is_absolute(h),
        path_starts_with(p, h),
    ensures
        path_eq(expand_tilde_in(collapse_tilde_in(p, Some(h)), h), p),
{
    let pc = path_components(p);
    let hc = path_components(h);
    let k = hc.len() as int;
    let pieces = split_on(p, '/');
    assert(hc[0] == root_component());
    assert(pc[0] == hc[0]) by {
        assert(pc.take(k)[0] == pc[0]);
    }
    // p is absolute too
    assert(root_component()[0] == '/');
    assert(root_component().contains('/'));
    assert(is_absolute(p)) by {
        if !is_absolute(p) {
            lemma_split_on_nonempty(p, '/');
            lemma_named_pieces_are_names(p);
            if pieces[0] == cur_dir_component() {
                assert(pc[0] == cur_dir_component());
                assert(cur_dir_component()[0] != root_component()[0]);
            } else {
                assert(pc == named_pieces(pieces));
                assert(is_name(pc[0]));
            }
        }
    }
    assert(has_lead(p));
    assert(pc == seq![root_component()] + named_pieces(pieces));
    let n = (k - 1) as nat;
    lemma_split_on_pieces(p, '/');
    lemma_drop_named(pieces, n);
    let d = drop_named(pieces, n);
    lemma_trim_front(d);
    let f = trim_front(d);
    lemma_trim_back(f);
    let t = trim_back(f);
    let x = pc.skip(k);
    assert(named_pieces(t) == x) by {
        assert(named_pieces(pieces).skip(n as int) =~= pc.skip(k));
    }
    assert forall|i: int| 0 <= i < t.len() implies !(#[trigger] t[i]).contains('/') by {
        assert(t[i] == f.take(t.len() as int)[i]);
        assert(f.take(t.len() as int)[i] == f[i]);
    }
    let rest = join_pieces(t);
    assert(path_strip_prefix(p, h) == Some(rest));
    let col = tilde_slash() + rest;
    assert(collapse_tilde_in(p, Some(h)) == col);
    assert(starts_with(col, tilde_slash())) by {
        assert(col.subrange(0, 2) =~= tilde_slash());
    }
    assert(col.skip(2) =~= rest);
    let e = expand_tilde_in(col, h);
    assert(e == join_path(h, rest));
    let base = if h.last() == '/' {
        h.drop_last()
    } else {
        h
    };
    assert(h == base || h == base + seq!['/']) by {
        if h.last() == '/' {
            assert(h =~= h.drop_last() + seq!['/']);
        }
    }
    if t.len() == 0 {
        assert(rest =~= Seq::<char>::empty());
        assert(x =~= Seq::<Seq<char>>::empty());
        assert(pc =~= hc) by {
            assert(pc.take(k) =~= pc);
        }
        if h.last() == '/' {
            assert(e =~= h);
        } else {
            assert(e =~= h + seq!['/'] + Seq::<char>::empty());
            assert(path_components(h + seq!['/']) == path_components(h)) by {
                lemma_split_on_concat(h, Seq::<char>::empty(), '/');
                assert(split_on(Seq::<char>::empty(), '/') =~= seq![Seq::<char>::empty()]);
                lemma_named_pieces_concat(split_on(h, '/'), seq![Seq::<char>::empty()]);
                lemma_named_pieces_of_empty_piece();
                assert(named_pieces(split_on(h, '/')) + Seq::<Seq<char>>::empty() =~= named_pieces(
                    split_on(h, '/'),
                ));
                assert((h + seq!['/'])[0] == h[0]);
                assert(path_components(h + seq!['/']) =~= path_components(h));
            }
            assert(h + seq!['/'] + Seq::<char>::empty() =~= h + seq!['/']);
        }
    } else {
        assert(t[0] == f[0]) by {
            assert(t[0] == f.take(t.len() as int)[0]);
        }
        assert(is_named_piece(t[0]));
        assert(t[0].len() > 0);
        assert(rest.len() > 0 && rest[0] != '/') by {
            lemma_join_pieces_first(t);
            if t[0][0] == '/' {
                assert(t[0].contains('/'));
            }
        }
        assert(!is_absolute(rest));
        assert(e =~= base + seq!['/'] + rest) by {
            if h.last() == '/' {
                assert(h =~= h.drop_last() + seq!['/']);
            }
        }
        lemma_components_extend(h, base, t);
        assert(pc =~= hc + x) by {
            assert(pc.take(k) == hc);
            assert(pc =~= pc.take(k) + pc.skip(k));
        }
    }
}

proof fn lemma_join_pieces_first(v: Seq<Seq<char>>)
    requires
        v.len() > 0,
        v[0].len() > 0,
    ensures
        join_pieces(v).len() > 0,
        join_pieces(v)[0] == v[0][0],
    decreases v.len(),
{
    if v.len() > 1 {
        lemma_join_pieces_first(v.drop_last());
    }
}

} // verus!
