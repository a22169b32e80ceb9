//! The rules of the visit history: which directories are left out of it, and
//! which recorded entries a search matches.

use vstd::prelude::*;
use crate::path::home_dir;
use crate::text::{
    ascii_lowercase, chars_of, find_from, is_ascii_text, lowercase, occurs_at, push_char, starts_with, str_eq, string_from,
    to_lowercase,
};

verus! {

// ---------------------------------------------------------------------------
// Matching tokens in order
// ---------------------------------------------------------------------------

/// `pos` places each token at an occurrence in `h`, each after the end of the
/// one before, the first at or after `from`.
pub open spec fn placed_from(h: Seq<char>, toks: Seq<Seq<char>>, pos: Seq<int>, from: int) -> bool {
    &&& pos.len() == toks.len()
    &&& forall|k: int| 0 <= k < toks.len() ==> occurs_at(h, toks[k], #[trigger] pos[k])
    &&& forall|k: int|
        0 <= k < toks.len() - 1 ==> #[trigger] pos[k] + toks[k].len() <= pos[k + 1]
    &&& toks.len() > 0 ==> pos[0] >= from
}

/// The tokens occur in `h` one after another, without overlapping, the
/// first at or after `from`.
pub open spec fn appear_in_order_from(h: Seq<char>, toks: Seq<Seq<char>>, from: int) -> bool {
    exists|pos: Seq<int>| #[trigger] placed_from(h, toks, pos, from)
}

/// The tokens occur in `h` one after another, without overlapping.
pub open spec fn appear_in_order(h: Seq<char>, toks: Seq<Seq<char>>) -> bool {
    appear_in_order_from(h, toks, 0)
}

/// The views of a slice of strings.
pub open spec fn str_views(v: Seq<&str>) -> Seq<Seq<char>> {
    v.map_values(|t: &str| t@)
}

/// The lowercase forms of the tokens.
pub open spec fn lowercase_all(v: Seq<Seq<char>>) -> Seq<Seq<char>> {
    v.map_values(|t: Seq<char>| lowercase(t))
}

/// No tokens always appear.
pub proof fn lemma_no_tokens(h: Seq<char>, from: int)
    ensures
        appear_in_order_from(h, Seq::empty(), from),
{
    assert(placed_from(h, Seq::empty(), Seq::empty(), from));
}

/// A placement of the other tokens after an occurrence of the first one at
/// `p` extends to a placement of all of them.
proof fn lemma_extend_placement(h: Seq<char>, toks: Seq<Seq<char>>, from: int, p: int)
    requires
        toks.len() > 0,
        from <= p,
        occurs_at(h, toks[0], p),
        appear_in_order_from(h, toks.drop_first(), p + toks[0].len()),
    ensures
        appear_in_order_from(h, toks, from),
{
    let rest = toks.drop_first();
    let next = p + toks[0].len();
    let pos2 = choose|pos: Seq<int>| #[trigger] placed_from(h, rest, pos, next);
    let pos = seq![p] + pos2;
    assert forall|k: int| 0 <= k < toks.len() implies occurs_at(h, toks[k], #[trigger] pos[k]) by {
        if k > 0 {
            assert(pos[k] == pos2[k - 1]);
            assert(toks[k] == rest[k - 1]);
        }
    }
    assert forall|k: int| 0 <= k < toks.len() - 1 implies #[trigger] pos[k] + toks[k].len()
        <= pos[k + 1] by {
        if k > 0 {
            assert(pos[k] == pos2[k - 1]);
            assert(pos[k + 1] == pos2[k]);
            assert(toks[k] == rest[k - 1]);
        }
    }
    assert(placed_from(h, toks, pos, from));
}

/// A placement of all tokens, when the first one's leftmost occurrence at or
/// after `from` is at `p`, leaves a placement of the others after it.
proof fn lemma_shorten_placement(h: Seq<char>, toks: Seq<Seq<char>>, from: int, p: int)
    requires
        toks.len() > 0,
        from <= p,
        forall|q: int| from <= q < p ==> !occurs_at(h, toks[0], q),
        appear_in_order_from(h, toks, from),
    ensures
        appear_in_order_from(h, toks.drop_first(), p + toks[0].len()),
{
    let rest = toks.drop_first();
    let next = p + toks[0].len();
    let pos = choose|pos: Seq<int>| #[trigger] placed_from(h, toks, pos, from);
    assert(occurs_at(h, toks[0], pos[0]));
    assert(p <= pos[0]);
    let pos2 = pos.drop_first();
    assert forall|k: int| 0 <= k < rest.len() implies occurs_at(h, rest[k], #[trigger] pos2[k]) by {
        assert(occurs_at(h, toks[k + 1], pos[k + 1]));
    }
    assert forall|k: int| 0 <= k < rest.len() - 1 implies #[trigger] pos2[k] + rest[k].len()
        <= pos2[k + 1] by {
        assert(pos[k + 1] + toks[k + 1].len() <= pos[k + 2]);
    }
    if rest.len() > 0 {
        assert(pos[0] + toks[0].len() <= pos[1]);
    }
    assert(placed_from(h, rest, pos2, next));
}

/// When the first token's leftmost occurrence at or after `from` is at `p`,
/// the tokens appear from `from` exactly when the others appear from the end
/// of that occurrence.
pub proof fn lemma_leftmost_first(h: Seq<char>, toks: Seq<Seq<char>>, from: int, p: int)
    requires
        toks.len() > 0,
        from <= p,
        occurs_at(h, toks[0], p),
        forall|q: int| from <= q < p ==> !occurs_at(h, toks[0], q),
    ensures
        appear_in_order_from(h, toks, from) == appear_in_order_from(
            h,
            toks.drop_first(),
            p + toks[0].len(),
        ),
{
    if appear_in_order_from(h, toks.drop_first(), p + toks[0].len()) {
        lemma_extend_placement(h, toks, from, p);
    }
    if appear_in_order_from(h, toks, from) {
        lemma_shorten_placement(h, toks, from, p);
    }
}

/// When the first token does not occur at or after `from`, the tokens do not
/// appear from `from`.
pub proof fn lemma_first_missing(h: Seq<char>, toks: Seq<Seq<char>>, from: int)
    requires
        toks.len() > 0,
        forall|q: int| from <= q ==> !occurs_at(h, toks[0], q),
    ensures
        !appear_in_order_from(h, toks, from),
{
    if appear_in_order_from(h, toks, from) {
        let pos = choose|pos: Seq<int>| #[trigger] placed_from(h, toks, pos, from);
        assert(occurs_at(h, toks[0], pos[0]));
    }
}

/// Every token is ASCII text.
pub open spec fn all_ascii(v: Seq<Seq<char>>) -> bool {
    forall|i: int| 0 <= i < v.len() ==> is_ascii_text(#[trigger] v[i])
}

/// The tokens with ASCII capital letters made small.
pub open spec fn ascii_lowercase_all(v: Seq<Seq<char>>) -> Seq<Seq<char>> {
    v.map_values(|t: Seq<char>| ascii_lowercase(t))
}

/// The tokens occur in `h` in order, ignoring the case of ASCII letters.
pub open spec fn ascii_tokens_match(h: Seq<char>, toks: Seq<Seq<char>>) -> bool {
    appear_in_order(ascii_lowercase(h), ascii_lowercase_all(toks))
}

/// Whether all tokens occur in the haystack, case-insensitively, one after
/// another from left to right without overlapping. On ASCII text this is
/// `ascii_tokens_match`.
pub fn tokens_match_in_order(haystack: &str, tokens: &[&str]) -> (r: bool)
    ensures
        r == appear_in_order(lowercase(haystack@), lowercase_all(str_views(tokens@))),
        is_ascii_text(haystack@) && all_ascii(str_views(tokens@)) ==> r == ascii_tokens_match(
            haystack@,
            str_views(tokens@),
        ),
{
    let lower = to_lowercase(haystack);
    let h = chars_of(lower.as_str());
    let ghost toks = lowercase_all(str_views(tokens@));
    let ghost views = str_views(tokens@);
    let mut lowered: Vec<Vec<char>> = Vec::new();
    let mut j: usize = 0;
    while j < tokens.len()
        invariant
            j <= tokens.len(),
            lowered.len() == j,
            toks == lowercase_all(str_views(tokens@)),
            views == str_views(tokens@),
            forall|k: int| 0 <= k < j ==> (#[trigger] lowered@[k])@ == toks[k],
            forall|k: int|
                0 <= k < j ==> is_ascii_text(views[k]) ==> (#[trigger] lowered@[k])@
                    == ascii_lowercase(views[k]),
        decreases tokens.len() - j,
    {
        let tl = to_lowercase(tokens[j]);
        let cs = chars_of(tl.as_str());
        lowered.push(cs);
        j = j + 1;
    }
    let ghost ascii_in = is_ascii_text(haystack@) && all_ascii(views);
    proof {
        if ascii_in {
            assert(toks =~= ascii_lowercase_all(views)) by {
                assert forall|k: int| 0 <= k < toks.len() implies toks[k] == ascii_lowercase_all(
                    views,
                )[k] by {
                    assert(is_ascii_text(views[k]));
                    assert(lowered@[k]@ == toks[k]);
                }
            }
        }
    }
    let mut search_from: usize = 0;
    let mut i: usize = 0;
    assert(toks.skip(0) =~= toks);
    while i < tokens.len()
        invariant
            i <= tokens.len(),
            lowered.len() == tokens.len(),
            forall|k: int| 0 <= k < tokens.len() ==> (#[trigger] lowered@[k])@ == toks[k],
            h@ == lowercase(haystack@),
            toks == lowercase_all(str_views(tokens@)),
            views == str_views(tokens@),
            ascii_in == (is_ascii_text(haystack@) && all_ascii(views)),
            ascii_in ==> h@ == ascii_lowercase(haystack@) && toks == ascii_lowercase_all(views),
            search_from <= h.len(),
            appear_in_order(h@, toks) == appear_in_order_from(
                h@,
                toks.skip(i as int),
                search_from as int,
            ),
        decreases tokens.len() - i,
    {
        let t = &lowered[i];
        let ghost rest = toks.skip(i as int);
        assert(rest[0] == t@);
        assert(rest.drop_first() =~= toks.skip(i + 1));
        match find_from(&h, t, search_from) {
            Some(p) => {
                proof {
                    lemma_leftmost_first(h@, rest, search_from as int, p as int);
                }
                search_from = p + t.len();
            },
            None => {
                proof {
                    lemma_first_missing(h@, rest, search_from as int);
                }
                return false;
            },
        }
        i = i + 1;
    }
    proof {
        assert(toks.skip(tokens.len() as int) =~= Seq::<Seq<char>>::empty());
        lemma_no_tokens(h@, search_from as int);
    }
    true
}

/// Laws of matching tokens case-insensitively on ASCII text (what
/// `tokens_match_in_order` decides there): no tokens match every haystack;
/// tokens that match still match with the last one left off, and in any
/// haystack that contains the first (`u + h + v`); a token that matches,
/// split in two, still matches as two tokens.
pub proof fn law_ascii_tokens_match(
    h: Seq<char>,
    u: Seq<char>,
    v: Seq<char>,
    a: Seq<char>,
    b: Seq<char>,
    toks: Seq<Seq<char>>,
)
    ensures
        ascii_tokens_match(h, Seq::empty()),
        toks.len() > 0 && ascii_tokens_match(h, toks) ==> ascii_tokens_match(h, toks.drop_last()),
        ascii_tokens_match(h, toks) ==> ascii_tokens_match(u + h + v, toks),
        ascii_tokens_match(h, seq![a + b]) ==> ascii_tokens_match(h, seq![a, b]),
{
    let lh = ascii_lowercase(h);
    assert(ascii_lowercase_all(Seq::<Seq<char>>::empty()) =~= Seq::<Seq<char>>::empty());
    lemma_no_tokens(lh, 0);
    if toks.len() > 0 && ascii_tokens_match(h, toks) {
        assert(ascii_lowercase_all(toks.drop_last()) =~= ascii_lowercase_all(toks).drop_last());
        law_tokens_drop_last(lh, ascii_lowercase_all(toks));
    }
    if ascii_tokens_match(h, toks) {
        assert(ascii_lowercase(u + h + v) =~= ascii_lowercase(u) + lh + ascii_lowercase(v));
        law_tokens_widen(lh, ascii_lowercase(u), ascii_lowercase(v), ascii_lowercase_all(toks));
    }
    if ascii_tokens_match(h, seq![a + b]) {
        let la = ascii_lowercase(a);
        let lb = ascii_lowercase(b);
        assert(ascii_lowercase(a + b) =~= la + lb);
        assert(ascii_lowercase_all(seq![a + b]) =~= seq![la + lb]);
        assert(ascii_lowercase_all(seq![a, b]) =~= seq![la, lb]);
        law_tokens_split(lh, la, lb);
    }
}

/// Law of `tokens_match_in_order`, over the tokens' views and for any text:
/// no tokens match every haystack, and tokens that match still match with
/// the last one left off. (Widening the haystack and splitting a token hold
/// on ASCII text, `law_ascii_tokens_match`; beyond ASCII, Unicode's
/// final-sigma rule makes lowercasing depend on the neighbours.)
pub proof fn law_tokens_match_prefix(h: Seq<char>, toks: Seq<Seq<char>>)
    ensures
        appear_in_order(lowercase(h), lowercase_all(Seq::empty())),
        toks.len() > 0 && appear_in_order(lowercase(h), lowercase_all(toks)) ==> appear_in_order(
            lowercase(h),
            lowercase_all(toks.drop_last()),
        ),
{
    assert(lowercase_all(Seq::<Seq<char>>::empty()) =~= Seq::<Seq<char>>::empty());
    lemma_no_tokens(lowercase(h), 0);
    if toks.len() > 0 && appear_in_order(lowercase(h), lowercase_all(toks)) {
        assert(lowercase_all(toks.drop_last()) =~= lowercase_all(toks).drop_last());
        law_tokens_drop_last(lowercase(h), lowercase_all(toks));
    }
}

/// Law of token matching: no tokens always match, and a single token
/// matches exactly when it occurs somewhere.
pub proof fn law_tokens_in_order(h: Seq<char>, t: Seq<char>)
    ensures
        appear_in_order(h, Seq::empty()),
        appear_in_order(h, seq![t]) == crate::text::contains_str(h, t),
{
    lemma_no_tokens(h, 0);
    let toks = seq![t];
    if crate::text::contains_str(h, t) {
        let p = choose|p: int| occurs_at(h, t, p);
        assert(placed_from(h, toks, seq![p], 0));
    }
    if appear_in_order(h, toks) {
        let pos = choose|pos: Seq<int>| #[trigger] placed_from(h, toks, pos, 0);
        assert(occurs_at(h, toks[0], pos[0]));
    }
}

/// Law of token matching: the tokens before the last appear wherever all of
/// them do.
pub proof fn law_tokens_drop_last(h: Seq<char>, toks: Seq<Seq<char>>)
    requires
        toks.len() > 0,
        appear_in_order(h, toks),
    ensures
        appear_in_order(h, toks.drop_last()),
{
    let pos = choose|pos: Seq<int>| #[trigger] placed_from(h, toks, pos, 0);
    let d = toks.drop_last();
    let q = pos.drop_last();
    assert forall|k: int| 0 <= k < d.len() implies occurs_at(h, d[k], #[trigger] q[k]) by {
        assert(occurs_at(h, toks[k], pos[k]));
    }
    assert forall|k: int| 0 <= k < d.len() - 1 implies #[trigger] q[k] + d[k].len() <= q[k + 1] by {
        assert(pos[k] + toks[k].len() <= pos[k + 1]);
    }
    assert(placed_from(h, d, q, 0));
}

/// Law of token matching: tokens that appear in a text appear in any text
/// that holds it.
pub proof fn law_tokens_widen(h: Seq<char>, u: Seq<char>, v: Seq<char>, toks: Seq<Seq<char>>)
    requires
        appear_in_order(h, toks),
    ensures
        appear_in_order(u + h + v, toks),
{
    let w = u + h + v;
    let pos = choose|pos: Seq<int>| #[trigger] placed_from(h, toks, pos, 0);
    let q = pos.map_values(|p: int| p + u.len());
    assert forall|k: int| 0 <= k < toks.len() implies occurs_at(w, toks[k], #[trigger] q[k]) by {
        assert(occurs_at(h, toks[k], pos[k]));
        assert(q[k] == pos[k] + u.len());
        assert(w.subrange(q[k], q[k] + toks[k].len()) =~= h.subrange(pos[k], pos[k] + toks[k].len()));
    }
    assert forall|k: int| 0 <= k < toks.len() - 1 implies #[trigger] q[k] + toks[k].len() <= q[k
        + 1] by {
        assert(pos[k] + toks[k].len() <= pos[k + 1]);
    }
    assert(placed_from(w, toks, q, 0));
}

/// Law of token matching: where a token appears, its two halves appear in
/// order as two tokens.
pub proof fn law_tokens_split(h: Seq<char>, a: Seq<char>, b: Seq<char>)
    requires
        appear_in_order(h, seq![a + b]),
    ensures
        appear_in_order(h, seq![a, b]),
{
    let pos = choose|pos: Seq<int>| #[trigger] placed_from(h, seq![a + b], pos, 0);
    let p = pos[0];
    assert(occurs_at(h, seq![a + b][0], pos[0]));
    let q = seq![p, p + a.len()];
    let toks = seq![a, b];
    assert(h.subrange(p, p + a.len()) =~= h.subrange(p, p + (a + b).len()).subrange(0, a.len() as int));
    assert(h.subrange(p + a.len(), p + a.len() + b.len()) =~= h.subrange(p, p + (a + b).len()).subrange(
        a.len() as int,
        (a + b).len() as int,
    ));
    let ab = a + b;
    assert(seq![a + b][0] == ab);
    assert(h.subrange(p, p + ab.len()) == ab);
    assert(ab.subrange(0, a.len() as int) =~= a);
    assert(ab.subrange(a.len() as int, ab.len() as int) =~= b);
    assert(toks[0] == a && toks[1] == b);
    assert(q[0] == p && q[1] == p + a.len());
    assert(occurs_at(h, toks[0], q[0]));
    assert(occurs_at(h, toks[1], q[1]));
    assert(placed_from(h, toks, q, 0));
}

/// The text a search is matched against: `repo/path` for an entry inside a
/// repository, the path itself otherwise.
pub open spec fn search_text(path: Seq<char>, repo: Option<Seq<char>>) -> Seq<char> {
    match repo {
        Some(r) => r + seq!['/'] + path,
        None => path,
    }
}

/// Whether a recorded entry matches the search tokens: all tokens occur in
/// its search text, case-insensitively and in order.
pub fn entry_matches(path: &str, repo: Option<&str>, tokens: &[&str]) -> (r: bool)
    ensures
        r == appear_in_order(
            lowercase(search_text(path@, match repo {
                Some(x) => Some(x@),
                None => None,
            })),
            lowercase_all(str_views(tokens@)),
        ),
        is_ascii_text(search_text(path@, match repo {
            Some(x) => Some(x@),
            None => None,
        })) && all_ascii(str_views(tokens@)) ==> r == ascii_tokens_match(
            search_text(path@, match repo {
                Some(x) => Some(x@),
                None => None,
            }),
            str_views(tokens@),
        ),
{
    let text = match repo {
        Some(r) => {
            let mut t = string_from(r);
            push_char(&mut t, '/');
            t.append(path);
            assert(t@ =~= r@ + seq!['/'] + path@);
            t
        },
        None => string_from(path),
    };
    tokens_match_in_order(text.as_str(), tokens)
}

// ---------------------------------------------------------------------------
// Excluded directories
// ---------------------------------------------------------------------------

/// Directories never recorded: the home directory itself (with or without a
/// trailing slash), `/tmp`, `/private/tmp` and what lies below them, and
/// anything below `/nix/`.
pub open spec fn excluded(path: Seq<char>, home: Seq<char>) -> bool {
    ||| path == home
    ||| path == home.push('/')
    ||| path == "/tmp"@
    ||| starts_with(path, "/tmp/"@)
    ||| path == "/private/tmp"@
    ||| starts_with(path, "/private/tmp/"@)
    ||| starts_with(path, "/nix/"@)
}

fn starts_with_str(path: &str, prefix: &str) -> (r: bool)
    ensures
        r == starts_with(path@, prefix@),
{
    let p = chars_of(path);
    let q = chars_of(prefix);
    crate::text::starts_with_chars(&p, &q)
}

/// Whether `path` is left out of the history, for the home directory `home`.
pub fn is_excluded_with(path: &str, home: &str) -> (r: bool)
    ensures
        r == excluded(path@, home@),
{
    let mut home_slash = string_from(home);
    push_char(&mut home_slash, '/');
    str_eq(path, home) || str_eq(path, home_slash.as_str()) || str_eq(path, "/tmp")
        || starts_with_str(path, "/tmp/") || str_eq(path, "/private/tmp") || starts_with_str(
        path,
        "/private/tmp/",
    ) || starts_with_str(path, "/nix/")
}

/// Whether `path` is left out of the history, for the home directory the
/// system reports; `None` when it reports none.
pub fn is_excluded(path: &str) -> (r: Option<bool>)
    ensures
        r matches Some(b) ==> exists|h: Seq<char>| h.len() > 0 && b == #[trigger] excluded(path@, h),
{
    match home_dir() {
        Some(h) => {
            let b = is_excluded_with(path, h.as_str());
            assert(b == excluded(path@, h@));
            Some(b)
        },
        None => None,
    }
}

} // verus!
