//! The portal table: portal names mapped to directory paths, kept sorted by
//! name the way a `BTreeMap<String, String>` keeps them.

use vstd::prelude::*;
use crate::text::{
    chars_eq, chars_lt, chars_of, lemma_str_lt_irreflexive,
    lemma_str_lt_total, lemma_str_lt_transitive, str_lt,
};

verus! {

/// A name and a path, both as character sequences.
pub type EntryView = (Seq<char>, Seq<char>);

/// The views of a sequence of string pairs.
pub open spec fn pair_views(v: Seq<(String, String)>) -> Seq<EntryView> {
    v.map_values(|e: (String, String)| (e.0@, e.1@))
}

/// The names strictly increase along the sequence.
pub open spec fn names_increasing(s: Seq<EntryView>) -> bool {
    forall|i: int, j: int| #![trigger s[i], s[j]] 0 <= i < j < s.len() ==> str_lt(s[i].0, s[j].0)
}

/// Some entry of `s` has the name `k`.
pub open spec fn has_name(s: Seq<EntryView>, k: Seq<char>) -> bool {
    exists|i: int| 0 <= i < s.len() && #[trigger] s[i].0 == k
}

/// The position of an entry named `k`.
pub open spec fn position_of(s: Seq<EntryView>, k: Seq<char>) -> int {
    choose|i: int| 0 <= i < s.len() && #[trigger] s[i].0 == k
}

/// The path of an entry named `k`.
pub open spec fn path_named(s: Seq<EntryView>, k: Seq<char>) -> Seq<char> {
    s[position_of(s, k)].1
}

/// The map from names to paths that the entries spell out.
pub open spec fn entries_to_map(s: Seq<EntryView>) -> Map<Seq<char>, Seq<char>> {
    Map::new(|k: Seq<char>| has_name(s, k), |k: Seq<char>| path_named(s, k))
}

/// In sorted entries, the names are pairwise distinct.
pub proof fn lemma_names_distinct(s: Seq<EntryView>, i: int, j: int)
    requires
        names_increasing(s),
        0 <= i < s.len(),
        0 <= j < s.len(),
        i != j,
    ensures
        s[i].0 != s[j].0,
{
    if i < j {
        assert(str_lt(s[i].0, s[j].0));
        lemma_str_lt_irreflexive(s[i].0);
    } else {
        assert(str_lt(s[j].0, s[i].0));
        lemma_str_lt_irreflexive(s[j].0);
    }
}

/// In sorted entries, the map finds each entry under its name.
pub proof fn lemma_lookup(s: Seq<EntryView>, i: int)
    requires
        names_increasing(s),
        0 <= i < s.len(),
    ensures
        entries_to_map(s).contains_key(s[i].0),
        entries_to_map(s)[s[i].0] == s[i].1,
{
    let k = s[i].0;
    assert(has_name(s, k));
    let j = position_of(s, k);
    assert(0 <= j < s.len() && s[j].0 == k);
    if j != i {
        lemma_names_distinct(s, i, j);
    }
    assert(j == i);
    assert(path_named(s, k) == s[j].1);
    assert(entries_to_map(s).dom().contains(k));
}

/// The entries of `s` whose flag in `keep` is set, in order.
pub open spec fn select_entries(s: Seq<EntryView>, keep: Seq<bool>) -> Seq<EntryView>
    decreases s.len(),
{
    if s.len() == 0 {
        Seq::empty()
    } else {
        let r = select_entries(s.drop_last(), keep);
        if keep[s.len() - 1] {
            r.push(s.last())
        } else {
            r
        }
    }
}

/// An entry is selected exactly when its flag is set: every entry with its
/// flag set is among the selected ones, and every selected one is an entry
/// whose flag is set.
pub proof fn lemma_select_members(s: Seq<EntryView>, keep: Seq<bool>)
    requires
        keep.len() >= s.len(),
    ensures
        forall|i: int|
            0 <= i < s.len() && keep[i] ==> exists|k: int|
                0 <= k < select_entries(s, keep).len() && #[trigger] select_entries(s, keep)[k]
                    == s[i],
        forall|k: int|
            0 <= k < select_entries(s, keep).len() ==> exists|j: int|
                0 <= j < s.len() && keep[j] && #[trigger] select_entries(s, keep)[k] == s[j],
    decreases s.len(),
{
    if s.len() > 0 {
        let d = s.drop_last();
        lemma_select_members(d, keep);
        let r = select_entries(d, keep);
        let t = select_entries(s, keep);
        assert forall|i: int| 0 <= i < s.len() && keep[i] implies exists|k: int|
            0 <= k < t.len() && #[trigger] t[k] == s[i] by {
            if i < d.len() {
                assert(d[i] == s[i]);
                let k = choose|k: int| 0 <= k < r.len() && #[trigger] r[k] == d[i];
                assert(t[k] == r[k]);
            } else {
                assert(t[t.len() - 1] == s[s.len() - 1]);
            }
        }
        assert forall|k: int| 0 <= k < t.len() implies exists|j: int|
            0 <= j < s.len() && keep[j] && #[trigger] t[k] == s[j] by {
            if k < r.len() {
                let j = choose|j: int| 0 <= j < d.len() && keep[j] && #[trigger] r[k] == d[j];
                assert(t[k] == r[k]);
                assert(s[j] == d[j]);
            } else {
                assert(t[k] == s[s.len() - 1]);
            }
        }
    }
}

/// Every selected entry is an entry of `s`, and a selection from sorted
/// entries is sorted.
pub proof fn lemma_select_sorted(s: Seq<EntryView>, keep: Seq<bool>)
    ensures
        forall|k: int|
            0 <= k < select_entries(s, keep).len() ==> exists|j: int|
                0 <= j < s.len() && #[trigger] select_entries(s, keep)[k] == s[j],
        names_increasing(s) ==> names_increasing(select_entries(s, keep)),
    decreases s.len(),
{
    if s.len() > 0 {
        let d = s.drop_last();
        lemma_select_sorted(d, keep);
        let r = select_entries(d, keep);
        let t = select_entries(s, keep);
        assert forall|k: int| 0 <= k < t.len() implies exists|j: int|
            0 <= j < s.len() && #[trigger] t[k] == s[j] by {
            if k < r.len() {
                let j = choose|j: int| 0 <= j < d.len() && #[trigger] r[k] == d[j];
                assert(t[k] == s[j]);
            } else {
                assert(t[k] == s[s.len() - 1]);
            }
        }
        if names_increasing(s) {
            assert(names_increasing(d));
            assert forall|a: int, b: int| 0 <= a < b < t.len() implies #[trigger] str_lt(
                t[a].0,
                t[b].0,
            ) by {
                if b < r.len() {
                    assert(t[a] == r[a] && t[b] == r[b]);
                } else {
                    assert(t[a] == r[a]);
                    let j = choose|j: int| 0 <= j < d.len() && #[trigger] r[a] == d[j];
                    assert(t[b] == s[s.len() - 1]);
                    assert(s[j] == d[j]);
                }
            }
        }
    }
}

/// The portal table. Its entries are kept sorted by name, and no name occurs
/// twice.
#[derive(Debug)]
pub struct PortalMap {
    entries: Vec<(String, String)>,
}

impl PortalMap {
    /// The entries, in order of name.
    pub closed spec fn ordered(&self) -> Seq<EntryView> {
        pair_views(self.entries@)
    }

    #[verifier::type_invariant]
    spec fn sorted(&self) -> bool {
        names_increasing(self.ordered())
    }

    /// An empty table.
    pub fn new() -> (m: Self)
        ensures
            m.ordered() == Seq::<EntryView>::empty(),
            m@ == Map::<Seq<char>, Seq<char>>::empty(),
    {
        let m = PortalMap { entries: Vec::new() };
        assert(m.ordered() =~= Seq::<EntryView>::empty());
        assert(m@ =~= Map::<Seq<char>, Seq<char>>::empty());
        m
    }

    /// The entries in order of name; the names strictly increase.
    pub fn entries(&self) -> (r: &Vec<(String, String)>)
        ensures
            pair_views(r@) == self.ordered(),
            names_increasing(self.ordered()),
            self@ == entries_to_map(self.ordered()),
    {
        proof {
            use_type_invariant(self);
        }
        &self.entries
    }

    /// The number of portals.
    pub fn len(&self) -> (n: usize)
        ensures
            n == self.ordered().len(),
    {
        self.entries.len()
    }

    /// Whether there are no portals.
    pub fn is_empty(&self) -> (b: bool)
        ensures
            b == (self.ordered().len() == 0),
            b == (self@ == Map::<Seq<char>, Seq<char>>::empty()),
    {
        proof {
            use_type_invariant(self);
            if self.ordered().len() > 0 {
                lemma_lookup(self.ordered(), 0);
                assert(self@.contains_key(self.ordered()[0].0));
            } else {
                assert(self@ =~= Map::<Seq<char>, Seq<char>>::empty());
            }
        }
        self.entries.len() == 0
    }

    /// The first position whose name is not below `key`, and whether the name
    /// there is `key`.
    fn position(&self, key: &Vec<char>) -> (r: (usize, bool))
        ensures
            r.0 <= self.ordered().len(),
            forall|j: int| 0 <= j < r.0 ==> str_lt(#[trigger] self.ordered()[j].0, key@),
            r.0 < self.ordered().len() ==> !str_lt(self.ordered()[r.0 as int].0, key@),
            r.1 == (r.0 < self.ordered().len() && self.ordered()[r.0 as int].0 == key@),
    {
        let mut i: usize = 0;
        while i < self.entries.len()
            invariant
                i <= self.entries.len(),
                self.ordered() == pair_views(self.entries@),
                forall|j: int| 0 <= j < i ==> str_lt(#[trigger] self.ordered()[j].0, key@),
            decreases self.entries.len() - i,
        {
            let name = chars_of(self.entries[i].0.as_str());
            if !chars_lt(&name, key) {
                let same = chars_eq(&name, key);
                return (i, same);
            }
            i = i + 1;
        }
        (i, false)
    }

    /// Whether a portal is named `key`.
    pub fn contains_key(&self, key: &str) -> (b: bool)
        ensures
            b == self@.contains_key(key@),
    {
        proof {
            use_type_invariant(self);
        }
        let k = chars_of(key);
        let (p, found) = self.position(&k);
        proof {
            let s = self.ordered();
            if found {
                lemma_lookup(s, p as int);
            } else if has_name(s, key@) {
                let j = choose|j: int| 0 <= j < s.len() && #[trigger] s[j].0 == key@;
                if j < p {
                    lemma_str_lt_irreflexive(key@);
                } else {
                    // s[p].0 is not below key, and differs from it, so it is above it;
                    // then s[j].0, at or after p, is above it too.
                    lemma_str_lt_total(s[p as int].0, key@);
                    if j > p {
                        lemma_str_lt_transitive(key@, s[p as int].0, s[j].0);
                    }
                    lemma_str_lt_irreflexive(key@);
                }
            }
        }
        found
    }

    /// The path of the portal named `key`, if there is one.
    pub fn get(&self, key: &str) -> (r: Option<&String>)
        ensures
            r matches Some(v) ==> self@.contains_key(key@) && v@ == self@[key@],
            r is None ==> !self@.contains_key(key@),
    {
        proof {
            use_type_invariant(self);
        }
        let found = self.contains_key(key);
        if !found {
            return None;
        }
        let k = chars_of(key);
        let (p, same) = self.position(&k);
        proof {
            let s = self.ordered();
            let j = choose|j: int| 0 <= j < s.len() && #[trigger] s[j].0 == key@;
            assert(has_name(s, key@));
            if !same {
                if j < p {
                    lemma_str_lt_irreflexive(key@);
                } else {
                    lemma_str_lt_total(s[p as int].0, key@);
                    if j > p {
                        lemma_str_lt_transitive(key@, s[p as int].0, s[j].0);
                    }
                    lemma_str_lt_irreflexive(key@);
                }
            }
            lemma_lookup(s, p as int);
        }
        Some(&self.entries[p].1)
    }

    /// Sets the path of the portal `key` to `value`, adding the portal if
    /// there is none; returns the path it had before.
    pub fn insert(&mut self, key: String, value: String) -> (r: Option<String>)
        ensures
            final(self)@ == old(self)@.insert(key@, value@),
            names_increasing(final(self).ordered()),
            old(self)@.contains_key(key@) ==> exists|p: int|
                0 <= p < old(self).ordered().len() && #[trigger] old(self).ordered()[p].0 == key@
                    && final(self).ordered() == old(self).ordered().update(p, (key@, value@)),
            !old(self)@.contains_key(key@) ==> exists|p: int|
                0 <= p <= old(self).ordered().len() && final(self).ordered() == #[trigger] old(
                    self,
                ).ordered().insert(p, (key@, value@)),
            r matches Some(v) ==> old(self)@.contains_key(key@) && v@ == old(self)@[key@],
            r is None ==> !old(self)@.contains_key(key@),
    {
        proof {
            use_type_invariant(&*self);
        }
        let k = chars_of(key.as_str());
        let (p, found) = self.position(&k);
        let ghost s = self.ordered();
        let ghost kv = key@;
        let ghost vv = value@;
        proof {
            // every name at or after p is above the key, unless it is the key
            assert forall|j: int| p <= j < s.len() && s[j].0 != kv implies str_lt(
                kv,
                #[trigger] s[j].0,
            ) by {
                lemma_str_lt_total(s[p as int].0, kv);
                if s[p as int].0 == kv {
                    if j > p {
                        assert(str_lt(s[p as int].0, s[j].0));
                    }
                } else if j > p {
                    lemma_str_lt_transitive(kv, s[p as int].0, s[j].0);
                }
            }
        }
        let mut entries: Vec<(String, String)> = Vec::new();
        std::mem::swap(&mut entries, &mut self.entries);
        if found {
            let old_entry = entries.remove(p);
            entries.insert(p, (key, value));
            let ghost t = pair_views(entries@);
            proof {
                assert(t =~= s.update(p as int, (kv, vv)));
                assert(names_increasing(t)) by {
                    assert forall|i: int, j: int| 0 <= i < j < t.len() implies #[trigger] str_lt(
                        t[i].0,
                        t[j].0,
                    ) by {
                        assert(t[i].0 == s[i].0 && t[j].0 == s[j].0);
                        assert(str_lt(s[i].0, s[j].0));
                    }
                }
                lemma_lookup(s, p as int);
                assert forall|x: Seq<char>| #[trigger] has_name(t, x) == (has_name(s, x)) by {
                    if has_name(s, x) {
                        let j = choose|j: int| 0 <= j < s.len() && #[trigger] s[j].0 == x;
                        assert(t[j].0 == x);
                    }
                    if has_name(t, x) {
                        let j = choose|j: int| 0 <= j < t.len() && #[trigger] t[j].0 == x;
                        assert(s[j].0 == x);
                    }
                }
                assert forall|x: Seq<char>| has_name(t, x) implies entries_to_map(t)[x] == #[trigger] old(self)@.insert(kv, vv)[x] by {
                    let j = choose|j: int| 0 <= j < t.len() && #[trigger] t[j].0 == x;
                    lemma_lookup(t, j);
                    if j != p {
                        lemma_lookup(s, j);
                    }
                }
            }
            self.entries = entries;
            proof {
                assert(final(self)@ =~= old(self)@.insert(kv, vv));
            }
            Some(old_entry.1)
        } else {
            entries.insert(p, (key, value));
            let ghost t = pair_views(entries@);
            proof {
                assert(t =~= s.insert(p as int, (kv, vv)));
                assert(names_increasing(t)) by {
                    assert forall|i: int, j: int| 0 <= i < j < t.len() implies #[trigger] str_lt(
                        t[i].0,
                        t[j].0,
                    ) by {
                        if j < p {
                            assert(t[i] == s[i] && t[j] == s[j]);
                        } else if j == p {
                            assert(t[i] == s[i]);
                        } else if i == p {
                            assert(t[j] == s[j - 1]);
                        } else if i < p {
                            assert(t[i] == s[i] && t[j] == s[j - 1]);
                            assert(str_lt(s[i].0, kv));
                            lemma_str_lt_transitive(s[i].0, kv, s[j - 1].0);
                        } else {
                            assert(t[i] == s[i - 1] && t[j] == s[j - 1]);
                        }
                    }
                }
                assert(!has_name(s, kv)) by {
                    if has_name(s, kv) {
                        let j = choose|j: int| 0 <= j < s.len() && #[trigger] s[j].0 == kv;
                        if j < p {
                            lemma_str_lt_irreflexive(kv);
                        } else {
                            lemma_str_lt_irreflexive(kv);
                        }
                    }
                }
                lemma_lookup(t, p as int);
                assert forall|x: Seq<char>| #[trigger] has_name(t, x) == (has_name(s, x) || x
                    == kv) by {
                    if has_name(s, x) {
                        let j = choose|j: int| 0 <= j < s.len() && #[trigger] s[j].0 == x;
                        if j < p {
                            assert(t[j].0 == x);
                        } else {
                            assert(t[j + 1].0 == x);
                        }
                    }
                    if has_name(t, x) && x != kv {
                        let j = choose|j: int| 0 <= j < t.len() && #[trigger] t[j].0 == x;
                        if j < p {
                            assert(s[j].0 == x);
                        } else {
                            assert(s[j - 1].0 == x);
                        }
                    }
                }
                assert forall|x: Seq<char>| has_name(t, x) implies entries_to_map(t)[x] == #[trigger] old(self)@.insert(kv, vv)[x] by {
                    let j = choose|j: int| 0 <= j < t.len() && #[trigger] t[j].0 == x;
                    lemma_lookup(t, j);
                    if j < p {
                        lemma_lookup(s, j);
                    } else if j > p {
                        lemma_lookup(s, j - 1);
                    }
                }
            }
            self.entries = entries;
            proof {
                assert(final(self)@ =~= old(self)@.insert(kv, vv));
            }
            None
        }
    }

    /// Removes the portal named `key`; returns its path if there was one.
    pub fn remove(&mut self, key: &str) -> (r: Option<String>)
        ensures
            final(self)@ == old(self)@.remove(key@),
            names_increasing(final(self).ordered()),
            old(self)@.contains_key(key@) ==> exists|p: int|
                0 <= p < old(self).ordered().len() && #[trigger] old(self).ordered()[p].0 == key@
                    && final(self).ordered() == old(self).ordered().remove(p),
            !old(self)@.contains_key(key@) ==> final(self).ordered() == old(self).ordered(),
            r matches Some(v) ==> old(self)@.contains_key(key@) && v@ == old(self)@[key@],
            r is None ==> !old(self)@.contains_key(key@),
    {
        proof {
            use_type_invariant(&*self);
        }
        let k = chars_of(key);
        let (p, found) = self.position(&k);
        let ghost s = self.ordered();
        let ghost kv = key@;
        proof {
            if !found && has_name(s, kv) {
                let j = choose|j: int| 0 <= j < s.len() && #[trigger] s[j].0 == kv;
                if j < p {
                    lemma_str_lt_irreflexive(kv);
                } else {
                    lemma_str_lt_total(s[p as int].0, kv);
                    if j > p {
                        lemma_str_lt_transitive(kv, s[p as int].0, s[j].0);
                    }
                    lemma_str_lt_irreflexive(kv);
                }
            }
        }
        if !found {
            proof {
                assert(old(self)@ =~= old(self)@.remove(kv));
            }
            return None;
        }
        let mut entries: Vec<(String, String)> = Vec::new();
        std::mem::swap(&mut entries, &mut self.entries);
        let removed = entries.remove(p);
        let ghost t = pair_views(entries@);
        proof {
            assert(t =~= s.remove(p as int));
            assert(names_increasing(t)) by {
                assert forall|i: int, j: int| 0 <= i < j < t.len() implies #[trigger] str_lt(
                    t[i].0,
                    t[j].0,
                ) by {
                    if j < p {
                        assert(t[i] == s[i] && t[j] == s[j]);
                    } else if i < p {
                        assert(t[i] == s[i] && t[j] == s[j + 1]);
                    } else {
                        assert(t[i] == s[i + 1] && t[j] == s[j + 1]);
                    }
                }
            }
            lemma_lookup(s, p as int);
            assert forall|x: Seq<char>| #[trigger] has_name(t, x) == (has_name(s, x) && x != kv) by {
                if has_name(s, x) && x != kv {
                    let j = choose|j: int| 0 <= j < s.len() && #[trigger] s[j].0 == x;
                    if j < p {
                        assert(t[j].0 == x);
                    } else {
                        assert(j != p);
                        assert(t[j - 1].0 == x);
                    }
                }
                if has_name(t, x) {
                    let j = choose|j: int| 0 <= j < t.len() && #[trigger] t[j].0 == x;
                    if j < p {
                        assert(s[j].0 == x);
                        lemma_names_distinct(s, j, p as int);
                    } else {
                        assert(s[j + 1].0 == x);
                        lemma_names_distinct(s, j + 1, p as int);
                    }
                }
            }
            assert forall|x: Seq<char>| has_name(t, x) implies entries_to_map(t)[x] == #[trigger] old(self)@.remove(kv)[x] by {
                let j = choose|j: int| 0 <= j < t.len() && #[trigger] t[j].0 == x;
                lemma_lookup(t, j);
                if j < p {
                    lemma_lookup(s, j);
                } else {
                    lemma_lookup(s, j + 1);
                }
            }
        }
        self.entries = entries;
        proof {
            assert(final(self)@ =~= old(self)@.remove(kv));
        }
        Some(removed.1)
    }
}

impl PortalMap {
    /// A copy of the entries, in order of name.
    pub fn to_vec(&self) -> (out: Vec<(String, String)>)
        ensures
            pair_views(out@) == self.ordered(),
    {
        let ghost s = self.ordered();
        let mut out: Vec<(String, String)> = Vec::new();
        let mut i: usize = 0;
        while i < self.entries.len()
            invariant
                i <= self.entries.len(),
                pair_views(self.entries@) == s,
                pair_views(out@) == s.take(i as int),
            decreases self.entries.len() - i,
        {
            let name = self.entries[i].0.clone();
            let path = self.entries[i].1.clone();
            let ghost before = pair_views(out@);
            out.push((name, path));
            assert(pair_views(out@) =~= before.push(s[i as int]));
            assert(s.take(i + 1) =~= s.take(i as int).push(s[i as int]));
            i = i + 1;
        }
        assert(s.take(self.entries.len() as int) =~= s);
        out
    }

    /// A table of the portals whose flag in `keep` (one per portal, in order
    /// of name) is set.
    pub fn select(&self, keep: &Vec<bool>) -> (m: PortalMap)
        requires
            keep.len() == self.ordered().len(),
        ensures
            m.ordered() == select_entries(self.ordered(), keep@),
    {
        proof {
            use_type_invariant(self);
        }
        let ghost s = self.ordered();
        let mut out: Vec<(String, String)> = Vec::new();
        let mut i: usize = 0;
        assert(s.take(0) =~= Seq::<EntryView>::empty());
        while i < self.entries.len()
            invariant
                i <= self.entries.len(),
                keep.len() == self.entries.len(),
                pair_views(self.entries@) == s,
                pair_views(out@) == select_entries(s.take(i as int), keep@),
            decreases self.entries.len() - i,
        {
            let ghost t = s.take(i + 1);
            assert(t.drop_last() =~= s.take(i as int));
            if keep[i] {
                let name = self.entries[i].0.clone();
                let path = self.entries[i].1.clone();
                let ghost before = pair_views(out@);
                out.push((name, path));
                assert(pair_views(out@) =~= before.push(s[i as int]));
            }
            i = i + 1;
        }
        assert(s.take(self.entries.len() as int) =~= s);
        proof {
            lemma_select_sorted(s, keep@);
        }
        PortalMap { entries: out }
    }
}

impl View for PortalMap {
    type V = Map<Seq<char>, Seq<char>>;

    open spec fn view(&self) -> Map<Seq<char>, Seq<char>> {
        entries_to_map(self.ordered())
    }
}

impl Default for PortalMap {
    fn default() -> (m: Self)
        ensures
            m.ordered() == Seq::<EntryView>::empty(),
            m@ == Map::<Seq<char>, Seq<char>>::empty(),
    {
        PortalMap::new()
    }
}

} // verus!
