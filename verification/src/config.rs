//! The configuration: settings and the portal table.

use vstd::prelude::*;
use crate::path::{
    expand_tilde, expand_tilde_in, home_dir, join_path, join_paths, mentions_home, path_starts_with,
    path_starts_with_exec,
};
use crate::portals::{pair_views, select_entries, EntryView, PortalMap};

verus! {

/// How a jump to a portal inside a repository with several worktrees goes by
/// default: through the worktree picker, or straight to the stored path.
#[derive(Clone, Copy, Debug, PartialEq, Eq, Structural)]
pub enum NavMode {
    Picker,
    Direct,
}

impl Default for NavMode {
    fn default() -> (m: Self)
        ensures
            m == NavMode::Picker,
    {
        NavMode::Picker
    }
}

/// The `[settings]` section.
#[derive(Debug)]
pub struct Settings {
    pub default_nav_mode: NavMode,
}

impl Default for Settings {
    fn default() -> (s: Self)
        ensures
            s.default_nav_mode == NavMode::Picker,
    {
        Settings { default_nav_mode: NavMode::Picker }
    }
}

/// The configuration file: settings and portals.
#[derive(Debug)]
pub struct Config {
    pub settings: Settings,
    pub portals: PortalMap,
}

impl Default for Config {
    fn default() -> (c: Self)
        ensures
            c.settings.default_nav_mode == NavMode::Picker,
            c.portals@ == Map::<Seq<char>, Seq<char>>::empty(),
            c.portals.ordered() == Seq::<EntryView>::empty(),
    {
        Config { settings: Settings::default(), portals: PortalMap::new() }
    }
}

/// `~/.config/tp/<file>` for the home directory `home`.
pub open spec fn config_dir_file(home: Seq<char>, file: Seq<char>) -> Seq<char> {
    join_path(join_path(join_path(home, ".config"@), "tp"@), file)
}

/// For each directory, whether it is known and lies at or below `dir`.
pub open spec fn under_flags(targets: Seq<Option<String>>, dir: Seq<char>) -> Seq<bool> {
    targets.map_values(
        |t: Option<String>|
            match t {
                Some(x) => path_starts_with(x@, dir),
                None => false,
            },
    )
}

/// The entries of `s` whose flag in `keep` is not set, in order.
pub open spec fn drop_entries(s: Seq<EntryView>, keep: Seq<bool>) -> Seq<EntryView> {
    select_entries(s, keep.map_values(|b: bool| !b))
}

/// The names of the entries of `s` whose flag in `keep` is set, in order.
pub open spec fn selected_names(s: Seq<EntryView>, keep: Seq<bool>) -> Seq<Seq<char>> {
    select_entries(s, keep).map_values(|e: EntryView| e.0)
}

/// The file `file` of the configuration directory `.config/tp` under the
/// home directory `home` (`home.join(".config").join("tp").join(file)`).
pub fn config_file_in(home: &str, file: &str) -> (p: String)
    ensures
        p@ == config_dir_file(home@, file@),
{
    let a = join_paths(home, ".config");
    let b = join_paths(a.as_str(), "tp");
    join_paths(b.as_str(), file)
}

impl Config {
    /// `~/.config/tp/config.toml` (see `config_file_in`) for the home
    /// directory the system reports at the call, or `None` when it reports
    /// none. Which directory that is belongs to the environment: the
    /// contract says only that it is not empty.
    pub fn path() -> (p: Option<String>)
        ensures
            p matches Some(x) ==> exists|h: Seq<char>|
                h.len() > 0 && x@ == #[trigger] config_dir_file(h, "config.toml"@),
    {
        Self::file_in_config_dir("config.toml")
    }

    /// `~/.config/tp/portals.toml` (see `config_file_in`), the file name the
    /// configuration had before it was renamed, beside `config.toml`; `None`
    /// when the system reports no home directory. As for `path`, which home
    /// directory is used is left to the environment.
    pub fn legacy_path() -> (p: Option<String>)
        ensures
            p matches Some(x) ==> exists|h: Seq<char>|
                h.len() > 0 && x@ == #[trigger] config_dir_file(h, "portals.toml"@),
    {
        Self::file_in_config_dir("portals.toml")
    }

    fn file_in_config_dir(file: &str) -> (p: Option<String>)
        ensures
            p matches Some(x) ==> exists|h: Seq<char>|
                h.len() > 0 && x@ == #[trigger] config_dir_file(h, file@),
    {
        match home_dir() {
            Some(h) => {
                let c = config_file_in(h.as_str(), file);
                assert(c@ == config_dir_file(h@, file@));
                Some(c)
            },
            None => None,
        }
    }

    /// Adds the portal `name`, or points it at `path` if it exists.
    pub fn add_portal(&mut self, name: String, path: String)
        ensures
            final(self).portals@ == old(self).portals@.insert(name@, path@),
            final(self).settings == old(self).settings,
    {
        self.portals.insert(name, path);
    }

    /// Removes the portal `name`; tells whether there was one.
    pub fn remove(&mut self, name: &str) -> (found: bool)
        ensures
            found == old(self).portals@.contains_key(name@),
            final(self).portals@ == old(self).portals@.remove(name@),
            final(self).settings == old(self).settings,
    {
        self.portals.remove(name).is_some()
    }

    /// Adds the portal `name` pointing at `path` unless a portal of that name
    /// exists already, in which case nothing changes; tells whether it was
    /// added.
    pub fn add_new_portal(&mut self, name: String, path: String) -> (added: bool)
        ensures
            added == !old(self).portals@.contains_key(name@),
            added ==> final(self).portals@ == old(self).portals@.insert(name@, path@),
            !added ==> final(self).portals@ == old(self).portals@,
            final(self).settings == old(self).settings,
    {
        if self.portals.contains_key(name.as_str()) {
            return false;
        }
        self.portals.insert(name, path);
        true
    }

    /// Removes every portal named in `portals` (name and path pairs, such as
    /// the broken ones).
    pub fn remove_portals(&mut self, portals: &Vec<(String, String)>)
        ensures
            final(self).portals@ == old(self).portals@.remove_keys(
                pair_views(portals@).map_values(|e: EntryView| e.0).to_set(),
            ),
            final(self).settings == old(self).settings,
    {
        let ghost names = pair_views(portals@).map_values(|e: EntryView| e.0);
        let ghost start = self.portals@;
        let mut i: usize = 0;
        assert(start =~= start.remove_keys(names.take(0).to_set()));
        while i < portals.len()
            invariant
                i <= portals.len(),
                names == pair_views(portals@).map_values(|e: EntryView| e.0),
                self.portals@ == start.remove_keys(names.take(i as int).to_set()),
                self.settings == old(self).settings,
            decreases portals.len() - i,
        {
            self.portals.remove(portals[i].0.as_str());
            assert(names.take(i + 1).to_set() =~= names.take(i as int).to_set().insert(names[i as int])) by {
                assert(names.take(i + 1) =~= names.take(i as int).push(names[i as int]));
                vstd::seq_lib::lemma_seq_contains_after_push(names.take(i as int), names[i as int], names[i as int]);
            }
            assert(self.portals@ =~= start.remove_keys(names.take(i + 1).to_set()));
            i = i + 1;
        }
        assert(names.take(portals.len() as int) =~= names);
    }

    /// The directory each portal points at, in order of name, with `~`
    /// expanded; `None` for a path that needs the home directory when the
    /// system reports none.
    pub fn portal_targets(&self) -> (out: Vec<Option<String>>)
        ensures
            out.len() == self.portals.ordered().len(),
            forall|i: int|
                0 <= i < out.len() ==> {
                    let p = #[trigger] self.portals.ordered()[i].1;
                    &&& !mentions_home(p) ==> (out[i] matches Some(x) && x@ == p)
                    &&& mentions_home(p) ==> (out[i] matches Some(x) ==> exists|h: Seq<char>|
                        h.len() > 0 && x@ == #[trigger] expand_tilde_in(p, h))
                },
    {
        let entries = self.portals.entries();
        let mut out: Vec<Option<String>> = Vec::new();
        let mut i: usize = 0;
        while i < entries.len()
            invariant
                i <= entries.len(),
                pair_views(entries@) == self.portals.ordered(),
                out.len() == i,
                forall|j: int|
                    0 <= j < i ==> {
                        let p = #[trigger] self.portals.ordered()[j].1;
                        &&& !mentions_home(p) ==> (out[j] matches Some(x) && x@ == p)
                        &&& mentions_home(p) ==> (out[j] matches Some(x) ==> exists|h: Seq<char>|
                            h.len() > 0 && x@ == #[trigger] expand_tilde_in(p, h))
                    },
            decreases entries.len() - i,
        {
            let t = expand_tilde(entries[i].1.as_str());
            assert(entries@[i as int].1@ == self.portals.ordered()[i as int].1);
            out.push(t);
            i = i + 1;
        }
        out
    }

    /// A table of the portals whose directory lies at or below `dir`, given
    /// the directory each portal points at (one per portal, in order of
    /// name, as `portal_targets` gives them; `None` for one that is not
    /// known).
    pub fn portals_under(&self, targets: &Vec<Option<String>>, dir: &str) -> (m: PortalMap)
        requires
            targets.len() == self.portals.ordered().len(),
        ensures
            m.ordered() == select_entries(self.portals.ordered(), under_flags(targets@, dir@)),
    {
        let mut flags: Vec<bool> = Vec::new();
        let mut i: usize = 0;
        while i < targets.len()
            invariant
                i <= targets.len(),
                flags@ == under_flags(targets@, dir@).take(i as int),
            decreases targets.len() - i,
        {
            let f = match &targets[i] {
                Some(t) => path_starts_with_exec(t.as_str(), dir),
                None => false,
            };
            flags.push(f);
            assert(under_flags(targets@, dir@).take(i + 1) =~= under_flags(targets@, dir@).take(
                i as int,
            ).push(f));
            i = i + 1;
        }
        assert(under_flags(targets@, dir@).take(targets.len() as int) =~= under_flags(
            targets@,
            dir@,
        ));
        self.portals.select(&flags)
    }

    /// The portals whose directory is missing, in order of name: those whose
    /// flag in `target_is_dir` (one per portal, in order of name, saying
    /// whether its directory exists) is not set.
    pub fn broken_portals(&self, target_is_dir: &Vec<bool>) -> (out: Vec<(String, String)>)
        requires
            target_is_dir.len() == self.portals.ordered().len(),
        ensures
            pair_views(out@) == drop_entries(self.portals.ordered(), target_is_dir@),
    {
        let entries = self.portals.entries();
        let ghost s = self.portals.ordered();
        let ghost keep = target_is_dir@.map_values(|b: bool| !b);
        let mut out: Vec<(String, String)> = Vec::new();
        let mut i: usize = 0;
        assert(s.take(0) =~= Seq::<EntryView>::empty());
        while i < entries.len()
            invariant
                i <= entries.len(),
                entries.len() == target_is_dir.len(),
                pair_views(entries@) == s,
                keep == target_is_dir@.map_values(|b: bool| !b),
                pair_views(out@) == select_entries(s.take(i as int), keep),
            decreases entries.len() - i,
        {
            let ghost t = s.take(i + 1);
            assert(t.drop_last() =~= s.take(i as int));
            if !target_is_dir[i] {
                let name = entries[i].0.clone();
                let path = entries[i].1.clone();
                let ghost before = pair_views(out@);
                out.push((name, path));
                assert(pair_views(out@) =~= before.push(s[i as int]));
            }
            i = i + 1;
        }
        assert(s.take(entries.len() as int) =~= s);
        out
    }

    /// The names of the portals whose flag in `flags` (one per portal, in
    /// order of name) is set, in order of name.
    pub fn names_where(&self, flags: &Vec<bool>) -> (out: Vec<String>)
        requires
            flags.len() == self.portals.ordered().len(),
        ensures
            out@.map_values(|n: String| n@) == selected_names(self.portals.ordered(), flags@),
    {
        let entries = self.portals.entries();
        let ghost s = self.portals.ordered();
        let mut out: Vec<String> = Vec::new();
        let mut i: usize = 0;
        assert(s.take(0) =~= Seq::<EntryView>::empty());
        while i < entries.len()
            invariant
                i <= entries.len(),
                entries.len() == flags.len(),
                pair_views(entries@) == s,
                out@.map_values(|n: String| n@) == select_entries(s.take(i as int), flags@).map_values(
                    |e: EntryView| e.0,
                ),
            decreases entries.len() - i,
        {
            let ghost t = s.take(i + 1);
            assert(t.drop_last() =~= s.take(i as int));
            if flags[i] {
                let name = entries[i].0.clone();
                let ghost before = out@.map_values(|n: String| n@);
                out.push(name);
                assert(out@.map_values(|n: String| n@) =~= before.push(s[i as int].0));
                assert(select_entries(t, flags@).map_values(|e: EntryView| e.0) =~= select_entries(
                    s.take(i as int),
                    flags@,
                ).map_values(|e: EntryView| e.0).push(s[i as int].0));
            }
            i = i + 1;
        }
        assert(s.take(entries.len() as int) =~= s);
        out
    }
}

/// Law of the portal table, as `add_portal` and `remove` change it: after a
/// portal is added, looking it up gives the path it was added with and every
/// other portal is as it was; after a portal is removed it is gone and every
/// other portal is as it was; adding a portal and removing it again leaves
/// the table as removing it would.
pub proof fn law_add_then_lookup(
    before: Map<Seq<char>, Seq<char>>,
    name: Seq<char>,
    path: Seq<char>,
    other: Seq<char>,
)
    requires
        other != name,
    ensures
        before.insert(name, path).contains_key(name),
        before.insert(name, path)[name] == path,
        before.insert(name, path).contains_key(other) == before.contains_key(other),
        before.contains_key(other) ==> before.insert(name, path)[other] == before[other],
        !before.remove(name).contains_key(name),
        before.remove(name).contains_key(other) == before.contains_key(other),
        before.contains_key(other) ==> before.remove(name)[other] == before[other],
        before.insert(name, path).remove(name) == before.remove(name),
{
    assert(before.insert(name, path).remove(name) =~= before.remove(name));
}

} // verus!
