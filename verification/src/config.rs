//! Settings that outlive a session: theme, recently used files and default
//! job options. Paths are of any type `P` that can be compared and copied.

use vstd::prelude::*;
use vstd::std_specs::cmp::PartialEqSpec;

verus! {

/// Number of recently used paths that are kept.
pub const MAX_RECENT: usize = 10;

/// What the types of paths have in common: whether two paths are the same
/// depends on the paths alone, and a copy of a path is equal to it.
pub open spec fn path_type<P: PartialEq + Clone>() -> bool {
    &&& P::obeys_eq_spec()
    &&& forall|a: P, b: P| #[trigger] cloned(a, b) ==> a == b
}

/// The look of the window.
#[derive(Debug, Clone, Copy, PartialEq, Eq, Structural)]
pub enum ThemeChoice {
    System,
    Dark,
    Light,
}

impl Default for ThemeChoice {
    fn default() -> (r: Self)
        ensures
            r == ThemeChoice::System,
    {
        ThemeChoice::System
    }
}

/// Default settings applied to newly added jobs.
#[derive(Debug, Clone, Copy, PartialEq, Eq, Structural)]
pub struct JobDefaults {
    pub format_parquet: bool,
    pub layout_raw: bool,
    /// Grid spacing in nanoseconds.
    pub interval_ns: i64,
    pub relative_timestamp: bool,
    pub keep_can_id: bool,
    pub skip_unknown: bool,
    pub overwrite: bool,
    pub drop_empty: bool,
    /// Column names as Message::Signal[unit] instead of the signal name.
    pub columns_full: bool,
}

impl Default for JobDefaults {
    fn default() -> (r: Self)
        ensures
            r == (JobDefaults {
                format_parquet: false,
                layout_raw: false,
                interval_ns: 100_000_000,
                relative_timestamp: true,
                keep_can_id: false,
                skip_unknown: true,
                overwrite: false,
                drop_empty: true,
                columns_full: false,
            }),
    {
        JobDefaults {
            format_parquet: false,
            layout_raw: false,
            interval_ns: 100_000_000,
            relative_timestamp: true,
            keep_can_id: false,
            skip_unknown: true,
            overwrite: false,
            drop_empty: true,
            columns_full: false,
        }
    }
}

/// The settings of the application.
#[derive(Debug)]
pub struct AppConfig<P> {
    pub theme: ThemeChoice,
    pub recent_dbcs: Vec<P>,
    pub recent_out_dirs: Vec<P>,
    /// Directory of the last BLF the user picked, used as the file-dialog
    /// starting point.
    pub last_blf_dir: Option<P>,
    pub defaults: JobDefaults,
}

/// The mathematical content of an [`AppConfig`].
pub struct ConfigModel<P> {
    pub theme: ThemeChoice,
    pub recent_dbcs: Seq<P>,
    pub recent_out_dirs: Seq<P>,
    pub last_blf_dir: Option<P>,
    pub defaults: JobDefaults,
}

impl<P> View for AppConfig<P> {
    type V = ConfigModel<P>;

    open spec fn view(&self) -> ConfigModel<P> {
        ConfigModel {
            theme: self.theme,
            recent_dbcs: self.recent_dbcs@,
            recent_out_dirs: self.recent_out_dirs@,
            last_blf_dir: self.last_blf_dir,
            defaults: self.defaults,
        }
    }
}

impl<P> Default for AppConfig<P> {
    fn default() -> (r: Self)
        ensures
            r.theme == ThemeChoice::System,
            r.recent_dbcs@.len() == 0,
            r.recent_out_dirs@.len() == 0,
            r.last_blf_dir is None,
            r.defaults == (JobDefaults {
                format_parquet: false,
                layout_raw: false,
                interval_ns: 100_000_000,
                relative_timestamp: true,
                keep_can_id: false,
                skip_unknown: true,
                overwrite: false,
                drop_empty: true,
                columns_full: false,
            }),
    {
        AppConfig {
            theme: ThemeChoice::default(),
            recent_dbcs: Vec::new(),
            recent_out_dirs: Vec::new(),
            last_blf_dir: None,
            defaults: JobDefaults::default(),
        }
    }
}

/// The paths of a list that differ from `path`, in order.
pub open spec fn others<P: PartialEq>(list: Seq<P>, path: P) -> Seq<P> {
    list.filter(|p: P| !p.eq_spec(&path))
}

/// A list of recently used paths after `path` was used: it comes first, then
/// the others, as far as there is room.
pub open spec fn with_recent<P: PartialEq>(list: Seq<P>, path: P) -> Seq<P> {
    let all = seq![path] + others(list, path);
    if all.len() <= MAX_RECENT {
        all
    } else {
        all.take(MAX_RECENT as int)
    }
}

/// Put a path in front of a list of recently used ones.
pub fn push_recent<P: PartialEq>(list: &mut Vec<P>, path: P)
    requires
        P::obeys_eq_spec(),
    ensures
        final(list)@ == with_recent(old(list)@, path),
{
    let ghost all = list@;
    let ghost keep = |p: P| !p.eq_spec(&path);
    let mut kept: Vec<P> = Vec::new();
    let ghost mut done: int = 0;
    proof {
        reveal(Seq::filter);
        assert(all.take(0) =~= Seq::<P>::empty());
        assert(all.skip(0) =~= all);
    }
    while list.len() > 0
        invariant
            P::obeys_eq_spec(),
            keep == (|p: P| !p.eq_spec(&path)),
            0 <= done <= all.len(),
            list@ == all.skip(done),
            kept@ == all.take(done).filter(keep),
        decreases list@.len(),
    {
        let p: P = list.remove(0);
        assert(p == all[done]);
        assert(list@ =~= all.skip(done + 1));
        proof {
            reveal(Seq::filter);
            assert(all.take(done + 1).drop_last() =~= all.take(done));
            assert(all.take(done + 1).last() == p);
        }
        if !(p == path) {
            kept.push(p);
        }
        proof {
            done = done + 1;
        }
    }
    assert(all.take(done) =~= all);
    kept.insert(0, path);
    assert(kept@ =~= seq![path] + others(all, path));
    if kept.len() > MAX_RECENT {
        kept.truncate(MAX_RECENT);
        assert(kept@ =~= (seq![path] + others(all, path)).take(MAX_RECENT as int));
    }
    *list = kept;
}

impl<P: PartialEq> AppConfig<P> {
    /// Remember a database that was used.
    pub fn remember_dbc(&mut self, path: P)
        requires
            P::obeys_eq_spec(),
        ensures
            final(self)@ == (ConfigModel {
                recent_dbcs: with_recent(old(self)@.recent_dbcs, path),
                ..old(self)@
            }),
    {
        push_recent(&mut self.recent_dbcs, path);
    }

    /// Remember an output directory that was used.
    pub fn remember_out_dir(&mut self, path: P)
        requires
            P::obeys_eq_spec(),
        ensures
            final(self)@ == (ConfigModel {
                recent_out_dirs: with_recent(old(self)@.recent_out_dirs, path),
                ..old(self)@
            }),
    {
        push_recent(&mut self.recent_out_dirs, path);
    }
}

/// No path occurs twice.
pub open spec fn distinct_paths<P: PartialEq>(list: Seq<P>) -> bool {
    forall|i: int, j: int|
        #![trigger list[i], list[j]]
        0 <= i < j < list.len() ==> !list[j].eq_spec(&list[i])
}

proof fn lemma_filter_from<A>(s: Seq<A>, keep: spec_fn(A) -> bool)
    ensures
        forall|k: int| 0 <= k < s.filter(keep).len() ==> s.contains(#[trigger] s.filter(keep)[k]),
    decreases s.len(),
{
    reveal(Seq::filter);
    if s.len() > 0 {
        let less = s.drop_last();
        lemma_filter_from(less, keep);
        assert forall|k: int| 0 <= k < s.filter(keep).len() implies s.contains(
            #[trigger] s.filter(keep)[k],
        ) by {
            if k < less.filter(keep).len() {
                let x = less.filter(keep)[k];
                assert(less.contains(x));
                let i = choose|i: int| 0 <= i < less.len() && less[i] == x;
                assert(s[i] == x);
            } else {
                assert(s[s.len() - 1] == s.filter(keep)[k]);
            }
        }
    }
}

proof fn lemma_filter_distinct<P: PartialEq>(list: Seq<P>, keep: spec_fn(P) -> bool)
    requires
        distinct_paths(list),
    ensures
        distinct_paths(list.filter(keep)),
    decreases list.len(),
{
    reveal(Seq::filter);
    if list.len() > 0 {
        let less = list.drop_last();
        assert forall|i: int, j: int|
            #![trigger less[i], less[j]]
            0 <= i < j < less.len() implies !less[j].eq_spec(&less[i]) by {
            assert(list[i] == less[i] && list[j] == less[j]);
        }
        lemma_filter_distinct(less, keep);
        lemma_filter_from(less, keep);
        let before = less.filter(keep);
        let after = list.filter(keep);
        assert forall|i: int, j: int|
            #![trigger after[i], after[j]]
            0 <= i < j < after.len() implies !after[j].eq_spec(&after[i]) by {
            assert(after[i] == before[i]);
            if j < before.len() {
                assert(after[j] == before[j]);
            } else {
                assert(less.contains(before[i]));
                let k = choose|k: int| 0 <= k < less.len() && less[k] == before[i];
                assert(list[k] == before[i]);
                assert(list[list.len() - 1] == after[j]);
            }
        }
    }
}

/// Where every element is kept, a filter changes nothing.
proof fn lemma_filter_all<A>(s: Seq<A>, keep: spec_fn(A) -> bool)
    requires
        forall|i: int| 0 <= i < s.len() ==> keep(#[trigger] s[i]),
    ensures
        s.filter(keep) == s,
    decreases s.len(),
{
    reveal(Seq::filter);
    if s.len() > 0 {
        let less = s.drop_last();
        assert forall|i: int| 0 <= i < less.len() implies keep(#[trigger] less[i]) by {
            assert(less[i] == s[i]);
        }
        lemma_filter_all(less, keep);
        assert(keep(s[s.len() - 1]));
        assert(less.push(s.last()) =~= s);
    } else {
        assert(s.filter(keep) =~= s);
    }
}

/// A list of recently used paths starts with the latest one, which occurs
/// nowhere else in it. Behind it stand the other paths in their old order, as
/// far as there is room.
pub proof fn law_latest_path_comes_first<P: PartialEq>(list: Seq<P>, path: P)
    ensures
        ({
            let after = with_recent(list, path);
            let kept = others(list, path);
            &&& after[0] == path
            &&& after.skip(1) == kept.take(
                if kept.len() < MAX_RECENT {
                    kept.len() as int
                } else {
                    MAX_RECENT - 1
                },
            )
            &&& forall|i: int| 0 < i < after.len() ==> !(#[trigger] after[i]).eq_spec(&path)
        }),
{
    let keep = |p: P| !p.eq_spec(&path);
    let kept = others(list, path);
    let after = with_recent(list, path);
    assert forall|i: int| 0 < i < after.len() implies !(#[trigger] after[i]).eq_spec(&path) by {
        assert(after[i] == kept[i - 1]);
        list.lemma_filter_pred(keep, i - 1);
    }
}

/// Using a path again at once leaves the list as it is, if the path is the
/// same as itself.
pub proof fn law_same_path_again<P: PartialEq>(list: Seq<P>, path: P)
    requires
        path.eq_spec(&path),
    ensures
        with_recent(with_recent(list, path), path) == with_recent(list, path),
{
    let keep = |p: P| !p.eq_spec(&path);
    let after = with_recent(list, path);
    let rest = after.skip(1);
    law_latest_path_comes_first(list, path);
    law_recent_paths(list, path);
    assert forall|i: int| 0 <= i < rest.len() implies keep(#[trigger] rest[i]) by {
        assert(rest[i] == after[i + 1]);
    }
    lemma_filter_all(rest, keep);
    let first = seq![path];
    assert(first.filter(keep) =~= Seq::<P>::empty()) by {
        reveal(Seq::filter);
        assert(first.drop_last() =~= Seq::<P>::empty());
        assert(first.last() == path);
        assert(first.drop_last().filter(keep) =~= Seq::<P>::empty());
    }
    assert(after =~= first + rest);
    Seq::filter_distributes_over_add(first, rest, keep);
    assert(others(after, path) =~= rest);
}

/// A list of recently used paths starts with the latest one, never grows
/// beyond its room, and stays without repetitions.
pub proof fn law_recent_paths<P: PartialEq>(list: Seq<P>, path: P)
    ensures
        ({
            let after = with_recent(list, path);
            &&& 0 < after.len() <= MAX_RECENT
            &&& after[0] == path
            &&& distinct_paths(list) ==> distinct_paths(after)
        }),
{
    let keep = |p: P| !p.eq_spec(&path);
    let kept = others(list, path);
    let after = with_recent(list, path);
    if distinct_paths(list) {
        lemma_filter_distinct(list, keep);
        assert forall|i: int, j: int|
            #![trigger after[i], after[j]]
            0 <= i < j < after.len() implies !after[j].eq_spec(&after[i]) by {
            assert(after[j] == kept[j - 1]);
            if i > 0 {
                assert(after[i] == kept[i - 1]);
            } else {
                list.lemma_filter_pred(keep, j - 1);
            }
        }
    }
}

/// A path that was in use and is another one stays on the list while there is
/// room.
pub proof fn law_recent_paths_stay<P: PartialEq>(list: Seq<P>, path: P, i: int)
    requires
        0 <= i < list.len(),
        list.len() < MAX_RECENT,
        !list[i].eq_spec(&path),
    ensures
        with_recent(list, path).contains(list[i]),
{
    let keep = |p: P| !p.eq_spec(&path);
    let kept = others(list, path);
    list.lemma_filter_len(keep);
    list.lemma_filter_contains(keep, i);
    let k = choose|k: int| 0 <= k < kept.len() && kept[k] == list[i];
    assert(with_recent(list, path)[k + 1] == list[i]);
}

/// The other paths are those that differ, in their order, one by one.
pub proof fn law_other_paths<P: PartialEq>(list: Seq<P>, last: P, path: P)
    ensures
        others(Seq::empty(), path) == Seq::<P>::empty(),
        others(list.push(last), path) == (if last.eq_spec(&path) {
            others(list, path)
        } else {
            others(list, path).push(last)
        }),
{
    reveal(Seq::filter);
    assert(list.push(last).drop_last() =~= list);
    assert(others(Seq::<P>::empty(), path) =~= Seq::<P>::empty());
}

} // verus!
