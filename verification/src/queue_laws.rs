//! What holds of the job queue across its operations.

use crate::config::{law_recent_paths, ConfigModel};
use crate::convert::{OutputLayout, Summary, TimestampMode};
use crate::decode::ColumnSpec;
use crate::export::OutputFormat;
use crate::job::{
    differs, distinct_names, fits_search, job_options, with_name, without_name, JobModel, JobState,
    SettingsModel,
};
use crate::lexer::contains_text;
use crate::queue::{
    all_done, end_state, finished, first_existing, job_index, jobs_after, lemma_job_index,
    lemma_job_index_is, listed, offered, run_after, run_specs, LogEntry, QueueModel, RunModel,
    Surroundings, WorkerEvent,
};
use vstd::prelude::*;
use vstd::std_specs::cmp::PartialEqSpec;

verus! {

/// No file is in the queue twice.
pub open spec fn distinct_files<P: PartialEq>(q: QueueModel<P>) -> bool {
    forall|i: int, j: int|
        #![trigger q.jobs[i], q.jobs[j]]
        0 <= i < j < q.jobs.len() ==> !q.jobs[i].blf.eq_spec(&q.jobs[j].blf)
}

/// No file gets into the queue twice.
pub proof fn law_no_file_twice<P: PartialEq>(q: QueueModel<P>, blf: P, s: Surroundings<P>)
    requires
        distinct_files(q),
        !q.holds(blf),
    ensures
        distinct_files(q.with_file(blf, s)),
{
    let after = q.with_file(blf, s);
    assert forall|i: int, j: int|
        #![trigger after.jobs[i], after.jobs[j]]
        0 <= i < j < after.jobs.len() implies !after.jobs[i].blf.eq_spec(&after.jobs[j].blf) by {
        assert(after.jobs[i] == q.jobs[i]);
        if j < q.jobs.len() {
            assert(after.jobs[j] == q.jobs[j]);
        }
    }
}

/// Starting the queue takes every job that can be converted: none is left, so
/// none is handed out twice.
pub proof fn law_start_takes_every_job<P>(q: QueueModel<P>)
    ensures
        !q.after_start().has_runnable(),
{
    let after = q.after_start();
    if after.has_runnable() {
        let i = choose|i: int| 0 <= i < after.jobs.len() && (#[trigger] after.jobs[i]).runnable();
        assert(q.jobs[i].runnable());
    }
}

/// The orders are those of the jobs that can be converted, in their order in
/// the queue, each with the job's own files and settings.
pub proof fn law_orders_follow_the_queue<P>(jobs: Seq<JobModel<P>>, n: int, i: int)
    requires
        0 <= i < n <= jobs.len(),
        jobs[i].runnable(),
    ensures
        ({
            let order = run_specs(jobs, n)[run_specs(jobs, i).len() as int];
            &&& run_specs(jobs, i).len() < run_specs(jobs, n).len()
            &&& order.job_id == jobs[i].id
            &&& order.blf == jobs[i].blf
            &&& Some(order.dbc) == jobs[i].dbc
            &&& order.out_dir == jobs[i].out_dir
            &&& order.options == crate::job::job_options(jobs[i].settings)
        }),
    decreases n,
{
    if i < n - 1 {
        law_orders_follow_the_queue(jobs, n - 1, i);
    }
}

/// A job that was moved and is moved back stands where it stood.
pub proof fn law_moving_back<P>(q: QueueModel<P>, id: u64, up: bool)
    requires
        q.wf(),
        q.with_moved(id, up) != q,
    ensures
        q.with_moved(id, up).with_moved(id, !up) == q,
{
    lemma_job_index(q.jobs, id, q.jobs.len() as int);
    if let Some(i) = q.position(id) {
        let k = if up {
            i - 1
        } else {
            i + 1
        };
        let moved = q.with_moved(id, up);
        assert(moved.jobs[k] == q.jobs[i]);
        assert forall|j: int| 0 <= j < k implies (#[trigger] moved.jobs[j]).id != id by {
            if j == i {
                assert(moved.jobs[j] == q.jobs[k]);
                assert(q.jobs[i].id != q.jobs[k].id);
            } else {
                assert(moved.jobs[j] == q.jobs[j]);
                assert(q.jobs[j].id != q.jobs[i].id);
            }
        }
        lemma_job_index_is(moved.jobs, id, k, moved.jobs.len() as int);
        assert(moved.with_moved(id, !up).jobs =~= q.jobs);
    }
}

/// A deleted job is gone, and every other one is still there.
pub proof fn law_deleted_job_is_gone<P>(q: QueueModel<P>, id: u64, other: u64)
    requires
        q.wf(),
    ensures
        q.without_job(id).position(id) is None,
        other != id && q.position(other) is Some ==> ({
            let after = q.without_job(id);
            &&& after.position(other) is Some
            &&& after.jobs[after.position(other)->0] == q.jobs[q.position(other)->0]
        }),
{
    let after = q.without_job(id);
    lemma_job_index(q.jobs, id, q.jobs.len() as int);
    lemma_job_index(q.jobs, other, q.jobs.len() as int);
    lemma_job_index(after.jobs, id, after.jobs.len() as int);
    if let Some(i) = q.position(id) {
        if let Some(k) = after.position(id) {
            let p = if k < i {
                k
            } else {
                k + 1
            };
            assert(after.jobs[k] == q.jobs[p]);
            assert(q.jobs[p].id != q.jobs[i].id);
        }
        if other != id {
            if let Some(j) = q.position(other) {
                let k = if j < i {
                    j
                } else {
                    j - 1
                };
                assert(after.jobs[k] == q.jobs[j]);
                assert forall|m: int| 0 <= m < k implies (#[trigger] after.jobs[m]).id
                    != other by {
                    let p = if m < i {
                        m
                    } else {
                        m + 1
                    };
                    assert(after.jobs[m] == q.jobs[p]);
                }
                lemma_job_index_is(after.jobs, other, k, after.jobs.len() as int);
            }
        }
    }
}

proof fn lemma_jobs_after<P>(
    jobs: Seq<JobModel<P>>,
    ends: Seq<(u64, Result<Summary, String>)>,
    n: int,
)
    requires
        0 <= n <= ends.len(),
        forall|i: int, j: int|
            0 <= i < j < jobs.len() ==> (#[trigger] jobs[i]).id != (#[trigger] jobs[j]).id,
    ensures
        jobs_after(jobs, ends, n).len() == jobs.len(),
        forall|i: int|
            0 <= i < jobs.len() ==> ({
                let after = #[trigger] jobs_after(jobs, ends, n)[i];
                &&& after == (JobModel { state: after.state, ..jobs[i] })
                &&& (forall|k: int| 0 <= k < n ==> (#[trigger] ends[k]).0 != jobs[i].id)
                    ==> after == jobs[i]
            }),
    decreases n,
{
    if n > 0 {
        lemma_jobs_after(jobs, ends, n - 1);
        let before = jobs_after(jobs, ends, n - 1);
        let (id, result) = ends[n - 1];
        lemma_job_index(before, id, before.len() as int);
        assert forall|i: int| 0 <= i < jobs.len() implies ({
            let after = #[trigger] jobs_after(jobs, ends, n)[i];
            &&& after == (JobModel { state: after.state, ..jobs[i] })
            &&& (forall|k: int| 0 <= k < n ==> (#[trigger] ends[k]).0 != jobs[i].id) ==> after
                == jobs[i]
        }) by {
            assert(before[i] == (JobModel { state: before[i].state, ..jobs[i] }));
            if forall|k: int| 0 <= k < n ==> (#[trigger] ends[k]).0 != jobs[i].id {
                assert(ends[n - 1].0 != jobs[i].id);
            }
        }
    }
}

/// What a worker says changes nothing about a job but its state, and nothing
/// at all about a job that has not come to its end.
pub proof fn law_events_change_states_only<P>(q: QueueModel<P>, events: Seq<WorkerEvent>, i: int)
    requires
        q.wf(),
        0 <= i < q.jobs.len(),
    ensures
        ({
            let after = q.after_events(events).0;
            let ends = finished(events, events.len() as int);
            &&& after.jobs.len() == q.jobs.len()
            &&& after.jobs[i] == (JobModel { state: after.jobs[i].state, ..q.jobs[i] })
            &&& (forall|k: int| 0 <= k < ends.len() ==> (#[trigger] ends[k]).0 != q.jobs[i].id)
                ==> after.jobs[i] == q.jobs[i]
        }),
{
    let ends = finished(events, events.len() as int);
    lemma_jobs_after(q.jobs, ends, ends.len() as int);
}

/// A job whose end is the last that the worker speaks of has the state that
/// this end gives it.
pub proof fn law_end_gives_the_state<P>(
    jobs: Seq<JobModel<P>>,
    ends: Seq<(u64, Result<Summary, String>)>,
    i: int,
)
    requires
        ends.len() > 0,
        forall|a: int, b: int|
            0 <= a < b < jobs.len() ==> (#[trigger] jobs[a]).id != (#[trigger] jobs[b]).id,
        0 <= i < jobs.len(),
        jobs[i].id == ends.last().0,
    ensures
        jobs_after(jobs, ends, ends.len() as int)[i].state == end_state(ends.last().1),
{
    let n = ends.len() as int;
    let before = jobs_after(jobs, ends, n - 1);
    lemma_jobs_after(jobs, ends, n - 1);
    assert(before[i].id == jobs[i].id);
    assert forall|j: int| 0 <= j < i implies (#[trigger] before[j]).id != jobs[i].id by {
        assert(jobs[j].id != jobs[i].id);
    }
    lemma_job_index_is(before, ends.last().0, i, before.len() as int);
}

/// Once the worker is done nothing runs.
pub proof fn law_done_means_idle<P>(q: QueueModel<P>, events: Seq<WorkerEvent>)
    requires
        all_done(events, events.len() as int),
    ensures
        q.after_events(events).0.run is None,
{
}

/// After a retry no job counts as failed.
pub proof fn law_retry_leaves_no_failure<P>(q: QueueModel<P>, i: int)
    requires
        0 <= i < q.jobs.len(),
    ensures
        !(q.with_retries().jobs[i].state is Failed),
        q.with_retries().jobs[i].state.waiting() == q.jobs[i].state.waiting(),
{
}

/// Once settings were spread every job has those of the source and keeps its
/// own file, and a job that had a database keeps it.
pub proof fn law_spread_settings<P>(q: QueueModel<P>, id: u64, i: int)
    requires
        q.wf(),
        q.position(id) is Some,
        0 <= i < q.jobs.len(),
    ensures
        ({
            let source = q.jobs[q.position(id)->0];
            let after = q.with_settings_of(id).jobs[i];
            &&& after.settings == source.settings
            &&& after.out_dir == source.out_dir
            &&& after.blf == q.jobs[i].blf
            &&& after.state == q.jobs[i].state
            &&& q.jobs[i].dbc is Some ==> after.dbc == q.jobs[i].dbc
        }),
{
    lemma_job_index(q.jobs, id, q.jobs.len() as int);
    let s = q.position(id)->0;
    if q.jobs[i].id == id {
        if i != s {
            assert(q.jobs[i].id != q.jobs[s].id);
        }
    }
}

/// A choice of columns changes for the given column alone.
pub proof fn law_choice_of_columns(names: Seq<Seq<char>>, name: Seq<char>, other: Seq<char>)
    ensures
        with_name(names, name).contains(name),
        !without_name(names, name).contains(name),
        other != name ==> with_name(names, name).contains(other) == names.contains(other),
        other != name ==> without_name(names, name).contains(other) == names.contains(other),
{
    let keep = differs(name);
    let less = without_name(names, name);
    let more = with_name(names, name);
    if less.contains(name) {
        let k = choose|k: int| 0 <= k < less.len() && less[k] == name;
        names.lemma_filter_pred(keep, k);
    }
    if !names.contains(name) {
        assert(more[names.len() as int] == name);
    }
    if other != name {
        if names.contains(other) {
            let i = choose|i: int| 0 <= i < names.len() && names[i] == other;
            names.lemma_filter_contains(keep, i);
            assert(more[i] == other);
        }
        if more.contains(other) && !names.contains(name) {
            let i = choose|i: int| 0 <= i < more.len() && more[i] == other;
            assert(names[i] == other);
        }
        if less.contains(other) {
            let k = choose|k: int| 0 <= k < less.len() && less[k] == other;
            lemma_filter_source(names, keep, k);
        }
    }
}

proof fn lemma_filter_source<A>(s: Seq<A>, keep: spec_fn(A) -> bool, k: int)
    requires
        0 <= k < s.filter(keep).len(),
    ensures
        s.contains(s.filter(keep)[k]),
    decreases s.len(),
{
    reveal(Seq::filter);
    if s.len() > 0 {
        let less = s.drop_last();
        if k < less.filter(keep).len() {
            lemma_filter_source(less, keep, k);
            let x = less.filter(keep)[k];
            let i = choose|i: int| 0 <= i < less.len() && less[i] == x;
            assert(s[i] == x);
        } else {
            assert(s[s.len() - 1] == s.filter(keep)[k]);
        }
    }
}

/// The options of a job say what its settings say, one by one.
pub proof fn law_options_follow_the_settings(s: SettingsModel)
    ensures
        ({
            let o = job_options(s);
            &&& (o.format == OutputFormat::Parquet) == s.format_parquet
            &&& (o.layout == OutputLayout::PerFrame) == s.layout_raw
            &&& o.resample_ns == s.interval_ns
            &&& (o.timestamp == TimestampMode::RelativeSeconds) == s.relative_timestamp
            &&& o.keep_can_id == s.keep_can_id
            &&& o.skip_unknown_ids == s.skip_unknown
            &&& o.overwrite == s.overwrite
            &&& o.signal_filter is Some == s.only_selected
            &&& s.only_selected ==> o.signal_filter->0 == s.selected_signals
        }),
{
}

/// Of the recently used databases the first one that exists is taken, if one
/// does.
proof fn lemma_first_existing_is_first<P>(paths: Seq<P>, found: Seq<bool>, n: int)
    requires
        0 <= n <= paths.len(),
    ensures
        match first_existing(paths, found, n) {
            Some(p) => exists|i: int|
                0 <= i < n && #[trigger] found[i] && paths[i] == p && forall|j: int|
                    0 <= j < i ==> !#[trigger] found[j],
            None => forall|i: int| 0 <= i < n ==> !#[trigger] found[i],
        },
    decreases n,
{
    if n > 0 {
        lemma_first_existing_is_first(paths, found, n - 1);
        if first_existing(paths, found, n - 1) is None && found[n - 1] {
            assert(paths[n - 1] == first_existing(paths, found, n)->0);
        }
    }
}

/// A file that is added becomes the last job, ready and selected, under a new
/// number, with the settings that new jobs have. Its database is the only one
/// next to it, or else the first recently used one that exists; its output
/// goes to the most recent directory if that exists, or else to the directory
/// of the file. The other jobs stay as they are.
pub proof fn law_added_job<P: PartialEq>(q: QueueModel<P>, blf: P, s: Surroundings<P>)
    requires
        q.next_id < u64::MAX,
        s.recent_dbc_exists@.len() == q.config.recent_dbcs.len(),
    ensures
        ({
            let after = q.with_file(blf, s);
            let job = after.jobs.last();
            let recents = q.config.recent_dbcs;
            let d = q.config.defaults;
            &&& after.jobs == q.jobs.push(job)
            &&& job.blf == blf
            &&& job.id == q.next_id
            &&& after.next_id == q.next_id + 1
            &&& after.selected == Some(job.id)
            &&& after.run == q.run
            &&& after.config == (ConfigModel { last_blf_dir: s.parent, ..q.config })
            &&& job.state is Ready
            &&& job.dbc_candidates == s.candidates@
            &&& job.dbc_auto == (s.candidates@.len() == 1)
            &&& s.candidates@.len() == 1 ==> job.dbc == Some(s.candidates@[0])
            &&& s.candidates@.len() != 1 ==> match job.dbc {
                Some(p) => exists|i: int|
                    0 <= i < recents.len() && #[trigger] s.recent_dbc_exists@[i] && recents[i] == p
                        && forall|j: int| 0 <= j < i ==> !#[trigger] s.recent_dbc_exists@[j],
                None => forall|i: int|
                    0 <= i < recents.len() ==> !#[trigger] s.recent_dbc_exists@[i],
            }
            &&& if q.config.recent_out_dirs.len() > 0 && s.recent_out_dir_exists {
                job.out_dir == q.config.recent_out_dirs[0]
            } else {
                s.parent matches Some(p) ==> job.out_dir == p
            }
            &&& job.settings.format_parquet == d.format_parquet
            &&& job.settings.layout_raw == d.layout_raw
            &&& job.settings.interval_ns == d.interval_ns
            &&& job.settings.relative_timestamp == d.relative_timestamp
            &&& job.settings.keep_can_id == d.keep_can_id
            &&& job.settings.skip_unknown == d.skip_unknown
            &&& job.settings.overwrite == d.overwrite
            &&& !job.settings.only_selected
            &&& job.settings.selected_signals.len() == 0
        }),
{
    let recents = q.config.recent_dbcs;
    lemma_first_existing_is_first(recents, s.recent_dbc_exists@, recents.len() as int);
    assert(q.with_file(blf, s).jobs.drop_last() =~= q.jobs);
}

/// A database that is dropped goes to the selected job, if it is there; else
/// to every job without one. The other jobs keep what they have, and it
/// becomes the most recently used one.
pub proof fn law_dropped_database<P: PartialEq>(q: QueueModel<P>, dbc: P, i: int)
    requires
        0 <= i < q.jobs.len(),
    ensures
        ({
            let after = q.with_assigned(dbc);
            let chosen = exists|k: int|
                0 <= k < q.jobs.len() && q.selected == Some((#[trigger] q.jobs[k]).id);
            let gets = if chosen {
                q.selected == Some(q.jobs[i].id)
            } else {
                q.jobs[i].dbc is None
            };
            &&& after.jobs.len() == q.jobs.len()
            &&& gets ==> after.jobs[i] == (JobModel {
                dbc: Some(dbc),
                dbc_auto: false,
                ..q.jobs[i]
            })
            &&& !gets ==> after.jobs[i] == q.jobs[i]
            &&& after.config.recent_dbcs.len() > 0
            &&& after.config.recent_dbcs[0] == dbc
            &&& after.selected == q.selected
            &&& after.run == q.run
        }),
{
    law_recent_paths(q.config.recent_dbcs, dbc);
    let chosen = exists|k: int|
        0 <= k < q.jobs.len() && q.selected == Some((#[trigger] q.jobs[k]).id);
    let hit = exists|k: int| 0 <= k < q.jobs.len() && q.wants_dbc(#[trigger] q.jobs[k]);
    match q.selected {
        Some(id) => {
            if hit {
                let k = choose|k: int| 0 <= k < q.jobs.len() && q.wants_dbc(#[trigger] q.jobs[k]);
                assert(q.selected == Some(q.jobs[k].id));
            }
            if chosen {
                let k = choose|k: int|
                    0 <= k < q.jobs.len() && q.selected == Some((#[trigger] q.jobs[k]).id);
                assert(q.wants_dbc(q.jobs[k]));
            }
        },
        None => {
            if !hit {
                assert(!q.wants_dbc(q.jobs[i]));
            }
        },
    }
}

/// A job can be converted exactly if it is ready or has failed, and has a
/// database.
pub proof fn law_which_jobs_can_be_converted<P>(j: JobModel<P>)
    ensures
        j.runnable() <==> (j.state is Ready || j.state is Failed) && j.dbc is Some,
{
}

/// Every order is that of a job that can be converted.
pub proof fn law_every_order_has_its_job<P>(jobs: Seq<JobModel<P>>, n: int, k: int)
    requires
        0 <= n <= jobs.len(),
        0 <= k < run_specs(jobs, n).len(),
    ensures
        exists|i: int|
            0 <= i < n && (#[trigger] jobs[i]).runnable() && run_specs(jobs, n)[k].job_id
                == jobs[i].id && run_specs(jobs, i).len() == k,
    decreases n,
{
    if n > 0 {
        if k < run_specs(jobs, n - 1).len() {
            law_every_order_has_its_job(jobs, n - 1, k);
            let i = choose|i: int|
                0 <= i < n - 1 && (#[trigger] jobs[i]).runnable() && run_specs(
                    jobs,
                    n - 1,
                )[k].job_id == jobs[i].id && run_specs(jobs, i).len() == k;
            assert(jobs[i].runnable());
            assert(run_specs(jobs, n)[k] == run_specs(jobs, n - 1)[k]);
        } else {
            assert(jobs[n - 1].runnable());
        }
    }
}

/// Starting marks the jobs that can be converted as running and leaves the
/// others as they are.
pub proof fn law_started_jobs_run<P>(q: QueueModel<P>, i: int)
    requires
        0 <= i < q.jobs.len(),
    ensures
        ({
            let after = q.after_start();
            &&& after.jobs.len() == q.jobs.len()
            &&& q.jobs[i].runnable() ==> after.jobs[i] == (JobModel {
                state: JobState::Running,
                ..q.jobs[i]
            }) && after.run is Some
            &&& !q.jobs[i].runnable() ==> after.jobs[i] == q.jobs[i]
        }),
{
}

/// A job that is moved changes places with its neighbour above or below; at
/// the end of the queue, or if it is gone, nothing happens.
pub proof fn law_moved_job<P>(q: QueueModel<P>, i: int, up: bool, k: int)
    requires
        q.wf(),
        0 <= i < q.jobs.len(),
        0 <= k < q.jobs.len(),
    ensures
        ({
            let after = q.with_moved(q.jobs[i].id, up);
            let other = if up {
                i - 1
            } else {
                i + 1
            };
            &&& after.jobs.len() == q.jobs.len()
            &&& after.selected == q.selected
            &&& after.jobs[k] == (if !(0 <= other < q.jobs.len()) {
                q.jobs[k]
            } else if k == i {
                q.jobs[other]
            } else if k == other {
                q.jobs[i]
            } else {
                q.jobs[k]
            })
        }),
{
    assert forall|j: int| 0 <= j < i implies (#[trigger] q.jobs[j]).id != q.jobs[i].id by {}
    lemma_job_index_is(q.jobs, q.jobs[i].id, i, q.jobs.len() as int);
}

/// When the selected job is deleted the first one of the rest is selected, if
/// there is one; else the selection stays.
pub proof fn law_selection_after_deletion<P>(q: QueueModel<P>, id: u64)
    requires
        q.position(id) is Some,
    ensures
        ({
            let after = q.without_job(id);
            &&& after.jobs.len() == q.jobs.len() - 1
            &&& q.selected != Some(id) ==> after.selected == q.selected
            &&& q.selected == Some(id) && after.jobs.len() > 0 ==> after.selected == Some(
                after.jobs[0].id,
            )
            &&& q.selected == Some(id) && after.jobs.len() == 0 ==> after.selected is None
        }),
{
    lemma_job_index(q.jobs, id, q.jobs.len() as int);
}

/// A retry makes the failed jobs ready and leaves the others as they are.
pub proof fn law_retried_jobs<P>(q: QueueModel<P>, i: int)
    requires
        0 <= i < q.jobs.len(),
    ensures
        q.with_retries().jobs.len() == q.jobs.len(),
        q.jobs[i].state is Failed ==> q.with_retries().jobs[i] == (JobModel {
            state: JobState::Ready,
            ..q.jobs[i]
        }),
        !(q.jobs[i].state is Failed) ==> q.with_retries().jobs[i] == q.jobs[i],
{
}

/// A job that had no database gets that of the source when settings are
/// spread; the source itself stays as it is.
pub proof fn law_spread_database<P>(q: QueueModel<P>, id: u64, i: int)
    requires
        q.position(id) is Some,
        0 <= i < q.jobs.len(),
    ensures
        ({
            let source = q.jobs[q.position(id)->0];
            let after = q.with_settings_of(id).jobs[i];
            &&& q.with_settings_of(id).jobs.len() == q.jobs.len()
            &&& q.jobs[i].id == id ==> after == q.jobs[i]
            &&& q.jobs[i].id != id && q.jobs[i].dbc is None ==> after.dbc == source.dbc
                && !after.dbc_auto
            &&& q.jobs[i].dbc is Some ==> after.dbc_auto == q.jobs[i].dbc_auto
            &&& after.id == q.jobs[i].id
        }),
{
}

/// The run follows what the worker says: the start of a job makes it the
/// current one, from the beginning; progress counts for the current job alone,
/// and a message stays until another comes.
pub proof fn law_run_follows_the_worker(run: RunModel, event: WorkerEvent)
    ensures
        ({
            let after = run_after(run, event);
            match event {
                WorkerEvent::Started { job_id, index, total } => {
                    &&& after.current_job == Some(job_id)
                    &&& after.queue_index == index
                    &&& after.queue_total == total
                    &&& after.progress.bytes_read == 0
                    &&& after.progress.total_bytes == 0
                    &&& after.progress.frames_read == 0
                    &&& after.progress.frames_decoded == 0
                    &&& after.current_message is None
                },
                WorkerEvent::Progress { job_id, progress, message } => {
                    &&& after.current_job == run.current_job
                    &&& after.queue_index == run.queue_index
                    &&& after.queue_total == run.queue_total
                    &&& run.current_job == Some(job_id) ==> after.progress == progress
                    &&& run.current_job != Some(job_id) ==> after == run
                    &&& run.current_job == Some(job_id) && message is Some
                        ==> after.current_message == Some(message->0@)
                    &&& message is None ==> after.current_message == run.current_message
                },
                _ => after == run,
            }
        }),
{
}

/// The start of a job is logged if the job is in the queue, its end in any
/// case, and the end of all at last; the run then ends.
pub proof fn law_log_of_an_event<P>(q: QueueModel<P>, event: WorkerEvent)
    requires
        q.run is Some,
    ensures
        ({
            let (after, log) = q.after_events(seq![event]);
            match event {
                WorkerEvent::Started { job_id, .. } => {
                    &&& (exists|i: int| 0 <= i < q.jobs.len() && (#[trigger] q.jobs[i]).id
                        == job_id) ==> log == seq![LogEntry::Loading(job_id)]
                    &&& !(exists|i: int| 0 <= i < q.jobs.len() && (#[trigger] q.jobs[i]).id
                        == job_id) ==> log.len() == 0
                    &&& after.run is Some
                },
                WorkerEvent::Progress { .. } => log.len() == 0 && after.run is Some,
                WorkerEvent::Finished { job_id, .. } => log == seq![LogEntry::Finished(job_id)]
                    && after.run is Some,
                WorkerEvent::AllDone => log == seq![LogEntry::QueueDone] && after.run is None,
            }
        }),
{
    let events = seq![event];
    reveal_with_fuel(crate::queue::started, 2);
    reveal_with_fuel(finished, 2);
    assert(events[0] == event);
    if let WorkerEvent::Started { job_id, .. } = event {
        lemma_job_index(q.jobs, job_id, q.jobs.len() as int);
    }
    let ends = finished(events, 1);
    assert(ends =~= (match event {
        WorkerEvent::Finished { job_id, result } => seq![(job_id, result)],
        _ => Seq::empty(),
    }));
    let log = q.after_events(events).1;
    match event {
        WorkerEvent::Finished { job_id, .. } => {
            assert(log =~= seq![LogEntry::Finished(job_id)]);
        },
        WorkerEvent::AllDone => {
            assert(all_done(events, 1));
            assert(log =~= seq![LogEntry::QueueDone]);
        },
        WorkerEvent::Started { job_id, .. } => {
            if job_index(q.jobs, job_id, q.jobs.len() as int) is Some {
                assert(log =~= seq![LogEntry::Loading(job_id)]);
            }
        },
        _ => {},
    }
}

/// The databases that are offered are those next to the file, first and in
/// their order, and the recently used ones that exist; none of the latter is
/// offered that is the same as one before it.
pub proof fn law_offered_databases<P: PartialEq>(
    candidates: Seq<P>,
    recents: Seq<P>,
    found: Seq<bool>,
    n: int,
    k: int,
)
    requires
        0 <= n <= recents.len(),
    ensures
        ({
            let list = offered(candidates, recents, found, n);
            &&& candidates.len() <= list.len()
            &&& list.take(candidates.len() as int) == candidates
            &&& candidates.len() <= k < list.len() ==> (exists|i: int|
                0 <= i < n && #[trigger] found[i] && recents[i] == list[k]) && (forall|j: int|
                0 <= j < k ==> !(#[trigger] list[j]).eq_spec(&list[k]))
            &&& 0 <= k < n && found[k] ==> list.contains(recents[k]) || exists|j: int|
                0 <= j < list.len() && (#[trigger] list[j]).eq_spec(&recents[k])
        }),
    decreases n,
{
    let list = offered(candidates, recents, found, n);
    if n <= 0 {
        assert(list.take(candidates.len() as int) =~= candidates);
    } else {
        let before = offered(candidates, recents, found, n - 1);
        law_offered_databases(candidates, recents, found, n - 1, k);
        assert(list.take(candidates.len() as int) =~= before.take(candidates.len() as int));
        assert(forall|j: int| 0 <= j < before.len() ==> #[trigger] list[j] == before[j]);
        if candidates.len() <= k < list.len() {
            if k < before.len() {
                assert(list[k] == before[k]);
                let i = choose|i: int|
                    0 <= i < n - 1 && #[trigger] found[i] && recents[i] == before[k];
                assert(found[i] && recents[i] == list[k]);
            } else {
                assert(found[n - 1] && recents[n - 1] == list[k]);
                assert forall|j: int| 0 <= j < k implies !(#[trigger] list[j]).eq_spec(
                    &list[k],
                ) by {
                    assert(list[j] == before[j]);
                }
            }
        }
        if 0 <= k < n && found[k] {
            if k < n - 1 {
                if before.contains(recents[k]) {
                    let j = choose|j: int| 0 <= j < before.len() && before[j] == recents[k];
                    assert(list[j] == recents[k]);
                } else {
                    let j = choose|j: int|
                        0 <= j < before.len() && (#[trigger] before[j]).eq_spec(&recents[k]);
                    assert(list[j].eq_spec(&recents[k]));
                }
            } else if listed(before, recents[k]) {
                let j = choose|j: int|
                    0 <= j < before.len() && (#[trigger] before[j]).eq_spec(&recents[k]);
                assert(list[j].eq_spec(&recents[k]));
            } else {
                assert(list[before.len() as int] == recents[k]);
            }
        }
    }
}

/// Choosing every column chooses each name once, and no other name.
pub proof fn law_every_column_is_chosen(columns: Seq<ColumnSpec>, n: int, name: Seq<char>)
    requires
        0 <= n <= columns.len(),
    ensures
        distinct_names(columns, n).no_duplicates(),
        distinct_names(columns, n).contains(name) <==> exists|i: int|
            0 <= i < n && (#[trigger] columns[i]).name@ == name,
    decreases n,
{
    if n > 0 {
        law_every_column_is_chosen(columns, n - 1, name);
        let before = distinct_names(columns, n - 1);
        let last = columns[n - 1].name@;
        let after = distinct_names(columns, n);
        law_choice_of_columns(before, last, name);
        if before.contains(name) {
            let i = choose|i: int| 0 <= i < n - 1 && (#[trigger] columns[i]).name@ == name;
            assert(columns[i].name@ == name);
        }
        if !before.contains(last) {
            assert(after.no_duplicates()) by {
                assert forall|a: int, b: int|
                    0 <= a < after.len() && 0 <= b < after.len() && a != b implies after[a]
                    != after[b] by {
                    if a < before.len() {
                        assert(before.contains(before[a]));
                    }
                    if b < before.len() {
                        assert(before.contains(before[b]));
                    }
                }
            }
        }
    }
}

/// A column is listed exactly if nothing is searched for, or its name or that
/// of its message contains what is.
pub proof fn law_search(name: Seq<char>, message: Seq<char>, needle: Seq<char>)
    ensures
        fits_search(name, message, Seq::empty()),
        fits_search(name, message, needle) ==> needle.len() == 0 || contains_text(name, needle)
            || contains_text(message, needle),
        contains_text(name, needle) || contains_text(message, needle) ==> fits_search(
            name,
            message,
            needle,
        ),
{
}

} // verus!
