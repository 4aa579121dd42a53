//! The job queue: which jobs there are, which of them run, and how their
//! states change. Drawing the queue, looking at the disk and running the
//! conversions happen outside.

use crate::config::{path_type, with_recent, AppConfig, ConfigModel, JobDefaults, ThemeChoice};
use crate::convert::{ConvertModel, ConvertOptions, Progress, Summary};
use crate::job::{job_options, Job, JobModel, JobSettings, JobState, SettingsModel};
use std::collections::VecDeque;
use vstd::prelude::*;
use vstd::std_specs::cmp::PartialEqSpec;

verus! {

/// What a worker says about the jobs it converts.
#[derive(Debug)]
pub enum WorkerEvent {
    Started { job_id: u64, index: usize, total: usize },
    Progress { job_id: u64, progress: Progress, message: Option<String> },
    Finished { job_id: u64, result: Result<Summary, String> },
    AllDone,
}

/// What is written to the log.
#[derive(Debug, Clone, Copy, PartialEq, Eq, Structural)]
pub enum LogEntry {
    /// A job is being read.
    Loading(u64),
    /// A job has come to its end.
    Finished(u64),
    /// The whole queue is done.
    QueueDone,
}

/// What a worker has to do for a job.
#[derive(Debug)]
pub struct RunSpec<P> {
    pub job_id: u64,
    pub blf: P,
    pub dbc: P,
    pub out_dir: P,
    pub options: ConvertOptions,
}

/// The mathematical content of a [`RunSpec`].
pub struct RunSpecModel<P> {
    pub job_id: u64,
    pub blf: P,
    pub dbc: P,
    pub out_dir: P,
    pub options: ConvertModel,
}

impl<P> View for RunSpec<P> {
    type V = RunSpecModel<P>;

    open spec fn view(&self) -> RunSpecModel<P> {
        RunSpecModel {
            job_id: self.job_id,
            blf: self.blf,
            dbc: self.dbc,
            out_dir: self.out_dir,
            options: self.options@,
        }
    }
}

/// How far the worker has come.
#[derive(Debug)]
pub struct RunState {
    pub current_job: Option<u64>,
    pub queue_index: usize,
    pub queue_total: usize,
    pub progress: Progress,
    pub current_message: Option<String>,
}

/// The mathematical content of a [`RunState`].
pub struct RunModel {
    pub current_job: Option<u64>,
    pub queue_index: usize,
    pub queue_total: usize,
    pub progress: Progress,
    pub current_message: Option<Seq<char>>,
}

/// The text of an optional string.
pub open spec fn opt_text(text: Option<String>) -> Option<Seq<char>> {
    match text {
        Some(s) => Some(s@),
        None => None,
    }
}

impl View for RunState {
    type V = RunModel;

    open spec fn view(&self) -> RunModel {
        RunModel {
            current_job: self.current_job,
            queue_index: self.queue_index,
            queue_total: self.queue_total,
            progress: self.progress,
            current_message: opt_text(self.current_message),
        }
    }
}

/// What is found on disk around a BLF file.
#[derive(Debug)]
pub struct Surroundings<P> {
    /// Databases next to the BLF file.
    pub candidates: Vec<P>,
    /// For each recently used database whether it still exists.
    pub recent_dbc_exists: Vec<bool>,
    /// Whether the most recent output directory exists, if there is one.
    pub recent_out_dir_exists: bool,
    /// The directory of the BLF file.
    pub parent: Option<P>,
    /// The working directory.
    pub here: P,
}

/// The first of the first `n` paths that exists.
pub open spec fn first_existing<P>(paths: Seq<P>, found: Seq<bool>, n: int) -> Option<P>
    decreases n,
{
    if n <= 0 {
        None
    } else {
        match first_existing(paths, found, n - 1) {
            Some(p) => Some(p),
            None => if found[n - 1] {
                Some(paths[n - 1])
            } else {
                None
            },
        }
    }
}

/// The database for a new job: the only one next to it, or else the most
/// recently used one that still exists.
pub open spec fn initial_dbc<P>(config: ConfigModel<P>, s: Surroundings<P>) -> Option<P> {
    if s.candidates@.len() == 1 {
        Some(s.candidates@[0])
    } else {
        first_existing(
            config.recent_dbcs,
            s.recent_dbc_exists@,
            config.recent_dbcs.len() as int,
        )
    }
}

/// The output directory for a new job: the most recently used one if it
/// exists, or else that of the BLF file.
pub open spec fn initial_out_dir<P>(config: ConfigModel<P>, s: Surroundings<P>) -> P {
    if config.recent_out_dirs.len() > 0 && s.recent_out_dir_exists {
        config.recent_out_dirs[0]
    } else {
        match s.parent {
            Some(p) => p,
            None => s.here,
        }
    }
}

/// The settings of a new job.
pub open spec fn initial_settings(d: JobDefaults) -> SettingsModel {
    SettingsModel {
        format_parquet: d.format_parquet,
        layout_raw: d.layout_raw,
        interval_ns: d.interval_ns,
        relative_timestamp: d.relative_timestamp,
        keep_can_id: d.keep_can_id,
        skip_unknown: d.skip_unknown,
        overwrite: d.overwrite,
        only_selected: false,
        selected_signals: Seq::empty(),
    }
}

/// The models of a list of jobs.
pub open spec fn job_models<P>(jobs: Seq<Job<P>>) -> Seq<JobModel<P>> {
    jobs.map_values(|j: Job<P>| j@)
}

/// Where the job with the given number stands among the first `n`.
pub open spec fn job_index<P>(jobs: Seq<JobModel<P>>, id: u64, n: int) -> Option<int>
    decreases n,
{
    if n <= 0 {
        None
    } else {
        match job_index(jobs, id, n - 1) {
            Some(i) => Some(i),
            None => if jobs[n - 1].id == id {
                Some(n - 1)
            } else {
                None
            },
        }
    }
}

/// Jobs that can be converted now, among the first `n`.
pub open spec fn run_specs<P>(jobs: Seq<JobModel<P>>, n: int) -> Seq<RunSpecModel<P>>
    decreases n,
{
    if n <= 0 {
        Seq::empty()
    } else {
        let before = run_specs(jobs, n - 1);
        let j = jobs[n - 1];
        if j.runnable() {
            before.push(
                RunSpecModel {
                    job_id: j.id,
                    blf: j.blf,
                    dbc: j.dbc->0,
                    out_dir: j.out_dir,
                    options: job_options(j.settings),
                },
            )
        } else {
            before
        }
    }
}

/// The models of a list of orders.
pub open spec fn spec_models<P>(specs: Seq<RunSpec<P>>) -> Seq<RunSpecModel<P>> {
    specs.map_values(|s: RunSpec<P>| s@)
}

/// The run after an event.
pub open spec fn run_after(run: RunModel, event: WorkerEvent) -> RunModel {
    match event {
        WorkerEvent::Started { job_id, index, total } => RunModel {
            current_job: Some(job_id),
            queue_index: index,
            queue_total: total,
            progress: Progress {
                bytes_read: 0,
                total_bytes: 0,
                frames_read: 0,
                frames_decoded: 0,
            },
            current_message: None,
        },
        WorkerEvent::Progress { job_id, progress, message } => if run.current_job == Some(job_id) {
            RunModel {
                progress,
                current_message: if message is Some {
                    opt_text(message)
                } else {
                    run.current_message
                },
                ..run
            }
        } else {
            run
        },
        _ => run,
    }
}

/// The run after the first `n` events.
pub open spec fn run_after_all(run: RunModel, events: Seq<WorkerEvent>, n: int) -> RunModel
    decreases n,
{
    if n <= 0 {
        run
    } else {
        run_after(run_after_all(run, events, n - 1), events[n - 1])
    }
}

/// The log entries for the jobs that the first `n` events start, in order. A
/// job that is not in the queue has none.
pub open spec fn started<P>(jobs: Seq<JobModel<P>>, events: Seq<WorkerEvent>, n: int) -> Seq<
    LogEntry,
>
    decreases n,
{
    if n <= 0 {
        Seq::empty()
    } else {
        let before = started(jobs, events, n - 1);
        match events[n - 1] {
            WorkerEvent::Started { job_id, .. } => if job_index(
                jobs,
                job_id,
                jobs.len() as int,
            ) is Some {
                before.push(LogEntry::Loading(job_id))
            } else {
                before
            },
            _ => before,
        }
    }
}

/// The jobs that the first `n` events bring to an end, in order.
pub open spec fn finished(events: Seq<WorkerEvent>, n: int) -> Seq<(u64, Result<Summary, String>)>
    decreases n,
{
    if n <= 0 {
        Seq::empty()
    } else {
        match events[n - 1] {
            WorkerEvent::Finished { job_id, result } => finished(events, n - 1).push(
                (job_id, result),
            ),
            _ => finished(events, n - 1),
        }
    }
}

/// Whether one of the first `n` events ends the run.
pub open spec fn all_done(events: Seq<WorkerEvent>, n: int) -> bool {
    exists|i: int| 0 <= i < n && #[trigger] events[i] is AllDone
}

/// The state of a job that has come to its end.
pub open spec fn end_state(result: Result<Summary, String>) -> JobState {
    match result {
        Ok(summary) => JobState::Done(summary),
        Err(error) => JobState::Failed(error),
    }
}

/// The jobs after the first `n` have come to their ends.
pub open spec fn jobs_after<P>(
    jobs: Seq<JobModel<P>>,
    ends: Seq<(u64, Result<Summary, String>)>,
    n: int,
) -> Seq<JobModel<P>>
    decreases n,
{
    if n <= 0 {
        jobs
    } else {
        let before = jobs_after(jobs, ends, n - 1);
        let (id, result) = ends[n - 1];
        match job_index(before, id, before.len() as int) {
            Some(i) => before.update(i, JobModel { state: end_state(result), ..before[i] }),
            None => before,
        }
    }
}

/// The log entries for the first `n` jobs that have come to their ends.
pub open spec fn end_entries(ends: Seq<(u64, Result<Summary, String>)>) -> Seq<LogEntry> {
    ends.map_values(|e: (u64, Result<Summary, String>)| LogEntry::Finished(e.0))
}

/// The mathematical content of a [`Queue`].
pub struct QueueModel<P> {
    pub config: ConfigModel<P>,
    pub jobs: Seq<JobModel<P>>,
    pub selected: Option<u64>,
    pub next_id: u64,
    pub run: Option<RunModel>,
}

impl<P> QueueModel<P> {
    /// The jobs have different numbers, all of them used up, and none chooses
    /// a signal twice.
    pub open spec fn wf(self) -> bool {
        &&& forall|i: int| 0 <= i < self.jobs.len() ==> (#[trigger] self.jobs[i]).id < self.next_id
        &&& forall|i: int, j: int|
            0 <= i < j < self.jobs.len() ==> (#[trigger] self.jobs[i]).id != (
            #[trigger] self.jobs[j]).id
        &&& forall|i: int|
            0 <= i < self.jobs.len() ==> (#[trigger] self.jobs[i]).settings.wf()
    }

    /// The position of a job.
    pub open spec fn position(self, id: u64) -> Option<int> {
        job_index(self.jobs, id, self.jobs.len() as int)
    }

    /// The queue with one job changed.
    pub open spec fn with_job(self, i: int, job: JobModel<P>) -> Self {
        QueueModel { jobs: self.jobs.update(i, job), ..self }
    }

    /// A job can be converted now.
    pub open spec fn has_runnable(self) -> bool {
        exists|i: int| 0 <= i < self.jobs.len() && (#[trigger] self.jobs[i]).runnable()
    }
}

impl<P: PartialEq> QueueModel<P> {
    /// Whether a file is in the queue.
    pub open spec fn holds(self, blf: P) -> bool {
        exists|i: int| 0 <= i < self.jobs.len() && (#[trigger] self.jobs[i]).blf.eq_spec(&blf)
    }

    /// The queue after a file was added that it did not hold.
    pub open spec fn with_file(self, blf: P, s: Surroundings<P>) -> Self {
        QueueModel {
            config: ConfigModel { last_blf_dir: s.parent, ..self.config },
            jobs: self.jobs.push(
                JobModel {
                    id: self.next_id,
                    blf,
                    dbc: initial_dbc(self.config, s),
                    dbc_auto: s.candidates@.len() == 1,
                    dbc_candidates: s.candidates@,
                    out_dir: initial_out_dir(self.config, s),
                    settings: initial_settings(self.config.defaults),
                    state: JobState::Ready,
                },
            ),
            selected: Some(self.next_id),
            next_id: (self.next_id + 1) as u64,
            run: self.run,
        }
    }

    /// Whether a database goes to a job: to the selected one, or without a
    /// selection to every one that has none.
    pub open spec fn wants_dbc(self, job: JobModel<P>) -> bool {
        match self.selected {
            Some(id) => job.id == id,
            None => job.dbc is None,
        }
    }

    /// The queue after a database was given to the jobs that want it, or, if
    /// the selected job is gone, to those that have none.
    pub open spec fn with_assigned(self, dbc: P) -> Self {
        let hit = exists|i: int|
            0 <= i < self.jobs.len() && self.wants_dbc(#[trigger] self.jobs[i]);
        QueueModel {
            config: ConfigModel {
                recent_dbcs: with_recent(self.config.recent_dbcs, dbc),
                ..self.config
            },
            jobs: self.jobs.map_values(
                |j: JobModel<P>|
                    if hit && self.wants_dbc(j) || !hit && j.dbc is None {
                        j.with_dbc(dbc)
                    } else {
                        j
                    },
            ),
            ..self
        }
    }
}

impl<P> QueueModel<P> {
    /// The queue after its jobs were handed to a worker.
    pub open spec fn after_start(self) -> Self {
        if self.has_runnable() {
            QueueModel {
                jobs: self.jobs.map_values(
                    |j: JobModel<P>|
                        if j.runnable() {
                            JobModel { state: JobState::Running, ..j }
                        } else {
                            j
                        },
                ),
                run: Some(
                    RunModel {
                        current_job: None,
                        queue_index: 0,
                        queue_total: run_specs(
                            self.jobs,
                            self.jobs.len() as int,
                        ).len() as usize,
                        progress: Progress {
                            bytes_read: 0,
                            total_bytes: 0,
                            frames_read: 0,
                            frames_decoded: 0,
                        },
                        current_message: None,
                    },
                ),
                ..self
            }
        } else {
            self
        }
    }

    /// The queue after some events, and what they write to the log.
    pub open spec fn after_events(self, events: Seq<WorkerEvent>) -> (Self, Seq<LogEntry>) {
        match self.run {
            None => (self, Seq::empty()),
            Some(run) => {
                let n = events.len() as int;
                let ends = finished(events, n);
                let entries = started(self.jobs, events, n) + end_entries(ends);
                let done = all_done(events, n);
                (
                    QueueModel {
                        jobs: jobs_after(self.jobs, ends, ends.len() as int),
                        run: if done {
                            None
                        } else {
                            Some(run_after_all(run, events, n))
                        },
                        ..self
                    },
                    if done {
                        entries.push(LogEntry::QueueDone)
                    } else {
                        entries
                    },
                )
            },
        }
    }

    /// The queue with its failed jobs made ready.
    pub open spec fn with_retries(self) -> Self {
        QueueModel {
            jobs: self.jobs.map_values(
                |j: JobModel<P>|
                    if j.state is Failed {
                        JobModel { state: JobState::Ready, ..j }
                    } else {
                        j
                    },
            ),
            ..self
        }
    }

    /// The queue without a job. If it was the selected one, the first job is
    /// selected.
    pub open spec fn without_job(self, id: u64) -> Self {
        match self.position(id) {
            None => self,
            Some(i) => {
                let jobs = self.jobs.remove(i);
                QueueModel {
                    jobs,
                    selected: if self.selected == Some(id) {
                        if jobs.len() > 0 {
                            Some(jobs[0].id)
                        } else {
                            None
                        }
                    } else {
                        self.selected
                    },
                    ..self
                }
            },
        }
    }

    /// The queue with a job moved up or down by one.
    pub open spec fn with_moved(self, id: u64, up: bool) -> Self {
        match self.position(id) {
            None => self,
            Some(i) => {
                let k = if up {
                    i - 1
                } else {
                    i + 1
                };
                if 0 <= k < self.jobs.len() {
                    QueueModel {
                        jobs: self.jobs.update(i, self.jobs[k]).update(k, self.jobs[i]),
                        ..self
                    }
                } else {
                    self
                }
            },
        }
    }

    /// The queue with the settings of one job given to all the others.
    pub open spec fn with_settings_of(self, id: u64) -> Self {
        match self.position(id) {
            None => self,
            Some(i) => {
                let source = self.jobs[i];
                QueueModel {
                    jobs: self.jobs.map_values(
                        |j: JobModel<P>|
                            if j.id == id {
                                j
                            } else {
                                JobModel {
                                    settings: source.settings,
                                    out_dir: source.out_dir,
                                    dbc: if j.dbc is None {
                                        source.dbc
                                    } else {
                                        j.dbc
                                    },
                                    dbc_auto: if j.dbc is None {
                                        false
                                    } else {
                                        j.dbc_auto
                                    },
                                    ..j
                                }
                            },
                    ),
                    ..self
                }
            },
        }
    }
}

pub proof fn lemma_job_index<P>(jobs: Seq<JobModel<P>>, id: u64, n: int)
    requires
        0 <= n <= jobs.len(),
    ensures
        match job_index(jobs, id, n) {
            Some(i) => 0 <= i < n && jobs[i].id == id && forall|j: int|
                0 <= j < i ==> (#[trigger] jobs[j]).id != id,
            None => forall|j: int| 0 <= j < n ==> (#[trigger] jobs[j]).id != id,
        },
    decreases n,
{
    if n > 0 {
        lemma_job_index(jobs, id, n - 1);
    }
}

/// The first job with a number is found.
pub proof fn lemma_job_index_is<P>(jobs: Seq<JobModel<P>>, id: u64, i: int, n: int)
    requires
        0 <= i < n <= jobs.len(),
        jobs[i].id == id,
        forall|j: int| 0 <= j < i ==> (#[trigger] jobs[j]).id != id,
    ensures
        job_index(jobs, id, n) == Some(i),
{
    lemma_job_index(jobs, id, n);
    if let Some(k) = job_index(jobs, id, n) {
        assert(jobs[k].id == id);
    }
}

/// Where the job with the given number stands.
fn find_job<P>(jobs: &Vec<Job<P>>, id: u64) -> (r: Option<usize>)
    ensures
        match r {
            Some(i) => i < jobs@.len() && job_index(
                job_models(jobs@),
                id,
                jobs@.len() as int,
            ) == Some(i as int) && jobs@[i as int].id == id,
            None => job_index(job_models(jobs@), id, jobs@.len() as int) is None,
        },
{
    let ghost models = job_models(jobs@);
    let mut i: usize = 0;
    while i < jobs.len()
        invariant
            i <= jobs@.len(),
            models == job_models(jobs@),
            forall|j: int| 0 <= j < i ==> (#[trigger] models[j]).id != id,
        decreases jobs@.len() - i,
    {
        if jobs[i].id == id {
            proof {
                assert(models[i as int].id == id);
                lemma_job_index_is(models, id, i as int, jobs@.len() as int);
            }
            return Some(i);
        }
        assert(models[i as int].id != id);
        i += 1;
    }
    proof {
        lemma_job_index(models, id, jobs@.len() as int);
    }
    None
}

/// The first path that exists.
fn pick_existing<P: PartialEq + Clone>(paths: &Vec<P>, found: &Vec<bool>) -> (r: Option<P>)
    requires
        path_type::<P>(),
        paths@.len() == found@.len(),
    ensures
        r == first_existing(paths@, found@, paths@.len() as int),
{
    let mut i: usize = 0;
    while i < paths.len()
        invariant
            i <= paths@.len(),
            path_type::<P>(),
            paths@.len() == found@.len(),
            first_existing(paths@, found@, i as int) is None,
        decreases paths@.len() - i,
    {
        if found[i] {
            let copy: P = paths[i].clone();
            proof {
                assert(cloned(paths@[i as int], copy));
                lemma_first_existing(paths@, found@, i as int, paths@.len() as int);
            }
            return Some(copy);
        }
        i += 1;
    }
    None
}

proof fn lemma_first_existing<P>(paths: Seq<P>, found: Seq<bool>, i: int, n: int)
    requires
        0 <= i < n <= paths.len(),
        found[i],
        first_existing(paths, found, i) is None,
    ensures
        first_existing(paths, found, n) == Some(paths[i]),
    decreases n,
{
    if i < n - 1 {
        lemma_first_existing(paths, found, i, n - 1);
    }
}

/// Give a database to the jobs that want it; says whether there is one.
fn assign_wanted<P: PartialEq + Clone>(jobs: &mut Vec<Job<P>>, target: Option<u64>, dbc: &P) -> (r:
    bool)
    requires
        path_type::<P>(),
    ensures
        final(jobs)@.len() == old(jobs)@.len(),
        forall|i: int|
            0 <= i < old(jobs)@.len() ==> (#[trigger] final(jobs)@[i])@ == (if wanted(
                target,
                old(jobs)@[i]@,
            ) {
                old(jobs)@[i]@.with_dbc(*dbc)
            } else {
                old(jobs)@[i]@
            }),
        r == exists|i: int|
            0 <= i < old(jobs)@.len() && wanted(target, #[trigger] old(jobs)@[i]@),
{
    let ghost before = jobs@;
    let mut assigned: bool = false;
    let mut i: usize = 0;
    while i < jobs.len()
        invariant
            i <= jobs@.len(),
            jobs@.len() == before.len(),
            path_type::<P>(),
            forall|k: int| i <= k < before.len() ==> #[trigger] jobs@[k] == before[k],
            forall|k: int|
                0 <= k < i ==> (#[trigger] jobs@[k])@ == (if wanted(target, before[k]@) {
                    before[k]@.with_dbc(*dbc)
                } else {
                    before[k]@
                }),
            assigned == exists|k: int| 0 <= k < i && wanted(target, #[trigger] before[k]@),
        decreases before.len() - i,
    {
        let wants: bool = match target {
            Some(id) => jobs[i].id == id,
            None => jobs[i].dbc.is_none(),
        };
        assert(wants == wanted(target, before[i as int]@));
        if wants {
            let copy: P = dbc.clone();
            assert(cloned(*dbc, copy));
            jobs[i].dbc = Some(copy);
            jobs[i].dbc_auto = false;
            assigned = true;
        }
        i += 1;
    }
    assigned
}

/// Whether a database goes to a job.
pub open spec fn wanted<P>(target: Option<u64>, job: JobModel<P>) -> bool {
    match target {
        Some(id) => job.id == id,
        None => job.dbc is None,
    }
}

/// The orders for the jobs that can be converted now; those jobs are marked
/// as running.
fn take_orders<P: PartialEq + Clone>(jobs: &mut Vec<Job<P>>) -> (r: Vec<RunSpec<P>>)
    requires
        path_type::<P>(),
    ensures
        spec_models(r@) == run_specs(job_models(old(jobs)@), old(jobs)@.len() as int),
        final(jobs)@.len() == old(jobs)@.len(),
        forall|i: int|
            0 <= i < old(jobs)@.len() ==> (#[trigger] final(jobs)@[i])@ == (
            if old(jobs)@[i]@.runnable() {
                JobModel { state: JobState::Running, ..old(jobs)@[i]@ }
            } else {
                old(jobs)@[i]@
            }),
        r@.len() == 0 <==> forall|i: int|
            0 <= i < old(jobs)@.len() ==> !(#[trigger] old(jobs)@[i]@).runnable(),
{
    let ghost before = jobs@;
    let ghost models = job_models(before);
    let mut specs: Vec<RunSpec<P>> = Vec::new();
    let mut i: usize = 0;
    assert(spec_models(specs@) =~= Seq::<RunSpecModel<P>>::empty());
    while i < jobs.len()
        invariant
            i <= jobs@.len(),
            jobs@.len() == before.len(),
            models == job_models(before),
            path_type::<P>(),
            forall|k: int| i <= k < before.len() ==> #[trigger] jobs@[k] == before[k],
            forall|k: int|
                0 <= k < i ==> (#[trigger] jobs@[k])@ == (if before[k]@.runnable() {
                    JobModel { state: JobState::Running, ..before[k]@ }
                } else {
                    before[k]@
                }),
            spec_models(specs@) == run_specs(models, i as int),
            specs@.len() == 0 <==> forall|k: int|
                0 <= k < i ==> !(#[trigger] before[k]@).runnable(),
        decreases before.len() - i,
    {
        assert(models[i as int] == before[i as int]@);
        let ghost shown = spec_models(specs@);
        if jobs[i].state.is_waiting() {
            if let Some(path) = &jobs[i].dbc {
                let dbc: P = path.clone();
                let blf: P = jobs[i].blf.clone();
                let out_dir: P = jobs[i].out_dir.clone();
                assert(cloned(before[i as int].dbc->0, dbc));
                assert(cloned(before[i as int].blf, blf));
                assert(cloned(before[i as int].out_dir, out_dir));
                let spec = RunSpec {
                    job_id: jobs[i].id,
                    blf,
                    dbc,
                    out_dir,
                    options: jobs[i].options(),
                };
                let ghost model = spec@;
                specs.push(spec);
                assert(spec_models(specs@) =~= shown.push(model));
                jobs[i].state = JobState::Running;
            }
        }
        i += 1;
    }
    specs
}

/// Make the failed jobs ready.
fn reset_failed<P>(jobs: &mut Vec<Job<P>>)
    ensures
        final(jobs)@.len() == old(jobs)@.len(),
        forall|i: int|
            0 <= i < old(jobs)@.len() ==> (#[trigger] final(jobs)@[i])@ == (
            if old(jobs)@[i]@.state is Failed {
                JobModel { state: JobState::Ready, ..old(jobs)@[i]@ }
            } else {
                old(jobs)@[i]@
            }),
{
    let ghost before = jobs@;
    let mut i: usize = 0;
    while i < jobs.len()
        invariant
            i <= jobs@.len(),
            jobs@.len() == before.len(),
            forall|k: int| i <= k < before.len() ==> #[trigger] jobs@[k] == before[k],
            forall|k: int|
                0 <= k < i ==> (#[trigger] jobs@[k])@ == (if before[k]@.state is Failed {
                    JobModel { state: JobState::Ready, ..before[k]@ }
                } else {
                    before[k]@
                }),
        decreases before.len() - i,
    {
        if jobs[i].state.is_failed() {
            jobs[i].state = JobState::Ready;
        }
        i += 1;
    }
}

/// Give settings, output directory and, where there is none, database to all
/// jobs but one.
fn spread_settings<P: PartialEq + Clone>(
    jobs: &mut Vec<Job<P>>,
    source_id: u64,
    settings: &JobSettings,
    out_dir: &P,
    dbc: &Option<P>,
)
    requires
        path_type::<P>(),
    ensures
        final(jobs)@.len() == old(jobs)@.len(),
        forall|i: int|
            0 <= i < old(jobs)@.len() ==> (#[trigger] final(jobs)@[i])@ == spread(
                old(jobs)@[i]@,
                source_id,
                settings@,
                *out_dir,
                *dbc,
            ),
{
    let ghost before = jobs@;
    let mut i: usize = 0;
    while i < jobs.len()
        invariant
            i <= jobs@.len(),
            jobs@.len() == before.len(),
            path_type::<P>(),
            forall|k: int| i <= k < before.len() ==> #[trigger] jobs@[k] == before[k],
            forall|k: int|
                0 <= k < i ==> (#[trigger] jobs@[k])@ == spread(
                    before[k]@,
                    source_id,
                    settings@,
                    *out_dir,
                    *dbc,
                ),
        decreases before.len() - i,
    {
        if jobs[i].id != source_id {
            let copy: P = out_dir.clone();
            assert(cloned(*out_dir, copy));
            jobs[i].settings = settings.copy();
            jobs[i].out_dir = copy;
            if jobs[i].dbc.is_none() {
                jobs[i].dbc = copy_path(dbc);
                jobs[i].dbc_auto = false;
            }
        }
        i += 1;
    }
}

/// A job with what another one has.
pub open spec fn spread<P>(
    j: JobModel<P>,
    source_id: u64,
    settings: SettingsModel,
    out_dir: P,
    dbc: Option<P>,
) -> JobModel<P> {
    if j.id == source_id {
        j
    } else {
        JobModel {
            settings,
            out_dir,
            dbc: if j.dbc is None {
                dbc
            } else {
                j.dbc
            },
            dbc_auto: if j.dbc is None {
                false
            } else {
                j.dbc_auto
            },
            ..j
        }
    }
}

fn copy_path<P: PartialEq + Clone>(path: &Option<P>) -> (r: Option<P>)
    requires
        path_type::<P>(),
    ensures
        r == *path,
{
    match path {
        Some(p) => {
            let copy: P = p.clone();
            assert(cloned(*p, copy));
            Some(copy)
        },
        None => None,
    }
}

/// The job queue. Paths are of the type `P`.
#[derive(Debug)]
pub struct Queue<P> {
    config: AppConfig<P>,
    jobs: Vec<Job<P>>,
    selected: Option<u64>,
    next_id: u64,
    run: Option<RunState>,
}

impl<P> View for Queue<P> {
    type V = QueueModel<P>;

    closed spec fn view(&self) -> QueueModel<P> {
        QueueModel {
            config: self.config@,
            jobs: job_models(self.jobs@),
            selected: self.selected,
            next_id: self.next_id,
            run: match self.run {
                Some(run) => Some(run@),
                None => None,
            },
        }
    }
}

impl<P> Queue<P> {
    /// A queue without jobs.
    pub fn new(config: AppConfig<P>) -> (r: Self)
        ensures
            r@ == (QueueModel {
                config: config@,
                jobs: Seq::empty(),
                selected: None,
                next_id: 1,
                run: None,
            }),
            r@.wf(),
    {
        let queue = Queue { config, jobs: Vec::new(), selected: None, next_id: 1, run: None };
        assert(queue@.jobs =~= Seq::<JobModel<P>>::empty());
        queue
    }

    /// The settings of the application.
    pub fn config(&self) -> (r: &AppConfig<P>)
        ensures
            r@ == self@.config,
    {
        &self.config
    }

    /// Change the theme.
    pub fn set_theme(&mut self, theme: ThemeChoice)
        ensures
            final(self)@ == (QueueModel {
                config: ConfigModel { theme, ..old(self)@.config },
                ..old(self)@
            }),
    {
        self.config.theme = theme;
    }

    /// Change the settings of jobs to come.
    pub fn set_defaults(&mut self, defaults: JobDefaults)
        ensures
            final(self)@ == (QueueModel {
                config: ConfigModel { defaults, ..old(self)@.config },
                ..old(self)@
            }),
    {
        self.config.defaults = defaults;
    }

    /// The jobs.
    pub fn jobs(&self) -> (r: &[Job<P>])
        ensures
            job_models(r@) == self@.jobs,
    {
        self.jobs.as_slice()
    }

    /// The job with the given number.
    pub fn job(&self, id: u64) -> (r: Option<&Job<P>>)
        ensures
            match r {
                Some(job) => self@.position(id) matches Some(i) && job@ == self@.jobs[i],
                None => self@.position(id) is None,
            },
    {
        match find_job(&self.jobs, id) {
            Some(i) => Some(&self.jobs[i]),
            None => None,
        }
    }

    /// Whether every number for jobs is used up.
    pub fn is_full(&self) -> (r: bool)
        ensures
            r == (self@.next_id == u64::MAX),
    {
        self.next_id == u64::MAX
    }

    /// The number of the selected job.
    pub fn selected(&self) -> (r: Option<u64>)
        ensures
            r == self@.selected,
    {
        self.selected
    }

    /// Select a job.
    pub fn select(&mut self, id: u64)
        ensures
            final(self)@ == (QueueModel { selected: Some(id), ..old(self)@ }),
    {
        self.selected = Some(id);
    }

    /// How far the worker has come, while one runs.
    pub fn run(&self) -> (r: Option<&RunState>)
        ensures
            match r {
                Some(run) => self@.run == Some(run@),
                None => self@.run is None,
            },
    {
        self.run.as_ref()
    }

    /// Whether a job can be converted now: none runs, and one waits with a
    /// database.
    pub fn can_convert(&self) -> (r: bool)
        ensures
            r == (self@.run is None && self@.has_runnable()),
    {
        if self.run.is_some() {
            return false;
        }
        let mut i: usize = 0;
        while i < self.jobs.len()
            invariant
                i <= self.jobs@.len(),
                self@.run is None,
                forall|k: int| 0 <= k < i ==> !(#[trigger] self@.jobs[k]).runnable(),
            decreases self.jobs@.len() - i,
        {
            assert(self@.jobs[i as int] == self.jobs@[i as int]@);
            if self.jobs[i].state.is_waiting() && self.jobs[i].dbc.is_some() {
                return true;
            }
            i += 1;
        }
        false
    }

    /// Whether a job has failed.
    pub fn has_failed(&self) -> (r: bool)
        ensures
            r == exists|i: int|
                0 <= i < self@.jobs.len() && (#[trigger] self@.jobs[i]).state is Failed,
    {
        let mut i: usize = 0;
        while i < self.jobs.len()
            invariant
                i <= self.jobs@.len(),
                forall|k: int| 0 <= k < i ==> !((#[trigger] self@.jobs[k]).state is Failed),
            decreases self.jobs@.len() - i,
        {
            assert(self@.jobs[i as int] == self.jobs@[i as int]@);
            if self.jobs[i].state.is_failed() {
                return true;
            }
            i += 1;
        }
        false
    }

    /// Change the settings of a job.
    pub fn set_settings(&mut self, id: u64, settings: JobSettings)
        requires
            old(self)@.wf(),
            settings.wf(),
        ensures
            final(self)@.wf(),
            final(self)@ == (match old(self)@.position(id) {
                Some(i) => old(self)@.with_job(
                    i,
                    JobModel { settings: settings@, ..old(self)@.jobs[i] },
                ),
                None => old(self)@,
            }),
    {
        let ghost before = self@;
        if let Some(i) = find_job(&self.jobs, id) {
            self.jobs[i].settings = settings;
            assert(self@.jobs =~= before.jobs.update(
                i as int,
                JobModel { settings: settings@, ..before.jobs[i as int] },
            ));
        }
    }

    /// Make a job ready.
    pub fn retry(&mut self, id: u64)
        requires
            old(self)@.wf(),
        ensures
            final(self)@.wf(),
            final(self)@ == (match old(self)@.position(id) {
                Some(i) => old(self)@.with_job(
                    i,
                    JobModel { state: JobState::Ready, ..old(self)@.jobs[i] },
                ),
                None => old(self)@,
            }),
    {
        let ghost before = self@;
        if let Some(i) = find_job(&self.jobs, id) {
            self.jobs[i].state = JobState::Ready;
            assert(self@.jobs =~= before.jobs.update(
                i as int,
                JobModel { state: JobState::Ready, ..before.jobs[i as int] },
            ));
        }
    }

    /// Make all failed jobs ready.
    pub fn retry_failed(&mut self)
        requires
            old(self)@.wf(),
        ensures
            final(self)@.wf(),
            final(self)@ == old(self)@.with_retries(),
    {
        let ghost before = self@;
        let ghost list = self.jobs@;
        reset_failed(&mut self.jobs);
        assert forall|i: int| 0 <= i < list.len() implies #[trigger] self@.jobs[i]
            == before.with_retries().jobs[i] by {
            assert(self.jobs@[i]@ == self@.jobs[i]);
            assert(list[i]@ == before.jobs[i]);
        }
        assert(self@.jobs =~= before.with_retries().jobs);
        proof {
            lemma_same_ids_wf(before, self@);
        }
    }

    /// Take a job out of the queue.
    pub fn delete(&mut self, id: u64)
        requires
            old(self)@.wf(),
        ensures
            final(self)@.wf(),
            final(self)@ == old(self)@.without_job(id),
    {
        let ghost before = self@;
        if let Some(i) = find_job(&self.jobs, id) {
            let gone: Job<P> = self.jobs.remove(i);
            assert(self@.jobs =~= before.jobs.remove(i as int));
            if self.selected == Some(id) {
                self.selected = if self.jobs.len() > 0 {
                    Some(self.jobs[0].id)
                } else {
                    None
                };
            }
            proof {
                let after = self@;
                assert forall|k: int| 0 <= k < after.jobs.len() implies (
                #[trigger] after.jobs[k]).id < after.next_id by {
                    let p = if k < i {
                        k
                    } else {
                        k + 1
                    };
                    assert(after.jobs[k] == before.jobs[p]);
                }
                assert forall|k: int, l: int| 0 <= k < l < after.jobs.len() implies (
                #[trigger] after.jobs[k]).id != (#[trigger] after.jobs[l]).id by {
                    let p = if k < i {
                        k
                    } else {
                        k + 1
                    };
                    let q = if l < i {
                        l
                    } else {
                        l + 1
                    };
                    assert(after.jobs[k] == before.jobs[p]);
                    assert(after.jobs[l] == before.jobs[q]);
                }
            }
        }
    }

    /// Move a job up or down by one.
    pub fn move_job(&mut self, id: u64, up: bool)
        requires
            old(self)@.wf(),
        ensures
            final(self)@.wf(),
            final(self)@ == old(self)@.with_moved(id, up),
    {
        let ghost before = self@;
        if let Some(i) = find_job(&self.jobs, id) {
            let len: usize = self.jobs.len();
            if up && i == 0 || !up && i + 1 >= len {
                return;
            }
            let low: usize = if up {
                i - 1
            } else {
                i
            };
            let ghost list = self.jobs@;
            let job: Job<P> = self.jobs.remove(low);
            assert(self.jobs@ =~= list.remove(low as int));
            self.jobs.insert(low + 1, job);
            assert(self.jobs@ =~= list.update(low as int, list[low + 1]).update(
                low + 1,
                list[low as int],
            ));
            assert(self@.jobs =~= before.with_moved(id, up).jobs);
            proof {
                let after = self@;
                assert forall|k: int| 0 <= k < after.jobs.len() implies (
                #[trigger] after.jobs[k]).id < after.next_id by {
                    let p = swapped(k, low as int);
                    assert(after.jobs[k] == before.jobs[p]);
                }
                assert forall|k: int, l: int| 0 <= k < l < after.jobs.len() implies (
                #[trigger] after.jobs[k]).id != (#[trigger] after.jobs[l]).id by {
                    let p = swapped(k, low as int);
                    let q = swapped(l, low as int);
                    assert(after.jobs[k] == before.jobs[p]);
                    assert(after.jobs[l] == before.jobs[q]);
                }
            }
        }
    }

    /// Take all jobs out of the queue.
    pub fn clear(&mut self)
        ensures
            final(self)@ == (QueueModel { jobs: Seq::empty(), selected: None, ..old(self)@ }),
            final(self)@.wf(),
    {
        self.jobs.clear();
        self.selected = None;
        assert(self@.jobs =~= Seq::<JobModel<P>>::empty());
    }

    /// Take in what a worker says. Returns what to write to the log.
    pub fn poll(&mut self, events: VecDeque<WorkerEvent>) -> (r: Vec<LogEntry>)
        requires
            old(self)@.wf(),
        ensures
            final(self)@.wf(),
            (final(self)@, r@) == old(self)@.after_events(events@),
    {
        let ghost before = self@;
        let ghost all = events@;
        let ghost total = all.len() as int;
        let mut log: Vec<LogEntry> = Vec::new();
        let mut run: RunState = match self.run.take() {
            None => {
                return log;
            },
            Some(run) => run,
        };
        let ghost first = run@;
        let mut rest: VecDeque<WorkerEvent> = events;
        let mut ends: VecDeque<(u64, Result<Summary, String>)> = VecDeque::new();
        let mut done: bool = false;
        let ghost mut n: int = 0;
        assert(all.skip(0) =~= all);
        while rest.len() > 0
            invariant
                0 <= n <= total,
                total == all.len(),
                rest@ == all.skip(n),
                run@ == run_after_all(first, all, n),
                log@ == started(before.jobs, all, n),
                before.jobs == job_models(self.jobs@),
                self.config@ == before.config,
                self.selected == before.selected,
                self.next_id == before.next_id,
                self.run is None,
                ends@ == finished(all, n),
                done == all_done(all, n),
            decreases rest@.len(),
        {
            if let Some(event) = rest.pop_front() {
                assert(event == all[n]);
                assert(rest@ =~= all.skip(n + 1));
                let ghost ended = event is AllDone;
                assert(all_done(all, n + 1) == (done || ended)) by {
                    if all_done(all, n + 1) {
                        let k = choose|k: int| 0 <= k < n + 1 && #[trigger] all[k] is AllDone;
                        if k < n {
                            assert(all_done(all, n));
                        }
                    }
                    if all_done(all, n) {
                        let k = choose|k: int| 0 <= k < n && #[trigger] all[k] is AllDone;
                        assert(0 <= k < n + 1);
                    }
                }
                match event {
                    WorkerEvent::Started { job_id, index, total } => {
                        run = RunState {
                            current_job: Some(job_id),
                            queue_index: index,
                            queue_total: total,
                            progress: Progress::default(),
                            current_message: None,
                        };
                        if find_job(&self.jobs, job_id).is_some() {
                            log.push(LogEntry::Loading(job_id));
                        }
                    },
                    WorkerEvent::Progress { job_id, progress, message } => {
                        if run.current_job == Some(job_id) {
                            run.progress = progress;
                            if message.is_some() {
                                run.current_message = message;
                            }
                        }
                    },
                    WorkerEvent::Finished { job_id, result } => {
                        ends.push_back((job_id, result));
                    },
                    WorkerEvent::AllDone => {
                        done = true;
                    },
                }
                proof {
                    n = n + 1;
                }
            }
        }
        let ghost fin = ends@;
        let ghost entries = started(before.jobs, all, total);
        let ghost mut m: int = 0;
        assert(fin.skip(0) =~= fin);
        assert(entries + end_entries(fin).take(0) =~= entries);
        while ends.len() > 0
            invariant
                0 <= m <= fin.len(),
                ends@ == fin.skip(m),
                log@ == entries + end_entries(fin).take(m),
                job_models(self.jobs@) == jobs_after(before.jobs, fin, m),
                self.config@ == before.config,
                self.selected == before.selected,
                self.next_id == before.next_id,
                self.run is None,
                jobs_after(before.jobs, fin, m).len() == before.jobs.len(),
                forall|k: int|
                    0 <= k < before.jobs.len() ==> (#[trigger] jobs_after(
                        before.jobs,
                        fin,
                        m,
                    )[k]).id == before.jobs[k].id && jobs_after(before.jobs, fin, m)[k].settings
                        == before.jobs[k].settings,
            decreases ends@.len(),
        {
            if let Some((job_id, result)) = ends.pop_front() {
                assert((job_id, result) == fin[m]);
                assert(ends@ =~= fin.skip(m + 1));
                let ghost shown = log@;
                log.push(LogEntry::Finished(job_id));
                assert(end_entries(fin).take(m + 1) =~= end_entries(fin).take(m).push(
                    LogEntry::Finished(job_id),
                ));
                assert(log@ =~= entries + end_entries(fin).take(m + 1));
                let ghost held = job_models(self.jobs@);
                let ghost state = end_state(result);
                if let Some(i) = find_job(&self.jobs, job_id) {
                    self.jobs[i].state = match result {
                        Ok(summary) => JobState::Done(summary),
                        Err(error) => JobState::Failed(error),
                    };
                    assert(job_models(self.jobs@) =~= held.update(
                        i as int,
                        JobModel { state, ..held[i as int] },
                    ));
                }
                proof {
                    m = m + 1;
                }
            }
        }
        assert(end_entries(fin).take(m) =~= end_entries(fin));
        if done {
            log.push(LogEntry::QueueDone);
        } else {
            self.run = Some(run);
        }
        proof {
            lemma_same_ids_wf(before, self@);
        }
        log
    }
}

/// What stands at a position once two neighbours have changed places.
spec fn swapped(k: int, low: int) -> int {
    if k == low {
        low + 1
    } else if k == low + 1 {
        low
    } else {
        k
    }
}

/// A queue stays well formed where the numbers of its jobs stay the same and
/// their settings are well formed.
proof fn lemma_same_ids_wf<P>(before: QueueModel<P>, after: QueueModel<P>)
    requires
        before.wf(),
        after.next_id == before.next_id,
        after.jobs.len() == before.jobs.len(),
        forall|k: int|
            0 <= k < before.jobs.len() ==> (#[trigger] after.jobs[k]).id == before.jobs[k].id
                && after.jobs[k].settings.wf(),
    ensures
        after.wf(),
{
    assert forall|k: int| 0 <= k < after.jobs.len() implies (#[trigger] after.jobs[k]).id
        < after.next_id by {
        assert(before.jobs[k].id < before.next_id);
    }
    assert forall|k: int, l: int| 0 <= k < l < after.jobs.len() implies (
    #[trigger] after.jobs[k]).id != (#[trigger] after.jobs[l]).id by {
        assert(before.jobs[k].id != before.jobs[l].id);
    }
}

impl<P: PartialEq + Clone> Queue<P> {
    /// Whether a file is in the queue.
    pub fn holds(&self, blf: &P) -> (r: bool)
        requires
            path_type::<P>(),
        ensures
            r == self@.holds(*blf),
    {
        let mut i: usize = 0;
        while i < self.jobs.len()
            invariant
                i <= self.jobs@.len(),
                path_type::<P>(),
                forall|k: int| 0 <= k < i ==> !(#[trigger] self@.jobs[k]).blf.eq_spec(blf),
            decreases self.jobs@.len() - i,
        {
            assert(self@.jobs[i as int] == self.jobs@[i as int]@);
            if self.jobs[i].blf == *blf {
                return true;
            }
            i += 1;
        }
        false
    }

    /// Add a file, unless it is in the queue. Returns whether it was added.
    pub fn add_blf(&mut self, blf: P, found: Surroundings<P>) -> (r: bool)
        requires
            path_type::<P>(),
            old(self)@.wf(),
            old(self)@.next_id < u64::MAX,
            found.recent_dbc_exists@.len() == old(self)@.config.recent_dbcs.len(),
        ensures
            final(self)@.wf(),
            r == !old(self)@.holds(blf),
            final(self)@ == (if old(self)@.holds(blf) {
                old(self)@
            } else {
                old(self)@.with_file(blf, found)
            }),
    {
        let ghost before = self@;
        if self.holds(&blf) {
            return false;
        }
        let auto: bool = found.candidates.len() == 1;
        let dbc: Option<P> = if auto {
            let copy: P = found.candidates[0].clone();
            assert(cloned(found.candidates@[0], copy));
            Some(copy)
        } else {
            pick_existing(&self.config.recent_dbcs, &found.recent_dbc_exists)
        };
        let last_blf_dir: Option<P> = copy_path(&found.parent);
        let out_dir: P = if self.config.recent_out_dirs.len() > 0 && found.recent_out_dir_exists {
            let copy: P = self.config.recent_out_dirs[0].clone();
            assert(cloned(before.config.recent_out_dirs[0], copy));
            copy
        } else {
            match found.parent {
                Some(p) => p,
                None => found.here,
            }
        };
        let d: JobDefaults = self.config.defaults;
        let settings = JobSettings {
            format_parquet: d.format_parquet,
            layout_raw: d.layout_raw,
            interval_ns: d.interval_ns,
            relative_timestamp: d.relative_timestamp,
            keep_can_id: d.keep_can_id,
            skip_unknown: d.skip_unknown,
            overwrite: d.overwrite,
            only_selected: false,
            selected_signals: Vec::new(),
        };
        assert(settings@.selected_signals =~= Seq::<Seq<char>>::empty());
        let job = Job {
            id: self.next_id,
            blf,
            dbc,
            dbc_auto: auto,
            dbc_candidates: found.candidates,
            out_dir,
            settings,
            state: JobState::Ready,
        };
        let ghost model = job@;
        self.config.last_blf_dir = last_blf_dir;
        self.selected = Some(self.next_id);
        self.next_id = self.next_id + 1;
        self.jobs.push(job);
        assert(self@.jobs =~= before.jobs.push(model));
        proof {
            let after = self@;
            assert forall|k: int| 0 <= k < after.jobs.len() implies (#[trigger] after.jobs[k]).id
                < after.next_id by {
                if k < before.jobs.len() {
                    assert(before.jobs[k].id < before.next_id);
                }
            }
            assert forall|k: int, l: int| 0 <= k < l < after.jobs.len() implies (
            #[trigger] after.jobs[k]).id != (#[trigger] after.jobs[l]).id by {
                assert(after.jobs[k] == before.jobs[k]);
                assert(before.jobs[k].id < before.next_id);
                if l < before.jobs.len() {
                    assert(after.jobs[l] == before.jobs[l]);
                }
            }
        }
        true
    }

    /// Give a database to the selected job, or without a selection to every
    /// job that has none.
    pub fn assign_dbc(&mut self, dbc: P)
        requires
            path_type::<P>(),
            old(self)@.wf(),
        ensures
            final(self)@.wf(),
            final(self)@ == old(self)@.with_assigned(dbc),
    {
        let ghost before = self@;
        let ghost list = self.jobs@;
        let copy: P = dbc.clone();
        assert(cloned(dbc, copy));
        self.config.remember_dbc(copy);
        let target: Option<u64> = self.selected;
        let assigned: bool = assign_wanted(&mut self.jobs, target, &dbc);
        let ghost hit = exists|i: int|
            0 <= i < before.jobs.len() && before.wants_dbc(#[trigger] before.jobs[i]);
        assert(assigned == hit) by {
            if assigned {
                let i = choose|i: int| 0 <= i < list.len() && wanted(target, #[trigger] list[i]@);
                assert(before.wants_dbc(before.jobs[i]));
            }
            if hit {
                let i = choose|i: int|
                    0 <= i < before.jobs.len() && before.wants_dbc(#[trigger] before.jobs[i]);
                assert(wanted(target, list[i]@));
            }
        }
        let ghost middle = self.jobs@;
        if !assigned {
            assert forall|i: int| 0 <= i < list.len() implies (#[trigger] middle[i])@
                == list[i]@ by {
                assert(!wanted(target, list[i]@));
            }
            let again: bool = assign_wanted(&mut self.jobs, None, &dbc);
        }
        assert forall|i: int| 0 <= i < list.len() implies #[trigger] self@.jobs[i]
            == before.with_assigned(dbc).jobs[i] by {
            assert(self@.jobs[i] == self.jobs@[i]@);
            assert(before.jobs[i] == list[i]@);
        }
        assert(self@.jobs =~= before.with_assigned(dbc).jobs);
        proof {
            lemma_same_ids_wf(before, self@);
        }
    }

    /// Give a database to a job.
    pub fn set_dbc(&mut self, id: u64, dbc: P)
        requires
            path_type::<P>(),
            old(self)@.wf(),
        ensures
            final(self)@.wf(),
            final(self)@ == (match old(self)@.position(id) {
                Some(i) => QueueModel {
                    config: ConfigModel {
                        recent_dbcs: with_recent(old(self)@.config.recent_dbcs, dbc),
                        ..old(self)@.config
                    },
                    jobs: old(self)@.jobs.update(i, old(self)@.jobs[i].with_dbc(dbc)),
                    ..old(self)@
                },
                None => old(self)@,
            }),
    {
        let ghost before = self@;
        if let Some(i) = find_job(&self.jobs, id) {
            let copy: P = dbc.clone();
            assert(cloned(dbc, copy));
            self.config.remember_dbc(copy);
            self.jobs[i].dbc = Some(dbc);
            self.jobs[i].dbc_auto = false;
            assert(self@.jobs =~= before.jobs.update(
                i as int,
                before.jobs[i as int].with_dbc(dbc),
            ));
        }
    }

    /// Give an output directory to a job.
    pub fn set_out_dir(&mut self, id: u64, dir: P)
        requires
            path_type::<P>(),
            old(self)@.wf(),
        ensures
            final(self)@.wf(),
            final(self)@ == (match old(self)@.position(id) {
                Some(i) => QueueModel {
                    config: ConfigModel {
                        recent_out_dirs: with_recent(old(self)@.config.recent_out_dirs, dir),
                        ..old(self)@.config
                    },
                    jobs: old(self)@.jobs.update(
                        i,
                        JobModel { out_dir: dir, ..old(self)@.jobs[i] },
                    ),
                    ..old(self)@
                },
                None => old(self)@,
            }),
    {
        let ghost before = self@;
        if let Some(i) = find_job(&self.jobs, id) {
            let copy: P = dir.clone();
            assert(cloned(dir, copy));
            self.config.remember_out_dir(copy);
            self.jobs[i].out_dir = dir;
            assert(self@.jobs =~= before.jobs.update(
                i as int,
                JobModel { out_dir: dir, ..before.jobs[i as int] },
            ));
        }
    }

    /// Hand the jobs that can be converted now to a worker. Returns what it
    /// has to do, in the order of the queue; nothing changes where that is
    /// nothing.
    pub fn start_queue(&mut self) -> (r: Vec<RunSpec<P>>)
        requires
            path_type::<P>(),
            old(self)@.wf(),
        ensures
            final(self)@.wf(),
            spec_models(r@) == run_specs(old(self)@.jobs, old(self)@.jobs.len() as int),
            r@.len() > 0 <==> old(self)@.has_runnable(),
            final(self)@ == old(self)@.after_start(),
    {
        let ghost before = self@;
        let ghost list = self.jobs@;
        let specs: Vec<RunSpec<P>> = take_orders(&mut self.jobs);
        assert(specs@.len() > 0 <==> before.has_runnable()) by {
            if specs@.len() > 0 {
                let i = choose|i: int| 0 <= i < list.len() && (#[trigger] list[i]@).runnable();
                assert(before.jobs[i].runnable());
            }
            if before.has_runnable() {
                let i = choose|i: int|
                    0 <= i < before.jobs.len() && (#[trigger] before.jobs[i]).runnable();
                assert(list[i]@.runnable());
            }
        }
        assert(spec_models(specs@).len() == specs@.len());
        if specs.len() > 0 {
            self.run = Some(
                RunState {
                    current_job: None,
                    queue_index: 0,
                    queue_total: specs.len(),
                    progress: Progress::default(),
                    current_message: None,
                },
            );
            assert forall|i: int| 0 <= i < list.len() implies #[trigger] self@.jobs[i]
                == before.after_start().jobs[i] by {
                assert(self@.jobs[i] == self.jobs@[i]@);
                assert(before.jobs[i] == list[i]@);
            }
            assert(self@.jobs =~= before.after_start().jobs);
        } else {
            assert forall|i: int| 0 <= i < list.len() implies #[trigger] self@.jobs[i]
                == before.jobs[i] by {
                assert(self@.jobs[i] == self.jobs@[i]@);
                assert(before.jobs[i] == list[i]@);
                assert(!list[i]@.runnable());
            }
            assert(self@.jobs =~= before.jobs);
        }
        proof {
            lemma_same_ids_wf(before, self@);
        }
        specs
    }

    /// Give the settings of one job to all the others.
    pub fn apply_settings_to_all(&mut self, source_id: u64)
        requires
            path_type::<P>(),
            old(self)@.wf(),
        ensures
            final(self)@.wf(),
            final(self)@ == old(self)@.with_settings_of(source_id),
    {
        let ghost before = self@;
        let ghost list = self.jobs@;
        if let Some(i) = find_job(&self.jobs, source_id) {
            let settings: JobSettings = self.jobs[i].settings.copy();
            let out_dir: P = self.jobs[i].out_dir.clone();
            assert(cloned(list[i as int].out_dir, out_dir));
            let dbc: Option<P> = copy_path(&self.jobs[i].dbc);
            spread_settings(&mut self.jobs, source_id, &settings, &out_dir, &dbc);
            assert forall|k: int| 0 <= k < list.len() implies #[trigger] self@.jobs[k]
                == before.with_settings_of(source_id).jobs[k] by {
                assert(self@.jobs[k] == self.jobs@[k]@);
                assert(before.jobs[k] == list[k]@);
            }
            assert(self@.jobs =~= before.with_settings_of(source_id).jobs);
            proof {
                lemma_same_ids_wf(before, self@);
            }
        }
    }
}

/// The databases that are offered for a job: those next to its file, then the
/// recently used ones that exist and are not among them, from the first `n`.
pub open spec fn offered<P: PartialEq>(
    candidates: Seq<P>,
    recents: Seq<P>,
    found: Seq<bool>,
    n: int,
) -> Seq<P>
    decreases n,
{
    if n <= 0 {
        candidates
    } else {
        let before = offered(candidates, recents, found, n - 1);
        if found[n - 1] && !listed(before, recents[n - 1]) {
            before.push(recents[n - 1])
        } else {
            before
        }
    }
}

/// Whether a path is on a list.
pub open spec fn listed<P: PartialEq>(list: Seq<P>, path: P) -> bool {
    exists|i: int| 0 <= i < list.len() && (#[trigger] list[i]).eq_spec(&path)
}

/// The databases that are offered for a job. `found` says which of the
/// recently used ones exist.
pub fn dbc_choices<P: PartialEq + Clone>(
    candidates: &Vec<P>,
    recents: &Vec<P>,
    found: &Vec<bool>,
) -> (r: Vec<P>)
    requires
        path_type::<P>(),
        recents@.len() == found@.len(),
    ensures
        r@ == offered(candidates@, recents@, found@, recents@.len() as int),
{
    let mut choices: Vec<P> = Vec::new();
    let mut c: usize = 0;
    while c < candidates.len()
        invariant
            c <= candidates@.len(),
            path_type::<P>(),
            choices@ == candidates@.take(c as int),
        decreases candidates@.len() - c,
    {
        let copy: P = candidates[c].clone();
        assert(cloned(candidates@[c as int], copy));
        choices.push(copy);
        assert(candidates@.take(c + 1) =~= candidates@.take(c as int).push(copy));
        c += 1;
    }
    assert(candidates@.take(c as int) =~= candidates@);
    let mut i: usize = 0;
    while i < recents.len()
        invariant
            i <= recents@.len(),
            path_type::<P>(),
            recents@.len() == found@.len(),
            choices@ == offered(candidates@, recents@, found@, i as int),
        decreases recents@.len() - i,
    {
        if found[i] {
            let mut present: bool = false;
            let mut k: usize = 0;
            while k < choices.len()
                invariant
                    k <= choices@.len(),
                    i < recents@.len(),
                    path_type::<P>(),
                    present == exists|m: int|
                        0 <= m < k && (#[trigger] choices@[m]).eq_spec(&recents@[i as int]),
                decreases choices@.len() - k,
            {
                if choices[k] == recents[i] {
                    present = true;
                }
                k += 1;
            }
            assert(present == listed(choices@, recents@[i as int]));
            if !present {
                let copy: P = recents[i].clone();
                assert(cloned(recents@[i as int], copy));
                choices.push(copy);
            }
        }
        i += 1;
    }
    choices
}

} // verus!
