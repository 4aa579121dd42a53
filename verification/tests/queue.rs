use blf_decoder::config::{AppConfig, JobDefaults, ThemeChoice};
use blf_decoder::convert::{OutputLayout, Progress, Summary, TimestampMode};
use blf_decoder::decode::ColumnSpec;
use blf_decoder::export::OutputFormat;
use blf_decoder::job::{is_listed, search_matches, JobSettings, JobState};
use blf_decoder::queue::{dbc_choices, LogEntry, Queue, Surroundings, WorkerEvent};
use std::collections::VecDeque;
use std::path::PathBuf;

fn path(text: &str) -> PathBuf {
    PathBuf::from(text)
}

fn around(queue: &Queue<PathBuf>, candidates: &[&str]) -> Surroundings<PathBuf> {
    Surroundings {
        candidates: candidates.iter().map(|c| path(c)).collect(),
        recent_dbc_exists: vec![true; queue.config().recent_dbcs.len()],
        recent_out_dir_exists: true,
        parent: Some(path("logs")),
        here: path("."),
    }
}

fn queue_of(files: &[&str]) -> Queue<PathBuf> {
    let mut queue = Queue::new(AppConfig::default());
    for file in files {
        let found = around(&queue, &["one.dbc"]);
        assert!(queue.add_blf(path(file), found));
    }
    queue
}

fn ids(queue: &Queue<PathBuf>) -> Vec<u64> {
    queue.jobs().iter().map(|j| j.id).collect()
}

fn summary(rows: u64) -> Summary {
    Summary {
        output_path: path("out.csv"),
        frames_read: rows,
        frames_decoded: rows,
        rows_written: rows,
        signal_columns: 1,
    }
}

#[test]
fn files_are_added_once() {
    let mut queue = queue_of(&["a.blf", "b.blf"]);
    let found = around(&queue, &[]);
    assert!(!queue.add_blf(path("a.blf"), found));
    assert_eq!(ids(&queue), vec![1, 2]);
    assert_eq!(queue.selected(), Some(2));
    assert!(queue.holds(&path("b.blf")));
    assert!(!queue.holds(&path("c.blf")));
}

#[test]
fn new_jobs_find_their_database() {
    let mut queue = queue_of(&["a.blf"]);
    let job = queue.job(1).unwrap();
    assert_eq!(job.dbc, Some(path("one.dbc")));
    assert!(job.dbc_auto);
    assert_eq!(job.out_dir, path("logs"));
    assert_eq!(queue.config().last_blf_dir, Some(path("logs")));

    // With several next to the file, the latest one used that still exists.
    queue.assign_dbc(path("old.dbc"));
    queue.assign_dbc(path("new.dbc"));
    let mut found = around(&queue, &["x.dbc", "y.dbc"]);
    found.recent_dbc_exists = vec![false, true];
    assert!(queue.add_blf(path("b.blf"), found));
    let job = queue.job(2).unwrap();
    assert_eq!(job.dbc, Some(path("old.dbc")));
    assert!(!job.dbc_auto);
    assert_eq!(job.dbc_candidates.len(), 2);

    let mut found = around(&queue, &[]);
    found.recent_dbc_exists = vec![false, false];
    found.parent = None;
    assert!(queue.add_blf(path("c.blf"), found));
    assert_eq!(queue.job(3).unwrap().dbc, None);
    assert_eq!(queue.job(3).unwrap().out_dir, path("."));
}

#[test]
fn new_jobs_use_the_latest_output_directory() {
    let mut queue = queue_of(&["a.blf"]);
    queue.set_out_dir(1, path("out"));
    assert_eq!(queue.job(1).unwrap().out_dir, path("out"));
    let found = around(&queue, &[]);
    queue.add_blf(path("b.blf"), found);
    assert_eq!(queue.job(2).unwrap().out_dir, path("out"));
    let mut found = around(&queue, &[]);
    found.recent_out_dir_exists = false;
    queue.add_blf(path("c.blf"), found);
    assert_eq!(queue.job(3).unwrap().out_dir, path("logs"));
}

#[test]
fn new_jobs_take_the_defaults() {
    let mut queue = queue_of(&[]);
    queue.set_defaults(JobDefaults {
        format_parquet: true,
        layout_raw: true,
        interval_ns: 5,
        ..Default::default()
    });
    queue.set_theme(ThemeChoice::Dark);
    assert_eq!(queue.config().theme, ThemeChoice::Dark);
    let found = around(&queue, &[]);
    queue.add_blf(path("a.blf"), found);
    let s = &queue.job(1).unwrap().settings;
    assert!(s.format_parquet && s.layout_raw && !s.only_selected);
    assert_eq!(s.interval_ns, 5);
    assert!(s.selected_signals.is_empty());
}

#[test]
fn databases_go_to_the_selected_job() {
    let mut queue = queue_of(&["a.blf", "b.blf"]);
    queue.select(1);
    queue.assign_dbc(path("new.dbc"));
    assert_eq!(queue.job(1).unwrap().dbc, Some(path("new.dbc")));
    assert!(!queue.job(1).unwrap().dbc_auto);
    assert_eq!(queue.job(2).unwrap().dbc, Some(path("one.dbc")));
    assert_eq!(queue.config().recent_dbcs, vec![path("new.dbc")]);
}

#[test]
fn databases_go_to_jobs_without_one() {
    let mut queue = Queue::new(AppConfig::default());
    for (file, dbcs) in [("a", vec![]), ("b", vec!["own.dbc"]), ("c", vec![])] {
        let found = around(&queue, &dbcs);
        queue.add_blf(path(file), found);
    }
    // The selected job is gone: every job without a database gets it.
    queue.select(77);
    queue.assign_dbc(path("new.dbc"));
    assert_eq!(queue.job(1).unwrap().dbc, Some(path("new.dbc")));
    assert_eq!(queue.job(2).unwrap().dbc, Some(path("own.dbc")));
    assert_eq!(queue.job(3).unwrap().dbc, Some(path("new.dbc")));
}

#[test]
fn start_hands_out_what_can_run() {
    let mut queue = queue_of(&["a.blf", "b.blf"]);
    let found = around(&queue, &[]);
    queue.add_blf(path("c.blf"), found); // no database
    assert!(queue.can_convert());
    let specs = queue.start_queue();
    assert_eq!(specs.len(), 2);
    assert_eq!((specs[0].job_id, &specs[0].blf), (1, &path("a.blf")));
    assert_eq!(specs[1].dbc, path("one.dbc"));
    assert_eq!(specs[1].out_dir, path("logs"));
    assert!(matches!(queue.job(1).unwrap().state, JobState::Running));
    assert!(matches!(queue.job(3).unwrap().state, JobState::Ready));
    assert!(!queue.can_convert());
    assert_eq!(queue.run().unwrap().queue_total, 2);
    // Nothing is handed out twice.
    assert!(queue.start_queue().is_empty());
}

#[test]
fn events_drive_the_run() {
    let mut queue = queue_of(&["a.blf", "b.blf"]);
    queue.start_queue();
    let progress = Progress {
        frames_read: 9,
        ..Default::default()
    };
    let log = queue.poll(VecDeque::from(vec![
        WorkerEvent::Started {
            job_id: 1,
            index: 0,
            total: 2,
        },
        WorkerEvent::Progress {
            job_id: 1,
            progress,
            message: Some("Engine".to_string()),
        },
        WorkerEvent::Progress {
            job_id: 1,
            progress,
            message: None,
        },
        WorkerEvent::Progress {
            job_id: 2,
            progress: Progress::default(),
            message: None,
        },
    ]));
    assert_eq!(log, vec![LogEntry::Loading(1)]);
    let run = queue.run().unwrap();
    assert_eq!(run.current_job, Some(1));
    assert_eq!(run.progress.frames_read, 9);
    assert_eq!(run.current_message.as_deref(), Some("Engine"));

    let log = queue.poll(VecDeque::from(vec![
        WorkerEvent::Finished {
            job_id: 1,
            result: Ok(summary(4)),
        },
        WorkerEvent::Started {
            job_id: 2,
            index: 1,
            total: 2,
        },
        WorkerEvent::Finished {
            job_id: 2,
            result: Err("broken".to_string()),
        },
        WorkerEvent::AllDone,
    ]));
    assert_eq!(
        log,
        vec![
            LogEntry::Loading(2),
            LogEntry::Finished(1),
            LogEntry::Finished(2),
            LogEntry::QueueDone
        ]
    );
    assert!(queue.run().is_none());
    match &queue.job(1).unwrap().state {
        JobState::Done(s) => assert_eq!(s.rows_written, 4),
        other => panic!("{other:?}"),
    }
    match &queue.job(2).unwrap().state {
        JobState::Failed(e) => assert_eq!(e, "broken"),
        other => panic!("{other:?}"),
    }
    assert!(queue.has_failed());
    // A failed job can be converted again.
    assert!(queue.can_convert());
    assert_eq!(queue.start_queue().len(), 1);
}

#[test]
fn events_without_a_run_do_nothing() {
    let mut queue = queue_of(&["a.blf"]);
    let log = queue.poll(VecDeque::from(vec![WorkerEvent::Finished {
        job_id: 1,
        result: Ok(summary(4)),
    }]));
    assert!(log.is_empty());
    assert!(matches!(queue.job(1).unwrap().state, JobState::Ready));
}

#[test]
fn failed_jobs_can_be_retried() {
    let mut queue = queue_of(&["a.blf", "b.blf"]);
    queue.start_queue();
    let fail = |job_id| WorkerEvent::Finished {
        job_id,
        result: Err("no".to_string()),
    };
    queue.poll(VecDeque::from(vec![fail(1), fail(2), WorkerEvent::AllDone]));
    queue.retry(2);
    assert!(matches!(queue.job(2).unwrap().state, JobState::Ready));
    assert!(matches!(queue.job(1).unwrap().state, JobState::Failed(_)));
    queue.retry_failed();
    assert!(!queue.has_failed());
}

#[test]
fn jobs_move_and_go() {
    let mut queue = queue_of(&["a", "b", "c"]);
    queue.move_job(1, false);
    assert_eq!(ids(&queue), vec![2, 1, 3]);
    queue.move_job(1, true);
    assert_eq!(ids(&queue), vec![1, 2, 3]);
    queue.move_job(1, true);
    queue.move_job(3, false);
    assert_eq!(ids(&queue), vec![1, 2, 3]);

    queue.delete(3); // the selected one
    assert_eq!(ids(&queue), vec![1, 2]);
    assert_eq!(queue.selected(), Some(1));
    queue.delete(2);
    assert_eq!(queue.selected(), Some(1));
    queue.delete(1);
    assert_eq!(queue.selected(), None);
    queue.delete(9);

    let mut queue = queue_of(&["a", "b"]);
    queue.clear();
    assert!(queue.jobs().is_empty());
    assert_eq!(queue.selected(), None);
    // Numbers are not used again.
    let found = around(&queue, &[]);
    queue.add_blf(path("a"), found);
    assert_eq!(ids(&queue), vec![3]);
}

#[test]
fn settings_spread_to_all_jobs() {
    let mut queue = queue_of(&["a", "b"]);
    let found = around(&queue, &[]);
    queue.add_blf(path("c"), found);
    let mut settings = queue.job(1).unwrap().settings.copy();
    settings.interval_ns = 7;
    settings.selected_signals = vec!["X".to_string()];
    queue.set_settings(1, settings);
    queue.set_out_dir(1, path("there"));
    queue.set_dbc(2, path("own.dbc"));
    queue.apply_settings_to_all(1);
    for job in queue.jobs() {
        assert_eq!(job.settings.interval_ns, 7);
        assert_eq!(job.settings.selected_signals, vec!["X".to_string()]);
        assert_eq!(job.out_dir, path("there"));
    }
    assert_eq!(queue.job(2).unwrap().dbc, Some(path("own.dbc")));
    assert_eq!(queue.job(3).unwrap().dbc, Some(path("one.dbc")));
    assert_eq!(queue.job(3).unwrap().blf, path("c"));
}

#[test]
fn options_follow_the_settings() {
    let mut settings = JobSettings {
        format_parquet: true,
        layout_raw: true,
        interval_ns: 25,
        relative_timestamp: false,
        keep_can_id: true,
        skip_unknown: false,
        overwrite: true,
        only_selected: true,
        selected_signals: vec!["A".to_string()],
    };
    let options = settings.options();
    assert_eq!(options.format, OutputFormat::Parquet);
    assert_eq!(options.layout, OutputLayout::PerFrame);
    assert_eq!(options.resample_ns, 25);
    assert_eq!(options.timestamp, TimestampMode::EpochSeconds);
    assert!(options.keep_can_id && !options.skip_unknown_ids && options.overwrite);
    assert_eq!(options.signal_filter, Some(vec!["A".to_string()]));
    settings.only_selected = false;
    settings.format_parquet = false;
    settings.layout_raw = false;
    settings.relative_timestamp = true;
    let options = settings.options();
    assert_eq!(options.signal_filter, None);
    assert_eq!(options.format, OutputFormat::Csv);
    assert_eq!(options.layout, OutputLayout::Resampled);
    assert_eq!(options.timestamp, TimestampMode::RelativeSeconds);
}

fn column(name: &str, message: &str) -> ColumnSpec {
    ColumnSpec {
        name: name.to_string(),
        message: message.to_string(),
    }
}

#[test]
fn columns_are_chosen_one_by_one() {
    let queue = queue_of(&["a"]);
    let mut s = queue.job(1).unwrap().settings.copy();
    let columns = vec![column("A", "M"), column("B", "M"), column("A", "M")];
    s.select_initially(&columns);
    assert_eq!(s.selected_signals, vec!["A".to_string(), "B".to_string()]);
    s.set_selected(&"A".to_string(), false);
    assert!(!s.is_selected(&"A".to_string()) && s.is_selected(&"B".to_string()));
    // Something is chosen already.
    s.select_initially(&columns);
    assert_eq!(s.selected_signals, vec!["B".to_string()]);
    s.set_selected(&"A".to_string(), true);
    s.set_selected(&"A".to_string(), true);
    s.set_selected(&"C".to_string(), false);
    assert_eq!(s.selected_signals, vec!["B".to_string(), "A".to_string()]);
    s.select_none();
    assert!(s.selected_signals.is_empty());
    s.select_all(&columns);
    assert_eq!(s.selected_signals.len(), 2);
}

#[test]
fn columns_are_searched_in_any_case() {
    let c = column("EngineSpeed", "ÄMsg");
    assert!(is_listed(&c, ""));
    assert!(is_listed(&c, "esPE"));
    assert!(is_listed(&c, "ämsg"));
    assert!(!is_listed(&c, "temp"));
    assert!(search_matches("abc", "xyz", "yz"));
    assert!(!search_matches("abc", "xyz", "YZ"));
}

#[test]
fn offered_databases() {
    let choices = dbc_choices(
        &vec![path("near.dbc"), path("b.dbc")],
        &vec![path("b.dbc"), path("gone.dbc"), path("c.dbc")],
        &vec![true, false, true],
    );
    assert_eq!(choices, vec![path("near.dbc"), path("b.dbc"), path("c.dbc")]);
}

#[test]
fn a_job_that_is_gone_is_not_logged_as_loading() {
    let mut queue = queue_of(&["a.blf", "b.blf"]);
    queue.start_queue();
    queue.delete(1);
    let log = queue.poll(VecDeque::from(vec![
        WorkerEvent::Started {
            job_id: 1,
            index: 0,
            total: 2,
        },
        WorkerEvent::Started {
            job_id: 2,
            index: 1,
            total: 2,
        },
        WorkerEvent::Finished {
            job_id: 1,
            result: Err("gone".to_string()),
        },
    ]));
    assert_eq!(log, vec![LogEntry::Loading(2), LogEntry::Finished(1)]);
    assert_eq!(queue.run().unwrap().current_job, Some(2));
}
