use blf_decoder::config::{push_recent, AppConfig, JobDefaults, ThemeChoice, MAX_RECENT};
use std::path::PathBuf;

fn path(text: &str) -> PathBuf {
    PathBuf::from(text)
}

#[test]
fn newest_path_comes_first() {
    let mut list = vec![path("a"), path("b"), path("c")];
    push_recent(&mut list, path("b"));
    assert_eq!(list, vec![path("b"), path("a"), path("c")]);
    push_recent(&mut list, path("d"));
    assert_eq!(list, vec![path("d"), path("b"), path("a"), path("c")]);
}

#[test]
fn list_is_bounded_and_without_repetitions() {
    let mut list = Vec::new();
    for i in 0..25 {
        push_recent(&mut list, i % 12);
        assert!(list.len() <= MAX_RECENT);
        for (k, x) in list.iter().enumerate() {
            assert!(!list[k + 1..].contains(x));
        }
    }
    assert_eq!(list, vec![0, 11, 10, 9, 8, 7, 6, 5, 4, 3]);
}

#[test]
fn every_repetition_is_removed() {
    let mut list = vec![1, 2, 1, 1, 3];
    push_recent(&mut list, 1);
    assert_eq!(list, vec![1, 2, 3]);
}

#[test]
fn defaults() {
    let config: AppConfig<PathBuf> = AppConfig::default();
    assert_eq!(config.theme, ThemeChoice::System);
    assert!(config.recent_dbcs.is_empty() && config.recent_out_dirs.is_empty());
    assert!(config.last_blf_dir.is_none());
    let d = JobDefaults::default();
    assert_eq!(config.defaults, d);
    assert!(!d.format_parquet && !d.layout_raw && !d.keep_can_id);
    assert!(!d.overwrite && !d.columns_full);
    assert!(d.relative_timestamp && d.skip_unknown && d.drop_empty);
    assert_eq!(d.interval_ns, 100_000_000);
}

#[test]
fn lists_are_separate() {
    let mut config: AppConfig<PathBuf> = AppConfig::default();
    config.remember_dbc(path("x.dbc"));
    config.remember_out_dir(path("out"));
    config.remember_dbc(path("y.dbc"));
    assert_eq!(config.recent_dbcs, vec![path("y.dbc"), path("x.dbc")]);
    assert_eq!(config.recent_out_dirs, vec![path("out")]);
}

#[test]
fn using_a_path_again_changes_nothing() {
    for length in [0, 3, 9, 10] {
        let mut list: Vec<i32> = (0..length).collect();
        push_recent(&mut list, 7);
        let once = list.clone();
        push_recent(&mut list, 7);
        assert_eq!(list, once);
        assert_eq!(list[0], 7);
        assert!(!list[1..].contains(&7));
    }
}
