use blf_decoder::shape::{Resampler, RowRun};

const MS: i128 = 1_000_000;

fn rows_of(run: &RowRun<i32>) -> Vec<(i128, Vec<(usize, i32)>)> {
    (0..run.count)
        .map(|k| (run.time(k), run.cells.clone()))
        .collect()
}

/// Times in milliseconds (tenths are lost nowhere: nanoseconds inside).
fn collect(
    frames: &[(f64, Vec<(usize, f64)>)],
    cols: usize,
    dt: f64,
) -> Vec<(f64, Vec<(usize, f64)>)> {
    let ns = |seconds: f64| (seconds * 1e9).round() as i128;
    let mut rs = Resampler::new(cols, ns(dt) as i64);
    let mut out = Vec::new();
    let mut emit = |run: RowRun<f64>| {
        for k in 0..run.count {
            out.push((run.time(k) as f64 / 1e9, run.cells.clone()));
        }
    };
    for (ts, cells) in frames {
        emit(rs.push(ns(*ts), cells));
    }
    emit(rs.finish());
    out
}

#[test]
fn forward_fills_on_grid() {
    let rows = collect(
        &[
            (0.00, vec![(0, 1.0)]),
            (0.04, vec![(1, 10.0)]),
            (0.13, vec![(0, 2.0)]),
            (0.31, vec![(1, 20.0)]),
        ],
        2,
        0.1,
    );
    assert_eq!(
        rows,
        vec![
            (0.0, vec![(0, 1.0)]),
            (0.1, vec![(0, 1.0), (1, 10.0)]),
            (0.2, vec![(0, 2.0), (1, 10.0)]),
            (0.3, vec![(0, 2.0), (1, 10.0)]),
            (0.4, vec![(0, 2.0), (1, 20.0)]), // trailing flush
        ]
    );
}

#[test]
fn frame_on_grid_point_included() {
    let rows = collect(&[(0.0, vec![(0, 1.0)]), (0.1, vec![(0, 2.0)])], 1, 0.1);
    // Grid row 0.0 contains the frame at exactly 0.0; row 0.1 flushes the
    // final value.
    assert_eq!(rows, vec![(0.0, vec![(0, 1.0)]), (0.1, vec![(0, 2.0)])]);
}

#[test]
fn unseen_columns_stay_empty() {
    let rows = collect(&[(0.0, vec![(1, 5.0)]), (0.25, vec![(1, 6.0)])], 3, 0.1);
    for (_, cells) in &rows {
        assert!(cells.iter().all(|(col, _)| *col == 1));
    }
    assert_eq!(rows.len(), 4); // 0.0, 0.1, 0.2 grids + trailing flush
}

#[test]
fn grid_snaps_to_round_interval_multiples() {
    let rows = collect(&[(0.1037, vec![(0, 1.0)]), (0.42, vec![(0, 2.0)])], 1, 0.1);
    // Grid anchored at 0.2 (first multiple of 0.1 at/after 0.1037).
    assert_eq!(
        rows,
        vec![
            (0.2, vec![(0, 1.0)]),
            (0.3, vec![(0, 1.0)]),
            (0.4, vec![(0, 1.0)]),
            (0.5, vec![(0, 2.0)]), // trailing flush
        ]
    );
}

#[test]
fn empty_input_emits_nothing() {
    let rows = collect(&[], 2, 0.1);
    assert!(rows.is_empty());
}

#[test]
fn times_before_the_epoch() {
    let mut rs: Resampler<i32> = Resampler::new(1, 100 * 1_000_000);
    assert_eq!(rs.push(-150 * MS, &[(0, 1)]).count, 0);
    let run = rs.push(120 * MS, &[(0, 2)]);
    assert_eq!(
        rows_of(&run),
        vec![
            (-100 * MS, vec![(0, 1)]),
            (0, vec![(0, 1)]),
            (100 * MS, vec![(0, 1)]),
        ]
    );
    assert_eq!(rows_of(&rs.finish()), vec![(200 * MS, vec![(0, 2)])]);
    // Nothing is left.
    assert_eq!(rs.finish().count, 0);
}

#[test]
fn latest_value_wins_and_late_frames_merge() {
    let mut rs: Resampler<i32> = Resampler::new(2, 10);
    assert_eq!(rs.push(20, &[(0, 1), (0, 2), (1, 7)]).count, 0);
    assert_eq!(rows_of(&rs.push(21, &[(0, 3)])), vec![(20, vec![(0, 2), (1, 7)])]);
    // A frame out of order changes the row that is still open.
    assert_eq!(rs.push(5, &[(1, 8)]).count, 0);
    assert_eq!(rows_of(&rs.finish()), vec![(30, vec![(0, 3), (1, 8)])]);
}

#[test]
fn long_gaps_are_one_run() {
    let mut rs: Resampler<i32> = Resampler::new(1, 1);
    rs.push(0, &[(0, 4)]);
    let run = rs.push(1 << 90, &[(0, 5)]);
    assert_eq!((run.start_ns, run.step_ns, run.count), (0, 1, 1 << 90));
    assert_eq!(run.time(run.count - 1), (1 << 90) - 1);
    assert_eq!(run.cells, vec![(0, 4)]);
}
