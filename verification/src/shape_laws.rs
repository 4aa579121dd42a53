//! What holds of a resampled log as a whole.

use crate::shape::{
    filled, grid_start, lemma_grid_start, lemma_grid_steps, merged, ResamplerModel,
    Row,
};
use vstd::prelude::*;

verus! {

/// The state after the first `n` frames.
pub open spec fn state_after<V>(start: ResamplerModel<V>, frames: Seq<Row<V>>, n: int) -> (
ResamplerModel<V>)
    decreases n,
{
    if n <= 0 {
        start
    } else {
        state_after(start, frames, n - 1).pushed(frames[n - 1].0, frames[n - 1].1)
    }
}

/// The rows that the first `n` frames bring out.
pub open spec fn rows_after<V>(start: ResamplerModel<V>, frames: Seq<Row<V>>, n: int) -> Seq<
    Row<V>,
>
    decreases n,
{
    if n <= 0 {
        Seq::empty()
    } else {
        rows_after(start, frames, n - 1) + state_after(start, frames, n - 1).rows_before(
            frames[n - 1].0,
        )
    }
}

/// All rows of a log: those that its frames bring out, and the trailing one.
pub open spec fn resampled<V>(columns: nat, interval: int, frames: Seq<Row<V>>) -> Seq<Row<V>> {
    let start = ResamplerModel::<V>::fresh(columns, interval);
    let n = frames.len() as int;
    rows_after(start, frames, n) + state_after(start, frames, n).last_rows()
}

/// The latest values of the first `n` frames as far as they are not later
/// than `time`.
pub open spec fn held<V>(columns: nat, frames: Seq<Row<V>>, n: int, time: int) -> Seq<Option<V>>
    decreases n,
{
    if n <= 0 {
        Seq::new(columns, |i: int| None)
    } else {
        let before = held(columns, frames, n - 1, time);
        if frames[n - 1].0 <= time {
            merged(before, frames[n - 1].1, frames[n - 1].1.len() as int)
        } else {
            before
        }
    }
}

/// Frames in the order of time.
pub open spec fn in_time_order<V>(frames: Seq<Row<V>>) -> bool {
    forall|i: int, j: int|
        0 <= i <= j < frames.len() ==> (#[trigger] frames[i]).0 <= (#[trigger] frames[j]).0
}

/// The next row after some frames lies behind all the rows so far, one step
/// after the last.
proof fn lemma_grid<V>(columns: nat, interval: int, frames: Seq<Row<V>>, n: int)
    requires
        interval > 0,
        0 < n <= frames.len(),
    ensures
        ({
            let start = ResamplerModel::<V>::fresh(columns, interval);
            let rows = rows_after(start, frames, n);
            let state = state_after(start, frames, n);
            let anchor = grid_start(frames[0].0, interval);
            &&& state.interval == interval
            &&& state.dirty
            &&& state.next == Some(anchor + rows.len() * interval)
            &&& (anchor + rows.len() * interval) % interval == 0
            &&& anchor + rows.len() * interval >= frames[n - 1].0
            &&& forall|k: int|
                0 <= k < rows.len() ==> (#[trigger] rows[k]).0 == anchor + k * interval
        }),
    decreases n,
{
    let start = ResamplerModel::<V>::fresh(columns, interval);
    let before = state_after(start, frames, n - 1);
    let old_rows = rows_after(start, frames, n - 1);
    let time = frames[n - 1].0;
    let new_rows = before.rows_before(time);
    let rows = rows_after(start, frames, n);
    let anchor = grid_start(frames[0].0, interval);
    lemma_grid_start(frames[0].0, interval);
    lemma_grid_start(time, interval);
    if n > 1 {
        lemma_grid(columns, interval, frames, n - 1);
    }
    let first = before.due(time);
    assert(first == anchor + old_rows.len() * interval) by {
        if n == 1 {
            assert(0 * interval == 0) by (nonlinear_arith);
        }
    }
    lemma_grid_steps(first, before.after(time), interval);
    let c = new_rows.len() as int;
    let o = old_rows.len() as int;
    assert(anchor + (o + c) * interval == first + c * interval) by (nonlinear_arith)
        requires
            first == anchor + o * interval,
    ;
    assert forall|k: int| 0 <= k < rows.len() implies (#[trigger] rows[k]).0 == anchor + k
        * interval by {
        if k < o {
            assert(rows[k] == old_rows[k]);
        } else {
            let j = k - o;
            assert(rows[k] == new_rows[j]);
            assert(first + j * interval == anchor + k * interval) by (nonlinear_arith)
                requires
                    first == anchor + o * interval,
                    j == k - o,
            ;
        }
    }
}

/// The rows of a log lie on a grid without gaps: the first one at the first
/// multiple of the interval at or after the first frame, every other one an
/// interval after the one before it.
pub proof fn law_rows_form_a_grid<V>(columns: nat, interval: int, frames: Seq<Row<V>>, k: int)
    requires
        interval > 0,
        0 <= k < resampled(columns, interval, frames).len(),
    ensures
        frames.len() > 0,
        resampled(columns, interval, frames)[k].0 == grid_start(frames[0].0, interval) + k
            * interval,
        resampled(columns, interval, frames)[k].0 % interval == 0,
{
    let start = ResamplerModel::<V>::fresh(columns, interval);
    let n = frames.len() as int;
    if n > 0 {
        lemma_grid(columns, interval, frames, n);
        lemma_grid_start(frames[0].0, interval);
        let rows = rows_after(start, frames, n);
        let all = resampled(columns, interval, frames);
        let anchor = grid_start(frames[0].0, interval);
        if k < rows.len() {
            assert(all[k] == rows[k]);
        }
        vstd::arithmetic::div_mod::lemma_mod_multiples_vanish(k, anchor, interval);
        assert(interval * k + anchor == anchor + k * interval) by (nonlinear_arith);
    }
}

/// A log without frames has no rows.
pub proof fn law_no_frames_no_rows<V>(columns: nat, interval: int, frames: Seq<Row<V>>)
    requires
        frames.len() == 0,
    ensures
        resampled(columns, interval, frames).len() == 0,
{
}

/// Once the trailing row is out there is none left.
pub proof fn law_nothing_left_after_finish<V>(state: ResamplerModel<V>)
    ensures
        (ResamplerModel { dirty: false, ..state }).last_rows().len() == 0,
{
}

proof fn lemma_same_held<V>(columns: nat, frames: Seq<Row<V>>, n: int, time: int, later: int)
    requires
        0 <= n <= frames.len(),
        forall|i: int| 0 <= i < n ==> (#[trigger] frames[i]).0 <= time,
        time <= later,
    ensures
        held(columns, frames, n, time) == held(columns, frames, n, later),
    decreases n,
{
    if n > 0 {
        lemma_same_held(columns, frames, n - 1, time, later);
        assert(frames[n - 1].0 <= time);
    }
}

/// The state after frames in the order of time: where the next row stands,
/// what it will hold, and what the rows so far hold.
proof fn lemma_hold<V>(columns: nat, interval: int, frames: Seq<Row<V>>, n: int)
    requires
        interval > 0,
        in_time_order(frames),
        0 < n <= frames.len(),
    ensures
        ({
            let start = ResamplerModel::<V>::fresh(columns, interval);
            let rows = rows_after(start, frames, n);
            let state = state_after(start, frames, n);
            &&& state.interval == interval
            &&& state.next == Some(grid_start(frames[n - 1].0, interval))
            &&& state.current == held(columns, frames, n, frames[n - 1].0)
            &&& forall|k: int|
                0 <= k < rows.len() ==> (#[trigger] rows[k]).0 < frames[n - 1].0 && rows[k].1
                    == row_of(held(columns, frames, n, rows[k].0))
        }),
    decreases n,
{
    let start = ResamplerModel::<V>::fresh(columns, interval);
    let before = state_after(start, frames, n - 1);
    let old_rows = rows_after(start, frames, n - 1);
    let time = frames[n - 1].0;
    let new_rows = before.rows_before(time);
    let rows = rows_after(start, frames, n);
    let first = before.due(time);
    lemma_grid_start(time, interval);
    assert(start.current =~= held(columns, frames, 0, time));
    if n > 1 {
        lemma_hold(columns, interval, frames, n - 1);
        let previous = frames[n - 2].0;
        assert(previous <= time);
        lemma_grid_start(previous, interval);
        assert(first == grid_start(previous, interval));
        if first >= time {
            assert(grid_start(time, interval) % interval == 0);
            assert(first % interval == 0);
        }
        assert forall|i: int| 0 <= i < n - 1 implies (#[trigger] frames[i]).0 <= previous by {
            assert(frames[i].0 <= frames[n - 2].0);
        }
        lemma_same_held(columns, frames, n - 1, previous, time);
    }
    lemma_grid_steps(first, before.after(time), interval);
    assert forall|k: int| 0 <= k < rows.len() implies (#[trigger] rows[k]).0 < time && rows[k].1
        == row_of(held(columns, frames, n, rows[k].0)) by {
        if k < old_rows.len() {
            assert(rows[k] == old_rows[k]);
            assert(old_rows[k].0 < frames[n - 2].0);
        } else {
            let j = k - old_rows.len();
            assert(rows[k] == new_rows[j]);
            let c = new_rows.len() as int;
            let last = before.after(time);
            assert(0 <= j * interval && j * interval <= (c - 1) * interval) by (nonlinear_arith)
                requires
                    0 <= j <= c - 1,
                    interval > 0,
            ;
            assert((c - 1) * interval == c * interval - interval) by (nonlinear_arith);
            assert(rows[k].0 <= last - interval);
            if n > 1 {
                lemma_same_held(columns, frames, n - 1, frames[n - 2].0, rows[k].0);
            } else {
                // the first row is not before the first frame
                assert(false);
            }
        }
    }
}

/// The cells of a row with the given values.
pub open spec fn row_of<V>(current: Seq<Option<V>>) -> Seq<(usize, V)> {
    filled(current, current.len() as int)
}

/// Forward fill: of frames in the order of time, every row holds the latest
/// value of every signal up to the time of the row, a frame at exactly that
/// time included, and nothing for a signal not yet seen.
pub proof fn law_rows_hold_the_latest_values<V>(
    columns: nat,
    interval: int,
    frames: Seq<Row<V>>,
    k: int,
)
    requires
        interval > 0,
        in_time_order(frames),
        0 <= k < resampled(columns, interval, frames).len(),
    ensures
        ({
            let row = resampled(columns, interval, frames)[k];
            row.1 == row_of(held(columns, frames, frames.len() as int, row.0))
        }),
{
    let start = ResamplerModel::<V>::fresh(columns, interval);
    let n = frames.len() as int;
    if n > 0 {
        lemma_hold(columns, interval, frames, n);
        let rows = rows_after(start, frames, n);
        let all = resampled(columns, interval, frames);
        if k < rows.len() {
            assert(all[k] == rows[k]);
        } else {
            let last = frames[n - 1].0;
            lemma_grid_start(last, interval);
            assert forall|i: int| 0 <= i < n implies (#[trigger] frames[i]).0 <= last by {
                assert(frames[i].0 <= frames[n - 1].0);
            }
            lemma_same_held(columns, frames, n, last, all[k].0);
        }
    }
}

/// Of frames in the order of time the last row stands at the first multiple
/// of the interval at or after the last frame, so no value is lost.
pub proof fn law_last_row_follows_last_frame<V>(columns: nat, interval: int, frames: Seq<Row<V>>)
    requires
        interval > 0,
        in_time_order(frames),
        frames.len() > 0,
    ensures
        ({
            let rows = resampled(columns, interval, frames);
            &&& rows.len() > 0
            &&& rows.last().0 == grid_start(frames.last().0, interval)
        }),
{
    let start = ResamplerModel::<V>::fresh(columns, interval);
    let n = frames.len() as int;
    lemma_hold(columns, interval, frames, n);
    lemma_grid(columns, interval, frames, n);
}

/// What a row holds of a column is the column's value, if it has one.
pub proof fn law_row_holds_the_column_values<V>(current: Seq<Option<V>>, col: int)
    requires
        0 <= col < current.len() <= usize::MAX,
    ensures
        match current[col] {
            Some(v) => row_of(current).contains((col as usize, v)),
            None => forall|j: int|
                0 <= j < row_of(current).len() ==> (#[trigger] row_of(current)[j]).0 != col,
        },
{
    lemma_filled(current, current.len() as int, col);
}

proof fn lemma_filled<V>(current: Seq<Option<V>>, n: int, col: int)
    requires
        0 <= col < current.len() <= usize::MAX,
        0 <= n <= current.len(),
    ensures
        ({
            let row = filled(current, n);
            let there = col < n && current[col] is Some;
            &&& there ==> exists|j: int|
                0 <= j < row.len() && #[trigger] row[j] == (col as usize, current[col]->0)
            &&& !there ==> forall|j: int| 0 <= j < row.len() ==> (#[trigger] row[j]).0 != col
        }),
    decreases n,
{
    if n > 0 {
        lemma_filled(current, n - 1, col);
        let before = filled(current, n - 1);
        let row = filled(current, n);
        assert(forall|j: int| 0 <= j < before.len() ==> #[trigger] row[j] == before[j]);
        if col < n && current[col] is Some {
            let cell = (col as usize, current[col]->0);
            if col < n - 1 {
                let j = choose|j: int| 0 <= j < before.len() && #[trigger] before[j] == cell;
                assert(row[j] == cell);
            } else {
                assert(row[before.len() as int] == cell);
            }
        }
    }
}

/// What the first `n` cells leave in a column.
pub proof fn lemma_merged<V>(current: Seq<Option<V>>, cells: Seq<(usize, V)>, n: int, col: int)
    requires
        0 <= n <= cells.len(),
        0 <= col < current.len(),
        forall|k: int| 0 <= k < cells.len() ==> (#[trigger] cells[k]).0 < current.len(),
    ensures
        merged(current, cells, n).len() == current.len(),
        forall|k: int|
            0 <= k < n && (#[trigger] cells[k]).0 == col && (forall|j: int|
                k < j < n ==> (#[trigger] cells[j]).0 != col) ==> merged(current, cells, n)[col]
                == Some(cells[k].1),
        (forall|k: int| 0 <= k < n ==> (#[trigger] cells[k]).0 != col) ==> merged(
            current,
            cells,
            n,
        )[col] == current[col],
    decreases n,
{
    if n > 0 {
        lemma_merged(current, cells, n - 1, col);
        let last = cells[n - 1];
        assert(last.0 < current.len());
        let after = merged(current, cells, n);
        assert forall|k: int|
            0 <= k < n && (#[trigger] cells[k]).0 == col && (forall|j: int|
                k < j < n ==> (#[trigger] cells[j]).0 != col) implies after[col] == Some(
            cells[k].1,
        ) by {
            if k < n - 1 {
                assert(cells[n - 1].0 != col);
                assert(forall|j: int| k < j < n - 1 ==> (#[trigger] cells[j]).0 != col);
            }
        }
        if forall|k: int| 0 <= k < n ==> (#[trigger] cells[k]).0 != col {
            assert(cells[n - 1].0 != col);
            assert(forall|k: int| 0 <= k < n - 1 ==> (#[trigger] cells[k]).0 != col);
        }
    }
}

/// A frame refreshes the columns it speaks of and no others: behind it a
/// column holds the value of the frame's last cell in that column, or, where
/// the frame has none, what it held before.
pub proof fn law_frame_refreshes_its_columns<V>(
    state: ResamplerModel<V>,
    time: int,
    cells: Seq<(usize, V)>,
    col: int,
)
    requires
        0 <= col < state.current.len(),
        forall|k: int| 0 <= k < cells.len() ==> (#[trigger] cells[k]).0 < state.current.len(),
    ensures
        ({
            let after = state.pushed(time, cells).current;
            &&& after.len() == state.current.len()
            &&& forall|k: int|
                0 <= k < cells.len() && (#[trigger] cells[k]).0 == col && (forall|j: int|
                    k < j < cells.len() ==> (#[trigger] cells[j]).0 != col) ==> after[col] == Some(
                    cells[k].1,
                )
            &&& (forall|k: int| 0 <= k < cells.len() ==> (#[trigger] cells[k]).0 != col)
                ==> after[col] == state.current[col]
        }),
{
    lemma_merged(state.current, cells, cells.len() as int, col);
}

/// A frame brings out the rows of the grid that are due before it, each with
/// the values of before the frame: they start where the next row was due (at
/// the first frame: at the first multiple of the interval not before it),
/// follow each other by the interval, and end before the frame; the next row
/// is due one interval after the last of them, at the frame or later.
pub proof fn law_frame_brings_out_the_rows_before_it<V>(
    state: ResamplerModel<V>,
    time: int,
    cells: Seq<(usize, V)>,
)
    requires
        state.wf(),
    ensures
        ({
            let rows = state.rows_before(time);
            let next = state.pushed(time, cells).next->0;
            let first = next - rows.len() * state.interval;
            &&& state.pushed(time, cells).next is Some
            &&& state.pushed(time, cells).interval == state.interval
            &&& time <= next
            &&& next % state.interval == 0
            &&& match state.next {
                Some(due) => first == due,
                None => rows.len() == 0 && next < time + state.interval,
            }
            &&& forall|k: int|
                0 <= k < rows.len() ==> {
                    &&& (#[trigger] rows[k]).0 == first + k * state.interval
                    &&& rows[k].0 < time
                    &&& rows[k].1 == row_of(state.current)
                }
        }),
{
    let interval = state.interval;
    let rows = state.rows_before(time);
    let next = state.pushed(time, cells).next->0;
    let first = state.due(time);
    lemma_grid_start(time, interval);
    lemma_grid_steps(first, next, interval);
    let c = rows.len() as int;
    assert(first + c * interval == next);
    assert(c == 0 ==> c * interval == 0) by (nonlinear_arith);
    if state.next is None {
        assert((next - first) / interval == 0) by {
            assert(0int / interval == 0) by (nonlinear_arith)
                requires
                    interval > 0,
            ;
        }
    }
    assert forall|k: int| 0 <= k < rows.len() implies {
        &&& (#[trigger] rows[k]).0 == first + k * interval
        &&& rows[k].0 < time
        &&& rows[k].1 == row_of(state.current)
    } by {
        assert(k * interval <= (c - 1) * interval) by (nonlinear_arith)
            requires
                k <= c - 1,
                interval > 0,
        ;
        assert((c - 1) * interval == c * interval - interval) by (nonlinear_arith);
        if first >= time {
            assert(next == first);
            assert(false) by (nonlinear_arith)
                requires
                    c * interval == 0,
                    c > 0,
                    interval > 0,
            ;
        }
    }
}

/// A resampler that has taken in a frame since its last row ends with one
/// row, where the next one was due, with the values it holds; a resampler that
/// has seen no frame ends without one.
pub proof fn law_trailing_row<V>(state: ResamplerModel<V>, time: int, cells: Seq<(usize, V)>)
    ensures
        ({
            let after = state.pushed(time, cells);
            let rows = after.last_rows();
            &&& rows.len() == 1
            &&& Some(rows[0].0) == after.next
            &&& rows[0].1 == row_of(after.current)
        }),
        state.next is None ==> state.last_rows().len() == 0,
{
}

/// Whether cell `j` of frame `i` tells the value of a column at some time.
pub open spec fn tells<V>(frames: Seq<Row<V>>, i: int, j: int, col: int, time: int) -> bool {
    &&& 0 <= i < frames.len()
    &&& 0 <= j < frames[i].1.len()
    &&& frames[i].0 <= time
    &&& frames[i].1[j].0 == col
}

/// Every cell of every frame lies in one of the columns.
pub open spec fn frames_in_columns<V>(frames: Seq<Row<V>>, columns: nat) -> bool {
    forall|i: int, j: int|
        #![trigger frames[i].1[j]]
        0 <= i < frames.len() && 0 <= j < frames[i].1.len() ==> frames[i].1[j].0 < columns
}

/// What the first `n` frames leave in a column.
proof fn lemma_held<V>(columns: nat, frames: Seq<Row<V>>, n: int, time: int, col: int)
    requires
        0 <= n <= frames.len(),
        0 <= col < columns,
        frames_in_columns(frames, columns),
    ensures
        held(columns, frames, n, time).len() == columns,
        forall|i: int, j: int|
            i < n && #[trigger] tells(frames, i, j, col, time) && (forall|a: int, b: int|
                a < n && #[trigger] tells(frames, a, b, col, time) ==> a < i || a == i && b <= j)
                ==> held(columns, frames, n, time)[col] == Some(frames[i].1[j].1),
        (forall|i: int, j: int| i < n ==> !#[trigger] tells(frames, i, j, col, time)) ==> held(
            columns,
            frames,
            n,
            time,
        )[col] is None,
    decreases n,
{
    if n > 0 {
        let m = n - 1;
        lemma_held(columns, frames, m, time, col);
        let before = held(columns, frames, m, time);
        let after = held(columns, frames, n, time);
        let cells = frames[m].1;
        assert forall|k: int| 0 <= k < cells.len() implies (#[trigger] cells[k]).0
            < before.len() by {
            assert(frames[m].1[k].0 < columns);
        }
        if frames[m].0 <= time {
            lemma_merged(before, cells, cells.len() as int, col);
        }
        assert forall|i: int, j: int|
            i < n && #[trigger] tells(frames, i, j, col, time) && (forall|a: int, b: int|
                a < n && #[trigger] tells(frames, a, b, col, time) ==> a < i || a == i && b
                    <= j) implies after[col] == Some(frames[i].1[j].1) by {
            if i == m {
                assert forall|k: int| j < k < cells.len() implies (#[trigger] cells[k]).0
                    != col by {
                    if cells[k].0 == col {
                        assert(tells(frames, m, k, col, time));
                    }
                }
                assert(cells[j].0 == col);
            } else {
                if frames[m].0 <= time {
                    assert forall|k: int| 0 <= k < cells.len() implies (#[trigger] cells[k]).0
                        != col by {
                        if cells[k].0 == col {
                            assert(tells(frames, m, k, col, time));
                        }
                    }
                }
                assert(after[col] == before[col]);
            }
        }
        if forall|i: int, j: int| i < n ==> !#[trigger] tells(frames, i, j, col, time) {
            if frames[m].0 <= time {
                assert forall|k: int| 0 <= k < cells.len() implies (#[trigger] cells[k]).0
                    != col by {
                    if cells[k].0 == col {
                        assert(tells(frames, m, k, col, time));
                    }
                }
            }
            assert(after[col] == before[col]);
        }
    }
}

/// Forward fill, cell by cell: of frames in the order of time, every row holds
/// for a column the value that the last cell in that column tells, of all the
/// frames up to the time of the row, and no second value.
pub proof fn law_row_shows_the_last_value_told<V>(
    columns: nat,
    interval: int,
    frames: Seq<Row<V>>,
    k: int,
    i: int,
    j: int,
    col: int,
)
    requires
        interval > 0,
        columns <= usize::MAX,
        in_time_order(frames),
        frames_in_columns(frames, columns),
        0 <= k < resampled(columns, interval, frames).len(),
        ({
            let time = resampled(columns, interval, frames)[k].0;
            &&& tells(frames, i, j, col, time)
            &&& forall|a: int, b: int| #[trigger]
                tells(frames, a, b, col, time) ==> a < i || a == i && b <= j
        }),
    ensures
        ({
            let cells = resampled(columns, interval, frames)[k].1;
            &&& cells.contains((col as usize, frames[i].1[j].1))
            &&& forall|m: int|
                0 <= m < cells.len() && (#[trigger] cells[m]).0 == col ==> cells[m].1
                    == frames[i].1[j].1
        }),
{
    let n = frames.len() as int;
    let row = resampled(columns, interval, frames)[k];
    let values = held(columns, frames, n, row.0);
    assert(frames[i].1[j].0 < columns);
    law_rows_hold_the_latest_values(columns, interval, frames, k);
    lemma_held(columns, frames, n, row.0, col);
    law_row_holds_the_column_values(values, col);
    lemma_row_values(values, values.len() as int);
}

/// A row holds nothing for a column that no frame up to the time of the row
/// speaks of.
pub proof fn law_row_is_empty_where_nothing_was_told<V>(
    columns: nat,
    interval: int,
    frames: Seq<Row<V>>,
    k: int,
    col: int,
)
    requires
        interval > 0,
        columns <= usize::MAX,
        in_time_order(frames),
        frames_in_columns(frames, columns),
        0 <= k < resampled(columns, interval, frames).len(),
        0 <= col < columns,
        forall|i: int, j: int|
            !#[trigger] tells(frames, i, j, col, resampled(columns, interval, frames)[k].0),
    ensures
        ({
            let cells = resampled(columns, interval, frames)[k].1;
            forall|m: int| 0 <= m < cells.len() ==> (#[trigger] cells[m]).0 != col
        }),
{
    let n = frames.len() as int;
    let row = resampled(columns, interval, frames)[k];
    law_rows_hold_the_latest_values(columns, interval, frames, k);
    lemma_held(columns, frames, n, row.0, col);
    law_row_holds_the_column_values(held(columns, frames, n, row.0), col);
}

/// The cells of a row are those of columns that hold a value, each with that
/// value.
proof fn lemma_row_values<V>(current: Seq<Option<V>>, n: int)
    requires
        0 <= n <= current.len() <= usize::MAX,
    ensures
        forall|m: int|
            0 <= m < filled(current, n).len() ==> {
                &&& (#[trigger] filled(current, n)[m]).0 < n
                &&& current[filled(current, n)[m].0 as int] == Some(filled(current, n)[m].1)
            },
        forall|a: int, b: int|
            0 <= a < b < filled(current, n).len() ==> (#[trigger] filled(current, n)[a]).0 < (
            #[trigger] filled(current, n)[b]).0,
    decreases n,
{
    if n > 0 {
        lemma_row_values(current, n - 1);
    }
}

/// A row names columns in ascending order, each at most once, and holds for
/// each the value of the column.
pub proof fn law_row_names_columns_in_order<V>(current: Seq<Option<V>>, a: int, b: int)
    requires
        0 <= a <= b < row_of(current).len(),
        current.len() <= usize::MAX,
    ensures
        a < b ==> row_of(current)[a].0 < row_of(current)[b].0,
        row_of(current)[a].0 < current.len(),
        current[row_of(current)[a].0 as int] == Some(row_of(current)[a].1),
{
    lemma_row_values(current, current.len() as int);
}

/// The grid of a log starts at the first multiple of the interval that is not
/// before the first frame, and, of frames in the order of time, ends at the
/// first one that is not before the last frame.
pub proof fn law_grid_spans_the_log<V>(columns: nat, interval: int, frames: Seq<Row<V>>)
    requires
        interval > 0,
        frames.len() > 0,
        in_time_order(frames),
    ensures
        ({
            let rows = resampled(columns, interval, frames);
            &&& rows.len() > 0
            &&& rows[0].0 % interval == 0
            &&& frames[0].0 <= rows[0].0 < frames[0].0 + interval
            &&& rows.last().0 % interval == 0
            &&& frames.last().0 <= rows.last().0 < frames.last().0 + interval
            &&& forall|k: int|
                0 < k < rows.len() ==> (#[trigger] rows[k]).0 == rows[k - 1].0 + interval
        }),
{
    let rows = resampled(columns, interval, frames);
    law_last_row_follows_last_frame(columns, interval, frames);
    law_rows_form_a_grid(columns, interval, frames, 0);
    lemma_grid_start(frames[0].0, interval);
    lemma_grid_start(frames.last().0, interval);
    assert(0 * interval == 0) by (nonlinear_arith);
    assert forall|k: int| 0 < k < rows.len() implies (#[trigger] rows[k]).0 == rows[k - 1].0
        + interval by {
        law_rows_form_a_grid(columns, interval, frames, k);
        law_rows_form_a_grid(columns, interval, frames, k - 1);
        assert(k * interval == (k - 1) * interval + interval) by (nonlinear_arith);
    }
}

} // verus!
