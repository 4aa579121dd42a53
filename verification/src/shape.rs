//! Row shaping: turn sparse per-frame signal updates into a dense,
//! fixed-interval time series (sample & hold / forward fill).
//!
//! CAN logs update only a few signals per frame, so the raw per-frame table
//! is mostly empty cells. For analysis a regular grid where every row carries
//! the latest value of every signal is usually what people want.
//!
//! Times are whole nanoseconds, so the grid is exact.

use crate::decode::cells_ordered;
use vstd::prelude::*;

verus! {

/// No timestamp lies further than this from zero, in nanoseconds.
pub const TIME_LIMIT: i128 = 0x10_0000_0000_0000_0000_0000_0000;

/// The first multiple of `interval` at or after `time`.
pub open spec fn grid_start(time: int, interval: int) -> int {
    time + (-time) % interval
}

/// The columns that have a value, among the first `n`, in order.
pub open spec fn filled<V>(current: Seq<Option<V>>, n: int) -> Seq<(usize, V)>
    decreases n,
{
    if n <= 0 {
        Seq::empty()
    } else {
        match current[n - 1] {
            Some(v) => filled(current, n - 1).push(((n - 1) as usize, v)),
            None => filled(current, n - 1),
        }
    }
}

/// The values after the first `n` cells have been put in place.
pub open spec fn merged<V>(current: Seq<Option<V>>, cells: Seq<(usize, V)>, n: int) -> Seq<
    Option<V>,
>
    decreases n,
{
    if n <= 0 {
        current
    } else {
        merged(current, cells, n - 1).update(cells[n - 1].0 as int, Some(cells[n - 1].1))
    }
}

/// Every cell lies in one of the columns.
pub open spec fn in_columns<V>(cells: Seq<(usize, V)>, columns: int) -> bool {
    forall|k: int| 0 <= k < cells.len() ==> (#[trigger] cells[k]).0 < columns
}

/// An output row: its time and its cells.
pub type Row<V> = (int, Seq<(usize, V)>);

/// Rows that follow each other on the grid and hold the same cells.
#[derive(Debug)]
pub struct RowRun<V> {
    /// Time of the first row, in nanoseconds.
    pub start_ns: i128,
    /// Distance of the rows, in nanoseconds.
    pub step_ns: i64,
    /// Number of the rows.
    pub count: u128,
    /// What each of them holds (nothing where there is no row).
    pub cells: Vec<(usize, V)>,
}

impl<V> RowRun<V> {
    /// The rows one by one.
    pub open spec fn rows(&self) -> Seq<Row<V>> {
        Seq::new(
            self.count as nat,
            |k: int| (self.start_ns + k * self.step_ns, self.cells@),
        )
    }

    /// The rows follow each other in time, within its limits.
    pub open spec fn wf(&self) -> bool {
        &&& self.step_ns > 0
        &&& self.count > 0 ==> {
            &&& -2 * TIME_LIMIT <= self.start_ns
            &&& self.start_ns + (self.count - 1) * self.step_ns <= 2 * TIME_LIMIT
        }
    }

    /// A run without rows.
    pub fn none() -> (r: Self)
        ensures
            r.wf(),
            r.rows() == Seq::<Row<V>>::empty(),
            r.cells@.len() == 0,
    {
        let run = RowRun { start_ns: 0, step_ns: 1, count: 0, cells: Vec::new() };
        assert(run.rows() =~= Seq::<Row<V>>::empty());
        run
    }

    /// A run of one row.
    pub fn single(time_ns: i128, cells: Vec<(usize, V)>) -> (r: Self)
        requires
            -2 * TIME_LIMIT <= time_ns <= 2 * TIME_LIMIT,
        ensures
            r.wf(),
            r.rows() == seq![(time_ns as int, cells@)],
            r.cells == cells,
    {
        let run = RowRun { start_ns: time_ns, step_ns: 1, count: 1, cells };
        assert(run.rows() =~= seq![(time_ns as int, cells@)]);
        run
    }

    /// The time of a row, in nanoseconds.
    pub fn time(&self, k: u128) -> (r: i128)
        requires
            k < self.count,
            self.wf(),
        ensures
            r == self.rows()[k as int].0,
    {
        let ghost step = self.step_ns as int;
        assert(0 <= k * step <= (self.count - 1) * step) by (nonlinear_arith)
            requires
                0 <= k <= self.count - 1,
                step > 0,
        ;
        assert(k <= k * step) by (nonlinear_arith)
            requires
                0 <= k,
                step >= 1,
        ;
        assert(k <= 4 * TIME_LIMIT);
        self.start_ns + (k as i128) * (self.step_ns as i128)
    }
}

/// What a resampler knows.
pub struct ResamplerModel<V> {
    pub interval: int,
    /// Time of the next row; none before the first frame.
    pub next: Option<int>,
    /// Last known value per column.
    pub current: Seq<Option<V>>,
    /// Whether frames were merged after the last emitted row.
    pub dirty: bool,
}

impl<V> ResamplerModel<V> {
    /// The next row lies on the grid, within the limits of time.
    pub open spec fn wf(self) -> bool {
        &&& 0 < self.interval <= i64::MAX
        &&& self.current.len() <= usize::MAX
        &&& self.next matches Some(t) ==> {
            &&& t % self.interval == 0
            &&& -TIME_LIMIT <= t < TIME_LIMIT + self.interval
        }
        &&& self.next is None ==> !self.dirty
    }

    /// A resampler that has seen nothing.
    pub open spec fn fresh(columns: nat, interval: int) -> Self {
        ResamplerModel {
            interval,
            next: None,
            current: Seq::new(columns, |i: int| None),
            dirty: false,
        }
    }

    /// Every column with a value.
    pub open spec fn row_cells(self) -> Seq<(usize, V)> {
        filled(self.current, self.current.len() as int)
    }

    /// The time of the next row once a frame at `time` is there: the grid is
    /// anchored at the first frame.
    pub open spec fn due(self, time: int) -> int {
        match self.next {
            Some(t) => t,
            None => grid_start(time, self.interval),
        }
    }

    /// The time of the next row behind a frame at `time`.
    pub open spec fn after(self, time: int) -> int {
        if self.due(time) < time {
            grid_start(time, self.interval)
        } else {
            self.due(time)
        }
    }

    /// The rows strictly before `time`.
    pub open spec fn rows_before(self, time: int) -> Seq<Row<V>> {
        let first = self.due(time);
        Seq::new(
            ((self.after(time) - first) / self.interval) as nat,
            |k: int| (first + k * self.interval, self.row_cells()),
        )
    }

    /// The state after a frame: first the rows before it are emitted, then
    /// its values are merged.
    pub open spec fn pushed(self, time: int, cells: Seq<(usize, V)>) -> Self {
        ResamplerModel {
            next: Some(self.after(time)),
            current: merged(self.current, cells, cells.len() as int),
            dirty: true,
            ..self
        }
    }

    /// The trailing row.
    pub open spec fn last_rows(self) -> Seq<Row<V>> {
        match self.next {
            Some(t) => if self.dirty {
                seq![(t, self.row_cells())]
            } else {
                Seq::empty()
            },
            None => Seq::empty(),
        }
    }
}

pub proof fn lemma_grid_start(time: int, interval: int)
    requires
        interval > 0,
    ensures
        time <= grid_start(time, interval) < time + interval,
        grid_start(time, interval) % interval == 0,
        time % interval == 0 ==> grid_start(time, interval) == time,
        forall|t: int|
            t >= time && #[trigger] (t % interval) == 0 ==> grid_start(time, interval) <= t,
{
    let r = (-time) % interval;
    let g = time + r;
    assert(0 <= r < interval && g % interval == 0) by (nonlinear_arith)
        requires
            interval > 0,
            r == (-time) % interval,
            g == time + r,
    {
        let q = (-time) / interval;
        vstd::arithmetic::div_mod::lemma_fundamental_div_mod(-time, interval);
        assert(g == interval * (-q));
        vstd::arithmetic::div_mod::lemma_mod_multiples_basic(-q, interval);
    }
    if time % interval == 0 {
        vstd::arithmetic::div_mod::lemma_fundamental_div_mod(time, interval);
        let q = time / interval;
        assert(-time == (-q) * interval) by (nonlinear_arith)
            requires
                time == interval * q + 0,
        ;
        vstd::arithmetic::div_mod::lemma_mod_multiples_basic(-q, interval);
    }
    assert forall|t: int| t >= time && #[trigger] (t % interval) == 0 implies grid_start(
        time,
        interval,
    ) <= t by {
        if t < g {
            vstd::arithmetic::div_mod::lemma_fundamental_div_mod(t, interval);
            vstd::arithmetic::div_mod::lemma_fundamental_div_mod(g, interval);
            let a = t / interval;
            let b = g / interval;
            assert(false) by (nonlinear_arith)
                requires
                    t == interval * a,
                    g == interval * b,
                    t < g,
                    g - t < interval,
                    interval > 0,
            ;
        }
    }
}

/// Whole steps lead from one grid point to another.
pub proof fn lemma_grid_steps(a: int, b: int, interval: int)
    requires
        interval > 0,
        a <= b,
        a % interval == 0,
        b % interval == 0,
    ensures
        0 <= (b - a) / interval,
        a + (b - a) / interval * interval == b,
{
    vstd::arithmetic::div_mod::lemma_fundamental_div_mod(a, interval);
    vstd::arithmetic::div_mod::lemma_fundamental_div_mod(b, interval);
    let p = a / interval;
    let q = b / interval;
    assert(b - a == (q - p) * interval) by (nonlinear_arith)
        requires
            a == interval * p + 0,
            b == interval * q + 0,
    ;
    vstd::arithmetic::div_mod::lemma_div_multiples_vanish(q - p, interval);
    assert((q - p) * interval == interval * (q - p)) by (nonlinear_arith);
    assert(0 <= q - p) by (nonlinear_arith)
        requires
            a == interval * p + 0,
            b == interval * q + 0,
            a <= b,
            interval > 0,
    ;
}

/// The cells of a row come in the order of their columns.
pub proof fn lemma_filled_ordered<V>(current: Seq<Option<V>>, n: int)
    requires
        0 <= n <= current.len() <= usize::MAX,
    ensures
        cells_ordered(filled(current, n), n),
    decreases n,
{
    if n > 0 {
        lemma_filled_ordered(current, n - 1);
    }
}

/// The first multiple of the interval at or after a time.
fn first_grid_time(time: i128, interval: i64) -> (r: i128)
    requires
        interval > 0,
        -TIME_LIMIT <= time <= TIME_LIMIT,
    ensures
        r == grid_start(time as int, interval as int),
{
    proof {
        lemma_grid_start(time as int, interval as int);
    }
    let step: u128 = interval as u128;
    if time < 0 {
        let back: u128 = (-time) as u128;
        time + (back % step) as i128
    } else {
        let over: u128 = (time as u128) % step;
        if over == 0 {
            time
        } else {
            proof {
                let t = time as int;
                let i = interval as int;
                vstd::arithmetic::div_mod::lemma_fundamental_div_mod(t, i);
                let q = t / i;
                let g = t + (i - over as int);
                assert(g == i * (q + 1)) by (nonlinear_arith)
                    requires
                        t == i * q + over,
                        g == t + (i - over),
                ;
                vstd::arithmetic::div_mod::lemma_mod_multiples_basic(q + 1, i);
                assert(i * (q + 1) == (q + 1) * i) by (nonlinear_arith);
                assert(g % i == 0);
                // the grid point before `g` lies before the time
                if grid_start(t, i) < g {
                    lemma_grid_steps(grid_start(t, i), g, i);
                    let k = (g - grid_start(t, i)) / i;
                    assert(k >= 1) by (nonlinear_arith)
                        requires
                            k * i > 0,
                            i > 0,
                    ;
                    assert(k * i >= i) by (nonlinear_arith)
                        requires
                            k >= 1,
                            i > 0,
                    ;
                }
            }
            time + (step - over) as i128
        }
    }
}

/// Forward-fill resampler. Feed frames in time order; rows are emitted on a
/// fixed grid anchored at the first frame's timestamp. Each emitted row
/// contains the last known value of every signal seen so far (signals not
/// yet observed stay empty).
pub struct Resampler<V> {
    /// Grid spacing in whole nanoseconds.
    interval_ns: i64,
    /// Time of the next grid row. The first one is the first multiple of the
    /// interval at or after the first frame, so timestamps are round multiples
    /// of the interval.
    next_ns: Option<i128>,
    /// Last known value per column.
    current: Vec<Option<V>>,
    /// True when frames were merged after the last emitted row.
    dirty: bool,
}

impl<V> View for Resampler<V> {
    type V = ResamplerModel<V>;

    closed spec fn view(&self) -> ResamplerModel<V> {
        ResamplerModel {
            interval: self.interval_ns as int,
            next: match self.next_ns {
                Some(t) => Some(t as int),
                None => None,
            },
            current: self.current@,
            dirty: self.dirty,
        }
    }
}

impl<V: Copy> Resampler<V> {
    /// A resampler for the given number of columns; the interval is at least
    /// one nanosecond.
    pub fn new(columns: usize, interval_ns: i64) -> (r: Self)
        requires
            interval_ns > 0,
        ensures
            r@.wf(),
            r@ == ResamplerModel::<V>::fresh(columns as nat, interval_ns as int),
    {
        let mut current: Vec<Option<V>> = Vec::new();
        let mut i: usize = 0;
        while i < columns
            invariant
                i <= columns,
                current@ =~= Seq::new(i as nat, |j: int| None::<V>),
            decreases columns - i,
        {
            current.push(None);
            i += 1;
        }
        Resampler { interval_ns, next_ns: None, current, dirty: false }
    }

    /// The cells of a row: every column with a value.
    fn row(&self) -> (r: Vec<(usize, V)>)
        ensures
            r@ == self@.row_cells(),
    {
        let mut row: Vec<(usize, V)> = Vec::new();
        let mut col: usize = 0;
        while col < self.current.len()
            invariant
                col <= self.current@.len(),
                row@ == filled(self.current@, col as int),
            decreases self.current@.len() - col,
        {
            if let Some(v) = self.current[col] {
                row.push((col, v));
            }
            col += 1;
        }
        row
    }

    /// Merge one frame. Grid rows strictly before `timestamp_ns` are emitted
    /// first (so a frame exactly on a grid point is included in that row).
    pub fn push(&mut self, timestamp_ns: i128, cells: &[(usize, V)]) -> (r: RowRun<V>)
        requires
            old(self)@.wf(),
            -TIME_LIMIT <= timestamp_ns <= TIME_LIMIT,
            in_columns(cells@, old(self)@.current.len() as int),
        ensures
            final(self)@.wf(),
            final(self)@ == old(self)@.pushed(timestamp_ns as int, cells@),
            final(self)@.current.len() == old(self)@.current.len(),
            r.wf(),
            r.rows() == old(self)@.rows_before(timestamp_ns as int),
            r.start_ns == old(self)@.due(timestamp_ns as int),
            r.start_ns + r.count * r.step_ns == final(self)@.next->0,
            r.step_ns == old(self)@.interval,
            r.count == 0 ==> r.cells@.len() == 0,
            cells_ordered(r.cells@, old(self)@.current.len() as int),
    {
        let ghost before = self@;
        let ghost time = timestamp_ns as int;
        let ghost interval = self.interval_ns as int;
        proof {
            lemma_grid_start(time, interval);
            lemma_filled_ordered(before.current, before.current.len() as int);
        }
        let start_ns: i128 = match self.next_ns {
            Some(t) => t,
            None => first_grid_time(timestamp_ns, self.interval_ns),
        };
        let mut next_ns: i128 = start_ns;
        let mut count: u128 = 0;
        let mut row: Vec<(usize, V)> = Vec::new();
        if start_ns < timestamp_ns {
            next_ns = first_grid_time(timestamp_ns, self.interval_ns);
            count = (next_ns - start_ns) as u128 / self.interval_ns as u128;
            row = self.row();
            proof {
                lemma_grid_steps(start_ns as int, next_ns as int, interval);
            }
        } else {
            assert(0int / interval == 0) by (nonlinear_arith)
                requires
                    interval > 0,
            ;
        }
        proof {
            lemma_grid_steps(start_ns as int, next_ns as int, interval);
            let c = count as int;
            assert(start_ns + c * interval == next_ns);
            if start_ns < next_ns {
                assert(c > 0) by (nonlinear_arith)
                    requires
                        c * interval > 0,
                        interval > 0,
                ;
            }
        }
        self.next_ns = Some(next_ns);
        let ghost held = self.current@;
        let mut k: usize = 0;
        while k < cells.len()
            invariant
                k <= cells@.len(),
                self.current@.len() == held.len(),
                in_columns(cells@, held.len() as int),
                self.current@ == merged(held, cells@, k as int),
                self.interval_ns == interval,
                self.next_ns == Some(next_ns),
            decreases cells@.len() - k,
        {
            let (col, value) = cells[k];
            assert(cells@[k as int].0 < held.len());
            self.current.set(col, Some(value));
            k += 1;
        }
        self.dirty = true;
        let run = RowRun { start_ns, step_ns: self.interval_ns, count, cells: row };
        assert(self@ == before.pushed(time, cells@));
        assert(run.rows() =~= before.rows_before(time));
        let len: usize = self.current.len();
        assert((count - 1) * interval == count * interval - interval) by (nonlinear_arith);
        run
    }

    /// Emit the trailing partial row so the final signal values are not lost.
    pub fn finish(&mut self) -> (r: RowRun<V>)
        requires
            old(self)@.wf(),
        ensures
            final(self)@.wf(),
            final(self)@ == (ResamplerModel { dirty: false, ..old(self)@ }),
            r.wf(),
            r.rows() == old(self)@.last_rows(),
            cells_ordered(r.cells@, old(self)@.current.len() as int),
    {
        let ghost before = self@;
        proof {
            lemma_filled_ordered(before.current, before.current.len() as int);
        }
        let run: RowRun<V> = match self.next_ns {
            Some(time_ns) => if self.dirty {
                RowRun::single(time_ns, self.row())
            } else {
                RowRun::none()
            },
            None => RowRun::none(),
        };
        self.dirty = false;
        run
    }
}

} // verus!
