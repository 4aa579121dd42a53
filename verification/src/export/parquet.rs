//! Row groups for a Parquet file. Rows are buffered per column and handed on
//! as a row group once the batch is full, keeping memory bounded.

use crate::shape::in_columns;
use vstd::prelude::*;

verus! {

/// Target number of buffered cells (rows x columns) per row group. Keeps the
/// in-memory batch around a few tens of MB even for very wide DBCs.
pub const TARGET_CELLS_PER_GROUP: usize = 8_000_000;

/// A row group holds at least this number of rows.
pub const MIN_ROWS_PER_GROUP: usize = 1_024;

/// A row group holds at most this number of rows.
pub const MAX_ROWS_PER_GROUP: usize = 262_144;

/// Rows per group for the given number of columns.
pub open spec fn group_size(columns: int) -> int {
    let wanted = TARGET_CELLS_PER_GROUP as int / if columns < 1 { 1 } else { columns };
    if wanted < MIN_ROWS_PER_GROUP {
        MIN_ROWS_PER_GROUP as int
    } else if wanted > MAX_ROWS_PER_GROUP {
        MAX_ROWS_PER_GROUP as int
    } else {
        wanted
    }
}

/// Rows per group for the given number of columns.
pub fn rows_per_group(columns: usize) -> (r: usize)
    ensures
        r == group_size(columns as int),
{
    let wanted: usize = TARGET_CELLS_PER_GROUP / if columns < 1 {
        1
    } else {
        columns
    };
    if wanted < MIN_ROWS_PER_GROUP {
        MIN_ROWS_PER_GROUP
    } else if wanted > MAX_ROWS_PER_GROUP {
        MAX_ROWS_PER_GROUP
    } else {
        wanted
    }
}

/// The cells of one column.
#[derive(Debug)]
pub struct ColumnBuffer<V> {
    /// 1 = value present, 0 = null; one entry per row.
    pub def_levels: Vec<i16>,
    /// Densely packed values for rows where def level is 1.
    pub values: Vec<V>,
}

/// The mathematical content of a [`ColumnBuffer`].
pub struct ColumnBufferModel<V> {
    pub def_levels: Seq<i16>,
    pub values: Seq<V>,
}

impl<V> View for ColumnBuffer<V> {
    type V = ColumnBufferModel<V>;

    open spec fn view(&self) -> ColumnBufferModel<V> {
        ColumnBufferModel { def_levels: self.def_levels@, values: self.values@ }
    }
}

/// The rows of a group, by columns.
#[derive(Debug)]
pub struct RowGroup<T, V> {
    pub timestamps: Vec<T>,
    pub columns: Vec<ColumnBuffer<V>>,
}

/// The mathematical content of a [`RowGroup`].
pub struct RowGroupModel<T, V> {
    pub timestamps: Seq<T>,
    pub columns: Seq<ColumnBufferModel<V>>,
}

/// The models of a list of columns.
pub open spec fn buffer_models<V>(columns: Seq<ColumnBuffer<V>>) -> Seq<ColumnBufferModel<V>> {
    columns.map_values(|c: ColumnBuffer<V>| c@)
}

impl<T, V> View for RowGroup<T, V> {
    type V = RowGroupModel<T, V>;

    open spec fn view(&self) -> RowGroupModel<T, V> {
        RowGroupModel { timestamps: self.timestamps@, columns: buffer_models(self.columns@) }
    }
}

/// Whether one of the first `n` cells lies in the column.
pub open spec fn has_cell<V>(cells: Seq<(usize, V)>, col: int, n: int) -> bool {
    exists|k: int| 0 <= k < n && (#[trigger] cells[k]).0 == col
}

/// The values of the first `n` cells as far as they lie in the column.
pub open spec fn column_values<V>(cells: Seq<(usize, V)>, col: int, n: int) -> Seq<V>
    decreases n,
{
    if n <= 0 {
        Seq::empty()
    } else if cells[n - 1].0 == col {
        column_values(cells, col, n - 1).push(cells[n - 1].1)
    } else {
        column_values(cells, col, n - 1)
    }
}

impl<V> ColumnBufferModel<V> {
    /// The column after a row.
    pub open spec fn with_row(self, cells: Seq<(usize, V)>, col: int) -> Self {
        let n = cells.len() as int;
        ColumnBufferModel {
            def_levels: self.def_levels.push(
                if has_cell(cells, col, n) {
                    1i16
                } else {
                    0i16
                },
            ),
            values: self.values + column_values(cells, col, n),
        }
    }
}

impl<T, V> RowGroupModel<T, V> {
    /// A group without rows.
    pub open spec fn blank(columns: nat) -> Self {
        RowGroupModel {
            timestamps: Seq::empty(),
            columns: Seq::new(
                columns,
                |i: int| ColumnBufferModel { def_levels: Seq::empty(), values: Seq::empty() },
            ),
        }
    }

    /// The group after a row.
    pub open spec fn with_row(self, timestamp: T, cells: Seq<(usize, V)>) -> Self {
        RowGroupModel {
            timestamps: self.timestamps.push(timestamp),
            columns: Seq::new(
                self.columns.len(),
                |c: int| self.columns[c].with_row(cells, c),
            ),
        }
    }

    /// Every column has an entry per row.
    pub open spec fn wf(self) -> bool {
        forall|c: int|
            0 <= c < self.columns.len() ==> (#[trigger] self.columns[c]).def_levels.len()
                == self.timestamps.len()
    }
}

/// Gathers rows into row groups.
pub struct ParquetExporter<T, V> {
    group: RowGroup<T, V>,
    rows_per_group: usize,
}

impl<T, V> View for ParquetExporter<T, V> {
    type V = RowGroupModel<T, V>;

    /// The rows that wait for their group to fill.
    closed spec fn view(&self) -> RowGroupModel<T, V> {
        self.group@
    }
}

fn blank_group<T, V>(columns: usize) -> (r: RowGroup<T, V>)
    ensures
        r@ == RowGroupModel::<T, V>::blank(columns as nat),
{
    let mut list: Vec<ColumnBuffer<V>> = Vec::new();
    let mut i: usize = 0;
    while i < columns
        invariant
            i <= columns,
            list@.len() == i,
            forall|c: int|
                0 <= c < i ==> (#[trigger] list@[c]).def_levels@.len() == 0
                    && list@[c].values@.len() == 0,
        decreases columns - i,
    {
        list.push(ColumnBuffer { def_levels: Vec::new(), values: Vec::new() });
        i += 1;
    }
    let r = RowGroup { timestamps: Vec::new(), columns: list };
    assert forall|c: int| 0 <= c < columns implies #[trigger] r@.columns[c] == (
    ColumnBufferModel::<V> { def_levels: Seq::empty(), values: Seq::empty() }) by {
        assert(list@[c].def_levels@ =~= Seq::<i16>::empty());
        assert(list@[c].values@ =~= Seq::<V>::empty());
    }
    assert(r@.columns =~= RowGroupModel::<T, V>::blank(columns as nat).columns);
    r
}

impl<T, V: Copy> ParquetExporter<T, V> {
    /// Fewer rows wait than make a group.
    pub closed spec fn wf(&self) -> bool {
        &&& self.group@.wf()
        &&& self.rows_per_group == group_size(self.group@.columns.len() as int)
        &&& self.group@.timestamps.len() < self.rows_per_group
    }

    /// An exporter for the given number of columns.
    pub fn create(columns: usize) -> (r: Self)
        ensures
            r.wf(),
            r@ == RowGroupModel::<T, V>::blank(columns as nat),
    {
        ParquetExporter { group: blank_group(columns), rows_per_group: rows_per_group(columns) }
    }

    /// Add a row. Hands out the row group once it is full.
    pub fn write_row(&mut self, timestamp: T, cells: &[(usize, V)]) -> (r: Option<RowGroup<T, V>>)
        requires
            old(self).wf(),
            in_columns(cells@, old(self)@.columns.len() as int),
        ensures
            final(self).wf(),
            final(self)@.columns.len() == old(self)@.columns.len(),
            ({
                let columns = old(self)@.columns.len();
                let full = old(self)@.with_row(timestamp, cells@);
                if full.timestamps.len() >= group_size(columns as int) {
                    &&& r matches Some(group)
                    &&& group@ == full
                    &&& group@.wf()
                    &&& final(self)@ == RowGroupModel::<T, V>::blank(columns)
                } else {
                    &&& r is None
                    &&& final(self)@ == full
                }
            }),
    {
        let ghost before = self@;
        let ghost count = before.columns.len();
        let columns: usize = self.group.columns.len();
        let row: usize = self.group.timestamps.len();
        let mut timestamps: Vec<T> = Vec::new();
        let mut list: Vec<ColumnBuffer<V>> = Vec::new();
        std::mem::swap(&mut timestamps, &mut self.group.timestamps);
        std::mem::swap(&mut list, &mut self.group.columns);
        let ghost start = list@;
        timestamps.push(timestamp);
        let mut c: usize = 0;
        while c < columns
            invariant
                c <= columns,
                columns == count,
                before == (RowGroupModel {
                    timestamps: before.timestamps,
                    columns: buffer_models(start),
                }),
                before.wf(),
                row == before.timestamps.len(),
                list@.len() == columns,
                start.len() == columns,
                forall|i: int|
                    c <= i < columns ==> #[trigger] list@[i] == start[i],
                forall|i: int|
                    0 <= i < c ==> (#[trigger] list@[i])@ == (ColumnBufferModel {
                        def_levels: before.columns[i].def_levels.push(0),
                        values: before.columns[i].values,
                    }),
            decreases columns - c,
        {
            assert(list@[c as int] == start[c as int]);
            let mut buffer: ColumnBuffer<V> = ColumnBuffer {
                def_levels: Vec::new(),
                values: Vec::new(),
            };
            std::mem::swap(&mut buffer, &mut list[c]);
            buffer.def_levels.push(0);
            list.set(c, buffer);
            c += 1;
        }
        let mut k: usize = 0;
        while k < cells.len()
            invariant
                k <= cells@.len(),
                columns == count,
                before.columns.len() == count,
                before.wf(),
                in_columns(cells@, count as int),
                row == before.timestamps.len(),
                list@.len() == columns,
                forall|i: int|
                    0 <= i < columns ==> (#[trigger] list@[i])@ == (ColumnBufferModel {
                        def_levels: before.columns[i].def_levels.push(
                            if has_cell(cells@, i, k as int) {
                                1i16
                            } else {
                                0i16
                            },
                        ),
                        values: before.columns[i].values + column_values(cells@, i, k as int),
                    }),
            decreases cells@.len() - k,
        {
            let (col, value) = cells[k];
            assert(cells@[k as int].0 == col);
            let ghost held = list@;
            let mut buffer: ColumnBuffer<V> = ColumnBuffer {
                def_levels: Vec::new(),
                values: Vec::new(),
            };
            std::mem::swap(&mut buffer, &mut list[col]);
            assert(before.columns[col as int].def_levels.len() == row);
            buffer.def_levels.set(row, 1);
            buffer.values.push(value);
            list.set(col, buffer);
            assert forall|i: int| 0 <= i < columns implies (#[trigger] list@[i])@ == (
            ColumnBufferModel {
                def_levels: before.columns[i].def_levels.push(
                    if has_cell(cells@, i, k + 1) {
                        1i16
                    } else {
                        0i16
                    },
                ),
                values: before.columns[i].values + column_values(cells@, i, k + 1),
            }) by {
                assert(held[i]@.values == before.columns[i].values + column_values(
                    cells@,
                    i,
                    k as int,
                ));
                if i == col {
                    assert(has_cell(cells@, i, k + 1));
                    assert(list@[i].def_levels@ =~= before.columns[i].def_levels.push(1));
                    assert(list@[i].values@ =~= before.columns[i].values + column_values(
                        cells@,
                        i,
                        k + 1,
                    ));
                } else {
                    assert(list@[i] == held[i]);
                    assert(has_cell(cells@, i, k + 1) == has_cell(cells@, i, k as int)) by {
                        if has_cell(cells@, i, k + 1) {
                            let j = choose|j: int| 0 <= j < k + 1 && (#[trigger] cells@[j]).0 == i;
                            assert(j < k);
                        }
                        if has_cell(cells@, i, k as int) {
                            let j = choose|j: int| 0 <= j < k && (#[trigger] cells@[j]).0 == i;
                            assert(0 <= j < k + 1);
                        }
                    }
                }
            }
            k += 1;
        }
        let ghost full = before.with_row(timestamp, cells@);
        let group = RowGroup { timestamps, columns: list };
        assert(group@.timestamps =~= full.timestamps);
        assert forall|i: int| 0 <= i < count implies #[trigger] group@.columns[i]
            == full.columns[i] by {
            assert(list@[i]@ == full.columns[i]);
        }
        assert(group@.columns =~= full.columns);
        assert(group@ == full);
        assert(full.wf());
        if group.timestamps.len() >= self.rows_per_group {
            self.group = blank_group(columns);
            assert(self.group@.wf());
            Some(group)
        } else {
            self.group = group;
            None
        }
    }

    /// Hand out the rows that are left, if any.
    pub fn finish(&mut self) -> (r: Option<RowGroup<T, V>>)
        requires
            old(self).wf(),
        ensures
            final(self).wf(),
            match r {
                Some(group) => old(self)@.timestamps.len() > 0 && group@ == old(self)@
                    && group@.wf() && final(self)@ == RowGroupModel::<T, V>::blank(
                    old(self)@.columns.len(),
                ),
                None => old(self)@.timestamps.len() == 0 && final(self)@ == old(self)@,
            },
    {
        if self.group.timestamps.len() == 0 {
            return None;
        }
        let columns: usize = self.group.columns.len();
        let mut group: RowGroup<T, V> = blank_group(columns);
        std::mem::swap(&mut group, &mut self.group);
        assert(self.group@.wf());
        Some(group)
    }
}

/// The cells of a column, read back from its buffer: the first `n` rows.
pub open spec fn unpacked<V>(column: ColumnBufferModel<V>, n: int) -> Seq<Option<V>>
    decreases n,
{
    if n <= 0 {
        Seq::empty()
    } else if column.def_levels[n - 1] == 1 {
        unpacked(column, n - 1).push(Some(column.values[present(column, n - 1)]))
    } else {
        unpacked(column, n - 1).push(None)
    }
}

/// Number of values in the first `n` rows.
pub open spec fn present<V>(column: ColumnBufferModel<V>, n: int) -> int
    decreases n,
{
    if n <= 0 {
        0
    } else {
        present(column, n - 1) + if column.def_levels[n - 1] == 1 {
            1int
        } else {
            0int
        }
    }
}

/// A buffer holds a value for every row that has one.
pub open spec fn packed<V>(column: ColumnBufferModel<V>) -> bool {
    present(column, column.def_levels.len() as int) == column.values.len()
}

proof fn lemma_longer<V>(a: ColumnBufferModel<V>, b: ColumnBufferModel<V>, n: int)
    requires
        0 <= n <= a.def_levels.len() <= b.def_levels.len(),
        forall|i: int| 0 <= i < n ==> #[trigger] a.def_levels[i] == b.def_levels[i],
        forall|i: int| 0 <= i < a.values.len() ==> #[trigger] a.values[i] == b.values[i],
        present(a, n) <= a.values.len(),
    ensures
        present(a, n) == present(b, n),
        unpacked(a, n) == unpacked(b, n),
        0 <= present(a, n),
    decreases n,
{
    if n > 0 {
        assert(a.def_levels[n - 1] == b.def_levels[n - 1]);
        lemma_longer(a, b, n - 1);
    }
}

proof fn lemma_column_values<V>(cells: Seq<(usize, V)>, col: int, n: int)
    requires
        0 <= n <= cells.len(),
        forall|i: int, j: int|
            0 <= i < j < cells.len() ==> (#[trigger] cells[i]).0 != (#[trigger] cells[j]).0,
    ensures
        !has_cell(cells, col, n) ==> column_values(cells, col, n).len() == 0,
        has_cell(cells, col, n) ==> column_values(cells, col, n).len() == 1,
        forall|k: int|
            0 <= k < n && (#[trigger] cells[k]).0 == col ==> column_values(cells, col, n)
                =~= seq![cells[k].1],
    decreases n,
{
    if n > 0 {
        lemma_column_values(cells, col, n - 1);
        if cells[n - 1].0 == col {
            assert(has_cell(cells, col, n));
            assert(!has_cell(cells, col, n - 1));
        } else {
            assert(has_cell(cells, col, n) ==> has_cell(cells, col, n - 1)) by {
                if has_cell(cells, col, n) {
                    let j = choose|j: int| 0 <= j < n && (#[trigger] cells[j]).0 == col;
                    assert(j < n - 1);
                }
            }
            assert(has_cell(cells, col, n - 1) ==> has_cell(cells, col, n)) by {
                if has_cell(cells, col, n - 1) {
                    let j = choose|j: int| 0 <= j < n - 1 && (#[trigger] cells[j]).0 == col;
                    assert(0 <= j < n);
                }
            }
        }
    }
}

/// A row reads back from the column buffers: what was there before stays, and
/// behind it comes the row's cell in the column, or null where it has none.
/// No two cells of the row lie in one column.
pub proof fn law_row_reads_back<V>(
    column: ColumnBufferModel<V>,
    cells: Seq<(usize, V)>,
    col: int,
)
    requires
        packed(column),
        distinct_columns(cells),
    ensures
        ({
            let n = column.def_levels.len() as int;
            let after = column.with_row(cells, col);
            &&& packed(after)
            &&& unpacked(after, n + 1).take(n) == unpacked(column, n)
            &&& unpacked(after, n + 1).len() == n + 1
            &&& has_cell(cells, col, cells.len() as int) || unpacked(after, n + 1)[n] is None
            &&& forall|k: int|
                0 <= k < cells.len() && (#[trigger] cells[k]).0 == col ==> unpacked(after, n + 1)[n]
                    == Some(cells[k].1)
        }),
{
    let n = column.def_levels.len() as int;
    let after = column.with_row(cells, col);
    lemma_column_values(cells, col, cells.len() as int);
    lemma_longer(column, after, n);
    lemma_unpacked_len(column, n);
    lemma_unpacked_len(after, n + 1);
    assert(after.def_levels[n] == after.def_levels.last());
    assert(unpacked(after, n + 1).take(n) =~= unpacked(column, n));
    assert forall|k: int| 0 <= k < cells.len() && (#[trigger] cells[k]).0 == col implies unpacked(
        after,
        n + 1,
    )[n] == Some(cells[k].1) by {
        assert(has_cell(cells, col, cells.len() as int));
        assert(column_values(cells, col, cells.len() as int)[0] == cells[k].1);
    }
}

proof fn lemma_unpacked_len<V>(column: ColumnBufferModel<V>, n: int)
    requires
        0 <= n,
    ensures
        unpacked(column, n).len() == n,
    decreases n,
{
    if n > 0 {
        lemma_unpacked_len(column, n - 1);
    }
}

/// A group after the first `n` of some rows.
pub open spec fn group_of<T, V>(columns: nat, rows: Seq<(T, Seq<(usize, V)>)>, n: int) -> (
RowGroupModel<T, V>)
    decreases n,
{
    if n <= 0 {
        RowGroupModel::blank(columns)
    } else {
        group_of(columns, rows, n - 1).with_row(rows[n - 1].0, rows[n - 1].1)
    }
}

/// No two cells lie in one column.
pub open spec fn distinct_columns<V>(cells: Seq<(usize, V)>) -> bool {
    forall|i: int, j: int|
        0 <= i < j < cells.len() ==> (#[trigger] cells[i]).0 != (#[trigger] cells[j]).0
}

proof fn lemma_group<T, V>(columns: nat, rows: Seq<(T, Seq<(usize, V)>)>, n: int, col: int)
    requires
        0 <= n <= rows.len(),
        0 <= col < columns,
        forall|i: int| 0 <= i < rows.len() ==> distinct_columns((#[trigger] rows[i]).1),
    ensures
        ({
            let group = group_of(columns, rows, n);
            let cells = unpacked(group.columns[col], n);
            &&& group.columns.len() == columns
            &&& group.timestamps.len() == n
            &&& group.columns[col].def_levels.len() == n
            &&& packed(group.columns[col])
            &&& forall|i: int| 0 <= i < n ==> #[trigger] group.timestamps[i] == rows[i].0
            &&& cells.len() == n
            &&& forall|i: int| 0 <= i < n ==> reads_as(#[trigger] cells[i], rows[i].1, col)
        }),
    decreases n,
{
    if n > 0 {
        lemma_group(columns, rows, n - 1, col);
        let before = group_of(columns, rows, n - 1);
        let group = group_of(columns, rows, n);
        let cells = unpacked(group.columns[col], n);
        let old_cells = unpacked(before.columns[col], n - 1);
        assert(distinct_columns(rows[n - 1].1));
        law_row_reads_back(before.columns[col], rows[n - 1].1, col);
        assert forall|i: int| 0 <= i < n implies reads_as(#[trigger] cells[i], rows[i].1, col) by {
            if i < n - 1 {
                assert(cells.take(n - 1)[i] == old_cells[i]);
            }
        }
    }
}

/// Whether what was read back is the cell of a row in a column.
pub open spec fn reads_as<V>(read: Option<V>, cells: Seq<(usize, V)>, col: int) -> bool {
    match read {
        Some(v) => exists|k: int|
            0 <= k < cells.len() && (#[trigger] cells[k]).0 == col && cells[k].1 == v,
        None => !has_cell(cells, col, cells.len() as int),
    }
}

/// A row group reads back as it was written: every row with its timestamp
/// and, in every column, its cell, or null where it has none.
pub proof fn law_group_reads_back<T, V>(
    columns: nat,
    rows: Seq<(T, Seq<(usize, V)>)>,
    i: int,
    col: int,
)
    requires
        0 <= i < rows.len(),
        0 <= col < columns,
        forall|r: int| 0 <= r < rows.len() ==> distinct_columns((#[trigger] rows[r]).1),
    ensures
        ({
            let n = rows.len() as int;
            let group = group_of(columns, rows, n);
            &&& group.timestamps.len() == n
            &&& group.timestamps[i] == rows[i].0
            &&& unpacked(group.columns[col], n).len() == n
            &&& reads_as(unpacked(group.columns[col], n)[i], rows[i].1, col)
        }),
{
    lemma_group(columns, rows, rows.len() as int, col);
}

/// A row group holds as many rows as make 8,000,000 cells, but at least 1,024
/// and at most 262,144 rows.
pub proof fn law_group_size(columns: int)
    requires
        columns >= 1,
    ensures
        1_024 <= group_size(columns) <= 262_144,
        1_024 < group_size(columns) ==> group_size(columns) * columns <= 8_000_000,
        group_size(columns) < 262_144 ==> 8_000_000 < (group_size(columns) + 1) * columns,
        group_size(0) == 262_144,
{
    let q = 8_000_000int / columns;
    vstd::arithmetic::div_mod::lemma_fundamental_div_mod(8_000_000, columns);
    vstd::arithmetic::div_mod::lemma_mod_bound(8_000_000, columns);
    let g = group_size(columns);
    assert(q * columns <= 8_000_000 < (q + 1) * columns) by (nonlinear_arith)
        requires
            8_000_000 == columns * q + 8_000_000int % columns,
            0 <= 8_000_000int % columns < columns,
    ;
    assert(g > q ==> (g + 1) * columns >= (q + 1) * columns) by (nonlinear_arith)
        requires
            columns >= 1,
    ;
    assert(g < q ==> g * columns <= q * columns) by (nonlinear_arith)
        requires
            columns >= 1,
    ;
}

} // verus!
