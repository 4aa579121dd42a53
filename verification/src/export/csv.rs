//! The text of a CSV file: a header line with the column names, and a line
//! per row.

use crate::decode::string_texts;
use crate::shape::{in_columns, merged};
use crate::text::{push_text, to_chars};
use vstd::prelude::*;

verus! {

/// A character that makes a field be quoted.
pub open spec fn is_special(c: char) -> bool {
    c == ',' || c == '"' || c == '\n' || c == '\r'
}

/// Whether a field contains a delimiter, quote or newline.
pub open spec fn needs_quotes(field: Seq<char>) -> bool {
    exists|i: int| 0 <= i < field.len() && is_special(#[trigger] field[i])
}

/// The field with every quote doubled.
pub open spec fn doubled(field: Seq<char>) -> Seq<char>
    decreases field.len(),
{
    if field.len() == 0 {
        field
    } else if field.last() == '"' {
        doubled(field.drop_last()) + seq!['"', '"']
    } else {
        doubled(field.drop_last()).push(field.last())
    }
}

/// The field as it is written.
pub open spec fn escaped(field: Seq<char>) -> Seq<char> {
    if needs_quotes(field) {
        seq!['"'] + doubled(field) + seq!['"']
    } else {
        field
    }
}

fn special(c: char) -> (r: bool)
    ensures
        r == is_special(c),
{
    c == ',' || c == '"' || c == '\n' || c == '\r'
}

/// Quote a CSV field if it contains a delimiter, quote or newline.
pub fn escape(field: &str) -> (r: String)
    ensures
        r@ == escaped(field@),
{
    let chars: Vec<char> = to_chars(field);
    let mut quote: bool = false;
    let mut i: usize = 0;
    while i < chars.len()
        invariant
            i <= chars@.len(),
            quote == exists|j: int| 0 <= j < i && is_special(#[trigger] chars@[j]),
        decreases chars@.len() - i,
    {
        if special(chars[i]) {
            quote = true;
        }
        i += 1;
    }
    if !quote {
        return field.to_owned();
    }
    let mut r: String = String::new();
    r.push('"');
    let mut k: usize = 0;
    while k < chars.len()
        invariant
            k <= chars@.len(),
            r@ =~= seq!['"'] + doubled(chars@.take(k as int)),
        decreases chars@.len() - k,
    {
        assert(chars@.take(k + 1).drop_last() =~= chars@.take(k as int));
        if chars[k] == '"' {
            r.push('"');
        }
        r.push(chars[k]);
        k += 1;
    }
    r.push('"');
    assert(chars@.take(k as int) =~= chars@);
    assert(r@ =~= seq!['"'] + doubled(chars@) + seq!['"']);
    r
}

/// Fields with a comma in front of each.
pub open spec fn comma_fields(fields: Seq<Seq<char>>) -> Seq<char>
    decreases fields.len(),
{
    if fields.len() == 0 {
        Seq::empty()
    } else {
        comma_fields(fields.drop_last()) + seq![','] + fields.last()
    }
}

/// The header line: the word `Timestamp` and the column names.
pub open spec fn header_line(columns: Seq<Seq<char>>) -> Seq<char> {
    "Timestamp"@ + comma_fields(columns.map_values(|name: Seq<char>| escaped(name))) + seq!['\n']
}

/// The text of every column of a row.
pub open spec fn row_fields(current: Seq<Option<Seq<char>>>) -> Seq<Seq<char>> {
    current.map_values(
        |cell: Option<Seq<char>>|
            match cell {
                Some(text) => text,
                None => Seq::empty(),
            },
    )
}

/// A row without values.
pub open spec fn blank_row(columns: int) -> Seq<Option<Seq<char>>> {
    Seq::new(columns as nat, |i: int| None)
}

/// The texts of a list of cells.
pub open spec fn cell_texts(cells: Seq<(usize, String)>) -> Seq<(usize, Seq<char>)> {
    cells.map_values(|c: (usize, String)| (c.0, c.1@))
}

/// The line of a row: the timestamp and, for every column, the text of its
/// cell, or nothing where there is none.
pub open spec fn row_line(
    columns: int,
    timestamp: Seq<char>,
    cells: Seq<(usize, Seq<char>)>,
) -> Seq<char> {
    timestamp + comma_fields(row_fields(merged(blank_row(columns), cells, cells.len() as int)))
        + seq!['\n']
}

/// Writes the lines of a CSV file.
pub struct CsvExporter {
    /// Scratch row, reused across rows: the number of the cell in each
    /// column. `touched` tracks which entries to clear.
    row: Vec<Option<usize>>,
    touched: Vec<usize>,
}

impl CsvExporter {
    /// The number of columns.
    pub closed spec fn columns(&self) -> int {
        self.row@.len() as int
    }

    /// The scratch row is clear.
    pub closed spec fn wf(&self) -> bool {
        &&& self.touched@.len() == 0
        &&& forall|c: int| 0 <= c < self.row@.len() ==> (#[trigger] self.row@[c]) is None
    }

    /// An exporter for the given columns, and the header line.
    pub fn create(columns: &[String]) -> (r: (Self, String))
        ensures
            r.0.wf(),
            r.0.columns() == columns@.len(),
            r.1@ == header_line(string_texts(columns@)),
    {
        let ghost names = string_texts(columns@);
        let ghost all = names.map_values(|name: Seq<char>| escaped(name));
        let mut header: String = "Timestamp".to_owned();
        let ghost word = header@;
        let mut row: Vec<Option<usize>> = Vec::new();
        let mut i: usize = 0;
        assert(word + comma_fields(all.take(0)) =~= word);
        while i < columns.len()
            invariant
                i <= columns@.len(),
                names == string_texts(columns@),
                all == names.map_values(|name: Seq<char>| escaped(name)),
                row@.len() == i,
                forall|c: int| 0 <= c < row@.len() ==> (#[trigger] row@[c]) is None,
                header@ == word + comma_fields(all.take(i as int)),
            decreases columns@.len() - i,
        {
            let field: String = escape(columns[i].as_str());
            assert(all.take(i + 1).drop_last() =~= all.take(i as int));
            assert(all.take(i + 1).last() == field@);
            let ghost before = header@;
            header.push(',');
            push_text(&mut header, field.as_str());
            assert(header@ =~= before + (seq![','] + field@));
            assert(header@ =~= word + comma_fields(all.take(i + 1)));
            row.push(None);
            i += 1;
        }
        assert(all.take(i as int) =~= all);
        header.push('\n');
        assert(header@ =~= header_line(names));
        (CsvExporter { row, touched: Vec::new() }, header)
    }

    /// The line of a row. Of two cells in one column the latter counts.
    pub fn write_row(&mut self, timestamp: &str, cells: &[(usize, String)]) -> (r: String)
        requires
            old(self).wf(),
            in_columns(cell_texts(cells@), old(self).columns()),
        ensures
            final(self).wf(),
            final(self).columns() == old(self).columns(),
            r@ == row_line(old(self).columns(), timestamp@, cell_texts(cells@)),
    {
        let ghost columns = self.columns();
        let ghost texts = cell_texts(cells@);
        let ghost blank = blank_row(columns);
        let mut k: usize = 0;
        while k < cells.len()
            invariant
                k <= cells@.len(),
                columns == self.row@.len(),
                texts == cell_texts(cells@),
                blank == blank_row(columns),
                in_columns(texts, columns),
                merged(blank, texts, k as int).len() == columns,
                forall|c: int|
                    0 <= c < columns ==> match #[trigger] self.row@[c] {
                        Some(j) => {
                            &&& j < cells@.len()
                            &&& merged(blank, texts, k as int)[c] == Some(cells@[j as int].1@)
                            &&& self.touched@.contains(c as usize)
                        },
                        None => merged(blank, texts, k as int)[c] is None,
                    },
                forall|j: int|
                    0 <= j < self.touched@.len() ==> (#[trigger] self.touched@[j]) < columns,
            decreases cells@.len() - k,
        {
            let col: usize = cells[k].0;
            assert(texts[k as int].0 == col);
            let ghost before = self.touched@;
            self.row.set(col, Some(k));
            self.touched.push(col);
            assert(self.touched@ == before.push(col));
            assert(self.touched@[before.len() as int] == col);
            assert forall|c: usize| before.contains(c) implies self.touched@.contains(c) by {
                let j = choose|j: int| 0 <= j < before.len() && before[j] == c;
                assert(self.touched@[j] == c);
            }
            k += 1;
        }
        let ghost full = merged(blank, texts, k as int);
        let ghost fields = row_fields(full);
        let mut line: String = timestamp.to_owned();
        let ghost head = line@;
        let mut c: usize = 0;
        assert(head + comma_fields(fields.take(0)) =~= head);
        while c < self.row.len()
            invariant
                c <= self.row@.len(),
                columns == self.row@.len(),
                full.len() == columns,
                fields == row_fields(full),
                forall|c: int|
                    0 <= c < columns ==> match #[trigger] self.row@[c] {
                        Some(j) => j < cells@.len() && full[c] == Some(cells@[j as int].1@)
                            && self.touched@.contains(c as usize),
                        None => full[c] is None,
                    },
                forall|j: int|
                    0 <= j < self.touched@.len() ==> (#[trigger] self.touched@[j]) < columns,
                line@ == head + comma_fields(fields.take(c as int)),
            decreases self.row@.len() - c,
        {
            assert(fields.take(c + 1).drop_last() =~= fields.take(c as int));
            assert(fields.take(c + 1).last() == fields[c as int]);
            let ghost before = line@;
            line.push(',');
            if let Some(j) = self.row[c] {
                push_text(&mut line, cells[j].1.as_str());
            }
            assert(line@ =~= before + (seq![','] + fields[c as int]));
            assert(line@ =~= head + comma_fields(fields.take(c + 1)));
            c += 1;
        }
        assert(fields.take(c as int) =~= fields);
        line.push('\n');
        assert(line@ =~= row_line(columns, timestamp@, texts));
        let ghost marked = self.touched@;
        let mut t: usize = 0;
        while t < self.touched.len()
            invariant
                t <= self.touched@.len(),
                self.touched@ == marked,
                columns == self.row@.len(),
                forall|j: int| 0 <= j < marked.len() ==> (#[trigger] marked[j]) < columns,
                forall|c: int|
                    0 <= c < columns && (#[trigger] self.row@[c]) is Some ==> marked.contains(
                        c as usize,
                    ),
                forall|j: int|
                    0 <= j < t ==> self.row@[(#[trigger] marked[j]) as int] is None,
            decreases self.touched@.len() - t,
        {
            let col: usize = self.touched[t];
            assert(marked[t as int] < columns);
            self.row.set(col, None);
            t += 1;
        }
        assert forall|c: int| 0 <= c < columns implies (#[trigger] self.row@[c]) is None by {
            if self.row@[c] is Some {
                let j = choose|j: int| 0 <= j < marked.len() && marked[j] == c as usize;
                assert(self.row@[marked[j] as int] is None);
            }
        }
        self.touched.clear();
        line
    }
}

} // verus!
