//! A CSV reader gets back what was written.

use crate::export::csv::{
    blank_row, comma_fields, doubled, escaped, header_line, is_special, needs_quotes, row_fields,
    row_line,
};
use crate::shape::{in_columns, merged};
use crate::shape_laws::lemma_merged;
use vstd::prelude::*;

verus! {

/// A field up to the next comma or line feed, and what follows.
pub open spec fn read_plain(s: Seq<char>) -> (Seq<char>, Seq<char>)
    decreases s.len(),
{
    if s.len() == 0 || s[0] == ',' || s[0] == '\n' {
        (Seq::empty(), s)
    } else {
        let (field, rest) = read_plain(s.skip(1));
        (seq![s[0]] + field, rest)
    }
}

/// A field up to its closing quote, where two quotes stand for one, and what
/// follows.
pub open spec fn read_quoted(s: Seq<char>) -> (Seq<char>, Seq<char>)
    decreases s.len(),
{
    if s.len() == 0 {
        (Seq::empty(), s)
    } else if s[0] != '"' {
        let (field, rest) = read_quoted(s.skip(1));
        (seq![s[0]] + field, rest)
    } else if s.len() > 1 && s[1] == '"' {
        let (field, rest) = read_quoted(s.skip(2));
        (seq!['"'] + field, rest)
    } else {
        (Seq::empty(), s.skip(1))
    }
}

/// A field, quoted or not, and what follows.
pub open spec fn read_field(s: Seq<char>) -> (Seq<char>, Seq<char>) {
    if s.len() > 0 && s[0] == '"' {
        read_quoted(s.skip(1))
    } else {
        read_plain(s)
    }
}

/// `count` fields with a comma in front of each, and what follows; nothing
/// where the text does not read so.
pub open spec fn read_fields(s: Seq<char>, count: int) -> Option<(Seq<Seq<char>>, Seq<char>)>
    decreases count,
{
    if count <= 0 {
        Some((Seq::empty(), s))
    } else {
        match read_fields(s, count - 1) {
            Some((fields, rest)) => if rest.len() > 0 && rest[0] == ',' {
                let (field, behind) = read_field(rest.skip(1));
                Some((fields.push(field), behind))
            } else {
                None
            },
            None => None,
        }
    }
}

/// Text that ends the field in front of it: none, or a comma or line feed.
pub open spec fn ends_field(rest: Seq<char>) -> bool {
    rest.len() == 0 || rest[0] == ',' || rest[0] == '\n'
}

proof fn lemma_read_plain(field: Seq<char>, rest: Seq<char>)
    requires
        forall|i: int| 0 <= i < field.len() ==> !is_special(#[trigger] field[i]),
        ends_field(rest),
    ensures
        read_plain(field + rest) == (field, rest),
    decreases field.len(),
{
    let s = field + rest;
    if field.len() > 0 {
        lemma_read_plain(field.skip(1), rest);
        assert(s.skip(1) =~= field.skip(1) + rest);
        assert(!is_special(field[0]));
        assert(seq![s[0]] + field.skip(1) =~= field);
    } else {
        assert(s =~= rest);
        assert(field =~= Seq::<char>::empty());
    }
}

/// Doubling works character by character from the front as well.
proof fn lemma_doubled_front(field: Seq<char>)
    requires
        field.len() > 0,
    ensures
        doubled(field) == (if field[0] == '"' {
            seq!['"', '"']
        } else {
            seq![field[0]]
        }) + doubled(field.skip(1)),
    decreases field.len(),
{
    if field.len() == 1 {
        assert(field.drop_last() =~= Seq::<char>::empty());
        assert(field.skip(1) =~= Seq::<char>::empty());
        assert(doubled(field.drop_last()) =~= Seq::<char>::empty());
        assert(doubled(field) =~= (if field[0] == '"' {
            seq!['"', '"']
        } else {
            seq![field[0]]
        }) + doubled(field.skip(1)));
    } else {
        lemma_doubled_front(field.drop_last());
        assert(field.skip(1).drop_last() =~= field.drop_last().skip(1));
        assert(field.skip(1).last() == field.last());
        assert(doubled(field) =~= (if field[0] == '"' {
            seq!['"', '"']
        } else {
            seq![field[0]]
        }) + doubled(field.skip(1)));
    }
}

proof fn lemma_read_quoted(field: Seq<char>, rest: Seq<char>)
    requires
        ends_field(rest),
    ensures
        read_quoted(doubled(field) + seq!['"'] + rest) == (field, rest),
    decreases field.len(),
{
    let s = doubled(field) + seq!['"'] + rest;
    if field.len() == 0 {
        assert(s =~= seq!['"'] + rest);
        assert(s.skip(1) =~= rest);
        assert(field =~= Seq::<char>::empty());
    } else {
        lemma_doubled_front(field);
        lemma_read_quoted(field.skip(1), rest);
        let inner = doubled(field.skip(1)) + seq!['"'] + rest;
        if field[0] == '"' {
            assert(s =~= seq!['"', '"'] + inner);
            assert(s.skip(2) =~= inner);
        } else {
            assert(s =~= seq![field[0]] + inner);
            assert(s.skip(1) =~= inner);
        }
        assert(seq![field[0]] + field.skip(1) =~= field);
    }
}

/// A field reads back as it was, whatever characters it holds.
pub proof fn law_escaped_field_reads_back(field: Seq<char>, rest: Seq<char>)
    requires
        ends_field(rest),
    ensures
        read_field(escaped(field) + rest) == (field, rest),
{
    let s = escaped(field) + rest;
    if needs_quotes(field) {
        lemma_read_quoted(field, rest);
        assert(s.skip(1) =~= doubled(field) + seq!['"'] + rest);
    } else {
        lemma_read_plain(field, rest);
        if s.len() > 0 && s[0] == '"' {
            assert(field.len() > 0);
            assert(is_special(field[0]));
        }
    }
}

/// A list of escaped fields reads back as it was.
pub proof fn law_escaped_fields_read_back(fields: Seq<Seq<char>>, rest: Seq<char>)
    requires
        ends_field(rest),
    ensures
        read_fields(
            comma_fields(fields.map_values(|f: Seq<char>| escaped(f))) + rest,
            fields.len() as int,
        ) == Some((fields, rest)),
{
    lemma_fields(fields, rest, fields.len() as int);
    assert(fields.take(fields.len() as int) =~= fields);
    assert(fields.skip(fields.len() as int) =~= Seq::<Seq<char>>::empty());
    let all = fields.map_values(|f: Seq<char>| escaped(f));
    assert(all.skip(all.len() as int) =~= Seq::<Seq<char>>::empty());
    assert(comma_fields(all.skip(all.len() as int)) + rest =~= rest);
}

proof fn lemma_comma_fields_front(fields: Seq<Seq<char>>)
    requires
        fields.len() > 0,
    ensures
        comma_fields(fields) == seq![','] + fields[0] + comma_fields(fields.skip(1)),
    decreases fields.len(),
{
    if fields.len() == 1 {
        assert(fields.drop_last() =~= Seq::<Seq<char>>::empty());
        assert(fields.skip(1) =~= Seq::<Seq<char>>::empty());
        assert(comma_fields(fields) =~= seq![','] + fields[0] + comma_fields(fields.skip(1)));
    } else {
        lemma_comma_fields_front(fields.drop_last());
        assert(fields.skip(1).drop_last() =~= fields.drop_last().skip(1));
        assert(comma_fields(fields) =~= seq![','] + fields[0] + comma_fields(fields.skip(1)));
    }
}

/// After `n` fields have been read the others follow.
proof fn lemma_fields(fields: Seq<Seq<char>>, rest: Seq<char>, n: int)
    requires
        ends_field(rest),
        0 <= n <= fields.len(),
    ensures
        ({
            let all = fields.map_values(|f: Seq<char>| escaped(f));
            read_fields(comma_fields(all) + rest, n) == Some(
                (fields.take(n), comma_fields(all.skip(n)) + rest),
            )
        }),
    decreases n,
{
    let all = fields.map_values(|f: Seq<char>| escaped(f));
    if n == 0 {
        assert(all.skip(0) =~= all);
        assert(fields.take(0) =~= Seq::<Seq<char>>::empty());
    } else {
        lemma_fields(fields, rest, n - 1);
        let left = all.skip(n - 1);
        lemma_comma_fields_front(left);
        assert(left.skip(1) =~= all.skip(n));
        let behind = comma_fields(all.skip(n)) + rest;
        let text = comma_fields(left) + rest;
        assert(text =~= seq![','] + (escaped(fields[n - 1]) + behind));
        assert(text.skip(1) =~= escaped(fields[n - 1]) + behind);
        if n < fields.len() {
            lemma_comma_fields_front(all.skip(n));
        } else {
            assert(all.skip(n) =~= Seq::<Seq<char>>::empty());
            assert(behind =~= rest);
        }
        law_escaped_field_reads_back(fields[n - 1], behind);
        assert(fields.take(n - 1).push(fields[n - 1]) =~= fields.take(n));
    }
}

/// The header line reads back: behind the word `Timestamp` come the column
/// names, whatever characters they hold, and the end of the line.
pub proof fn law_header_reads_back(columns: Seq<Seq<char>>)
    ensures
        ({
            let line = header_line(columns);
            let word = "Timestamp"@;
            &&& word.len() <= line.len()
            &&& line.take(word.len() as int) == word
            &&& read_fields(line.skip(word.len() as int), columns.len() as int) == Some(
                (columns, seq!['\n']),
            )
        }),
{
    let line = header_line(columns);
    let word = "Timestamp"@;
    let fields = comma_fields(columns.map_values(|name: Seq<char>| escaped(name)));
    law_escaped_fields_read_back(columns, seq!['\n']);
    assert(columns.map_values(|name: Seq<char>| escaped(name)) =~= columns.map_values(
        |f: Seq<char>| escaped(f),
    ));
    assert(line.skip(word.len() as int) =~= fields + seq!['\n']);
    assert(line.take(word.len() as int) =~= word);
}

proof fn lemma_plain_fields(fields: Seq<Seq<char>>, rest: Seq<char>)
    requires
        ends_field(rest),
        forall|i: int| 0 <= i < fields.len() ==> !needs_quotes(#[trigger] fields[i]),
    ensures
        read_fields(comma_fields(fields) + rest, fields.len() as int) == Some((fields, rest)),
{
    law_escaped_fields_read_back(fields, rest);
    assert(fields.map_values(|f: Seq<char>| escaped(f)) =~= fields);
}

/// What stands in a row comes from its cells.
proof fn lemma_row_of_cells(columns: int, cells: Seq<(usize, Seq<char>)>, n: int)
    requires
        0 <= columns,
        0 <= n <= cells.len(),
        in_columns(cells, columns),
        forall|k: int| 0 <= k < cells.len() ==> !needs_quotes((#[trigger] cells[k]).1),
    ensures
        merged(blank_row(columns), cells, n).len() == columns,
        forall|c: int|
            0 <= c < columns ==> match #[trigger] merged(blank_row(columns), cells, n)[c] {
                Some(text) => !needs_quotes(text),
                None => true,
            },
    decreases n,
{
    if n > 0 {
        lemma_row_of_cells(columns, cells, n - 1);
        assert(cells[n - 1].0 < columns);
    }
}

/// A row line of plain texts reads back: the timestamp, then for every column
/// the text of its cell, empty where the row has none, and the end of the
/// line. Numbers are plain: nothing in them asks for quotes.
pub proof fn law_row_reads_back(
    columns: int,
    timestamp: Seq<char>,
    cells: Seq<(usize, Seq<char>)>,
)
    requires
        0 <= columns,
        in_columns(cells, columns),
        !needs_quotes(timestamp),
        forall|k: int| 0 <= k < cells.len() ==> !needs_quotes((#[trigger] cells[k]).1),
    ensures
        ({
            let line = row_line(columns, timestamp, cells);
            let (first, rest) = read_field(line);
            let fields = row_fields(merged(blank_row(columns), cells, cells.len() as int));
            &&& first == timestamp
            &&& fields.len() == columns
            &&& read_fields(rest, columns) == Some((fields, seq!['\n']))
        }),
{
    let row = merged(blank_row(columns), cells, cells.len() as int);
    let fields = row_fields(row);
    let rest = comma_fields(fields) + seq!['\n'];
    lemma_row_of_cells(columns, cells, cells.len() as int);
    assert forall|i: int| 0 <= i < fields.len() implies !needs_quotes(#[trigger] fields[i]) by {
        assert(fields[i] == (match row[i] {
            Some(text) => text,
            None => Seq::empty(),
        }));
    }
    lemma_plain_fields(fields, seq!['\n']);
    if fields.len() > 0 {
        lemma_comma_fields_front(fields);
    }
    law_escaped_field_reads_back(timestamp, rest);
    assert(row_line(columns, timestamp, cells) =~= timestamp + rest);
}

/// A row line has a field for every column: the text of the row's last cell in
/// the column, or nothing where it has none.
pub proof fn law_row_has_a_field_per_column(
    columns: int,
    timestamp: Seq<char>,
    cells: Seq<(usize, Seq<char>)>,
    col: int,
)
    requires
        0 <= col < columns,
        in_columns(cells, columns),
        !needs_quotes(timestamp),
        forall|k: int| 0 <= k < cells.len() ==> !needs_quotes((#[trigger] cells[k]).1),
    ensures
        ({
            let (first, rest) = read_field(row_line(columns, timestamp, cells));
            &&& first == timestamp
            &&& read_fields(rest, columns) matches Some((fields, end))
            &&& end == seq!['\n']
            &&& fields.len() == columns
            &&& forall|k: int|
                0 <= k < cells.len() && (#[trigger] cells[k]).0 == col && (forall|j: int|
                    k < j < cells.len() ==> (#[trigger] cells[j]).0 != col) ==> fields[col]
                    == cells[k].1
            &&& (forall|k: int| 0 <= k < cells.len() ==> (#[trigger] cells[k]).0 != col)
                ==> fields[col].len() == 0
        }),
{
    law_row_reads_back(columns, timestamp, cells);
    lemma_merged(blank_row(columns), cells, cells.len() as int, col);
}

/// A text with a comma, a quote or the end of a line in it is put in quotes;
/// any other is written as it is.
pub proof fn law_quotes_where_needed(field: Seq<char>)
    ensures
        field.contains(',') || field.contains('"') || field.contains('\n') || field.contains('\r')
            ==> escaped(field).len() >= field.len() + 2 && escaped(field)[0] == '"' && escaped(
            field,
        ).last() == '"',
        !field.contains(',') && !field.contains('"') && !field.contains('\n') && !field.contains(
            '\r',
        ) ==> escaped(field) == field,
{
    lemma_doubled_length(field);
    if needs_quotes(field) {
        let i = choose|i: int| 0 <= i < field.len() && is_special(#[trigger] field[i]);
        assert(field.contains(field[i]));
    } else {
        assert forall|c: char| is_special(c) implies !field.contains(c) by {
            if field.contains(c) {
                let i = choose|i: int| 0 <= i < field.len() && field[i] == c;
                assert(is_special(field[i]));
            }
        }
        assert(is_special(',') && is_special('"') && is_special('\n') && is_special('\r'));
    }
}

proof fn lemma_doubled_length(field: Seq<char>)
    ensures
        doubled(field).len() >= field.len(),
    decreases field.len(),
{
    if field.len() > 0 {
        lemma_doubled_length(field.drop_last());
    }
}

/// The header starts with the word `Timestamp`.
pub proof fn law_header_starts_with_timestamp(columns: Seq<Seq<char>>)
    ensures
        header_line(columns).len() >= 10,
        header_line(columns).take(9) == seq!['T', 'i', 'm', 'e', 's', 't', 'a', 'm', 'p'],
{
    reveal_strlit("Timestamp");
    law_header_reads_back(columns);
    assert("Timestamp"@ =~= seq!['T', 'i', 'm', 'e', 's', 't', 'a', 'm', 'p']);
}

} // verus!
