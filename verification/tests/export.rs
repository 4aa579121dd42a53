use blf_decoder::export::csv::{escape, CsvExporter};
use blf_decoder::export::parquet::{rows_per_group, ParquetExporter, RowGroup};
use blf_decoder::export::OutputFormat;

fn strings(list: &[&str]) -> Vec<String> {
    list.iter().map(|s| s.to_string()).collect()
}

/// The fields of a CSV text without its last line feed.
fn read_csv(text: &str) -> Vec<Vec<String>> {
    let mut records = vec![vec![String::new()]];
    let mut quoted = false;
    let chars: Vec<char> = text.chars().collect();
    let mut i = 0;
    while i < chars.len() {
        let c = chars[i];
        let field = records.last_mut().unwrap().last_mut().unwrap();
        if quoted {
            if c != '"' {
                field.push(c);
            } else if chars.get(i + 1) == Some(&'"') {
                field.push('"');
                i += 1;
            } else {
                quoted = false;
            }
        } else if c == '"' {
            quoted = true;
        } else if c == ',' {
            records.last_mut().unwrap().push(String::new());
        } else if c == '\n' {
            records.push(vec![String::new()]);
        } else {
            field.push(c);
        }
        i += 1;
    }
    records.pop();
    records
}

#[test]
fn extensions() {
    assert_eq!(OutputFormat::Csv.extension(), "csv");
    assert_eq!(OutputFormat::Parquet.extension(), "parquet");
    assert_eq!(OutputFormat::default(), OutputFormat::Csv);
}

#[test]
fn fields_are_quoted_where_they_must_be() {
    assert_eq!(escape("EngineSpeed"), "EngineSpeed");
    assert_eq!(escape(""), "");
    assert_eq!(escape("a,b"), "\"a,b\"");
    assert_eq!(escape("say \"hi\""), "\"say \"\"hi\"\"\"");
    assert_eq!(escape("two\nlines"), "\"two\nlines\"");
    assert_eq!(escape("cr\r"), "\"cr\r\"");
}

#[test]
fn header_reads_back() {
    let columns = strings(&["Plain", "a,b", "q\"q", "n\nl", ""]);
    let (_, header) = CsvExporter::create(&columns);
    let mut expected = vec!["Timestamp".to_string()];
    expected.extend(columns);
    assert_eq!(read_csv(&header), vec![expected]);
}

#[test]
fn rows_hold_their_own_cells_only() {
    let (mut csv, header) = CsvExporter::create(&strings(&["A", "B", "C"]));
    assert_eq!(header, "Timestamp,A,B,C\n");
    let cell = |col: usize, text: &str| (col, text.to_string());
    assert_eq!(
        csv.write_row("0.1", &[cell(0, "836.0"), cell(2, "-10.0")]),
        "0.1,836.0,,-10.0\n"
    );
    assert_eq!(csv.write_row("0.2", &[cell(1, "60.0")]), "0.2,,60.0,\n");
    assert_eq!(csv.write_row("0.3", &[]), "0.3,,,\n");
    let line = csv.write_row("0.35", &[cell(2, "1e-7")]);
    assert_eq!(read_csv(&line), vec![strings(&["0.35", "", "", "1e-7"])]);
    // Of two cells in a column the latter counts.
    assert_eq!(
        csv.write_row("0.4", &[cell(1, "1"), cell(1, "2")]),
        "0.4,,2,\n"
    );
}

#[test]
fn group_sizes() {
    assert_eq!(rows_per_group(0), 262_144);
    assert_eq!(rows_per_group(1), 262_144);
    assert_eq!(rows_per_group(100), 80_000);
    assert_eq!(rows_per_group(1_000_000), 1_024);
}

/// The cells of a column, row by row.
fn unpack(group: &RowGroup<u32, i32>, col: usize) -> Vec<Option<i32>> {
    let column = &group.columns[col];
    let mut values = column.values.iter();
    column
        .def_levels
        .iter()
        .map(|level| {
            if *level == 1 {
                Some(*values.next().unwrap())
            } else {
                None
            }
        })
        .collect()
}

#[test]
fn group_reads_back() {
    let mut exporter: ParquetExporter<u32, i32> = ParquetExporter::create(2);
    assert!(exporter.write_row(10, &[(0, 5)]).is_none());
    assert!(exporter.write_row(11, &[]).is_none());
    assert!(exporter.write_row(12, &[(0, 6), (1, 7)]).is_none());
    let group = exporter.finish().unwrap();
    assert_eq!(group.timestamps, vec![10, 11, 12]);
    assert_eq!(group.columns[0].def_levels, vec![1, 0, 1]);
    assert_eq!(unpack(&group, 0), vec![Some(5), None, Some(6)]);
    assert_eq!(unpack(&group, 1), vec![None, None, Some(7)]);
    assert!(exporter.finish().is_none());
}

#[test]
fn full_groups_are_handed_out() {
    let columns = 8_000; // 1024 rows per group at least
    let size = rows_per_group(columns);
    assert_eq!(size, 1_024);
    let mut exporter: ParquetExporter<u32, i32> = ParquetExporter::create(columns);
    let mut groups = Vec::new();
    for i in 0..1_030u32 {
        if let Some(group) = exporter.write_row(i, &[(1, i as i32)]) {
            groups.push(group);
        }
    }
    assert_eq!(groups.len(), 1);
    assert_eq!(groups[0].timestamps.len(), size);
    let rest = exporter.finish().unwrap();
    assert_eq!(rest.timestamps, vec![1024, 1025, 1026, 1027, 1028, 1029]);
    assert_eq!(unpack(&rest, 1)[5], Some(1029));
}
