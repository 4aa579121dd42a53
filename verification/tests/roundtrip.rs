//! End-to-end tests: synthesize a BLF file, decode with a DBC, check the
//! CSV and Parquet outputs.

use blf_decoder::blf::{BlfError, BlfReader};
use blf_decoder::convert::{
    check_interval, check_output, load_decoder, output_path, Conversion, ConvertError,
    ConvertOptions, OutputLayout, Progress, ProgressUpdate, Status, Step, Summary, TimestampMode,
};
use blf_decoder::decode::RawValue;
use blf_decoder::export::csv::CsvExporter;
use blf_decoder::export::parquet::{ParquetExporter, RowGroup};
use blf_decoder::export::OutputFormat;
use flate2::write::ZlibEncoder;
use flate2::Compression;
use std::collections::HashMap;
use std::io::Write;
use std::path::PathBuf;

const OBJ_SIGNATURE: &[u8; 4] = b"LOBJ";

fn file_header() -> Vec<u8> {
    let mut h = vec![0u8; 144];
    h[0..4].copy_from_slice(b"LOGG");
    h[4..8].copy_from_slice(&144u32.to_le_bytes());
    // measurement start 2024-01-02 03:04:05.000 UTC at offset 56
    let st: [u16; 8] = [2024, 1, 2, 2, 3, 4, 5, 0];
    for (i, v) in st.iter().enumerate() {
        h[56 + i * 2..58 + i * 2].copy_from_slice(&v.to_le_bytes());
    }
    h
}

fn can_message(timestamp_ns: u64, id: u32, data: &[u8]) -> Vec<u8> {
    let mut obj = Vec::new();
    obj.extend_from_slice(OBJ_SIGNATURE);
    obj.extend_from_slice(&32u16.to_le_bytes());
    obj.extend_from_slice(&1u16.to_le_bytes());
    obj.extend_from_slice(&48u32.to_le_bytes());
    obj.extend_from_slice(&1u32.to_le_bytes()); // CAN_MESSAGE
    obj.extend_from_slice(&2u32.to_le_bytes()); // flags: nanosecond timestamps
    obj.extend_from_slice(&0u32.to_le_bytes()); // client index + object version
    obj.extend_from_slice(&timestamp_ns.to_le_bytes());
    obj.extend_from_slice(&1u16.to_le_bytes()); // channel
    obj.push(0); // message flags
    obj.push(data.len() as u8); // dlc
    obj.extend_from_slice(&id.to_le_bytes());
    let mut payload = [0u8; 8];
    payload[..data.len()].copy_from_slice(data);
    obj.extend_from_slice(&payload);
    obj
}

fn container(objects: &[u8]) -> Vec<u8> {
    let mut enc = ZlibEncoder::new(Vec::new(), Compression::default());
    enc.write_all(objects).unwrap();
    let payload = enc.finish().unwrap();
    let mut obj = Vec::new();
    obj.extend_from_slice(OBJ_SIGNATURE);
    obj.extend_from_slice(&16u16.to_le_bytes());
    obj.extend_from_slice(&1u16.to_le_bytes());
    obj.extend_from_slice(&((32 + payload.len()) as u32).to_le_bytes());
    obj.extend_from_slice(&10u32.to_le_bytes()); // LOG_CONTAINER
    obj.extend_from_slice(&2u16.to_le_bytes()); // zlib
    obj.extend_from_slice(&[0u8; 6]);
    obj.extend_from_slice(&(objects.len() as u32).to_le_bytes());
    obj.extend_from_slice(&[0u8; 4]);
    obj.extend_from_slice(&payload);
    // BLF convention: pad with object_size % 4 bytes
    obj.extend(vec![0u8; (32 + payload.len()) % 4]);
    obj
}

const DBC: &str = r#"
BO_ 256 Engine: 8 ECU
 SG_ EngineSpeed : 0|16@1+ (0.125,0) [0|8000] "rpm" Vector__XXX
 SG_ EngineTemp : 16|8@1- (1,-40) [-40|215] "degC" Vector__XXX
BO_ 512 Vehicle: 8 ECU
 SG_ VehicleSpeed : 7|16@0+ (0.01,0) [0|655.35] "km/h" Vector__XXX
"#;

/// The files of a test: the inputs, and what was written.
struct Fixture {
    dir: PathBuf,
    blf: PathBuf,
    blf_bytes: Vec<u8>,
    outputs: HashMap<PathBuf, Output>,
}

enum Output {
    Csv(String),
    Parquet(Vec<String>, Vec<RowGroup<f64, f64>>),
}

fn log_of(objects: &[u8]) -> Vec<u8> {
    let mut bytes = file_header();
    bytes.extend_from_slice(&container(objects));
    bytes
}

fn setup(name: &str) -> Fixture {
    let dir = PathBuf::from(format!("blf_decoder_test_{name}"));
    let mut objects = Vec::new();
    // EngineSpeed raw 6688 (0x1A20) -> 836 rpm; EngineTemp raw 30 -> -10 degC
    objects.extend_from_slice(&can_message(
        100_000_000,
        256,
        &[0x20, 0x1A, 30, 0, 0, 0, 0, 0],
    ));
    // VehicleSpeed Motorola raw 0x1770 = 6000 -> 60.0 km/h
    objects.extend_from_slice(&can_message(
        200_000_000,
        512,
        &[0x17, 0x70, 0, 0, 0, 0, 0, 0],
    ));
    // Unknown ID: counted as read but not decoded
    objects.extend_from_slice(&can_message(300_000_000, 0x700, &[1, 2, 3, 4]));
    Fixture {
        blf: dir.join("sample.blf"),
        dir,
        blf_bytes: log_of(&objects),
        outputs: HashMap::new(),
    }
}

const T0: f64 = 1704164645.0; // 2024-01-02 03:04:05 UTC

/// One row per frame, epoch timestamps.
fn raw_epoch(format: OutputFormat) -> ConvertOptions {
    ConvertOptions {
        format,
        layout: OutputLayout::PerFrame,
        timestamp: TimestampMode::EpochSeconds,
        ..Default::default()
    }
}

fn physical(value: RawValue, scale: (&str, &str)) -> f64 {
    let base = match value {
        RawValue::Unsigned(v) => v as f64,
        RawValue::Signed(v) => v as f64,
        RawValue::Float(bits) => f32::from_bits(bits) as f64,
        RawValue::Double(bits) => f64::from_bits(bits),
    };
    base * scale.0.parse::<f64>().unwrap() + scale.1.parse::<f64>().unwrap()
}

/// Convert in memory.
fn convert(
    fx: &mut Fixture,
    options: ConvertOptions,
    progress: &mut dyn FnMut(ProgressUpdate),
) -> Result<Summary, ConvertError> {
    check_interval(&options)?;
    let decoder = load_decoder(DBC.as_bytes(), &options)?;
    let reader = match BlfReader::streaming(&fx.blf_bytes[..150]) {
        Ok(reader) => reader,
        Err(e) => return Err(ConvertError::Blf(e)),
    };
    let mut conversion = Conversion::new(decoder, reader, &options, fx.blf_bytes.len() as u64);
    let out_path = output_path(&fx.blf, &fx.dir, options.format);
    check_output(fx.outputs.contains_key(&out_path), options.overwrite)?;

    let columns = conversion.columns();
    let (mut csv, mut text) = CsvExporter::create(&columns);
    let mut parquet: ParquetExporter<f64, f64> = ParquetExporter::create(columns.len());
    let mut groups = Vec::new();
    let mut at = 150;
    loop {
        let step: Step = conversion.advance()?;
        for k in 0..step.rows.count {
            let timestamp = step.rows.time(k) as f64 / 1e9;
            let cells: Vec<(usize, f64)> = step
                .rows
                .cells
                .iter()
                .map(|(col, v)| (*col, physical(*v, conversion.scale(*col))))
                .collect();
            match options.format {
                OutputFormat::Csv => {
                    let texts: Vec<(usize, String)> = cells
                        .iter()
                        .map(|(col, v)| (*col, ryu::Buffer::new().format(*v).to_string()))
                        .collect();
                    text.push_str(&csv.write_row(ryu::Buffer::new().format(timestamp), &texts));
                }
                OutputFormat::Parquet => groups.extend(parquet.write_row(timestamp, &cells)),
            }
        }
        if let Some(update) = step.report {
            progress(update);
        }
        match step.status {
            Status::Running => {}
            Status::NeedInput => {
                if at == fx.blf_bytes.len() {
                    conversion.close();
                } else {
                    let end = (at + 7).min(fx.blf_bytes.len());
                    conversion.feed(&fx.blf_bytes[at..end]);
                    at = end;
                }
            }
            Status::Done => break,
        }
    }
    let output = match options.format {
        OutputFormat::Csv => Output::Csv(text),
        OutputFormat::Parquet => {
            groups.extend(parquet.finish());
            Output::Parquet(columns, groups)
        }
    };
    fx.outputs.insert(out_path.clone(), output);
    Ok(conversion.summary(out_path))
}

fn csv_text<'a>(fx: &'a Fixture, summary: &Summary) -> &'a str {
    match &fx.outputs[&summary.output_path] {
        Output::Csv(text) => text,
        _ => panic!("not CSV"),
    }
}

#[test]
fn csv_roundtrip() {
    let mut fx = setup("csv");
    let summary = convert(&mut fx, raw_epoch(OutputFormat::Csv), &mut |_| {}).unwrap();
    assert_eq!(summary.frames_read, 3);
    assert_eq!(summary.frames_decoded, 2);
    assert_eq!(summary.signal_columns, 3);
    assert_eq!(
        summary.output_path,
        output_path(&fx.blf, &fx.dir, OutputFormat::Csv)
    );

    let text = csv_text(&fx, &summary);
    let lines: Vec<&str> = text.lines().collect();
    assert_eq!(lines.len(), 3);
    assert_eq!(lines[0], "Timestamp,EngineSpeed,EngineTemp,VehicleSpeed");

    let row1: Vec<&str> = lines[1].split(',').collect();
    assert!((row1[0].parse::<f64>().unwrap() - (T0 + 0.1)).abs() < 1e-6);
    assert_eq!(row1[1].parse::<f64>().unwrap(), 836.0);
    assert_eq!(row1[2].parse::<f64>().unwrap(), -10.0);
    assert_eq!(row1[3], ""); // VehicleSpeed absent on Engine frames

    let row2: Vec<&str> = lines[2].split(',').collect();
    assert!((row2[0].parse::<f64>().unwrap() - (T0 + 0.2)).abs() < 1e-6);
    assert_eq!(row2[1], "");
    assert_eq!(row2[2], "");
    assert!((row2[3].parse::<f64>().unwrap() - 60.0).abs() < 1e-9);
}

#[test]
fn parquet_roundtrip() {
    let mut fx = setup("parquet");
    let summary = convert(&mut fx, raw_epoch(OutputFormat::Parquet), &mut |_| {}).unwrap();
    assert_eq!(summary.frames_decoded, 2);

    let (columns, groups) = match &fx.outputs[&summary.output_path] {
        Output::Parquet(columns, groups) => (columns, groups),
        _ => panic!("not Parquet"),
    };
    let mut names = vec!["Timestamp".to_string()];
    names.extend(columns.iter().cloned());
    assert_eq!(
        names,
        vec!["Timestamp", "EngineSpeed", "EngineTemp", "VehicleSpeed"]
    );

    assert_eq!(groups.len(), 1);
    let group = &groups[0];
    assert_eq!(group.timestamps.len(), 2);
    let get = |row: usize, col: usize| -> Option<f64> {
        if col == 0 {
            return Some(group.timestamps[row]);
        }
        let column = &group.columns[col - 1];
        if column.def_levels[row] == 0 {
            return None;
        }
        let before: usize = column.def_levels[..row].iter().map(|l| *l as usize).sum();
        Some(column.values[before])
    };
    assert!((get(0, 0).unwrap() - (T0 + 0.1)).abs() < 1e-6);
    assert_eq!(get(0, 1), Some(836.0));
    assert_eq!(get(0, 2), Some(-10.0));
    assert_eq!(get(0, 3), None);

    assert_eq!(get(1, 1), None);
    assert_eq!(get(1, 2), None);
    assert!((get(1, 3).unwrap() - 60.0).abs() < 1e-9);
}

fn fraction(p: Progress) -> f32 {
    let (done, total) = p.fraction();
    (done as f64 / total as f64) as f32
}

#[test]
fn progress_reaches_completion() {
    let mut fx = setup("progress");
    let mut last = None;
    convert(&mut fx, raw_epoch(OutputFormat::Csv), &mut |u| {
        last = Some(u.progress);
    })
    .unwrap();
    let last = last.unwrap();
    assert_eq!(last.bytes_read, last.total_bytes);
    assert!((fraction(last) - 1.0).abs() < f32::EPSILON);
}

#[test]
fn strict_mode_errors_on_unknown_id() {
    let mut fx = setup("strict");
    let options = ConvertOptions {
        skip_unknown_ids: false,
        ..raw_epoch(OutputFormat::Csv)
    };
    let err = convert(&mut fx, options, &mut |_| {}).unwrap_err();
    assert!(err.message().contains("0x700"), "{err:?}");
}

#[test]
fn no_overwrite_refuses_existing_output() {
    let mut fx = setup("overwrite");
    convert(&mut fx, raw_epoch(OutputFormat::Csv), &mut |_| {}).unwrap();
    let options = ConvertOptions {
        overwrite: false,
        ..raw_epoch(OutputFormat::Csv)
    };
    let err = convert(&mut fx, options, &mut |_| {}).unwrap_err();
    assert!(err.message().contains("already exists"), "{err:?}");
}

#[test]
fn can_id_column_in_raw_layout() {
    let mut fx = setup("canid");
    let options = ConvertOptions {
        keep_can_id: true,
        ..raw_epoch(OutputFormat::Csv)
    };
    let summary = convert(&mut fx, options, &mut |_| {}).unwrap();
    let text = csv_text(&fx, &summary);
    let lines: Vec<&str> = text.lines().collect();
    assert_eq!(
        lines[0],
        "Timestamp,CanId,EngineSpeed,EngineTemp,VehicleSpeed"
    );
    let row1: Vec<&str> = lines[1].split(',').collect();
    assert_eq!(row1[1].parse::<f64>().unwrap(), 256.0);
    assert_eq!(row1[2].parse::<f64>().unwrap(), 836.0);
    let row2: Vec<&str> = lines[2].split(',').collect();
    assert_eq!(row2[1].parse::<f64>().unwrap(), 512.0);
}

#[test]
fn signal_filter_limits_output_columns() {
    let mut fx = setup("filter");
    let filter: Vec<String> = ["EngineSpeed", "VehicleSpeed"]
        .iter()
        .map(|s| s.to_string())
        .collect();
    let options = ConvertOptions {
        signal_filter: Some(filter),
        ..raw_epoch(OutputFormat::Csv)
    };
    let summary = convert(&mut fx, options, &mut |_| {}).unwrap();
    assert_eq!(summary.signal_columns, 2);
    assert_eq!(
        csv_text(&fx, &summary).lines().next().unwrap(),
        "Timestamp,EngineSpeed,VehicleSpeed"
    );
}

#[test]
fn resampled_csv_forward_fills() {
    let mut fx = setup("resample");
    // Frames: Engine @0.1s (836 rpm, -10 degC), Vehicle @0.2s (60 km/h).
    // Default options: 100 ms grid, relative timestamps, forward fill.
    let summary = convert(&mut fx, ConvertOptions::default(), &mut |_| {}).unwrap();

    let text = csv_text(&fx, &summary);
    let lines: Vec<&str> = text.lines().collect();
    assert_eq!(lines[0], "Timestamp,EngineSpeed,EngineTemp,VehicleSpeed");
    // Grid anchored at first decoded frame (t = 0.1 s):
    //   row 1: t=0.1 grid closed when 0.2s frame arrives -> engine values only
    //   row 2: t=0.2 trailing flush -> engine values held + vehicle speed
    assert_eq!(lines.len(), 3);
    assert_eq!(summary.rows_written, 2);

    let row1: Vec<&str> = lines[1].split(',').collect();
    assert!((row1[0].parse::<f64>().unwrap() - 0.1).abs() < 1e-9);
    assert_eq!(row1[1].parse::<f64>().unwrap(), 836.0);
    assert_eq!(row1[2].parse::<f64>().unwrap(), -10.0);
    assert_eq!(row1[3], "");

    let row2: Vec<&str> = lines[2].split(',').collect();
    assert!((row2[0].parse::<f64>().unwrap() - 0.2).abs() < 1e-9);
    // Forward-filled from the previous frame:
    assert_eq!(row2[1].parse::<f64>().unwrap(), 836.0);
    assert_eq!(row2[2].parse::<f64>().unwrap(), -10.0);
    assert!((row2[3].parse::<f64>().unwrap() - 60.0).abs() < 1e-9);
}

#[test]
fn conversion_errors() {
    let mut fx = setup("errors");
    let options = ConvertOptions {
        resample_ns: 0,
        ..Default::default()
    };
    assert_eq!(
        convert(&mut fx, options, &mut |_| {}).err(),
        Some(ConvertError::Interval)
    );
    assert_eq!(
        load_decoder(b"VERSION \"\"\n", &ConvertOptions::default()).err(),
        Some(ConvertError::NoMessages)
    );
    let bad = load_decoder(b"BO_ x\n", &ConvertOptions::default()).err().unwrap();
    assert_eq!(bad.message(), "DBC line 1: invalid message id");
    // The spacing does not matter where rows are not resampled.
    assert!(check_interval(&ConvertOptions {
        resample_ns: -5,
        ..raw_epoch(OutputFormat::Csv)
    })
    .is_ok());
    fx.blf_bytes.truncate(fx.blf_bytes.len() - 20);
    assert_eq!(
        convert(&mut fx, ConvertOptions::default(), &mut |_| {}).err(),
        Some(ConvertError::Blf(BlfError::ObjectTruncated))
    );
    assert_eq!(
        ConvertError::Interval.message(),
        "resample interval must be greater than 0 ms"
    );
    assert_eq!(
        ConvertError::NoMessages.message(),
        "no messages found in DBC file (is it a valid DBC?)"
    );
    assert_eq!(
        ConvertError::Blf(BlfError::ObjectTruncated).message(),
        "BLF object is truncated"
    );
    assert_eq!(
        ConvertError::UnknownId(0x1FAB).message(),
        "CAN ID 0x1FAB is not defined in the DBC"
    );
}

#[test]
fn reports_come_every_few_thousand_frames() {
    let mut fx = setup("reports");
    let mut objects = Vec::new();
    for i in 0..5000u64 {
        let id = if i % 2 == 0 { 256 } else { 0x700 };
        objects.extend_from_slice(&can_message(i, id, &[1, 2, 3]));
    }
    fx.blf_bytes = log_of(&objects);
    let mut updates = Vec::new();
    let summary = convert(&mut fx, raw_epoch(OutputFormat::Csv), &mut |u| updates.push(u)).unwrap();
    assert_eq!(updates.len(), 2);
    assert_eq!(updates[0].progress.frames_read, 4096);
    assert_eq!(updates[0].progress.frames_decoded, 2048);
    // Frame number 4096 has the unknown identifier.
    assert_eq!(updates[0].current_message, None);
    assert_eq!(updates[1].progress.frames_read, 5000);
    assert_eq!(updates[1].current_message, None);
    assert_eq!(summary.rows_written, 2500);
    assert_eq!(summary.frames_decoded, 2500);
}

#[test]
fn reports_name_the_current_message() {
    let mut fx = setup("names");
    let mut objects = Vec::new();
    for i in 0..4096u64 {
        objects.extend_from_slice(&can_message(i, 512, &[1, 2, 3]));
    }
    fx.blf_bytes = log_of(&objects);
    let mut updates = Vec::new();
    convert(&mut fx, ConvertOptions::default(), &mut |u| updates.push(u)).unwrap();
    assert_eq!(updates.len(), 2);
    assert_eq!(updates[0].current_message.as_deref(), Some("Vehicle"));
}

#[test]
fn fractions() {
    let p = |bytes_read, total_bytes| Progress {
        bytes_read,
        total_bytes,
        ..Default::default()
    };
    assert_eq!(p(5, 0).fraction(), (0, 1));
    assert_eq!(p(5, 20).fraction(), (5, 20));
    assert_eq!(p(30, 20).fraction(), (20, 20));
}

#[test]
fn j1939_databases_match_by_parameter_group() {
    let text = "BA_DEF_ \"J1939\";\nBO_ 2364540158 EEC1: 8 X\n SG_ S : 24|16@1+ (0.125,0) [0|0] \"rpm\" X\n";
    let decoder = load_decoder(text.as_bytes(), &ConvertOptions::default()).unwrap();
    let file = log_of(&can_message(0, 0x8CF00400, &[0, 0, 0, 0x20, 0x1A, 0, 0, 0]));
    let frame = BlfReader::new(&file).unwrap().next_frame().unwrap().unwrap();
    assert_eq!(decoder.message_name(&frame), Some("EEC1"));
}

#[test]
fn strict_mode_changes_nothing_where_every_id_is_known() {
    let mut objects = can_message(100_000_000, 256, &[0x20, 0x1A, 30, 0, 0, 0, 0, 0]);
    objects.extend_from_slice(&can_message(200_000_000, 512, &[0x17, 0x70, 0, 0, 0, 0, 0, 0]));
    for layout in [OutputLayout::PerFrame, OutputLayout::Resampled] {
        let mut texts = Vec::new();
        for skip_unknown_ids in [false, true] {
            let mut fx = setup("known");
            fx.blf_bytes = log_of(&objects);
            let options = ConvertOptions {
                layout,
                skip_unknown_ids,
                ..Default::default()
            };
            let summary = convert(&mut fx, options, &mut |_| {}).unwrap();
            assert_eq!(summary.frames_decoded, 2);
            texts.push(csv_text(&fx, &summary).to_string());
        }
        assert_eq!(texts[0], texts[1]);
    }
}
