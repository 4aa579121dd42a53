use blf_decoder::bits::{extract_bits, sign_extend};
use blf_decoder::dbc::{ByteOrder, Dbc};
use blf_decoder::decode::{
    j1939_pgn, list_columns, list_columns_with, ColumnNaming, Decoder, DecoderOptions, RawValue,
};
use blf_decoder::frame::CanFrame;

fn frame(id: u32, extended: bool, data: &[u8]) -> CanFrame {
    let mut buf = [0u8; 64];
    buf[..data.len()].copy_from_slice(data);
    CanFrame {
        timestamp_ns: 0,
        channel: 1,
        id,
        is_extended: extended,
        data: buf,
        len: data.len() as u8,
        is_remote: false,
    }
}

fn decoder(dbc_text: &str) -> Decoder {
    Decoder::new(&Dbc::parse(dbc_text).unwrap())
}

fn base(value: RawValue) -> f64 {
    match value {
        RawValue::Unsigned(v) => v as f64,
        RawValue::Signed(v) => v as f64,
        RawValue::Float(bits) => f32::from_bits(bits) as f64,
        RawValue::Double(bits) => f64::from_bits(bits),
    }
}

/// Decode a frame to physical values.
fn decode(d: &Decoder, frame: &CanFrame, out: &mut Vec<(usize, f64)>) -> bool {
    let mut cells = Vec::new();
    let known = d.decode(frame, &mut cells);
    out.clear();
    for (col, value) in cells {
        let (factor, offset) = d.scale(col);
        let factor: f64 = factor.parse().unwrap();
        let offset: f64 = offset.parse().unwrap();
        out.push((col, base(value) * factor + offset));
    }
    known
}

#[test]
fn intel_unsigned_with_factor() {
    let d = decoder("BO_ 256 M: 8 X\n SG_ Rpm : 0|16@1+ (0.125,0) [0|0] \"\" X\n");
    let mut out = Vec::new();
    // 0x1A20 little-endian = 6688 raw -> 836.0 rpm
    assert!(decode(
        &d,
        &frame(256, false, &[0x20, 0x1A, 0, 0, 0, 0, 0, 0]),
        &mut out
    ));
    assert_eq!(out, vec![(0, 836.0)]);
}

#[test]
fn intel_signed_negative() {
    let d = decoder("BO_ 1 M: 8 X\n SG_ T : 0|8@1- (1,-40) [0|0] \"\" X\n");
    let mut out = Vec::new();
    // raw 0xF6 = -10 signed, minus 40 offset = -50
    decode(&d, &frame(1, false, &[0xF6]), &mut out);
    assert_eq!(out, vec![(0, -50.0)]);
}

#[test]
fn motorola_16bit() {
    let d = decoder("BO_ 2 M: 8 X\n SG_ S : 7|16@0+ (1,0) [0|0] \"\" X\n");
    let mut out = Vec::new();
    // Motorola start bit 7 => MSB of byte 0; value = 0x1234
    decode(&d, &frame(2, false, &[0x12, 0x34]), &mut out);
    assert_eq!(out, vec![(0, 0x1234 as f64)]);
}

#[test]
fn motorola_signed_crossing_bytes() {
    // 12-bit signed starting at bit 3 of byte 0 (MSB), spans into byte 1.
    let d = decoder("BO_ 3 M: 8 X\n SG_ S : 3|12@0- (0.1,0) [0|0] \"\" X\n");
    let mut out = Vec::new();
    // bits: byte0 low nibble = 0xF, byte1 = 0xFF -> raw 0xFFF = -1 -> -0.1
    decode(&d, &frame(3, false, &[0x0F, 0xFF]), &mut out);
    assert_eq!(out.len(), 1);
    assert!((out[0].1 - (-0.1)).abs() < 1e-12);
}

#[test]
fn extended_id_matching() {
    let d = decoder("BO_ 2364540158 E: 8 X\n SG_ P : 16|8@1+ (1,-125) [0|0] \"\" X\n");
    let mut out = Vec::new();
    let id = 2364540158u32 & 0x1FFF_FFFF;
    assert!(decode(
        &d,
        &frame(id, true, &[0, 0, 200, 0, 0, 0, 0, 0]),
        &mut out
    ));
    assert_eq!(out, vec![(0, 75.0)]);
    // Same numeric ID as a standard frame must not match.
    assert!(!decode(&d, &frame(id, false, &[0; 8]), &mut out));
}

#[test]
fn multiplexed_signals() {
    let text = "BO_ 768 M: 8 X\n SG_ Sw M : 0|4@1+ (1,0) [0|0] \"\" X\n SG_ A m0 : 8|8@1+ (1,0) [0|0] \"\" X\n SG_ B m1 : 8|8@1+ (2,10) [0|0] \"\" X\n";
    let d = decoder(text);
    let mut out = Vec::new();
    decode(&d, &frame(768, false, &[0x00, 42]), &mut out);
    assert_eq!(out, vec![(0, 0.0), (1, 42.0)]); // switch + A, not B
    decode(&d, &frame(768, false, &[0x01, 42]), &mut out);
    assert_eq!(out, vec![(0, 1.0), (2, 94.0)]); // switch + B (42*2+10)
}

#[test]
fn signal_exceeding_payload_is_skipped() {
    let d = decoder("BO_ 4 M: 8 X\n SG_ S : 32|16@1+ (1,0) [0|0] \"\" X\n");
    let mut out = Vec::new();
    // Frame only has 2 data bytes; the signal needs bits 32..48.
    assert!(decode(&d, &frame(4, false, &[1, 2]), &mut out));
    assert!(out.is_empty());
}

#[test]
fn float_signal() {
    let text = "BO_ 5 M: 8 X\n SG_ F : 0|32@1- (2,1) [0|0] \"\" X\nSIG_VALTYPE_ 5 F : 1;\n";
    let d = decoder(text);
    let mut out = Vec::new();
    let bytes = 1.5f32.to_le_bytes();
    decode(&d, &frame(5, false, &bytes), &mut out);
    assert_eq!(out, vec![(0, 4.0)]); // 1.5 * 2 + 1
}

#[test]
fn double_signal_and_mismatched_width() {
    let text = "BO_ 5 M: 8 X\n SG_ F : 0|64@1- (1,0) [0|0] \"\" X\nSIG_VALTYPE_ 5 F : 2;\n";
    let mut out = Vec::new();
    decode(&decoder(text), &frame(5, false, &(-2.25f64).to_le_bytes()), &mut out);
    assert_eq!(out, vec![(0, -2.25)]);
    // A float of 16 bits stays an integer.
    let text = "BO_ 5 M: 8 X\n SG_ F : 0|16@1+ (1,0) [0|0] \"\" X\nSIG_VALTYPE_ 5 F : 1;\n";
    decode(&decoder(text), &frame(5, false, &[3, 1]), &mut out);
    assert_eq!(out, vec![(0, 259.0)]);
}

#[test]
fn duplicate_names_qualified() {
    let text = "BO_ 1 A: 8 X\n SG_ Speed : 0|8@1+ (1,0) [0|0] \"\" X\nBO_ 2 B: 8 X\n SG_ Speed : 0|8@1+ (1,0) [0|0] \"\" X\n SG_ Unique : 8|8@1+ (1,0) [0|0] \"\" X\n";
    let d = decoder(text);
    assert_eq!(d.columns(), &["A.Speed", "B.Speed", "Unique"]);
    let specs = list_columns(&Dbc::parse(text).unwrap());
    assert_eq!(specs[0].message, "A");
    assert_eq!(specs[2].name, "Unique");
}

fn names(list: &[&str]) -> Vec<String> {
    list.iter().map(|s| s.to_string()).collect()
}

#[test]
fn signal_filter_restricts_columns() {
    let text = "BO_ 1 M: 8 X\n SG_ A : 0|8@1+ (1,0) [0|0] \"\" X\n SG_ B : 8|8@1+ (1,0) [0|0] \"\" X\n SG_ C : 16|8@1+ (1,0) [0|0] \"\" X\n";
    let dbc = Dbc::parse(text).unwrap();
    let filter = names(&["A", "C"]);
    let d = Decoder::with_filter(&dbc, Some(&filter));
    assert_eq!(d.columns(), &["A", "C"]);
    let mut out = Vec::new();
    assert!(decode(&d, &frame(1, false, &[1, 2, 3]), &mut out));
    assert_eq!(out, vec![(0, 1.0), (1, 3.0)]);
}

#[test]
fn filtered_mux_values_still_decode() {
    // Switch column not selected, but a multiplexed signal is: the switch
    // must still gate decoding.
    let text = "BO_ 768 M: 8 X\n SG_ Sw M : 0|4@1+ (1,0) [0|0] \"\" X\n SG_ A m0 : 8|8@1+ (1,0) [0|0] \"\" X\n SG_ B m1 : 8|8@1+ (1,0) [0|0] \"\" X\n";
    let dbc = Dbc::parse(text).unwrap();
    let filter = names(&["B"]);
    let d = Decoder::with_filter(&dbc, Some(&filter));
    assert_eq!(d.columns(), &["B"]);
    let mut out = Vec::new();
    decode(&d, &frame(768, false, &[0x00, 42]), &mut out);
    assert!(out.is_empty()); // switch=0 selects A, B not present
    decode(&d, &frame(768, false, &[0x01, 42]), &mut out);
    assert_eq!(out, vec![(0, 42.0)]);
}

#[test]
fn j1939_pgn_fallback_matches_other_priority_and_source() {
    // DBC: EEC1 as 0x8CF004FE (prio 3, PGN 0xF004, SA 0xFE).
    let text =
        "BO_ 2364540158 EEC1: 8 X\n SG_ EngSpeed : 24|16@1+ (0.125,0) [0|8031.875] \"rpm\" X\n";
    let dbc = Dbc::parse(text).unwrap();
    let d = Decoder::with_options(
        &dbc,
        DecoderOptions {
            j1939_pgn_fallback: true,
            ..Default::default()
        },
    );
    let mut out = Vec::new();
    let data = [0, 0, 0, 0x20, 0x1A, 0, 0, 0]; // EngSpeed raw 0x1A20 -> 836 rpm

    // Different source address (0x00 instead of 0xFE).
    assert!(decode(&d, &frame(0x0CF00400, true, &data), &mut out));
    assert_eq!(out, vec![(0, 836.0)]);
    // Different priority (6 instead of 3).
    assert!(decode(&d, &frame(0x18F004FE, true, &data), &mut out));
    assert_eq!(out, vec![(0, 836.0)]);
    // Different PGN must not match.
    assert!(!decode(&d, &frame(0x0CF005FE, true, &data), &mut out));

    // Without the fallback only the exact ID matches.
    let strict = Decoder::new(&dbc);
    assert!(!decode(&strict, &frame(0x0CF00400, true, &data), &mut out));
    assert!(decode(&strict, &frame(0x0CF004FE, true, &data), &mut out));
}

#[test]
fn message_signal_unit_naming() {
    let text = "BO_ 2364540158 EEC1: 8 X\n SG_ EngSpeed : 24|16@1+ (0.125,0) [0|8031.875] \"rpm\" X\n SG_ NoUnit : 0|8@1+ (1,0) [0|0] \"\" X\n";
    let dbc = Dbc::parse(text).unwrap();
    let specs = list_columns_with(&dbc, ColumnNaming::MessageSignalUnit);
    assert_eq!(specs[0].name, "EEC1::EngSpeed[rpm]");
    assert_eq!(specs[1].name, "EEC1::NoUnit");
    let d = Decoder::with_options(
        &dbc,
        DecoderOptions {
            naming: ColumnNaming::MessageSignalUnit,
            ..Default::default()
        },
    );
    assert_eq!(d.columns(), &["EEC1::EngSpeed[rpm]", "EEC1::NoUnit"]);
}

#[test]
fn message_name_lookup() {
    let d = decoder("BO_ 256 Engine: 8 X\n SG_ A : 0|8@1+ (1,0) [0|0] \"\" X\n");
    assert_eq!(d.message_name(&frame(256, false, &[0])), Some("Engine"));
    assert_eq!(d.message_name(&frame(257, false, &[0])), None);
    assert!(d.contains_id(&frame(256, false, &[0])));
}

#[test]
fn remote_frames_are_not_decoded() {
    let d = decoder("BO_ 256 Engine: 8 X\n SG_ A : 0|8@1+ (1,0) [0|0] \"\" X\n");
    let mut remote = frame(256, false, &[7]);
    remote.is_remote = true;
    let mut cells = vec![(3, RawValue::Unsigned(9))];
    assert!(!d.decode(&remote, &mut cells));
    assert!(cells.is_empty());
    assert!(d.contains_id(&remote));
}

#[test]
fn last_message_of_an_id_counts() {
    let d = decoder("BO_ 7 A: 8 X\n SG_ P : 0|8@1+ (1,0) [0|0] \"\" X\nBO_ 7 B: 8 X\n SG_ Q : 0|8@1+ (1,0) [0|0] \"\" X\n");
    assert_eq!(d.columns(), &["P", "Q"]);
    assert_eq!(d.message_name(&frame(7, false, &[1])), Some("B"));
    let mut out = Vec::new();
    decode(&d, &frame(7, false, &[5]), &mut out);
    assert_eq!(out, vec![(1, 5.0)]);
}

#[test]
fn filter_keeps_values_and_order() {
    let text = "BO_ 1 M: 8 X\n SG_ A : 0|8@1+ (1,0) [0|0] \"\" X\n SG_ B : 8|8@1- (1,0) [0|0] \"\" X\n SG_ C : 16|8@1+ (1,0) [0|0] \"\" X\n";
    let dbc = Dbc::parse(text).unwrap();
    let chosen = names(&["C", "B", "Unknown"]);
    let all = Decoder::new(&dbc);
    let some = Decoder::with_filter(&dbc, Some(&chosen));
    let f = frame(1, false, &[1, 0xFE, 3]);
    let named = |d: &Decoder| -> Vec<(String, RawValue)> {
        let mut cells = Vec::new();
        assert!(d.decode(&f, &mut cells));
        cells
            .into_iter()
            .map(|(col, v)| (d.columns()[col].clone(), v))
            .collect()
    };
    let expected: Vec<(String, RawValue)> = named(&all)
        .into_iter()
        .filter(|(name, _)| chosen.contains(name))
        .collect();
    assert_eq!(named(&some), expected);
    assert_eq!(expected[0], ("B".to_string(), RawValue::Signed(-2)));
}

#[test]
fn parameter_group_numbers() {
    assert_eq!(j1939_pgn(0x0CF004FE), 0xF004);
    assert_eq!(j1939_pgn(0x18F004FE), 0xF004);
    // Destination-specific: the destination byte is left out.
    assert_eq!(j1939_pgn(0x18EAFF00), 0xEA00);
    assert_eq!(j1939_pgn(0x18EA0B21), 0xEA00);
    assert_eq!(j1939_pgn(0x19F004FE), 0x1F004);
}

#[test]
fn bit_fields() {
    let data = [0b1010_0101, 0b0000_1111];
    assert_eq!(extract_bits(&data, ByteOrder::Intel, 0, 4), Some(5));
    assert_eq!(extract_bits(&data, ByteOrder::Intel, 4, 8), Some(0xFA));
    assert_eq!(extract_bits(&data, ByteOrder::Intel, 8, 9), None);
    assert_eq!(extract_bits(&data, ByteOrder::Motorola, 7, 12), Some(0xA50));
    assert_eq!(extract_bits(&data, ByteOrder::Motorola, 3, 12), Some(0x50F));
    assert_eq!(extract_bits(&data, ByteOrder::Motorola, 3, 13), None);
    // Inside a byte the two orders differ in the end that the start names.
    assert_eq!(
        extract_bits(&data, ByteOrder::Intel, 1, 5),
        extract_bits(&data, ByteOrder::Motorola, 5, 5)
    );
    assert_eq!(
        extract_bits(&[0xFF; 8], ByteOrder::Intel, 0, 64),
        Some(u64::MAX)
    );
}

#[test]
fn sign_extension() {
    assert_eq!(sign_extend(0xF6, 8), -10);
    assert_eq!(sign_extend(0x7F, 8), 127);
    assert_eq!(sign_extend(1, 1), -1);
    assert_eq!(sign_extend(u64::MAX, 64), -1);
    assert_eq!(sign_extend(1 << 63, 64), i64::MIN);
    // Bits above the field do not count.
    assert_eq!(sign_extend(0xF05, 4), 5);
}

#[test]
fn fields_ignore_the_other_bits() {
    for order in [ByteOrder::Intel, ByteOrder::Motorola] {
        let a = extract_bits(&[0x00, 0x3C, 0x00], order, 12, 3);
        let b = extract_bits(&[0xFF, 0x3C | 0x83, 0xFF], order, 12, 3);
        assert_eq!(a, b);
        assert!(a.unwrap() < 8);
    }
}

#[test]
fn multiplexed_signals_need_a_switch() {
    let d = decoder("BO_ 9 M: 8 X\n SG_ A m0 : 0|8@1+ (1,0) [0|0] \"\" X\n SG_ B : 8|8@1+ (1,0) [0|0] \"\" X\n");
    let mut out = Vec::new();
    assert!(decode(&d, &frame(9, false, &[0, 4]), &mut out));
    assert_eq!(out, vec![(1, 4.0)]);
}

#[test]
fn empty_database() {
    let dbc = Dbc::default();
    assert!(dbc.messages.is_empty() && !dbc.j1939_hint);
    assert!(Decoder::new(&dbc).columns().is_empty());
}

#[test]
fn equal_names_in_one_message_stay_unqualified() {
    let text = "BO_ 1 A: 8 X\n SG_ S : 0|8@1+ (1,0) [0|0] \"\" X\n SG_ S : 8|8@1+ (1,0) [0|0] \"\" X\n";
    let specs = list_columns_with(&Dbc::parse(text).unwrap(), ColumnNaming::Signal);
    assert_eq!(specs.len(), 2);
    for spec in &specs {
        assert_eq!(spec.name, "S");
        assert_eq!(spec.message, "A");
    }
    assert_eq!(decoder(text).columns(), &["S", "S"]);

    // Another message with the name qualifies all of them.
    let more = format!("{text}BO_ 2 B: 8 X\n SG_ S : 0|8@1+ (1,0) [0|0] \"\" X\n");
    assert_eq!(decoder(&more).columns(), &["A.S", "A.S", "B.S"]);
}

#[test]
fn first_message_of_a_parameter_group_counts() {
    // 0x0CF00401 and 0x0CF00402, of one group; the first is declared twice.
    let text = "BO_ 2364539905 One: 8 X\nBO_ 2364539906 Two: 8 X\nBO_ 2364539905 Again: 8 X\n";
    let d = Decoder::with_options(
        &Dbc::parse(text).unwrap(),
        DecoderOptions {
            j1939_pgn_fallback: true,
            ..Default::default()
        },
    );
    assert_eq!(d.message_name(&frame(0x0CF00477, true, &[0])), Some("Again"));
    assert_eq!(d.message_name(&frame(0x0CF00402, true, &[0])), Some("Two"));
}
