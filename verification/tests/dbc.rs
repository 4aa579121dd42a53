use blf_decoder::dbc::{
    ByteOrder, Dbc, DbcError, LineError, MuxRole, SignalError, ValueType,
};

const SAMPLE: &str = r#"
VERSION ""

BO_ 256 Engine: 8 ECU1
 SG_ EngineSpeed : 0|16@1+ (0.125,0) [0|8000] "rpm" Vector__XXX
 SG_ EngineTemp : 16|8@1- (1,-40) [-40|215] "degC" Vector__XXX

BO_ 2364540158 EEC1: 8 Vector__XXX
 SG_ ActualEnginePercentTorque : 16|8@1+ (1,-125) [-125|125] "%" Vector__XXX

BO_ 512 Steering: 8 ECU2
 SG_ SteeringAngle : 7|16@0- (0.1,0) [-780|779.9] "deg" Vector__XXX

BO_ 768 MuxMsg: 8 ECU3
 SG_ MuxSwitch M : 0|4@1+ (1,0) [0|15] "" Vector__XXX
 SG_ ValueA m0 : 8|8@1+ (1,0) [0|255] "" Vector__XXX
 SG_ ValueB m1 : 8|8@1+ (2,10) [0|255] "" Vector__XXX

BO_ 3221225472 VECTOR__INDEPENDENT_SIG_MSG: 0 Vector__XXX
 SG_ Orphan : 0|8@1+ (1,0) [0|0] "" Vector__XXX

BO_ 1024 FloatMsg: 8 ECU4
 SG_ FloatSig : 0|32@1- (1,0) [0|0] "" Vector__XXX
SIG_VALTYPE_ 1024 FloatSig : 1;
"#;

fn number(text: &str) -> f64 {
    text.parse().unwrap()
}

#[test]
fn parses_messages_and_signals() {
    let dbc = Dbc::parse(SAMPLE).unwrap();
    assert_eq!(dbc.messages.len(), 5);

    let engine = &dbc.messages[0];
    assert_eq!(engine.id, 256);
    assert!(!engine.is_extended);
    assert_eq!(engine.name, "Engine");
    assert_eq!(engine.signals.len(), 2);
    let rpm = &engine.signals[0];
    assert_eq!(rpm.name, "EngineSpeed");
    assert_eq!((rpm.start_bit, rpm.length), (0, 16));
    assert_eq!(rpm.byte_order, ByteOrder::Intel);
    assert!(!rpm.signed);
    assert_eq!(number(&rpm.factor), 0.125);
    let temp = &engine.signals[1];
    assert!(temp.signed);
    assert_eq!(number(&temp.offset), -40.0);

    let eec1 = &dbc.messages[1];
    assert!(eec1.is_extended);
    assert_eq!(eec1.id, 2364540158 & 0x1FFF_FFFF);

    let steering = &dbc.messages[2];
    assert_eq!(steering.signals[0].byte_order, ByteOrder::Motorola);

    let mux = &dbc.messages[3];
    assert_eq!(mux.signals[0].mux, MuxRole::Switch);
    assert_eq!(mux.signals[1].mux, MuxRole::Value(0));
    assert_eq!(mux.signals[2].mux, MuxRole::Value(1));

    let float_msg = &dbc.messages[4];
    assert_eq!(float_msg.signals[0].value_type, ValueType::Float);
}

#[test]
fn parses_units_and_j1939_hint() {
    let dbc = Dbc::parse(SAMPLE).unwrap();
    assert_eq!(dbc.messages[0].signals[0].unit, "rpm");
    assert_eq!(dbc.messages[0].signals[1].unit, "degC");
    assert_eq!(dbc.messages[1].signals[0].unit, "%");
    assert!(!dbc.j1939_hint);

    let j1939 = Dbc::parse(
        "BA_DEF_ BO_ \"VFrameFormat\" ENUM \"StandardCAN\",\"J1939PG\";\nBO_ 2364540158 EEC1: 8 X\n SG_ EngSpeed : 24|16@1+ (0.125,0) [0|8031.875] \"rpm\" X\n",
    )
    .unwrap();
    assert!(j1939.j1939_hint);
}

#[test]
fn skips_orphan_signals() {
    let dbc = Dbc::parse(SAMPLE).unwrap();
    assert!(dbc
        .messages
        .iter()
        .all(|m| m.signals.iter().all(|s| s.name != "Orphan")));
}

#[test]
fn orphans_may_be_malformed() {
    let dbc = Dbc::parse("BO_ 3221225472 V: 0 X\n SG_ nonsense\nBO_ 1 M: 8 X\n").unwrap();
    assert_eq!(dbc.messages.len(), 1);
    assert_eq!(dbc.messages[0].name, "M");
}

#[test]
fn bytes_are_decoded_lossily() {
    // A Latin-1 degree sign in a unit is no UTF-8.
    let mut bytes = b"BO_ 1 M: 8 X\n SG_ T : 0|8@1+ (1,0) [0|0] \"".to_vec();
    bytes.push(0xB0);
    bytes.extend_from_slice(b"C\" X\n");
    let dbc = Dbc::from_bytes(&bytes).unwrap();
    assert_eq!(dbc.messages[0].signals[0].unit, "\u{FFFD}C");
    let plain = Dbc::from_bytes(SAMPLE.as_bytes()).unwrap();
    assert_eq!(plain.messages.len(), 5);
}

#[test]
fn value_types_go_to_the_last_message_of_an_id() {
    let dbc = Dbc::parse(
        "BO_ 5 A: 8 X\n SG_ F : 0|64@1- (1,0) [0|0] \"\" X\nBO_ 5 B: 8 X\n SG_ F : 0|64@1- (1,0) [0|0] \"\" X\nSIG_VALTYPE_ 5 F : 2;\nSIG_VALTYPE_ 6 F : 1;\nSIG_VALTYPE_ 5 F : 3;\n",
    )
    .unwrap();
    assert_eq!(dbc.messages[0].signals[0].value_type, ValueType::Integer);
    assert_eq!(dbc.messages[1].signals[0].value_type, ValueType::Double);
    assert_eq!(dbc.messages[1].dlc, 8);
}

#[test]
fn line_errors_name_their_line() {
    let err = |text: &str| Dbc::parse(text).err().unwrap();
    assert_eq!(
        err("\nBO_ x M: 8 X\n"),
        DbcError {
            line: 1,
            error: LineError::MessageId
        }
    );
    assert_eq!(err("BO_ 1\n").error, LineError::MessageName);
    assert_eq!(err("BO_ 1 M: x\n").error, LineError::MessageDlc);
    assert_eq!(
        err(" SG_ S : 0|8@1+ (1,0)\n").error,
        LineError::SignalBeforeMessage
    );
    assert_eq!(
        err("\nBO_ x M: 8 X\n").message(),
        "DBC line 2: invalid message id"
    );
    assert_eq!(err("BO_ 1\n").message(), "DBC line 1: missing message name");
    assert_eq!(
        err("BO_ 1 M: x\n").message(),
        "DBC line 1: invalid message DLC"
    );
    assert_eq!(
        err(" SG_ S : 0|8@1+ (1,0)\n").message(),
        "DBC line 1: signal definition before any message"
    );
}

#[test]
fn signal_errors() {
    let err = |signal: &str| {
        let text = format!("BO_ 1 M: 8 X\n SG_ {signal}\n");
        let e = Dbc::parse(&text).err().unwrap();
        assert_eq!(e.line, 1);
        match e.error {
            LineError::Signal(s) => (s, e.message()),
            other => panic!("{other:?}"),
        }
    };
    let cases = [
        ("S 0|8@1+ (1,0)", SignalError::MissingSeparator, "missing ':' separator"),
        (" : 0|8@1+ (1,0)", SignalError::MissingName, "missing signal name"),
        ("S mx : 0|8@1+ (1,0)", SignalError::MuxIndicator, "invalid multiplex indicator"),
        ("S :", SignalError::MissingPlacement, "missing bit placement"),
        ("S : 0-8@1+ (1,0)", SignalError::Placement, "bad bit placement"),
        ("S : a|8@1+ (1,0)", SignalError::StartBit, "bad start bit"),
        ("S : 0|b@1+ (1,0)", SignalError::Length, "bad signal length"),
        ("S : 0|65@1+ (1,0)", SignalError::LengthRange(65), "signal length 65 out of range"),
        ("S : 0|0@1+ (1,0)", SignalError::LengthRange(0), "signal length 0 out of range"),
        ("S : 0|8@2+ (1,0)", SignalError::ByteOrder, "bad byte order"),
        ("S : 0|8@1* (1,0)", SignalError::Sign, "bad sign indicator"),
        ("S : 0|8@1+", SignalError::MissingScale, "missing factor/offset"),
        ("S : 0|8@1+ 1,0", SignalError::Scale, "bad factor/offset"),
        ("S : 0|8@1+ (one,0)", SignalError::Factor, "bad factor"),
        ("S : 0|8@1+ (1,zero)", SignalError::Offset, "bad offset"),
    ];
    for (text, error, words) in cases {
        let (found, message) = err(text);
        assert_eq!(found, error, "{text}");
        assert_eq!(
            message,
            format!("DBC line 2: malformed signal: {words}"),
            "{text}"
        );
    }
}

#[test]
fn scales_are_what_a_float_parser_takes() {
    let good = ["1", "-1.5", "+.5", "5.", "1e3", "1E-3", "inf", "-Infinity", "nan"];
    for text in good {
        assert!(text.parse::<f64>().is_ok());
        let dbc = Dbc::parse(&format!("BO_ 1 M: 8 X\n SG_ S : 0|8@1+ ({text},0) [0|0] \"\" X\n"));
        assert_eq!(dbc.unwrap().messages[0].signals[0].factor, text);
    }
    let bad = ["", ".", "1e", "e3", "--1", "0x10", "1_0", "infin"];
    for text in bad {
        assert!(text.parse::<f64>().is_err());
        let dbc = Dbc::parse(&format!("BO_ 1 M: 8 X\n SG_ S : 0|8@1+ ({text},0) [0|0] \"\" X\n"));
        assert!(dbc.is_err(), "{text}");
    }
}

#[test]
fn value_types_change_nothing_else() {
    let text = "BO_ 5 M: 8 X\n SG_ F : 0|32@1- (2,1) [0|0] \"V\" X\n";
    let plain = Dbc::parse(text).unwrap();
    let typed = Dbc::parse(&format!("{text}SIG_VALTYPE_ 5 F : 1;\n")).unwrap();
    let (a, b) = (&plain.messages[0].signals[0], &typed.messages[0].signals[0]);
    assert_eq!((&a.name, &a.factor, &a.unit), (&b.name, &b.factor, &b.unit));
    assert_eq!(a.value_type, ValueType::Integer);
    assert_eq!(b.value_type, ValueType::Float);
}
