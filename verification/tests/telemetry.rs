use aprs_parser::AprsTelemetry;
use aprs_parser::Callsign;
use aprs_parser::DecodeError;

fn analog(text: &[u8]) -> Option<f64> {
    std::str::from_utf8(text).ok().and_then(|s| s.trim().parse::<f64>().ok())
}

#[test]
fn decode_basic_telemetry() {
    let data = b"#001,100,200,300,400,500,10101010";
    let to = Callsign::new_no_ssid("APRS");
    let t = AprsTelemetry::decode(data, to).unwrap();
    assert_eq!(t.sequence, b"001");
    assert_eq!(t.analog_values.len(), 5);
    assert_eq!(analog(&t.analog_values[0]), Some(100.0));
    assert_eq!(analog(&t.analog_values[1]), Some(200.0));
    assert_eq!(analog(&t.analog_values[2]), Some(300.0));
    assert_eq!(analog(&t.analog_values[3]), Some(400.0));
    assert_eq!(analog(&t.analog_values[4]), Some(500.0));
    assert_eq!(t.digital_bits, Some(0b10101010));
}

#[test]
fn decode_telemetry_with_comment() {
    let data = b"#001,100,200,300,400,500,11110000,Hello World";
    let to = Callsign::new_no_ssid("APRS");
    let t = AprsTelemetry::decode(data, to).unwrap();
    assert_eq!(t.sequence, b"001");
    assert_eq!(t.digital_bits, Some(0b11110000));
    assert_eq!(t.comment, b"Hello World");
}

#[test]
fn telemetry_encode_decode_roundtrip() {
    let t = AprsTelemetry {
        to: Callsign::new_no_ssid("APRS"),
        sequence: b"001".to_vec(),
        analog_values: vec![
            b"100".to_vec(),
            b"200".to_vec(),
            b"300".to_vec(),
            b"400".to_vec(),
            b"500".to_vec(),
        ],
        digital_bits: Some(0b10101010),
        comment: b"Test".to_vec(),
    };

    let mut buf = vec![];
    t.encode(&mut buf).unwrap();
    assert_eq!(buf, b"T#001,100,200,300,400,500,10101010,Test");
}

#[test]
fn telemetry_comment_keeps_commas() {
    let data = b"#7,1,2,3,4,5,00000001,a,b,,c";
    let t = AprsTelemetry::decode(data, Callsign::new_no_ssid("APRS")).unwrap();
    assert_eq!(t.digital_bits, Some(1));
    assert_eq!(t.comment, b"a,b,,c");
    let mut buf = vec![];
    t.encode(&mut buf).unwrap();
    assert_eq!(&buf[1..], &data[..]);
    let back = AprsTelemetry::decode(&buf[1..], Callsign::new_no_ssid("APRS")).unwrap();
    assert_eq!(back, t);
}

#[test]
fn telemetry_short_and_bad_bits() {
    let t = AprsTelemetry::decode(b"#12,5,x", Callsign::new_no_ssid("APRS")).unwrap();
    assert_eq!(t.sequence, b"12");
    assert_eq!(t.analog_values, vec![b"5".to_vec(), b"x".to_vec()]);
    assert_eq!(analog(&t.analog_values[1]), None);
    assert_eq!(t.digital_bits, None);
    let t = AprsTelemetry::decode(b"#1,,,,,,0101010", Callsign::new_no_ssid("APRS")).unwrap();
    assert_eq!(t.digital_bits, None);
    assert_eq!(
        AprsTelemetry::decode(b"#", Callsign::new_no_ssid("APRS")).unwrap_err(),
        DecodeError::InvalidTelemetry(b"#".to_vec())
    );
    assert_eq!(
        AprsTelemetry::decode(b"001,1", Callsign::new_no_ssid("APRS")).unwrap_err(),
        DecodeError::InvalidTelemetry(b"001,1".to_vec())
    );
}

#[test]
fn telemetry_bits_roundtrip_all() {
    for bits in 0..=255u8 {
        let t = AprsTelemetry {
            to: Callsign::new_no_ssid("APRS"),
            sequence: b"9".to_vec(),
            analog_values: vec![b"1".to_vec(), b"2".to_vec(), b"3".to_vec(), b"4".to_vec(), b"5".to_vec()],
            digital_bits: Some(bits),
            comment: Vec::new(),
        };
        let mut buf = vec![];
        t.encode(&mut buf).unwrap();
        let back = AprsTelemetry::decode(&buf[1..], Callsign::new_no_ssid("APRS")).unwrap();
        assert_eq!(back, t);
    }
}

#[test]
fn telemetry_fewer_analog_roundtrip() {
    let t = AprsTelemetry {
        to: Callsign::new_no_ssid("APRS"),
        sequence: b"042".to_vec(),
        analog_values: vec![b"1.5".to_vec(), b"".to_vec()],
        digital_bits: None,
        comment: Vec::new(),
    };
    let mut buf = vec![];
    t.encode(&mut buf).unwrap();
    assert_eq!(buf, b"T#042,1.5,");
    let back = AprsTelemetry::decode(&buf[1..], Callsign::new_no_ssid("APRS")).unwrap();
    assert_eq!(back, t);
}
