use aprs_parser::AprsData;
use aprs_parser::AprsMessage;
use aprs_parser::AprsPacket;
use aprs_parser::Callsign;
use aprs_parser::DecodeError;
use aprs_parser::QConstruct;
use aprs_parser::Via;

fn reencode(data: &[u8]) -> Vec<u8> {
    let packet = AprsPacket::decode_textual(data).unwrap();
    let mut buf = Vec::new();
    packet.encode_textual(&mut buf).unwrap();
    buf
}

#[test]
fn decode_header_and_path() {
    let p = AprsPacket::decode_textual(b"N0CALL-9>APRS,WIDE1-1*,qAR,IGATE:>status").unwrap();
    assert_eq!(p.from, Callsign::new_with_ssid("N0CALL", "9"));
    assert_eq!(p.to(), &Callsign::new_no_ssid("APRS"));
    assert_eq!(
        p.via,
        vec![
            Via::Callsign(Callsign::new_with_ssid("WIDE1", "1"), true),
            Via::QConstruct(QConstruct::AR),
            Via::Callsign(Callsign::new_no_ssid("IGATE"), false),
        ]
    );
    match &p.data {
        AprsData::Unknown(u) => assert_eq!(u.data, b">status"),
        _ => panic!("expected an unknown body"),
    }
}

#[test]
fn packet_errors() {
    assert_eq!(
        AprsPacket::decode_textual(b"N0CALL>APRS"),
        Err(DecodeError::InvalidPacket(b"N0CALL>APRS".to_vec()))
    );
    assert_eq!(
        AprsPacket::decode_textual(b"N0CALL:hello"),
        Err(DecodeError::InvalidPacket(b"N0CALL:hello".to_vec()))
    );
    assert_eq!(
        AprsPacket::decode_textual(b"-1>APRS:hello"),
        Err(DecodeError::InvalidCallsign(b"-1".to_vec()))
    );
    assert_eq!(
        AprsPacket::decode_textual(b"N0CALL>APRS,:hello"),
        Err(DecodeError::InvalidVia(b"".to_vec()))
    );
    assert_eq!(
        AprsPacket::decode_textual(b"N0CALL>APRS::SHORT"),
        Err(DecodeError::InvalidMessage(b"SHORT".to_vec()))
    );
    assert_eq!(
        AprsPacket::decode_textual(b"N0CALL>APRS:T001"),
        Err(DecodeError::InvalidTelemetry(b"001".to_vec()))
    );
}

#[test]
fn decode_message() {
    let p = AprsPacket::decode_textual(b"N0CALL>APRS::KB1ABC-2 :Hi {there{42").unwrap();
    match &p.data {
        AprsData::Message(m) => {
            assert_eq!(m.addressee, b"KB1ABC-2");
            assert_eq!(m.text, b"Hi {there");
            assert_eq!(m.id, Some(b"42".to_vec()));
        }
        _ => panic!("expected a message"),
    }
}

#[test]
fn message_roundtrip() {
    let m = AprsMessage {
        to: Callsign::new_no_ssid("APRS"),
        addressee: b"DEST".to_vec(),
        text: b"Hello".to_vec(),
        id: Some(b"7".to_vec()),
    };
    let mut buf = Vec::new();
    m.encode(&mut buf).unwrap();
    assert_eq!(buf, b":DEST     :Hello{7");
    let back = AprsMessage::decode(&buf[1..], Callsign::new_no_ssid("APRS")).unwrap();
    assert_eq!(back, m);
}

#[test]
fn packet_reencode() {
    for data in [
        &b"N0CALL-9>APRS,WIDE1-1*,qAR,IGATE:>status"[..],
        &b"N0CALL>APRS::KB1ABC-2 :Hi {there{42"[..],
        &b"N0CALL>APRS:[IO91SX]grid"[..],
        &b"N0CALL>APRS:$GPGGA,1"[..],
        &b"N0CALL>APRS:{Qhello"[..],
        &b"N0CALL>APRS:"[..],
        &b"N0CALL>APRS:T#001,100,200,300,400,500,10101010,Test,more"[..],
        &b"N0CALL>APRS:T#7,1,,3"[..],
        &b"N0CALL>APRS:!4903.50S/07201.75E-/A=000100 test"[..],
        &b"N0CALL>APRS:=4903.  N/07201.  W-"[..],
        &b"N0CALL>APRS:!/5L!!<*e7>7P[comment"[..],
        &b"N0CALL>APRS:=/5L!!<*e7> sT"[..],
    ] {
        assert_eq!(reencode(data), data.to_vec());
    }
}

#[test]
fn decode_position_report() {
    let p = AprsPacket::decode_textual(b"N0CALL>APRS:=4903.50N/07201.75W-Comment").unwrap();
    match &p.data {
        AprsData::Position(pos) => {
            assert!(pos.messaging_supported);
            assert_eq!(pos.comment, b"Comment");
            assert_eq!(pos.position.symbol_code, '-');
        }
        _ => panic!("expected a position"),
    }
    assert_eq!(reencode(b"N0CALL>APRS:=4903.50N/07201.75W-Comment"), b"N0CALL>APRS:=4903.50N/07201.75W-Comment");
}

#[test]
fn callsign_forms() {
    assert_eq!(Callsign::decode(b"W0RO-11"), Some(Callsign::new_with_ssid("W0RO", "11")));
    assert_eq!(Callsign::decode(b"W0RO"), Some(Callsign::new_no_ssid("W0RO")));
    assert_eq!(Callsign::decode(b"W0RO-"), None);
    assert_eq!(Callsign::decode(b""), None);
    let mut buf = Vec::new();
    Callsign::new_with_ssid("W0RO", "11").encode(&mut buf);
    assert_eq!(buf, b"W0RO-11");
}

#[test]
fn q_construct_letters() {
    assert_eq!(QConstruct::from_letter(b'C'), Some(QConstruct::AC));
    assert_eq!(QConstruct::from_letter(b'q'), None);
    assert_eq!(QConstruct::AI.letter(), b'I');
}

#[test]
fn packet_encode_decode_roundtrip() {
    let to = Callsign::new_no_ssid("APRS");
    let inner = AprsPacket {
        from: Callsign::new_no_ssid("W1ABC"),
        via: vec![Via::Callsign(Callsign::new_with_ssid("WIDE1", "1"), false)],
        data: AprsData::Message(AprsMessage {
            to: Callsign::new_no_ssid("APRS"),
            addressee: b"DEST".to_vec(),
            text: b"Hello".to_vec(),
            id: Some(b"12".to_vec()),
        }),
    };
    let p = AprsPacket {
        from: Callsign::new_with_ssid("RELAY", "3"),
        via: vec![
            Via::QConstruct(QConstruct::AC),
            Via::Callsign(Callsign::new_no_ssid("T2TEST"), true),
        ],
        data: AprsData::ThirdParty(aprs_parser::AprsThirdParty {
            to,
            inner: Box::new(inner),
        }),
    };
    let mut buf = Vec::new();
    p.encode_textual(&mut buf).unwrap();
    assert_eq!(
        buf,
        b"RELAY-3>APRS,qAC,T2TEST*:}W1ABC>APRS,WIDE1-1::DEST     :Hello{12".to_vec()
    );
    let back = AprsPacket::decode_textual(&buf).unwrap();
    assert_eq!(back, p);
}

#[test]
fn position_report_roundtrip() {
    let (_, position) = aprs_parser::Position::decode(b"4903.50N/07201.75W-").unwrap();
    let p = AprsPacket {
        from: Callsign::new_no_ssid("N0CALL"),
        via: vec![],
        data: AprsData::Position(aprs_parser::AprsPosition {
            to: Callsign::new_no_ssid("APRS"),
            messaging_supported: false,
            position,
            comment: b"/A=000050 hi".to_vec(),
        }),
    };
    let mut buf = Vec::new();
    p.encode_textual(&mut buf).unwrap();
    assert_eq!(buf, b"N0CALL>APRS:!4903.50N/07201.75W-/A=000050 hi".to_vec());
    let back = AprsPacket::decode_textual(&buf).unwrap();
    match &back.data {
        AprsData::Position(pos) => {
            assert_eq!(pos.position.altitude, Some(aprs_parser::AprsAltitude::Feet(50)));
            assert_eq!(pos.position.latitude, position.latitude);
            assert_eq!(pos.comment, b"/A=000050 hi");
        }
        _ => panic!("expected a position"),
    }
}

#[test]
fn positionless_weather_packet_comment() {
    let p = AprsPacket::decode_textual(b"N0CALL>APRS:_10071820220/004g005t077 wx station").unwrap();
    match &p.data {
        AprsData::PositionlessWeather(w) => {
            assert_eq!(w.comment, b" wx station");
            assert_eq!(w.weather.wind_gust, Some(5));
        }
        _ => panic!("expected a positionless weather report"),
    }
    assert_eq!(
        reencode(b"N0CALL>APRS:_10071820220/004g005t077 wx station"),
        b"N0CALL>APRS:_10071820220/004g005t077 wx station".to_vec()
    );
}
