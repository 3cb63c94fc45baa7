use aprs_parser::AprsData;
use aprs_parser::AprsPacket;
use aprs_parser::Callsign;
use aprs_parser::UNITS_PER_DEGREE;

#[test]
fn decode_third_party() {
    let data = b"W0RO-11>APRX29,TCPIP*,qAC,T2MCI:}WB0VGI-7>APOT30,W0RO-11*,WIDE2-1:!4228.35N/09101.45W_PHG2360";
    let packet = AprsPacket::decode_textual(data).unwrap();

    assert_eq!(packet.from, Callsign::new_with_ssid("W0RO", "11"));

    match &packet.data {
        AprsData::ThirdParty(tp) => {
            assert_eq!(tp.inner.from, Callsign::new_with_ssid("WB0VGI", "7"));
            match &tp.inner.data {
                AprsData::Position(pos) => {
                    let lat = pos.position.latitude.units() as f64 / UNITS_PER_DEGREE as f64;
                    assert!((lat - 42.4725).abs() <= 0.01);
                }
                _ => panic!("Expected Position in inner packet"),
            }
        }
        _ => panic!("Expected ThirdParty"),
    }
}

#[test]
fn decode_third_party_with_message() {
    let data = b"RELAY>APRS,TCPIP:}W1ABC>APRS,WIDE1-1::DEST     :Hello from third party{123";
    let packet = AprsPacket::decode_textual(data).unwrap();

    match &packet.data {
        AprsData::ThirdParty(tp) => {
            assert_eq!(tp.inner.from, Callsign::new_no_ssid("W1ABC"));
            match &tp.inner.data {
                AprsData::Message(msg) => {
                    assert_eq!(msg.addressee, b"DEST");
                    assert_eq!(msg.text, b"Hello from third party");
                    assert_eq!(msg.id, Some(b"123".to_vec()));
                }
                _ => panic!("Expected Message in inner packet"),
            }
        }
        _ => panic!("Expected ThirdParty"),
    }
}

#[test]
fn third_party_encode_roundtrip() {
    let data = b"RELAY>APRS,TCPIP:}W1ABC>APRS,WIDE1-1::DEST     :Hello from third party{123";
    let packet = AprsPacket::decode_textual(data).unwrap();
    let mut buf = vec![];
    packet.encode_textual(&mut buf).unwrap();
    assert_eq!(data[..], buf[..]);
}

#[test]
fn third_party_inner_error() {
    // the inner packet has no header delimiter
    let data = b"RELAY>APRS:}garbage";
    let err = AprsPacket::decode_textual(data).unwrap_err();
    assert_eq!(err, aprs_parser::DecodeError::InvalidPacket(b"garbage".to_vec()));
}

#[test]
fn third_party_position_exact() {
    let data = b"W0RO-11>APRX29,TCPIP*,qAC,T2MCI:}WB0VGI-7>APOT30,W0RO-11*,WIDE2-1:!4228.35N/09101.45W_PHG2360";
    let packet = AprsPacket::decode_textual(data).unwrap();
    assert_eq!(packet.via.len(), 3);
    match &packet.data {
        AprsData::ThirdParty(tp) => match &tp.inner.data {
            AprsData::Position(pos) => {
                // 42 degrees 28.35 minutes north, 91 degrees 1.45 minutes west
                assert_eq!(pos.position.latitude.units(), (42 * 6000 + 2835) * 1_904_630);
                assert_eq!(pos.position.longitude.units(), -(91 * 6000 + 145) * 1_904_630);
                assert_eq!(pos.position.symbol_table, '/');
                assert_eq!(pos.position.symbol_code, '_');
                assert_eq!(pos.comment, b"PHG2360");
            }
            _ => panic!("Expected Position in inner packet"),
        },
        _ => panic!("Expected ThirdParty"),
    }
}

#[test]
fn third_party_clone() {
    let data = b"RELAY>APRS,TCPIP:}W1ABC>APRS,WIDE1-1::DEST     :Hello from third party{123";
    let packet = AprsPacket::decode_textual(data).unwrap();
    let copy = packet.clone();
    assert_eq!(copy, packet);
    match &packet.data {
        AprsData::ThirdParty(tp) => assert_eq!(tp.clone(), *tp),
        _ => panic!("Expected ThirdParty"),
    }
}
