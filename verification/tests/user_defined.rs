use aprs_parser::AprsData;
use aprs_parser::AprsPacket;
use aprs_parser::AprsUserDefined;
use aprs_parser::Callsign;

#[test]
fn decode_user_defined() {
    let data = b"W1ABC>APRS:{Qhello world";
    let packet = AprsPacket::decode_textual(data).unwrap();

    match &packet.data {
        AprsData::UserDefined(ud) => {
            assert_eq!(ud.user_id, b'Q');
            assert_eq!(ud.packet_type, b'h');
            assert_eq!(ud.data, b"ello world");
        }
        _ => panic!("Expected UserDefined"),
    }
}

#[test]
fn user_defined_encode_roundtrip() {
    let data = b"W1ABC>APRS:{Qhello world";
    let packet = AprsPacket::decode_textual(data).unwrap();
    let mut buf = vec![];
    packet.encode_textual(&mut buf).unwrap();
    assert_eq!(data[..], buf[..]);
}

#[test]
fn decode_minimal() {
    let ud = AprsUserDefined::decode(b"AB", Callsign::new_no_ssid("APRS"));
    assert_eq!(ud.user_id, b'A');
    assert_eq!(ud.packet_type, b'B');
    assert_eq!(ud.data, b"");
}

#[test]
fn decode_short_user_defined() {
    let ud = AprsUserDefined::decode(b"A", Callsign::new_no_ssid("APRS"));
    assert_eq!(ud.user_id, b'A');
    assert_eq!(ud.packet_type, 0);
    assert_eq!(ud.data, b"");
    let ud = AprsUserDefined::decode(b"", Callsign::new_no_ssid("APRS"));
    assert_eq!(ud.user_id, 0);
    assert_eq!(ud.packet_type, 0);
}

#[test]
fn user_defined_encode() {
    let ud = AprsUserDefined {
        to: Callsign::new_no_ssid("APRS"),
        user_id: b'X',
        packet_type: b'y',
        data: b"zz".to_vec(),
    };
    let mut buf = vec![];
    ud.encode(&mut buf).unwrap();
    assert_eq!(buf, b"{Xyzz");
    let back = AprsUserDefined::decode(&buf[1..], Callsign::new_no_ssid("APRS"));
    assert_eq!(back, ud);
}
