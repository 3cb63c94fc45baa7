use aprs_parser::AprsPositionlessWeather;
use aprs_parser::AprsWeather;
use aprs_parser::Callsign;
use aprs_parser::DecodeError;

#[test]
fn decode_basic_weather() {
    let data = b"220/004g005t077r000p000P000h50b09900";
    let wx = AprsWeather::decode(data).unwrap();
    assert_eq!(wx.wind_direction, Some(220));
    assert_eq!(wx.wind_speed, Some(4));
    assert_eq!(wx.wind_gust, Some(5));
    assert_eq!(wx.temperature, Some(77));
    assert_eq!(wx.rain_last_hour, Some(0));
    assert_eq!(wx.rain_last_24h, Some(0));
    assert_eq!(wx.rain_since_midnight, Some(0));
    assert_eq!(wx.humidity, Some(50));
    assert_eq!(wx.barometric_pressure, Some(9900));
}

#[test]
fn decode_weather_no_wind() {
    let data = b".../...g005t077";
    let wx = AprsWeather::decode(data).unwrap();
    assert_eq!(wx.wind_direction, None);
    assert_eq!(wx.wind_speed, None);
    assert_eq!(wx.wind_gust, Some(5));
    assert_eq!(wx.temperature, Some(77));
}

#[test]
fn decode_negative_temperature() {
    let data = b"000/000g000t-10";
    let wx = AprsWeather::decode(data).unwrap();
    assert_eq!(wx.temperature, Some(-10));
}

#[test]
fn decode_humidity_100() {
    let data = b"000/000h00";
    let wx = AprsWeather::decode(data).unwrap();
    assert_eq!(wx.humidity, Some(100));
}

#[test]
fn decode_luminosity_high() {
    let data = b"000/000L042";
    let wx = AprsWeather::decode(data).unwrap();
    assert_eq!(wx.luminosity, Some(1042));
}

#[test]
fn decode_luminosity_low() {
    let data = b"000/000l042";
    let wx = AprsWeather::decode(data).unwrap();
    assert_eq!(wx.luminosity, Some(42));
}

#[test]
fn weather_encode_decode_roundtrip() {
    let wx = AprsWeather {
        wind_direction: Some(220),
        wind_speed: Some(4),
        wind_gust: Some(5),
        temperature: Some(77),
        rain_last_hour: Some(0),
        rain_last_24h: Some(0),
        rain_since_midnight: Some(0),
        humidity: Some(50),
        barometric_pressure: Some(9900),
        luminosity: None,
        snow_last_24h: None,
        raw_rain_counter: None,
    };

    let mut buf = vec![];
    wx.encode(&mut buf).unwrap();
    let decoded = AprsWeather::decode(&buf).unwrap();
    assert_eq!(wx, decoded);
}

#[test]
fn decode_positionless_weather() {
    let data = b"10071820220/004g005t077";
    let to = Callsign::new_no_ssid("APRS");
    let pw = AprsPositionlessWeather::decode(data, to).unwrap();
    assert_eq!(pw.timestamp, b"10071820");
    assert_eq!(pw.weather.wind_direction, Some(220));
    assert_eq!(pw.weather.wind_speed, Some(4));
    assert_eq!(pw.weather.temperature, Some(77));
}

#[test]
fn encode_positionless_weather() {
    let pw = AprsPositionlessWeather {
        to: Callsign::new_no_ssid("APRS"),
        timestamp: b"10071820".to_vec(),
        weather: AprsWeather {
            wind_direction: Some(220),
            wind_speed: Some(4),
            wind_gust: Some(5),
            temperature: Some(77),
            ..AprsWeather::default()
        },
        comment: vec![],
    };

    let mut buf = vec![];
    pw.encode(&mut buf).unwrap();
    assert_eq!(buf, b"_10071820220/004g005t077");
}

#[test]
fn positionless_roundtrip() {
    let data = b"10071820220/004g005t077";
    let to = Callsign::new_no_ssid("APRS");
    let pw = AprsPositionlessWeather::decode(data, to.clone()).unwrap();
    let mut buf = vec![];
    pw.encode(&mut buf).unwrap();
    // strip the leading '_' for comparison with input
    assert_eq!(&buf[1..], data);
}

#[test]
fn weather_roundtrip_all_fields() {
    let wx = AprsWeather {
        wind_direction: Some(5),
        wind_speed: None,
        wind_gust: Some(999),
        temperature: Some(-5),
        rain_last_hour: Some(12),
        rain_last_24h: Some(3),
        rain_since_midnight: Some(7),
        humidity: Some(100),
        barometric_pressure: Some(10132),
        luminosity: Some(1999),
        snow_last_24h: Some(25),
        raw_rain_counter: Some(1),
    };
    let mut buf = vec![];
    wx.encode(&mut buf).unwrap();
    assert_eq!(buf, b"005/...g999t-05r012p003P007h00b10132L999s025#001");
    assert_eq!(AprsWeather::decode(&buf).unwrap(), wx);
}

#[test]
fn weather_errors() {
    assert_eq!(
        AprsWeather::decode(b"220/00").unwrap_err(),
        DecodeError::InvalidWeather(b"220/00".to_vec())
    );
    assert_eq!(
        AprsWeather::decode(b"220x004").unwrap_err(),
        DecodeError::InvalidWeather(b"220x004".to_vec())
    );
    let to = Callsign::new_no_ssid("APRS");
    assert_eq!(
        AprsPositionlessWeather::decode(b"1007", to.clone()).unwrap_err(),
        DecodeError::InvalidWeather(b"1007".to_vec())
    );
    assert_eq!(
        AprsPositionlessWeather::decode(b"10071820220", to).unwrap_err(),
        DecodeError::InvalidWeather(b"220".to_vec())
    );
}

#[test]
fn weather_field_parsing() {
    // spaces are trimmed, a sign is read, an unknown letter stops reading
    let wx = AprsWeather::decode(b" 5 /+04t 7 x g001").unwrap();
    assert_eq!(wx.wind_direction, Some(5));
    assert_eq!(wx.wind_speed, Some(4));
    assert_eq!(wx.temperature, Some(7));
    assert_eq!(wx.wind_gust, None);
    // a field cut short stops reading; a bad number reads as nothing
    let wx = AprsWeather::decode(b"1x0/000g12").unwrap();
    assert_eq!(wx.wind_direction, None);
    assert_eq!(wx.wind_gust, None);
    // snow is kept in tenths of an inch
    let wx = AprsWeather::decode(b"000/000s015").unwrap();
    assert_eq!(wx.snow_last_24h, Some(15));
    // a wide no-break space counts as white space when trimming
    let wx = AprsWeather::decode("000/000b\u{2003}99".as_bytes()).unwrap();
    assert_eq!(wx.barometric_pressure, Some(99));
}

#[test]
fn weather_reencode_keeps_values() {
    // fields out of order, with signs and spaces: the text changes, the values do not
    for data in [
        &b"+12/ 7 h00t-99b+1234L999r 1 g00x"[..],
        &b".../...#005s010l042P001p002"[..],
        &b"360/010t999h01"[..],
    ] {
        let wx = AprsWeather::decode(data).unwrap();
        let mut buf = vec![];
        wx.encode(&mut buf).unwrap();
        assert_eq!(AprsWeather::decode(&buf).unwrap(), wx);
    }
    let wx = AprsWeather::decode(b"+12/ 7 h00t-99b+1234").unwrap();
    let mut buf = vec![];
    wx.encode(&mut buf).unwrap();
    assert_eq!(buf, b"012/007t-99h00b01234");
}

#[test]
fn positionless_comment() {
    let to = Callsign::new_no_ssid("APRS");
    let pw = AprsPositionlessWeather::decode(b"10071820220/004g005t077Hello", to.clone()).unwrap();
    assert_eq!(pw.timestamp, b"10071820");
    assert_eq!(pw.weather.temperature, Some(77));
    assert_eq!(pw.comment, b"Hello");
    // a field cut short ends the weather data and starts the comment
    let pw = AprsPositionlessWeather::decode(b"10071820220/004g05", to.clone()).unwrap();
    assert_eq!(pw.weather.wind_gust, None);
    assert_eq!(pw.comment, b"g05");
    let mut buf = vec![];
    pw.encode(&mut buf).unwrap();
    assert_eq!(buf, b"_10071820220/004g05");
    let back = AprsPositionlessWeather::decode(&buf[1..], to).unwrap();
    assert_eq!(back, pw);
}
