//! Weather report parsing and encoding for APRS.
//!
//! The weather data is `DDD/SSS` wind direction and speed, then fields of a
//! letter and a fixed number of characters. Positionless weather reports use
//! the `_` data type identifier: `_MMDDHHMM`, the weather data, then an
//! optional comment. A position report with the weather symbol `/_` carries
//! the same weather data at the start of its comment, where
//! `AprsWeather::decode` reads it.

use vstd::prelude::*;
use vstd::utf8::valid_utf8;
use crate::callsign::Callsign;
use crate::error::{DecodeError, DecodeErrorView, EncodeError};
use crate::text::{
    is_digit, leading_ws_len, parse_unsigned, trailing_ws_len, trim_end, trim_start, lemma_zero_pad, lemma_dec_len, lemma_ascii_valid, lemma_trim_noop,
    parse_signed, dec, copy_range, parse_i16, parse_i16_in, parse_u16, parse_u32, parse_unsigned_in, push_all,
    push_zero_padded, push_zero_padded_signed, trim, trim_in, utf8_valid, zero_pad,
    zero_pad_signed, lemma_trim_len, lemma_parse_unsigned_bound, lemma_parse_signed_bound,
};

verus! {

/// Weather data fields common to both position-based and positionless weather reports.
#[derive(PartialEq, Eq, Debug, Clone, Copy, Structural)]
pub struct AprsWeather {
    pub wind_direction: Option<u16>,
    pub wind_speed: Option<u16>,
    pub wind_gust: Option<u16>,
    pub temperature: Option<i16>,
    pub rain_last_hour: Option<u16>,
    pub rain_last_24h: Option<u16>,
    pub rain_since_midnight: Option<u16>,
    pub humidity: Option<u8>,
    pub barometric_pressure: Option<u32>,
    pub luminosity: Option<u16>,
    /// Snow in the last 24 hours, in tenths of an inch.
    pub snow_last_24h: Option<u16>,
    pub raw_rain_counter: Option<u16>,
}

impl Default for AprsWeather {
    fn default() -> (r: AprsWeather)
        ensures
            r == AprsWeather::empty(),
    {
        AprsWeather {
            wind_direction: None,
            wind_speed: None,
            wind_gust: None,
            temperature: None,
            rain_last_hour: None,
            rain_last_24h: None,
            rain_since_midnight: None,
            humidity: None,
            barometric_pressure: None,
            luminosity: None,
            snow_last_24h: None,
            raw_rain_counter: None,
        }
    }
}

/// True when every byte of `s` is `.` or a space (so also when `s` is empty).
pub open spec fn blank_field(s: Seq<u8>) -> bool {
    forall|i: int| 0 <= i < s.len() ==> #[trigger] s[i] == 0x2E || s[i] == 0x20
}

/// A numeric field read as `u16`: `None` when it is all dots or spaces, is
/// not UTF-8, or its trimmed text does not parse.
pub open spec fn spec_u16_field(s: Seq<u8>) -> Option<u16> {
    if blank_field(s) || !valid_utf8(s) {
        None
    } else {
        parse_u16(trim(s))
    }
}

/// A numeric field read as `i16`, as `spec_u16_field` does for `u16`.
pub open spec fn spec_i16_field(s: Seq<u8>) -> Option<i16> {
    if blank_field(s) || !valid_utf8(s) {
        None
    } else {
        parse_i16(trim(s))
    }
}

/// The barometric pressure field: trimmed UTF-8 text parsed as `u32`.
pub open spec fn spec_u32_text(s: Seq<u8>) -> Option<u32> {
    if !valid_utf8(s) {
        None
    } else {
        parse_u32(trim(s))
    }
}

/// The number of characters that follow the field letter `key`, or 0 when
/// `key` starts no known field.
pub open spec fn field_width(key: u8) -> int {
    if key == 0x67 || key == 0x74 || key == 0x72 || key == 0x70 || key == 0x50 || key == 0x4C
        || key == 0x6C || key == 0x73 || key == 0x23 {
        3
    } else if key == 0x68 {
        2
    } else if key == 0x62 {
        5
    } else {
        0
    }
}

/// `wx` with the field `key` set from its text `s`.
pub open spec fn apply_field(wx: AprsWeather, key: u8, s: Seq<u8>) -> AprsWeather {
    if key == 0x67 {
        AprsWeather { wind_gust: spec_u16_field(s), ..wx }
    } else if key == 0x74 {
        AprsWeather { temperature: spec_i16_field(s), ..wx }
    } else if key == 0x72 {
        AprsWeather { rain_last_hour: spec_u16_field(s), ..wx }
    } else if key == 0x70 {
        AprsWeather { rain_last_24h: spec_u16_field(s), ..wx }
    } else if key == 0x50 {
        AprsWeather { rain_since_midnight: spec_u16_field(s), ..wx }
    } else if key == 0x68 {
        AprsWeather {
            humidity: match spec_u16_field(s) {
                Some(v) => Some(
                    if v == 0 {
                        100u8
                    } else {
                        v as u8
                    },
                ),
                None => None,
            },
            ..wx
        }
    } else if key == 0x62 {
        AprsWeather { barometric_pressure: spec_u32_text(s), ..wx }
    } else if key == 0x4C {
        AprsWeather {
            luminosity: match spec_u16_field(s) {
                Some(v) => Some((v + 1000) as u16),
                None => None,
            },
            ..wx
        }
    } else if key == 0x6C {
        AprsWeather { luminosity: spec_u16_field(s), ..wx }
    } else if key == 0x73 {
        match spec_u16_field(s) {
            Some(v) => AprsWeather { snow_last_24h: Some(v), ..wx },
            None => wx,
        }
    } else {
        AprsWeather { raw_rain_counter: spec_u16_field(s), ..wx }
    }
}

/// `wx` updated by the lettered fields of `b` from index `i` on. Reading
/// stops at the end, at an unknown letter, or at a field cut short.
pub open spec fn spec_weather_fields(b: Seq<u8>, i: int, wx: AprsWeather) -> AprsWeather
    decreases b.len() - i,
{
    if i < 0 || i >= b.len() {
        wx
    } else {
        let w = field_width(b[i]);
        if w == 0 || i + 1 + w > b.len() {
            wx
        } else {
            spec_weather_fields(b, i + 1 + w, apply_field(wx, b[i], b.subrange(i + 1, i + 1 + w)))
        }
    }
}

/// Where reading the lettered fields of `b` from index `i` on stops: at the
/// end, at an unknown letter, or at a field cut short.
pub open spec fn fields_end(b: Seq<u8>, i: int) -> int
    decreases b.len() - i,
{
    if i < 0 || i >= b.len() {
        i
    } else {
        let w = field_width(b[i]);
        if w == 0 || i + 1 + w > b.len() {
            i
        } else {
            fields_end(b, i + 1 + w)
        }
    }
}

/// True when `c` starts no lettered field: it is empty, starts with an
/// unknown letter, or is too short for the field its letter starts.
pub open spec fn ends_fields(c: Seq<u8>) -> bool {
    c.len() == 0 || field_width(c[0]) == 0 || c.len() < 1 + field_width(c[0])
}

/// What `b` decodes to: `DDD/SSS` and the lettered fields that follow.
pub open spec fn spec_weather_decode(b: Seq<u8>) -> Result<AprsWeather, DecodeErrorView> {
    if b.len() < 7 || b[3] != 0x2F {
        Err(DecodeErrorView::InvalidWeather(b))
    } else {
        Ok(
            spec_weather_fields(
                b,
                7,
                AprsWeather {
                    wind_direction: spec_u16_field(b.subrange(0, 3)),
                    wind_speed: spec_u16_field(b.subrange(4, 7)),
                    ..AprsWeather::empty()
                },
            ),
        )
    }
}

/// `{:03}` of a present value, `...` of a missing one.
pub open spec fn opt3(o: Option<u16>) -> Seq<u8> {
    match o {
        Some(v) => zero_pad(v as nat, 3),
        None => seq![0x2Eu8, 0x2Eu8, 0x2Eu8],
    }
}

/// The letter `tag` and `{:03}` of a present value; nothing for a missing one.
pub open spec fn tagged3(tag: u8, o: Option<u16>) -> Seq<u8> {
    match o {
        Some(v) => seq![tag] + zero_pad(v as nat, 3),
        None => Seq::empty(),
    }
}

impl AprsWeather {
    /// The weather with no field set.
    pub open spec fn empty() -> AprsWeather {
        AprsWeather {
            wind_direction: None,
            wind_speed: None,
            wind_gust: None,
            temperature: None,
            rain_last_hour: None,
            rain_last_24h: None,
            rain_since_midnight: None,
            humidity: None,
            barometric_pressure: None,
            luminosity: None,
            snow_last_24h: None,
            raw_rain_counter: None,
        }
    }

    /// The encoding: `DDD/SSS`, then each present field with its letter, in
    /// the order g t r p P h b L/l s #.
    pub open spec fn spec_encode(self) -> Seq<u8> {
        self.spec_encode_head() + self.spec_encode_tail()
    }

    /// Wind direction and speed, gust, temperature and the rain in the last
    /// hour.
    pub open spec fn spec_encode_head(self) -> Seq<u8> {
        opt3(self.wind_direction) + seq![0x2Fu8] + opt3(self.wind_speed) + tagged3(
            0x67,
            self.wind_gust,
        ) + temperature_text(self.temperature) + tagged3(0x72, self.rain_last_hour)
    }

    /// The remaining fields.
    pub open spec fn spec_encode_tail(self) -> Seq<u8> {
        tagged3(0x70, self.rain_last_24h) + tagged3(0x50, self.rain_since_midnight)
            + humidity_text(self.humidity) + pressure_text(self.barometric_pressure)
            + luminosity_text(self.luminosity) + tagged3(0x73, self.snow_last_24h) + tagged3(
            0x23,
            self.raw_rain_counter,
        )
    }
}

/// `t` and the temperature with `{:03}`.
pub open spec fn temperature_text(o: Option<i16>) -> Seq<u8> {
    match o {
        Some(t) => seq![0x74u8] + zero_pad_signed(t as int, 3),
        None => Seq::empty(),
    }
}

/// `h` and the humidity with `{:02}`, where 100% is written `00`.
pub open spec fn humidity_text(o: Option<u8>) -> Seq<u8> {
    match o {
        Some(h) => seq![0x68u8] + zero_pad(
            if h == 100 {
                0nat
            } else {
                h as nat
            },
            2,
        ),
        None => Seq::empty(),
    }
}

/// `b` and the pressure with `{:05}`.
pub open spec fn pressure_text(o: Option<u32>) -> Seq<u8> {
    match o {
        Some(p) => seq![0x62u8] + zero_pad(p as nat, 5),
        None => Seq::empty(),
    }
}

/// `L` and the luminosity less 1000 from 1000 up, `l` and the luminosity below.
pub open spec fn luminosity_text(o: Option<u16>) -> Seq<u8> {
    match o {
        Some(l) => if l >= 1000 {
            seq![0x4Cu8] + zero_pad((l - 1000) as nat, 3)
        } else {
            seq![0x6Cu8] + zero_pad(l as nat, 3)
        },
        None => Seq::empty(),
    }
}

/// The value of the numeric field `b[start..end]` as `u16`.
pub fn parse_u16_field(b: &[u8], start: usize, end: usize) -> (r: Option<u16>)
    requires
        start <= end <= b.len(),
    ensures
        r == spec_u16_field(b@.subrange(start as int, end as int)),
{
    if is_blank_field(b, start, end) {
        return None;
    }
    let f = copy_range(b, start, end);
    if !utf8_valid(f.as_slice()) {
        return None;
    }
    let (a, z) = trim_in(b, start, end);
    match parse_unsigned_in(b, a, z, 0xFFFF) {
        Some(v) => Some(v as u16),
        None => None,
    }
}

/// The value of the numeric field `b[start..end]` as `i16`.
pub fn parse_i16_field(b: &[u8], start: usize, end: usize) -> (r: Option<i16>)
    requires
        start <= end <= b.len(),
    ensures
        r == spec_i16_field(b@.subrange(start as int, end as int)),
{
    if is_blank_field(b, start, end) {
        return None;
    }
    let f = copy_range(b, start, end);
    if !utf8_valid(f.as_slice()) {
        return None;
    }
    let (a, z) = trim_in(b, start, end);
    parse_i16_in(b, a, z)
}

fn parse_u32_text(b: &[u8], start: usize, end: usize) -> (r: Option<u32>)
    requires
        start <= end <= b.len(),
    ensures
        r == spec_u32_text(b@.subrange(start as int, end as int)),
{
    let f = copy_range(b, start, end);
    if !utf8_valid(f.as_slice()) {
        return None;
    }
    let (a, z) = trim_in(b, start, end);
    match parse_unsigned_in(b, a, z, 0xFFFF_FFFF) {
        Some(v) => Some(v as u32),
        None => None,
    }
}

fn is_blank_field(b: &[u8], start: usize, end: usize) -> (r: bool)
    requires
        start <= end <= b.len(),
    ensures
        r == blank_field(b@.subrange(start as int, end as int)),
{
    let ghost s = b@.subrange(start as int, end as int);
    let mut i: usize = start;
    while i < end
        invariant
            start <= i <= end <= b.len(),
            s == b@.subrange(start as int, end as int),
            forall|j: int| 0 <= j < i - start ==> #[trigger] s[j] == 0x2E || s[j] == 0x20,
        decreases end - i,
    {
        if b[i] != 0x2E && b[i] != 0x20 {
            assert(!(s[i - start] == 0x2E || s[i - start] == 0x20));
            return false;
        }
        i = i + 1;
    }
    true
}

impl AprsWeather {
    /// `self` with the field `key` set from the text `b[start..end]`.
    fn apply(&mut self, key: u8, b: &[u8], start: usize, end: usize)
        requires
            start <= end <= b.len(),
            end - start == field_width(key),
            field_width(key) != 0,
        ensures
            *final(self) == apply_field(*old(self), key, b@.subrange(start as int, end as int)),
    {
        let ghost s = b@.subrange(start as int, end as int);
        if key == 0x67 {
            self.wind_gust = parse_u16_field(b, start, end);
        } else if key == 0x74 {
            self.temperature = parse_i16_field(b, start, end);
        } else if key == 0x72 {
            self.rain_last_hour = parse_u16_field(b, start, end);
        } else if key == 0x70 {
            self.rain_last_24h = parse_u16_field(b, start, end);
        } else if key == 0x50 {
            self.rain_since_midnight = parse_u16_field(b, start, end);
        } else if key == 0x68 {
            let val = parse_u16_field(b, start, end);
            self.humidity = match val {
                Some(v) => Some(
                    if v == 0 {
                        100
                    } else {
                        v as u8
                    },
                ),
                None => None,
            };
        } else if key == 0x62 {
            self.barometric_pressure = parse_u32_text(b, start, end);
        } else if key == 0x4C {
            let val = parse_u16_field(b, start, end);
            self.luminosity = match val {
                Some(v) => {
                    proof {
                        lemma_u16_field_bound(s);
                    }
                    Some(v + 1000)
                },
                None => None,
            };
        } else if key == 0x6C {
            self.luminosity = parse_u16_field(b, start, end);
        } else if key == 0x73 {
            if let Some(v) = parse_u16_field(b, start, end) {
                self.snow_last_24h = Some(v);
            }
        } else {
            self.raw_rain_counter = parse_u16_field(b, start, end);
        }
    }

    /// Decode weather data from the byte slice.
    /// Expected format: `DDD/SSS` wind direction/speed prefix, then lettered fields.
    /// Example: `220/004g005t077r000p000P000h50b09900`
    pub fn decode(b: &[u8]) -> (r: Result<AprsWeather, DecodeError>)
        ensures
            match r {
                Ok(w) => spec_weather_decode(b@) == Ok::<AprsWeather, DecodeErrorView>(w),
                Err(e) => spec_weather_decode(b@) == Err::<AprsWeather, DecodeErrorView>(e@),
            },
    {
        match Self::decode_fields(b) {
            Ok((w, _)) => Ok(w),
            Err(e) => Err(e),
        }
    }

    /// Decodes the weather data of `b`, with the index where reading the
    /// lettered fields stopped.
    fn decode_fields(b: &[u8]) -> (r: Result<(AprsWeather, usize), DecodeError>)
        ensures
            match r {
                Ok((w, end)) => spec_weather_decode(b@) == Ok::<AprsWeather, DecodeErrorView>(w)
                    && end == fields_end(b@, 7) && 7 <= end <= b.len(),
                Err(e) => spec_weather_decode(b@) == Err::<AprsWeather, DecodeErrorView>(e@),
            },
    {
        assert(b@.subrange(0, b@.len() as int) =~= b@);
        if b.len() < 7 {
            return Err(DecodeError::InvalidWeather(copy_range(b, 0, b.len())));
        }
        let mut wx = AprsWeather::default();

        // First 3 bytes = wind direction
        wx.wind_direction = parse_u16_field(b, 0, 3);

        // byte 3 should be '/'
        if b[3] != 0x2F {
            return Err(DecodeError::InvalidWeather(copy_range(b, 0, b.len())));
        }

        // bytes 4..7 = wind speed
        wx.wind_speed = parse_u16_field(b, 4, 7);

        // Parse lettered fields from position 7 onward
        let ghost first = wx;
        let mut i: usize = 7;
        while i < b.len()
            invariant
                7 <= i <= b.len(),
                spec_weather_fields(b@, 7, first) == spec_weather_fields(b@, i as int, wx),
                fields_end(b@, 7) == fields_end(b@, i as int),
            ensures
                7 <= i <= b.len(),
                spec_weather_fields(b@, 7, first) == wx,
                fields_end(b@, 7) == i,
            decreases b.len() - i,
        {
            let key = b[i];
            let w: usize = if key == 0x67 || key == 0x74 || key == 0x72 || key == 0x70 || key
                == 0x50 || key == 0x4C || key == 0x6C || key == 0x73 || key == 0x23 {
                3
            } else if key == 0x68 {
                2
            } else if key == 0x62 {
                5
            } else {
                0
            };
            if w == 0 || b.len() - (i + 1) < w {
                // Unknown field, or one cut short: stop parsing weather data
                break ;
            }
            wx.apply(key, b, i + 1, i + 1 + w);
            i = i + 1 + w;
        }
        Ok((wx, i))
    }

    /// Encode weather data fields to the writer.
    pub fn encode(&self, buf: &mut Vec<u8>) -> (r: Result<(), EncodeError>)
        ensures
            r is Ok,
            final(buf)@ == old(buf)@ + self.spec_encode(),
    {
        let ghost start = buf@;
        self.encode_head(buf);
        let ghost mid = buf@;
        self.encode_tail(buf);
        assert(buf@ =~= start + self.spec_encode());
        Ok(())
    }

    fn encode_head(&self, buf: &mut Vec<u8>)
        ensures
            final(buf)@ == old(buf)@ + self.spec_encode_head(),
    {
        let ghost start = buf@;
        // Wind direction
        push_opt3(buf, self.wind_direction);
        buf.push(0x2F);
        // Wind speed
        push_opt3(buf, self.wind_speed);
        push_tagged3(buf, 0x67, self.wind_gust);
        let ghost mid = buf@;
        if let Some(t) = self.temperature {
            buf.push(0x74);
            push_zero_padded_signed(buf, t as i32, 3);
        }
        assert(buf@ =~= mid + temperature_text(self.temperature));
        push_tagged3(buf, 0x72, self.rain_last_hour);
        assert(buf@ =~= start + self.spec_encode_head());
    }

    fn encode_tail(&self, buf: &mut Vec<u8>)
        ensures
            final(buf)@ == old(buf)@ + self.spec_encode_tail(),
    {
        let ghost s0 = buf@;
        push_tagged3(buf, 0x70, self.rain_last_24h);
        push_tagged3(buf, 0x50, self.rain_since_midnight);
        let ghost s1 = buf@;
        push_humidity(buf, self.humidity);
        push_pressure(buf, self.barometric_pressure);
        push_luminosity(buf, self.luminosity);
        let ghost s2 = buf@;
        push_tagged3(buf, 0x73, self.snow_last_24h);
        push_tagged3(buf, 0x23, self.raw_rain_counter);
        proof {
            let a = tagged3(0x70, self.rain_last_24h) + tagged3(0x50, self.rain_since_midnight);
            let m = humidity_text(self.humidity) + pressure_text(self.barometric_pressure)
                + luminosity_text(self.luminosity);
            let z = tagged3(0x73, self.snow_last_24h) + tagged3(0x23, self.raw_rain_counter);
            assert(s1 =~= s0 + a);
            assert(s2 =~= s1 + m);
            assert(buf@ =~= s2 + z);
            assert(self.spec_encode_tail() =~= a + m + z);
            assert(buf@ =~= s0 + self.spec_encode_tail());
        }
    }
}

fn push_humidity(buf: &mut Vec<u8>, o: Option<u8>)
    ensures
        final(buf)@ == old(buf)@ + humidity_text(o),
{
    let ghost start = buf@;
    if let Some(h) = o {
        let h_val: u8 = if h == 100 {
            0
        } else {
            h
        };
        buf.push(0x68);
        push_zero_padded(buf, h_val as u32, 2);
    }
    assert(buf@ =~= start + humidity_text(o));
}

fn push_pressure(buf: &mut Vec<u8>, o: Option<u32>)
    ensures
        final(buf)@ == old(buf)@ + pressure_text(o),
{
    let ghost start = buf@;
    if let Some(b_val) = o {
        buf.push(0x62);
        push_zero_padded(buf, b_val, 5);
    }
    assert(buf@ =~= start + pressure_text(o));
}

fn push_luminosity(buf: &mut Vec<u8>, o: Option<u16>)
    ensures
        final(buf)@ == old(buf)@ + luminosity_text(o),
{
    let ghost start = buf@;
    if let Some(l) = o {
        if l >= 1000 {
            buf.push(0x4C);
            push_zero_padded(buf, (l - 1000) as u32, 3);
        } else {
            buf.push(0x6C);
            push_zero_padded(buf, l as u32, 3);
        }
    }
    assert(buf@ =~= start + luminosity_text(o));
}

fn push_opt3(buf: &mut Vec<u8>, o: Option<u16>)
    ensures
        final(buf)@ == old(buf)@ + opt3(o),
{
    let ghost start = buf@;
    match o {
        Some(d) => push_zero_padded(buf, d as u32, 3),
        None => {
            buf.push(0x2E);
            buf.push(0x2E);
            buf.push(0x2E);
            assert(buf@ =~= start + opt3(o));
        },
    }
}

fn push_tagged3(buf: &mut Vec<u8>, tag: u8, o: Option<u16>)
    ensures
        final(buf)@ == old(buf)@ + tagged3(tag, o),
{
    let ghost start = buf@;
    match o {
        Some(d) => {
            buf.push(tag);
            push_zero_padded(buf, d as u32, 3);
            assert(buf@ =~= start + tagged3(tag, o));
        },
        None => {
            assert(buf@ =~= start + tagged3(tag, o));
        },
    }
}

/// A present value is at most `max`.
pub open spec fn at_most(o: Option<u16>, max: int) -> bool {
    o matches Some(v) ==> v <= max
}

impl AprsWeather {
    /// True when every present field fits the width that `encode` gives it:
    /// three digits for most fields, a temperature from -99 to 999, a
    /// humidity from 1 to 100 percent, a pressure of five digits and a
    /// luminosity below 2000.
    pub open spec fn encodable(self) -> bool {
        &&& at_most(self.wind_direction, 999)
        &&& at_most(self.wind_speed, 999)
        &&& at_most(self.wind_gust, 999)
        &&& (self.temperature matches Some(t) ==> -99 <= t <= 999)
        &&& at_most(self.rain_last_hour, 999)
        &&& at_most(self.rain_last_24h, 999)
        &&& at_most(self.rain_since_midnight, 999)
        &&& (self.humidity matches Some(h) ==> 1 <= h <= 100)
        &&& (self.barometric_pressure matches Some(p) ==> p <= 99999)
        &&& at_most(self.luminosity, 1999)
        &&& at_most(self.snow_last_24h, 999)
        &&& at_most(self.raw_rain_counter, 999)
    }
}

/// `zero_pad(v, w)` of a value with at most `w` digits is `w` long, UTF-8,
/// not blank, its own trim, and parses back to `v`.
proof fn lemma_pad_reads_back(v: nat, w: nat)
    requires
        dec(v).len() <= w,
    ensures
        zero_pad(v, w).len() == w,
        valid_utf8(zero_pad(v, w)),
        !blank_field(zero_pad(v, w)),
        trim(zero_pad(v, w)) == zero_pad(v, w),
        parse_unsigned(zero_pad(v, w)) == Some(v),
        parse_signed(zero_pad(v, w)) == Some(v as int),
{
    let s = zero_pad(v, w);
    lemma_zero_pad(v, w);
    assert(is_digit(s[0]));
    assert(is_digit(s.last()));
    assert forall|i: int| 0 <= i < s.len() implies #[trigger] s[i] <= 0x7F by {
        assert(is_digit(s[i]));
    }
    lemma_ascii_valid(s);
    lemma_trim_noop(s);
}

proof fn lemma_u16_pad(v: u16, w: nat)
    requires
        dec(v as nat).len() <= w,
    ensures
        zero_pad(v as nat, w).len() == w,
        spec_u16_field(zero_pad(v as nat, w)) == Some(v),
{
    lemma_pad_reads_back(v as nat, w);
}

proof fn lemma_opt3(o: Option<u16>)
    requires
        at_most(o, 999),
    ensures
        opt3(o).len() == 3,
        spec_u16_field(opt3(o)) == o,
{
    if let Some(v) = o {
        lemma_dec_len(v as nat);
        lemma_u16_pad(v, 3);
    } else {
        assert(blank_field(opt3(o)));
    }
}

/// The weather that the field text `part` (empty, or a letter and its
/// characters) leaves from `wx`.
pub open spec fn apply_part(wx: AprsWeather, part: Seq<u8>) -> AprsWeather {
    if part.len() == 0 {
        wx
    } else {
        apply_field(wx, part[0], part.skip(1))
    }
}

/// `part` is empty or a complete field.
pub open spec fn field_or_empty(part: Seq<u8>) -> bool {
    part.len() == 0 || (field_width(part[0]) != 0 && part.len() == 1 + field_width(part[0]))
}

/// Reading fields from index `i` of `b` is reading them from the start of
/// `b.skip(i)`.
proof fn lemma_fields_skip(b: Seq<u8>, i: int, wx: AprsWeather)
    requires
        0 <= i <= b.len(),
    ensures
        spec_weather_fields(b, i, wx) == spec_weather_fields(b.skip(i), 0, wx),
        fields_end(b, i) == i + fields_end(b.skip(i), 0),
    decreases b.len() - i,
{
    let t = b.skip(i);
    if i < b.len() {
        assert(t[0] == b[i]);
        let w = field_width(b[i]);
        if w != 0 && i + 1 + w <= b.len() {
            assert(t.subrange(1, 1 + w) =~= b.subrange(i + 1, i + 1 + w));
            let wx2 = apply_field(wx, b[i], b.subrange(i + 1, i + 1 + w));
            lemma_fields_skip(b, i + 1 + w, wx2);
            lemma_fields_skip(t, 1 + w, wx2);
            assert(t.skip(1 + w) =~= b.skip(i + 1 + w));
        }
    }
}

/// A complete field at the front is applied and read past.
proof fn lemma_part(part: Seq<u8>, rest: Seq<u8>, wx: AprsWeather)
    requires
        field_or_empty(part),
    ensures
        spec_weather_fields(part + rest, 0, wx) == spec_weather_fields(rest, 0, apply_part(wx, part)),
        fields_end(part + rest, 0) == part.len() + fields_end(rest, 0),
{
    if part.len() == 0 {
        assert(part + rest =~= rest);
    } else {
        let b = part + rest;
        let w = field_width(part[0]);
        assert(b[0] == part[0]);
        assert(b.subrange(1, 1 + w) =~= part.skip(1));
        lemma_fields_skip(b, 1 + w, apply_part(wx, part));
        assert(b.skip(1 + w) =~= rest);
    }
}

proof fn lemma_tagged3(tag: u8, o: Option<u16>)
    requires
        field_width(tag) == 3,
        at_most(o, 999),
    ensures
        field_or_empty(tagged3(tag, o)),
        o matches Some(v) ==> tagged3(tag, o)[0] == tag && tagged3(tag, o).skip(1) == zero_pad(
            v as nat,
            3,
        ) && spec_u16_field(zero_pad(v as nat, 3)) == Some(v) && spec_u32_text(
            zero_pad(v as nat, 3),
        ) == Some(v as u32),
        o is None ==> tagged3(tag, o).len() == 0,
{
    if let Some(v) = o {
        lemma_dec_len(v as nat);
        lemma_pad_reads_back(v as nat, 3);
        assert(tagged3(tag, o).skip(1) =~= zero_pad(v as nat, 3));
    }
}

/// The fields after `DDD/SSS` of the encoding, as a chain of parts.
pub open spec fn encoded_fields(w: AprsWeather) -> Seq<u8> {
    tagged3(0x67, w.wind_gust) + (temperature_text(w.temperature) + (tagged3(0x72, w.rain_last_hour)
        + encoded_fields_rest(w)))
}

pub open spec fn encoded_fields_rest(w: AprsWeather) -> Seq<u8> {
    tagged3(0x70, w.rain_last_24h) + (tagged3(0x50, w.rain_since_midnight) + (humidity_text(
        w.humidity,
    ) + (pressure_text(w.barometric_pressure) + (luminosity_text(w.luminosity) + (tagged3(
        0x73,
        w.snow_last_24h,
    ) + (tagged3(0x23, w.raw_rain_counter) + Seq::<u8>::empty()))))))
}

/// The weather with only the wind direction and speed of `w`.
pub open spec fn wind_only(w: AprsWeather) -> AprsWeather {
    AprsWeather { wind_direction: w.wind_direction, wind_speed: w.wind_speed, ..AprsWeather::empty() }
}

proof fn lemma_right_nest(a: Seq<u8>, b: Seq<u8>, c: Seq<u8>, d: Seq<u8>, e: Seq<u8>, f: Seq<u8>, g: Seq<u8>)
    ensures
        a + b + c + d + e + f + g == a + (b + (c + (d + (e + (f + (g + Seq::<u8>::empty())))))),
{
    let z = Seq::<u8>::empty();
    assert(g + z =~= g);
    assert(a + b + c =~= a + (b + c));
    assert(a + (b + c) + d =~= a + (b + (c + d)));
    assert(a + (b + (c + d)) + e =~= a + (b + (c + (d + e))));
    assert(a + (b + (c + (d + e))) + f =~= a + (b + (c + (d + (e + f)))));
    assert(a + (b + (c + (d + (e + f)))) + g =~= a + (b + (c + (d + (e + (f + g))))));
}

proof fn lemma_tail_shape(w: AprsWeather)
    ensures
        w.spec_encode_tail() == encoded_fields_rest(w),
{
    lemma_right_nest(
        tagged3(0x70, w.rain_last_24h),
        tagged3(0x50, w.rain_since_midnight),
        humidity_text(w.humidity),
        pressure_text(w.barometric_pressure),
        luminosity_text(w.luminosity),
        tagged3(0x73, w.snow_last_24h),
        tagged3(0x23, w.raw_rain_counter),
    );
}

proof fn lemma_encode_shape(w: AprsWeather)
    ensures
        w.spec_encode() == opt3(w.wind_direction) + seq![0x2Fu8] + opt3(w.wind_speed)
            + encoded_fields(w),
{
    lemma_tail_shape(w);
    let prefix = opt3(w.wind_direction) + seq![0x2Fu8] + opt3(w.wind_speed);
    let p1 = tagged3(0x67, w.wind_gust);
    let p2 = temperature_text(w.temperature);
    let p3 = tagged3(0x72, w.rain_last_hour);
    let t = encoded_fields_rest(w);
    assert(prefix + p1 + p2 + p3 + t =~= prefix + (p1 + (p2 + (p3 + t))));
}

#[verifier::rlimit(40)]
proof fn lemma_read_fields_rest(w: AprsWeather, wx: AprsWeather)
    requires
        w.encodable(),
        wx.wind_direction == w.wind_direction,
        wx.wind_speed == w.wind_speed,
        wx.wind_gust == w.wind_gust,
        wx.temperature == w.temperature,
        wx.rain_last_hour == w.rain_last_hour,
        wx.rain_last_24h is None,
        wx.rain_since_midnight is None,
        wx.humidity is None,
        wx.barometric_pressure is None,
        wx.luminosity is None,
        wx.snow_last_24h is None,
        wx.raw_rain_counter is None,
    ensures
        spec_weather_fields(encoded_fields_rest(w), 0, wx) == w,
{
    let p4 = tagged3(0x70, w.rain_last_24h);
    let p5 = tagged3(0x50, w.rain_since_midnight);
    let p6 = humidity_text(w.humidity);
    let p7 = pressure_text(w.barometric_pressure);
    let p8 = luminosity_text(w.luminosity);
    let p9 = tagged3(0x73, w.snow_last_24h);
    let p10 = tagged3(0x23, w.raw_rain_counter);
    let r11 = Seq::<u8>::empty();
    let r10 = p10 + r11;
    let r9 = p9 + r10;
    let r8 = p8 + r9;
    let r7 = p7 + r8;
    let r6 = p6 + r7;
    let r5 = p5 + r6;
    lemma_tagged3(0x70, w.rain_last_24h);
    lemma_tagged3(0x50, w.rain_since_midnight);
    lemma_humidity(w.humidity);
    lemma_pressure(w.barometric_pressure);
    lemma_luminosity(w.luminosity);
    lemma_tagged3(0x73, w.snow_last_24h);
    lemma_tagged3(0x23, w.raw_rain_counter);
    let x4 = apply_part(wx, p4);
    let x5 = apply_part(x4, p5);
    let x6 = apply_part(x5, p6);
    let x7 = apply_part(x6, p7);
    let x8 = apply_part(x7, p8);
    let x9 = apply_part(x8, p9);
    let x10 = apply_part(x9, p10);
    lemma_part(p4, r5, wx);
    lemma_part(p5, r6, x4);
    lemma_part(p6, r7, x5);
    lemma_part(p7, r8, x6);
    lemma_part(p8, r9, x7);
    lemma_part(p9, r10, x8);
    lemma_part(p10, r11, x9);
    assert(x10 == w);
}

/// Reading the later fields of an encoding stops at its end.
#[verifier::rlimit(40)]
proof fn lemma_fields_rest_end(w: AprsWeather)
    requires
        w.encodable(),
    ensures
        fields_end(encoded_fields_rest(w), 0) == encoded_fields_rest(w).len(),
{
    let p4 = tagged3(0x70, w.rain_last_24h);
    let p5 = tagged3(0x50, w.rain_since_midnight);
    let p6 = humidity_text(w.humidity);
    let p7 = pressure_text(w.barometric_pressure);
    let p8 = luminosity_text(w.luminosity);
    let p9 = tagged3(0x73, w.snow_last_24h);
    let p10 = tagged3(0x23, w.raw_rain_counter);
    let r11 = Seq::<u8>::empty();
    let r10 = p10 + r11;
    let r9 = p9 + r10;
    let r8 = p8 + r9;
    let r7 = p7 + r8;
    let r6 = p6 + r7;
    let r5 = p5 + r6;
    lemma_tagged3(0x70, w.rain_last_24h);
    lemma_tagged3(0x50, w.rain_since_midnight);
    lemma_humidity(w.humidity);
    lemma_pressure(w.barometric_pressure);
    lemma_luminosity(w.luminosity);
    lemma_tagged3(0x73, w.snow_last_24h);
    lemma_tagged3(0x23, w.raw_rain_counter);
    let wx = AprsWeather::empty();
    lemma_part(p4, r5, wx);
    lemma_part(p5, r6, wx);
    lemma_part(p6, r7, wx);
    lemma_part(p7, r8, wx);
    lemma_part(p8, r9, wx);
    lemma_part(p9, r10, wx);
    lemma_part(p10, r11, wx);
}

#[verifier::rlimit(40)]
proof fn lemma_read_fields(w: AprsWeather)
    requires
        w.encodable(),
    ensures
        spec_weather_fields(encoded_fields(w), 0, wind_only(w)) == w,
        fields_end(encoded_fields(w), 0) == encoded_fields(w).len(),
{
    let base = wind_only(w);
    let p1 = tagged3(0x67, w.wind_gust);
    let p2 = temperature_text(w.temperature);
    let p3 = tagged3(0x72, w.rain_last_hour);
    let r4 = encoded_fields_rest(w);
    let r3 = p3 + r4;
    let r2 = p2 + r3;
    lemma_tagged3(0x67, w.wind_gust);
    lemma_temperature(w.temperature);
    lemma_tagged3(0x72, w.rain_last_hour);
    let x1 = apply_part(base, p1);
    let x2 = apply_part(x1, p2);
    let x3 = apply_part(x2, p3);
    lemma_part(p1, r2, base);
    lemma_part(p2, r3, x1);
    lemma_part(p3, r4, x2);
    lemma_read_fields_rest(w, x3);
    lemma_fields_rest_end(w);
}

/// Encoding a weather whose fields fit their widths and decoding the result
/// gives the same weather back.
pub proof fn lemma_weather_roundtrip(w: AprsWeather)
    requires
        w.encodable(),
    ensures
        spec_weather_decode(w.spec_encode()) == Ok::<AprsWeather, DecodeErrorView>(w),
{
    lemma_weather_then(w, Seq::empty());
    assert(w.spec_encode() + Seq::<u8>::empty() =~= w.spec_encode());
}

/// The encoding of a weather whose fields fit their widths, followed by
/// text `c` that starts no lettered field, decodes to the same weather, and
/// reading its fields stops where `c` begins.
pub proof fn lemma_weather_then(w: AprsWeather, c: Seq<u8>)
    requires
        w.encodable(),
        ends_fields(c),
    ensures
        spec_weather_decode(w.spec_encode() + c) == Ok::<AprsWeather, DecodeErrorView>(w),
        fields_end(w.spec_encode() + c, 7) == w.spec_encode().len(),
{
    let b = w.spec_encode() + c;
    lemma_encode_shape(w);
    lemma_opt3(w.wind_direction);
    lemma_opt3(w.wind_speed);
    assert(b.subrange(0, 3) =~= opt3(w.wind_direction));
    assert(b.subrange(4, 7) =~= opt3(w.wind_speed));
    assert(b[3] == 0x2F);
    lemma_fields_skip(b, 7, wind_only(w));
    assert(b.skip(7) =~= encoded_fields(w) + c);
    lemma_read_fields(w);
    lemma_fields_append(encoded_fields(w), c, 0, wind_only(w));
    lemma_fields_skip(c, 0, w);
    assert(c.skip(0) =~= c);
}

/// Fields read up to the end of `a` are read the same way in `a + c`, and
/// reading then goes on in `c`.
proof fn lemma_fields_append(a: Seq<u8>, c: Seq<u8>, i: int, wx: AprsWeather)
    requires
        0 <= i <= a.len(),
        fields_end(a, i) == a.len(),
    ensures
        spec_weather_fields(a + c, i, wx) == spec_weather_fields(c, 0, spec_weather_fields(a, i, wx)),
        fields_end(a + c, i) == a.len() + fields_end(c, 0),
    decreases a.len() - i,
{
    let b = a + c;
    if i == a.len() {
        lemma_fields_skip(b, i, wx);
        assert(b.skip(i) =~= c);
    } else {
        let w = field_width(a[i]);
        assert(b[i] == a[i]);
        assert(b.subrange(i + 1, i + 1 + w) =~= a.subrange(i + 1, i + 1 + w));
        lemma_fields_append(a, c, i + 1 + w, apply_field(wx, a[i], a.subrange(i + 1, i + 1 + w)));
    }
}

proof fn lemma_temperature(o: Option<i16>)
    requires
        o matches Some(t) ==> -99 <= t <= 999,
    ensures
        field_or_empty(temperature_text(o)),
        o matches Some(t) ==> temperature_text(o)[0] == 0x74 && spec_i16_field(
            temperature_text(o).skip(1),
        ) == Some(t),
        o is None ==> temperature_text(o).len() == 0,
{
    if let Some(t) = o {
        let s = zero_pad_signed(t as int, 3);
        assert(temperature_text(o).skip(1) =~= s);
        if t >= 0 {
            lemma_dec_len(t as nat);
            lemma_pad_reads_back(t as nat, 3);
        } else {
            let m = (-t) as nat;
            lemma_dec_len(m);
            lemma_pad_reads_back(m, 2);
            let z = zero_pad(m, 2);
            assert(s =~= seq![0x2Du8] + z);
            assert(s.drop_first() =~= z);
            assert(s.last() == z.last());
            lemma_zero_pad(m, 2);
            assert(is_digit(z.last()));
            assert forall|i: int| 0 <= i < s.len() implies #[trigger] s[i] <= 0x7F by {
                if i > 0 {
                    assert(s[i] == z[i - 1]);
                    assert(is_digit(z[i - 1]));
                }
            }
            lemma_ascii_valid(s);
            lemma_trim_noop(s);
            assert(!(s[0] == 0x2E || s[0] == 0x20));
        }
    }
}

proof fn lemma_humidity(o: Option<u8>)
    requires
        o matches Some(h) ==> 1 <= h <= 100,
    ensures
        field_or_empty(humidity_text(o)),
        o matches Some(h) ==> humidity_text(o)[0] == 0x68 && spec_u16_field(
            humidity_text(o).skip(1),
        ) == Some(
            if h == 100 {
                0u16
            } else {
                h as u16
            },
        ),
        o is None ==> humidity_text(o).len() == 0,
{
    if let Some(h) = o {
        let v: u16 = if h == 100 {
            0
        } else {
            h as u16
        };
        lemma_dec_len(v as nat);
        lemma_u16_pad(v, 2);
        assert(humidity_text(o).skip(1) =~= zero_pad(v as nat, 2));
    }
}

proof fn lemma_pressure(o: Option<u32>)
    requires
        o matches Some(p) ==> p <= 99999,
    ensures
        field_or_empty(pressure_text(o)),
        o matches Some(p) ==> pressure_text(o)[0] == 0x62 && spec_u32_text(
            pressure_text(o).skip(1),
        ) == Some(p),
        o is None ==> pressure_text(o).len() == 0,
{
    if let Some(p) = o {
        lemma_dec_len(p as nat);
        lemma_pad_reads_back(p as nat, 5);
        assert(pressure_text(o).skip(1) =~= zero_pad(p as nat, 5));
    }
}

proof fn lemma_luminosity(o: Option<u16>)
    requires
        at_most(o, 1999),
    ensures
        field_or_empty(luminosity_text(o)),
        o matches Some(l) ==> (if l >= 1000 {
            luminosity_text(o)[0] == 0x4C && spec_u16_field(luminosity_text(o).skip(1)) == Some(
                (l - 1000) as u16,
            )
        } else {
            luminosity_text(o)[0] == 0x6C && spec_u16_field(luminosity_text(o).skip(1)) == Some(
                l,
            )
        }),
        o is None ==> luminosity_text(o).len() == 0,
{
    if let Some(l) = o {
        let v: u16 = if l >= 1000 {
            (l - 1000) as u16
        } else {
            l
        };
        lemma_dec_len(v as nat);
        lemma_u16_pad(v, 3);
        assert(luminosity_text(o).skip(1) =~= zero_pad(v as nat, 3));
    }
}

/// A positionless weather report (data type identifier `_`).
/// Format: `_MMDDHHMM` followed by weather data and optional comment.
#[derive(PartialEq, Debug, Clone)]
pub struct AprsPositionlessWeather {
    pub to: Callsign,
    pub timestamp: Vec<u8>,
    pub weather: AprsWeather,
    pub comment: Vec<u8>,
}

/// What a positionless weather body `b` (after `_`) decodes to: its
/// timestamp, its weather, and the comment after the last weather field
/// read, or the error.
pub open spec fn spec_positionless_decode(b: Seq<u8>) -> Result<
    (Seq<u8>, AprsWeather, Seq<u8>),
    DecodeErrorView,
> {
    if b.len() < 8 {
        Err(DecodeErrorView::InvalidWeather(b))
    } else {
        match spec_weather_decode(b.skip(8)) {
            Ok(w) => Ok((b.take(8), w, b.skip(8).skip(fields_end(b.skip(8), 7)))),
            Err(e) => Err(e),
        }
    }
}

/// A positionless report with an eight-byte timestamp, weather whose fields
/// fit their widths and a comment that starts no weather field decodes back
/// from what follows the `_` of its encoding.
pub proof fn lemma_positionless_roundtrip(ts: Seq<u8>, w: AprsWeather, c: Seq<u8>)
    requires
        ts.len() == 8,
        w.encodable(),
        ends_fields(c),
    ensures
        spec_positionless_decode(ts + w.spec_encode() + c) == Ok::<_, DecodeErrorView>((ts, w, c)),
{
    let b = ts + w.spec_encode() + c;
    assert(b.skip(8) =~= w.spec_encode() + c);
    assert(b.take(8) =~= ts);
    lemma_weather_then(w, c);
    assert((w.spec_encode() + c).skip(w.spec_encode().len() as int) =~= c);
}

/// Reading fields stops within `b`, at a point where the rest starts no
/// field.
proof fn lemma_fields_end_stops(b: Seq<u8>, i: int)
    requires
        0 <= i <= b.len(),
    ensures
        i <= fields_end(b, i) <= b.len(),
        ends_fields(b.skip(fields_end(b, i))),
    decreases b.len() - i,
{
    if i < b.len() {
        let w = field_width(b[i]);
        if w != 0 && i + 1 + w <= b.len() {
            lemma_fields_end_stops(b, i + 1 + w);
        } else {
            assert(b.skip(i)[0] == b[i]);
        }
    }
}

impl AprsPositionlessWeather {
    /// The encoding: `_`, the timestamp, the weather, the comment.
    pub open spec fn spec_encode(&self) -> Seq<u8> {
        seq![0x5Fu8] + self.timestamp@ + self.weather.spec_encode() + self.comment@
    }

    pub fn decode(b: &[u8], to: Callsign) -> (r: Result<Self, DecodeError>)
        ensures
            match r {
                Ok(p) => spec_positionless_decode(b@) == Ok::<_, DecodeErrorView>(
                    (p.timestamp@, p.weather, p.comment@),
                ) && p.to == to,
                Err(e) => spec_positionless_decode(b@) == Err::<
                    (Seq<u8>, AprsWeather, Seq<u8>),
                    DecodeErrorView,
                >(e@),
            },
    {
        // Positionless weather: _MMDDHHMM followed by weather data, then the comment
        assert(b@.subrange(0, b@.len() as int) =~= b@);
        if b.len() < 8 {
            return Err(DecodeError::InvalidWeather(copy_range(b, 0, b.len())));
        }
        let timestamp = copy_range(b, 0, 8);
        let weather_data = &b[8..b.len()];
        assert(weather_data@ =~= b@.skip(8));
        assert(b@.subrange(0, 8) =~= b@.take(8));
        let (weather, end) = match AprsWeather::decode_fields(weather_data) {
            Ok(x) => x,
            Err(e) => return Err(e),
        };
        let comment = copy_range(b, 8 + end, b.len());
        assert(comment@ =~= b@.skip(8).skip(end as int));
        Ok(Self { to, timestamp, weather, comment })
    }

    pub fn encode(&self, buf: &mut Vec<u8>) -> (r: Result<(), EncodeError>)
        ensures
            r is Ok,
            final(buf)@ == old(buf)@ + self.spec_encode(),
    {
        let ghost start = buf@;
        buf.push(0x5F);
        push_all(buf, self.timestamp.as_slice());
        self.weather.encode(buf);
        push_all(buf, self.comment.as_slice());
        assert(buf@ =~= start + self.spec_encode());
        Ok(())
    }
}


/// A field of three characters read as `u16` is at most 999, one of two
/// characters at most 99.
proof fn lemma_u16_field_bound(s: Seq<u8>)
    ensures
        spec_u16_field(s) matches Some(v) ==> (s.len() <= 2 ==> v <= 99) && (s.len() <= 3 ==> v
            <= 999),
{
    lemma_trim_len(s);
    lemma_parse_unsigned_bound(trim(s));
}

/// Setting a field from text of the width its letter takes keeps every
/// field within the width that `encode` gives it.
proof fn lemma_apply_field_encodable(wx: AprsWeather, key: u8, s: Seq<u8>)
    requires
        wx.encodable(),
        field_width(key) > 0,
        s.len() == field_width(key),
    ensures
        apply_field(wx, key, s).encodable(),
{
    lemma_u16_field_bound(s);
    lemma_trim_len(s);
    lemma_parse_unsigned_bound(trim(s));
    if s.len() <= 3 {
        lemma_parse_signed_bound(trim(s));
    }
}

/// Reading lettered fields keeps every field within its width.
proof fn lemma_fields_encodable(b: Seq<u8>, i: int, wx: AprsWeather)
    requires
        wx.encodable(),
    ensures
        spec_weather_fields(b, i, wx).encodable(),
    decreases b.len() - i,
{
    if 0 <= i < b.len() {
        let w = field_width(b[i]);
        if w != 0 && i + 1 + w <= b.len() {
            lemma_apply_field_encodable(wx, b[i], b.subrange(i + 1, i + 1 + w));
            lemma_fields_encodable(b, i + 1 + w, apply_field(wx, b[i], b.subrange(i + 1, i + 1 + w)));
        }
    }
}

/// Every field that decoding reads fits the width that `encode` gives it.
pub proof fn lemma_decoded_encodable(b: Seq<u8>)
    ensures
        spec_weather_decode(b) matches Ok(w) ==> w.encodable(),
{
    if b.len() >= 7 && b[3] == 0x2F {
        lemma_u16_field_bound(b.subrange(0, 3));
        lemma_u16_field_bound(b.subrange(4, 7));
        let wx = AprsWeather {
            wind_direction: spec_u16_field(b.subrange(0, 3)),
            wind_speed: spec_u16_field(b.subrange(4, 7)),
            ..AprsWeather::empty()
        };
        lemma_fields_encodable(b, 7, wx);
    }
}

/// Encoding the weather that `b` decodes to and decoding that text gives
/// the same weather again: re-encoding may reorder and pad the fields, but
/// keeps every value.
pub proof fn lemma_weather_reencode(b: Seq<u8>)
    ensures
        spec_weather_decode(b) matches Ok(w) ==> spec_weather_decode(w.spec_encode()) == Ok::<
            AprsWeather,
            DecodeErrorView,
        >(w),
{
    lemma_decoded_encodable(b);
    if let Ok(w) = spec_weather_decode(b) {
        lemma_weather_roundtrip(w);
    }
}


/// Encoding the positionless report that `b` decodes to, and decoding what
/// follows its `_`, gives the same timestamp, weather and comment again.
pub proof fn lemma_positionless_reencode(b: Seq<u8>)
    ensures
        spec_positionless_decode(b) matches Ok((ts, w, c)) ==> spec_positionless_decode(ts
            + w.spec_encode() + c) == Ok::<_, DecodeErrorView>((ts, w, c)),
{
    if b.len() >= 8 {
        let wb = b.skip(8);
        lemma_decoded_encodable(wb);
        if let Ok((ts, w, c)) = spec_positionless_decode(b) {
            lemma_fields_end_stops(wb, 7);
            lemma_positionless_roundtrip(ts, w, c);
        }
    }
}


/// Trimming white space off text of dots and spaces leaves dots and spaces.
proof fn lemma_trim_blank(s: Seq<u8>)
    requires
        blank_field(s),
    ensures
        blank_field(trim(s)),
{
    lemma_trim_start_blank(s);
    lemma_trim_end_blank(trim_start(s));
}

proof fn lemma_trim_start_blank(s: Seq<u8>)
    requires
        blank_field(s),
    ensures
        blank_field(trim_start(s)),
    decreases s.len(),
{
    let k = leading_ws_len(s);
    if k != 0 {
        let t = s.skip(k);
        assert forall|i: int| 0 <= i < t.len() implies #[trigger] t[i] == 0x2E || t[i] == 0x20 by {
            assert(t[i] == s[i + k]);
        }
        lemma_trim_start_blank(t);
    }
}

proof fn lemma_trim_end_blank(s: Seq<u8>)
    requires
        blank_field(s),
    ensures
        blank_field(trim_end(s)),
    decreases s.len(),
{
    let k = trailing_ws_len(s);
    if k != 0 {
        let t = s.take(s.len() - k);
        assert forall|i: int| 0 <= i < t.len() implies #[trigger] t[i] == 0x2E || t[i] == 0x20 by {
            assert(t[i] == s[i]);
        }
        lemma_trim_end_blank(t);
    }
}

/// A weather field whose text is all dots or spaces holds no value, of
/// whatever kind: it sets the field that its letter names to nothing, and
/// a blank snow field leaves the snow as it was.
pub proof fn lemma_blank_field_is_none(wx: AprsWeather, key: u8, s: Seq<u8>)
    requires
        blank_field(s),
    ensures
        spec_u16_field(s) is None,
        spec_i16_field(s) is None,
        spec_u32_text(s) is None,
        key == 0x67 ==> apply_field(wx, key, s).wind_gust is None,
        key == 0x74 ==> apply_field(wx, key, s).temperature is None,
        key == 0x72 ==> apply_field(wx, key, s).rain_last_hour is None,
        key == 0x70 ==> apply_field(wx, key, s).rain_last_24h is None,
        key == 0x50 ==> apply_field(wx, key, s).rain_since_midnight is None,
        key == 0x68 ==> apply_field(wx, key, s).humidity is None,
        key == 0x62 ==> apply_field(wx, key, s).barometric_pressure is None,
        key == 0x4C || key == 0x6C ==> apply_field(wx, key, s).luminosity is None,
        key == 0x73 ==> apply_field(wx, key, s) == wx,
        key == 0x23 ==> apply_field(wx, key, s).raw_rain_counter is None,
{
    lemma_trim_blank(s);
    let t = trim(s);
    if t.len() > 0 {
        assert(t[0] == 0x2E || t[0] == 0x20);
        assert(!is_digit(t[0]));
    }
}

} // verus!
