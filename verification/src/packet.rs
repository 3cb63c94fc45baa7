//! Whole APRS packets in their textual form, `FROM>TO,PATH:body`, and the
//! dispatch of the body on its data type identifier.

use vstd::prelude::*;
use crate::callsign::{
    callsign_parts, lemma_callsign_reencode, lemma_callsign_roundtrip, lemma_via_reencode,
    lemma_via_roundtrip, via_parts, Callsign, Via,
};
use crate::components::lonlat::{
    kept_units, Latitude, Longitude, Precision, UNITS_PER_COMPRESSED_LAT_STEP,
    UNITS_PER_COMPRESSED_LON_STEP, UNITS_PER_DEGREE,
};
use crate::components::position::{
    canonical_position, cst_altitude, lemma_compressed_position_roundtrip,
    lemma_position_reencode, lemma_uncompressed_position_roundtrip, position_text,
    spec_altitude_in_comment, spec_dao_from, spec_position_decode, AprsCst, Position,
};
use crate::error::{DecodeError, DecodeErrorView, EncodeError};
use crate::grid::{
    grid_valid, lemma_grid_reencode, lemma_grid_roundtrip, spec_grid_decode, AprsGridLocator,
};
use crate::message::{
    lemma_message_reencode, lemma_message_roundtrip, message_encodable, spaces, spec_message_decode,
    AprsMessage,
};
use crate::nmea::AprsNmea;
use crate::telemetry::{
    canonical_telemetry, join, lacks, lemma_join_push, lemma_join_split, lemma_split,
    lemma_split_join, lemma_telemetry_reencode, lemma_telemetry_roundtrip, spec_telemetry_decode,
    split, AprsTelemetry,
};
use crate::text::{copy_range, find, find_in, lemma_find, lemma_find_unique, push_all};
use crate::third_party::AprsThirdParty;
use crate::user_defined::{
    lemma_user_defined_reencode, lemma_user_defined_roundtrip, spec_user_defined_decode,
    AprsUserDefined,
};
use crate::weather::{
    ends_fields, lemma_positionless_roundtrip, spec_positionless_decode, AprsPositionlessWeather,
};

verus! {

/// A position report without a timestamp: `!` (no messaging) or `=`
/// (messaging supported), the position, then the comment.
#[derive(PartialEq, Debug, Clone)]
pub struct AprsPosition {
    pub to: Callsign,
    pub messaging_supported: bool,
    pub position: Position,
    pub comment: Vec<u8>,
}

/// A body whose data type this library does not decode, kept as it came.
#[derive(PartialEq, Debug, Clone)]
pub struct AprsUnknown {
    pub to: Callsign,
    pub data: Vec<u8>,
}

/// The decoded body of a packet.
#[derive(PartialEq, Debug)]
pub enum AprsData {
    Position(AprsPosition),
    Message(AprsMessage),
    Grid(AprsGridLocator),
    Nmea(AprsNmea),
    ThirdParty(AprsThirdParty),
    UserDefined(AprsUserDefined),
    PositionlessWeather(AprsPositionlessWeather),
    Telemetry(AprsTelemetry),
    Unknown(AprsUnknown),
}

/// A packet: the sender, the digipeater path, and the body, which holds the
/// destination.
#[derive(PartialEq, Debug)]
pub struct AprsPacket {
    pub from: Callsign,
    pub via: Vec<Via>,
    pub data: AprsData,
}

/// The first path element of `vs` that does not decode.
pub open spec fn first_bad_via(vs: Seq<Seq<u8>>) -> Option<Seq<u8>>
    decreases vs.len(),
{
    if vs.len() == 0 {
        None
    } else if via_parts(vs[0]) is None {
        Some(vs[0])
    } else {
        first_bad_via(vs.drop_first())
    }
}

/// The error that decoding the packet text `s` reports, or `None` when it
/// decodes.
pub open spec fn packet_error(s: Seq<u8>) -> Option<DecodeErrorView>
    decreases s.len(),
{
    match find(s, 0x3A) {
        None => Some(DecodeErrorView::InvalidPacket(s)),
        Some(h) => {
            proof {
                lemma_find(s, 0x3A);
            }
            let header = s.take(h);
            match find(header, 0x3E) {
                None => Some(DecodeErrorView::InvalidPacket(s)),
                Some(f) => {
                    let from = header.take(f);
                    let tv = split(header.skip(f + 1), 0x2C);
                    if callsign_parts(from) is None {
                        Some(DecodeErrorView::InvalidCallsign(from))
                    } else if callsign_parts(tv[0]) is None {
                        Some(DecodeErrorView::InvalidCallsign(tv[0]))
                    } else {
                        match first_bad_via(tv.drop_first()) {
                            Some(v) => Some(DecodeErrorView::InvalidVia(v)),
                            None => data_error(s.skip(h + 1)),
                        }
                    }
                },
            }
        },
    }
}

/// The error that decoding the body `b` reports, or `None` when it decodes.
pub open spec fn data_error(b: Seq<u8>) -> Option<DecodeErrorView>
    decreases b.len(),
{
    if b.len() == 0 {
        None
    } else {
        let c = b[0];
        let rest = b.drop_first();
        if c == 0x21 || c == 0x3D {
            match spec_position_decode(rest) {
                Ok(_) => None,
                Err(e) => Some(e),
            }
        } else if c == 0x3A {
            match spec_message_decode(rest) {
                Ok(_) => None,
                Err(e) => Some(e),
            }
        } else if c == 0x5B {
            if spec_grid_decode(rest) is Some {
                None
            } else {
                Some(DecodeErrorView::InvalidGridLocator(rest))
            }
        } else if c == 0x7D {
            packet_error(rest)
        } else if c == 0x5F {
            match spec_positionless_decode(rest) {
                Ok(_) => None,
                Err(e) => Some(e),
            }
        } else if c == 0x54 {
            match spec_telemetry_decode(rest) {
                Ok(_) => None,
                Err(e) => Some(e),
            }
        } else {
            None
        }
    }
}

/// True when `p` is what the packet text `s` decodes to.
pub open spec fn packet_decodes(s: Seq<u8>, p: AprsPacket) -> bool
    decreases s.len(),
{
    match find(s, 0x3A) {
        None => false,
        Some(h) => {
            proof {
                lemma_find(s, 0x3A);
            }
            let header = s.take(h);
            match find(header, 0x3E) {
                None => false,
                Some(f) => {
                    let tv = split(header.skip(f + 1), 0x2C);
                    &&& callsign_parts(header.take(f)) == Some(p.from.parts())
                    &&& tv.len() >= 1
                    &&& callsign_parts(tv[0]) is Some
                    &&& p.via@.len() + 1 == tv.len()
                    &&& forall|i: int|
                        0 <= i < p.via@.len() ==> via_parts(#[trigger] tv[i + 1]) == Some(
                            p.via@[i].parts(),
                        )
                    &&& data_decodes(s.skip(h + 1), callsign_parts(tv[0]).unwrap(), p.data)
                },
            }
        },
    }
}

/// True when `d` is what the body `b` decodes to for the destination `to`:
/// the first byte picks the data type.
pub open spec fn data_decodes(b: Seq<u8>, to: (Seq<u8>, Option<Seq<u8>>), d: AprsData) -> bool
    decreases b.len(),
{
    &&& d.spec_to().parts() == to
    &&& if b.len() == 0 {
        d matches AprsData::Unknown(u) && u.data@ == b
    } else {
        let c = b[0];
        let rest = b.drop_first();
        if c == 0x21 || c == 0x3D {
            &&& d matches AprsData::Position(p)
            &&& p.messaging_supported == (c == 0x3D)
            &&& spec_position_decode(rest) matches Ok((n, q))
            &&& p.position == q
            &&& p.comment@ == rest.skip(n)
        } else if c == 0x3A {
            d matches AprsData::Message(m) && spec_message_decode(rest) == Ok::<
                _,
                DecodeErrorView,
            >((m.addressee@, m.text@, m.id_view()))
        } else if c == 0x5B {
            d matches AprsData::Grid(g) && spec_grid_decode(rest) == Some((g.grid@, g.comment@))
        } else if c == 0x24 {
            d matches AprsData::Nmea(n) && n.data@ == rest
        } else if c == 0x7D {
            d matches AprsData::ThirdParty(t) && packet_decodes(rest, *t.inner)
        } else if c == 0x7B {
            d matches AprsData::UserDefined(u) && spec_user_defined_decode(rest) == (
                u.user_id,
                u.packet_type,
                u.data@,
            )
        } else if c == 0x5F {
            d matches AprsData::PositionlessWeather(w) && spec_positionless_decode(rest) == Ok::<
                _,
                DecodeErrorView,
            >((w.timestamp@, w.weather, w.comment@))
        } else if c == 0x54 {
            d matches AprsData::Telemetry(t) && spec_telemetry_decode(rest) == Ok::<
                _,
                DecodeErrorView,
            >((t.sequence@, t.analog(), t.digital_bits, t.comment@))
        } else {
            d matches AprsData::Unknown(u) && u.data@ == b
        }
    }
}

/// Each path element after a comma.
pub open spec fn vias_encode(vs: Seq<Via>) -> Seq<u8>
    decreases vs.len(),
{
    if vs.len() == 0 {
        Seq::empty()
    } else {
        vias_encode(vs.drop_last()) + seq![0x2Cu8] + vs.last().spec_encode()
    }
}

/// The textual form of the packet `p`.
pub open spec fn packet_encode(p: AprsPacket) -> Seq<u8>
    decreases p,
{
    p.from.spec_encode() + seq![0x3Eu8] + p.data.spec_to().spec_encode() + vias_encode(p.via@)
        + seq![0x3Au8] + data_encode(p.data)
}

/// The textual form of the body `d`.
pub open spec fn data_encode(d: AprsData) -> Seq<u8>
    decreases d,
{
    match d {
        AprsData::Position(p) => p.spec_encode(),
        AprsData::Message(m) => m.spec_encode(),
        AprsData::Grid(g) => g.spec_encode(),
        AprsData::Nmea(n) => n.spec_encode(),
        AprsData::ThirdParty(t) => seq![0x7Du8] + packet_encode(*t.inner),
        AprsData::UserDefined(u) => u.spec_encode(),
        AprsData::PositionlessWeather(w) => w.spec_encode(),
        AprsData::Telemetry(t) => t.spec_encode(),
        AprsData::Unknown(u) => u.data@,
    }
}

impl AprsPosition {
    /// The encoding: `=` or `!`, the position in its form, the comment.
    pub open spec fn spec_encode(&self) -> Seq<u8> {
        seq![
            if self.messaging_supported {
                0x3Du8
            } else {
                0x21u8
            },
        ] + if self.position.cst is Uncompressed {
            self.position.spec_encode_uncompressed()
        } else {
            self.position.spec_encode_compressed()
        } + self.comment@
    }

    pub fn decode(b: &[u8], to: Callsign, messaging_supported: bool) -> (r: Result<Self, DecodeError>)
        ensures
            match r {
                Ok(p) => spec_position_decode(b@) matches Ok((n, q)) && p.position == q
                    && p.comment@ == b@.skip(n) && p.to == to && p.messaging_supported
                    == messaging_supported,
                Err(e) => spec_position_decode(b@) == Err::<(int, Position), DecodeErrorView>(e@),
            },
    {
        match Position::decode(b) {
            Ok((comment, position)) => Ok(Self { to, messaging_supported, position, comment }),
            Err(e) => Err(e),
        }
    }

    pub fn encode(&self, buf: &mut Vec<u8>) -> (r: Result<(), EncodeError>)
        ensures
            r is Ok,
            final(buf)@ == old(buf)@ + self.spec_encode(),
    {
        let ghost start = buf@;
        buf.push(
            if self.messaging_supported {
                0x3D
            } else {
                0x21
            },
        );
        let _ = match self.position.cst {
            AprsCst::Uncompressed => self.position.encode_uncompressed(buf),
            _ => self.position.encode_compressed(buf),
        };
        push_all(buf, self.comment.as_slice());
        assert(buf@ =~= start + self.spec_encode());
        Ok(())
    }
}

impl AprsData {
    /// The destination callsign, which every kind of body holds.
    pub open spec fn spec_to(&self) -> Callsign {
        match self {
            AprsData::Position(x) => x.to,
            AprsData::Message(x) => x.to,
            AprsData::Grid(x) => x.to,
            AprsData::Nmea(x) => x.to,
            AprsData::ThirdParty(x) => x.to,
            AprsData::UserDefined(x) => x.to,
            AprsData::PositionlessWeather(x) => x.to,
            AprsData::Telemetry(x) => x.to,
            AprsData::Unknown(x) => x.to,
        }
    }

    pub fn to(&self) -> (r: &Callsign)
        ensures
            *r == self.spec_to(),
    {
        match self {
            AprsData::Position(x) => &x.to,
            AprsData::Message(x) => &x.to,
            AprsData::Grid(x) => &x.to,
            AprsData::Nmea(x) => &x.to,
            AprsData::ThirdParty(x) => &x.to,
            AprsData::UserDefined(x) => &x.to,
            AprsData::PositionlessWeather(x) => &x.to,
            AprsData::Telemetry(x) => &x.to,
            AprsData::Unknown(x) => &x.to,
        }
    }

    /// Decodes a packet body for the destination `to`, by its first byte.
    pub fn decode(b: &[u8], to: Callsign) -> (r: Result<AprsData, DecodeError>)
        ensures
            match r {
                Ok(d) => data_error(b@) is None && data_decodes(b@, to.parts(), d),
                Err(e) => data_error(b@) == Some(e@),
            },
        decreases b@.len(), 0nat,
    {
        assert(b@.subrange(0, b@.len() as int) =~= b@);
        if b.len() == 0 {
            let data: Vec<u8> = Vec::new();
            assert(data@ =~= b@);
            return Ok(AprsData::Unknown(AprsUnknown { to, data }));
        }
        let c = b[0];
        let rest = &b[1..b.len()];
        assert(rest@ =~= b@.drop_first());
        if c == 0x21 || c == 0x3D {
            match AprsPosition::decode(rest, to, c == 0x3D) {
                Ok(p) => Ok(AprsData::Position(p)),
                Err(e) => Err(e),
            }
        } else if c == 0x3A {
            match AprsMessage::decode(rest, to) {
                Ok(m) => Ok(AprsData::Message(m)),
                Err(e) => Err(e),
            }
        } else if c == 0x5B {
            match AprsGridLocator::decode(rest, to) {
                Ok(g) => Ok(AprsData::Grid(g)),
                Err(e) => Err(e),
            }
        } else if c == 0x24 {
            Ok(AprsData::Nmea(AprsNmea::decode(rest, to)))
        } else if c == 0x7D {
            match AprsThirdParty::decode(rest, to) {
                Ok(t) => Ok(AprsData::ThirdParty(t)),
                Err(e) => Err(e),
            }
        } else if c == 0x7B {
            Ok(AprsData::UserDefined(AprsUserDefined::decode(rest, to)))
        } else if c == 0x5F {
            match AprsPositionlessWeather::decode(rest, to) {
                Ok(w) => Ok(AprsData::PositionlessWeather(w)),
                Err(e) => Err(e),
            }
        } else if c == 0x54 {
            match AprsTelemetry::decode(rest, to) {
                Ok(t) => Ok(AprsData::Telemetry(t)),
                Err(e) => Err(e),
            }
        } else {
            Ok(AprsData::Unknown(AprsUnknown { to, data: copy_range(b, 0, b.len()) }))
        }
    }

    /// Appends the body.
    pub fn encode(&self, buf: &mut Vec<u8>) -> (r: Result<(), EncodeError>)
        ensures
            r is Ok,
            final(buf)@ == old(buf)@ + data_encode(*self),
        decreases *self, 1nat,
    {
        match self {
            AprsData::Position(x) => x.encode(buf),
            AprsData::Message(x) => x.encode(buf),
            AprsData::Grid(x) => x.encode(buf),
            AprsData::Nmea(x) => x.encode(buf),
            AprsData::ThirdParty(x) => x.encode(buf),
            AprsData::UserDefined(x) => x.encode(buf),
            AprsData::PositionlessWeather(x) => x.encode(buf),
            AprsData::Telemetry(x) => x.encode(buf),
            AprsData::Unknown(x) => {
                push_all(buf, x.data.as_slice());
                Ok(())
            },
        }
    }
}

/// Parses the destination and the path `s[start..end]`, separated by commas.
fn decode_path(s: &[u8], start: usize, end: usize) -> (r: Result<(Callsign, Vec<Via>), DecodeError>)
    requires
        start <= end <= s.len(),
    ensures
        ({
            let tv = split(s@.subrange(start as int, end as int), 0x2C);
            match r {
                Ok((to, path)) => {
                    &&& tv.len() >= 1
                    &&& callsign_parts(tv[0]) == Some(to.parts())
                    &&& first_bad_via(tv.drop_first()) is None
                    &&& path@.len() + 1 == tv.len()
                    &&& forall|i: int|
                        0 <= i < path@.len() ==> via_parts(#[trigger] tv[i + 1]) == Some(
                            path@[i].parts(),
                        )
                },
                Err(e) => if callsign_parts(tv[0]) is None {
                    e@ == DecodeErrorView::InvalidCallsign(tv[0])
                } else {
                    first_bad_via(tv.drop_first()) matches Some(v) && e@
                        == DecodeErrorView::InvalidVia(v)
                },
            }
        }),
{
    let ghost t = s@.subrange(start as int, end as int);
    let ghost tv = split(t, 0x2C);
    proof {
        lemma_split(t, 0x2C);
        lemma_find(t, 0x2C);
    }
    let first_end = match find_in(s, start, end, 0x2C) {
        Some(e) => e,
        None => end,
    };
    let to = match Callsign::decode_in(s, start, first_end) {
        Some(c) => c,
        None => {
            assert(s@.subrange(start as int, first_end as int) =~= tv[0]);
            return Err(DecodeError::InvalidCallsign(copy_range(s, start, first_end)));
        },
    };
    assert(s@.subrange(start as int, first_end as int) =~= tv[0]);
    let mut path: Vec<Via> = Vec::new();
    if first_end == end {
        assert(tv.drop_first().len() == 0);
        return Ok((to, path));
    }
    let mut pos: usize = first_end + 1;
    let mut k: usize = 1;
    assert(t.skip(first_end - start + 1) =~= s@.subrange(pos as int, end as int));
    assert(tv.skip(1) =~= tv.drop_first());
    loop
        invariant
            start < pos <= end <= s.len(),
            t == s@.subrange(start as int, end as int),
            tv == split(t, 0x2C),
            1 <= k < tv.len(),
            k <= pos,
            tv.skip(k as int) == split(s@.subrange(pos as int, end as int), 0x2C),
            first_bad_via(tv.drop_first()) == first_bad_via(tv.skip(k as int)),
            callsign_parts(tv[0]) == Some(to.parts()),
            path@.len() + 1 == k,
            forall|i: int|
                0 <= i < path@.len() ==> via_parts(#[trigger] tv[i + 1]) == Some(path@[i].parts()),
        decreases end - pos,
    {
        let ghost u = s@.subrange(pos as int, end as int);
        proof {
            lemma_split(u, 0x2C);
            lemma_find(u, 0x2C);
        }
        let found = find_in(s, pos, end, 0x2C);
        let stop = match found {
            Some(e) => e,
            None => end,
        };
        assert(s@.subrange(pos as int, stop as int) == split(u, 0x2C)[0]) by {
            if let Some(e) = found {
                assert(s@.subrange(pos as int, stop as int) =~= u.take(e - pos));
            } else {
                assert(s@.subrange(pos as int, stop as int) =~= u);
            }
        }
        assert(tv[k as int] == tv.skip(k as int)[0]);
        match Via::decode_in(s, pos, stop) {
            Some(v) => {
                path.push(v);
            },
            None => {
                assert(first_bad_via(tv.skip(k as int)) == Some(tv[k as int]));
                return Err(DecodeError::InvalidVia(copy_range(s, pos, stop)));
            },
        }
        match found {
            None => {
                proof {
                    assert(tv.skip(k as int).len() == 1);
                    assert(tv.len() == k + 1);
                    assert(tv.skip(k as int).drop_first().len() == 0);
                    assert(first_bad_via(tv.skip(k as int)) == first_bad_via(
                        tv.skip(k as int).drop_first(),
                    ));
                }
                return Ok((to, path));
            },
            Some(e) => {
                proof {
                    assert(tv.skip(k + 1) =~= tv.skip(k as int).drop_first());
                    assert(u.skip(e - pos + 1) =~= s@.subrange(e + 1, end as int));
                    lemma_split(s@.subrange(e + 1, end as int), 0x2C);
                }
                pos = e + 1;
                k = k + 1;
            },
        }
    }
}

impl AprsPacket {
    /// The destination callsign, held by the body.
    pub fn to(&self) -> (r: &Callsign)
        ensures
            *r == self.data.spec_to(),
    {
        self.data.to()
    }

    /// Decodes a packet from its textual form `FROM>TO,PATH:body`.
    pub fn decode_textual(s: &[u8]) -> (r: Result<AprsPacket, DecodeError>)
        ensures
            match r {
                Ok(p) => packet_error(s@) is None && packet_decodes(s@, p),
                Err(e) => packet_error(s@) == Some(e@),
            },
        decreases s@.len(), 1nat,
    {
        assert(s@.subrange(0, s@.len() as int) =~= s@);
        proof {
            lemma_find(s@, 0x3A);
        }
        let h = match find_in(s, 0, s.len(), 0x3A) {
            Some(h) => h,
            None => return Err(DecodeError::InvalidPacket(copy_range(s, 0, s.len()))),
        };
        let ghost header = s@.take(h as int);
        assert(s@.subrange(0, h as int) =~= header);
        proof {
            lemma_find(header, 0x3E);
        }
        let f = match find_in(s, 0, h, 0x3E) {
            Some(f) => f,
            None => return Err(DecodeError::InvalidPacket(copy_range(s, 0, s.len()))),
        };
        assert(header.take(f as int) =~= s@.subrange(0, f as int));
        assert(header.skip(f + 1) =~= s@.subrange(f + 1, h as int));
        let from = match Callsign::decode_in(s, 0, f) {
            Some(c) => c,
            None => return Err(DecodeError::InvalidCallsign(copy_range(s, 0, f))),
        };
        let (to, path) = match decode_path(s, f + 1, h) {
            Ok(x) => x,
            Err(e) => return Err(e),
        };
        let body = &s[h + 1..s.len()];
        assert(body@ =~= s@.skip(h + 1));
        let data = match AprsData::decode(body, to) {
            Ok(d) => d,
            Err(e) => return Err(e),
        };
        Ok(AprsPacket { from, via: path, data })
    }

    /// Appends the textual form `FROM>TO,PATH:body`.
    pub fn encode_textual(&self, buf: &mut Vec<u8>) -> (r: Result<(), EncodeError>)
        ensures
            r is Ok,
            final(buf)@ == old(buf)@ + packet_encode(*self),
        decreases *self, 2nat,
    {
        let ghost start = buf@;
        self.from.encode(buf);
        buf.push(0x3E);
        self.to().encode(buf);
        let ghost s1 = buf@;
        let mut i: usize = 0;
        while i < self.via.len()
            invariant
                i <= self.via@.len(),
                buf@ == s1 + vias_encode(self.via@.take(i as int)),
            decreases self.via.len() - i,
        {
            buf.push(0x2C);
            self.via[i].encode(buf);
            proof {
                assert(self.via@.take(i + 1).drop_last() =~= self.via@.take(i as int));
            }
            i = i + 1;
        }
        assert(self.via@.take(i as int) =~= self.via@);
        buf.push(0x3A);
        let _ = self.data.encode(buf);
        assert(buf@ =~= start + packet_encode(*self));
        Ok(())
    }
}

/// Each piece of `qs` after a comma.
pub open spec fn commas(qs: Seq<Seq<u8>>) -> Seq<u8>
    decreases qs.len(),
{
    if qs.len() == 0 {
        Seq::empty()
    } else {
        seq![0x2Cu8] + qs[0] + commas(qs.drop_first())
    }
}

proof fn lemma_join_commas(ps: Seq<Seq<u8>>)
    requires
        ps.len() >= 1,
    ensures
        join(ps, 0x2C) == ps[0] + commas(ps.drop_first()),
    decreases ps.len(),
{
    if ps.len() == 1 {
        assert(ps[0] + commas(ps.drop_first()) =~= ps[0]);
    } else {
        lemma_join_commas(ps.drop_first());
        assert(ps.drop_first().drop_first() =~= ps.drop_first().drop_first());
        assert(ps[0] + seq![0x2Cu8] + (ps[1] + commas(ps.drop_first().drop_first())) =~= ps[0]
            + (seq![0x2Cu8] + ps.drop_first()[0] + commas(ps.drop_first().drop_first())));
    }
}

proof fn lemma_commas_push(qs: Seq<Seq<u8>>, x: Seq<u8>)
    ensures
        commas(qs.push(x)) == commas(qs) + seq![0x2Cu8] + x,
    decreases qs.len(),
{
    if qs.len() == 0 {
        assert(qs.push(x).drop_first() =~= Seq::<Seq<u8>>::empty());
        assert(qs.push(x)[0] == x);
        assert(commas(Seq::<Seq<u8>>::empty()) == Seq::<u8>::empty());
        assert(commas(qs.push(x)) =~= seq![0x2Cu8] + x + Seq::<u8>::empty());
        assert(commas(qs) + seq![0x2Cu8] + x =~= seq![0x2Cu8] + x);
    } else {
        lemma_commas_push(qs.drop_first(), x);
        assert(qs.push(x).drop_first() =~= qs.drop_first().push(x));
        assert(seq![0x2Cu8] + qs[0] + (commas(qs.drop_first()) + seq![0x2Cu8] + x) =~= seq![
            0x2Cu8,
        ] + qs[0] + commas(qs.drop_first()) + seq![0x2Cu8] + x);
    }
}

/// Path elements that decode from the pieces `qs` encode back to them.
proof fn lemma_vias_reencode(vs: Seq<Via>, qs: Seq<Seq<u8>>)
    requires
        vs.len() == qs.len(),
        forall|i: int| 0 <= i < vs.len() ==> via_parts(#[trigger] qs[i]) == Some(vs[i].parts()),
    ensures
        vias_encode(vs) == commas(qs),
    decreases vs.len(),
{
    if vs.len() > 0 {
        let n = vs.len() - 1;
        assert forall|i: int| 0 <= i < vs.drop_last().len() implies via_parts(
            #[trigger] qs.drop_last()[i],
        ) == Some(vs.drop_last()[i].parts()) by {
            assert(qs.drop_last()[i] == qs[i]);
        }
        lemma_vias_reencode(vs.drop_last(), qs.drop_last());
        assert(via_parts(qs[n]) == Some(vs[n].parts()));
        lemma_via_reencode(qs[n], vs[n]);
        lemma_commas_push(qs.drop_last(), qs[n]);
        assert(qs.drop_last().push(qs[n]) =~= qs);
    } else {
        assert(qs =~= Seq::<Seq<u8>>::empty());
    }
}

/// True when re-encoding reproduces the body `b` byte for byte: raw NMEA,
/// messages, grid locators, user-defined bodies of two bytes or more after
/// `{`, canonical position reports and telemetry reports, bodies of unknown
/// type, and third-party bodies whose inner packet is itself such a packet.
pub open spec fn canonical_body(b: Seq<u8>) -> bool
    decreases b.len(),
{
    if b.len() == 0 {
        true
    } else {
        let c = b[0];
        if c == 0x24 || c == 0x3A || c == 0x5B {
            true
        } else if c == 0x7B {
            b.len() >= 3
        } else if c == 0x7D {
            canonical_packet(b.drop_first())
        } else if c == 0x54 {
            canonical_telemetry(b.drop_first())
        } else if c == 0x21 || c == 0x3D {
            canonical_position(b.drop_first())
        } else if c == 0x5F {
            false
        } else {
            true
        }
    }
}

/// True when the body of the packet text `s` is a `canonical_body`.
pub open spec fn canonical_packet(s: Seq<u8>) -> bool
    decreases s.len(),
{
    match find(s, 0x3A) {
        None => false,
        Some(h) => {
            proof {
                lemma_find(s, 0x3A);
            }
            canonical_body(s.skip(h + 1))
        },
    }
}

/// Decoding a packet and encoding the result gives the text back, whenever
/// its body is one that re-encodes byte for byte: the header, the sender,
/// the destination and the path always do.
#[verifier::rlimit(40)]
pub proof fn lemma_packet_reencode(s: Seq<u8>, p: AprsPacket)
    requires
        packet_decodes(s, p),
        canonical_packet(s),
    ensures
        packet_encode(p) == s,
    decreases s.len(),
{
    lemma_find(s, 0x3A);
    let h = find(s, 0x3A).unwrap();
    let header = s.take(h);
    let body = s.skip(h + 1);
    lemma_find(header, 0x3E);
    let f = find(header, 0x3E).unwrap();
    let from = header.take(f);
    let path = header.skip(f + 1);
    let tv = split(path, 0x2C);
    lemma_callsign_reencode(from, p.from);
    lemma_callsign_reencode(tv[0], p.data.spec_to());
    lemma_join_split(path, 0x2C);
    lemma_join_commas(tv);
    assert forall|i: int| 0 <= i < p.via@.len() implies via_parts(
        #[trigger] tv.drop_first()[i],
    ) == Some(p.via@[i].parts()) by {
        assert(tv.drop_first()[i] == tv[i + 1]);
    }
    lemma_vias_reencode(p.via@, tv.drop_first());
    lemma_data_reencode(body, callsign_parts(tv[0]).unwrap(), p.data);
    assert(from + seq![0x3Eu8] + path =~= header);
    assert(header + seq![0x3Au8] + body =~= s);
    assert(packet_encode(p) =~= from + seq![0x3Eu8] + (tv[0] + commas(tv.drop_first()))
        + seq![0x3Au8] + body);
}

/// `lemma_data_reencode` for a message.
proof fn lemma_message_reencode_body(b: Seq<u8>, to: (Seq<u8>, Option<Seq<u8>>), d: AprsData)
    requires
        data_decodes(b, to, d),
        canonical_body(b),
        b.len() > 0,
        b[0] == 0x3A,
    ensures
        data_encode(d) == b,
{
    let rest = b.drop_first();
    assert(seq![b[0]] + rest =~= b);
    lemma_message_reencode(rest);
    if let AprsData::Message(m) = d {
        assert(m.spec_encode() =~= seq![0x3Au8] + (m.addressee@ + crate::message::spaces(
            9 - m.addressee@.len(),
        ) + seq![0x3Au8] + m.text@ + match m.id {
            Some(i) => seq![0x7Bu8] + i@,
            None => Seq::<u8>::empty(),
        }));
    }
}

/// `lemma_data_reencode` for a grid locator.
proof fn lemma_grid_reencode_body(b: Seq<u8>, to: (Seq<u8>, Option<Seq<u8>>), d: AprsData)
    requires
        data_decodes(b, to, d),
        canonical_body(b),
        b.len() > 0,
        b[0] == 0x5B,
    ensures
        data_encode(d) == b,
{
    let rest = b.drop_first();
    assert(seq![b[0]] + rest =~= b);
    lemma_grid_reencode(rest);
    if let AprsData::Grid(g) = d {
        assert(g.spec_encode() =~= seq![0x5Bu8] + (g.grid@ + seq![0x5Du8] + g.comment@));
    }
}

/// `lemma_data_reencode` for a user-defined body.
proof fn lemma_user_defined_reencode_body(b: Seq<u8>, to: (Seq<u8>, Option<Seq<u8>>), d: AprsData)
    requires
        data_decodes(b, to, d),
        canonical_body(b),
        b.len() > 0,
        b[0] == 0x7B,
    ensures
        data_encode(d) == b,
{
    let rest = b.drop_first();
    assert(seq![b[0]] + rest =~= b);
    lemma_user_defined_reencode(rest);
    if let AprsData::UserDefined(u) = d {
        assert(u.spec_encode() =~= seq![0x7Bu8] + (seq![u.user_id, u.packet_type] + u.data@));
    }
}

/// `lemma_data_reencode` for a telemetry report.
proof fn lemma_telemetry_reencode_body(b: Seq<u8>, to: (Seq<u8>, Option<Seq<u8>>), d: AprsData)
    requires
        data_decodes(b, to, d),
        canonical_body(b),
        b.len() > 0,
        b[0] == 0x54,
    ensures
        data_encode(d) == b,
{
    let rest = b.drop_first();
    assert(seq![b[0]] + rest =~= b);
    lemma_telemetry_reencode(rest);
}

/// `lemma_data_reencode` for a position report.
proof fn lemma_position_reencode_body(b: Seq<u8>, to: (Seq<u8>, Option<Seq<u8>>), d: AprsData)
    requires
        data_decodes(b, to, d),
        canonical_body(b),
        b.len() > 0,
        b[0] == 0x21 || b[0] == 0x3D,
    ensures
        data_encode(d) == b,
{
    let c = b[0];
    let rest = b.drop_first();
    assert(seq![c] + rest =~= b);
    lemma_position_reencode(rest);
    if let AprsData::Position(p) = d {
        assert(p.spec_encode() =~= seq![c] + (position_text(p.position) + p.comment@));
    }
}

/// Decoding a body and encoding the result gives the body back, whenever
/// it is one that re-encodes byte for byte.
#[verifier::rlimit(40)]
pub proof fn lemma_data_reencode(b: Seq<u8>, to: (Seq<u8>, Option<Seq<u8>>), d: AprsData)
    requires
        data_decodes(b, to, d),
        canonical_body(b),
    ensures
        data_encode(d) == b,
    decreases b.len(),
{
    if b.len() > 0 {
        let c = b[0];
        let rest = b.drop_first();
        assert(seq![c] + rest =~= b);
        if c == 0x3A {
            lemma_message_reencode_body(b, to, d);
        } else if c == 0x5B {
            lemma_grid_reencode_body(b, to, d);
        } else if c == 0x7B {
            lemma_user_defined_reencode_body(b, to, d);
        } else if c == 0x54 {
            lemma_telemetry_reencode_body(b, to, d);
        } else if c == 0x21 || c == 0x3D {
            lemma_position_reencode_body(b, to, d);
        } else if c == 0x7D {
            if let AprsData::ThirdParty(t) = d {
                lemma_packet_reencode(rest, *t.inner);
            }
        }
    }
}

/// No byte of `s` separates the parts of a packet header: `:`, `>` or `,`.
pub open spec fn header_safe(s: Seq<u8>) -> bool {
    forall|j: int| 0 <= j < s.len() ==> s[j] != 0x3A && s[j] != 0x3E && s[j] != 0x2C
}

/// True when a body that starts with `c` goes to a decoder of its own.
pub open spec fn is_type_byte(c: u8) -> bool {
    c == 0x21 || c == 0x3D || c == 0x3A || c == 0x5B || c == 0x24 || c == 0x7D || c == 0x7B
        || c == 0x5F || c == 0x54
}

impl AprsPosition {
    /// The reports that decode back from their encoding unchanged: no DAO
    /// extension; uncompressed with ASCII symbols, a latitude and longitude
    /// that the text at their precision holds exactly, and a comment without
    /// a DAO extension whose altitude is the one held; or compressed with a
    /// latitude and longitude on compressed steps, hundredth-minute precision
    /// and the altitude that the course/speed part carries.
    pub open spec fn encodable(&self) -> bool {
        let p = self.position;
        &&& -90 * UNITS_PER_DEGREE <= p.latitude@ <= 90 * UNITS_PER_DEGREE
        &&& -180 * UNITS_PER_DEGREE <= p.longitude@ <= 180 * UNITS_PER_DEGREE
        &&& p.dao is None
        &&& if p.cst is Uncompressed {
            let k = p.precision.spec_blanks();
            &&& p.uncompressed_encodable()
            &&& kept_units(p.latitude@, k) == p.latitude@
            &&& kept_units(p.longitude@, k) == p.longitude@
            &&& spec_dao_from(self.comment@, 0) is None
            &&& p.altitude == spec_altitude_in_comment(self.comment@)
        } else {
            &&& p.compressed_encodable()
            &&& p.precision == Precision::HundredthMinute
            &&& p.altitude == cst_altitude(p.cst)
            &&& (90 * UNITS_PER_DEGREE - p.latitude@) % (UNITS_PER_COMPRESSED_LAT_STEP as int) == 0
            &&& (180 * UNITS_PER_DEGREE + p.longitude@) % (UNITS_PER_COMPRESSED_LON_STEP as int)
                == 0
        }
    }
}

/// The bodies that decode back from their encoding: a destination that
/// does, and for each kind the conditions of its own round trip; a body of
/// unknown type must not start with a data type identifier.
pub open spec fn data_encodable(d: AprsData) -> bool
    decreases d,
{
    &&& d.spec_to().encodable()
    &&& header_safe(d.spec_to().spec_encode())
    &&& match d {
        AprsData::Position(p) => p.encodable(),
        AprsData::Message(m) => message_encodable(m.addressee@, m.text@, m.id_view()),
        AprsData::Grid(g) => grid_valid(g.grid@),
        AprsData::Nmea(_) => true,
        AprsData::ThirdParty(t) => packet_encodable(*t.inner),
        AprsData::UserDefined(_) => true,
        AprsData::PositionlessWeather(w) => w.timestamp@.len() == 8 && w.weather.encodable()
            && ends_fields(w.comment@),
        AprsData::Telemetry(t) => t.encodable(),
        AprsData::Unknown(u) => u.data@.len() == 0 || !is_type_byte(u.data@[0]),
    }
}

/// The packets that decode back from their textual form: a sender and path
/// elements that decode from their encodings and hold no header separator,
/// and a body that decodes back.
pub open spec fn packet_encodable(p: AprsPacket) -> bool
    decreases p,
{
    &&& p.from.encodable()
    &&& header_safe(p.from.spec_encode())
    &&& forall|i: int|
        0 <= i < p.via@.len() ==> (#[trigger] p.via@[i]).encodable() && header_safe(
            p.via@[i].spec_encode(),
        )
    &&& data_encodable(p.data)
}

/// The encodings of the path elements.
pub open spec fn via_texts(vs: Seq<Via>) -> Seq<Seq<u8>> {
    vs.map_values(|v: Via| v.spec_encode())
}

/// The destination and the path elements after it are the pieces of the
/// path text joined by commas.
proof fn lemma_path_join(te: Seq<u8>, vs: Seq<Via>)
    ensures
        te + vias_encode(vs) == join(seq![te] + via_texts(vs), 0x2C),
    decreases vs.len(),
{
    if vs.len() == 0 {
        assert(seq![te] + via_texts(vs) =~= seq![te]);
        assert(te + vias_encode(vs) =~= te);
    } else {
        lemma_path_join(te, vs.drop_last());
        lemma_join_push(seq![te] + via_texts(vs.drop_last()), vs.last().spec_encode(), 0x2C);
        assert((seq![te] + via_texts(vs.drop_last())).push(vs.last().spec_encode()) =~= seq![te]
            + via_texts(vs));
        assert(te + vias_encode(vs) =~= te + vias_encode(vs.drop_last()) + seq![0x2Cu8]
            + vs.last().spec_encode());
    }
}

/// The path text after the destination holds no `:` and no `>` when no
/// path element does.
proof fn lemma_vias_safe(vs: Seq<Via>)
    requires
        forall|i: int| 0 <= i < vs.len() ==> header_safe(#[trigger] vs[i].spec_encode()),
    ensures
        forall|j: int|
            0 <= j < vias_encode(vs).len() ==> vias_encode(vs)[j] != 0x3A && vias_encode(vs)[j]
                != 0x3E,
    decreases vs.len(),
{
    if vs.len() > 0 {
        let e = vs.last().spec_encode();
        assert(header_safe(vs[vs.len() - 1].spec_encode()));
        assert forall|i: int| 0 <= i < vs.drop_last().len() implies header_safe(
            #[trigger] vs.drop_last()[i].spec_encode(),
        ) by {
            assert(vs.drop_last()[i] == vs[i]);
        }
        lemma_vias_safe(vs.drop_last());
        let a = vias_encode(vs.drop_last());
        assert(vias_encode(vs) =~= a + seq![0x2Cu8] + e);
        assert forall|j: int| 0 <= j < vias_encode(vs).len() implies vias_encode(vs)[j] != 0x3A
            && vias_encode(vs)[j] != 0x3E by {
            if j < a.len() {
                assert(vias_encode(vs)[j] == a[j]);
            } else if j > a.len() {
                assert(vias_encode(vs)[j] == e[j - a.len() - 1]);
            }
        }
    }
}

/// No path element is refused when each decodes.
proof fn lemma_no_bad_via(qs: Seq<Seq<u8>>)
    requires
        forall|i: int| 0 <= i < qs.len() ==> via_parts(#[trigger] qs[i]) is Some,
    ensures
        first_bad_via(qs) is None,
    decreases qs.len(),
{
    if qs.len() > 0 {
        assert(via_parts(qs[0]) is Some);
        assert forall|i: int| 0 <= i < qs.drop_first().len() implies via_parts(
            #[trigger] qs.drop_first()[i],
        ) is Some by {
            assert(qs.drop_first()[i] == qs[i + 1]);
        }
        lemma_no_bad_via(qs.drop_first());
    }
}

/// An encodable packet is what its textual form decodes to, and decoding
/// that text reports no error.
#[verifier::rlimit(40)]
pub proof fn lemma_packet_roundtrip(p: AprsPacket)
    requires
        packet_encodable(p),
    ensures
        packet_error(packet_encode(p)) is None,
        packet_decodes(packet_encode(p), p),
    decreases p,
{
    let fe = p.from.spec_encode();
    let to = p.data.spec_to();
    let te = to.spec_encode();
    let vs = p.via@;
    let ve = vias_encode(vs);
    let body = data_encode(p.data);
    let header = fe + seq![0x3Eu8] + te + ve;
    let s = packet_encode(p);
    assert(s =~= header + seq![0x3Au8] + body);
    assert forall|i: int| 0 <= i < vs.len() implies header_safe(#[trigger] vs[i].spec_encode()) by {
        assert(vs[i] == p.via@[i]);
    }
    lemma_vias_safe(vs);
    assert forall|j: int| 0 <= j < header.len() implies header[j] != 0x3A by {
        if j < fe.len() {
            assert(header[j] == fe[j]);
        } else if j > fe.len() && j < fe.len() + 1 + te.len() {
            assert(header[j] == te[j - fe.len() - 1]);
        } else if j >= fe.len() + 1 + te.len() {
            assert(header[j] == ve[j - fe.len() - 1 - te.len()]);
        }
    }
    lemma_find_unique(s, 0x3A, header.len() as int);
    assert(s.take(header.len() as int) =~= header);
    assert(s.skip(header.len() as int + 1) =~= body);
    assert forall|j: int| 0 <= j < fe.len() implies header[j] != 0x3E by {
        assert(header[j] == fe[j]);
    }
    lemma_find_unique(header, 0x3E, fe.len() as int);
    assert(header.take(fe.len() as int) =~= fe);
    let path = header.skip(fe.len() as int + 1);
    assert(path =~= te + ve);
    let ps = seq![te] + via_texts(vs);
    assert forall|i: int| 0 <= i < ps.len() implies lacks(#[trigger] ps[i], 0x2C) by {
        if i > 0 {
            assert(ps[i] == vs[i - 1].spec_encode());
            assert(header_safe(vs[i - 1].spec_encode()));
        }
    }
    lemma_path_join(te, vs);
    lemma_split_join(ps, 0x2C);
    let tv = split(path, 0x2C);
    assert(tv == ps);
    lemma_callsign_roundtrip(p.from);
    lemma_callsign_roundtrip(to);
    assert forall|i: int| 0 <= i < vs.len() implies via_parts(#[trigger] tv[i + 1]) == Some(
        vs[i].parts(),
    ) by {
        assert(tv[i + 1] == vs[i].spec_encode());
        assert(p.via@[i].encodable());
        lemma_via_roundtrip(vs[i]);
    }
    assert forall|i: int| 0 <= i < tv.drop_first().len() implies via_parts(
        #[trigger] tv.drop_first()[i],
    ) is Some by {
        assert(tv.drop_first()[i] == tv[i + 1]);
    }
    lemma_no_bad_via(tv.drop_first());
    lemma_data_roundtrip(p.data);
}

/// An encodable uncompressed position report is what its encoding decodes to.
#[verifier::rlimit(40)]
proof fn lemma_uncompressed_body_roundtrip(ap: AprsPosition)
    requires
        ap.encodable(),
        ap.position.cst is Uncompressed,
    ensures
        spec_position_decode(ap.position.spec_encode_uncompressed() + ap.comment@) matches Ok((n, q))
            && ap.position == q && ap.comment@ == (ap.position.spec_encode_uncompressed()
            + ap.comment@).skip(n),
{
    let p = ap.position;
    let c = ap.comment@;
    let e = p.spec_encode_uncompressed();
    lemma_uncompressed_position_roundtrip(p, c);
    let q = spec_position_decode(e + c)->Ok_0.1;
    Latitude::lemma_units(p.latitude);
    Longitude::lemma_units(p.longitude);
    Latitude::lemma_units(q.latitude);
    Longitude::lemma_units(q.longitude);
    assert(q.latitude@ == p.latitude@);
    assert(q.longitude@ == p.longitude@);
    assert(q == p);
    assert((e + c).skip(19) =~= c);
}

/// An encodable compressed position report is what its encoding decodes to.
proof fn lemma_compressed_body_roundtrip(ap: AprsPosition)
    requires
        ap.encodable(),
        !(ap.position.cst is Uncompressed),
    ensures
        spec_position_decode(ap.position.spec_encode_compressed() + ap.comment@) matches Ok((n, q))
            && ap.position == q && ap.comment@ == (ap.position.spec_encode_compressed()
            + ap.comment@).skip(n),
{
    let p = ap.position;
    let c = ap.comment@;
    let e = p.spec_encode_compressed();
    lemma_compressed_position_roundtrip(p, c);
    assert((e + c).skip(13) =~= c);
}

/// An encodable position report is what its encoding decodes to.
proof fn lemma_position_body_roundtrip(ap: AprsPosition)
    requires
        ap.encodable(),
    ensures
        ({
            let b = ap.spec_encode();
            &&& b.len() > 0
            &&& b[0] == 0x21 || b[0] == 0x3D
            &&& spec_position_decode(b.drop_first()) matches Ok((n, q)) && ap.position == q
                && ap.comment@ == b.drop_first().skip(n)
            &&& ap.messaging_supported == (b[0] == 0x3D)
        }),
{
    let b = ap.spec_encode();
    let p = ap.position;
    let c = ap.comment@;
    if p.cst is Uncompressed {
        lemma_uncompressed_body_roundtrip(ap);
        assert(b.drop_first() =~= p.spec_encode_uncompressed() + c);
    } else {
        lemma_compressed_body_roundtrip(ap);
        assert(b.drop_first() =~= p.spec_encode_compressed() + c);
    }
}

/// `lemma_data_roundtrip` for a position report.
proof fn lemma_position_data_roundtrip(d: AprsData)
    requires
        data_encodable(d),
        d is Position,
    ensures
        data_error(data_encode(d)) is None,
        data_decodes(data_encode(d), d.spec_to().parts(), d),
{
    let b = data_encode(d);
    if let AprsData::Position(ap) = d {
            lemma_position_body_roundtrip(ap);
    }
}

/// `lemma_data_roundtrip` for a message.
proof fn lemma_message_data_roundtrip(d: AprsData)
    requires
        data_encodable(d),
        d is Message,
    ensures
        data_error(data_encode(d)) is None,
        data_decodes(data_encode(d), d.spec_to().parts(), d),
{
    let b = data_encode(d);
    if let AprsData::Message(m) = d {
            lemma_message_roundtrip(m.addressee@, m.text@, m.id_view());
            assert(b.drop_first() =~= m.addressee@ + spaces(9 - m.addressee@.len()) + seq![0x3Au8]
                + m.text@ + match m.id_view() {
                Some(i) => seq![0x7Bu8] + i,
                None => Seq::<u8>::empty(),
            });
    }
}

/// `lemma_data_roundtrip` for a grid locator.
proof fn lemma_grid_data_roundtrip(d: AprsData)
    requires
        data_encodable(d),
        d is Grid,
    ensures
        data_error(data_encode(d)) is None,
        data_decodes(data_encode(d), d.spec_to().parts(), d),
{
    let b = data_encode(d);
    if let AprsData::Grid(g) = d {
            lemma_grid_roundtrip(g.grid@, g.comment@);
            assert(b.drop_first() =~= g.grid@ + seq![0x5Du8] + g.comment@);
    }
}

/// `lemma_data_roundtrip` for a raw NMEA sentence.
proof fn lemma_nmea_data_roundtrip(d: AprsData)
    requires
        data_encodable(d),
        d is Nmea,
    ensures
        data_error(data_encode(d)) is None,
        data_decodes(data_encode(d), d.spec_to().parts(), d),
{
    let b = data_encode(d);
    if let AprsData::Nmea(n) = d {
            assert(b.drop_first() =~= n.data@);
    }
}

/// `lemma_data_roundtrip` for a user-defined body.
proof fn lemma_user_defined_data_roundtrip(d: AprsData)
    requires
        data_encodable(d),
        d is UserDefined,
    ensures
        data_error(data_encode(d)) is None,
        data_decodes(data_encode(d), d.spec_to().parts(), d),
{
    let b = data_encode(d);
    if let AprsData::UserDefined(u) = d {
            lemma_user_defined_roundtrip(u);
    }
}

/// `lemma_data_roundtrip` for a positionless weather report.
proof fn lemma_weather_data_roundtrip(d: AprsData)
    requires
        data_encodable(d),
        d is PositionlessWeather,
    ensures
        data_error(data_encode(d)) is None,
        data_decodes(data_encode(d), d.spec_to().parts(), d),
{
    let b = data_encode(d);
    if let AprsData::PositionlessWeather(w) = d {
            lemma_positionless_roundtrip(w.timestamp@, w.weather, w.comment@);
            assert(b.drop_first() =~= w.timestamp@ + w.weather.spec_encode() + w.comment@);
    }
}

/// `lemma_data_roundtrip` for a telemetry report.
proof fn lemma_telemetry_data_roundtrip(d: AprsData)
    requires
        data_encodable(d),
        d is Telemetry,
    ensures
        data_error(data_encode(d)) is None,
        data_decodes(data_encode(d), d.spec_to().parts(), d),
{
    let b = data_encode(d);
    if let AprsData::Telemetry(t) = d {
            lemma_telemetry_roundtrip(t);
            assert(b.drop_first() =~= t.spec_encode().skip(1));
    }
}

/// `lemma_data_roundtrip` for a body of unknown type.
proof fn lemma_unknown_data_roundtrip(d: AprsData)
    requires
        data_encodable(d),
        d is Unknown,
    ensures
        data_error(data_encode(d)) is None,
        data_decodes(data_encode(d), d.spec_to().parts(), d),
{
    let b = data_encode(d);
    if let AprsData::Unknown(u) = d {
    }
}

/// An encodable body is what its encoding decodes to for its destination,
/// and decoding that encoding reports no error.
#[verifier::rlimit(40)]
pub proof fn lemma_data_roundtrip(d: AprsData)
    requires
        data_encodable(d),
    ensures
        data_error(data_encode(d)) is None,
        data_decodes(data_encode(d), d.spec_to().parts(), d),
    decreases d,
{
    if let AprsData::ThirdParty(t) = d {
        lemma_packet_roundtrip(*t.inner);
        assert(data_encode(d).drop_first() =~= packet_encode(*t.inner));
    } else if d is Position {
        lemma_position_data_roundtrip(d);
    } else if d is Message {
        lemma_message_data_roundtrip(d);
    } else if d is Grid {
        lemma_grid_data_roundtrip(d);
    } else if d is Nmea {
        lemma_nmea_data_roundtrip(d);
    } else if d is UserDefined {
        lemma_user_defined_data_roundtrip(d);
    } else if d is PositionlessWeather {
        lemma_weather_data_roundtrip(d);
    } else if d is Telemetry {
        lemma_telemetry_data_roundtrip(d);
    } else {
        lemma_unknown_data_roundtrip(d);
    }
}


/// True when the packets `a` and `b` hold the same sender, path and body,
/// compared by their contents.
pub open spec fn same_packet(a: AprsPacket, b: AprsPacket) -> bool
    decreases a,
{
    &&& a.from.parts() == b.from.parts()
    &&& a.via@.len() == b.via@.len()
    &&& forall|i: int| 0 <= i < a.via@.len() ==> (#[trigger] a.via@[i]).parts() == b.via@[i].parts()
    &&& same_data(a.data, b.data)
}

/// True when the bodies `a` and `b` are of the same kind and hold the same
/// fields, compared by their contents.
pub open spec fn same_data(a: AprsData, b: AprsData) -> bool
    decreases a,
{
    match a {
        AprsData::Position(x) => b matches AprsData::Position(y) && x.to.parts() == y.to.parts()
            && x.messaging_supported == y.messaging_supported && x.position == y.position
            && x.comment@ == y.comment@,
        AprsData::Message(x) => b matches AprsData::Message(y) && x.to.parts() == y.to.parts()
            && x.addressee@ == y.addressee@ && x.text@ == y.text@ && x.id_view() == y.id_view(),
        AprsData::Grid(x) => b matches AprsData::Grid(y) && x.to.parts() == y.to.parts() && x.grid@
            == y.grid@ && x.comment@ == y.comment@,
        AprsData::Nmea(x) => b matches AprsData::Nmea(y) && x.to.parts() == y.to.parts() && x.data@
            == y.data@,
        AprsData::ThirdParty(x) => b matches AprsData::ThirdParty(y) && x.to.parts()
            == y.to.parts() && same_packet(*x.inner, *y.inner),
        AprsData::UserDefined(x) => b matches AprsData::UserDefined(y) && x.to.parts()
            == y.to.parts() && x.user_id == y.user_id && x.packet_type == y.packet_type && x.data@
            == y.data@,
        AprsData::PositionlessWeather(x) => b matches AprsData::PositionlessWeather(y)
            && x.to.parts() == y.to.parts() && x.timestamp@ == y.timestamp@ && x.weather
            == y.weather && x.comment@ == y.comment@,
        AprsData::Telemetry(x) => b matches AprsData::Telemetry(y) && x.to.parts() == y.to.parts()
            && x.sequence@ == y.sequence@ && x.analog() == y.analog() && x.digital_bits
            == y.digital_bits && x.comment@ == y.comment@,
        AprsData::Unknown(x) => b matches AprsData::Unknown(y) && x.to.parts() == y.to.parts()
            && x.data@ == y.data@,
    }
}

/// A copy of the bytes.
fn copy_bytes(v: &Vec<u8>) -> (r: Vec<u8>)
    ensures
        r@ == v@,
{
    vstd::slice::slice_to_vec(v.as_slice())
}

/// A copy of the bytes, when there are any.
fn copy_opt_bytes(v: &Option<Vec<u8>>) -> (r: Option<Vec<u8>>)
    ensures
        match (r, *v) {
            (Some(a), Some(b)) => a@ == b@,
            (None, None) => true,
            _ => false,
        },
{
    match v {
        Some(b) => Some(copy_bytes(b)),
        None => None,
    }
}

/// A copy of the callsign.
fn copy_callsign(c: &Callsign) -> (r: Callsign)
    ensures
        r.parts() == c.parts(),
{
    Callsign { call: copy_bytes(&c.call), ssid: copy_opt_bytes(&c.ssid) }
}

/// A copy of the path.
fn copy_path(vs: &Vec<Via>) -> (r: Vec<Via>)
    ensures
        r@.len() == vs@.len(),
        forall|i: int| 0 <= i < vs@.len() ==> (#[trigger] r@[i]).parts() == vs@[i].parts(),
{
    let mut r: Vec<Via> = Vec::new();
    let mut i: usize = 0;
    while i < vs.len()
        invariant
            i <= vs@.len(),
            r@.len() == i,
            forall|j: int| 0 <= j < i ==> (#[trigger] r@[j]).parts() == vs@[j].parts(),
        decreases vs.len() - i,
    {
        let v = match &vs[i] {
            Via::Callsign(c, h) => Via::Callsign(copy_callsign(c), *h),
            Via::QConstruct(q) => Via::QConstruct(*q),
        };
        r.push(v);
        i = i + 1;
    }
    r
}

/// A copy of the analog texts of a telemetry report.
fn copy_texts(vs: &Vec<Vec<u8>>) -> (r: Vec<Vec<u8>>)
    ensures
        r@.map_values(|v: Vec<u8>| v@) == vs@.map_values(|v: Vec<u8>| v@),
{
    let mut r: Vec<Vec<u8>> = Vec::new();
    let mut i: usize = 0;
    while i < vs.len()
        invariant
            i <= vs@.len(),
            r@.len() == i,
            forall|j: int| 0 <= j < i ==> (#[trigger] r@[j])@ == vs@[j]@,
        decreases vs.len() - i,
    {
        r.push(copy_bytes(&vs[i]));
        i = i + 1;
    }
    assert(r@.map_values(|v: Vec<u8>| v@) =~= vs@.map_values(|v: Vec<u8>| v@));
    r
}

impl AprsPacket {
    /// A copy of the packet, field by field.
    pub(crate) fn copied(&self) -> (r: AprsPacket)
        ensures
            same_packet(r, *self),
        decreases *self, 2nat,
    {
        AprsPacket {
            from: copy_callsign(&self.from),
            via: copy_path(&self.via),
            data: self.data.copied(),
        }
    }
}

impl AprsData {
    /// A copy of the body, field by field.
    fn copied(&self) -> (r: AprsData)
        ensures
            same_data(r, *self),
        decreases *self, 1nat,
    {
        match self {
            AprsData::Position(x) => AprsData::Position(
                AprsPosition {
                    to: copy_callsign(&x.to),
                    messaging_supported: x.messaging_supported,
                    position: x.position,
                    comment: copy_bytes(&x.comment),
                },
            ),
            AprsData::Message(x) => AprsData::Message(
                AprsMessage {
                    to: copy_callsign(&x.to),
                    addressee: copy_bytes(&x.addressee),
                    text: copy_bytes(&x.text),
                    id: copy_opt_bytes(&x.id),
                },
            ),
            AprsData::Grid(x) => AprsData::Grid(
                AprsGridLocator {
                    to: copy_callsign(&x.to),
                    grid: copy_bytes(&x.grid),
                    comment: copy_bytes(&x.comment),
                },
            ),
            AprsData::Nmea(x) => AprsData::Nmea(
                AprsNmea { to: copy_callsign(&x.to), data: copy_bytes(&x.data) },
            ),
            AprsData::ThirdParty(x) => AprsData::ThirdParty(
                AprsThirdParty { to: copy_callsign(&x.to), inner: Box::new(x.inner.copied()) },
            ),
            AprsData::UserDefined(x) => AprsData::UserDefined(
                AprsUserDefined {
                    to: copy_callsign(&x.to),
                    user_id: x.user_id,
                    packet_type: x.packet_type,
                    data: copy_bytes(&x.data),
                },
            ),
            AprsData::PositionlessWeather(x) => AprsData::PositionlessWeather(
                AprsPositionlessWeather {
                    to: copy_callsign(&x.to),
                    timestamp: copy_bytes(&x.timestamp),
                    weather: x.weather,
                    comment: copy_bytes(&x.comment),
                },
            ),
            AprsData::Telemetry(x) => AprsData::Telemetry(
                AprsTelemetry {
                    to: copy_callsign(&x.to),
                    sequence: copy_bytes(&x.sequence),
                    analog_values: copy_texts(&x.analog_values),
                    digital_bits: x.digital_bits,
                    comment: copy_bytes(&x.comment),
                },
            ),
            AprsData::Unknown(x) => AprsData::Unknown(
                AprsUnknown { to: copy_callsign(&x.to), data: copy_bytes(&x.data) },
            ),
        }
    }
}

impl Clone for AprsPacket {
    fn clone(&self) -> Self {
        self.copied()
    }
}

impl Clone for AprsData {
    fn clone(&self) -> Self {
        self.copied()
    }
}


/// Two packets that the same text decodes to hold the same contents: what
/// `decode_textual` and the third-party decoder give for one text agree.
pub proof fn lemma_packet_decodes_unique(s: Seq<u8>, p1: AprsPacket, p2: AprsPacket)
    requires
        packet_decodes(s, p1),
        packet_decodes(s, p2),
    ensures
        same_packet(p1, p2),
    decreases s.len(), 1nat,
{
    lemma_find(s, 0x3A);
    let h = find(s, 0x3A).unwrap();
    let header = s.take(h);
    lemma_find(header, 0x3E);
    let f = find(header, 0x3E).unwrap();
    let tv = split(header.skip(f + 1), 0x2C);
    assert forall|i: int| 0 <= i < p1.via@.len() implies (#[trigger] p1.via@[i]).parts()
        == p2.via@[i].parts() by {
        assert(via_parts(tv[i + 1]) == Some(p1.via@[i].parts()));
        assert(via_parts(tv[i + 1]) == Some(p2.via@[i].parts()));
    }
    lemma_data_decodes_unique(s.skip(h + 1), callsign_parts(tv[0]).unwrap(), p1.data, p2.data);
}

/// Two bodies that the same text decodes to for one destination hold the
/// same contents.
pub proof fn lemma_data_decodes_unique(
    b: Seq<u8>,
    to: (Seq<u8>, Option<Seq<u8>>),
    d1: AprsData,
    d2: AprsData,
)
    requires
        data_decodes(b, to, d1),
        data_decodes(b, to, d2),
    ensures
        same_data(d1, d2),
    decreases b.len(), 0nat,
{
    if b.len() > 0 && b[0] == 0x7D {
        if let AprsData::ThirdParty(t1) = d1 {
            if let AprsData::ThirdParty(t2) = d2 {
                lemma_packet_decodes_unique(b.drop_first(), *t1.inner, *t2.inner);
            }
        }
    }
}

} // verus!
