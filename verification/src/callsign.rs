//! Station callsigns and the digipeater path of a packet header.

use vstd::prelude::*;
use crate::text::{copy_range, find, find_in, push_all};
use vstd::string::StringSliceAdditionalSpecFns;

verus! {

/// A station callsign with its optional SSID, as in `W0RO-11`.
#[derive(PartialEq, Debug, Clone)]
pub struct Callsign {
    pub call: Vec<u8>,
    pub ssid: Option<Vec<u8>>,
}

/// What `Callsign::decode` makes of `s`: the call and the SSID, split at the
/// first `-`; both must be non-empty.
pub open spec fn callsign_parts(s: Seq<u8>) -> Option<(Seq<u8>, Option<Seq<u8>>)> {
    match find(s, 0x2D) {
        None => if s.len() > 0 {
            Some((s, None))
        } else {
            None
        },
        Some(i) => if i > 0 && i + 1 < s.len() {
            Some((s.take(i), Some(s.skip(i + 1))))
        } else {
            None
        },
    }
}

impl Callsign {
    /// The call and the SSID as sequences.
    pub open spec fn parts(&self) -> (Seq<u8>, Option<Seq<u8>>) {
        (
            self.call@,
            match self.ssid {
                Some(s) => Some(s@),
                None => None,
            },
        )
    }

    /// The textual form: the call, then `-` and the SSID when there is one.
    pub open spec fn spec_encode(&self) -> Seq<u8> {
        match self.ssid {
            Some(s) => self.call@ + seq![0x2Du8] + s@,
            None => self.call@,
        }
    }

    pub fn new_no_ssid(call: &str) -> (r: Callsign)
        ensures
            r.call@ == call.spec_bytes(),
            r.ssid is None,
    {
        Callsign { call: vstd::slice::slice_to_vec(call.as_bytes()), ssid: None }
    }

    pub fn new_with_ssid(call: &str, ssid: &str) -> (r: Callsign)
        ensures
            r.call@ == call.spec_bytes(),
            r.ssid matches Some(s) && s@ == ssid.spec_bytes(),
    {
        Callsign {
            call: vstd::slice::slice_to_vec(call.as_bytes()),
            ssid: Some(vstd::slice::slice_to_vec(ssid.as_bytes())),
        }
    }

    /// Parses the textual form `CALL` or `CALL-SSID` from `s[start..end]`.
    pub fn decode_in(s: &[u8], start: usize, end: usize) -> (r: Option<Callsign>)
        requires
            start <= end <= s.len(),
        ensures
            match r {
                Some(c) => callsign_parts(s@.subrange(start as int, end as int)) == Some(
                    c.parts(),
                ),
                None => callsign_parts(s@.subrange(start as int, end as int)) is None,
            },
    {
        let ghost t = s@.subrange(start as int, end as int);
        proof {
            crate::text::lemma_find(t, 0x2D);
        }
        match find_in(s, start, end, 0x2D) {
            None => {
                if start < end {
                    Some(Callsign { call: copy_range(s, start, end), ssid: None })
                } else {
                    None
                }
            },
            Some(i) => {
                if i > start && i + 1 < end {
                    let c = Callsign {
                        call: copy_range(s, start, i),
                        ssid: Some(copy_range(s, i + 1, end)),
                    };
                    assert(t.take(i - start) =~= s@.subrange(start as int, i as int));
                    assert(t.skip(i - start + 1) =~= s@.subrange(i + 1, end as int));
                    Some(c)
                } else {
                    None
                }
            },
        }
    }

    /// Parses the textual form `CALL` or `CALL-SSID`.
    pub fn decode(s: &[u8]) -> (r: Option<Callsign>)
        ensures
            match r {
                Some(c) => callsign_parts(s@) == Some(c.parts()),
                None => callsign_parts(s@) is None,
            },
    {
        assert(s@.subrange(0, s@.len() as int) =~= s@);
        Self::decode_in(s, 0, s.len())
    }

    /// Appends the textual form.
    pub fn encode(&self, buf: &mut Vec<u8>)
        ensures
            final(buf)@ == old(buf)@ + self.spec_encode(),
    {
        let ghost start = buf@;
        push_all(buf, self.call.as_slice());
        match &self.ssid {
            Some(s) => {
                buf.push(0x2D);
                push_all(buf, s.as_slice());
                assert(buf@ =~= start + self.spec_encode());
            },
            None => {},
        }
    }
}

/// A callsign decoded from `s` encodes back to `s`.
pub proof fn lemma_callsign_reencode(s: Seq<u8>, c: Callsign)
    requires
        callsign_parts(s) == Some(c.parts()),
    ensures
        c.spec_encode() == s,
{
    crate::text::lemma_find(s, 0x2D);
    if let Some(i) = find(s, 0x2D) {
        assert(s.take(i) + seq![0x2Du8] + s.skip(i + 1) =~= s);
    }
}

/// A callsign whose call is not empty and holds no `-`, with an SSID that
/// is not empty when present, decodes from its encoding.
pub proof fn lemma_callsign_roundtrip(c: Callsign)
    requires
        c.encodable(),
    ensures
        callsign_parts(c.spec_encode()) == Some(c.parts()),
{
    let e = c.spec_encode();
    match c.ssid {
        Some(s) => {
            assert forall|j: int| 0 <= j < c.call@.len() implies e[j] != 0x2D by {
                assert(e[j] == c.call@[j]);
            }
            crate::text::lemma_find_unique(e, 0x2D, c.call@.len() as int);
            assert(e.take(c.call@.len() as int) =~= c.call@);
            assert(e.skip(c.call@.len() + 1int) =~= s@);
        },
        None => {
            crate::text::lemma_find_unique(e, 0x2D, e.len() as int);
        },
    }
}

/// The q-constructs that APRS-IS servers put in the path.
#[derive(PartialEq, Eq, Debug, Clone, Copy, Structural)]
pub enum QConstruct {
    AC,
    AX,
    AU,
    Ao,
    AO,
    AS,
    Ar,
    AR,
    AZ,
    AI,
}

impl QConstruct {
    /// The letter after `qA`.
    pub open spec fn spec_letter(self) -> u8 {
        match self {
            QConstruct::AC => 0x43,
            QConstruct::AX => 0x58,
            QConstruct::AU => 0x55,
            QConstruct::Ao => 0x6F,
            QConstruct::AO => 0x4F,
            QConstruct::AS => 0x53,
            QConstruct::Ar => 0x72,
            QConstruct::AR => 0x52,
            QConstruct::AZ => 0x5A,
            QConstruct::AI => 0x49,
        }
    }

    /// The q-construct whose letter after `qA` is `c`.
    pub open spec fn spec_from_letter(c: u8) -> Option<QConstruct> {
        if c == 0x43 {
            Some(QConstruct::AC)
        } else if c == 0x58 {
            Some(QConstruct::AX)
        } else if c == 0x55 {
            Some(QConstruct::AU)
        } else if c == 0x6F {
            Some(QConstruct::Ao)
        } else if c == 0x4F {
            Some(QConstruct::AO)
        } else if c == 0x53 {
            Some(QConstruct::AS)
        } else if c == 0x72 {
            Some(QConstruct::Ar)
        } else if c == 0x52 {
            Some(QConstruct::AR)
        } else if c == 0x5A {
            Some(QConstruct::AZ)
        } else if c == 0x49 {
            Some(QConstruct::AI)
        } else {
            None
        }
    }

    pub fn letter(&self) -> (r: u8)
        ensures
            r == self.spec_letter(),
    {
        match self {
            QConstruct::AC => 0x43,
            QConstruct::AX => 0x58,
            QConstruct::AU => 0x55,
            QConstruct::Ao => 0x6F,
            QConstruct::AO => 0x4F,
            QConstruct::AS => 0x53,
            QConstruct::Ar => 0x72,
            QConstruct::AR => 0x52,
            QConstruct::AZ => 0x5A,
            QConstruct::AI => 0x49,
        }
    }

    pub fn from_letter(c: u8) -> (r: Option<QConstruct>)
        ensures
            r == Self::spec_from_letter(c),
    {
        if c == 0x43 {
            Some(QConstruct::AC)
        } else if c == 0x58 {
            Some(QConstruct::AX)
        } else if c == 0x55 {
            Some(QConstruct::AU)
        } else if c == 0x6F {
            Some(QConstruct::Ao)
        } else if c == 0x4F {
            Some(QConstruct::AO)
        } else if c == 0x53 {
            Some(QConstruct::AS)
        } else if c == 0x72 {
            Some(QConstruct::Ar)
        } else if c == 0x52 {
            Some(QConstruct::AR)
        } else if c == 0x5A {
            Some(QConstruct::AZ)
        } else if c == 0x49 {
            Some(QConstruct::AI)
        } else {
            None
        }
    }
}

/// One element of the path after the destination: a digipeater callsign
/// (with `*` when it has repeated the packet) or a q-construct.
#[derive(PartialEq, Debug, Clone)]
pub enum Via {
    Callsign(Callsign, bool),
    QConstruct(QConstruct),
}

/// What a path element `s` decodes to, as the q-construct or the callsign's
/// parts with the heard flag.
pub open spec fn via_parts(s: Seq<u8>) -> Option<Result<QConstruct, (Seq<u8>, Option<Seq<u8>>, bool)>> {
    if s.len() == 3 && s[0] == 0x71 && s[1] == 0x41 && QConstruct::spec_from_letter(s[2]) is Some {
        Some(Ok(QConstruct::spec_from_letter(s[2]).unwrap()))
    } else {
        let heard = s.len() > 0 && s.last() == 0x2A;
        let c = if heard {
            s.drop_last()
        } else {
            s
        };
        match callsign_parts(c) {
            Some((call, ssid)) => Some(Err((call, ssid, heard))),
            None => None,
        }
    }
}

/// A path element decoded from `s` encodes back to `s`.
pub proof fn lemma_via_reencode(s: Seq<u8>, v: Via)
    requires
        via_parts(s) == Some(v.parts()),
    ensures
        v.spec_encode() == s,
{
    if s.len() == 3 && s[0] == 0x71 && s[1] == 0x41 && QConstruct::spec_from_letter(s[2]) is Some {
        let q = QConstruct::spec_from_letter(s[2]).unwrap();
        assert(q.spec_letter() == s[2]);
        assert(seq![0x71u8, 0x41u8, q.spec_letter()] =~= s);
    } else {
        match v {
            Via::Callsign(c, h) => {
                let heard = s.len() > 0 && s.last() == 0x2A;
                let cs = if heard {
                    s.drop_last()
                } else {
                    s
                };
                lemma_callsign_reencode(cs, c);
                if heard {
                    assert(cs.push(0x2A) =~= s);
                }
            },
            Via::QConstruct(_) => {},
        }
    }
}

impl Via {
    pub open spec fn parts(&self) -> Result<QConstruct, (Seq<u8>, Option<Seq<u8>>, bool)> {
        match self {
            Via::QConstruct(q) => Ok(*q),
            Via::Callsign(c, h) => Err((c.parts().0, c.parts().1, *h)),
        }
    }

    pub open spec fn spec_encode(&self) -> Seq<u8> {
        match self {
            Via::QConstruct(q) => seq![0x71u8, 0x41u8, q.spec_letter()],
            Via::Callsign(c, h) => if *h {
                c.spec_encode().push(0x2A)
            } else {
                c.spec_encode()
            },
        }
    }

    /// Parses a path element from `s[start..end]`.
    pub fn decode_in(s: &[u8], start: usize, end: usize) -> (r: Option<Via>)
        requires
            start <= end <= s.len(),
        ensures
            match r {
                Some(v) => via_parts(s@.subrange(start as int, end as int)) == Some(v.parts()),
                None => via_parts(s@.subrange(start as int, end as int)) is None,
            },
    {
        let ghost t = s@.subrange(start as int, end as int);
        if end - start == 3 && s[start] == 0x71 && s[start + 1] == 0x41 {
            if let Some(q) = QConstruct::from_letter(s[start + 2]) {
                return Some(Via::QConstruct(q));
            }
        }
        let heard = end > start && s[end - 1] == 0x2A;
        let stop = if heard {
            end - 1
        } else {
            end
        };
        assert(heard ==> t.drop_last() =~= s@.subrange(start as int, stop as int));
        match Callsign::decode_in(s, start, stop) {
            Some(c) => Some(Via::Callsign(c, heard)),
            None => None,
        }
    }

    /// Appends the textual form.
    pub fn encode(&self, buf: &mut Vec<u8>)
        ensures
            final(buf)@ == old(buf)@ + self.spec_encode(),
    {
        let ghost start = buf@;
        match self {
            Via::QConstruct(q) => {
                buf.push(0x71);
                buf.push(0x41);
                buf.push(q.letter());
                assert(buf@ =~= start + self.spec_encode());
            },
            Via::Callsign(c, h) => {
                c.encode(buf);
                if *h {
                    buf.push(0x2A);
                    assert(buf@ =~= start + self.spec_encode());
                }
            },
        }
    }
}


impl Callsign {
    /// The callsigns that decode from their encoding: a call that is not
    /// empty and holds no `-`, and an SSID that is not empty when present.
    pub open spec fn encodable(&self) -> bool {
        &&& self.call@.len() > 0
        &&& forall|i: int| 0 <= i < self.call@.len() ==> self.call@[i] != 0x2D
        &&& self.ssid matches Some(s) ==> s@.len() > 0
    }
}

impl Via {
    /// The path elements that decode from their encoding: every q-construct,
    /// and an encodable callsign, which, unless heard, must not end in `*`
    /// nor read as a q-construct.
    pub open spec fn encodable(&self) -> bool {
        match self {
            Via::QConstruct(_) => true,
            Via::Callsign(c, h) => c.encodable() && (!*h ==> {
                let e = c.spec_encode();
                &&& e.last() != 0x2A
                &&& !(e.len() == 3 && e[0] == 0x71 && e[1] == 0x41
                    && QConstruct::spec_from_letter(e[2]) is Some)
            }),
        }
    }
}

/// The letter of a q-construct names it again.
pub proof fn lemma_letter_roundtrip(q: QConstruct)
    ensures
        QConstruct::spec_from_letter(q.spec_letter()) == Some(q),
{
}

/// An encodable path element decodes from its encoding.
pub proof fn lemma_via_roundtrip(v: Via)
    requires
        v.encodable(),
    ensures
        via_parts(v.spec_encode()) == Some(v.parts()),
{
    match v {
        Via::QConstruct(q) => {
            lemma_letter_roundtrip(q);
        },
        Via::Callsign(c, h) => {
            lemma_callsign_roundtrip(c);
            let e = c.spec_encode();
            if h {
                assert(e.push(0x2A).drop_last() =~= e);
                assert(QConstruct::spec_from_letter(0x2A) is None);
            }
        },
    }
}

} // verus!
