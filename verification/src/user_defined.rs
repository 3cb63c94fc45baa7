//! User-defined packet handling for APRS.
//!
//! Data type identifier `{` — experimental or user-defined data.
//! Format: `{UDATA` where U is a one-character user ID and DATA is
//! the user-defined data. The content is opaque to the parser.

use vstd::prelude::*;
use crate::callsign::Callsign;
use crate::error::EncodeError;
use crate::text::{copy_range, push_all};

verus! {

/// A user-defined APRS packet with an experimenter ID and opaque payload.
#[derive(PartialEq, Debug, Clone)]
pub struct AprsUserDefined {
    pub to: Callsign,
    /// Single-character user/experimenter ID.
    pub user_id: u8,
    /// User-defined packet type character.
    pub packet_type: u8,
    /// The raw user-defined data (everything after the type character).
    pub data: Vec<u8>,
}

/// What a user-defined body `b` (after `{`) decodes to: the user ID, the
/// packet type and the data, where a missing ID or type reads as 0.
pub open spec fn spec_user_defined_decode(b: Seq<u8>) -> (u8, u8, Seq<u8>) {
    (
        if b.len() > 0 {
            b[0]
        } else {
            0
        },
        if b.len() > 1 {
            b[1]
        } else {
            0
        },
        if b.len() >= 2 {
            b.skip(2)
        } else {
            Seq::empty()
        },
    )
}

impl AprsUserDefined {
    /// The encoding: `{`, the user ID, the packet type, the data.
    pub open spec fn spec_encode(&self) -> Seq<u8> {
        seq![0x7Bu8, self.user_id, self.packet_type] + self.data@
    }

    pub fn decode(b: &[u8], to: Callsign) -> (r: Self)
        ensures
            spec_user_defined_decode(b@) == (r.user_id, r.packet_type, r.data@),
            r.to == to,
    {
        let user_id = if b.len() > 0 {
            b[0]
        } else {
            0
        };
        let packet_type = if b.len() > 1 {
            b[1]
        } else {
            0
        };
        let data = if b.len() >= 2 {
            copy_range(b, 2, b.len())
        } else {
            Vec::new()
        };
        assert(b.len() >= 2 ==> data@ =~= b@.skip(2));
        assert(b.len() < 2 ==> data@ =~= Seq::<u8>::empty());
        Self { to, user_id, packet_type, data }
    }

    pub fn encode(&self, buf: &mut Vec<u8>) -> (r: Result<(), EncodeError>)
        ensures
            r is Ok,
            final(buf)@ == old(buf)@ + self.spec_encode(),
    {
        let ghost start = buf@;
        buf.push(0x7B);
        buf.push(self.user_id);
        buf.push(self.packet_type);
        push_all(buf, self.data.as_slice());
        assert(buf@ =~= start + self.spec_encode());
        Ok(())
    }
}

/// Decoding what follows the `{` of an encoding gives back the ID, the type
/// and the data.
pub proof fn lemma_user_defined_roundtrip(u: AprsUserDefined)
    ensures
        spec_user_defined_decode(u.spec_encode().drop_first()) == (u.user_id, u.packet_type, u.data@),
{
    let b = u.spec_encode().drop_first();
    assert(b.skip(2) =~= u.data@);
}

/// A body of two bytes or more is given back by encoding what it decodes to.
pub proof fn lemma_user_defined_reencode(b: Seq<u8>)
    requires
        b.len() >= 2,
    ensures
        ({
            let (id, t, d) = spec_user_defined_decode(b);
            seq![id, t] + d == b
        }),
{
    assert(seq![b[0], b[1]] + b.skip(2) =~= b);
}

} // verus!
