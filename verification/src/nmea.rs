//! Raw NMEA sentence handling for APRS.
//!
//! Data type identifier `$` — stores the raw NMEA sentence without parsing.

use vstd::prelude::*;
use crate::callsign::Callsign;
use crate::error::EncodeError;
use crate::text::{copy_range, push_all};

verus! {

/// A raw NMEA sentence received via APRS.
#[derive(PartialEq, Debug, Clone)]
pub struct AprsNmea {
    pub to: Callsign,
    pub data: Vec<u8>,
}

impl AprsNmea {
    /// The encoding: `$` and the sentence.
    pub open spec fn spec_encode(&self) -> Seq<u8> {
        seq![0x24u8] + self.data@
    }

    pub fn decode(b: &[u8], to: Callsign) -> (r: Self)
        ensures
            r.data@ == b@,
            r.to == to,
    {
        assert(b@.subrange(0, b@.len() as int) =~= b@);
        Self { to, data: copy_range(b, 0, b.len()) }
    }

    pub fn encode(&self, buf: &mut Vec<u8>) -> (r: Result<(), EncodeError>)
        ensures
            r is Ok,
            final(buf)@ == old(buf)@ + self.spec_encode(),
    {
        let ghost start = buf@;
        buf.push(0x24);
        push_all(buf, self.data.as_slice());
        assert(buf@ =~= start + self.spec_encode());
        Ok(())
    }
}

/// Decoding what follows the `$` of an encoding gives back the sentence.
pub proof fn lemma_nmea_roundtrip(n: AprsNmea)
    ensures
        n.spec_encode().drop_first() == n.data@,
{
    assert(n.spec_encode().drop_first() =~= n.data@);
}

} // verus!
