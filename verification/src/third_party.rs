//! Third-party packet handling for APRS.
//!
//! Data type identifier `}` — wraps a complete APRS packet that has been
//! forwarded from one network to another (e.g., RF to APRS-IS gateway).
//! Format: `}INNER_PACKET`
//!
//! The inner packet is a full APRS packet (header:body) that is recursively
//! decoded.

use vstd::prelude::*;
use crate::callsign::Callsign;
use crate::error::{DecodeError, EncodeError};
use crate::packet::{packet_decodes, packet_encode, packet_error, AprsPacket};

verus! {

/// A third-party APRS packet, containing a forwarded inner packet.
#[derive(PartialEq, Debug)]
pub struct AprsThirdParty {
    pub to: Callsign,
    /// The forwarded inner packet, recursively decoded.
    pub inner: Box<AprsPacket>,
}

impl AprsThirdParty {
    /// The encoding: `}` and the inner packet.
    pub open spec fn spec_encode(&self) -> Seq<u8> {
        seq![0x7Du8] + packet_encode(*self.inner)
    }

    pub fn decode(b: &[u8], to: Callsign) -> (r: Result<Self, DecodeError>)
        ensures
            match r {
                Ok(t) => packet_error(b@) is None && packet_decodes(b@, *t.inner) && t.to == to,
                Err(e) => packet_error(b@) == Some(e@),
            },
        decreases b@.len(), 2nat,
    {
        let inner = match AprsPacket::decode_textual(b) {
            Ok(p) => p,
            Err(e) => return Err(e),
        };
        Ok(Self { to, inner: Box::new(inner) })
    }

    pub fn encode(&self, buf: &mut Vec<u8>) -> (r: Result<(), EncodeError>)
        ensures
            r is Ok,
            final(buf)@ == old(buf)@ + self.spec_encode(),
        decreases *self, 0nat,
    {
        let ghost start = buf@;
        buf.push(0x7D);
        let _ = self.inner.encode_textual(buf);
        assert(buf@ =~= start + self.spec_encode());
        Ok(())
    }
}


impl Clone for AprsThirdParty {
    fn clone(&self) -> Self {
        AprsThirdParty { to: self.to.clone(), inner: Box::new(self.inner.copied()) }
    }
}

} // verus!
