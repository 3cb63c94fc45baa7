//! APRS messages: `:ADDRESSEE:text{id`, the addressee padded to nine
//! characters.

use vstd::prelude::*;
use crate::callsign::Callsign;
use crate::error::{DecodeError, DecodeErrorView, EncodeError};
use crate::text::{copy_range, lemma_rfind, push_all, rfind, rfind_in};

verus! {

/// A message to another station, with an optional message number.
#[derive(PartialEq, Debug, Clone)]
pub struct AprsMessage {
    pub to: Callsign,
    pub addressee: Vec<u8>,
    pub text: Vec<u8>,
    pub id: Option<Vec<u8>>,
}

/// `s` without its trailing spaces.
pub open spec fn trim_spaces_end(s: Seq<u8>) -> Seq<u8>
    decreases s.len(),
{
    if s.len() > 0 && s.last() == 0x20 {
        trim_spaces_end(s.drop_last())
    } else {
        s
    }
}

/// What a message body `b` (after the first `:`) decodes to: the addressee
/// (the first nine bytes without trailing spaces), the text, and the number
/// after the last `{`, or the error.
pub open spec fn spec_message_decode(b: Seq<u8>) -> Result<(Seq<u8>, Seq<u8>, Option<Seq<u8>>), DecodeErrorView> {
    if b.len() < 10 || b[9] != 0x3A {
        Err(DecodeErrorView::InvalidMessage(b))
    } else {
        let addressee = trim_spaces_end(b.take(9));
        let rest = b.skip(10);
        match rfind(rest, 0x7B) {
            Some(i) => Ok((addressee, rest.take(i), Some(rest.skip(i + 1)))),
            None => Ok((addressee, rest, None)),
        }
    }
}

/// `n` spaces.
pub open spec fn spaces(n: int) -> Seq<u8> {
    Seq::new(
        if n > 0 {
            n as nat
        } else {
            0
        },
        |i: int| 0x20u8,
    )
}

impl AprsMessage {
    pub open spec fn id_view(&self) -> Option<Seq<u8>> {
        match self.id {
            Some(i) => Some(i@),
            None => None,
        }
    }

    /// The encoding: `:`, the addressee padded with spaces to nine bytes,
    /// `:`, the text, and `{` with the number when there is one.
    pub open spec fn spec_encode(&self) -> Seq<u8> {
        seq![0x3Au8] + self.addressee@ + spaces(9 - self.addressee@.len()) + seq![0x3Au8]
            + self.text@ + match self.id {
            Some(i) => seq![0x7Bu8] + i@,
            None => Seq::empty(),
        }
    }

    pub fn decode(b: &[u8], to: Callsign) -> (r: Result<Self, DecodeError>)
        ensures
            match r {
                Ok(m) => spec_message_decode(b@) == Ok::<_, DecodeErrorView>(
                    (m.addressee@, m.text@, m.id_view()),
                ) && m.to == to,
                Err(e) => spec_message_decode(b@) == Err::<
                    (Seq<u8>, Seq<u8>, Option<Seq<u8>>),
                    DecodeErrorView,
                >(e@),
            },
    {
        assert(b@.subrange(0, b@.len() as int) =~= b@);
        if b.len() < 10 || b[9] != 0x3A {
            return Err(DecodeError::InvalidMessage(copy_range(b, 0, b.len())));
        }
        let mut end: usize = 9;
        assert(b@.subrange(0, 9) =~= b@.take(9));
        while end > 0 && b[end - 1] == 0x20
            invariant
                end <= 9,
                9 < b@.len(),
                trim_spaces_end(b@.take(9)) == trim_spaces_end(b@.subrange(0, end as int)),
            decreases end,
        {
            assert(b@.subrange(0, end as int).drop_last() =~= b@.subrange(0, end - 1));
            end = end - 1;
        }
        let addressee = copy_range(b, 0, end);
        let ghost rest = b@.skip(10);
        assert(b@.subrange(10, b@.len() as int) =~= rest);
        proof {
            lemma_rfind(rest, 0x7B);
        }
        let (text, id) = match rfind_in(b, 10, b.len(), 0x7B) {
            Some(i) => {
                let text = copy_range(b, 10, i);
                let id = copy_range(b, i + 1, b.len());
                assert(text@ =~= rest.take(i - 10));
                assert(id@ =~= rest.skip(i - 10 + 1));
                (text, Some(id))
            },
            None => (copy_range(b, 10, b.len()), None),
        };
        Ok(Self { to, addressee, text, id })
    }

    pub fn encode(&self, buf: &mut Vec<u8>) -> (r: Result<(), EncodeError>)
        ensures
            r is Ok,
            final(buf)@ == old(buf)@ + self.spec_encode(),
    {
        let ghost start = buf@;
        buf.push(0x3A);
        push_all(buf, self.addressee.as_slice());
        let ghost s1 = buf@;
        let mut n: usize = self.addressee.len();
        while n < 9
            invariant
                self.addressee@.len() <= n <= 9 || (n == self.addressee@.len() && n >= 9),
                buf@ == s1 + spaces(n - self.addressee@.len()),
            decreases 9 - n,
        {
            buf.push(0x20);
            n = n + 1;
            assert(buf@ =~= s1 + spaces(n - self.addressee@.len()));
        }
        assert(spaces(n - self.addressee@.len()) =~= spaces(9 - self.addressee@.len()));
        buf.push(0x3A);
        push_all(buf, self.text.as_slice());
        let ghost s2 = buf@;
        match &self.id {
            Some(i) => {
                buf.push(0x7B);
                push_all(buf, i.as_slice());
            },
            None => {},
        }
        assert(buf@ =~= start + self.spec_encode());
        Ok(())
    }
}

/// True when `m` encodes to text that decodes back to it: an addressee of
/// at most nine bytes that does not end in a space, and a `{` only as the
/// separator of the message number.
pub open spec fn message_encodable(addressee: Seq<u8>, text: Seq<u8>, id: Option<Seq<u8>>) -> bool {
    &&& addressee.len() <= 9
    &&& (addressee.len() > 0 ==> addressee.last() != 0x20)
    &&& match id {
        Some(i) => forall|j: int| 0 <= j < i.len() ==> i[j] != 0x7B,
        None => forall|j: int| 0 <= j < text.len() ==> text[j] != 0x7B,
    }
}

/// A message that can be encoded decodes back from what follows the first
/// `:` of its encoding.
pub proof fn lemma_message_roundtrip(addressee: Seq<u8>, text: Seq<u8>, id: Option<Seq<u8>>)
    requires
        message_encodable(addressee, text, id),
    ensures
        ({
            let b = addressee + spaces(9 - addressee.len()) + seq![0x3Au8] + text + match id {
                Some(i) => seq![0x7Bu8] + i,
                None => Seq::<u8>::empty(),
            };
            spec_message_decode(b) == Ok::<_, DecodeErrorView>((addressee, text, id))
        }),
{
    let pad = addressee + spaces(9 - addressee.len());
    let tail = text + match id {
        Some(i) => seq![0x7Bu8] + i,
        None => Seq::<u8>::empty(),
    };
    let b = addressee + spaces(9 - addressee.len()) + seq![0x3Au8] + text + match id {
        Some(i) => seq![0x7Bu8] + i,
        None => Seq::<u8>::empty(),
    };
    assert(b =~= pad + seq![0x3Au8] + tail);
    assert(pad.len() == 9);
    assert(b.take(9) =~= pad);
    assert(b[9] == 0x3A);
    assert(b.skip(10) =~= tail);
    lemma_trim_pad(addressee, (9 - addressee.len()) as nat);
    match id {
        Some(i) => {
            assert forall|j: int| text.len() < j < tail.len() implies tail[j] != 0x7B by {
                assert(tail[j] == i[j - text.len() - 1]);
            }
            crate::text::lemma_rfind_unique(tail, 0x7B, text.len() as int);
            assert(tail.take(text.len() as int) =~= text);
            assert(tail.skip(text.len() + 1int) =~= i);
        },
        None => {
            assert(tail =~= text);
            crate::text::lemma_rfind_unique(tail, 0x7B, -1);
        },
    }
}

/// Padding the trimmed nine bytes back with spaces gives them back.
proof fn lemma_pad_trim(x: Seq<u8>)
    ensures
        trim_spaces_end(x).len() <= x.len(),
        trim_spaces_end(x) + spaces(x.len() - trim_spaces_end(x).len()) == x,
    decreases x.len(),
{
    if x.len() > 0 && x.last() == 0x20 {
        lemma_pad_trim(x.drop_last());
        let t = trim_spaces_end(x.drop_last());
        assert(t + spaces(x.len() - t.len()) =~= (t + spaces(x.len() - 1 - t.len())).push(0x20));
        assert(x.drop_last().push(0x20) =~= x);
    } else {
        assert(x + spaces(0) =~= x);
    }
}

/// Every message body that decodes is given back by encoding what it
/// decodes to (after the leading `:`).
pub proof fn lemma_message_reencode(b: Seq<u8>)
    requires
        spec_message_decode(b) is Ok,
    ensures
        ({
            let (addressee, text, id) = spec_message_decode(b)->Ok_0;
            addressee + spaces(9 - addressee.len()) + seq![0x3Au8] + text + match id {
                Some(i) => seq![0x7Bu8] + i,
                None => Seq::<u8>::empty(),
            } == b
        }),
{
    let x = b.take(9);
    lemma_pad_trim(x);
    let rest = b.skip(10);
    lemma_rfind(rest, 0x7B);
    let (addressee, text, id) = spec_message_decode(b)->Ok_0;
    assert(addressee + spaces(9 - addressee.len()) == x);
    match rfind(rest, 0x7B) {
        Some(i) => {
            assert(rest.take(i) + (seq![0x7Bu8] + rest.skip(i + 1)) =~= rest);
            assert(x + seq![0x3Au8] + text + (seq![0x7Bu8] + rest.skip(i + 1)) =~= b);
        },
        None => {
            assert(x + seq![0x3Au8] + rest + Seq::<u8>::empty() =~= b);
        },
    }
}

proof fn lemma_trim_pad(a: Seq<u8>, k: nat)
    requires
        a.len() > 0 ==> a.last() != 0x20,
    ensures
        trim_spaces_end(a + spaces(k as int)) == a,
    decreases k,
{
    if k > 0 {
        assert((a + spaces(k as int)).drop_last() =~= a + spaces(k - 1));
        lemma_trim_pad(a, (k - 1) as nat);
    } else {
        assert(a + spaces(0) =~= a);
    }
}

} // verus!
