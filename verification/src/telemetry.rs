//! Telemetry report parsing and encoding for APRS.
//!
//! Format: `T#SSS,V1,V2,V3,V4,V5,BBBBBBBB,comment`
//! where SSS is a sequence number, V1-V5 are analog values,
//! and BBBBBBBB is 8 digital bits.
//!
//! The analog values are kept as the text of their fields; reading that text
//! as a number is left to the caller.

use vstd::prelude::*;
use crate::callsign::Callsign;
use crate::error::{DecodeError, DecodeErrorView, EncodeError};
use crate::text::{copy_range, find, find_in, lemma_find, lemma_find_unique, push_all};

verus! {

/// An APRS telemetry report.
#[derive(PartialEq, Debug, Clone)]
pub struct AprsTelemetry {
    pub to: Callsign,
    pub sequence: Vec<u8>,
    /// The text of each analog field that is present, up to five.
    pub analog_values: Vec<Vec<u8>>,
    pub digital_bits: Option<u8>,
    pub comment: Vec<u8>,
}

/// The pieces of `s` between the bytes `c`, as `<[u8]>::split` gives them.
pub open spec fn split(s: Seq<u8>, c: u8) -> Seq<Seq<u8>>
    decreases s.len(),
{
    match find(s, c) {
        None => seq![s],
        Some(i) => {
            proof {
                lemma_find(s, c);
            }
            seq![s.take(i)] + split(s.skip(i + 1), c)
        },
    }
}

/// The pieces `ps` joined with `c` between them.
pub open spec fn join(ps: Seq<Seq<u8>>, c: u8) -> Seq<u8>
    decreases ps.len(),
{
    if ps.len() == 0 {
        Seq::empty()
    } else if ps.len() == 1 {
        ps[0]
    } else {
        ps[0] + seq![c] + join(ps.drop_first(), c)
    }
}

/// The value of binary digits, most significant first.
pub open spec fn bits_value(s: Seq<u8>) -> int
    decreases s.len(),
{
    if s.len() == 0 {
        0
    } else {
        bits_value(s.drop_last()) * 2 + (s.last() - 0x30)
    }
}

/// The digital bits field: eight binary digits (more may follow).
pub open spec fn spec_bits(p: Seq<u8>) -> Option<u8> {
    if p.len() >= 8 && forall|i: int| 0 <= i < 8 ==> #[trigger] p[i] == 0x30 || p[i] == 0x31 {
        Some(bits_value(p.take(8)) as u8)
    } else {
        None
    }
}

/// What a telemetry body `b` (after `T`) decodes to: the sequence, the
/// analog fields, the digital bits and the comment, or the error.
pub open spec fn spec_telemetry_decode(b: Seq<u8>) -> Result<
    (Seq<u8>, Seq<Seq<u8>>, Option<u8>, Seq<u8>),
    DecodeErrorView,
> {
    if b.len() < 2 || b[0] != 0x23 {
        Err(DecodeErrorView::InvalidTelemetry(b))
    } else {
        let parts = split(b.skip(1), 0x2C);
        Ok(
            (
                parts[0],
                parts.subrange(
                    1,
                    if parts.len() < 6 {
                        parts.len() as int
                    } else {
                        6
                    },
                ),
                if parts.len() > 6 {
                    spec_bits(parts[6])
                } else {
                    None
                },
                if parts.len() > 7 {
                    join(parts.skip(7), 0x2C)
                } else {
                    Seq::empty()
                },
            ),
        )
    }
}

/// The eight binary digits of `bits`, most significant first.
pub open spec fn bits_text(bits: u8) -> Seq<u8> {
    Seq::new(8, |i: int| ((bits as int / pow2(7 - i)) % 2 + 0x30) as u8)
}

/// `2^n`.
pub open spec fn pow2(n: int) -> int
    decreases n,
{
    if n <= 0 {
        1
    } else {
        2 * pow2(n - 1)
    }
}

/// The text of a telemetry report: `T#`, the sequence, each analog field
/// after a comma, the eight digital bits after a comma when present, and the
/// comment after a comma when it is not empty.
pub open spec fn telemetry_text(
    sequence: Seq<u8>,
    analog: Seq<Seq<u8>>,
    bits: Option<u8>,
    comment: Seq<u8>,
) -> Seq<u8> {
    seq![0x54u8, 0x23u8] + sequence + analog_text(analog) + match bits {
        Some(b) => seq![0x2Cu8] + bits_text(b),
        None => Seq::empty(),
    } + if comment.len() > 0 {
        seq![0x2Cu8] + comment
    } else {
        Seq::empty()
    }
}

/// Each analog text after a comma.
pub open spec fn analog_text(vs: Seq<Seq<u8>>) -> Seq<u8>
    decreases vs.len(),
{
    if vs.len() == 0 {
        Seq::empty()
    } else {
        analog_text(vs.drop_last()) + seq![0x2Cu8] + vs.last()
    }
}

/// Splitting at the first separator gives the text before it and the split
/// of the rest.
pub proof fn lemma_split(s: Seq<u8>, c: u8)
    ensures
        split(s, c).len() >= 1,
        find(s, c) matches Some(i) ==> split(s, c)[0] == s.take(i) && split(s, c).drop_first()
            == split(s.skip(i + 1), c),
        find(s, c) is None ==> split(s, c) == seq![s],
{
    lemma_find(s, c);
    if let Some(i) = find(s, c) {
        assert((seq![s.take(i)] + split(s.skip(i + 1), c)).drop_first() =~= split(
            s.skip(i + 1),
            c,
        ));
    }
}

/// Joining the split of `s` gives `s` back.
pub proof fn lemma_join_split(s: Seq<u8>, c: u8)
    ensures
        join(split(s, c), c) == s,
    decreases s.len(),
{
    lemma_split(s, c);
    lemma_find(s, c);
    if let Some(i) = find(s, c) {
        lemma_join_split(s.skip(i + 1), c);
        lemma_split(s.skip(i + 1), c);
        let ps = split(s, c);
        assert(ps.len() >= 2);
        assert(s.take(i) + seq![c] + s.skip(i + 1) =~= s);
    }
}

fn all_binary(p: &[u8], start: usize, end: usize) -> (r: Option<u8>)
    requires
        start <= end <= p.len(),
    ensures
        r == spec_bits(p@.subrange(start as int, end as int)),
{
    let ghost s = p@.subrange(start as int, end as int);
    if end - start < 8 {
        return None;
    }
    let mut j: usize = 0;
    let mut val: u8 = 0;
    while j < 8
        invariant
            j <= 8,
            start + 8 <= end <= p.len(),
            s == p@.subrange(start as int, end as int),
            forall|i: int| 0 <= i < j ==> #[trigger] s[i] == 0x30 || s[i] == 0x31,
            val == bits_value(s.take(j as int)),
            val < pow2(j as int),
        decreases 8 - j,
    {
        let c = p[start + j];
        if c != 0x30 && c != 0x31 {
            assert(!(s[j as int] == 0x30 || s[j as int] == 0x31));
            return None;
        }
        assert(s.take(j + 1).drop_last() =~= s.take(j as int));
        assert(pow2(j + 1) == 2 * pow2(j as int));
        assert(j < 8 ==> pow2(j + 1) <= 256) by {
            reveal_with_fuel(pow2, 9);
            lemma_pow2_mono(j + 1, 8);
        }
        val = val * 2 + (c - 0x30);
        j = j + 1;
    }
    assert(s.take(8) == s.take(j as int));
    Some(val)
}

proof fn lemma_pow2_mono(a: int, b: int)
    requires
        0 <= a <= b,
    ensures
        pow2(a) <= pow2(b),
    decreases b - a,
{
    if a < b {
        lemma_pow2_mono(a, b - 1);
        lemma_pow2_pos(b - 1);
    }
}

proof fn lemma_pow2_pos(n: int)
    ensures
        pow2(n) >= 1,
    decreases n,
{
    if n > 0 {
        lemma_pow2_pos(n - 1);
    }
}

impl AprsTelemetry {
    /// The analog fields as sequences.
    pub open spec fn analog(&self) -> Seq<Seq<u8>> {
        self.analog_values@.map_values(|v: Vec<u8>| v@)
    }

    /// The encoding: `T#`, the sequence, each analog field after a comma,
    /// the eight digital bits after a comma when present, and the comment
    /// after a comma when it is not empty.
    pub open spec fn spec_encode(&self) -> Seq<u8> {
        telemetry_text(self.sequence@, self.analog(), self.digital_bits, self.comment@)
    }

    pub fn decode(b: &[u8], to: Callsign) -> (r: Result<Self, DecodeError>)
        ensures
            match r {
                Ok(t) => spec_telemetry_decode(b@) == Ok::<_, DecodeErrorView>(
                    (t.sequence@, t.analog(), t.digital_bits, t.comment@),
                ) && t.to == to,
                Err(e) => spec_telemetry_decode(b@) == Err::<
                    (Seq<u8>, Seq<Seq<u8>>, Option<u8>, Seq<u8>),
                    DecodeErrorView,
                >(e@),
            },
    {
        // Format: T#SSS,V1,V2,V3,V4,V5,BBBBBBBB,comment
        // or T#SSS,V1,V2,V3,V4,V5,BBBBBBBB
        assert(b@.subrange(0, b@.len() as int) =~= b@);
        if b.len() < 2 || b[0] != 0x23 {
            return Err(DecodeError::InvalidTelemetry(copy_range(b, 0, b.len())));
        }
        let ghost rest = b@.skip(1);
        let ghost parts = split(rest, 0x2C);

        let mut sequence: Vec<u8> = Vec::new();
        let mut analog_values: Vec<Vec<u8>> = Vec::new();
        let mut digital_bits: Option<u8> = None;
        let mut comment: Vec<u8> = Vec::new();

        // Walk the comma-separated parts
        let mut pos: usize = 1;
        let mut k: usize = 0;
        assert(parts.skip(0) =~= parts);
        assert(rest =~= b@.skip(1));
        loop
            invariant_except_break
                k >= 1 ==> sequence@ == parts[0],
                analog_values@.map_values(|v: Vec<u8>| v@) == parts.subrange(
                    1,
                    if k < 1 {
                        1int
                    } else if k < 6 {
                        k as int
                    } else {
                        6
                    },
                ),
                digital_bits == (if k > 6 {
                    spec_bits(parts[6])
                } else {
                    None
                }),
                comment@.len() == 0,
            invariant
                1 <= pos <= b.len(),
                k <= 7,
                rest == b@.skip(1),
                parts == split(rest, 0x2C),
                k < parts.len(),
                parts.skip(k as int) == split(b@.skip(pos as int), 0x2C),
            ensures
                sequence@ == parts[0],
                analog_values@.map_values(|v: Vec<u8>| v@) == parts.subrange(
                    1,
                    if parts.len() < 6 {
                        parts.len() as int
                    } else {
                        6
                    },
                ),
                digital_bits == (if parts.len() > 6 {
                    spec_bits(parts[6])
                } else {
                    None
                }),
                comment@ == (if parts.len() > 7 {
                    join(parts.skip(7), 0x2C)
                } else {
                    Seq::<u8>::empty()
                }),
            decreases b.len() - pos,
        {
            let ghost t = b@.skip(pos as int);
            proof {
                lemma_split(t, 0x2C);
                lemma_find(t, 0x2C);
            }
            if k == 7 {
                // Remaining parts after digital bits form the comment
                comment = copy_range(b, pos, b.len());
                proof {
                    assert(comment@ =~= t);
                    lemma_join_split(t, 0x2C);
                }
                break ;
            }
            let found = find_in(b, pos, b.len(), 0x2C);
            assert(b@.subrange(pos as int, b@.len() as int) =~= t);
            let end = match found {
                Some(e) => e,
                None => b.len(),
            };
            let part = copy_range(b, pos, end);
            assert(part@ == split(t, 0x2C)[0]) by {
                if let Some(e) = found {
                    assert(part@ =~= t.take(e - pos));
                } else {
                    assert(part@ =~= t);
                }
            }
            assert(parts[k as int] == parts.skip(k as int)[0]);
            let ghost old_analog = analog_values@;
            if k == 0 {
                sequence = part;
            } else if k <= 5 {
                analog_values.push(part);
                proof {
                    assert(analog_values@.map_values(|v: Vec<u8>| v@) =~= old_analog.map_values(
                        |v: Vec<u8>| v@,
                    ).push(parts[k as int]));
                    assert(parts.subrange(1, k + 1) =~= parts.subrange(1, k as int).push(
                        parts[k as int],
                    ));
                }
            } else {
                // Parse digital bits (8 binary digits)
                digital_bits = all_binary(b, pos, end);
                assert(b@.subrange(pos as int, end as int) =~= part@);
            }
            match found {
                None => {
                    proof {
                        assert(parts.skip(k as int).len() == 1);
                        assert(parts.len() == k + 1);
                    }
                    break ;
                },
                Some(e) => {
                    proof {
                        assert(parts.skip(k + 1) =~= parts.skip(k as int).drop_first());
                        assert(t.skip(e - pos + 1) =~= b@.skip(e + 1));
                        assert(split(b@.skip(e + 1), 0x2C).len() >= 1) by {
                            lemma_split(b@.skip(e + 1), 0x2C);
                        }
                    }
                    pos = e + 1;
                    k = k + 1;
                },
            }
        }
        Ok(Self { to, sequence, analog_values, digital_bits, comment })
    }

    pub fn encode(&self, buf: &mut Vec<u8>) -> (r: Result<(), EncodeError>)
        ensures
            r is Ok,
            final(buf)@ == old(buf)@ + self.spec_encode(),
    {
        let ghost start = buf@;
        buf.push(0x54);
        buf.push(0x23);
        push_all(buf, self.sequence.as_slice());
        let ghost s1 = buf@;
        let mut i: usize = 0;
        while i < self.analog_values.len()
            invariant
                i <= self.analog_values@.len(),
                buf@ == s1 + analog_text(self.analog().take(i as int)),
            decreases self.analog_values.len() - i,
        {
            buf.push(0x2C);
            push_all(buf, self.analog_values[i].as_slice());
            proof {
                let a = self.analog();
                assert(a.take(i + 1).drop_last() =~= a.take(i as int));
                assert(a.take(i + 1).last() == self.analog_values@[i as int]@);
            }
            i = i + 1;
        }
        assert(self.analog().take(i as int) =~= self.analog());
        let ghost s2 = buf@;
        if let Some(bits) = self.digital_bits {
            buf.push(0x2C);
            let mut j: usize = 0;
            let ghost s3 = buf@;
            while j < 8
                invariant
                    j <= 8,
                    buf@ == s3 + bits_text(bits).take(j as int),
                decreases 8 - j,
            {
                let p: u8 = pow2_u8(7 - j);
                buf.push((bits / p) % 2 + 0x30);
                proof {
                    assert(bits_text(bits).take(j + 1) =~= bits_text(bits).take(j as int).push(
                        ((bits as int / pow2(7 - j)) % 2 + 0x30) as u8,
                    ));
                }
                j = j + 1;
            }
            assert(bits_text(bits).take(8) =~= bits_text(bits));
        }
        assert(buf@ =~= s2 + match self.digital_bits {
            Some(bits) => seq![0x2Cu8] + bits_text(bits),
            None => Seq::<u8>::empty(),
        });
        let ghost s4 = buf@;
        if self.comment.len() > 0 {
            buf.push(0x2C);
            push_all(buf, self.comment.as_slice());
        }
        assert(buf@ =~= s4 + if self.comment@.len() > 0 {
            seq![0x2Cu8] + self.comment@
        } else {
            Seq::<u8>::empty()
        });
        assert(buf@ =~= start + self.spec_encode());
        Ok(())
    }
}

/// `2^k` for `k` below 8.
fn pow2_u8(k: usize) -> (r: u8)
    requires
        k <= 7,
    ensures
        r as int == pow2(k as int),
        r >= 1,
{
    proof {
        reveal_with_fuel(pow2, 8);
    }
    if k == 0 {
        1
    } else if k == 1 {
        2
    } else if k == 2 {
        4
    } else if k == 3 {
        8
    } else if k == 4 {
        16
    } else if k == 5 {
        32
    } else if k == 6 {
        64
    } else {
        128
    }
}


/// No byte of `s` is `c`.
pub open spec fn lacks(s: Seq<u8>, c: u8) -> bool {
    forall|j: int| 0 <= j < s.len() ==> s[j] != c
}

/// A piece free of `c`, then `c`, then the rest: the piece comes off whole.
proof fn lemma_split_cons(a: Seq<u8>, r: Seq<u8>, c: u8)
    requires
        lacks(a, c),
    ensures
        split(a + seq![c] + r, c) == seq![a] + split(r, c),
{
    let s = a + seq![c] + r;
    lemma_find_unique(s, c, a.len() as int);
    assert(s.take(a.len() as int) =~= a);
    assert(s.skip(a.len() as int + 1) =~= r);
}

/// A piece free of `c` does not split.
proof fn lemma_split_single(a: Seq<u8>, c: u8)
    requires
        lacks(a, c),
    ensures
        split(a, c) == seq![a],
{
    lemma_find_unique(a, c, a.len() as int);
}

/// Splitting pieces free of `c`, joined by `c`, gives the pieces back.
pub proof fn lemma_split_join(ps: Seq<Seq<u8>>, c: u8)
    requires
        ps.len() >= 1,
        forall|i: int| 0 <= i < ps.len() ==> lacks(#[trigger] ps[i], c),
    ensures
        split(join(ps, c), c) == ps,
    decreases ps.len(),
{
    if ps.len() == 1 {
        lemma_split_single(ps[0], c);
        assert(seq![ps[0]] =~= ps);
    } else {
        let rest = ps.drop_first();
        assert(forall|i: int| 0 <= i < rest.len() ==> rest[i] == ps[i + 1]);
        lemma_split_join(rest, c);
        lemma_split_cons(ps[0], join(rest, c), c);
        assert(seq![ps[0]] + rest =~= ps);
    }
}

/// As `lemma_split_join`, with `c` and more text after the pieces.
proof fn lemma_split_join_then(ps: Seq<Seq<u8>>, r: Seq<u8>, c: u8)
    requires
        ps.len() >= 1,
        forall|i: int| 0 <= i < ps.len() ==> lacks(#[trigger] ps[i], c),
    ensures
        split(join(ps, c) + seq![c] + r, c) == ps + split(r, c),
    decreases ps.len(),
{
    if ps.len() == 1 {
        lemma_split_cons(ps[0], r, c);
        assert(seq![ps[0]] =~= ps);
    } else {
        let rest = ps.drop_first();
        assert(forall|i: int| 0 <= i < rest.len() ==> rest[i] == ps[i + 1]);
        lemma_split_join_then(rest, r, c);
        let tail = join(rest, c) + seq![c] + r;
        assert(join(ps, c) + seq![c] + r =~= ps[0] + seq![c] + tail);
        lemma_split_cons(ps[0], tail, c);
        assert(seq![ps[0]] + (rest + split(r, c)) =~= ps + split(r, c));
    }
}

/// Joining one more piece adds `c` and the piece at the end.
pub proof fn lemma_join_push(ps: Seq<Seq<u8>>, x: Seq<u8>, c: u8)
    requires
        ps.len() >= 1,
    ensures
        join(ps.push(x), c) == join(ps, c) + seq![c] + x,
    decreases ps.len(),
{
    let q = ps.push(x);
    assert(q[0] == ps[0]);
    if ps.len() == 1 {
        assert(q.drop_first() =~= seq![x]);
        assert(join(q.drop_first(), c) == x);
    } else {
        lemma_join_push(ps.drop_first(), x, c);
        assert(q.drop_first() =~= ps.drop_first().push(x));
        assert(ps[0] + seq![c] + (join(ps.drop_first(), c) + seq![c] + x) =~= ps[0] + seq![c]
            + join(ps.drop_first(), c) + seq![c] + x);
    }
}

/// The analog texts after a first piece are those pieces joined by commas.
proof fn lemma_analog_join(a: Seq<u8>, vs: Seq<Seq<u8>>)
    ensures
        a + analog_text(vs) == join(seq![a] + vs, 0x2C),
    decreases vs.len(),
{
    if vs.len() == 0 {
        assert(seq![a] + vs =~= seq![a]);
        assert(a + analog_text(vs) =~= a);
    } else {
        lemma_analog_join(a, vs.drop_last());
        lemma_join_push(seq![a] + vs.drop_last(), vs.last(), 0x2C);
        assert((seq![a] + vs.drop_last()).push(vs.last()) =~= seq![a] + vs);
        assert(a + analog_text(vs) =~= a + analog_text(vs.drop_last()) + seq![0x2Cu8] + vs.last());
    }
}

/// The first `k` digits of `bits_text(b)` are worth `b / 2^(8 - k)`.
proof fn lemma_bits_prefix(b: u8, k: int)
    requires
        0 <= k <= 8,
    ensures
        bits_value(bits_text(b).take(k)) == b as int / pow2(8 - k),
    decreases k,
{
    if k == 0 {
        reveal_with_fuel(pow2, 9);
        assert(pow2(8) == 256);
        assert(bits_text(b).take(0) =~= Seq::<u8>::empty());
        assert(b as int / 256 == 0);
    } else {
        lemma_bits_prefix(b, k - 1);
        let t = bits_text(b);
        assert(t.take(k).drop_last() =~= t.take(k - 1));
        lemma_pow2_pos(8 - k);
        let p = pow2(8 - k);
        let x = b as int / p;
        assert(pow2(9 - k) == p * 2);
        vstd::arithmetic::div_mod::lemma_div_denominator(b as int, p, 2);
        vstd::arithmetic::div_mod::lemma_fundamental_div_mod(x, 2);
        assert(b as int / pow2(9 - k) == x / 2);
        assert(t.take(k).last() == t[k - 1]);
        assert(t[k - 1] == (x % 2 + 0x30) as u8);
        assert(0 <= x % 2 < 2);
        assert(t[k - 1] - 0x30 == x % 2);
        assert(bits_value(t.take(k)) == bits_value(t.take(k - 1)) * 2 + (t[k - 1] - 0x30));
        assert(bits_value(t.take(k)) == x);
    }
}

/// The digital bits field written by `encode` reads back as the same bits.
pub proof fn lemma_bits_roundtrip(b: u8)
    ensures
        spec_bits(bits_text(b)) == Some(b),
{
    lemma_bits_prefix(b, 8);
    reveal_with_fuel(pow2, 2);
    assert(bits_text(b).take(8) =~= bits_text(b));
}

impl AprsTelemetry {
    /// The reports that `encode` writes in a form that `decode` reads back:
    /// no comma inside the sequence or an analog text, at most five analog
    /// fields, digital bits only after all five, a comment only after the
    /// digital bits, and something after `T#`.
    pub open spec fn encodable(&self) -> bool {
        &&& lacks(self.sequence@, 0x2C)
        &&& self.analog().len() <= 5
        &&& forall|i: int| 0 <= i < self.analog().len() ==> lacks(#[trigger] self.analog()[i], 0x2C)
        &&& self.digital_bits is Some ==> self.analog().len() == 5
        &&& self.comment@.len() > 0 ==> self.digital_bits is Some
        &&& self.spec_encode().len() > 2
    }
}

/// Decoding what `encode` wrote (after its `T`) gives back the sequence, the
/// analog texts, the digital bits and the comment.
#[verifier::rlimit(40)]
pub proof fn lemma_telemetry_roundtrip(t: AprsTelemetry)
    requires
        t.encodable(),
    ensures
        spec_telemetry_decode(t.spec_encode().skip(1)) == Ok::<_, DecodeErrorView>(
            (t.sequence@, t.analog(), t.digital_bits, t.comment@),
        ),
{
    let e = t.spec_encode();
    let body = e.skip(1);
    let an = t.analog();
    let ps = seq![t.sequence@] + an;
    assert forall|i: int| 0 <= i < ps.len() implies lacks(#[trigger] ps[i], 0x2C) by {
        if i > 0 {
            assert(ps[i] == an[i - 1]);
        }
    }
    lemma_analog_join(t.sequence@, an);
    let head = t.sequence@ + analog_text(an);
    assert(head == join(ps, 0x2C));
    let bits_part = match t.digital_bits {
        Some(bits) => seq![0x2Cu8] + bits_text(bits),
        None => Seq::<u8>::empty(),
    };
    let comment_part = if t.comment@.len() > 0 {
        seq![0x2Cu8] + t.comment@
    } else {
        Seq::<u8>::empty()
    };
    assert(e =~= seq![0x54u8, 0x23u8] + head + bits_part + comment_part);
    assert(body.skip(1) =~= head + bits_part + comment_part);
    assert(body[0] == 0x23);
    assert(body.len() >= 2);
    let parts = split(body.skip(1), 0x2C);
    match t.digital_bits {
        None => {
            assert(head + bits_part + comment_part =~= head);
            lemma_split_join(ps, 0x2C);
            assert(parts == ps);
            assert(parts[0] == t.sequence@);
            assert(parts.subrange(1, parts.len() as int) =~= an);
            assert(t.comment@ =~= Seq::<u8>::empty());
            assert(parts.len() <= 6);
            let lim = if parts.len() < 6 { parts.len() as int } else { 6 };
            assert(parts.subrange(1, lim) == an);
        },
        Some(bits) => {
            let bt = bits_text(bits);
            lemma_bits_roundtrip(bits);
            assert forall|j: int| 0 <= j < bt.len() implies bt[j] != 0x2C by {
                assert(bt[j] == ((bits as int / pow2(7 - j)) % 2 + 0x30) as u8);
            }
            let ps7 = ps.push(bt);
            assert forall|i: int| 0 <= i < ps7.len() implies lacks(#[trigger] ps7[i], 0x2C) by {
                if i < ps.len() {
                    assert(ps7[i] == ps[i]);
                }
            }
            lemma_join_push(ps, bt, 0x2C);
            if t.comment@.len() > 0 {
                assert(head + bits_part + comment_part =~= join(ps7, 0x2C) + seq![0x2Cu8]
                    + t.comment@);
                lemma_split_join_then(ps7, t.comment@, 0x2C);
                lemma_split(t.comment@, 0x2C);
                lemma_join_split(t.comment@, 0x2C);
                assert(parts.skip(7) =~= split(t.comment@, 0x2C));
            } else {
                assert(head + bits_part + comment_part =~= join(ps7, 0x2C));
                lemma_split_join(ps7, 0x2C);
                assert(t.comment@ =~= Seq::<u8>::empty());
            }
            assert(parts[0] == t.sequence@);
            assert(parts[6] == bt);
            assert(parts.subrange(1, 6) =~= an);
        },
    }
}


/// True when every byte of `s` is `0` or `1`.
pub open spec fn binary(s: Seq<u8>) -> bool {
    forall|i: int| 0 <= i < s.len() ==> #[trigger] s[i] == 0x30 || s[i] == 0x31
}

/// Binary digits are worth less than two to the power of their number.
proof fn lemma_bits_value_bound(s: Seq<u8>)
    requires
        binary(s),
    ensures
        0 <= bits_value(s) < pow2(s.len() as int),
    decreases s.len(),
{
    if s.len() > 0 {
        assert(binary(s.drop_last())) by {
            assert forall|i: int| 0 <= i < s.drop_last().len() implies #[trigger] s.drop_last()[i]
                == 0x30 || s.drop_last()[i] == 0x31 by {
                assert(s.drop_last()[i] == s[i]);
            }
        }
        assert(s[s.len() - 1] == 0x30 || s[s.len() - 1] == 0x31);
        lemma_bits_value_bound(s.drop_last());
    }
}

/// Binary digits of the same number and value are the same digits.
proof fn lemma_bits_value_injective(s: Seq<u8>, t: Seq<u8>)
    requires
        binary(s),
        binary(t),
        s.len() == t.len(),
        bits_value(s) == bits_value(t),
    ensures
        s == t,
    decreases s.len(),
{
    if s.len() > 0 {
        let n = s.len() - 1;
        assert(s[n] == 0x30 || s[n] == 0x31);
        assert(t[n] == 0x30 || t[n] == 0x31);
        assert(binary(s.drop_last())) by {
            assert forall|i: int| 0 <= i < s.drop_last().len() implies #[trigger] s.drop_last()[i]
                == 0x30 || s.drop_last()[i] == 0x31 by {
                assert(s.drop_last()[i] == s[i]);
            }
        }
        assert(binary(t.drop_last())) by {
            assert forall|i: int| 0 <= i < t.drop_last().len() implies #[trigger] t.drop_last()[i]
                == 0x30 || t.drop_last()[i] == 0x31 by {
                assert(t.drop_last()[i] == t[i]);
            }
        }
        lemma_bits_value_injective(s.drop_last(), t.drop_last());
        assert(s =~= s.drop_last().push(s[n]));
        assert(t =~= t.drop_last().push(t[n]));
    } else {
        assert(s =~= t);
    }
}

/// Eight binary digits are written back as themselves.
pub proof fn lemma_bits_text_of_value(s: Seq<u8>)
    requires
        s.len() == 8,
        binary(s),
    ensures
        bits_value(s) < 256,
        bits_text(bits_value(s) as u8) == s,
{
    lemma_bits_value_bound(s);
    reveal_with_fuel(pow2, 9);
    let b = bits_value(s) as u8;
    let t = bits_text(b);
    lemma_bits_roundtrip(b);
    assert forall|i: int| 0 <= i < t.len() implies #[trigger] t[i] == 0x30 || t[i] == 0x31 by {
        lemma_pow2_pos(7 - i);
    }
    assert(t.take(8) =~= t);
    lemma_bits_value_bound(t);
    assert(bits_value(t) == b);
    lemma_bits_value_injective(t, s);
}

/// Joining two runs of pieces puts `c` between their joins.
proof fn lemma_join_append(a: Seq<Seq<u8>>, b: Seq<Seq<u8>>, c: u8)
    requires
        a.len() >= 1,
        b.len() >= 1,
    ensures
        join(a + b, c) == join(a, c) + seq![c] + join(b, c),
    decreases a.len(),
{
    if a.len() == 1 {
        assert((a + b).drop_first() =~= b);
        assert((a + b)[0] == a[0]);
    } else {
        lemma_join_append(a.drop_first(), b, c);
        assert((a + b).drop_first() =~= a.drop_first() + b);
        assert((a + b)[0] == a[0]);
        assert(a[0] + seq![c] + (join(a.drop_first(), c) + seq![c] + join(b, c)) =~= a[0] + seq![
            c,
        ] + join(a.drop_first(), c) + seq![c] + join(b, c));
    }
}

/// True when re-encoding gives the telemetry body `b` (after `T`) back byte
/// for byte: it decodes, and when it has a digital bits field, that field is
/// exactly eight binary digits and a comma after it comes with a comment.
pub open spec fn canonical_telemetry(b: Seq<u8>) -> bool {
    &&& b.len() >= 2
    &&& b[0] == 0x23
    &&& {
        let parts = split(b.skip(1), 0x2C);
        parts.len() <= 6 || (parts[6].len() == 8 && binary(parts[6]) && (parts.len() == 7 || join(
            parts.skip(7),
            0x2C,
        ).len() > 0))
    }
}

/// The text of the first `m` pieces, where the first is the sequence and
/// the others analog texts.
proof fn lemma_head_text(parts: Seq<Seq<u8>>, m: int)
    requires
        1 <= m <= parts.len(),
    ensures
        parts[0] + analog_text(parts.subrange(1, m)) == join(parts.take(m), 0x2C),
{
    lemma_analog_join(parts[0], parts.subrange(1, m));
    assert(seq![parts[0]] + parts.subrange(1, m) =~= parts.take(m));
}

/// With a digital bits field, the pieces up to it and the comment after it
/// make up the whole text.
proof fn lemma_tail_text(parts: Seq<Seq<u8>>)
    requires
        parts.len() >= 7,
        parts[6].len() == 8,
        binary(parts[6]),
        parts.len() == 7 || join(parts.skip(7), 0x2C).len() > 0,
    ensures
        spec_bits(parts[6]) matches Some(v) && join(parts.take(6), 0x2C) + (seq![0x2Cu8]
            + bits_text(v)) + (if parts.len() > 7 && join(parts.skip(7), 0x2C).len() > 0 {
            seq![0x2Cu8] + join(parts.skip(7), 0x2C)
        } else {
            Seq::<u8>::empty()
        }) == join(parts, 0x2C),
{
    let p6 = parts[6];
    lemma_bits_text_of_value(p6);
    assert(p6.take(8) =~= p6);
    lemma_join_push(parts.take(6), p6, 0x2C);
    assert(parts.take(6).push(p6) =~= parts.take(7));
    if parts.len() == 7 {
        assert(parts.take(7) =~= parts);
    } else {
        lemma_join_append(parts.take(7), parts.skip(7), 0x2C);
        assert(parts.take(7) + parts.skip(7) =~= parts);
    }
}

/// A canonical telemetry body is given back by encoding what it decodes to.
#[verifier::rlimit(40)]
pub proof fn lemma_telemetry_reencode(b: Seq<u8>)
    requires
        canonical_telemetry(b),
    ensures
        spec_telemetry_decode(b) matches Ok((sq, an, bits, c)) && telemetry_text(sq, an, bits, c)
            == seq![0x54u8] + b,
{
    let r = b.skip(1);
    let parts = split(r, 0x2C);
    lemma_split(r, 0x2C);
    lemma_join_split(r, 0x2C);
    let m = if parts.len() < 6 {
        parts.len() as int
    } else {
        6
    };
    lemma_head_text(parts, m);
    assert(seq![0x54u8] + b =~= seq![0x54u8, 0x23u8] + r);
    let bits = if parts.len() > 6 {
        spec_bits(parts[6])
    } else {
        None
    };
    let c = if parts.len() > 7 {
        join(parts.skip(7), 0x2C)
    } else {
        Seq::<u8>::empty()
    };
    assert(spec_telemetry_decode(b) == Ok::<_, DecodeErrorView>(
        (parts[0], parts.subrange(1, m), bits, c),
    ));
    let head = parts[0] + analog_text(parts.subrange(1, m));
    if parts.len() <= 6 {
        assert(parts.take(m) =~= parts);
        assert(telemetry_text(parts[0], parts.subrange(1, m), bits, c) =~= seq![0x54u8, 0x23u8]
            + head);
    } else {
        lemma_tail_text(parts);
        let v = spec_bits(parts[6]).unwrap();
        assert(telemetry_text(parts[0], parts.subrange(1, m), bits, c) =~= seq![0x54u8, 0x23u8]
            + (head + (seq![0x2Cu8] + bits_text(v)) + (if c.len() > 0 {
            seq![0x2Cu8] + c
        } else {
            Seq::<u8>::empty()
        })));
    }
}

} // verus!
