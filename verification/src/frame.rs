//! The framing codec: consistent-overhead byte stuffing plus a trailing
//! CRC-32. A frame on the wire is the stuffed rendering of
//! `payload ‖ crc32_le(payload)` followed by a single `0x00` terminator;
//! the terminator byte never occurs inside the stuffed body.

use vstd::prelude::*;

use vstd::slice::slice_subrange;

use crate::checksum::{crc32, crc32_of};
use crate::machine::Error;
use crate::{le32, le_value, lemma_le32, lemma_le_value4};

verus! {

/// Index of the first zero byte of `p`, or `p.len()` when there is none.
pub open spec fn first_zero(p: Seq<u8>) -> nat
    decreases p.len(),
{
    if p.len() == 0 {
        0
    } else if p[0] == 0 {
        0
    } else {
        1 + first_zero(p.skip(1))
    }
}

/// What `first_zero` promises: everything before it is nonzero, and it
/// points at a zero unless it is the length.
pub proof fn lemma_first_zero(p: Seq<u8>)
    ensures
        0 <= first_zero(p) <= p.len(),
        forall|t: int| 0 <= t < first_zero(p) ==> p[t] != 0,
        first_zero(p) < p.len() ==> p[first_zero(p) as int] == 0,
    decreases p.len(),
{
    if p.len() > 0 && p[0] != 0 {
        lemma_first_zero(p.skip(1));
        assert(forall|t: int| 0 <= t < first_zero(p) ==> p[t] != 0) by {
            assert(forall|t: int|
                1 <= t < first_zero(p) ==> p[t] == p.skip(1)[t - 1] && p.skip(1)[t - 1] != 0);
        }
    }
}

/// A scan that found `j` nonzero bytes, ending at a zero or at the end,
/// has found the first zero.
pub proof fn lemma_first_zero_is(p: Seq<u8>, j: int)
    requires
        0 <= j <= p.len(),
        forall|t: int| 0 <= t < j ==> p[t] != 0,
        j == p.len() || p[j] == 0,
    ensures
        first_zero(p) == j,
    decreases p.len(),
{
    if p.len() > 0 && j > 0 {
        assert(p[0] != 0);
        assert(forall|t: int| 0 <= t < j - 1 ==> #[trigger] p.skip(1)[t] == p[t + 1]);
        lemma_first_zero_is(p.skip(1), j - 1);
    }
}

/// A scan that found `j` nonzero bytes puts the first zero no earlier.
pub proof fn lemma_first_zero_at_least(p: Seq<u8>, j: int)
    requires
        0 <= j <= p.len(),
        forall|t: int| 0 <= t < j ==> p[t] != 0,
    ensures
        first_zero(p) >= j,
    decreases j,
{
    if j > 0 {
        assert(p[0] != 0);
        assert(forall|t: int| 0 <= t < j - 1 ==> #[trigger] p.skip(1)[t] == p[t + 1]);
        lemma_first_zero_at_least(p.skip(1), j - 1);
    }
}

/// Byte-stuffed rendering of a payload: blocks of at most 254 nonzero
/// bytes, each preceded by an overhead byte holding the block length plus
/// one; a block shorter than 254 bytes stands for its bytes followed by a
/// zero, except for the final block.
pub open spec fn cobs_encode(p: Seq<u8>) -> Seq<u8>
    decreases p.len(),
{
    let z = first_zero(p);
    if z < 254 && z < p.len() {
        seq![(z + 1) as u8] + p.take(z as int) + cobs_encode(p.skip(z as int + 1))
    } else if p.len() <= 254 {
        seq![(p.len() + 1) as u8] + p
    } else {
        seq![255u8] + p.take(254) + cobs_encode(p.skip(254))
    }
}

/// What a stuffed body stands for, or nothing if the block structure does
/// not add up.
pub open spec fn cobs_decode(b: Seq<u8>) -> Option<Seq<u8>>
    decreases b.len(),
{
    if b.len() == 0 {
        Some(Seq::empty())
    } else {
        let n = b[0] as int;
        if n == 0 || b.len() < n {
            None
        } else {
            match cobs_decode(b.skip(n)) {
                None => None,
                Some(tail) => {
                    let chunk = b.subrange(1, n);
                    if b.len() == n {
                        Some(chunk)
                    } else if n == 255 {
                        Some(chunk + tail)
                    } else {
                        Some(chunk + seq![0u8] + tail)
                    }
                },
            }
        }
    }
}

/// A stuffed body is never empty and never holds a zero byte: the frame
/// terminator cannot occur inside a frame.
pub proof fn lemma_cobs_encode_nonzero(p: Seq<u8>)
    ensures
        cobs_encode(p).len() >= 1,
        forall|i: int| 0 <= i < cobs_encode(p).len() ==> #[trigger] cobs_encode(p)[i] != 0,
    decreases p.len(),
{
    lemma_first_zero(p);
    let z = first_zero(p);
    let e = cobs_encode(p);
    if z < 254 && z < p.len() {
        lemma_cobs_encode_nonzero(p.skip(z as int + 1));
        assert forall|i: int| 0 <= i < e.len() implies #[trigger] e[i] != 0 by {
            if 1 <= i < z + 1 {
                assert(e[i] == p[i - 1]);
            } else if i >= z + 1 {
                assert(e[i] == cobs_encode(p.skip(z as int + 1))[i - z - 1]);
            }
        }
    } else if p.len() <= 254 {
        assert(z == p.len());
        assert forall|i: int| 0 <= i < e.len() implies #[trigger] e[i] != 0 by {
            if i >= 1 {
                assert(e[i] == p[i - 1]);
            }
        }
    } else {
        assert(z >= 254);
        lemma_cobs_encode_nonzero(p.skip(254));
        assert forall|i: int| 0 <= i < e.len() implies #[trigger] e[i] != 0 by {
            if 1 <= i < 255 {
                assert(e[i] == p[i - 1]);
            } else if i >= 255 {
                assert(e[i] == cobs_encode(p.skip(254))[i - 255]);
            }
        }
    }
}

/// Unstuffing a stuffed body recovers the payload exactly.
pub proof fn lemma_cobs_round_trip(p: Seq<u8>)
    ensures
        cobs_decode(cobs_encode(p)) == Some(p),
    decreases p.len(),
{
    lemma_first_zero(p);
    let z = first_zero(p);
    let e = cobs_encode(p);
    if z < 254 && z < p.len() {
        let rest = cobs_encode(p.skip(z as int + 1));
        lemma_cobs_round_trip(p.skip(z as int + 1));
        lemma_cobs_encode_nonzero(p.skip(z as int + 1));
        assert(e.len() == z + 1 + rest.len());
        assert(e[0] == z + 1);
        assert(e.skip(z as int + 1) =~= rest);
        assert(e.subrange(1, z as int + 1) =~= p.take(z as int));
        assert(p[z as int] == 0);
        assert(p.take(z as int) + seq![0u8] + p.skip(z as int + 1) =~= p);
        assert(cobs_decode(e) == Some(p));
    } else if p.len() <= 254 {
        assert(e[0] == p.len() + 1);
        assert(e.len() == p.len() + 1);
        assert(e.skip(p.len() as int + 1) =~= Seq::<u8>::empty());
        assert(cobs_decode(Seq::<u8>::empty()) == Some(Seq::<u8>::empty()));
        assert(e.subrange(1, p.len() as int + 1) =~= p);
        assert(cobs_decode(e) == Some(p));
    } else {
        let rest = cobs_encode(p.skip(254));
        lemma_cobs_round_trip(p.skip(254));
        lemma_cobs_encode_nonzero(p.skip(254));
        assert(e.len() == 255 + rest.len());
        assert(e[0] == 255);
        assert(e.skip(255) =~= rest);
        assert(e.subrange(1, 255) =~= p.take(254));
        assert(p.take(254) + p.skip(254) =~= p);
        assert(cobs_decode(e) == Some(p));
    }
}

/// Stuff a payload so that no zero byte remains in it.
pub fn cobs_stuff(p: &[u8]) -> (r: Vec<u8>)
    ensures
        r@ == cobs_encode(p@),
{
    let mut out: Vec<u8> = Vec::new();
    let mut i: usize = 0;
    let mut done: bool = false;
    proof {
        assert(p@.skip(0) =~= p@);
        assert(out@ + cobs_encode(p@) =~= cobs_encode(p@));
    }
    while !done
        invariant
            i <= p@.len(),
            done ==> out@ == cobs_encode(p@),
            !done ==> out@ + cobs_encode(p@.skip(i as int)) == cobs_encode(p@),
        decreases p@.len() - i, (if done { 0int } else { 1int }),
    {
        let ghost rem = p@.skip(i as int);
        let ghost base = out@;
        let mut j: usize = 0;
        while j < 254 && j < p.len() - i && p[i + j] != 0
            invariant
                i <= p@.len(),
                j <= 254,
                i + j <= p@.len(),
                forall|t: int| 0 <= t < j ==> rem[t] != 0,
                rem == p@.skip(i as int),
            decreases p@.len() - i - j,
        {
            j += 1;
        }
        proof {
            lemma_first_zero(rem);
        }
        let remlen: usize = p.len() - i;
        if j == remlen {
            // final block: everything left is nonzero
            proof {
                lemma_first_zero_is(rem, j as int);
            }
            out.push((j + 1) as u8);
            out.extend_from_slice(slice_subrange(p, i, i + j));
            proof {
                assert(rem =~= p@.subrange(i as int, i as int + j));
                assert(out@ =~= (base + seq![(j + 1) as u8]) + rem);
                assert(cobs_encode(rem) == seq![(j + 1) as u8] + rem);
                assert(out@ =~= base + cobs_encode(rem));
            }
            i += j;
            done = true;
        } else if j == 254 {
            // a full block of nonzero bytes, more input behind it
            proof {
                lemma_first_zero_at_least(rem, 254);
            }
            out.push(255u8);
            out.extend_from_slice(slice_subrange(p, i, i + 254));
            proof {
                assert(rem.take(254) =~= p@.subrange(i as int, i as int + 254));
                assert(out@ =~= (base + seq![255u8]) + rem.take(254));
                assert(cobs_encode(rem) == seq![255u8] + rem.take(254) + cobs_encode(
                    rem.skip(254),
                ));
                assert(rem.skip(254) =~= p@.skip(i as int + 254));
                assert(out@ + cobs_encode(p@.skip(i as int + 254)) =~= base + cobs_encode(rem));
            }
            i += 254;
        } else {
            // block ended at a zero byte, which the overhead byte absorbs
            proof {
                lemma_first_zero_is(rem, j as int);
            }
            out.push((j + 1) as u8);
            out.extend_from_slice(slice_subrange(p, i, i + j));
            proof {
                assert(rem.take(j as int) =~= p@.subrange(i as int, i as int + j));
                assert(out@ =~= (base + seq![(j + 1) as u8]) + rem.take(j as int));
                assert(cobs_encode(rem) == seq![(j + 1) as u8] + rem.take(j as int) + cobs_encode(
                    rem.skip(j as int + 1),
                ));
                assert(rem.skip(j as int + 1) =~= p@.skip(i as int + j + 1));
                assert(out@ + cobs_encode(p@.skip(i as int + j + 1)) =~= base + cobs_encode(rem));
            }
            i += j + 1;
        }
    }
    out
}

/// Undo the stuffing; `None` when the block structure does not add up.
pub fn cobs_unstuff(b: &[u8]) -> (r: Option<Vec<u8>>)
    ensures
        match cobs_decode(b@) {
            Some(u) => r matches Some(v) && v@ == u,
            None => r is None,
        },
{
    let mut out: Vec<u8> = Vec::new();
    let mut i: usize = 0;
    proof {
        assert(b@.skip(0) =~= b@);
        if let Some(t) = cobs_decode(b@) {
            assert(out@ + t =~= t);
        }
    }
    while i < b.len()
        invariant
            i <= b@.len(),
            match cobs_decode(b@.skip(i as int)) {
                Some(t) => cobs_decode(b@) == Some(out@ + t),
                None => cobs_decode(b@) is None,
            },
        decreases b@.len() - i,
    {
        let ghost rem = b@.skip(i as int);
        let n = b[i];
        if n == 0 {
            return None;
        }
        let ni = n as usize;
        if b.len() - i < ni {
            return None;
        }
        out.extend_from_slice(slice_subrange(b, i + 1, i + ni));
        proof {
            assert(rem.subrange(1, ni as int) =~= b@.subrange(i as int + 1, i as int + ni));
            assert(out@ =~= out@.subrange(0, out@.len() - (ni - 1)) + rem.subrange(1, ni as int));
            assert(rem.skip(ni as int) =~= b@.skip(i as int + ni));
        }
        if i + ni < b.len() && n < 255 {
            out.push(0u8);
            proof {
                assert(out@ =~= out@.drop_last() + seq![0u8]);
            }
        }
        i += ni;
    }
    proof {
        assert(b@.skip(i as int) =~= Seq::<u8>::empty());
    }
    Some(out)
}

/// The stuffed body of a frame: payload, CRC-32 trailer, stuffing.
pub open spec fn frame_body(p: Seq<u8>) -> Seq<u8> {
    cobs_encode(p + le32(crc32_of(p)))
}

/// A whole frame on the wire: stuffed body plus the `0x00` terminator.
pub open spec fn frame_bytes(p: Seq<u8>) -> Seq<u8> {
    frame_body(p) + seq![0u8]
}

/// What decoding a received body (the bytes before the terminator)
/// yields: the payload, or the exact transport error.
pub open spec fn frame_parse(b: Seq<u8>) -> Result<Seq<u8>, Error> {
    match cobs_decode(b) {
        None => Err(Error::Cobs),
        Some(u) => {
            if u.len() < 5 {
                Err(Error::Underfill)
            } else {
                let d = u.take(u.len() - 4);
                let c = u.skip(u.len() - 4);
                let expected = le_value(c) as u32;
                let actual = crc32_of(d);
                if expected != actual {
                    Err(Error::Crc { expected, actual })
                } else {
                    Ok(d)
                }
            }
        },
    }
}

/// Deframing a framed payload yields the payload: the frame layer round
/// trip, for every payload that carries at least one byte.
pub proof fn lemma_frame_round_trip(p: Seq<u8>)
    requires
        p.len() >= 1,
    ensures
        frame_parse(frame_body(p)) == Ok::<Seq<u8>, Error>(p),
{
    let crc = crc32_of(p);
    let u = p + le32(crc);
    lemma_le32(crc);
    lemma_cobs_round_trip(u);
    assert(u.take(u.len() - 4) =~= p);
    assert(u.skip(u.len() - 4) =~= le32(crc));
}

/// A frame whose four trailer bytes do not read as the payload's CRC-32
/// fails decoding with exactly the `Crc` error carrying both values.
pub proof fn lemma_frame_tamper(p: Seq<u8>, c: Seq<u8>)
    requires
        p.len() >= 1,
        c.len() == 4,
        le_value(c) != crc32_of(p),
    ensures
        frame_parse(cobs_encode(p + c)) == Err::<Seq<u8>, Error>(
            Error::Crc { expected: le_value(c) as u32, actual: crc32_of(p) },
        ),
{
    let u = p + c;
    lemma_cobs_round_trip(u);
    assert(u.take(u.len() - 4) =~= p);
    assert(u.skip(u.len() - 4) =~= c);
    lemma_le_value4(c);
}

/// Append the little-endian rendering of a 32-bit word.
pub fn push_le32(out: &mut Vec<u8>, x: u32)
    ensures
        final(out)@ == old(out)@ + le32(x),
{
    let b0: u8 = (x % 256) as u8;
    let b1: u8 = ((x / 256) % 256) as u8;
    let b2: u8 = ((x / 65536) % 256) as u8;
    let b3: u8 = ((x / 16777216) % 256) as u8;
    out.push(b0);
    out.push(b1);
    out.push(b2);
    out.push(b3);
    proof {
        reveal_with_fuel(crate::le_bytes, 5);
        assert(le32(x) =~= seq![b0, b1, b2, b3]);
        assert(out@ =~= old(out)@ + seq![b0, b1, b2, b3]);
    }
}

/// Read the 32-bit word that four little-endian bytes at `pos` hold.
pub fn read_le32(buf: &[u8], pos: usize) -> (r: u32)
    requires
        pos + 4 <= buf@.len(),
    ensures
        r == le_value(buf@.subrange(pos as int, pos as int + 4)) as u32,
{
    let b0 = buf[pos] as u32;
    let b1 = buf[pos + 1] as u32;
    let b2 = buf[pos + 2] as u32;
    let b3 = buf[pos + 3] as u32;
    proof {
        lemma_le_value4(buf@.subrange(pos as int, pos as int + 4));
    }
    b0 + 256 * b1 + 65536 * b2 + 16777216 * b3
}

/// Frame a payload: append the CRC-32 trailer, stuff, terminate.
pub fn encode_frame(p: &Vec<u8>) -> (r: Vec<u8>)
    ensures
        r@ == frame_bytes(p@),
{
    let crc = crc32(p.as_slice());
    let mut u: Vec<u8> = Vec::new();
    u.extend_from_slice(p.as_slice());
    proof {
        assert(u@ =~= p@);
    }
    push_le32(&mut u, crc);
    let mut out = cobs_stuff(u.as_slice());
    out.push(0u8);
    proof {
        assert(out@ =~= cobs_encode(p@ + le32(crc32_of(p@))) + seq![0u8]);
    }
    out
}

/// Deframe a received body (the bytes before the terminator): unstuff,
/// check the CRC-32 trailer, strip it.
pub fn decode_frame(b: &[u8]) -> (r: Result<Vec<u8>, Error>)
    ensures
        match frame_parse(b@) {
            Ok(d) => r matches Ok(v) && v@ == d,
            Err(e) => r == Err::<Vec<u8>, Error>(e),
        },
{
    let mut u = match cobs_unstuff(b) {
        Some(u) => u,
        None => {
            return Err(Error::Cobs);
        },
    };
    if u.len() < 5 {
        return Err(Error::Underfill);
    }
    let dlen = u.len() - 4;
    let expected = read_le32(u.as_slice(), dlen);
    u.truncate(dlen);
    proof {
        let w = cobs_decode(b@).unwrap();
        assert(u@ =~= w.take(w.len() - 4));
        assert(w.skip(w.len() - 4) =~= w.subrange(dlen as int, dlen as int + 4));
        crate::lemma_le_value_bound(w.skip(w.len() - 4));
    }
    let actual = crc32(u.as_slice());
    if expected != actual {
        return Err(Error::Crc { expected, actual });
    }
    Ok(u)
}

} // verus!
