//! Primitive wire encodings of the structural codec: variable-length
//! integers (seven value bits per byte, least significant group first,
//! high bit marking continuation) and length-prefixed byte strings.

use vstd::prelude::*;

verus! {

/// 128^k, the number of values a k-byte varint can carry.
pub open spec fn pow128(k: nat) -> nat
    decreases k,
{
    if k == 0 {
        1
    } else {
        128 * pow128((k - 1) as nat)
    }
}

/// Variable-length rendering of an unsigned integer.
pub open spec fn vi(x: nat) -> Seq<u8>
    decreases x,
{
    if x < 128 {
        seq![x as u8]
    } else {
        seq![(128 + x % 128) as u8] + vi(x / 128)
    }
}

/// Parse a varint from the front of `b`, reading at most `cap` bytes.
/// Yields the value and the number of bytes consumed.
pub open spec fn parse_vi(b: Seq<u8>, cap: nat) -> Option<(nat, int)>
    decreases cap,
{
    if b.len() == 0 || cap == 0 {
        None
    } else if b[0] < 128 {
        Some((b[0] as nat, 1))
    } else {
        match parse_vi(b.skip(1), (cap - 1) as nat) {
            Some((v, n)) => Some(((b[0] - 128) as nat + 128 * v, n + 1)),
            None => None,
        }
    }
}

/// A value below 128^k fits in k varint bytes.
pub proof fn lemma_vi_len(x: nat, k: nat)
    requires
        k >= 1,
        x < pow128(k),
    ensures
        vi(x).len() <= k,
    decreases k,
{
    if x >= 128 {
        if k == 1 {
            assert(pow128(1) == 128) by {
                reveal_with_fuel(pow128, 2);
            }
        } else {
            lemma_vi_len(x / 128, (k - 1) as nat);
        }
    }
}

/// A parsed varint consumes between one and `cap` bytes and its value is
/// below 128^(bytes consumed).
pub proof fn lemma_parse_vi_bound(b: Seq<u8>, cap: nat)
    ensures
        match parse_vi(b, cap) {
            Some((v, n)) => 1 <= n <= cap && n <= b.len() && v < pow128(n as nat),
            None => true,
        },
    decreases cap,
{
    if b.len() == 0 || cap == 0 {
    } else if b[0] < 128 {
        assert(pow128(1) == 128) by {
            reveal_with_fuel(pow128, 2);
        }
    } else {
        lemma_parse_vi_bound(b.skip(1), (cap - 1) as nat);
        if let Some((v, n)) = parse_vi(b.skip(1), (cap - 1) as nat) {
            assert(pow128((n + 1) as nat) == 128 * pow128(n as nat));
            assert((b[0] - 128) as nat + 128 * v < 128 * pow128(n as nat)) by (nonlinear_arith)
                requires
                    v < pow128(n as nat),
                    b[0] < 256,
                    b[0] >= 128,
            ;
        }
    }
}

/// The concrete values of pow128 up to ten bytes.
pub proof fn lemma_pow128_vals()
    ensures
        pow128(0) == 1,
        pow128(1) == 128,
        pow128(5) == 0x800000000,
        pow128(9) == 0x8000000000000000,
        pow128(10) == 0x400000000000000000,
{
    assert(pow128(0) == 1);
    assert(pow128(1) == 128);
    assert(pow128(2) == 0x4000);
    assert(pow128(3) == 0x200000);
    assert(pow128(4) == 0x10000000);
    assert(pow128(5) == 0x800000000);
    assert(pow128(6) == 0x40000000000);
    assert(pow128(7) == 0x2000000000000);
    assert(pow128(8) == 0x100000000000000);
    assert(pow128(9) == 0x8000000000000000);
    assert(pow128(10) == 0x400000000000000000);
}

/// pow128 grows with its exponent.
pub proof fn lemma_pow128_le(j: nat, k: nat)
    requires
        j <= k,
    ensures
        pow128(j) <= pow128(k),
    decreases k,
{
    if j < k {
        lemma_pow128_le(j, (k - 1) as nat);
    }
}

/// Parsing a varint rendering followed by anything yields the original
/// value and consumes exactly the rendering.
pub proof fn lemma_parse_vi(x: nat, rest: Seq<u8>, cap: nat)
    requires
        vi(x).len() <= cap,
    ensures
        parse_vi(vi(x) + rest, cap) == Some((x, vi(x).len() as int)),
    decreases x,
{
    let b = vi(x) + rest;
    if x < 128 {
        assert(b[0] == x as u8);
    } else {
        assert(b[0] == (128 + x % 128) as u8);
        assert(b.skip(1) =~= vi(x / 128) + rest);
        lemma_parse_vi(x / 128, rest, (cap - 1) as nat);
        assert((b[0] - 128) as nat + 128 * (x / 128) == x);
    }
}

/// Append the varint rendering of `x` to `out`.
pub fn enc_vi(out: &mut Vec<u8>, x: u64)
    ensures
        final(out)@ == old(out)@ + vi(x as nat),
{
    let mut cur: u64 = x;
    let ghost base = out@;
    while cur >= 128
        invariant
            base + vi(x as nat) == out@ + vi(cur as nat),
        decreases cur,
    {
        let byte: u8 = 128 + (cur % 128) as u8;
        out.push(byte);
        proof {
            assert(vi(cur as nat) == seq![byte] + vi((cur / 128) as nat));
            assert(out@ + vi((cur / 128) as nat) =~= out@.drop_last() + vi(cur as nat));
        }
        cur = cur / 128;
    }
    let byte: u8 = cur as u8;
    out.push(byte);
    proof {
        assert(vi(cur as nat) == seq![byte]);
        assert(out@ =~= out@.drop_last() + vi(cur as nat));
        assert(out@ =~= base + vi(x as nat));
    }
}

/// Parse a varint at `pos`, reading at most `cap` bytes.
pub fn parse_vi_exec(buf: &[u8], pos: usize, cap: u32) -> (r: Option<(u128, usize)>)
    requires
        pos <= buf@.len(),
        cap <= 10,
    ensures
        match parse_vi(buf@.skip(pos as int), cap as nat) {
            Some((v, n)) => r == Some::<(u128, usize)>((v as u128, (pos + n) as usize)),
            None => r is None,
        },
    decreases cap,
{
    proof {
        lemma_parse_vi_bound(buf@.skip(pos as int), cap as nat);
        lemma_pow128_vals();
        lemma_pow128_le(1, 10);
    }
    if pos >= buf.len() || cap == 0 {
        None
    } else {
        let c = buf[pos];
        if c < 128 {
            Some((c as u128, pos + 1))
        } else {
            proof {
                assert(buf@.skip(pos as int).skip(1) =~= buf@.skip(pos as int + 1));
            }
            match parse_vi_exec(buf, pos + 1, cap - 1) {
                Some((v, np)) => {
                    proof {
                        lemma_parse_vi_bound(buf@.skip(pos as int + 1), (cap - 1) as nat);
                        if cap >= 1 {
                            lemma_pow128_le((cap - 1) as nat, 9);
                        }
                        lemma_pow128_vals();
                    }
                    Some(((c - 128) as u128 + 128 * v, np))
                },
                None => None,
            }
        }
    }
}

} // verus!
