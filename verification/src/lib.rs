//! Serial firmware-update protocol engine.
//!
//! The crate has three layers: a framing codec that turns byte payloads
//! into self-delimited, checksummed frames (`frame`), a structural codec
//! that turns typed protocol values into byte payloads and back (`icd`),
//! and a bootload state machine that interprets decoded requests and
//! drives a flash abstraction (`machine`).

use vstd::prelude::*;

pub mod checksum;
pub mod codec;
pub mod frame;
pub mod icd;
pub mod machine;
pub mod settings;
pub mod wire;

verus! {

/// Least-significant-first base-128 rendering of an integer: the spec-level
/// shape of every little-endian field on the wire.
pub open spec fn le_bytes(x: nat, n: nat) -> Seq<u8>
    decreases n,
{
    if n == 0 {
        Seq::empty()
    } else {
        seq![(x % 256) as u8] + le_bytes(x / 256, (n - 1) as nat)
    }
}

/// The integer a little-endian byte sequence stands for.
pub open spec fn le_value(s: Seq<u8>) -> nat
    decreases s.len(),
{
    if s.len() == 0 {
        0
    } else {
        s[0] as nat + 256 * le_value(s.skip(1))
    }
}

/// Reading back a little-endian rendering yields the original value.
pub proof fn lemma_le_round_trip(x: nat, n: nat)
    requires
        x < pow256(n),
    ensures
        le_bytes(x, n).len() == n,
        le_value(le_bytes(x, n)) == x,
    decreases n,
{
    if n > 0 {
        lemma_le_round_trip(x / 256, (n - 1) as nat);
        assert(le_bytes(x, n).skip(1) =~= le_bytes(x / 256, (n - 1) as nat));
    }
}

/// 256^n, the number of values that fit in n bytes.
pub open spec fn pow256(n: nat) -> nat
    decreases n,
{
    if n == 0 {
        1
    } else {
        256 * pow256((n - 1) as nat)
    }
}

/// The four-byte little-endian rendering of a 32-bit word, used by the
/// framing CRC trailer and the settings-block header.
pub open spec fn le32(x: u32) -> Seq<u8> {
    le_bytes(x as nat, 4)
}

/// A little-endian rendering of a 32-bit word is four bytes and reads
/// back as the same word.
pub proof fn lemma_le32(x: u32)
    ensures
        le32(x).len() == 4,
        le_value(le32(x)) == x,
{
    assert(pow256(4) == 0x100000000) by {
        assert(pow256(0) == 1);
        assert(pow256(1) == 256);
        assert(pow256(2) == 0x10000);
        assert(pow256(3) == 0x1000000);
    }
    lemma_le_round_trip(x as nat, 4);
}

/// A sequence of n bytes reads as a value below 256^n.
pub proof fn lemma_le_value_bound(s: Seq<u8>)
    ensures
        le_value(s) < pow256(s.len()),
    decreases s.len(),
{
    if s.len() > 0 {
        lemma_le_value_bound(s.skip(1));
    }
}

/// The value of a four-byte little-endian field, written out.
pub proof fn lemma_le_value4(s: Seq<u8>)
    requires
        s.len() == 4,
    ensures
        le_value(s) == s[0] + 256 * (s[1] + 256 * (s[2] + 256 * (s[3] as nat))),
        le_value(s) < 0x100000000,
{
    reveal_with_fuel(le_value, 5);
    let s1 = s.skip(1);
    let s2 = s1.skip(1);
    let s3 = s2.skip(1);
    assert(s1[0] == s[1] && s2[0] == s[2] && s3[0] == s[3]);
    assert(s3.skip(1).len() == 0);
    assert(le_value(s3.skip(1)) == 0);
}

} // verus!
