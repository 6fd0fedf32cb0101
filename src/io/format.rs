//! Fixed layout of a container file and its little-endian header fields.
use vstd::prelude::*;

verus! {

/// Format version written in the first four bytes of every container.
pub const GAS_FILE_VERSION: u32 = 1;

/// Bytes taken by the two `u32` header fields.
pub const HEADER_BYTES: u64 = 8;

/// Size of the reserved region holding the serialized primary index.
pub const INDEX_REGION_BYTES: u64 = 2 * 1024 * 1024;

/// First byte of the body, right after the header and the index region.
pub const BODY_START: u64 = HEADER_BYTES + INDEX_REGION_BYTES;

/// Number of pending offsets that forces a secondary-index flush.
pub const FLUSH_EVERY: usize = 1000;

/// Capacity of the payload channels between producers and workers.
pub const CHANNEL_CAPACITY: usize = 1000;

/// The `n` little-endian bytes of `v` (the bits above `8 * n` are dropped).
pub open spec fn le_bytes(v: nat, n: nat) -> Seq<u8>
    decreases n,
{
    if n == 0 {
        seq![]
    } else {
        seq![(v % 256) as u8] + le_bytes(v / 256, (n - 1) as nat)
    }
}

/// The number that the little-endian bytes `s` spell.
pub open spec fn le_value(s: Seq<u8>) -> nat
    decreases s.len(),
{
    if s.len() == 0 {
        0
    } else {
        s[0] as nat + 256 * le_value(s.drop_first())
    }
}

/// Little-endian bytes of a `u32` header field.
pub fn u32_to_le(v: u32) -> (r: Vec<u8>)
    ensures
        r@ == le_bytes(v as nat, 4),
{
    let r: Vec<u8> = vec![
        (v % 256) as u8,
        ((v / 256) % 256) as u8,
        ((v / 65536) % 256) as u8,
        (v / 16777216) as u8,
    ];
    proof {
        let n = v as nat;
        reveal_with_fuel(le_bytes, 5);
        assert(n / 256 / 256 == n / 65536) by (nonlinear_arith);
        assert(n / 65536 / 256 == n / 16777216) by (nonlinear_arith);
        assert(n / 16777216 < 256) by (nonlinear_arith)
            requires
                n < 0x1_0000_0000,
        ;
        assert(r@ =~= le_bytes(n, 4));
    }
    r
}

/// Reads the `u32` stored little-endian in `b[at..at + 4]`.
pub fn u32_from_le(b: &[u8], at: usize) -> (r: u32)
    requires
        at + 4 <= b@.len(),
    ensures
        r as nat == le_value(b@.subrange(at as int, at + 4)),
{
    let r: u32 = b[at] as u32 + 256 * (b[at + 1] as u32) + 65536 * (b[at + 2] as u32)
        + 16777216 * (b[at + 3] as u32);
    proof {
        let s = b@.subrange(at as int, at + 4);
        reveal_with_fuel(le_value, 5);
        assert(s.drop_first().drop_first().drop_first().drop_first().len() == 0);
        assert(s.drop_first()[0] == s[1]);
        assert(s.drop_first().drop_first()[0] == s[2]);
        assert(s.drop_first().drop_first().drop_first()[0] == s[3]);
    }
    r
}

} // verus!
