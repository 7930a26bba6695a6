//! Fixed-width big-endian integer extraction from byte slices.

use vstd::prelude::*;

verus! {

/// The unsigned integer a byte sequence stands for, read in big-endian
/// (network) byte order.
pub open spec fn be_uint(s: Seq<u8>) -> nat
    decreases s.len(),
{
    if s.len() == 0 {
        0
    } else {
        be_uint(s.drop_last()) * 256 + s.last() as nat
    }
}

/// 256 raised to the given power.
pub open spec fn pow256(n: nat) -> nat
    decreases n,
{
    if n == 0 {
        1
    } else {
        256 * pow256((n - 1) as nat)
    }
}

/// A big-endian integer of n bytes is below 256^n.
pub proof fn lemma_be_uint_bound(s: Seq<u8>)
    ensures
        be_uint(s) < pow256(s.len()),
    decreases s.len(),
{
    if s.len() == 0 {
    } else {
        lemma_be_uint_bound(s.drop_last());
        let p = pow256((s.len() - 1) as nat);
        assert(be_uint(s.drop_last()) * 256 + s.last() < 256 * p) by (nonlinear_arith)
            requires
                be_uint(s.drop_last()) < p,
                s.last() < 256,
        ;
    }
}

/// Reads a 16-bit field from a slice of exactly two bytes; a slice of any
/// other length is a caller bug, not a decode error.
pub fn read_be_u16(bytes: &[u8]) -> (r: u16)
    requires
        bytes@.len() == 2,
    ensures
        r == be_uint(bytes@),
{
    let mut r: u16 = 0;
    let mut i: usize = 0;
    while i < bytes.len()
        invariant
            bytes@.len() == 2,
            0 <= i <= 2,
            r == be_uint(bytes@.take(i as int)),
        decreases bytes@.len() - i,
    {
        proof {
            lemma_be_uint_bound(bytes@.take(i as int));
            reveal_with_fuel(pow256, 3);
            assert(pow256(i as nat) <= pow256(1)) by (nonlinear_arith)
                requires
                    i <= 1,
                    pow256(i as nat) == if i == 0 { 1nat } else { 256nat },
            ;
            assert(bytes@.take(i + 1).drop_last() =~= bytes@.take(i as int));
        }
        r = r * 256 + (bytes[i] as u16);
        i = i + 1;
    }
    proof {
        assert(bytes@.take(2) =~= bytes@);
    }
    r
}

/// Reads a 32-bit field from a slice of exactly four bytes.
pub fn read_be_u32(bytes: &[u8]) -> (r: u32)
    requires
        bytes@.len() == 4,
    ensures
        r == be_uint(bytes@),
{
    let mut r: u32 = 0;
    let mut i: usize = 0;
    while i < bytes.len()
        invariant
            bytes@.len() == 4,
            0 <= i <= 4,
            r == be_uint(bytes@.take(i as int)),
        decreases bytes@.len() - i,
    {
        proof {
            lemma_be_uint_bound(bytes@.take(i as int));
            reveal_with_fuel(pow256, 5);
            lemma_pow256_increases(i as nat, 3);
            assert(bytes@.take(i + 1).drop_last() =~= bytes@.take(i as int));
        }
        r = r * 256 + (bytes[i] as u32);
        i = i + 1;
    }
    proof {
        assert(bytes@.take(4) =~= bytes@);
    }
    r
}

/// Reads a 128-bit field from a slice of exactly sixteen bytes.
pub fn read_be_u128(bytes: &[u8]) -> (r: u128)
    requires
        bytes@.len() == 16,
    ensures
        r == be_uint(bytes@),
{
    let mut r: u128 = 0;
    let mut i: usize = 0;
    while i < bytes.len()
        invariant
            bytes@.len() == 16,
            0 <= i <= 16,
            r == be_uint(bytes@.take(i as int)),
        decreases bytes@.len() - i,
    {
        proof {
            lemma_be_uint_bound(bytes@.take(i as int));
            reveal_with_fuel(pow256, 17);
            lemma_pow256_increases(i as nat, 15);
            assert(bytes@.take(i + 1).drop_last() =~= bytes@.take(i as int));
        }
        r = r * 256 + (bytes[i] as u128);
        i = i + 1;
    }
    proof {
        assert(bytes@.take(16) =~= bytes@);
    }
    r
}

/// Larger exponents give larger powers of 256.
pub proof fn lemma_pow256_increases(a: nat, b: nat)
    requires
        a <= b,
    ensures
        pow256(a) <= pow256(b),
    decreases b,
{
    if a < b {
        lemma_pow256_increases(a, (b - 1) as nat);
        let p = pow256((b - 1) as nat);
        lemma_pow256_positive((b - 1) as nat);
        assert(pow256(a) <= p);
        assert(p <= 256 * p) by (nonlinear_arith)
            requires
                p >= 1,
        ;
    }
}

/// Powers of 256 are at least one.
pub proof fn lemma_pow256_positive(n: nat)
    ensures
        pow256(n) >= 1,
    decreases n,
{
    if n > 0 {
        lemma_pow256_positive((n - 1) as nat);
    }
}

} // verus!
