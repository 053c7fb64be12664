//! The Adler-32 integrity code, used over each record's body.
//!
//! Two running sums modulo 65521 (the largest prime below 2^16): `a` starts at
//! one and adds each byte, `b` adds each successive `a`. The code is
//! `b * 65536 + a`. Because `a` moves by the byte's change on every edit of a
//! single byte, any one-byte change (in particular any single bit flip) alters
//! the code.
use vstd::prelude::*;

verus! {

/// Modulus of both running sums.
pub const MODULUS: u32 = 65521;

/// Running sum `a` after the bytes of `s`.
pub open spec fn sum_a(s: Seq<u8>) -> int
    decreases s.len(),
{
    if s.len() == 0 {
        1
    } else {
        (sum_a(s.drop_last()) + s.last()) % 65521
    }
}

/// Running sum `b` after the bytes of `s`.
pub open spec fn sum_b(s: Seq<u8>) -> int
    decreases s.len(),
{
    if s.len() == 0 {
        0
    } else {
        (sum_b(s.drop_last()) + sum_a(s)) % 65521
    }
}

/// The integrity code of `s`.
pub open spec fn checksum_of(s: Seq<u8>) -> u32 {
    (sum_b(s) * 65536 + sum_a(s)) as u32
}

/// Plain sum of the bytes of `s`.
pub open spec fn byte_sum(s: Seq<u8>) -> int
    decreases s.len(),
{
    if s.len() == 0 {
        0
    } else {
        byte_sum(s.drop_last()) + s.last()
    }
}

pub proof fn lemma_sums_bounded(s: Seq<u8>)
    ensures
        0 <= sum_a(s) < 65521,
        0 <= sum_b(s) < 65521,
    decreases s.len(),
{
    if s.len() > 0 {
        lemma_sums_bounded(s.drop_last());
    }
}

proof fn lemma_sum_a_closed(s: Seq<u8>)
    ensures
        sum_a(s) == (1 + byte_sum(s)) % 65521,
    decreases s.len(),
{
    if s.len() > 0 {
        lemma_sum_a_closed(s.drop_last());
        vstd::arithmetic::div_mod::lemma_add_mod_noop(
            1 + byte_sum(s.drop_last()),
            s.last() as int,
            65521,
        );
        vstd::arithmetic::div_mod::lemma_mod_twice(1 + byte_sum(s.drop_last()), 65521);
    }
}

proof fn lemma_byte_sum_update(s: Seq<u8>, i: int, v: u8)
    requires
        0 <= i < s.len(),
    ensures
        byte_sum(s.update(i, v)) == byte_sum(s) - s[i] + v,
    decreases s.len(),
{
    let t = s.update(i, v);
    if i == s.len() - 1 {
        assert(t.drop_last() =~= s.drop_last());
    } else {
        assert(t.drop_last() =~= s.drop_last().update(i, v));
        lemma_byte_sum_update(s.drop_last(), i, v);
    }
}

/// Changing any single byte of the input changes the integrity code.
pub proof fn lemma_checksum_detects_byte_change(s: Seq<u8>, i: int, v: u8)
    requires
        0 <= i < s.len(),
        v != s[i],
    ensures
        checksum_of(s.update(i, v)) != checksum_of(s),
{
    let t = s.update(i, v);
    lemma_sum_a_closed(s);
    lemma_sum_a_closed(t);
    lemma_byte_sum_update(s, i, v);
    lemma_sums_bounded(s);
    lemma_sums_bounded(t);
    let x = 1 + byte_sum(s);
    let d = v - s[i];
    assert(d != 0 && -256 < d < 256);
    assert((x + d) % 65521 != x % 65521) by {
        vstd::arithmetic::div_mod::lemma_fundamental_div_mod(x, 65521);
        vstd::arithmetic::div_mod::lemma_fundamental_div_mod(x + d, 65521);
        if (x + d) % 65521 == x % 65521 {
            assert(d == 65521 * ((x + d) / 65521 - x / 65521)) by (nonlinear_arith)
                requires
                    x == 65521 * (x / 65521) + x % 65521,
                    x + d == 65521 * ((x + d) / 65521) + (x + d) % 65521,
                    (x + d) % 65521 == x % 65521,
            ;
            assert(false) by (nonlinear_arith)
                requires
                    d == 65521 * ((x + d) / 65521 - x / 65521),
                    d != 0,
                    -256 < d < 256,
            ;
        }
    }
    let (a1, b1, a2, b2) = (sum_a(s), sum_b(s), sum_a(t), sum_b(t));
    assert(b1 * 65536 + a1 != b2 * 65536 + a2) by (nonlinear_arith)
        requires
            a1 != a2,
            0 <= a1 < 65536,
            0 <= a2 < 65536,
    ;
    assert(0 <= b1 * 65536 + a1 < 0x1_0000_0000) by (nonlinear_arith)
        requires
            0 <= a1 < 65521,
            0 <= b1 < 65521,
    ;
    assert(0 <= b2 * 65536 + a2 < 0x1_0000_0000) by (nonlinear_arith)
        requires
            0 <= a2 < 65521,
            0 <= b2 < 65521,
    ;
}

/// Computes the integrity code of `data`.
pub fn checksum(data: &[u8]) -> (r: u32)
    ensures
        r == checksum_of(data@),
{
    let mut a: u32 = 1;
    let mut b: u32 = 0;
    let mut i: usize = 0;
    while i < data.len()
        invariant
            0 <= i <= data@.len(),
            a == sum_a(data@.subrange(0, i as int)),
            b == sum_b(data@.subrange(0, i as int)),
            a < 65521,
            b < 65521,
        decreases data.len() - i,
    {
        proof {
            assert(data@.subrange(0, i + 1).drop_last() =~= data@.subrange(0, i as int));
        }
        a = (a + data[i] as u32) % MODULUS;
        b = (b + a) % MODULUS;
        i += 1;
    }
    proof {
        assert(data@.subrange(0, data@.len() as int) =~= data@);
        assert(b * 65536 + a < 0x1_0000_0000) by (nonlinear_arith)
            requires
                a < 65521,
                b < 65521,
        ;
    }
    b * 65536 + a
}

} // verus!
