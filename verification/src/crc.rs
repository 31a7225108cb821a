//! Rolling checksum over a byte window: an adler-like pair of 16-bit running
//! sums with a per-byte bias constant of 31, packed into one `u32`. The
//! checksum of a window can be slid one byte (`crc_rotate`) or shrunk from the
//! left (`crc_rollout`) in constant time; the lemmas at the end relate those
//! incremental forms to the full summation `crc_update`.

use vstd::prelude::*;

verus! {

use vstd::arithmetic::div_mod::{
    lemma_add_mod_noop,
    lemma_add_mod_noop_right,
    lemma_sub_mod_noop,
    lemma_sub_mod_noop_right,
    lemma_mul_mod_noop_left,
    lemma_mod_multiples_vanish,
    lemma_fundamental_div_mod_converse,
    lemma_small_mod,
    lemma_hoist_over_denominator,
};
use vstd::arithmetic::mul::{
    lemma_mul_is_distributive_add_other_way,
    lemma_mul_is_distributive_add,
    lemma_mul_is_distributive_sub,
};

/// Sum of the bytes of `w`, as an unbounded integer.
pub open spec fn byte_sum(w: Seq<u8>) -> int
    decreases w.len(),
{
    if w.len() == 0 {
        0
    } else {
        w[0] + byte_sum(w.drop_first())
    }
}

/// Position-weighted sum of the bytes of `w`: byte `i` counts `len - i` times.
pub open spec fn weighted_sum(w: Seq<u8>) -> int
    decreases w.len(),
{
    if w.len() == 0 {
        0
    } else {
        w.len() * w[0] + weighted_sum(w.drop_first())
    }
}

/// The triangular term `l*(l+1)/2` as the 32-bit implementation computes it:
/// the product wraps at 2^32 before the halving.
pub open spec fn crc_tri(l: int) -> int {
    (((l % 0x1_0000_0000) * ((l % 0x1_0000_0000) + 1)) % 0x1_0000_0000) / 2
}

/// Checksum after appending all of `w` to the state `sum` and folding in the
/// window-length bias terms, exactly as `crc_update` computes it.
pub open spec fn crc_update_spec(sum: int, w: Seq<u8>) -> int {
    let l = w.len() as int;
    let lo = (sum % 0x10000 + byte_sum(w) + 31 * l) % 0x10000;
    let hi = ((sum / 0x10000) % 0x10000 + l * (sum % 0x10000) + weighted_sum(w) + 31 * crc_tri(l))
        % 0x10000;
    lo + 0x10000 * hi
}

/// Checksum after removing byte `old` from the left of a window of length
/// `size`, exactly as `crc_rollout` computes it.
pub open spec fn crc_rollout_spec(sum: int, size: int, old: int) -> int {
    let lo = (sum % 0x10000 - (old + 31)) % 0x10000;
    let hi = ((sum / 0x10000) % 0x10000 - size * (old + 31)) % 0x10000;
    lo + 0x10000 * hi
}

/// Checksum after sliding a window of length `size` one byte to the right,
/// dropping `old` and taking in `new`, exactly as `crc_rotate` computes it.
pub open spec fn crc_rotate_spec(sum: int, size: int, old: int, new: int) -> int {
    let lo_raw = sum % 0x10000 + new - old;
    let lo = lo_raw % 0x10000;
    let hi = ((sum / 0x10000) % 0x10000 + lo_raw - size * (old + 31)) % 0x10000;
    lo + 0x10000 * hi
}

proof fn lemma_crc_parts(lo: int, hi: int)
    requires
        0 <= lo < 0x10000,
        0 <= hi < 0x10000,
    ensures
        (lo + 0x10000 * hi) % 0x10000 == lo,
        (lo + 0x10000 * hi) / 0x10000 == hi,
{
    lemma_fundamental_div_mod_converse(lo + 0x10000 * hi, 0x10000, hi, lo);
}

proof fn lemma_byte_sum_push(s: Seq<u8>, b: u8)
    ensures
        byte_sum(s.push(b)) == byte_sum(s) + b,
    decreases s.len(),
{
    if s.len() == 0 {
        assert(s.push(b).drop_first() =~= Seq::<u8>::empty());
        assert(byte_sum(s.push(b)) == s.push(b)[0] + byte_sum(s.push(b).drop_first()));
    } else {
        assert(s.push(b).drop_first() =~= s.drop_first().push(b));
        lemma_byte_sum_push(s.drop_first(), b);
        assert(byte_sum(s.push(b)) == s.push(b)[0] + byte_sum(s.push(b).drop_first()));
        assert(byte_sum(s) == s[0] + byte_sum(s.drop_first()));
    }
}

proof fn lemma_weighted_sum_push(s: Seq<u8>, b: u8)
    ensures
        weighted_sum(s.push(b)) == weighted_sum(s) + byte_sum(s) + b,
    decreases s.len(),
{
    if s.len() == 0 {
        assert(s.push(b).drop_first() =~= Seq::<u8>::empty());
        assert(weighted_sum(s.push(b)) == s.push(b).len() * s.push(b)[0]
            + weighted_sum(s.push(b).drop_first()));
    } else {
        assert(s.push(b).drop_first() =~= s.drop_first().push(b));
        lemma_weighted_sum_push(s.drop_first(), b);
        assert(weighted_sum(s.push(b)) == s.push(b).len() * s.push(b)[0]
            + weighted_sum(s.push(b).drop_first()));
        assert(weighted_sum(s) == s.len() * s[0] + weighted_sum(s.drop_first()));
        assert(byte_sum(s) == s[0] + byte_sum(s.drop_first()));
        lemma_mul_is_distributive_add_other_way(s[0] as int, s.len() as int, 1);
        assert((s.len() as int + 1) * (s[0] as int)
            == s.len() as int * (s[0] as int) + 1 * (s[0] as int));
    }
}

/// The packed checksum always fits 32 bits.
pub proof fn lemma_crc_update_spec_bounds(sum: int, w: Seq<u8>)
    ensures
        0 <= crc_update_spec(sum, w) < 0x1_0000_0000,
{
    let l = w.len() as int;
    vstd::arithmetic::div_mod::lemma_mod_bound(sum % 0x10000 + byte_sum(w) + 31 * l, 0x10000);
    vstd::arithmetic::div_mod::lemma_mod_bound(
        (sum / 0x10000) % 0x10000 + l * (sum % 0x10000) + weighted_sum(w) + 31 * crc_tri(l),
        0x10000,
    );
}

/// Full summation: fold every byte of `buf` into the running pair carried in
/// `sum`, then add the length-bias terms.
#[verifier::rlimit(100)]
#[verifier::spinoff_prover]
pub fn crc_update(sum: u32, buf: &[u8]) -> (r: u32)
    ensures
        r == crc_update_spec(sum as int, buf@),
{
    let ghost lo0: int = sum as int % 0x10000;
    let ghost hi0: int = sum as int / 0x10000;
    let mut s1: u32 = sum % 0x10000;
    let mut s2: u32 = sum / 0x10000;
    let mut i: usize = 0;
    proof {
        lemma_small_mod(s1 as nat, 0x10000);
        lemma_small_mod(s2 as nat, 0x10000);
        assert(buf@.take(0) =~= Seq::<u8>::empty());
    }
    while i < buf.len()
        invariant
            0 <= i <= buf.len(),
            s1 < 0x10000,
            s2 < 0x10000,
            s1 as int == (lo0 + byte_sum(buf@.take(i as int))) % 0x10000,
            s2 as int == (hi0 % 0x10000 + i * lo0 + weighted_sum(buf@.take(i as int))) % 0x10000,
        decreases buf.len() - i,
    {
        let ghost pre = buf@.take(i as int);
        let b = buf[i];
        s1 = (s1 + b as u32) % 0x10000;
        s2 = (s2 + s1) % 0x10000;
        proof {
            assert(buf@.take(i + 1) =~= pre.push(b));
            lemma_byte_sum_push(pre, b);
            lemma_weighted_sum_push(pre, b);
            lemma_add_mod_noop(lo0 + byte_sum(pre), b as int, 0x10000);
            lemma_add_mod_noop(
                hi0 % 0x10000 + i * lo0 + weighted_sum(pre),
                lo0 + byte_sum(pre) + b,
                0x10000,
            );
            lemma_mul_is_distributive_add_other_way(lo0, i as int, 1);
        }
        i = i + 1;
    }
    proof {
        assert(buf@.take(buf@.len() as int) =~= buf@);
    }
    let ghost l: int = buf@.len() as int;
    let len_t: u64 = (buf.len() as u64) % 0x1_0000_0000;
    let bias1: u32 = ((len_t * 31) % 0x10000) as u32;
    proof {
        assert(len_t * (len_t + 1) <= 0xffff_ffffu64 * 0x1_0000_0000u64) by (nonlinear_arith)
            requires len_t <= 0xffff_ffffu64;
    }
    let tri: u64 = ((len_t * (len_t + 1)) % 0x1_0000_0000) / 2;
    let bias2: u32 = ((tri * 31) % 0x10000) as u32;
    proof {
        // (l % 2^32) * 31 and l * 31 agree modulo 2^16 because 2^16 divides 2^32.
        assert((l % 0x1_0000_0000) % 0x10000 == l % 0x10000) by {
            vstd::arithmetic::div_mod::lemma_mod_mod(l, 0x10000, 0x10000);
        }
        lemma_mul_mod_noop_left(l % 0x1_0000_0000, 31, 0x10000);
        lemma_mul_mod_noop_left(l % 0x10000, 31, 0x10000);
        lemma_mul_mod_noop_left(l, 31, 0x10000);
        assert(bias1 as int == (31 * l) % 0x10000) by {
            vstd::arithmetic::mul::lemma_mul_is_commutative(l, 31);
        }
        assert(tri as int == crc_tri(l));
        assert(bias2 as int == (31 * crc_tri(l)) % 0x10000) by {
            lemma_mul_mod_noop_left(crc_tri(l), 31, 0x10000);
            vstd::arithmetic::mul::lemma_mul_is_commutative(crc_tri(l), 31);
        }
    }
    let r1: u32 = (s1 + bias1) % 0x10000;
    let r2: u32 = (s2 + bias2) % 0x10000;
    proof {
        lemma_add_mod_noop(lo0 + byte_sum(buf@), (31 * l) % 0x10000, 0x10000);
        lemma_add_mod_noop_right(lo0 + byte_sum(buf@), 31 * l, 0x10000);
        lemma_add_mod_noop(hi0 % 0x10000 + l * lo0 + weighted_sum(buf@), (31 * crc_tri(l)) % 0x10000, 0x10000);
        lemma_add_mod_noop_right(hi0 % 0x10000 + l * lo0 + weighted_sum(buf@), 31 * crc_tri(l), 0x10000);
        lemma_small_mod(hi0 as nat, 0x10000);
    }
    r1 + r2 * 0x10000
}

/// Shrink the window from the left: subtract `old_byte_u8` (plus the bias)
/// from the running sums of a window of length `size`.
pub fn crc_rollout(sum: u32, size: u32, old_byte_u8: u8) -> (r: u32)
    ensures
        r == crc_rollout_spec(sum as int, size as int, old_byte_u8 as int),
{
    let size_16: u32 = size % 0x10000;
    let d: u32 = old_byte_u8 as u32 + 31;
    let s1: u32 = sum % 0x10000;
    let s2: u32 = sum / 0x10000;
    let s1n: u32 = (s1 + 0x10000 - d) % 0x10000;
    proof {
        assert(size_16 * d < 0x10000u32 * 0x200u32) by (nonlinear_arith)
            requires size_16 < 0x10000u32, d < 0x200u32;
    }
    let s2n: u32 = (s2 + 0x10000 - (size_16 * d) % 0x10000) % 0x10000;
    proof {
        let m: int = 0x10000;
        let old: int = old_byte_u8 as int;
        lemma_small_mod(s2 as nat, 0x10000);
        // dropping the +2^16 guard term does not change the residue
        lemma_mod_multiples_vanish(1, s1 - d, m);
        lemma_mod_multiples_vanish(1, s2 - (size_16 * d) % m, m);
        lemma_sub_mod_noop_right(s2 as int, size_16 * d, m);
        // size % 2^16 and size agree as factors modulo 2^16
        lemma_mul_mod_noop_left(size as int, d as int, m);
        lemma_mul_mod_noop_left(size_16 as int, d as int, m);
        assert(s2n as int == (s2 - size * (old + 31)) % m);
    }
    s1n + s2n * 0x10000
}

/// Slide the window one byte to the right: drop `old_byte_u8`, take in
/// `new_byte_u8`, for a window of length `size`.
pub fn crc_rotate(sum: u32, size: u32, old_byte_u8: u8, new_byte_u8: u8) -> (r: u32)
    ensures
        r == crc_rotate_spec(sum as int, size as int, old_byte_u8 as int, new_byte_u8 as int),
{
    let size_16: u32 = size % 0x10000;
    let d: u32 = old_byte_u8 as u32 + 31;
    let s1: u32 = sum % 0x10000;
    let s2: u32 = sum / 0x10000;
    let s1n: u32 = (s1 + 0x10000 + new_byte_u8 as u32 - old_byte_u8 as u32) % 0x10000;
    proof {
        assert(size_16 * d < 0x10000u32 * 0x200u32) by (nonlinear_arith)
            requires size_16 < 0x10000u32, d < 0x200u32;
    }
    let s2n: u32 = (s2 + s1n + 2 * 0x10000 - (size_16 * d) % 0x10000) % 0x10000;
    proof {
        let m: int = 0x10000;
        let old: int = old_byte_u8 as int;
        let new: int = new_byte_u8 as int;
        let lo_raw: int = s1 + new - old;
        lemma_small_mod(s2 as nat, 0x10000);
        lemma_mod_multiples_vanish(1, lo_raw, m);
        lemma_mod_multiples_vanish(2, s2 + s1n - (size_16 * d) % m, m);
        lemma_sub_mod_noop_right(s2 + s1n, size_16 * d, m);
        lemma_mul_mod_noop_left(size as int, d as int, m);
        lemma_mul_mod_noop_left(size_16 as int, d as int, m);
        // folding the already-reduced low half back in keeps the residue
        lemma_add_mod_noop_right(s2 as int, lo_raw, m);
        lemma_sub_mod_noop_right(s2 + lo_raw, size * d, m);
        assert((s2 + s1n - (size * d) % m) % m == (s2 + lo_raw - size * d) % m) by {
            lemma_add_mod_noop_right(s2 as int, lo_raw, m);
            lemma_sub_mod_noop_right(s2 + (lo_raw % m), size * d, m);
            lemma_add_mod_noop(s2 as int, lo_raw % m, m);
            lemma_add_mod_noop(s2 as int, lo_raw, m);
            lemma_small_mod(s2 as nat, 0x10000);
            lemma_sub_mod_noop((s2 + lo_raw % m), (size * d) % m, m);
            lemma_sub_mod_noop((s2 + lo_raw), (size * d) % m, m);
        }
        assert(s2n as int == (s2 + lo_raw - size * (old + 31)) % m);
    }
    s1n + s2n * 0x10000
}

proof fn lemma_tri_step(l: int)
    requires
        1 <= l < 0x10000,
    ensures
        crc_tri(l) == crc_tri(l - 1) + l,
{
    lemma_small_mod(l as nat, 0x1_0000_0000);
    lemma_small_mod((l - 1) as nat, 0x1_0000_0000);
    assert(l * (l + 1) < 0x1_0000_0000) by (nonlinear_arith)
        requires 1 <= l < 0x10000;
    assert((l - 1) * l >= 0 && (l - 1) * l < 0x1_0000_0000) by (nonlinear_arith)
        requires 1 <= l < 0x10000;
    lemma_small_mod((l * (l + 1)) as nat, 0x1_0000_0000);
    lemma_small_mod(((l - 1) * l) as nat, 0x1_0000_0000);
    assert(l * (l + 1) == (l - 1) * l + 2 * l) by (nonlinear_arith);
    lemma_hoist_over_denominator((l - 1) * l, l, 2);
}

/// Removing the leftmost byte of a fully summed window gives exactly the full
/// sum of the window without that byte: `crc_rollout` inverts the leading
/// byte's contribution to `crc_update`, for windows shorter than 2^16.
pub proof fn lemma_crc_rollout_shrinks(w: Seq<u8>)
    requires
        1 <= w.len() < 0x10000,
    ensures
        crc_rollout_spec(crc_update_spec(0, w), w.len() as int, w[0] as int)
            == crc_update_spec(0, w.drop_first()),
{
    let m: int = 0x10000;
    let l = w.len() as int;
    let v = w.drop_first();
    let w0 = w[0] as int;
    let lo = (byte_sum(w) + 31 * l) % m;
    let hi = (weighted_sum(w) + 31 * crc_tri(l)) % m;
    lemma_crc_parts(lo, hi);
    lemma_tri_step(l);
    // low half
    lemma_sub_mod_noop(byte_sum(w) + 31 * l, w0 + 31, m);
    lemma_small_mod((w0 + 31) as nat, 0x10000);
    assert(byte_sum(w) == w0 + byte_sum(v));
    assert(lo - (w0 + 31) == (byte_sum(w) + 31 * l) % m - (w0 + 31) % m);
    assert((lo - (w0 + 31)) % m == (byte_sum(v) + 31 * (l - 1)) % m) by {
        lemma_mul_is_distributive_sub(31, l, 1);
    }
    // high half
    assert(weighted_sum(w) == l * w0 + weighted_sum(v));
    lemma_sub_mod_noop_right(hi as int, l * (w0 + 31), m);
    lemma_sub_mod_noop(weighted_sum(w) + 31 * crc_tri(l), l * (w0 + 31), m);
    assert((hi - l * (w0 + 31)) % m == (weighted_sum(w) + 31 * crc_tri(l) - l * (w0 + 31)) % m) by {
        lemma_sub_mod_noop(weighted_sum(w) + 31 * crc_tri(l), l * (w0 + 31), m);
        lemma_sub_mod_noop_right(weighted_sum(w) + 31 * crc_tri(l), l * (w0 + 31), m);
    }
    assert(weighted_sum(w) + 31 * crc_tri(l) - l * (w0 + 31)
        == weighted_sum(v) + 31 * crc_tri(l - 1)) by {
        lemma_mul_is_distributive_add(l, w0, 31);
        lemma_mul_is_distributive_add(31, crc_tri(l - 1), l);
    }
}

/// Sliding a fully summed window one byte to the right gives exactly the full
/// sum of the slid window: `crc_rotate` agrees with re-summing after dropping
/// the first byte and appending `b`, for windows shorter than 2^16.
#[verifier::rlimit(100)]
#[verifier::spinoff_prover]
pub proof fn lemma_crc_rotate_slides(w: Seq<u8>, b: u8)
    requires
        1 <= w.len() < 0x10000,
    ensures
        crc_rotate_spec(crc_update_spec(0, w), w.len() as int, w[0] as int, b as int)
            == crc_update_spec(0, w.drop_first().push(b)),
{
    let m: int = 0x10000;
    let l = w.len() as int;
    let v = w.drop_first();
    let u = v.push(b);
    let w0 = w[0] as int;
    let lo = (byte_sum(w) + 31 * l) % m;
    let hi = (weighted_sum(w) + 31 * crc_tri(l)) % m;
    lemma_crc_parts(lo, hi);
    lemma_byte_sum_push(v, b);
    lemma_weighted_sum_push(v, b);
    assert(byte_sum(w) == w0 + byte_sum(v));
    assert(weighted_sum(w) == l * w0 + weighted_sum(v));
    assert(u.len() == l);
    // low half: (lo + b - w0) % m == (byte_sum(u) + 31*l) % m
    lemma_add_mod_noop(byte_sum(w) + 31 * l, b - w0, m);
    lemma_small_mod(b as nat, 0x10000);
    assert((lo + b as int - w0) % m == (byte_sum(w) + 31 * l + b - w0) % m) by {
        lemma_add_mod_noop_right(lo + b - w0, 0, m);
        lemma_add_mod_noop(byte_sum(w) + 31 * l, b - w0, m);
        vstd::arithmetic::div_mod::lemma_mod_bound(b - w0, m);
        lemma_small_mod(((b - w0) % m) as nat, 0x10000);
        lemma_add_mod_noop_right(lo as int, (b - w0) % m, m);
        lemma_add_mod_noop_right(lo as int, b - w0, m);
    }
    assert(byte_sum(w) + 31 * l + b - w0 == byte_sum(u) + 31 * l);
    // high half
    let lo_raw = lo + b - w0;
    lemma_add_mod_noop_right(hi as int, lo_raw, m);
    lemma_sub_mod_noop_right(hi + lo_raw, l * (w0 + 31), m);
    assert((hi + lo_raw - l * (w0 + 31)) % m
        == (weighted_sum(w) + 31 * crc_tri(l) + lo_raw - l * (w0 + 31)) % m) by {
        lemma_add_mod_noop(weighted_sum(w) + 31 * crc_tri(l), lo_raw, m);
        lemma_sub_mod_noop(weighted_sum(w) + 31 * crc_tri(l) + lo_raw, l * (w0 + 31), m);
        lemma_sub_mod_noop_right(weighted_sum(w) + 31 * crc_tri(l) + lo_raw, l * (w0 + 31), m);
    }
    // the combined numerator equals the weighted sum of the slid window, up to
    // a multiple of m contributed by the reduced `lo`
    assert(lo % m == lo);
    let lo_exact = byte_sum(w) + 31 * l;
    // lo == lo_exact - m * (lo_exact / m)
    vstd::arithmetic::div_mod::lemma_fundamental_div_mod(lo_exact, m);
    let q = lo_exact / m;
    assert(lo == lo_exact - m * q);
    assert(weighted_sum(w) + 31 * crc_tri(l) + (lo + b - w0) - l * (w0 + 31)
        == weighted_sum(u) + 31 * crc_tri(l) + byte_sum(w) + 31 * l - byte_sum(v) - b - m * q
            + b - w0 - 31 * l) by {
        lemma_mul_is_distributive_add(l, w0, 31);
    }
    assert(weighted_sum(w) + 31 * crc_tri(l) + (lo + b - w0) - l * (w0 + 31)
        == weighted_sum(u) + 31 * crc_tri(l) - m * q);
    lemma_mod_multiples_vanish(-q, weighted_sum(u) + 31 * crc_tri(l), m);
}

} // verus!
