//! The hierarchical nibble coder and its probability-model interface: a 4-bit
//! symbol is coded as four binary decisions, each carrying an 8-bit
//! probability derived from a 16-entry cumulative distribution split at
//! indices 7, 3 and 1. The encoder's and decoder's arithmetic are mirror
//! images, which is what makes the coder self-inverse.

use vstd::prelude::*;

verus! {

/// Adaptation rate handed to `CDF16::blend`.
#[derive(Clone, Copy, PartialEq, Eq, Structural, Debug)]
pub enum Speed {
    GEOLOGIC,
    GLACIAL,
    MUD,
    SLOW,
    MED,
    FAST,
    PLANE,
    ROCKET,
}

/// A 16-symbol cumulative distribution: `cdf(i)` is the cumulative frequency
/// through symbol `i`, strictly increasing so every symbol has nonzero
/// probability; `cdf(15)` is the total.
pub trait CDF16: Sized {
    /// The cumulative frequency through symbol `i`.
    spec fn cdf_spec(&self, i: int) -> u16;

    fn cdf(&self, symbol: u8) -> (r: u16)
        requires
            symbol < 16,
        ensures
            r == self.cdf_spec(symbol as int)
    ;

    fn max(&self) -> (r: u16)
        ensures
            r == self.cdf_spec(15)
    ;

    /// `Some(l)` only when the total is exactly `1 << l`.
    fn log_max(&self) -> (r: Option<u8>)
        ensures
            match r {
                Some(l) => l < 16 && self.cdf_spec(15) as int == vstd::arithmetic::power2::pow2(
                    l as nat,
                ),
                None => true,
            }
    ;

    /// Move probability mass toward `symbol`, keeping the distribution
    /// strictly increasing.
    fn blend(&mut self, symbol: u8, speed: Speed)
        requires
            old(self).cdf_spec(0) > 0,
            forall|i: int|
                0 <= i < 15 ==> (#[trigger] old(self).cdf_spec(i)) < old(self).cdf_spec(i + 1),
            symbol < 16,
        ensures
            final(self).cdf_spec(0) > 0,
            forall|i: int|
                0 <= i < 15 ==> (#[trigger] final(self).cdf_spec(i)) < final(self).cdf_spec(i + 1),
    ;
}

/// A well-formed distribution: strictly increasing with a nonzero first
/// entry, so every symbol has nonzero probability.
pub open spec fn cdf_wf<C: CDF16>(p: &C) -> bool {
    &&& p.cdf_spec(0) > 0
    &&& forall|i: int| 0 <= i < 15 ==> (#[trigger] p.cdf_spec(i)) < p.cdf_spec(i + 1)
}

/// The four bit decisions that encode a nibble, highest bit first.
pub open spec fn nibble_bits(n: u8) -> Seq<bool> {
    seq![n & 8 != 0, n & 4 != 0, n & 2 != 0, n & 1 != 0]
}

/// The nibble a sequence of four bit decisions decodes to.
pub open spec fn bits_to_nibble(bits: Seq<bool>) -> u8 {
    bits_to_nibble_bv(bits[0], bits[1], bits[2], bits[3])
}

/// An 8-bit probability for one binary decision: the weight of the lower half
/// `[lo, mid)` within `[lo, hi)`, scaled to a byte.
pub open spec fn prob8(lo: int, mid: int, hi: int) -> u8 {
    (((mid - lo) * 256) / (hi - lo)) as u8
}

/// The four probabilities the coder hands to the bit coder for symbol `n`:
/// splits at 7, then at the midpoint of each surviving half.
pub open spec fn nibble_probs<C: CDF16>(p: C, n: u8) -> Seq<u8> {
    let c15 = p.cdf_spec(15) as int;
    let c7 = p.cdf_spec(7) as int;
    let p0 = prob8(0, c7, c15);
    let mid_min = if n & 8 != 0 {
        c7
    } else {
        0int
    };
    let mid_max = if n & 8 != 0 {
        c15
    } else {
        c7
    };
    let mid = p.cdf_spec((n & 8) as int + 3) as int;
    let p1 = prob8(mid_min, mid, mid_max);
    let lomid_min = if n & 4 != 0 {
        mid
    } else {
        mid_min
    };
    let lomid_max = if n & 4 != 0 {
        mid_max
    } else {
        mid
    };
    let lomid = p.cdf_spec((n & 12) as int + 1) as int;
    let p2 = prob8(lomid_min, lomid, lomid_max);
    let lo_min = if n & 2 != 0 {
        lomid
    } else {
        lomid_min
    };
    let lo_max = if n & 2 != 0 {
        lomid_max
    } else {
        lomid
    };
    let lo = p.cdf_spec((n & 14) as int) as int;
    let p3 = prob8(lo_min, lo, lo_max);
    seq![p0, p1, p2, p3]
}

/// Encode one nibble: the four bit decisions and the probability each is
/// coded under.
pub fn put_nibble<C: CDF16>(nibble: u8, prob: &C) -> (r: ([bool; 4], [u8; 4]))
    requires
        cdf_wf(prob),
        nibble < 16,
    ensures
        r.0@ == nibble_bits(nibble),
        r.1@ == nibble_probs(*prob, nibble),
{
    proof {
        lemma_cdf_chain(prob);
        assert(nibble & 8 == 0 || nibble & 8 == 8) by (bit_vector);
        assert((nibble & 8) + 3 < 16) by (bit_vector);
        assert((nibble & 12) + 1 < 16) by (bit_vector);
        assert((nibble & 14) < 16) by (bit_vector);
        assert((nibble & 8) <= (nibble & 8) + 3) by (bit_vector);
        assert((nibble & 8) + 3 < (nibble & 8) + 8 || nibble & 8 == 8) by (bit_vector);
        lemma_nibble_split_order(nibble);
    }
    let cdf_max = prob.max() as i32;
    let high_bit_prob = prob.cdf(7) as i32;
    let normalized_high_bit_prob = ((high_bit_prob * 256) / cdf_max) as u8;
    let high_bit = nibble & 8;
    let b0 = high_bit != 0;
    let mid_max = if high_bit != 0 {
        cdf_max
    } else {
        high_bit_prob
    };
    let mid_min = if high_bit != 0 {
        high_bit_prob
    } else {
        0
    };
    let mid_prob = prob.cdf((nibble & 8) + 3) as i32;
    let normalized_mid_prob = (((mid_prob - mid_min) * 256) / (mid_max - mid_min)) as u8;
    let mid_bit = nibble & 4;
    let b1 = mid_bit != 0;
    let lomid_min = if mid_bit != 0 {
        mid_prob
    } else {
        mid_min
    };
    let lomid_max = if mid_bit != 0 {
        mid_max
    } else {
        mid_prob
    };
    let lomid_prob = prob.cdf((nibble & 12) + 1) as i32;
    let normalized_lomid_prob = (((lomid_prob - lomid_min) * 256) / (lomid_max - lomid_min)) as u8;
    let lomid_bit = nibble & 2;
    let b2 = lomid_bit != 0;
    let lo_min = if lomid_bit != 0 {
        lomid_prob
    } else {
        lomid_min
    };
    let lo_max = if lomid_bit != 0 {
        lomid_max
    } else {
        lomid_prob
    };
    let lo_prob = prob.cdf(nibble & 14) as i32;
    let normalized_lo_prob = (((lo_prob - lo_min) * 256) / (lo_max - lo_min)) as u8;
    let b3 = nibble & 1 != 0;
    let bits = [b0, b1, b2, b3];
    let probs = [
        normalized_high_bit_prob,
        normalized_mid_prob,
        normalized_lomid_prob,
        normalized_lo_prob,
    ];
    proof {
        assert(bits@ =~= nibble_bits(nibble));
        assert(probs@ =~= nibble_probs(*prob, nibble));
    }
    (bits, probs)
}

/// Decode one nibble from four bit decisions, returning it with the
/// probability each decision was read under: the same four probabilities the
/// encoder computes for the decoded symbol.
pub fn get_nibble<C: CDF16>(bits: [bool; 4], prob: &C) -> (r: (u8, [u8; 4]))
    requires
        cdf_wf(prob),
    ensures
        r.0 == bits_to_nibble(bits@),
        r.0 < 16,
        r.1@ == nibble_probs(*prob, r.0),
{
    let bit0 = bits[0];
    let bit1 = bits[1];
    let bit2 = bits[2];
    let bit3 = bits[3];
    let ghost n = bits_to_nibble(bits@);
    proof {
        lemma_cdf_chain(prob);
        assert(bits@ =~= seq![bit0, bit1, bit2, bit3]);
        assert(bits_to_nibble_bv(bit0, bit1, bit2, bit3) < 16) by (bit_vector);
        lemma_nibble_split_order(n);
    }
    let cdf_max = prob.max() as i32;
    let high_bit_prob = prob.cdf(7) as i32;
    let normalized_high_bit_prob = ((high_bit_prob * 256) / cdf_max) as u8;
    let high_bit: u8 = if bit0 {
        8
    } else {
        0
    };
    let mut nibble: u8 = high_bit;
    proof {
        let m = bits_to_nibble_bv(bit0, bit1, bit2, bit3);
        assert(nibble == (m & 8) && nibble <= 8 && (nibble & 8) == nibble && ((m & 8) != 0) == bit0) by (bit_vector)
            requires
                nibble == (if bit0 { 8u8 } else { 0u8 }),
                m == bits_to_nibble_bv(bit0, bit1, bit2, bit3)
        ;
    }
    let mid_max = if high_bit != 0 {
        cdf_max
    } else {
        high_bit_prob
    };
    let mid_min = if high_bit != 0 {
        high_bit_prob
    } else {
        0
    };
    let mid_prob = prob.cdf((nibble & 8) + 3) as i32;
    let normalized_mid_prob = (((mid_prob - mid_min) * 256) / (mid_max - mid_min)) as u8;
    let mid_bit: u8 = if bit1 {
        4
    } else {
        0
    };
    nibble = nibble | mid_bit;
    proof {
        let m = bits_to_nibble_bv(bit0, bit1, bit2, bit3);
        assert(nibble == (m & 12) && (nibble & 8) == (m & 8) && nibble <= 12 && (nibble & 12) == nibble && ((m & 4) != 0) == bit1) by (bit_vector)
            requires
                nibble == (if bit0 { 8u8 } else { 0u8 }) | (if bit1 { 4u8 } else { 0u8 }),
                m == bits_to_nibble_bv(bit0, bit1, bit2, bit3)
        ;
    }
    let lomid_min = if mid_bit != 0 {
        mid_prob
    } else {
        mid_min
    };
    let lomid_max = if mid_bit != 0 {
        mid_max
    } else {
        mid_prob
    };
    let lomid_prob = prob.cdf((nibble & 12) + 1) as i32;
    let normalized_lomid_prob = (((lomid_prob - lomid_min) * 256) / (lomid_max - lomid_min)) as u8;
    let lomid_bit: u8 = if bit2 {
        2
    } else {
        0
    };
    nibble = nibble | lomid_bit;
    proof {
        let m = bits_to_nibble_bv(bit0, bit1, bit2, bit3);
        assert(nibble == (m & 14) && (nibble & 12) == (m & 12) && (nibble & 8) == (m & 8)
            && nibble <= 14 && (nibble & 14) == nibble && ((m & 2) != 0) == bit2) by (bit_vector)
            requires
                nibble == ((if bit0 { 8u8 } else { 0u8 }) | (if bit1 { 4u8 } else { 0u8 })) | (
                if bit2 { 2u8 } else { 0u8 }),
                m == bits_to_nibble_bv(bit0, bit1, bit2, bit3)
        ;
    }
    let lo_min = if lomid_bit != 0 {
        lomid_prob
    } else {
        lomid_min
    };
    let lo_max = if lomid_bit != 0 {
        lomid_max
    } else {
        lomid_prob
    };
    let lo_prob = prob.cdf(nibble & 14) as i32;
    let normalized_lo_prob = (((lo_prob - lo_min) * 256) / (lo_max - lo_min)) as u8;
    let lo_bit: u8 = if bit3 {
        1
    } else {
        0
    };
    nibble = nibble | lo_bit;
    proof {
        let m = bits_to_nibble_bv(bit0, bit1, bit2, bit3);
        assert(nibble == m && ((m & 1) != 0) == bit3) by (bit_vector)
            requires
                nibble == (((if bit0 { 8u8 } else { 0u8 }) | (if bit1 { 4u8 } else { 0u8 })) | (
                if bit2 { 2u8 } else { 0u8 })) | (if bit3 { 1u8 } else { 0u8 }),
                m == bits_to_nibble_bv(bit0, bit1, bit2, bit3)
        ;
    }
    let probs = [
        normalized_high_bit_prob,
        normalized_mid_prob,
        normalized_lomid_prob,
        normalized_lo_prob,
    ];
    proof {
        assert(probs@ =~= nibble_probs(*prob, n));
    }
    (nibble, probs)
}

/// `bits_to_nibble` in a shape the bit-vector solver accepts.
pub open spec fn bits_to_nibble_bv(b0: bool, b1: bool, b2: bool, b3: bool) -> u8 {
    (if b0 {
        8u8
    } else {
        0u8
    }) | (if b1 {
        4u8
    } else {
        0u8
    }) | (if b2 {
        2u8
    } else {
        0u8
    }) | (if b3 {
        1u8
    } else {
        0u8
    })
}

/// The nibble coder is self-inverse: decoding the four bit decisions that
/// `put_nibble` produces for a symbol under a valid distribution gives the
/// symbol back, and the decoder asks for exactly the probabilities the
/// encoder used.
pub proof fn lemma_nibble_coder_self_inverse<C: CDF16>(p: C, n: u8)
    requires
        cdf_wf(&p),
        n < 16,
    ensures
        bits_to_nibble(nibble_bits(n)) == n,
        nibble_probs(p, bits_to_nibble(nibble_bits(n))) == nibble_probs(p, n),
{
    assert(nibble_bits(n) =~= seq![n & 8 != 0, n & 4 != 0, n & 2 != 0, n & 1 != 0]);
    assert(bits_to_nibble_bv(n & 8 != 0, n & 4 != 0, n & 2 != 0, n & 1 != 0) == n)
        by (bit_vector)
        requires
            n < 16
    ;
}

/// Every cumulative value is bounded by the total, and the order between any
/// two of the sixteen entries follows from the adjacent strict increases.
proof fn lemma_cdf_chain<C: CDF16>(p: &C)
    requires
        cdf_wf(p),
    ensures
        forall|i: int, j: int| 0 <= i <= j < 16 ==> #[trigger] p.cdf_spec(i) <= #[trigger] p.cdf_spec(j),
        forall|i: int, j: int| 0 <= i < j < 16 ==> #[trigger] p.cdf_spec(i) < #[trigger] p.cdf_spec(j),
{
    assert forall|i: int, j: int| 0 <= i < j < 16 implies #[trigger] p.cdf_spec(i)
        < #[trigger] p.cdf_spec(j) by {
        lemma_cdf_lt(p, i, j);
    }
}

proof fn lemma_cdf_lt<C: CDF16>(p: &C, i: int, j: int)
    requires
        cdf_wf(p),
        0 <= i < j < 16,
    ensures
        p.cdf_spec(i) < p.cdf_spec(j),
    decreases j - i,
{
    if j == i + 1 {
        assert(p.cdf_spec(i) < p.cdf_spec(i + 1));
    } else {
        lemma_cdf_lt(p, i, j - 1);
        assert(p.cdf_spec(j - 1) < p.cdf_spec(j));
    }
}

/// The three split indices a symbol uses, in the order the coder narrows its
/// half-interval, lie strictly inside the interval bounds.
proof fn lemma_nibble_split_order(n: u8)
    requires
        n < 16,
    ensures
        (n & 8) == 0 || (n & 8) == 8,
        (n & 4) == 0 || (n & 4) == 4,
        (n & 2) == 0 || (n & 2) == 2,
        (n & 12) == (n & 8) + (n & 4),
        (n & 14) == (n & 12) + (n & 2),
        ((n & 8) as int) + 3 < 15,
        ((n & 12) as int) + 1 < 15,
        ((n & 14) as int) < 15,
{
    assert((n & 8) == 0 || (n & 8) == 8) by (bit_vector);
    assert((n & 4) == 0 || (n & 4) == 4) by (bit_vector);
    assert((n & 2) == 0 || (n & 2) == 2) by (bit_vector);
    assert((n & 12) == (n & 8) + (n & 4)) by (bit_vector);
    assert((n & 14) == (n & 12) + (n & 2)) by (bit_vector);
    assert((n & 8) < 9 && (n & 12) < 13 && (n & 14) < 15) by (bit_vector);
}


/// A cumulative frequency clamped into sixteen bits.
pub open spec fn clamp16(x: int) -> u16 {
    if x > 0xffff {
        0xffffu16
    } else {
        x as u16
    }
}

/// Sum of `counts[0..=i]`, the unreduced cumulative frequency.
pub open spec fn counts_prefix(c: Seq<u16>, i: int) -> int
    decreases i + 1,
{
    if i < 0 {
        0
    } else {
        counts_prefix(c, i - 1) + c[i]
    }
}

proof fn lemma_counts_prefix_bounds(c: Seq<u16>, i: int)
    requires
        c.len() == 16,
        0 <= i < 16,
        forall|j: int| 0 <= j < 16 ==> #[trigger] c[j] >= 1,
    ensures
        counts_prefix(c, i) >= i + 1,
        counts_prefix(c, i) <= counts_prefix(c, 15),
    decreases 16 - i,
{
    lemma_counts_prefix_pos(c, i);
    if i < 15 {
        lemma_counts_prefix_bounds(c, i + 1);
    }
}

proof fn lemma_counts_prefix_pos(c: Seq<u16>, i: int)
    requires
        c.len() == 16,
        0 <= i < 16,
        forall|j: int| 0 <= j < 16 ==> #[trigger] c[j] >= 1,
    ensures
        counts_prefix(c, i) >= i + 1,
    decreases i + 1,
{
    assert(counts_prefix(c, -1) == 0);
    if i > 0 {
        lemma_counts_prefix_pos(c, i - 1);
    }
    assert(counts_prefix(c, i) == counts_prefix(c, i - 1) + c[i]);
}

/// A frequency-counting adaptive distribution: sixteen per-symbol counts, all
/// nonzero, whose running prefix sums form the CDF.
pub struct FrequentistCDF16 {
    pub counts: [u16; 16],
}

/// The shape shared by the counting models: nonzero counts with a bounded
/// total, so the prefix sums fit a `u16` exactly.
pub open spec fn counts_wf(c: Seq<u16>) -> bool {
    &&& c.len() == 16
    &&& forall|j: int| 0 <= j < 16 ==> #[trigger] c[j] >= 1
    &&& counts_prefix(c, 15) <= 0xffff
}

/// Exact prefix-sum of a count table through `symbol`, in 32 bits.
fn counts_cdf(counts: &[u16; 16], symbol: u8) -> (r: u32)
    requires
        symbol < 16,
    ensures
        r == counts_prefix(counts@, symbol as int) as u32 || counts_prefix(counts@, symbol as int)
            > u32::MAX,
        counts_prefix(counts@, symbol as int) <= 16 * 0xffff,
        r == counts_prefix(counts@, symbol as int),
{
    let mut s: u32 = 0;
    let mut j: usize = 0;
    proof {
        lemma_counts_prefix_total_bound(counts@, symbol as int);
    }
    while j <= symbol as usize
        invariant
            symbol < 16,
            0 <= j <= symbol as usize + 1,
            s == counts_prefix(counts@, j as int - 1),
            s <= j * 0xffff,
        decreases symbol as usize + 1 - j,
    {
        proof {
            vstd::arithmetic::mul::lemma_mul_is_distributive_add_other_way(0xffff, j as int, 1);
        }
        s = s + counts[j] as u32;
        j = j + 1;
    }
    s
}

proof fn lemma_counts_prefix_total_bound(c: Seq<u16>, i: int)
    requires
        c.len() == 16,
        -1 <= i < 16,
    ensures
        counts_prefix(c, i) <= 16 * 0xffff,
        counts_prefix(c, i) >= 0,
    decreases i + 1,
{
    if i >= 0 {
        lemma_counts_prefix_total_bound(c, i - 1);
        assert(counts_prefix(c, i - 1) <= 15 * 0xffff) by {
            lemma_counts_prefix_step_bound(c, i - 1);
        }
    }
}

proof fn lemma_counts_prefix_step_bound(c: Seq<u16>, i: int)
    requires
        c.len() == 16,
        -1 <= i < 15,
    ensures
        counts_prefix(c, i) <= 15 * 0xffff,
    decreases i + 1,
{
    if i >= 0 {
        lemma_counts_prefix_step_bound(c, i - 1);
        assert(counts_prefix(c, i - 1) <= 14 * 0xffff) by {
            lemma_counts_prefix_cap(c, i - 1, 14);
        }
    }
}

proof fn lemma_counts_prefix_cap(c: Seq<u16>, i: int, k: int)
    requires
        c.len() == 16,
        -1 <= i < k,
        0 <= k,
    ensures
        counts_prefix(c, i) <= k * 0xffff,
    decreases i + 1,
{
    vstd::arithmetic::mul::lemma_mul_nonnegative(k, 0xffff);
    if i >= 0 {
        lemma_counts_prefix_cap(c, i - 1, k - 1);
        vstd::arithmetic::mul::lemma_mul_is_distributive_sub(0xffff, k, 1);
    }
}

/// Rescale-and-bump shared by the two models: when the total would leave
/// sixteen bits (or always, for the decaying model), clamp and shrink every
/// count; then add `inc` to `symbol`. Every count stays nonzero and the total
/// stays within `u16` range.
fn counts_blend(counts: &mut [u16; 16], symbol: u8, inc: u16, shrink_all: bool)
    requires
        symbol < 16,
        forall|j: int| 0 <= j < 16 ==> #[trigger] old(counts)@[j] >= 1,
        inc <= 512,
    ensures
        counts_wf(final(counts)@),
{
    let total = counts_cdf(counts, 15);
    proof {
        lemma_counts_prefix_bounds(counts@, 15);
    }
    if total + inc as u32 > 0xffff || shrink_all {
        let mut i: usize = 0;
        while i < 16
            invariant
                0 <= i <= 16,
                counts@.len() == 16,
                forall|j: int| 0 <= j < i ==> 1 <= #[trigger] counts@[j] <= 2049,
                forall|j: int| i <= j < 16 ==> #[trigger] counts@[j] >= 1,
            decreases 16 - i,
        {
            let c = counts[i];
            let clamped: u16 = if c > 4096 {
                4096
            } else {
                c
            };
            counts[i] = clamped / 2 + 1;
            i = i + 1;
        }
        proof {
            lemma_counts_prefix_linear_cap(counts@, 15, 2049);
            assert(counts_prefix(counts@, 15) <= 16 * 2049);
        }
    }
    proof {
        // in either branch the total leaves room for the increment
        lemma_counts_prefix_bounds(counts@, 15);
        lemma_counts_prefix_total_bound(counts@, symbol as int - 1);
        lemma_counts_prefix_bounds(counts@, symbol as int);
        assert(counts_prefix(counts@, symbol as int) == counts_prefix(counts@, symbol as int - 1)
            + counts@[symbol as int]);
        assert(counts@[symbol as int] <= counts_prefix(counts@, symbol as int));
        assert(counts_prefix(counts@, 15) + inc <= 0xffff);
    }
    let idx = symbol as usize;
    let ghost before = counts@;
    counts[idx] = counts[idx] + inc;
    proof {
        assert(counts@ == before.update(idx as int, counts@[idx as int]));
        lemma_counts_prefix_update(before, counts@, idx as int, 15);
    }
}

proof fn lemma_counts_prefix_linear_cap(c: Seq<u16>, i: int, cap: int)
    requires
        c.len() == 16,
        -1 <= i < 16,
        forall|j: int| 0 <= j < 16 ==> #[trigger] c[j] <= cap,
        0 <= cap,
    ensures
        counts_prefix(c, i) <= (i + 1) * cap,
    decreases i + 1,
{
    vstd::arithmetic::mul::lemma_mul_nonnegative(i + 1, cap);
    if i >= 0 {
        lemma_counts_prefix_linear_cap(c, i - 1, cap);
        vstd::arithmetic::mul::lemma_mul_is_distributive_add_other_way(cap, i, 1);
    } else {
        assert(counts_prefix(c, i) == 0);
    }
}

proof fn lemma_counts_prefix_update(before: Seq<u16>, after: Seq<u16>, idx: int, i: int)
    requires
        before.len() == 16,
        after.len() == 16,
        -1 <= i < 16,
        0 <= idx < 16,
        after == before.update(idx, after[idx]),
    ensures
        i < idx ==> counts_prefix(after, i) == counts_prefix(before, i),
        idx <= i < 16 ==> counts_prefix(after, i) == counts_prefix(before, i) + after[idx]
            - before[idx],
    decreases i + 1,
{
    if i >= 0 {
        lemma_counts_prefix_update(before, after, idx, i - 1);
    }
}

impl FrequentistCDF16 {
    /// A uniform table: every symbol has one count.
    pub fn default_table() -> (r: FrequentistCDF16)
        ensures
            cdf_wf(&r),
            counts_wf(r.counts@),
    {
        let r = FrequentistCDF16 { counts: [1u16; 16] };
        proof {
            assert(forall|j: int| 0 <= j < 16 ==> #[trigger] r.counts@[j] == 1);
            lemma_counts_prefix_linear_cap(r.counts@, 15, 1);
            lemma_counts_wf_gives_cdf_wf(r.counts@);
        }
        r
    }
}

/// A well-shaped count table yields a well-formed CDF, since each prefix sum
/// fits in sixteen bits (so the clamp is exact) and grows by at least one per
/// symbol.
proof fn lemma_counts_wf_gives_cdf_wf(c: Seq<u16>)
    requires
        counts_wf(c),
    ensures
        clamp16(counts_prefix(c, 0)) > 0,
        forall|i: int|
            0 <= i < 15 ==> (#[trigger] clamp16(counts_prefix(c, i))) < clamp16(
                counts_prefix(c, i + 1),
            ),
{
    lemma_counts_prefix_bounds(c, 0);
    assert forall|i: int| 0 <= i < 15 implies (#[trigger] clamp16(counts_prefix(c, i))) < clamp16(
        counts_prefix(c, i + 1),
    ) by {
        lemma_counts_prefix_bounds(c, i);
        lemma_counts_prefix_bounds(c, i + 1);
        assert(counts_prefix(c, i + 1) == counts_prefix(c, i) + c[i + 1]);
    }
}

impl CDF16 for FrequentistCDF16 {
    open spec fn cdf_spec(&self, i: int) -> u16 {
        clamp16(counts_prefix(self.counts@, i))
    }

    fn cdf(&self, symbol: u8) -> (r: u16) {
        let s = counts_cdf(&self.counts, symbol);
        if s > 0xffff {
            0xffff
        } else {
            s as u16
        }
    }

    fn max(&self) -> (r: u16) {
        let s = counts_cdf(&self.counts, 15);
        if s > 0xffff {
            0xffff
        } else {
            s as u16
        }
    }

    fn log_max(&self) -> (r: Option<u8>) {
        None
    }

    fn blend(&mut self, symbol: u8, speed: Speed) {
        proof {
            lemma_cdf_wf_gives_counts_pos(self.counts@);
        }
        let inc: u16 = speed_increment(speed);
        counts_blend(&mut self.counts, symbol, inc, false);
        proof {
            lemma_counts_wf_gives_cdf_wf(self.counts@);
        }
    }
}

/// A geometric-decay adaptive distribution: every blend shrinks all counts
/// before bumping the coded symbol, so recent symbols dominate.
pub struct BlendCDF16 {
    pub counts: [u16; 16],
}

impl BlendCDF16 {
    /// A uniform table: every symbol has one count.
    pub fn default_table() -> (r: BlendCDF16)
        ensures
            cdf_wf(&r),
            counts_wf(r.counts@),
    {
        let r = BlendCDF16 { counts: [1u16; 16] };
        proof {
            assert(forall|j: int| 0 <= j < 16 ==> #[trigger] r.counts@[j] == 1);
            lemma_counts_prefix_linear_cap(r.counts@, 15, 1);
            lemma_counts_wf_gives_cdf_wf(r.counts@);
        }
        r
    }
}

impl CDF16 for BlendCDF16 {
    open spec fn cdf_spec(&self, i: int) -> u16 {
        clamp16(counts_prefix(self.counts@, i))
    }

    fn cdf(&self, symbol: u8) -> (r: u16) {
        let s = counts_cdf(&self.counts, symbol);
        if s > 0xffff {
            0xffff
        } else {
            s as u16
        }
    }

    fn max(&self) -> (r: u16) {
        let s = counts_cdf(&self.counts, 15);
        if s > 0xffff {
            0xffff
        } else {
            s as u16
        }
    }

    fn log_max(&self) -> (r: Option<u8>) {
        None
    }

    fn blend(&mut self, symbol: u8, speed: Speed) {
        proof {
            lemma_cdf_wf_gives_counts_pos(self.counts@);
        }
        let inc: u16 = speed_increment(speed);
        counts_blend(&mut self.counts, symbol, inc, true);
        proof {
            lemma_counts_wf_gives_cdf_wf(self.counts@);
        }
    }
}

/// Well-formedness of the clamped CDF pins the counts back down: strictly
/// increasing clamped prefix sums force every per-symbol count to be nonzero.
proof fn lemma_cdf_wf_gives_counts_pos(c: Seq<u16>)
    requires
        c.len() == 16,
        clamp16(counts_prefix(c, 0)) > 0,
        forall|i: int|
            0 <= i < 15 ==> (#[trigger] clamp16(counts_prefix(c, i))) < clamp16(
                counts_prefix(c, i + 1),
            ),
    ensures
        forall|j: int| 0 <= j < 16 ==> #[trigger] c[j] >= 1,
{
    assert forall|j: int| 0 <= j < 16 implies #[trigger] c[j] >= 1 by {
        lemma_counts_prefix_total_bound(c, j);
        lemma_counts_prefix_total_bound(c, j - 1);
        assert(counts_prefix(c, j) == counts_prefix(c, j - 1) + c[j]);
        if j == 0 {
            assert(counts_prefix(c, -1) == 0);
            assert(clamp16(counts_prefix(c, 0)) > 0);
        } else {
            assert(clamp16(counts_prefix(c, j - 1)) < clamp16(counts_prefix(c, j)));
            if c[j] == 0 {
                assert(counts_prefix(c, j) == counts_prefix(c, j - 1));
                assert(false);
            }
        }
    }
}

/// How hard one observation pulls the distribution.
fn speed_increment(speed: Speed) -> (r: u16)
    ensures
        2 <= r <= 512,
{
    match speed {
        Speed::GEOLOGIC => 2,
        Speed::GLACIAL => 4,
        Speed::MUD => 16,
        Speed::SLOW => 32,
        Speed::MED => 48,
        Speed::FAST => 96,
        Speed::PLANE => 128,
        Speed::ROCKET => 384,
    }
}

} // verus!
