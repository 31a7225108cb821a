//! Dictionary reconstruction: feed a reference byte stream past a signature
//! file and copy every block whose rolling checksum and truncated digest both
//! match into a block-indexed dictionary buffer, tracking which dictionary
//! bytes have been filled in.

use vstd::prelude::*;

verus! {

use crate::crc::{crc_update, crc_update_spec, crc_rotate, crc_rotate_spec};
use crate::sig::{SigFile, SigHint, md4_of, md4_digest};

broadcast use vstd::std_specs::hash::group_hash_axioms;

/// The window of `len` bytes that a ring buffer holds, starting at the oldest
/// byte (position `offset`) and wrapping around.
pub open spec fn ring_window(ring: Seq<u8>, offset: int, len: int) -> Seq<u8> {
    (ring.subrange(offset, ring.len() as int) + ring.subrange(0, offset)).take(len)
}

/// Mathematical state of a dictionary builder.
#[verifier::ext_equal]
pub struct DictModel {
    pub data: Seq<u8>,
    pub invalid: Seq<u8>,
    pub ring: Seq<u8>,
    pub ring_offset: int,
    pub crc: int,
    pub count: int,
}

/// Writing window `w` into the dictionary at block `idx`: the window bytes
/// land at `idx * bs` and the same span of `invalid` is zeroed.
pub open spec fn dict_mark(data: Seq<u8>, invalid: Seq<u8>, idx: int, bs: int, w: Seq<u8>) -> (
    Seq<u8>,
    Seq<u8>,
) {
    let target = idx * bs;
    (
        Seq::new(data.len(), |j: int| if target <= j < target + w.len() { w[j - target] } else { data[j] }),
        Seq::new(
            invalid.len(),
            |j: int| if target <= j < target + w.len() { 0u8 } else { invalid[j] },
        ),
    )
}

/// Whether record `idx` of `sf` accepts window `w`: its truncated digest
/// equals the window's.
pub open spec fn sig_matches(sf: SigFile, idx: int, w: Seq<u8>) -> bool {
    sf.signatures@[idx].crypto_sig@ == md4_of(w).take(sf.crypto_sig_size as int)
}

/// One byte of dictionary building. Returns the next state and whether the
/// byte was consumed: a match found while sliding resets the builder and
/// leaves the byte to be re-read by the warm-up that follows.
pub open spec fn dict_step(m: DictModel, sf: SigFile, hint: Map<u32, usize>, b: u8) -> (
    DictModel,
    bool,
) {
    let bs = sf.block_size as int;
    if m.count < bs {
        // warm-up: append the byte to the ring
        let ring = m.ring.update(m.count, b);
        let m1 = DictModel { ring, count: m.count + 1, ..m };
        if m1.count == bs {
            let crc = crc_update_spec(0, ring);
            let m2 = DictModel { crc, ..m1 };
            if hint.contains_key(crc as u32) && sig_matches(
                sf,
                hint[crc as u32] as int,
                ring_window(ring, m.ring_offset, bs),
            ) {
                let (data, invalid) = dict_mark(
                    m.data,
                    m.invalid,
                    hint[crc as u32] as int,
                    bs,
                    ring_window(ring, m.ring_offset, bs),
                );
                (DictModel { data, invalid, count: 0, ..m2 }, true)
            } else {
                (m2, true)
            }
        } else {
            (m1, true)
        }
    } else {
        // sliding: replace the oldest byte, rotate the checksum, and step the
        // cursor past the byte just written so the window reads oldest-first
        let old = m.ring[m.ring_offset];
        let crc = crc_rotate_spec(m.crc, bs, old as int, b as int);
        let ring = m.ring.update(m.ring_offset, b);
        let off = if m.ring_offset + 1 == bs {
            0int
        } else {
            m.ring_offset + 1
        };
        if hint.contains_key(crc as u32) && sig_matches(
            sf,
            hint[crc as u32] as int,
            ring_window(ring, off, bs),
        ) {
            let (data, invalid) = dict_mark(
                m.data,
                m.invalid,
                hint[crc as u32] as int,
                bs,
                ring_window(ring, off, bs),
            );
            (DictModel { data, invalid, ring, ring_offset: 0, crc, count: 0 }, false)
        } else {
            (DictModel { ring, ring_offset: off, crc, ..m }, true)
        }
    }
}

/// Folding `dict_step` over a whole input. A byte left unconsumed by a
/// sliding match is re-read once, by the warm-up of the reset state.
pub open spec fn dict_write_spec(
    m: DictModel,
    sf: SigFile,
    hint: Map<u32, usize>,
    input: Seq<u8>,
) -> DictModel
    decreases input.len(), (if m.count >= sf.block_size as int { 1int } else { 0int }),
{
    if input.len() == 0 || sf.block_size == 0 {
        m
    } else {
        let (m2, consumed) = dict_step(m, sf, hint, input[0]);
        if consumed {
            dict_write_spec(m2, sf, hint, input.drop_first())
        } else {
            dict_write_spec(m2, sf, hint, input)
        }
    }
}

/// The flush pass: with the checksum frozen, try ever shorter windows
/// (lengths `m.count - t`) against the one record the checksum points at,
/// stopping at the first digest match.
pub open spec fn dict_flush_iter(
    m: DictModel,
    sf: SigFile,
    hint: Map<u32, usize>,
    t: int,
    total: int,
) -> DictModel
    decreases total - t,
{
    if t >= total {
        DictModel { count: m.count - total, ..m }
    } else if hint.contains_key(m.crc as u32) && sig_matches(
        sf,
        hint[m.crc as u32] as int,
        ring_window(m.ring, m.ring_offset, m.count - t),
    ) {
        let (data, invalid) = dict_mark(
            m.data,
            m.invalid,
            hint[m.crc as u32] as int,
            sf.block_size as int,
            ring_window(m.ring, m.ring_offset, m.count - t),
        );
        DictModel { data, invalid, ring_offset: 0, count: 0, ..m }
    } else {
        dict_flush_iter(m, sf, hint, t + 1, total)
    }
}

/// Number of window scans one flush pass makes: the populated part of the
/// ring, read from the oldest byte on.
pub open spec fn flush_total(m: DictModel) -> int {
    let seg = vstd::math::min(m.count, m.ring.len() - m.ring_offset);
    seg + vstd::math::min(m.count - seg, m.ring_offset)
}

/// A hint whose indices all point at records of `sf`.
pub open spec fn hint_in_bounds(hint: Map<u32, usize>, sf: SigFile) -> bool {
    forall|k: u32| hint.contains_key(k) ==> #[trigger] hint[k] < sf.signatures@.len()
}

/// The hint a signature file builds for itself points only at its own
/// records, which is what `write` and `flush` ask of any hint they are
/// handed: `create_sig_hint`'s result always satisfies their precondition.
pub proof fn lemma_sig_hint_in_bounds(sf: &SigFile)
    ensures
        hint_in_bounds(crate::sig::sig_hint_map(sf.signatures@), *sf),
{
    vstd::std_specs::vec::axiom_spec_len(&sf.signatures);
    lemma_hint_values_in_bounds(sf.signatures@);
}

proof fn lemma_hint_values_in_bounds(sigs: Seq<crate::sig::Sig>)
    requires
        sigs.len() <= usize::MAX,
    ensures
        forall|k: u32|
            crate::sig::sig_hint_map(sigs).contains_key(k) ==> #[trigger] crate::sig::sig_hint_map(
                sigs,
            )[k] < sigs.len(),
    decreases sigs.len(),
{
    if sigs.len() > 0 {
        lemma_hint_values_in_bounds(sigs.drop_last());
        assert(crate::sig::sig_hint_map(sigs) == crate::sig::sig_hint_map(
            sigs.drop_last(),
        ).insert(sigs.last().crc32, (sigs.len() - 1) as usize));
    }
}

/// Receiver-side dictionary under construction: filled block data, a map of
/// which bytes are still unset (0xFF) or filled (0x00), and the rolling
/// window over the reference stream.
pub struct CustomDictionary {
    pub data: Vec<u8>,
    pub invalid: Vec<u8>,
    pub ring_buffer: Vec<u8>,
    pub ring_buffer_offset: u32,
    pub rolling_crc32: u32,
    pub rolling_count: u32,
}

impl CustomDictionary {
    /// The mathematical state this value holds.
    pub open spec fn model(&self) -> DictModel {
        DictModel {
            data: self.data@,
            invalid: self.invalid@,
            ring: self.ring_buffer@,
            ring_offset: self.ring_buffer_offset as int,
            crc: self.rolling_crc32 as int,
            count: self.rolling_count as int,
        }
    }

    /// Shape of a dictionary built for `sf`: buffers sized by the block size
    /// and record count, cursors in range, and a zero ring offset whenever the
    /// ring is still warming up.
    pub open spec fn wf_for(&self, sf: SigFile) -> bool {
        &&& self.ring_buffer@.len() == sf.block_size as int
        &&& self.data@.len() == sf.block_size as int * sf.signatures@.len()
        &&& self.invalid@.len() == self.data@.len()
        &&& self.rolling_count <= sf.block_size
        &&& self.ring_buffer_offset < sf.block_size || self.ring_buffer_offset == 0
    }

    /// Fresh dictionary for `sf`: all of `invalid` unset, empty window.
    pub fn new(sig_file: &SigFile) -> (r: CustomDictionary)
        requires
            sig_file.block_size as int * sig_file.signatures@.len() <= usize::MAX as int,
        ensures
            r.wf_for(*sig_file),
            r.data@ == Seq::new((sig_file.block_size as int * sig_file.signatures@.len()) as nat, |j: int| 0u8),
            r.invalid@ == Seq::new(r.data@.len(), |j: int| 0xffu8),
            r.ring_buffer@ == Seq::new(sig_file.block_size as nat, |j: int| 0u8),
            r.ring_buffer_offset == 0,
            r.rolling_crc32 == 0,
            r.rolling_count == 0,
    {
        proof {
            vstd::arithmetic::mul::lemma_mul_nonnegative(
                sig_file.block_size as int,
                sig_file.signatures@.len() as int,
            );
        }
        let total: usize = (sig_file.block_size as usize) * sig_file.signatures.len();
        let data = make_filled(total, 0);
        let invalid = make_filled(total, 0xff);
        let ring_buffer = make_filled(sig_file.block_size as usize, 0);
        CustomDictionary {
            data,
            invalid,
            ring_buffer,
            ring_buffer_offset: 0,
            rolling_crc32: 0,
            rolling_count: 0,
        }
    }

    /// Test window `length` of the given ring against record `sig_offset` and,
    /// on a digest match, copy the window into the dictionary and zero the
    /// matching span of `invalid`.
    pub fn speculative_add_helper(
        sig_offset: usize,
        sig_file: &SigFile,
        length: u32,
        ring_buffer: &[u8],
        ring_buffer_offset: usize,
        dict: &mut Vec<u8>,
        invalid: &mut Vec<u8>,
    ) -> (matched: bool)
        requires
            sig_file.wf(),
            sig_file.crypto_sig_size <= 16,
            sig_offset < sig_file.signatures@.len(),
            ring_buffer@.len() == sig_file.block_size as int,
            ring_buffer_offset <= ring_buffer@.len(),
            length as int <= ring_buffer@.len(),
            old(dict)@.len() == sig_file.block_size as int * sig_file.signatures@.len(),
            old(invalid)@.len() == old(dict)@.len(),
        ensures
            ({
                let w = ring_window(ring_buffer@, ring_buffer_offset as int, length as int);
                let marked = dict_mark(old(dict)@, old(invalid)@, sig_offset as int,
                    sig_file.block_size as int, w);
                &&& matched == sig_matches(*sig_file, sig_offset as int, w)
                &&& (matched ==> final(dict)@ == marked.0 && final(invalid)@ == marked.1)
                &&& (!matched ==> final(dict)@ == old(dict)@ && final(invalid)@ == old(invalid)@)
            }),
    {
        let ghost w = ring_window(ring_buffer@, ring_buffer_offset as int, length as int);
        let bs = ring_buffer.len();
        let first_len: usize = if (length as usize) < bs - ring_buffer_offset {
            length as usize
        } else {
            bs - ring_buffer_offset
        };
        let second_len: usize = length as usize - first_len;
        // assemble the window in stream order: oldest bytes first
        let mut window: Vec<u8> = Vec::new();
        let mut k: usize = 0;
        while k < first_len
            invariant
                bs == ring_buffer@.len(),
                first_len <= ring_buffer@.len() - ring_buffer_offset,
                ring_buffer_offset + first_len <= bs,
                0 <= k <= first_len,
                window@ == ring_buffer@.subrange(
                    ring_buffer_offset as int,
                    ring_buffer_offset + k,
                ),
            decreases first_len - k,
        {
            let b = ring_buffer[ring_buffer_offset + k];
            window.push(b);
            proof {
                assert(ring_buffer@.subrange(ring_buffer_offset as int, ring_buffer_offset + k)
                    .push(b) =~= ring_buffer@.subrange(
                    ring_buffer_offset as int,
                    ring_buffer_offset + k + 1,
                ));
            }
            k = k + 1;
        }
        let mut k2: usize = 0;
        while k2 < second_len
            invariant
                bs == ring_buffer@.len(),
                second_len <= ring_buffer_offset,
                ring_buffer_offset <= bs,
                0 <= k2 <= second_len,
                window@ == ring_buffer@.subrange(
                    ring_buffer_offset as int,
                    ring_buffer_offset + first_len,
                ) + ring_buffer@.subrange(0, k2 as int),
            decreases second_len - k2,
        {
            let b = ring_buffer[k2];
            window.push(b);
            proof {
                assert((ring_buffer@.subrange(
                    ring_buffer_offset as int,
                    ring_buffer_offset + first_len,
                ) + ring_buffer@.subrange(0, k2 as int)).push(b) =~= ring_buffer@.subrange(
                    ring_buffer_offset as int,
                    ring_buffer_offset + first_len,
                ) + ring_buffer@.subrange(0, k2 as int + 1));
            }
            k2 = k2 + 1;
        }
        proof {
            assert(window@ =~= w);
        }
        let md4_sum = md4_digest(window.as_slice());
        // compare the truncated digest with the record's
        let sig = &sig_file.signatures[sig_offset];
        let mut same = true;
        let mut j: usize = 0;
        proof {
            assert(sig.crypto_sig@.take(0) =~= md4_of(w).take(0));
        }
        while j < sig.crypto_sig.len()
            invariant
                sig.crypto_sig@ == sig_file.signatures@[sig_offset as int].crypto_sig@,
                sig.crypto_sig@.len() == sig_file.crypto_sig_size as int <= 16,
                md4_sum@.len() == 16,
                md4_sum@ == md4_of(w),
                0 <= j <= sig.crypto_sig@.len(),
                same == (sig.crypto_sig@.take(j as int) == md4_of(w).take(j as int)),
            decreases sig.crypto_sig@.len() - j,
        {
            let ghost pre_same = same;
            if sig.crypto_sig[j] != md4_sum[j] {
                same = false;
            }
            proof {
                let t1 = sig.crypto_sig@.take(j as int + 1);
                let t2 = md4_of(w).take(j as int + 1);
                assert(t1.drop_last() =~= sig.crypto_sig@.take(j as int));
                assert(t2.drop_last() =~= md4_of(w).take(j as int));
                if pre_same && sig.crypto_sig@[j as int] == md4_of(w)[j as int] {
                    assert(t1 =~= t2);
                } else {
                    if t1 == t2 {
                        assert(t1.drop_last() == t2.drop_last() && t1.last() == t2.last());
                    }
                }
            }
            j = j + 1;
        }
        proof {
            assert(sig.crypto_sig@.take(sig.crypto_sig@.len() as int) =~= sig.crypto_sig@);
        }
        if !same {
            return false;
        }
        // digest hit: copy the window in and zero the matched span
        proof {
            vstd::arithmetic::mul::lemma_mul_nonnegative(sig_offset as int, bs as int);
            vstd::arithmetic::mul::lemma_mul_inequality(
                sig_offset as int + 1,
                sig_file.signatures@.len() as int,
                bs as int,
            );
            vstd::arithmetic::mul::lemma_mul_is_distributive_add_other_way(
                bs as int,
                sig_offset as int,
                1,
            );
            vstd::arithmetic::mul::lemma_mul_is_commutative(
                sig_file.block_size as int,
                sig_file.signatures@.len() as int,
            );
            assert(sig_offset as int * (bs as int) + bs as int <= dict@.len());
        }
        let dlen: usize = dict.len();
        let ilen: usize = invalid.len();
        proof {
            assert(sig_offset as int * (bs as int) + bs as int <= dlen as int);
        }
        let dict_target: usize = sig_offset * bs;
        let mut c: usize = 0;
        let ghost dict0 = dict@;
        let ghost invalid0 = invalid@;
        while c < window.len()
            invariant
                window@ == w,
                w.len() == length as int <= bs as int,
                dict_target + bs <= dlen,
                dict@.len() == dlen as int,
                dict@.len() == dict0.len(),
                invalid@.len() == invalid0.len(),
                invalid@ == invalid0,
                0 <= c <= w.len(),
                forall|j: int|
                    0 <= j < dict@.len() && !(dict_target <= j < dict_target + c) ==> dict@[j]
                        == dict0[j],
                forall|j: int|
                    dict_target <= j < dict_target + c ==> dict@[j] == w[j - dict_target],
            decreases window@.len() - c,
        {
            let b = window[c];
            dict[dict_target + c] = b;
            c = c + 1;
        }
        let mut z: usize = 0;
        while z < window.len()
            invariant
                window@ == w,
                w.len() == length as int <= bs as int,
                dict_target + bs <= ilen,
                invalid@.len() == ilen as int,
                invalid@.len() == invalid0.len(),
                0 <= z <= w.len(),
                forall|j: int|
                    0 <= j < invalid@.len() && !(dict_target <= j < dict_target + z) ==> invalid@[j]
                        == invalid0[j],
                forall|j: int| dict_target <= j < dict_target + z ==> invalid@[j] == 0,
            decreases window@.len() - z,
        {
            invalid[dict_target + z] = 0;
            z = z + 1;
        }
        proof {
            let marked = dict_mark(dict0, invalid0, sig_offset as int, bs as int, w);
            assert(dict@ =~= marked.0);
            assert(invalid@ =~= marked.1);
        }
        true
    }

    /// Test the current window against record `sig_offset`, marking the
    /// dictionary on a match.
    pub fn speculative_add(&mut self, sig_offset: usize, sig_file: &SigFile, length: u32)
        -> (matched: bool)
        requires
            sig_file.wf(),
            sig_file.crypto_sig_size <= 16,
            sig_offset < sig_file.signatures@.len(),
            old(self).wf_for(*sig_file),
            old(self).ring_buffer_offset <= old(self).ring_buffer@.len(),
            length as int <= old(self).ring_buffer@.len(),
        ensures
            ({
                let w = ring_window(
                    old(self).ring_buffer@,
                    old(self).ring_buffer_offset as int,
                    length as int,
                );
                let marked = dict_mark(old(self).data@, old(self).invalid@, sig_offset as int,
                    sig_file.block_size as int, w);
                &&& matched == sig_matches(*sig_file, sig_offset as int, w)
                &&& (matched ==> final(self).data@ == marked.0 && final(self).invalid@ == marked.1)
                &&& (!matched ==> final(self).data@ == old(self).data@ && final(self).invalid@
                    == old(self).invalid@)
                &&& final(self).ring_buffer@ == old(self).ring_buffer@
                &&& final(self).ring_buffer_offset == old(self).ring_buffer_offset
                &&& final(self).rolling_crc32 == old(self).rolling_crc32
                &&& final(self).rolling_count == old(self).rolling_count
            }),
    {
        Self::speculative_add_helper(
            sig_offset,
            sig_file,
            length,
            self.ring_buffer.as_slice(),
            self.ring_buffer_offset as usize,
            &mut self.data,
            &mut self.invalid,
        )
    }

    /// Feed reference bytes past the window. Each byte either warms the ring
    /// up or slides it; whenever the ring is full its checksum is looked up in
    /// the hint, and a digest hit copies the window into the dictionary and
    /// restarts the warm-up. The final state is exactly the fold of
    /// `dict_step` over `input`.
    pub fn write(&mut self, input: &[u8], hint: &SigHint, sig_file: &SigFile)
        requires
            sig_file.wf(),
            sig_file.block_size >= 1,
            sig_file.crypto_sig_size <= 16,
            hint_in_bounds(hint.crc32_to_sig_index@, *sig_file),
            old(self).wf_for(*sig_file),
        ensures
            final(self).wf_for(*sig_file),
            final(self).model() == dict_write_spec(
                old(self).model(),
                *sig_file,
                hint.crc32_to_sig_index@,
                input@,
            ),
    {
        let bs: u32 = sig_file.block_size;
        let ghost m0 = self.model();
        let ghost h = hint.crc32_to_sig_index@;
        let ghost sf = *sig_file;
        let mut i: usize = 0;
        proof {
            assert(input@.skip(0) =~= input@);
        }
        while i < input.len()
            invariant
                sf == *sig_file,
                h == hint.crc32_to_sig_index@,
                bs == sig_file.block_size,
                sig_file.wf(),
                sig_file.block_size >= 1,
                sig_file.crypto_sig_size <= 16,
                hint_in_bounds(h, sf),
                self.wf_for(sf),
                0 <= i <= input.len(),
                dict_write_spec(m0, sf, h, input@) == dict_write_spec(
                    self.model(),
                    sf,
                    h,
                    input@.skip(i as int),
                ),
            decreases
                    input@.len() - i,
                    (if self.rolling_count >= sig_file.block_size {
                        1int
                    } else {
                        0int
                    }),
        {
            let ghost pre = self.model();
            let ghost rest = input@.skip(i as int);
            let b = input[i];
            proof {
                assert(rest[0] == input@[i as int]);
                assert(rest.drop_first() =~= input@.skip(i as int + 1));
            }
            if self.rolling_count < bs {
                let rc = self.rolling_count as usize;
                self.ring_buffer[rc] = b;
                self.rolling_count = self.rolling_count + 1;
                if self.rolling_count == bs {
                    self.rolling_crc32 = crc_update(0, self.ring_buffer.as_slice());
                    let crc = self.rolling_crc32;
                    let mut matched = false;
                    match hint.crc32_to_sig_index.get(&crc) {
                        Some(idx_ref) => {
                            let idx = *idx_ref;
                            let rc2 = self.rolling_count;
                            matched = self.speculative_add(idx, sig_file, rc2);
                        },
                        None => {},
                    }
                    if matched {
                        self.rolling_count = 0;
                    }
                }
                i = i + 1;
                proof {
                    let (m2, consumed) = dict_step(pre, sf, h, b);
                    assert(consumed);
                    assert(m2 =~= self.model());
                    assert(dict_write_spec(pre, sf, h, rest) == dict_write_spec(
                        self.model(),
                        sf,
                        h,
                        input@.skip(i as int),
                    ));
                }
            } else {
                let off = self.ring_buffer_offset as usize;
                let old_b = self.ring_buffer[off];
                self.rolling_crc32 = crc_rotate(self.rolling_crc32, bs, old_b, b);
                self.ring_buffer[off] = b;
                self.ring_buffer_offset = self.ring_buffer_offset + 1;
                if self.ring_buffer_offset == bs {
                    self.ring_buffer_offset = 0;
                }
                let crc = self.rolling_crc32;
                let mut matched = false;
                match hint.crc32_to_sig_index.get(&crc) {
                    Some(idx_ref) => {
                        let idx = *idx_ref;
                        let rc2 = self.rolling_count;
                        matched = self.speculative_add(idx, sig_file, rc2);
                    },
                    None => {},
                }
                if matched {
                    self.rolling_count = 0;
                    self.ring_buffer_offset = 0;
                    proof {
                        let (m2, consumed) = dict_step(pre, sf, h, b);
                        assert(!consumed);
                        assert(m2 =~= self.model());
                        assert(dict_write_spec(pre, sf, h, rest) == dict_write_spec(
                            self.model(),
                            sf,
                            h,
                            rest,
                        ));
                    }
                } else {
                    i = i + 1;
                    proof {
                        let (m2, consumed) = dict_step(pre, sf, h, b);
                        assert(consumed);
                        assert(m2 =~= self.model());
                        assert(dict_write_spec(pre, sf, h, rest) == dict_write_spec(
                            self.model(),
                            sf,
                            h,
                            input@.skip(i as int),
                        ));
                    }
                }
            }
        }
        proof {
            assert(input@.skip(input@.len() as int) =~= Seq::<u8>::empty());
        }
    }

    /// Drain the window: with the checksum frozen, scan ever shorter windows
    /// for one last match, then forget the drained bytes. The final state is
    /// exactly `dict_flush_iter` from step 0.
    pub fn flush(&mut self, hint: &SigHint, sig_file: &SigFile)
        requires
            sig_file.wf(),
            sig_file.block_size >= 1,
            sig_file.crypto_sig_size <= 16,
            hint_in_bounds(hint.crc32_to_sig_index@, *sig_file),
            old(self).wf_for(*sig_file),
        ensures
            final(self).wf_for(*sig_file),
            final(self).model() == dict_flush_iter(
                old(self).model(),
                *sig_file,
                hint.crc32_to_sig_index@,
                0,
                flush_total(old(self).model()),
            ),
    {
        let ghost m0 = self.model();
        let ghost h = hint.crc32_to_sig_index@;
        let ghost sf = *sig_file;
        let bs: usize = self.ring_buffer.len();
        let off: usize = self.ring_buffer_offset as usize;
        let count: usize = self.rolling_count as usize;
        let seg: usize = if count < bs - off {
            count
        } else {
            bs - off
        };
        let second: usize = if count - seg < off {
            count - seg
        } else {
            off
        };
        let total: usize = seg + second;
        proof {
            assert(total as int == flush_total(m0));
        }
        let mut t: usize = 0;
        while t < total
            invariant
                sf == *sig_file,
                h == hint.crc32_to_sig_index@,
                sig_file.wf(),
                sig_file.block_size >= 1,
                sig_file.crypto_sig_size <= 16,
                hint_in_bounds(h, sf),
                self.wf_for(sf),
                bs == sig_file.block_size as int,
                m0 == old(self).model(),
                self.model() == m0,
                count == m0.count,
                total <= count,
                total as int == flush_total(m0),
                0 <= t <= total,
                dict_flush_iter(m0, sf, h, 0, total as int) == dict_flush_iter(
                    m0,
                    sf,
                    h,
                    t as int,
                    total as int,
                ),
            decreases total - t,
        {
            let length: u32 = (count - t) as u32;
            let crc = self.rolling_crc32;
            let mut matched = false;
            match hint.crc32_to_sig_index.get(&crc) {
                Some(idx_ref) => {
                    let idx = *idx_ref;
                    matched = self.speculative_add(idx, sig_file, length);
                },
                None => {},
            }
            if matched {
                self.rolling_count = 0;
                self.ring_buffer_offset = 0;
                proof {
                    assert(self.model() =~= dict_flush_iter(m0, sf, h, t as int, total as int));
                }
                return ;
            }
            t = t + 1;
        }
        self.rolling_count = self.rolling_count - total as u32;
        proof {
            assert(self.model() =~= dict_flush_iter(m0, sf, h, total as int, total as int));
        }
    }

    /// Release every buffer; the cursors stay as they are.
    pub fn free(&mut self)
        ensures
            final(self).data@.len() == 0,
            final(self).invalid@.len() == 0,
            final(self).ring_buffer@.len() == 0,
    {
        self.data = Vec::new();
        self.invalid = Vec::new();
        self.ring_buffer = Vec::new();
    }
}

/// A vector of `n` copies of `b`.
pub(crate) fn make_filled(n: usize, b: u8) -> (r: Vec<u8>)
    ensures
        r@ == Seq::new(n as nat, |j: int| b),
{
    let mut r: Vec<u8> = Vec::new();
    let mut i: usize = 0;
    while i < n
        invariant
            0 <= i <= n,
            r@ == Seq::new(i as nat, |j: int| b),
        decreases n - i,
    {
        r.push(b);
        proof {
            assert(Seq::new(i as nat, |j: int| b).push(b) =~= Seq::new(i as nat + 1, |j: int| b));
        }
        i = i + 1;
    }
    r
}


/// Overwriting a stretch of a sequence starting at `at`.
pub open spec fn seq_overwrite(r: Seq<u8>, at: int, piece: Seq<u8>) -> Seq<u8> {
    Seq::new(r.len(), |i: int| if at <= i < at + piece.len() { piece[i - at] } else { r[i] })
}

/// A whole-ring window starting at the oldest position zero is the ring
/// itself.
proof fn lemma_ring_window_full(r: Seq<u8>)
    ensures
        ring_window(r, 0, r.len() as int) == r,
{
    assert(ring_window(r, 0, r.len() as int) =~= r);
}

/// Processing splits over concatenation: feeding `a + b` is feeding `a`, then
/// feeding `b` from where that left off.
pub proof fn lemma_dict_write_append(
    m: DictModel,
    sf: SigFile,
    h: Map<u32, usize>,
    a: Seq<u8>,
    b: Seq<u8>,
)
    ensures
        dict_write_spec(m, sf, h, a + b) == dict_write_spec(
            dict_write_spec(m, sf, h, a),
            sf,
            h,
            b,
        ),
    decreases a.len(), (if m.count >= sf.block_size as int {
        1int
    } else {
        0int
    }),
{
    if sf.block_size == 0 {
        assert(dict_write_spec(m, sf, h, a + b) == m);
        assert(dict_write_spec(m, sf, h, a) == m);
        assert(dict_write_spec(m, sf, h, b) == m);
    } else if a.len() == 0 {
        assert(a + b =~= b);
        assert(dict_write_spec(m, sf, h, a) == m);
    } else {
        assert((a + b)[0] == a[0]);
        let (m2, consumed) = dict_step(m, sf, h, a[0]);
        if consumed {
            assert((a + b).drop_first() =~= a.drop_first() + b);
            lemma_dict_write_append(m2, sf, h, a.drop_first(), b);
        } else {
            lemma_dict_write_append(m2, sf, h, a, b);
        }
    }
}

/// Warming the ring up without reaching a full block: the bytes land in the
/// ring one after another and nothing else changes.
proof fn lemma_dict_warmup_partial(m: DictModel, sf: SigFile, h: Map<u32, usize>, piece: Seq<u8>)
    requires
        sf.block_size >= 1,
        m.ring.len() == sf.block_size as int,
        0 <= m.count,
        m.count + piece.len() < sf.block_size as int,
    ensures
        dict_write_spec(m, sf, h, piece) == (DictModel {
            ring: seq_overwrite(m.ring, m.count, piece),
            count: m.count + piece.len() as int,
            ..m
        }),
    decreases piece.len(),
{
    if piece.len() == 0 {
        assert(seq_overwrite(m.ring, m.count, piece) =~= m.ring);
        let target = DictModel {
            ring: seq_overwrite(m.ring, m.count, piece),
            count: m.count + piece.len() as int,
            ..m
        };
        assert(target =~= m);
    } else {
        let (m2, consumed) = dict_step(m, sf, h, piece[0]);
        assert(consumed);
        assert(m2.ring == m.ring.update(m.count, piece[0]));
        lemma_dict_warmup_partial(m2, sf, h, piece.drop_first());
        assert(seq_overwrite(m2.ring, m2.count, piece.drop_first()) =~= seq_overwrite(
            m.ring,
            m.count,
            piece,
        ));
        assert(dict_write_spec(m, sf, h, piece) == dict_write_spec(m2, sf, h, piece.drop_first()));
    }
}

/// Feeding one whole block to an aligned, empty window whose checksum the
/// hint maps to a record with the block's digest: the block is verified,
/// copied to its slot, and the builder is aligned and empty again.
proof fn lemma_dict_block_match(
    m: DictModel,
    sf: SigFile,
    h: Map<u32, usize>,
    blk: Seq<u8>,
    k: int,
)
    requires
        sf.block_size >= 1,
        m.ring.len() == sf.block_size as int,
        m.count == 0,
        m.ring_offset == 0,
        blk.len() == sf.block_size as int,
        0 <= k < sf.signatures@.len(),
        h.contains_key(crc_update_spec(0, blk) as u32),
        h[crc_update_spec(0, blk) as u32] == k,
        sig_matches(sf, k, blk),
    ensures
        ({
            let marked = dict_mark(m.data, m.invalid, k, sf.block_size as int, blk);
            dict_write_spec(m, sf, h, blk) == (DictModel {
                data: marked.0,
                invalid: marked.1,
                ring: blk,
                ring_offset: 0,
                crc: crc_update_spec(0, blk),
                count: 0,
            })
        }),
{
    let bs = sf.block_size as int;
    let head = blk.take(bs - 1);
    let last = blk.last();
    assert(blk =~= head + seq![last]);
    lemma_dict_write_append(m, sf, h, head, seq![last]);
    lemma_dict_warmup_partial(m, sf, h, head);
    let mid = dict_write_spec(m, sf, h, head);
    assert(mid.count == bs - 1 && mid.ring_offset == 0);
    // the final byte completes the ring, which now holds exactly the block
    let (m2, consumed) = dict_step(mid, sf, h, last);
    assert(consumed);
    let ring = mid.ring.update(bs - 1, last);
    assert(ring =~= blk);
    lemma_ring_window_full(blk);
    crate::crc::lemma_crc_update_spec_bounds(0, blk);
    assert(crc_update_spec(0, ring) as u32 as int == crc_update_spec(0, blk));
    assert(dict_write_spec(mid, sf, h, seq![last]) == dict_write_spec(
        m2,
        sf,
        h,
        seq![last].drop_first(),
    ));
    assert(seq![last].drop_first() =~= Seq::<u8>::empty());
    let marked = dict_mark(m.data, m.invalid, k, bs, blk);
    assert(m2 =~= (DictModel {
        data: marked.0,
        invalid: marked.1,
        ring: blk,
        ring_offset: 0,
        crc: crc_update_spec(0, blk),
        count: 0,
    }));
}

/// With pairwise distinct checksums, the hint maps every record's checksum to
/// that record's own index.
proof fn lemma_hint_exact(sigs: Seq<crate::sig::Sig>, k: int)
    requires
        sigs.len() <= usize::MAX,
        0 <= k < sigs.len(),
        forall|i: int, j: int|
            0 <= i < j < sigs.len() ==> (#[trigger] sigs[i].crc32) != (#[trigger] sigs[j].crc32),
    ensures
        crate::sig::sig_hint_map(sigs).contains_key(sigs[k].crc32),
        crate::sig::sig_hint_map(sigs)[sigs[k].crc32] == k,
    decreases sigs.len(),
{
    let n = sigs.len() as int;
    assert(crate::sig::sig_hint_map(sigs) == crate::sig::sig_hint_map(sigs.drop_last()).insert(
        sigs.last().crc32,
        (sigs.len() - 1) as usize,
    ));
    if k == n - 1 {
        assert(sigs.last() == sigs[k]);
    } else {
        assert(sigs[k].crc32 != sigs[n - 1].crc32);
        let head = sigs.drop_last();
        assert forall|i: int, j: int| 0 <= i < j < head.len() implies (#[trigger] head[i].crc32)
            != (#[trigger] head[j].crc32) by {
            assert(head[i] == sigs[i]);
            assert(head[j] == sigs[j]);
        }
        lemma_hint_exact(head, k);
        assert(head[k] == sigs[k]);
    }
}

/// The number of whole blocks of `x`.
pub open spec fn full_blocks(x: Seq<u8>, bs: int) -> int {
    x.len() as int / bs
}

/// A signature file built over `x`: one record per block, carrying the
/// block's rolling checksum and truncated digest.
pub open spec fn sig_file_of(sf: SigFile, x: Seq<u8>) -> bool {
    let bs = sf.block_size as int;
    &&& sf.signatures@.len() == (x.len() + bs - 1) as int / bs
    &&& forall|i: int|
        0 <= i < sf.signatures@.len() ==> {
            let blk = x.subrange(i * bs, vstd::math::min((i + 1) * bs, x.len() as int));
            &&& (#[trigger] sf.signatures@[i]).crc32 == crc_update_spec(0, blk)
            &&& sf.signatures@[i].crypto_sig@ == md4_of(blk).take(sf.crypto_sig_size as int)
        }
}

/// Writing the very stream a signature file was built over, with its own
/// hint, reconstructs every whole block: provided the records' checksums are
/// pairwise distinct, each aligned block lands in its dictionary slot and the
/// matching span of `invalid` is zeroed.
pub proof fn lemma_dictionary_reconstruction(d0: DictModel, sf: SigFile, x: Seq<u8>)
    requires
        sf.block_size >= 1,
        sig_file_of(sf, x),
        forall|i: int, j: int|
            0 <= i < j < sf.signatures@.len() ==> (#[trigger] sf.signatures@[i].crc32) != (
            #[trigger] sf.signatures@[j].crc32),
        d0.count == 0,
        d0.ring_offset == 0,
        d0.ring.len() == sf.block_size as int,
        d0.data.len() == sf.block_size as int * sf.signatures@.len(),
        d0.invalid.len() == d0.data.len(),
    ensures
        ({
            let df = dict_write_spec(d0, sf, crate::sig::sig_hint_map(sf.signatures@), x);
            forall|k: int|
                0 <= k < full_blocks(x, sf.block_size as int) ==> {
                    &&& #[trigger] df.data.subrange(
                        k * (sf.block_size as int),
                        (k + 1) * (sf.block_size as int),
                    ) == x.subrange(k * (sf.block_size as int), (k + 1) * (sf.block_size as int))
                    &&& forall|j: int|
                        k * (sf.block_size as int) <= j < (k + 1) * (sf.block_size as int)
                            ==> df.invalid[j] == 0
                }
        }),
{
    lemma_recon_from(d0, sf, crate::sig::sig_hint_map(sf.signatures@), x, 0);
    assert(x.skip(0) =~= x);
}

/// The inductive heart of the reconstruction: from an aligned, empty window,
/// feeding blocks `k` onward reconstructs each of them and leaves everything
/// before block `k` untouched.
#[verifier::rlimit(100)]
#[verifier::spinoff_prover]
proof fn lemma_recon_from(d: DictModel, sf: SigFile, h: Map<u32, usize>, x: Seq<u8>, k: int)
    requires
        sf.block_size >= 1,
        sig_file_of(sf, x),
        h == crate::sig::sig_hint_map(sf.signatures@),
        forall|i: int, j: int|
            0 <= i < j < sf.signatures@.len() ==> (#[trigger] sf.signatures@[i].crc32) != (
            #[trigger] sf.signatures@[j].crc32),
        0 <= k <= full_blocks(x, sf.block_size as int),
        d.count == 0,
        d.ring_offset == 0,
        d.ring.len() == sf.block_size as int,
        d.data.len() == sf.block_size as int * sf.signatures@.len(),
        d.invalid.len() == d.data.len(),
    ensures
        ({
            let bs = sf.block_size as int;
            let df = dict_write_spec(d, sf, h, x.skip(k * bs));
            &&& df.data.len() == d.data.len()
            &&& df.invalid.len() == d.invalid.len()
            &&& (forall|j: int| 0 <= j < k * bs && j < d.data.len() ==> #[trigger] df.data[j] == d.data[j])
            &&& (forall|j: int|
                0 <= j < k * bs && j < d.invalid.len() ==> #[trigger] df.invalid[j] == d.invalid[j])
            &&& (forall|m: int|
                k <= m < full_blocks(x, bs) ==> {
                    &&& #[trigger] df.data.subrange(m * bs, (m + 1) * bs) == x.subrange(
                        m * bs,
                        (m + 1) * bs,
                    )
                    &&& (forall|j: int| m * bs <= j < (m + 1) * bs ==> df.invalid[j] == 0)
                })
        }),
    decreases full_blocks(x, sf.block_size as int) - k,
{
    let bs = sf.block_size as int;
    let full = full_blocks(x, bs);
    let n = sf.signatures@.len() as int;
    vstd::arithmetic::div_mod::lemma_fundamental_div_mod(x.len() as int, bs);
    vstd::arithmetic::div_mod::lemma_mod_bound(x.len() as int, bs);
    vstd::arithmetic::mul::lemma_mul_nonnegative(k, bs);
    vstd::arithmetic::mul::lemma_mul_inequality(k, full, bs);
    vstd::arithmetic::mul::lemma_mul_is_commutative(full, bs);
    if k == full {
        // the tail is shorter than a block: it only warms the ring up
        let tail = x.skip(k * bs);
        assert(tail.len() < bs) by {
            vstd::arithmetic::mul::lemma_mul_is_distributive_add_other_way(bs, full, 1);
            lemma_full_blocks_cover(x, bs);
        }
        lemma_dict_warmup_partial(d, sf, h, tail);
    } else {
        vstd::arithmetic::mul::lemma_mul_is_distributive_add_other_way(bs, k, 1);
        vstd::arithmetic::mul::lemma_mul_inequality(k + 1, full, bs);
        let blk = x.subrange(k * bs, (k + 1) * bs);
        let rest = x.skip((k + 1) * bs);
        assert(x.skip(k * bs) =~= blk + rest);
        lemma_dict_write_append(d, sf, h, blk, rest);
        // the hint points this block's checksum at its own record
        assert(k < n) by {
            lemma_block_count_at_least(x.len() as int, bs, full, n);
        }
        vstd::std_specs::vec::axiom_spec_len(&sf.signatures);
        let blk_of_sig = x.subrange(k * bs, vstd::math::min((k + 1) * bs, x.len() as int));
        assert(blk_of_sig =~= blk);
        crate::crc::lemma_crc_update_spec_bounds(0, blk);
        assert(sf.signatures@[k].crc32 == crc_update_spec(0, blk));
        lemma_hint_exact(sf.signatures@, k);
        assert(h.contains_key(crc_update_spec(0, blk) as u32) && h[crc_update_spec(0, blk) as u32]
            == k);
        lemma_dict_block_match(d, sf, h, blk, k);
        let marked = dict_mark(d.data, d.invalid, k, bs, blk);
        let mid = dict_write_spec(d, sf, h, blk);
        assert(mid.data.len() == d.data.len() && mid.invalid.len() == d.invalid.len());
        lemma_recon_from(mid, sf, h, x, k + 1);
        let df = dict_write_spec(mid, sf, h, rest);
        // block k lies inside the dictionary and, once written, survives the
        // rest of the run untouched
        vstd::arithmetic::mul::lemma_mul_inequality(k + 1, n, bs);
        vstd::arithmetic::mul::lemma_mul_is_commutative(n, bs);
        assert((k + 1) * bs <= d.data.len());
        assert(df.data.subrange(k * bs, (k + 1) * bs) =~= x.subrange(k * bs, (k + 1) * bs)) by {
            assert forall|j: int| k * bs <= j < (k + 1) * bs implies df.data[j] == blk[j - k * bs]
                by {
                assert(df.data[j] == mid.data[j]);
                assert(mid.data[j] == marked.0[j]);
                assert(marked.0[j] == blk[j - k * bs]);
            }
        }
        assert forall|j: int| k * bs <= j < (k + 1) * bs implies df.invalid[j] == 0 by {
            assert(df.invalid[j] == mid.invalid[j]);
            assert(mid.invalid[j] == marked.1[j]);
        }
    }
}

/// Whole blocks cover all but a sub-block tail.
proof fn lemma_full_blocks_cover(x: Seq<u8>, bs: int)
    requires
        bs >= 1,
    ensures
        x.len() - full_blocks(x, bs) * bs < bs,
        x.len() - full_blocks(x, bs) * bs >= 0,
{
    vstd::arithmetic::div_mod::lemma_fundamental_div_mod(x.len() as int, bs);
    vstd::arithmetic::div_mod::lemma_mod_bound(x.len() as int, bs);
    vstd::arithmetic::mul::lemma_mul_is_commutative(full_blocks(x, bs), bs);
}

/// There are at least as many records as whole blocks.
proof fn lemma_block_count_at_least(len: int, bs: int, full: int, n: int)
    requires
        bs >= 1,
        len >= 0,
        full == len / bs,
        n == (len + bs - 1) / bs,
    ensures
        full <= n,
{
    vstd::arithmetic::div_mod::lemma_div_is_ordered(len, len + bs - 1, bs);
}


} // verus!
