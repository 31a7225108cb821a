//! Block-signature files: per-block pairs of a rolling checksum and a
//! truncated MD4 digest, with a streaming-resumable on-disk format of a
//! 12-byte header followed by fixed-stride records.

use md4::Digest;
use vstd::prelude::*;

verus! {

use crate::crc::{crc_update, crc_update_spec};

broadcast use vstd::std_specs::hash::group_hash_axioms;

/// Named result of the outside MD4 hash: the digest of a byte sequence,
/// a function of those bytes alone.
pub uninterp spec fn md4_of(data: Seq<u8>) -> Seq<u8>;

/// Relies on md4::Md4 through digest::Digest::digest: the MD4 digest of the
/// input bytes, always 16 bytes long.
#[verifier::external_body]
pub(crate) fn md4_digest(data: &[u8]) -> (r: Vec<u8>)
    ensures
        r@ == md4_of(data@),
        r@.len() == 16,
{
    md4::Md4::digest(data).to_vec()
}

/// Big-endian-weighted bytes of a 32-bit value, most significant first.
pub open spec fn be_bytes_of_u32(v: u32) -> Seq<u8> {
    seq![
        (v / 0x1000000) as u8,
        ((v / 0x10000) % 0x100) as u8,
        ((v / 0x100) % 0x100) as u8,
        (v % 0x100) as u8,
    ]
}

/// The 32-bit value read from four bytes weighted most significant first.
pub open spec fn u32_of_be_bytes(d: Seq<u8>) -> int {
    d[0] * 0x1000000 + d[1] * 0x10000 + d[2] * 0x100 + d[3]
}

pub proof fn lemma_be32_round_trip(v: u32)
    ensures
        u32_of_be_bytes(be_bytes_of_u32(v)) == v as int,
{
    vstd::arithmetic::div_mod::lemma_fundamental_div_mod(v as int, 0x1000000);
    vstd::arithmetic::div_mod::lemma_breakdown(v as int, 0x10000, 0x100);
    vstd::arithmetic::div_mod::lemma_breakdown(v as int, 0x100, 0x100);
}

/// Read a 32-bit value from the first four bytes of `data`, byte 0 weighted
/// highest.
pub fn le_to_u32(data: &[u8]) -> (r: u32)
    requires
        data@.len() >= 4,
    ensures
        r as int == u32_of_be_bytes(data@),
{
    data[3] as u32 + data[2] as u32 * 256 + data[1] as u32 * 65536 + data[0] as u32 * 65536 * 256
}

/// Write a 32-bit value as four bytes, byte 0 weighted highest.
pub fn u32_to_le(val: u32) -> (r: [u8; 4])
    ensures
        r@ == be_bytes_of_u32(val),
{
    let r: [u8; 4] = [
        (val / 0x1000000) as u8,
        ((val / 0x10000) % 0x100) as u8,
        ((val / 0x100) % 0x100) as u8,
        (val % 0x100) as u8,
    ];
    proof {
        assert(r@ =~= be_bytes_of_u32(val));
    }
    r
}

/// The file starts with `72 73 01 36` when the digests are MD4.
pub open spec fn magic_md4(d: Seq<u8>) -> bool {
    d.len() >= 4 && d[0] == 0x72 && d[1] == 0x73 && d[2] == 0x01 && d[3] == 0x36
}

/// The file starts with `72 73 01 37` when the digests are BLAKE5.
pub open spec fn magic_blake5(d: Seq<u8>) -> bool {
    d.len() >= 4 && d[0] == 0x72 && d[1] == 0x73 && d[2] == 0x01 && d[3] == 0x37
}

/// The sizes of truncated cryptographic digest the file format admits.
pub open spec fn valid_sig_size(n: int) -> bool {
    n == 2 || n == 3 || n == 4 || n == 5 || n == 6 || n == 7 || n == 8 || n == 12 || n == 16
        || n == 24 || n == 32
}

/// Map from rolling checksum to record index built from a record sequence:
/// each record inserts its checksum, so on equal checksums only the
/// last-inserted index is retained.
pub open spec fn sig_hint_map(sigs: Seq<Sig>) -> Map<u32, usize>
    decreases sigs.len(),
{
    if sigs.len() == 0 {
        Map::empty()
    } else {
        sig_hint_map(sigs.drop_last()).insert(sigs.last().crc32, (sigs.len() - 1) as usize)
    }
}

/// Lookup hint over a signature file: rolling checksum to record index.
pub struct SigHint {
    pub crc32_to_sig_index: std::collections::HashMap<u32, usize>,
}

/// One block signature: the rolling checksum and the truncated digest.
#[derive(Debug, PartialEq)]
pub struct Sig {
    pub crc32: u32,
    pub crypto_sig: Vec<u8>,
}

/// A signature file: one `Sig` per block of the reference data.
#[derive(Debug, PartialEq)]
pub struct SigFile {
    pub block_size: u32,
    pub crypto_sig_size: u32,
    pub signatures: Vec<Sig>,
    pub blake5: bool,
}

pub const HEADER_SIZE: usize = 12;

impl SigFile {
    /// Every record's digest has exactly the advertised size, and that size is
    /// one the format admits.
    pub open spec fn wf(&self) -> bool {
        &&& valid_sig_size(self.crypto_sig_size as int)
        &&& forall|i: int|
            0 <= i < self.signatures@.len() ==> (#[trigger] self.signatures@[i]).crypto_sig@.len()
                == self.crypto_sig_size as int
    }

    /// Bytes of one on-disk record: `crc32` then the digest.
    pub open spec fn spec_stride(&self) -> int {
        4 + self.crypto_sig_size as int
    }

    /// Total length of the on-disk form: header plus the records.
    pub open spec fn spec_total_len(&self) -> int {
        12 + self.signatures@.len() * self.spec_stride()
    }

    /// The four magic bytes: the last differs between the two hash kinds.
    pub open spec fn spec_magic(&self) -> Seq<u8> {
        if self.blake5 {
            seq![0x72u8, 0x73u8, 0x01u8, 0x37u8]
        } else {
            seq![0x72u8, 0x73u8, 0x01u8, 0x36u8]
        }
    }

    /// Byte `i` of the on-disk form.
    pub open spec fn spec_byte(&self, i: int) -> u8 {
        if i < 4 {
            self.spec_magic()[i]
        } else if i < 8 {
            be_bytes_of_u32(self.block_size)[i - 4]
        } else if i < 12 {
            be_bytes_of_u32(self.crypto_sig_size)[i - 8]
        } else {
            let rec = (i - 12) / self.spec_stride();
            let off = (i - 12) % self.spec_stride();
            if off < 4 {
                be_bytes_of_u32(self.signatures@[rec].crc32)[off]
            } else {
                self.signatures@[rec].crypto_sig@[off - 4]
            }
        }
    }

    /// The whole on-disk form.
    pub open spec fn spec_bytes(&self) -> Seq<u8> {
        Seq::new(self.spec_total_len() as nat, |i: int| self.spec_byte(i))
    }

    pub fn signatures(&self) -> (r: &Vec<Sig>)
        ensures
            r == &self.signatures,
    {
        &self.signatures
    }

    pub fn block_size(&self) -> (r: u32)
        ensures
            r == self.block_size,
    {
        self.block_size
    }

    /// Total length of the on-disk form, as the callers of `serialize` need it.
    pub fn total_len(&self) -> (r: usize)
        requires
            self.wf(),
            self.spec_total_len() <= usize::MAX as int,
    ensures
            r as int == self.spec_total_len(),
    {
        let stride: usize = 4 + self.crypto_sig_size as usize;
        proof {
            vstd::arithmetic::mul::lemma_mul_nonnegative(
                self.signatures@.len() as int,
                self.spec_stride(),
            );
            assert(self.signatures@.len() * (stride as int) == self.signatures@.len()
                * self.spec_stride());
        }
        12 + self.signatures.len() * stride
    }

    /// Byte `i` of the on-disk form, computed from the in-memory fields.
    fn byte_at(&self, i: usize) -> (r: u8)
        requires
            self.wf(),
            i < self.spec_total_len(),
            self.spec_total_len() <= usize::MAX as int,
        ensures
            r == self.spec_byte(i as int),
    {
        if i < 4 {
            let magic: [u8; 4] = if self.blake5 {
                [0x72u8, 0x73u8, 0x01u8, 0x37u8]
            } else {
                [0x72u8, 0x73u8, 0x01u8, 0x36u8]
            };
            proof {
                assert(magic@ =~= self.spec_magic());
            }
            magic[i]
        } else if i < 8 {
            u32_to_le(self.block_size)[i - 4]
        } else if i < 12 {
            u32_to_le(self.crypto_sig_size)[i - 8]
        } else {
            let stride: usize = 4 + self.crypto_sig_size as usize;
            let rec: usize = (i - 12) / stride;
            let off: usize = (i - 12) % stride;
            proof {
                vstd::arithmetic::mul::lemma_mul_is_commutative(
                    self.signatures@.len() as int,
                    stride as int,
                );
                vstd::arithmetic::div_mod::lemma_multiply_divide_lt(
                    i - 12,
                    stride as int,
                    self.signatures@.len() as int,
                );
                vstd::arithmetic::div_mod::lemma_mod_bound(i - 12, stride as int);
            }
            if off < 4 {
                u32_to_le(self.signatures[rec].crc32)[off]
            } else {
                self.signatures[rec].crypto_sig[off - 4]
            }
        }
    }

    /// Build the signature file for `buf`: one record per `block_size`-sized
    /// block (the last block may be shorter), each holding the rolling
    /// checksum of the block and its MD4 digest truncated to
    /// `crypto_sig_size` bytes.
    pub fn new(block_size: u32, crypto_sig_size: u32, buf: &[u8]) -> (r: SigFile)
        requires
            block_size >= 1,
            valid_sig_size(crypto_sig_size as int),
            crypto_sig_size <= 16,
            buf@.len() + block_size <= usize::MAX as int,
        ensures
            r.wf(),
            r.block_size == block_size,
            r.crypto_sig_size == crypto_sig_size,
            !r.blake5,
            r.signatures@.len() == (buf@.len() + block_size - 1) as int / block_size as int,
            forall|i: int|
                0 <= i < r.signatures@.len() ==> {
                    let blk = buf@.subrange(
                        i * block_size as int,
                        vstd::math::min((i + 1) * block_size as int, buf@.len() as int),
                    );
                    &&& (#[trigger] r.signatures@[i]).crc32 == crc_update_spec(0, blk)
                    &&& r.signatures@[i].crypto_sig@ == md4_of(blk).take(crypto_sig_size as int)
                },
    {
        let num_signatures: usize = (buf.len() + block_size as usize - 1) / block_size as usize;
        let mut sigs: Vec<Sig> = Vec::new();
        let ghost bs = block_size as int;
        proof {
            if buf@.len() > 0 {
                vstd::arithmetic::div_mod::lemma_div_pos_is_pos(
                    buf@.len() + bs - 1,
                    bs,
                );
            }
        }
        let mut index: usize = 0;
        while index < num_signatures
            invariant
                bs == block_size as int,
                block_size >= 1,
                valid_sig_size(crypto_sig_size as int),
                crypto_sig_size <= 16,
                buf@.len() + block_size <= usize::MAX as int,
                num_signatures as int == (buf@.len() + bs - 1) / bs,
                0 <= index <= num_signatures,
                sigs@.len() == index as int,
                forall|i: int|
                    0 <= i < index as int ==> {
                        let blk = buf@.subrange(
                            i * bs,
                            vstd::math::min((i + 1) * bs, buf@.len() as int),
                        );
                        &&& (#[trigger] sigs@[i]).crc32 == crc_update_spec(0, blk)
                        &&& sigs@[i].crypto_sig@ == md4_of(blk).take(crypto_sig_size as int)
                        &&& sigs@[i].crypto_sig@.len() == crypto_sig_size as int
                    },
            decreases num_signatures - index,
        {
            proof {
                // the start of block `index` lies strictly inside `buf`
                lemma_block_bounds(buf@.len() as int, bs, index as int, num_signatures as int);
                vstd::arithmetic::mul::lemma_mul_nonnegative(index as int, bs);
            }
            let start: usize = index * block_size as usize;
            let stop: usize = if (index + 1) * (block_size as usize) < buf.len() {
                (index + 1) * block_size as usize
            } else {
                buf.len()
            };
            let slice: &[u8] = vstd::slice::slice_subrange(buf, start, stop);
            let ghost blk = buf@.subrange(
                index as int * bs,
                vstd::math::min((index as int + 1) * bs, buf@.len() as int),
            );
            proof {
                assert(slice@ =~= blk);
            }
            let digest = md4_digest(slice);
            let mut crypto_sig: Vec<u8> = Vec::new();
            let mut k: usize = 0;
            while k < crypto_sig_size as usize
                invariant
                    crypto_sig_size <= 16,
                    digest@.len() == 16,
                    0 <= k <= crypto_sig_size as usize,
                    crypto_sig@ == digest@.take(k as int),
                decreases crypto_sig_size as usize - k,
            {
                let b = digest[k];
                crypto_sig.push(b);
                proof {
                    assert(digest@.take(k as int).push(b) =~= digest@.take(k as int + 1));
                }
                k = k + 1;
            }
            let crc = crc_update(0, slice);
            sigs.push(Sig { crc32: crc, crypto_sig });
            index = index + 1;
        }
        SigFile { block_size, crypto_sig_size, signatures: sigs, blake5: false }
    }

    /// Copy as much of the on-disk form as fits, resuming at `*input_offset`
    /// within that form and writing at `*output_offset`; both offsets advance
    /// by the number of bytes copied. Returns whether the end of the on-disk
    /// form has been reached.
    pub fn serialize(&self, input_offset: &mut usize, output: &mut Vec<u8>, output_offset: &mut usize)
        -> (complete: bool)
        requires
            self.wf(),
            self.spec_total_len() <= usize::MAX as int,
            *old(input_offset) <= self.spec_total_len(),
            *old(output_offset) <= old(output)@.len(),
        ensures
            final(output)@.len() == old(output)@.len(),
            *final(input_offset) - *old(input_offset) == *final(output_offset) - *old(output_offset),
            *final(input_offset) - *old(input_offset) == vstd::math::min(
                self.spec_total_len() - *old(input_offset) as int,
                old(output)@.len() - *old(output_offset) as int,
            ),
            forall|j: int|
                0 <= j < old(output)@.len() && !(*old(output_offset) <= j < *final(output_offset))
                    ==> final(output)@[j] == old(output)@[j],
            forall|j: int|
                *old(output_offset) <= j < *final(output_offset) ==> final(output)@[j]
                    == self.spec_byte(*old(input_offset) + (j - *old(output_offset))),
            complete == (*final(input_offset) == self.spec_total_len()),
    {
        let total = self.total_len();
        let mut in_off = *input_offset;
        let mut out_off = *output_offset;
        while in_off < total && out_off < output.len()
            invariant
                self.wf(),
                self.spec_total_len() <= usize::MAX as int,
                total as int == self.spec_total_len(),
                *old(input_offset) <= in_off <= total,
                *old(output_offset) <= out_off <= output@.len(),
                output@.len() == old(output)@.len(),
                in_off - *old(input_offset) == out_off - *old(output_offset),
                in_off == total || out_off == output@.len() || (in_off < total && out_off
                    < output@.len()),
                forall|j: int|
                    0 <= j < output@.len() && !(*old(output_offset) <= j < out_off as int)
                        ==> output@[j] == old(output)@[j],
                forall|j: int|
                    *old(output_offset) <= j < out_off as int ==> output@[j] == self.spec_byte(
                        *old(input_offset) + (j - *old(output_offset)),
                    ),
            decreases total - in_off,
        {
            let b = self.byte_at(in_off);
            output[out_off] = b;
            in_off = in_off + 1;
            out_off = out_off + 1;
        }
        *input_offset = in_off;
        *output_offset = out_off;
        in_off == total
    }

    /// Parse a complete on-disk form. Errors carry a size hint: 0 for a short
    /// or wrongly tagged file, the file's digest size when it is not the
    /// expected one, and the length of the record area when it is not a whole
    /// number of records.
    pub fn deserialize(on_disk_format: &[u8], expected_sig_size: u32) -> (r: Result<SigFile, usize>)
        requires
            valid_sig_size(expected_sig_size as int),
        ensures
            match r {
                Ok(s) => {
                    let d = on_disk_format@;
                    let stride = 4 + expected_sig_size as int;
                    &&& d.len() >= 12
                    &&& (magic_md4(d) || magic_blake5(d))
                    &&& u32_of_be_bytes(d.subrange(8, 12)) == expected_sig_size as int
                    &&& (d.len() - 12) % stride == 0
                    &&& s.wf()
                    &&& s.crypto_sig_size == expected_sig_size
                    &&& s.blake5 == magic_blake5(d)
                    &&& s.block_size as int == u32_of_be_bytes(d.subrange(4, 8))
                    &&& s.signatures@.len() == (d.len() - 12) / stride
                    &&& forall|i: int|
                        0 <= i < s.signatures@.len() ==> {
                            let rs = 12 + i * stride;
                            &&& (#[trigger] s.signatures@[i]).crc32 as int == u32_of_be_bytes(
                                d.subrange(rs, rs + 4),
                            )
                            &&& s.signatures@[i].crypto_sig@ == d.subrange(rs + 4, rs + stride)
                        }
                },
                Err(e) => {
                    let d = on_disk_format@;
                    let stride = 4 + expected_sig_size as int;
                    ||| (d.len() < 12 && e == 0)
                    ||| (d.len() >= 12 && !magic_md4(d) && !magic_blake5(d) && e == 0)
                    ||| (d.len() >= 12 && (magic_md4(d) || magic_blake5(d)) && u32_of_be_bytes(
                        d.subrange(8, 12),
                    ) != expected_sig_size as int && e as int == u32_of_be_bytes(d.subrange(8, 12)))
                    ||| (d.len() >= 12 && (magic_md4(d) || magic_blake5(d)) && u32_of_be_bytes(
                        d.subrange(8, 12),
                    ) == expected_sig_size as int && (d.len() - 12) % stride != 0 && e as int
                        == d.len() - 12)
                },
            },
    {
        let ghost d = on_disk_format@;
        if on_disk_format.len() < 12 {
            return Err(0);
        }
        let is_md4 = on_disk_format[0] == 0x72 && on_disk_format[1] == 0x73 && on_disk_format[2]
            == 0x01 && on_disk_format[3] == 0x36;
        let is_blake5 = on_disk_format[0] == 0x72 && on_disk_format[1] == 0x73
            && on_disk_format[2] == 0x01 && on_disk_format[3] == 0x37;
        if !(is_md4 || is_blake5) {
            return Err(0);
        }
        let size_bytes = vstd::slice::slice_subrange(on_disk_format, 8, 12);
        let desired_crypto_hash_size = le_to_u32(size_bytes);
        proof {
            assert(size_bytes@ == d.subrange(8, 12));
        }
        if desired_crypto_hash_size != expected_sig_size {
            return Err(desired_crypto_hash_size as usize);
        }
        let stride: usize = 4 + expected_sig_size as usize;
        if (on_disk_format.len() - 12) % stride != 0 {
            return Err(on_disk_format.len() - 12);
        }
        let n: usize = (on_disk_format.len() - 12) / stride;
        proof {
            vstd::arithmetic::div_mod::lemma_fundamental_div_mod(d.len() - 12, stride as int);
        }
        let mut sigs: Vec<Sig> = Vec::new();
        let mut index: usize = 0;
        while index < n
            invariant
                d == on_disk_format@,
                d.len() >= 12,
                d.len() <= usize::MAX as int,
                stride == 4 + expected_sig_size as int,
                4 <= stride <= 36,
                n as int == (d.len() - 12) / (stride as int),
                d.len() - 12 == n * (stride as int),
                0 <= index <= n,
                sigs@.len() == index as int,
                forall|i: int|
                    0 <= i < index as int ==> {
                        let rs = 12 + i * stride;
                        &&& (#[trigger] sigs@[i]).crc32 as int == u32_of_be_bytes(
                            d.subrange(rs, rs + 4),
                        )
                        &&& sigs@[i].crypto_sig@ == d.subrange(rs + 4, rs + stride)
                        &&& sigs@[i].crypto_sig@.len() == expected_sig_size as int
                    },
            decreases n - index,
        {
            proof {
                vstd::arithmetic::mul::lemma_mul_nonnegative(index as int, stride as int);
                vstd::arithmetic::mul::lemma_mul_inequality(index as int + 1, n as int, stride as int);
                vstd::arithmetic::mul::lemma_mul_is_distributive_add_other_way(
                    stride as int,
                    index as int,
                    1,
                );
            }
            let rs: usize = 12 + index * stride;
            let crc_bytes = vstd::slice::slice_subrange(on_disk_format, rs, rs + 4);
            let crc = le_to_u32(crc_bytes);
            let sig_bytes = vstd::slice::slice_subrange(on_disk_format, rs + 4, rs + stride);
            let mut crypto_sig: Vec<u8> = Vec::new();
            let mut k: usize = 0;
            while k < sig_bytes.len()
                invariant
                    0 <= k <= sig_bytes@.len(),
                    crypto_sig@ == sig_bytes@.take(k as int),
                decreases sig_bytes@.len() - k,
            {
                let b = sig_bytes[k];
                crypto_sig.push(b);
                proof {
                    assert(sig_bytes@.take(k as int).push(b) =~= sig_bytes@.take(k as int + 1));
                }
                k = k + 1;
            }
            proof {
                assert(sig_bytes@.take(sig_bytes@.len() as int) =~= sig_bytes@);
                assert(crc_bytes@ == d.subrange(rs as int, rs as int + 4));
            }
            sigs.push(Sig { crc32: crc, crypto_sig });
            index = index + 1;
        }
        Ok(SigFile {
            block_size: {
                let bs_bytes = vstd::slice::slice_subrange(on_disk_format, 4, 8);
                proof {
                    assert(bs_bytes@ == d.subrange(4, 8));
                }
                le_to_u32(bs_bytes)
            },
            crypto_sig_size: expected_sig_size,
            signatures: sigs,
            blake5: is_blake5,
        })
    }

    /// Build the lookup hint: a map from each record's rolling checksum to its
    /// index; on equal checksums the last record wins.
    pub fn create_sig_hint(&self) -> (h: SigHint)
        ensures
            h.crc32_to_sig_index@ == sig_hint_map(self.signatures@),
    {
        let mut m: std::collections::HashMap<u32, usize> = std::collections::HashMap::with_capacity(
            self.signatures.len(),
        );
        let mut index: usize = 0;
        proof {
            assert(self.signatures@.take(0) =~= Seq::<Sig>::empty());
        }
        while index < self.signatures.len()
            invariant
                0 <= index <= self.signatures@.len(),
                m@ == sig_hint_map(self.signatures@.take(index as int)),
            decreases self.signatures@.len() - index,
        {
            let ghost pre = self.signatures@.take(index as int);
            let crc = self.signatures[index].crc32;
            m.insert(crc, index);
            proof {
                let cur = self.signatures@.take(index as int + 1);
                assert(cur.drop_last() =~= pre);
                assert(cur.last() == self.signatures@[index as int]);
            }
            index = index + 1;
        }
        proof {
            assert(self.signatures@.take(self.signatures@.len() as int) =~= self.signatures@);
        }
        SigHint { crc32_to_sig_index: m }
    }

    /// Release the record storage; the scalar fields stay as they are.
    pub fn free(&mut self)
        ensures
            final(self).signatures@.len() == 0,
            final(self).block_size == old(self).block_size,
            final(self).crypto_sig_size == old(self).crypto_sig_size,
            final(self).blake5 == old(self).blake5,
    {
        self.signatures = Vec::new();
    }
}

/// A signature file's on-disk form parses back to the same file: the image
/// satisfies every acceptance condition of `deserialize` for the file's own
/// digest size, and each field read from the image equals the field it was
/// written from. Together with the exact contracts of `serialize` and
/// `deserialize`, this says that deserializing a serialization gives the
/// original back, however the serialization was chunked.
pub proof fn lemma_sig_file_round_trip(s: SigFile)
    requires
        s.wf(),
        s.spec_total_len() <= usize::MAX as int,
    ensures
        ({
            let d = s.spec_bytes();
            let stride = s.spec_stride();
            &&& d.len() == s.spec_total_len()
            &&& d.len() >= 12
            &&& magic_md4(d) == !s.blake5
            &&& magic_blake5(d) == s.blake5
            &&& u32_of_be_bytes(d.subrange(4, 8)) == s.block_size as int
            &&& u32_of_be_bytes(d.subrange(8, 12)) == s.crypto_sig_size as int
            &&& (d.len() - 12) % stride == 0
            &&& (d.len() - 12) / stride == s.signatures@.len()
            &&& forall|i: int|
                0 <= i < s.signatures@.len() ==> {
                    let rs = 12 + i * stride;
                    &&& u32_of_be_bytes(d.subrange(rs, rs + 4)) == (
                    #[trigger] s.signatures@[i]).crc32 as int
                    &&& d.subrange(rs + 4, rs + stride) == s.signatures@[i].crypto_sig@
                }
        }),
{
    let d = s.spec_bytes();
    let stride = s.spec_stride();
    let n = s.signatures@.len() as int;
    vstd::arithmetic::mul::lemma_mul_nonnegative(n, stride);
    assert(d.len() == s.spec_total_len());
    assert(d[0] == s.spec_magic()[0] && d[1] == s.spec_magic()[1] && d[2] == s.spec_magic()[2]
        && d[3] == s.spec_magic()[3]);
    assert(d.subrange(4, 8) =~= be_bytes_of_u32(s.block_size));
    assert(d.subrange(8, 12) =~= be_bytes_of_u32(s.crypto_sig_size));
    lemma_be32_round_trip(s.block_size);
    lemma_be32_round_trip(s.crypto_sig_size);
    vstd::arithmetic::div_mod::lemma_fundamental_div_mod_converse(n * stride, stride, n, 0);
    assert forall|i: int| 0 <= i < n implies {
        let rs = 12 + i * stride;
        &&& u32_of_be_bytes(d.subrange(rs, rs + 4)) == (#[trigger] s.signatures@[i]).crc32 as int
        &&& d.subrange(rs + 4, rs + stride) == s.signatures@[i].crypto_sig@
    } by {
        let rs = 12 + i * stride;
        vstd::arithmetic::mul::lemma_mul_nonnegative(i, stride);
        vstd::arithmetic::mul::lemma_mul_inequality(i + 1, n, stride);
        vstd::arithmetic::mul::lemma_mul_is_distributive_add_other_way(stride, i, 1);
        let crc_b = be_bytes_of_u32(s.signatures@[i].crc32);
        assert(d.subrange(rs, rs + 4) =~= crc_b) by {
            assert forall|k: int| 0 <= k < 4 implies d.subrange(rs, rs + 4)[k] == crc_b[k] by {
                vstd::arithmetic::div_mod::lemma_fundamental_div_mod_converse(
                    i * stride + k,
                    stride,
                    i,
                    k,
                );
                assert(d[rs + k] == s.spec_byte(rs + k));
            }
        }
        lemma_be32_round_trip(s.signatures@[i].crc32);
        let cs = s.signatures@[i].crypto_sig@;
        assert(d.subrange(rs + 4, rs + stride) =~= cs) by {
            assert forall|k: int| 0 <= k < stride - 4 implies d.subrange(rs + 4, rs + stride)[k]
                == cs[k] by {
                vstd::arithmetic::div_mod::lemma_fundamental_div_mod_converse(
                    i * stride + (k + 4),
                    stride,
                    i,
                    k + 4,
                );
                assert(d[rs + 4 + k] == s.spec_byte(rs + 4 + k));
                assert((rs + 4 + k - 12) / stride == i);
            }
        }
    }
}

proof fn lemma_block_bounds(len: int, bs: int, index: int, num: int)
    requires
        bs >= 1,
        num == (len + bs - 1) / bs,
        0 <= index < num,
    ensures
        index * bs < len,
        (index + 1) * bs >= len ==> num == index + 1,
        index * bs <= (index + 1) * bs,
        (index + 1) * bs <= len + bs - 1,
{
    vstd::arithmetic::mul::lemma_mul_is_distributive_add_other_way(bs, index, 1);
    vstd::arithmetic::mul::lemma_mul_inequality(index + 1, num, bs);
    // num * bs <= len + bs - 1  and  index*bs + bs <= num*bs
    vstd::arithmetic::div_mod::lemma_fundamental_div_mod(len + bs - 1, bs);
    vstd::arithmetic::div_mod::lemma_mod_bound(len + bs - 1, bs);
    assert(index * bs < len);
    if (index + 1) * bs >= len {
        // then (len + bs - 1) / bs <= index + 1
        assert(len + bs - 1 < (index + 2) * bs) by {
            vstd::arithmetic::mul::lemma_mul_is_distributive_add_other_way(bs, index + 1, 1);
        }
        vstd::arithmetic::div_mod::lemma_multiply_divide_lt(len + bs - 1, bs, index + 2);
    }
    vstd::arithmetic::mul::lemma_mul_inequality(index, index + 1, bs);
}

} // verus!
