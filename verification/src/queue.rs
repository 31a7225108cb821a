//! A byte queue packed into one 64-bit register: up to eight bytes, oldest in
//! the lowest-order byte. The arithmetic coders drain and fill their internal
//! buffers through this interface.

use vstd::prelude::*;

verus! {

use crate::DivansResult;

/// Byte FIFO used as a coder's internal buffer.
pub trait ByteQueue {
    fn num_push_bytes_avail(&self) -> usize;

    fn num_pop_bytes_avail(&self) -> usize;

    fn push_data(&mut self, data: &[u8]) -> usize;

    fn pop_data(&mut self, data: &mut Vec<u8>) -> usize;
}

pub type FixedRegister = u64;

/// What one pop does: `k` bytes (as many as fit) move from the front of the
/// queue to the front of the destination, and the rest of both stays put.
pub open spec fn popped_check(
    q0: RegisterQueue,
    d0: Seq<u8>,
    d1: Seq<u8>,
    q1: RegisterQueue,
    k: int,
) -> bool {
    &&& k == vstd::math::min(q0.count as int, d0.len() as int)
    &&& q1.wf()
    &&& q1.bytes() == q0.bytes().skip(k)
    &&& d1.len() == d0.len()
    &&& (forall|j: int| 0 <= j < k ==> d1[j] == q0.bytes()[j])
    &&& (forall|j: int| k <= j < d0.len() ==> d1[j] == d0[j])
}

/// The queue: `count` bytes held in the low-order bytes of `data`.
pub struct RegisterQueue {
    pub data: FixedRegister,
    pub count: u8,
}

impl RegisterQueue {
    /// The queued bytes, oldest first.
    pub open spec fn bytes(&self) -> Seq<u8> {
        Seq::new(
            self.count as nat,
            |i: int| (self.data >> ((8 * i) as u64)) as u8,
        )
    }

    /// At most eight bytes, and nothing stored above them.
    pub open spec fn wf(&self) -> bool {
        &&& self.count <= 8
        &&& (self.count < 8 ==> self.data >> ((8 * self.count as int) as u64) == 0)
    }
}

impl Default for RegisterQueue {
    /// An empty queue.
    fn default() -> (r: RegisterQueue)
        ensures
            r.wf(),
            r.bytes() == Seq::<u8>::empty(),
    {
        let r = RegisterQueue { data: 0, count: 0 };
        proof {
            assert(0u64 >> 0u64 == 0) by (bit_vector);
            assert(r.bytes() =~= Seq::<u8>::empty());
        }
        r
    }
}

proof fn lemma_reg_push(reg: u64, c: u64, b: u8)
    requires
        c < 8,
        reg >> (8 * c) == 0,
    ensures
        forall|j: int|
            0 <= j < c ==> ((reg | ((b as u64) << (8 * c))) >> #[trigger] ((8 * j) as u64)) as u8
                == (reg >> ((8 * j) as u64)) as u8,
        ((reg | ((b as u64) << (8 * c))) >> ((8 * c as int) as u64)) as u8 == b,
        c + 1 < 8 ==> (reg | ((b as u64) << (8 * c))) >> ((8 * (c as int + 1)) as u64) == 0,
{
    assert forall|j: int| 0 <= j < c implies ((reg | ((b as u64) << (8 * c)))
        >> #[trigger] ((8 * j) as u64)) as u8 == (reg >> ((8 * j) as u64)) as u8 by {
        let ju = j as u64;
        assert((8 * j) as u64 == 8 * ju);
        assert(((reg | ((b as u64) << (8 * c))) >> (8 * ju)) as u8 == (reg >> (8 * ju)) as u8)
            by (bit_vector)
            requires
                ju < c,
                c < 8,
                reg >> (8 * c) == 0
        ;
    }
    assert((8 * c as int) as u64 == 8 * c);
    assert(((reg | ((b as u64) << (8 * c))) >> (8 * c)) as u8 == b) by (bit_vector)
        requires
            c < 8,
            reg >> (8 * c) == 0
    ;
    if c + 1 < 8 {
        assert((8 * (c as int + 1)) as u64 == 8 * vstd::math::add(c as int, 1) as u64);
        assert((reg | ((b as u64) << (8 * c))) >> (8 * vstd::math::add(c as int, 1) as u64) == 0)
            by (bit_vector)
            requires
                c < 7,
                reg >> (8 * c) == 0
        ;
    }
}

proof fn lemma_reg_pop(reg: u64, c: u64, k: u64)
    requires
        c <= 8,
        k <= c,
        k < 8,
        c < 8 ==> reg >> (8 * c) == 0,
    ensures
        forall|j: int|
            0 <= j < c - k ==> ((reg >> (8 * k)) >> #[trigger] ((8 * j) as u64)) as u8 == (reg
                >> ((8 * (k + j)) as u64)) as u8,
        c - k < 8 ==> (reg >> (8 * k)) >> ((8 * (c - k)) as u64) == 0,
{
    assert forall|j: int| 0 <= j < c - k implies ((reg >> (8 * k)) >> #[trigger] ((8 * j) as u64))
        as u8 == (reg >> ((8 * (k + j)) as u64)) as u8 by {
        let ju = j as u64;
        assert((8 * j) as u64 == 8 * ju);
        assert((8 * (k + j)) as u64 == 8 * vstd::math::add(k as int, j) as u64);
        assert(((reg >> (8 * k)) >> (8 * ju)) as u8 == (reg >> (8 * vstd::math::add(
            k as int,
            ju as int,
        ) as u64)) as u8) by (bit_vector)
            requires
                ju < 8,
                k < 8,
                k + ju < 8
        ;
    }
    if c - k < 8 {
        if c < 8 {
            assert((8 * (c - k)) as u64 == 8 * vstd::math::sub(c as int, k as int) as u64);
            assert((reg >> (8 * k)) >> (8 * vstd::math::sub(c as int, k as int) as u64) == 0)
                by (bit_vector)
                requires
                    k <= c,
                    c < 8,
                    reg >> (8 * c) == 0
            ;
        } else {
            assert((8 * (c - k)) as u64 == 8 * vstd::math::sub(8int, k as int) as u64);
            assert((reg >> (8 * k)) >> (8 * vstd::math::sub(8int, k as int) as u64) == 0)
                by (bit_vector)
                requires
                    k < 8u64
            ;
        }
    }
}

impl ByteQueue for RegisterQueue {
    /// Free space in bytes.
    fn num_push_bytes_avail(&self) -> (r: usize)
        ensures
            self.wf() ==> r == 8 - self.count as int,
    {
        if self.count >= 8 {
            0
        } else {
            8 - self.count as usize
        }
    }

    /// Queued bytes.
    fn num_pop_bytes_avail(&self) -> (r: usize)
        ensures
            r == self.count as int,
    {
        self.count as usize
    }

    /// Append as much of `data` as fits; returns how many bytes were taken.
    fn push_data(&mut self, data: &[u8]) -> (pushed: usize)
        ensures
            old(self).wf() ==> {
                &&& pushed == vstd::math::min(8 - old(self).count as int, data@.len() as int)
                &&& final(self).wf()
                &&& final(self).bytes() == old(self).bytes() + data@.take(pushed as int)
            },
    {
        if self.count >= 8 {
            proof {
                if self.count == 8 {
                    assert(self.bytes() =~= self.bytes() + data@.take(0));
                }
            }
            return 0;
        }
        let avail: usize = 8 - self.count as usize;
        let k: usize = if avail < data.len() {
            avail
        } else {
            data.len()
        };
        let ghost q0 = *self;
        let mut i: usize = 0;
        while i < k
            invariant
                q0.count < 8,
                k <= 8 - q0.count as int,
                k <= data@.len(),
                0 <= i <= k,
                self.count as int == q0.count + i,
                self.data == q0.data || i > 0,
                q0.wf() ==> self.wf() && self.bytes() =~= q0.bytes() + data@.take(i as int),
            decreases k - i,
        {
            let c: u64 = self.count as u64;
            let b = data[i];
            let ghost pre = *self;
            proof {
                if q0.wf() {
                    lemma_reg_push(self.data, c, b);
                }
            }
            self.data = self.data | ((b as u64) << (8 * c));
            self.count = self.count + 1;
            proof {
                if q0.wf() {
                    assert forall|j: int| 0 <= j < self.count implies self.bytes()[j] == (
                    q0.bytes() + data@.take(i as int + 1))[j] by {
                        if j < c {
                            assert(self.bytes()[j] == pre.bytes()[j]);
                        } else {
                            assert(self.bytes()[j] == b);
                        }
                    }
                    assert(self.bytes() =~= q0.bytes() + data@.take(i as int + 1));
                }
            }
            i = i + 1;
        }
        proof {
            if q0.wf() {
                assert(self.bytes() == q0.bytes() + data@.take(k as int));
            }
        }
        k
    }

    /// Remove up to `data.len()` bytes from the front, writing them at the
    /// start of `data`; returns how many were moved.
    fn pop_data(&mut self, data: &mut Vec<u8>) -> (popped: usize)
        ensures
            old(self).wf() ==> popped_check(
                *old(self),
                old(data)@,
                final(data)@,
                *final(self),
                popped as int,
            ),
    {
        let count: usize = if self.count > 8 {
            8
        } else {
            self.count as usize
        };
        let k: usize = if count < data.len() {
            count
        } else {
            data.len()
        };
        let ghost q0 = *self;
        let ghost d0 = data@;
        let mut i: usize = 0;
        while i < k
            invariant
                q0.wf() ==> k <= q0.count as int,
                k <= 8,
                k <= d0.len(),
                0 <= i <= k,
                *self == q0,
                data@.len() == d0.len(),
                forall|j: int|
                    0 <= j < i ==> data@[j] == ((q0.data >> ((8 * j) as u64)) as u8),
                forall|j: int| i <= j < d0.len() ==> data@[j] == d0[j],
            decreases k - i,
        {
            let b: u8 = (self.data >> (8 * i as u64)) as u8;
            data[i] = b;
            i = i + 1;
        }
        proof {
            if q0.wf() && k < 8 {
                lemma_reg_pop(self.data, self.count as u64, k as u64);
            }
        }
        if k == 8 {
            self.data = 0;
            self.count = 0;
            proof {
                assert(0u64 >> 0u64 == 0) by (bit_vector);
                if q0.wf() {
                    assert(self.bytes() =~= q0.bytes().skip(k as int));
                    assert(self.wf());
                }
            }
        } else {
            self.data = self.data >> (8 * k as u64);
            self.count = self.count - k as u8;
            proof {
                if q0.wf() {
                    assert forall|j: int| 0 <= j < self.count implies self.bytes()[j] == q0.bytes()
                        .skip(k as int)[j] by {
                        assert(self.bytes()[j] == (q0.data >> ((8 * (k + j)) as u64)) as u8);
                    }
                    assert(self.bytes() =~= q0.bytes().skip(k as int));
                    assert(self.count < 8 ==> self.data >> ((8 * self.count as int) as u64) == 0);
                    assert(self.wf());
                }
            }
        }
        proof {
            if q0.wf() {
                assert(popped_check(q0, d0, data@, *self, k as int));
            }
        }
        k
    }
}


/// The decoder side of the buffer pump: top the queue up from
/// `input[*input_offset..]`, advancing the offset past the bytes taken.
/// Reports success once the queue is full; a queue still short of full has
/// exhausted the input and asks for more.
pub fn fill_queue_from_slice(
    q: &mut RegisterQueue,
    input: &[u8],
    input_offset: &mut usize,
) -> (r: DivansResult)
    requires
        old(q).wf(),
        *old(input_offset) <= input@.len(),
    ensures
        final(q).wf(),
        *old(input_offset) <= *final(input_offset) <= input@.len(),
        ({
            let taken = vstd::math::min(
                8 - old(q).count as int,
                input@.len() - *old(input_offset),
            );
            &&& *final(input_offset) - *old(input_offset) == taken
            &&& final(q).bytes() == old(q).bytes() + input@.subrange(
                *old(input_offset) as int,
                *old(input_offset) + taken,
            )
            &&& (r is Success <==> final(q).count == 8)
            &&& (r is NeedsMoreInput <==> final(q).count < 8)
            &&& (r is NeedsMoreInput ==> *final(input_offset) == input@.len())
        }),
{
    let coder_bytes_avail = q.num_push_bytes_avail();
    if coder_bytes_avail != 0 {
        let rest = vstd::slice::slice_subrange(input, *input_offset, input.len());
        let push_count = q.push_data(rest);
        proof {
            assert(rest@.take(push_count as int) =~= input@.subrange(
                *old(input_offset) as int,
                *old(input_offset) + push_count,
            ));
        }
        *input_offset = *input_offset + push_count;
        proof {
            let taken = vstd::math::min(8 - old(q).count as int, input@.len() - *old(input_offset));
            assert(push_count == taken);
            assert(q.bytes() == old(q).bytes() + input@.subrange(
                *old(input_offset) as int,
                *old(input_offset) + taken,
            ));
        }
        if q.num_push_bytes_avail() != 0 {
            proof {
                assert(q.count < 8);
                assert(q.bytes().len() == q.count as int);
                assert(old(q).bytes().len() == old(q).count as int);
                assert(q.bytes().len() == old(q).bytes().len() + push_count);
                assert(push_count < 8 - old(q).count);
                assert(*input_offset == input@.len());
            }
            return DivansResult::NeedsMoreInput;
        }
        return DivansResult::Success;
    }
    proof {
        assert(q.bytes() =~= q.bytes() + input@.subrange(
            *old(input_offset) as int,
            *old(input_offset) as int,
        ));
    }
    DivansResult::Success
}

} // verus!
