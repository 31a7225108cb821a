//! Framed multi-stream byte muxer/demuxer. Two independent sub-streams are
//! interleaved into one self-framing byte stream: each chunk starts with a
//! header carrying the stream id in its low nibble and a size code in its
//! high nibble (0 = explicit 16-bit length, 1/2/3 = 4096/16384/65536), and
//! the whole stream ends with the reserved marker `FF FE FF`. The serializer
//! schedules chunks so that no stream's flushed-byte count falls too far
//! behind the other's.

use vstd::prelude::*;

verus! {

pub const NUM_STREAMS: usize = 2;

pub type StreamID = u8;

pub const STREAM_ID_MASK: u8 = 0xf;

pub const MAX_HEADER_SIZE: usize = 3;

pub const MAX_FLUSH_VARIANCE: usize = 131073;

/// Progress of the demuxer through one chunk: between chunks, after the first
/// header byte of an explicit-length chunk, after its second byte, or inside
/// a chunk's payload with a count of bytes still owed.
pub enum BytesToDeserialize {
    Empty,
    Header0(StreamID),
    Header1(StreamID, u8),
    Pending(StreamID, u32),
}

/// Progress through the three-byte end-of-stream marker.
pub enum StreamState {
    Running,
    EofStart,
    EofMid,
    EofDone,
}

/// One stream's buffer: `data[start..end]` is the unread span; the bytes
/// before `start` are reclaimable, and three bytes of room are kept there so
/// a chunk header can be written in place.
pub struct StreamBuf {
    pub data: Vec<u8>,
    pub start: usize,
    pub end: usize,
}

impl StreamBuf {
    pub open spec fn unread(&self) -> Seq<u8> {
        self.data@.subrange(self.start as int, self.end as int)
    }

    pub open spec fn wf(&self) -> bool {
        &&& self.start <= self.end <= self.data@.len()
        &&& (self.data@.len() == 0 ==> self.start == 0 && self.end == 0)
    }
}

/// The muxer/demuxer.
pub struct Mux {
    pub bufs: Vec<StreamBuf>,
    pub cur_stream_bytes_avail: u32,
    pub cur_stream: StreamID,
    pub last_flush: Vec<usize>,
    pub bytes_flushed: usize,
    pub bytes_to_deserialize: BytesToDeserialize,
    pub eof: StreamState,
}

/// What the demuxer acts on: the two unread stream contents and the parse
/// state.
pub struct DemuxModel {
    pub s0: Seq<u8>,
    pub s1: Seq<u8>,
    pub st: BytesToDeserialize,
    pub eof: StreamState,
}

/// Largest value of the two per-stream flush counters.
pub open spec fn flush_max(m: &Mux) -> int {
    vstd::math::max(m.last_flush@[0] as int, m.last_flush@[1] as int)
}

/// Smallest value of the two per-stream flush counters.
pub open spec fn flush_min(m: &Mux) -> int {
    vstd::math::min(m.last_flush@[0] as int, m.last_flush@[1] as int)
}

/// The flush-variance bound: neither stream is more than twice the variance
/// limit behind the other.
pub open spec fn flush_balanced(m: &Mux) -> bool {
    flush_max(m) - flush_min(m) <= 2 * MAX_FLUSH_VARIANCE
}

impl Mux {
    pub open spec fn unread_of(&self, i: int) -> Seq<u8> {
        self.bufs@[i].unread()
    }

    /// The demuxer's view of this value.
    pub open spec fn demux_model(&self) -> DemuxModel {
        DemuxModel {
            s0: self.unread_of(0),
            s1: self.unread_of(1),
            st: self.bytes_to_deserialize,
            eof: self.eof,
        }
    }

    pub open spec fn wf(&self) -> bool {
        &&& self.bufs@.len() == 2
        &&& self.last_flush@.len() == 2
        &&& self.cur_stream < 2
        &&& (forall|i: int| 0 <= i < 2 ==> (#[trigger] self.bufs@[i]).wf())
        &&& self.bytes_flushed as int == flush_max(self)
        &&& self.cur_stream_bytes_avail as int <= self.unread_of(self.cur_stream as int).len()
        &&& (forall|i: int|
            0 <= i < 2 ==> (#[trigger] self.bufs@[i]).data@.len() == 0 || self.bufs@[i].start >= 3
                || (self.cur_stream as int == i && self.cur_stream_bytes_avail > 0))
        &&& (self.cur_stream_bytes_avail > 0 ==> self.bufs@[self.cur_stream as int].start as int
            + self.cur_stream_bytes_avail as int >= 3)
    }
}

/// Appending one payload byte to stream `sid` of the model.
pub open spec fn model_push(m: DemuxModel, sid: u8, b: u8) -> DemuxModel {
    if sid == 0 {
        DemuxModel { s0: m.s0.push(b), ..m }
    } else {
        DemuxModel { s1: m.s1.push(b), ..m }
    }
}

/// The end-of-stream recognizer's single pass: consume as many of the three
/// marker bytes as continue the current state, at most one state step per
/// byte, stopping at the first byte that does not fit.
pub open spec fn eof_run(st: StreamState, input: Seq<u8>) -> (StreamState, int) {
    let first = if st is Running && input.len() > 0 && input[0] == 0xff {
        (StreamState::EofStart, 1int)
    } else {
        (st, 0int)
    };
    let second = if first.0 is EofStart && input.len() > first.1 && input[first.1] == 0xfe {
        (StreamState::EofMid, first.1 + 1)
    } else {
        first
    };
    if second.0 is EofMid && input.len() > second.1 && input[second.1] == 0xff {
        (StreamState::EofDone, second.1 + 1)
    } else {
        second
    }
}

/// Outcome of offering the demuxer more bytes while it sits between chunks:
/// either a header byte is consumed, or the end-of-stream recognizer takes
/// over and the call stops, or the byte is no legal header.
pub enum IdleStep {
    Consumed(DemuxModel),
    EofBytes,
    Malformed,
}

/// One idle-state byte: enter the end-of-stream recognizer on `FF` (or on
/// `FE`/`FF` once it has started), otherwise read a chunk header byte.
pub open spec fn demux_idle_step(m: DemuxModel, b: u8) -> IdleStep {
    if (b == 0xff || b == 0xfe) && (b == 0xff || !(m.eof is Running)) {
        IdleStep::EofBytes
    } else {
        let sid = b & 0xf;
        if sid >= 2 {
            IdleStep::Malformed
        } else if b < 16 {
            IdleStep::Consumed(DemuxModel { st: BytesToDeserialize::Header0(sid), ..m })
        } else if b >= 0x40 {
            IdleStep::Malformed
        } else {
            let count: u32 = 1024u32 << (((b >> 4) << 1) as u32);
            IdleStep::Consumed(DemuxModel { st: BytesToDeserialize::Pending(sid, count), ..m })
        }
    }
}

/// A whole demux call on `input`: the final model and how many bytes were
/// consumed. The third component is false when the run met a header naming a
/// stream this muxer does not have.
pub open spec fn demux_run(m: DemuxModel, input: Seq<u8>) -> (DemuxModel, int, bool)
    decreases input.len(),
{
    if input.len() == 0 || m.eof is EofDone {
        (m, 0, true)
    } else {
        let b = input[0];
        match m.st {
            BytesToDeserialize::Header0(sid) => {
                let m2 = DemuxModel { st: BytesToDeserialize::Header1(sid, b), ..m };
                let r = demux_run(m2, input.drop_first());
                (r.0, r.1 + 1, r.2)
            },
            BytesToDeserialize::Header1(sid, lsb) => {
                let count: u32 = ((lsb as u32 | (b as u32) << 8) + 1) as u32;
                let m2 = DemuxModel { st: BytesToDeserialize::Pending(sid, count), ..m };
                let r = demux_run(m2, input.drop_first());
                (r.0, r.1 + 1, r.2)
            },
            BytesToDeserialize::Pending(sid, count) => {
                let m2 = model_push(m, sid, b);
                let m3 = if count == 1 {
                    DemuxModel { st: BytesToDeserialize::Empty, ..m2 }
                } else {
                    DemuxModel { st: BytesToDeserialize::Pending(sid, (count - 1) as u32), ..m2 }
                };
                let r = demux_run(m3, input.drop_first());
                (r.0, r.1 + 1, r.2)
            },
            BytesToDeserialize::Empty => {
                match demux_idle_step(m, b) {
                    IdleStep::Consumed(m2) => {
                        let r = demux_run(m2, input.drop_first());
                        (r.0, r.1 + 1, r.2)
                    },
                    IdleStep::EofBytes => {
                        let e = eof_run(m.eof, input);
                        (DemuxModel { eof: e.0, ..m }, e.1, true)
                    },
                    IdleStep::Malformed => (m, 0, false),
                }
            },
        }
    }
}

/// The number of payload bytes the encoder frames at once for a stream whose
/// flush counter stands at `last_flushed`: small streams flush in 4 KiB
/// chunks, then 16 KiB, then 64 KiB; a lagging stream flushes whatever it has
/// down to 16 bytes.
pub fn chunk_size(last_flushed: usize, lagging_stream: bool) -> (r: usize)
    ensures
        r == (if lagging_stream {
            16int
        } else if last_flushed <= 1024 {
            4096int
        } else if last_flushed <= 65536 {
            16384int
        } else {
            65536int
        }),
{
    if lagging_stream {
        return 16;
    }
    if last_flushed <= 1024 {
        return 4096;
    }
    if last_flushed <= 65536 {
        return 16384;
    }
    65536
}

/// A chunk header.
#[derive(Debug)]
pub enum MuxSliceHeader {
    Var([u8; 3]),
    Fixed([u8; 1]),
}

/// The bytes of a chunk header.
pub open spec fn header_bytes(h: MuxSliceHeader) -> Seq<u8> {
    match h {
        MuxSliceHeader::Var(a) => a@,
        MuxSliceHeader::Fixed(a) => a@,
    }
}

/// What `get_code` picks: the header bytes and the payload size.
pub open spec fn get_code_spec(sid: u8, bw: int, lagging: bool) -> (Seq<u8>, int) {
    let var = (
        seq![sid, ((bw - 1) % 256) as u8, (((bw - 1) / 256) % 256) as u8],
        bw,
    );
    if !lagging || bw == 4096 || bw == 16384 || bw >= 65536 {
        if bw < 4096 {
            var
        } else if bw < 16384 {
            (seq![(sid + 16) as u8], 4096int)
        } else if bw < 65536 {
            (seq![(sid + 32) as u8], 16384int)
        } else {
            (seq![(sid + 48) as u8], 65536int)
        }
    } else {
        var
    }
}

/// One chunk as it appears on the wire: the header `get_code` picks for the
/// pending bytes, then the scheduled prefix of those bytes.
pub open spec fn chunk_wire(sid: u8, pending: Seq<u8>, lagging: bool) -> Seq<u8> {
    let gc = get_code_spec(sid, pending.len() as int, lagging);
    gc.0 + pending.take(gc.1)
}

/// Pick the header and payload size for flushing `bytes_to_write` pending
/// bytes of stream `stream_id`: one of the three fixed sizes when enough is
/// pending, else (for a lagging stream) an explicit two-byte length.
pub fn get_code(stream_id: StreamID, bytes_to_write: usize, is_lagging: bool) -> (r: (
    MuxSliceHeader,
    usize,
))
    requires
        stream_id < 16,
        1 <= bytes_to_write,
    ensures
        header_bytes(r.0) == get_code_spec(stream_id, bytes_to_write as int, is_lagging).0,
        r.1 as int == get_code_spec(stream_id, bytes_to_write as int, is_lagging).1,
        1 <= r.1 <= bytes_to_write,
        r.1 <= 65536,
        bytes_to_write < 4096 ==> (r.1 == bytes_to_write && r.0 == MuxSliceHeader::Var(
            [
                stream_id,
                ((bytes_to_write - 1) % 256) as u8,
                (((bytes_to_write - 1) / 256) % 256) as u8,
            ],
        )),
        !is_lagging && 4096 <= bytes_to_write < 16384 ==> (r.1 == 4096 && r.0
            == MuxSliceHeader::Fixed([(stream_id + 16) as u8])),
        !is_lagging && 16384 <= bytes_to_write < 65536 ==> (r.1 == 16384 && r.0
            == MuxSliceHeader::Fixed([(stream_id + 32) as u8])),
        bytes_to_write >= 65536 ==> (r.1 == 65536 && r.0 == MuxSliceHeader::Fixed(
            [(stream_id + 48) as u8],
        )),
        is_lagging && 4096 <= bytes_to_write < 65536 ==> ((r.1 == bytes_to_write
            && bytes_to_write != 4096 && bytes_to_write != 16384 && r.0 == MuxSliceHeader::Var(
            [
                stream_id,
                ((bytes_to_write - 1) % 256) as u8,
                (((bytes_to_write - 1) / 256) % 256) as u8,
            ],
        )) || (r.1 == 4096 && bytes_to_write == 4096 && r.0 == MuxSliceHeader::Fixed(
            [(stream_id + 16) as u8],
        )) || (r.1 == 16384 && bytes_to_write == 16384 && r.0 == MuxSliceHeader::Fixed(
            [(stream_id + 32) as u8],
        ))),
    decreases (if is_lagging {
        0int
    } else {
        1int
    }),
{
    if !is_lagging || bytes_to_write == 4096 || bytes_to_write == 16384 || bytes_to_write >= 65536 {
        if bytes_to_write < 4096 {
            return get_code(stream_id, bytes_to_write, true);
        }
        if bytes_to_write < 16384 {
            return (MuxSliceHeader::Fixed([stream_id + 16]), 4096);
        }
        if bytes_to_write < 65536 {
            return (MuxSliceHeader::Fixed([stream_id + 32]), 16384);
        }
        return (MuxSliceHeader::Fixed([stream_id + 48]), 65536);
    }
    let len_m1: usize = bytes_to_write - 1;
    let lsb: u8 = (len_m1 % 256) as u8;
    let msb: u8 = ((len_m1 / 256) % 256) as u8;
    (MuxSliceHeader::Var([stream_id, lsb, msb]), bytes_to_write)
}


impl Default for StreamBuf {
    /// An empty, unallocated stream buffer.
    fn default() -> (r: StreamBuf)
        ensures
            r.wf(),
            r.unread() == Seq::<u8>::empty(),
            r.data@.len() == 0,
    {
        let r = StreamBuf { data: Vec::new(), start: 0, end: 0 };
        proof {
            assert(r.unread() =~= Seq::<u8>::empty());
        }
        r
    }
}

impl Default for Mux {
    /// A fresh muxer: both streams empty, no chunk in progress, marker not
    /// seen.
    fn default() -> (r: Mux)
        ensures
            r.wf(),
            r.unread_of(0) == Seq::<u8>::empty(),
            r.unread_of(1) == Seq::<u8>::empty(),
            r.bytes_to_deserialize is Empty,
            r.eof is Running,
            r.last_flush@ =~= seq![0usize, 0usize],
            r.bytes_flushed == 0,
            r.cur_stream_bytes_avail == 0,
            flush_balanced(&r),
    {
        let mut bufs: Vec<StreamBuf> = Vec::new();
        bufs.push(StreamBuf::default());
        bufs.push(StreamBuf::default());
        let mut last_flush: Vec<usize> = Vec::new();
        last_flush.push(0);
        last_flush.push(0);
        let r = Mux {
            bufs,
            cur_stream_bytes_avail: 0,
            cur_stream: 0,
            last_flush,
            bytes_flushed: 0,
            bytes_to_deserialize: BytesToDeserialize::Empty,
            eof: StreamState::Running,
        };
        proof {
            assert(r.unread_of(0) =~= Seq::<u8>::empty());
            assert(r.unread_of(1) =~= Seq::<u8>::empty());
        }
        r
    }
}

impl Mux {
    /// Position of the next unread byte of stream `index`.
    pub fn read_cursor(&self, index: usize) -> (r: usize)
        requires
            self.wf(),
            index < 2,
        ensures
            r == self.bufs@[index as int].start,
    {
        self.bufs[index].start
    }

    /// Position one past the last written byte of stream `index`.
    pub fn write_cursor(&self, index: usize) -> (r: usize)
        requires
            self.wf(),
            index < 2,
        ensures
            r == self.bufs@[index as int].end,
    {
        self.bufs[index].end
    }

    /// How many unread bytes stream `stream_id` holds.
    pub fn how_much_data_avail(&self, stream_id: StreamID) -> (r: usize)
        requires
            self.wf(),
            stream_id < 2,
        ensures
            r as int == self.unread_of(stream_id as int).len(),
    {
        self.write_cursor(stream_id as usize) - self.read_cursor(stream_id as usize)
    }

    /// The unread bytes of stream `stream_id`.
    pub fn data_avail(&self, stream_id: StreamID) -> (r: &[u8])
        requires
            self.wf(),
            stream_id < 2,
        ensures
            r@ == self.unread_of(stream_id as int),
    {
        let b = &self.bufs[stream_id as usize];
        vstd::slice::slice_subrange(b.data.as_slice(), b.start, b.end)
    }

    /// Drop `count` unread bytes from the front of stream `stream_id`.
    pub fn consume_data(&mut self, stream_id: StreamID, count: usize)
        requires
            old(self).wf(),
            stream_id < 2,
            count as int <= old(self).unread_of(stream_id as int).len(),
            old(self).cur_stream_bytes_avail == 0 || old(self).cur_stream != stream_id,
        ensures
            final(self).wf(),
            final(self).unread_of(stream_id as int) == old(self).unread_of(
                stream_id as int,
            ).skip(count as int),
            final(self).unread_of(1 - stream_id as int) == old(self).unread_of(
                1 - stream_id as int,
            ),
            final(self).bytes_to_deserialize == old(self).bytes_to_deserialize,
            final(self).eof == old(self).eof,
            final(self).last_flush == old(self).last_flush,
            final(self).bytes_flushed == old(self).bytes_flushed,
            final(self).cur_stream == old(self).cur_stream,
            final(self).cur_stream_bytes_avail == old(self).cur_stream_bytes_avail,
    {
        let idx = stream_id as usize;
        {
            let b = &mut self.bufs[idx];
            b.start = b.start + count;
        }
        proof {
            assert(self.unread_of(stream_id as int) =~= old(self).unread_of(
                stream_id as int,
            ).skip(count as int));
            assert(self.unread_of(1 - stream_id as int) =~= old(self).unread_of(
                1 - stream_id as int,
            ));
        }
    }

    /// Whether every stream has been fully read and the end-of-stream marker
    /// has been seen in full.
    pub fn is_eof(&self) -> (r: bool)
        requires
            self.wf(),
        ensures
            r == (self.unread_of(0).len() == 0 && self.unread_of(1).len() == 0 && self.eof
                is EofDone),
    {
        let e0 = self.read_cursor(0) == self.write_cursor(0);
        let e1 = self.read_cursor(1) == self.write_cursor(1);
        let done = match self.eof {
            StreamState::EofDone => true,
            _ => false,
        };
        e0 && e1 && done
    }

    /// Give both stream buffers an initial allocation.
    pub fn prealloc(&mut self, amount_per_stream: usize)
        requires
            old(self).wf(),
            old(self).unread_of(0).len() == 0,
            old(self).unread_of(1).len() == 0,
            old(self).cur_stream_bytes_avail == 0,
            amount_per_stream + MAX_HEADER_SIZE <= usize::MAX,
        ensures
            final(self).wf(),
            final(self).unread_of(0).len() == 0,
            final(self).unread_of(1).len() == 0,
            forall|i: int|
                0 <= i < 2 ==> (#[trigger] final(self).bufs@[i]).data@.len()
                    >= amount_per_stream,
            final(self).bytes_to_deserialize == old(self).bytes_to_deserialize,
            final(self).eof == old(self).eof,
            final(self).last_flush == old(self).last_flush,
            final(self).bytes_flushed == old(self).bytes_flushed,
            final(self).cur_stream_bytes_avail == 0,
    {
        let n = amount_per_stream + MAX_HEADER_SIZE;
        let mut i: usize = 0;
        while i < 2
            invariant
                old(self).wf(),
                self.bufs@.len() == 2,
                0 <= i <= 2,
                forall|k: int|
                    0 <= k < 2 ==> (#[trigger] self.bufs@[k]).wf() && self.bufs@[k].unread().len()
                        == 0 && (k < i ==> self.bufs@[k].start == 3 && self.bufs@[k].end == 3
                        && self.bufs@[k].data@.len() == n as int),
                self.last_flush == old(self).last_flush,
                self.bytes_flushed == old(self).bytes_flushed,
                self.cur_stream == old(self).cur_stream,
                self.cur_stream_bytes_avail == 0,
                self.bytes_to_deserialize == old(self).bytes_to_deserialize,
                self.eof == old(self).eof,
                self.cur_stream < 2,
                self.last_flush@.len() == 2,
                self.bytes_flushed as int == flush_max(self),
                n >= 3,
            decreases 2 - i,
        {
            let fresh = crate::dict::make_filled(n, 0);
            {
                let b = &mut self.bufs[i];
                b.data = fresh;
                b.start = MAX_HEADER_SIZE;
                b.end = MAX_HEADER_SIZE;
            }
            proof {
                assert(self.bufs@[i as int].unread() =~= Seq::<u8>::empty());
            }
            i = i + 1;
        }
        proof {
            assert(self.unread_of(0) =~= Seq::<u8>::empty());
            assert(self.unread_of(1) =~= Seq::<u8>::empty());
        }
    }

    /// Release both stream buffers.
    pub fn free(&mut self)
        requires
            old(self).wf(),
        ensures
            final(self).wf(),
            final(self).unread_of(0).len() == 0,
            final(self).unread_of(1).len() == 0,
            final(self).bufs@[0].data@.len() == 0,
            final(self).bufs@[1].data@.len() == 0,
            final(self).cur_stream_bytes_avail == 0,
    {
        let mut bufs: Vec<StreamBuf> = Vec::new();
        bufs.push(StreamBuf::default());
        bufs.push(StreamBuf::default());
        self.bufs = bufs;
        self.cur_stream_bytes_avail = 0;
        proof {
            assert(self.unread_of(0) =~= Seq::<u8>::empty());
            assert(self.unread_of(1) =~= Seq::<u8>::empty());
        }
    }

    /// Make room in stream `stream_id` for `data_len` more bytes: keep the
    /// buffer if it already fits, slide the unread span back to the header
    /// reserve if enough has been read, otherwise grow to the next power of
    /// two of the required size (at least 512 bytes).
    pub fn prep_push_for_n_bytes(&mut self, stream_id: StreamID, data_len: usize)
        requires
            old(self).wf(),
            stream_id < 2,
            old(self).unread_of(stream_id as int).len() + data_len + MAX_HEADER_SIZE
                <= 0x4000_0000,
        ensures
            final(self).wf(),
            forall|i: int| 0 <= i < 2 ==> final(self).unread_of(i) == old(self).unread_of(i),
            final(self).bufs@[stream_id as int].end as int + data_len <= final(self).bufs@[stream_id as int].data@.len(),
            data_len > 0 ==> final(self).bufs@[stream_id as int].start >= 3 || (final(self).cur_stream as int == stream_id as int && final(self).cur_stream_bytes_avail > 0),
            ({
                // the growth strategy: keep the buffer when the data fits;
                // otherwise move the unread span back to the header reserve,
                // in place or into a buffer grown to the smallest power of two
                // (at least 512 bytes) that holds reserve, span and new data
                let b0 = old(self).bufs@[stream_id as int];
                let b1 = final(self).bufs@[stream_id as int];
                let need = MAX_HEADER_SIZE + data_len + b0.unread().len();
                ||| b1 == b0
                ||| (b1.start == MAX_HEADER_SIZE && b1.end == MAX_HEADER_SIZE
                    + b0.unread().len() && (b1.data@.len() == b0.data@.len() || (b1.data@.len()
                    >= 512 && b1.data@.len() >= need && b1.data@.len() < 2 * vstd::math::max(
                    512int,
                    need as int,
                ) && (exists|k: nat| b1.data@.len() == #[trigger] vstd::arithmetic::power2::pow2(
                    k,
                )))))
            }),
            final(self).bytes_to_deserialize == old(self).bytes_to_deserialize,
            final(self).eof == old(self).eof,
            final(self).last_flush == old(self).last_flush,
            final(self).bytes_flushed == old(self).bytes_flushed,
            final(self).cur_stream == old(self).cur_stream,
            final(self).cur_stream_bytes_avail == old(self).cur_stream_bytes_avail,
    {
        let idx = stream_id as usize;
        let ghost pre = *self;
        let buf_len = self.bufs[idx].data.len();
        let start = self.bufs[idx].start;
        let end = self.bufs[idx].end;
        let unread_len = end - start;
        // room at the end already
        if buf_len - end >= data_len {
            return ;
        }
        if buf_len >= unread_len + data_len + MAX_HEADER_SIZE && (start == end || (start >= 16384
            && start > unread_len + MAX_HEADER_SIZE)) {
            // slide the unread span back to the header reserve
            {
                let b = &mut self.bufs[idx];
                let ghost src = b.data@;
                let mut j: usize = 0;
                while j < unread_len
                    invariant
                        b.data@.len() == src.len(),
                        src.len() == buf_len,
                        start <= end <= buf_len,
                        unread_len == end - start,
                        MAX_HEADER_SIZE + unread_len <= start || start == end,
                        MAX_HEADER_SIZE + unread_len <= buf_len,
                        0 <= j <= unread_len,
                        forall|k: int|
                            0 <= k < src.len() && !(3 <= k < 3 + j) ==> b.data@[k] == src[k],
                        forall|k: int| 0 <= k < j ==> #[trigger] b.data@[3 + k] == src[start + k],
                    decreases unread_len - j,
                {
                    let v = b.data[start + j];
                    b.data[MAX_HEADER_SIZE + j] = v;
                    j = j + 1;
                }
                b.end = MAX_HEADER_SIZE + unread_len;
                b.start = MAX_HEADER_SIZE;
            }
            proof {
                let nb = self.bufs@[idx as int];
                assert(nb.data@.len() == buf_len);
                assert(nb.start == 3 && nb.end == 3 + unread_len);
                assert forall|k: int| 0 <= k < unread_len implies nb.unread()[k]
                    == pre.unread_of(idx as int)[k] by {
                    assert(nb.unread()[k] == nb.data@[3 + k]);
                    assert(pre.unread_of(idx as int)[k] == pre.bufs@[idx as int].data@[start + k]);
                }
                assert(self.bufs@[idx as int].unread() =~= pre.unread_of(idx as int));
                assert(self.unread_of(1 - idx as int) == pre.unread_of(1 - idx as int));
                lemma_same_unreads(pre, *self);
            }
            return ;
        }
        // grow: next power of two at or above what is needed, at least 512
        let needed: usize = MAX_HEADER_SIZE + data_len + unread_len;
        let mut size: usize = 512;
        let ghost mut k: nat = 9;
        proof {
            vstd::arithmetic::power2::lemma2_to64();
        }
        while size < needed
            invariant
                needed <= 0x4000_0000,
                512 <= size <= 0x8000_0000,
                size == vstd::arithmetic::power2::pow2(k),
                size == 512 || size < 2 * needed,
            decreases (if needed >= size {
                needed - size
            } else {
                0int
            }),
        {
            proof {
                vstd::arithmetic::power2::lemma_pow2_adds(k, 1);
                vstd::arithmetic::power2::lemma2_to64();
                assert(vstd::arithmetic::power2::pow2(k + 1) == vstd::arithmetic::power2::pow2(k)
                    * 2);
            }
            size = size * 2;
            proof {
                k = k + 1;
            }
        }
        let mut fresh = crate::dict::make_filled(size, 0);
        {
            let b = &mut self.bufs[idx];
            let ghost src = b.data@;
            let mut j: usize = 0;
            while j < unread_len
                invariant
                    b.data@ == src,
                    src.len() == buf_len,
                    start <= end <= buf_len,
                    unread_len == end - start,
                    fresh@.len() == size,
                    MAX_HEADER_SIZE + unread_len <= size,
                    0 <= j <= unread_len,
                    forall|k: int| 0 <= k < j ==> #[trigger] fresh@[3 + k] == src[start + k],
                decreases unread_len - j,
            {
                let v = b.data[start + j];
                fresh[MAX_HEADER_SIZE + j] = v;
                j = j + 1;
            }
            b.data = fresh;
            b.end = MAX_HEADER_SIZE + unread_len;
            b.start = MAX_HEADER_SIZE;
        }
        proof {
            let nb = self.bufs@[idx as int];
            assert forall|k: int| 0 <= k < unread_len implies nb.unread()[k] == pre.unread_of(
                idx as int,
            )[k] by {
                assert(nb.unread()[k] == nb.data@[3 + k]);
                assert(pre.unread_of(idx as int)[k] == pre.bufs@[idx as int].data@[start + k]);
            }
            assert(self.bufs@[idx as int].unread() =~= pre.unread_of(idx as int));
            assert(self.unread_of(1 - idx as int) == pre.unread_of(1 - idx as int));
            lemma_same_unreads(pre, *self);
        }
    }

    /// Append `data` to stream `stream_id`, growing the buffer as needed.
    pub fn push_data(&mut self, stream_id: StreamID, data: &[u8])
        requires
            old(self).wf(),
            stream_id < 2,
            old(self).unread_of(stream_id as int).len() + data@.len() + MAX_HEADER_SIZE
                <= 0x4000_0000,
        ensures
            final(self).wf(),
            final(self).unread_of(stream_id as int) == old(self).unread_of(stream_id as int)
                + data@,
            final(self).unread_of(1 - stream_id as int) == old(self).unread_of(
                1 - stream_id as int,
            ),
            final(self).bytes_to_deserialize == old(self).bytes_to_deserialize,
            final(self).eof == old(self).eof,
            final(self).last_flush == old(self).last_flush,
            final(self).bytes_flushed == old(self).bytes_flushed,
            final(self).cur_stream == old(self).cur_stream,
            final(self).cur_stream_bytes_avail == old(self).cur_stream_bytes_avail,
    {
        self.prep_push_for_n_bytes(stream_id, data.len());
        let ghost mid = *self;
        let idx = stream_id as usize;
        let dlen = data.len();
        {
            let b = &mut self.bufs[idx];
            let end0 = b.end;
            let blen = b.data.len();
            let mut j: usize = 0;
            while j < dlen
                invariant
                    dlen == data@.len(),
                    b.data@.len() == blen,
                    b.start <= end0 <= blen,
                    end0 + dlen <= blen,
                    b.end == end0,
                    b.start == mid.bufs@[idx as int].start,
                    blen == mid.bufs@[idx as int].data@.len(),
                    0 <= j <= dlen,
                    forall|k: int|
                        0 <= k < blen && !(end0 <= k < end0 + j) ==> b.data@[k]
                            == mid.bufs@[idx as int].data@[k],
                    forall|k: int| 0 <= k < j ==> #[trigger] b.data@[end0 + k] == data@[k],
                decreases dlen - j,
            {
                let v = data[j];
                b.data[end0 + j] = v;
                j = j + 1;
            }
            b.end = end0 + dlen;
        }
        proof {
            let nb = self.bufs@[idx as int];
            let st = nb.start as int;
            let end0 = mid.bufs@[idx as int].end as int;
            assert forall|k: int| 0 <= k < nb.unread().len() implies nb.unread()[k] == (
            mid.unread_of(idx as int) + data@)[k] by {
                assert(nb.unread()[k] == nb.data@[st + k]);
                if st + k < end0 {
                    assert(mid.unread_of(idx as int)[k] == mid.bufs@[idx as int].data@[st + k]);
                } else {
                    assert(nb.data@[end0 + (st + k - end0)] == data@[st + k - end0]);
                }
            }
            assert(self.bufs@[idx as int].unread() =~= mid.unread_of(idx as int) + data@);
            assert(self.unread_of(1 - idx as int) =~= mid.unread_of(1 - idx as int));
            assert(self.unread_of(stream_id as int) == old(self).unread_of(stream_id as int)
                + data@);
        }
    }

    /// Feed bytes to the end-of-stream recognizer: consume marker bytes for
    /// as long as they continue the marker, then stop.
    pub fn deserialize_eof(&mut self, input: &[u8]) -> (ret: usize)
        requires
            input@.len() >= 1,
        ensures
            final(self).eof == eof_run(old(self).eof, input@).0,
            ret as int == eof_run(old(self).eof, input@).1,
            ret <= input@.len(),
            *final(self) == (Mux { eof: final(self).eof, ..*old(self) }),
    {
        let mut ret: usize = 0;
        match self.eof {
            StreamState::Running => {
                if input[0] == 0xff {
                    ret = ret + 1;
                    self.eof = StreamState::EofStart;
                }
            },
            _ => {},
        }
        if input.len() == ret {
            return ret;
        }
        match self.eof {
            StreamState::EofStart => {
                if input[ret] == 0xfe {
                    ret = ret + 1;
                    self.eof = StreamState::EofMid;
                }
            },
            _ => {},
        }
        if input.len() == ret {
            return ret;
        }
        match self.eof {
            StreamState::EofMid => {
                if input[ret] == 0xff {
                    ret = ret + 1;
                    self.eof = StreamState::EofDone;
                }
            },
            _ => {},
        }
        ret
    }
}

/// Two muxers with pointwise-equal stream buffers have the same unread views.
proof fn lemma_same_unreads(a: Mux, b: Mux)
    requires
        a.bufs@.len() == 2,
        b.bufs@.len() == 2,
        b.unread_of(0) == a.unread_of(0) || b.bufs@[0] == a.bufs@[0],
        b.unread_of(1) == a.unread_of(1) || b.bufs@[1] == a.bufs@[1],
    ensures
        forall|i: int| 0 <= i < 2 ==> b.unread_of(i) == a.unread_of(i),
{
    assert forall|i: int| 0 <= i < 2 implies b.unread_of(i) == a.unread_of(i) by {
        if i == 0 {
        } else {
        }
    }
}



impl Mux {
    /// Accept serialized bytes: parse chunk headers, route payload bytes into
    /// their streams, and hand the reserved marker bytes to the end-of-stream
    /// recognizer (which ends the call). Returns how many bytes were
    /// consumed; the final state and the count are exactly what the
    /// byte-level `demux_run` gives.
    pub fn deserialize(&mut self, input: &[u8]) -> (ret: usize)
        requires
            old(self).wf(),
            deser_state_wf(old(self).bytes_to_deserialize),
            old(self).unread_of(0).len() + input@.len() + MAX_HEADER_SIZE <= 0x4000_0000,
            old(self).unread_of(1).len() + input@.len() + MAX_HEADER_SIZE <= 0x4000_0000,
        ensures
            final(self).wf(),
            deser_state_wf(final(self).bytes_to_deserialize),
            ret <= input@.len(),
            final(self).demux_model() == demux_run(old(self).demux_model(), input@).0,
            ret as int == demux_run(old(self).demux_model(), input@).1,
            // a malformed header stops the call short of the whole input
            demux_run(old(self).demux_model(), input@).2 || ret < input@.len(),
            final(self).last_flush == old(self).last_flush,
            final(self).bytes_flushed == old(self).bytes_flushed,
            final(self).cur_stream == old(self).cur_stream,
            final(self).cur_stream_bytes_avail == old(self).cur_stream_bytes_avail,
    {
        let ghost m0 = self.demux_model();
        let ghost whole = input@;
        proof {
            assert(whole.skip(0) =~= whole);
        }
        let mut i: usize = 0;
        while i < input.len()
            invariant
                self.wf(),
                deser_state_wf(self.bytes_to_deserialize),
                whole == input@,
                0 <= i <= input@.len(),
                self.unread_of(0).len() + (input@.len() - i) + MAX_HEADER_SIZE <= 0x4000_0000,
                self.unread_of(1).len() + (input@.len() - i) + MAX_HEADER_SIZE <= 0x4000_0000,
                demux_run(m0, whole) == (
                    demux_run(self.demux_model(), whole.skip(i as int)).0,
                    demux_run(self.demux_model(), whole.skip(i as int)).1 + i,
                    demux_run(self.demux_model(), whole.skip(i as int)).2,
                ),
                self.last_flush == old(self).last_flush,
                self.bytes_flushed == old(self).bytes_flushed,
                self.cur_stream == old(self).cur_stream,
                self.cur_stream_bytes_avail == old(self).cur_stream_bytes_avail,
                m0 == old(self).demux_model(),
            decreases input@.len() - i,
        {
            let ghost pre = self.demux_model();
            let ghost rest = whole.skip(i as int);
            proof {
                assert(rest[0] == whole[i as int]);
                assert(rest.drop_first() =~= whole.skip(i as int + 1));
            }
            let done = match self.eof {
                StreamState::EofDone => true,
                _ => false,
            };
            if done {
                return i;
            }
            let b = input[i];
            // dispatch on the parse state
            match self.bytes_to_deserialize {
                BytesToDeserialize::Header0(sid) => {
                    self.bytes_to_deserialize = BytesToDeserialize::Header1(sid, b);
                },
                BytesToDeserialize::Header1(sid, lsb) => {
                    proof {
                        assert(lsb as u32 | ((b as u32) << 8u32) < 0x10000) by (bit_vector);
                    }
                    let count: u32 = (lsb as u32 | (b as u32) << 8) + 1;
                    self.bytes_to_deserialize = BytesToDeserialize::Pending(sid, count);
                },
                BytesToDeserialize::Pending(sid, count) => {
                    let one = vstd::slice::slice_subrange(input, i, i + 1);
                    proof {
                        assert(one@ =~= seq![whole[i as int]]);
                        assert(pre.s0.push(b) =~= pre.s0 + one@);
                        assert(pre.s1.push(b) =~= pre.s1 + one@);
                    }
                    self.push_data(sid, one);
                    if count == 1 {
                        self.bytes_to_deserialize = BytesToDeserialize::Empty;
                    } else {
                        self.bytes_to_deserialize = BytesToDeserialize::Pending(sid, count - 1);
                    }
                },
                BytesToDeserialize::Empty => {
                    if (b == 0xff || b == 0xfe) && (b == 0xff || !(matches!(
                        self.eof,
                        StreamState::Running,
                    ))) {
                        let tail = vstd::slice::slice_subrange(input, i, input.len());
                        proof {
                            assert(tail@ =~= rest);
                        }
                        let consumed = self.deserialize_eof(tail);
                        proof {
                            assert(self.demux_model() == demux_run(pre, rest).0);
                            assert(consumed as int == demux_run(pre, rest).1);
                        }
                        return i + consumed;
                    }
                    let sid: u8 = b & STREAM_ID_MASK;
                    proof {
                        assert(sid == b & 0xf);
                    }
                    if sid >= 2 {
                        // a header naming a stream this muxer does not have:
                        // stop and report how much was taken
                        proof {
                            assert(demux_idle_step(pre, b) is Malformed);
                        }
                        return i;
                    }
                    if b < 16 {
                        self.bytes_to_deserialize = BytesToDeserialize::Header0(sid);
                    } else {
                        if b >= 0x40 {
                            // a size code the wire format does not assign
                            proof {
                                assert(demux_idle_step(pre, b) is Malformed);
                            }
                            return i;
                        }
                        proof {
                            assert(b < 0x40 ==> ((b >> 4u8) << 1u8) <= 6) by (bit_vector);
                            assert(b < 0x40 ==> 1024u32 << ((((b >> 4u8) << 1u8)) as u32)
                                >= 1) by (bit_vector);
                        }
                        let shift: u32 = (((b >> 4) << 1)) as u32;
                        let count: u32 = 1024u32 << shift;
                        self.bytes_to_deserialize = BytesToDeserialize::Pending(sid, count);
                    }
                },
            }
            proof {
                let step_model = self.demux_model();
                assert(demux_run(pre, rest) == (
                    demux_run(step_model, rest.drop_first()).0,
                    demux_run(step_model, rest.drop_first()).1 + 1,
                    demux_run(step_model, rest.drop_first()).2,
                ));
            }
            i = i + 1;
        }
        proof {
            assert(whole.skip(whole.len() as int) =~= Seq::<u8>::empty());
        }
        i
    }
}

/// A parse state that only names streams this muxer has.
pub open spec fn deser_state_wf(st: BytesToDeserialize) -> bool {
    match st {
        BytesToDeserialize::Empty => true,
        BytesToDeserialize::Header0(sid) => sid < 2,
        BytesToDeserialize::Header1(sid, _) => sid < 2,
        BytesToDeserialize::Pending(sid, c) => sid < 2 && c >= 1,
    }
}



/// One flush step keeps the variance bound: the flushed stream's counter
/// jumps to the running total plus the new chunk, and with two streams that
/// stays within twice the variance limit of the other stream's counter.
proof fn lemma_flush_step_keeps_balance(lf0: int, lf1: int, sid: int, n: int)
    requires
        0 <= sid < 2,
        1 <= n <= 65536,
        vstd::math::max(lf0, lf1) - vstd::math::min(lf0, lf1) <= 2 * MAX_FLUSH_VARIANCE,
        (if sid == 0 {
            lf0
        } else {
            lf1
        }) <= vstd::math::min(lf0, lf1) + MAX_FLUSH_VARIANCE,
    ensures
        ({
            let bump = vstd::math::max(lf0, lf1) + n;
            let nf0 = if sid == 0 {
                bump
            } else {
                lf0
            };
            let nf1 = if sid == 1 {
                bump
            } else {
                lf1
            };
            vstd::math::max(nf0, nf1) - vstd::math::min(nf0, nf1) <= 2 * MAX_FLUSH_VARIANCE
        }),
{
}

impl Mux {
    /// Emit the tail of a chunk that did not fit into the previous output
    /// buffer, writing at the start of `output`.
    fn serialize_leftover(&mut self, output: &mut Vec<u8>) -> (to_copy: usize)
        requires
            old(self).wf(),
        ensures
            final(self).wf(),
            to_copy == vstd::math::min(
                old(self).cur_stream_bytes_avail as int,
                old(output)@.len() as int,
            ),
            final(output)@.len() == old(output)@.len(),
            forall|j: int|
                to_copy <= j < old(output)@.len() ==> final(output)@[j] == old(output)@[j],
            ({
                // the cut-off chunk tail is emitted from where it waits
                let b = old(self).bufs@[old(self).cur_stream as int];
                &&& (forall|j: int|
                    0 <= j < to_copy ==> #[trigger] final(output)@[j] == b.data@[b.start + j])
                &&& final(self).bufs@ == old(self).bufs@.update(
                    old(self).cur_stream as int,
                    (StreamBuf { start: (b.start + to_copy) as usize, ..b }),
                )
            }),
            final(self).cur_stream_bytes_avail == old(self).cur_stream_bytes_avail - to_copy,
            final(self).last_flush == old(self).last_flush,
            final(self).bytes_flushed == old(self).bytes_flushed,
            final(self).cur_stream == old(self).cur_stream,
            final(self).bytes_to_deserialize == old(self).bytes_to_deserialize,
            final(self).eof == old(self).eof,
    {
        let avail = self.cur_stream_bytes_avail as usize;
        let olen = output.len();
        let to_copy: usize = if avail < olen {
            avail
        } else {
            olen
        };
        let idx = self.cur_stream as usize;
        let start = self.bufs[idx].start;
        let ghost pre = *self;
        let mut j: usize = 0;
        while j < to_copy
            invariant
                pre.wf(),
                idx == pre.cur_stream as int,
                start == pre.bufs@[idx as int].start,
                to_copy <= pre.cur_stream_bytes_avail as int,
                start + to_copy <= pre.bufs@[idx as int].end,
                pre.bufs@[idx as int].end <= pre.bufs@[idx as int].data@.len(),
                *self == pre,
                output@.len() == old(output)@.len(),
                to_copy <= output@.len(),
                0 <= j <= to_copy,
                forall|k: int| to_copy <= k < output@.len() ==> output@[k] == old(output)@[k],
                forall|k: int|
                    0 <= k < j ==> #[trigger] output@[k] == pre.bufs@[idx as int].data@[start + k],
            decreases to_copy - j,
        {
            let v = self.bufs[idx].data[start + j];
            output[j] = v;
            j = j + 1;
        }
        let ns = self.bufs[idx].start + to_copy;
        self.bufs[idx].start = ns;
        self.cur_stream_bytes_avail = self.cur_stream_bytes_avail - to_copy as u32;
        proof {
            assert forall|i: int| 0 <= i < 2 implies (#[trigger] self.bufs@[i]).wf() by {}
            assert(self.unread_of(idx as int).len() == pre.unread_of(idx as int).len() - to_copy);
            assert(self.bufs@ =~= pre.bufs@.update(
                idx as int,
                (StreamBuf { start: ns, ..pre.bufs@[idx as int] }),
            ));
        }
        to_copy
    }

    /// Frame and emit one chunk of stream `stream_id`: pick the header, write
    /// it in place just before the unread span, credit the flush counters,
    /// and copy as much of header plus payload as fits into `output` from
    /// `*output_offset` on; a cut-off tail is recorded for the next call.
    #[verifier::rlimit(100)]
    #[verifier::spinoff_prover]
    fn serialize_stream_id(
        &mut self,
        stream_id: StreamID,
        output: &mut Vec<u8>,
        output_offset: &mut usize,
        is_lagging: bool,
    )
        requires
            old(self).wf(),
            stream_id < 2,
            old(self).cur_stream_bytes_avail == 0,
            old(self).unread_of(stream_id as int).len() >= 1,
            old(self).bufs@[stream_id as int].start >= 3,
            *old(output_offset) <= old(output)@.len(),
            old(self).bytes_flushed + 65536 <= usize::MAX,
        ensures
            final(self).wf(),
            final(output)@.len() == old(output)@.len(),
            *old(output_offset) <= *final(output_offset) <= old(output)@.len(),
            forall|j: int|
                0 <= j < old(output)@.len() && !(*old(output_offset) <= j < *final(output_offset))
                    ==> final(output)@[j] == old(output)@[j],
            ({
                let n = final(self).bytes_flushed - old(self).bytes_flushed;
                &&& 1 <= n <= 65536
                &&& n <= old(self).unread_of(stream_id as int).len()
                &&& final(self).last_flush@ == old(self).last_flush@.update(
                    stream_id as int,
                    final(self).bytes_flushed,
                )
            }),
            ({
                // the emitted bytes are a prefix of this chunk's wire image,
                // and any cut-off tail waits in the stream buffer
                let chunk = chunk_wire(
                    stream_id,
                    old(self).unread_of(stream_id as int),
                    is_lagging,
                );
                let wrote = *final(output_offset) - *old(output_offset);
                &&& wrote == vstd::math::min(
                    chunk.len() as int,
                    old(output)@.len() - *old(output_offset),
                )
                &&& (forall|j: int|
                    0 <= j < wrote ==> final(output)@[*old(output_offset) + j] == chunk[j])
                &&& final(self).cur_stream_bytes_avail as int == chunk.len() - wrote
                &&& (forall|j: int|
                    0 <= j < chunk.len() - wrote
                        ==> (#[trigger] final(self).bufs@[stream_id as int].data@[final(self).bufs@[stream_id as int].start + j]) == chunk[wrote + j])
                &&& sched_pending(final(self)) == chunk.skip(wrote)
            }),
            ({
                // the transcript step: one well-formed frame whose payload is
                // the scheduled prefix of the stream's pending bytes
                let pend0 = old(self).unread_of(stream_id as int);
                let n = final(self).bytes_flushed - old(self).bytes_flushed;
                let gc = get_code_spec(stream_id, pend0.len() as int, is_lagging);
                &&& n == gc.1
                &&& frame_ok(
                    WireFrame { sid: stream_id, header: gc.0, payload: pend0.take(n) },
                )
                &&& unsched(final(self), stream_id as int) == pend0.skip(n)
                &&& unsched(final(self), 1 - stream_id as int) == old(self).unread_of(
                    1 - stream_id as int,
                )
            }),
            final(self).unread_of(1 - stream_id as int) == old(self).unread_of(
                1 - stream_id as int,
            ),
            final(self).cur_stream_bytes_avail > 0 ==> final(self).cur_stream == stream_id,
            final(self).cur_stream_bytes_avail == 0 ==> *final(output_offset) - *old(output_offset)
                >= (final(self).bytes_flushed - old(self).bytes_flushed) + 1,
            final(self).bytes_to_deserialize == old(self).bytes_to_deserialize,
            final(self).eof == old(self).eof,
    {
        let idx = stream_id as usize;
        let populated = self.bufs[idx].end;
        let outputted = self.bufs[idx].start;
        let pending = populated - outputted;
        let ghost chunk = chunk_wire(stream_id, old(self).unread_of(stream_id as int), is_lagging);
        let (header, num_payload) = get_code(stream_id, pending, is_lagging);
        self.bytes_flushed = self.bytes_flushed + num_payload;
        let bf = self.bytes_flushed;
        let ghost pre = *self;
        // write the header just before the unread span
        let hlen: usize;
        {
            let b = &mut self.bufs[idx];
            match header {
                MuxSliceHeader::Var(hdr) => {
                    hlen = 3;
                    b.start = b.start - 3;
                    b.data[b.start] = hdr[0];
                    let s1 = b.start + 1;
                    b.data[s1] = hdr[1];
                    let s2 = b.start + 2;
                    b.data[s2] = hdr[2];
                },
                MuxSliceHeader::Fixed(hdr) => {
                    hlen = 1;
                    b.start = b.start - 1;
                    b.data[b.start] = hdr[0];
                },
            }
        }
        self.last_flush[idx] = bf;
        proof {
            // the buffer now holds the whole chunk image starting at the
            // (moved-back) read cursor
            let b = self.bufs@[idx as int];
            assert(chunk.len() == hlen + num_payload);
            assert forall|j: int| 0 <= j < chunk.len() implies b.data@[b.start + j] == chunk[j]
                by {
                if j < hlen {
                    assert(b.data@[b.start + j] == header_bytes(header)[j]);
                } else {
                    assert(b.data@[b.start + j] == old(self).unread_of(stream_id as int)[j
                        - hlen]);
                    assert(chunk[j] == old(self).unread_of(stream_id as int).take(
                        num_payload as int,
                    )[j - hlen]);
                }
            }
        }
        let total = num_payload + hlen;
        let space = output.len() - *output_offset;
        let to_write: usize = if total < space {
            total
        } else {
            space
        };
        let ghost mid = *self;
        let src_start = self.bufs[idx].start;
        let out0 = *output_offset;
        let olen_total = output.len();
        let mut j: usize = 0;
        while j < to_write
            invariant
                mid.bufs@.len() == 2,
                idx < 2,
                src_start == mid.bufs@[idx as int].start,
                src_start + to_write <= mid.bufs@[idx as int].end,
                mid.bufs@[idx as int].end <= mid.bufs@[idx as int].data@.len(),
                to_write <= chunk.len(),
                forall|k: int|
                    0 <= k < chunk.len() ==> #[trigger] mid.bufs@[idx as int].data@[src_start + k]
                        == chunk[k],
                *self == mid,
                output@.len() == old(output)@.len(),
                olen_total == output@.len(),
                out0 + to_write <= olen_total,
                0 <= j <= to_write,
                forall|k: int|
                    0 <= k < output@.len() && !(out0 <= k < out0 + j) ==> output@[k] == old(
                        output,
                    )@[k],
                forall|k: int| 0 <= k < j ==> #[trigger] output@[out0 + k] == chunk[k],
            decreases to_write - j,
        {
            let v = self.bufs[idx].data[src_start + j];
            output[out0 + j] = v;
            j = j + 1;
        }
        let ns2 = self.bufs[idx].start + to_write;
        self.bufs[idx].start = ns2;
        if self.bufs[idx].start == self.bufs[idx].end {
            self.bufs[idx].start = MAX_HEADER_SIZE;
            self.bufs[idx].end = MAX_HEADER_SIZE;
        }
        *output_offset = out0 + to_write;
        if to_write != total {
            self.cur_stream_bytes_avail = (total - to_write) as u32;
            self.cur_stream = stream_id;
        }
        proof {
            assert forall|i: int| 0 <= i < 2 implies (#[trigger] self.bufs@[i]).wf() by {}
            assert(self.unread_of(1 - stream_id as int) =~= old(self).unread_of(
                1 - stream_id as int,
            ));
            assert(self.last_flush@ =~= old(self).last_flush@.update(
                stream_id as int,
                self.bytes_flushed,
            ));
            if self.cur_stream_bytes_avail > 0 {
                assert(self.bufs@[idx as int].start as int + self.cur_stream_bytes_avail as int
                    >= 3);
                assert(self.cur_stream_bytes_avail as int <= self.unread_of(
                    self.cur_stream as int,
                ).len());
            }
            assert forall|j: int| 0 <= j < chunk.len() - to_write implies (
            #[trigger] self.bufs@[idx as int].data@[self.bufs@[idx as int].start + j]) == chunk[
                to_write + j
            ] by {
                assert(self.bufs@[idx as int].data@[src_start + (to_write + j)] == chunk[to_write
                    + j]);
            }
            assert(flush_max(self) == self.bytes_flushed as int);
        }
    }
}



impl Mux {
    /// Emit eligible chunks into `output`, starting at its beginning: first
    /// any cut-off tail from the previous call, then, pass by pass, every
    /// stream that holds a full chunk and whose flush counter is within the
    /// variance limit of the laggard's. Keeps the flush counters balanced.
    pub fn serialize(&mut self, output: &mut Vec<u8>) -> (ret: usize)
        requires
            old(self).wf(),
            old(self).bytes_flushed + old(output)@.len() + 0x48000 <= usize::MAX,
        ensures
            final(self).wf(),
            ret <= old(output)@.len(),
            final(output)@.len() == old(output)@.len(),
            forall|j: int|
                ret <= j < old(output)@.len() ==> final(output)@[j] == old(output)@[j],
            flush_balanced(old(self)) ==> flush_balanced(final(self)),
            serializer_accounted(*old(self), *final(self), final(output)@.subrange(0, ret as int)),
            ret < old(output)@.len() ==> sched_pending(final(self)).len() == 0,
            old(output)@.len() > 0 && (sched_pending(old(self)).len() > 0 || stream_eligible(
                old(self),
                0,
            ) || stream_eligible(old(self), 1)) ==> ret > 0,
            final(self).bytes_to_deserialize == old(self).bytes_to_deserialize,
            final(self).eof == old(self).eof,
    {
        let ghost mut fr: Seq<WireFrame> = Seq::empty();
        let mut output_offset: usize = 0;
        proof {
            assert(sched_pending(old(self)) + wframes_bytes(fr) =~= output@.subrange(0, 0)
                + sched_pending(old(self)));
            assert(wframes_payload(fr, 0) =~= unsched(old(self), 0).take(0));
            assert(unsched(old(self), 0) =~= unsched(old(self), 0).skip(0));
            assert(wframes_payload(fr, 1) =~= unsched(old(self), 1).take(0));
            assert(unsched(old(self), 1) =~= unsched(old(self), 1).skip(0));
        }
        if self.cur_stream_bytes_avail != 0 {
            let ghost pre_l = *self;
            output_offset = self.serialize_leftover(output);
            proof {
                lemma_leftover_transcript(pre_l, *self, old(output)@, output@, output_offset as int);
            }
        }
        let olen = output.len();
        let mut done = false;
        while !done && output_offset < olen
            invariant
                self.wf(),
                olen == output@.len(),
                output@.len() == old(output)@.len(),
                output_offset <= olen,
                forall|j: int|
                    output_offset <= j < output@.len() ==> output@[j] == old(output)@[j],
                flush_balanced(old(self)) ==> flush_balanced(self),
                self.cur_stream_bytes_avail == 0 ==> self.bytes_flushed <= old(self).bytes_flushed + output_offset + 65536,
                self.bytes_flushed <= old(self).bytes_flushed + output_offset + 0x20000,
                old(self).bytes_flushed + old(output)@.len() + 0x48000 <= usize::MAX,
                done || output_offset == olen || self.cur_stream_bytes_avail == 0,
                done ==> output_offset == olen || self.cur_stream_bytes_avail == 0,
                transcript_matches(
                    *old(self),
                    *self,
                    output@.subrange(0, output_offset as int),
                    fr,
                ),
                output_offset == 0 ==> self.last_flush@ == old(self).last_flush@ && self.unread_of(
                    0,
                ) == old(self).unread_of(0) && self.unread_of(1) == old(self).unread_of(1)
                    && self.cur_stream_bytes_avail == old(self).cur_stream_bytes_avail
                    && self.bytes_flushed == old(self).bytes_flushed,
                done && output_offset == 0 ==> !stream_eligible(old(self), 0) && !stream_eligible(
                    old(self),
                    1,
                ),
                old(self).cur_stream_bytes_avail > 0 && old(output)@.len() > 0 ==> output_offset
                    > 0,
                self.bytes_to_deserialize == old(self).bytes_to_deserialize,
                self.eof == old(self).eof,
            decreases 2 * (olen - output_offset) + (if done {
                0int
            } else {
                1int
            }),
        {
            let mut flushed_any = false;
            let lf0 = self.last_flush[0];
            let lf1 = self.last_flush[1];
            let min_lf: usize = if lf1 < lf0 {
                lf1
            } else {
                lf0
            };
            let max_lf: usize = if lf1 > lf0 {
                lf1
            } else {
                lf0
            };
            let ghost before0 = *self;
            // stream 0
            let avail0 = self.how_much_data_avail(0);
            let lag0 = max_lf - self.last_flush[0] > MAX_FLUSH_VARIANCE;
            let do0 = avail0 >= chunk_size(self.last_flush[0], lag0) && self.last_flush[0] - min_lf
                <= MAX_FLUSH_VARIANCE;
            if do0 {
                flushed_any = true;
                let off_b = output_offset;
                let ghost out_b = output@;
                self.serialize_stream_id(0, output, &mut output_offset, lag0);
                proof {
                    if flush_balanced(&before0) {
                        lemma_flush_step_keeps_balance(
                            before0.last_flush@[0] as int,
                            before0.last_flush@[1] as int,
                            0,
                            self.bytes_flushed - before0.bytes_flushed,
                        );
                    }
                    fr = lemma_flush_transcript(
                        *old(self),
                        before0,
                        *self,
                        out_b,
                        output@,
                        off_b as int,
                        output_offset as int,
                        fr,
                        0,
                        lag0,
                    );
                }
                if self.cur_stream_bytes_avail != 0 {
                    done = true;
                    proof {
                        assert(output_offset == olen);
                    }
                }
            }
            // stream 1
            let mut do1 = false;
            if !done {
                let ghost before1 = *self;
                let avail1 = self.how_much_data_avail(1);
                let lag1 = max_lf - self.last_flush[1] > MAX_FLUSH_VARIANCE;
                do1 = avail1 >= chunk_size(self.last_flush[1], lag1) && self.last_flush[1] - min_lf
                    <= MAX_FLUSH_VARIANCE;
                if do1 {
                    flushed_any = true;
                    let off_b = output_offset;
                    let ghost out_b = output@;
                    self.serialize_stream_id(1, output, &mut output_offset, lag1);
                    proof {
                        if flush_balanced(&before1) {
                            lemma_flush_step_keeps_balance(
                                before1.last_flush@[0] as int,
                                before1.last_flush@[1] as int,
                                1,
                                self.bytes_flushed - before1.bytes_flushed,
                            );
                        }
                        fr = lemma_flush_transcript(
                            *old(self),
                            before1,
                            *self,
                            out_b,
                            output@,
                            off_b as int,
                            output_offset as int,
                            fr,
                            1,
                            lag1,
                        );
                    }
                    if self.cur_stream_bytes_avail != 0 {
                        done = true;
                        proof {
                            assert(output_offset == olen);
                        }
                    }
                }
            }
            if !flushed_any {
                proof {
                    if output_offset == 0 {
                        assert(flush_max(self) == vstd::math::max(lf0 as int, lf1 as int));
                        assert(flush_min(self) == vstd::math::min(lf0 as int, lf1 as int));
                        assert(!stream_eligible(old(self), 0));
                        assert(!stream_eligible(old(self), 1));
                    }
                }
                done = true;
            }
        }
        proof {
            assert(serializer_accounted(
                *old(self),
                *self,
                output@.subrange(0, output_offset as int),
            ));
        }
        output_offset
    }

    /// Drain every stream that still holds data, in lagging mode, then stop.
    fn flush_internal(&mut self, output: &mut Vec<u8>) -> (ret: usize)
        requires
            old(self).wf(),
            old(self).bytes_flushed + old(output)@.len() + 0x48000 <= usize::MAX,
        ensures
            final(self).wf(),
            ret <= old(output)@.len(),
            final(output)@.len() == old(output)@.len(),
            forall|j: int|
                ret <= j < old(output)@.len() ==> final(output)@[j] == old(output)@[j],
            serializer_accounted(*old(self), *final(self), final(output)@.subrange(0, ret as int)),
            // given output space, the drain leaves nothing behind
            ret < old(output)@.len() ==> sched_pending(final(self)).len() == 0 && final(self).unread_of(0).len() == 0 && final(self).unread_of(1).len() == 0,
            final(self).bytes_to_deserialize == old(self).bytes_to_deserialize,
            final(self).eof == old(self).eof,
    {
        let ghost mut fr: Seq<WireFrame> = Seq::empty();
        let mut output_offset: usize = 0;
        proof {
            assert(sched_pending(old(self)) + wframes_bytes(fr) =~= output@.subrange(0, 0)
                + sched_pending(old(self)));
            assert(wframes_payload(fr, 0) =~= unsched(old(self), 0).take(0));
            assert(unsched(old(self), 0) =~= unsched(old(self), 0).skip(0));
            assert(wframes_payload(fr, 1) =~= unsched(old(self), 1).take(0));
            assert(unsched(old(self), 1) =~= unsched(old(self), 1).skip(0));
        }
        if self.cur_stream_bytes_avail != 0 {
            let ghost pre_l = *self;
            output_offset = self.serialize_leftover(output);
            proof {
                lemma_leftover_transcript(pre_l, *self, old(output)@, output@, output_offset as int);
            }
        }
        let olen = output.len();
        let mut done = false;
        while !done && output_offset < olen
            invariant
                self.wf(),
                olen == output@.len(),
                output@.len() == old(output)@.len(),
                output_offset <= olen,
                forall|j: int|
                    output_offset <= j < output@.len() ==> output@[j] == old(output)@[j],
                self.cur_stream_bytes_avail == 0 ==> self.bytes_flushed <= old(self).bytes_flushed + output_offset + 65536,
                self.bytes_flushed <= old(self).bytes_flushed + output_offset + 0x20000,
                old(self).bytes_flushed + old(output)@.len() + 0x48000 <= usize::MAX,
                done || output_offset == olen || self.cur_stream_bytes_avail == 0,
                done ==> output_offset == olen || (self.cur_stream_bytes_avail == 0
                    && self.unread_of(0).len() == 0 && self.unread_of(1).len() == 0),
                transcript_matches(
                    *old(self),
                    *self,
                    output@.subrange(0, output_offset as int),
                    fr,
                ),
                self.bytes_to_deserialize == old(self).bytes_to_deserialize,
                self.eof == old(self).eof,
            decreases 2 * (olen - output_offset) + (if done {
                0int
            } else {
                1int
            }),
        {
            let mut flushed_any = false;
            // the lowest flush counter among streams that still hold data
            let mut min_opt: Option<usize> = None;
            let a0 = self.how_much_data_avail(0);
            if a0 != 0 {
                min_opt = Some(self.last_flush[0]);
            }
            let a1 = self.how_much_data_avail(1);
            if a1 != 0 {
                let lf1v = self.last_flush[1];
                min_opt = match min_opt {
                    None => Some(lf1v),
                    Some(m) => if lf1v < m {
                        Some(lf1v)
                    } else {
                        Some(m)
                    },
                };
            }
            proof {
                match min_opt {
                    Some(m) => {
                        assert(m <= self.bytes_flushed);
                    },
                    None => {},
                }
            }
            let eligible0 = match min_opt {
                None => true,
                Some(m) => self.last_flush[0] <= m + MAX_FLUSH_VARIANCE,
            };
            if eligible0 {
                if self.read_cursor(0) != self.write_cursor(0) {
                    flushed_any = true;
                    let off_b = output_offset;
                    let ghost out_b = output@;
                    let ghost before0 = *self;
                    self.serialize_stream_id(0, output, &mut output_offset, true);
                    proof {
                        fr = lemma_flush_transcript(
                            *old(self),
                            before0,
                            *self,
                            out_b,
                            output@,
                            off_b as int,
                            output_offset as int,
                            fr,
                            0,
                            true,
                        );
                    }
                    if self.cur_stream_bytes_avail != 0 {
                        done = true;
                        proof {
                            assert(output_offset == olen);
                        }
                    }
                }
            }
            if !done {
                let eligible1 = match min_opt {
                    None => true,
                    Some(m) => self.last_flush[1] <= m + MAX_FLUSH_VARIANCE,
                };
                if eligible1 {
                    if self.read_cursor(1) != self.write_cursor(1) {
                        flushed_any = true;
                        let off_b = output_offset;
                        let ghost out_b = output@;
                        let ghost before1 = *self;
                        self.serialize_stream_id(1, output, &mut output_offset, true);
                        proof {
                            fr = lemma_flush_transcript(
                                *old(self),
                                before1,
                                *self,
                                out_b,
                                output@,
                                off_b as int,
                                output_offset as int,
                                fr,
                                1,
                                true,
                            );
                        }
                        if self.cur_stream_bytes_avail != 0 {
                            done = true;
                            proof {
                                assert(output_offset == olen);
                            }
                        }
                    }
                }
            }
            if !flushed_any {
                proof {
                    // nothing was eligible and nonempty: with two streams, the
                    // one holding the lowest counter among nonempty streams is
                    // always eligible, so both streams must be empty
                    assert(self.unread_of(0).len() == 0 && self.unread_of(1).len() == 0) by {
                        if self.unread_of(0).len() != 0 || self.unread_of(1).len() != 0 {
                            match min_opt {
                                None => {
                                    assert(a0 == 0 && a1 == 0);
                                    assert(false);
                                },
                                Some(m) => {
                                    if a0 != 0 && self.last_flush@[0] as int == m {
                                        assert(eligible0);
                                        assert(false);
                                    } else {
                                        assert(a1 != 0 && self.last_flush@[1] as int == m);
                                        assert(self.last_flush@[1] <= m + MAX_FLUSH_VARIANCE);
                                        assert(false);
                                    }
                                },
                            }
                        }
                    }
                }
                done = true;
            }
        }
        proof {
            assert(serializer_accounted(
                *old(self),
                *self,
                output@.subrange(0, output_offset as int),
            ));
        }
        output_offset
    }

    /// Drain all streams and then emit the three end-of-stream marker bytes,
    /// one state step per byte, resumable at every byte boundary. After the
    /// marker has been fully written the call does nothing.
    #[verifier::rlimit(100)]
    #[verifier::spinoff_prover]
    pub fn serialize_close(&mut self, output: &mut Vec<u8>) -> (ret: usize)
        requires
            old(self).wf(),
            old(self).bytes_flushed + old(output)@.len() + 0x48000 <= usize::MAX,
        ensures
            final(self).wf(),
            ret <= old(output)@.len(),
            final(output)@.len() == old(output)@.len(),
            forall|j: int|
                ret <= j < old(output)@.len() ==> final(output)@[j] == old(output)@[j],
            old(self).eof is EofDone ==> ret == 0 && *final(self) == *old(self),
            close_accounted(*old(self), *final(self), final(output)@.subrange(0, ret as int)),
            !(old(self).eof is EofDone) && ret < old(output)@.len() ==> final(self).eof
                is EofDone && sched_pending(final(self)).len() == 0 && final(self).unread_of(
                0,
            ).len() == 0 && final(self).unread_of(1).len() == 0,
            final(self).bytes_to_deserialize == old(self).bytes_to_deserialize,
    {
        match self.eof {
            StreamState::EofDone => {
                proof {
                    let fr = Seq::<WireFrame>::empty();
                    assert(sched_pending(old(self)) + wframes_bytes(fr) + marker_rest(
                        old(self).eof,
                    ).take(0) =~= output@.subrange(0, 0) + sched_pending(old(self)));
                    assert(wframes_payload(fr, 0) =~= unsched(old(self), 0).take(0));
                    assert(unsched(old(self), 0) =~= unsched(old(self), 0).skip(0));
                    assert(wframes_payload(fr, 1) =~= unsched(old(self), 1).take(0));
                    assert(unsched(old(self), 1) =~= unsched(old(self), 1).skip(0));
                    assert(marker_rest(old(self).eof) =~= marker_rest(old(self).eof).skip(0));
                    assert(close_transcript_matches(*old(self), *old(self), output@.subrange(0, 0), fr));
                }
                return 0;
            },
            _ => {},
        }
        let mut ret = self.flush_internal(output);
        let ghost mid = *self;
        let ghost out_fi = output@;
        let ret_fi = ret;
        let ghost fr = choose|fr: Seq<WireFrame>|
            transcript_matches(*old(self), mid, out_fi.subrange(0, ret_fi as int), fr);
        match self.eof {
            StreamState::Running => {
                if output.len() == ret {
                    proof {
                        lemma_close_wraps(
                            *old(self),
                            mid,
                            *self,
                            out_fi,
                            output@,
                            ret_fi as int,
                            ret as int,
                            fr,
                        );
                    }
                    return ret;
                }
                output[ret] = 0xff;
                ret = ret + 1;
                self.eof = StreamState::EofStart;
            },
            _ => {},
        }
        match self.eof {
            StreamState::EofStart => {
                if output.len() == ret {
                    proof {
                        lemma_close_wraps(
                            *old(self),
                            mid,
                            *self,
                            out_fi,
                            output@,
                            ret_fi as int,
                            ret as int,
                            fr,
                        );
                    }
                    return ret;
                }
                output[ret] = 0xfe;
                ret = ret + 1;
                self.eof = StreamState::EofMid;
            },
            _ => {},
        }
        match self.eof {
            StreamState::EofMid => {
                if output.len() == ret {
                    proof {
                        lemma_close_wraps(
                            *old(self),
                            mid,
                            *self,
                            out_fi,
                            output@,
                            ret_fi as int,
                            ret as int,
                            fr,
                        );
                    }
                    return ret;
                }
                output[ret] = 0xff;
                ret = ret + 1;
                self.eof = StreamState::EofDone;
            },
            _ => {},
        }
        proof {
            lemma_close_wraps(*old(self), mid, *self, out_fi, output@, ret_fi as int, ret as int, fr);
        }
        ret
    }
}



/// A run over `input` that consumes every byte through header and payload
/// handling alone, never reaching the end-of-stream recognizer or a malformed
/// header.
pub open spec fn demux_clean(m: DemuxModel, input: Seq<u8>) -> bool
    decreases input.len(),
{
    if input.len() == 0 {
        true
    } else if m.eof is EofDone {
        false
    } else {
        let b = input[0];
        match m.st {
            BytesToDeserialize::Header0(sid) => demux_clean(
                DemuxModel { st: BytesToDeserialize::Header1(sid, b), ..m },
                input.drop_first(),
            ),
            BytesToDeserialize::Header1(sid, lsb) => demux_clean(
                DemuxModel {
                    st: BytesToDeserialize::Pending(sid, ((lsb as u32 | (b as u32) << 8) + 1) as u32),
                    ..m
                },
                input.drop_first(),
            ),
            BytesToDeserialize::Pending(sid, count) => {
                let m2 = model_push(m, sid, b);
                let m3 = if count == 1 {
                    DemuxModel { st: BytesToDeserialize::Empty, ..m2 }
                } else {
                    DemuxModel { st: BytesToDeserialize::Pending(sid, (count - 1) as u32), ..m2 }
                };
                demux_clean(m3, input.drop_first())
            },
            BytesToDeserialize::Empty => {
                match demux_idle_step(m, b) {
                    IdleStep::Consumed(m2) => demux_clean(m2, input.drop_first()),
                    IdleStep::EofBytes => false,
                    IdleStep::Malformed => false,
                }
            },
        }
    }
}

/// A clean run consumes everything it is given and accepts.
pub proof fn lemma_demux_clean_consumes_all(m: DemuxModel, input: Seq<u8>)
    requires
        demux_clean(m, input),
    ensures
        demux_run(m, input).1 == input.len(),
        demux_run(m, input).2,
    decreases input.len(),
{
    if input.len() == 0 {
    } else {
        let b = input[0];
        match m.st {
            BytesToDeserialize::Header0(sid) => {
                lemma_demux_clean_consumes_all(
                    DemuxModel { st: BytesToDeserialize::Header1(sid, b), ..m },
                    input.drop_first(),
                );
            },
            BytesToDeserialize::Header1(sid, lsb) => {
                lemma_demux_clean_consumes_all(
                    DemuxModel {
                        st: BytesToDeserialize::Pending(
                            sid,
                            ((lsb as u32 | (b as u32) << 8) + 1) as u32,
                        ),
                        ..m
                    },
                    input.drop_first(),
                );
            },
            BytesToDeserialize::Pending(sid, count) => {
                let m2 = model_push(m, sid, b);
                let m3 = if count == 1 {
                    DemuxModel { st: BytesToDeserialize::Empty, ..m2 }
                } else {
                    DemuxModel { st: BytesToDeserialize::Pending(sid, (count - 1) as u32), ..m2 }
                };
                lemma_demux_clean_consumes_all(m3, input.drop_first());
            },
            BytesToDeserialize::Empty => {
                match demux_idle_step(m, b) {
                    IdleStep::Consumed(m2) => {
                        lemma_demux_clean_consumes_all(m2, input.drop_first());
                    },
                    IdleStep::EofBytes => {
                        assert(false);
                    },
                    IdleStep::Malformed => {
                        assert(false);
                    },
                }
            },
        }
    }
}

/// A clean run splits over concatenation: feeding `a + b` in one call gives
/// the same state and count as feeding `a` and then `b`. This is what makes
/// demultiplexing insensitive to how the wire is chunked.
pub proof fn lemma_demux_clean_append(m: DemuxModel, a: Seq<u8>, b: Seq<u8>)
    requires
        demux_clean(m, a),
    ensures
        demux_run(m, a + b).0 == demux_run(demux_run(m, a).0, b).0,
        demux_run(m, a + b).1 == a.len() + demux_run(demux_run(m, a).0, b).1,
        demux_run(m, a + b).2 == demux_run(demux_run(m, a).0, b).2,
        demux_clean(demux_run(m, a).0, b) ==> demux_clean(m, a + b),
    decreases a.len(),
{
    lemma_demux_clean_consumes_all(m, a);
    if a.len() == 0 {
        assert(a + b =~= b);
    } else {
        let x = a[0];
        assert((a + b)[0] == x);
        assert((a + b).drop_first() =~= a.drop_first() + b);
        match m.st {
            BytesToDeserialize::Header0(sid) => {
                lemma_demux_clean_append(
                    DemuxModel { st: BytesToDeserialize::Header1(sid, x), ..m },
                    a.drop_first(),
                    b,
                );
            },
            BytesToDeserialize::Header1(sid, lsb) => {
                lemma_demux_clean_append(
                    DemuxModel {
                        st: BytesToDeserialize::Pending(
                            sid,
                            ((lsb as u32 | (x as u32) << 8) + 1) as u32,
                        ),
                        ..m
                    },
                    a.drop_first(),
                    b,
                );
            },
            BytesToDeserialize::Pending(sid, count) => {
                let m2 = model_push(m, sid, x);
                let m3 = if count == 1 {
                    DemuxModel { st: BytesToDeserialize::Empty, ..m2 }
                } else {
                    DemuxModel { st: BytesToDeserialize::Pending(sid, (count - 1) as u32), ..m2 }
                };
                lemma_demux_clean_append(m3, a.drop_first(), b);
            },
            BytesToDeserialize::Empty => {
                match demux_idle_step(m, x) {
                    IdleStep::Consumed(m2) => {
                        lemma_demux_clean_append(m2, a.drop_first(), b);
                    },
                    IdleStep::EofBytes => {
                        assert(false);
                    },
                    IdleStep::Malformed => {
                        assert(false);
                    },
                }
            },
        }
    }
}

/// An explicit-length frame: the three header bytes, then the payload.
pub open spec fn frame_bytes(sid: u8, payload: Seq<u8>) -> Seq<u8> {
    seq![
        sid,
        ((payload.len() - 1) % 256) as u8,
        (((payload.len() - 1) / 256) % 256) as u8,
    ] + payload
}

/// Feeding owed payload bytes routes each of them, in order, to its stream.
proof fn lemma_demux_payload(m: DemuxModel, sid: u8, count: u32, bytes: Seq<u8>)
    requires
        sid < 2,
        m.st == BytesToDeserialize::Pending(sid, count),
        !(m.eof is EofDone),
        count as int == bytes.len(),
        count >= 1,
    ensures
        demux_clean(m, bytes),
        ({
            let r = demux_run(m, bytes);
            &&& r.0.st is Empty
            &&& r.0.eof == m.eof
            &&& (sid == 0 ==> r.0.s0 == m.s0 + bytes && r.0.s1 == m.s1)
            &&& (sid == 1 ==> r.0.s1 == m.s1 + bytes && r.0.s0 == m.s0)
        }),
    decreases count,
{
    let b = bytes[0];
    let m2 = model_push(m, sid, b);
    if count == 1 {
        let m3 = DemuxModel { st: BytesToDeserialize::Empty, ..m2 };
        assert(bytes.drop_first() =~= Seq::<u8>::empty());
        assert(demux_run(m3, bytes.drop_first()) == (m3, 0int, true));
        assert(demux_clean(m3, bytes.drop_first()));
        assert(demux_run(m, bytes) == (m3, 1int, true));
        if sid == 0 {
            assert(m3.s0 =~= m.s0 + bytes);
        } else {
            assert(m3.s1 =~= m.s1 + bytes);
        }
    } else {
        let m3 = DemuxModel { st: BytesToDeserialize::Pending(sid, (count - 1) as u32), ..m2 };
        lemma_demux_payload(m3, sid, (count - 1) as u32, bytes.drop_first());
        assert(demux_run(m, bytes).0 == demux_run(m3, bytes.drop_first()).0);
        assert(demux_clean(m, bytes) == demux_clean(m3, bytes.drop_first()));
        if sid == 0 {
            assert(m.s0.push(b) + bytes.drop_first() =~= m.s0 + bytes);
        } else {
            assert(m.s1.push(b) + bytes.drop_first() =~= m.s1 + bytes);
        }
    }
}

/// One whole explicit-length frame round-trips: the demultiplexer consumes it
/// cleanly and appends exactly its payload to exactly its stream.
pub proof fn lemma_mux_frame_round_trip(m: DemuxModel, sid: u8, payload: Seq<u8>)
    requires
        sid < 2,
        m.st is Empty,
        !(m.eof is EofDone),
        1 <= payload.len() <= 65536,
    ensures
        demux_clean(m, frame_bytes(sid, payload)),
        ({
            let r = demux_run(m, frame_bytes(sid, payload));
            &&& r.2
            &&& r.1 == frame_bytes(sid, payload).len()
            &&& r.0.st is Empty
            &&& r.0.eof == m.eof
            &&& (sid == 0 ==> r.0.s0 == m.s0 + payload && r.0.s1 == m.s1)
            &&& (sid == 1 ==> r.0.s1 == m.s1 + payload && r.0.s0 == m.s0)
        }),
{
    let wire = frame_bytes(sid, payload);
    let lsb: u8 = ((payload.len() - 1) % 256) as u8;
    let msb: u8 = (((payload.len() - 1) / 256) % 256) as u8;
    assert(wire[0] == sid && wire[1] == lsb && wire[2] == msb);
    // header byte: a small stream id is no marker byte and below 16
    assert(demux_idle_step(m, sid) == IdleStep::Consumed(
        DemuxModel { st: BytesToDeserialize::Header0(sid), ..m },
    )) by {
        assert(sid & 0xf == sid && sid < 16) by (bit_vector)
            requires
                sid < 2
        ;
    }
    let m1 = DemuxModel { st: BytesToDeserialize::Header0(sid), ..m };
    let m2 = DemuxModel { st: BytesToDeserialize::Header1(sid, lsb), ..m1 };
    let count: u32 = ((lsb as u32 | (msb as u32) << 8u32) + 1) as u32;
    let m3 = DemuxModel { st: BytesToDeserialize::Pending(sid, count), ..m2 };
    // the two length bytes reassemble the payload length
    assert(count as int == payload.len()) by {
        let l = (payload.len() - 1) as int;
        assert(0 <= l < 65536);
        vstd::arithmetic::div_mod::lemma_fundamental_div_mod(l, 256);
        vstd::arithmetic::div_mod::lemma_mod_bound(l, 256);
        vstd::arithmetic::div_mod::lemma_small_mod((l / 256) as nat, 256);
        assert(lsb as int == l % 256 && msb as int == l / 256);
        assert((lsb as u32 | (msb as u32) << 8u32) == lsb as u32 + 256 * (msb as u32))
            by (bit_vector)
            requires
                lsb < 256u32 || true,
                msb as u32 <= 255u32
        ;
    }
    assert(wire.drop_first() =~= seq![lsb, msb] + payload);
    assert(wire.drop_first().drop_first() =~= seq![msb] + payload);
    assert(wire.drop_first().drop_first().drop_first() =~= payload);
    lemma_demux_payload(m3, sid, count, payload);
    lemma_demux_clean_consumes_all(m3, payload);
    // unfold the three header steps one byte at a time
    assert(wire.drop_first()[0] == lsb && wire.drop_first().drop_first()[0] == msb);
    assert(demux_run(m2, wire.drop_first().drop_first()).0 == demux_run(m3, payload).0);
    assert(demux_clean(m2, wire.drop_first().drop_first()) == demux_clean(m3, payload));
    assert(demux_run(m1, wire.drop_first()).0 == demux_run(m2, wire.drop_first().drop_first()).0);
    assert(demux_clean(m1, wire.drop_first()) == demux_clean(
        m2,
        wire.drop_first().drop_first(),
    ));
    assert(demux_run(m, wire).0 == demux_run(m1, wire.drop_first()).0);
    assert(demux_clean(m, wire) == demux_clean(m1, wire.drop_first()));
    lemma_demux_clean_consumes_all(m, wire);
}



/// The wire bytes of a chunk cut off by output exhaustion, still waiting at
/// the front of the current stream's unread span.
pub open spec fn sched_pending(m: &Mux) -> Seq<u8> {
    m.unread_of(m.cur_stream as int).take(m.cur_stream_bytes_avail as int)
}

/// Stream `i`'s bytes not yet scheduled for the wire: its unread span minus
/// any pending wire fragment sitting at its front.
pub open spec fn unsched(m: &Mux, i: int) -> Seq<u8> {
    if m.cur_stream as int == i {
        m.unread_of(i).skip(m.cur_stream_bytes_avail as int)
    } else {
        m.unread_of(i)
    }
}

/// One scheduled chunk: its stream, header bytes and payload bytes.
pub struct WireFrame {
    pub sid: u8,
    pub header: Seq<u8>,
    pub payload: Seq<u8>,
}

/// The header announces exactly `payload` for stream `sid` under the wire
/// format: an explicit 16-bit length, or one of the three fixed sizes.
pub open spec fn frame_ok(f: WireFrame) -> bool {
    &&& f.sid < 2
    &&& 1 <= f.payload.len() <= 65536
    &&& {
        ||| (f.header == seq![
            f.sid,
            ((f.payload.len() - 1) % 256) as u8,
            (((f.payload.len() - 1) / 256) % 256) as u8,
        ] && f.payload.len() <= 65536)
        ||| (f.header == seq![(f.sid + 16) as u8] && f.payload.len() == 4096)
        ||| (f.header == seq![(f.sid + 32) as u8] && f.payload.len() == 16384)
        ||| (f.header == seq![(f.sid + 48) as u8] && f.payload.len() == 65536)
    }
}

/// The wire image of a list of scheduled chunks.
pub open spec fn wframes_bytes(fr: Seq<WireFrame>) -> Seq<u8>
    decreases fr.len(),
{
    if fr.len() == 0 {
        Seq::empty()
    } else {
        fr[0].header + fr[0].payload + wframes_bytes(fr.drop_first())
    }
}

/// The payload a list of scheduled chunks takes from stream `sid`, in order.
pub open spec fn wframes_payload(fr: Seq<WireFrame>, sid: u8) -> Seq<u8>
    decreases fr.len(),
{
    if fr.len() == 0 {
        Seq::empty()
    } else {
        (if fr[0].sid == sid {
            fr[0].payload
        } else {
            Seq::empty()
        }) + wframes_payload(fr.drop_first(), sid)
    }
}

proof fn lemma_wframes_push(fr: Seq<WireFrame>, f: WireFrame)
    ensures
        wframes_bytes(fr.push(f)) == wframes_bytes(fr) + f.header + f.payload,
        forall|sid: u8|
            #[trigger] wframes_payload(fr.push(f), sid) == wframes_payload(fr, sid) + (if f.sid
                == sid {
                f.payload
            } else {
                Seq::empty()
            }),
    decreases fr.len(),
{
    if fr.len() == 0 {
        assert(fr.push(f).drop_first() =~= Seq::<WireFrame>::empty());
        assert(fr.push(f)[0] == f);
        assert(wframes_bytes(fr.push(f)) == f.header + f.payload + wframes_bytes(
            Seq::<WireFrame>::empty(),
        ));
        assert(wframes_bytes(fr.push(f)) =~= wframes_bytes(fr) + f.header + f.payload);
        assert forall|sid: u8| #[trigger] wframes_payload(fr.push(f), sid) == wframes_payload(
            fr,
            sid,
        ) + (if f.sid == sid {
            f.payload
        } else {
            Seq::empty()
        }) by {
            assert(wframes_payload(fr.push(f), sid) == (if f.sid == sid {
                f.payload
            } else {
                Seq::<u8>::empty()
            }) + wframes_payload(Seq::<WireFrame>::empty(), sid));
            assert(wframes_payload(fr.push(f), sid) =~= wframes_payload(fr, sid) + (if f.sid == sid {
                f.payload
            } else {
                Seq::<u8>::empty()
            }));
        }
    } else {
        assert(fr.push(f).drop_first() =~= fr.drop_first().push(f));
        assert(fr.push(f)[0] == fr[0]);
        lemma_wframes_push(fr.drop_first(), f);
        assert(wframes_bytes(fr.push(f)) == fr[0].header + fr[0].payload + wframes_bytes(
            fr.drop_first().push(f),
        ));
        assert(wframes_bytes(fr) == fr[0].header + fr[0].payload + wframes_bytes(fr.drop_first()));
        assert(fr[0].header + fr[0].payload + (wframes_bytes(fr.drop_first()) + f.header
            + f.payload) =~= (fr[0].header + fr[0].payload + wframes_bytes(fr.drop_first()))
            + f.header + f.payload);
        assert(wframes_bytes(fr.push(f)) =~= wframes_bytes(fr) + f.header + f.payload);
        assert forall|sid: u8| #[trigger] wframes_payload(fr.push(f), sid) == wframes_payload(
            fr,
            sid,
        ) + (if f.sid == sid {
            f.payload
        } else {
            Seq::empty()
        }) by {
            let head = if fr[0].sid == sid {
                fr[0].payload
            } else {
                Seq::<u8>::empty()
            };
            assert(wframes_payload(fr.push(f), sid) == head + wframes_payload(
                fr.drop_first().push(f),
                sid,
            ));
            assert(wframes_payload(fr, sid) == head + wframes_payload(fr.drop_first(), sid));
            assert(wframes_payload(fr.push(f), sid) =~= wframes_payload(fr, sid) + (if f.sid == sid {
                f.payload
            } else {
                Seq::<u8>::empty()
            }));
        }
    }
}

/// `fr` accounts exactly for one serializer call from `pre` to `post` that
/// wrote `written`: every frame is well formed; the wire (pending tail first,
/// then the frames) splits into the bytes written and the new pending tail;
/// and each stream's unscheduled bytes lose exactly, in order, the payloads
/// the frames took from it.
pub open spec fn transcript_matches(pre: Mux, post: Mux, written: Seq<u8>, fr: Seq<WireFrame>)
    -> bool {
    &&& (forall|k: int| 0 <= k < fr.len() ==> frame_ok(#[trigger] fr[k]))
    &&& sched_pending(&pre) + wframes_bytes(fr) == written + sched_pending(&post)
    &&& wframes_payload(fr, 0).len() <= unsched(&pre, 0).len()
    &&& wframes_payload(fr, 0) == unsched(&pre, 0).take(wframes_payload(fr, 0).len() as int)
    &&& unsched(&post, 0) == unsched(&pre, 0).skip(wframes_payload(fr, 0).len() as int)
    &&& wframes_payload(fr, 1).len() <= unsched(&pre, 1).len()
    &&& wframes_payload(fr, 1) == unsched(&pre, 1).take(wframes_payload(fr, 1).len() as int)
    &&& unsched(&post, 1) == unsched(&pre, 1).skip(wframes_payload(fr, 1).len() as int)
}

/// Some well-formed schedule accounts for the call: what the serializer wrote
/// is drawn from the streams as framed chunks and nothing else.
pub open spec fn serializer_accounted(pre: Mux, post: Mux, written: Seq<u8>) -> bool {
    exists|fr: Seq<WireFrame>| #[trigger] transcript_matches(pre, post, written, fr)
}

/// The header `get_code` picks announces exactly the payload size it returns.
proof fn lemma_get_code_frame_ok(sid: u8, bw: int, lagging: bool, payload: Seq<u8>)
    requires
        sid < 2,
        1 <= bw,
        payload.len() == get_code_spec(sid, bw, lagging).1,
    ensures
        frame_ok(WireFrame { sid, header: get_code_spec(sid, bw, lagging).0, payload }),
{
    let gc = get_code_spec(sid, bw, lagging);
    if (!lagging || bw == 4096 || bw == 16384 || bw >= 65536) && bw >= 4096 {
    } else {
        assert(gc.0 == seq![sid, ((bw - 1) % 256) as u8, (((bw - 1) / 256) % 256) as u8]);
        assert(gc.1 == bw);
        assert(bw <= 65536);
    }
}

/// `chunk_size` as a spec function.
pub open spec fn chunk_size_spec(last_flushed: int, lagging: bool) -> int {
    if lagging {
        16int
    } else if last_flushed <= 1024 {
        4096int
    } else if last_flushed <= 65536 {
        16384int
    } else {
        65536int
    }
}

/// Whether `serialize` owes stream `i` a flush right now: it holds a full
/// chunk and its counter is within the variance limit of the laggard's.
pub open spec fn stream_eligible(m: &Mux, i: int) -> bool {
    &&& m.unread_of(i).len() >= chunk_size_spec(
        m.last_flush@[i] as int,
        flush_max(m) - m.last_flush@[i] as int > MAX_FLUSH_VARIANCE as int,
    )
    &&& m.last_flush@[i] as int <= flush_min(m) + MAX_FLUSH_VARIANCE as int
}

/// The end-of-stream marker bytes still owed from a recognizer state.
pub open spec fn marker_rest(st: StreamState) -> Seq<u8> {
    match st {
        StreamState::Running => seq![0xffu8, 0xfeu8, 0xffu8],
        StreamState::EofStart => seq![0xfeu8, 0xffu8],
        StreamState::EofMid => seq![0xffu8],
        StreamState::EofDone => seq![],
    }
}

/// Accounting for a whole close call: some well-formed schedule drains the
/// streams into `written`, followed by the marker bytes the call advanced
/// past, with any cut-off tail carried over as the new pending fragment.
pub open spec fn close_transcript_matches(
    pre: Mux,
    post: Mux,
    written: Seq<u8>,
    fr: Seq<WireFrame>,
) -> bool {
    let m = marker_rest(pre.eof).len() - marker_rest(post.eof).len();
    &&& (forall|k: int| 0 <= k < fr.len() ==> frame_ok(#[trigger] fr[k]))
    &&& marker_rest(post.eof).len() <= marker_rest(pre.eof).len()
    &&& marker_rest(post.eof) == marker_rest(pre.eof).skip(m as int)
    &&& sched_pending(&pre) + wframes_bytes(fr) + marker_rest(pre.eof).take(m as int) == written
        + sched_pending(&post)
    &&& wframes_payload(fr, 0).len() <= unsched(&pre, 0).len()
    &&& wframes_payload(fr, 0) == unsched(&pre, 0).take(wframes_payload(fr, 0).len() as int)
    &&& unsched(&post, 0) == unsched(&pre, 0).skip(wframes_payload(fr, 0).len() as int)
    &&& wframes_payload(fr, 1).len() <= unsched(&pre, 1).len()
    &&& wframes_payload(fr, 1) == unsched(&pre, 1).take(wframes_payload(fr, 1).len() as int)
    &&& unsched(&post, 1) == unsched(&pre, 1).skip(wframes_payload(fr, 1).len() as int)
}

pub open spec fn close_accounted(pre: Mux, post: Mux, written: Seq<u8>) -> bool {
    exists|fr: Seq<WireFrame>| #[trigger] close_transcript_matches(pre, post, written, fr)
}

/// Taking a prefix, then a further prefix of the rest, takes one longer
/// prefix; the leftovers compose the same way.
proof fn lemma_take_skip_chain(s: Seq<u8>, a: int, b: int)
    requires
        0 <= a,
        0 <= b,
        a + b <= s.len(),
    ensures
        s.take(a) + s.skip(a).take(b) == s.take(a + b),
        s.skip(a).skip(b) == s.skip(a + b),
{
    assert(s.take(a) + s.skip(a).take(b) =~= s.take(a + b));
    assert(s.skip(a).skip(b) =~= s.skip(a + b));
}


/// Draining a cut-off tail is accounted by the empty schedule: the bytes
/// written are the front of the pending fragment and the rest stays pending.
proof fn lemma_leftover_transcript(pre: Mux, post: Mux, out_b: Seq<u8>, out: Seq<u8>, k: int)
    requires
        pre.wf(),
        out.len() == out_b.len(),
        0 <= k <= out.len(),
        k == vstd::math::min(pre.cur_stream_bytes_avail as int, out_b.len() as int),
        forall|j: int| k <= j < out.len() ==> out[j] == out_b[j],
        ({
            let b = pre.bufs@[pre.cur_stream as int];
            &&& (forall|j: int| 0 <= j < k ==> #[trigger] out[j] == b.data@[b.start + j])
            &&& post.bufs@ == pre.bufs@.update(
                pre.cur_stream as int,
                (StreamBuf { start: (b.start + k) as usize, ..b }),
            )
        }),
        post.cur_stream_bytes_avail == pre.cur_stream_bytes_avail - k,
        post.cur_stream == pre.cur_stream,
    ensures
        transcript_matches(pre, post, out.subrange(0, k), Seq::empty()),
{
    let cur = pre.cur_stream as int;
    let b = pre.bufs@[cur];
    let avail = pre.cur_stream_bytes_avail as int;
    assert(pre.bufs@[cur].wf());
    assert(post.bufs@[cur].start == b.start + k && post.bufs@[cur].end == b.end
        && post.bufs@[cur].data@ == b.data@);
    // the pending fragment splits into the bytes written and the new pending
    assert(sched_pending(&pre) =~= out.subrange(0, k) + sched_pending(&post)) by {
        assert(sched_pending(&pre).len() == avail);
        assert(sched_pending(&post).len() == avail - k);
        assert(forall|j: int|
            0 <= j < avail ==> #[trigger] sched_pending(&pre)[j] == b.data@[b.start + j]);
        assert(forall|j: int|
            0 <= j < avail - k ==> #[trigger] sched_pending(&post)[j] == b.data@[b.start + k + j]);
    }
    assert(sched_pending(&pre) + wframes_bytes(Seq::<WireFrame>::empty()) =~= out.subrange(0, k)
        + sched_pending(&post));
    // nothing was scheduled, so the unscheduled views are untouched
    assert(unsched(&post, cur) =~= unsched(&pre, cur));
    assert(unsched(&post, 1 - cur) =~= unsched(&pre, 1 - cur));
    assert(wframes_payload(Seq::<WireFrame>::empty(), 0) =~= unsched(&pre, 0).take(0));
    assert(unsched(&post, 0) =~= unsched(&pre, 0).skip(0));
    assert(wframes_payload(Seq::<WireFrame>::empty(), 1) =~= unsched(&pre, 1).take(0));
    assert(unsched(&post, 1) =~= unsched(&pre, 1).skip(0));
}

/// One chunk flush extends an accounted run by one frame: the frame's header
/// and payload join the wire, the emitted prefix grows, and the cut-off tail
/// (if any) becomes the new pending fragment.
#[verifier::rlimit(100)]
#[verifier::spinoff_prover]
proof fn lemma_flush_transcript(
    m0: Mux,
    pre: Mux,
    post: Mux,
    out_b: Seq<u8>,
    out: Seq<u8>,
    off_b: int,
    off: int,
    fr: Seq<WireFrame>,
    sid: u8,
    lagging: bool,
) -> (fr2: Seq<WireFrame>)
    requires
        sid < 2,
        pre.wf(),
        post.wf(),
        transcript_matches(m0, pre, out_b.subrange(0, off_b), fr),
        sched_pending(&pre).len() == 0,
        pre.unread_of(sid as int).len() >= 1,
        out.len() == out_b.len(),
        0 <= off_b <= off <= out.len(),
        forall|j: int| 0 <= j < out.len() && !(off_b <= j < off) ==> out[j] == out_b[j],
        ({
            let pend0 = pre.unread_of(sid as int);
            let n = post.bytes_flushed - pre.bytes_flushed;
            let gc = get_code_spec(sid, pend0.len() as int, lagging);
            let chunk = chunk_wire(sid, pend0, lagging);
            let wrote = off - off_b;
            &&& n == gc.1
            &&& 1 <= n <= pend0.len()
            &&& wrote == vstd::math::min(chunk.len() as int, out_b.len() - off_b)
            &&& (forall|j: int| 0 <= j < wrote ==> #[trigger] out[off_b + j] == chunk[j])
            &&& sched_pending(&post) == chunk.skip(wrote)
            &&& frame_ok(WireFrame { sid, header: gc.0, payload: pend0.take(n) })
            &&& unsched(&post, sid as int) == pend0.skip(n)
            &&& unsched(&post, 1 - sid as int) == pre.unread_of(1 - sid as int)
        }),
    ensures
        transcript_matches(m0, post, out.subrange(0, off), fr2),
{
    let pend0 = pre.unread_of(sid as int);
    let n = post.bytes_flushed - pre.bytes_flushed;
    let gc = get_code_spec(sid, pend0.len() as int, lagging);
    let chunk = chunk_wire(sid, pend0, lagging);
    let wrote = off - off_b;
    let f = WireFrame { sid, header: gc.0, payload: pend0.take(n) };
    let fr2 = fr.push(f);
    lemma_wframes_push(fr, f);
    assert(chunk == f.header + f.payload);
    // with nothing pending, the unscheduled view is the unread view
    assert(pre.cur_stream_bytes_avail == 0) by {
        if pre.cur_stream_bytes_avail > 0 {
            assert(sched_pending(&pre).len() > 0);
        }
    }
    assert(unsched(&pre, 0) =~= pre.unread_of(0));
    assert(unsched(&pre, 1) =~= pre.unread_of(1));
    // the written prefix grows by the chunk prefix that fit
    assert(out.subrange(0, off) =~= out_b.subrange(0, off_b) + chunk.take(wrote)) by {
        assert forall|j: int| 0 <= j < off implies out.subrange(0, off)[j] == (out_b.subrange(
            0,
            off_b,
        ) + chunk.take(wrote))[j] by {
            if j < off_b {
            } else {
                assert(out[off_b + (j - off_b)] == chunk[j - off_b]);
            }
        }
    }
    // wire conservation
    assert(chunk.take(wrote) + chunk.skip(wrote) =~= chunk);
    assert(sched_pending(&m0) + wframes_bytes(fr2) =~= out.subrange(0, off) + sched_pending(
        &post,
    )) by {
        assert(sched_pending(&m0) + wframes_bytes(fr) =~= out_b.subrange(0, off_b)
            + sched_pending(&pre));
        assert(sched_pending(&pre) =~= Seq::<u8>::empty());
        assert(sched_pending(&m0) + (wframes_bytes(fr) + f.header + f.payload) =~= (
        sched_pending(&m0) + wframes_bytes(fr)) + chunk);
    }
    // per-stream accounting: the frame's payload continues the taken prefix
    let ls = wframes_payload(fr, sid).len() as int;
    assert(wframes_payload(fr, sid) == unsched(&m0, sid as int).take(ls)) by {
        if sid == 0 {
        } else {
        }
    }
    assert(unsched(&pre, sid as int) == unsched(&m0, sid as int).skip(ls)) by {
        if sid == 0 {
        } else {
        }
    }
    assert(wframes_payload(fr, sid).len() <= unsched(&m0, sid as int).len()) by {
        if sid == 0 {
        } else {
        }
    }
    lemma_take_skip_chain(unsched(&m0, sid as int), ls, n);
    assert(pend0 == unsched(&m0, sid as int).skip(ls));
    assert(wframes_payload(fr2, sid) =~= unsched(&m0, sid as int).take(ls + n)) by {
        assert(wframes_payload(fr2, sid) == wframes_payload(fr, sid) + f.payload);
        assert(f.payload == unsched(&m0, sid as int).skip(ls).take(n));
    }
    assert(wframes_payload(fr2, sid).len() == ls + n);
    assert(unsched(&post, sid as int) == unsched(&m0, sid as int).skip(ls + n));
    // the other stream is untouched by this frame
    let other: u8 = (1 - sid) as u8;
    assert(wframes_payload(fr2, other) =~= wframes_payload(fr, other)) by {
        assert(wframes_payload(fr2, other) == wframes_payload(fr, other) + Seq::<u8>::empty());
    }
    assert(wframes_payload(fr, other) == unsched(&m0, other as int).take(
        wframes_payload(fr, other).len() as int,
    )) by {
        if sid == 0 {
        } else {
        }
    }
    assert(unsched(&pre, other as int) == unsched(&m0, other as int).skip(
        wframes_payload(fr, other).len() as int,
    )) by {
        if sid == 0 {
        } else {
        }
    }
    assert(unsched(&post, other as int) == unsched(&m0, other as int).skip(
        wframes_payload(fr, other).len() as int,
    )) by {
        assert(unsched(&post, other as int) == pre.unread_of(other as int));
        assert(unsched(&pre, other as int) =~= pre.unread_of(other as int));
    }
    if sid == 0 {
        assert(wframes_payload(fr2, 0) == unsched(&m0, 0).take(wframes_payload(fr2, 0).len() as int));
        assert(unsched(&post, 0) == unsched(&m0, 0).skip(wframes_payload(fr2, 0).len() as int));
        assert(wframes_payload(fr2, 1) == unsched(&m0, 1).take(wframes_payload(fr2, 1).len() as int));
        assert(unsched(&post, 1) == unsched(&m0, 1).skip(wframes_payload(fr2, 1).len() as int));
    } else {
        assert(wframes_payload(fr2, 1) == unsched(&m0, 1).take(wframes_payload(fr2, 1).len() as int));
        assert(unsched(&post, 1) == unsched(&m0, 1).skip(wframes_payload(fr2, 1).len() as int));
        assert(wframes_payload(fr2, 0) == unsched(&m0, 0).take(wframes_payload(fr2, 0).len() as int));
        assert(unsched(&post, 0) == unsched(&m0, 0).skip(wframes_payload(fr2, 0).len() as int));
    }
    fr2
}


/// After the drain, writing marker bytes one state step at a time keeps the
/// whole close call accounted: the wire is the drained frames followed by the
/// marker prefix the call advanced past.
proof fn lemma_close_wraps(
    m0: Mux,
    mid: Mux,
    post: Mux,
    out_fi: Seq<u8>,
    out: Seq<u8>,
    ret_fi: int,
    ret: int,
    fr: Seq<WireFrame>,
)
    requires
        transcript_matches(m0, mid, out_fi.subrange(0, ret_fi), fr),
        0 <= ret_fi <= ret <= out.len(),
        out.len() == out_fi.len(),
        forall|j: int| 0 <= j < ret_fi ==> out[j] == out_fi[j],
        mid.eof == m0.eof,
        ret_fi < out.len() ==> sched_pending(&mid).len() == 0,
        marker_rest(post.eof).len() + (ret - ret_fi) == marker_rest(mid.eof).len(),
        forall|j: int| 0 <= j < ret - ret_fi ==> #[trigger] out[ret_fi + j] == marker_rest(
            mid.eof,
        )[j],
        post.bufs@ == mid.bufs@,
        post.cur_stream == mid.cur_stream,
        post.cur_stream_bytes_avail == mid.cur_stream_bytes_avail,
    ensures
        close_transcript_matches(m0, post, out.subrange(0, ret), fr),
{
    let m = ret - ret_fi;
    // the recognizer states announce marker tails of distinct lengths, so the
    // length bookkeeping pins the state walked to
    assert(marker_rest(post.eof) =~= marker_rest(m0.eof).skip(m));
    // the pending fragment and unscheduled views ignore the recognizer state
    assert(sched_pending(&post) =~= sched_pending(&mid));
    assert(unsched(&post, 0) =~= unsched(&mid, 0));
    assert(unsched(&post, 1) =~= unsched(&mid, 1));
    // the written bytes extend the drained prefix by the marker prefix
    assert(out.subrange(0, ret) =~= out_fi.subrange(0, ret_fi) + marker_rest(m0.eof).take(m)) by {
        assert forall|j: int| 0 <= j < ret implies out.subrange(0, ret)[j] == (out_fi.subrange(
            0,
            ret_fi,
        ) + marker_rest(m0.eof).take(m))[j] by {
            if j >= ret_fi {
                assert(out[ret_fi + (j - ret_fi)] == marker_rest(mid.eof)[j - ret_fi]);
            }
        }
    }
    assert(sched_pending(&m0) + wframes_bytes(fr) + marker_rest(m0.eof).take(m) =~= out.subrange(
        0,
        ret,
    ) + sched_pending(&post)) by {
        assert(sched_pending(&m0) + wframes_bytes(fr) =~= out_fi.subrange(0, ret_fi)
            + sched_pending(&mid));
        if m == 0 {
            assert(marker_rest(m0.eof).take(0) =~= Seq::<u8>::empty());
            assert(out.subrange(0, ret) =~= out_fi.subrange(0, ret_fi));
        } else {
            // marker bytes are only written once the drain left nothing
            // pending, so the tail of the equation is empty
            assert(ret_fi < out.len());
            assert(sched_pending(&mid) =~= Seq::<u8>::empty());
        }
    }
}


/// Any well-formed frame demultiplexes cleanly: its header announces exactly
/// its payload, which lands on its stream.
proof fn lemma_wire_frame_demux(m: DemuxModel, f: WireFrame)
    requires
        frame_ok(f),
        m.st is Empty,
        !(m.eof is EofDone),
    ensures
        demux_clean(m, f.header + f.payload),
        ({
            let r = demux_run(m, f.header + f.payload);
            &&& r.2
            &&& r.1 == f.header.len() + f.payload.len()
            &&& r.0.st is Empty
            &&& r.0.eof == m.eof
            &&& (f.sid == 0 ==> r.0.s0 == m.s0 + f.payload && r.0.s1 == m.s1)
            &&& (f.sid == 1 ==> r.0.s1 == m.s1 + f.payload && r.0.s0 == m.s0)
        }),
{
    let wire = f.header + f.payload;
    if f.header.len() == 3 {
        assert(wire =~= frame_bytes(f.sid, f.payload));
        lemma_mux_frame_round_trip(m, f.sid, f.payload);
    } else {
        let b = f.header[0];
        let sid = f.sid;
        assert(wire[0] == b);
        assert(b == sid + 16 || b == sid + 32 || b == sid + 48);
        assert((b & 0xf) == sid && 16 <= b < 0x40 && b != 0xff && b != 0xfe) by (bit_vector)
            requires
                sid < 2,
                b == sid + 16 || b == sid + 32 || b == sid + 48
        ;
        let count: u32 = 1024u32 << (((b >> 4) << 1) as u32);
        assert((b == sid + 16 ==> count == 4096) && (b == sid + 32 ==> count == 16384) && (b
            == sid + 48 ==> count == 65536)) by (bit_vector)
            requires
                sid < 2,
                count == 1024u32 << (((b >> 4) << 1) as u32)
        ;
        assert(count as int == f.payload.len());
        let m1 = DemuxModel { st: BytesToDeserialize::Pending(f.sid, count), ..m };
        assert(demux_idle_step(m, b) == IdleStep::Consumed(m1));
        assert(wire.drop_first() =~= f.payload);
        lemma_demux_payload(m1, f.sid, count, f.payload);
        lemma_demux_clean_consumes_all(m1, f.payload);
    }
}

/// A list of well-formed frames demultiplexes cleanly to exactly its
/// per-stream payloads, in order.
pub proof fn lemma_wire_frames_demux(m: DemuxModel, fr: Seq<WireFrame>)
    requires
        forall|k: int| 0 <= k < fr.len() ==> frame_ok(#[trigger] fr[k]),
        m.st is Empty,
        !(m.eof is EofDone),
    ensures
        demux_clean(m, wframes_bytes(fr)),
        ({
            let r = demux_run(m, wframes_bytes(fr));
            &&& r.2
            &&& r.1 == wframes_bytes(fr).len()
            &&& r.0.st is Empty
            &&& r.0.eof == m.eof
            &&& r.0.s0 == m.s0 + wframes_payload(fr, 0)
            &&& r.0.s1 == m.s1 + wframes_payload(fr, 1)
        }),
    decreases fr.len(),
{
    if fr.len() == 0 {
        assert(m.s0 + wframes_payload(fr, 0) =~= m.s0);
        assert(m.s1 + wframes_payload(fr, 1) =~= m.s1);
    } else {
        let f = fr[0];
        let head = f.header + f.payload;
        let rest = wframes_bytes(fr.drop_first());
        assert(wframes_bytes(fr) == head + rest);
        lemma_wire_frame_demux(m, f);
        let m1 = demux_run(m, head).0;
        lemma_wire_frames_demux(m1, fr.drop_first());
        lemma_demux_clean_append(m, head, rest);
        lemma_demux_clean_consumes_all(m, head + rest);
        let r = demux_run(m, wframes_bytes(fr));
        assert(r.0 == demux_run(m1, rest).0);
        if f.sid == 0 {
            assert(m.s0 + f.payload + wframes_payload(fr.drop_first(), 0) =~= m.s0
                + wframes_payload(fr, 0));
            assert(m.s1 + wframes_payload(fr.drop_first(), 1) =~= m.s1 + wframes_payload(fr, 1));
        } else {
            assert(m.s1 + f.payload + wframes_payload(fr.drop_first(), 1) =~= m.s1
                + wframes_payload(fr, 1));
            assert(m.s0 + wframes_payload(fr.drop_first(), 0) =~= m.s0 + wframes_payload(fr, 0));
        }
    }
}

/// The muxer/demuxer round trip: whatever a fully drained, fully closed
/// serializer run wrote, a fresh demultiplexer consumes in full and recovers
/// every stream's bytes in order, ending on the end-of-stream marker. With
/// `deserialize`'s exact contract and `lemma_demux_clean_append`, the same
/// holds when the wire is fed in chunks of any size.
pub proof fn lemma_mux_round_trip(pre: Mux, post: Mux, written: Seq<u8>, m: DemuxModel)
    requires
        close_accounted(pre, post, written),
        sched_pending(&pre).len() == 0,
        pre.eof is Running,
        post.eof is EofDone,
        sched_pending(&post).len() == 0,
        unsched(&post, 0).len() == 0,
        unsched(&post, 1).len() == 0,
        m.st is Empty,
        m.eof is Running,
    ensures
        demux_run(m, written).2,
        demux_run(m, written).1 == written.len(),
        demux_run(m, written).0.eof is EofDone,
        demux_run(m, written).0.s0 == m.s0 + unsched(&pre, 0),
        demux_run(m, written).0.s1 == m.s1 + unsched(&pre, 1),
{
    let fr = choose|fr: Seq<WireFrame>| close_transcript_matches(pre, post, written, fr);
    // the drained streams pin the frame payloads to the whole stream contents
    assert(wframes_payload(fr, 0) == unsched(&pre, 0)) by {
        let l0 = wframes_payload(fr, 0).len() as int;
        assert(unsched(&pre, 0).skip(l0).len() == 0);
        assert(unsched(&pre, 0).take(l0) =~= unsched(&pre, 0));
    }
    assert(wframes_payload(fr, 1) == unsched(&pre, 1)) by {
        let l1 = wframes_payload(fr, 1).len() as int;
        assert(unsched(&pre, 1).skip(l1).len() == 0);
        assert(unsched(&pre, 1).take(l1) =~= unsched(&pre, 1));
    }
    // the wire is exactly the frames followed by the whole marker
    assert(marker_rest(pre.eof).len() == 3 && marker_rest(post.eof).len() == 0);
    assert(marker_rest(pre.eof).take(3) =~= marker_rest(pre.eof));
    assert(written =~= wframes_bytes(fr) + seq![0xffu8, 0xfeu8, 0xffu8]) by {
        assert(sched_pending(&pre) + wframes_bytes(fr) + marker_rest(pre.eof).take(3) == written
            + sched_pending(&post));
        assert(sched_pending(&pre) =~= Seq::<u8>::empty());
        assert(sched_pending(&post) =~= Seq::<u8>::empty());
        assert((written + sched_pending(&post)) =~= written);
        assert(marker_rest(pre.eof) =~= seq![0xffu8, 0xfeu8, 0xffu8]);
    }
    // frames demux to the streams, and the marker closes the run
    lemma_wire_frames_demux(m, fr);
    let body = wframes_bytes(fr);
    let marker = seq![0xffu8, 0xfeu8, 0xffu8];
    lemma_demux_clean_append(m, body, marker);
    let m1 = demux_run(m, body).0;
    assert(marker[0] == 0xff && marker[1] == 0xfe && marker[2] == 0xff);
    assert(demux_idle_step(m1, 0xff) is EofBytes);
    assert(eof_run(m1.eof, marker) == (StreamState::EofDone, 3int));
    assert(demux_run(m1, marker) == (
        DemuxModel { eof: StreamState::EofDone, ..m1 },
        3int,
        true,
    ));
}


proof fn lemma_wframes_concat(a: Seq<WireFrame>, b: Seq<WireFrame>)
    ensures
        wframes_bytes(a + b) == wframes_bytes(a) + wframes_bytes(b),
        forall|sid: u8|
            #[trigger] wframes_payload(a + b, sid) == wframes_payload(a, sid) + wframes_payload(
                b,
                sid,
            ),
    decreases a.len(),
{
    if a.len() == 0 {
        assert(a + b =~= b);
        assert(wframes_bytes(a + b) =~= wframes_bytes(a) + wframes_bytes(b));
        assert forall|sid: u8| #[trigger] wframes_payload(a + b, sid) == wframes_payload(a, sid)
            + wframes_payload(b, sid) by {
            assert(wframes_payload(a + b, sid) =~= wframes_payload(a, sid) + wframes_payload(
                b,
                sid,
            ));
        }
    } else {
        assert((a + b).drop_first() =~= a.drop_first() + b);
        assert((a + b)[0] == a[0]);
        lemma_wframes_concat(a.drop_first(), b);
        assert(wframes_bytes(a + b) == a[0].header + a[0].payload + wframes_bytes(
            a.drop_first() + b,
        ));
        assert(wframes_bytes(a + b) =~= wframes_bytes(a) + wframes_bytes(b)) by {
            assert(a[0].header + a[0].payload + (wframes_bytes(a.drop_first()) + wframes_bytes(b))
                =~= (a[0].header + a[0].payload + wframes_bytes(a.drop_first())) + wframes_bytes(
                b,
            ));
        }
        assert forall|sid: u8| #[trigger] wframes_payload(a + b, sid) == wframes_payload(a, sid)
            + wframes_payload(b, sid) by {
            let head = if a[0].sid == sid {
                a[0].payload
            } else {
                Seq::<u8>::empty()
            };
            assert(wframes_payload(a + b, sid) == head + wframes_payload(a.drop_first() + b, sid));
            assert(wframes_payload(a, sid) == head + wframes_payload(a.drop_first(), sid));
            assert(head + (wframes_payload(a.drop_first(), sid) + wframes_payload(b, sid)) =~= (
            head + wframes_payload(a.drop_first(), sid)) + wframes_payload(b, sid));
        }
    }
}

/// Serializer calls compose: two accounted calls in a row are one accounted
/// run over the concatenated output. Feeding `serialize` output buffers of
/// any sizes therefore produces the same wire, cut at different points, as
/// one call with room for everything.
pub proof fn lemma_transcript_compose(
    a: Mux,
    b: Mux,
    c: Mux,
    w1: Seq<u8>,
    w2: Seq<u8>,
    f1: Seq<WireFrame>,
    f2: Seq<WireFrame>,
)
    requires
        transcript_matches(a, b, w1, f1),
        transcript_matches(b, c, w2, f2),
    ensures
        transcript_matches(a, c, w1 + w2, f1 + f2),
{
    lemma_wframes_concat(f1, f2);
    assert forall|k: int| 0 <= k < (f1 + f2).len() implies frame_ok(#[trigger] (f1 + f2)[k]) by {
        if k < f1.len() {
            assert((f1 + f2)[k] == f1[k]);
        } else {
            assert((f1 + f2)[k] == f2[k - f1.len()]);
        }
    }
    // wire conservation chains through the middle state's pending tail
    assert(sched_pending(&a) + wframes_bytes(f1 + f2) =~= (w1 + w2) + sched_pending(&c)) by {
        assert(sched_pending(&a) + (wframes_bytes(f1) + wframes_bytes(f2)) =~= (sched_pending(&a)
            + wframes_bytes(f1)) + wframes_bytes(f2));
        assert((w1 + sched_pending(&b)) + wframes_bytes(f2) =~= w1 + (sched_pending(&b)
            + wframes_bytes(f2)));
        assert(w1 + (w2 + sched_pending(&c)) =~= (w1 + w2) + sched_pending(&c));
    }
    // per-stream prefixes chain by take/skip composition
    let l10 = wframes_payload(f1, 0).len() as int;
    let l20 = wframes_payload(f2, 0).len() as int;
    lemma_take_skip_chain(unsched(&a, 0), l10, l20);
    assert(wframes_payload(f1 + f2, 0) =~= unsched(&a, 0).take(l10 + l20)) by {
        assert(wframes_payload(f2, 0) == unsched(&b, 0).take(l20));
        assert(unsched(&b, 0) == unsched(&a, 0).skip(l10));
    }
    assert(wframes_payload(f1 + f2, 0).len() == l10 + l20);
    assert(unsched(&c, 0) == unsched(&a, 0).skip(l10 + l20));
    let l11 = wframes_payload(f1, 1).len() as int;
    let l21 = wframes_payload(f2, 1).len() as int;
    lemma_take_skip_chain(unsched(&a, 1), l11, l21);
    assert(wframes_payload(f1 + f2, 1) =~= unsched(&a, 1).take(l11 + l21)) by {
        assert(wframes_payload(f2, 1) == unsched(&b, 1).take(l21));
        assert(unsched(&b, 1) == unsched(&a, 1).skip(l11));
    }
    assert(wframes_payload(f1 + f2, 1).len() == l11 + l21);
    assert(unsched(&c, 1) == unsched(&a, 1).skip(l11 + l21));
}

} // verus!
