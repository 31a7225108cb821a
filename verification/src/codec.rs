//! The codec driver: a restartable state machine that serializes or parses an
//! ordered stream of typed commands through an arithmetic coder. Each command
//! is announced by a 4-bit type code under an adaptive distribution; the
//! flush path emits the end-of-stream code, drains and closes the coder, and
//! finishes with the eight-byte trailer `~divans~`. The per-command coders,
//! the ring-buffer recoder and the bookkeeper are outside collaborators
//! reached through the traits below.

use vstd::prelude::*;

verus! {

use crate::DivansResult;
use crate::coder::{CDF16, cdf_wf, Speed};

/// Relies on core::mem::replace: moves `src` into `*dest` and returns the
/// previous value.
pub assume_specification<T>[ core::mem::replace ](dest: &mut T, src: T) -> (r: T)
    ensures
        *final(dest) == src,
        r == *old(dest),
;

pub const CMD_BUFFER_SIZE: usize = 16;

pub const CHECKSUM_LENGTH: usize = 8;

/// The eight trailer bytes, `~divans~`.
pub open spec fn checksum_seq() -> Seq<u8> {
    seq![0x7eu8, 0x64u8, 0x69u8, 0x76u8, 0x61u8, 0x6eu8, 0x73u8, 0x7eu8]
}

/// A backward copy.
pub struct CopyCommand {
    pub distance: u32,
    pub num_bytes: u32,
}

impl CopyCommand {
    pub fn nop() -> (r: CopyCommand)
        ensures
            r.distance == 0 && r.num_bytes == 0,
    {
        CopyCommand { distance: 0, num_bytes: 0 }
    }
}

/// A static-dictionary reference.
pub struct DictCommand {
    pub word_size: u8,
    pub transform: u8,
    pub final_size: u8,
    pub empty: u8,
    pub word_id: u32,
}

impl DictCommand {
    pub fn nop() -> (r: DictCommand)
        ensures
            r.word_size == 0 && r.transform == 0 && r.final_size == 0 && r.empty == 0 && r.word_id
                == 0,
    {
        DictCommand { word_size: 0, transform: 0, final_size: 0, empty: 0, word_id: 0 }
    }
}

/// A run of literal bytes, owned.
pub struct LiteralCommand {
    pub data: Vec<u8>,
}

impl LiteralCommand {
    pub fn nop() -> (r: LiteralCommand)
        ensures
            r.data@.len() == 0,
    {
        LiteralCommand { data: Vec::new() }
    }
}

/// A block-type switch.
pub struct BlockSwitch(pub u8);

/// A literal block-type switch with its stride.
pub struct LiteralBlockSwitch {
    pub block_type: u8,
    pub stride: u8,
}

impl LiteralBlockSwitch {
    pub fn new(block_type: u8, stride: u8) -> (r: LiteralBlockSwitch)
        ensures
            r.block_type == block_type && r.stride == stride,
    {
        LiteralBlockSwitch { block_type, stride }
    }
}

/// A prediction-mode change with its context maps.
pub struct PredictionModeContextMap {
    pub literal_prediction_mode: u8,
    pub literal_context_map: Vec<u8>,
    pub distance_context_map: Vec<u8>,
}

impl PredictionModeContextMap {
    pub fn nop() -> (r: PredictionModeContextMap)
        ensures
            r.literal_prediction_mode == 0,
    {
        PredictionModeContextMap {
            literal_prediction_mode: 0,
            literal_context_map: Vec::new(),
            distance_context_map: Vec::new(),
        }
    }
}

/// One typed command of the stream.
pub enum Command {
    Copy(CopyCommand),
    Dict(DictCommand),
    Literal(LiteralCommand),
    BlockSwitchLiteral(LiteralBlockSwitch),
    BlockSwitchCommand(BlockSwitch),
    BlockSwitchDistance(BlockSwitch),
    PredictionMode(PredictionModeContextMap),
}

impl Command {
    pub fn nop() -> (r: Command)
        ensures
            r is Literal,
    {
        Command::Literal(LiteralCommand::nop())
    }
}

/// The 4-bit type code of a command; `0xf` announces the end of the stream.
pub fn command_type_to_nibble(cmd: &Command, is_end: bool) -> (r: u8)
    ensures
        r == (if is_end {
            0xfu8
        } else {
            match *cmd {
                Command::Copy(_) => 0x1u8,
                Command::Dict(_) => 0x2u8,
                Command::Literal(_) => 0x3u8,
                Command::BlockSwitchLiteral(_) => 0x4u8,
                Command::BlockSwitchCommand(_) => 0x5u8,
                Command::BlockSwitchDistance(_) => 0x6u8,
                Command::PredictionMode(_) => 0x7u8,
            }
        }),
        r == 0xf || 1 <= r <= 7,
{
    if is_end {
        return 0xf;
    }
    match *cmd {
        Command::Copy(_) => 0x1,
        Command::Dict(_) => 0x2,
        Command::Literal(_) => 0x3,
        Command::BlockSwitchLiteral(_) => 0x4,
        Command::BlockSwitchCommand(_) => 0x5,
        Command::BlockSwitchDistance(_) => 0x6,
        Command::PredictionMode(_) => 0x7,
    }
}

/// In-flight state of a copy coder.
pub struct CopyState {
    pub cc: CopyCommand,
}

/// In-flight state of a dictionary-reference coder.
pub struct DictState {
    pub dc: DictCommand,
}

/// In-flight state of a literal coder.
pub struct LiteralState {
    pub lc: LiteralCommand,
}

/// In-flight state of a block-type coder.
pub enum BlockTypeState {
    Begin,
    FullyDecoded(u8),
}

/// In-flight state of a literal block-type coder, with its stride.
pub enum LiteralBlockTypeState {
    Begin,
    FullyDecoded(u8, u8),
}

/// In-flight state of a prediction-mode coder.
pub enum PredictionModeState {
    Begin,
}

/// The driver's state: between commands, inside one command's coder, feeding
/// a finished command to the ring buffer, done, or one of the flush stages.
pub enum EncodeOrDecodeState {
    Begin,
    Literal(LiteralState),
    Dict(DictState),
    Copy(CopyState),
    BlockSwitchLiteral(LiteralBlockTypeState),
    BlockSwitchCommand(BlockTypeState),
    BlockSwitchDistance(BlockTypeState),
    PredictionMode(PredictionModeState),
    PopulateRingBuffer(Command),
    DivansSuccess,
    EncodedShutdownNode,
    ShutdownCoder,
    CoderBufferDrain,
    WriteChecksum(usize),
}

/// Whether a decoded 4-bit type code names a command kind or the end of the
/// stream; any other code can only come from a corrupted wire.
pub fn valid_command_code(code: u8) -> (r: bool)
    ensures
        r == (1 <= code <= 7 || code == 0xf),
{
    (1 <= code && code <= 7) || code == 0xf
}

/// The fresh sub-state for a decoded command-type code.
pub fn get_command_state_from_nibble(command_type_code: u8) -> (r: EncodeOrDecodeState)
    requires
        1 <= command_type_code <= 7 || command_type_code == 0xf,
    ensures
        command_type_code == 1 ==> r is Copy,
        command_type_code == 2 ==> r is Dict,
        command_type_code == 3 ==> r is Literal,
        command_type_code == 4 ==> r is BlockSwitchLiteral,
        command_type_code == 5 ==> r is BlockSwitchCommand,
        command_type_code == 6 ==> r is BlockSwitchDistance,
        command_type_code == 7 ==> r is PredictionMode,
        command_type_code == 0xf ==> r is DivansSuccess,
{
    match command_type_code {
        1 => EncodeOrDecodeState::Copy(CopyState { cc: CopyCommand::nop() }),
        2 => EncodeOrDecodeState::Dict(DictState { dc: DictCommand::nop() }),
        3 => EncodeOrDecodeState::Literal(LiteralState { lc: LiteralCommand::nop() }),
        4 => EncodeOrDecodeState::BlockSwitchLiteral(LiteralBlockTypeState::Begin),
        5 => EncodeOrDecodeState::BlockSwitchCommand(BlockTypeState::Begin),
        6 => EncodeOrDecodeState::BlockSwitchDistance(BlockTypeState::Begin),
        7 => EncodeOrDecodeState::PredictionMode(PredictionModeState::Begin),
        _ => EncodeOrDecodeState::DivansSuccess,
    }
}

/// The arithmetic coder the driver borrows for every call: it pumps its
/// bounded internal byte queue to or from the caller's buffers and codes one
/// bit or nibble at a time.
pub trait ArithmeticEncoderOrDecoder: Sized {
    fn drain_or_fill_internal_buffer(
        &mut self,
        input_buffer: &[u8],
        input_offset: &mut usize,
        output_buffer: &mut Vec<u8>,
        output_offset: &mut usize,
    ) -> (r: DivansResult)
        requires
            *old(input_offset) <= input_buffer@.len(),
            *old(output_offset) <= old(output_buffer)@.len(),
        ensures
            *old(input_offset) <= *final(input_offset) <= input_buffer@.len(),
            *old(output_offset) <= *final(output_offset) <= final(output_buffer)@.len(),
            final(output_buffer)@.len() == old(output_buffer)@.len(),
    ;

    fn get_or_put_bit_without_billing(&mut self, bit: &mut bool, prob_of_false: u8);

    fn get_or_put_nibble_without_billing<C: CDF16>(&mut self, nibble: &mut u8, prob: &C)
        requires
            *old(nibble) < 16,
            cdf_wf(prob),
        ensures
            *final(nibble) < 16,
    ;

    fn close(&mut self) -> (r: DivansResult);
}

/// What distinguishes an encoder from a decoder at the driver's level: where
/// input commands come from and whether the caller wants the original bytes
/// replayed into its output buffer.
pub trait EncoderOrDecoderSpecialization: Sized {
    fn does_caller_want_original_file_bytes(&self) -> bool;
}

/// The outside collaborators bundled: the per-command-kind coders, the
/// ring-buffer recoder, and the bookkeeper they share. Each `code_*` call
/// advances one command's coder and reports whether it finished, stalled on a
/// buffer, or failed.
pub trait CommandBackend<AC: ArithmeticEncoderOrDecoder>: Sized {
    fn code_copy(
        &mut self,
        state: &mut CopyState,
        coder: &mut AC,
        input_cmd: &Command,
        input_bytes: &[u8],
        input_offset: &mut usize,
        output_bytes: &mut Vec<u8>,
        output_offset: &mut usize,
    ) -> (r: DivansResult)
        requires
            *old(input_offset) <= input_bytes@.len(),
            *old(output_offset) <= old(output_bytes)@.len(),
        ensures
            *old(input_offset) <= *final(input_offset) <= input_bytes@.len(),
            *old(output_offset) <= *final(output_offset) <= final(output_bytes)@.len(),
            final(output_bytes)@.len() == old(output_bytes)@.len(),
    ;

    fn code_dict(
        &mut self,
        state: &mut DictState,
        coder: &mut AC,
        input_cmd: &Command,
        input_bytes: &[u8],
        input_offset: &mut usize,
        output_bytes: &mut Vec<u8>,
        output_offset: &mut usize,
    ) -> (r: DivansResult)
        requires
            *old(input_offset) <= input_bytes@.len(),
            *old(output_offset) <= old(output_bytes)@.len(),
        ensures
            *old(input_offset) <= *final(input_offset) <= input_bytes@.len(),
            *old(output_offset) <= *final(output_offset) <= final(output_bytes)@.len(),
            final(output_bytes)@.len() == old(output_bytes)@.len(),
    ;

    fn code_literal(
        &mut self,
        state: &mut LiteralState,
        coder: &mut AC,
        input_cmd: &Command,
        input_bytes: &[u8],
        input_offset: &mut usize,
        output_bytes: &mut Vec<u8>,
        output_offset: &mut usize,
    ) -> (r: DivansResult)
        requires
            *old(input_offset) <= input_bytes@.len(),
            *old(output_offset) <= old(output_bytes)@.len(),
        ensures
            *old(input_offset) <= *final(input_offset) <= input_bytes@.len(),
            *old(output_offset) <= *final(output_offset) <= final(output_bytes)@.len(),
            final(output_bytes)@.len() == old(output_bytes)@.len(),
    ;

    fn code_block_switch_literal(
        &mut self,
        state: &mut LiteralBlockTypeState,
        coder: &mut AC,
        input_cmd: &Command,
        input_bytes: &[u8],
        input_offset: &mut usize,
        output_bytes: &mut Vec<u8>,
        output_offset: &mut usize,
    ) -> (r: DivansResult)
        requires
            *old(input_offset) <= input_bytes@.len(),
            *old(output_offset) <= old(output_bytes)@.len(),
        ensures
            *old(input_offset) <= *final(input_offset) <= input_bytes@.len(),
            *old(output_offset) <= *final(output_offset) <= final(output_bytes)@.len(),
            final(output_bytes)@.len() == old(output_bytes)@.len(),
    ;

    fn code_block_switch(
        &mut self,
        state: &mut BlockTypeState,
        coder: &mut AC,
        input_cmd: &Command,
        is_distance: bool,
        input_bytes: &[u8],
        input_offset: &mut usize,
        output_bytes: &mut Vec<u8>,
        output_offset: &mut usize,
    ) -> (r: DivansResult)
        requires
            *old(input_offset) <= input_bytes@.len(),
            *old(output_offset) <= old(output_bytes)@.len(),
        ensures
            *old(input_offset) <= *final(input_offset) <= input_bytes@.len(),
            *old(output_offset) <= *final(output_offset) <= final(output_bytes)@.len(),
            final(output_bytes)@.len() == old(output_bytes)@.len(),
    ;

    fn code_prediction_mode(
        &mut self,
        state: &mut PredictionModeState,
        coder: &mut AC,
        input_cmd: &Command,
        input_bytes: &[u8],
        input_offset: &mut usize,
        output_bytes: &mut Vec<u8>,
        output_offset: &mut usize,
    ) -> (r: DivansResult)
        requires
            *old(input_offset) <= input_bytes@.len(),
            *old(output_offset) <= old(output_bytes)@.len(),
        ensures
            *old(input_offset) <= *final(input_offset) <= input_bytes@.len(),
            *old(output_offset) <= *final(output_offset) <= final(output_bytes)@.len(),
            final(output_bytes)@.len() == old(output_bytes)@.len(),
    ;

    /// Replay a finished command into the ring-buffer recoder, possibly
    /// copying original bytes into the caller's output.
    fn populate_ring_buffer(
        &mut self,
        cmd: &mut Command,
        output_bytes: &mut Vec<u8>,
        output_offset: &mut usize,
    ) -> (r: DivansResult)
        requires
            *old(output_offset) <= old(output_bytes)@.len(),
        ensures
            *old(output_offset) <= *final(output_offset) <= final(output_bytes)@.len(),
            final(output_bytes)@.len() == old(output_bytes)@.len(),
    ;

    fn obs_copy_state(&mut self);

    fn obs_dict_state(&mut self);

    fn obs_literal_state(&mut self);

    fn obs_btypel(&mut self, ltype: LiteralBlockSwitch);

    fn obs_btypec(&mut self, btype: u8);

    fn obs_btyped(&mut self, btype: u8);
}

/// Returned by `encode_or_decode_one_command`: either the command finished
/// and the caller should advance to the next one, or a buffer ran out (or a
/// terminal condition was reached) with the given status.
pub enum OneCommandReturn {
    Advance,
    BufferExhausted(DivansResult),
}

/// The codec driver.
pub struct DivansCodec<
    ArithmeticCoder: ArithmeticEncoderOrDecoder,
    Specialization: EncoderOrDecoderSpecialization,
    Cdf16: CDF16,
    Back: CommandBackend<ArithmeticCoder>,
> {
    pub coder: ArithmeticCoder,
    pub specialization: Specialization,
    pub command_type_prob: Cdf16,
    pub backend: Back,
    pub state: EncodeOrDecodeState,
}

impl<
    ArithmeticCoder: ArithmeticEncoderOrDecoder,
    Specialization: EncoderOrDecoderSpecialization,
    Cdf16: CDF16,
    Back: CommandBackend<ArithmeticCoder>,
> DivansCodec<ArithmeticCoder, Specialization, Cdf16, Back> {
    /// Whether the command-type model is fit to code with.
    pub open spec fn wf(&self) -> bool {
        cdf_wf(&self.command_type_prob)
    }

    /// Whether the driver stands inside a partially coded command or its
    /// ring-buffer replay.
    pub open spec fn in_command(&self) -> bool {
        match self.state {
            EncodeOrDecodeState::Literal(_) => true,
            EncodeOrDecodeState::Dict(_) => true,
            EncodeOrDecodeState::Copy(_) => true,
            EncodeOrDecodeState::BlockSwitchLiteral(_) => true,
            EncodeOrDecodeState::BlockSwitchCommand(_) => true,
            EncodeOrDecodeState::BlockSwitchDistance(_) => true,
            EncodeOrDecodeState::PredictionMode(_) => true,
            EncodeOrDecodeState::PopulateRingBuffer(_) => true,
            _ => false,
        }
    }

    /// Whether flushing has begun: once it has, no further command may be
    /// coded.
    pub open spec fn in_shutdown(&self) -> bool {
        match self.state {
            EncodeOrDecodeState::EncodedShutdownNode => true,
            EncodeOrDecodeState::ShutdownCoder => true,
            EncodeOrDecodeState::CoderBufferDrain => true,
            EncodeOrDecodeState::WriteChecksum(_) => true,
            _ => false,
        }
    }

    pub fn new(
        coder: ArithmeticCoder,
        specialization: Specialization,
        command_type_prob: Cdf16,
        backend: Back,
    ) -> (r: DivansCodec<ArithmeticCoder, Specialization, Cdf16, Back>)
        requires
            cdf_wf(&command_type_prob),
        ensures
            r.wf(),
            r.state is Begin,
            r.coder == coder,
            r.specialization == specialization,
            r.command_type_prob == command_type_prob,
            r.backend == backend,
    {
        DivansCodec {
            coder,
            specialization,
            command_type_prob,
            backend,
            state: EncodeOrDecodeState::Begin,
        }
    }

    /// Tear the codec down, handing the borrowed collaborators back.
    pub fn free(self) -> (r: (ArithmeticCoder, Back))
        ensures
            r.0 == self.coder,
            r.1 == self.backend,
    {
        (self.coder, self.backend)
    }

    pub fn get_coder(&self) -> (r: &ArithmeticCoder)
        ensures
            r == &self.coder,
    {
        &self.coder
    }

    pub fn coder(&mut self) -> (r: &mut ArithmeticCoder)
        ensures
            *r == old(self).coder,
            *final(self) == (DivansCodec { coder: *final(r), ..*old(self) }),
    {
        &mut self.coder
    }

    pub fn specialization(&mut self) -> (r: &mut Specialization)
        ensures
            *r == old(self).specialization,
            *final(self) == (DivansCodec { specialization: *final(r), ..*old(self) }),
    {
        &mut self.specialization
    }
}


impl<
    ArithmeticCoder: ArithmeticEncoderOrDecoder,
    Specialization: EncoderOrDecoderSpecialization,
    Cdf16: CDF16,
    Back: CommandBackend<ArithmeticCoder>,
> DivansCodec<ArithmeticCoder, Specialization, Cdf16, Back> {
    /// Rank of a state on the path Begin -> command -> ring buffer -> done,
    /// used to show each call makes progress.
    pub open spec fn state_rank(&self) -> int {
        match self.state {
            EncodeOrDecodeState::Begin => 3,
            EncodeOrDecodeState::PopulateRingBuffer(_) => 1,
            EncodeOrDecodeState::DivansSuccess => 0,
            EncodeOrDecodeState::EncodedShutdownNode => 0,
            EncodeOrDecodeState::ShutdownCoder => 0,
            EncodeOrDecodeState::CoderBufferDrain => 0,
            EncodeOrDecodeState::WriteChecksum(_) => 0,
            _ => 2,
        }
    }

    /// Code one command boundary: pump the coder, code the command-type
    /// nibble, drive the selected command's coder, and replay the finished
    /// command into the ring buffer. Once flushing has begun the call is a
    /// protocol error and fails without touching anything.
    pub fn encode_or_decode_one_command(
        &mut self,
        input_bytes: &[u8],
        input_bytes_offset: &mut usize,
        output_bytes: &mut Vec<u8>,
        output_bytes_offset: &mut usize,
        input_cmd: &Command,
        is_end: bool,
    ) -> (r: OneCommandReturn)
        requires
            old(self).wf(),
            *old(input_bytes_offset) <= input_bytes@.len(),
            *old(output_bytes_offset) <= old(output_bytes)@.len(),
        ensures
            final(self).wf(),
            *old(input_bytes_offset) <= *final(input_bytes_offset) <= input_bytes@.len(),
            *old(output_bytes_offset) <= *final(output_bytes_offset) <= final(output_bytes)@.len(),
            final(output_bytes)@.len() == old(output_bytes)@.len(),
            old(self).in_shutdown() ==> r == OneCommandReturn::BufferExhausted(
                DivansResult::Failure,
            ) && final(self).state == old(self).state && *final(input_bytes_offset) == *old(
                input_bytes_offset,
            ) && *final(output_bytes_offset) == *old(output_bytes_offset) && final(output_bytes)@
                == old(output_bytes)@,
            old(self).state is DivansSuccess ==> r == OneCommandReturn::BufferExhausted(
                DivansResult::Success,
            ) && final(self).state == old(self).state && *final(input_bytes_offset) == *old(
                input_bytes_offset,
            ) && *final(output_bytes_offset) == *old(output_bytes_offset) && final(output_bytes)@
                == old(output_bytes)@,
            r is Advance ==> final(self).state is Begin,
    {
        loop
            invariant
                self.wf(),
                *old(input_bytes_offset) <= *input_bytes_offset <= input_bytes@.len(),
                *old(output_bytes_offset) <= *output_bytes_offset <= output_bytes@.len(),
                output_bytes@.len() == old(output_bytes)@.len(),
                old(self).in_shutdown() ==> self.state == old(self).state
                    && *input_bytes_offset == *old(input_bytes_offset) && *output_bytes_offset
                    == *old(output_bytes_offset) && output_bytes@ == old(output_bytes)@,
                old(self).state is DivansSuccess ==> self.state == old(self).state
                    && *input_bytes_offset == *old(input_bytes_offset) && *output_bytes_offset
                    == *old(output_bytes_offset) && output_bytes@ == old(output_bytes)@,
                !(old(self).in_shutdown()) ==> !self.in_shutdown(),
            decreases self.state_rank(),
        {
            let ghost rank0 = self.state_rank();
            let cur_state = core::mem::replace(&mut self.state, EncodeOrDecodeState::Begin);
            match cur_state {
                EncodeOrDecodeState::EncodedShutdownNode => {
                    self.state = EncodeOrDecodeState::EncodedShutdownNode;
                    return OneCommandReturn::BufferExhausted(DivansResult::Failure);
                },
                EncodeOrDecodeState::ShutdownCoder => {
                    self.state = EncodeOrDecodeState::ShutdownCoder;
                    return OneCommandReturn::BufferExhausted(DivansResult::Failure);
                },
                EncodeOrDecodeState::CoderBufferDrain => {
                    self.state = EncodeOrDecodeState::CoderBufferDrain;
                    return OneCommandReturn::BufferExhausted(DivansResult::Failure);
                },
                EncodeOrDecodeState::WriteChecksum(c) => {
                    self.state = EncodeOrDecodeState::WriteChecksum(c);
                    return OneCommandReturn::BufferExhausted(DivansResult::Failure);
                },
                EncodeOrDecodeState::DivansSuccess => {
                    self.state = EncodeOrDecodeState::DivansSuccess;
                    return OneCommandReturn::BufferExhausted(DivansResult::Success);
                },
                EncodeOrDecodeState::Begin => {
                    match self.coder.drain_or_fill_internal_buffer(
                        input_bytes,
                        input_bytes_offset,
                        output_bytes,
                        output_bytes_offset,
                    ) {
                        DivansResult::Success => {},
                        need_something => {
                            return OneCommandReturn::BufferExhausted(need_something);
                        },
                    }
                    let mut command_type_code = command_type_to_nibble(input_cmd, is_end);
                    self.coder.get_or_put_nibble_without_billing(
                        &mut command_type_code,
                        &self.command_type_prob,
                    );
                    self.command_type_prob.blend(command_type_code, Speed::ROCKET);
                    if !valid_command_code(command_type_code) {
                        // a corrupt stream decoded an unassigned type code
                        return OneCommandReturn::BufferExhausted(DivansResult::Failure);
                    }
                    let command_state = get_command_state_from_nibble(command_type_code);
                    match command_state {
                        EncodeOrDecodeState::Copy(_) => {
                            self.backend.obs_copy_state();
                        },
                        EncodeOrDecodeState::Dict(_) => {
                            self.backend.obs_dict_state();
                        },
                        EncodeOrDecodeState::Literal(_) => {
                            self.backend.obs_literal_state();
                        },
                        _ => {},
                    }
                    self.state = command_state;
                    proof {
                        assert(self.state_rank() < rank0);
                    }
                },
                EncodeOrDecodeState::PredictionMode(prediction_mode_state) => {
                    let mut st = prediction_mode_state;
                    let res = self.backend.code_prediction_mode(
                        &mut st,
                        &mut self.coder,
                        input_cmd,
                        input_bytes,
                        input_bytes_offset,
                        output_bytes,
                        output_bytes_offset,
                    );
                    match res {
                        DivansResult::Success => {
                            self.state = EncodeOrDecodeState::Begin;
                            return OneCommandReturn::Advance;
                        },
                        retval => {
                            self.state = EncodeOrDecodeState::PredictionMode(st);
                            return OneCommandReturn::BufferExhausted(retval);
                        },
                    }
                },
                EncodeOrDecodeState::BlockSwitchLiteral(block_type_state) => {
                    let mut st = block_type_state;
                    let res = self.backend.code_block_switch_literal(
                        &mut st,
                        &mut self.coder,
                        input_cmd,
                        input_bytes,
                        input_bytes_offset,
                        output_bytes,
                        output_bytes_offset,
                    );
                    match res {
                        DivansResult::Success => {
                            match st {
                                LiteralBlockTypeState::FullyDecoded(btype, stride) => {
                                    self.backend.obs_btypel(LiteralBlockSwitch::new(btype, stride));
                                    self.state = EncodeOrDecodeState::Begin;
                                    return OneCommandReturn::Advance;
                                },
                                _ => {
                                    // the collaborator reported success without a decoded type
                                    self.state = EncodeOrDecodeState::BlockSwitchLiteral(st);
                                    return OneCommandReturn::BufferExhausted(DivansResult::Failure);
                                },
                            }
                        },
                        retval => {
                            self.state = EncodeOrDecodeState::BlockSwitchLiteral(st);
                            return OneCommandReturn::BufferExhausted(retval);
                        },
                    }
                },
                EncodeOrDecodeState::BlockSwitchCommand(block_type_state) => {
                    let mut st = block_type_state;
                    let res = self.backend.code_block_switch(
                        &mut st,
                        &mut self.coder,
                        input_cmd,
                        false,
                        input_bytes,
                        input_bytes_offset,
                        output_bytes,
                        output_bytes_offset,
                    );
                    match res {
                        DivansResult::Success => {
                            match st {
                                BlockTypeState::FullyDecoded(btype) => {
                                    self.backend.obs_btypec(btype);
                                    self.state = EncodeOrDecodeState::Begin;
                                    return OneCommandReturn::Advance;
                                },
                                _ => {
                                    self.state = EncodeOrDecodeState::BlockSwitchCommand(st);
                                    return OneCommandReturn::BufferExhausted(DivansResult::Failure);
                                },
                            }
                        },
                        retval => {
                            self.state = EncodeOrDecodeState::BlockSwitchCommand(st);
                            return OneCommandReturn::BufferExhausted(retval);
                        },
                    }
                },
                EncodeOrDecodeState::BlockSwitchDistance(block_type_state) => {
                    let mut st = block_type_state;
                    let res = self.backend.code_block_switch(
                        &mut st,
                        &mut self.coder,
                        input_cmd,
                        true,
                        input_bytes,
                        input_bytes_offset,
                        output_bytes,
                        output_bytes_offset,
                    );
                    match res {
                        DivansResult::Success => {
                            match st {
                                BlockTypeState::FullyDecoded(btype) => {
                                    self.backend.obs_btyped(btype);
                                    self.state = EncodeOrDecodeState::Begin;
                                    return OneCommandReturn::Advance;
                                },
                                _ => {
                                    self.state = EncodeOrDecodeState::BlockSwitchDistance(st);
                                    return OneCommandReturn::BufferExhausted(DivansResult::Failure);
                                },
                            }
                        },
                        retval => {
                            self.state = EncodeOrDecodeState::BlockSwitchDistance(st);
                            return OneCommandReturn::BufferExhausted(retval);
                        },
                    }
                },
                EncodeOrDecodeState::Copy(copy_state) => {
                    let mut st = copy_state;
                    let res = self.backend.code_copy(
                        &mut st,
                        &mut self.coder,
                        input_cmd,
                        input_bytes,
                        input_bytes_offset,
                        output_bytes,
                        output_bytes_offset,
                    );
                    match res {
                        DivansResult::Success => {
                            let cc = st.cc;
                            self.state = EncodeOrDecodeState::PopulateRingBuffer(
                                Command::Copy(cc),
                            );
                            proof {
                                assert(self.state_rank() < rank0);
                            }
                        },
                        retval => {
                            self.state = EncodeOrDecodeState::Copy(st);
                            return OneCommandReturn::BufferExhausted(retval);
                        },
                    }
                },
                EncodeOrDecodeState::Literal(lit_state) => {
                    let mut st = lit_state;
                    let res = self.backend.code_literal(
                        &mut st,
                        &mut self.coder,
                        input_cmd,
                        input_bytes,
                        input_bytes_offset,
                        output_bytes,
                        output_bytes_offset,
                    );
                    match res {
                        DivansResult::Success => {
                            let lc = st.lc;
                            self.state = EncodeOrDecodeState::PopulateRingBuffer(
                                Command::Literal(lc),
                            );
                            proof {
                                assert(self.state_rank() < rank0);
                            }
                        },
                        retval => {
                            self.state = EncodeOrDecodeState::Literal(st);
                            return OneCommandReturn::BufferExhausted(retval);
                        },
                    }
                },
                EncodeOrDecodeState::Dict(dict_state) => {
                    let mut st = dict_state;
                    let res = self.backend.code_dict(
                        &mut st,
                        &mut self.coder,
                        input_cmd,
                        input_bytes,
                        input_bytes_offset,
                        output_bytes,
                        output_bytes_offset,
                    );
                    match res {
                        DivansResult::Success => {
                            let dc = st.dc;
                            self.state = EncodeOrDecodeState::PopulateRingBuffer(
                                Command::Dict(dc),
                            );
                            proof {
                                assert(self.state_rank() < rank0);
                            }
                        },
                        retval => {
                            self.state = EncodeOrDecodeState::Dict(st);
                            return OneCommandReturn::BufferExhausted(retval);
                        },
                    }
                },
                EncodeOrDecodeState::PopulateRingBuffer(o_cmd) => {
                    let mut cmd = o_cmd;
                    self.state = EncodeOrDecodeState::Begin;
                    let res = self.backend.populate_ring_buffer(
                        &mut cmd,
                        output_bytes,
                        output_bytes_offset,
                    );
                    match res {
                        DivansResult::NeedsMoreInput => {
                            // the recoder never asks for input
                            self.state = EncodeOrDecodeState::PopulateRingBuffer(cmd);
                            return OneCommandReturn::BufferExhausted(DivansResult::Failure);
                        },
                        DivansResult::NeedsMoreOutput => {
                            // yield to the caller, which resumes in this state
                            self.state = EncodeOrDecodeState::PopulateRingBuffer(cmd);
                            return OneCommandReturn::BufferExhausted(DivansResult::NeedsMoreOutput);
                        },
                        DivansResult::Failure => {
                            self.state = EncodeOrDecodeState::PopulateRingBuffer(cmd);
                            return OneCommandReturn::BufferExhausted(DivansResult::Failure);
                        },
                        DivansResult::Success => {
                            match cmd {
                                Command::Literal(ref mut l) => {
                                    // the replayed literal's bytes are no longer needed
                                    l.data = Vec::new();
                                },
                                _ => {},
                            }
                            self.state = EncodeOrDecodeState::Begin;
                            return OneCommandReturn::Advance;
                        },
                    }
                },
            }
        }
    }

    /// Code a run of commands until a buffer runs out; on the encoder side
    /// `input_commands[*input_command_offset..]` supplies them, and the offset
    /// advances past every finished command.
    pub fn encode_or_decode(
        &mut self,
        input_bytes: &[u8],
        input_bytes_offset: &mut usize,
        output_bytes: &mut Vec<u8>,
        output_bytes_offset: &mut usize,
        input_commands: &[Command],
        input_command_offset: &mut usize,
    ) -> (r: DivansResult)
        requires
            old(self).wf(),
            *old(input_bytes_offset) <= input_bytes@.len(),
            *old(output_bytes_offset) <= old(output_bytes)@.len(),
            *old(input_command_offset) <= input_commands@.len(),
        ensures
            final(self).wf(),
            *old(input_bytes_offset) <= *final(input_bytes_offset) <= input_bytes@.len(),
            *old(output_bytes_offset) <= *final(output_bytes_offset) <= final(output_bytes)@.len(),
            final(output_bytes)@.len() == old(output_bytes)@.len(),
            *old(input_command_offset) <= *final(input_command_offset) <= input_commands@.len(),
            // completing the last supplied command is reported as needing more
            *old(input_command_offset) < input_commands@.len() && *final(input_command_offset)
                == input_commands@.len() ==> r is NeedsMoreInput,
    {
        let i_cmd_backing = Command::nop();
        loop
            invariant
                self.wf(),
                *old(input_bytes_offset) <= *input_bytes_offset <= input_bytes@.len(),
                *old(output_bytes_offset) <= *output_bytes_offset <= output_bytes@.len(),
                output_bytes@.len() == old(output_bytes)@.len(),
                *old(input_command_offset) <= *input_command_offset <= input_commands@.len(),
                *old(input_command_offset) < input_commands@.len() ==> *input_command_offset
                    < input_commands@.len(),
            decreases (input_commands@.len() - *input_command_offset) + (input_bytes@.len()
                - *input_bytes_offset) + (output_bytes@.len() - *output_bytes_offset),
        {
            let in_before = *input_bytes_offset;
            let out_before = *output_bytes_offset;
            let in_cmd: &Command = if *input_command_offset < input_commands.len() {
                &input_commands[*input_command_offset]
            } else {
                &i_cmd_backing
            };
            match self.encode_or_decode_one_command(
                input_bytes,
                input_bytes_offset,
                output_bytes,
                output_bytes_offset,
                in_cmd,
                false,
            ) {
                OneCommandReturn::Advance => {
                    if *input_command_offset < input_commands.len() {
                        *input_command_offset = *input_command_offset + 1;
                        if input_commands.len() <= *input_command_offset {
                            return DivansResult::NeedsMoreInput;
                        }
                    } else {
                        // no further source commands: continue only while the
                        // buffers are moving, else ask the caller to call again
                        if *input_bytes_offset == in_before && *output_bytes_offset == out_before {
                            return DivansResult::NeedsMoreInput;
                        }
                    }
                },
                OneCommandReturn::BufferExhausted(result) => {
                    return result;
                },
            }
        }
    }

    /// Rank of a flush stage, for progress.
    pub open spec fn flush_rank(&self) -> int {
        match self.state {
            EncodeOrDecodeState::Begin => 5,
            EncodeOrDecodeState::EncodedShutdownNode => 4,
            EncodeOrDecodeState::ShutdownCoder => 3,
            EncodeOrDecodeState::CoderBufferDrain => 2,
            EncodeOrDecodeState::WriteChecksum(_) => 1,
            _ => 0,
        }
    }

    /// Finish an encode: emit the end-of-stream code, drain and close the
    /// coder, then write the eight-byte trailer. Resumable on every byte of
    /// output; once the state says done, further calls write nothing and
    /// report success. Flushing during a partially coded command fails.
    pub fn flush(&mut self, output_bytes: &mut Vec<u8>, output_bytes_offset: &mut usize) -> (r:
        DivansResult)
        requires
            old(self).wf(),
            *old(output_bytes_offset) <= old(output_bytes)@.len(),
        ensures
            final(self).wf(),
            *old(output_bytes_offset) <= *final(output_bytes_offset) <= final(output_bytes)@.len(),
            final(output_bytes)@.len() == old(output_bytes)@.len(),
            r is Success ==> final(self).state is DivansSuccess,
            old(self).state is DivansSuccess ==> r is Success && *final(output_bytes_offset)
                == *old(output_bytes_offset) && final(output_bytes)@ == old(output_bytes)@,
            old(self).in_command() ==> r is Failure && final(self).state == old(self).state
                && *final(output_bytes_offset) == *old(output_bytes_offset) && final(output_bytes)@ == old(output_bytes)@,
            ({
                // the trailer stage needs no collaborator: it writes whatever
                // fits and succeeds exactly when the whole rest of the trailer
                // fits
                forall|c: usize|
                    old(self).state == EncodeOrDecodeState::WriteChecksum(c) && c <= 8 ==> {
                        let space = old(output_bytes)@.len() - *old(output_bytes_offset);
                        &&& *final(output_bytes_offset) - *old(output_bytes_offset)
                            == vstd::math::min(8 - c, space)
                        &&& (8 - c <= space ==> r is Success)
                        &&& (8 - c > space ==> r is NeedsMoreOutput)
                    }
            }),
            ({
                // the trailer: a flush that starts at or before the checksum
                // stage and succeeds ends with `~divans~`
                &&& (old(self).state is WriteChecksum ==> (forall|j: int|
                    *old(output_bytes_offset) <= j < *final(output_bytes_offset)
                        ==> final(output_bytes)@[j] == checksum_seq()[
                        old(self).state->WriteChecksum_0 + (j - *old(output_bytes_offset))
                    ]))
                &&& ((r is Success && !(old(self).state is DivansSuccess) && !(old(self).state
                    is WriteChecksum)) ==> *final(output_bytes_offset) >= 8 && (forall|j: int|
                    0 <= j < 8 ==> final(output_bytes)@[*final(output_bytes_offset) - 8 + j]
                        == checksum_seq()[j]))
            }),
    {
        loop
            invariant
                self.wf(),
                *old(output_bytes_offset) <= *output_bytes_offset <= output_bytes@.len(),
                output_bytes@.len() == old(output_bytes)@.len(),
                old(self).state is DivansSuccess ==> self.state is DivansSuccess
                    && *output_bytes_offset == *old(output_bytes_offset) && output_bytes@ == old(
                    output_bytes,
                )@,
                old(self).state is WriteChecksum ==> self.state == old(self).state
                    && *output_bytes_offset == *old(output_bytes_offset) && output_bytes@ == old(
                    output_bytes,
                )@,
                old(self).in_command() ==> self.state == old(self).state && *output_bytes_offset
                    == *old(output_bytes_offset) && output_bytes@ == old(output_bytes)@,
                !(old(self).state is DivansSuccess) ==> !(self.state is DivansSuccess),
                (!(old(self).state is WriteChecksum) && self.state is WriteChecksum)
                    ==> self.state->WriteChecksum_0 == 0,
            decreases self.flush_rank(),
        {
            let cur_state = core::mem::replace(&mut self.state, EncodeOrDecodeState::Begin);
            match cur_state {
                EncodeOrDecodeState::Begin => {
                    let mut unused: usize = 0;
                    let nop = Command::nop();
                    match self.encode_or_decode_one_command(
                        &[],
                        &mut unused,
                        output_bytes,
                        output_bytes_offset,
                        &nop,
                        true,
                    ) {
                        OneCommandReturn::BufferExhausted(res) => {
                            match res {
                                DivansResult::Success => {},
                                need => {
                                    return need;
                                },
                            }
                        },
                        OneCommandReturn::Advance => {
                            return DivansResult::Failure;
                        },
                    }
                    self.state = EncodeOrDecodeState::EncodedShutdownNode;
                },
                EncodeOrDecodeState::EncodedShutdownNode => {
                    let mut unused: usize = 0;
                    match self.coder.drain_or_fill_internal_buffer(
                        &[],
                        &mut unused,
                        output_bytes,
                        output_bytes_offset,
                    ) {
                        DivansResult::Success => {
                            self.state = EncodeOrDecodeState::ShutdownCoder;
                        },
                        ret => {
                            return ret;
                        },
                    }
                },
                EncodeOrDecodeState::ShutdownCoder => {
                    match self.coder.close() {
                        DivansResult::Success => {
                            self.state = EncodeOrDecodeState::CoderBufferDrain;
                        },
                        ret => {
                            return ret;
                        },
                    }
                },
                EncodeOrDecodeState::CoderBufferDrain => {
                    let mut unused: usize = 0;
                    match self.coder.drain_or_fill_internal_buffer(
                        &[],
                        &mut unused,
                        output_bytes,
                        output_bytes_offset,
                    ) {
                        DivansResult::Success => {
                            self.state = EncodeOrDecodeState::WriteChecksum(0);
                        },
                        ret => {
                            return ret;
                        },
                    }
                },
                EncodeOrDecodeState::WriteChecksum(count) => {
                    let checksum: [u8; 8] = [0x7e, 0x64, 0x69, 0x76, 0x61, 0x6e, 0x73, 0x7e];
                    if count > CHECKSUM_LENGTH {
                        return DivansResult::Failure;
                    }
                    let bytes_remaining = output_bytes.len() - *output_bytes_offset;
                    let bytes_needed = CHECKSUM_LENGTH - count;
                    let count_to_copy = if bytes_remaining < bytes_needed {
                        bytes_remaining
                    } else {
                        bytes_needed
                    };
                    let ghost out0 = *output_bytes_offset;
                    let ghost data0 = output_bytes@;
                    let olen = output_bytes.len();
                    let mut k: usize = 0;
                    while k < count_to_copy
                        invariant
                            count + count_to_copy <= 8,
                            out0 + count_to_copy <= olen,
                            olen == output_bytes@.len(),
                            out0 == *output_bytes_offset,
                            0 <= k <= count_to_copy,
                            checksum@ == checksum_seq(),
                            output_bytes@.len() == data0.len(),
                            forall|j: int|
                                0 <= j < output_bytes@.len() && !(out0 <= j < out0 + k)
                                    ==> output_bytes@[j] == data0[j],
                            forall|j: int|
                                0 <= j < k ==> #[trigger] output_bytes@[out0 + j] == checksum_seq()[
                                    count + j
                                ],
                        decreases count_to_copy - k,
                    {
                        let v = checksum[count + k];
                        let pos = *output_bytes_offset + k;
                        proof {
                            assert(checksum@[count + k] == checksum_seq()[count as int + k as int]);
                        }
                        output_bytes[pos] = v;
                        k = k + 1;
                    }
                    proof {
                        assert forall|j: int| out0 <= j < out0 + count_to_copy implies
                            output_bytes@[j] == checksum_seq()[count + (j - out0)] by {
                            assert(output_bytes@[out0 + (j - out0)] == checksum_seq()[
                                count + (j - out0)
                            ]);
                        }
                    }
                    *output_bytes_offset = *output_bytes_offset + count_to_copy;
                    if bytes_needed <= bytes_remaining {
                        self.state = EncodeOrDecodeState::DivansSuccess;
                        return DivansResult::Success;
                    } else {
                        self.state = EncodeOrDecodeState::WriteChecksum(count + count_to_copy);
                        return DivansResult::NeedsMoreOutput;
                    }
                },
                EncodeOrDecodeState::DivansSuccess => {
                    self.state = EncodeOrDecodeState::DivansSuccess;
                    return DivansResult::Success;
                },
                other => {
                    // flushing while a command is partially coded is a protocol error
                    self.state = other;
                    return DivansResult::Failure;
                },
            }
        }
    }
}


} // verus!
