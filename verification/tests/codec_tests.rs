use divans::codec::{
    command_type_to_nibble, get_command_state_from_nibble, ArithmeticEncoderOrDecoder,
    BlockSwitch, BlockTypeState, Command, CommandBackend, CopyCommand, CopyState, DictCommand,
    DictState, DivansCodec, EncodeOrDecodeState, EncoderOrDecoderSpecialization,
    LiteralBlockTypeState, LiteralCommand, LiteralState, LiteralBlockSwitch,
    OneCommandReturn, PredictionModeContextMap, PredictionModeState,
};
use divans::coder::{CDF16, FrequentistCDF16};
use divans::queue::{fill_queue_from_slice, ByteQueue, RegisterQueue};
use divans::DivansResult;

#[test]
fn command_nibbles() {
    assert_eq!(command_type_to_nibble(&Command::Copy(CopyCommand::nop()), false), 1);
    assert_eq!(command_type_to_nibble(&Command::Dict(DictCommand::nop()), false), 2);
    assert_eq!(command_type_to_nibble(&Command::Literal(LiteralCommand::nop()), false), 3);
    assert_eq!(
        command_type_to_nibble(&Command::BlockSwitchLiteral(LiteralBlockSwitch::new(0, 0)), false),
        4
    );
    assert_eq!(command_type_to_nibble(&Command::BlockSwitchCommand(BlockSwitch(0)), false), 5);
    assert_eq!(command_type_to_nibble(&Command::BlockSwitchDistance(BlockSwitch(0)), false), 6);
    assert_eq!(
        command_type_to_nibble(&Command::PredictionMode(PredictionModeContextMap::nop()), false),
        7
    );
    assert_eq!(command_type_to_nibble(&Command::Copy(CopyCommand::nop()), true), 0xf);
    assert!(matches!(get_command_state_from_nibble(1), EncodeOrDecodeState::Copy(_)));
    assert!(matches!(get_command_state_from_nibble(0xf), EncodeOrDecodeState::DivansSuccess));
}

#[test]
fn register_queue_round_trip() {
    let mut q = RegisterQueue::default();
    assert_eq!(q.num_push_bytes_avail(), 8);
    assert_eq!(q.num_pop_bytes_avail(), 0);
    let pushed = q.push_data(&[1, 2, 3, 4, 5]);
    assert_eq!(pushed, 5);
    assert_eq!(q.num_pop_bytes_avail(), 5);
    let pushed2 = q.push_data(&[6, 7, 8, 9]);
    assert_eq!(pushed2, 3);
    let mut out = vec![0u8; 6];
    let popped = q.pop_data(&mut out);
    assert_eq!(popped, 6);
    assert_eq!(&out[..], &[1, 2, 3, 4, 5, 6]);
    let mut rest = vec![0u8; 8];
    let popped2 = q.pop_data(&mut rest);
    assert_eq!(popped2, 2);
    assert_eq!(&rest[0..2], &[7, 8]);
}

/// A coder that never buffers anything and always hands the decoder the
/// end-of-stream code.
struct NullCoder {
    decode_eos: bool,
}

impl ArithmeticEncoderOrDecoder for NullCoder {
    fn drain_or_fill_internal_buffer(
        &mut self,
        _input_buffer: &[u8],
        _input_offset: &mut usize,
        _output_buffer: &mut Vec<u8>,
        _output_offset: &mut usize,
    ) -> DivansResult {
        DivansResult::Success
    }

    fn get_or_put_bit_without_billing(&mut self, _bit: &mut bool, _prob_of_false: u8) {
    }

    fn get_or_put_nibble_without_billing<C: CDF16>(&mut self, nibble: &mut u8, _prob: &C) {
        if self.decode_eos {
            *nibble = 0xf;
        }
    }

    fn close(&mut self) -> DivansResult {
        DivansResult::Success
    }
}

struct PlainSpecialization {}

impl EncoderOrDecoderSpecialization for PlainSpecialization {
    fn does_caller_want_original_file_bytes(&self) -> bool {
        false
    }
}

/// A backend whose command coders are never reached.
struct NullBackend {}

impl CommandBackend<NullCoder> for NullBackend {
    fn code_copy(
        &mut self,
        _state: &mut CopyState,
        _coder: &mut NullCoder,
        _input_cmd: &Command,
        _input_bytes: &[u8],
        _input_offset: &mut usize,
        _output_bytes: &mut Vec<u8>,
        _output_offset: &mut usize,
    ) -> DivansResult {
        DivansResult::Failure
    }

    fn code_dict(
        &mut self,
        _state: &mut DictState,
        _coder: &mut NullCoder,
        _input_cmd: &Command,
        _input_bytes: &[u8],
        _input_offset: &mut usize,
        _output_bytes: &mut Vec<u8>,
        _output_offset: &mut usize,
    ) -> DivansResult {
        DivansResult::Failure
    }

    fn code_literal(
        &mut self,
        _state: &mut LiteralState,
        _coder: &mut NullCoder,
        _input_cmd: &Command,
        _input_bytes: &[u8],
        _input_offset: &mut usize,
        _output_bytes: &mut Vec<u8>,
        _output_offset: &mut usize,
    ) -> DivansResult {
        DivansResult::Failure
    }

    fn code_block_switch_literal(
        &mut self,
        _state: &mut LiteralBlockTypeState,
        _coder: &mut NullCoder,
        _input_cmd: &Command,
        _input_bytes: &[u8],
        _input_offset: &mut usize,
        _output_bytes: &mut Vec<u8>,
        _output_offset: &mut usize,
    ) -> DivansResult {
        DivansResult::Failure
    }

    fn code_block_switch(
        &mut self,
        _state: &mut BlockTypeState,
        _coder: &mut NullCoder,
        _input_cmd: &Command,
        _is_distance: bool,
        _input_bytes: &[u8],
        _input_offset: &mut usize,
        _output_bytes: &mut Vec<u8>,
        _output_offset: &mut usize,
    ) -> DivansResult {
        DivansResult::Failure
    }

    fn code_prediction_mode(
        &mut self,
        _state: &mut PredictionModeState,
        _coder: &mut NullCoder,
        _input_cmd: &Command,
        _input_bytes: &[u8],
        _input_offset: &mut usize,
        _output_bytes: &mut Vec<u8>,
        _output_offset: &mut usize,
    ) -> DivansResult {
        DivansResult::Failure
    }

    fn populate_ring_buffer(
        &mut self,
        _cmd: &mut Command,
        _output_bytes: &mut Vec<u8>,
        _output_offset: &mut usize,
    ) -> DivansResult {
        DivansResult::Success
    }

    fn obs_copy_state(&mut self) {
    }

    fn obs_dict_state(&mut self) {
    }

    fn obs_literal_state(&mut self) {
    }

    fn obs_btypel(&mut self, _ltype: LiteralBlockSwitch) {
    }

    fn obs_btypec(&mut self, _btype: u8) {
    }

    fn obs_btyped(&mut self, _btype: u8) {
    }
}

#[test]
fn flush_of_empty_stream_writes_trailer() {
    let coder = NullCoder { decode_eos: false };
    let mut codec = DivansCodec::new(
        coder,
        PlainSpecialization {},
        FrequentistCDF16::default_table(),
        NullBackend {},
    );
    let mut out = vec![0u8; 32];
    let mut off = 0usize;
    let r = codec.flush(&mut out, &mut off);
    assert!(matches!(r, DivansResult::Success));
    assert_eq!(off, 8);
    assert_eq!(&out[0..8], b"~divans~");
    // flushing again is idempotent once done
    let r2 = codec.flush(&mut out, &mut off);
    assert!(matches!(r2, DivansResult::Success));
    assert_eq!(off, 8);
}

#[test]
fn flush_resumes_mid_trailer() {
    let coder = NullCoder { decode_eos: false };
    let mut codec = DivansCodec::new(
        coder,
        PlainSpecialization {},
        FrequentistCDF16::default_table(),
        NullBackend {},
    );
    let mut out = vec![0u8; 3];
    let mut off = 0usize;
    let r = codec.flush(&mut out, &mut off);
    assert!(matches!(r, DivansResult::NeedsMoreOutput));
    assert_eq!(&out[0..3], b"~di");
    let mut out2 = vec![0u8; 16];
    let mut off2 = 0usize;
    let r2 = codec.flush(&mut out2, &mut off2);
    assert!(matches!(r2, DivansResult::Success));
    assert_eq!(&out2[0..off2], b"vans~");
}

#[test]
fn decode_of_end_code_reaches_success() {
    let coder = NullCoder { decode_eos: true };
    let mut codec = DivansCodec::new(
        coder,
        PlainSpecialization {},
        FrequentistCDF16::default_table(),
        NullBackend {},
    );
    let mut in_off = 0usize;
    let mut out = vec![0u8; 8];
    let mut out_off = 0usize;
    let nop = Command::nop();
    let r = codec.encode_or_decode_one_command(&[], &mut in_off, &mut out, &mut out_off, &nop, false);
    assert!(matches!(r, OneCommandReturn::BufferExhausted(DivansResult::Success)));
}

#[test]
fn encode_after_flush_fails() {
    let coder = NullCoder { decode_eos: false };
    let mut codec = DivansCodec::new(
        coder,
        PlainSpecialization {},
        FrequentistCDF16::default_table(),
        NullBackend {},
    );
    let mut out = vec![0u8; 2];
    let mut off = 0usize;
    // the trailer does not fit, so the codec is left mid-flush
    let r = codec.flush(&mut out, &mut off);
    assert!(matches!(r, DivansResult::NeedsMoreOutput));
    let mut in_off = 0usize;
    let mut out_off = 0usize;
    let nop = Command::nop();
    let mut scratch = vec![0u8; 2];
    let r2 = codec.encode_or_decode_one_command(
        &[],
        &mut in_off,
        &mut scratch,
        &mut out_off,
        &nop,
        false,
    );
    assert!(matches!(r2, OneCommandReturn::BufferExhausted(DivansResult::Failure)));
}

#[test]
fn register_queue_fill_pump() {
    let mut q = RegisterQueue::default();
    let input = [1u8, 2, 3, 4, 5, 6, 7, 8, 9, 10];
    let mut off = 0usize;
    // a first short feed leaves the queue hungry
    let r = fill_queue_from_slice(&mut q, &input[0..3], &mut off);
    assert!(matches!(r, DivansResult::NeedsMoreInput));
    assert_eq!(off, 3);
    // the rest tops it up to eight bytes and stops there
    let mut off2 = 3usize;
    let r2 = fill_queue_from_slice(&mut q, &input, &mut off2);
    assert!(matches!(r2, DivansResult::Success));
    assert_eq!(off2, 8);
    let mut out = vec![0u8; 8];
    assert_eq!(q.pop_data(&mut out), 8);
    assert_eq!(&out[..], &input[0..8]);
}

#[test]
fn flush_during_partial_command_fails() {
    let coder = NullCoder { decode_eos: false };
    let mut codec = DivansCodec::new(
        coder,
        PlainSpecialization {},
        FrequentistCDF16::default_table(),
        NullBackend {},
    );
    codec.state = EncodeOrDecodeState::Copy(CopyState { cc: CopyCommand::nop() });
    let mut out = vec![0u8; 8];
    let mut off = 0usize;
    let r = codec.flush(&mut out, &mut off);
    assert!(matches!(r, DivansResult::Failure));
    assert_eq!(off, 0);
    assert!(matches!(codec.state, EncodeOrDecodeState::Copy(_)));
}
