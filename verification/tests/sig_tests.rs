use divans::crc::{crc_rollout, crc_rotate, crc_update};
use divans::dict::CustomDictionary;
use divans::sig::{le_to_u32, u32_to_le, SigFile};

#[test]
fn crc_update_exact_value() {
    // s1 = 1+2+3 + 3*31 = 99; s2 = 1 + 3 + 6 + 6*31 = 196
    let c = crc_update(0, &[1u8, 2u8, 3u8]);
    assert_eq!(c, 99u32 | (196u32 << 16));
}

#[test]
fn crc_rotate_matches_full_recompute() {
    let data: Vec<u8> = (0..64u8).map(|x| x.wrapping_mul(37).wrapping_add(11)).collect();
    let window = 8usize;
    let mut rolling = crc_update(0, &data[0..window]);
    for i in 0..(data.len() - window) {
        rolling = crc_rotate(rolling, window as u32, data[i], data[i + window]);
        let fresh = crc_update(0, &data[i + 1..i + 1 + window]);
        assert_eq!(rolling, fresh);
    }
}

#[test]
fn crc_rollout_matches_shrunk_recompute() {
    let data: Vec<u8> = (0..16u8).map(|x| x.wrapping_mul(91).wrapping_add(3)).collect();
    let mut rolling = crc_update(0, &data[..]);
    for i in 0..data.len() {
        let size = (data.len() - i) as u32;
        rolling = crc_rollout(rolling, size, data[i]);
        let fresh = crc_update(0, &data[i + 1..]);
        assert_eq!(rolling, fresh);
    }
}

#[test]
fn be32_round_trip() {
    for v in [0u32, 1, 255, 256, 0x01020304, 0xffffffff] {
        let bytes = u32_to_le(v);
        assert_eq!(le_to_u32(&bytes[..]), v);
    }
}

#[test]
fn sig_file_header_layout() {
    // three blocks of size 4 over ten bytes: sizes 4, 4 and 2
    let input: Vec<u8> = (0..10u8).collect();
    let sig = SigFile::new(4, 8, &input);
    assert_eq!(sig.signatures().len(), 3);
    let total = sig.total_len();
    assert_eq!(total, 12 + 3 * 12);
    let mut out = vec![0u8; total];
    let mut in_off = 0usize;
    let mut out_off = 0usize;
    let complete = sig.serialize(&mut in_off, &mut out, &mut out_off);
    assert!(complete);
    assert_eq!(out_off, total);
    assert_eq!(
        &out[0..12],
        &[0x72, 0x73, 0x01, 0x36, 0x00, 0x00, 0x00, 0x04, 0x00, 0x00, 0x00, 0x08]
    );
}

#[test]
fn sig_file_round_trip_one_shot() {
    let input: Vec<u8> = (0..23u8).map(|x| x.wrapping_mul(7)).collect();
    let sig = SigFile::new(5, 8, &input);
    let total = sig.total_len();
    let mut out = vec![0u8; total];
    let mut in_off = 0usize;
    let mut out_off = 0usize;
    assert!(sig.serialize(&mut in_off, &mut out, &mut out_off));
    let parsed = SigFile::deserialize(&out, 8).unwrap();
    assert_eq!(parsed.block_size(), 5);
    assert_eq!(parsed.signatures().len(), sig.signatures().len());
    for (a, b) in parsed.signatures().iter().zip(sig.signatures().iter()) {
        assert_eq!(a.crc32, b.crc32);
        assert_eq!(a.crypto_sig, b.crypto_sig);
    }
}

#[test]
fn sig_file_streaming_serialize_equals_one_shot() {
    let input: Vec<u8> = (0..23u8).map(|x| x.wrapping_mul(13).wrapping_add(1)).collect();
    let sig = SigFile::new(4, 4, &input);
    let total = sig.total_len();
    let mut one_shot = vec![0u8; total];
    let mut in_off = 0usize;
    let mut out_off = 0usize;
    assert!(sig.serialize(&mut in_off, &mut one_shot, &mut out_off));
    // drive the same serialization three bytes at a time
    let mut chunked: Vec<u8> = Vec::new();
    let mut src_off = 0usize;
    loop {
        let mut piece = vec![0u8; 3];
        let mut piece_off = 0usize;
        let complete = sig.serialize(&mut src_off, &mut piece, &mut piece_off);
        chunked.extend_from_slice(&piece[0..piece_off]);
        if complete {
            break;
        }
        assert!(piece_off > 0);
    }
    assert_eq!(chunked, one_shot);
}

#[test]
fn sig_deserialize_errors() {
    // too short
    assert_eq!(SigFile::deserialize(&[0u8; 4], 8), Err(0));
    // bad magic
    let mut bad = vec![0u8; 12];
    bad[0] = 0x72;
    assert_eq!(SigFile::deserialize(&bad, 8), Err(0));
    // wrong digest size: file advertises 4, caller expects 8
    let input: Vec<u8> = (0..8u8).collect();
    let sig = SigFile::new(4, 4, &input);
    let total = sig.total_len();
    let mut out = vec![0u8; total];
    let mut in_off = 0usize;
    let mut out_off = 0usize;
    assert!(sig.serialize(&mut in_off, &mut out, &mut out_off));
    assert_eq!(SigFile::deserialize(&out, 8), Err(4));
    // truncated record area
    out.pop();
    assert_eq!(SigFile::deserialize(&out, 4), Err(out.len() - 12));
}

#[test]
fn sig_file_free_clears_records() {
    let input: Vec<u8> = (0..8u8).collect();
    let mut sig = SigFile::new(4, 4, &input);
    sig.free();
    assert_eq!(sig.signatures().len(), 0);
    assert_eq!(sig.block_size(), 4);
}

#[test]
fn dictionary_reconstruction_hello_world() {
    // reference "hello world!!!!", signatures over "hello"+"world"+"!!!!"
    let sig_source = b"helloworld!!!!";
    let sig = SigFile::new(5, 8, sig_source);
    let hint = sig.create_sig_hint();
    let mut dict = CustomDictionary::new(&sig);
    dict.write(b"hello world!!!!", &hint, &sig);
    assert_eq!(&dict.data[0..5], b"hello");
    assert_eq!(&dict.data[5..10], b"world");
    assert_eq!(&dict.invalid[0..10], &[0u8; 10]);
    // the tail block never matches: its bytes stay unset
    assert_eq!(&dict.invalid[10..15], &[0xffu8; 5]);
    dict.flush(&hint, &sig);
    assert_eq!(&dict.invalid[10..15], &[0xffu8; 5]);
}

#[test]
fn dictionary_reconstructs_aligned_blocks() {
    let reference: Vec<u8> = (0..20u8).map(|x| x.wrapping_mul(17).wrapping_add(5)).collect();
    let sig = SigFile::new(4, 8, &reference);
    let hint = sig.create_sig_hint();
    let mut dict = CustomDictionary::new(&sig);
    dict.write(&reference, &hint, &sig);
    assert_eq!(&dict.data[..], &reference[..]);
    assert!(dict.invalid.iter().all(|b| *b == 0));
}

#[test]
fn dictionary_chunked_write_matches_whole_write() {
    let reference: Vec<u8> = (0..24u8).map(|x| x.wrapping_mul(29).wrapping_add(7)).collect();
    let sig = SigFile::new(6, 8, &reference);
    let hint = sig.create_sig_hint();
    let mut whole = CustomDictionary::new(&sig);
    whole.write(&reference, &hint, &sig);
    let mut chunked = CustomDictionary::new(&sig);
    for piece in reference.chunks(5) {
        chunked.write(piece, &hint, &sig);
    }
    assert_eq!(whole.data, chunked.data);
    assert_eq!(whole.invalid, chunked.invalid);
}

#[test]
fn dictionary_free_releases_buffers() {
    let sig = SigFile::new(4, 8, &[1u8, 2, 3, 4]);
    let mut dict = CustomDictionary::new(&sig);
    dict.free();
    assert_eq!(dict.data.len(), 0);
    assert_eq!(dict.invalid.len(), 0);
    assert_eq!(dict.ring_buffer.len(), 0);
}

#[test]
fn md4_known_answer_through_sig_file() {
    // MD4("abc") = a448017aaf21d8525fc10ae87aa6729d
    let sig = SigFile::new(3, 16, b"abc");
    assert_eq!(sig.signatures().len(), 1);
    assert_eq!(
        sig.signatures()[0].crypto_sig,
        vec![
            0xa4, 0x48, 0x01, 0x7a, 0xaf, 0x21, 0xd8, 0x52, 0x5f, 0xc1, 0x0a, 0xe8, 0x7a, 0xa6,
            0x72, 0x9d
        ]
    );
}
