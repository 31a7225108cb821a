use divans::mux::{chunk_size, get_code, Mux, MuxSliceHeader};

#[test]
fn chunk_size_thresholds() {
    assert_eq!(chunk_size(0, true), 16);
    assert_eq!(chunk_size(0, false), 4096);
    assert_eq!(chunk_size(1024, false), 4096);
    assert_eq!(chunk_size(1025, false), 16384);
    assert_eq!(chunk_size(65536, false), 16384);
    assert_eq!(chunk_size(65537, false), 65536);
}

#[test]
fn get_code_headers() {
    match get_code(0, 1, false) {
        (MuxSliceHeader::Var(h), n) => {
            assert_eq!(h, [0, 0, 0]);
            assert_eq!(n, 1);
        },
        _ => panic!("expected an explicit-length header"),
    }
    match get_code(1, 2, true) {
        (MuxSliceHeader::Var(h), n) => {
            assert_eq!(h, [1, 1, 0]);
            assert_eq!(n, 2);
        },
        _ => panic!("expected an explicit-length header"),
    }
    match get_code(0, 5000, false) {
        (MuxSliceHeader::Fixed(h), n) => {
            assert_eq!(h, [0x10]);
            assert_eq!(n, 4096);
        },
        _ => panic!("expected a fixed header"),
    }
    match get_code(1, 20000, false) {
        (MuxSliceHeader::Fixed(h), n) => {
            assert_eq!(h, [0x21]);
            assert_eq!(n, 16384);
        },
        _ => panic!("expected a fixed header"),
    }
    match get_code(0, 70000, true) {
        (MuxSliceHeader::Fixed(h), n) => {
            assert_eq!(h, [0x30]);
            assert_eq!(n, 65536);
        },
        _ => panic!("expected a fixed header"),
    }
}

#[test]
fn mux_two_streams_close_exact_bytes() {
    let mut mux = Mux::default();
    mux.push_data(0, b"A");
    mux.push_data(1, b"BB");
    let mut out = vec![0u8; 64];
    let n = mux.serialize_close(&mut out);
    assert_eq!(
        &out[0..n],
        &[0x00, 0x00, 0x00, 0x41, 0x01, 0x01, 0x00, 0x42, 0x42, 0xff, 0xfe, 0xff]
    );
    // feeding the bytes back recovers both streams
    let mut demux = Mux::default();
    let consumed = demux.deserialize(&out[0..n]);
    assert_eq!(consumed, n);
    assert_eq!(demux.data_avail(0), b"A");
    assert_eq!(demux.data_avail(1), b"BB");
    assert!(!demux.is_eof());
    demux.consume_data(0, 1);
    demux.consume_data(1, 2);
    assert!(demux.is_eof());
}

#[test]
fn mux_demux_byte_at_a_time() {
    let mut mux = Mux::default();
    mux.push_data(0, b"stream zero payload");
    mux.push_data(1, b"stream one");
    let mut out = vec![0u8; 128];
    let n = mux.serialize_close(&mut out);
    let mut demux = Mux::default();
    let mut fed = 0usize;
    while fed < n {
        let consumed = demux.deserialize(&out[fed..fed + 1]);
        assert_eq!(consumed, 1);
        fed += 1;
    }
    assert_eq!(demux.data_avail(0), b"stream zero payload");
    assert_eq!(demux.data_avail(1), b"stream one");
}

#[test]
fn mux_flush_resume_five_byte_output() {
    let mut mux = Mux::default();
    mux.push_data(0, b"A");
    mux.push_data(1, b"BB");
    let mut first = vec![0u8; 5];
    let n1 = mux.serialize_close(&mut first);
    assert_eq!(n1, 5);
    assert_eq!(&first[0..5], &[0x00, 0x00, 0x00, 0x41, 0x01]);
    let mut second = vec![0u8; 64];
    let n2 = mux.serialize_close(&mut second);
    assert_eq!(&second[0..n2], &[0x01, 0x00, 0x42, 0x42, 0xff, 0xfe, 0xff]);
    // a further close writes nothing
    let mut third = vec![0u8; 8];
    assert_eq!(mux.serialize_close(&mut third), 0);
}

#[test]
fn mux_serialize_waits_for_a_full_chunk() {
    let mut mux = Mux::default();
    mux.push_data(0, b"tiny");
    let mut out = vec![0u8; 32];
    // a fresh stream flushes in 4096-byte chunks, so nothing is eligible yet
    assert_eq!(mux.serialize(&mut out), 0);
    assert_eq!(mux.how_much_data_avail(0), 4);
}

#[test]
fn mux_serialize_emits_full_chunks() {
    let mut mux = Mux::default();
    let big = vec![0x5au8; 5000];
    mux.push_data(0, &big);
    let mut out = vec![0u8; 8192];
    let n = mux.serialize(&mut out);
    // one fixed 4096-byte chunk with its one-byte header
    assert_eq!(n, 4097);
    assert_eq!(out[0], 0x10);
    assert!(out[1..4097].iter().all(|b| *b == 0x5a));
    assert_eq!(mux.how_much_data_avail(0), 5000 - 4096);
    // the demux side accepts the chunk
    let mut demux = Mux::default();
    assert_eq!(demux.deserialize(&out[0..n]), n);
    assert_eq!(demux.how_much_data_avail(0), 4096);
}

#[test]
fn mux_deserialize_stops_at_eof_marker() {
    let mut demux = Mux::default();
    let wire = [0x00u8, 0x00, 0x00, 0x41, 0xff, 0xfe, 0xff, 0x00, 0x00, 0x00, 0x42];
    let consumed = demux.deserialize(&wire);
    // the marker ends the call; trailing bytes stay unconsumed
    assert_eq!(consumed, 7);
    assert_eq!(demux.data_avail(0), b"A");
    demux.consume_data(0, 1);
    assert!(demux.is_eof());
    // once the marker is seen nothing more is taken
    assert_eq!(demux.deserialize(&wire[7..]), 0);
}

#[test]
fn mux_prealloc_keeps_streams_empty() {
    let mut mux = Mux::default();
    mux.prealloc(1024);
    assert_eq!(mux.how_much_data_avail(0), 0);
    assert_eq!(mux.how_much_data_avail(1), 0);
    mux.push_data(0, b"xy");
    assert_eq!(mux.data_avail(0), b"xy");
}

#[test]
fn mux_flush_counters_stay_balanced() {
    let mut mux = Mux::default();
    let chunk0 = vec![0x11u8; 300000];
    let chunk1 = vec![0x22u8; 5000];
    mux.push_data(0, &chunk0);
    mux.push_data(1, &chunk1);
    let mut out = vec![0u8; 1 << 20];
    mux.serialize(&mut out);
    let hi = mux.last_flush.iter().max().copied().unwrap();
    let lo = mux.last_flush.iter().min().copied().unwrap();
    assert!(hi - lo <= 2 * 131073);
}

#[test]
fn mux_deserialize_stops_at_malformed_header() {
    // stream id 5 does not exist: the demuxer takes the good frame and stops
    let mut demux = Mux::default();
    let wire = [0x00u8, 0x00, 0x00, 0x41, 0x05, 0x01, 0x00];
    let consumed = demux.deserialize(&wire);
    assert_eq!(consumed, 4);
    assert_eq!(demux.data_avail(0), b"A");
    // an unassigned size code stops the call the same way
    let mut demux2 = Mux::default();
    let wire2 = [0x41u8, 0x00];
    assert_eq!(demux2.deserialize(&wire2), 0);
}
