use logstore::rpc_codec::{ClientCodec, ServerCodec};

#[test]
fn frame_round_trip_consumes_buffer() {
    let mut codec = ServerCodec::new();
    let mut buf = Vec::new();
    codec.encode_frame(b"hello world", &mut buf);
    assert_eq!(&buf[0..4], &[11, 0, 0, 0]);
    let mut client = ClientCodec::new();
    let payload = client.decode_frame(&mut buf).unwrap();
    assert_eq!(payload, b"hello world".to_vec());
    assert_eq!(buf.len(), 0);
}

#[test]
fn incomplete_frame_waits_for_more_bytes() {
    let mut codec = ServerCodec::new();
    let mut buf = vec![5, 0, 0, 0, 1, 2];
    assert_eq!(codec.decode_frame(&mut buf), None);
    assert_eq!(buf, vec![5, 0, 0, 0, 1, 2]);
    let mut short = vec![1, 0];
    assert_eq!(codec.decode_frame(&mut short), None);
}

#[test]
fn two_frames_come_out_in_order() {
    let mut codec = ServerCodec::new();
    let mut buf = Vec::new();
    codec.encode_frame(b"a", &mut buf);
    codec.encode_frame(b"", &mut buf);
    codec.encode_frame(b"bc", &mut buf);
    assert_eq!(codec.decode_frame(&mut buf), Some(b"a".to_vec()));
    assert_eq!(codec.decode_frame(&mut buf), Some(Vec::new()));
    assert_eq!(codec.decode_frame(&mut buf), Some(b"bc".to_vec()));
    assert_eq!(codec.decode_frame(&mut buf), None);
}
