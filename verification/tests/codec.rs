use bytes::{BufMut, Bytes, BytesMut};
use framed_echo::{FrameCodec, FrameError};

#[test]
fn round_trip() {
    let mut codec = FrameCodec::new();
    let payload = Bytes::from_static(b"framed-echo");

    let mut buf = BytesMut::new();
    codec.encode(payload.clone(), &mut buf).unwrap();

    let decoded = codec.decode(&mut buf).unwrap().unwrap();
    assert_eq!(decoded, payload);
    // The buffer is fully consumed after one complete frame.
    assert!(buf.is_empty());
}

#[test]
fn partial_frame_yields_only_when_complete() {
    let mut codec = FrameCodec::new();
    let payload = Bytes::from_static(b"drip-fed");

    let mut encoded = BytesMut::new();
    codec.encode(payload.clone(), &mut encoded).unwrap();

    // Feed every byte but the last: the decoder must never yield yet.
    let mut buf = BytesMut::new();
    for &byte in &encoded[..encoded.len() - 1] {
        buf.put_u8(byte);
        assert!(
            codec.decode(&mut buf).unwrap().is_none(),
            "decoder yielded before the frame was complete"
        );
    }

    // The final byte completes the frame — now it decodes exactly once.
    buf.put_u8(encoded[encoded.len() - 1]);
    let decoded = codec.decode(&mut buf).unwrap().unwrap();
    assert_eq!(decoded, payload);
    assert!(codec.decode(&mut buf).unwrap().is_none());
}

#[test]
fn multiple_frames_in_one_buffer_decode_in_order() {
    let mut codec = FrameCodec::new();
    let payloads = [
        Bytes::from_static(b"one"),
        Bytes::from_static(b"two"),
        Bytes::from_static(b"three"),
    ];

    let mut buf = BytesMut::new();
    for p in &payloads {
        codec.encode(p.clone(), &mut buf).unwrap();
    }

    for expected in &payloads {
        let decoded = codec.decode(&mut buf).unwrap().unwrap();
        assert_eq!(&decoded, expected);
    }
    assert!(codec.decode(&mut buf).unwrap().is_none());
    assert!(buf.is_empty());
}

#[test]
fn empty_payload_round_trips() {
    let mut codec = FrameCodec::new();
    let mut buf = BytesMut::new();
    codec.encode(Bytes::new(), &mut buf).unwrap();
    // A zero-length frame is still a valid frame: a prefix of 0, no payload.
    let decoded = codec.decode(&mut buf).unwrap().unwrap();
    assert!(decoded.is_empty());
}

#[test]
fn oversized_frame_rejected_on_decode() {
    let mut codec = FrameCodec::with_max_frame_len(8);

    let mut buf = BytesMut::new();
    buf.put_u32(9); // declares a 9-byte payload, over the 8-byte cap
    buf.put_slice(&[0u8; 9]);

    let err = codec.decode(&mut buf).unwrap_err();
    match err {
        FrameError::FrameTooLarge { len, max } => {
            assert_eq!(len, 9);
            assert_eq!(max, 8);
        }
        other => panic!("expected FrameTooLarge, got {other:?}"),
    }
}

#[test]
fn oversized_frame_rejected_on_encode() {
    let mut codec = FrameCodec::with_max_frame_len(4);
    let mut buf = BytesMut::new();
    let err = codec
        .encode(Bytes::from_static(b"too long"), &mut buf)
        .unwrap_err();
    assert!(matches!(err, FrameError::FrameTooLarge { len: 8, max: 4 }));
}
