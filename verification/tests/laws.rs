use bytes::{BufMut, Bytes, BytesMut};
use framed_echo::wire::{read_be_u32, LENGTH_PREFIX_LEN};
use framed_echo::{FrameCodec, FrameError, DEFAULT_MAX_FRAME_LEN};

#[test]
fn default_limit_is_eight_mebibytes() {
    assert_eq!(DEFAULT_MAX_FRAME_LEN, 8_388_608);
    assert_eq!(FrameCodec::new().max_frame_len(), 8_388_608);
    assert_eq!(FrameCodec::default().max_frame_len(), 8_388_608);
}

#[test]
fn explicit_limit_is_kept_or_capped_at_u32_max() {
    assert_eq!(FrameCodec::with_max_frame_len(0).max_frame_len(), 0);
    assert_eq!(FrameCodec::with_max_frame_len(8).max_frame_len(), 8);
    assert_eq!(
        FrameCodec::with_max_frame_len(u32::MAX as usize).max_frame_len(),
        u32::MAX as usize
    );
    assert_eq!(
        FrameCodec::with_max_frame_len(usize::MAX).max_frame_len(),
        u32::MAX as usize
    );
}

#[test]
fn clone_keeps_the_limit() {
    let codec = FrameCodec::with_max_frame_len(77);
    assert_eq!(codec.clone().max_frame_len(), 77);
}

#[test]
fn prefix_is_big_endian() {
    assert_eq!(LENGTH_PREFIX_LEN, 4);
    assert_eq!(read_be_u32(&[0, 0, 0, 9]), 9);
    assert_eq!(read_be_u32(&[1, 2, 3, 4, 5]), 0x0102_0304);
    assert_eq!(read_be_u32(&[0xff, 0xff, 0xff, 0xff]), u32::MAX);
}

#[test]
fn encode_appends_prefix_then_payload() {
    let mut codec = FrameCodec::new();
    let mut dst = BytesMut::new();
    dst.put_u8(0xee);
    codec.encode(Bytes::from_static(b"abc"), &mut dst).unwrap();
    assert_eq!(&dst[..], &[0xee, 0, 0, 0, 3, b'a', b'b', b'c'][..]);

    let mut big = BytesMut::new();
    codec
        .encode(Bytes::from(vec![7u8; 0x0102]), &mut big)
        .unwrap();
    assert_eq!(&big[..4], &[0, 0, 1, 2][..]);
    assert_eq!(big.len(), 4 + 0x0102);
}

#[test]
fn refused_encode_leaves_destination_unchanged() {
    let mut codec = FrameCodec::with_max_frame_len(2);
    let mut dst = BytesMut::from(&b"xy"[..]);
    let err = codec.encode(Bytes::from_static(b"abc"), &mut dst).unwrap_err();
    assert!(matches!(err, FrameError::FrameTooLarge { len: 3, max: 2 }));
    assert_eq!(&dst[..], b"xy");
}

#[test]
fn payload_at_the_limit_is_accepted_both_ways() {
    let mut codec = FrameCodec::with_max_frame_len(3);
    let mut buf = BytesMut::new();
    codec.encode(Bytes::from_static(b"abc"), &mut buf).unwrap();
    assert_eq!(codec.decode(&mut buf).unwrap().unwrap(), Bytes::from_static(b"abc"));
}

#[test]
fn oversized_prefix_rejected_before_payload_arrives() {
    let mut codec = FrameCodec::with_max_frame_len(1024);
    let mut buf = BytesMut::new();
    buf.put_u32(u32::MAX);
    let err = codec.decode(&mut buf).unwrap_err();
    assert!(matches!(
        err,
        FrameError::FrameTooLarge { len, max: 1024 } if len == u32::MAX as usize
    ));
    // Nothing was consumed.
    assert_eq!(buf.len(), 4);
}

#[test]
fn incomplete_frame_leaves_buffer_untouched() {
    let mut codec = FrameCodec::new();
    let mut buf = BytesMut::new();
    buf.put_slice(&[0, 0]);
    assert!(codec.decode(&mut buf).unwrap().is_none());
    assert_eq!(&buf[..], &[0, 0][..]);

    buf.put_slice(&[0, 5, b'h', b'e']);
    assert!(codec.decode(&mut buf).unwrap().is_none());
    assert_eq!(&buf[..], &[0, 0, 0, 5, b'h', b'e'][..]);
}

#[test]
fn decoding_leaves_the_bytes_after_the_frame() {
    let mut codec = FrameCodec::new();
    let mut buf = BytesMut::new();
    buf.put_slice(&[0, 0, 0, 2, b'h', b'i', 0, 0]);
    let frame = codec.decode(&mut buf).unwrap().unwrap();
    assert_eq!(&frame[..], b"hi");
    assert_eq!(&buf[..], &[0, 0][..]);
}

#[test]
fn frames_survive_any_read_fragmentation() {
    let mut codec = FrameCodec::new();
    let payloads: Vec<Bytes> = (0..50)
        .map(|i| Bytes::from(format!("frame-{i}")))
        .chain(std::iter::once(Bytes::new()))
        .chain(std::iter::once(Bytes::from(vec![0xabu8; 3000])))
        .collect();

    let mut stream = BytesMut::new();
    for p in &payloads {
        codec.encode(p.clone(), &mut stream).unwrap();
    }
    let stream = stream.freeze();

    for chunk in [1usize, 2, 3, 5, 7, 64, 1000, stream.len()] {
        let mut buf = BytesMut::new();
        let mut out = Vec::new();
        for piece in stream.chunks(chunk) {
            buf.put_slice(piece);
            while let Some(frame) = codec.decode(&mut buf).unwrap() {
                out.push(frame);
            }
        }
        assert_eq!(out, payloads, "chunk size {chunk}");
        assert!(buf.is_empty());
    }
}

#[test]
fn io_errors_convert_into_frame_errors() {
    let e = std::io::Error::new(std::io::ErrorKind::BrokenPipe, "gone");
    let fe: FrameError = e.into();
    match fe {
        FrameError::Io(inner) => assert_eq!(inner.kind(), std::io::ErrorKind::BrokenPipe),
        other => panic!("expected Io, got {other:?}"),
    }
}

#[test]
fn ordinary_buffers_fit_in_memory() {
    let codec = FrameCodec::with_max_frame_len(u32::MAX as usize);
    let mut buf = BytesMut::new();
    assert!(codec.pending_frame_fits(&buf));
    buf.put_u32(u32::MAX);
    assert!(codec.pending_frame_fits(&buf));
    assert!(codec.encoded_frame_fits(&Bytes::from_static(b"abc"), &buf));
}

#[test]
fn messages_name_the_length_and_the_limit() {
    let e = FrameError::FrameTooLarge { len: 9, max: 8 };
    assert_eq!(e.message(), "frame of 9 bytes exceeds maximum of 8 bytes");
    let e = FrameError::FrameTooLarge { len: 4294967295, max: 0 };
    assert_eq!(
        e.message(),
        "frame of 4294967295 bytes exceeds maximum of 0 bytes"
    );
    let e = FrameError::FrameTooLarge { len: 10, max: 8388608 };
    assert_eq!(e.message(), "frame of 10 bytes exceeds maximum of 8388608 bytes");
}

#[test]
fn io_messages_carry_the_transport_message() {
    let e = FrameError::Io(std::io::Error::new(std::io::ErrorKind::Other, "pipe broke"));
    assert_eq!(e.message(), "i/o error: pipe broke");
}
