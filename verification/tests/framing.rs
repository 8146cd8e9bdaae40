use p2p_sys::protocol::{
    decode_frame, decode_varint, encode_frame, encode_varint, FileRequest, FileResponse,
    FileTransferCodec, FileTransferProtocol, FrameError,
};

#[test]
fn protocol_name() {
    assert_eq!(FileTransferProtocol().protocol_name(), "/file-transfer/1.0.0");
}

#[test]
fn length_prefix_is_leb128() {
    assert_eq!(encode_varint(0), vec![0]);
    assert_eq!(encode_varint(127), vec![127]);
    assert_eq!(encode_varint(300), vec![0xac, 0x02]);
    assert_eq!(decode_varint(&[0xac, 0x02, 0x09]), Ok((300, 2)));
    assert_eq!(decode_varint(&encode_varint(usize::MAX)), Ok((usize::MAX, encode_varint(usize::MAX).len())));
}

#[test]
fn length_prefix_errors() {
    assert_eq!(decode_varint(&[]), Err(FrameError::Incomplete));
    assert_eq!(decode_varint(&[0x80, 0x80]), Err(FrameError::Incomplete));
    assert_eq!(decode_varint(&[0xff; 10]), Err(FrameError::Overflow));
    assert_eq!(decode_varint(&[0xff, 0xff, 0xff, 0xff, 0xff, 0xff, 0xff, 0xff, 0xff, 0x7f]), Err(FrameError::Overflow));
}

#[test]
fn frames_read_back() {
    let f = encode_frame(b"hello");
    assert_eq!(f, vec![5, b'h', b'e', b'l', b'l', b'o']);
    let mut longer = f.clone();
    longer.extend_from_slice(b"tail");
    assert_eq!(decode_frame(&longer, 5), Ok(b"hello".to_vec()));
    assert_eq!(decode_frame(&f, 4), Err(FrameError::TooLarge));
    assert_eq!(decode_frame(&f[..3], 5), Err(FrameError::Incomplete));
    assert_eq!(decode_frame(&[], 5), Ok(vec![]));
}

#[test]
fn requests_and_responses_round_trip() {
    let codec = FileTransferCodec;
    let bytes = codec.encode_request(&FileRequest { filename: "résumé.pdf".to_string() });
    assert_eq!(codec.decode_request(&bytes).unwrap().filename, "résumé.pdf");
    let content: Vec<u8> = (0..2000u32).map(|x| x as u8).collect();
    let bytes = codec.encode_response(&FileResponse { content: content.clone() });
    assert_eq!(codec.decode_response(&bytes).unwrap().content, content);
}

#[test]
fn request_errors() {
    let codec = FileTransferCodec;
    assert_eq!(codec.decode_request(&[2, 0xff, 0xfe]).unwrap_err(), FrameError::InvalidUtf8);
    let long = codec.encode_request(&FileRequest { filename: "a".repeat(1025) });
    assert_eq!(codec.decode_request(&long).unwrap_err(), FrameError::TooLarge);
    let big = codec.encode_response(&FileResponse { content: vec![0; 16385] });
    assert_eq!(codec.decode_response(&big).unwrap_err(), FrameError::TooLarge);
    assert_eq!(codec.decode_request(&[]).unwrap().filename, "");
}
