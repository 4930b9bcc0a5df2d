use bytes::BytesMut;
use netstring::CodecError;
use netstring::codec::{NetstringCodec, ParserState, build_frame, usize_to_decimal};

fn buf_from(bytes: &[u8]) -> BytesMut {
    let mut b = BytesMut::new();
    b.extend_from_slice(bytes);
    b
}

#[test]
fn new_starts_awaiting_length() {
    let c = NetstringCodec::new(64, true);
    assert_eq!(c.state, ParserState::Length);
    assert_eq!(c.current_length, 0);
    assert_eq!(c.max_length, 64);
    assert!(c.disconnect_on_error);
}

#[test]
fn encode_exact_bytes() {
    let mut c = NetstringCodec::new(64, false);
    let mut dst = BytesMut::new();
    assert_eq!(c.encode(vec![0x61, 0x62], &mut dst), Ok(()));
    assert_eq!(&dst[..], b"2:ab,");
}

#[test]
fn encode_appends_to_existing_bytes() {
    let mut c = NetstringCodec::new(64, false);
    let mut dst = buf_from(b"1:a,");
    assert_eq!(c.encode(b"xyz".to_vec(), &mut dst), Ok(()));
    assert_eq!(&dst[..], b"1:a,3:xyz,");
}

#[test]
fn encode_empty_payload() {
    let mut c = NetstringCodec::new(8, false);
    let mut dst = BytesMut::new();
    assert_eq!(c.encode(Vec::new(), &mut dst), Ok(()));
    assert_eq!(&dst[..], b"0:,");
}

#[test]
fn encode_rejects_payload_at_limit() {
    let mut c = NetstringCodec::new(5, false);
    let mut dst = BytesMut::new();
    assert_eq!(
        c.encode(b"hello".to_vec(), &mut dst),
        Err(CodecError::PayloadTooLarge)
    );
    assert_eq!(dst.len(), 0);
}

#[test]
fn encode_rejects_payload_above_limit() {
    let mut c = NetstringCodec::new(3, false);
    let mut dst = BytesMut::new();
    assert_eq!(
        c.encode(b"hello".to_vec(), &mut dst),
        Err(CodecError::PayloadTooLarge)
    );
    assert_eq!(dst.len(), 0);
}

#[test]
fn round_trip_single_frame() {
    let mut c = NetstringCodec::new(64, false);
    let mut wire = BytesMut::new();
    assert_eq!(c.encode(b"hello".to_vec(), &mut wire), Ok(()));
    let got = c.decode(&mut wire).unwrap();
    assert_eq!(got, Some(b"hello".to_vec()));
    assert_eq!(wire.len(), 0);
}

#[test]
fn end_to_end_two_frames() {
    let mut c = NetstringCodec::new(64, false);
    let mut buf = buf_from(b"2:ab,3:xyz,");
    assert_eq!(c.decode(&mut buf).unwrap(), Some(b"ab".to_vec()));
    assert_eq!(c.decode(&mut buf).unwrap(), Some(b"xyz".to_vec()));
    assert_eq!(c.decode(&mut buf).unwrap(), None);
    assert_eq!(buf.len(), 0);
}

#[test]
fn fragmented_frame_one_byte_at_a_time() {
    let frame = b"3:xyz,";
    let mut c = NetstringCodec::new(64, false);
    let mut buf = BytesMut::new();
    for (i, byte) in frame.iter().enumerate() {
        buf.extend_from_slice(&[*byte]);
        let got = c.decode(&mut buf).unwrap();
        if i + 1 < frame.len() {
            assert_eq!(got, None);
        } else {
            assert_eq!(got, Some(b"xyz".to_vec()));
        }
    }
    assert_eq!(buf.len(), 0);
}

#[test]
fn fragmented_frame_odd_chunks() {
    let chunks: [&[u8]; 4] = [b"3", b":x", b"yz", b","];
    let mut c = NetstringCodec::new(64, false);
    let mut buf = BytesMut::new();
    let mut results = Vec::new();
    for chunk in chunks.iter() {
        buf.extend_from_slice(chunk);
        results.push(c.decode(&mut buf).unwrap());
    }
    assert_eq!(results, vec![None, None, None, Some(b"xyz".to_vec())]);
}

#[test]
fn decode_rejects_declared_length_above_limit() {
    let mut c = NetstringCodec::new(2, false);
    let mut buf = buf_from(b"5:hello,");
    assert_eq!(c.decode(&mut buf), Err(CodecError::PayloadTooLarge));
    // The length field and delimiter are consumed, the payload bytes are not.
    assert_eq!(&buf[..], b"hello,");
}

#[test]
fn decode_accepts_declared_length_at_limit() {
    let mut c = NetstringCodec::new(5, false);
    let mut buf = buf_from(b"5:hello,");
    assert_eq!(c.decode(&mut buf).unwrap(), Some(b"hello".to_vec()));
}

#[test]
fn decode_rejects_missing_trailing_delimiter() {
    let mut c = NetstringCodec::new(64, false);
    let mut buf = buf_from(b"2:abX");
    assert_eq!(c.decode(&mut buf), Err(CodecError::MissingTrailingDelimiter));
}

#[test]
fn decode_rejects_overlong_length_field() {
    let mut c = NetstringCodec::new(64, false);
    let mut buf = buf_from(b"123456789");
    assert_eq!(c.decode(&mut buf), Err(CodecError::LengthFieldTooLong));
}

#[test]
fn decode_waits_below_digit_budget() {
    let mut c = NetstringCodec::new(64, false);
    let mut buf = buf_from(b"12345678");
    assert_eq!(c.decode(&mut buf).unwrap(), None);
    assert_eq!(&buf[..], b"12345678");
}

#[test]
fn decode_rejects_non_digit_in_length_field() {
    let mut c = NetstringCodec::new(64, false);
    let mut buf = buf_from(b"2x:ab,");
    assert_eq!(c.decode(&mut buf), Err(CodecError::InvalidLengthDigits));
}

#[test]
fn decode_rejects_empty_length_field() {
    let mut c = NetstringCodec::new(64, false);
    let mut buf = buf_from(b":ab,");
    assert_eq!(c.decode(&mut buf), Err(CodecError::InvalidLengthDigits));
}

#[test]
fn decode_accepts_leading_zeros() {
    let mut c = NetstringCodec::new(64, false);
    let mut buf = buf_from(b"02:ab,");
    assert_eq!(c.decode(&mut buf).unwrap(), Some(b"ab".to_vec()));
}

#[test]
fn decode_waits_for_partial_payload() {
    let mut c = NetstringCodec::new(64, false);
    let mut buf = buf_from(b"3:xy");
    assert_eq!(c.decode(&mut buf).unwrap(), None);
    buf.extend_from_slice(b"z,");
    assert_eq!(c.decode(&mut buf).unwrap(), Some(b"xyz".to_vec()));
}

#[test]
fn decode_empty_payload_frame() {
    let mut c = NetstringCodec::new(8, false);
    let mut buf = buf_from(b"0:,");
    assert_eq!(c.decode(&mut buf).unwrap(), Some(Vec::new()));
    assert_eq!(buf.len(), 0);
}

#[test]
fn payload_bytes_are_not_interpreted() {
    // A payload may itself hold `:` and `,` bytes.
    let mut c = NetstringCodec::new(64, false);
    let mut wire = BytesMut::new();
    assert_eq!(c.encode(b"a:b,c".to_vec(), &mut wire), Ok(()));
    assert_eq!(&wire[..], b"5:a:b,c,");
    assert_eq!(c.decode(&mut wire).unwrap(), Some(b"a:b,c".to_vec()));
}

#[test]
fn decimal_formatting_exact() {
    assert_eq!(usize_to_decimal(0), b"0".to_vec());
    assert_eq!(usize_to_decimal(7), b"7".to_vec());
    assert_eq!(usize_to_decimal(10), b"10".to_vec());
    assert_eq!(usize_to_decimal(12345), b"12345".to_vec());
    assert_eq!(usize_to_decimal(99999999), b"99999999".to_vec());
}

#[test]
fn build_frame_exact() {
    assert_eq!(build_frame(&b"hello".to_vec()), b"5:hello,".to_vec());
    assert_eq!(build_frame(&Vec::new()), b"0:,".to_vec());
}
