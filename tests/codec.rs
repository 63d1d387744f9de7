use oggvorbismeta::{decode_comment_header, make_comment_header, CommentHeader, DecodeError, Error, VorbisComments};

const SIG: [u8; 7] = [3, 118, 111, 114, 98, 105, 115];

fn block(vendor: &[u8], entries: &[&[u8]], framing: u8) -> Vec<u8> {
    let mut b = SIG.to_vec();
    b.extend((vendor.len() as u32).to_le_bytes());
    b.extend(vendor);
    b.extend((entries.len() as u32).to_le_bytes());
    for e in entries {
        b.extend((e.len() as u32).to_le_bytes());
        b.extend(*e);
    }
    b.push(framing);
    b
}

#[test]
fn encodes_exact_layout() {
    let mut h = CommentHeader::new();
    h.set_vendor("Ogg");
    h.add_tag_single("a", "b");
    let bytes = make_comment_header(&h).unwrap();
    assert_eq!(
        bytes,
        vec![3, 118, 111, 114, 98, 105, 115, 3, 0, 0, 0, 79, 103, 103, 1, 0, 0, 0, 3, 0, 0, 0, 97, 61, 98, 1]
    );
}

#[test]
fn encodes_empty_header() {
    let bytes = make_comment_header(&CommentHeader::new()).unwrap();
    assert_eq!(bytes, vec![3, 118, 111, 114, 98, 105, 115, 0, 0, 0, 0, 0, 0, 0, 0, 1]);
}

#[test]
fn round_trip_keeps_order_case_and_equals() {
    let h = <CommentHeader as VorbisComments>::from(
        "Vendör".to_string(),
        vec![
            ("TITLE".to_string(), "a=b".to_string()),
            ("".to_string(), "".to_string()),
            ("artist".to_string(), "Ünïcode ✓".to_string()),
            ("TITLE".to_string(), "second".to_string()),
        ],
    );
    let bytes = make_comment_header(&h).unwrap();
    let back = decode_comment_header(&bytes).unwrap();
    assert_eq!(back.vendor, h.vendor);
    assert_eq!(back.comment_list, h.comment_list);
}

#[test]
fn decode_ignores_bytes_after_framing() {
    let mut b = block(b"v", &[b"k=v"], 1);
    b.extend([9, 9, 9]);
    let h = decode_comment_header(&b).unwrap();
    assert_eq!(h.get_vendor(), "v");
    assert_eq!(h.get_tag_multi("k"), vec!["v".to_string()]);
}

#[test]
fn decode_bad_signature() {
    let mut b = block(b"v", &[], 1);
    b[1] = b'V';
    assert_eq!(decode_comment_header(&b).err(), Some(Error::Decode(DecodeError::BadSignature)));
    assert_eq!(decode_comment_header(&SIG[..5]).err(), Some(Error::Decode(DecodeError::BadSignature)));
}

#[test]
fn decode_truncated() {
    let b = block(b"vendor", &[b"k=v"], 1);
    for cut in [7, 10, 12, 20, 24, b.len() - 1] {
        assert_eq!(
            decode_comment_header(&b[..cut]).err(),
            Some(Error::Decode(DecodeError::Truncated)),
            "cut at {}",
            cut
        );
    }
}

#[test]
fn decode_invalid_utf8() {
    let b = block(&[0xff, 0xfe], &[], 1);
    assert_eq!(decode_comment_header(&b).err(), Some(Error::Decode(DecodeError::InvalidUtf8)));
    let b = block(b"v", &[&[b'k', b'=', 0xc3]], 1);
    assert_eq!(decode_comment_header(&b).err(), Some(Error::Decode(DecodeError::InvalidUtf8)));
    let b = block(b"v", &[&[0xc3, b'k']], 1);
    assert_eq!(decode_comment_header(&b).err(), Some(Error::Decode(DecodeError::InvalidUtf8)));
}

#[test]
fn decode_missing_separator() {
    let b = block(b"v", &[b"a=1", b"novalue"], 1);
    assert_eq!(decode_comment_header(&b).err(), Some(Error::Decode(DecodeError::MissingSeparator)));
}

#[test]
fn decode_bad_framing() {
    let b = block(b"v", &[b"a=1"], 0);
    assert_eq!(decode_comment_header(&b).err(), Some(Error::Decode(DecodeError::BadFraming)));
}

#[test]
fn decode_splits_at_first_separator() {
    let b = block(b"", &[b"key=a=b", b"=x"], 1);
    let h = decode_comment_header(&b).unwrap();
    assert_eq!(
        h.comment_list,
        vec![("key".to_string(), "a=b".to_string()), ("".to_string(), "x".to_string())]
    );
}
