use rgit::codec::{decode, encode, find_separator, CodecError, ObjectKind};

#[test]
fn encode_blob_is_tag_separator_content() {
    assert_eq!(encode(ObjectKind::Blob, b"hi"), b"blob\x00hi".to_vec());
}

#[test]
fn encode_tree_is_tag_separator_content() {
    assert_eq!(encode(ObjectKind::Tree, b"hi"), b"tree\x00hi".to_vec());
}

#[test]
fn encode_empty_content_ends_with_separator() {
    assert_eq!(encode(ObjectKind::Blob, b""), b"blob\x00".to_vec());
}

#[test]
fn tag_words_are_ascii() {
    assert_eq!(ObjectKind::Blob.tag(), b"blob".to_vec());
    assert_eq!(ObjectKind::Tree.tag(), b"tree".to_vec());
}

#[test]
fn from_tag_knows_both_kinds_only() {
    assert_eq!(ObjectKind::from_tag(b"blob"), Some(ObjectKind::Blob));
    assert_eq!(ObjectKind::from_tag(b"tree"), Some(ObjectKind::Tree));
    assert_eq!(ObjectKind::from_tag(b"commit"), None);
    assert_eq!(ObjectKind::from_tag(b"blo"), None);
    assert_eq!(ObjectKind::from_tag(b"Blob"), None);
    assert_eq!(ObjectKind::from_tag(b""), None);
}

#[test]
fn decode_gives_back_kind_and_content() {
    for kind in [ObjectKind::Blob, ObjectKind::Tree] {
        for content in [&b""[..], &b"hi"[..], &b"a\x00b\x00"[..], &[0u8, 255u8, 10u8][..]] {
            let decoded = decode(&encode(kind, content));
            assert_eq!(decoded, Ok((kind, content.to_vec())));
        }
    }
}

#[test]
fn decode_splits_at_the_first_separator() {
    assert_eq!(decode(b"blob\x00a\x00b"), Ok((ObjectKind::Blob, b"a\x00b".to_vec())));
}

#[test]
fn decode_without_separator_is_malformed() {
    assert_eq!(decode(b"blob hi"), Err(CodecError::MalformedObject));
    assert_eq!(decode(b""), Err(CodecError::MalformedObject));
}

#[test]
fn decode_with_unknown_tag_is_unknown_kind() {
    assert_eq!(decode(b"commit\x00hi"), Err(CodecError::UnknownKind));
    assert_eq!(decode(b"\x00hi"), Err(CodecError::UnknownKind));
    assert_eq!(decode(b"blobs\x00"), Err(CodecError::UnknownKind));
}

#[test]
fn find_separator_gives_the_first_zero() {
    assert_eq!(find_separator(b"ab\x00c\x00"), Some(2));
    assert_eq!(find_separator(b"\x00"), Some(0));
    assert_eq!(find_separator(b"abc"), None);
}

#[test]
fn encodings_of_two_kinds_differ() {
    assert_ne!(encode(ObjectKind::Blob, b"same"), encode(ObjectKind::Tree, b"same"));
}
