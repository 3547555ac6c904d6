use rgit::codec::{encode, ObjectKind};
use rgit::digest::identity;

#[test]
fn identity_of_known_text() {
    assert_eq!(identity(b"hello world"), "2aae6c35c94fcfb415dbe95f408b9ce91ee846ed");
}

#[test]
fn identity_covers_tag_and_separator() {
    assert_eq!(
        identity(&encode(ObjectKind::Blob, b"hi")),
        "bc0265428e14b775a3c4eb58e2d965575e3e6d97"
    );
    assert_eq!(identity(b"blob\x00hi"), "bc0265428e14b775a3c4eb58e2d965575e3e6d97");
}

#[test]
fn identity_is_stable_across_calls() {
    let encoded = encode(ObjectKind::Tree, b"some listing");
    assert_eq!(identity(&encoded), identity(&encoded));
    assert_eq!(identity(&encoded), identity(&encoded.clone()));
}

#[test]
fn identity_differs_across_kinds() {
    let blob = identity(&encode(ObjectKind::Blob, b"hi"));
    let tree = identity(&encode(ObjectKind::Tree, b"hi"));
    assert_eq!(tree, "0f1d833cbc22954ca1da87d396d6d915fe36793c");
    assert_ne!(blob, tree);
}

#[test]
fn identity_is_forty_lowercase_hex_digits() {
    let hash = identity(b"");
    assert_eq!(hash.len(), 40);
    assert!(hash.chars().all(|c| matches!(c, '0'..='9' | 'a'..='f')));
    assert_eq!(hash, "da39a3ee5e6b4b0d3255bfef95601890afd80709");
}
