//! The canonical byte encoding of an object: the kind's tag, one NUL
//! separator, then the raw content.

use vstd::prelude::*;

verus! {

/// The kind of a stored object.
#[derive(Clone, Copy, Debug, PartialEq, Eq, Structural)]
pub enum ObjectKind {
    /// Raw file bytes.
    Blob,
    /// A serialized directory listing.
    Tree,
}

/// Why a byte sequence is not the encoding of an object.
#[derive(Clone, Copy, Debug, PartialEq, Eq, Structural)]
pub enum CodecError {
    /// The bytes hold no NUL separator.
    MalformedObject,
    /// The bytes before the separator are not the tag of a known kind.
    UnknownKind,
}

/// The separator between tag and content.
pub const SEPARATOR: u8 = 0;

/// The ASCII tag of a kind: `blob` or `tree`.
pub open spec fn tag_bytes(kind: ObjectKind) -> Seq<u8> {
    match kind {
        ObjectKind::Blob => seq![0x62u8, 0x6cu8, 0x6fu8, 0x62u8],
        ObjectKind::Tree => seq![0x74u8, 0x72u8, 0x65u8, 0x65u8],
    }
}

/// The kind whose tag is `tag`, if there is one.
pub open spec fn kind_of_tag(tag: Seq<u8>) -> Option<ObjectKind> {
    if tag == tag_bytes(ObjectKind::Blob) {
        Some(ObjectKind::Blob)
    } else if tag == tag_bytes(ObjectKind::Tree) {
        Some(ObjectKind::Tree)
    } else {
        None
    }
}

/// The encoded form of an object: tag, separator, content.
pub open spec fn spec_encode(kind: ObjectKind, content: Seq<u8>) -> Seq<u8> {
    tag_bytes(kind) + seq![SEPARATOR] + content
}

/// `i` is the position of the first separator byte in `bytes`.
pub open spec fn is_separator_at(bytes: Seq<u8>, i: int) -> bool {
    &&& 0 <= i < bytes.len()
    &&& bytes[i] == SEPARATOR
    &&& forall|j: int| 0 <= j < i ==> bytes[j] != SEPARATOR
}

/// Whether `bytes` holds a separator at all.
pub open spec fn has_separator(bytes: Seq<u8>) -> bool {
    exists|i: int| is_separator_at(bytes, i)
}

/// The position of the first separator byte of `bytes`.
pub open spec fn separator_index(bytes: Seq<u8>) -> int {
    choose|i: int| is_separator_at(bytes, i)
}

/// What `bytes` decode to: split at the first separator, the part before it
/// names the kind, the part after it is the content.
pub open spec fn spec_decode(bytes: Seq<u8>) -> Result<(ObjectKind, Seq<u8>), CodecError> {
    if !has_separator(bytes) {
        Err(CodecError::MalformedObject)
    } else {
        let i = separator_index(bytes);
        match kind_of_tag(bytes.subrange(0, i)) {
            Some(kind) => Ok((kind, bytes.subrange(i + 1, bytes.len() as int))),
            None => Err(CodecError::UnknownKind),
        }
    }
}

/// The first separator of a byte sequence stands at one position only.
pub proof fn separator_unique(bytes: Seq<u8>, i: int, j: int)
    requires
        is_separator_at(bytes, i),
        is_separator_at(bytes, j),
    ensures
        i == j,
{
    if i < j {
        assert(bytes[i] != SEPARATOR);
    } else if j < i {
        assert(bytes[j] != SEPARATOR);
    }
}

/// A byte sequence without any zero byte has no separator, and one with a
/// zero byte has one.
pub proof fn separator_exists_iff_zero(bytes: Seq<u8>)
    ensures
        has_separator(bytes) <==> exists|k: int| 0 <= k < bytes.len() && bytes[k] == SEPARATOR,
{
    if exists|k: int| 0 <= k < bytes.len() && bytes[k] == SEPARATOR {
        let k = choose|k: int| 0 <= k < bytes.len() && bytes[k] == SEPARATOR;
        first_zero_upto(bytes, k);
    }
    if has_separator(bytes) {
        let i = separator_index(bytes);
        assert(0 <= i < bytes.len() && bytes[i] == SEPARATOR);
    }
}

proof fn first_zero_upto(bytes: Seq<u8>, k: int)
    requires
        0 <= k < bytes.len(),
        bytes[k] == SEPARATOR,
    ensures
        has_separator(bytes),
        separator_index(bytes) <= k,
    decreases k,
{
    if forall|j: int| 0 <= j < k ==> bytes[j] != SEPARATOR {
        assert(is_separator_at(bytes, k));
        separator_unique(bytes, k, separator_index(bytes));
    } else {
        let j = choose|j: int| 0 <= j < k && bytes[j] == SEPARATOR;
        first_zero_upto(bytes, j);
    }
}

/// Encoding and then decoding gives back the kind and the content.
pub proof fn decode_encode_roundtrip(kind: ObjectKind, content: Seq<u8>)
    ensures
        spec_decode(spec_encode(kind, content)) == Ok::<(ObjectKind, Seq<u8>), CodecError>(
            (kind, content),
        ),
{
    let bytes = spec_encode(kind, content);
    assert(tag_bytes(kind).len() == 4);
    assert(is_separator_at(bytes, 4));
    separator_unique(bytes, 4, separator_index(bytes));
    assert(bytes.subrange(0, 4) =~= tag_bytes(kind));
    assert(bytes.subrange(5, bytes.len() as int) =~= content);
    assert(tag_bytes(ObjectKind::Blob)[0] != tag_bytes(ObjectKind::Tree)[0]);
}

/// Objects of different kinds never share an encoding, whatever they hold.
pub proof fn encode_separates_kinds(k1: ObjectKind, c1: Seq<u8>, k2: ObjectKind, c2: Seq<u8>)
    requires
        k1 != k2,
    ensures
        spec_encode(k1, c1) != spec_encode(k2, c2),
{
    assert(spec_encode(k1, c1)[0] == tag_bytes(k1)[0]);
    assert(spec_encode(k2, c2)[0] == tag_bytes(k2)[0]);
}

/// An encoding names its object: equal encodings come from equal kinds and
/// equal contents.
pub proof fn encode_injective(k1: ObjectKind, c1: Seq<u8>, k2: ObjectKind, c2: Seq<u8>)
    requires
        spec_encode(k1, c1) == spec_encode(k2, c2),
    ensures
        k1 == k2,
        c1 == c2,
{
    decode_encode_roundtrip(k1, c1);
    decode_encode_roundtrip(k2, c2);
}

impl ObjectKind {
    /// The tag of this kind as bytes.
    pub fn tag(self) -> (res: Vec<u8>)
        ensures
            res@ == tag_bytes(self),
    {
        let mut out: Vec<u8> = Vec::new();
        match self {
            ObjectKind::Blob => {
                out.push(0x62u8);
                out.push(0x6cu8);
                out.push(0x6fu8);
                out.push(0x62u8);
            },
            ObjectKind::Tree => {
                out.push(0x74u8);
                out.push(0x72u8);
                out.push(0x65u8);
                out.push(0x65u8);
            },
        }
        assert(out@ =~= tag_bytes(self));
        out
    }

    /// The kind that `tag` names, if any.
    pub fn from_tag(tag: &[u8]) -> (res: Option<ObjectKind>)
        ensures
            res == kind_of_tag(tag@),
    {
        if tag.len() != 4 {
            assert(tag_bytes(ObjectKind::Blob).len() == 4);
            assert(tag_bytes(ObjectKind::Tree).len() == 4);
            return None;
        }
        if tag[0] == 0x62u8 && tag[1] == 0x6cu8 && tag[2] == 0x6fu8 && tag[3] == 0x62u8 {
            assert(tag@ =~= tag_bytes(ObjectKind::Blob));
            Some(ObjectKind::Blob)
        } else if tag[0] == 0x74u8 && tag[1] == 0x72u8 && tag[2] == 0x65u8 && tag[3] == 0x65u8 {
            assert(tag@ =~= tag_bytes(ObjectKind::Tree));
            assert(tag_bytes(ObjectKind::Blob)[0] != tag@[0]);
            Some(ObjectKind::Tree)
        } else {
            let ghost blob = tag_bytes(ObjectKind::Blob);
            let ghost tree = tag_bytes(ObjectKind::Tree);
            assert(blob[0] == 0x62u8 && blob[1] == 0x6cu8 && blob[2] == 0x6fu8 && blob[3] == 0x62u8);
            assert(tree[0] == 0x74u8 && tree[1] == 0x72u8 && tree[2] == 0x65u8 && tree[3] == 0x65u8);
            None
        }
    }
}

/// Encodes an object: the kind's tag, the separator, then `content`.
pub fn encode(kind: ObjectKind, content: &[u8]) -> (res: Vec<u8>)
    ensures
        res@ == spec_encode(kind, content@),
{
    let mut out = kind.tag();
    out.push(SEPARATOR);
    out.extend_from_slice(content);
    assert(out@ =~= spec_encode(kind, content@));
    out
}

/// The position of the first separator byte in `bytes`, if there is one.
pub fn find_separator(bytes: &[u8]) -> (res: Option<usize>)
    ensures
        match res {
            Some(i) => is_separator_at(bytes@, i as int),
            None => !has_separator(bytes@),
        },
{
    let mut i: usize = 0;
    while i < bytes.len()
        invariant
            i <= bytes.len(),
            forall|j: int| 0 <= j < i ==> bytes@[j] != SEPARATOR,
        decreases bytes.len() - i,
    {
        if bytes[i] == SEPARATOR {
            return Some(i);
        }
        i += 1;
    }
    assert(!has_separator(bytes@)) by {
        if has_separator(bytes@) {
            let k = separator_index(bytes@);
            assert(bytes@[k] == SEPARATOR);
        }
    }
    None
}

/// Decodes an encoded object into its kind and content. Fails with
/// `MalformedObject` exactly when `bytes` hold no separator, and with
/// `UnknownKind` exactly when the bytes before the first separator are not
/// a known tag.
pub fn decode(bytes: &[u8]) -> (res: Result<(ObjectKind, Vec<u8>), CodecError>)
    ensures
        match res {
            Ok((kind, content)) => spec_decode(bytes@) == Ok::<
                (ObjectKind, Seq<u8>),
                CodecError,
            >((kind, content@)),
            Err(e) => spec_decode(bytes@) == Err::<(ObjectKind, Seq<u8>), CodecError>(e),
        },
{
    match find_separator(bytes) {
        None => Err(CodecError::MalformedObject),
        Some(i) => {
            proof {
                separator_unique(bytes@, i as int, separator_index(bytes@));
            }
            let n: usize = bytes.len();
            let tag = vstd::slice::slice_subrange(bytes, 0, i);
            match ObjectKind::from_tag(tag) {
                None => Err(CodecError::UnknownKind),
                Some(kind) => {
                    let rest = vstd::slice::slice_subrange(bytes, i + 1, n);
                    let content = vstd::slice::slice_to_vec(rest);
                    Ok((kind, content))
                },
            }
        },
    }
}

} // verus!
