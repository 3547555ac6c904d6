//! The order in which a directory's children are listed: lexicographic
//! order of the bytes of their names.

use vstd::prelude::*;
use vstd::utf8::{encode_utf8, encode_utf8_decode_utf8};

verus! {

/// `a` and `b` agree on their first `k` bytes.
pub open spec fn common_prefix(a: Seq<u8>, b: Seq<u8>, k: int) -> bool {
    &&& 0 <= k <= a.len()
    &&& k <= b.len()
    &&& forall|j: int| 0 <= j < k ==> a[j] == b[j]
}

/// `a` stands before `b` in lexicographic order: after a common prefix
/// either `a` ends and `b` goes on, or `a` has the smaller byte.
pub open spec fn bytes_lt(a: Seq<u8>, b: Seq<u8>) -> bool {
    exists|k: int| #[trigger]
        common_prefix(a, b, k) && k < b.len() && (k == a.len() || a[k] < b[k])
}

/// The name `a` stands before the name `b`: the order of their UTF-8
/// bytes.
pub open spec fn name_lt(a: Seq<char>, b: Seq<char>) -> bool {
    bytes_lt(encode_utf8(a), encode_utf8(b))
}

/// Where two byte sequences part, the order is decided: a position `k`
/// behind a common prefix at which they differ, or at which one of them
/// ends, settles which one stands first.
pub proof fn bytes_lt_decided_at(a: Seq<u8>, b: Seq<u8>, k: int)
    requires
        common_prefix(a, b, k),
        k == a.len() || k == b.len() || a[k] != b[k],
    ensures
        bytes_lt(a, b) <==> k < b.len() && (k == a.len() || a[k] < b[k]),
{
    if bytes_lt(a, b) {
        let w = choose|w: int| #[trigger]
            common_prefix(a, b, w) && w < b.len() && (w == a.len() || a[w] < b[w]);
        if w < k {
            assert(a[w] == b[w]);
        } else if w > k {
            assert(a[k] == b[k]);
        }
    }
}

/// No byte sequence stands before itself.
pub proof fn bytes_lt_irreflexive(a: Seq<u8>)
    ensures
        !bytes_lt(a, a),
{
    assert(common_prefix(a, a, a.len() as int));
    bytes_lt_decided_at(a, a, a.len() as int);
}

/// Of two byte sequences at most one stands before the other.
pub proof fn bytes_lt_asymmetric(a: Seq<u8>, b: Seq<u8>)
    requires
        bytes_lt(a, b),
    ensures
        !bytes_lt(b, a),
{
    let k = choose|k: int| #[trigger]
        common_prefix(a, b, k) && k < b.len() && (k == a.len() || a[k] < b[k]);
    assert(common_prefix(b, a, k));
    bytes_lt_decided_at(b, a, k);
}

/// The order is transitive.
pub proof fn bytes_lt_transitive(a: Seq<u8>, b: Seq<u8>, c: Seq<u8>)
    requires
        bytes_lt(a, b),
        bytes_lt(b, c),
    ensures
        bytes_lt(a, c),
{
    let k1 = choose|k: int| #[trigger]
        common_prefix(a, b, k) && k < b.len() && (k == a.len() || a[k] < b[k]);
    let k2 = choose|k: int| #[trigger]
        common_prefix(b, c, k) && k < c.len() && (k == b.len() || b[k] < c[k]);
    let k = if k1 <= k2 {
        k1
    } else {
        k2
    };
    assert(common_prefix(a, c, k));
    if k1 < k2 {
        assert(b[k1] == c[k1]);
    } else if k2 < k1 {
        assert(a[k2] == b[k2]);
    }
    assert(k < c.len() && (k == a.len() || a[k] < c[k]));
}

/// The order is total: of two different byte sequences one stands before
/// the other.
pub proof fn bytes_lt_connected(a: Seq<u8>, b: Seq<u8>)
    ensures
        a == b || bytes_lt(a, b) || bytes_lt(b, a),
{
    decided_behind_prefix(a, b, 0);
}

proof fn decided_behind_prefix(a: Seq<u8>, b: Seq<u8>, k: int)
    requires
        common_prefix(a, b, k),
    ensures
        a == b || bytes_lt(a, b) || bytes_lt(b, a),
    decreases a.len() - k,
{
    if k == a.len() || k == b.len() || a[k] != b[k] {
        assert(common_prefix(b, a, k));
        bytes_lt_decided_at(a, b, k);
        bytes_lt_decided_at(b, a, k);
        if k == a.len() && k == b.len() {
            assert(a =~= b);
        }
    } else {
        assert(common_prefix(a, b, k + 1));
        decided_behind_prefix(a, b, k + 1);
    }
}

/// Standing not behind is transitive: if `b` does not stand before `a` and
/// `c` does not stand before `b`, then `c` does not stand before `a`.
pub proof fn bytes_not_behind_transitive(a: Seq<u8>, b: Seq<u8>, c: Seq<u8>)
    requires
        !bytes_lt(b, a),
        !bytes_lt(c, b),
    ensures
        !bytes_lt(c, a),
{
    if bytes_lt(c, a) {
        bytes_lt_connected(a, b);
        if bytes_lt(a, b) {
            bytes_lt_transitive(c, a, b);
        }
    }
}

/// Names are ordered totally: of two different names one stands before
/// the other.
pub proof fn name_lt_connected(a: Seq<char>, b: Seq<char>)
    ensures
        a == b || name_lt(a, b) || name_lt(b, a),
{
    bytes_lt_connected(encode_utf8(a), encode_utf8(b));
    if encode_utf8(a) == encode_utf8(b) {
        encode_utf8_decode_utf8(a);
        encode_utf8_decode_utf8(b);
    }
}

/// Whether `a` stands before `b` in lexicographic order.
pub fn bytes_precede(a: &[u8], b: &[u8]) -> (res: bool)
    ensures
        res == bytes_lt(a@, b@),
{
    let mut i: usize = 0;
    while i < a.len() && i < b.len()
        invariant
            common_prefix(a@, b@, i as int),
        decreases a@.len() - i,
    {
        if a[i] != b[i] {
            proof {
                bytes_lt_decided_at(a@, b@, i as int);
            }
            return a[i] < b[i];
        }
        i += 1;
    }
    proof {
        bytes_lt_decided_at(a@, b@, i as int);
    }
    i < b.len()
}

/// Whether `a` and `b` hold the same bytes.
pub fn bytes_equal(a: &[u8], b: &[u8]) -> (res: bool)
    ensures
        res == (a@ == b@),
{
    if a.len() != b.len() {
        return false;
    }
    let mut i: usize = 0;
    while i < a.len()
        invariant
            a@.len() == b@.len(),
            common_prefix(a@, b@, i as int),
        decreases a@.len() - i,
    {
        if a[i] != b[i] {
            return false;
        }
        i += 1;
    }
    assert(a@ =~= b@);
    true
}

/// Whether `a` and `b` are the same text.
pub fn same_text(a: &str, b: &str) -> (res: bool)
    ensures
        res == (a@ == b@),
{
    proof {
        encode_utf8_decode_utf8(a@);
        encode_utf8_decode_utf8(b@);
    }
    bytes_equal(a.as_bytes(), b.as_bytes())
}

/// Whether the name `a` stands before the name `b`.
pub fn name_precedes(a: &str, b: &str) -> (res: bool)
    ensures
        res == name_lt(a@, b@),
{
    bytes_precede(a.as_bytes(), b.as_bytes())
}

} // verus!
