//! The object store: a map from identity hash to encoded object, with
//! idempotent insertion and retrieval that checks the kind.

use crate::codec::{decode, encode, spec_decode, spec_encode, ObjectKind};
use crate::digest::{identity, spec_identity};
use crate::error::{spec_from_codec, IoCause, StoreError};
use crate::order::same_text;
use vstd::prelude::*;

verus! {

/// The identity hash of the object of kind `kind` that holds `content`.
pub open spec fn object_id(kind: ObjectKind, content: Seq<u8>) -> Seq<char> {
    spec_identity(spec_encode(kind, content))
}

/// The store after an object was put into `m`: the object's encoding stands
/// under its identity hash, unless that key was taken already.
pub open spec fn spec_put(m: Map<Seq<char>, Seq<u8>>, kind: ObjectKind, content: Seq<u8>) -> Map<
    Seq<char>,
    Seq<u8>,
> {
    spec_put_encoded(m, object_id(kind, content), spec_encode(kind, content))
}

/// The store after `bytes` were stored under `key`: an entry that exists is
/// never replaced.
pub open spec fn spec_put_encoded(m: Map<Seq<char>, Seq<u8>>, key: Seq<char>, bytes: Seq<u8>) -> Map<
    Seq<char>,
    Seq<u8>,
> {
    if m.contains_key(key) {
        m
    } else {
        m.insert(key, bytes)
    }
}

/// What opening stored bytes gives: the content behind the tag, or the
/// reason why the bytes are refused.
pub open spec fn spec_open(bytes: Seq<u8>, expected: Option<ObjectKind>) -> Result<
    Seq<u8>,
    StoreError,
> {
    match spec_decode(bytes) {
        Err(e) => Err(spec_from_codec(e)),
        Ok((actual, content)) => match expected {
            Some(wanted) => if wanted == actual {
                Ok(content)
            } else {
                Err(StoreError::KindMismatch { expected: wanted, actual })
            },
            None => Ok(content),
        },
    }
}

/// What retrieving `hash` from `m` gives.
pub open spec fn spec_get(m: Map<Seq<char>, Seq<u8>>, hash: Seq<char>, expected: Option<ObjectKind>) -> Result<
    Seq<u8>,
    StoreError,
> {
    if m.contains_key(hash) {
        spec_open(m[hash], expected)
    } else {
        Err(StoreError::ObjectNotFound)
    }
}

/// Whether an executable result of opening or retrieving agrees with the
/// result that the model gives.
pub open spec fn result_matches(res: Result<Vec<u8>, StoreError>, model: Result<Seq<u8>, StoreError>) -> bool {
    match res {
        Ok(content) => model == Ok::<Seq<u8>, StoreError>(content@),
        Err(e) => model == Err::<Seq<u8>, StoreError>(e),
    }
}

/// Opens stored bytes: decodes them and, where a kind is expected, checks
/// that the object is of that kind. Gives back the content without its tag.
pub fn open_object(bytes: &[u8], expected: Option<ObjectKind>) -> (res: Result<Vec<u8>, StoreError>)
    ensures
        result_matches(res, spec_open(bytes@, expected)),
{
    match decode(bytes) {
        Err(e) => Err(StoreError::from_codec(e)),
        Ok((actual, content)) => match expected {
            Some(wanted) => {
                if wanted == actual {
                    Ok(content)
                } else {
                    Err(StoreError::KindMismatch { expected: wanted, actual })
                }
            },
            None => Ok(content),
        },
    }
}

/// Putting an object a second time changes nothing: its hash holds one
/// entry after the first call and the same entry after the second, and
/// every retrieval gives after the second call what it gave after the first.
pub proof fn put_twice_is_put_once(
    m: Map<Seq<char>, Seq<u8>>,
    kind: ObjectKind,
    content: Seq<u8>,
    hash: Seq<char>,
    expected: Option<ObjectKind>,
)
    ensures
        spec_put(spec_put(m, kind, content), kind, content) == spec_put(m, kind, content),
        spec_put(m, kind, content).dom() == m.dom().insert(object_id(kind, content)),
        spec_get(spec_put(spec_put(m, kind, content), kind, content), hash, expected) == spec_get(
            spec_put(m, kind, content),
            hash,
            expected,
        ),
{
    assert(spec_put(m, kind, content).dom() =~= m.dom().insert(object_id(kind, content)));
}

/// Putting an object never changes an entry that was stored before.
pub proof fn put_keeps_entries(m: Map<Seq<char>, Seq<u8>>, kind: ObjectKind, content: Seq<u8>)
    ensures
        m.submap_of(spec_put(m, kind, content)),
{
}

/// An object that was put can be retrieved under its hash, with its kind
/// or with no kind expected, unless other bytes stood under that hash
/// before.
pub proof fn get_after_put(m: Map<Seq<char>, Seq<u8>>, kind: ObjectKind, content: Seq<u8>)
    requires
        m.contains_key(object_id(kind, content)) ==> m[object_id(kind, content)] == spec_encode(
            kind,
            content,
        ),
    ensures
        spec_get(spec_put(m, kind, content), object_id(kind, content), None) == Ok::<
            Seq<u8>,
            StoreError,
        >(content),
        spec_get(spec_put(m, kind, content), object_id(kind, content), Some(kind)) == Ok::<
            Seq<u8>,
            StoreError,
        >(content),
{
    crate::codec::decode_encode_roundtrip(kind, content);
}

/// Retrieval enforces the kind: an object that was put as one kind is
/// refused with `KindMismatch`, naming both kinds, when another kind is
/// expected, unless other bytes stood under its hash before.
pub proof fn get_enforces_kind(
    m: Map<Seq<char>, Seq<u8>>,
    kind: ObjectKind,
    content: Seq<u8>,
    wanted: ObjectKind,
)
    requires
        wanted != kind,
        m.contains_key(object_id(kind, content)) ==> m[object_id(kind, content)] == spec_encode(
            kind,
            content,
        ),
    ensures
        spec_get(spec_put(m, kind, content), object_id(kind, content), Some(wanted)) == Err::<
            Seq<u8>,
            StoreError,
        >(StoreError::KindMismatch { expected: wanted, actual: kind }),
{
    crate::codec::decode_encode_roundtrip(kind, content);
}

/// Retrieving a hash under which nothing was stored fails with
/// `ObjectNotFound`, whatever kind is expected.
pub proof fn get_missing_is_not_found(
    m: Map<Seq<char>, Seq<u8>>,
    hash: Seq<char>,
    expected: Option<ObjectKind>,
)
    requires
        !m.contains_key(hash),
    ensures
        spec_get(m, hash, expected) == Err::<Seq<u8>, StoreError>(StoreError::ObjectNotFound),
{
}

/// One stored entry: the key and the encoded bytes that stand under it.
struct StoredObject {
    key: String,
    bytes: Vec<u8>,
}

/// The object store. It carries the name of its reserved directory, knows
/// whether its root was created, and holds the stored entries.
pub struct ObjectStore {
    reserved: String,
    initialized: bool,
    entries: Vec<StoredObject>,
}

/// Whether some entry of `entries` has the key `key`.
spec fn has_key(entries: Seq<StoredObject>, key: Seq<char>) -> bool {
    exists|i: int| 0 <= i < entries.len() && #[trigger] entries[i].key@ == key
}

/// The position of an entry with the key `key`.
spec fn index_of_key(entries: Seq<StoredObject>, key: Seq<char>) -> int {
    choose|i: int| 0 <= i < entries.len() && #[trigger] entries[i].key@ == key
}

/// The map that a list of entries stands for.
spec fn entries_map(entries: Seq<StoredObject>) -> Map<Seq<char>, Seq<u8>> {
    Map::new(
        |key: Seq<char>| has_key(entries, key),
        |key: Seq<char>| entries[index_of_key(entries, key)].bytes@,
    )
}

/// No two entries share a key.
spec fn keys_distinct(entries: Seq<StoredObject>) -> bool {
    forall|i: int, j: int|
        0 <= i < j < entries.len() ==> #[trigger] entries[i].key@ != #[trigger] entries[j].key@
}

proof fn entries_map_at(entries: Seq<StoredObject>, i: int)
    requires
        keys_distinct(entries),
        0 <= i < entries.len(),
    ensures
        has_key(entries, entries[i].key@),
        index_of_key(entries, entries[i].key@) == i,
        entries_map(entries).contains_key(entries[i].key@),
        entries_map(entries)[entries[i].key@] == entries[i].bytes@,
{
    let key = entries[i].key@;
    assert(has_key(entries, key));
    let j = index_of_key(entries, key);
    assert(0 <= j < entries.len() && entries[j].key@ == key);
    if i < j {
        assert(entries[i].key@ != entries[j].key@);
    } else if j < i {
        assert(entries[j].key@ != entries[i].key@);
    }
}

proof fn entries_map_push(entries: Seq<StoredObject>, entry: StoredObject)
    requires
        keys_distinct(entries),
        !has_key(entries, entry.key@),
    ensures
        keys_distinct(entries.push(entry)),
        entries_map(entries.push(entry)) == entries_map(entries).insert(entry.key@, entry.bytes@),
{
    let after = entries.push(entry);
    assert forall|i: int, j: int| 0 <= i < j < after.len() implies #[trigger] after[i].key@
        != #[trigger] after[j].key@ by {
        if j == entries.len() {
            assert(after[i] == entries[i]);
            assert(entries[i].key@ != entry.key@);
        } else {
            assert(after[i] == entries[i] && after[j] == entries[j]);
        }
    }
    let lhs = entries_map(after);
    let rhs = entries_map(entries).insert(entry.key@, entry.bytes@);
    assert forall|key: Seq<char>| lhs.contains_key(key) <==> rhs.contains_key(key) by {
        if has_key(after, key) {
            let i = index_of_key(after, key);
            if i < entries.len() {
                assert(entries[i].key@ == key);
            }
        }
        if has_key(entries, key) {
            let i = index_of_key(entries, key);
            assert(after[i].key@ == key);
        }
        if key == entry.key@ {
            assert(after[entries.len() as int].key@ == key);
        }
    }
    assert forall|key: Seq<char>| lhs.contains_key(key) implies lhs[key] == rhs[key] by {
        let i = index_of_key(after, key);
        entries_map_at(after, i);
        if i < entries.len() {
            assert(after[i] == entries[i]);
            entries_map_at(entries, i);
        }
    }
    assert(lhs =~= rhs);
}

impl View for ObjectStore {
    type V = Map<Seq<char>, Seq<u8>>;

    /// The stored entries: encoded bytes by key.
    closed spec fn view(&self) -> Map<Seq<char>, Seq<u8>> {
        entries_map(self.entries@)
    }
}

impl ObjectStore {
    #[verifier::type_invariant]
    spec fn inv(&self) -> bool {
        &&& keys_distinct(self.entries@)
        &&& entries_map(self.entries@).dom().finite()
        &&& entries_map(self.entries@).dom().len() == self.entries@.len()
    }

    /// Whether the store root was created.
    pub closed spec fn is_initialized(&self) -> bool {
        self.initialized
    }

    /// The name of the directory that the store keeps for itself.
    pub closed spec fn reserved_name(&self) -> Seq<char> {
        self.reserved@
    }

    /// A store without a root and without entries, which keeps the
    /// directory `reserved` for itself.
    pub fn new(reserved: String) -> (res: ObjectStore)
        ensures
            !res.is_initialized(),
            res.reserved_name() == reserved@,
            res@ == Map::<Seq<char>, Seq<u8>>::empty(),
    {
        let entries: Vec<StoredObject> = Vec::new();
        assert(entries_map(entries@) =~= Map::<Seq<char>, Seq<u8>>::empty());
        ObjectStore { reserved, initialized: false, entries }
    }

    /// Whether the store root was created.
    pub fn initialized(&self) -> (res: bool)
        ensures
            res == self.is_initialized(),
    {
        self.initialized
    }

    /// The name of the directory that the store keeps for itself.
    pub fn reserved(&self) -> (res: &String)
        ensures
            res@ == self.reserved_name(),
    {
        &self.reserved
    }

    /// Creates the store root. Fails with `AlreadyInitialized`, and changes
    /// nothing, exactly when the root exists already.
    pub fn initialize(&mut self) -> (res: Result<(), StoreError>)
        ensures
            final(self)@ == old(self)@,
            final(self).reserved_name() == old(self).reserved_name(),
            final(self).is_initialized(),
            res.is_ok() <==> !old(self).is_initialized(),
            res.is_err() ==> res == Err::<(), StoreError>(StoreError::AlreadyInitialized),
    {
        proof {
            use_type_invariant(&*self);
        }
        if self.initialized {
            Err(StoreError::AlreadyInitialized)
        } else {
            self.initialized = true;
            Ok(())
        }
    }

    fn position(&self, key: &str) -> (res: Option<usize>)
        ensures
            match res {
                Some(i) => i < self.entries@.len() && self.entries@[i as int].key@ == key@,
                None => !has_key(self.entries@, key@),
            },
    {
        let mut i: usize = 0;
        while i < self.entries.len()
            invariant
                i <= self.entries@.len(),
                forall|j: int| 0 <= j < i ==> self.entries@[j].key@ != key@,
            decreases self.entries@.len() - i,
        {
            if same_text(self.entries[i].key.as_str(), key) {
                return Some(i);
            }
            i += 1;
        }
        None
    }

    /// The number of stored entries.
    pub fn len(&self) -> (res: usize)
        ensures
            self@.dom().finite(),
            res == self@.dom().len(),
    {
        proof {
            use_type_invariant(self);
        }
        self.entries.len()
    }

    /// Whether an entry stands under `hash`.
    pub fn contains(&self, hash: &str) -> (res: bool)
        ensures
            res == self@.contains_key(hash@),
    {
        self.position(hash).is_some()
    }

    /// The encoded bytes that stand under `hash`, as they were stored.
    pub fn lookup(&self, hash: &str) -> (res: Option<&Vec<u8>>)
        ensures
            match res {
                Some(bytes) => self@.contains_key(hash@) && bytes@ == self@[hash@],
                None => !self@.contains_key(hash@),
            },
    {
        proof {
            use_type_invariant(self);
        }
        match self.position(hash) {
            Some(i) => {
                proof {
                    entries_map_at(self.entries@, i as int);
                }
                Some(&self.entries[i].bytes)
            },
            None => None,
        }
    }

    /// The keys of all stored entries, each once.
    pub fn keys(&self) -> (res: Vec<String>)
        ensures
            res@.len() == self@.dom().len(),
            forall|i: int| 0 <= i < res@.len() ==> self@.contains_key(#[trigger] res@[i]@),
            forall|key: Seq<char>|
                self@.contains_key(key) ==> exists|i: int|
                    0 <= i < res@.len() && #[trigger] res@[i]@ == key,
            forall|i: int, j: int|
                0 <= i < j < res@.len() ==> #[trigger] res@[i]@ != #[trigger] res@[j]@,
    {
        proof {
            use_type_invariant(self);
        }
        let mut out: Vec<String> = Vec::new();
        let mut i: usize = 0;
        while i < self.entries.len()
            invariant
                i <= self.entries@.len(),
                out@.len() == i,
                forall|j: int| 0 <= j < i ==> #[trigger] out@[j]@ == self.entries@[j].key@,
            decreases self.entries@.len() - i,
        {
            out.push(self.entries[i].key.clone());
            i += 1;
        }
        assert forall|j: int| 0 <= j < out@.len() implies self@.contains_key(
            #[trigger] out@[j]@,
        ) by {
            entries_map_at(self.entries@, j);
        }
        assert forall|key: Seq<char>| self@.contains_key(key) implies exists|j: int|
            0 <= j < out@.len() && #[trigger] out@[j]@ == key by {
            let j = index_of_key(self.entries@, key);
            assert(out@[j]@ == key);
        }
        assert forall|a: int, b: int| 0 <= a < b < out@.len() implies #[trigger] out@[a]@
            != #[trigger] out@[b]@ by {
            assert(self.entries@[a].key@ != self.entries@[b].key@);
        }
        out
    }

    /// Stores bytes that are encoded already under `key`. An entry that
    /// exists under `key` is kept as it is. Fails, and changes nothing,
    /// exactly when the store has no root.
    pub fn put_encoded(&mut self, key: String, bytes: Vec<u8>) -> (res: Result<(), StoreError>)
        ensures
            final(self).is_initialized() == old(self).is_initialized(),
            final(self).reserved_name() == old(self).reserved_name(),
            res.is_ok() <==> old(self).is_initialized(),
            res.is_ok() ==> final(self)@ == spec_put_encoded(old(self)@, key@, bytes@),
            res.is_err() ==> final(self)@ == old(self)@ && res == Err::<(), StoreError>(
                StoreError::StorageIoError(IoCause::MissingRoot),
            ),
    {
        proof {
            use_type_invariant(&*self);
        }
        if !self.initialized {
            return Err(StoreError::StorageIoError(IoCause::MissingRoot));
        }
        if self.position(key.as_str()).is_none() {
            let entry = StoredObject { key, bytes };
            proof {
                entries_map_push(self.entries@, entry);
                assert(entries_map(Seq::<StoredObject>::empty()) =~= Map::<
                    Seq<char>,
                    Seq<u8>,
                >::empty());
            }
            let mut entries: Vec<StoredObject> = Vec::new();
            core::mem::swap(&mut self.entries, &mut entries);
            entries.push(entry);
            core::mem::swap(&mut self.entries, &mut entries);
        }
        Ok(())
    }

    /// Puts an object into the store and gives back its identity hash.
    /// Putting an object whose hash is stored already changes nothing.
    /// Fails, and changes nothing, exactly when the store has no root.
    pub fn put(&mut self, kind: ObjectKind, content: &[u8]) -> (res: Result<String, StoreError>)
        ensures
            final(self).is_initialized() == old(self).is_initialized(),
            final(self).reserved_name() == old(self).reserved_name(),
            match res {
                Ok(hash) => {
                    &&& old(self).is_initialized()
                    &&& hash@ == object_id(kind, content@)
                    &&& final(self)@ == spec_put(old(self)@, kind, content@)
                },
                Err(e) => {
                    &&& !old(self).is_initialized()
                    &&& e == StoreError::StorageIoError(IoCause::MissingRoot)
                    &&& final(self)@ == old(self)@
                },
            },
    {
        let encoded = encode(kind, content);
        let hash = identity(encoded.as_slice());
        match self.put_encoded(hash.clone(), encoded) {
            Ok(()) => Ok(hash),
            Err(e) => Err(e),
        }
    }

    /// Retrieves the content of the object stored under `hash`. Fails with
    /// `ObjectNotFound` exactly when no entry stands under `hash`; otherwise
    /// the stored bytes are opened as `open_object` does.
    pub fn get(&self, hash: &str, expected: Option<ObjectKind>) -> (res: Result<
        Vec<u8>,
        StoreError,
    >)
        ensures
            result_matches(res, spec_get(self@, hash@, expected)),
    {
        match self.lookup(hash) {
            Some(bytes) => open_object(bytes.as_slice(), expected),
            None => Err(StoreError::ObjectNotFound),
        }
    }
}

} // verus!
