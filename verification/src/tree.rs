//! The tree builder: turns the snapshot of a directory into blob and tree
//! objects, depth first, and puts them into the store.

use crate::codec::ObjectKind;
use crate::error::{IoCause, StoreError};
use crate::listing::{
    entry_views, names_identify, serialize_entries, sort_by_name, sort_by_name_ignores_order,
    sort_entries, spec_payload, TreeEntry, TreeEntryView,
};
use crate::store::{object_id, put_keeps_entries, spec_put, ObjectStore};
use vstd::multiset::Multiset;
use vstd::prelude::*;

verus! {

/// What stands under a name in a directory.
pub enum Node {
    /// A file with its bytes.
    File(Vec<u8>),
    /// A directory with its children.
    Dir(Directory),
}

/// One child of a directory.
pub struct DirEntry {
    /// The last segment of the child's path.
    pub name: String,
    /// The child itself.
    pub node: Node,
}

/// The snapshot of a directory: its direct children, each with all that
/// lies below it.
pub struct Directory {
    pub entries: Vec<DirEntry>,
}

/// The kind of object that a node is stored as.
pub open spec fn node_kind(node: Node) -> ObjectKind {
    match node {
        Node::File(_) => ObjectKind::Blob,
        Node::Dir(_) => ObjectKind::Tree,
    }
}

/// The identity hash of the object that a node is stored as, where the
/// store keeps the name `reserved` for itself.
pub open spec fn node_id(node: Node, reserved: Seq<char>) -> Seq<char>
    decreases node, 0int,
{
    match node {
        Node::File(content) => object_id(ObjectKind::Blob, content@),
        Node::Dir(dir) => tree_id(dir, reserved),
    }
}

/// The tree entry that lists `child`: its kind, the identity hash of its
/// object and its name.
pub open spec fn entry_of(child: DirEntry, reserved: Seq<char>) -> TreeEntryView
    decreases child, 0int,
{
    TreeEntryView {
        kind: node_kind(child.node),
        id: node_id(child.node, reserved),
        name: child.name@,
    }
}

/// The tree entries of the first `n` of `children`, in the order of the
/// snapshot, without the children named `reserved`.
pub open spec fn child_entries(children: Seq<DirEntry>, reserved: Seq<char>, n: int) -> Seq<
    TreeEntryView,
>
    decreases children, n,
{
    if n <= 0 || n > children.len() {
        Seq::<TreeEntryView>::empty()
    } else {
        let child = children[n - 1];
        let before = child_entries(children, reserved, n - 1);
        if child.name@ == reserved {
            before
        } else {
            before.push(entry_of(child, reserved))
        }
    }
}

/// The payload of the tree object of `dir`: its children by name, the
/// reserved name left out.
pub open spec fn tree_payload(dir: Directory, reserved: Seq<char>) -> Seq<u8>
    decreases dir, 0int,
{
    spec_payload(sort_by_name(child_entries(dir.entries@, reserved, dir.entries@.len() as int)))
}

/// The identity hash of the tree object of `dir`.
pub open spec fn tree_id(dir: Directory, reserved: Seq<char>) -> Seq<char>
    decreases dir, 1int,
{
    object_id(ObjectKind::Tree, tree_payload(dir, reserved))
}

/// The store after a node and all below it were put into `m`.
pub open spec fn store_after_node(m: Map<Seq<char>, Seq<u8>>, node: Node, reserved: Seq<char>) -> Map<
    Seq<char>,
    Seq<u8>,
>
    decreases node, 0int,
{
    match node {
        Node::File(content) => spec_put(m, ObjectKind::Blob, content@),
        Node::Dir(dir) => store_after_tree(m, dir, reserved),
    }
}

/// The store after the first `n` of `children` were put into `m`, one
/// after the other in the order of the snapshot, the children named
/// `reserved` left out.
pub open spec fn store_after_children(
    m: Map<Seq<char>, Seq<u8>>,
    children: Seq<DirEntry>,
    reserved: Seq<char>,
    n: int,
) -> Map<Seq<char>, Seq<u8>>
    decreases children, n,
{
    if n <= 0 || n > children.len() {
        m
    } else {
        let child = children[n - 1];
        let before = store_after_children(m, children, reserved, n - 1);
        if child.name@ == reserved {
            before
        } else {
            store_after_node(before, child.node, reserved)
        }
    }
}

/// The store after the tree of `dir` was written into `m`: first all that
/// lies below `dir`, then the tree object of `dir` itself.
pub open spec fn store_after_tree(m: Map<Seq<char>, Seq<u8>>, dir: Directory, reserved: Seq<char>) -> Map<
    Seq<char>,
    Seq<u8>,
>
    decreases dir, 0int,
{
    spec_put(
        store_after_children(m, dir.entries@, reserved, dir.entries@.len() as int),
        ObjectKind::Tree,
        tree_payload(dir, reserved),
    )
}

/// Whether `m` holds an entry under the hash of `node` and of every
/// object below it.
pub open spec fn node_stored(m: Map<Seq<char>, Seq<u8>>, node: Node, reserved: Seq<char>) -> bool
    decreases node, 0int,
{
    match node {
        Node::File(content) => m.contains_key(object_id(ObjectKind::Blob, content@)),
        Node::Dir(dir) => children_stored(m, dir.entries@, reserved, dir.entries@.len() as int)
            && m.contains_key(tree_id(dir, reserved)),
    }
}

/// Whether `m` holds an entry for each of the first `n` of `children` and
/// for every object below them, the children named `reserved` left out.
pub open spec fn children_stored(
    m: Map<Seq<char>, Seq<u8>>,
    children: Seq<DirEntry>,
    reserved: Seq<char>,
    n: int,
) -> bool
    decreases children, n,
{
    if n <= 0 || n > children.len() {
        true
    } else {
        let child = children[n - 1];
        children_stored(m, children, reserved, n - 1) && (child.name@ == reserved || node_stored(
            m,
            child.node,
            reserved,
        ))
    }
}

/// Writing a node never changes an entry that was stored before.
pub proof fn write_node_keeps_entries(m: Map<Seq<char>, Seq<u8>>, node: Node, reserved: Seq<char>)
    ensures
        m.submap_of(store_after_node(m, node, reserved)),
    decreases node, 0int,
{
    match node {
        Node::File(content) => {
            put_keeps_entries(m, ObjectKind::Blob, content@);
        },
        Node::Dir(dir) => {
            let below = store_after_children(m, dir.entries@, reserved, dir.entries@.len() as int);
            write_children_keeps_entries(m, dir.entries@, reserved, dir.entries@.len() as int);
            put_keeps_entries(below, ObjectKind::Tree, tree_payload(dir, reserved));
            vstd::map_lib::lemma_submap_of_trans(m, below, store_after_node(m, node, reserved));
        },
    }
}

/// Writing the children of a directory never changes an entry that was
/// stored before.
pub proof fn write_children_keeps_entries(
    m: Map<Seq<char>, Seq<u8>>,
    children: Seq<DirEntry>,
    reserved: Seq<char>,
    n: int,
)
    ensures
        m.submap_of(store_after_children(m, children, reserved, n)),
    decreases children, n,
{
    if n <= 0 || n > children.len() {
    } else {
        let child = children[n - 1];
        let before = store_after_children(m, children, reserved, n - 1);
        write_children_keeps_entries(m, children, reserved, n - 1);
        if child.name@ != reserved {
            let after = store_after_node(before, child.node, reserved);
            write_node_keeps_entries(before, child.node, reserved);
            vstd::map_lib::lemma_submap_of_trans(m, before, after);
        }
    }
}

proof fn node_stored_in_larger(
    m: Map<Seq<char>, Seq<u8>>,
    larger: Map<Seq<char>, Seq<u8>>,
    node: Node,
    reserved: Seq<char>,
)
    requires
        m.submap_of(larger),
        node_stored(m, node, reserved),
    ensures
        node_stored(larger, node, reserved),
    decreases node, 0int,
{
    match node {
        Node::File(content) => {},
        Node::Dir(dir) => {
            children_stored_in_larger(m, larger, dir.entries@, reserved, dir.entries@.len() as int);
        },
    }
}

proof fn children_stored_in_larger(
    m: Map<Seq<char>, Seq<u8>>,
    larger: Map<Seq<char>, Seq<u8>>,
    children: Seq<DirEntry>,
    reserved: Seq<char>,
    n: int,
)
    requires
        m.submap_of(larger),
        children_stored(m, children, reserved, n),
    ensures
        children_stored(larger, children, reserved, n),
    decreases children, n,
{
    if n <= 0 || n > children.len() {
    } else {
        let child = children[n - 1];
        children_stored_in_larger(m, larger, children, reserved, n - 1);
        if child.name@ != reserved {
            node_stored_in_larger(m, larger, child.node, reserved);
        }
    }
}

/// After a node was written the store holds an entry for it and for every
/// object below it.
pub proof fn write_node_stores_all(m: Map<Seq<char>, Seq<u8>>, node: Node, reserved: Seq<char>)
    ensures
        node_stored(store_after_node(m, node, reserved), node, reserved),
    decreases node, 0int,
{
    match node {
        Node::File(content) => {},
        Node::Dir(dir) => {
            let n = dir.entries@.len() as int;
            let below = store_after_children(m, dir.entries@, reserved, n);
            write_children_stores_all(m, dir.entries@, reserved, n);
            children_stored_in_larger(
                below,
                store_after_node(m, node, reserved),
                dir.entries@,
                reserved,
                n,
            );
        },
    }
}

/// After the children of a directory were written the store holds an
/// entry for each of them and for every object below them.
pub proof fn write_children_stores_all(
    m: Map<Seq<char>, Seq<u8>>,
    children: Seq<DirEntry>,
    reserved: Seq<char>,
    n: int,
)
    ensures
        children_stored(store_after_children(m, children, reserved, n), children, reserved, n),
    decreases children, n,
{
    if n <= 0 || n > children.len() {
    } else {
        let child = children[n - 1];
        let before = store_after_children(m, children, reserved, n - 1);
        write_children_stores_all(m, children, reserved, n - 1);
        if child.name@ != reserved {
            let after = store_after_node(before, child.node, reserved);
            write_node_keeps_entries(before, child.node, reserved);
            children_stored_in_larger(before, after, children, reserved, n - 1);
            write_node_stores_all(before, child.node, reserved);
        }
    }
}

/// Writing a node whose objects are all stored changes nothing.
pub proof fn write_stored_node_changes_nothing(
    m: Map<Seq<char>, Seq<u8>>,
    node: Node,
    reserved: Seq<char>,
)
    requires
        node_stored(m, node, reserved),
    ensures
        store_after_node(m, node, reserved) == m,
    decreases node, 0int,
{
    match node {
        Node::File(content) => {},
        Node::Dir(dir) => {
            write_stored_children_changes_nothing(m, dir.entries@, reserved, dir.entries@.len() as int);
        },
    }
}

/// Writing children whose objects are all stored changes nothing.
pub proof fn write_stored_children_changes_nothing(
    m: Map<Seq<char>, Seq<u8>>,
    children: Seq<DirEntry>,
    reserved: Seq<char>,
    n: int,
)
    requires
        children_stored(m, children, reserved, n),
    ensures
        store_after_children(m, children, reserved, n) == m,
    decreases children, n,
{
    if n <= 0 || n > children.len() {
    } else {
        let child = children[n - 1];
        write_stored_children_changes_nothing(m, children, reserved, n - 1);
        if child.name@ != reserved {
            write_stored_node_changes_nothing(m, child.node, reserved);
        }
    }
}

/// Writing the tree of a directory a second time changes nothing: the
/// store after the second call is the store after the first, whatever it
/// held before, and the hash is that of the first call.
pub proof fn write_tree_twice_is_write_tree_once(
    m: Map<Seq<char>, Seq<u8>>,
    dir: Directory,
    reserved: Seq<char>,
)
    ensures
        store_after_tree(store_after_tree(m, dir, reserved), dir, reserved) == store_after_tree(
            m,
            dir,
            reserved,
        ),
        store_after_tree(m, dir, reserved).contains_key(tree_id(dir, reserved)),
        m.submap_of(store_after_tree(m, dir, reserved)),
{
    let node = Node::Dir(dir);
    let once = store_after_tree(m, dir, reserved);
    write_node_stores_all(m, node, reserved);
    write_stored_node_changes_nothing(once, node, reserved);
    write_node_keeps_entries(m, node, reserved);
}

/// No two of `children` share a name.
pub open spec fn names_distinct(children: Seq<DirEntry>) -> bool {
    forall|i: int, j: int|
        0 <= i < j < children.len() ==> #[trigger] children[i].name@ != #[trigger] children[j].name@
}

/// The entries that a tree lists with `child` added to `listed`: `listed`
/// itself where `child` has the reserved name.
pub open spec fn listed_with(
    listed: Multiset<TreeEntryView>,
    child: DirEntry,
    reserved: Seq<char>,
) -> Multiset<TreeEntryView> {
    if child.name@ == reserved {
        listed
    } else {
        listed.insert(entry_of(child, reserved))
    }
}

proof fn child_entries_of_prefix(a: Seq<DirEntry>, b: Seq<DirEntry>, reserved: Seq<char>, n: int)
    requires
        n <= a.len(),
        n <= b.len(),
        forall|i: int| 0 <= i < n ==> a[i] == b[i],
    ensures
        child_entries(a, reserved, n) == child_entries(b, reserved, n),
    decreases n,
{
    if n > 0 {
        child_entries_of_prefix(a, b, reserved, n - 1);
    }
}

proof fn child_entries_of_last(children: Seq<DirEntry>, reserved: Seq<char>)
    requires
        children.len() > 0,
    ensures
        child_entries(children, reserved, children.len() as int).to_multiset() == listed_with(
            child_entries(
                children.drop_last(),
                reserved,
                children.len() - 1,
            ).to_multiset(),
            children.last(),
            reserved,
        ),
{
    let n = children.len() as int;
    child_entries_of_prefix(children, children.drop_last(), reserved, n - 1);
    vstd::seq_lib::to_multiset_build(
        child_entries(children, reserved, n - 1),
        entry_of(children.last(), reserved),
    );
}

proof fn child_entries_without(children: Seq<DirEntry>, reserved: Seq<char>, k: int)
    requires
        0 <= k < children.len(),
    ensures
        child_entries(children, reserved, children.len() as int).to_multiset() == listed_with(
            child_entries(children.remove(k), reserved, children.len() - 1).to_multiset(),
            children[k],
            reserved,
        ),
    decreases children.len(),
{
    let n = children.len() as int;
    let front = children.drop_last();
    child_entries_of_last(children, reserved);
    if k == n - 1 {
        assert(children.remove(k) =~= front);
    } else {
        let rest = children.remove(k);
        child_entries_without(front, reserved, k);
        child_entries_of_last(rest, reserved);
        assert(rest.drop_last() =~= front.remove(k));
        assert(rest.last() == children.last());
        assert(front[k] == children[k]);
        let inner = child_entries(front.remove(k), reserved, n - 2).to_multiset();
        assert(listed_with(listed_with(inner, children[k], reserved), children.last(), reserved)
            =~= listed_with(listed_with(inner, children.last(), reserved), children[k], reserved));
    }
}

proof fn child_entries_of_permutation(a: Seq<DirEntry>, b: Seq<DirEntry>, reserved: Seq<char>)
    requires
        a.to_multiset() == b.to_multiset(),
    ensures
        child_entries(a, reserved, a.len() as int).to_multiset() == child_entries(
            b,
            reserved,
            b.len() as int,
        ).to_multiset(),
    decreases a.len(),
{
    a.to_multiset_ensures();
    b.to_multiset_ensures();
    if a.len() == 0 {
        assert(child_entries(a, reserved, 0) =~= child_entries(b, reserved, 0));
    } else {
        let last = a.last();
        assert(a.contains(last));
        assert(a.to_multiset().count(last) > 0 && b.to_multiset().count(last) > 0);
        assert(b.contains(last));
        let k = choose|k: int| 0 <= k < b.len() && b[k] == last;
        assert(a.remove(a.len() - 1) =~= a.drop_last());
        vstd::seq_lib::to_multiset_remove(a, a.len() - 1);
        vstd::seq_lib::to_multiset_remove(b, k);
        child_entries_of_permutation(a.drop_last(), b.remove(k), reserved);
        child_entries_of_last(a, reserved);
        child_entries_without(b, reserved, k);
    }
}

proof fn child_entry_origin(children: Seq<DirEntry>, reserved: Seq<char>, n: int, j: int)
    requires
        0 <= j < child_entries(children, reserved, n).len(),
    ensures
        exists|i: int|
            0 <= i < children.len() && #[trigger] entry_of(children[i], reserved)
                == child_entries(children, reserved, n)[j],
    decreases n,
{
    if n <= 0 || n > children.len() {
    } else {
        let before = child_entries(children, reserved, n - 1);
        if j < before.len() {
            child_entry_origin(children, reserved, n - 1, j);
            let i = choose|i: int|
                0 <= i < children.len() && #[trigger] entry_of(children[i], reserved) == before[j];
            assert(entry_of(children[i], reserved) == child_entries(children, reserved, n)[j]);
        } else {
            assert(entry_of(children[n - 1], reserved) == child_entries(children, reserved, n)[j]);
        }
    }
}

/// Children of different names are listed under different names: where
/// no two children share a name, a name stands for one tree entry only.
pub proof fn child_entries_identified_by_name(children: Seq<DirEntry>, reserved: Seq<char>)
    requires
        names_distinct(children),
    ensures
        names_identify(child_entries(children, reserved, children.len() as int).to_multiset()),
{
    let listed = child_entries(children, reserved, children.len() as int);
    listed.to_multiset_ensures();
    assert forall|a: TreeEntryView, b: TreeEntryView|
        listed.to_multiset().count(a) > 0 && listed.to_multiset().count(b) > 0 && a.name
            == b.name implies a == b by {
        assert(listed.contains(a) && listed.contains(b));
        let ja = choose|j: int| 0 <= j < listed.len() && listed[j] == a;
        let jb = choose|j: int| 0 <= j < listed.len() && listed[j] == b;
        child_entry_origin(children, reserved, children.len() as int, ja);
        child_entry_origin(children, reserved, children.len() as int, jb);
        let ia = choose|i: int|
            0 <= i < children.len() && #[trigger] entry_of(children[i], reserved) == listed[ja];
        let ib = choose|i: int|
            0 <= i < children.len() && #[trigger] entry_of(children[i], reserved) == listed[jb];
        assert(children[ia].name@ == children[ib].name@);
        if ia < ib {
            assert(children[ia].name@ != children[ib].name@);
        } else if ib < ia {
            assert(children[ib].name@ != children[ia].name@);
        }
    }
}

/// The tree of a directory does not depend on the order in which its
/// children were enumerated: two snapshots that hold the same children,
/// no two of them under one name, have the same payload and the same
/// identity hash.
pub proof fn tree_id_ignores_enumeration_order(a: Directory, b: Directory, reserved: Seq<char>)
    requires
        a.entries@.to_multiset() == b.entries@.to_multiset(),
        names_distinct(a.entries@),
    ensures
        tree_payload(a, reserved) == tree_payload(b, reserved),
        tree_id(a, reserved) == tree_id(b, reserved),
{
    child_entries_of_permutation(a.entries@, b.entries@, reserved);
    child_entries_identified_by_name(a.entries@, reserved);
    sort_by_name_ignores_order(
        child_entries(a.entries@, reserved, a.entries@.len() as int),
        child_entries(b.entries@, reserved, b.entries@.len() as int),
    );
}

/// Writes the tree of `dir` into the store, depth first: each file below
/// `dir` as a blob, each directory as a tree that lists its children by
/// name, and `dir` itself last. A child whose name is the store's reserved
/// name is left out, with all below it. Gives back the identity hash of the
/// tree object of `dir`. Fails, and changes nothing, exactly when the store
/// has no root.
pub fn write_tree(store: &mut ObjectStore, dir: &Directory) -> (res: Result<String, StoreError>)
    ensures
        final(store).is_initialized() == old(store).is_initialized(),
        final(store).reserved_name() == old(store).reserved_name(),
        match res {
            Ok(hash) => {
                &&& old(store).is_initialized()
                &&& hash@ == tree_id(*dir, old(store).reserved_name())
                &&& final(store)@ == store_after_tree(
                    old(store)@,
                    *dir,
                    old(store).reserved_name(),
                )
            },
            Err(e) => {
                &&& !old(store).is_initialized()
                &&& e == StoreError::StorageIoError(IoCause::MissingRoot)
                &&& final(store)@ == old(store)@
            },
        },
    decreases dir,
{
    if !store.initialized() {
        return Err(StoreError::StorageIoError(IoCause::MissingRoot));
    }
    let ghost reserved = store.reserved_name();
    let ghost before = store@;
    let mut listed: Vec<TreeEntry> = Vec::new();
    let mut i: usize = 0;
    assert(entry_views(listed@) =~= child_entries(dir.entries@, reserved, 0));
    while i < dir.entries.len()
        invariant
            i <= dir.entries@.len(),
            store.is_initialized(),
            store.reserved_name() == reserved,
            entry_views(listed@) == child_entries(dir.entries@, reserved, i as int),
            store@ == store_after_children(before, dir.entries@, reserved, i as int),
        decreases dir.entries@.len() - i,
    {
        let child = &dir.entries[i];
        let ghost views = entry_views(listed@);
        let ghost stored = store@;
        if child.name != *store.reserved() {
            let kind: ObjectKind;
            let written: Result<String, StoreError>;
            match &child.node {
                Node::File(content) => {
                    kind = ObjectKind::Blob;
                    written = store.put(ObjectKind::Blob, content.as_slice());
                },
                Node::Dir(sub) => {
                    kind = ObjectKind::Tree;
                    written = write_tree(store, sub);
                },
            }
            match written {
                Ok(id) => {
                    let entry = TreeEntry { kind, id, name: child.name.clone() };
                    listed.push(entry);
                    assert(entry_views(listed@) =~= views.push(entry@));
                    assert(entry@ == entry_of(*child, reserved));
                    assert(store@ == store_after_node(stored, child.node, reserved));
                },
                Err(e) => {
                    return Err(e);
                },
            }
        }
        i += 1;
    }
    let sorted = sort_entries(&listed);
    let payload = serialize_entries(&sorted);
    store.put(ObjectKind::Tree, payload.as_slice())
}

} // verus!
