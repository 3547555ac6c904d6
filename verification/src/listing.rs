//! The payload of a tree object: one line for each child, the children in
//! the order of their names.

use crate::codec::{tag_bytes, ObjectKind};
use crate::order::{name_lt, name_lt_connected, name_precedes};
use vstd::multiset::Multiset;
use vstd::prelude::*;
use vstd::utf8::encode_utf8;

verus! {

/// The byte between the fields of a line.
pub const FIELD_SPACE: u8 = 0x20;

/// The byte that ends a line.
pub const LINE_END: u8 = 0x0a;

/// One child of a directory as a tree object lists it.
pub struct TreeEntry {
    /// Whether the child is a file or a directory.
    pub kind: ObjectKind,
    /// The identity hash of the child's object.
    pub id: String,
    /// The child's name: the last segment of its path.
    pub name: String,
}

/// A tree entry as plain values.
pub struct TreeEntryView {
    pub kind: ObjectKind,
    pub id: Seq<char>,
    pub name: Seq<char>,
}

impl View for TreeEntry {
    type V = TreeEntryView;

    open spec fn view(&self) -> TreeEntryView {
        TreeEntryView { kind: self.kind, id: self.id@, name: self.name@ }
    }
}

/// The entries of a list as plain values.
pub open spec fn entry_views(entries: Seq<TreeEntry>) -> Seq<TreeEntryView> {
    entries.map_values(|e: TreeEntry| e@)
}

/// The line of one entry: kind word, hash and name, a space between them
/// and a line feed behind them.
pub open spec fn entry_line(e: TreeEntryView) -> Seq<u8> {
    tag_bytes(e.kind) + seq![FIELD_SPACE] + encode_utf8(e.id) + seq![FIELD_SPACE] + encode_utf8(
        e.name,
    ) + seq![LINE_END]
}

/// The payload of a tree object that lists `entries` in this order: their
/// lines, one after the other.
pub open spec fn spec_payload(entries: Seq<TreeEntryView>) -> Seq<u8>
    decreases entries.len(),
{
    if entries.len() == 0 {
        Seq::<u8>::empty()
    } else {
        spec_payload(entries.drop_last()) + entry_line(entries.last())
    }
}

/// `sorted` with `e` put in behind the last entry whose name does not
/// stand behind that of `e`.
pub open spec fn insert_by_name(sorted: Seq<TreeEntryView>, e: TreeEntryView) -> Seq<TreeEntryView>
    decreases sorted.len(),
{
    if sorted.len() == 0 {
        seq![e]
    } else if name_lt(e.name, sorted.last().name) {
        insert_by_name(sorted.drop_last(), e).push(sorted.last())
    } else {
        sorted.push(e)
    }
}

/// The entries in the order of their names; entries of one name keep the
/// order in which they came.
pub open spec fn sort_by_name(entries: Seq<TreeEntryView>) -> Seq<TreeEntryView>
    decreases entries.len(),
{
    if entries.len() == 0 {
        Seq::<TreeEntryView>::empty()
    } else {
        insert_by_name(sort_by_name(entries.drop_last()), entries.last())
    }
}

/// Putting an entry in by name is an insertion at the position behind
/// which every name stands behind the new one, and before which the next
/// name does not.
pub proof fn insert_by_name_at(sorted: Seq<TreeEntryView>, e: TreeEntryView, p: int)
    requires
        0 <= p <= sorted.len(),
        forall|k: int| p <= k < sorted.len() ==> name_lt(e.name, #[trigger] sorted[k].name),
        p == 0 || !name_lt(e.name, sorted[p - 1].name),
    ensures
        insert_by_name(sorted, e) == sorted.insert(p, e),
    decreases sorted.len(),
{
    if sorted.len() == 0 {
        assert(sorted.insert(p, e) =~= seq![e]);
    } else if p == sorted.len() {
        assert(sorted.insert(p, e) =~= sorted.push(e));
    } else {
        let front = sorted.drop_last();
        assert(name_lt(e.name, sorted[sorted.len() - 1].name));
        assert forall|k: int| p <= k < front.len() implies name_lt(
            e.name,
            #[trigger] front[k].name,
        ) by {
            assert(front[k] == sorted[k]);
        }
        insert_by_name_at(front, e, p);
        assert(front.insert(p, e).push(sorted.last()) =~= sorted.insert(p, e));
    }
}

/// Whether the entries stand in the order of their names: no entry's name
/// stands before the name of an entry in front of it.
pub open spec fn in_name_order(entries: Seq<TreeEntryView>) -> bool {
    forall|i: int, j: int|
        0 <= i < j < entries.len() ==> !name_lt(
            #[trigger] entries[j].name,
            #[trigger] entries[i].name,
        )
}

/// Putting an entry in by name keeps the order of names and adds that
/// entry, and nothing else, to what the list holds.
pub proof fn insert_by_name_keeps_order(sorted: Seq<TreeEntryView>, e: TreeEntryView)
    requires
        in_name_order(sorted),
    ensures
        in_name_order(insert_by_name(sorted, e)),
        insert_by_name(sorted, e).len() == sorted.len() + 1,
        insert_by_name(sorted, e).to_multiset() == sorted.to_multiset().insert(e),
    decreases sorted.len(),
{
    let res = insert_by_name(sorted, e);
    if sorted.len() == 0 {
        assert(res =~= Seq::<TreeEntryView>::empty().push(e));
        assert(sorted =~= Seq::<TreeEntryView>::empty());
        vstd::seq_lib::to_multiset_build(sorted, e);
    } else if name_lt(e.name, sorted.last().name) {
        let front = sorted.drop_last();
        let last = sorted.last();
        let inner = insert_by_name(front, e);
        assert forall|i: int, j: int| 0 <= i < j < front.len() implies !name_lt(
            #[trigger] front[j].name,
            #[trigger] front[i].name,
        ) by {
            assert(front[i] == sorted[i] && front[j] == sorted[j]);
        }
        insert_by_name_keeps_order(front, e);
        assert(sorted =~= front.push(last));
        vstd::seq_lib::to_multiset_build(front, last);
        vstd::seq_lib::to_multiset_build(inner, last);
        assert(res.to_multiset() =~= sorted.to_multiset().insert(e));
        // every entry of `inner` is `e` or an entry of `front`
        assert forall|i: int| 0 <= i < inner.len() implies !name_lt(
            last.name,
            #[trigger] inner[i].name,
        ) by {
            let x = inner[i];
            assert(inner.contains(x));
            inner.to_multiset_ensures();
            front.to_multiset_ensures();
            assert(front.to_multiset().insert(e).count(x) > 0);
            if x == e {
                crate::order::bytes_lt_asymmetric(
                    vstd::utf8::encode_utf8(e.name),
                    vstd::utf8::encode_utf8(last.name),
                );
            } else {
                assert(front.to_multiset().count(x) > 0);
                assert(front.contains(x));
                let k = choose|k: int| 0 <= k < front.len() && front[k] == x;
                assert(sorted[k] == x);
                assert(!name_lt(sorted[sorted.len() - 1].name, sorted[k].name));
            }
        }
        assert forall|i: int, j: int| 0 <= i < j < res.len() implies !name_lt(
            #[trigger] res[j].name,
            #[trigger] res[i].name,
        ) by {
            if j < inner.len() {
                assert(res[i] == inner[i] && res[j] == inner[j]);
            } else {
                assert(res[i] == inner[i] && res[j] == last);
            }
        }
    } else {
        vstd::seq_lib::to_multiset_build(sorted, e);
        assert forall|i: int, j: int| 0 <= i < j < res.len() implies !name_lt(
            #[trigger] res[j].name,
            #[trigger] res[i].name,
        ) by {
            if j < sorted.len() {
                assert(res[i] == sorted[i] && res[j] == sorted[j]);
            } else {
                assert(res[i] == sorted[i] && res[j] == e);
                if i < sorted.len() - 1 {
                    assert(!name_lt(sorted[sorted.len() - 1].name, sorted[i].name));
                    crate::order::bytes_not_behind_transitive(
                        vstd::utf8::encode_utf8(sorted[i].name),
                        vstd::utf8::encode_utf8(sorted.last().name),
                        vstd::utf8::encode_utf8(e.name),
                    );
                }
            }
        }
    }
}

/// Sorting by name gives the same entries, each as often as before, in
/// the order of their names.
pub proof fn sort_by_name_sorts(entries: Seq<TreeEntryView>)
    ensures
        in_name_order(sort_by_name(entries)),
        sort_by_name(entries).len() == entries.len(),
        sort_by_name(entries).to_multiset() == entries.to_multiset(),
    decreases entries.len(),
{
    if entries.len() == 0 {
        assert(entries =~= Seq::<TreeEntryView>::empty());
    } else {
        let front = entries.drop_last();
        sort_by_name_sorts(front);
        insert_by_name_keeps_order(sort_by_name(front), entries.last());
        assert(entries =~= front.push(entries.last()));
        vstd::seq_lib::to_multiset_build(front, entries.last());
    }
}

/// Whether a name stands for one entry only: entries of `entries` that
/// share a name are equal.
pub open spec fn names_identify(entries: Multiset<TreeEntryView>) -> bool {
    forall|a: TreeEntryView, b: TreeEntryView|
        entries.count(a) > 0 && entries.count(b) > 0 && a.name == b.name ==> a == b
}

/// Where a name stands for one entry only, the order of names leaves one
/// way to list given entries: two lists in name order that hold the same
/// entries are the same list.
pub proof fn name_order_is_unique(u: Seq<TreeEntryView>, v: Seq<TreeEntryView>)
    requires
        in_name_order(u),
        in_name_order(v),
        u.to_multiset() == v.to_multiset(),
        names_identify(u.to_multiset()),
    ensures
        u == v,
    decreases u.len(),
{
    u.to_multiset_ensures();
    v.to_multiset_ensures();
    if u.len() == 0 {
        assert(u =~= v);
    } else {
        let a = u.last();
        let b = v.last();
        assert(u.contains(a));
        assert(v.contains(b));
        assert(u.to_multiset().count(a) > 0 && v.to_multiset().count(a) > 0);
        assert(v.to_multiset().count(b) > 0 && u.to_multiset().count(b) > 0);
        assert(v.contains(a) && u.contains(b));
        let k = choose|k: int| 0 <= k < v.len() && v[k] == a;
        let j = choose|j: int| 0 <= j < u.len() && u[j] == b;
        if k != v.len() - 1 && j != u.len() - 1 {
            assert(!name_lt(v[v.len() - 1].name, v[k].name));
            assert(!name_lt(u[u.len() - 1].name, u[j].name));
            name_lt_connected(a.name, b.name);
        }
        assert(a == b);
        let front_u = u.drop_last();
        let front_v = v.drop_last();
        assert(u.remove(u.len() - 1) =~= front_u);
        assert(v.remove(v.len() - 1) =~= front_v);
        vstd::seq_lib::to_multiset_remove(u, u.len() - 1);
        vstd::seq_lib::to_multiset_remove(v, v.len() - 1);
        assert forall|x: int, y: int| 0 <= x < y < front_u.len() implies !name_lt(
            #[trigger] front_u[y].name,
            #[trigger] front_u[x].name,
        ) by {
            assert(front_u[x] == u[x] && front_u[y] == u[y]);
        }
        assert forall|x: int, y: int| 0 <= x < y < front_v.len() implies !name_lt(
            #[trigger] front_v[y].name,
            #[trigger] front_v[x].name,
        ) by {
            assert(front_v[x] == v[x] && front_v[y] == v[y]);
        }
        name_order_is_unique(front_u, front_v);
        assert(u =~= front_u.push(a));
        assert(v =~= front_v.push(b));
    }
}

/// Where a name stands for one entry only, sorting by name gives the same
/// list in whatever order the entries came.
pub proof fn sort_by_name_ignores_order(x: Seq<TreeEntryView>, y: Seq<TreeEntryView>)
    requires
        x.to_multiset() == y.to_multiset(),
        names_identify(x.to_multiset()),
    ensures
        sort_by_name(x) == sort_by_name(y),
{
    sort_by_name_sorts(x);
    sort_by_name_sorts(y);
    name_order_is_unique(sort_by_name(x), sort_by_name(y));
}

impl TreeEntry {
    /// A copy of this entry.
    pub fn duplicate(&self) -> (res: TreeEntry)
        ensures
            res@ == self@,
    {
        TreeEntry { kind: self.kind, id: self.id.clone(), name: self.name.clone() }
    }
}

/// The entries in the order of their names.
pub fn sort_entries(entries: &Vec<TreeEntry>) -> (res: Vec<TreeEntry>)
    ensures
        entry_views(res@) == sort_by_name(entry_views(entries@)),
{
    let mut out: Vec<TreeEntry> = Vec::new();
    let mut i: usize = 0;
    assert(entry_views(entries@).subrange(0, 0) =~= Seq::<TreeEntryView>::empty());
    assert(entry_views(out@) =~= Seq::<TreeEntryView>::empty());
    while i < entries.len()
        invariant
            i <= entries@.len(),
            entry_views(out@) == sort_by_name(entry_views(entries@).subrange(0, i as int)),
            out@.len() == i,
        decreases entries@.len() - i,
    {
        let e = entries[i].duplicate();
        let mut p: usize = out.len();
        while p > 0 && name_precedes(e.name.as_str(), out[p - 1].name.as_str())
            invariant
                p <= out@.len(),
                forall|k: int| p <= k < out@.len() ==> name_lt(e@.name, #[trigger] out@[k]@.name),
            decreases p,
        {
            p -= 1;
        }
        proof {
            let views = entry_views(out@);
            assert forall|k: int| p <= k < views.len() implies name_lt(
                e@.name,
                #[trigger] views[k].name,
            ) by {
                assert(views[k] == out@[k]@);
            }
            insert_by_name_at(views, e@, p as int);
            assert(entry_views(out@.insert(p as int, e)) =~= views.insert(p as int, e@));
            let upto = entry_views(entries@).subrange(0, i + 1);
            assert(upto.drop_last() =~= entry_views(entries@).subrange(0, i as int));
            assert(upto.last() == e@);
        }
        out.insert(p, e);
        i += 1;
    }
    assert(entry_views(entries@).subrange(0, i as int) =~= entry_views(entries@));
    out
}

/// The payload of a tree object that lists `entries` in this order.
pub fn serialize_entries(entries: &Vec<TreeEntry>) -> (res: Vec<u8>)
    ensures
        res@ == spec_payload(entry_views(entries@)),
{
    let mut out: Vec<u8> = Vec::new();
    let mut i: usize = 0;
    assert(entry_views(entries@).subrange(0, 0) =~= Seq::<TreeEntryView>::empty());
    while i < entries.len()
        invariant
            i <= entries@.len(),
            out@ == spec_payload(entry_views(entries@).subrange(0, i as int)),
        decreases entries@.len() - i,
    {
        let e = &entries[i];
        let ghost before = out@;
        let tag = e.kind.tag();
        out.extend_from_slice(tag.as_slice());
        out.push(FIELD_SPACE);
        out.extend_from_slice(e.id.as_str().as_bytes());
        out.push(FIELD_SPACE);
        out.extend_from_slice(e.name.as_str().as_bytes());
        out.push(LINE_END);
        proof {
            let upto = entry_views(entries@).subrange(0, i + 1);
            assert(upto.drop_last() =~= entry_views(entries@).subrange(0, i as int));
            assert(upto.last() == e@);
            assert(out@ =~= before + entry_line(e@));
        }
        i += 1;
    }
    assert(entry_views(entries@).subrange(0, i as int) =~= entry_views(entries@));
    out
}

} // verus!
