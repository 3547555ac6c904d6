use rgit::codec::ObjectKind;
use rgit::error::{IoCause, StoreError};
use rgit::listing::{serialize_entries, sort_entries, TreeEntry};
use rgit::order::{bytes_equal, bytes_precede, name_precedes, same_text};
use rgit::store::ObjectStore;
use rgit::tree::{write_tree, DirEntry, Directory, Node};

fn ready() -> ObjectStore {
    let mut store = ObjectStore::new(".rgit".to_string());
    assert_eq!(store.initialize(), Ok(()));
    store
}

fn file(name: &str, content: &[u8]) -> DirEntry {
    DirEntry { name: name.to_string(), node: Node::File(content.to_vec()) }
}

fn dir(name: &str, entries: Vec<DirEntry>) -> DirEntry {
    DirEntry { name: name.to_string(), node: Node::Dir(Directory { entries }) }
}

fn entry(kind: ObjectKind, id: &str, name: &str) -> TreeEntry {
    TreeEntry { kind, id: id.to_string(), name: name.to_string() }
}

fn names(entries: &[TreeEntry]) -> Vec<String> {
    entries.iter().map(|e| e.name.clone()).collect()
}

const HI: &str = "bc0265428e14b775a3c4eb58e2d965575e3e6d97";
const YO: &str = "0738dcbbcdcb533f4b249100415ba907bf41db7c";
const SUB: &str = "23cae704c05b5bca2d4b003b8af5c42b94117f31";
const TOP: &str = "01adb5bd10bc9988b5f842e12dc04d392631dc7a";
const EMPTY_TREE: &str = "d28c5ff92df044a522508a29cf3fad0b812f672f";

fn sample() -> Directory {
    Directory { entries: vec![file("a.txt", b"hi"), dir("sub", vec![file("b.txt", b"yo")])] }
}

#[test]
fn write_tree_stores_blobs_and_trees_of_a_nested_directory() {
    let mut store = ready();
    assert_eq!(write_tree(&mut store, &sample()), Ok(TOP.to_string()));
    assert_eq!(store.len(), 4);
    assert_eq!(store.get(HI, Some(ObjectKind::Blob)), Ok(b"hi".to_vec()));
    assert_eq!(store.get(YO, Some(ObjectKind::Blob)), Ok(b"yo".to_vec()));
    assert_eq!(
        store.get(SUB, Some(ObjectKind::Tree)),
        Ok(format!("blob {} b.txt\n", YO).into_bytes())
    );
    assert_eq!(
        store.get(TOP, Some(ObjectKind::Tree)),
        Ok(format!("blob {} a.txt\ntree {} sub\n", HI, SUB).into_bytes())
    );
}

#[test]
fn write_tree_again_returns_the_same_hash_and_stores_nothing_new() {
    let mut store = ready();
    let first = write_tree(&mut store, &sample());
    let mut keys_before = store.keys();
    keys_before.sort();
    let second = write_tree(&mut store, &sample());
    let mut keys_after = store.keys();
    keys_after.sort();
    assert_eq!(first, second);
    assert_eq!(store.len(), 4);
    assert_eq!(keys_before, keys_after);
}

#[test]
fn write_tree_of_an_empty_directory_is_the_empty_tree() {
    let mut store = ready();
    let empty = Directory { entries: vec![] };
    assert_eq!(write_tree(&mut store, &empty), Ok(EMPTY_TREE.to_string()));
    assert_eq!(write_tree(&mut store, &empty), Ok(EMPTY_TREE.to_string()));
    assert_eq!(store.len(), 1);
    assert_eq!(store.get(EMPTY_TREE, Some(ObjectKind::Tree)), Ok(vec![]));
    assert_eq!(store.lookup(EMPTY_TREE), Some(&b"tree\x00".to_vec()));
}

#[test]
fn write_tree_leaves_out_the_reserved_directory() {
    let mut store = ready();
    let only_reserved =
        Directory { entries: vec![dir(".rgit", vec![dir("objects", vec![file("x", b"data")])])] };
    assert_eq!(write_tree(&mut store, &only_reserved), Ok(EMPTY_TREE.to_string()));
    assert_eq!(store.len(), 1);

    let mut other = ready();
    let mixed = Directory {
        entries: vec![
            dir(".rgit", vec![file("HEAD", b"ref")]),
            file("a.txt", b"hi"),
            dir("sub", vec![file("b.txt", b"yo")]),
        ],
    };
    assert_eq!(write_tree(&mut other, &mixed), Ok(TOP.to_string()));
    assert_eq!(other.len(), 4);
}

#[test]
fn write_tree_leaves_out_the_reserved_name_at_every_depth() {
    let mut store = ready();
    let nested = Directory {
        entries: vec![
            file("a.txt", b"hi"),
            dir("sub", vec![file(".rgit", b"not ours"), file("b.txt", b"yo")]),
        ],
    };
    assert_eq!(write_tree(&mut store, &nested), Ok(TOP.to_string()));
    assert_eq!(store.len(), 4);
}

#[test]
fn write_tree_goes_by_the_reserved_name_of_the_store() {
    let mut store = ObjectStore::new("hidden".to_string());
    assert_eq!(store.initialize(), Ok(()));
    let listing = Directory { entries: vec![file("hidden", b"x"), file("a.txt", b"hi")] };
    let hash = write_tree(&mut store, &listing).unwrap();
    assert_eq!(
        store.get(&hash, Some(ObjectKind::Tree)),
        Ok(format!("blob {} a.txt\n", HI).into_bytes())
    );
}

#[test]
fn write_tree_lists_children_by_name_whatever_their_order() {
    let mut store = ready();
    let shuffled = Directory { entries: vec![file("b", b"3"), file("a", b"1"), file("ab", b"2")] };
    let ordered = Directory { entries: vec![file("a", b"1"), file("ab", b"2"), file("b", b"3")] };
    let expected = "4262628312b1225b73854b116b671bd548537ff8".to_string();
    assert_eq!(write_tree(&mut store, &shuffled), Ok(expected.clone()));
    assert_eq!(write_tree(&mut store, &ordered), Ok(expected.clone()));
    assert_eq!(
        store.get(&expected, None),
        Ok(b"blob 5f93b90f2471bc6766586697d04eb634069d694f a\n\
blob 8b9239434404da0ffb4645399809d87398631a34 ab\n\
blob 7f64cadc591f1e9da8b2b13ab45d057af8e051f7 b\n"
            .to_vec())
    );
}

#[test]
fn write_tree_without_root_is_an_io_failure() {
    let mut store = ObjectStore::new(".rgit".to_string());
    assert_eq!(
        write_tree(&mut store, &sample()),
        Err(StoreError::StorageIoError(IoCause::MissingRoot))
    );
    assert_eq!(store.len(), 0);
}

#[test]
fn write_tree_shares_objects_of_equal_content() {
    let mut store = ready();
    let twins = Directory {
        entries: vec![
            file("one", b"same"),
            file("two", b"same"),
            dir("x", vec![file("f", b"same")]),
            dir("y", vec![file("f", b"same")]),
        ],
    };
    assert!(write_tree(&mut store, &twins).is_ok());
    assert_eq!(store.len(), 3);
}

#[test]
fn serialize_entries_writes_one_line_for_each_entry() {
    let entries = vec![entry(ObjectKind::Blob, HI, "a.txt"), entry(ObjectKind::Tree, SUB, "sub")];
    assert_eq!(
        serialize_entries(&entries),
        format!("blob {} a.txt\ntree {} sub\n", HI, SUB).into_bytes()
    );
    assert_eq!(serialize_entries(&vec![]), Vec::<u8>::new());
}

#[test]
fn serialize_entries_keeps_names_as_they_are() {
    let entries = vec![entry(ObjectKind::Blob, "id", "two words"), entry(ObjectKind::Blob, "x", "ü")];
    assert_eq!(serialize_entries(&entries), "blob id two words\nblob x ü\n".as_bytes().to_vec());
}

#[test]
fn sort_entries_orders_by_name_bytes() {
    let entries = vec![
        entry(ObjectKind::Blob, "1", "b"),
        entry(ObjectKind::Tree, "2", "a"),
        entry(ObjectKind::Blob, "3", "ab"),
        entry(ObjectKind::Blob, "4", "B"),
        entry(ObjectKind::Blob, "5", ""),
    ];
    let sorted = sort_entries(&entries);
    assert_eq!(names(&sorted), vec!["", "B", "a", "ab", "b"]);
    assert_eq!(sorted[2].id, "2");
    assert_eq!(sorted[2].kind, ObjectKind::Tree);
    assert_eq!(entries.len(), 5);
}

#[test]
fn sort_entries_keeps_the_order_of_equal_names() {
    let entries = vec![
        entry(ObjectKind::Blob, "first", "n"),
        entry(ObjectKind::Blob, "other", "m"),
        entry(ObjectKind::Blob, "second", "n"),
    ];
    let sorted = sort_entries(&entries);
    let ids: Vec<String> = sorted.iter().map(|e| e.id.clone()).collect();
    assert_eq!(ids, vec!["other", "first", "second"]);
}

#[test]
fn duplicate_copies_all_fields() {
    let e = entry(ObjectKind::Tree, SUB, "sub");
    let copy = e.duplicate();
    assert_eq!(copy.kind, ObjectKind::Tree);
    assert_eq!(copy.id, SUB);
    assert_eq!(copy.name, "sub");
}

#[test]
fn bytes_precede_is_lexicographic() {
    assert!(bytes_precede(b"a", b"b"));
    assert!(!bytes_precede(b"b", b"a"));
    assert!(bytes_precede(b"a", b"ab"));
    assert!(!bytes_precede(b"ab", b"a"));
    assert!(bytes_precede(b"", b"a"));
    assert!(!bytes_precede(b"", b""));
    assert!(!bytes_precede(b"abc", b"abc"));
    assert!(bytes_precede(b"abc", b"abd"));
    assert!(bytes_precede(b"Z", b"a"));
    assert!(bytes_precede(&[1u8, 255u8], &[2u8]));
}

#[test]
fn name_precedes_goes_by_utf8_bytes() {
    assert!(name_precedes("a.txt", "sub"));
    assert!(!name_precedes("sub", "a.txt"));
    assert!(name_precedes("z", "ä"));
    assert!(!name_precedes("same", "same"));
}

#[test]
fn bytes_equal_compares_length_and_content() {
    assert!(bytes_equal(b"", b""));
    assert!(bytes_equal(b"abc", b"abc"));
    assert!(!bytes_equal(b"abc", b"abd"));
    assert!(!bytes_equal(b"abc", b"ab"));
    assert!(!bytes_equal(b"", b"a"));
}

#[test]
fn same_text_compares_whole_strings() {
    assert!(same_text("", ""));
    assert!(same_text(".rgit", ".rgit"));
    assert!(!same_text(".rgit", ".rgi"));
    assert!(!same_text("ä", "a"));
}
