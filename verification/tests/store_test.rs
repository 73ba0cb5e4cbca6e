use taginode::store::TagStore;
use taginode::text::{order_of, same_text, Order};
use taginode::INode;

fn inode(device: u64, number: u64, btime: Option<u64>) -> INode {
    INode { device, number, btime }
}

fn keys(found: &[INode]) -> Vec<(u64, u64, Option<u64>)> {
    found.iter().map(|x| (x.device, x.number, x.btime)).collect()
}

fn texts(expect: &[&str]) -> Vec<String> {
    expect.iter().map(|s| s.to_string()).collect()
}

fn snapshot(s: &TagStore) -> (Vec<String>, Vec<(u64, u64, Option<u64>)>, Vec<(usize, usize)>) {
    let tags = (0..s.tag_count()).map(|i| s.tag_name(i).to_string()).collect();
    let inodes = (0..s.inode_count()).map(|i| s.inode_at(i)).collect::<Vec<INode>>();
    let relations = (0..s.relation_count()).map(|k| s.relation_at(k)).collect();
    (tags, keys(&inodes), relations)
}

#[test]
fn new_store_is_empty() {
    let s = TagStore::new();
    assert_eq!(s.tag_count(), 0);
    assert_eq!(s.inode_count(), 0);
    assert_eq!(s.relation_count(), 0);
    assert!(s.list_tags().is_empty());
    assert!(s.get_inodes(&["a"]).is_empty());
    assert!(s.get_tags(inode(1, 2, None)).is_empty());
}

#[test]
fn add_creates_tags_records_and_the_cross_product() {
    let mut s = TagStore::new();
    s.add(&[inode(1, 10, None), inode(1, 11, Some(7))], &["a", "b"]);
    assert_eq!(
        snapshot(&s),
        (
            texts(&["a", "b"]),
            vec![(1, 10, None), (1, 11, Some(7))],
            vec![(0, 0), (1, 0), (0, 1), (1, 1)],
        )
    );
}

#[test]
fn add_with_nothing_is_a_no_op() {
    let mut s = TagStore::new();
    s.add(&[], &["a"]);
    s.add(&[inode(1, 10, None)], &[]);
    assert_eq!(snapshot(&s), (vec![], vec![], vec![]));
}

#[test]
fn add_without_a_name_leaves_no_record() {
    let mut s = TagStore::new();
    s.add(&[inode(1, 10, None)], &[""]);
    assert_eq!(snapshot(&s), (vec![], vec![], vec![]));
    s.add(&[inode(1, 10, Some(3)), inode(1, 11, None)], &["", ""]);
    assert_eq!(snapshot(&s), (vec![], vec![], vec![]));
    // nor does it touch what is there
    s.add(&[inode(1, 10, None)], &["a"]);
    let before = snapshot(&s);
    s.add(&[inode(1, 10, Some(5)), inode(2, 2, None)], &[""]);
    assert_eq!(snapshot(&s), before);
    assert!(!taginode::store::any_name(&[""]));
    assert!(!taginode::store::any_name(&[]));
    assert!(taginode::store::any_name(&["", "a"]));
}

#[test]
fn add_without_a_storable_identity_leaves_no_tag() {
    let mut s = TagStore::new();
    s.add(&[inode(0, 5, None)], &["a"]);
    assert_eq!(snapshot(&s), (vec![], vec![], vec![]));
    s.add(&[inode(5, 0, Some(1)), inode(0, 0, None)], &["a", "b"]);
    assert_eq!(snapshot(&s), (vec![], vec![], vec![]));
    // nor does it touch what is there
    s.add(&[inode(1, 10, None)], &["a"]);
    let before = snapshot(&s);
    s.add(&[inode(0, 5, None)], &["b"]);
    assert_eq!(snapshot(&s), before);
    assert!(!taginode::store::any_storable(&[inode(0, 5, None), inode(5, 0, None)]));
    assert!(!taginode::store::any_storable(&[]));
    assert!(taginode::store::any_storable(&[inode(0, 5, None), inode(5, 1, None)]));
}

#[test]
fn add_passes_over_empty_names_and_zero_identities() {
    let mut s = TagStore::new();
    s.add(&[inode(0, 10, None), inode(1, 0, None), inode(1, 10, None)], &["a", "", "b"]);
    assert_eq!(
        snapshot(&s),
        (texts(&["a", "b"]), vec![(1, 10, None)], vec![(0, 0), (1, 0)])
    );
}

#[test]
fn add_is_idempotent() {
    let mut s = TagStore::new();
    let ids = [inode(1, 10, Some(1)), inode(1, 11, None), inode(1, 10, Some(2))];
    s.add(&ids, &["a", "b", "a"]);
    let once = snapshot(&s);
    s.add(&ids, &["a", "b", "a"]);
    assert_eq!(snapshot(&s), once);
    // of two birth times for one object in one call the later stands
    assert_eq!(once.1, vec![(1, 10, Some(2)), (1, 11, None)]);
}

#[test]
fn add_backfills_and_replaces_birth_time() {
    let mut s = TagStore::new();
    s.add(&[inode(1, 10, None)], &["a"]);
    s.add(&[inode(1, 10, Some(5))], &["a"]);
    assert_eq!(s.inode_at(0).btime, Some(5));
    s.add(&[inode(1, 10, None)], &["a"]);
    assert_eq!(s.inode_at(0).btime, Some(5));
    s.add(&[inode(1, 10, Some(6))], &["a"]);
    assert_eq!(s.inode_at(0).btime, Some(6));
    assert_eq!(s.inode_count(), 1);
    assert_eq!(s.relation_count(), 1);
}

#[test]
fn list_tags_is_sorted_by_bytes() {
    let mut s = TagStore::new();
    s.add(&[inode(1, 1, None)], &["ikun", "basketball", "man"]);
    s.add(&[inode(1, 2, None)], &["basketball", "chicken"]);
    assert_eq!(s.list_tags(), texts(&["basketball", "chicken", "ikun", "man"]));

    let mut s = TagStore::new();
    s.add(&[inode(1, 1, None)], &["b", "ab", "a", "B", "é", "z", "aa"]);
    assert_eq!(s.list_tags(), texts(&["B", "a", "aa", "ab", "b", "z", "é"]));
}

#[test]
fn get_tags_keeps_the_order_of_association() {
    let mut s = TagStore::new();
    let x = inode(16777220, 12951634036, None);
    s.add(&[x], &["ikun", "basketball", "man"]);
    s.add(&[x], &["basketball", "chicken"]);
    assert_eq!(s.get_tags(x), texts(&["ikun", "basketball", "man", "chicken"]));
    // tags that exist already are given in the order of the call
    let y = inode(16777220, 5, None);
    s.add(&[y], &["man", "ikun"]);
    assert_eq!(s.get_tags(y), texts(&["man", "ikun"]));
}

#[test]
fn get_tags_answers_by_birth_time() {
    let mut s = TagStore::new();
    s.add(&[inode(1, 10, Some(5)), inode(1, 11, None)], &["a"]);
    assert_eq!(s.get_tags(inode(1, 10, Some(5))), texts(&["a"]));
    assert!(s.get_tags(inode(1, 10, Some(6))).is_empty());
    assert!(s.get_tags(inode(1, 10, None)).is_empty());
    // a record without birth time answers to any
    assert_eq!(s.get_tags(inode(1, 11, Some(9))), texts(&["a"]));
    assert_eq!(s.get_tags(inode(1, 11, None)), texts(&["a"]));
    assert!(s.get_tags(inode(2, 10, Some(5))).is_empty());
    assert_eq!(s.resolve(&inode(1, 10, Some(5))), Some(0));
    assert_eq!(s.resolve(&inode(1, 10, Some(6))), None);
    assert_eq!(s.resolve(&inode(1, 11, Some(6))), Some(1));
}

#[test]
fn get_inodes_wants_every_name() {
    let mut s = TagStore::new();
    let a = inode(16777220, 12951634006, None);
    let b = inode(16777220, 12951634036, Some(1665935055));
    s.add(&[a], &["ikun", "basketball", "man"]);
    s.add(&[b], &["basketball", "chicken"]);
    assert!(s.get_inodes(&["ikun", "basketball", "chicken"]).is_empty());
    assert_eq!(keys(&s.get_inodes(&["basketball"])), keys(&[a, b]));
    // other tags do not keep an identity out
    assert_eq!(keys(&s.get_inodes(&["ikun", "man"])), keys(&[a]));
    // a name that is no tag is had by none
    assert!(s.get_inodes(&["basketball", "nowhere"]).is_empty());
    assert!(s.get_inodes(&[]).is_empty());
    assert!(s.get_inodes(&[""]).is_empty());
}

#[test]
fn get_inodes_counts_a_name_once() {
    let mut s = TagStore::new();
    let a = inode(1, 1, None);
    let b = inode(1, 2, None);
    s.add(&[a, b], &["a"]);
    s.add(&[b], &["b"]);
    assert_eq!(keys(&s.get_inodes(&["a", "a", "b"])), keys(&s.get_inodes(&["a", "b"])));
    assert_eq!(keys(&s.get_inodes(&["a", "a", "b"])), keys(&[b]));
    assert_eq!(keys(&s.get_inodes(&["b", "a"])), keys(&[b]));
    assert_eq!(keys(&s.get_inodes(&["a", "a"])), keys(&[a, b]));
}

#[test]
fn get_inodenums_wants_any_name() {
    let mut s = TagStore::new();
    s.add(&[inode(1, 10, None)], &["a"]);
    s.add(&[inode(1, 11, None)], &["b"]);
    s.add(&[inode(2, 10, None)], &["c"]);
    assert_eq!(s.get_inodenums(&["a", "c"]), vec![10, 10]);
    assert_eq!(s.get_inodenums(&["b", "nowhere"]), vec![11]);
    assert!(s.get_inodenums(&[]).is_empty());
}

#[test]
fn finders_find() {
    let mut s = TagStore::new();
    s.add(&[inode(1, 10, None), inode(1, 11, None)], &["a", "b"]);
    assert_eq!(s.find_tag("b"), Some(1));
    assert_eq!(s.find_tag("c"), None);
    assert_eq!(s.find_record(&inode(1, 11, Some(3))), Some(1));
    assert_eq!(s.find_record(&inode(2, 11, None)), None);
    assert!(s.has_relation(1, 1));
    assert!(!s.has_relation(2, 1));
    assert!(s.is_tagged(0, "a"));
    assert!(!s.is_tagged(0, "c"));
    assert!(s.has_all_tags(0, &["a", "b"]));
    assert!(!s.has_all_tags(0, &["a", "c"]));
    assert!(s.has_any_tag(0, &["c", "b"]));
    assert!(!s.has_any_tag(0, &["c"]));
}

#[test]
fn restore_takes_what_keeps_the_invariants() {
    let x = inode(1, 10, None);
    let y = inode(1, 11, Some(3));
    let s = TagStore::restore(texts(&["a", "b"]), vec![x, y], vec![(1, 0), (0, 1)]).unwrap();
    assert_eq!(
        snapshot(&s),
        (texts(&["a", "b"]), vec![(1, 10, None), (1, 11, Some(3))], vec![(1, 0), (0, 1)])
    );
    assert_eq!(s.get_tags(x), texts(&["b"]));

    assert!(TagStore::restore(texts(&["a", "a"]), vec![], vec![]).is_none());
    assert!(TagStore::restore(texts(&["a", ""]), vec![], vec![]).is_none());
    assert!(TagStore::restore(vec![], vec![x, inode(1, 10, Some(1))], vec![]).is_none());
    assert!(TagStore::restore(vec![], vec![inode(0, 10, None)], vec![]).is_none());
    assert!(TagStore::restore(vec![], vec![inode(1, 0, None)], vec![]).is_none());
    assert!(TagStore::restore(texts(&["a"]), vec![x], vec![(0, 0), (0, 0)]).is_none());
    assert!(TagStore::restore(texts(&["a"]), vec![x], vec![(1, 0)]).is_none());
    assert!(TagStore::restore(texts(&["a"]), vec![x], vec![(0, 1)]).is_none());
    assert!(taginode::store::valid_tags(&texts(&["a", "b"])));
    assert!(taginode::store::valid_records(&vec![x, y]));
    assert!(taginode::store::valid_relations(&vec![(0, 1), (1, 0)], 2, 2));
    assert!(!taginode::store::valid_relations(&vec![(0, 1), (1, 0)], 1, 2));
}

#[test]
fn text_is_ordered_by_bytes() {
    assert!(matches!(order_of("a", "b"), Order::Before));
    assert!(matches!(order_of("b", "a"), Order::After));
    assert!(matches!(order_of("ab", "ab"), Order::Same));
    assert!(matches!(order_of("a", "ab"), Order::Before));
    assert!(matches!(order_of("ab", "a"), Order::After));
    assert!(matches!(order_of("", ""), Order::Same));
    assert!(matches!(order_of("Z", "a"), Order::Before));
    assert!(matches!(order_of("z", "é"), Order::Before));
    assert!(same_text("é", "é"));
    assert!(!same_text("e", "é"));
    assert!(!same_text("a", "ab"));
}
