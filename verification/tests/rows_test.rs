use taginode::rows::{
    assemble, decode_inodes, decode_relations, decode_tags, from_stored, id_of, place_of,
    to_stored, Cell, StoreError,
};

fn tag_row(id: i64, name: &str) -> Vec<Cell> {
    vec![Cell::Integer(id), Cell::Text(name.to_string())]
}

fn inode_row(id: i64, device: i64, number: i64, btime: Cell) -> Vec<Cell> {
    vec![Cell::Integer(id), Cell::Integer(device), Cell::Integer(number), btime]
}

fn relation_row(tag: i64, record: i64) -> Vec<Cell> {
    vec![Cell::Integer(tag), Cell::Integer(record)]
}

#[test]
fn ids_are_places_counted_from_one() {
    assert_eq!(id_of(0), Some(1));
    assert_eq!(id_of(41), Some(42));
    assert_eq!(id_of(usize::MAX), None);
    assert_eq!(place_of(1), Some(0));
    assert_eq!(place_of(42), Some(41));
    assert_eq!(place_of(0), None);
    assert_eq!(place_of(-3), None);
    assert_eq!(place_of(i64::MAX), Some(i64::MAX as usize - 1));
}

#[test]
fn numbers_are_stored_by_their_bits() {
    assert_eq!(to_stored(0), 0);
    assert_eq!(to_stored(16777220), 16777220);
    assert_eq!(to_stored(1u64 << 63), i64::MIN);
    assert_eq!(to_stored(u64::MAX), -1);
    assert_eq!(from_stored(-1), u64::MAX);
    assert_eq!(from_stored(i64::MIN), 1u64 << 63);
    assert_eq!(from_stored(to_stored(12951634036)), 12951634036);
}

#[test]
fn tag_rows_are_decoded() {
    let rows = vec![tag_row(1, "a"), tag_row(2, "b")];
    assert_eq!(decode_tags(&rows), Some(vec![String::from("a"), String::from("b")]));
    assert_eq!(decode_tags(&vec![]), Some(vec![]));
    // an id that is not the place
    assert!(decode_tags(&vec![tag_row(2, "a")]).is_none());
    assert!(decode_tags(&vec![tag_row(1, "a"), tag_row(3, "b")]).is_none());
    // a row of another shape
    assert!(decode_tags(&vec![vec![Cell::Integer(1)]]).is_none());
    assert!(decode_tags(&vec![vec![Cell::Integer(1), Cell::Null]]).is_none());
    assert!(decode_tags(&vec![vec![Cell::Text(String::from("1")), Cell::Text(String::from("a"))]])
        .is_none());
    assert!(decode_tags(&vec![vec![Cell::Integer(1), Cell::Blob(vec![97])]]).is_none());
    assert!(decode_tags(&vec![vec![Cell::Integer(1), Cell::Real]]).is_none());
}

#[test]
fn inode_rows_are_decoded() {
    let rows = vec![
        inode_row(1, 16777220, 12951634006, Cell::Null),
        inode_row(2, -1, 5, Cell::Integer(1665935055)),
    ];
    let found = decode_inodes(&rows).unwrap();
    assert_eq!(found.len(), 2);
    assert_eq!((found[0].device, found[0].number, found[0].btime), (16777220, 12951634006, None));
    assert_eq!((found[1].device, found[1].number, found[1].btime), (u64::MAX, 5, Some(1665935055)));
    assert!(decode_inodes(&vec![inode_row(2, 1, 1, Cell::Null)]).is_none());
    assert!(decode_inodes(&vec![inode_row(1, 1, 1, Cell::Text(String::from("2022")))]).is_none());
    assert!(decode_inodes(&vec![vec![Cell::Integer(1), Cell::Integer(1), Cell::Integer(1)]])
        .is_none());
    assert!(decode_inodes(&vec![vec![Cell::Integer(1), Cell::Null, Cell::Integer(1), Cell::Null]])
        .is_none());
}

#[test]
fn relation_rows_are_decoded() {
    let rows = vec![relation_row(1, 2), relation_row(3, 1)];
    assert_eq!(decode_relations(&rows), Some(vec![(0, 1), (2, 0)]));
    assert!(decode_relations(&vec![relation_row(0, 1)]).is_none());
    assert!(decode_relations(&vec![relation_row(1, -1)]).is_none());
    assert!(decode_relations(&vec![vec![Cell::Integer(1), Cell::Null]]).is_none());
    assert!(decode_relations(&vec![vec![Cell::Integer(1)]]).is_none());
}

#[test]
fn rows_make_a_store() {
    let tags = vec![tag_row(1, "a"), tag_row(2, "b")];
    let inodes = vec![inode_row(1, 7, 9, Cell::Integer(100))];
    let relations = vec![relation_row(2, 1), relation_row(1, 1)];
    let store = assemble(&tags, &inodes, &relations).unwrap();
    assert_eq!(store.tag_count(), 2);
    assert_eq!(store.tag_name(1), "b");
    assert_eq!(store.inode_at(0).btime, Some(100));
    assert_eq!(store.relation_at(0), (1, 0));
    assert_eq!(store.relation_at(1), (0, 0));
}

#[test]
fn rows_that_break_the_model_make_none() {
    let tags = vec![tag_row(1, "a"), tag_row(2, "a")];
    assert!(matches!(assemble(&tags, &vec![], &vec![]), Err(StoreError::Corrupt)));
    let tags = vec![tag_row(1, "")];
    assert!(matches!(assemble(&tags, &vec![], &vec![]), Err(StoreError::Corrupt)));
    let inodes = vec![inode_row(1, 7, 9, Cell::Null), inode_row(2, 7, 9, Cell::Integer(1))];
    assert!(matches!(assemble(&vec![], &inodes, &vec![]), Err(StoreError::Corrupt)));
    let inodes = vec![inode_row(1, 0, 9, Cell::Null)];
    assert!(matches!(assemble(&vec![], &inodes, &vec![]), Err(StoreError::Corrupt)));
    let tags = vec![tag_row(1, "a")];
    let inodes = vec![inode_row(1, 7, 9, Cell::Null)];
    let twice = vec![relation_row(1, 1), relation_row(1, 1)];
    assert!(matches!(assemble(&tags, &inodes, &twice), Err(StoreError::Corrupt)));
    let dangling = vec![relation_row(2, 1)];
    assert!(matches!(assemble(&tags, &inodes, &dangling), Err(StoreError::Corrupt)));
    let wrong = vec![vec![Cell::Null, Cell::Null]];
    assert!(matches!(assemble(&tags, &inodes, &wrong), Err(StoreError::Corrupt)));
}
