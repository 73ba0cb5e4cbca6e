use taginode::changes::{changes, marks_of, Marks, Write};
use taginode::sql::{statement_of, Param};
use taginode::rows::StoreError;
use taginode::store::TagStore;
use taginode::INode;

fn inode(device: u64, number: u64, btime: Option<u64>) -> INode {
    INode { device, number, btime }
}

fn show(plan: &[Write]) -> Vec<String> {
    plan.iter().map(|w| format!("{:?}", w)).collect()
}

#[test]
fn changes_of_a_new_store_are_all_it_holds() {
    let mut s = TagStore::new();
    let marks = marks_of(&s);
    assert_eq!((marks.tags, marks.inodes, marks.relations), (0, 0, 0));
    let ids = [inode(7, 9, Some(100))];
    s.add(&ids, &["a", "b"]);
    let plan = changes(&s, marks, &ids).unwrap();
    assert_eq!(plan.len(), 5);
    assert!(matches!(&plan[0], Write::Tag { id: 1, name } if name == "a"));
    assert!(matches!(&plan[1], Write::Tag { id: 2, name } if name == "b"));
    match &plan[2] {
        Write::Identity { id: 1, inode } => {
            assert_eq!((inode.device, inode.number, inode.btime), (7, 9, Some(100)))
        },
        _ => panic!("the record is not written third"),
    }
    assert!(matches!(&plan[3], Write::Association { tag_id: 1, identity_id: 1 }));
    assert!(matches!(&plan[4], Write::Association { tag_id: 2, identity_id: 1 }));
}

#[test]
fn changes_hold_only_what_is_new() {
    let mut s = TagStore::new();
    s.add(&[inode(7, 9, None), inode(7, 10, Some(1))], &["a"]);
    let marks = marks_of(&s);
    // one tag more, one record more, a birth time for a record that was there
    let ids = [inode(7, 9, Some(5)), inode(8, 1, None), inode(7, 10, None)];
    s.add(&ids, &["a", "b"]);
    let plan = changes(&s, marks, &ids).unwrap();
    assert_eq!(
        show(&plan),
        vec![
            "Tag { id: 2, name: \"b\" }",
            "Identity { id: 3, inode: INode { device: 8, number: 1, btime: None } }",
            "BirthTime { id: 1, btime: Some(5) }",
            "Association { tag_id: 2, identity_id: 1 }",
            "Association { tag_id: 1, identity_id: 3 }",
            "Association { tag_id: 2, identity_id: 3 }",
            "Association { tag_id: 2, identity_id: 2 }",
        ]
    );
}

#[test]
fn changes_after_the_same_tagging_are_no_rows_but_the_birth_time() {
    let mut s = TagStore::new();
    let ids = [inode(7, 9, Some(5))];
    s.add(&ids, &["a"]);
    let marks = marks_of(&s);
    s.add(&ids, &["a"]);
    let plan = changes(&s, marks, &ids).unwrap();
    assert_eq!(show(&plan), vec!["BirthTime { id: 1, btime: Some(5) }"]);
    assert!(changes(&s, marks, &[]).unwrap().is_empty());
}

#[test]
fn changes_with_a_nul_in_a_new_name_are_refused() {
    let mut s = TagStore::new();
    let ids = [inode(7, 9, None)];
    s.add(&ids, &["a\0b"]);
    let none = Marks { tags: 0, inodes: 0, relations: 0 };
    assert!(matches!(changes(&s, none, &ids), Err(StoreError::Unstorable)));
    // a name that was there before the marks is not written again
    let marks = marks_of(&s);
    s.add(&ids, &["c"]);
    assert_eq!(changes(&s, marks, &ids).unwrap().len(), 2);
}

fn shown(params: &[Param]) -> Vec<String> {
    params.iter().map(|p| format!("{:?}", p)).collect()
}

#[test]
fn each_row_has_its_statement_and_parameters() {
    let tag = Write::Tag { id: 3, name: String::from("a") };
    let (statement, params) = statement_of(&tag);
    assert_eq!(statement, "INSERT INTO tags (id, name) VALUES (?, ?)");
    assert_eq!(shown(&params), vec!["Integer(3)", "Text(\"a\")"]);

    let record = Write::Identity { id: 2, inode: inode(u64::MAX, 9, Some(100)) };
    let (statement, params) = statement_of(&record);
    assert_eq!(
        statement,
        "INSERT INTO identities (id, device, number, birth_time) VALUES (?, ?, ?, ?)"
    );
    assert_eq!(shown(&params), vec!["Integer(2)", "Integer(-1)", "Integer(9)", "Integer(100)"]);

    let record = Write::Identity { id: 1, inode: inode(7, 1u64 << 63, None) };
    let (_, params) = statement_of(&record);
    assert_eq!(
        shown(&params),
        vec!["Integer(1)", "Integer(7)", "Integer(-9223372036854775808)", "Null"]
    );

    let birth = Write::BirthTime { id: 4, btime: Some(5) };
    let (statement, params) = statement_of(&birth);
    assert_eq!(statement, "UPDATE identities SET birth_time = ? WHERE id = ?");
    assert_eq!(shown(&params), vec!["Integer(5)", "Integer(4)"]);
    let (_, params) = statement_of(&Write::BirthTime { id: 4, btime: None });
    assert_eq!(shown(&params), vec!["Null", "Integer(4)"]);

    let pair = Write::Association { tag_id: 2, identity_id: 7 };
    let (statement, params) = statement_of(&pair);
    assert_eq!(statement, "INSERT INTO associations (tag_id, identity_id) VALUES (?, ?)");
    assert_eq!(shown(&params), vec!["Integer(2)", "Integer(7)"]);
}

#[test]
fn associations_are_written_tag_first() {
    // the tag is the second tag, the record the first record
    let connection = taginode::sql::init(":memory:").unwrap();
    taginode::add(&connection, &[inode(7, 9, None)], &["a"]).unwrap();
    taginode::add(&connection, &[inode(7, 9, None)], &["b"]).unwrap();
    let store = taginode::sql::load(&connection).unwrap();
    assert_eq!(store.relation_at(1), (1, 0));
    assert_eq!(
        taginode::get_tags(&connection, inode(7, 9, None)).unwrap(),
        vec![String::from("a"), String::from("b")]
    );
}
