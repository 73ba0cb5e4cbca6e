use taginode::rows::StoreError;
use taginode::INode;

fn same(found: &[INode], expect: &[INode]) {
    assert_eq!(found.len(), expect.len());
    for (i, e) in found.iter().enumerate() {
        assert_eq!(e.device, expect[i].device);
        assert_eq!(e.number, expect[i].number);
        assert_eq!(e.btime, expect[i].btime);
    }
}

fn names(expect: &[&str]) -> Vec<String> {
    expect.iter().map(|s| s.to_string()).collect()
}

#[test]
fn t() {
    // where the working directory takes no file, the database is kept in memory
    let connection = match taginode::sql::init("fk.db") {
        Ok(connection) => connection,
        Err(_) => taginode::sql::init(":memory:").unwrap(),
    };
    {
        let inodes = vec![
            INode { device: 16777220, number: 12951634006, btime: None },
            INode { device: 16777220, number: 12951634036, btime: None },
        ];
        taginode::add(&connection, &inodes, &["ikun", "basketball", "man"]).unwrap();
    }
    {
        let inodes = vec![
            INode { device: 16777221, number: 12951634006, btime: None },
            INode { device: 16777220, number: 12951634036, btime: Some(1665935055) },
        ];
        taginode::add(&connection, &inodes, &["basketball", "chicken"]).unwrap();
    }

    {
        let tag_names = vec!["ikun", "basketball", "ikun", "chicken"];
        let inodes = taginode::get_inodes(&connection, &tag_names).unwrap();
        println!("{:?}", inodes);
        let expect = vec![INode { device: 16777220, number: 12951634036, btime: Some(1665935055) }];
        assert_eq!(inodes.len(), expect.len());
        for (i, e) in inodes.iter().enumerate() {
            assert_eq!(e.device, expect[i].device);
            assert_eq!(e.number, expect[i].number);
            assert_eq!(e.btime, expect[i].btime);
        }
    }
    {
        let inodes = taginode::get_inodes(&connection, &vec!["basketball"]).unwrap();
        println!("{:?}", inodes);
        let expect = vec![
            INode { device: 16777220, number: 12951634006, btime: None },
            INode { device: 16777220, number: 12951634036, btime: Some(1665935055) },
            INode { device: 16777221, number: 12951634006, btime: None },
        ];
        assert_eq!(inodes.len(), expect.len());
        for (i, e) in inodes.iter().enumerate() {
            assert_eq!(e.device, expect[i].device);
            assert_eq!(e.number, expect[i].number);
            assert_eq!(e.btime, expect[i].btime);
        }
    }
    {
        let tag_names = taginode::list_tags(&connection).unwrap();
        let expect = vec!["basketball", "chicken", "ikun", "man"];
        let expect: Vec<String> = expect.iter().map(|s| s.to_string()).collect();
        assert_eq!(expect, tag_names);
    }

    {
        let tags = taginode::get_tags(
            &connection,
            INode { device: 16777220, number: 12951634036, btime: Some(1665935055) },
        )
        .unwrap();
        let expect = vec!["ikun", "basketball", "man", "chicken"];
        let expect: Vec<String> = expect.iter().map(|s| s.to_string()).collect();
        assert_eq!(expect, tags);
    }

    {
        let tag_names = taginode::list_tags(&connection).unwrap();
        let expect = vec!["basketball", "chicken", "ikun", "man"];
        let expect: Vec<String> = expect.iter().map(|s| s.to_string()).collect();
        assert_eq!(expect, tag_names);
    }
}

#[test]
fn database_in_memory_keeps_what_was_added() {
    let connection = taginode::sql::init(":memory:").unwrap();
    let a = INode { device: 16777220, number: 12951634006, btime: None };
    let b = INode { device: 16777220, number: 12951634036, btime: Some(1665935055) };
    taginode::add(&connection, &[a], &["ikun", "basketball", "man"]).unwrap();
    taginode::add(&connection, &[b], &["basketball", "chicken"]).unwrap();

    // no single identity has all three
    let none = taginode::get_inodes(&connection, &["ikun", "basketball", "chicken"]).unwrap();
    assert!(none.is_empty());
    // every identity ever tagged with it
    let both = taginode::get_inodes(&connection, &["basketball"]).unwrap();
    same(&both, &[a, b]);

    assert_eq!(taginode::get_tags(&connection, a).unwrap(), names(&["ikun", "basketball", "man"]));
    assert_eq!(taginode::get_tags(&connection, b).unwrap(), names(&["basketball", "chicken"]));
    assert_eq!(
        taginode::list_tags(&connection).unwrap(),
        names(&["basketball", "chicken", "ikun", "man"])
    );
    assert_eq!(
        taginode::get_inodenums(&connection, &["man", "chicken"]).unwrap(),
        vec![12951634006i64, 12951634036i64]
    );
}

#[test]
fn database_add_twice_is_add_once() {
    let connection = taginode::sql::init(":memory:").unwrap();
    let a = INode { device: 7, number: 9, btime: Some(100) };
    taginode::add(&connection, &[a], &["x", "y"]).unwrap();
    let once = taginode::sql::load(&connection).unwrap();
    taginode::add(&connection, &[a], &["x", "y"]).unwrap();
    let twice = taginode::sql::load(&connection).unwrap();
    assert_eq!(once.tag_count(), 2);
    assert_eq!(twice.tag_count(), 2);
    assert_eq!(twice.inode_count(), 1);
    assert_eq!(twice.relation_count(), 2);
    assert_eq!(twice.relation_at(0), (0, 0));
    assert_eq!(twice.relation_at(1), (1, 0));
    assert_eq!(twice.inode_at(0).btime, Some(100));
}

#[test]
fn database_backfills_birth_time() {
    let connection = taginode::sql::init(":memory:").unwrap();
    taginode::add(&connection, &[INode { device: 7, number: 9, btime: None }], &["x"]).unwrap();
    taginode::add(&connection, &[INode { device: 7, number: 9, btime: Some(5) }], &["x"]).unwrap();
    let store = taginode::sql::load(&connection).unwrap();
    assert_eq!(store.inode_count(), 1);
    assert_eq!(store.inode_at(0).btime, Some(5));
    // an identity that brings none leaves the stored one
    taginode::add(&connection, &[INode { device: 7, number: 9, btime: None }], &["y"]).unwrap();
    let store = taginode::sql::load(&connection).unwrap();
    assert_eq!(store.inode_at(0).btime, Some(5));
    // the record answers to the same birth time only
    let tags = taginode::get_tags(&connection, INode { device: 7, number: 9, btime: Some(5) });
    assert_eq!(tags.unwrap(), names(&["x", "y"]));
    let tags = taginode::get_tags(&connection, INode { device: 7, number: 9, btime: Some(6) });
    assert!(tags.unwrap().is_empty());
    let tags = taginode::get_tags(&connection, INode { device: 7, number: 9, btime: None });
    assert!(tags.unwrap().is_empty());
}

#[test]
fn database_keeps_large_numbers() {
    let connection = taginode::sql::init(":memory:").unwrap();
    let big = INode { device: u64::MAX, number: 1u64 << 63, btime: Some(u64::MAX - 1) };
    taginode::add(&connection, &[big], &["x"]).unwrap();
    let found = taginode::get_inodes(&connection, &["x"]).unwrap();
    same(&found, &[big]);
    // the inode numbers come as the database keeps them
    assert_eq!(taginode::get_inodenums(&connection, &["x"]).unwrap(), vec![i64::MIN]);
    // tagging again what is there leaves nothing to write, and succeeds
    taginode::add(&connection, &[INode { btime: None, ..big }], &["x"]).unwrap();
    same(&taginode::get_inodes(&connection, &["x"]).unwrap(), &[big]);
    assert_eq!(taginode::rows::to_stored(u64::MAX), -1);
    assert_eq!(taginode::rows::from_stored(-1), u64::MAX);
    assert_eq!(taginode::rows::to_stored(5), 5);
}

#[test]
fn database_add_of_nothing_touches_nothing() {
    // a connection without the tables: anything but a no-op would fail on it
    let connection = sqlite3::open(":memory:").unwrap();
    let a = INode { device: 7, number: 9, btime: None };
    assert!(taginode::add(&connection, &[], &["x"]).is_ok());
    assert!(taginode::add(&connection, &[a], &[]).is_ok());
    assert!(matches!(
        taginode::add(&connection, &[a], &["x"]),
        Err(StoreError::Database { .. })
    ));
}

#[test]
fn database_add_that_associates_nothing_is_rejected() {
    // a connection without the tables: a call that touched it would fail otherwise
    let connection = sqlite3::open(":memory:").unwrap();
    let a = INode { device: 7, number: 9, btime: None };
    let nowhere = INode { device: 0, number: 9, btime: None };
    assert!(matches!(taginode::add(&connection, &[a], &[""]), Err(StoreError::Rejected)));
    assert!(matches!(taginode::add(&connection, &[nowhere], &["x"]), Err(StoreError::Rejected)));
    assert!(matches!(
        taginode::add(&connection, &[nowhere, a], &["", ""]),
        Err(StoreError::Rejected)
    ));

    // and with the tables nothing is left of such a call
    let connection = taginode::sql::init(":memory:").unwrap();
    assert!(matches!(taginode::add(&connection, &[a], &[""]), Err(StoreError::Rejected)));
    assert!(matches!(taginode::add(&connection, &[nowhere], &["x"]), Err(StoreError::Rejected)));
    let store = taginode::sql::load(&connection).unwrap();
    assert_eq!((store.tag_count(), store.inode_count(), store.relation_count()), (0, 0, 0));
    // one usable name and one storable identity are enough
    taginode::add(&connection, &[nowhere, a], &["", "x"]).unwrap();
    let store = taginode::sql::load(&connection).unwrap();
    assert_eq!((store.tag_count(), store.inode_count(), store.relation_count()), (1, 1, 1));
}

#[test]
fn database_error_is_reported() {
    match taginode::sql::init("/nonexistent-directory/for/certain/fk.db") {
        Err(StoreError::Database { code, .. }) => assert!(code.is_some()),
        _ => panic!("a database in a directory that is not there was opened"),
    };
    let connection = sqlite3::open(":memory:").unwrap();
    assert!(matches!(taginode::list_tags(&connection), Err(StoreError::Database { .. })));
}

#[test]
fn database_with_foreign_rows_is_corrupt() {
    let connection = taginode::sql::init(":memory:").unwrap();
    // a tag whose id is not its place
    connection.execute("INSERT INTO tags (id, name) VALUES (5, 'x')").unwrap();
    assert!(matches!(taginode::list_tags(&connection), Err(StoreError::Corrupt)));
    assert!(matches!(
        taginode::add(&connection, &[INode { device: 1, number: 1, btime: None }], &["y"]),
        Err(StoreError::Corrupt)
    ));

    let connection = taginode::sql::init(":memory:").unwrap();
    // an association with a tag that is not there
    connection.execute("INSERT INTO identities (id, device, number) VALUES (1, 3, 4)").unwrap();
    connection.execute("INSERT INTO associations (tag_id, identity_id) VALUES (1, 1)").unwrap();
    assert!(matches!(taginode::get_inodes(&connection, &["x"]), Err(StoreError::Corrupt)));
}

#[test]
fn database_refuses_a_name_with_nul() {
    let connection = taginode::sql::init(":memory:").unwrap();
    let a = INode { device: 7, number: 9, btime: None };
    assert!(matches!(taginode::add(&connection, &[a], &["a\0b"]), Err(StoreError::Unstorable)));
    // and nothing of the failed call stays
    let store = taginode::sql::load(&connection).unwrap();
    assert_eq!(store.tag_count(), 0);
    assert_eq!(store.inode_count(), 0);
    assert!(taginode::rows::holds_nul("a\0b"));
    assert!(!taginode::rows::holds_nul("ab"));
}

#[test]
fn database_file_keeps_tags_between_connections() {
    let path = "/tmp/taginode-between-connections.db";
    // without a place for the file there is nothing to show
    let first = match taginode::sql::init(path) {
        Ok(connection) => connection,
        Err(_) => return,
    };
    let a = INode { device: 7, number: 9, btime: Some(100) };
    taginode::add(&first, &[a], &["kept", "on disk"]).unwrap();
    drop(first);
    let second = taginode::sql::init(path).unwrap();
    assert_eq!(taginode::list_tags(&second).unwrap(), names(&["kept", "on disk"]));
    same(&taginode::get_inodes(&second, &["on disk"]).unwrap(), &[a]);
    assert_eq!(taginode::get_tags(&second, a).unwrap(), names(&["kept", "on disk"]));
}
