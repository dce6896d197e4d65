use std::path::PathBuf;

use grahh_db::{CreateError, Database, Key, LoadError, Node, Storage, Value};
use rkyv::string::ArchivedString;

fn key(id: u64) -> Key {
    Key::parse(&id.to_string()).unwrap()
}

fn bytes(text: &str) -> Value {
    Value::from_bytes(text.as_bytes().to_vec())
}

fn ids(set: &grahh_db::KeySet) -> Vec<String> {
    let mut out: Vec<String> = set.to_vec().iter().map(|k| k.to_string()).collect();
    out.sort();
    out
}

fn copy_of(node: &Node) -> Node {
    let mut copy = Node::new(Value::from_bytes(node.value().as_bytes().clone()));
    for (label, _) in node.connections() {
        for neighbour in node.get_connections(label).to_vec() {
            copy.connect(label.to_owned(), neighbour);
        }
    }
    copy
}

fn snapshot(db: &Database) -> Vec<(Key, Node)> {
    db.iter().into_iter().map(|(k, node)| (k, copy_of(node))).collect()
}

fn create(db: &mut Database, value: Value) -> Key {
    let bytes = value.as_bytes().clone();
    let mut made = db.create(Value::from_bytes(bytes.clone()));
    let mut tries = 0;
    while made == Err(CreateError::KeyCollision) && tries < 1000 {
        made = db.create(Value::from_bytes(bytes.clone()));
        tries += 1;
    }
    made.unwrap()
}

#[test]
fn in_memory_is_empty_and_not_persisted() {
    let db = Database::in_memory();
    assert!(db.iter().is_empty());
    assert!(matches!(db.storage(), Storage::Memory));
    assert!(db.save().is_none());
}

#[test]
fn create_returns_keys_that_differ() {
    let mut db = Database::in_memory();
    let mut keys = Vec::new();
    for _ in 0..50 {
        keys.push(create(&mut db, bytes("x")));
    }
    for i in 0..keys.len() {
        for j in 0..i {
            assert_ne!(keys[i], keys[j]);
        }
    }
    assert_eq!(db.iter().len(), 50);
}

#[test]
fn create_stores_the_value_without_connections() {
    let mut db = Database::in_memory();
    let a = create(&mut db, bytes("Hello"));
    let node = db.get(&a).unwrap();
    assert_eq!(node.value().as_bytes(), &b"Hello".to_vec());
    assert!(node.connections().is_empty());
}

#[test]
fn create_on_an_empty_table_reports_no_collision() {
    for _ in 0..20 {
        let mut db = Database::in_memory();
        let made = db.create(bytes("x"));
        assert_ne!(made, Err(CreateError::KeyCollision));
        match made {
            Ok(k) => assert!(db.get(&k).is_some() && db.iter().len() == 1),
            Err(_) => assert!(db.iter().is_empty()),
        }
    }
}

#[test]
fn create_with_key_refuses_a_key_in_use() {
    let mut db = Database::in_memory();
    assert_eq!(db.create_with_key(key(1), bytes("first")), Ok(key(1)));
    assert_eq!(db.create_with_key(key(1), bytes("second")), Err(CreateError::KeyCollision));
    assert_eq!(db.iter().len(), 1);
    assert_eq!(db.get(&key(1)).unwrap().value().as_bytes(), &b"first".to_vec());
}

#[test]
fn create_at_takes_the_clock_reading_as_key() {
    let mut db = Database::in_memory();
    let now = 1_700_000_000_000_000_001;
    assert_eq!(db.create_at(Some(now), bytes("a")), Ok(key(1_700_000_000_000_000_001)));
    assert_eq!(db.create_at(Some(0), bytes("b")), Ok(key(0)));
    assert_eq!(db.get(&key(0)).unwrap().value().as_bytes(), &b"b".to_vec());
    assert_eq!(db.iter().len(), 2);
}

#[test]
fn create_at_refuses_a_reading_that_gives_no_key() {
    let mut db = Database::in_memory();
    assert_eq!(db.create_at(None, bytes("a")), Err(CreateError::ClockOutOfRange));
    assert_eq!(db.create_at(Some(-1), bytes("a")), Err(CreateError::ClockOutOfRange));
    assert!(db.iter().is_empty());
}

#[test]
fn create_at_refuses_the_same_reading_twice() {
    let mut db = Database::in_memory();
    assert_eq!(db.create_at(Some(7), bytes("first")), Ok(key(7)));
    assert_eq!(db.create_at(Some(7), bytes("second")), Err(CreateError::KeyCollision));
    assert_eq!(db.get(&key(7)).unwrap().value().as_bytes(), &b"first".to_vec());
    assert_eq!(db.iter().len(), 1);
}

#[test]
fn a_removed_key_is_never_issued_again() {
    let mut db = Database::in_memory();
    assert_eq!(db.create_at(Some(7), bytes("first")), Ok(key(7)));
    assert!(db.remove(key(7)).is_some());
    assert_eq!(db.create_at(Some(7), bytes("second")), Err(CreateError::KeyCollision));
    assert_eq!(db.create_with_key(key(7), bytes("third")), Err(CreateError::KeyCollision));
    assert!(db.get(&key(7)).is_none());
    assert!(db.iter().is_empty());
    assert_eq!(db.create_at(Some(8), bytes("fourth")), Ok(key(8)));
}

#[test]
fn create_after_remove_returns_a_key_never_seen() {
    let mut db = Database::in_memory();
    let mut seen = Vec::new();
    for round in 0..30 {
        let made = create(&mut db, bytes("x"));
        assert!(!seen.contains(&made));
        seen.push(made);
        if round % 2 == 0 {
            assert!(db.remove(made).is_some());
        }
    }
    assert_eq!(db.iter().len(), 15);
}

#[test]
fn loaded_keys_count_as_issued() {
    let entries = vec![(key(1), Node::new(bytes("a"))), (key(2), Node::new(bytes("b")))];
    let mut db = Database::load(PathBuf::from("t.grahh"), entries).unwrap();
    assert_eq!(db.create_with_key(key(1), bytes("c")), Err(CreateError::KeyCollision));
    assert_eq!(db.create_at(Some(2), bytes("c")), Err(CreateError::KeyCollision));
    assert_eq!(db.create_with_key(key(3), bytes("c")), Ok(key(3)));
    assert_eq!(db.get(&key(1)).unwrap().value().as_bytes(), &b"a".to_vec());
    assert_eq!(db.iter().len(), 3);
}

#[test]
fn get_of_an_unknown_key_is_none() {
    let mut db = Database::in_memory();
    db.create_with_key(key(1), bytes("a")).unwrap();
    assert!(db.get(&key(2)).is_none());
    assert!(db.get(&key(1)).is_some());
}

#[test]
fn connect_links_each_node_under_its_own_label() {
    let mut db = Database::in_memory();
    db.create_with_key(key(1), bytes("a")).unwrap();
    db.create_with_key(key(2), bytes("b")).unwrap();
    assert!(db.connect(key(1), "l1".to_owned(), key(2), "l2".to_owned()));
    assert_eq!(ids(&db.select(&key(1), "l1")), vec!["2"]);
    assert_eq!(ids(&db.select(&key(2), "l2")), vec!["1"]);
    assert!(db.select(&key(1), "l2").is_empty());
    assert!(db.select(&key(2), "l1").is_empty());
}

#[test]
fn connect_with_one_label_is_seen_from_both_sides() {
    let mut db = Database::in_memory();
    db.create_with_key(key(1), bytes("a")).unwrap();
    db.create_with_key(key(2), bytes("b")).unwrap();
    assert!(db.connect(key(1), "peer".to_owned(), key(2), "peer".to_owned()));
    assert!(db.select(&key(1), "peer").contains(&key(2)));
    assert!(db.select(&key(2), "peer").contains(&key(1)));
}

#[test]
fn connect_twice_changes_nothing_more() {
    let mut db = Database::in_memory();
    db.create_with_key(key(1), bytes("a")).unwrap();
    db.create_with_key(key(2), bytes("b")).unwrap();
    assert!(db.connect(key(1), "l1".to_owned(), key(2), "l2".to_owned()));
    assert!(db.connect(key(1), "l1".to_owned(), key(2), "l2".to_owned()));
    assert_eq!(db.select(&key(1), "l1").len(), 1);
    assert_eq!(db.select(&key(2), "l2").len(), 1);
}

#[test]
fn connect_with_a_missing_key_is_refused() {
    let mut db = Database::in_memory();
    db.create_with_key(key(1), bytes("a")).unwrap();
    assert!(!db.connect(key(1), "l1".to_owned(), key(2), "l2".to_owned()));
    assert!(!db.connect(key(2), "l1".to_owned(), key(1), "l2".to_owned()));
    assert!(!db.connect(key(2), "l1".to_owned(), key(3), "l2".to_owned()));
    assert!(db.select(&key(1), "l1").is_empty());
    assert!(db.select(&key(1), "l2").is_empty());
    assert!(db.get(&key(1)).unwrap().connections().is_empty());
}

#[test]
fn connect_of_a_node_to_itself_is_allowed() {
    let mut db = Database::in_memory();
    db.create_with_key(key(1), bytes("a")).unwrap();
    assert!(db.connect(key(1), "out".to_owned(), key(1), "in".to_owned()));
    assert_eq!(ids(&db.select(&key(1), "out")), vec!["1"]);
    assert_eq!(ids(&db.select(&key(1), "in")), vec!["1"]);
    assert_eq!(db.remove(key(1)).unwrap().as_bytes(), &b"a".to_vec());
    assert!(db.iter().is_empty());
}

#[test]
fn the_same_pair_may_be_linked_under_two_labels() {
    let mut db = Database::in_memory();
    db.create_with_key(key(1), bytes("a")).unwrap();
    db.create_with_key(key(2), bytes("b")).unwrap();
    assert!(db.connect(key(1), "x".to_owned(), key(2), "y".to_owned()));
    assert!(db.connect(key(1), "z".to_owned(), key(2), "y".to_owned()));
    assert!(db.select(&key(1), "x").contains(&key(2)));
    assert!(db.select(&key(1), "z").contains(&key(2)));
    assert_eq!(db.select(&key(2), "y").len(), 1);
}

#[test]
fn disconnect_cuts_every_label_in_both_directions() {
    let mut db = Database::in_memory();
    db.create_with_key(key(1), bytes("a")).unwrap();
    db.create_with_key(key(2), bytes("b")).unwrap();
    db.create_with_key(key(3), bytes("c")).unwrap();
    db.connect(key(1), "x".to_owned(), key(2), "y".to_owned());
    db.connect(key(1), "z".to_owned(), key(2), "w".to_owned());
    db.connect(key(1), "x".to_owned(), key(3), "y".to_owned());
    assert!(db.disconnect(&key(1), &key(2)));
    assert_eq!(ids(&db.select(&key(1), "x")), vec!["3"]);
    assert!(db.select(&key(1), "z").is_empty());
    assert!(db.select(&key(2), "y").is_empty());
    assert!(db.select(&key(2), "w").is_empty());
    assert_eq!(ids(&db.select(&key(3), "y")), vec!["1"]);
}

#[test]
fn disconnect_with_a_missing_key_is_refused() {
    let mut db = Database::in_memory();
    db.create_with_key(key(1), bytes("a")).unwrap();
    db.create_with_key(key(2), bytes("b")).unwrap();
    db.connect(key(1), "x".to_owned(), key(2), "y".to_owned());
    assert!(!db.disconnect(&key(1), &key(9)));
    assert!(!db.disconnect(&key(9), &key(1)));
    assert!(db.select(&key(1), "x").contains(&key(2)));
    assert!(db.select(&key(2), "y").contains(&key(1)));
}

#[test]
fn disconnect_of_nodes_that_are_not_linked_succeeds() {
    let mut db = Database::in_memory();
    db.create_with_key(key(1), bytes("a")).unwrap();
    db.create_with_key(key(2), bytes("b")).unwrap();
    assert!(db.disconnect(&key(1), &key(2)));
    assert!(db.get(&key(1)).unwrap().connections().is_empty());
}

#[test]
fn select_of_an_emptied_label_is_like_select_of_an_unused_label() {
    let mut db = Database::in_memory();
    db.create_with_key(key(1), bytes("a")).unwrap();
    db.create_with_key(key(2), bytes("b")).unwrap();
    db.connect(key(1), "x".to_owned(), key(2), "y".to_owned());
    db.disconnect(&key(1), &key(2));
    let emptied = db.select(&key(1), "x");
    let unused = db.select(&key(1), "never");
    assert!(emptied.is_empty() && unused.is_empty());
    assert_eq!(emptied.len(), unused.len());
    assert_eq!(emptied.to_vec(), unused.to_vec());
}

#[test]
fn remove_returns_the_value_and_cleans_the_neighbours() {
    let mut db = Database::in_memory();
    db.create_with_key(key(1), bytes("a")).unwrap();
    db.create_with_key(key(2), bytes("b")).unwrap();
    db.create_with_key(key(3), bytes("c")).unwrap();
    db.connect(key(1), "x".to_owned(), key(2), "y".to_owned());
    db.connect(key(1), "z".to_owned(), key(2), "w".to_owned());
    db.connect(key(1), "x".to_owned(), key(3), "y".to_owned());
    db.connect(key(2), "x".to_owned(), key(3), "y".to_owned());
    let value = db.remove(key(1)).unwrap();
    assert_eq!(value.as_bytes(), &b"a".to_vec());
    assert!(db.get(&key(1)).is_none());
    for (_, node) in db.iter() {
        assert!(!node.points_to(&key(1)));
        for other in node.linked_keys() {
            assert!(db.get(&other).is_some());
        }
    }
    assert!(db.select(&key(2), "y").is_empty());
    assert!(db.select(&key(2), "w").is_empty());
    assert_eq!(ids(&db.select(&key(2), "x")), vec!["3"]);
    assert_eq!(ids(&db.select(&key(3), "y")), vec!["2"]);
    assert!(db.select(&key(1), "x").is_empty());
}

#[test]
fn unknown_key_on_a_fresh_database() {
    let mut db = Database::in_memory();
    let stranger = key(12345);
    assert!(db.select(&stranger, "any").is_empty());
    assert!(db.remove(stranger).is_none());
    assert!(db.iter().is_empty());
    assert!(db.get(&stranger).is_none());
}

#[test]
fn remove_of_an_unknown_key_leaves_the_table() {
    let mut db = Database::in_memory();
    db.create_with_key(key(1), bytes("a")).unwrap();
    db.create_with_key(key(2), bytes("b")).unwrap();
    db.connect(key(1), "x".to_owned(), key(2), "y".to_owned());
    assert!(db.remove(key(9)).is_none());
    assert_eq!(db.iter().len(), 2);
    assert!(db.select(&key(1), "x").contains(&key(2)));
}

#[test]
fn iter_lists_every_node_once() {
    let mut db = Database::in_memory();
    for id in [3, 1, 2] {
        db.create_with_key(key(id), bytes("n")).unwrap();
    }
    let mut seen: Vec<String> = db.iter().iter().map(|(k, _)| k.to_string()).collect();
    seen.sort();
    assert_eq!(seen, vec!["1", "2", "3"]);
}

#[test]
fn hello_world_scenario() {
    let path = PathBuf::from("db.grahh");
    let mut db = Database::load(path.clone(), Vec::new()).unwrap();
    let a = create(&mut db, Value::serialize(&"Hello".to_owned()).unwrap());
    let b = create(&mut db, Value::serialize(&"World".to_owned()).unwrap());
    assert_ne!(a, b);
    assert!(db.connect(a, "_".to_owned(), b, "!".to_owned()));
    assert_eq!(db.select(&b, "!").to_vec(), vec![a]);
    let hello: Option<&ArchivedString> = db.get(&a).unwrap().value().deserialize();
    assert_eq!(hello.unwrap().as_str(), "Hello");
    assert!(db.remove(a).is_some());
    assert!(db.select(&b, "!").is_empty());

    let (target, _) = db.save().unwrap();
    assert_eq!(target, &path);
    let reloaded = Database::load(path, snapshot(&db)).unwrap();
    let nodes = reloaded.iter();
    assert_eq!(nodes.len(), 1);
    assert_eq!(nodes[0].0, b);
    assert!(nodes[0].1.connections().is_empty());
    assert!(!nodes[0].1.points_to(&a));
    let world: Option<&ArchivedString> = nodes[0].1.value().deserialize();
    assert_eq!(world.unwrap().as_str(), "World");
}

#[test]
fn save_hands_out_the_path_and_the_whole_table() {
    let path = PathBuf::from("some/where.grahh");
    let mut db = Database::load(path.clone(), Vec::new()).unwrap();
    assert!(matches!(db.storage(), Storage::File(p) if p == &path));
    db.create_with_key(key(1), bytes("a")).unwrap();
    db.create_with_key(key(2), bytes("b")).unwrap();
    db.connect(key(1), "x".to_owned(), key(2), "y".to_owned());
    let (target, entries) = db.save().unwrap();
    assert_eq!(target, &path);
    assert_eq!(entries.len(), 2);
    for (k, node) in entries {
        assert_eq!(node.value().as_bytes(), db.get(&k).unwrap().value().as_bytes());
    }
}

#[test]
fn load_of_what_was_saved_gives_the_same_table() {
    let mut db = Database::in_memory();
    db.create_with_key(key(1), bytes("a")).unwrap();
    db.create_with_key(key(2), bytes("b")).unwrap();
    db.create_with_key(key(3), bytes("c")).unwrap();
    db.connect(key(1), "x".to_owned(), key(2), "y".to_owned());
    db.connect(key(1), "z".to_owned(), key(2), "y".to_owned());
    db.connect(key(3), "self".to_owned(), key(3), "self".to_owned());
    let again = Database::load(PathBuf::from("t.grahh"), snapshot(&db)).unwrap();
    assert_eq!(again.iter().len(), 3);
    for (k, node) in db.iter() {
        let other = again.get(&k).unwrap();
        assert_eq!(other.value().as_bytes(), node.value().as_bytes());
        let mut mine: Vec<(String, Vec<String>)> = Vec::new();
        for (label, count) in node.connections() {
            assert_eq!(other.get_connections(label).len(), count);
            mine.push((label.to_owned(), ids(&node.get_connections(label))));
        }
        let mut theirs: Vec<(String, Vec<String>)> = Vec::new();
        for (label, _) in other.connections() {
            theirs.push((label.to_owned(), ids(&other.get_connections(label))));
        }
        mine.sort();
        theirs.sort();
        assert_eq!(mine, theirs);
    }
}

#[test]
fn load_of_nothing_is_an_empty_table_with_its_file() {
    let path = PathBuf::from("fresh.grahh");
    let db = Database::load(path.clone(), Vec::new()).unwrap();
    assert!(db.iter().is_empty());
    assert!(matches!(db.storage(), Storage::File(p) if p == &path));
    let (target, entries) = db.save().unwrap();
    assert_eq!(target, &path);
    assert!(entries.is_empty());
}

#[test]
fn load_refuses_a_key_that_comes_twice() {
    let entries = vec![
        (key(1), Node::new(bytes("a"))),
        (key(2), Node::new(bytes("b"))),
        (key(1), Node::new(bytes("c"))),
    ];
    let loaded = Database::load(PathBuf::from("t.grahh"), entries);
    assert_eq!(loaded.unwrap_err(), LoadError::DuplicateKey);
}

#[test]
fn load_refuses_a_link_that_leads_nowhere() {
    let mut lonely = Node::new(bytes("a"));
    lonely.connect("x".to_owned(), key(2));
    let loaded = Database::load(PathBuf::from("t.grahh"), vec![(key(1), lonely)]);
    assert_eq!(loaded.unwrap_err(), LoadError::BrokenLink);
}

#[test]
fn load_refuses_a_link_that_is_not_answered() {
    let mut first = Node::new(bytes("a"));
    first.connect("x".to_owned(), key(2));
    let second = Node::new(bytes("b"));
    let loaded = Database::load(PathBuf::from("t.grahh"), vec![(key(1), first), (key(2), second)]);
    assert_eq!(loaded.unwrap_err(), LoadError::BrokenLink);
}

#[test]
fn load_takes_links_that_are_answered_under_another_label() {
    let mut first = Node::new(bytes("a"));
    first.connect("x".to_owned(), key(2));
    let mut second = Node::new(bytes("b"));
    second.connect("y".to_owned(), key(1));
    let db = Database::load(PathBuf::from("t.grahh"), vec![(key(2), second), (key(1), first)])
        .unwrap();
    assert_eq!(ids(&db.select(&key(1), "x")), vec!["2"]);
    assert_eq!(ids(&db.select(&key(2), "y")), vec!["1"]);
}

#[test]
fn every_link_leads_to_a_stored_node_after_each_operation() {
    let mut db = Database::in_memory();
    let check = |db: &Database| {
        for (k, node) in db.iter() {
            for other in node.linked_keys() {
                let back = db.get(&other).unwrap();
                assert!(back.points_to(&k));
            }
        }
    };
    for id in 1..=5 {
        db.create_with_key(key(id), bytes("n")).unwrap();
        check(&db);
    }
    db.connect(key(1), "a".to_owned(), key(2), "b".to_owned());
    check(&db);
    db.connect(key(2), "a".to_owned(), key(3), "b".to_owned());
    check(&db);
    db.connect(key(3), "a".to_owned(), key(1), "c".to_owned());
    check(&db);
    db.connect(key(4), "a".to_owned(), key(4), "a".to_owned());
    check(&db);
    db.disconnect(&key(1), &key(2));
    check(&db);
    db.remove(key(3));
    check(&db);
    db.remove(key(4));
    check(&db);
    db.remove(key(9));
    check(&db);
    assert_eq!(db.iter().len(), 3);
}
