use btree_index::btree::{BTree, IndexError};
use btree_index::csv;
use btree_index::key::Key;
use btree_index::node::Node;
use uuid::Uuid;

fn _create_key(value: &str) -> Key {
    Key::create(value, (0, 0))
}

#[test]
fn get_key() {
    let buf = String::from("10,20,30");

    match csv::get_key(1, &buf) {
        None => {
            panic!("Key not found");
        }
        Some(key) => {
            assert_eq!(key, "20");
        }
    };

    match csv::get_key(3, &buf) {
        None => {}
        Some(_) => {
            panic!("Key shouldn't be found");
        }
    };
}

#[test]
fn key_create() {
    let key = Key::create("Sample", (10, 20));
    assert_eq!(key.value, "Sample");
    assert_eq!(key.position, (10, 20));
}

#[test]
fn index_file() {
    let source = "10,20,30\n17,27,37\n20,40,60\n";
    let tree_path = "csv_test_index_file";

    let mut tree = BTree::create(3, tree_path);
    csv::index_file(source, &mut tree);

    match tree.search("10") {
        None => panic!("10 not found!"),
        Some(key) => assert_eq!(key.position, (0, 9)),
    };

    match tree.search("11") {
        None => {}
        Some(_) => panic!("Key shouldn't be found"),
    };

    match tree.search("20") {
        None => panic!("20 not found!"),
        Some(key) => assert_eq!(key.position, (18, 9)),
    };
}

#[test]
fn read_line() {
    let source = "10,20,30\n20,40,60\n";
    let tree_path = "csv_test_load_line";

    let mut tree = BTree::create(3, tree_path);
    csv::index_file(source, &mut tree);

    match tree.search("10") {
        None => panic!("10 not found!"),
        Some(key) => match csv::read_range(source, key.position) {
            Err(_) => panic!("Can't read line 10"),
            Ok(line) => assert_eq!(line, "10,20,30\n"),
        },
    };
}

#[test]
fn btree_create() {
    let order = 3;
    let tree = BTree::create(order, "btree_test_create");

    assert_eq!(tree.order, order);
    assert_eq!(tree.root.leaf, true);
}

#[test]
fn btree_insert() {
    let path = "btree_test_insert";
    let order = 3;
    let mut tree = BTree::create(order, path);

    tree.root.keys = vec![
        _create_key("G"),
        _create_key("M"),
        _create_key("P"),
        _create_key("X"),
    ];
    tree.root.leaf = false;
    tree.root.children = vec![
        {
            let mut child = Node::empty(order, true, path);
            child.keys = vec![
                _create_key("A"),
                _create_key("C"),
                _create_key("D"),
                _create_key("E"),
            ];
            child
        },
        {
            let mut child = Node::empty(order, true, path);
            child.keys = vec![_create_key("J"), _create_key("K")];
            child
        },
        {
            let mut child = Node::empty(order, true, path);
            child.keys = vec![_create_key("N"), _create_key("O")];
            child
        },
        {
            let mut child = Node::empty(order, true, path);
            child.keys = vec![
                _create_key("R"),
                _create_key("S"),
                _create_key("T"),
                _create_key("U"),
                _create_key("V"),
            ];
            child
        },
        {
            let mut child = Node::empty(order, true, path);
            child.keys = vec![_create_key("Y"), _create_key("Z")];
            child
        },
    ];

    tree.insert(_create_key("B"));
    tree.insert(_create_key("Q"));
    tree.insert(_create_key("L"));
    tree.insert(_create_key("F"));

    assert!(tree.root.check(order).is_some());
}

#[test]
fn search() {
    let order = 3;
    let mut tree = BTree::create(order, "btree_test_search");

    let uuids: Vec<String> = (0..100).map(|_| Uuid::new_v4().to_string()).collect();

    for uuid in &uuids {
        tree.insert(_create_key(uuid));

        assert!(match tree.search(uuid) {
            None => {
                false
            }
            Some(key) => {
                key.value == *uuid
            }
        });
    }

    for uuid in uuids {
        assert!(match tree.search(&uuid) {
            None => {
                false
            }
            Some(key) => {
                key.value == uuid
            }
        });
    }

    let none_found: Option<bool> = (0..100)
        .map(|_| match tree.search(&Uuid::new_v4().to_string()) {
            None => true,
            Some(_) => false,
        })
        .reduce(|acc, e| acc & e);

    assert!(match none_found {
        None => {
            false
        }
        Some(result) => result,
    });
}

#[test]
fn load() {
    let path = "btree_test_load";
    let order = 3;
    let mut tree = BTree::create(order, path);

    let uuids: Vec<String> = (0..100).map(|_| Uuid::new_v4().to_string()).collect();

    for uuid in &uuids {
        tree.insert(_create_key(uuid));

        assert!(match tree.search(uuid) {
            None => {
                false
            }
            Some(key) => {
                key.value == *uuid
            }
        });
    }

    let tree_loaded = BTree::load(tree.root.clone(), tree.order, tree.path.clone())
        .expect("a tree's own parts reload");

    let none_found: Option<bool> = (0..100)
        .map(|_| match tree_loaded.search(&Uuid::new_v4().to_string()) {
            None => true,
            Some(_) => false,
        })
        .reduce(|acc, e| acc & e);

    assert!(match none_found {
        None => {
            false
        }
        Some(result) => result,
    });
}

#[test]
fn add_key() {
    let path = "node_test_add_key";
    let mut node = Node::empty(3, true, path);

    let first_key = _create_key("A");
    let second_key = _create_key("B");
    let last_key = _create_key("C");

    node.add_key(0, _create_key("A"));
    assert_eq!(node.keys[0].value, first_key.value);

    node.add_key(1, _create_key("C"));
    assert_eq!(node.keys[1].value, last_key.value);

    node.add_key(1, _create_key("B"));
    assert_eq!(node.keys[1].value, second_key.value);
    assert_eq!(node.keys[2].value, last_key.value);
}

#[test]
fn find_position() {
    let path = "node_test_find_position";
    let mut node = Node::empty(3, true, path);

    vec!["B", "D", "F"].iter().enumerate().for_each(|(i, s)| {
        node.add_key(i, _create_key(s));
    });

    assert_eq!(node.find_position(&_create_key("A")), 0);
    assert_eq!(node.find_position(&_create_key("C")), 1);
    assert_eq!(node.find_position(&_create_key("E")), 2);
    assert_eq!(node.find_position(&_create_key("G")), 3);
}

#[test]
fn empty() {
    let order = 3;
    let node = Node::empty(3, true, "node_test_empty");

    assert_eq!(node.keys.capacity(), 2 * order - 1);
    assert_eq!(node.children.capacity(), 2 * order);
}

#[test]
fn is_full() {
    let order = 2;
    let mut node = Node::empty(2, true, "node_test_is_full");

    vec!["A", "B"].iter().enumerate().for_each(|(i, s)| {
        node.add_key(i, _create_key(s));
    });

    assert!(!node.is_full(order));

    node.add_key(2, _create_key("C"));

    assert!(node.is_full(order));
}

#[test]
fn split() {
    let order = 3;
    let path = "node_test_split";
    let mut node = Node::empty(order, true, path);

    vec!["A", "B", "C", "D", "E"]
        .iter()
        .enumerate()
        .for_each(|(i, s)| {
            node.add_key(i, _create_key(s));
        });

    let mut father = Node::empty(order, false, path);
    father.children.push(node);
    father.split(0, order, path);

    assert_eq!(father.keys.len(), 1);
    assert_eq!(father.children[0].keys.len(), 2);
    assert_eq!(father.children[1].keys.len(), 2);
}

#[test]
fn node_insert() {
    let order = 3;
    let path = "node_test_insert";
    let mut node = Node::empty(order, true, path);

    vec!["A", "Z", "C", "J", "E"].iter().for_each(|s| {
        node.insert(_create_key(s), order, path);
    });

    vec!["A", "C", "E", "J", "Z"]
        .iter()
        .enumerate()
        .for_each(|(i, s)| assert_eq!(node.keys[i].value, s.to_string()));
}

#[test]
fn sorted_traversal() {
    // records come back out in ascending key order, whatever order they went in
    let mut tree = BTree::create(2, "traversal_test");
    for s in [
        "delta", "alpha", "echo", "charlie", "bravo", "foxtrot", "golf", "hotel", "india",
        "juliett",
    ] {
        tree.insert(_create_key(s));
    }
    let recs = tree.root.records();
    assert_eq!(recs.len(), 10);
    for w in recs.windows(2) {
        assert!(w[0].value <= w[1].value);
    }
    assert_eq!(recs[0].value, "alpha");
    assert_eq!(recs[9].value, "juliett");
}

#[test]
fn round_trip_lines() {
    // index two lines, search both keys, read the lines back by their ranges
    let source = "10,20,30\n20,40,60\n";
    let mut tree = BTree::create(2, "round_trip_test");
    csv::index_file(source, &mut tree);

    let k10 = tree.search("10").expect("10 was indexed");
    assert_eq!(
        csv::read_range(source, k10.position).expect("range reads back"),
        "10,20,30\n"
    );
    let k20 = tree.search("20").expect("20 was indexed");
    assert_eq!(
        csv::read_range(source, k20.position).expect("range reads back"),
        "20,40,60\n"
    );
    assert!(tree.search("99").is_none());
}

#[test]
fn root_split_height() {
    // a tree whose root starts full grows by exactly one level over the
    // next 2 * order insertions: one root split, no more
    let order = 2;
    let mut tree = BTree::create(order, "height_test");
    for s in ["m", "f", "t"] {
        tree.insert(_create_key(s));
    }
    assert_eq!(tree.depth(), 0); // root is now full: 2 * order - 1 records
    for s in ["a", "c", "p", "x"] {
        tree.insert(_create_key(s));
    }
    assert_eq!(tree.depth(), 1);
    assert!(tree.root.check(order).is_some());
}

#[test]
fn boundary_order_two() {
    // the smallest degree, forced through repeated splits; the ordering
    // invariant holds at every node after every step
    let order = 2;
    let mut tree = BTree::create(order, "boundary_test");
    for i in 0..40 {
        tree.insert(_create_key(&format!("{:02}", i)));
        assert_eq!(tree.root.check(order), Some(tree.depth()));
        let recs = tree.root.records();
        assert_eq!(recs.len(), i + 1);
        for w in recs.windows(2) {
            assert!(w[0].value <= w[1].value);
        }
    }
}

#[test]
fn duplicate_keys() {
    // duplicates are not rejected; a search still answers with the value
    let mut tree = BTree::create(2, "duplicate_test");
    for _ in 0..5 {
        tree.insert(Key::create("same", (1, 2)));
    }
    tree.insert(_create_key("other"));
    let found = tree.search("same").expect("a duplicated key is still found");
    assert_eq!(found.value, "same");
    assert_eq!(tree.root.records().len(), 6);
    assert!(tree.root.check(2).is_some());
}

#[test]
fn reload_preserves_search() {
    // searches on a reloaded tree answer as they did before the reload
    let mut tree = BTree::create(3, "reload_test");
    for s in ["k1", "k2", "k3"] {
        tree.insert(Key::create(s, (7, 8)));
    }
    let reloaded = BTree::load(tree.root.clone(), tree.order, tree.path.clone())
        .expect("a tree's own parts reload");
    for s in ["k1", "k2", "k3"] {
        let a = tree.search(s).expect("present before the reload");
        let b = reloaded.search(s).expect("present after the reload");
        assert_eq!(a.value, b.value);
        assert_eq!(a.position, b.position);
    }
    assert!(reloaded.search("k4").is_none());
}

#[test]
fn corrupt_load() {
    // malformed parts are a corrupt index: records out of order, a degree
    // below two, a leaf with children
    let path = "corrupt_test";

    let mut unsorted = Node::empty(2, true, path);
    unsorted.keys = vec![_create_key("b"), _create_key("a")];
    assert!(matches!(
        BTree::load(unsorted, 2, path.to_string()),
        Err(IndexError::CorruptIndex)
    ));

    let ok_root = Node::empty(2, true, path);
    assert!(matches!(
        BTree::load(ok_root, 1, path.to_string()),
        Err(IndexError::CorruptIndex)
    ));

    let mut leafy = Node::empty(2, true, path);
    leafy.children.push(Node::empty(2, true, path));
    assert!(matches!(
        BTree::load(leafy, 2, path.to_string()),
        Err(IndexError::CorruptIndex)
    ));

    let good = Node::empty(2, true, path);
    assert!(BTree::load(good, 2, path.to_string()).is_ok());
}

#[test]
fn read_range_errors() {
    let source = "ab,cd\nna\u{ef}ve,x\n";
    // a range past the end cannot be read in full: an error, not a cut
    assert!(matches!(
        csv::read_range(source, (0, 100)),
        Err(IndexError::Io)
    ));
    // the two-byte character boundary cannot be cut through
    let pos_i = source.find('\u{ef}').unwrap() as u64;
    assert!(matches!(
        csv::read_range(source, (0, pos_i + 1)),
        Err(IndexError::Decode)
    ));
    assert_eq!(csv::read_range(source, (0, 6)).expect("first line"), "ab,cd\n");
}

#[test]
fn empty_line_key() {
    // a line without a comma is its own first field, terminator included
    let buf = String::from("abc\n");
    assert_eq!(csv::get_key(0, &buf), Some("abc\n"));
    assert_eq!(csv::get_key(1, &buf), None);
    assert_eq!(csv::get_key(0, ""), Some(""));
}
