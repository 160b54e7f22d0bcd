use sorted_container::tree::{Data, SortedContainer};

fn rec(age: i32, name: &str) -> Data {
    Data {
        age,
        name: name.to_string(),
    }
}

#[test]
fn adds_nodes() {
    let mut tree = SortedContainer::new();

    tree.insert_node(Data {
        age: 22,
        name: "Biba".to_string(),
    });
    tree.insert_node(Data {
        age: 29,
        name: "Boba".to_string(),
    });

    // The root holds (22, "Biba") and its right child (29, "Boba").
    assert_eq!(
        tree.serialize(),
        "[{\"22\":\"Biba\"},null,[{\"29\":\"Boba\"},null,null]]"
    );
}

#[test]
fn contains_nodes() {
    let mut tree = SortedContainer::new();

    tree.insert_node(Data {
        age: 22,
        name: "Biba".to_string(),
    });
    tree.insert_node(Data {
        age: 29,
        name: "Boba".to_string(),
    });

    assert_eq!(
        tree.contains(&Data {
            age: 22,
            name: "Biba".to_string()
        }),
        true
    );
    assert_eq!(
        tree.contains(&Data {
            age: 29,
            name: "Boba".to_string()
        }),
        true
    );
    assert_eq!(
        tree.contains(&Data {
            age: 22,
            name: "Boba".to_string()
        }),
        false
    );
    assert_eq!(
        tree.contains(&Data {
            age: 29,
            name: "Biba".to_string()
        }),
        false
    );
}

#[test]
fn tree_reset() {
    let mut tree = SortedContainer::new();

    tree.insert_node(Data {
        age: 22,
        name: "Biba".to_string(),
    });
    tree.insert_node(Data {
        age: 29,
        name: "Boba".to_string(),
    });

    tree.reset();

    // No root is left.
    assert_eq!(tree.serialize(), "null");
}

#[test]
fn delete_nodes() {
    let mut tree = SortedContainer::new();

    let biba = Data {
        age: 22,
        name: "Biba".to_string(),
    };
    let boba = Data {
        age: 29,
        name: "Boba".to_string(),
    };

    tree.insert_node(biba.clone());
    tree.insert_node(boba.clone());

    assert_eq!(tree.contains(&biba), true);
    assert_eq!(tree.contains(&boba), true);

    tree.delete(&biba);

    assert_eq!(tree.contains(&biba), false);
    assert_eq!(tree.contains(&boba), true);

    tree.delete(&biba);

    tree.delete(&boba);

    assert_eq!(tree.contains(&boba), false);
}

#[test]
fn delete_nodes2() {
    let mut tree = SortedContainer::new();

    let a10 = rec(10, "a");
    let a5 = rec(5, "a");
    let a100 = rec(100, "a");
    let a150 = rec(150, "a");
    let a125 = rec(125, "a");
    let a130 = rec(130, "a");
    let a175 = rec(175, "a");
    let a200 = rec(200, "a");

    tree.insert_node(a10.clone());
    tree.insert_node(a5.clone());
    tree.insert_node(a100.clone());
    tree.insert_node(a150.clone());
    tree.insert_node(a125.clone());
    tree.insert_node(a130.clone());
    tree.insert_node(a175.clone());
    tree.insert_node(a200.clone());

    assert_eq!(tree.contains(&a10), true);
    assert_eq!(tree.contains(&a5), true);
    assert_eq!(tree.contains(&a100), true);
    assert_eq!(tree.contains(&a150), true);
    assert_eq!(tree.contains(&a125), true);
    assert_eq!(tree.contains(&a130), true);
    assert_eq!(tree.contains(&a175), true);
    assert_eq!(tree.contains(&a200), true);

    tree.delete(&a150);

    assert_eq!(tree.contains(&a10), true);
    assert_eq!(tree.contains(&a5), true);
    assert_eq!(tree.contains(&a100), true);
    assert_eq!(tree.contains(&a150), false);
    assert_eq!(tree.contains(&a125), true);
    assert_eq!(tree.contains(&a130), true);
    assert_eq!(tree.contains(&a175), true);
    assert_eq!(tree.contains(&a200), true);

    tree.delete(&a10);

    assert_eq!(tree.contains(&a10), false);
    assert_eq!(tree.contains(&a5), true);
    assert_eq!(tree.contains(&a100), true);
    assert_eq!(tree.contains(&a150), false);
    assert_eq!(tree.contains(&a125), true);
    assert_eq!(tree.contains(&a130), true);
    assert_eq!(tree.contains(&a175), true);
    assert_eq!(tree.contains(&a200), true);
}

#[test]
fn empty_tree_renders_null() {
    let tree = SortedContainer::new();
    assert_eq!(tree.serialize(), "null");
}

#[test]
fn single_node_rendering() {
    let mut tree = SortedContainer::new();
    tree.insert_node(rec(22, "Biba"));
    assert_eq!(tree.serialize(), "[{\"22\":\"Biba\"},null,null]");
}

#[test]
fn negative_and_extreme_keys_render_in_decimal() {
    let mut tree = SortedContainer::new();
    tree.insert_node(rec(0, "z"));
    tree.insert_node(rec(i32::MIN, "lo"));
    tree.insert_node(rec(i32::MAX, "hi"));
    tree.insert_node(rec(-7, "m"));
    assert_eq!(
        tree.serialize(),
        "[{\"0\":\"z\"},[{\"-2147483648\":\"lo\"},null,[{\"-7\":\"m\"},null,null]],[{\"2147483647\":\"hi\"},null,null]]"
    );
}

#[test]
fn inserted_record_is_found_right_after() {
    let mut tree = SortedContainer::new();
    let keys = [50, 20, 70, 20, 20, 65, 80, -3, 50];
    for (i, k) in keys.iter().enumerate() {
        let d = rec(*k, &format!("n{}", i));
        tree.insert_node(d.clone());
        assert!(tree.contains(&d));
    }
}

#[test]
fn equal_keys_go_left_and_stay_distinct() {
    let mut tree = SortedContainer::new();
    tree.insert_node(rec(22, "Biba"));
    tree.insert_node(rec(22, "Biba"));
    tree.insert_node(rec(22, "Boba"));
    assert_eq!(
        tree.serialize(),
        "[{\"22\":\"Biba\"},[{\"22\":\"Biba\"},[{\"22\":\"Boba\"},null,null],null],null]"
    );
    assert!(tree.contains(&rec(22, "Boba")));
    tree.delete(&rec(22, "Biba"));
    assert!(tree.contains(&rec(22, "Biba")));
    tree.delete(&rec(22, "Biba"));
    assert!(!tree.contains(&rec(22, "Biba")));
    assert!(tree.contains(&rec(22, "Boba")));
}

#[test]
fn reset_forgets_every_record() {
    let mut tree = SortedContainer::new();
    let all = [rec(3, "a"), rec(1, "b"), rec(9, "c"), rec(3, "d")];
    for d in all.iter() {
        tree.insert_node(d.clone());
    }
    tree.reset();
    for d in all.iter() {
        assert!(!tree.contains(d));
    }
    assert_eq!(tree.serialize(), "null");
}

#[test]
fn deleting_an_absent_record_keeps_rendering() {
    let mut tree = SortedContainer::new();
    tree.insert_node(rec(10, "a"));
    tree.insert_node(rec(5, "b"));
    tree.insert_node(rec(15, "c"));
    let before = tree.serialize();
    tree.delete(&rec(10, "x"));
    tree.delete(&rec(7, "b"));
    tree.delete(&rec(99, "a"));
    assert_eq!(tree.serialize(), before);
}

#[test]
fn deleting_twice_is_deleting_once() {
    let mut once = SortedContainer::new();
    let mut twice = SortedContainer::new();
    for d in [rec(10, "a"), rec(5, "b"), rec(15, "c"), rec(12, "d")].iter() {
        once.insert_node(d.clone());
        twice.insert_node(d.clone());
    }
    once.delete(&rec(10, "a"));
    twice.delete(&rec(10, "a"));
    twice.delete(&rec(10, "a"));
    assert_eq!(once.serialize(), twice.serialize());
}

#[test]
fn two_child_delete_takes_successor_record() {
    let mut tree = SortedContainer::new();
    for k in [10, 5, 100, 150, 125, 130, 175, 200].iter() {
        tree.insert_node(rec(*k, "a"));
    }
    tree.delete(&rec(150, "a"));
    assert_eq!(
        tree.serialize(),
        "[{\"10\":\"a\"},[{\"5\":\"a\"},null,null],[{\"100\":\"a\"},null,[{\"175\":\"a\"},[{\"125\":\"a\"},null,[{\"130\":\"a\"},null,null]],[{\"200\":\"a\"},null,null]]]]"
    );
}

#[test]
fn successor_deeper_in_right_subtree() {
    let mut tree = SortedContainer::new();
    for k in [50, 30, 80, 70, 60, 65, 90].iter() {
        tree.insert_node(rec(*k, "k"));
    }
    tree.delete(&rec(50, "k"));
    assert_eq!(
        tree.serialize(),
        "[{\"60\":\"k\"},[{\"30\":\"k\"},null,null],[{\"80\":\"k\"},[{\"70\":\"k\"},[{\"65\":\"k\"},null,null],null],[{\"90\":\"k\"},null,null]]]"
    );
    for k in [30, 60, 65, 70, 80, 90].iter() {
        assert!(tree.contains(&rec(*k, "k")));
    }
    assert!(!tree.contains(&rec(50, "k")));
}

#[test]
fn delete_leaf_and_one_child_nodes() {
    let mut tree = SortedContainer::new();
    for k in [10, 5, 3, 20].iter() {
        tree.insert_node(rec(*k, "q"));
    }
    tree.delete(&rec(20, "q"));
    assert_eq!(
        tree.serialize(),
        "[{\"10\":\"q\"},[{\"5\":\"q\"},[{\"3\":\"q\"},null,null],null],null]"
    );
    tree.delete(&rec(5, "q"));
    assert_eq!(
        tree.serialize(),
        "[{\"10\":\"q\"},[{\"3\":\"q\"},null,null],null]"
    );
}

#[test]
fn delete_with_equal_key_successor_keeps_order() {
    let mut tree = SortedContainer::new();
    for (k, n) in [(10, "a"), (5, "e"), (20, "b"), (15, "c"), (15, "d")].iter() {
        tree.insert_node(rec(*k, n));
    }
    tree.delete(&rec(10, "a"));
    assert_eq!(
        tree.serialize(),
        "[{\"20\":\"b\"},[{\"15\":\"c\"},[{\"15\":\"d\"},[{\"5\":\"e\"},null,null],null],null],null]"
    );
    for (k, n) in [(5, "e"), (20, "b"), (15, "c"), (15, "d")].iter() {
        assert!(tree.contains(&rec(*k, n)));
    }
    assert!(!tree.contains(&rec(10, "a")));
}
