use merkle_block::block::combine_hash;
use merkle_block::block::merkle_root;
use merkle_block::block::merkle_root_of;
use merkle_block::block::Block;
use merkle_block::block::Hashable;
use merkle_block::tx::Tx;

fn s(text: &str) -> String {
    text.to_string()
}

#[test]
fn empty_leaves_have_no_root() {
    let leaves: Vec<String> = Vec::new();
    assert!(merkle_root(&leaves).is_none());
}

#[test]
fn empty_block_is_never_valid() {
    let block = Block {
        tx_hashes: Vec::new(),
        merkle_root: s("anything"),
    };
    assert!(!block.is_valid());
}

#[test]
fn singleton_root_is_the_leaf() {
    let leaves = vec![s("d")];
    assert_eq!(merkle_root(&leaves).unwrap(), "d");
}

#[test]
fn root_is_deterministic() {
    let leaves = vec![s("a"), s("b"), s("c")];
    let first = merkle_root(&leaves);
    let second = merkle_root(&leaves);
    assert_eq!(first, second);
}

#[test]
fn pair_root_is_combine() {
    let leaves = vec![s("a"), s("b")];
    let root = merkle_root(&leaves).unwrap();
    assert_eq!(root, combine_hash(&s("a"), &s("b")));
    assert_eq!(root, "a|b");
}

#[test]
fn root_depends_on_leaf_order() {
    let ab = merkle_root(&vec![s("a"), s("b")]).unwrap();
    let ba = merkle_root(&vec![s("b"), s("a")]).unwrap();
    assert_eq!(ab, "a|b");
    assert_eq!(ba, "b|a");
    assert_ne!(ab, ba);
}

#[test]
fn odd_count_pairs_last_leaf_with_itself() {
    let leaves = vec![s("a"), s("b"), s("c")];
    let root = merkle_root(&leaves).unwrap();
    let expected = combine_hash(&combine_hash(&s("a"), &s("b")), &combine_hash(&s("c"), &s("c")));
    assert_eq!(root, expected);
    assert_eq!(root, "a|b|c|c");
}

#[test]
fn four_leaves_fold_in_two_levels() {
    let leaves = vec![s("h1"), s("h2"), s("h3"), s("h4")];
    let level1 = vec![combine_hash(&s("h1"), &s("h2")), combine_hash(&s("h3"), &s("h4"))];
    assert_eq!(level1, vec![s("h1|h2"), s("h3|h4")]);
    let root = merkle_root(&leaves).unwrap();
    assert_eq!(root, combine_hash(&level1[0], &level1[1]));
    assert_eq!(root, "h1|h2|h3|h4");
}

#[test]
fn three_leaves_fold_with_duplication() {
    let leaves = vec![s("h1"), s("h2"), s("h3")];
    let level1 = vec![combine_hash(&s("h1"), &s("h2")), combine_hash(&s("h3"), &s("h3"))];
    assert_eq!(level1, vec![s("h1|h2"), s("h3|h3")]);
    let root = merkle_root(&leaves).unwrap();
    assert_eq!(root, combine_hash(&level1[0], &level1[1]));
    assert_eq!(root, "h1|h2|h3|h3");
}

#[test]
fn block_method_recomputes_root() {
    let block = Block {
        tx_hashes: vec![s("x"), s("y")],
        merkle_root: s("unused"),
    };
    assert_eq!(block.merkle_root().unwrap(), "x|y");
}

#[test]
fn validator_round_trip() {
    let leaves = vec![s("x"), s("y"), s("z")];
    let root = merkle_root(&leaves).unwrap();
    let block = Block {
        tx_hashes: leaves.clone(),
        merkle_root: root.clone(),
    };
    assert!(block.is_valid());

    for i in 0..leaves.len() {
        let mut mutated = leaves.clone();
        mutated[i] = s("tampered");
        let bad = Block {
            tx_hashes: mutated,
            merkle_root: root.clone(),
        };
        assert!(!bad.is_valid());
    }
}

#[test]
fn validator_rejects_wrong_root() {
    let block = Block {
        tx_hashes: vec![s("x"), s("y")],
        merkle_root: s("y|x"),
    };
    assert!(!block.is_valid());
}

#[test]
fn tx_hash_joins_fields() {
    let tx = Tx {
        from: s("Alice"),
        to: s("Bob"),
        amount: 100,
    };
    assert_eq!(tx.hash(), "Alice-Bob-100");
}

#[test]
fn tx_hash_is_deterministic() {
    let a = Tx {
        from: s("Alice"),
        to: s("Bob"),
        amount: 7,
    };
    let b = Tx {
        from: s("Alice"),
        to: s("Bob"),
        amount: 7,
    };
    assert_eq!(a.hash(), b.hash());
}

#[test]
fn tx_hash_changes_with_each_field() {
    let base = Tx {
        from: s("Alice"),
        to: s("Bob"),
        amount: 7,
    };
    let other_from = Tx {
        from: s("Carol"),
        to: s("Bob"),
        amount: 7,
    };
    let other_to = Tx {
        from: s("Alice"),
        to: s("Dan"),
        amount: 7,
    };
    let other_amount = Tx {
        from: s("Alice"),
        to: s("Bob"),
        amount: 8,
    };
    assert_ne!(base.hash(), other_from.hash());
    assert_ne!(base.hash(), other_to.hash());
    assert_ne!(base.hash(), other_amount.hash());
}

#[test]
fn root_of_items_hashes_then_folds() {
    let txs = vec![
        Tx {
            from: s("A"),
            to: s("B"),
            amount: 1,
        },
        Tx {
            from: s("C"),
            to: s("D"),
            amount: 2,
        },
    ];
    let root = merkle_root_of(&txs).unwrap();
    assert_eq!(root, "A-B-1|C-D-2");
    let hashes = vec![txs[0].hash(), txs[1].hash()];
    assert_eq!(root, merkle_root(&hashes).unwrap());
}

#[test]
fn root_of_no_items_is_none() {
    let txs: Vec<Tx> = Vec::new();
    assert!(merkle_root_of(&txs).is_none());
}
