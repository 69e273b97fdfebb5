use circle_stark::error::StarkError;
use circle_stark::fri::{chunkify, get_challenges, join_bytes, unchunkify, values_to_bytes};
use circle_stark::merkle::{
    bytes_equal, concat_bytes, copy_bytes, get_branch, get_root, hash, merkelize, verify_branch,
};

fn leaves(count: usize) -> Vec<Vec<u8>> {
    (0..count).map(|i| vec![i as u8; 3]).collect()
}

fn text(bytes: &Vec<u8>) -> String {
    String::from_utf8(bytes.clone()).unwrap()
}

#[test]
fn hash_is_the_hex_digest() {
    assert_eq!(
        text(&hash(b"hello".to_vec())),
        "2cf24dba5fb0a30e26e83b2ac5b9e29e1b161e5c1fa7425e73043362938b9824"
    );
    assert_eq!(hash(Vec::new()).len(), 64);
    assert_ne!(hash(b"hello".to_vec()), b"hello".to_vec());
}

#[test]
fn merkelize_four_leaves() {
    let tree = merkelize(&leaves(4)).unwrap();
    assert_eq!(tree.len(), 8);
    assert!(tree[0].is_empty());
    let expected = [
        "77f3b502e319b37b9dacc73e5744ecddd133cf4e780130576e3b5a36a03ab329",
        "7a60f3f832bb988f5fbe5b553a360f8d8415c78efa605ef6c9d4c997c7bb980e",
        "18873f6c254c5a5ac14fceb20369328fd4b6f13ce9a655288a63d95784f53d84",
        "709e80c88487a2411e1ee4dfb9f22a861492d20c4765150c0c794abd70f8147c",
        "75c8fd04ad916aec3e3d5cb76a452b116b3d4d0912a0a485e9fb8e3d240e210c",
        "970bec7483984728e413a0ff65986310f4bbe8fff5f02c58e6064856262d8476",
        "99f5eb64687cc7b7794b8be90b374592b85b01a2688a889d2ca6fd73768a6e52",
    ];
    for i in 0..7 {
        assert_eq!(text(&tree[i + 1]), expected[i]);
    }
}

#[test]
fn merkelize_joins_children_before_hashing() {
    let tree = merkelize(&leaves(2)).unwrap();
    assert_eq!(tree[2], hash(vec![0, 0, 0]));
    assert_eq!(tree[3], hash(vec![1, 1, 1]));
    assert_eq!(tree[1], hash(concat_bytes(&tree[2], &tree[3])));
}

#[test]
fn merkelize_one_leaf() {
    let tree = merkelize(&leaves(1)).unwrap();
    assert_eq!(tree.len(), 2);
    assert_eq!(tree[1], hash(vec![0, 0, 0]));
    assert_eq!(get_branch(&tree, 0).len(), 0);
    assert!(verify_branch(&tree[1], 0, &vec![0, 0, 0], &Vec::new()));
}

#[test]
fn merkelize_refuses_other_leaf_counts() {
    assert_eq!(merkelize(&leaves(0)), Err(StarkError::InvalidLeafCount));
    assert_eq!(merkelize(&leaves(3)), Err(StarkError::InvalidLeafCount));
    assert_eq!(merkelize(&leaves(6)), Err(StarkError::InvalidLeafCount));
    assert!(merkelize(&leaves(8)).is_ok());
}

#[test]
fn get_root_is_entry_one() {
    let tree = merkelize(&leaves(4)).unwrap();
    assert_eq!(get_root(&tree), Some(tree[1].clone()));
    assert_eq!(get_root(&Vec::new()), None);
    assert_eq!(get_root(&vec![vec![1u8]]), None);
}

#[test]
fn get_branch_of_leaf_two() {
    let tree = merkelize(&leaves(4)).unwrap();
    let branch = get_branch(&tree, 2);
    assert_eq!(branch.len(), 2);
    assert_eq!(
        text(&branch[0]),
        "99f5eb64687cc7b7794b8be90b374592b85b01a2688a889d2ca6fd73768a6e52"
    );
    assert_eq!(
        text(&branch[1]),
        "7a60f3f832bb988f5fbe5b553a360f8d8415c78efa605ef6c9d4c997c7bb980e"
    );
}

#[test]
fn branch_length_is_the_logarithm_of_the_leaf_count() {
    for log in 0..7 {
        let tree = merkelize(&leaves(1 << log)).unwrap();
        for pos in 0..(1usize << log) {
            assert_eq!(get_branch(&tree, pos).len(), log);
        }
    }
}

#[test]
fn every_branch_verifies() {
    for log in 0..6 {
        let all = leaves(1 << log);
        let tree = merkelize(&all).unwrap();
        let root = get_root(&tree).unwrap();
        for pos in 0..all.len() {
            assert!(verify_branch(&root, pos, &all[pos], &get_branch(&tree, pos)));
        }
    }
}

#[test]
fn branch_does_not_verify_at_another_position() {
    let all = leaves(8);
    let tree = merkelize(&all).unwrap();
    let root = get_root(&tree).unwrap();
    let branch = get_branch(&tree, 5);
    assert!(verify_branch(&root, 5, &all[5], &branch));
    assert!(!verify_branch(&root, 4, &all[5], &branch));
    assert!(!verify_branch(&root, 5, &all[4], &branch));
}

#[test]
fn changed_leaf_byte_fails() {
    let all = leaves(8);
    let tree = merkelize(&all).unwrap();
    let root = get_root(&tree).unwrap();
    for pos in 0..8 {
        let branch = get_branch(&tree, pos);
        for byte in 0..3 {
            let mut leaf = all[pos].clone();
            leaf[byte] ^= 1;
            assert!(!verify_branch(&root, pos, &leaf, &branch));
        }
    }
}

#[test]
fn changed_branch_byte_fails() {
    let all = leaves(8);
    let tree = merkelize(&all).unwrap();
    let root = get_root(&tree).unwrap();
    let branch = get_branch(&tree, 3);
    for entry in 0..branch.len() {
        for byte in [0usize, 31, 63] {
            let mut changed = branch.clone();
            changed[entry][byte] ^= 1;
            assert!(!verify_branch(&root, 3, &all[3], &changed));
        }
    }
}

#[test]
fn changed_root_fails() {
    let all = leaves(4);
    let tree = merkelize(&all).unwrap();
    let mut root = get_root(&tree).unwrap();
    root[10] ^= 4;
    assert!(!verify_branch(&root, 1, &all[1], &get_branch(&tree, 1)));
}

#[test]
fn same_leaves_same_root() {
    let a = merkelize(&leaves(16)).unwrap();
    let b = merkelize(&leaves(16)).unwrap();
    assert_eq!(get_root(&a), get_root(&b));
    assert_eq!(a, b);
}

#[test]
fn different_leaves_different_root() {
    let all = leaves(16);
    let root = get_root(&merkelize(&all).unwrap());
    for pos in 0..16 {
        let mut changed = all.clone();
        changed[pos][1] ^= 0x80;
        assert_ne!(get_root(&merkelize(&changed).unwrap()), root);
    }
}

#[test]
fn byte_helpers() {
    assert_eq!(copy_bytes(&vec![1, 2, 3]), vec![1, 2, 3]);
    assert_eq!(concat_bytes(&vec![1, 2], &vec![3]), vec![1, 2, 3]);
    assert_eq!(concat_bytes(&vec![], &vec![]), Vec::<u8>::new());
    assert!(bytes_equal(&vec![1, 2], &vec![1, 2]));
    assert!(!bytes_equal(&vec![1, 2], &vec![1, 3]));
    assert!(!bytes_equal(&vec![1, 2], &vec![1, 2, 3]));
    assert_eq!(join_bytes(&vec![vec![1], vec![], vec![2, 3]]), vec![1, 2, 3]);
}

#[test]
fn chunkify_groups_eight_values() {
    let chunks = chunkify(&vec![1, 2, 3, 4, 5, 6, 7, 8, 9, 2147483646]);
    assert_eq!(chunks.len(), 2);
    assert_eq!(
        chunks[0],
        vec![
            1, 0, 0, 0, 2, 0, 0, 0, 3, 0, 0, 0, 4, 0, 0, 0, 5, 0, 0, 0, 6, 0, 0, 0, 7, 0, 0, 0,
            8, 0, 0, 0
        ]
    );
    assert_eq!(chunks[1], vec![9, 0, 0, 0, 0xfe, 0xff, 0xff, 0x7f]);
    assert_eq!(chunkify(&Vec::new()).len(), 0);
    assert_eq!(chunkify(&vec![0; 16]).len(), 2);
}

#[test]
fn unchunkify_undoes_chunkify() {
    let values: Vec<u32> = vec![1, 0x01020304, 2147483646, 0, 77, 6, 5, 4];
    let chunks = chunkify(&values);
    assert_eq!(chunks.len(), 1);
    assert_eq!(unchunkify(&chunks[0]), values);
    assert_eq!(values_to_bytes(&values), chunks[0]);
    assert_eq!(unchunkify(&vec![4, 3, 2, 1, 9]), vec![0x01020304]);
}

#[test]
fn get_challenges_from_the_empty_seed() {
    assert_eq!(get_challenges(&Vec::new(), 1024, 3), vec![569, 569, 50]);
}

#[test]
fn get_challenges_below_the_modulus() {
    assert_eq!(get_challenges(&b"abc".to_vec(), 2147483647, 1), vec![909194800]);
}

#[test]
fn get_challenges_across_two_blocks() {
    assert_eq!(
        get_challenges(&vec![1, 2, 3], 97, 10),
        vec![13, 82, 33, 34, 52, 23, 12, 19, 4, 92]
    );
}

#[test]
fn get_challenges_stay_below_the_domain_size() {
    for size in [1u32, 2, 7, 128] {
        let c = get_challenges(&vec![9, 9], size, 80);
        assert_eq!(c.len(), 80);
        assert!(c.iter().all(|&x| x < size));
    }
    assert_eq!(get_challenges(&vec![1], 5, 0).len(), 0);
}
