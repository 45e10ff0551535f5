use std::collections::BTreeSet;

use sketchdb::datasets::Datasets;
use sketchdb::keys::{decode_key, encode_key};

#[test]
fn new_picks_the_smallest_variant() {
    assert_eq!(Datasets::new(&[]), Datasets::Empty);
    assert_eq!(Datasets::new(&[7]), Datasets::Unique(7));
    assert_eq!(Datasets::new(&[7, 7, 7]), Datasets::Unique(7));
    let many: BTreeSet<u64> = [3u64, 9].into_iter().collect();
    assert_eq!(Datasets::new(&[9, 3, 9]), Datasets::Many(many));
}

#[test]
fn default_is_empty() {
    assert_eq!(Datasets::default(), Datasets::Empty);
}

#[test]
fn len_and_is_empty() {
    assert_eq!(Datasets::new(&[]).len(), 0);
    assert!(Datasets::new(&[]).is_empty());
    assert_eq!(Datasets::new(&[4]).len(), 1);
    assert!(!Datasets::new(&[4]).is_empty());
    assert_eq!(Datasets::new(&[4, 5, 6, 5]).len(), 3);
}

#[test]
fn contains_tells_members() {
    let d = Datasets::new(&[10, 20, 30]);
    assert!(d.contains(&10));
    assert!(d.contains(&30));
    assert!(!d.contains(&15));
    assert!(!Datasets::Empty.contains(&0));
    assert!(Datasets::Unique(0).contains(&0));
    assert!(!Datasets::Unique(0).contains(&1));
}

#[test]
fn extend_promotes_and_never_demotes() {
    let mut d = Datasets::Empty;
    d.extend(&[]);
    assert_eq!(d, Datasets::Empty);
    d.extend(&[5]);
    assert_eq!(d, Datasets::Unique(5));
    d.extend(&[5, 5]);
    assert_eq!(d, Datasets::Unique(5));
    d.extend(&[1]);
    assert_eq!(d, Datasets::new(&[1, 5]));
    d.extend(&[1, 5]);
    assert_eq!(d.len(), 2);
    assert!(matches!(d, Datasets::Many(_)));
}

#[test]
fn insert_adds_one_member() {
    let mut d = Datasets::Unique(2);
    d.insert(2);
    assert_eq!(d, Datasets::Unique(2));
    d.insert(1);
    assert_eq!(d.to_vec(), vec![1, 2]);
}

#[test]
fn union_of_every_pair_of_variants() {
    let cases: Vec<(Vec<u64>, Vec<u64>, Vec<u64>)> = vec![
        (vec![], vec![], vec![]),
        (vec![], vec![1], vec![1]),
        (vec![], vec![1, 2], vec![1, 2]),
        (vec![1], vec![], vec![1]),
        (vec![1], vec![1], vec![1]),
        (vec![1], vec![2], vec![1, 2]),
        (vec![3], vec![1, 2], vec![1, 2, 3]),
        (vec![1], vec![1, 2], vec![1, 2]),
        (vec![1, 2], vec![], vec![1, 2]),
        (vec![1, 2], vec![2], vec![1, 2]),
        (vec![1, 2], vec![9], vec![1, 2, 9]),
        (vec![1, 2], vec![2, 3], vec![1, 2, 3]),
    ];
    for (a, b, expected) in cases {
        let mut left = Datasets::new(&a);
        left.union(Datasets::new(&b));
        assert_eq!(left, Datasets::new(&expected));
    }
}

#[test]
fn union_contains_members_of_both() {
    let a = Datasets::new(&[1, 2, 3]);
    let b = Datasets::new(&[3, 4]);
    let mut u = a.clone();
    u.union(b.clone());
    for x in 0..6u64 {
        assert_eq!(u.contains(&x), a.contains(&x) || b.contains(&x));
    }
}

#[test]
fn union_with_itself_changes_nothing() {
    for ids in [vec![], vec![8], vec![8, 9], vec![1, 2, 3, 4]] {
        let a = Datasets::new(&ids);
        let mut u = a.clone();
        u.union(a.clone());
        assert_eq!(u, a);
    }
}

#[test]
fn to_vec_ascends() {
    assert_eq!(Datasets::new(&[5, 1, 3, 1]).to_vec(), vec![1, 3, 5]);
    assert_eq!(Datasets::Empty.to_vec(), Vec::<u64>::new());
    assert_eq!(Datasets::Unique(4).to_vec(), vec![4]);
}

#[test]
fn duplicate_copies_the_members() {
    let a = Datasets::new(&[2, 4, 6]);
    assert_eq!(a.duplicate(), a);
}

#[test]
fn as_bytes_is_tag_then_ascending_members() {
    assert_eq!(Datasets::Empty.as_bytes(), Some(vec![0]));
    assert_eq!(
        Datasets::Unique(0x0102).as_bytes(),
        Some(vec![1, 2, 1, 0, 0, 0, 0, 0, 0])
    );
    assert_eq!(
        Datasets::new(&[2, 1]).as_bytes(),
        Some(vec![2, 1, 0, 0, 0, 0, 0, 0, 0, 2, 0, 0, 0, 0, 0, 0, 0])
    );
}

#[test]
fn as_bytes_depends_on_the_members_alone() {
    let one: BTreeSet<u64> = [6u64].into_iter().collect();
    assert_eq!(Datasets::Many(one).as_bytes(), Datasets::Unique(6).as_bytes());
    assert_eq!(
        Datasets::Many(BTreeSet::new()).as_bytes(),
        Datasets::Empty.as_bytes()
    );
}

#[test]
fn bytes_round_trip() {
    for ids in [
        vec![],
        vec![0],
        vec![u64::MAX],
        vec![1, 2],
        vec![u64::MAX, 0, 77, 1 << 40],
    ] {
        let a = Datasets::new(&ids);
        let bytes = a.as_bytes().unwrap();
        assert_eq!(Datasets::from_slice(&bytes), Some(a));
    }
}

#[test]
fn from_slice_refuses_what_is_no_encoding() {
    assert_eq!(Datasets::from_slice(&[]), None);
    assert_eq!(Datasets::from_slice(&[3]), None);
    assert_eq!(Datasets::from_slice(&[0, 0]), None);
    assert_eq!(Datasets::from_slice(&[1]), None);
    assert_eq!(Datasets::from_slice(&[1, 0, 0, 0, 0, 0, 0, 0]), None);
    // a tag for one member before two members
    let mut two = vec![1u8];
    two.extend_from_slice(&encode_key(1));
    two.extend_from_slice(&encode_key(2));
    assert_eq!(Datasets::from_slice(&two), None);
    // a tag for many members before one member
    let mut one = vec![2u8];
    one.extend_from_slice(&encode_key(1));
    assert_eq!(Datasets::from_slice(&one), None);
    // members that descend
    let mut down = vec![2u8];
    down.extend_from_slice(&encode_key(2));
    down.extend_from_slice(&encode_key(1));
    assert_eq!(Datasets::from_slice(&down), None);
    // a member twice
    let mut twice = vec![2u8];
    twice.extend_from_slice(&encode_key(5));
    twice.extend_from_slice(&encode_key(5));
    assert_eq!(Datasets::from_slice(&twice), None);
}

#[test]
fn an_encoding_is_never_as_long_as_a_key() {
    for ids in [vec![], vec![1], vec![1, 2], vec![1, 2, 3]] {
        assert_ne!(Datasets::new(&ids).as_bytes().unwrap().len(), 8);
    }
}

#[test]
fn keys_are_little_endian() {
    assert_eq!(encode_key(1), vec![1, 0, 0, 0, 0, 0, 0, 0]);
    assert_eq!(
        encode_key(0x0102030405060708),
        vec![8, 7, 6, 5, 4, 3, 2, 1]
    );
    assert_eq!(decode_key(&[8, 7, 6, 5, 4, 3, 2, 1]), Some(0x0102030405060708));
    assert_eq!(decode_key(&[1, 0, 0]), None);
    assert_eq!(decode_key(&[0; 9]), None);
    assert_eq!(decode_key(&encode_key(u64::MAX)), Some(u64::MAX));
}
