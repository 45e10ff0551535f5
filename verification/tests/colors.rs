use std::hash::{Hash, Hasher};

use sketchdb::color_revindex::{color_keys, recolor, ColorUpdate, Colors};
use sketchdb::datasets::Datasets;
use sketchdb::error::Error;
use sketchdb::keys::encode_key;
use sketchdb::store::{Family, StoreOp};

fn digest(bytes: &[u8]) -> u64 {
    let mut hasher = twox_hash::Xxh3Hash128::default();
    hasher.write(bytes);
    hasher.finish()
}

fn color_input(ids: &[u64]) -> Vec<u8> {
    let mut input = (ids.len() as u64).to_le_bytes().to_vec();
    for id in ids {
        input.extend_from_slice(&id.to_le_bytes());
    }
    input
}

fn enc(ids: &[u64]) -> Vec<u8> {
    Datasets::new(ids).as_bytes().unwrap()
}

#[test]
fn color_is_the_digest_of_the_ascending_members() {
    assert_eq!(
        Colors::compute_color(&Datasets::new(&[3, 1, 2])),
        digest(&color_input(&[1, 2, 3]))
    );
    assert_eq!(
        Colors::compute_color(&Datasets::Empty),
        digest(&color_input(&[]))
    );
    assert_eq!(
        Colors::compute_color(&Datasets::Unique(9)),
        digest(&color_input(&[9]))
    );
}

#[test]
fn color_is_that_of_hashing_the_sorted_list() {
    // what `Hash` feeds a hasher for a list of integers on this machine
    let sorted: Vec<u64> = vec![4, 8, 15];
    let mut hasher = twox_hash::Xxh3Hash128::default();
    sorted.hash(&mut hasher);
    assert_eq!(
        Colors::compute_color(&Datasets::new(&[15, 4, 8])),
        hasher.finish()
    );
}

#[test]
fn equal_sets_have_equal_colors() {
    let a = Colors::compute_color(&Datasets::new(&[5, 6]));
    let b = Colors::compute_color(&Datasets::new(&[6, 5, 6]));
    assert_eq!(a, b);
    assert_ne!(a, Colors::compute_color(&Datasets::new(&[5, 7])));
    assert_ne!(
        Colors::compute_color(&Datasets::Unique(1)),
        Colors::compute_color(&Datasets::Unique(2))
    );
}

#[test]
fn update_without_a_color_mints_one() {
    let ColorUpdate { color, mint } = Colors::update(None, None, &[2, 1]).unwrap();
    assert_eq!(color, Colors::compute_color(&Datasets::new(&[1, 2])));
    assert_eq!(
        mint,
        Some(StoreOp::Emplace {
            family: Family::Colors,
            key: encode_key(color),
            value: enc(&[1, 2]),
        })
    );
}

#[test]
fn update_keeps_a_color_that_holds_the_new_datasets() {
    let stored = enc(&[1, 2, 3]);
    let update = Colors::update(Some(77), Some(&stored), &[3, 1]).unwrap();
    assert_eq!(update, ColorUpdate { color: 77, mint: None });
    let update = Colors::update(Some(77), Some(&stored), &[]).unwrap();
    assert_eq!(update, ColorUpdate { color: 77, mint: None });
}

#[test]
fn update_widens_a_color() {
    let stored = enc(&[1, 2]);
    let update = Colors::update(Some(77), Some(&stored), &[2, 5]).unwrap();
    let widened = Datasets::new(&[1, 2, 5]);
    let color = Colors::compute_color(&widened);
    assert_eq!(update.color, color);
    assert_eq!(
        update.mint,
        Some(StoreOp::Emplace {
            family: Family::Colors,
            key: encode_key(color),
            value: enc(&[1, 2, 5]),
        })
    );
}

#[test]
fn update_fails_without_the_stored_set() {
    assert_eq!(Colors::update(Some(1), None, &[1]), Err(Error::StoreFailure));
    assert_eq!(
        Colors::update(Some(1), Some(&[9u8]), &[1]),
        Err(Error::DeserializationFailure)
    );
}

#[test]
fn recolor_replaces_a_set_by_its_color() {
    let key = encode_key(1234);
    let value = enc(&[0, 2]);
    let color = Colors::compute_color(&Datasets::new(&[0, 2]));
    assert_eq!(
        recolor(&key, &value),
        Ok(vec![
            StoreOp::Emplace { family: Family::Colors, key: encode_key(color), value: value.clone() },
            StoreOp::Put { family: Family::Hashes, key: key.clone(), value: encode_key(color) },
        ])
    );
}

#[test]
fn recolor_leaves_a_color_alone() {
    assert_eq!(recolor(&encode_key(1), &encode_key(99)), Ok(vec![]));
}

#[test]
fn recolor_refuses_what_is_neither() {
    assert_eq!(recolor(&encode_key(1), &[7, 7]), Err(Error::DeserializationFailure));
    assert_eq!(recolor(&encode_key(1), &[]), Err(Error::DeserializationFailure));
}

#[test]
fn color_keys_are_the_fetched_colors() {
    let fetched = vec![Some(encode_key(5)), None, Some(encode_key(6))];
    assert_eq!(color_keys(&fetched), Ok(vec![encode_key(5), encode_key(6)]));
    assert_eq!(color_keys(&vec![]), Ok(vec![]));
    assert_eq!(
        color_keys(&vec![Some(enc(&[1]))]),
        Err(Error::DeserializationFailure)
    );
}

#[test]
fn new_colors() {
    assert_eq!(Colors::new(), Colors);
}
