use sketchdb::counter::{matches_from_counter, tally_postings, SigCounter};
use sketchdb::datasets::Datasets;
use sketchdb::error::Error;

fn enc(ids: &[u64]) -> Vec<u8> {
    Datasets::new(ids).as_bytes().unwrap()
}

#[test]
fn tally_counts_each_dataset_once_for_each_posting() {
    let fetched = vec![Some(enc(&[0, 1])), None, Some(enc(&[1])), Some(enc(&[])), Some(enc(&[1, 2]))];
    let counter = tally_postings(&fetched).unwrap();
    let expected: SigCounter = vec![0u64, 1, 1, 1, 2].into_iter().collect();
    assert_eq!(counter, expected);
    assert_eq!(counter[&1], 3);
    assert_eq!(counter[&0], 1);
    assert_eq!(counter[&7], 0);
    assert_eq!(counter.len(), 3);
}

#[test]
fn tally_of_nothing_is_empty() {
    assert_eq!(tally_postings(&vec![]).unwrap().len(), 0);
    assert_eq!(tally_postings(&vec![None, None]).unwrap().len(), 0);
}

#[test]
fn tally_refuses_what_is_no_encoding() {
    assert_eq!(
        tally_postings(&vec![Some(enc(&[1])), Some(vec![1, 2, 3])]),
        Err(Error::DeserializationFailure)
    );
}

#[test]
fn matches_are_ranked_by_count_then_identifier() {
    let counter: SigCounter = vec![5u64, 5, 2, 2, 9, 9, 9, 1, 4, 4].into_iter().collect();
    assert_eq!(
        matches_from_counter(&counter, 0),
        vec![(9, 3), (2, 2), (4, 2), (5, 2), (1, 1)]
    );
    assert_eq!(matches_from_counter(&counter, 2), vec![(9, 3), (2, 2), (4, 2), (5, 2)]);
    assert_eq!(matches_from_counter(&counter, 3), vec![(9, 3)]);
    assert_eq!(matches_from_counter(&counter, 4), vec![]);
}

#[test]
fn matches_of_an_empty_counter() {
    let counter = SigCounter::new();
    assert_eq!(matches_from_counter(&counter, 0), vec![]);
}

#[test]
fn matches_list_an_entry_without_occurrences_at_threshold_zero() {
    let mut counter = SigCounter::new();
    counter.insert(3, 0);
    counter.insert(1, 2);
    assert_eq!(matches_from_counter(&counter, 0), vec![(1, 2), (3, 0)]);
    assert_eq!(matches_from_counter(&counter, 1), vec![(1, 2)]);
}
