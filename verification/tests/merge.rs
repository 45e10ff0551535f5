use sketchdb::datasets::Datasets;
use sketchdb::merge::merge_datasets;

fn enc(ids: &[u64]) -> Vec<u8> {
    Datasets::new(ids).as_bytes().unwrap()
}

#[test]
fn merge_unites_value_and_operands() {
    let existing = enc(&[1, 2]);
    let operands = vec![enc(&[2]), enc(&[]), enc(&[7, 1])];
    let merged = merge_datasets(b"key", Some(&existing), &operands).unwrap();
    assert_eq!(merged, enc(&[1, 2, 7]));
}

#[test]
fn merge_without_a_value_unites_the_operands() {
    assert_eq!(merge_datasets(b"", None, &vec![enc(&[4])]), Some(enc(&[4])));
    assert_eq!(merge_datasets(b"", None, &vec![]), Some(enc(&[])));
    assert_eq!(
        merge_datasets(b"", None, &vec![enc(&[4]), enc(&[3])]),
        Some(enc(&[3, 4]))
    );
}

#[test]
fn merge_fails_on_what_is_no_encoding() {
    assert_eq!(merge_datasets(b"", Some(&[9u8, 9]), &vec![enc(&[1])]), None);
    assert_eq!(merge_datasets(b"", Some(&enc(&[1])), &vec![vec![]]), None);
    assert_eq!(
        merge_datasets(b"", None, &vec![enc(&[1]), vec![1, 0], enc(&[2])]),
        None
    );
}

#[test]
fn merge_does_not_depend_on_order_or_grouping() {
    let a = enc(&[1]);
    let b = enc(&[2, 3]);
    let c = enc(&[3, 9]);
    let all = merge_datasets(b"", None, &vec![a.clone(), b.clone(), c.clone()]).unwrap();
    let swapped = merge_datasets(b"", None, &vec![c.clone(), a.clone(), b.clone()]).unwrap();
    assert_eq!(all, swapped);
    let first = merge_datasets(b"", None, &vec![a.clone()]).unwrap();
    let grouped = merge_datasets(b"", Some(&first), &vec![b.clone(), c.clone()]).unwrap();
    assert_eq!(all, grouped);
    let partial = merge_datasets(b"", None, &vec![b, c]).unwrap();
    let late = merge_datasets(b"", Some(&a), &vec![partial]).unwrap();
    assert_eq!(all, late);
    assert_eq!(all, enc(&[1, 2, 3, 9]));
}
