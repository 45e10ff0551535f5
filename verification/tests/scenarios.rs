use std::collections::BTreeMap;

use sketchdb::color_revindex::color_keys;
use sketchdb::counter::SigCounter;
use sketchdb::datasets::Datasets;
use sketchdb::error::Error;
use sketchdb::gather::{GatherEngine, GatherStep};
use sketchdb::keys::encode_key;
use sketchdb::merge::merge_datasets;
use sketchdb::revindex::{match_names, query_keys, search_threshold};
use sketchdb::signature::SignatureData;
use sketchdb::sketch::{build_template, HashFunctions, KmerMinHash, Signature};
use sketchdb::store::{Family, StoreOp};
use sketchdb::RevIndex;

type Column = BTreeMap<Vec<u8>, Vec<u8>>;

#[derive(Default)]
struct Store {
    hashes: Column,
    colors: Column,
    signatures: Column,
}

impl Store {
    fn column(&mut self, family: Family) -> &mut Column {
        match family {
            Family::Hashes => &mut self.hashes,
            Family::Colors => &mut self.colors,
            Family::Signatures => &mut self.signatures,
        }
    }

    fn apply(&mut self, op: &StoreOp) {
        match op {
            StoreOp::Put { family, key, value } => {
                self.column(*family).insert(key.clone(), value.clone());
            }
            StoreOp::Emplace { family, key, value } => {
                self.column(*family).entry(key.clone()).or_insert_with(|| value.clone());
            }
            StoreOp::Merge { family, key, operand } => {
                let column = self.column(*family);
                let existing = column.get(key).cloned();
                let merged = merge_datasets(key, existing.as_deref(), &vec![operand.clone()])
                    .expect("merge failed");
                column.insert(key.clone(), merged);
            }
            StoreOp::FlushLog | StoreOp::Flush { .. } | StoreOp::CompactRange { .. } => {}
        }
    }

    fn apply_all(&mut self, ops: &[StoreOp]) {
        for op in ops {
            self.apply(op);
        }
    }

    fn multi_get(&self, family: Family, keys: &[Vec<u8>]) -> Vec<Option<Vec<u8>>> {
        let column = match family {
            Family::Hashes => &self.hashes,
            Family::Colors => &self.colors,
            Family::Signatures => &self.signatures,
        };
        keys.iter().map(|k| column.get(k).cloned()).collect()
    }
}

fn mh(mins: &[u64]) -> KmerMinHash {
    KmerMinHash {
        ksize: 31,
        hash_function: HashFunctions::Murmur64Dna,
        seed: 42,
        max_hash: u64::MAX,
        mins: mins.to_vec(),
    }
}

fn sig(name: &str, mins: &[u64]) -> (String, Signature) {
    (
        format!("{}.sig", name),
        Signature {
            name: name.to_string(),
            filename: format!("{}.sig", name),
            md5sum: format!("md5-{}", name),
            sketches: vec![mh(mins)],
        },
    )
}

fn corpus() -> Vec<(String, Signature)> {
    vec![sig("A", &[1, 2, 3]), sig("B", &[2, 3, 4]), sig("C", &[4, 5])]
}

fn build(colors: bool, sigs: &Vec<(String, Signature)>, threshold: u64, save_paths: bool) -> Store {
    let index = RevIndex::open("index", false, colors);
    let template = build_template(31, 1);
    let mut store = Store::default();
    store.apply_all(&index.index(sigs, &template, threshold, save_paths).unwrap());
    let entries: Vec<(Vec<u8>, Vec<u8>)> =
        store.hashes.iter().map(|(k, v)| (k.clone(), v.clone())).collect();
    store.apply_all(&index.compact(&entries).unwrap());
    store
}

fn count(colors: bool, store: &Store, query: &KmerMinHash) -> SigCounter {
    let index = RevIndex::open("index", true, colors);
    let fetched = store.multi_get(Family::Hashes, &query_keys(query));
    if colors {
        let keys = color_keys(&fetched).unwrap();
        index.counter_for_query(&store.multi_get(Family::Colors, &keys)).unwrap()
    } else {
        index.counter_for_query(&fetched).unwrap()
    }
}

fn search(colors: bool, store: &Store, query: &KmerMinHash, threshold: usize) -> Vec<String> {
    let counter = count(colors, store, query);
    let matches = RevIndex::open("index", true, colors).matches_from_counter(counter, threshold);
    let keys: Vec<Vec<u8>> = matches.iter().map(|(id, _)| encode_key(*id)).collect();
    match_names(&store.multi_get(Family::Signatures, &keys)).unwrap()
}

#[test]
fn empty_corpus_has_no_matches() {
    for colors in [false, true] {
        let store = build(colors, &vec![], 0, false);
        assert!(store.hashes.is_empty());
        assert!(store.signatures.is_empty());
        let query = mh(&[1, 2, 3]);
        assert_eq!(count(colors, &store, &query).len(), 0);
        assert_eq!(search(colors, &store, &query, 0), Vec::<String>::new());
    }
}

#[test]
fn singleton_corpus_finds_itself() {
    for colors in [false, true] {
        let store = build(colors, &vec![sig("A", &[1, 2, 3, 4, 5])], 0, false);
        let query = mh(&[1, 2, 3, 4, 5]);
        let counter = count(colors, &store, &query);
        let index = RevIndex::open("index", true, colors);
        assert_eq!(index.matches_from_counter(counter, 0), vec![(0, 5)]);
        assert_eq!(search(colors, &store, &query, 0), vec!["A".to_string()]);
    }
}

#[test]
fn shared_hashes_are_counted_for_each_dataset() {
    for colors in [false, true] {
        let store = build(colors, &corpus(), 0, false);
        let query = mh(&[1, 2, 3, 4]);
        let counter = count(colors, &store, &query);
        let expected: SigCounter = vec![0u64, 0, 0, 1, 1, 1, 2].into_iter().collect();
        assert_eq!(counter, expected);
        let index = RevIndex::open("index", true, colors);
        assert_eq!(index.matches_from_counter(counter, 2), vec![(0, 3), (1, 3)]);
        assert_eq!(search(colors, &store, &query, 2), vec!["A".to_string(), "B".to_string()]);
    }
}

#[test]
fn plain_index_posts_every_dataset_under_its_hashes() {
    let store = build(false, &corpus(), 0, false);
    let expected: Vec<(u64, Vec<u64>)> = vec![
        (1, vec![0]),
        (2, vec![0, 1]),
        (3, vec![0, 1]),
        (4, vec![1, 2]),
        (5, vec![2]),
    ];
    assert_eq!(store.hashes.len(), expected.len());
    for (hash, ids) in expected {
        assert_eq!(
            store.hashes.get(&encode_key(hash)),
            Some(&Datasets::new(&ids).as_bytes().unwrap())
        );
    }
    assert!(store.colors.is_empty());
}

#[test]
fn color_index_points_every_hash_to_the_color_of_its_set() {
    let store = build(true, &corpus(), 0, false);
    let expected: Vec<(u64, Vec<u64>)> = vec![
        (1, vec![0]),
        (2, vec![0, 1]),
        (3, vec![0, 1]),
        (4, vec![1, 2]),
        (5, vec![2]),
    ];
    assert_eq!(store.hashes.len(), expected.len());
    for (hash, ids) in expected {
        let color = store.hashes.get(&encode_key(hash)).unwrap();
        assert_eq!(color.len(), 8);
        let set = Datasets::new(&ids);
        assert_eq!(
            color,
            &encode_key(sketchdb::color_revindex::Colors::compute_color(&set))
        );
        assert_eq!(store.colors.get(color), Some(&set.as_bytes().unwrap()));
    }
}

#[test]
fn an_index_finds_each_of_its_datasets() {
    for colors in [false, true] {
        let sigs = corpus();
        let store = build(colors, &sigs, 0, false);
        for (id, (_, s)) in sigs.iter().enumerate() {
            let counter = count(colors, &store, &s.sketches[0]);
            assert_eq!(counter[&(id as u64)], s.sketches[0].mins.len());
            let index = RevIndex::open("index", true, colors);
            let matches = index.matches_from_counter(counter, 0);
            assert!(matches.contains(&(id as u64, s.sketches[0].mins.len())));
        }
    }
}

#[test]
fn plain_and_color_index_count_alike() {
    let sigs = vec![
        sig("A", &[1, 2, 3]),
        sig("B", &[2, 3, 4]),
        sig("C", &[4, 5]),
        sig("D", &[]),
        sig("E", &[1, 5, 9]),
    ];
    let plain = build(false, &sigs, 0, false);
    let color = build(true, &sigs, 0, false);
    for query in [
        vec![],
        vec![1],
        vec![1, 2, 3, 4, 5],
        vec![9, 10, 11],
        vec![2, 4, 9],
        vec![100],
    ] {
        let query = mh(&query);
        assert_eq!(count(false, &plain, &query), count(true, &color, &query));
    }
}

#[test]
fn the_order_of_the_merges_does_not_matter() {
    let index = RevIndex::open("index", false, false);
    let template = build_template(31, 1);
    let ops = index.index(&corpus(), &template, 0, false).unwrap();
    let mut forward = Store::default();
    forward.apply_all(&ops);
    let mut backward = Store::default();
    let reversed: Vec<StoreOp> = ops.iter().rev().cloned().collect();
    backward.apply_all(&reversed);
    assert_eq!(forward.hashes, backward.hashes);
}

#[test]
fn stored_signatures_follow_the_threshold_and_paths() {
    let sigs = vec![sig("A", &[1, 2, 3]), sig("B", &[4]), sig("C", &[])];
    let store = build(false, &sigs, 2, false);
    let blob = |store: &Store, id: u64| {
        SignatureData::from_slice(store.signatures.get(&encode_key(id)).unwrap()).unwrap()
    };
    assert_eq!(blob(&store, 0), SignatureData::Internal(sigs[0].1.clone()));
    assert_eq!(blob(&store, 1), SignatureData::Empty);
    assert_eq!(blob(&store, 2), SignatureData::Empty);
    // the postings are there all the same
    assert_eq!(
        store.hashes.get(&encode_key(4)),
        Some(&Datasets::Unique(1).as_bytes().unwrap())
    );
    let store = build(false, &sigs, 0, true);
    assert_eq!(blob(&store, 0), SignatureData::External("A.sig".to_string()));
    assert_eq!(blob(&store, 1), SignatureData::External("B.sig".to_string()));
    assert_eq!(blob(&store, 2), SignatureData::Empty);
    // a dataset with nothing stored is passed over among the matches
    let store = build(false, &sigs, 2, true);
    assert_eq!(search(false, &store, &mh(&[1, 4]), 0), vec!["A.sig".to_string()]);
}

#[test]
fn an_index_keeps_the_sketch_that_was_prepared() {
    let template = build_template(31, 1000);
    let fine = sketchdb::sketch::max_hash_for_scaled(100);
    let limit = template.max_hash;
    let mut entry = sig("A", &[1, limit, limit + 1]);
    entry.1.sketches[0].max_hash = fine;
    let index = RevIndex::open("index", false, false);
    let mut store = Store::default();
    store.apply_all(&index.index(&vec![entry.clone()], &template, 0, false).unwrap());
    assert_eq!(store.hashes.len(), 2);
    assert!(store.hashes.contains_key(&encode_key(limit)));
    assert!(!store.hashes.contains_key(&encode_key(limit + 1)));
    let stored = SignatureData::from_slice(store.signatures.get(&encode_key(0)).unwrap()).unwrap();
    match stored {
        SignatureData::Internal(s) => {
            assert_eq!(s.name, "A");
            assert_eq!(s.sketches.len(), 1);
            assert_eq!(s.sketches[0].mins, vec![1, limit]);
            assert_eq!(s.sketches[0].max_hash, limit);
        }
        _ => panic!("a signature was expected"),
    }
}

#[test]
fn index_refuses_a_signature_that_does_not_fit() {
    let template = build_template(21, 1);
    for colors in [false, true] {
        let index = RevIndex::open("index", false, colors);
        assert_eq!(
            index.index(&corpus(), &template, 0, false),
            Err(Error::MismatchKSizes)
        );
        let mut sigs = corpus();
        sigs[1].1.sketches.clear();
        let template = build_template(31, 1);
        assert_eq!(
            index.index(&sigs, &template, 0, false),
            Err(Error::NoCompatibleSketch)
        );
    }
}

#[test]
fn a_read_only_index_refuses_writes() {
    for colors in [false, true] {
        let index = RevIndex::open("index", true, colors);
        let template = build_template(31, 1);
        assert_eq!(index.index(&corpus(), &template, 0, false), Err(Error::ReadOnly));
        assert_eq!(index.flush(), Err(Error::ReadOnly));
        assert_eq!(index.compact(&vec![]), Err(Error::ReadOnly));
    }
}

#[test]
fn gather_peels_the_best_match_off_the_query() {
    let sigs = corpus();
    let store = build(false, &sigs, 0, false);
    let template = build_template(31, 1);
    let query = mh(&[1, 2, 3, 4, 5]);
    let fetched = store.multi_get(Family::Hashes, &query_keys(&query));
    let table: Vec<(u64, Signature)> =
        sigs.iter().enumerate().map(|(i, (_, s))| (i as u64, s.clone())).collect();
    let index = RevIndex::open("index", true, false);
    let matches = index.gather(&query, &fetched, &table, 2, &template).unwrap();
    assert_eq!(matches.len(), 2);
    assert_eq!(matches[0].name, "A");
    assert_eq!(matches[0].dataset_id, 0);
    assert_eq!(matches[0].overlap_size, 3);
    assert_eq!(matches[0].residual_before, 5);
    assert_eq!(matches[0].residual_after_size, 2);
    assert_eq!(matches[0].gather_result_rank, 0);
    assert_eq!(matches[0].query_size, 5);
    assert_eq!(matches[0].match_size, 3);
    assert_eq!(matches[0].intersect_bp, 3);
    assert_eq!(matches[0].remaining_bp, 2);
    assert_eq!(matches[1].name, "C");
    assert_eq!(matches[1].dataset_id, 2);
    assert_eq!(matches[1].overlap_size, 2);
    assert_eq!(matches[1].residual_before, 2);
    assert_eq!(matches[1].residual_after_size, 0);
    assert_eq!(matches[1].gather_result_rank, 1);
    assert_eq!(matches[1].filename, "C.sig");
    assert_eq!(matches[1].md5, "md5-C");
    // every match takes hashes off the residual
    for m in &matches {
        assert!(m.residual_after_size < m.residual_before);
        assert_eq!(m.residual_after_size + m.overlap_size, m.residual_before);
        assert!(m.overlap_size >= 2);
    }
    // twice the same
    assert_eq!(index.gather(&query, &fetched, &table, 2, &template).unwrap(), matches);
}

#[test]
fn gather_step_by_step() {
    let sigs = corpus();
    let store = build(false, &sigs, 0, false);
    let template = build_template(31, 1);
    let query = mh(&[1, 2, 3, 4, 5]);
    let fetched = store.multi_get(Family::Hashes, &query_keys(&query));
    let mut engine = GatherEngine::new(&query, &fetched, 1, 1).unwrap();
    assert_eq!(engine.residual(), vec![1, 2, 3, 4, 5]);
    assert_eq!(engine.select(), Some((0, 3)));
    match engine.advance(0, Some(&sigs[0].1), &template).unwrap() {
        GatherStep::Emitted(m) => assert_eq!(m.overlap_size, 3),
        other => panic!("unexpected step {:?}", other),
    }
    assert_eq!(engine.residual(), vec![4, 5]);
    assert_eq!(engine.select(), Some((2, 2)));
    match engine.advance(2, Some(&sigs[2].1), &template).unwrap() {
        GatherStep::Emitted(m) => assert_eq!(m.residual_after_size, 0),
        other => panic!("unexpected step {:?}", other),
    }
    assert_eq!(engine.residual(), Vec::<u64>::new());
    assert_eq!(engine.select(), None);
}

#[test]
fn gather_sets_aside_a_dataset_without_a_signature() {
    let sigs = corpus();
    let store = build(false, &sigs, 0, false);
    let template = build_template(31, 1);
    let query = mh(&[1, 2, 3, 4, 5]);
    let fetched = store.multi_get(Family::Hashes, &query_keys(&query));
    // nothing is at hand for A
    let table: Vec<(u64, Signature)> = vec![(1, sigs[1].1.clone()), (2, sigs[2].1.clone())];
    let index = RevIndex::open("index", true, false);
    let matches = index.gather(&query, &fetched, &table, 1, &template).unwrap();
    let names: Vec<&str> = matches.iter().map(|m| m.name.as_str()).collect();
    assert_eq!(names, vec!["B", "C"]);
    assert_eq!(matches[0].overlap_size, 3);
    assert_eq!(matches[1].overlap_size, 1);
    assert_eq!(matches[1].residual_after_size, 1);

    let mut engine = GatherEngine::new(&query, &fetched, 1, 1).unwrap();
    assert_eq!(engine.advance(0, None, &template), Ok(GatherStep::Skipped));
    assert_eq!(engine.residual(), vec![1, 2, 3, 4, 5]);
    assert_eq!(engine.select(), Some((1, 3)));
}

#[test]
fn gather_ends_below_the_threshold() {
    let sigs = corpus();
    let store = build(false, &sigs, 0, false);
    let template = build_template(31, 1);
    let query = mh(&[1, 2, 3, 4, 5]);
    let fetched = store.multi_get(Family::Hashes, &query_keys(&query));
    let table: Vec<(u64, Signature)> =
        sigs.iter().enumerate().map(|(i, (_, s))| (i as u64, s.clone())).collect();
    let index = RevIndex::open("index", true, false);
    let matches = index.gather(&query, &fetched, &table, 3, &template).unwrap();
    let names: Vec<&str> = matches.iter().map(|m| m.name.as_str()).collect();
    assert_eq!(names, vec!["A"]);
    assert_eq!(index.gather(&query, &fetched, &table, 4, &template).unwrap(), vec![]);
    // a sketch that shares less than the postings promise ends the gather
    let mut engine = GatherEngine::new(&query, &fetched, 2, 1).unwrap();
    let thin = Signature { sketches: vec![mh(&[1])], ..sigs[0].1.clone() };
    assert_eq!(engine.advance(0, Some(&thin), &template), Ok(GatherStep::Done));
    assert_eq!(engine.residual(), vec![1, 2, 3, 4, 5]);
}

#[test]
fn gather_reports_base_pairs_by_the_scale_of_the_template() {
    let template = build_template(31, 1000);
    let limit = template.max_hash;
    let sigs: Vec<(String, Signature)> = vec![sig("A", &[1, 2, 3])]
        .into_iter()
        .map(|(f, mut s)| {
            s.sketches[0].max_hash = limit;
            (f, s)
        })
        .collect();
    let index = RevIndex::open("index", false, false);
    let mut store = Store::default();
    store.apply_all(&index.index(&sigs, &template, 0, false).unwrap());
    let mut query = mh(&[1, 2, 7]);
    query.max_hash = limit;
    let fetched = store.multi_get(Family::Hashes, &query_keys(&query));
    let table = vec![(0u64, sigs[0].1.clone())];
    let matches = index.gather(&query, &fetched, &table, 0, &template).unwrap();
    assert_eq!(matches.len(), 1);
    assert_eq!(matches[0].overlap_size, 2);
    assert_eq!(matches[0].intersect_bp, 2000);
    assert_eq!(matches[0].remaining_bp, 1000);
}

#[test]
fn gather_fails_on_values_that_do_not_answer_the_query() {
    let template = build_template(31, 1);
    let query = mh(&[1, 2]);
    let index = RevIndex::open("index", true, false);
    assert_eq!(
        index.gather(&query, &vec![None], &vec![], 0, &template),
        Err(Error::StoreFailure)
    );
    assert_eq!(
        index.gather(&query, &vec![None, Some(vec![9, 9])], &vec![], 0, &template),
        Err(Error::DeserializationFailure)
    );
    assert_eq!(index.gather(&query, &vec![None, None], &vec![], 0, &template), Ok(vec![]));
}

#[test]
fn gather_counters_of_a_plain_index() {
    let store = build(false, &corpus(), 0, false);
    let query = mh(&[1, 2, 3, 4]);
    let fetched = store.multi_get(Family::Hashes, &query_keys(&query));
    let index = RevIndex::open("index", true, false);
    let (counter, query_colors, hash_to_color) = index.prepare_gather_counters(&fetched).unwrap();
    assert_eq!(counter, count(false, &store, &query));
    assert!(query_colors.is_empty());
    assert!(hash_to_color.is_empty());
}

#[test]
fn threshold_in_hashes() {
    assert_eq!(search_threshold(50000, 1000), 50);
    assert_eq!(search_threshold(0, 1000), 0);
    assert_eq!(search_threshold(999, 1000), 0);
    assert_eq!(search_threshold(1000, 1000), 1);
    assert_eq!(search_threshold(7, 1), 7);
    assert_eq!(search_threshold(usize::MAX, usize::MAX as u64), 1);
}

#[test]
fn search_at_a_threshold_in_base_pairs() {
    let template = build_template(31, 1000);
    let limit = template.max_hash;
    let sigs: Vec<(String, Signature)> = corpus()
        .into_iter()
        .map(|(f, mut s)| {
            s.sketches[0].max_hash = limit;
            (f, s)
        })
        .collect();
    let index = RevIndex::open("index", false, false);
    let mut store = Store::default();
    store.apply_all(&index.index(&sigs, &template, 0, false).unwrap());
    let mut query = mh(&[1, 2, 3, 4]);
    query.max_hash = limit;
    let threshold = search_threshold(2500, query.scaled());
    assert_eq!(threshold, 2);
    assert_eq!(
        search(false, &store, &query, threshold),
        vec!["A".to_string(), "B".to_string()]
    );
    assert_eq!(
        search(false, &store, &query, search_threshold(3999, query.scaled())),
        vec!["A".to_string(), "B".to_string()]
    );
    assert_eq!(
        search(false, &store, &query, search_threshold(4000, query.scaled())),
        Vec::<String>::new()
    );
}
