use sketchdb::error::Error;
use sketchdb::sketch::{
    build_template, check_compatible, check_compatible_downsample, max_hash_for_scaled,
    prepare_query, HashFunctions, KmerMinHash, Signature, DEFAULT_SEED,
};

fn mh(ksize: u32, max_hash: u64, mins: &[u64]) -> KmerMinHash {
    KmerMinHash {
        ksize,
        hash_function: HashFunctions::Murmur64Dna,
        seed: DEFAULT_SEED,
        max_hash,
        mins: mins.to_vec(),
    }
}

fn sig(sketches: Vec<KmerMinHash>) -> Signature {
    Signature {
        name: "sample".to_string(),
        filename: "sample.sig".to_string(),
        md5sum: "abc".to_string(),
        sketches,
    }
}

#[test]
fn max_hash_of_known_scales() {
    assert_eq!(max_hash_for_scaled(0), 0);
    assert_eq!(max_hash_for_scaled(1), u64::MAX);
    assert_eq!(max_hash_for_scaled(1000), 18446744073709552);
    assert_eq!(max_hash_for_scaled(100), 184467440737095520);
}

#[test]
fn template_has_default_parameters() {
    let t = build_template(21, 1000);
    assert_eq!(t.ksize, 21);
    assert_eq!(t.hash_function, HashFunctions::Murmur64Dna);
    assert_eq!(t.seed, 42);
    assert_eq!(t.max_hash, 18446744073709552);
    assert!(t.mins.is_empty());
    assert!(t.is_empty());
    assert_eq!(t.size(), 0);
}

#[test]
fn scaled_undoes_max_hash() {
    assert_eq!(build_template(31, 1000).scaled(), 1000);
    assert_eq!(mh(31, 0, &[]).scaled(), 0);
    assert_eq!(mh(31, u64::MAX, &[]).scaled(), 1);
}

#[test]
fn compatible_wants_equal_parameters() {
    let a = mh(31, 100, &[1]);
    assert_eq!(check_compatible(&a, &mh(31, 100, &[2, 3])), Ok(()));
    assert_eq!(check_compatible(&a, &mh(21, 100, &[])), Err(Error::MismatchKSizes));
    assert_eq!(check_compatible(&a, &mh(31, 99, &[])), Err(Error::MismatchScaled));
    assert_eq!(check_compatible(&a, &mh(31, 101, &[])), Err(Error::MismatchScaled));
    let mut protein = mh(31, 100, &[]);
    protein.hash_function = HashFunctions::Murmur64Protein;
    assert_eq!(check_compatible(&a, &protein), Err(Error::MismatchDNAProt));
    let mut seeded = mh(31, 100, &[]);
    seeded.seed = 7;
    assert_eq!(check_compatible(&a, &seeded), Err(Error::MismatchSeed));
}

#[test]
fn downsample_compatible_allows_a_finer_sketch() {
    let a = mh(31, 100, &[1]);
    assert_eq!(check_compatible_downsample(&a, &mh(31, 100, &[])), Ok(()));
    assert_eq!(check_compatible_downsample(&a, &mh(31, 50, &[])), Ok(()));
    assert_eq!(
        check_compatible_downsample(&a, &mh(31, 101, &[])),
        Err(Error::MismatchScaled)
    );
    assert_eq!(
        check_compatible_downsample(&a, &mh(21, 50, &[])),
        Err(Error::MismatchKSizes)
    );
}

#[test]
fn the_first_difference_decides_the_error() {
    let a = mh(31, 100, &[]);
    let mut other = mh(21, 500, &[]);
    other.hash_function = HashFunctions::Murmur64Hp;
    other.seed = 1;
    assert_eq!(check_compatible_downsample(&a, &other), Err(Error::MismatchKSizes));
    other.ksize = 31;
    assert_eq!(check_compatible_downsample(&a, &other), Err(Error::MismatchDNAProt));
    other.hash_function = HashFunctions::Murmur64Dna;
    assert_eq!(check_compatible_downsample(&a, &other), Err(Error::MismatchScaled));
    other.max_hash = 100;
    assert_eq!(check_compatible_downsample(&a, &other), Err(Error::MismatchSeed));
}

#[test]
fn downsample_keeps_hashes_up_to_the_limit() {
    let a = mh(31, 1000, &[1, 10, 100, 1000]);
    let down = a.downsample_max_hash(100);
    assert_eq!(down.mins, vec![1, 10, 100]);
    assert_eq!(down.max_hash, 100);
    assert_eq!(down.ksize, 31);
    assert_eq!(a.downsample_max_hash(0).mins, vec![1, 10, 100, 1000]);
    assert_eq!(a.downsample_max_hash(0).max_hash, 0);
}

#[test]
fn duplicate_is_equal() {
    let a = mh(31, 1000, &[1, 10, 100, 1000]);
    assert_eq!(a.duplicate(), a);
}

#[test]
fn prepare_takes_the_first_exact_sketch() {
    let template = mh(31, 100, &[]);
    let s = sig(vec![
        mh(21, 100, &[1]),
        mh(31, 100, &[2]),
        mh(31, 100, &[3]),
        mh(31, 500, &[4]),
    ]);
    assert_eq!(prepare_query(&s, &template), Ok(mh(31, 100, &[2])));
}

#[test]
fn prepare_downsamples_the_last_compatible_sketch() {
    let template = mh(31, 100, &[]);
    let s = sig(vec![
        mh(31, 500, &[1, 200]),
        mh(31, 900, &[2, 99, 100, 101, 900]),
        mh(21, 100, &[3]),
    ]);
    assert_eq!(prepare_query(&s, &template), Ok(mh(31, 100, &[2, 99, 100])));
}

#[test]
fn prepare_reports_why_the_last_sketch_fails() {
    let template = mh(31, 100, &[]);
    assert_eq!(
        prepare_query(&sig(vec![]), &template),
        Err(Error::NoCompatibleSketch)
    );
    assert_eq!(
        prepare_query(&sig(vec![mh(31, 50, &[1]), mh(21, 100, &[1])]), &template),
        Err(Error::MismatchKSizes)
    );
    assert_eq!(
        prepare_query(&sig(vec![mh(21, 100, &[1]), mh(31, 50, &[1])]), &template),
        Err(Error::MismatchScaled)
    );
}

#[test]
fn downsample_path_of_a_query() {
    let template = build_template(31, 1000);
    let limit = template.max_hash;
    let fine = max_hash_for_scaled(100);
    assert!(fine > limit);
    let query = sig(vec![mh(31, fine, &[5, limit - 1, limit, limit + 1, fine])]);
    let prepared = prepare_query(&query, &template).unwrap();
    assert_eq!(prepared.mins, vec![5, limit - 1, limit]);
    assert_eq!(prepared.max_hash, limit);
    assert_eq!(prepared.scaled(), 1000);
}
