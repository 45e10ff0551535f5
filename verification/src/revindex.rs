//! The plain index: every hash maps to the set of the datasets that hold it.

use vstd::prelude::*;
use crate::counter::{
    all_fetched_decode, at_least, counts, fetched_sets, hits, matches_from_counter, tally,
    tally_postings, SigCounter,
};
use crate::datasets::{DatasetID, Datasets};
use crate::encoding::{encoding, is_encoding, lemma_decoding_of_encoding};
use crate::error::Error;
use crate::keys::{encode_key, key_of, lemma_key_of_injective};
use crate::postings::{
    indexes, lemma_postings_index, posting, posting_requests, Corpus,
};
use crate::signature::{blob_decoding, blob_encoding, Blob, SignatureData};
use crate::sketch::{
    prepare_query, prepared_error, prepared_view, KmerMinHash, Signature, SignatureView,
    SketchView,
};
use crate::store::{lemma_apply_all_concat, lookup, requests, Family, Request, StoreOp, Store};

verus! {

/// An index that was opened at `path`.
#[derive(Debug, Clone, PartialEq)]
pub struct RevIndex {
    pub path: String,
    pub read_only: bool,
}

/// What is stored for a dataset that was indexed by the sketch `mh`: nothing
/// for a sketch that is empty or smaller than `threshold`; else the path of
/// its file where paths are kept, and else the signature with that one sketch.
pub open spec fn stored_blob(
    sig: Signature,
    mh: SketchView,
    size: u64,
    threshold: u64,
    save_paths: bool,
    filename: Seq<char>,
) -> Blob {
    if mh.mins.len() == 0 || size < threshold {
        Blob::Empty
    } else if save_paths {
        Blob::External(filename)
    } else {
        Blob::Internal(
            SignatureView {
                name: sig.name@,
                filename: sig.filename@,
                md5sum: sig.md5sum@,
                sketches: seq![mh],
            },
        )
    }
}

/// The request that stores `blob` for dataset `id`.
pub open spec fn signature_put(id: u64, blob: Blob) -> Request {
    Request::Put { family: Family::Signatures, key: key_of(id), value: blob_encoding(blob) }
}

/// The request that stores, for a dataset, its signature, the path of its
/// file, or nothing: see `stored_blob`.
pub fn sig_save_to_db(
    search_sig: &Signature,
    search_mh: KmerMinHash,
    size: u64,
    threshold: u64,
    save_paths: bool,
    filename: &str,
    dataset_id: DatasetID,
) -> (op: StoreOp)
    ensures
        op@ == signature_put(
            dataset_id,
            stored_blob(*search_sig, search_mh@, size, threshold, save_paths, filename@),
        ),
{
    let sig = if search_mh.is_empty() || size < threshold {
        SignatureData::Empty
    } else if save_paths {
        SignatureData::External(filename.to_owned())
    } else {
        let mut sketches: Vec<KmerMinHash> = Vec::new();
        let ghost view = search_mh@;
        sketches.push(search_mh);
        assert(crate::sketch::sketch_views(sketches@) == seq![view]);
        SignatureData::Internal(
            Signature {
                name: search_sig.name.clone(),
                filename: search_sig.filename.clone(),
                md5sum: search_sig.md5sum.clone(),
                sketches,
            },
        )
    };
    let sig_bytes = match sig.as_bytes() {
        Some(bytes) => bytes,
        None => Vec::new(),
    };
    StoreOp::Put { family: Family::Signatures, key: encode_key(dataset_id), value: sig_bytes }
}

/// The requests that post a dataset under each hash of its sketch: for each
/// hash, in order, a merge of the set of that one dataset.
pub fn map_hashes_colors(dataset_id: DatasetID, search_mh: &KmerMinHash) -> (ops: Vec<StoreOp>)
    ensures
        requests(ops@) == posting_requests(dataset_id, search_mh.mins@),
{
    let mut single = Datasets::Empty;
    single.insert(dataset_id);
    assert(single@ == set![dataset_id]);
    let mut ops: Vec<StoreOp> = Vec::new();
    let mut i: usize = 0;
    while i < search_mh.mins.len()
        invariant
            i <= search_mh.mins.len(),
            single@ == set![dataset_id],
            requests(ops@) == posting_requests(dataset_id, search_mh.mins@.take(i as int)),
        decreases search_mh.mins.len() - i,
    {
        let operand = match single.as_bytes() {
            Some(bytes) => bytes,
            None => Vec::new(),
        };
        let op = StoreOp::Merge {
            family: Family::Hashes,
            key: encode_key(search_mh.mins[i]),
            operand,
        };
        proof {
            let hash = search_mh.mins@[i as int];
            assert(op@ == posting(dataset_id, hash));
            assert(requests(ops@.push(op)) == requests(ops@).push(op@));
            assert(search_mh.mins@.take(i + 1) == search_mh.mins@.take(i as int).push(hash));
            assert(posting_requests(dataset_id, search_mh.mins@.take(i + 1))
                == posting_requests(dataset_id, search_mh.mins@.take(i as int)).push(
                posting(dataset_id, hash),
            ));
        }
        ops.push(op);
        i += 1;
    }
    assert(search_mh.mins@.take(i as int) == search_mh.mins@);
    ops
}

/// The requests that index one dataset: the postings of its sketch, then
/// what is stored for it; or the error that keeps its signature from being used.
pub open spec fn dataset_outcome(
    id: u64,
    filename: Seq<char>,
    sig: Signature,
    template: KmerMinHash,
    threshold: u64,
    save_paths: bool,
) -> Result<Seq<Request>, Error> {
    match prepared_view(sig.sketches@, template) {
        Some(mh) => Ok(
            posting_requests(id, mh.mins).push(
                signature_put(
                    id,
                    stored_blob(sig, mh, mh.mins.len() as u64, threshold, save_paths, filename),
                ),
            ),
        ),
        None => Err(prepared_error(sig.sketches@, template)->0),
    }
}

/// The requests that index a list of signatures, each under its position as
/// its identifier; or the error of the first signature that cannot be used.
pub open spec fn index_outcome(
    sigs: Seq<(String, Signature)>,
    template: KmerMinHash,
    threshold: u64,
    save_paths: bool,
) -> Result<Seq<Request>, Error>
    decreases sigs.len(),
{
    if sigs.len() == 0 {
        Ok(Seq::empty())
    } else {
        match index_outcome(sigs.drop_last(), template, threshold, save_paths) {
            Err(e) => Err(e),
            Ok(before) => match dataset_outcome(
                (sigs.len() - 1) as u64,
                sigs.last().0@,
                sigs.last().1,
                template,
                threshold,
                save_paths,
            ) {
                Err(e) => Err(e),
                Ok(these) => Ok(before + these),
            },
        }
    }
}

/// The hashes that each signature of the list is indexed by.
pub open spec fn corpus_of(sigs: Seq<(String, Signature)>, template: KmerMinHash) -> Corpus {
    Seq::new(
        sigs.len(),
        |i: int|
            match prepared_view(sigs[i].1.sketches@, template) {
                Some(mh) => mh.mins,
                None => Seq::empty(),
            },
    )
}

/// The requests that index one dataset under the identifier `dataset_id`.
pub fn index_dataset(
    dataset_id: DatasetID,
    filename: &str,
    search_sig: &Signature,
    template: &KmerMinHash,
    threshold: u64,
    save_paths: bool,
) -> (ops: Result<Vec<StoreOp>, Error>)
    ensures
        match dataset_outcome(
            dataset_id,
            filename@,
            *search_sig,
            *template,
            threshold,
            save_paths,
        ) {
            Ok(expected) => ops matches Ok(v) && requests(v@) == expected,
            Err(e) => ops == Err::<Vec<StoreOp>, Error>(e),
        },
{
    let search_mh = match prepare_query(search_sig, template) {
        Ok(mh) => mh,
        Err(e) => {
            return Err(e);
        },
    };
    let mut ops = map_hashes_colors(dataset_id, &search_mh);
    let size = search_mh.size() as u64;
    let ghost before = ops@;
    let put = sig_save_to_db(
        search_sig,
        search_mh,
        size,
        threshold,
        save_paths,
        filename,
        dataset_id,
    );
    ops.push(put);
    assert(requests(ops@) == requests(before).push(put@));
    Ok(ops)
}

impl RevIndex {
    /// The requests that build the index from a list of signatures. The
    /// datasets get their positions in the list as identifiers.
    ///
    /// An index that was opened for reading only refuses; so does a
    /// signature that cannot be used with the template, with its error.
    pub fn index(
        &self,
        index_sigs: &Vec<(String, Signature)>,
        template: &KmerMinHash,
        threshold: u64,
        save_paths: bool,
    ) -> (ops: Result<Vec<StoreOp>, Error>)
        ensures
            self.read_only ==> ops == Err::<Vec<StoreOp>, Error>(Error::ReadOnly),
            !self.read_only ==> match index_outcome(index_sigs@, *template, threshold, save_paths) {
                Ok(expected) => ops matches Ok(v) && requests(v@) == expected,
                Err(e) => ops == Err::<Vec<StoreOp>, Error>(e),
            },
    {
        if self.read_only {
            return Err(Error::ReadOnly);
        }
        let mut ops: Vec<StoreOp> = Vec::new();
        let mut i: usize = 0;
        assert(index_sigs@.take(0) == Seq::<(String, Signature)>::empty());
        assert(requests(ops@) == Seq::<Request>::empty());
        while i < index_sigs.len()
            invariant
                i <= index_sigs.len(),
                !self.read_only,
                index_outcome(index_sigs@.take(i as int), *template, threshold, save_paths) == Ok::<
                    Seq<Request>,
                    Error,
                >(requests(ops@)),
            decreases index_sigs.len() - i,
        {
            let ghost longer = index_sigs@.take(i + 1);
            proof {
                assert(longer.drop_last() == index_sigs@.take(i as int));
                assert(longer.last() == index_sigs@[i as int]);
            }
            let entry = &index_sigs[i];
            match index_dataset(
                i as u64,
                entry.0.as_str(),
                &entry.1,
                template,
                threshold,
                save_paths,
            ) {
                Ok(these) => {
                    let ghost before = ops@;
                    append_ops(&mut ops, these);
                    assert(requests(ops@) == requests(before) + requests(these@));
                },
                Err(e) => {
                    proof {
                        lemma_first_failure(
                            index_sigs@,
                            i + 1,
                            *template,
                            threshold,
                            save_paths,
                        );
                    }
                    return Err(e);
                },
            }
            i += 1;
        }
        assert(index_sigs@.take(i as int) == index_sigs@);
        Ok(ops)
    }
}

/// Moves the operations of `more` to the end of `ops`.
fn append_ops(ops: &mut Vec<StoreOp>, more: Vec<StoreOp>)
    ensures
        final(ops)@ == old(ops)@ + more@,
{
    let mut more = more;
    ops.append(&mut more);
}

/// A failure among the first signatures of a list is the failure of the list.
proof fn lemma_first_failure(
    sigs: Seq<(String, Signature)>,
    upto: int,
    template: KmerMinHash,
    threshold: u64,
    save_paths: bool,
)
    requires
        0 <= upto <= sigs.len(),
        index_outcome(sigs.take(upto), template, threshold, save_paths) is Err,
    ensures
        index_outcome(sigs, template, threshold, save_paths) == index_outcome(
            sigs.take(upto),
            template,
            threshold,
            save_paths,
        ),
    decreases sigs.len() - upto,
{
    if upto < sigs.len() {
        assert(sigs.take(upto + 1).drop_last() == sigs.take(upto));
        lemma_first_failure(sigs, upto + 1, template, threshold, save_paths);
    } else {
        assert(sigs.take(upto) == sigs);
    }
}

/// What is stored for the dataset at position `id` of an indexed list.
pub open spec fn blob_of(
    sigs: Seq<(String, Signature)>,
    id: int,
    template: KmerMinHash,
    threshold: u64,
    save_paths: bool,
) -> Blob {
    let mh = prepared_view(sigs[id].1.sketches@, template)->0;
    stored_blob(sigs[id].1, mh, mh.mins.len() as u64, threshold, save_paths, sigs[id].0@)
}

/// The column holds, for each dataset of the list, what is stored for it.
pub open spec fn holds_signatures(
    column: crate::store::Column,
    sigs: Seq<(String, Signature)>,
    template: KmerMinHash,
    threshold: u64,
    save_paths: bool,
) -> bool {
    forall|id: u64|
        id < sigs.len() ==> #[trigger] lookup(column, key_of(id)) == Some(
            blob_encoding(blob_of(sigs, id as int, template, threshold, save_paths)),
        )
}

/// Law of the plain index: once a list of signatures has been indexed into an
/// empty store, the value under each hash is the set of the datasets whose
/// sketch holds the hash, and a hash that no sketch holds has no value. The
/// signatures column holds what is stored for each dataset, and the colors
/// column is empty.
pub proof fn lemma_index_postings(
    sigs: Seq<(String, Signature)>,
    template: KmerMinHash,
    threshold: u64,
    save_paths: bool,
)
    requires
        sigs.len() <= u64::MAX,
        index_outcome(sigs, template, threshold, save_paths) is Ok,
    ensures
        indexes(
            Store::empty().apply_all(
                index_outcome(sigs, template, threshold, save_paths)->Ok_0,
            ).hashes,
            corpus_of(sigs, template),
        ),
        holds_signatures(
            Store::empty().apply_all(
                index_outcome(sigs, template, threshold, save_paths)->Ok_0,
            ).signatures,
            sigs,
            template,
            threshold,
            save_paths,
        ),
        Store::empty().apply_all(
            index_outcome(sigs, template, threshold, save_paths)->Ok_0,
        ).colors == Store::empty().colors,
    decreases sigs.len(),
{
    let all = index_outcome(sigs, template, threshold, save_paths)->Ok_0;
    let corpus = corpus_of(sigs, template);
    if sigs.len() == 0 {
        assert forall|hash: u64| #[trigger]
            lookup(Store::empty().hashes, key_of(hash)) == crate::postings::posting_value(
                crate::postings::posted(corpus, hash),
            ) by {
            assert(crate::postings::posted(corpus, hash) =~= Set::<u64>::empty());
        }
    } else {
        let shorter = sigs.drop_last();
        let id = (sigs.len() - 1) as u64;
        let before = index_outcome(shorter, template, threshold, save_paths)->Ok_0;
        let mh = prepared_view(sigs.last().1.sketches@, template)->0;
        let blob = blob_of(sigs, id as int, template, threshold, save_paths);
        let postings = posting_requests(id, mh.mins);
        let these = postings.push(signature_put(id, blob));
        assert(all == before + these);
        lemma_index_postings(shorter, template, threshold, save_paths);
        let mid = Store::empty().apply_all(before);
        lemma_apply_all_concat(Store::empty(), before, these);
        assert(these.drop_last() == postings);
        assert(these.last() == signature_put(id, blob));
        let posted_store = mid.apply_all(postings);
        let last = posted_store.apply(signature_put(id, blob));
        assert(mid.apply_all(these) == last);
        let shorter_corpus = corpus_of(shorter, template);
        lemma_postings_index(mid, shorter_corpus, mh.mins);
        assert(corpus =~= shorter_corpus.push(mh.mins)) by {
            assert forall|i: int| 0 <= i < corpus.len() implies corpus[i] == shorter_corpus.push(
                mh.mins,
            )[i] by {
                if i < shorter.len() {
                    assert(shorter[i] == sigs[i]);
                }
            }
        }
        assert(last.hashes == posted_store.hashes);
        assert forall|other: u64| other < sigs.len() implies #[trigger] lookup(
            last.signatures,
            key_of(other),
        ) == Some(blob_encoding(blob_of(sigs, other as int, template, threshold, save_paths))) by {
            if other == id {
            } else {
                if key_of(other) == key_of(id) {
                    lemma_key_of_injective(other, id);
                }
                assert(shorter[other as int] == sigs[other as int]);
                assert(lookup(mid.signatures, key_of(other)) == Some(
                    blob_encoding(blob_of(shorter, other as int, template, threshold, save_paths)),
                ));
            }
        }
    }
}

/// The name that a match is shown by: the path for a stored path, the name
/// of the signature for a stored signature, and none where nothing is stored.
pub open spec fn display_name(blob: Blob) -> Option<Seq<char>> {
    match blob {
        Blob::Empty => None,
        Blob::External(path) => Some(path),
        Blob::Internal(sig) => Some(sig.name),
    }
}

/// The names of a list of texts.
pub open spec fn texts(names: Seq<String>) -> Seq<Seq<char>> {
    Seq::new(names.len(), |i: int| names[i]@)
}

/// The names that the fetched signatures are shown by, in their order. A
/// dataset without a stored value, or with nothing stored, is passed over.
/// `None` where a value is no encoding.
pub open spec fn names_of(fetched: Seq<Option<Vec<u8>>>) -> Option<Seq<Seq<char>>>
    decreases fetched.len(),
{
    if fetched.len() == 0 {
        Some(Seq::empty())
    } else {
        match names_of(fetched.drop_last()) {
            None => None,
            Some(before) => match fetched.last() {
                None => Some(before),
                Some(bytes) => match blob_decoding(bytes@) {
                    None => None,
                    Some(blob) => match display_name(blob) {
                        Some(name) => Some(before.push(name)),
                        None => Some(before),
                    },
                },
            },
        }
    }
}

/// Once a prefix of the values holds one that is no encoding, so does the list.
proof fn lemma_names_fail(fetched: Seq<Option<Vec<u8>>>, upto: int)
    requires
        0 <= upto <= fetched.len(),
        names_of(fetched.take(upto)) is None,
    ensures
        names_of(fetched) is None,
    decreases fetched.len() - upto,
{
    if upto < fetched.len() {
        assert(fetched.take(upto + 1).drop_last() == fetched.take(upto));
        lemma_names_fail(fetched, upto + 1);
    } else {
        assert(fetched.take(upto) == fetched);
    }
}

/// The names that the matches are shown by, from the stored values that were
/// fetched for them, in their order.
///
/// `DeserializationFailure` exactly when a value is no encoding.
pub fn match_names(fetched: &Vec<Option<Vec<u8>>>) -> (names: Result<Vec<String>, Error>)
    ensures
        match names_of(fetched@) {
            Some(expected) => names matches Ok(v) && texts(v@) == expected,
            None => names == Err::<Vec<String>, Error>(Error::DeserializationFailure),
        },
{
    let mut names: Vec<String> = Vec::new();
    let mut i: usize = 0;
    assert(fetched@.take(0) == Seq::<Option<Vec<u8>>>::empty());
    assert(texts(names@) == Seq::<Seq<char>>::empty());
    while i < fetched.len()
        invariant
            i <= fetched.len(),
            names_of(fetched@.take(i as int)) == Some(texts(names@)),
        decreases fetched.len() - i,
    {
        proof {
            assert(fetched@.take(i + 1).drop_last() == fetched@.take(i as int));
            assert(fetched@.take(i + 1).last() == fetched@[i as int]);
        }
        match &fetched[i] {
            None => {},
            Some(bytes) => match SignatureData::from_slice(bytes.as_slice()) {
                None => {
                    proof {
                        lemma_names_fail(fetched@, i + 1);
                    }
                    return Err(Error::DeserializationFailure);
                },
                Some(SignatureData::Empty) => {},
                Some(SignatureData::External(path)) => {
                    assert(texts(names@.push(path)) == texts(names@).push(path@));
                    names.push(path);
                },
                Some(SignatureData::Internal(sig)) => {
                    let name = sig.name;
                    assert(texts(names@.push(name)) == texts(names@).push(name@));
                    names.push(name);
                },
            },
        }
        i += 1;
    }
    assert(fetched@.take(i as int) == fetched@);
    Ok(names)
}

/// The number of hashes that stands for `threshold_bp` base pairs, where one
/// hash in `scaled` is kept: the base pairs divided by `scaled`, rounded down.
pub fn search_threshold(threshold_bp: usize, scaled: u64) -> (threshold: usize)
    requires
        scaled > 0,
    ensures
        threshold == threshold_bp as int / scaled as int,
{
    let hashes = threshold_bp as u64 / scaled;
    assert(hashes <= threshold_bp) by (nonlinear_arith)
        requires
            hashes == threshold_bp as int / scaled as int,
            scaled > 0,
            threshold_bp >= 0,
    ;
    hashes as usize
}

/// The keys under which the hashes column is read for a query: one for each
/// hash of the query, in order.
pub open spec fn query_keys_of(mins: Seq<u64>) -> Seq<Seq<u8>> {
    Seq::new(mins.len(), |i: int| key_of(mins[i]))
}

/// The values are what the column holds under the keys, one for one.
pub open spec fn answers(fetched: Seq<Option<Vec<u8>>>, column: crate::store::Column, keys: Seq<
    Seq<u8>,
>) -> bool {
    &&& fetched.len() == keys.len()
    &&& forall|i: int|
        0 <= i < fetched.len() ==> value_of(#[trigger] fetched[i]) == lookup(column, keys[i])
}

/// The bytes of a fetched value.
pub open spec fn value_of(fetched: Option<Vec<u8>>) -> Option<Seq<u8>> {
    match fetched {
        Some(bytes) => Some(bytes@),
        None => None,
    }
}

/// The keys under which the hashes column is read for a query.
pub fn query_keys(query: &KmerMinHash) -> (keys: Vec<Vec<u8>>)
    ensures
        crate::merge::contents(keys@) == query_keys_of(query.mins@),
{
    let mut keys: Vec<Vec<u8>> = Vec::new();
    let mut i: usize = 0;
    while i < query.mins.len()
        invariant
            i <= query.mins.len(),
            keys@.len() == i,
            forall|k: int| 0 <= k < i ==> (#[trigger] keys@[k])@ == key_of(query.mins@[k]),
        decreases query.mins.len() - i,
    {
        keys.push(encode_key(query.mins[i]));
        i += 1;
    }
    assert(crate::merge::contents(keys@) =~= query_keys_of(query.mins@));
    keys
}

impl RevIndex {
    /// Counts, for each dataset, how many hashes of the query it holds, from
    /// the values that were fetched for the keys of the query.
    ///
    /// `DeserializationFailure` exactly when a value is the encoding of no set.
    pub fn counter_for_query(&self, fetched: &Vec<Option<Vec<u8>>>) -> (tallied: Result<
        SigCounter,
        Error,
    >)
        ensures
            tallied is Ok <==> all_fetched_decode(fetched@),
            tallied matches Ok(c) ==> counts(c) == tally(fetched_sets(fetched@)),
            tallied matches Err(e) ==> e == Error::DeserializationFailure,
    {
        tally_postings(fetched)
    }

    /// The datasets that share `threshold` hashes or more with the query,
    /// each with its count, the best first.
    pub fn matches_from_counter(&self, tallied: &SigCounter, threshold: usize) -> (matches: Vec<
        (DatasetID, usize),
    >)
        ensures
            crate::counter::ranks(matches@, at_least(counts(*tallied), threshold)),
    {
        matches_from_counter(tallied, threshold)
    }
}

/// Every set of a list holds the identifier, so the identifier is counted
/// once for each set.
proof fn lemma_hits_all(sets: Seq<Set<u64>>, id: u64)
    requires
        forall|i: int| 0 <= i < sets.len() ==> (#[trigger] sets[i]).contains(id),
    ensures
        hits(sets, id) == sets.len(),
    decreases sets.len(),
{
    if sets.len() > 0 {
        assert(sets[sets.len() - 1].contains(id));
        lemma_hits_all(sets.drop_last(), id);
    }
}

/// Law of indexing and searching: in a column that indexes a corpus, a search
/// with the sketch of a dataset of the corpus counts that dataset once for each
/// hash of the sketch. So a dataset whose sketch holds a hash is among the
/// matches of its own sketch at the threshold zero, and at every threshold up
/// to the size of the sketch.
pub proof fn lemma_search_recovers(
    column: crate::store::Column,
    corpus: Corpus,
    id: u64,
    fetched: Seq<Option<Vec<u8>>>,
)
    requires
        indexes(column, corpus),
        id < corpus.len(),
        corpus[id as int].len() > 0,
        corpus[id as int].len() <= usize::MAX,
        answers(fetched, column, query_keys_of(corpus[id as int])),
    ensures
        all_fetched_decode(fetched),
        tally(fetched_sets(fetched)).dom().contains(id),
        tally(fetched_sets(fetched))[id] == corpus[id as int].len(),
        at_least(tally(fetched_sets(fetched)), 0).dom().contains(id),
{
    let mins = corpus[id as int];
    let sets = fetched_sets(fetched);
    assert forall|i: int| 0 <= i < fetched.len() implies ((#[trigger] fetched[i]) matches Some(
        bytes,
    ) ==> is_encoding(bytes@)) && sets[i].contains(id) by {
        let hash = mins[i];
        let datasets = crate::postings::posted(corpus, hash);
        assert(lookup(column, key_of(hash)) == crate::postings::posting_value(datasets));
        assert(query_keys_of(mins)[i] == key_of(hash));
        assert(datasets.contains(id));
        assert(datasets != Set::<u64>::empty());
        lemma_decoding_of_encoding(datasets);
        assert(is_encoding(encoding(datasets)));
    }
    lemma_hits_all(sets, id);
}

} // verus!
