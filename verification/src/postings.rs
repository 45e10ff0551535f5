//! What the column of postings holds once a corpus has been indexed.

use vstd::prelude::*;
use crate::encoding::{encoding, is_encoding, lemma_decoding_of_encoding};
use crate::keys::{key_of, lemma_key_len, lemma_key_of_injective};
use crate::merge::{all_decode, lemma_union_of_one, merged, with_existing};
use crate::store::{lookup, merge_into, Column, Family, Request, Store};

verus! {

/// A corpus: for each dataset, by its identifier, the hashes of its sketch.
pub type Corpus = Seq<Seq<u64>>;

/// The datasets of the corpus whose sketch holds `hash`.
pub open spec fn posted(corpus: Corpus, hash: u64) -> Set<u64> {
    Set::new(|id: u64| id < corpus.len() && corpus[id as int].contains(hash))
}

/// The value that stands for a set of datasets: none for the empty set, and
/// the encoding of the set otherwise.
pub open spec fn posting_value(datasets: Set<u64>) -> Option<Seq<u8>> {
    if datasets == Set::<u64>::empty() {
        None
    } else {
        Some(encoding(datasets))
    }
}

/// The column holds, under each hash, the set of the datasets of the corpus
/// whose sketch holds the hash, and nothing else.
pub open spec fn indexes(column: Column, corpus: Corpus) -> bool {
    &&& forall|hash: u64| #[trigger]
        lookup(column, key_of(hash)) == posting_value(posted(corpus, hash))
    &&& forall|key: Seq<u8>| #[trigger] column.dom().contains(key) ==> key.len() == 8
}

/// The request that posts dataset `id` under `hash`.
pub open spec fn posting(id: u64, hash: u64) -> Request {
    Request::Merge { family: Family::Hashes, key: key_of(hash), operand: encoding(set![id]) }
}

/// The requests that post dataset `id` under each hash of `mins`.
pub open spec fn posting_requests(id: u64, mins: Seq<u64>) -> Seq<Request> {
    Seq::new(mins.len(), |i: int| posting(id, mins[i]))
}

/// Merging the encoding of one set into the encoding of another gives the
/// encoding of their union; merging it where there is no value gives itself.
pub proof fn lemma_merge_sets(existing: Set<u64>, operand: Set<u64>)
    ensures
        merged(Some(encoding(existing)), seq![encoding(operand)]) == Some(
            encoding(existing.union(operand)),
        ),
        merged(None, seq![encoding(operand)]) == Some(encoding(operand)),
{
    lemma_decoding_of_encoding(existing);
    lemma_decoding_of_encoding(operand);
    let both = seq![encoding(existing)] + seq![encoding(operand)];
    assert(with_existing(Some(encoding(existing)), seq![encoding(operand)]) == both);
    assert(both.drop_last() == seq![encoding(existing)]);
    assert(both.last() == encoding(operand));
    lemma_union_of_one(encoding(existing));
    lemma_union_of_one(encoding(operand));
    assert(all_decode(both)) by {
        assert(is_encoding(encoding(existing)));
        assert(is_encoding(encoding(operand)));
    }
    assert(all_decode(seq![encoding(operand)])) by {
        assert(is_encoding(encoding(operand)));
    }
}

/// One posting more: the column that indexed the corpus with the last
/// dataset's sketch cut short indexes it with that sketch one hash longer.
pub proof fn lemma_posting_step(column: Column, corpus: Corpus, mins: Seq<u64>, hash: u64)
    requires
        corpus.len() <= u64::MAX,
        indexes(column, corpus.push(mins)),
    ensures
        indexes(
            merge_into(column, key_of(hash), encoding(set![corpus.len() as u64])),
            corpus.push(mins.push(hash)),
        ),
{
    let id = corpus.len() as u64;
    let before = corpus.push(mins);
    let after = corpus.push(mins.push(hash));
    let key = key_of(hash);
    let old_set = posted(before, hash);
    let new_column = merge_into(column, key, encoding(set![id]));
    lemma_merge_sets(old_set, set![id]);
    lemma_key_len(hash);
    assert(lookup(column, key) == posting_value(old_set));
    assert(after[id as int] == mins.push(hash));
    assert(before[id as int] == mins);
    assert forall|other: u64| #[trigger]
        lookup(new_column, key_of(other)) == posting_value(posted(after, other)) by {
        assert(lookup(column, key_of(other)) == posting_value(posted(before, other)));
        if other == hash {
            assert(posted(after, hash) =~= old_set.union(set![id])) by {
                assert forall|d: u64| posted(after, hash).contains(d) <==> old_set.union(
                    set![id],
                ).contains(d) by {
                    if d < corpus.len() {
                        assert(after[d as int] == before[d as int]);
                    }
                    if d == id {
                        assert(mins.push(hash)[mins.len() as int] == hash);
                    }
                }
            }
            assert(posted(after, hash).contains(id)) by {
                assert(mins.push(hash)[mins.len() as int] == hash);
            }
            if old_set == Set::<u64>::empty() {
                assert(old_set.union(set![id]) =~= set![id]);
            }
        } else {
            if key_of(other) == key {
                lemma_key_of_injective(other, hash);
            }
            assert(posted(after, other) =~= posted(before, other)) by {
                assert forall|d: u64| posted(after, other).contains(d) <==> posted(
                    before,
                    other,
                ).contains(d) by {
                    if d < corpus.len() {
                        assert(after[d as int] == before[d as int]);
                    }
                    if d == id {
                        if mins.push(hash).contains(other) {
                            let k = choose|k: int|
                                0 <= k < mins.push(hash).len() && mins.push(hash)[k] == other;
                            assert(mins[k] == other);
                        }
                        if mins.contains(other) {
                            let k = choose|k: int| 0 <= k < mins.len() && mins[k] == other;
                            assert(mins.push(hash)[k] == other);
                        }
                    }
                }
            }
        }
    }
}

/// A dataset without hashes adds nothing to what the column must hold.
pub proof fn lemma_posting_start(column: Column, corpus: Corpus)
    requires
        indexes(column, corpus),
    ensures
        indexes(column, corpus.push(Seq::empty())),
{
    let after = corpus.push(Seq::<u64>::empty());
    assert forall|hash: u64| #[trigger]
        lookup(column, key_of(hash)) == posting_value(posted(after, hash)) by {
        assert(lookup(column, key_of(hash)) == posting_value(posted(corpus, hash)));
        assert(posted(after, hash) =~= posted(corpus, hash)) by {
            assert forall|d: u64| posted(after, hash).contains(d) <==> posted(
                corpus,
                hash,
            ).contains(d) by {
                if d < corpus.len() {
                    assert(after[d as int] == corpus[d as int]);
                }
            }
        }
    }
}

/// Posting a whole dataset: the hashes column that indexed the corpus
/// indexes, after the postings of the next dataset, the corpus with that dataset.
pub proof fn lemma_postings_index(store: Store, corpus: Corpus, mins: Seq<u64>)
    requires
        corpus.len() <= u64::MAX,
        indexes(store.hashes, corpus),
    ensures
        indexes(
            store.apply_all(posting_requests(corpus.len() as u64, mins)).hashes,
            corpus.push(mins),
        ),
        store.apply_all(posting_requests(corpus.len() as u64, mins)).colors == store.colors,
        store.apply_all(posting_requests(corpus.len() as u64, mins)).signatures
            == store.signatures,
    decreases mins.len(),
{
    let id = corpus.len() as u64;
    let all = posting_requests(id, mins);
    if mins.len() == 0 {
        lemma_posting_start(store.hashes, corpus);
        assert(mins == Seq::<u64>::empty());
    } else {
        let shorter = mins.drop_last();
        assert(all.drop_last() == posting_requests(id, shorter));
        assert(all.last() == posting(id, mins.last()));
        lemma_postings_index(store, corpus, shorter);
        let mid = store.apply_all(posting_requests(id, shorter));
        lemma_posting_step(mid.hashes, corpus, shorter, mins.last());
        assert(shorter.push(mins.last()) == mins);
    }
}

/// Law of the postings (any order): two merges of sets into a column of sets
/// give the same column in either order, so the workers that index
/// different datasets need not wait for each other.
pub proof fn lemma_merges_commute(
    column: Column,
    first_key: Seq<u8>,
    first: Set<u64>,
    second_key: Seq<u8>,
    second: Set<u64>,
)
    requires
        forall|key: Seq<u8>| #[trigger] column.dom().contains(key) ==> is_encoding(column[key]),
    ensures
        merge_into(merge_into(column, first_key, encoding(first)), second_key, encoding(second))
            == merge_into(
            merge_into(column, second_key, encoding(second)),
            first_key,
            encoding(first),
        ),
{
    let one = merge_into(column, first_key, encoding(first));
    let other = merge_into(column, second_key, encoding(second));
    lemma_merged_value(column, first_key, first);
    lemma_merged_value(column, second_key, second);
    lemma_merged_value(one, second_key, second);
    lemma_merged_value(other, first_key, first);
    if first_key == second_key {
        let held = crate::merge::members_in(
            match lookup(column, first_key) {
                Some(value) => value,
                None => encoding(Set::<u64>::empty()),
            },
        );
        lemma_decoding_of_encoding(Set::<u64>::empty());
        lemma_decoding_of_encoding(held.union(first));
        lemma_decoding_of_encoding(held.union(second));
        assert(held.union(first).union(second) =~= held.union(second).union(first));
    }
    assert(merge_into(one, second_key, encoding(second)) =~= merge_into(
        other,
        first_key,
        encoding(first),
    ));
}

/// The value that a merge of a set leaves under its key: the encoding of the
/// union of the set with the set that was held there, if any.
proof fn lemma_merged_value(column: Column, key: Seq<u8>, operand: Set<u64>)
    requires
        forall|k: Seq<u8>| #[trigger] column.dom().contains(k) ==> is_encoding(column[k]),
    ensures
        merge_into(column, key, encoding(operand)) == column.insert(
            key,
            encoding(
                crate::merge::members_in(
                    match lookup(column, key) {
                        Some(value) => value,
                        None => encoding(Set::<u64>::empty()),
                    },
                ).union(operand),
            ),
        ),
        forall|k: Seq<u8>| #[trigger]
            merge_into(column, key, encoding(operand)).dom().contains(k) ==> is_encoding(
                merge_into(column, key, encoding(operand))[k],
            ),
{
    lemma_decoding_of_encoding(Set::<u64>::empty());
    match lookup(column, key) {
        Some(value) => {
            let held = crate::merge::members_in(value);
            assert(is_encoding(column[key]));
            crate::encoding::lemma_encoding_of_decoding(value);
            assert(value == encoding(held));
            lemma_merge_sets(held, operand);
            assert(is_encoding(encoding(held.union(operand))));
        },
        None => {
            lemma_merge_sets(Set::<u64>::empty(), operand);
            assert(Set::<u64>::empty().union(operand) =~= operand);
            assert(is_encoding(encoding(operand)));
        },
    }
}

} // verus!
