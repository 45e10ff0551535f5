//! What the store of a color index holds once it was built and compacted.

use vstd::prelude::*;
use crate::color_revindex::{
    color_dataset_outcome, color_index_outcome, color_of, color_posting_requests, coloring,
    minting, recoloring, recoloring_all,
};
use crate::encoding::{encoding, is_encoding, lemma_decoding_of_encoding, lemma_encoding_len};
use crate::keys::{key_of, lemma_key_of_injective};
use crate::merge::members_in;
use crate::postings::{
    indexes, lemma_merge_sets, lemma_posting_start, lemma_posting_step, posted, posting,
    posting_value, Corpus,
};
use crate::revindex::{corpus_of, index_outcome, lemma_index_postings};
use crate::sketch::{prepared_view, KmerMinHash, Signature};
use crate::store::{
    lemma_apply_all_concat, lemma_apply_two, lookup, merge_into, Column, Family, Request, Store,
};

verus! {

/// The dataset `id` is in the corpus, and its sketch holds a hash.
pub open spec fn nonempty_dataset(corpus: Corpus, id: u64) -> bool {
    id < corpus.len() && corpus[id as int].len() > 0
}

/// The set is given a color while the corpus is indexed and compacted: it is
/// the set of one dataset with a hash, or the set posted under some hash.
pub open spec fn relevant(corpus: Corpus, s: Set<u64>) -> bool {
    ||| exists|id: u64| #[trigger] nonempty_dataset(corpus, id) && s == set![id]
    ||| exists|hash: u64| s == #[trigger] posted(corpus, hash) && s != Set::<u64>::empty()
}

/// No two of the sets that are given a color share their color.
pub open spec fn collision_free(corpus: Corpus) -> bool {
    forall|a: Set<u64>, b: Set<u64>|
        #![trigger color_of(a), color_of(b)]
        relevant(corpus, a) && relevant(corpus, b) && color_of(a) == color_of(b) ==> a == b
}

/// `value` under `key` is the set `s` under its color.
pub open spec fn paints(corpus: Corpus, key: Seq<u8>, value: Seq<u8>, s: Set<u64>) -> bool {
    relevant(corpus, s) && key == key_of(color_of(s)) && value == encoding(s)
}

/// Every entry of the colors column holds a set under the color of that set.
pub open spec fn colored(colors: Column, corpus: Corpus) -> bool {
    forall|key: Seq<u8>| #[trigger]
        colors.dom().contains(key) ==> exists|s: Set<u64>| #[trigger]
            paints(corpus, key, colors[key], s)
}

/// The entries list a column: each key once, with its value.
pub open spec fn snapshot(entries: Seq<(Seq<u8>, Seq<u8>)>, column: Column) -> bool {
    &&& forall|i: int|
        0 <= i < entries.len() ==> column.dom().contains((#[trigger] entries[i]).0) && column[entries[i].0]
            == entries[i].1
    &&& forall|i: int, j: int|
        0 <= i < j < entries.len() ==> (#[trigger] entries[i]).0 != (#[trigger] entries[j]).0
    &&& forall|key: Seq<u8>| #[trigger]
        column.dom().contains(key) ==> exists|i: int|
            0 <= i < entries.len() && (#[trigger] entries[i]).0 == key
}

/// In a collision-free corpus, the entry of a color holds the set of that color.
proof fn lemma_colored_lookup(colors: Column, corpus: Corpus, s: Set<u64>)
    requires
        colored(colors, corpus),
        collision_free(corpus),
        relevant(corpus, s),
        colors.dom().contains(key_of(color_of(s))),
    ensures
        colors[key_of(color_of(s))] == encoding(s),
{
    let key = key_of(color_of(s));
    let other = choose|other: Set<u64>| #[trigger] paints(corpus, key, colors[key], other);
    lemma_key_of_injective(color_of(s), color_of(other));
}

/// Storing a relevant set under its color, by merge or where the color is
/// free, keeps the colors column in order.
proof fn lemma_colored_insert(colors: Column, corpus: Corpus, s: Set<u64>)
    requires
        colored(colors, corpus),
        collision_free(corpus),
        relevant(corpus, s),
    ensures
        colored(merge_into(colors, key_of(color_of(s)), encoding(s)), corpus),
        merge_into(colors, key_of(color_of(s)), encoding(s)).dom().contains(key_of(color_of(s))),
        merge_into(colors, key_of(color_of(s)), encoding(s)) == colors.insert(
            key_of(color_of(s)),
            encoding(s),
        ),
        colored(colors.insert(key_of(color_of(s)), encoding(s)), corpus),
{
    let key = key_of(color_of(s));
    if colors.dom().contains(key) {
        lemma_colored_lookup(colors, corpus, s);
        assert(s.union(s) =~= s);
    }
    lemma_merge_sets(s, s);
    let after = colors.insert(key, encoding(s));
    assert(merge_into(colors, key, encoding(s)) == after);
    assert forall|k: Seq<u8>| #[trigger] after.dom().contains(k) implies exists|t: Set<u64>| #[trigger]
        paints(corpus, k, after[k], t) by {
        if k == key {
            assert(paints(corpus, k, after[k], s));
        } else {
            let t = choose|t: Set<u64>| #[trigger] paints(corpus, k, colors[k], t);
            assert(paints(corpus, k, after[k], t));
        }
    }
}

/// The postings of one dataset in a color index: the hashes column comes to
/// index the corpus with that dataset, and the colors column stays in order.
proof fn lemma_color_postings(store: Store, prefix: Corpus, full: Corpus, mins: Seq<u64>)
    requires
        prefix.len() <= u64::MAX,
        indexes(store.hashes, prefix),
        colored(store.colors, full),
        collision_free(full),
        mins.len() > 0 ==> nonempty_dataset(full, prefix.len() as u64),
    ensures
        indexes(
            store.apply_all(color_posting_requests(prefix.len() as u64, mins)).hashes,
            prefix.push(mins),
        ),
        colored(store.apply_all(color_posting_requests(prefix.len() as u64, mins)).colors, full),
        store.apply_all(color_posting_requests(prefix.len() as u64, mins)).signatures
            == store.signatures,
    decreases mins.len(),
{
    let id = prefix.len() as u64;
    let all = color_posting_requests(id, mins);
    if mins.len() == 0 {
        lemma_posting_start(store.hashes, prefix);
        assert(mins == Seq::<u64>::empty());
        assert(all == Seq::<Request>::empty());
    } else {
        let shorter = mins.drop_last();
        let before = color_posting_requests(id, shorter);
        let two = seq![coloring(id), posting(id, mins.last())];
        assert(all =~= before + two) by {
            assert forall|k: int| 0 <= k < all.len() implies all[k] == (before + two)[k] by {
                if k < 2 * shorter.len() {
                    assert(mins[k / 2] == shorter[k / 2]);
                } else if k == 2 * shorter.len() {
                } else {
                    assert(k / 2 == shorter.len());
                }
            }
        }
        lemma_color_postings(store, prefix, full, shorter);
        lemma_apply_all_concat(store, before, two);
        let mid = store.apply_all(before);
        let painted = mid.apply(coloring(id));
        let last = painted.apply(posting(id, mins.last()));
        lemma_apply_two(mid, coloring(id), posting(id, mins.last()));
        assert(mid.apply_all(two) == last);
        assert(relevant(full, set![id]));
        lemma_colored_insert(mid.colors, full, set![id]);
        lemma_posting_step(mid.hashes, prefix, shorter, mins.last());
        assert(shorter.push(mins.last()) == mins);
    }
}

/// The corpus lists the first datasets of a larger corpus.
pub open spec fn prefix_of(corpus: Corpus, full: Corpus) -> bool {
    corpus.len() <= full.len() && forall|i: int| 0 <= i < corpus.len() ==> corpus[i] == full[i]
}

/// Building a color index: the hashes column of the store comes to index the
/// corpus, and every entry of the colors column holds a set under its color.
proof fn lemma_color_index_built(
    sigs: Seq<(String, Signature)>,
    full: Corpus,
    template: KmerMinHash,
    threshold: u64,
    save_paths: bool,
)
    requires
        sigs.len() <= u64::MAX,
        color_index_outcome(sigs, template, threshold, save_paths) is Ok,
        prefix_of(corpus_of(sigs, template), full),
        collision_free(full),
    ensures
        indexes(
            Store::empty().apply_all(
                color_index_outcome(sigs, template, threshold, save_paths)->Ok_0,
            ).hashes,
            corpus_of(sigs, template),
        ),
        colored(
            Store::empty().apply_all(
                color_index_outcome(sigs, template, threshold, save_paths)->Ok_0,
            ).colors,
            full,
        ),
    decreases sigs.len(),
{
    let all = color_index_outcome(sigs, template, threshold, save_paths)->Ok_0;
    let corpus = corpus_of(sigs, template);
    if sigs.len() == 0 {
        assert forall|hash: u64| #[trigger]
            lookup(Store::empty().hashes, key_of(hash)) == posting_value(posted(corpus, hash)) by {
            assert(posted(corpus, hash) =~= Set::<u64>::empty());
        }
    } else {
        let shorter = sigs.drop_last();
        let id = (sigs.len() - 1) as u64;
        let before = color_index_outcome(shorter, template, threshold, save_paths)->Ok_0;
        let these = color_dataset_outcome(
            id,
            sigs.last().0@,
            sigs.last().1,
            template,
            threshold,
            save_paths,
        )->Ok_0;
        let mh = prepared_view(sigs.last().1.sketches@, template)->0;
        let postings = color_posting_requests(id, mh.mins);
        assert(all == before + these);
        let shorter_corpus = corpus_of(shorter, template);
        assert(corpus =~= shorter_corpus.push(mh.mins)) by {
            assert forall|i: int| 0 <= i < corpus.len() implies corpus[i] == shorter_corpus.push(
                mh.mins,
            )[i] by {
                if i < shorter.len() {
                    assert(shorter[i] == sigs[i]);
                }
            }
        }
        assert(prefix_of(shorter_corpus, full)) by {
            assert forall|i: int| 0 <= i < shorter_corpus.len() implies shorter_corpus[i]
                == full[i] by {
                assert(shorter_corpus[i] == corpus[i]);
            }
        }
        lemma_color_index_built(shorter, full, template, threshold, save_paths);
        let mid = Store::empty().apply_all(before);
        lemma_apply_all_concat(Store::empty(), before, these);
        assert(these.drop_last() == postings);
        assert(full[id as int] == corpus[id as int]);
        lemma_color_postings(mid, shorter_corpus, full, mh.mins);
    }
}

/// The store after the first entries of a snapshot were compacted.
spec fn compacted(
    store: Store,
    start: Store,
    entries: Seq<(Seq<u8>, Seq<u8>)>,
    done: int,
    corpus: Corpus,
) -> bool {
    &&& store.hashes.dom() == start.hashes.dom()
    &&& forall|i: int|
        0 <= i < entries.len() ==> store.hashes[(#[trigger] entries[i]).0] == if i < done {
            key_of(color_of(members_in(entries[i].1)))
        } else {
            entries[i].1
        }
    &&& forall|i: int|
        0 <= i < done ==> store.colors.dom().contains(
            key_of(color_of(members_in((#[trigger] entries[i]).1))),
        )
    &&& colored(store.colors, corpus)
}

/// The value of a hash in a column that indexes a corpus is the encoding of
/// a set that is given a color.
proof fn lemma_entry_is_posting(column: Column, corpus: Corpus, key: Seq<u8>)
    requires
        indexes(column, corpus),
        column.dom().contains(key),
    ensures
        is_encoding(column[key]),
        relevant(corpus, members_in(column[key])),
        column[key].len() != 8,
        exists|hash: u64|
            key == key_of(hash) && members_in(column[key]) == #[trigger] posted(corpus, hash),
{
    assert(key.len() == 8);
    vstd::bytes::lemma_auto_spec_u64_to_from_le_bytes();
    let hash = vstd::bytes::spec_u64_from_le_bytes(key);
    assert(key_of(hash) == key);
    assert(lookup(column, key_of(hash)) == posting_value(posted(corpus, hash)));
    let s = posted(corpus, hash);
    lemma_decoding_of_encoding(s);
    lemma_encoding_len(s);
    assert(is_encoding(encoding(s)));
}

/// Compacting the entries of a snapshot one after the other.
proof fn lemma_compaction(start: Store, corpus: Corpus, entries: Seq<(Seq<u8>, Seq<u8>)>, done: int)
    requires
        0 <= done <= entries.len(),
        indexes(start.hashes, corpus),
        colored(start.colors, corpus),
        collision_free(corpus),
        snapshot(entries, start.hashes),
    ensures
        recoloring_all(entries.take(done)) is Some,
        compacted(
            start.apply_all(recoloring_all(entries.take(done))->0),
            start,
            entries,
            done,
            corpus,
        ),
    decreases done,
{
    let prefix = entries.take(done);
    if done == 0 {
        assert(prefix == Seq::<(Seq<u8>, Seq<u8>)>::empty());
    } else {
        let shorter = entries.take(done - 1);
        assert(prefix.drop_last() == shorter);
        assert(prefix.last() == entries[done - 1]);
        lemma_compaction(start, corpus, entries, done - 1);
        let before = recoloring_all(shorter)->0;
        let mid = start.apply_all(before);
        let key = entries[done - 1].0;
        let value = entries[done - 1].1;
        lemma_entry_is_posting(start.hashes, corpus, key);
        let s = members_in(value);
        let these = recoloring(key, value)->0;
        assert(these == seq![
            minting(s),
            Request::Put { family: Family::Hashes, key, value: key_of(color_of(s)) },
        ]);
        lemma_apply_all_concat(start, before, these);
        let minted = mid.apply(minting(s));
        let last = minted.apply(these[1]);
        lemma_apply_two(mid, minting(s), these[1]);
        assert(mid.apply_all(these) == last);
        lemma_decoding_of_encoding(s);
        assert(value == encoding(s)) by {
            crate::encoding::lemma_encoding_of_decoding(value);
        }
        lemma_colored_insert(mid.colors, corpus, s);
        assert(colored(minted.colors, corpus));
        assert(minted.colors.dom().contains(key_of(color_of(s))));
        assert forall|i: int| 0 <= i < entries.len() implies last.hashes[(#[trigger] entries[i]).0]
            == if i < done {
            key_of(color_of(members_in(entries[i].1)))
        } else {
            entries[i].1
        } by {
            if i != done - 1 {
                if i < done - 1 {
                    assert(entries[i].0 != entries[done - 1].0);
                } else {
                    assert(entries[done - 1].0 != entries[i].0);
                }
                assert(mid.hashes[entries[i].0] == if i < done - 1 {
                    key_of(color_of(members_in(entries[i].1)))
                } else {
                    entries[i].1
                });
            }
        }
        assert(last.hashes.dom() =~= start.hashes.dom());
        assert forall|i: int| 0 <= i < done implies last.colors.dom().contains(
            key_of(color_of(members_in((#[trigger] entries[i]).1))),
        ) by {
            if i < done - 1 {
                assert(mid.colors.dom().contains(key_of(color_of(members_in(entries[i].1)))));
            }
        }
    }
}

/// Law of the color index: once a list of signatures has been indexed into an
/// empty store and every entry of the hashes column has been compacted, the
/// value under each hash that a sketch holds is a color, and the colors
/// column holds under that color the set of the datasets whose sketch holds
/// the hash. A hash that no sketch holds has no value.
///
/// This is stated for a corpus without collisions: no two of the sets that
/// are given a color share their color.
pub proof fn lemma_color_index_compacted(
    sigs: Seq<(String, Signature)>,
    template: KmerMinHash,
    threshold: u64,
    save_paths: bool,
    entries: Seq<(Seq<u8>, Seq<u8>)>,
)
    requires
        sigs.len() <= u64::MAX,
        color_index_outcome(sigs, template, threshold, save_paths) is Ok,
        collision_free(corpus_of(sigs, template)),
        snapshot(
            entries,
            Store::empty().apply_all(
                color_index_outcome(sigs, template, threshold, save_paths)->Ok_0,
            ).hashes,
        ),
    ensures
        recoloring_all(entries) is Some,
        forall|hash: u64|
            {
                let built = Store::empty().apply_all(
                    color_index_outcome(sigs, template, threshold, save_paths)->Ok_0,
                );
                let store = built.apply_all(recoloring_all(entries)->0);
                let datasets = #[trigger] posted(corpus_of(sigs, template), hash);
                if datasets == Set::<u64>::empty() {
                    lookup(store.hashes, key_of(hash)) is None
                } else {
                    &&& lookup(store.hashes, key_of(hash)) == Some(key_of(color_of(datasets)))
                    &&& lookup(store.colors, key_of(color_of(datasets))) == Some(
                        encoding(datasets),
                    )
                }
            },
{
    let corpus = corpus_of(sigs, template);
    let built = Store::empty().apply_all(
        color_index_outcome(sigs, template, threshold, save_paths)->Ok_0,
    );
    lemma_color_index_built(sigs, corpus, template, threshold, save_paths);
    lemma_compaction(built, corpus, entries, entries.len() as int);
    assert(entries.take(entries.len() as int) == entries);
    let store = built.apply_all(recoloring_all(entries)->0);
    assert forall|hash: u64|
        {
            let datasets = #[trigger] posted(corpus, hash);
            if datasets == Set::<u64>::empty() {
                lookup(store.hashes, key_of(hash)) is None
            } else {
                &&& lookup(store.hashes, key_of(hash)) == Some(key_of(color_of(datasets)))
                &&& lookup(store.colors, key_of(color_of(datasets))) == Some(encoding(datasets))
            }
        } by {
        let datasets = posted(corpus, hash);
        let key = key_of(hash);
        assert(lookup(built.hashes, key) == posting_value(datasets));
        if datasets != Set::<u64>::empty() {
            let i = choose|i: int| 0 <= i < entries.len() && (#[trigger] entries[i]).0 == key;
            assert(entries[i].1 == encoding(datasets));
            lemma_decoding_of_encoding(datasets);
            assert(relevant(corpus, datasets));
            lemma_colored_lookup(store.colors, corpus, datasets);
        }
    }
}

/// The set of datasets that a color index holds for a key of the hashes
/// column: what the colors column holds under the color found there.
pub open spec fn colored_lookup(store: Store, key: Seq<u8>) -> Option<Seq<u8>> {
    match lookup(store.hashes, key) {
        Some(color) => lookup(store.colors, color),
        None => None,
    }
}

/// Law of the two indexes: built from the same signatures, a plain index and
/// a compacted color index hold the same set of datasets for every hash, so a
/// query is counted alike by both. Stated, as the law of the color index,
/// for a corpus without collisions.
pub proof fn lemma_color_index_agrees(
    sigs: Seq<(String, Signature)>,
    template: KmerMinHash,
    threshold: u64,
    save_paths: bool,
    entries: Seq<(Seq<u8>, Seq<u8>)>,
    hash: u64,
)
    requires
        sigs.len() <= u64::MAX,
        index_outcome(sigs, template, threshold, save_paths) is Ok,
        color_index_outcome(sigs, template, threshold, save_paths) is Ok,
        collision_free(corpus_of(sigs, template)),
        snapshot(
            entries,
            Store::empty().apply_all(
                color_index_outcome(sigs, template, threshold, save_paths)->Ok_0,
            ).hashes,
        ),
    ensures
        recoloring_all(entries) is Some,
        colored_lookup(
            Store::empty().apply_all(
                color_index_outcome(sigs, template, threshold, save_paths)->Ok_0,
            ).apply_all(recoloring_all(entries)->0),
            key_of(hash),
        ) == lookup(
            Store::empty().apply_all(
                index_outcome(sigs, template, threshold, save_paths)->Ok_0,
            ).hashes,
            key_of(hash),
        ),
{
    lemma_color_index_compacted(sigs, template, threshold, save_paths, entries);
    lemma_index_postings(sigs, template, threshold, save_paths);
    let corpus = corpus_of(sigs, template);
    let plain = Store::empty().apply_all(
        index_outcome(sigs, template, threshold, save_paths)->Ok_0,
    );
    assert(lookup(plain.hashes, key_of(hash)) == posting_value(posted(corpus, hash)));
}

} // verus!
