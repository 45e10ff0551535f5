//! Counts of how many query hashes each dataset shares.

use vstd::prelude::*;
use crate::datasets::{DatasetID, Datasets};
use crate::encoding::is_encoding;
use crate::error::Error;
use crate::merge::members_in;

verus! {

/// The counter of `counter`'s crate, declared so that it can be carried
/// through verified code; nothing inside it is visible to the proofs.
#[verifier::external_type_specification]
#[verifier::external_body]
#[verifier::reject_recursive_types(T)]
#[verifier::reject_recursive_types(N)]
pub struct ExCounter<T: std::hash::Hash + Eq, N>(counter::Counter<T, N>);

/// A multiset of dataset identifiers.
pub type SigCounter = counter::Counter<DatasetID, usize>;

/// The count that a counter holds for each identifier it has an entry for.
pub uninterp spec fn counts(tally: counter::Counter<u64, usize>) -> Map<u64, usize>;

/// The counts of a counter without entries.
pub open spec fn no_counts() -> Map<u64, usize> {
    Map::empty()
}

/// The counts after one more occurrence of `id`.
pub open spec fn bumped(m: Map<u64, usize>, id: u64) -> Map<u64, usize> {
    if m.dom().contains(id) {
        m.insert(id, (m[id] + 1) as usize)
    } else {
        m.insert(id, 1)
    }
}

/// `ranking` lists the entries of `m`, each once: the larger count first,
/// and of two equal counts the smaller identifier first.
pub open spec fn ranks(ranking: Seq<(u64, usize)>, m: Map<u64, usize>) -> bool {
    &&& forall|i: int|
        0 <= i < ranking.len() ==> m.dom().contains((#[trigger] ranking[i]).0) && m[ranking[i].0]
            == ranking[i].1
    &&& forall|id: u64| #[trigger]
        m.dom().contains(id) ==> exists|i: int| 0 <= i < ranking.len() && (#[trigger] ranking[i]).0 == id
    &&& forall|i: int, j: int|
        0 <= i < j < ranking.len() ==> {
            let a = #[trigger] ranking[i];
            let b = #[trigger] ranking[j];
            a.1 > b.1 || (a.1 == b.1 && a.0 < b.0)
        }
}

/// `counter::Counter::new`.
///
/// Claimed of it: the new counter has no entry.
#[verifier::external_body]
pub(crate) fn counter_new() -> (fresh: SigCounter)
    ensures
        counts(fresh) == no_counts(),
{
    counter::Counter::new()
}

/// `counter::Counter::update` with the one item `id`.
///
/// Claimed of it: the count of `id` goes up by one, from zero if the counter
/// had no entry for it, and no other entry changes. The addition would
/// overflow at the largest count, which `requires` leaves out.
#[verifier::external_body]
pub(crate) fn counter_add(tally: &mut SigCounter, id: DatasetID)
    requires
        counts(*old(tally)).dom().contains(id) ==> counts(*old(tally))[id] < usize::MAX,
    ensures
        counts(*final(tally)) == bumped(counts(*old(tally)), id),
{
    tally.update([id]);
}

/// `counter::Counter::most_common_ordered`.
///
/// Claimed of it: the result holds each entry of the counter once, sorted by
/// falling count, and by rising identifier where the counts are equal.
#[verifier::external_body]
pub(crate) fn counter_most_common(tally: &SigCounter) -> (ranking: Vec<(DatasetID, usize)>)
    ensures
        ranks(ranking@, counts(*tally)),
{
    tally.most_common_ordered()
}

/// How many of the sets hold `id`.
pub open spec fn hits(sets: Seq<Set<u64>>, id: u64) -> nat
    decreases sets.len(),
{
    if sets.len() == 0 {
        0
    } else {
        hits(sets.drop_last(), id) + if sets.last().contains(id) {
            1nat
        } else {
            0nat
        }
    }
}

/// The counts of a list of sets: for each identifier that one of the sets
/// holds, the number of the sets that hold it.
pub open spec fn tally(sets: Seq<Set<u64>>) -> Map<u64, usize> {
    Map::new(|id: u64| hits(sets, id) > 0, |id: u64| hits(sets, id) as usize)
}

/// The counts after one more occurrence of each identifier of `ids`.
pub open spec fn bumped_all(m: Map<u64, usize>, ids: Seq<u64>) -> Map<u64, usize>
    decreases ids.len(),
{
    if ids.len() == 0 {
        m
    } else {
        bumped(bumped_all(m, ids.drop_last()), ids.last())
    }
}

/// The count of `id`, zero where there is no entry for it.
pub open spec fn count_of(m: Map<u64, usize>, id: u64) -> nat {
    if m.dom().contains(id) {
        m[id] as nat
    } else {
        0
    }
}

/// The sets that the fetched values encode; a key without a value gives the
/// empty set.
pub open spec fn fetched_sets(fetched: Seq<Option<Vec<u8>>>) -> Seq<Set<u64>> {
    Seq::new(
        fetched.len(),
        |i: int|
            match fetched[i] {
                Some(bytes) => members_in(bytes@),
                None => Set::empty(),
            },
    )
}

/// Every fetched value is the encoding of a set.
pub open spec fn all_fetched_decode(fetched: Seq<Option<Vec<u8>>>) -> bool {
    forall|i: int|
        0 <= i < fetched.len() ==> ((#[trigger] fetched[i]) matches Some(bytes) ==> is_encoding(
            bytes@,
        ))
}

/// No more sets hold an identifier than there are sets.
pub proof fn lemma_hits_bound(sets: Seq<Set<u64>>, id: u64)
    ensures
        hits(sets, id) <= sets.len(),
    decreases sets.len(),
{
    if sets.len() > 0 {
        lemma_hits_bound(sets.drop_last(), id);
    }
}

/// An identifier is counted exactly when one of the sets holds it.
pub proof fn lemma_hits_positive(sets: Seq<Set<u64>>, id: u64)
    ensures
        hits(sets, id) > 0 <==> exists|i: int| 0 <= i < sets.len() && (#[trigger] sets[i]).contains(id),
    decreases sets.len(),
{
    if sets.len() > 0 {
        let shorter = sets.drop_last();
        lemma_hits_positive(shorter, id);
        if hits(sets, id) > 0 {
            if sets.last().contains(id) {
                assert(sets[sets.len() - 1].contains(id));
            } else {
                let i = choose|i: int| 0 <= i < shorter.len() && (#[trigger] shorter[i]).contains(id);
                assert(sets[i].contains(id));
            }
        }
        if exists|i: int| 0 <= i < sets.len() && (#[trigger] sets[i]).contains(id) {
            let i = choose|i: int| 0 <= i < sets.len() && (#[trigger] sets[i]).contains(id);
            if i < shorter.len() {
                assert(shorter[i].contains(id));
            }
        }
    }
}

/// What counting each identifier of a list once more does, for a list
/// without repetition and counts that have room.
pub proof fn lemma_bumped_all(m: Map<u64, usize>, ids: Seq<u64>)
    requires
        ids.no_duplicates(),
        forall|id: u64| #[trigger] count_of(m, id) < usize::MAX,
    ensures
        forall|id: u64| #[trigger]
            bumped_all(m, ids).dom().contains(id) <==> (m.dom().contains(id) || ids.contains(id)),
        forall|id: u64| #[trigger]
            count_of(bumped_all(m, ids), id) == count_of(m, id) + if ids.contains(id) {
                1nat
            } else {
                0nat
            },
    decreases ids.len(),
{
    if ids.len() > 0 {
        let shorter = ids.drop_last();
        let last = ids.last();
        lemma_bumped_all(m, shorter);
        let mid = bumped_all(m, shorter);
        assert(!shorter.contains(last)) by {
            if shorter.contains(last) {
                let k = choose|k: int| 0 <= k < shorter.len() && shorter[k] == last;
                assert(ids[k] == ids[ids.len() - 1]);
            }
        }
        assert(count_of(mid, last) == count_of(m, last));
        assert forall|id: u64| #[trigger]
            bumped_all(m, ids).dom().contains(id) <==> (m.dom().contains(id) || ids.contains(
                id,
            )) by {
            assert(mid.dom().contains(id) <==> (m.dom().contains(id) || shorter.contains(id)));
            if shorter.contains(id) {
                let k = choose|k: int| 0 <= k < shorter.len() && shorter[k] == id;
                assert(ids[k] == id);
            }
            if ids.contains(id) && id != last {
                let k = choose|k: int| 0 <= k < ids.len() && ids[k] == id;
                assert(shorter[k] == id);
            }
            if id == last {
                assert(ids[ids.len() - 1] == id);
            }
        }
        assert forall|id: u64| #[trigger]
            count_of(bumped_all(m, ids), id) == count_of(m, id) + if ids.contains(id) {
                1nat
            } else {
                0nat
            } by {
            assert(count_of(mid, id) == count_of(m, id) + if shorter.contains(id) {
                1nat
            } else {
                0nat
            });
            if shorter.contains(id) {
                let k = choose|k: int| 0 <= k < shorter.len() && shorter[k] == id;
                assert(ids[k] == id);
            }
            if ids.contains(id) && id != last {
                let k = choose|k: int| 0 <= k < ids.len() && ids[k] == id;
                assert(shorter[k] == id);
            }
            if id == last {
                assert(ids[ids.len() - 1] == id);
            }
        }
    }
}

/// Counting the members of one more set, each once, gives the counts of the
/// list with that set.
pub proof fn lemma_tally_push(sets: Seq<Set<u64>>, ids: Seq<u64>)
    requires
        ids.no_duplicates(),
        sets.len() < usize::MAX,
    ensures
        bumped_all(tally(sets), ids) == tally(sets.push(ids.to_set())),
{
    let m = tally(sets);
    let longer = sets.push(ids.to_set());
    assert forall|id: u64| #[trigger] count_of(m, id) < usize::MAX by {
        lemma_hits_bound(sets, id);
    }
    lemma_bumped_all(m, ids);
    assert(longer.drop_last() == sets);
    assert(bumped_all(m, ids) =~= tally(longer)) by {
        assert forall|id: u64|
            bumped_all(m, ids).dom().contains(id) <==> tally(longer).dom().contains(id) by {
            assert(bumped_all(m, ids).dom().contains(id) <==> (m.dom().contains(id)
                || ids.contains(id)));
        }
        assert forall|id: u64| bumped_all(m, ids).dom().contains(id) implies bumped_all(m, ids)[id]
            == tally(longer)[id] by {
            lemma_hits_bound(sets, id);
            assert(count_of(bumped_all(m, ids), id) == count_of(m, id) + if ids.contains(id) {
                1nat
            } else {
                0nat
            });
        }
    }
}

/// Counts, for each dataset, how many of the fetched postings hold it. A key
/// that had no value counts for nothing.
///
/// `DeserializationFailure` exactly when a value is the encoding of no set.
pub fn tally_postings(fetched: &Vec<Option<Vec<u8>>>) -> (tallied: Result<SigCounter, Error>)
    ensures
        tallied is Ok <==> all_fetched_decode(fetched@),
        tallied matches Ok(c) ==> counts(c) == tally(fetched_sets(fetched@)),
        tallied matches Err(e) ==> e == Error::DeserializationFailure,
{
    let mut tallied = counter_new();
    let ghost sets = fetched_sets(fetched@);
    let mut i: usize = 0;
    assert(counts(tallied) =~= tally(sets.take(0)));
    while i < fetched.len()
        invariant
            i <= fetched.len(),
            sets == fetched_sets(fetched@),
            counts(tallied) == tally(sets.take(i as int)),
            forall|k: int|
                0 <= k < i ==> ((#[trigger] fetched@[k]) matches Some(bytes) ==> is_encoding(bytes@)),
        decreases fetched.len() - i,
    {
        let ghost done = sets.take(i as int);
        assert(done.len() == i);
        match &fetched[i] {
            Some(bytes) => {
                match Datasets::from_slice(bytes.as_slice()) {
                    Some(datasets) => {
                        let ids = datasets.to_vec();
                        proof {
                            crate::ordered::lemma_ascending_len(datasets@);
                            assert(ids@.to_set() == sets[i as int]);
                        }
                        count_ids(&mut tallied, &ids, Ghost(done));
                        proof {
                            assert(sets.take(i + 1) == done.push(sets[i as int]));
                        }
                    },
                    None => {
                        return Err(Error::DeserializationFailure);
                    },
                }
            },
            None => {
                proof {
                    lemma_tally_push(done, Seq::<u64>::empty());
                    assert(bumped_all(tally(done), Seq::<u64>::empty()) == tally(done));
                    assert(Seq::<u64>::empty().to_set() =~= Set::<u64>::empty());
                    assert(sets.take(i + 1) == done.push(sets[i as int]));
                }
            },
        }
        i += 1;
    }
    assert(sets.take(i as int) == sets);
    Ok(tallied)
}

/// The entries of `m` whose count is `threshold` or more.
pub open spec fn at_least(m: Map<u64, usize>, threshold: usize) -> Map<u64, usize> {
    Map::new(|id: u64| m.dom().contains(id) && m[id] >= threshold, |id: u64| m[id])
}

/// A map has one ranking only.
pub proof fn lemma_ranks_unique(a: Seq<(u64, usize)>, b: Seq<(u64, usize)>, m: Map<u64, usize>)
    requires
        ranks(a, m),
        ranks(b, m),
    ensures
        a == b,
    decreases a.len(),
{
    if a.len() == 0 {
        if b.len() > 0 {
            assert(m.dom().contains(b[0].0));
        }
        assert(a =~= b);
    } else {
        assert(m.dom().contains(a[0].0));
        assert(b.len() > 0);
        let i = choose|i: int| 0 <= i < b.len() && (#[trigger] b[i]).0 == a[0].0;
        assert(m.dom().contains(b[0].0));
        let j = choose|j: int| 0 <= j < a.len() && (#[trigger] a[j]).0 == b[0].0;
        assert(a[0] == b[i]);
        assert(b[0] == a[j]);
        if i > 0 {
            let x = b[0];
            let y = b[i];
            assert(x.1 > y.1 || (x.1 == y.1 && x.0 < y.0));
            if j > 0 {
                let u = a[0];
                let v = a[j];
                assert(u.1 > v.1 || (u.1 == v.1 && u.0 < v.0));
            }
        }
        assert(a[0] == b[0]);
        let first = a[0];
        let rest = m.remove(first.0);
        let a1 = a.drop_first();
        let b1 = b.drop_first();
        assert(ranks(a1, rest)) by {
            lemma_ranks_rest(a, m);
        }
        assert(ranks(b1, rest)) by {
            lemma_ranks_rest(b, m);
        }
        lemma_ranks_unique(a1, b1, rest);
        assert(a =~= seq![first] + a1);
        assert(b =~= seq![first] + b1);
    }
}

/// Behind its first entry, a ranking ranks the map without that entry.
proof fn lemma_ranks_rest(a: Seq<(u64, usize)>, m: Map<u64, usize>)
    requires
        ranks(a, m),
        a.len() > 0,
    ensures
        ranks(a.drop_first(), m.remove(a[0].0)),
{
    let rest = m.remove(a[0].0);
    let a1 = a.drop_first();
    assert forall|i: int| 0 <= i < a1.len() implies rest.dom().contains((#[trigger] a1[i]).0)
        && rest[a1[i].0] == a1[i].1 by {
        let x = a[0];
        let y = a[i + 1];
        assert(a1[i] == y);
        assert(x.1 > y.1 || (x.1 == y.1 && x.0 < y.0));
        assert(m.dom().contains(y.0));
    }
    assert forall|id: u64| #[trigger] rest.dom().contains(id) implies exists|i: int|
        0 <= i < a1.len() && (#[trigger] a1[i]).0 == id by {
        assert(m.dom().contains(id));
        let k = choose|k: int| 0 <= k < a.len() && (#[trigger] a[k]).0 == id;
        assert(k > 0);
        assert(a1[k - 1].0 == id);
    }
    assert forall|i: int, j: int| 0 <= i < j < a1.len() implies {
        let x = #[trigger] a1[i];
        let y = #[trigger] a1[j];
        x.1 > y.1 || (x.1 == y.1 && x.0 < y.0)
    } by {
        let x = a[i + 1];
        let y = a[j + 1];
        assert(x.1 > y.1 || (x.1 == y.1 && x.0 < y.0));
    }
}

/// The datasets whose count is `threshold` or more, each with its count: the
/// larger count first, and of two equal counts the smaller identifier first.
pub fn matches_from_counter(tallied: &SigCounter, threshold: usize) -> (matches: Vec<
    (DatasetID, usize),
>)
    ensures
        ranks(matches@, at_least(counts(*tallied), threshold)),
{
    let ranking = counter_most_common(tallied);
    let ghost m = counts(*tallied);
    let mut matches: Vec<(DatasetID, usize)> = Vec::new();
    let mut i: usize = 0;
    while i < ranking.len() && ranking[i].1 >= threshold
        invariant
            i <= ranking.len(),
            ranks(ranking@, m),
            matches@ == ranking@.take(i as int),
            forall|k: int| 0 <= k < i ==> (#[trigger] ranking@[k]).1 >= threshold,
        decreases ranking.len() - i,
    {
        matches.push(ranking[i]);
        i += 1;
        assert(ranking@.take(i as int) == ranking@.take(i - 1).push(ranking@[i - 1]));
    }
    proof {
        let kept = at_least(m, threshold);
        let r = matches@;
        assert forall|k: int| 0 <= k < r.len() implies kept.dom().contains((#[trigger] r[k]).0)
            && kept[r[k].0] == r[k].1 by {
            assert(r[k] == ranking@[k]);
        }
        assert forall|id: u64| #[trigger] kept.dom().contains(id) implies exists|k: int|
            0 <= k < r.len() && (#[trigger] r[k]).0 == id by {
            let k = choose|k: int| 0 <= k < ranking@.len() && (#[trigger] ranking@[k]).0 == id;
            if k >= i {
                let x = ranking@[i as int];
                let y = ranking@[k];
                if k > i {
                    assert(x.1 > y.1 || (x.1 == y.1 && x.0 < y.0));
                }
                assert(false);
            }
            assert(r[k].0 == id);
        }
        assert forall|a: int, b: int| 0 <= a < b < r.len() implies {
            let x = #[trigger] r[a];
            let y = #[trigger] r[b];
            x.1 > y.1 || (x.1 == y.1 && x.0 < y.0)
        } by {
            let x = ranking@[a];
            let y = ranking@[b];
            assert(x.1 > y.1 || (x.1 == y.1 && x.0 < y.0));
        }
    }
    matches
}

/// Counts each identifier of a list once more: the members of one more set.
pub(crate) fn count_ids(tallied: &mut SigCounter, ids: &Vec<DatasetID>, Ghost(sets): Ghost<Seq<Set<u64>>>)
    requires
        ids@.no_duplicates(),
        sets.len() < usize::MAX,
        counts(*old(tallied)) == tally(sets),
    ensures
        counts(*final(tallied)) == tally(sets.push(ids@.to_set())),
{
    let mut j: usize = 0;
    while j < ids.len()
        invariant
            j <= ids.len(),
            sets.len() < usize::MAX,
            ids@.no_duplicates(),
            counts(*tallied) == bumped_all(tally(sets), ids@.take(j as int)),
        decreases ids.len() - j,
    {
        let id = ids[j];
        proof {
            let m = tally(sets);
            let sofar = ids@.take(j as int);
            assert forall|x: u64| #[trigger] count_of(m, x) < usize::MAX by {
                lemma_hits_bound(sets, x);
            }
            lemma_bumped_all(m, sofar);
            assert(!sofar.contains(id)) by {
                if sofar.contains(id) {
                    let k = choose|k: int| 0 <= k < sofar.len() && sofar[k] == id;
                    assert(ids@[k] == ids@[j as int]);
                }
            }
            assert(count_of(bumped_all(m, sofar), id) == count_of(m, id));
            assert(ids@.take(j + 1).drop_last() == sofar);
            assert(ids@.take(j + 1).last() == id);
        }
        counter_add(tallied, id);
        j += 1;
    }
    proof {
        assert(ids@.take(j as int) == ids@);
        lemma_tally_push(sets, ids@);
    }
}

/// The entry `id` is the best of `m`: no entry has a larger count, and none
/// with the same count has a smaller identifier.
pub open spec fn is_best(m: Map<u64, usize>, id: u64) -> bool {
    &&& m.dom().contains(id)
    &&& forall|other: u64| #[trigger]
        m.dom().contains(other) ==> m[other] < m[id] || (m[other] == m[id] && id <= other)
}

/// The best entry of `m`, if `m` has an entry.
pub open spec fn best(m: Map<u64, usize>) -> Option<(u64, usize)> {
    if exists|id: u64| is_best(m, id) {
        let id = choose|id: u64| is_best(m, id);
        Some((id, m[id]))
    } else {
        None
    }
}

/// A map has one best entry at most.
pub proof fn lemma_best_unique(m: Map<u64, usize>, a: u64, b: u64)
    requires
        is_best(m, a),
        is_best(m, b),
    ensures
        a == b,
{
    assert(m.dom().contains(a));
    assert(m.dom().contains(b));
}

/// The first entry of a ranking is the best entry; a map without entries
/// has an empty ranking and no best entry.
pub proof fn lemma_ranking_best(ranking: Seq<(u64, usize)>, m: Map<u64, usize>)
    requires
        ranks(ranking, m),
    ensures
        ranking.len() > 0 ==> best(m) == Some(ranking[0]),
        ranking.len() == 0 ==> best(m) is None && m.dom() == Set::<u64>::empty(),
{
    if ranking.len() > 0 {
        let top = ranking[0];
        assert(is_best(m, top.0)) by {
            assert forall|other: u64| #[trigger] m.dom().contains(other) implies m[other]
                < m[top.0] || (m[other] == m[top.0] && top.0 <= other) by {
                let k = choose|k: int| 0 <= k < ranking.len() && (#[trigger] ranking[k]).0 == other;
                if k > 0 {
                    let x = ranking[0];
                    let y = ranking[k];
                    assert(x.1 > y.1 || (x.1 == y.1 && x.0 < y.0));
                }
            }
        }
        let id = choose|id: u64| is_best(m, id);
        lemma_best_unique(m, id, top.0);
    } else {
        assert forall|id: u64| !is_best(m, id) by {
            if m.dom().contains(id) {
                let k = choose|k: int| 0 <= k < ranking.len() && (#[trigger] ranking[k]).0 == id;
            }
        }
        assert(m.dom() =~= Set::<u64>::empty()) by {
            assert forall|id: u64| !m.dom().contains(id) by {
                if m.dom().contains(id) {
                    let k = choose|k: int|
                        0 <= k < ranking.len() && (#[trigger] ranking[k]).0 == id;
                }
            }
        }
    }
}

/// A ranking has one entry for each entry of its map.
pub proof fn lemma_ranking_len(ranking: Seq<(u64, usize)>, m: Map<u64, usize>)
    requires
        ranks(ranking, m),
    ensures
        m.dom().finite(),
        m.dom().len() == ranking.len(),
    decreases ranking.len(),
{
    if ranking.len() == 0 {
        lemma_ranking_best(ranking, m);
    } else {
        let first = ranking[0];
        lemma_ranks_rest(ranking, m);
        lemma_ranking_len(ranking.drop_first(), m.remove(first.0));
        assert(m.dom().contains(first.0));
        assert(m.remove(first.0).dom() == m.dom().remove(first.0));
        assert(m.dom() =~= m.dom().remove(first.0).insert(first.0));
    }
}

} // verus!
