//! Strictly ascending sequences of identifiers, and the ascending listing of a set.

use vstd::prelude::*;
use vstd::std_specs::btree::increasing_seq;
use vstd::std_specs::cmp::OrdSpec;
use vstd::std_specs::iter::IteratorSpec;
use std::collections::BTreeSet;

verus! {

/// Every element is smaller than each element after it.
pub open spec fn strictly_ascending(q: Seq<u64>) -> bool {
    forall|i: int, j: int| 0 <= i < j < q.len() ==> q[i] < q[j]
}

/// `q` lists the members of `s` in ascending order, each once.
pub open spec fn lists(q: Seq<u64>, s: Set<u64>) -> bool {
    strictly_ascending(q) && q.to_set() == s
}

/// The members of `s` in ascending order.
pub closed spec fn ascending(s: Set<u64>) -> Seq<u64> {
    choose|q: Seq<u64>| lists(q, s)
}

/// The members of `s` below `hi`, smallest first.
spec fn listing_below(s: Set<u64>, hi: nat) -> Seq<u64>
    decreases hi,
{
    if hi == 0 {
        Seq::empty()
    } else {
        let rest = listing_below(s, (hi - 1) as nat);
        if hi - 1 <= u64::MAX && s.contains((hi - 1) as u64) {
            rest.push((hi - 1) as u64)
        } else {
            rest
        }
    }
}

/// The listing below a bound ascends and holds the members below the bound.
proof fn lemma_listing_below(s: Set<u64>, hi: nat)
    ensures
        strictly_ascending(listing_below(s, hi)),
        forall|x: u64|
            #![trigger listing_below(s, hi).contains(x)]
            #![trigger s.contains(x)]
            listing_below(s, hi).contains(x) <==> (s.contains(x) && x < hi),
    decreases hi,
{
    if hi > 0 {
        let rest = listing_below(s, (hi - 1) as nat);
        lemma_listing_below(s, (hi - 1) as nat);
        let q = listing_below(s, hi);
        if hi - 1 <= u64::MAX && s.contains((hi - 1) as u64) {
            let top = (hi - 1) as u64;
            assert(q == rest.push(top));
            assert forall|i: int, j: int| 0 <= i < j < q.len() implies q[i] < q[j] by {
                if j == rest.len() {
                    assert(q[i] == rest[i]);
                    assert(rest.contains(rest[i]));
                    assert(rest[i] < hi - 1);
                } else {
                    assert(q[i] == rest[i] && q[j] == rest[j]);
                }
            }
            assert forall|x: u64| q.contains(x) <==> (s.contains(x) && x < hi) by {
                if q.contains(x) {
                    let k = choose|k: int| 0 <= k < q.len() && q[k] == x;
                    if k < rest.len() {
                        assert(rest[k] == x);
                        assert(rest.contains(x));
                    }
                }
                if s.contains(x) && x < hi {
                    if x == top {
                        assert(q[rest.len() as int] == x);
                    } else {
                        assert(rest.contains(x));
                        let k = choose|k: int| 0 <= k < rest.len() && rest[k] == x;
                        assert(q[k] == x);
                    }
                }
            }
        } else {
            assert(q == rest);
            assert forall|x: u64| q.contains(x) <==> (s.contains(x) && x < hi) by {
                if s.contains(x) && x < hi {
                    assert(x as int != hi - 1);
                    assert(x < hi - 1);
                    assert(rest.contains(x));
                }
                if q.contains(x) {
                    assert(rest.contains(x));
                }
            }
        }
    }
}

/// Every set of identifiers has an ascending listing.
pub proof fn lemma_ascending_lists(s: Set<u64>)
    ensures
        lists(ascending(s), s),
{
    let bound: nat = (u64::MAX + 1) as nat;
    let q = listing_below(s, bound);
    lemma_listing_below(s, bound);
    assert(q.to_set() =~= s) by {
        assert forall|x: u64| q.to_set().contains(x) <==> s.contains(x) by {
            assert(q.to_set().contains(x) <==> q.contains(x));
        }
    }
    assert(lists(q, s));
}

/// Two strictly ascending sequences with the same elements are the same sequence.
pub proof fn lemma_ascending_unique(a: Seq<u64>, b: Seq<u64>)
    requires
        strictly_ascending(a),
        strictly_ascending(b),
        a.to_set() == b.to_set(),
    ensures
        a == b,
    decreases a.len(),
{
    if a.len() == 0 {
        if b.len() > 0 {
            assert(b.to_set().contains(b[0]));
            assert(a.to_set().contains(b[0]));
        }
        assert(a =~= b);
    } else {
        let la = a.last();
        assert(a.to_set().contains(la));
        assert(b.to_set().contains(la));
        assert(b.len() > 0);
        let lb = b.last();
        assert(b.to_set().contains(lb));
        assert(a.to_set().contains(lb));
        let i = choose|i: int| 0 <= i < a.len() && a[i] == lb;
        let j = choose|j: int| 0 <= j < b.len() && b[j] == la;
        assert(la == lb);
        let a0 = a.drop_last();
        let b0 = b.drop_last();
        assert(a0.to_set() =~= b0.to_set()) by {
            assert forall|x: u64| a0.to_set().contains(x) <==> b0.to_set().contains(x) by {
                if a0.to_set().contains(x) {
                    let k = choose|k: int| 0 <= k < a0.len() && a0[k] == x;
                    assert(a[k] == x && x < la);
                    assert(a.to_set().contains(x));
                    assert(b.to_set().contains(x));
                    let m = choose|m: int| 0 <= m < b.len() && b[m] == x;
                    assert(m < b.len() - 1);
                    assert(b0[m] == x);
                }
                if b0.to_set().contains(x) {
                    let k = choose|k: int| 0 <= k < b0.len() && b0[k] == x;
                    assert(b[k] == x && x < lb);
                    assert(b.to_set().contains(x));
                    assert(a.to_set().contains(x));
                    let m = choose|m: int| 0 <= m < a.len() && a[m] == x;
                    assert(m < a.len() - 1);
                    assert(a0[m] == x);
                }
            }
        }
        lemma_ascending_unique(a0, b0);
        assert(a =~= a0.push(la));
        assert(b =~= b0.push(lb));
    }
}

/// A strictly ascending sequence is the ascending listing of its own elements.
pub proof fn lemma_ascending_of_listing(q: Seq<u64>)
    requires
        strictly_ascending(q),
    ensures
        ascending(q.to_set()) == q,
{
    lemma_ascending_lists(q.to_set());
    lemma_ascending_unique(ascending(q.to_set()), q);
}

/// The ascending listing has one entry for each member.
pub proof fn lemma_ascending_len(s: Set<u64>)
    ensures
        s.finite(),
        ascending(s).len() == s.len(),
        ascending(s).no_duplicates(),
{
    lemma_ascending_lists(s);
    let q = ascending(s);
    assert(q.no_duplicates()) by {
        assert forall|i: int, j: int| 0 <= i < q.len() && 0 <= j < q.len() && i != j implies q[i]
            != q[j] by {
            if i < j {
                assert(q[i] < q[j]);
            } else {
                assert(q[j] < q[i]);
            }
        }
    }
    q.unique_seq_to_set();
}

/// Whether `a` comes before `b` in the order of the keys.
spec fn precedes<K: Ord>(a: K, b: K) -> bool {
    a.cmp_spec(&b) is Less
}

/// An iteration in increasing key order yields a strictly ascending sequence.
proof fn lemma_increasing_is_ascending(all: Seq<&u64>)
    requires
        increasing_seq(all),
    ensures
        strictly_ascending(all.unref()),
{
    broadcast use vstd::laws_cmp::group_laws_cmp;
    vstd::std_specs::btree::axiom_increasing_seq_meaning::<&u64>(all);
    let q = all.unref();
    assert forall|i: int, j: int| 0 <= i < j < q.len() implies q[i] < q[j] by {
        assert(precedes::<&u64>(all[i], all[j]));
    }
}

/// The members of an ordered set, smallest first.
pub fn sorted_members(set: &BTreeSet<u64>) -> (out: Vec<u64>)
    ensures
        out@ == ascending(set@),
        lists(out@, set@),
{
    let mut out: Vec<u64> = Vec::new();
    let ghost all = set.iter().remaining();
    for x in it: set.iter()
        invariant
            it.seq() == all,
            out@ == it.seq().take(it.index()).unref(),
    {
        out.push(*x);
    }
    proof {
        vstd::std_specs::btree::axiom_spec_btree_keys_iter(set);
        assert(all.take(all.len() as int) == all);
        assert(out@ == all.unref());
        lemma_increasing_is_ascending(all);
        lemma_ascending_of_listing(out@);
    }
    out
}

} // verus!
