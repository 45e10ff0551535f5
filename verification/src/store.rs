//! The writes that the index asks of its key-value store, and what they do to it.
//!
//! The store itself is not part of this library. The index hands out its
//! writes as values, and `Store` states what a store that honours them holds
//! afterwards: a `Put` replaces the value under a key, an `Emplace` sets it
//! where the key is free, and a `Merge` folds an operand into it with the
//! merge operator of `crate::merge`. Flushing and compacting change nothing
//! of what the store holds.

use vstd::prelude::*;
use crate::merge::merged;

verus! {

/// Name of the column family that maps a hash to its posting.
pub const HASHES: &'static str = "hashes";

/// Name of the column family that maps a dataset to its signature.
pub const SIGS: &'static str = "signatures";

/// Name of the column family that maps a color to its set of datasets.
pub const COLORS: &'static str = "colors";

/// A column family of the store.
#[derive(Debug, Clone, Copy, PartialEq, Eq, Structural)]
pub enum Family {
    Hashes,
    Colors,
    Signatures,
}

/// One request to the store.
#[derive(Debug, Clone, PartialEq, Eq)]
pub enum StoreOp {
    /// Set the value under `key`.
    Put { family: Family, key: Vec<u8>, value: Vec<u8> },
    /// Set the value under `key` unless the key has one.
    Emplace { family: Family, key: Vec<u8>, value: Vec<u8> },
    /// Fold `operand` into the value under `key` with the merge operator.
    Merge { family: Family, key: Vec<u8>, operand: Vec<u8> },
    /// Write the log of pending writes to disk.
    FlushLog,
    /// Write the pending writes of a column family to disk.
    Flush { family: Family },
    /// Compact the whole key range of a column family.
    CompactRange { family: Family },
}

/// A request to the store, as the bytes it carries.
pub enum Request {
    Put { family: Family, key: Seq<u8>, value: Seq<u8> },
    Emplace { family: Family, key: Seq<u8>, value: Seq<u8> },
    Merge { family: Family, key: Seq<u8>, operand: Seq<u8> },
    FlushLog,
    Flush { family: Family },
    CompactRange { family: Family },
}

impl View for StoreOp {
    type V = Request;

    open spec fn view(&self) -> Request {
        match self {
            StoreOp::Put { family, key, value } => Request::Put {
                family: *family,
                key: key@,
                value: value@,
            },
            StoreOp::Emplace { family, key, value } => Request::Emplace {
                family: *family,
                key: key@,
                value: value@,
            },
            StoreOp::Merge { family, key, operand } => Request::Merge {
                family: *family,
                key: key@,
                operand: operand@,
            },
            StoreOp::FlushLog => Request::FlushLog,
            StoreOp::Flush { family } => Request::Flush { family: *family },
            StoreOp::CompactRange { family } => Request::CompactRange { family: *family },
        }
    }
}

/// The requests that a list of operations carries.
pub open spec fn requests(ops: Seq<StoreOp>) -> Seq<Request> {
    Seq::new(ops.len(), |i: int| ops[i]@)
}

/// What a column family holds: a value under each key that has one.
pub type Column = Map<Seq<u8>, Seq<u8>>;

/// What the store holds.
pub struct Store {
    pub hashes: Column,
    pub colors: Column,
    pub signatures: Column,
}

/// The value under `key`, if the key has one.
pub open spec fn lookup(column: Column, key: Seq<u8>) -> Option<Seq<u8>> {
    if column.dom().contains(key) {
        Some(column[key])
    } else {
        None
    }
}

/// The column after `operand` was merged under `key`. A merge that the
/// operator refuses leaves the column as it was.
pub open spec fn merge_into(column: Column, key: Seq<u8>, operand: Seq<u8>) -> Column {
    match merged(lookup(column, key), seq![operand]) {
        Some(value) => column.insert(key, value),
        None => column,
    }
}

impl Store {
    /// The store that holds nothing.
    pub open spec fn empty() -> Store {
        Store { hashes: Map::empty(), colors: Map::empty(), signatures: Map::empty() }
    }

    /// The column of a family.
    pub open spec fn column(self, family: Family) -> Column {
        match family {
            Family::Hashes => self.hashes,
            Family::Colors => self.colors,
            Family::Signatures => self.signatures,
        }
    }

    /// The store with one column replaced.
    pub open spec fn with_column(self, family: Family, column: Column) -> Store {
        match family {
            Family::Hashes => Store { hashes: column, ..self },
            Family::Colors => Store { colors: column, ..self },
            Family::Signatures => Store { signatures: column, ..self },
        }
    }

    /// The store after one request.
    pub open spec fn apply(self, request: Request) -> Store {
        match request {
            Request::Put { family, key, value } => self.with_column(
                family,
                self.column(family).insert(key, value),
            ),
            Request::Emplace { family, key, value } => if self.column(family).dom().contains(key) {
                self
            } else {
                self.with_column(family, self.column(family).insert(key, value))
            },
            Request::Merge { family, key, operand } => self.with_column(
                family,
                merge_into(self.column(family), key, operand),
            ),
            Request::FlushLog => self,
            Request::Flush { family } => self,
            Request::CompactRange { family } => self,
        }
    }

    /// The store after a list of requests, the first applied first.
    pub open spec fn apply_all(self, requests: Seq<Request>) -> Store
        decreases requests.len(),
    {
        if requests.len() == 0 {
            self
        } else {
            self.apply_all(requests.drop_last()).apply(requests.last())
        }
    }
}

/// Applying two lists one after the other is applying their concatenation.
pub proof fn lemma_apply_all_concat(store: Store, a: Seq<Request>, b: Seq<Request>)
    ensures
        store.apply_all(a + b) == store.apply_all(a).apply_all(b),
    decreases b.len(),
{
    if b.len() == 0 {
        assert(a + b == a);
    } else {
        assert((a + b).drop_last() == a + b.drop_last());
        assert((a + b).last() == b.last());
        lemma_apply_all_concat(store, a, b.drop_last());
    }
}

/// Applying a list of one request is applying the request.
pub proof fn lemma_apply_one(store: Store, request: Request)
    ensures
        store.apply_all(seq![request]) == store.apply(request),
{
    let one = seq![request];
    assert(one.drop_last() == Seq::<Request>::empty());
    assert(one.last() == request);
    assert(store.apply_all(Seq::<Request>::empty()) == store);
}

/// Applying a list of two requests is applying the first and then the second.
pub proof fn lemma_apply_two(store: Store, first: Request, second: Request)
    ensures
        store.apply_all(seq![first, second]) == store.apply(first).apply(second),
{
    let two = seq![first, second];
    assert(two.drop_last() == seq![first]);
    assert(two.last() == second);
    lemma_apply_one(store, first);
}

impl Family {
    /// The name under which the store knows the column family.
    pub fn name(&self) -> (name: &'static str)
        ensures
            name == match self {
                Family::Hashes => HASHES,
                Family::Colors => COLORS,
                Family::Signatures => SIGS,
            },
    {
        match self {
            Family::Hashes => HASHES,
            Family::Colors => COLORS,
            Family::Signatures => SIGS,
        }
    }
}

} // verus!
