//! Gather: the decomposition of a query into the datasets that cover it.
//!
//! The engine keeps the residual query, the hashes that no emitted match has
//! covered yet, each with the datasets posted under it. A step scores the
//! datasets against the residual and selects the best; the caller fetches the
//! signature of that dataset; the next step intersects it with the residual,
//! emits a match, and takes its hashes off the residual.

use vstd::prelude::*;
use crate::counter::{
    best, count_ids, counter_most_common, counter_new, counts, lemma_ranking_best, tally,
    SigCounter,
};
use crate::datasets::{DatasetID, Datasets};
use crate::encoding::is_encoding;
use crate::error::Error;
use crate::merge::members_in;
use crate::sketch::{
    max_hash_scaled, prepare_query, prepared_error, prepared_view, KmerMinHash, Signature,
};

verus! {

/// One match of a gather.
#[derive(Debug, Clone, PartialEq)]
pub struct GatherResult {
    pub dataset_id: DatasetID,
    pub name: String,
    pub filename: String,
    pub md5: String,
    /// Hashes that the match shares with the residual query.
    pub overlap_size: usize,
    /// Hashes of the residual query before the match was taken off.
    pub residual_before: usize,
    /// Hashes of the residual query after the match was taken off.
    pub residual_after_size: usize,
    /// Hashes of the query that the gather started with.
    pub query_size: usize,
    /// Hashes of the sketch of the match.
    pub match_size: usize,
    /// The overlap in base pairs: the overlap times `scaled`.
    pub intersect_bp: u128,
    /// The residual after the match in base pairs.
    pub remaining_bp: u128,
    /// How many matches were emitted before this one.
    pub gather_result_rank: usize,
}

/// What a step of the gather came to.
#[derive(Debug, Clone, PartialEq)]
pub enum GatherStep {
    /// A match was emitted and its hashes were taken off the residual.
    Emitted(GatherResult),
    /// The dataset added nothing and was set aside.
    Skipped,
    /// The best dataset covers less than the threshold: the gather is over.
    Done,
}

/// The state of a gather.
pub struct GatherEngine {
    pub threshold: usize,
    pub scaled: u64,
    pub query_size: usize,
    /// The residual query: each hash with the datasets posted under it.
    pub left: Vec<(u64, Datasets)>,
    /// The datasets that were emitted or set aside.
    pub done: Datasets,
    pub rank: usize,
}

/// The state of a gather as a value.
pub struct EngineView {
    pub threshold: usize,
    pub scaled: u64,
    pub query_size: usize,
    pub left: Seq<(u64, Set<u64>)>,
    pub done: Set<u64>,
    pub rank: usize,
}

/// One match of a gather as a value.
pub struct ResultView {
    pub dataset_id: u64,
    pub name: Seq<char>,
    pub filename: Seq<char>,
    pub md5: Seq<char>,
    pub overlap_size: usize,
    pub residual_before: usize,
    pub residual_after_size: usize,
    pub query_size: usize,
    pub match_size: usize,
    pub intersect_bp: u128,
    pub remaining_bp: u128,
    pub gather_result_rank: usize,
}

/// What a step of the gather came to, as a value.
pub enum StepView {
    Emitted(ResultView),
    Skipped,
    Done,
}

impl View for GatherResult {
    type V = ResultView;

    open spec fn view(&self) -> ResultView {
        ResultView {
            dataset_id: self.dataset_id,
            name: self.name@,
            filename: self.filename@,
            md5: self.md5@,
            overlap_size: self.overlap_size,
            residual_before: self.residual_before,
            residual_after_size: self.residual_after_size,
            query_size: self.query_size,
            match_size: self.match_size,
            intersect_bp: self.intersect_bp,
            remaining_bp: self.remaining_bp,
            gather_result_rank: self.gather_result_rank,
        }
    }
}

impl View for GatherStep {
    type V = StepView;

    open spec fn view(&self) -> StepView {
        match self {
            GatherStep::Emitted(result) => StepView::Emitted(result@),
            GatherStep::Skipped => StepView::Skipped,
            GatherStep::Done => StepView::Done,
        }
    }
}

/// The hashes with their postings as values.
pub open spec fn left_view(left: Seq<(u64, Datasets)>) -> Seq<(u64, Set<u64>)> {
    Seq::new(left.len(), |i: int| (left[i].0, left[i].1@))
}

impl View for GatherEngine {
    type V = EngineView;

    open spec fn view(&self) -> EngineView {
        EngineView {
            threshold: self.threshold,
            scaled: self.scaled,
            query_size: self.query_size,
            left: left_view(self.left@),
            done: self.done@,
            rank: self.rank,
        }
    }
}

/// For each hash of the residual, the datasets posted under it that were
/// neither emitted nor set aside.
pub open spec fn candidates(engine: EngineView) -> Seq<Set<u64>> {
    Seq::new(engine.left.len(), |i: int| engine.left[i].1.difference(engine.done))
}

/// The score of each dataset: how many hashes of the residual it holds.
pub open spec fn scores(engine: EngineView) -> Map<u64, usize> {
    tally(candidates(engine))
}

/// The dataset that the gather turns to next, with its score: the best
/// score, and of equal scores the smallest identifier. `None` when no dataset
/// is left or the best score is below the threshold.
pub open spec fn selection(engine: EngineView) -> Option<(u64, usize)> {
    match best(scores(engine)) {
        Some((id, score)) => if score >= engine.threshold {
            Some((id, score))
        } else {
            None
        },
        None => None,
    }
}

/// What the residual starts from: each hash of the query with the set that
/// was fetched for it, the empty set where nothing was fetched.
pub open spec fn starting_left(mins: Seq<u64>, fetched: Seq<Option<Vec<u8>>>) -> Seq<
    (u64, Set<u64>),
> {
    Seq::new(
        mins.len(),
        |i: int|
            (
                mins[i],
                match fetched[i] {
                    Some(bytes) => members_in(bytes@),
                    None => Set::empty(),
                },
            ),
    )
}

/// How a gather starts, or why it cannot: `StoreFailure` when the values do
/// not answer the hashes of the query one for one, `DeserializationFailure`
/// when one of them is the encoding of no set.
pub open spec fn starting(
    mins: Seq<u64>,
    fetched: Seq<Option<Vec<u8>>>,
    threshold: usize,
    scaled: u64,
) -> Result<EngineView, Error> {
    if fetched.len() != mins.len() {
        Err(Error::StoreFailure)
    } else if !crate::counter::all_fetched_decode(fetched) {
        Err(Error::DeserializationFailure)
    } else {
        Ok(
            EngineView {
                threshold,
                scaled,
                query_size: mins.len() as usize,
                left: starting_left(mins, fetched),
                done: Set::empty(),
                rank: 0,
            },
        )
    }
}

/// Whether the sketch with the hashes `mins` holds the hash of an entry.
pub open spec fn covered_by(mins: Seq<u64>) -> spec_fn((u64, Set<u64>)) -> bool {
    |entry: (u64, Set<u64>)| mins.contains(entry.0)
}

/// Whether the sketch with the hashes `mins` lacks the hash of an entry.
pub open spec fn missed_by(mins: Seq<u64>) -> spec_fn((u64, Set<u64>)) -> bool {
    |entry: (u64, Set<u64>)| !mins.contains(entry.0)
}

/// The number of hashes of the residual that the sketch holds.
pub open spec fn overlap(left: Seq<(u64, Set<u64>)>, mins: Seq<u64>) -> nat {
    left.filter(covered_by(mins)).len()
}

/// The residual without the hashes that the sketch holds.
pub open spec fn peeled(left: Seq<(u64, Set<u64>)>, mins: Seq<u64>) -> Seq<(u64, Set<u64>)> {
    left.filter(missed_by(mins))
}

/// A number of hashes in base pairs.
pub open spec fn base_pairs(hashes: nat, scaled: u64) -> u128 {
    (hashes * scaled) as u128
}

/// The state with the dataset `id` set aside.
pub open spec fn set_aside(engine: EngineView, id: u64) -> EngineView {
    EngineView { done: engine.done.insert(id), ..engine }
}

/// The signature behind an optional reference.
pub open spec fn fetched_signature(match_sig: Option<&Signature>) -> Option<Signature> {
    match match_sig {
        Some(sig) => Some(*sig),
        None => None,
    }
}

/// What a step with the signature of the selected dataset comes to.
///
/// Without a signature, as for a dataset for which nothing is stored, the
/// dataset is set aside. A signature that cannot be used with the template
/// is an error. Otherwise the sketch is intersected with the residual: an
/// overlap below the threshold ends the gather; an overlap of no hash sets
/// the dataset aside; any other emits a match, takes the hashes of the sketch
/// off the residual, and sets the dataset aside.
pub open spec fn advance_outcome(
    engine: EngineView,
    id: u64,
    match_sig: Option<Signature>,
    template: KmerMinHash,
) -> Result<(EngineView, StepView), Error> {
    match match_sig {
        None => Ok((set_aside(engine, id), StepView::Skipped)),
        Some(sig) => match prepared_view(sig.sketches@, template) {
            None => Err(prepared_error(sig.sketches@, template)->0),
            Some(mh) => {
                let shared = overlap(engine.left, mh.mins);
                let after = peeled(engine.left, mh.mins);
                if shared < engine.threshold {
                    Ok((engine, StepView::Done))
                } else if shared == 0 {
                    Ok((set_aside(engine, id), StepView::Skipped))
                } else {
                    Ok(
                        (
                            EngineView {
                                left: after,
                                done: engine.done.insert(id),
                                rank: (engine.rank + 1) as usize,
                                ..engine
                            },
                            StepView::Emitted(
                                ResultView {
                                    dataset_id: id,
                                    name: sig.name@,
                                    filename: sig.filename@,
                                    md5: sig.md5sum@,
                                    overlap_size: shared as usize,
                                    residual_before: engine.left.len() as usize,
                                    residual_after_size: after.len() as usize,
                                    query_size: engine.query_size,
                                    match_size: mh.mins.len() as usize,
                                    intersect_bp: base_pairs(shared, engine.scaled),
                                    remaining_bp: base_pairs(after.len(), engine.scaled),
                                    gather_result_rank: engine.rank,
                                },
                            ),
                        ),
                    )
                }
            },
        },
    }
}

/// The hashes that a sketch holds and those that it lacks make up the residual.
pub proof fn lemma_peel(left: Seq<(u64, Set<u64>)>, mins: Seq<u64>)
    ensures
        overlap(left, mins) + peeled(left, mins).len() == left.len(),
    decreases left.len(),
{
    reveal_with_fuel(Seq::filter, 2);
    if left.len() > 0 {
        lemma_peel(left.drop_last(), mins);
    }
}

/// Law of the gather (the residual shrinks): a step that emits a match takes
/// at least one hash, and at least as many as the threshold, off the
/// residual; no other step changes the residual.
pub proof fn lemma_gather_shrinks(
    engine: EngineView,
    id: u64,
    match_sig: Option<Signature>,
    template: KmerMinHash,
)
    requires
        engine.left.len() <= usize::MAX,
    ensures
        advance_outcome(engine, id, match_sig, template) matches Ok((after, step)) ==> match step {
            StepView::Emitted(result) => {
                &&& after.left.len() < engine.left.len()
                &&& after.left.len() + result.overlap_size == engine.left.len()
                &&& result.overlap_size >= engine.threshold
                &&& result.overlap_size >= 1
            },
            _ => after.left == engine.left,
        },
{
    if let Some(sig) = match_sig {
        if let Some(mh) = prepared_view(sig.sketches@, template) {
            lemma_peel(engine.left, mh.mins);
        }
    }
}

/// The product of a number of hashes and `scaled` fits 128 bits.
proof fn lemma_base_pairs_fit(hashes: usize, scaled: u64)
    ensures
        hashes * scaled <= u128::MAX,
        hashes * scaled >= 0,
{
    assert(hashes * scaled <= 0xffff_ffff_ffff_ffff * 0xffff_ffff_ffff_ffff) by (nonlinear_arith)
        requires
            0 <= hashes <= 0xffff_ffff_ffff_ffff,
            0 <= scaled <= 0xffff_ffff_ffff_ffff,
    ;
    assert(hashes * scaled >= 0) by (nonlinear_arith)
        requires
            0 <= hashes,
            0 <= scaled,
    ;
}

/// A number of hashes in base pairs.
fn to_base_pairs(hashes: usize, scaled: u64) -> (bp: u128)
    ensures
        bp == base_pairs(hashes as nat, scaled),
{
    proof {
        lemma_base_pairs_fit(hashes, scaled);
    }
    (hashes as u128) * (scaled as u128)
}

impl GatherEngine {
    /// The set of the datasets that are done with is well formed, and the
    /// matches that were emitted have each taken a hash off the query.
    pub open spec fn wf(&self) -> bool {
        &&& self.done.wf()
        &&& self.rank + self.left@.len() <= self.query_size
    }

    /// One step of the gather with the signature of the dataset `dataset_id`:
    /// see `advance_outcome`. An error leaves the state as it was.
    pub fn advance(
        &mut self,
        dataset_id: DatasetID,
        match_sig: Option<&Signature>,
        template: &KmerMinHash,
    ) -> (step: Result<GatherStep, Error>)
        requires
            old(self).wf(),
        ensures
            final(self).wf(),
            match advance_outcome(old(self)@, dataset_id, fetched_signature(match_sig), *template) {
                Ok((after, outcome)) => step matches Ok(s) && s@ == outcome && final(self)@ == after,
                Err(error) => step matches Err(e) && e == error && final(self)@ == old(self)@,
            },
    {
        let sig = match match_sig {
            Some(sig) => sig,
            None => {
                self.done.insert(dataset_id);
                return Ok(GatherStep::Skipped);
            },
        };
        let mh = match prepare_query(sig, template) {
            Ok(mh) => mh,
            Err(e) => {
                return Err(e);
            },
        };
        let held = Datasets::new(mh.mins.as_slice());
        let ghost inside = covered_by(mh.mins@);
        let ghost outside = missed_by(mh.mins@);
        let ghost before = left_view(self.left@);
        let mut after: Vec<(u64, Datasets)> = Vec::new();
        let mut shared: usize = 0;
        let mut i: usize = 0;
        assert(before.take(0).filter(outside) == Seq::<(u64, Set<u64>)>::empty());
        assert(before.take(0).filter(inside) == Seq::<(u64, Set<u64>)>::empty());
        assert(left_view(after@) == Seq::<(u64, Set<u64>)>::empty());
        while i < self.left.len()
            invariant
                i <= self.left.len(),
                *self == *old(self),
                before == left_view(self.left@),
                inside == covered_by(mh.mins@),
                outside == missed_by(mh.mins@),
                held@ == mh.mins@.to_set(),
                left_view(after@) == before.take(i as int).filter(outside),
                shared == before.take(i as int).filter(inside).len(),
                shared <= i,
            decreases self.left.len() - i,
        {
            let hash = self.left[i].0;
            proof {
                reveal_with_fuel(Seq::filter, 2);
                assert(before.take(i + 1).drop_last() == before.take(i as int));
                assert(before.take(i + 1).last() == before[i as int]);
                assert(held@.contains(hash) <==> mh.mins@.contains(hash));
            }
            if held.contains(&hash) {
                shared += 1;
            } else {
                let posting = self.left[i].1.duplicate();
                assert(left_view(after@.push((hash, posting))) == left_view(after@).push(
                    (hash, posting@),
                ));
                after.push((hash, posting));
            }
            i += 1;
        }
        proof {
            assert(before.take(i as int) == before);
            lemma_peel(before, mh.mins@);
        }
        if shared < self.threshold {
            return Ok(GatherStep::Done);
        }
        if shared == 0 {
            self.done.insert(dataset_id);
            return Ok(GatherStep::Skipped);
        }
        let result = GatherResult {
            dataset_id,
            name: sig.name.clone(),
            filename: sig.filename.clone(),
            md5: sig.md5sum.clone(),
            overlap_size: shared,
            residual_before: self.left.len(),
            residual_after_size: after.len(),
            query_size: self.query_size,
            match_size: mh.mins.len(),
            intersect_bp: to_base_pairs(shared, self.scaled),
            remaining_bp: to_base_pairs(after.len(), self.scaled),
            gather_result_rank: self.rank,
        };
        self.left = after;
        self.done.insert(dataset_id);
        self.rank = self.rank + 1;
        Ok(GatherStep::Emitted(result))
    }

    /// Starts a gather for a query, from the values that were fetched from
    /// the hashes column for the keys of the query.
    pub fn new(
        query: &KmerMinHash,
        fetched: &Vec<Option<Vec<u8>>>,
        threshold: usize,
        scaled: u64,
    ) -> (engine: Result<GatherEngine, Error>)
        ensures
            match starting(query.mins@, fetched@, threshold, scaled) {
                Ok(view) => engine matches Ok(e) && e@ == view && e.wf(),
                Err(error) => engine matches Err(e) && e == error,
            },
    {
        if fetched.len() != query.mins.len() {
            return Err(Error::StoreFailure);
        }
        let mut left: Vec<(u64, Datasets)> = Vec::new();
        let mut i: usize = 0;
        while i < fetched.len()
            invariant
                i <= fetched.len(),
                fetched.len() == query.mins.len(),
                left@.len() == i,
                forall|k: int|
                    0 <= k < i ==> ((#[trigger] fetched@[k]) matches Some(bytes) ==> is_encoding(
                        bytes@,
                    )),
                forall|k: int|
                    0 <= k < i ==> (#[trigger] left@[k]).0 == query.mins@[k] && left@[k].1@
                        == starting_left(query.mins@, fetched@)[k].1,
            decreases fetched.len() - i,
        {
            let posting = match &fetched[i] {
                Some(bytes) => match Datasets::from_slice(bytes.as_slice()) {
                    Some(datasets) => datasets,
                    None => {
                        return Err(Error::DeserializationFailure);
                    },
                },
                None => Datasets::Empty,
            };
            left.push((query.mins[i], posting));
            i += 1;
        }
        let engine = GatherEngine {
            threshold,
            scaled,
            query_size: query.mins.len(),
            left,
            done: Datasets::Empty,
            rank: 0,
        };
        assert(engine@.left =~= starting_left(query.mins@, fetched@));
        Ok(engine)
    }

    /// The hashes of the residual query, in order.
    pub fn residual(&self) -> (hashes: Vec<u64>)
        ensures
            hashes@.len() == self@.left.len(),
            forall|i: int| 0 <= i < hashes@.len() ==> hashes@[i] == (#[trigger] self@.left[i]).0,
    {
        let mut hashes: Vec<u64> = Vec::new();
        let mut i: usize = 0;
        while i < self.left.len()
            invariant
                i <= self.left.len(),
                hashes@.len() == i,
                forall|k: int| 0 <= k < i ==> hashes@[k] == (#[trigger] self.left@[k]).0,
            decreases self.left.len() - i,
        {
            hashes.push(self.left[i].0);
            i += 1;
        }
        hashes
    }
}

/// The identifiers of `ids` that are not in `done`, in their order.
fn not_done(ids: &Vec<DatasetID>, done: &Datasets) -> (kept: Vec<DatasetID>)
    requires
        ids@.no_duplicates(),
    ensures
        kept@.no_duplicates(),
        kept@.to_set() == ids@.to_set().difference(done@),
{
    let mut kept: Vec<DatasetID> = Vec::new();
    let mut i: usize = 0;
    assert(kept@.to_set() =~= ids@.take(0).to_set().difference(done@));
    while i < ids.len()
        invariant
            i <= ids.len(),
            ids@.no_duplicates(),
            kept@.no_duplicates(),
            kept@.to_set() == ids@.take(i as int).to_set().difference(done@),
        decreases ids.len() - i,
    {
        let id = ids[i];
        proof {
            assert(ids@.take(i + 1) == ids@.take(i as int).push(id));
            ids@.take(i as int).lemma_push_to_set_commute(id);
            kept@.lemma_push_to_set_commute(id);
            assert(!ids@.take(i as int).contains(id)) by {
                if ids@.take(i as int).contains(id) {
                    let k = choose|k: int| 0 <= k < i && ids@.take(i as int)[k] == id;
                    assert(ids@[k] == ids@[i as int]);
                }
            }
        }
        if !done.contains(&id) {
            proof {
                assert(!kept@.contains(id)) by {
                    if kept@.contains(id) {
                        assert(kept@.to_set().contains(id));
                        assert(ids@.take(i as int).to_set().contains(id));
                    }
                }
                assert(kept@.push(id).no_duplicates()) by {
                    assert forall|a: int, b: int|
                        0 <= a < kept@.push(id).len() && 0 <= b < kept@.push(id).len() && a
                            != b implies kept@.push(id)[a] != kept@.push(id)[b] by {
                        if a == kept@.len() {
                            assert(kept@.contains(kept@[b]));
                        } else if b == kept@.len() {
                            assert(kept@.contains(kept@[a]));
                        }
                    }
                }
                assert(kept@.to_set().insert(id) =~= ids@.take(i as int).to_set().insert(
                    id,
                ).difference(done@));
            }
            kept.push(id);
        } else {
            proof {
                assert(kept@.to_set() =~= ids@.take(i as int).to_set().insert(id).difference(
                    done@,
                ));
            }
        }
        i += 1;
    }
    assert(ids@.take(i as int) == ids@);
    kept
}

impl GatherEngine {
    /// Counts, for each dataset that is not done with, the hashes of the
    /// residual that it holds.
    pub fn score(&self) -> (tallied: SigCounter)
        ensures
            counts(tallied) == scores(self@),
    {
        let mut tallied = counter_new();
        let ghost sets = candidates(self@);
        let mut i: usize = 0;
        assert(counts(tallied) =~= tally(sets.take(0)));
        while i < self.left.len()
            invariant
                i <= self.left.len(),
                sets == candidates(self@),
                counts(tallied) == tally(sets.take(i as int)),
            decreases self.left.len() - i,
        {
            let ids = self.left[i].1.to_vec();
            proof {
                crate::ordered::lemma_ascending_len(self.left@[i as int].1@);
            }
            let kept = not_done(&ids, &self.done);
            count_ids(&mut tallied, &kept, Ghost(sets.take(i as int)));
            proof {
                assert(sets.take(i + 1) == sets.take(i as int).push(sets[i as int]));
            }
            i += 1;
        }
        assert(sets.take(i as int) == sets);
        tallied
    }

    /// The dataset to turn to next, with its score: see `selection`.
    pub fn select(&self) -> (selected: Option<(DatasetID, usize)>)
        ensures
            selected == selection(self@),
    {
        let tallied = self.score();
        let ranking = counter_most_common(&tallied);
        proof {
            lemma_ranking_best(ranking@, scores(self@));
        }
        if ranking.len() > 0 && ranking[0].1 >= self.threshold {
            Some(ranking[0])
        } else {
            None
        }
    }
}

/// The signature that the table holds for a dataset: that of the first
/// entry with the identifier of the dataset.
pub open spec fn signature_for(table: Seq<(u64, Signature)>, id: u64, from: int) -> Option<
    Signature,
>
    decreases table.len() - from,
{
    if from < 0 || from >= table.len() {
        None
    } else if table[from].0 == id {
        Some(table[from].1)
    } else {
        signature_for(table, id, from + 1)
    }
}

/// The matches of a list as values.
pub open spec fn result_views(results: Seq<GatherResult>) -> Seq<ResultView> {
    Seq::new(results.len(), |i: int| results[i]@)
}

/// The matches that are emitted from a state on, in at most `fuel` steps,
/// with the signatures of a table; or the error that ends the gather.
pub open spec fn run(
    engine: EngineView,
    table: Seq<(u64, Signature)>,
    template: KmerMinHash,
    fuel: nat,
) -> Result<Seq<ResultView>, Error>
    decreases fuel,
{
    if fuel == 0 {
        Ok(Seq::empty())
    } else {
        match selection(engine) {
            None => Ok(Seq::empty()),
            Some((id, _)) => match advance_outcome(
                engine,
                id,
                signature_for(table, id, 0),
                template,
            ) {
                Err(e) => Err(e),
                Ok((after, step)) => match step {
                    StepView::Done => Ok(Seq::empty()),
                    StepView::Skipped => run(after, table, template, (fuel - 1) as nat),
                    StepView::Emitted(result) => match run(
                        after,
                        table,
                        template,
                        (fuel - 1) as nat,
                    ) {
                        Ok(rest) => Ok(seq![result] + rest),
                        Err(e) => Err(e),
                    },
                },
            },
        }
    }
}

/// The matches that came first, followed by those that come after.
pub open spec fn followed_by(first: Seq<ResultView>, rest: Result<Seq<ResultView>, Error>) -> Result<
    Seq<ResultView>,
    Error,
> {
    match rest {
        Ok(rest) => Ok(first + rest),
        Err(e) => Err(e),
    }
}

/// The signature that the table holds for a dataset.
pub fn find_signature(table: &Vec<(DatasetID, Signature)>, id: DatasetID) -> (found: Option<
    &Signature,
>)
    ensures
        fetched_signature(found) == signature_for(table@, id, 0),
{
    let mut i: usize = 0;
    while i < table.len()
        invariant
            i <= table.len(),
            signature_for(table@, id, 0) == signature_for(table@, id, i as int),
        decreases table.len() - i,
    {
        if table[i].0 == id {
            return Some(&table[i].1);
        }
        i += 1;
    }
    None
}

/// The whole gather of a query, with the signatures of the datasets at hand.
///
/// `fetched` holds the values of the hashes column for the keys of the
/// query, and `signatures` the signature of each dataset that may match; a
/// dataset without one is set aside. Each step turns to the best dataset
/// left, and there are as many steps at most as there are datasets with a
/// score at the start. The result is the list of the matches in the order in
/// which they were emitted: it depends on the arguments alone.
pub fn gather(
    query: &KmerMinHash,
    fetched: &Vec<Option<Vec<u8>>>,
    signatures: &Vec<(DatasetID, Signature)>,
    threshold: usize,
    template: &KmerMinHash,
) -> (matches: Result<Vec<GatherResult>, Error>)
    ensures
        match gathered(*query, fetched@, signatures@, threshold, *template) {
            Ok(expected) => matches matches Ok(v) && result_views(v@) == expected,
            Err(error) => matches matches Err(e) && e == error,
        },
{
    let scaled = template.scaled();
    let mut engine = match GatherEngine::new(query, fetched, threshold, scaled) {
        Ok(engine) => engine,
        Err(e) => {
            return Err(e);
        },
    };
    let ghost start = engine@;
    let first = engine.score();
    let ranking = counter_most_common(&first);
    proof {
        crate::counter::lemma_ranking_len(ranking@, scores(start));
    }
    let mut fuel: usize = ranking.len();
    let ghost total = run(start, signatures@, *template, fuel as nat);
    let mut out: Vec<GatherResult> = Vec::new();
    assert(result_views(out@) == Seq::<ResultView>::empty());
    assert(followed_by(result_views(out@), total) == total) by {
        if let Ok(rest) = total {
            assert(Seq::<ResultView>::empty() + rest == rest);
        }
    }
    while fuel > 0
        invariant
            engine.wf(),
            gathered(*query, fetched@, signatures@, threshold, *template) == total,
            total == followed_by(
                result_views(out@),
                run(engine@, signatures@, *template, fuel as nat),
            ),
        decreases fuel,
    {
        let ghost before = engine@;
        let ghost sofar = result_views(out@);
        let selected = engine.select();
        let id = match selected {
            Some((id, _)) => id,
            None => {
                proof {
                    assert(sofar + Seq::<ResultView>::empty() == sofar);
                }
                return Ok(out);
            },
        };
        let found = find_signature(signatures, id);
        match engine.advance(id, found, template) {
            Err(e) => {
                return Err(e);
            },
            Ok(GatherStep::Done) => {
                proof {
                    assert(sofar + Seq::<ResultView>::empty() == sofar);
                }
                return Ok(out);
            },
            Ok(GatherStep::Skipped) => {},
            Ok(GatherStep::Emitted(result)) => {
                proof {
                    assert(result_views(out@.push(result)) == sofar.push(result@));
                    let rest = run(engine@, signatures@, *template, (fuel - 1) as nat);
                    if let Ok(more) = rest {
                        assert(sofar + (seq![result@] + more) == sofar.push(result@) + more);
                    }
                }
                out.push(result);
            },
        }
        fuel -= 1;
    }
    proof {
        assert(result_views(out@) + Seq::<ResultView>::empty() == result_views(out@));
    }
    Ok(out)
}

/// Law of the gather (determinism): two gathers of the same query, with the
/// same fetched values, the same signatures and the same threshold and
/// template, that meet the contract of `gather`, give the same matches in
/// the same order.
pub proof fn lemma_gather_deterministic(
    query: KmerMinHash,
    fetched: Seq<Option<Vec<u8>>>,
    signatures: Seq<(u64, Signature)>,
    threshold: usize,
    template: KmerMinHash,
    first: Result<Seq<ResultView>, Error>,
    second: Result<Seq<ResultView>, Error>,
)
    requires
        gathered(query, fetched, signatures, threshold, template) == first,
        gathered(query, fetched, signatures, threshold, template) == second,
    ensures
        first == second,
{
}

/// What `gather` returns, as a value.
pub open spec fn gathered(
    query: KmerMinHash,
    fetched: Seq<Option<Vec<u8>>>,
    signatures: Seq<(u64, Signature)>,
    threshold: usize,
    template: KmerMinHash,
) -> Result<Seq<ResultView>, Error> {
    match starting(query.mins@, fetched, threshold, max_hash_scaled(template.max_hash)) {
        Err(error) => Err(error),
        Ok(start) => run(start, signatures, template, scores(start).dom().len()),
    }
}

/// Every posting of the residual is a finite set.
pub open spec fn finite_postings(engine: EngineView) -> bool {
    forall|i: int| 0 <= i < engine.left.len() ==> (#[trigger] engine.left[i]).1.finite()
}

/// The datasets with a score are those that a set of the list holds, and
/// they are finitely many where the sets are finite.
proof fn lemma_tally_dom(sets: Seq<Set<u64>>)
    requires
        forall|i: int| 0 <= i < sets.len() ==> (#[trigger] sets[i]).finite(),
    ensures
        tally(sets).dom().finite(),
        forall|id: u64|
            tally(sets).dom().contains(id) <==> exists|i: int|
                0 <= i < sets.len() && (#[trigger] sets[i]).contains(id),
    decreases sets.len(),
{
    assert forall|id: u64|
        tally(sets).dom().contains(id) <==> exists|i: int|
            0 <= i < sets.len() && (#[trigger] sets[i]).contains(id) by {
        crate::counter::lemma_hits_positive(sets, id);
    }
    if sets.len() == 0 {
        assert(tally(sets).dom() =~= Set::<u64>::empty());
    } else {
        let shorter = sets.drop_last();
        assert forall|i: int| 0 <= i < shorter.len() implies (#[trigger] shorter[i]).finite() by {
            assert(shorter[i] == sets[i]);
        }
        lemma_tally_dom(shorter);
        assert(sets[sets.len() - 1].finite());
        assert(tally(sets).dom() =~= tally(shorter).dom().union(sets.last()));
    }
}

/// A step that does not end the gather leaves fewer datasets with a score:
/// the selected dataset is among them before the step and not after it, and
/// none is added.
proof fn lemma_step_narrows(
    engine: EngineView,
    id: u64,
    match_sig: Option<Signature>,
    template: KmerMinHash,
)
    requires
        finite_postings(engine),
        scores(engine).dom().contains(id),
        advance_outcome(engine, id, match_sig, template) matches Ok((_, step)) && !(step
            is Done),
    ensures
        finite_postings(advance_outcome(engine, id, match_sig, template)->Ok_0.0),
        scores(advance_outcome(engine, id, match_sig, template)->Ok_0.0).dom().len() < scores(
            engine,
        ).dom().len(),
{
    let after = advance_outcome(engine, id, match_sig, template)->Ok_0.0;
    let old_sets = candidates(engine);
    let new_sets = candidates(after);
    assert(after.done == engine.done.insert(id));
    // every entry of the residual after the step is an entry of the residual before
    assert forall|i: int| 0 <= i < after.left.len() implies engine.left.contains(
        #[trigger] after.left[i],
    ) by {
        if after.left != engine.left {
            let mh = prepared_view(match_sig->0.sketches@, template)->0;
            assert(after.left == engine.left.filter(missed_by(mh.mins)));
            assert(after.left.contains(after.left[i]));
            engine.left.lemma_filter_contains_rev(missed_by(mh.mins), after.left[i]);
        } else {
            assert(engine.left[i] == after.left[i]);
        }
    }
    assert forall|i: int| 0 <= i < after.left.len() implies (#[trigger] after.left[i]).1.finite() by {
        let j = choose|j: int| 0 <= j < engine.left.len() && engine.left[j] == after.left[i];
        assert(engine.left[j].1.finite());
    }
    assert forall|i: int| 0 <= i < old_sets.len() implies (#[trigger] old_sets[i]).finite() by {
        assert(engine.left[i].1.finite());
    }
    assert forall|i: int| 0 <= i < new_sets.len() implies (#[trigger] new_sets[i]).finite() by {
        assert(after.left[i].1.finite());
    }
    lemma_tally_dom(old_sets);
    lemma_tally_dom(new_sets);
    let before_dom = scores(engine).dom();
    let after_dom = scores(after).dom();
    assert(after_dom.subset_of(before_dom.remove(id))) by {
        assert forall|x: u64| after_dom.contains(x) implies before_dom.remove(id).contains(x) by {
            let i = choose|i: int| 0 <= i < new_sets.len() && (#[trigger] new_sets[i]).contains(x);
            assert(after.left[i].1.contains(x) && !after.done.contains(x));
            let j = choose|j: int| 0 <= j < engine.left.len() && engine.left[j] == after.left[i];
            assert(old_sets[j].contains(x));
        }
    }
    vstd::set_lib::lemma_len_subset(after_dom, before_dom.remove(id));
}

/// Law of the gather (it ends): as many steps as there are datasets with a
/// score are enough. With more steps allowed the matches are the same.
pub proof fn lemma_run_fuel(
    engine: EngineView,
    table: Seq<(u64, Signature)>,
    template: KmerMinHash,
    fuel: nat,
)
    requires
        finite_postings(engine),
        fuel >= scores(engine).dom().len(),
    ensures
        run(engine, table, template, fuel + 1) == run(engine, table, template, fuel),
    decreases fuel,
{
    let m = scores(engine);
    assert forall|i: int| 0 <= i < candidates(engine).len() implies (#[trigger] candidates(
        engine,
    )[i]).finite() by {
        assert(engine.left[i].1.finite());
    }
    lemma_tally_dom(candidates(engine));
    match selection(engine) {
        None => {
            if fuel == 0 {
            }
        },
        Some((id, _)) => {
            let chosen = choose|chosen: u64| crate::counter::is_best(m, chosen);
            assert(chosen == id);
            assert(m.dom().contains(id));
            assert(m.dom().len() > 0) by {
                if m.dom().len() == 0 {
                    assert(m.dom() =~= Set::<u64>::empty());
                }
            }
            match advance_outcome(engine, id, signature_for(table, id, 0), template) {
                Err(_) => {},
                Ok((after, step)) => {
                    if !(step is Done) {
                        lemma_step_narrows(engine, id, signature_for(table, id, 0), template);
                        lemma_run_fuel(after, table, template, (fuel - 1) as nat);
                    }
                },
            }
        },
    }
}

} // verus!
