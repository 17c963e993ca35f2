//! The reorder-and-write stage: the single consumer that takes results in
//! whatever order the workers finish them, holds the early arrivals in a
//! pending buffer, and releases bodies strictly in input order, accumulating
//! the total token count as each result is released exactly once.

use vstd::prelude::*;

use std::collections::BTreeMap;
use vstd::set_lib::lemma_int_range;
use vstd::set_lib::lemma_len_subset;
use vstd::set_lib::lemma_map_size;
use vstd::set_lib::set_int_range;
use crate::worker::ProcessedFile;

verus! {

broadcast use vstd::laws_cmp::group_laws_cmp;

/// The aggregate metric of a run: the total token count, summed over every
/// released result.
#[derive(Debug, Clone, Copy, PartialEq, Eq, Structural)]
pub struct IngestMetrics {
    /// The sum of the per-file token counts, saturating at `usize::MAX`.
    pub total_tokens: usize,
}

/// A pipeline-fatal condition. Unlike a per-file skip or read error, any of
/// these invalidates the whole digest.
#[derive(Clone, Copy, Debug, PartialEq, Eq, Structural)]
pub enum PipelineError {
    /// A result carried an index at or beyond the announced file count.
    IndexBeyondTotal,
    /// A second result arrived for an index already seen.
    DuplicateIndex,
    /// The stream of results ended before every index had arrived: a worker
    /// was lost, and the digest written so far is incomplete.
    MissingResults,
}

impl PipelineError {
    /// A short description of the condition.
    pub fn describe(&self) -> (m: &'static str)
        ensures
            m@ == (match *self {
                PipelineError::IndexBeyondTotal => "result index beyond the announced file count"@,
                PipelineError::DuplicateIndex => "a second result arrived for the same index"@,
                PipelineError::MissingResults => "results ended before every file was written"@,
            }),
    {
        match *self {
            PipelineError::IndexBeyondTotal => "result index beyond the announced file count",
            PipelineError::DuplicateIndex => "a second result arrived for the same index",
            PipelineError::MissingResults => "results ended before every file was written",
        }
    }
}

/// What one accepted result contributes to the model: its body and its token
/// count.
pub type ResultView = (Seq<char>, int);

/// Whether an executable result matches the model's entry for index `i`.
pub open spec fn matches_entry(pf: ProcessedFile, m: Map<int, ResultView>, i: int) -> bool {
    &&& pf.index as int == i
    &&& m.contains_key(i)
    &&& pf.body@ == m[i].0
    &&& pf.tokens as int == m[i].1
}

/// The sum of the token counts recorded for indices `0 .. n`.
pub open spec fn sum_tokens(m: Map<int, ResultView>, n: int) -> int
    decreases n,
{
    if n <= 0 {
        0
    } else {
        sum_tokens(m, n - 1) + m[n - 1].1
    }
}

/// An integer clamped to the `usize` range from above.
pub open spec fn sat_usize(x: int) -> int {
    if x > usize::MAX {
        usize::MAX as int
    } else {
        x
    }
}

/// The first `n` summands do not change when the map changes elsewhere.
proof fn lemma_sum_tokens_agree(m1: Map<int, ResultView>, m2: Map<int, ResultView>, n: int)
    requires
        forall|i: int|
            0 <= i < n ==> #[trigger] m1.contains_key(i) && m2.contains_key(i) && m1[i] == m2[i],
    ensures
        sum_tokens(m1, n) == sum_tokens(m2, n),
    decreases n,
{
    if n > 0 {
        assert(m1.contains_key(n - 1));
        lemma_sum_tokens_agree(m1, m2, n - 1);
    }
}

/// A sum of recorded, non-negative counts is non-negative.
proof fn lemma_sum_tokens_nonneg(m: Map<int, ResultView>, n: int)
    requires
        forall|i: int| 0 <= i < n ==> #[trigger] m.contains_key(i) && m[i].1 >= 0,
    ensures
        sum_tokens(m, n) >= 0,
    decreases n,
{
    if n > 0 {
        assert(m.contains_key(n - 1));
        lemma_sum_tokens_nonneg(m, n - 1);
    }
}

/// The sum of a sequence of integers.
pub open spec fn seq_sum(s: Seq<int>) -> int
    decreases s.len(),
{
    if s.len() == 0 {
        0
    } else {
        seq_sum(s.drop_last()) + s.last()
    }
}

/// The recorded token sum over a prefix equals the sum of the counts it was
/// built from.
proof fn lemma_sum_tokens_matches_counts(m: Map<int, ResultView>, counts: Seq<int>, n: int)
    requires
        0 <= n <= counts.len(),
        forall|i: int|
            0 <= i < counts.len() ==> #[trigger] m.contains_key(i) && m[i].1 == counts[i],
    ensures
        sum_tokens(m, n) == seq_sum(counts.take(n)),
    decreases n,
{
    if n > 0 {
        assert(m.contains_key(n - 1));
        lemma_sum_tokens_matches_counts(m, counts, n - 1);
        assert(counts.take(n).drop_last() =~= counts.take(n - 1));
        assert(counts.take(n).last() == counts[n - 1]);
    }
}

/// The reorder buffer. Results arrive in any order; bodies are released
/// strictly in index order, each exactly once, and the token total grows
/// only when a result is released.
///
/// The ghost `arrived` map records every result accepted so far, keyed by
/// index; the `pending` buffer holds exactly those that arrived but whose
/// predecessors have not all been released yet.
pub struct Reorderer {
    total: usize,
    next: usize,
    tokens: usize,
    pending: BTreeMap<usize, ProcessedFile>,
    arrived: Ghost<Map<int, ResultView>>,
}

impl Reorderer {
    /// How many files the run announced.
    pub closed spec fn total_files(self) -> int {
        self.total as int
    }

    /// How many results have been released to the sink: the next index to
    /// write.
    pub closed spec fn released(self) -> int {
        self.next as int
    }

    /// Every result accepted so far, keyed by its index.
    pub closed spec fn results(self) -> Map<int, ResultView> {
        self.arrived@
    }

    /// The running token total.
    pub closed spec fn token_total(self) -> int {
        self.tokens as int
    }

    /// How many results sit in the pending buffer: arrived, not yet
    /// released.
    pub closed spec fn buffered(self) -> int {
        self.pending@.dom().len() as int
    }

    /// The stage's invariant, except that the next index to write may still
    /// sit in the pending buffer; it holds mid-flush.
    pub closed spec fn inv_core(self) -> bool {
        &&& self.next as int <= self.total as int
        &&& (forall|i: int| 0 <= i < self.next as int ==> #[trigger] self.arrived@.contains_key(i))
        &&& (forall|i: int|
            #[trigger] self.arrived@.contains_key(i) ==> 0 <= i < self.total as int)
        &&& (forall|i: int| #[trigger] self.arrived@.contains_key(i) ==> self.arrived@[i].1 >= 0)
        &&& (forall|k: usize|
            #[trigger] self.pending@.contains_key(k) ==> self.next <= k < self.total)
        &&& (forall|i: int|
            self.next as int <= i < self.total as int ==> (#[trigger] self.arrived@.contains_key(
                i,
            ) <==> self.pending@.contains_key(i as usize)))
        &&& (forall|k: usize|
            #[trigger] self.pending@.contains_key(k) ==> matches_entry(
                self.pending@[k],
                self.arrived@,
                k as int,
            ))
        &&& self.tokens as int == sat_usize(sum_tokens(self.arrived@, self.next as int))
    }

    /// The stage's invariant: `inv_core`, and every released prefix is
    /// maximal — whenever the next index to write has arrived, it has been
    /// released already.
    pub closed spec fn wf(self) -> bool {
        &&& self.inv_core()
        &&& (self.next as int == self.total as int || !self.arrived@.contains_key(
            self.next as int,
        ))
    }

    /// A fresh stage for a run over `total` files: nothing arrived, nothing
    /// released, nothing counted.
    pub fn new(total: usize) -> (r: Reorderer)
        ensures
            r.wf(),
            r.total_files() == total as int,
            r.released() == 0,
            r.results() == Map::<int, ResultView>::empty(),
            r.token_total() == 0,
            r.buffered() == 0,
    {
        let r = Reorderer {
            total,
            next: 0,
            tokens: 0,
            pending: BTreeMap::new(),
            arrived: Ghost(Map::empty()),
        };
        proof {
            assert(r.pending@.dom() =~= Set::<usize>::empty());
        }
        r
    }

    /// Takes one result, in any arrival order. When its index is fresh and
    /// within range, it is recorded, and the now-contiguous run of results
    /// starting at the next unwritten index is released, in index order —
    /// the caller appends the released bodies to the sink in the order
    /// given. A result for an index already seen, or beyond the announced
    /// count, is refused with the state unchanged.
    pub fn accept(&mut self, r: ProcessedFile) -> (out: Result<
        Vec<ProcessedFile>,
        PipelineError,
    >)
        requires
            old(self).wf(),
        ensures
            final(self).wf(),
            final(self).total_files() == old(self).total_files(),
            0 <= final(self).released() <= final(self).total_files(),
            forall|i: int|
                0 <= i < final(self).released() ==> final(self).results().contains_key(i),
            final(self).released() == final(self).total_files()
                || !final(self).results().contains_key(final(self).released()),
            forall|i: int|
                #[trigger] final(self).results().contains_key(i) ==> 0 <= i
                    < final(self).total_files(),
            (out is Err) <==> (r.index as int >= old(self).total_files()
                || old(self).results().contains_key(r.index as int)),
            match out {
                Ok(flushed) => {
                    &&& final(self).results() == old(self).results().insert(
                        r.index as int,
                        (r.body@, r.tokens as int),
                    )
                    &&& old(self).released() <= final(self).released()
                    &&& final(self).released() <= final(self).total_files()
                    &&& flushed@.len() == final(self).released() - old(self).released()
                    &&& (forall|k: int|
                        0 <= k < flushed@.len() ==> matches_entry(
                            #[trigger] flushed@[k],
                            final(self).results(),
                            old(self).released() + k,
                        ))
                    &&& final(self).token_total() == sat_usize(
                        sum_tokens(final(self).results(), final(self).released()),
                    )
                },
                Err(e) => {
                    &&& *final(self) == *old(self)
                    &&& (e is IndexBeyondTotal <==> r.index as int >= old(self).total_files())
                },
            },
    {
        if r.index >= self.total {
            return Err(PipelineError::IndexBeyondTotal);
        }
        let duplicate = if r.index < self.next {
            true
        } else {
            self.pending.contains_key(&r.index)
        };
        if duplicate {
            proof {
                assert(self.arrived@.contains_key(r.index as int));
            }
            return Err(PipelineError::DuplicateIndex);
        }
        proof {
            if self.arrived@.contains_key(r.index as int) {
                assert(self.pending@.contains_key(r.index));
            }
        }
        let idx = r.index;
        let ghost old_arrived = self.arrived@;
        let ghost new_arrived = old_arrived.insert(idx as int, (r.body@, r.tokens as int));
        proof {
            self.arrived@ = new_arrived;
        }
        self.pending.insert(idx, r);
        proof {
            lemma_sum_tokens_agree(old_arrived, new_arrived, self.next as int);
            assert(self.inv_core());
        }
        let ghost base_next = self.next as int;
        let ghost tot = self.total as int;
        let mut flushed: Vec<ProcessedFile> = Vec::new();
        loop
            invariant
                self.inv_core(),
                self.arrived@ == new_arrived,
                self.total as int == tot,
                base_next <= self.next as int <= tot,
                flushed@.len() == self.next as int - base_next,
                forall|k: int|
                    0 <= k < flushed@.len() ==> matches_entry(
                        #[trigger] flushed@[k],
                        new_arrived,
                        base_next + k,
                    ),
            ensures
                self.inv_core(),
                self.arrived@ == new_arrived,
                self.total as int == tot,
                base_next <= self.next as int <= tot,
                flushed@.len() == self.next as int - base_next,
                forall|k: int|
                    0 <= k < flushed@.len() ==> matches_entry(
                        #[trigger] flushed@[k],
                        new_arrived,
                        base_next + k,
                    ),
                self.next as int == tot || !self.arrived@.contains_key(self.next as int),
            decreases tot - self.next as int,
        {
            if self.next == self.total {
                break ;
            }
            let nx = self.next;
            let got = self.pending.remove(&nx);
            match got {
                None => {
                    proof {
                        assert(!self.pending@.contains_key(nx));
                        assert(!self.arrived@.contains_key(nx as int));
                    }
                    break ;
                },
                Some(pf) => {
                    proof {
                        assert(matches_entry(pf, new_arrived, nx as int));
                        lemma_sum_tokens_nonneg(new_arrived, nx as int);
                        assert(sum_tokens(new_arrived, nx as int + 1) == sum_tokens(
                            new_arrived,
                            nx as int,
                        ) + new_arrived[nx as int].1);
                    }
                    self.tokens = self.tokens.saturating_add(pf.tokens);
                    flushed.push(pf);
                    self.next = nx + 1;
                    proof {
                        assert(self.inv_core());
                    }
                },
            }
        }
        Ok(flushed)
    }

    /// Ends the run. When every index has been released the aggregate token
    /// total is returned; when results ended early — a worker was lost — the
    /// run fails with `MissingResults` rather than passing off a truncated
    /// digest as complete.
    pub fn finish(self) -> (out: Result<IngestMetrics, PipelineError>)
        requires
            self.wf(),
        ensures
            (out is Ok) <==> self.released() == self.total_files(),
            match out {
                Ok(m) => m.total_tokens as int == sat_usize(
                    sum_tokens(self.results(), self.total_files()),
                ),
                Err(e) => e is MissingResults,
            },
    {
        if self.next == self.total {
            Ok(IngestMetrics { total_tokens: self.tokens })
        } else {
            Err(PipelineError::MissingResults)
        }
    }

    /// How many files the run announced.
    pub fn total_count(&self) -> (n: usize)
        ensures
            n as int == self.total_files(),
    {
        self.total
    }

    /// The next index to write: how many results have been released so far.
    pub fn released_count(&self) -> (n: usize)
        ensures
            n as int == self.released(),
    {
        self.next
    }

    /// How many results sit in the pending buffer right now.
    pub fn pending_count(&self) -> (n: usize)
        ensures
            n as int == self.buffered(),
    {
        self.pending.len()
    }

    /// Completeness at the model level: once a result has arrived for every
    /// index, everything has been released — the pending buffer is empty and
    /// the run can finish. Nothing here depends on any body's content, so a
    /// placeholder result completes the run exactly as a content result
    /// does.
    pub proof fn lemma_completion(self)
        requires
            self.wf(),
            forall|i: int| 0 <= i < self.total_files() ==> self.results().contains_key(i),
        ensures
            self.released() == self.total_files(),
            self.buffered() == 0,
    {
        if (self.next as int) < (self.total as int) {
            assert(self.results().contains_key(self.next as int));
            assert(false);
        }
        assert forall|k: usize| !(#[trigger] self.pending@.contains_key(k)) by {
            if self.pending@.contains_key(k) {
                assert(self.next <= k < self.total);
            }
        }
        assert(self.pending@.dom() =~= Set::<usize>::empty());
    }

    /// Order and completeness at the model level: at any point, the released
    /// results are exactly those with indices below `released()`, each
    /// recorded once in the arrival map, and the indices still buffered lie
    /// strictly between the release cursor and the announced count.
    pub proof fn lemma_release_prefix(self)
        requires
            self.wf(),
        ensures
            forall|i: int| 0 <= i < self.released() ==> self.results().contains_key(i),
            self.released() == self.total_files() || !self.results().contains_key(
                self.released(),
            ),
    {
    }

    /// Determinism at the model level: two runs over the same files whose
    /// workers reported the same results end with the same release count and
    /// the same token total, whatever order the results arrived in.
    pub proof fn lemma_run_deterministic(self, other: Reorderer)
        requires
            self.wf(),
            other.wf(),
            self.total_files() == other.total_files(),
            self.released() == self.total_files(),
            other.released() == other.total_files(),
            self.results() == other.results(),
        ensures
            self.token_total() == other.token_total(),
    {
    }

    /// Token aggregation at the model level: when each recorded result
    /// carries the token count computed for its file, a completed run's
    /// total is exactly the sum of those per-file counts, clamped at
    /// `usize::MAX`.
    pub proof fn lemma_token_aggregation(self, counts: Seq<int>)
        requires
            self.wf(),
            self.released() == self.total_files(),
            counts.len() == self.total_files(),
            forall|i: int|
                0 <= i < counts.len() ==> #[trigger] self.results().contains_key(i)
                    && self.results()[i].1 == counts[i],
        ensures
            self.token_total() == sat_usize(seq_sum(counts)),
    {
        lemma_sum_tokens_matches_counts(self.results(), counts, self.total_files());
        assert(counts.take(self.total_files()) =~= counts);
    }

    /// Boundedness of the pending buffer: it never holds more than the
    /// out-of-order window between the release cursor and the announced
    /// count, whatever the total file count of the run.
    pub proof fn lemma_buffer_bounded(self)
        requires
            self.wf(),
        ensures
            self.buffered() <= self.total_files() - self.released(),
    {
        let dom = self.pending@.dom();
        let f = |k: usize| k as int;
        let img = dom.map(f);
        lemma_map_size(dom, img, f);
        let range = set_int_range(self.next as int, self.total as int);
        lemma_int_range(self.next as int, self.total as int);
        assert forall|x: int| img.contains(x) implies range.contains(x) by {
            let k = choose|k: usize| dom.contains(k) && f(k) == x;
            assert(self.pending@.contains_key(k));
        }
        assert(img.subset_of(range));
        lemma_len_subset(img, range);
    }
}

} // verus!
