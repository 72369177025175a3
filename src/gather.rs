use crate::error::PoolError;
use crate::plan::{ChunkRange, lemma_tiles_facts, spans_of, tiles_from, tiling_facts, covered};
use vstd::prelude::*;

verus! {

/// The number of `true` entries.
pub open spec fn count_true(s: Seq<bool>) -> nat
    decreases s.len(),
{
    if s.len() == 0 {
        0
    } else {
        count_true(s.drop_last()) + if s.last() {
            1nat
        } else {
            0nat
        }
    }
}

proof fn lemma_count_update(s: Seq<bool>, k: int)
    requires
        0 <= k < s.len(),
        !s[k],
    ensures
        count_true(s.update(k, true)) == count_true(s) + 1,
    decreases s.len(),
{
    let t = s.update(k, true);
    if k == s.len() - 1 {
        assert(t.drop_last() =~= s.drop_last());
    } else {
        assert(t.drop_last() =~= s.drop_last().update(k, true));
        lemma_count_update(s.drop_last(), k);
    }
}

proof fn lemma_count_bounds(s: Seq<bool>)
    ensures
        count_true(s) <= s.len(),
        count_true(s) == s.len() <==> forall|k: int| 0 <= k < s.len() ==> #[trigger] s[k],
    decreases s.len(),
{
    if s.len() > 0 {
        let p = s.drop_last();
        lemma_count_bounds(p);
        if count_true(s) == s.len() {
            assert forall|k: int| 0 <= k < s.len() implies #[trigger] s[k] by {
                if k < s.len() - 1 {
                    assert(s[k] == p[k]);
                }
            }
        }
        if forall|k: int| 0 <= k < s.len() ==> #[trigger] s[k] {
            assert forall|k: int| 0 <= k < p.len() implies #[trigger] p[k] by {
                assert(s[k]);
            }
        }
    }
}

proof fn lemma_count_none(s: Seq<bool>)
    requires
        forall|k: int| 0 <= k < s.len() ==> !#[trigger] s[k],
    ensures
        count_true(s) == 0,
    decreases s.len(),
{
    if s.len() > 0 {
        lemma_count_none(s.drop_last());
    }
}

/// Position `i` lies in the range `span`.
pub open spec fn in_span(span: (nat, nat), i: int) -> bool {
    span.0 <= i < span.0 + span.1
}

/// What a callback tells the caller once it has been handled.
#[derive(Clone, Copy, Debug, PartialEq, Eq, Structural)]
pub enum Signal {
    /// More chunks are still due.
    Pending,
    /// The operation is over: the awaiting caller is to be woken, once.
    Resolve,
    /// The report came after the operation was over, named no planned chunk,
    /// or repeated one; nothing changed.
    Ignored,
}

/// The ordered result buffer of one map operation, with its completion
/// counter and its one-shot completion flag.
pub struct Gather<R> {
    slots: Vec<Option<R>>,
    ranges: Vec<ChunkRange>,
    reported: Vec<bool>,
    completed: usize,
    failure: Option<PoolError>,
    resolved: bool,
}

impl<R> Gather<R> {
    /// The buffer: position `i` holds the result for item `i` once its chunk
    /// has reported.
    pub closed spec fn slots(&self) -> Seq<Option<R>> {
        self.slots@
    }

    /// The chunk ranges, as `(offset, length)` pairs.
    pub closed spec fn spans(&self) -> Seq<(nat, nat)> {
        spans_of(self.ranges@)
    }

    /// Which chunks have delivered their results.
    pub closed spec fn reported(&self) -> Seq<bool> {
        self.reported@
    }

    /// The first failure reported, if any.
    pub closed spec fn failure(&self) -> Option<PoolError> {
        self.failure
    }

    /// Whether the operation is over.
    pub closed spec fn resolved(&self) -> bool {
        self.resolved
    }

    /// A report for chunk `c` is still awaited.
    pub open spec fn accepts(&self, c: usize) -> bool {
        !self.resolved() && c < self.spans().len() && !self.reported()[c as int]
    }

    /// Every chunk has delivered its results.
    pub open spec fn all_reported(&self) -> bool {
        forall|k: int| 0 <= k < self.reported().len() ==> #[trigger] self.reported()[k]
    }

    pub closed spec fn wf(&self) -> bool {
        let sp = self.spans();
        let n = self.slots@.len();
        &&& tiles_from(sp, 0, n)
        &&& tiling_facts(sp, 0, n)
        &&& self.reported@.len() == sp.len()
        &&& self.completed == count_true(self.reported@)
        &&& forall|k: int, i: int|
            0 <= k < sp.len() && in_span(sp[k], i) ==> (#[trigger] self.slots@[i] is Some
                <==> #[trigger] self.reported@[k])
        &&& self.failure is Some ==> self.resolved
        &&& self.failure is None ==> (self.resolved <==> self.completed == sp.len())
    }

    /// A buffer of `n_items` empty positions for the chunks of `ranges`. With
    /// no chunk at all the operation is over at once.
    pub fn new(ranges: Vec<ChunkRange>, n_items: usize) -> (g: Gather<R>)
        requires
            tiles_from(spans_of(ranges@), 0, n_items as nat),
        ensures
            g.wf(),
            g.spans() == spans_of(ranges@),
            g.slots().len() == n_items,
            forall|i: int| 0 <= i < n_items ==> #[trigger] g.slots()[i] is None,
            g.reported().len() == ranges@.len(),
            forall|k: int| 0 <= k < ranges@.len() ==> !#[trigger] g.reported()[k],
            g.failure() is None,
            g.resolved() == (ranges@.len() == 0),
    {
        proof {
            lemma_tiles_facts(spans_of(ranges@), 0, n_items as nat);
        }
        let mut slots: Vec<Option<R>> = Vec::new();
        let mut i: usize = 0;
        while i < n_items
            invariant
                i <= n_items,
                slots@.len() == i,
                forall|j: int| 0 <= j < i ==> #[trigger] slots@[j] is None,
            decreases n_items - i,
        {
            slots.push(None);
            i = i + 1;
        }
        let mut reported: Vec<bool> = Vec::new();
        let mut k: usize = 0;
        while k < ranges.len()
            invariant
                k <= ranges@.len(),
                reported@.len() == k,
                forall|j: int| 0 <= j < k ==> !#[trigger] reported@[j],
            decreases ranges@.len() - k,
        {
            reported.push(false);
            k = k + 1;
        }
        proof {
            lemma_count_none(reported@);
        }
        let resolved = ranges.len() == 0;
        Gather { slots, ranges, reported, completed: 0, failure: None, resolved }
    }

    /// Handles the report of chunk `chunk_index`: its results, or the cause
    /// of its failure.
    ///
    /// A report after the end, for a chunk outside the plan, or for a chunk
    /// that already reported is ignored. Results of the chunk's length are
    /// written at the chunk's range and counted; the last chunk to report
    /// ends the operation. A failure, or results of another length, ends the
    /// operation at once with a `WorkerExecution` error naming the chunk.
    pub fn record(&mut self, chunk_index: usize, outcome: Result<Vec<R>, String>) -> (sig: Signal)
        requires
            old(self).wf(),
        ensures
            final(self).wf(),
            final(self).spans() == old(self).spans(),
            final(self).slots().len() == old(self).slots().len(),
            old(self).resolved() ==> final(self).resolved(),
            old(self).failure() is Some ==> final(self).failure() == old(self).failure(),
            !old(self).accepts(chunk_index) ==> sig == Signal::Ignored
                && final(self).slots() == old(self).slots()
                && final(self).reported() == old(self).reported()
                && final(self).failure() == old(self).failure()
                && final(self).resolved() == old(self).resolved(),
            old(self).accepts(chunk_index) ==> ({
                let span = old(self).spans()[chunk_index as int];
                match outcome {
                    Ok(v) => if v@.len() == span.1 {
                        &&& final(self).reported() == old(self).reported().update(chunk_index as int, true)
                        &&& forall|i: int|
                            0 <= i < old(self).slots().len() ==> #[trigger] final(self).slots()[i]
                                == if in_span(span, i) {
                                Some(v@[i - span.0])
                            } else {
                                old(self).slots()[i]
                            }
                        &&& final(self).failure() is None
                        &&& final(self).resolved() == final(self).all_reported()
                        &&& sig == if final(self).resolved() {
                            Signal::Resolve
                        } else {
                            Signal::Pending
                        }
                    } else {
                        &&& final(self).failure() matches Some(
                            PoolError::WorkerExecution { chunk_index: c, cause: _ },
                        ) && c == chunk_index
                        &&& final(self).resolved()
                        &&& sig == Signal::Resolve
                    },
                    Err(cause) => {
                        &&& final(self).failure() == Some(
                            PoolError::WorkerExecution { chunk_index, cause },
                        )
                        &&& final(self).resolved()
                        &&& sig == Signal::Resolve
                    },
                }
            }),
    {
        if self.resolved || chunk_index >= self.ranges.len() || self.reported[chunk_index] {
            return Signal::Ignored;
        }
        proof {
            lemma_tiles_facts(self.spans(), 0, self.slots@.len() as nat);
        }
        let range = self.ranges[chunk_index];
        assert(self.spans()[chunk_index as int] == (range.offset as nat, range.length as nat));
        match outcome {
            Err(cause) => {
                self.failure = Some(PoolError::WorkerExecution { chunk_index, cause });
                self.resolved = true;
                Signal::Resolve
            },
            Ok(v) => {
                if v.len() != range.length {
                    self.failure = Some(
                        PoolError::WorkerExecution {
                            chunk_index,
                            cause: String::from_str("result length does not match the chunk"),
                        },
                    );
                    self.resolved = true;
                    return Signal::Resolve;
                }
                self.store(chunk_index, v);
                let done = self.completed == self.ranges.len();
                assert(done == self.all_reported());
                if done {
                    self.resolved = true;
                    Signal::Resolve
                } else {
                    Signal::Pending
                }
            },
        }
    }

    /// Writes the results of an unreported chunk at its range and counts it.
    fn store(&mut self, chunk_index: usize, v: Vec<R>)
        requires
            old(self).wf(),
            !old(self).resolved,
            chunk_index < old(self).ranges@.len(),
            !old(self).reported@[chunk_index as int],
            v@.len() == old(self).ranges@[chunk_index as int].length,
        ensures
            final(self).ranges@ == old(self).ranges@,
            final(self).failure == old(self).failure,
            final(self).resolved == old(self).resolved,
            final(self).slots@.len() == old(self).slots@.len(),
            final(self).reported@ == old(self).reported@.update(chunk_index as int, true),
            final(self).completed == old(self).completed + 1,
            final(self).completed == final(self).ranges@.len() <==> final(self).all_reported(),
            forall|i: int|
                0 <= i < old(self).slots@.len() ==> #[trigger] final(self).slots@[i] == if in_span(
                    old(self).spans()[chunk_index as int],
                    i,
                ) {
                    Some(v@[i - old(self).ranges@[chunk_index as int].offset])
                } else {
                    old(self).slots@[i]
                },
            tiles_from(final(self).spans(), 0, final(self).slots@.len() as nat),
            tiling_facts(final(self).spans(), 0, final(self).slots@.len() as nat),
            final(self).reported@.len() == final(self).spans().len(),
            final(self).completed == count_true(final(self).reported@),
            forall|k: int, i: int|
                0 <= k < final(self).spans().len() && in_span(final(self).spans()[k], i) ==> (
                #[trigger] final(self).slots@[i] is Some <==> #[trigger] final(self).reported@[k]),
    {
        let ghost sp = self.spans();
        let ghost old_slots = self.slots@;
        let ghost vals = v@;
        let range = self.ranges[chunk_index];
        let offset = range.offset;
        assert(sp[chunk_index as int] == (range.offset as nat, range.length as nat));
        assert(sp[chunk_index as int].0 + sp[chunk_index as int].1 <= old_slots.len());
        let n_slots: usize = self.slots.len();
        let n_chunks: usize = self.reported.len();
        let mut v = v;
        while v.len() > 0
            invariant
                self.ranges@ == old(self).ranges@,
                self.reported@ == old(self).reported@,
                self.completed == old(self).completed,
                self.failure == old(self).failure,
                self.resolved == old(self).resolved,
                offset + vals.len() <= old_slots.len(),
                old_slots.len() == n_slots,
                self.reported@.len() == n_chunks,
                self.spans() == sp,
                self.slots@.len() == old_slots.len(),
                tiling_facts(sp, 0, old_slots.len() as nat),
                0 <= chunk_index < sp.len(),
                sp[chunk_index as int] == (offset as nat, vals.len()),
                v@.len() <= vals.len(),
                v@ == vals.subrange(0, v@.len() as int),
                forall|i: int|
                    0 <= i < old_slots.len() ==> #[trigger] self.slots@[i] == if offset + v@.len()
                        <= i < offset + vals.len() {
                        Some(vals[i - offset])
                    } else {
                        old_slots[i]
                    },
            decreases v@.len(),
        {
            match v.pop() {
                Some(x) => {
                    assert(offset + v@.len() < old_slots.len());
                    self.slots.set(offset + v.len(), Some(x));
                },
                None => {},
            }
        }
        proof {
            lemma_count_update(self.reported@, chunk_index as int);
            lemma_count_bounds(self.reported@.update(chunk_index as int, true));
        }
        assert(self.completed == count_true(old(self).reported@));
        assert(self.reported@.len() == self.ranges@.len());
        self.reported.set(chunk_index, true);
        self.completed = self.completed + 1;
        proof {
            lemma_count_bounds(self.reported@);
            assert(self.completed == self.ranges@.len() <==> self.all_reported());
            let rep = self.reported@;
            assert forall|k: int, i: int|
                0 <= k < sp.len() && in_span(sp[k], i) implies (#[trigger] self.slots@[i] is Some
                <==> #[trigger] rep[k]) by {
                if k != chunk_index {
                    if k < chunk_index {
                        assert(sp[k].0 + sp[k].1 <= sp[chunk_index as int].0);
                    } else {
                        assert(sp[chunk_index as int].0 + sp[chunk_index as int].1 <= sp[k].0);
                    }
                    assert(old(self).reported@[k] == rep[k]);
                }
            }
        }
    }

    /// Ends the operation: the first failure reported, or else the whole
    /// buffer in order.
    pub fn finish(self) -> (r: Result<Vec<R>, PoolError>)
        requires
            self.wf(),
            self.resolved(),
        ensures
            self.failure() is Some ==> r == Err::<Vec<R>, PoolError>(self.failure()->0),
            self.failure() is None ==> r is Ok && self.all_reported() && r->Ok_0@.len()
                == self.slots().len() && forall|i: int|
                0 <= i < self.slots().len() ==> self.slots()[i] == Some(#[trigger] r->Ok_0@[i]),
    {
        match self.failure {
            Some(e) => Err(e),
            None => {
                let ghost all = self.slots@;
                let n: usize = self.slots.len();
                proof {
                    lemma_count_bounds(self.reported@);
                    assert forall|i: int| 0 <= i < n implies #[trigger] all[i] is Some by {
                        assert(covered(self.spans(), i as nat));
                        let k = choose|k: int|
                            0 <= k < self.spans().len() && #[trigger] self.spans()[k].0 <= i
                                < self.spans()[k].0 + self.spans()[k].1;
                        assert(in_span(self.spans()[k], i));
                        assert(self.reported@[k]);
                    }
                }
                let mut slots = self.slots;
                let mut rev: Vec<R> = Vec::new();
                while slots.len() > 0
                    invariant
                        n == all.len(),
                        forall|i: int| 0 <= i < n ==> #[trigger] all[i] is Some,
                        slots@.len() + rev@.len() == n,
                        slots@ == all.subrange(0, slots@.len() as int),
                        forall|j: int|
                            0 <= j < rev@.len() ==> all[n - 1 - j] == Some(#[trigger] rev@[j]),
                    decreases slots@.len(),
                {
                    match slots.pop() {
                        Some(Some(x)) => {
                            rev.push(x);
                        },
                        _ => {},
                    }
                }
                let mut out: Vec<R> = Vec::new();
                while rev.len() > 0
                    invariant
                        n == all.len(),
                        out@.len() + rev@.len() == n,
                        forall|j: int| 0 <= j < out@.len() ==> all[j] == Some(#[trigger] out@[j]),
                        forall|j: int|
                            0 <= j < rev@.len() ==> all[n - 1 - j] == Some(#[trigger] rev@[j]),
                    decreases rev@.len(),
                {
                    match rev.pop() {
                        Some(x) => {
                            out.push(x);
                        },
                        None => {},
                    }
                }
                Ok(out)
            },
        }
    }

    /// Whether the operation is over.
    pub fn is_resolved(&self) -> (b: bool)
        ensures
            b == self.resolved(),
    {
        self.resolved
    }
}

} // verus!
