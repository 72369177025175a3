use crate::error::PoolError;
use crate::gather::{Gather, in_span};
use crate::plan::{
    ChunkRange, lemma_plan_partitions, lemma_tiles_facts, plan, plan_chunks, spans_of, tiles_from,
};
use crate::registry::PoolRegistry;
use vstd::prelude::*;

verus! {

/// The work of one chunk: its items, and the position of the first of them in
/// the whole input.
pub struct ChunkTask<T> {
    pub chunk_index: usize,
    pub offset: usize,
    pub items: Vec<T>,
}

/// `r` holds, at each position `i`, a result of `f` on `i` and `items[i]`.
pub open spec fn mapped_by<T, R, F: Fn(usize, T) -> R>(f: F, items: Seq<T>, r: Seq<R>) -> bool {
    &&& r.len() == items.len()
    &&& forall|i: int| 0 <= i < items.len() ==> f.ensures((i as usize, items[i]), #[trigger] r[i])
}

/// The items in reverse order.
fn reversed<T>(items: Vec<T>) -> (r: Vec<T>)
    ensures
        r@.len() == items@.len(),
        forall|j: int| 0 <= j < r@.len() ==> #[trigger] r@[j] == items@[items@.len() - 1 - j],
{
    let ghost all = items@;
    let mut items = items;
    let mut r: Vec<T> = Vec::new();
    while items.len() > 0
        invariant
            items@.len() + r@.len() == all.len(),
            items@ == all.subrange(0, items@.len() as int),
            forall|j: int| 0 <= j < r@.len() ==> #[trigger] r@[j] == all[all.len() - 1 - j],
        decreases items@.len(),
    {
        match items.pop() {
            Some(x) => {
                r.push(x);
            },
            None => {},
        }
    }
    r
}

/// One task per range, in the order of the ranges, each holding the items of
/// its range.
pub fn build_tasks<T>(items: Vec<T>, ranges: &Vec<ChunkRange>) -> (tasks: Vec<ChunkTask<T>>)
    requires
        tiles_from(spans_of(ranges@), 0, items@.len()),
    ensures
        tasks@.len() == ranges@.len(),
        forall|k: int|
            0 <= k < tasks@.len() ==> (#[trigger] tasks@[k]).chunk_index == k && tasks@[k].offset
                == ranges@[k].offset && tasks@[k].items@ == items@.subrange(
                ranges@[k].offset as int,
                ranges@[k].offset + ranges@[k].length,
            ),
{
    let ghost all = items@;
    let n: usize = items.len();
    let ghost sp = spans_of(ranges@);
    proof {
        lemma_tiles_facts(sp, 0, n as nat);
    }
    let mut rev = reversed(items);
    let mut tasks: Vec<ChunkTask<T>> = Vec::new();
    let mut consumed: usize = 0;
    let mut k: usize = 0;
    while k < ranges.len()
        invariant
            n == all.len(),
            sp == spans_of(ranges@),
            tiles_from(sp, 0, n as nat),
            crate::plan::tiling_facts(sp, 0, n as nat),
            k <= ranges@.len(),
            tasks@.len() == k,
            k < ranges@.len() ==> consumed == ranges@[k as int].offset,
            k == ranges@.len() ==> consumed == n,
            consumed <= n,
            rev@.len() == n - consumed,
            forall|j: int| 0 <= j < rev@.len() ==> #[trigger] rev@[j] == all[n - 1 - j],
            forall|q: int|
                0 <= q < k ==> (#[trigger] tasks@[q]).chunk_index == q && tasks@[q].offset
                    == ranges@[q].offset && tasks@[q].items@ == all.subrange(
                    ranges@[q].offset as int,
                    ranges@[q].offset + ranges@[q].length,
                ),
        decreases ranges@.len() - k,
    {
        let range = ranges[k];
        assert(sp[k as int] == (range.offset as nat, range.length as nat));
        assert(0 <= sp[k as int].0 && sp[k as int].0 + sp[k as int].1 <= n);
        let mut chunk: Vec<T> = Vec::new();
        let mut j: usize = 0;
        while j < range.length
            invariant
                n == all.len(),
                range.offset == consumed,
                consumed + range.length <= n,
                j <= range.length,
                chunk@ == all.subrange(consumed as int, consumed + j),
                rev@.len() == n - consumed - j,
                forall|q: int| 0 <= q < rev@.len() ==> #[trigger] rev@[q] == all[n - 1 - q],
            decreases range.length - j,
        {
            match rev.pop() {
                Some(x) => {
                    chunk.push(x);
                },
                None => {},
            }
            assert(chunk@ =~= all.subrange(consumed as int, consumed + j + 1));
            j = j + 1;
        }
        tasks.push(ChunkTask { chunk_index: k, offset: range.offset, items: chunk });
        consumed = consumed + range.length;
        k = k + 1;
        proof {
            if k < ranges@.len() {
                assert(sp[(k - 1) + 1].0 == sp[k - 1].0 + sp[k - 1].1);
            } else {
                assert(sp.last() == sp[k - 1]);
            }
        }
    }
    tasks
}

/// Applies `f` to every item of the task with its position in the whole
/// input, keeping the order of the items.
pub fn run_chunk<T, R, F: Fn(usize, T) -> R>(task: ChunkTask<T>, f: &F) -> (r: Vec<R>)
    requires
        task.offset + task.items@.len() <= usize::MAX,
        forall|i: usize, x: T| f.requires((i, x)),
    ensures
        r@.len() == task.items@.len(),
        forall|j: int|
            0 <= j < r@.len() ==> f.ensures(
                ((task.offset + j) as usize, task.items@[j]),
                #[trigger] r@[j],
            ),
{
    let ghost all = task.items@;
    let offset = task.offset;
    let mut rev = reversed(task.items);
    let mut out: Vec<R> = Vec::new();
    while rev.len() > 0
        invariant
            offset + all.len() <= usize::MAX,
            forall|i: usize, x: T| f.requires((i, x)),
            out@.len() + rev@.len() == all.len(),
            forall|q: int| 0 <= q < rev@.len() ==> #[trigger] rev@[q] == all[all.len() - 1 - q],
            forall|j: int|
                0 <= j < out@.len() ==> f.ensures(((offset + j) as usize, all[j]), #[trigger] out@[j]),
        decreases rev@.len(),
    {
        let index = offset + out.len();
        match rev.pop() {
            Some(x) => {
                let y = f(index, x);
                out.push(y);
            },
            None => {},
        }
    }
    out
}

/// Maps `f` over `items` chunk by chunk on the pool recorded in `registry`:
/// plans one range per worker, builds one task per range, runs every task and
/// gathers each chunk's results at its own range. The result keeps the order
/// of the input, whatever the order in which the chunks complete.
///
/// Fails with `NotInitialized` before the pool exists, and with
/// `ConcurrentInvocation` while another map operation is in flight.
pub fn parallel_map<T, R, F: Fn(usize, T) -> R>(
    registry: &mut PoolRegistry,
    items: Vec<T>,
    f: F,
) -> (r: Result<Vec<R>, PoolError>)
    requires
        old(registry).wf(),
        forall|i: usize, x: T| f.requires((i, x)),
    ensures
        final(registry).wf(),
        final(registry).pool_size() == old(registry).pool_size(),
        old(registry).pool_size() is None ==> r == Err::<Vec<R>, PoolError>(
            PoolError::NotInitialized,
        ) && !final(registry).busy(),
        old(registry).pool_size() is Some && old(registry).busy() ==> r == Err::<Vec<R>, PoolError>(
            PoolError::ConcurrentInvocation,
        ) && final(registry).busy(),
        old(registry).pool_size() is Some && !old(registry).busy() ==> r is Ok && mapped_by(
            f,
            items@,
            r->Ok_0@,
        ) && !final(registry).busy(),
{
    let size = match registry.begin_map() {
        Ok(size) => size,
        Err(e) => {
            return Err(e);
        },
    };
    let ghost all = items@;
    let n: usize = items.len();
    let ranges = plan_chunks(n, size);
    let ghost sp = spans_of(ranges@);
    proof {
        lemma_plan_partitions(n as nat, size as nat);
        lemma_tiles_facts(sp, 0, n as nat);
    }
    let mut tasks = build_tasks(items, &ranges);
    let mut gather: Gather<R> = Gather::new(ranges, n);
    // Chunks may complete in any order; here the last one comes first.
    while tasks.len() > 0
        invariant
            n == all.len(),
            forall|i: usize, x: T| f.requires((i, x)),
            gather.wf(),
            gather.spans() == sp,
            gather.slots().len() == n,
            gather.reported().len() == sp.len(),
            gather.failure() is None,
            crate::plan::tiling_facts(sp, 0, n as nat),
            tasks@.len() <= sp.len(),
            gather.resolved() <==> tasks@.len() == 0,
            forall|q: int| 0 <= q < sp.len() ==> (#[trigger] gather.reported()[q] <==> q >= tasks@.len()),
            forall|q: int|
                0 <= q < tasks@.len() ==> (#[trigger] tasks@[q]).chunk_index == q && tasks@[q].offset
                    == sp[q].0 && tasks@[q].items@ == all.subrange(
                    sp[q].0 as int,
                    (sp[q].0 + sp[q].1) as int,
                ),
            forall|i: int|
                0 <= i < n && #[trigger] gather.slots()[i] is Some ==> f.ensures(
                    (i as usize, all[i]),
                    gather.slots()[i]->0,
                ),
        decreases tasks@.len(),
    {
        let ghost m: int = tasks@.len() as int;
        match tasks.pop() {
            Some(task) => {
                let ghost q = m - 1;
                let chunk_index = task.chunk_index;
                let ghost off = task.offset;
                let ghost chunk_items = task.items@;
                assert(sp[q].0 + sp[q].1 <= n);
                let out = run_chunk(task, &f);
                gather.record(chunk_index, Ok(out));
                assert forall|i: int|
                    0 <= i < n && #[trigger] gather.slots()[i] is Some implies f.ensures(
                    (i as usize, all[i]),
                    gather.slots()[i]->0,
                ) by {
                    if in_span(sp[q], i) {
                        assert(chunk_items[i - off] == all[i]);
                    }
                }
                proof {
                    if m > 1 {
                        assert(!gather.reported()[0]);
                    }
                }
            },
            None => {},
        }
    }
    let r = gather.finish();
    registry.end_map();
    r
}

/// Mapping the identity gives back the input unchanged and in order.
pub proof fn lemma_identity_map<T, F: Fn(usize, T) -> T>(f: F, items: Seq<T>, r: Seq<T>)
    requires
        forall|i: usize, x: T, y: T| f.ensures((i, x), y) ==> y == x,
        mapped_by(f, items, r),
    ensures
        r == items,
{
    assert forall|i: int| 0 <= i < items.len() implies r[i] == items[i] by {
        assert(f.ensures((i as usize, items[i]), r[i]));
    }
    assert(r =~= items);
}

} // verus!
