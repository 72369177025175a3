use vstd::arithmetic::div_mod::{
    lemma_div_decreases, lemma_div_nonincreasing, lemma_fundamental_div_mod_converse, lemma_small_mod,
};
use vstd::prelude::*;

verus! {

/// One contiguous range `[offset, offset + length)` of the input.
#[derive(Clone, Copy, Debug, PartialEq, Eq)]
pub struct ChunkRange {
    pub offset: usize,
    pub length: usize,
}

/// The ranges as `(offset, length)` pairs of natural numbers.
pub open spec fn spans_of(v: Seq<ChunkRange>) -> Seq<(nat, nat)> {
    v.map_values(|r: ChunkRange| (r.offset as nat, r.length as nat))
}

/// The length of every chunk but the last: `ceil(n / c)`.
pub open spec fn chunk_size(n: nat, c: nat) -> nat
    recommends
        c >= 1,
{
    if n % c == 0 {
        n / c
    } else {
        n / c + 1
    }
}

/// Consecutive ranges of `size` items from `offset` on, the last one shortened
/// so that the ranges end exactly at `n`.
pub open spec fn spans_from(offset: nat, n: nat, size: nat) -> Seq<(nat, nat)>
    decreases n - offset,
{
    if size == 0 || offset >= n {
        Seq::empty()
    } else {
        let len: nat = if size < n - offset { size } else { (n - offset) as nat };
        seq![(offset, len)] + spans_from(offset + len, n, size)
    }
}

/// The plan of `n` items over `c` chunks.
pub open spec fn plan(n: nat, c: nat) -> Seq<(nat, nat)> {
    spans_from(0, n, chunk_size(n, c))
}

/// `sp` covers `[start, n)` with nonempty ranges, each one starting where the
/// one before it ends.
pub open spec fn tiles_from(sp: Seq<(nat, nat)>, start: nat, n: nat) -> bool {
    &&& sp.len() == 0 ==> start == n
    &&& sp.len() > 0 ==> sp[0].0 == start && sp.last().0 + sp.last().1 == n
    &&& forall|k: int| 0 <= k < sp.len() - 1 ==> #[trigger] sp[k + 1].0 == sp[k].0 + sp[k].1
    &&& forall|k: int| 0 <= k < sp.len() ==> #[trigger] sp[k].1 >= 1
}

/// The sum of the lengths of the ranges.
pub open spec fn total_length(sp: Seq<(nat, nat)>) -> nat
    decreases sp.len(),
{
    if sp.len() == 0 {
        0
    } else {
        sp[0].1 + total_length(sp.drop_first())
    }
}

/// Position `i` lies in one of the ranges.
pub open spec fn covered(sp: Seq<(nat, nat)>, i: nat) -> bool {
    exists|k: int| 0 <= k < sp.len() && #[trigger] sp[k].0 <= i < sp[k].0 + sp[k].1
}

/// What a tiling of `[start, n)` offers to the code that writes into it: the
/// ranges stay inside, are ordered and pairwise disjoint, every position lies
/// in one of them, and the lengths sum to `n - start`.
pub open spec fn tiling_facts(sp: Seq<(nat, nat)>, start: nat, n: nat) -> bool {
    &&& forall|k: int| 0 <= k < sp.len() ==> start <= #[trigger] sp[k].0 && sp[k].0 + sp[k].1 <= n
    &&& forall|j: int, k: int|
        0 <= j < k < sp.len() ==> #[trigger] sp[j].0 + sp[j].1 <= #[trigger] sp[k].0
    &&& forall|i: nat| start <= i < n ==> #[trigger] covered(sp, i)
    &&& total_length(sp) == n - start
}

pub proof fn lemma_tiles_facts(sp: Seq<(nat, nat)>, start: nat, n: nat)
    requires
        tiles_from(sp, start, n),
    ensures
        tiling_facts(sp, start, n),
    decreases sp.len(),
{
    if sp.len() > 0 {
        let rest = sp.drop_first();
        let next: nat = start + sp[0].1;
        if rest.len() > 0 {
            assert(sp[0int + 1].0 == sp[0].0 + sp[0].1);
            assert(rest.last() == sp.last());
        } else {
            assert(sp.last() == sp[0]);
        }
        assert forall|k: int| 0 <= k < rest.len() - 1 implies #[trigger] rest[k + 1].0 == rest[k].0
            + rest[k].1 by {
            assert(sp[(k + 1) + 1].0 == sp[k + 1].0 + sp[k + 1].1);
        }
        assert forall|k: int| 0 <= k < rest.len() implies #[trigger] rest[k].1 >= 1 by {
            assert(sp[k + 1].1 >= 1);
        }
        assert(tiles_from(rest, next, n));
        lemma_tiles_facts(rest, next, n);
        assert forall|k: int| 0 <= k < sp.len() implies start <= #[trigger] sp[k].0 && sp[k].0
            + sp[k].1 <= n by {
            if k > 0 {
                assert(sp[k] == rest[k - 1]);
            }
        }
        assert forall|j: int, k: int| 0 <= j < k < sp.len() implies #[trigger] sp[j].0 + sp[j].1
            <= #[trigger] sp[k].0 by {
            assert(sp[k] == rest[k - 1]);
            if j > 0 {
                assert(sp[j] == rest[j - 1]);
            }
        }
        assert forall|i: nat| start <= i < n implies #[trigger] covered(sp, i) by {
            if i >= next {
                assert(covered(rest, i));
                let k = choose|k: int| 0 <= k < rest.len() && #[trigger] rest[k].0 <= i < rest[k].0 + rest[k].1;
                assert(sp[k + 1] == rest[k]);
            } else {
                assert(sp[0].0 <= i < sp[0].0 + sp[0].1);
            }
        }
    }
}

proof fn lemma_chunk_size_positive(n: nat, c: nat)
    requires
        c >= 1,
        n >= 1,
    ensures
        chunk_size(n, c) >= 1,
{
    if n < c {
        lemma_small_mod(n, c);
    } else {
        assert(n / c >= 1) by (nonlinear_arith)
            requires
                n >= c,
                c >= 1,
        ;
    }
}

proof fn lemma_spans_from_tiles(offset: nat, n: nat, size: nat)
    requires
        offset <= n,
        offset < n ==> size >= 1,
    ensures
        tiles_from(spans_from(offset, n, size), offset, n),
        forall|k: int|
            0 <= k < spans_from(offset, n, size).len() ==> #[trigger] spans_from(offset, n, size)[k].1
                <= size,
        forall|k: int|
            0 <= k < spans_from(offset, n, size).len() - 1 ==> #[trigger] spans_from(
                offset,
                n,
                size,
            )[k].1 == size,
    decreases n - offset,
{
    if offset < n {
        let sp = spans_from(offset, n, size);
        let len: nat = if size < n - offset { size } else { (n - offset) as nat };
        let rest = spans_from(offset + len, n, size);
        lemma_spans_from_tiles(offset + len, n, size);
        assert(sp == seq![(offset, len)] + rest);
        assert(sp.drop_first() =~= rest);
        assert forall|k: int| 0 <= k < sp.len() - 1 implies #[trigger] sp[k + 1].0 == sp[k].0
            + sp[k].1 by {
            if k > 0 {
                assert(rest[(k - 1) + 1].0 == rest[k - 1].0 + rest[k - 1].1);
            }
        }
        if rest.len() > 0 {
            assert(sp.last() == rest.last());
            assert(len == size);
        }
    } else {
        assert(spans_from(offset, n, size) =~= Seq::<(nat, nat)>::empty());
    }
}

/// For every item count `n` and chunk count `c >= 1` the plan tiles `[0, n)`:
/// its ranges are ordered, disjoint and contiguous and their lengths sum to
/// `n`; there is no range when `n` is zero; and every range but the last holds
/// `chunk_size(n, c)` items, which lies between `n / c` and `n / c + 1`.
pub proof fn lemma_plan_partitions(n: nat, c: nat)
    requires
        c >= 1,
    ensures
        tiles_from(plan(n, c), 0, n),
        tiling_facts(plan(n, c), 0, n),
        n == 0 <==> plan(n, c).len() == 0,
        n / c <= chunk_size(n, c) <= n / c + 1,
        forall|k: int| 0 <= k < plan(n, c).len() ==> #[trigger] plan(n, c)[k].1 <= chunk_size(n, c),
        forall|k: int|
            0 <= k < plan(n, c).len() - 1 ==> #[trigger] plan(n, c)[k].1 == chunk_size(n, c),
{
    if n >= 1 {
        lemma_chunk_size_positive(n, c);
    }
    lemma_spans_from_tiles(0, n, chunk_size(n, c));
    lemma_tiles_facts(plan(n, c), 0, n);
}

proof fn lemma_spans_from_offsets(offset: nat, n: nat, size: nat)
    requires
        offset <= n,
        size >= 1,
    ensures
        forall|k: int|
            0 <= k < spans_from(offset, n, size).len() ==> #[trigger] spans_from(offset, n, size)[k].0
                == offset + k * size,
    decreases n - offset,
{
    if offset < n {
        let sp = spans_from(offset, n, size);
        let len: nat = if size < n - offset { size } else { (n - offset) as nat };
        let rest = spans_from(offset + len, n, size);
        lemma_spans_from_offsets(offset + len, n, size);
        lemma_spans_from_tiles(offset, n, size);
        assert(sp == seq![(offset, len)] + rest);
        assert forall|k: int| 0 <= k < sp.len() implies #[trigger] sp[k].0 == offset + k * size by {
            if k > 0 {
                assert(sp[k] == rest[k - 1]);
                assert(rest[k - 1].0 == offset + len + (k - 1) * size);
                assert(sp[0].1 == size);
                assert(offset + size + (k - 1) * size == offset + k * size) by (nonlinear_arith);
            } else {
                assert(k * size == 0) by (nonlinear_arith)
                    requires
                        k == 0,
                ;
            }
        }
    }
}

/// Where the last chunk holds at least `n / c` items, that is where
/// `(n - 1) % chunk_size(n, c) + 1 >= n / c`, every range of the plan holds
/// `n / c` or `n / c + 1` items. (Elsewhere the last chunk is shorter: 10
/// items over 4 chunks are planned as 3, 3, 3 and 1.)
pub proof fn lemma_plan_balanced(n: nat, c: nat)
    requires
        c >= 1,
        n == 0 || (n - 1) % (chunk_size(n, c) as int) + 1 >= n / c,
    ensures
        forall|k: int|
            0 <= k < plan(n, c).len() ==> n / c <= #[trigger] plan(n, c)[k].1 <= n / c + 1,
{
    lemma_plan_partitions(n, c);
    if n > 0 {
        let s = chunk_size(n, c);
        let sp = plan(n, c);
        lemma_chunk_size_positive(n, c);
        lemma_spans_from_offsets(0, n, s);
        let last = sp.len() - 1;
        assert(sp[last] == sp.last());
        assert(sp[last].0 == last * s);
        lemma_fundamental_div_mod_converse(n - 1, s as int, last, sp[last].1 - 1);
    }
}

/// Splits `[0, n_items)` into consecutive ranges of `ceil(n_items / n_chunks)`
/// items, the last one shortened; no range at all when there are no items.
pub fn plan_chunks(n_items: usize, n_chunks: usize) -> (r: Vec<ChunkRange>)
    requires
        n_chunks >= 1,
    ensures
        spans_of(r@) == plan(n_items as nat, n_chunks as nat),
{
    proof {
        if n_items % n_chunks != 0 {
            if n_chunks == 1 {
                assert(n_items % 1 == 0);
            }
            if n_items == 0 {
                lemma_small_mod(0, n_chunks as nat);
            }
            lemma_div_decreases(n_items as int, n_chunks as int);
        }
    }
    let size: usize = if n_items % n_chunks == 0 {
        n_items / n_chunks
    } else {
        n_items / n_chunks + 1
    };
    proof {
        if n_items > 0 && n_items < n_chunks {
            lemma_small_mod(n_items as nat, n_chunks as nat);
        }
        if n_items >= n_chunks {
            lemma_div_nonincreasing(n_chunks as int, n_chunks as int);
            assert(n_items / n_chunks >= 1) by (nonlinear_arith)
                requires
                    n_items >= n_chunks,
                    n_chunks >= 1,
            ;
        }
    }
    let mut r: Vec<ChunkRange> = Vec::new();
    let mut offset: usize = 0;
    while offset < n_items
        invariant
            offset <= n_items,
            n_chunks >= 1,
            size as nat == chunk_size(n_items as nat, n_chunks as nat),
            n_items > 0 ==> size >= 1,
            spans_of(r@) + spans_from(offset as nat, n_items as nat, size as nat) == plan(
                n_items as nat,
                n_chunks as nat,
            ),
        decreases n_items - offset,
    {
        let length: usize = if size < n_items - offset {
            size
        } else {
            n_items - offset
        };
        let ghost before = r@;
        let range = ChunkRange { offset, length };
        r.push(range);
        proof {
            let rest = spans_from((offset + length) as nat, n_items as nat, size as nat);
            assert(spans_of(r@) =~= spans_of(before).push((offset as nat, length as nat)));
            assert(spans_from(offset as nat, n_items as nat, size as nat) == seq![
                (offset as nat, length as nat),
            ] + rest);
            assert(spans_of(before) + (seq![(offset as nat, length as nat)] + rest) =~= spans_of(
                r@,
            ) + rest);
        }
        offset = offset + length;
    }
    proof {
        assert(spans_from(offset as nat, n_items as nat, size as nat) =~= Seq::empty());
        assert(spans_of(r@) + Seq::<(nat, nat)>::empty() =~= spans_of(r@));
    }
    r
}

} // verus!
