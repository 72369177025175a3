use wasm_parallel_map::dispatch::{build_tasks, parallel_map, run_chunk, ChunkTask};
use wasm_parallel_map::error::PoolError;
use wasm_parallel_map::gather::{Gather, Signal};
use wasm_parallel_map::plan::{plan_chunks, ChunkRange};
use wasm_parallel_map::registry::{init_thread_pool, num_threads, PoolRegistry};

fn pool_of(size: usize) -> PoolRegistry {
    let mut registry = PoolRegistry::new();
    init_thread_pool(&mut registry, size).unwrap();
    registry
}

fn ranges(pairs: &[(usize, usize)]) -> Vec<ChunkRange> {
    pairs
        .iter()
        .map(|&(offset, length)| ChunkRange { offset, length })
        .collect()
}

#[test]
fn plan_uneven_shortens_last_chunk() {
    assert_eq!(plan_chunks(10, 4), ranges(&[(0, 3), (3, 3), (6, 3), (9, 1)]));
}

#[test]
fn plan_even_split() {
    assert_eq!(plan_chunks(8, 4), ranges(&[(0, 2), (2, 2), (4, 2), (6, 2)]));
}

#[test]
fn plan_fewer_items_than_chunks_omits_empty_chunks() {
    assert_eq!(plan_chunks(2, 4), ranges(&[(0, 1), (1, 1)]));
}

#[test]
fn plan_of_no_items_is_empty() {
    assert!(plan_chunks(0, 4).is_empty());
    assert!(plan_chunks(0, 1).is_empty());
}

#[test]
fn plan_seventeen_over_four() {
    assert_eq!(plan_chunks(17, 4), ranges(&[(0, 5), (5, 5), (10, 5), (15, 2)]));
}

#[test]
fn plan_partitions_every_small_case() {
    for n in 0..60usize {
        for c in 1..12usize {
            let plan = plan_chunks(n, c);
            let size = (n + c - 1) / c;
            let mut next = 0usize;
            for (k, r) in plan.iter().enumerate() {
                assert_eq!(r.offset, next);
                assert!(r.length >= 1);
                if k + 1 < plan.len() {
                    assert_eq!(r.length, size);
                    assert!(r.length == n / c || r.length == n / c + 1);
                } else {
                    assert!(r.length <= size);
                }
                next += r.length;
            }
            assert_eq!(next, n);
            assert!(plan.len() <= c);
            assert_eq!(plan.is_empty(), n == 0);
        }
    }
}

#[test]
fn num_threads_before_init_fails() {
    let registry = PoolRegistry::new();
    assert_eq!(num_threads(&registry), Err(PoolError::NotInitialized));
}

#[test]
fn num_threads_after_init() {
    let mut registry = PoolRegistry::new();
    assert_eq!(init_thread_pool(&mut registry, 8), Ok(()));
    assert_eq!(num_threads(&registry), Ok(8));
}

#[test]
fn init_twice_fails() {
    let mut registry = PoolRegistry::new();
    assert_eq!(init_thread_pool(&mut registry, 8), Ok(()));
    assert_eq!(
        init_thread_pool(&mut registry, 2),
        Err(PoolError::AlreadyInitialized)
    );
    assert_eq!(num_threads(&registry), Ok(8));
}

#[test]
fn parallel_map_before_init_fails() {
    let mut registry = PoolRegistry::new();
    let r = parallel_map(&mut registry, vec![1u32, 2], |_i: usize, x: u32| x);
    assert_eq!(r, Err(PoolError::NotInitialized));
}

#[test]
fn parallel_map_identity_keeps_items() {
    let pool = 4usize;
    let mut registry = pool_of(pool);
    for len in [0, 1, pool - 1, pool, pool + 1, 10 * pool] {
        let items: Vec<u64> = (0..len as u64).map(|x| x * 7 + 3).collect();
        let r = parallel_map(&mut registry, items.clone(), |_i: usize, x: u64| x).unwrap();
        assert_eq!(r, items);
    }
}

#[test]
fn parallel_map_uses_global_indices() {
    let mut registry = pool_of(4);
    let items: Vec<u64> = (0..17u64).map(|x| 100 + x).collect();
    let f = |i: usize, x: u64| x * 10 + i as u64;
    let r = parallel_map(&mut registry, items.clone(), f).unwrap();
    assert_eq!(r.len(), 17);
    for i in 0..17usize {
        assert_eq!(r[i], f(i, items[i]));
    }
    assert_eq!(r[16], 1160 + 16);
}

#[test]
fn parallel_map_of_nothing_dispatches_nothing() {
    let mut registry = pool_of(4);
    let r = parallel_map(&mut registry, Vec::<u8>::new(), |_i: usize, x: u8| x).unwrap();
    assert!(r.is_empty());
    let plan = plan_chunks(0, 4);
    assert!(plan.is_empty());
    let tasks = build_tasks(Vec::<u8>::new(), &plan);
    assert!(tasks.is_empty());
}

#[test]
fn parallel_map_strings() {
    let mut registry = pool_of(3);
    let items: Vec<String> = vec!["a".to_string(), "bb".to_string(), "ccc".to_string(), "d".to_string()];
    let r = parallel_map(&mut registry, items, |i: usize, s: String| format!("{i}:{s}")).unwrap();
    assert_eq!(r, vec!["0:a", "1:bb", "2:ccc", "3:d"]);
}

#[test]
fn second_map_while_one_is_in_flight_is_rejected() {
    let mut registry = pool_of(2);
    assert_eq!(registry.begin_map(), Ok(2));
    let r = parallel_map(&mut registry, vec![1u8], |_i: usize, x: u8| x);
    assert_eq!(r, Err(PoolError::ConcurrentInvocation));
    registry.end_map();
    let r = parallel_map(&mut registry, vec![1u8], |_i: usize, x: u8| x + 1);
    assert_eq!(r, Ok(vec![2u8]));
}

#[test]
fn begin_map_before_init_fails() {
    let mut registry = PoolRegistry::new();
    assert_eq!(registry.begin_map(), Err(PoolError::NotInitialized));
}

#[test]
fn build_tasks_splits_items() {
    let plan = plan_chunks(5, 2);
    let tasks = build_tasks(vec![10, 11, 12, 13, 14], &plan);
    assert_eq!(tasks.len(), 2);
    assert_eq!(tasks[0].chunk_index, 0);
    assert_eq!(tasks[0].offset, 0);
    assert_eq!(tasks[0].items, vec![10, 11, 12]);
    assert_eq!(tasks[1].chunk_index, 1);
    assert_eq!(tasks[1].offset, 3);
    assert_eq!(tasks[1].items, vec![13, 14]);
}

#[test]
fn run_chunk_passes_global_index() {
    let task = ChunkTask { chunk_index: 1, offset: 5, items: vec!['a', 'b', 'c'] };
    let r = run_chunk(task, &|i: usize, x: char| (i, x));
    assert_eq!(r, vec![(5, 'a'), (6, 'b'), (7, 'c')]);
}

#[test]
fn gather_in_any_completion_order() {
    let plan = plan_chunks(7, 3);
    let mut g: Gather<u32> = Gather::new(plan, 7);
    assert!(!g.is_resolved());
    assert_eq!(g.record(2, Ok(vec![60])), Signal::Pending);
    assert_eq!(g.record(0, Ok(vec![0, 10, 20])), Signal::Pending);
    assert_eq!(g.record(1, Ok(vec![30, 40, 50])), Signal::Resolve);
    assert!(g.is_resolved());
    assert_eq!(g.finish(), Ok(vec![0, 10, 20, 30, 40, 50, 60]));
}

#[test]
fn one_failed_chunk_fails_the_map() {
    let plan = plan_chunks(17, 4);
    let mut g: Gather<u32> = Gather::new(plan, 17);
    assert_eq!(g.record(0, Ok(vec![1; 5])), Signal::Pending);
    assert_eq!(g.record(2, Err("worker crashed".to_string())), Signal::Resolve);
    assert!(g.is_resolved());
    assert_eq!(g.record(1, Ok(vec![1; 5])), Signal::Ignored);
    assert_eq!(g.record(3, Ok(vec![1; 2])), Signal::Ignored);
    assert_eq!(
        g.finish(),
        Err(PoolError::WorkerExecution { chunk_index: 2, cause: "worker crashed".to_string() })
    );
}

#[test]
fn wrong_result_length_fails_the_chunk() {
    let plan = plan_chunks(4, 2);
    let mut g: Gather<u8> = Gather::new(plan, 4);
    assert_eq!(g.record(1, Ok(vec![1, 2, 3])), Signal::Resolve);
    match g.finish() {
        Err(PoolError::WorkerExecution { chunk_index, .. }) => assert_eq!(chunk_index, 1),
        other => panic!("unexpected {:?}", other),
    }
}

#[test]
fn unknown_or_repeated_chunks_are_ignored() {
    let plan = plan_chunks(4, 2);
    let mut g: Gather<u8> = Gather::new(plan, 4);
    assert_eq!(g.record(5, Ok(vec![1, 2])), Signal::Ignored);
    assert_eq!(g.record(0, Ok(vec![1, 2])), Signal::Pending);
    assert_eq!(g.record(0, Ok(vec![9, 9])), Signal::Ignored);
    assert_eq!(g.record(1, Ok(vec![3, 4])), Signal::Resolve);
    assert_eq!(g.finish(), Ok(vec![1, 2, 3, 4]));
}

#[test]
fn gather_with_no_chunks_is_resolved_at_once() {
    let g: Gather<u8> = Gather::new(Vec::new(), 0);
    assert!(g.is_resolved());
    assert_eq!(g.finish(), Ok(Vec::new()));
}

#[test]
fn plan_of_the_largest_count() {
    assert_eq!(plan_chunks(usize::MAX, 1), ranges(&[(0, usize::MAX)]));
    let half = usize::MAX / 2 + 1;
    assert_eq!(plan_chunks(usize::MAX, 2), ranges(&[(0, half), (half, usize::MAX - half)]));
}
