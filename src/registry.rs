use crate::error::PoolError;
use once_cell::sync::OnceCell;
use vstd::prelude::*;

verus! {

#[verifier::external_type_specification]
#[verifier::external_body]
#[verifier::reject_recursive_types(T)]
pub struct ExOnceCell<T>(OnceCell<T>);

/// The value held by a once-cell, if it has been set.
pub uninterp spec fn cell_contents(c: OnceCell<usize>) -> Option<usize>;

/// Relies on `once_cell::sync::OnceCell::new`: the new cell is empty.
#[verifier::external_body]
fn cell_new() -> (r: OnceCell<usize>)
    ensures
        cell_contents(r) == None::<usize>,
{
    OnceCell::new()
}

/// Relies on `once_cell::sync::OnceCell::get`: the value once set, `None` before.
#[verifier::external_body]
fn cell_get(c: &OnceCell<usize>) -> (r: Option<usize>)
    ensures
        r == cell_contents(*c),
{
    c.get().copied()
}

/// Relies on `once_cell::sync::OnceCell::set`: an empty cell takes the value and
/// returns `Ok`; a full one keeps its value and hands the new one back in `Err`.
#[verifier::external_body]
fn cell_set(c: &mut OnceCell<usize>, v: usize) -> (r: Result<(), usize>)
    ensures
        cell_contents(*old(c)) is None ==> r is Ok && cell_contents(*final(c)) == Some(v),
        cell_contents(*old(c)) is Some ==> r is Err && r->Err_0 == v && cell_contents(*final(c))
            == cell_contents(*old(c)),
{
    c.set(v)
}

/// The recorded pool size after `init` with `size`: the first call records
/// it, later ones keep what is there.
pub open spec fn size_after_init(before: Option<usize>, size: usize) -> Option<usize> {
    match before {
        None => Some(size),
        Some(s) => Some(s),
    }
}

/// What `init` answers, given the pool size recorded before it.
pub open spec fn init_answer(before: Option<usize>) -> Result<(), PoolError> {
    match before {
        None => Ok(()),
        Some(_) => Err(PoolError::AlreadyInitialized),
    }
}

/// What `num_threads` answers, given the recorded pool size.
pub open spec fn threads_answer(size: Option<usize>) -> Result<usize, PoolError> {
    match size {
        None => Err(PoolError::NotInitialized),
        Some(s) => Ok(s),
    }
}

/// Before any `init`, `num_threads` fails with `NotInitialized`; after the
/// first `init` with `size` it answers `size`; a second `init`, whatever its
/// size, fails with `AlreadyInitialized` and leaves `size` in place.
pub proof fn lemma_init_once(size: usize, other: usize)
    ensures
        threads_answer(None) == Err::<usize, PoolError>(PoolError::NotInitialized),
        init_answer(None) == Ok::<(), PoolError>(()),
        threads_answer(size_after_init(None, size)) == Ok::<usize, PoolError>(size),
        init_answer(size_after_init(None, size)) == Err::<(), PoolError>(
            PoolError::AlreadyInitialized,
        ),
        size_after_init(size_after_init(None, size), other) == Some(size),
{
}

/// The size of the worker pool, recorded once, and whether a map operation
/// is in flight on it.
pub struct PoolRegistry {
    size: OnceCell<usize>,
    in_flight: bool,
}

impl PoolRegistry {
    /// The pool size, once the pool has been initialized.
    pub closed spec fn pool_size(&self) -> Option<usize> {
        cell_contents(self.size)
    }

    /// A map operation has started on the pool and not yet ended.
    pub closed spec fn busy(&self) -> bool {
        self.in_flight
    }

    /// A recorded pool size is positive; nothing is in flight before `init`.
    pub open spec fn wf(&self) -> bool {
        &&& self.pool_size() is Some ==> self.pool_size()->0 >= 1
        &&& self.pool_size() is None ==> !self.busy()
    }

    /// A registry with no pool yet.
    pub fn new() -> (r: PoolRegistry)
        ensures
            r.wf(),
            r.pool_size() == None::<usize>,
            !r.busy(),
    {
        PoolRegistry { size: cell_new(), in_flight: false }
    }

    /// Marks the start of a map operation and returns the pool size.
    /// Fails if the pool is not initialized, or if another map operation is
    /// still in flight.
    pub fn begin_map(&mut self) -> (r: Result<usize, PoolError>)
        requires
            old(self).wf(),
        ensures
            final(self).wf(),
            final(self).pool_size() == old(self).pool_size(),
            old(self).pool_size() is None ==> r == Err::<usize, PoolError>(PoolError::NotInitialized)
                && !final(self).busy(),
            old(self).pool_size() is Some && old(self).busy() ==> r == Err::<usize, PoolError>(
                PoolError::ConcurrentInvocation,
            ) && final(self).busy(),
            old(self).pool_size() is Some && !old(self).busy() ==> r == Ok::<usize, PoolError>(
                old(self).pool_size()->0,
            ) && final(self).busy(),
    {
        match cell_get(&self.size) {
            None => Err(PoolError::NotInitialized),
            Some(size) => {
                if self.in_flight {
                    Err(PoolError::ConcurrentInvocation)
                } else {
                    self.in_flight = true;
                    Ok(size)
                }
            },
        }
    }

    /// Marks the end of the map operation in flight.
    pub fn end_map(&mut self)
        requires
            old(self).wf(),
        ensures
            final(self).wf(),
            final(self).pool_size() == old(self).pool_size(),
            !final(self).busy(),
    {
        self.in_flight = false;
    }
}

/// Records the size of the pool. The pool can be initialized only once: a
/// second call fails with `AlreadyInitialized` and changes nothing.
pub fn init_thread_pool(registry: &mut PoolRegistry, size: usize) -> (r: Result<(), PoolError>)
    requires
        old(registry).wf(),
        size >= 1,
    ensures
        final(registry).wf(),
        final(registry).busy() == old(registry).busy(),
        final(registry).pool_size() == size_after_init(old(registry).pool_size(), size),
        r == init_answer(old(registry).pool_size()),
{
    match cell_set(&mut registry.size, size) {
        Ok(()) => Ok(()),
        Err(_) => Err(PoolError::AlreadyInitialized),
    }
}

/// The size of the pool, or `NotInitialized` before the pool exists.
pub fn num_threads(registry: &PoolRegistry) -> (r: Result<usize, PoolError>)
    ensures
        r == threads_answer(registry.pool_size()),
{
    match cell_get(&registry.size) {
        Some(size) => Ok(size),
        None => Err(PoolError::NotInitialized),
    }
}

} // verus!
