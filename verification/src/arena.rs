use vstd::prelude::*;
use bumpalo::Bump;

verus! {

#[verifier::external_type_specification]
#[verifier::external_body]
pub struct ExBump<const MIN_ALIGN: usize>(Bump<MIN_ALIGN>);

/// `bumpalo::Bump::new`: an arena with no chunk allocated yet. Nothing is
/// stated of the value.
#[verifier::external_body]
fn bump_new() -> (bump: Bump) {
    Bump::new()
}

/// `bumpalo::Bump::with_capacity`: an arena whose first chunk holds at least
/// `capacity` bytes. Nothing is stated of the value: its chunk is what the
/// global allocator gave.
#[verifier::external_body]
fn bump_with_capacity(capacity: usize) -> (bump: Bump) {
    Bump::with_capacity(capacity)
}

/// `bumpalo::Bump::alloc`: moves `val` into the arena and hands back an
/// exclusive reference to it, which reads `val`.
#[verifier::external_body]
fn bump_alloc<'a, T>(bump: &'a Bump, val: T) -> (slot: &'a mut T)
    ensures
        *slot == val,
{
    bump.alloc(val)
}

/// `bumpalo::Bump::allocated_bytes`: the bytes of the arena's current chunks.
/// Nothing is stated of the number: it depends on the chunk sizes the global
/// allocator gave and on padding.
#[verifier::external_body]
fn bump_allocated_bytes(bump: &Bump) -> (bytes: usize) {
    bump.allocated_bytes()
}

/// `bumpalo::Bump::reset`: frees every allocation at once, keeping the
/// current chunk. Nothing is stated of the arena afterwards.
#[verifier::external_body]
fn bump_reset(bump: &mut Bump) {
    bump.reset()
}

/// Arena for order storage: a thin layer over a bump allocator.
///
/// The arena's state (its chunks and the bytes they hold) lives behind cells
/// inside the bump allocator and changes through `&self` whenever `allocate`
/// runs, so no spec function of an `Arena` value can follow it; the
/// functions below that only create, measure or reset that state promise
/// nothing of it.
pub struct Arena {
    inner: Bump,
}

impl Arena {
    /// An arena with no chunk yet (its allocated bytes are 0 until the first
    /// allocation); not stated, for the reason above.
    pub fn new() -> (arena: Self) {
        Arena { inner: bump_new() }
    }

    /// An arena with room for at least `bytes` bytes before it grows; not
    /// stated, for the reason above.
    pub fn with_capacity(bytes: usize) -> (arena: Self) {
        Arena { inner: bump_with_capacity(bytes) }
    }

    /// Allocate a T inside the arena. Lifetime tied to &self.
    pub fn allocate<T>(&self, val: T) -> (slot: &mut T)
        ensures
            *slot == val,
    {
        bump_alloc(&self.inner, val)
    }

    /// Bytes currently allocated, as the bump allocator counts them: they
    /// depend on what `allocate` did through `&self`, so nothing is stated.
    pub fn allocated_bytes(&self) -> (bytes: usize) {
        bump_allocated_bytes(&self.inner)
    }

    /// Drop all allocations and reset the arena, keeping its current chunk;
    /// not stated, for the reason above.
    pub fn reset(&mut self) {
        bump_reset(&mut self.inner)
    }
}

impl Default for Arena {
    fn default() -> (arena: Self) {
        Self::new()
    }
}

} // verus!
