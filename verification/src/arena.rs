use std::marker::PhantomData;
use vstd::prelude::*;

verus! {

/// A handle to a value stored in an [`Arena`]: the position at which it was allocated.
#[derive(Debug)]
pub struct Idx<T> {
    raw: u32,
    _phantom: PhantomData<T>,
}

impl<T> Idx<T> {
    /// The position in the arena that this handle designates.
    pub closed spec fn pos(&self) -> nat {
        self.raw as nat
    }

    /// The position in the arena that this handle designates.
    pub fn raw(&self) -> (r: u32)
        ensures
            r == self.pos(),
    {
        self.raw
    }
}

/// An append-only store of values, each reachable again through the handle that
/// allocating it returned.
#[derive(Debug)]
pub struct Arena<T> {
    data: Vec<T>,
}

impl<T> View for Arena<T> {
    type V = Seq<T>;

    /// The stored values, in the order in which they were allocated.
    closed spec fn view(&self) -> Seq<T> {
        self.data@
    }
}

impl<T> Default for Arena<T> {
    fn default() -> (a: Self)
        ensures
            a@ == Seq::<T>::empty(),
    {
        Self::new()
    }
}

impl<T> Arena<T> {
    /// An arena that holds nothing.
    pub fn new() -> (a: Self)
        ensures
            a@ == Seq::<T>::empty(),
    {
        Self { data: Vec::new() }
    }

    /// The number of values allocated so far.
    pub fn len(&self) -> (n: usize)
        ensures
            n == self@.len(),
    {
        self.data.len()
    }

    /// Stores `t` after every value allocated before it and returns its handle:
    /// its position, as a `u32` (so past `u32::MAX` values, positions wrap around).
    pub fn allocate(&mut self, t: T) -> (idx: Idx<T>)
        ensures
            final(self)@ == old(self)@.push(t),
            idx.pos() == old(self)@.len() % 0x1_0000_0000,
    {
        let idx = self.next_idx();
        self.data.push(t);
        idx
    }

    /// The handle that the next allocation will return.
    fn next_idx(&self) -> (idx: Idx<T>)
        ensures
            idx.pos() == self@.len() % 0x1_0000_0000,
    {
        let n = self.data.len();
        let raw = (n as u64 % 0x1_0000_0000u64) as u32;
        Idx { raw, _phantom: PhantomData }
    }

    /// The value that was allocated under `index`.
    pub fn index(&self, index: Idx<T>) -> (r: &T)
        requires
            index.pos() < self@.len(),
        ensures
            *r == self@[index.pos() as int],
    {
        &self.data[index.raw as usize]
    }
}

/// What a read through a handle gives back is what the allocation that returned
/// that handle stored, whatever was allocated after it, as long as positions have
/// not wrapped around (fewer than `2^32` values were allocated before it).
pub proof fn lemma_alloc_then_index<T>(before: Seq<T>, t: T, later: Seq<T>)
    requires
        before.len() <= u32::MAX,
    ensures
        before.len() % 0x1_0000_0000 == before.len(),
        (before.push(t) + later)[before.len() as int] == t,
        forall|i: int| 0 <= i < before.len() ==> (before.push(t) + later)[i] == before[i],
{
}

} // verus!
