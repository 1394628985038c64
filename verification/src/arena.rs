use vstd::prelude::*;
use vstd::slice::slice_to_vec;

verus! {

/// One more recorded allocation, saturating at the counter's cap.
pub open spec fn bumped(c: u64) -> u64 {
    if c < u64::MAX {
        (c + 1) as u64
    } else {
        c
    }
}

/// The allocation context threaded through every decode and dematerialize
/// call: a bump arena that owns everything allocated into it and frees it
/// all at once, never per object.
///
/// The contracts track the arena's allocation activity, so that a failed
/// decode can be shown to have allocated nothing for the offending
/// collection; the storage of each container is owned by the container and
/// torn down with the arena's owner.
pub struct Arena {
    allocations: u64,
}

impl Arena {
    /// How many allocations this arena has served (saturating).
    pub closed spec fn allocations(&self) -> u64 {
        self.allocations
    }

    pub fn new() -> (a: Arena)
        ensures
            a.allocations() == 0,
    {
        Arena { allocations: 0 }
    }

    /// The observable allocation count.
    pub fn allocation_count(&self) -> (n: u64)
        ensures
            n == self.allocations(),
    {
        self.allocations
    }

    pub(crate) fn record_allocation(&mut self)
        ensures
            final(self).allocations() == bumped(old(self).allocations()),
    {
        if self.allocations < u64::MAX {
            self.allocations = self.allocations + 1;
        }
    }

    /// Metadata-less byte allocation: raw storage carved from the arena and
    /// filled with a copy of `src`. This is the arena's answer to an
    /// allocation callback asking for storage during archive box
    /// reconstruction.
    pub fn alloc_bytes_from(&mut self, src: &[u8]) -> (b: Vec<u8>)
        ensures
            b@ == src@,
            final(self).allocations() == bumped(old(self).allocations()),
    {
        self.record_allocation();
        slice_to_vec(src)
    }

    /// Copy a borrowed string into the arena; materializing an archived
    /// string is exactly this copy.
    pub fn alloc_str(&mut self, s: &str) -> (r: ArenaString)
        ensures
            r@ == s@,
            final(self).allocations() == bumped(old(self).allocations()),
    {
        self.record_allocation();
        ArenaString { content: s.to_owned() }
    }
}

/// A string whose content was copied into arena storage and lives as long
/// as the arena.
pub struct ArenaString {
    content: String,
}

impl View for ArenaString {
    type V = Seq<char>;

    closed spec fn view(&self) -> Seq<char> {
        self.content@
    }
}

impl ArenaString {
    pub fn as_str(&self) -> (s: &str)
        ensures
            s@ == self@,
    {
        self.content.as_str()
    }
}

/// A growable contiguous array whose storage lives in one arena. Growth may
/// abandon old storage inside the arena; nothing is freed until the arena
/// itself is torn down, and every element shares the arena's lifetime.
pub struct ArenaArray<T> {
    elems: Vec<T>,
}

impl<T> View for ArenaArray<T> {
    type V = Seq<T>;

    closed spec fn view(&self) -> Seq<T> {
        self.elems@
    }
}

impl<T> ArenaArray<T> {
    /// An empty array bound to the arena; allocates nothing until it grows.
    pub fn new_in(arena: &mut Arena) -> (a: Self)
        ensures
            a@ == Seq::<T>::empty(),
            final(arena).allocations() == old(arena).allocations(),
    {
        ArenaArray { elems: Vec::new() }
    }

    /// An empty array with room for `capacity` elements carved from the
    /// arena up front.
    pub fn with_capacity_in(capacity: usize, arena: &mut Arena) -> (a: Self)
        ensures
            a@ == Seq::<T>::empty(),
            final(arena).allocations() == bumped(old(arena).allocations()),
    {
        arena.record_allocation();
        ArenaArray { elems: Vec::with_capacity(capacity) }
    }

    pub fn push(&mut self, value: T)
        ensures
            final(self)@ == old(self)@.push(value),
    {
        self.elems.push(value);
    }

    pub fn len(&self) -> (n: usize)
        ensures
            n == self@.len(),
    {
        self.elems.len()
    }

    pub fn get(&self, i: usize) -> (r: &T)
        requires
            i < self@.len(),
        ensures
            *r == self@[i as int],
    {
        &self.elems[i]
    }

    /// The whole array as a slice view.
    pub fn as_slice(&self) -> (s: &[T])
        ensures
            s@ == self@,
    {
        self.elems.as_slice()
    }
}

impl<T: Copy> ArenaArray<T> {
    /// An array holding a copy of a source sequence.
    pub fn from_slice_in(src: &[T], arena: &mut Arena) -> (a: Self)
        ensures
            a@ == src@,
            final(arena).allocations() == bumped(old(arena).allocations()),
    {
        arena.record_allocation();
        ArenaArray { elems: slice_to_vec(src) }
    }
}

/// A single arena-resident slot holding one sized value, with exactly one
/// owner; the address stays valid for the arena's lifetime.
pub struct ArenaBox<T> {
    value: T,
}

impl<T> View for ArenaBox<T> {
    type V = T;

    closed spec fn view(&self) -> T {
        self.value
    }
}

impl<T> ArenaBox<T> {
    /// Move a value into newly arena-allocated storage.
    pub fn new_in(value: T, arena: &mut Arena) -> (b: Self)
        ensures
            b@ == value,
            final(arena).allocations() == bumped(old(arena).allocations()),
    {
        arena.record_allocation();
        ArenaBox { value }
    }

    /// Borrow the boxed value.
    pub fn get(&self) -> (r: &T)
        ensures
            *r == self@,
    {
        &self.value
    }
}

/// An arena box whose referent is dynamically sized: a byte slice reached
/// through a fat pointer, a data address paired with a length.
pub struct ArenaByteBox {
    data: Vec<u8>,
}

impl View for ArenaByteBox {
    type V = Seq<u8>;

    closed spec fn view(&self) -> Seq<u8> {
        self.data@
    }
}

impl ArenaByteBox {
    /// Move a byte payload into the arena and box it.
    pub fn new_in(data: Vec<u8>, arena: &mut Arena) -> (b: Self)
        ensures
            b@ == data@,
            final(arena).allocations() == bumped(old(arena).allocations()),
    {
        arena.record_allocation();
        ArenaByteBox { data }
    }

    /// Owned fat-pointer reconstruction: combine a materialized payload with
    /// separately obtained metadata. The caller must guarantee that the
    /// metadata describes the payload exactly; archive dematerialization is
    /// the only intended caller.
    pub fn from_parts(data: Vec<u8>, metadata: usize) -> (b: Self)
        requires
            metadata == data@.len(),
        ensures
            b@ == data@,
    {
        ArenaByteBox { data }
    }

    pub fn len(&self) -> (n: usize)
        ensures
            n == self@.len(),
    {
        self.data.len()
    }

    pub fn as_slice(&self) -> (s: &[u8])
        ensures
            s@ == self@,
    {
        self.data.as_slice()
    }
}

} // verus!
