//! A bump arena that hands out aligned regions for tensor data, one after
//! the other; nothing is freed on its own, the whole arena goes at once.
//! Regions are given as byte offsets from the start of the arena.

use vstd::prelude::*;
use vstd::layout::{align_of, size_of, layout_for_type_is_valid};
use crate::gguf::{lemma_pad, spec_pad};

verus! {

/// Why the arena refused a request.
#[derive(Debug, Clone, Copy, PartialEq, Eq, Structural)]
pub enum ArenaError {
    /// An arena of zero bytes was asked for.
    ZeroSize,
    /// The size, rounded up to the alignment of `usize`, exceeds `isize::MAX`.
    InvalidLayout { size: usize },
    /// Not enough room is left: `need` bytes aligned to `align` were asked
    /// for, `left` of `capacity` bytes remain.
    Exhausted { need: usize, align: usize, left: usize, capacity: usize },
}

/// A bump arena of `capacity` bytes of which the first `used` are handed out.
pub struct AcuteArena {
    size: usize,
    offset: usize,
    n_objects: usize,
}

/// The arena's bookkeeping: its size, how many bytes are handed out, and how
/// many regions.
pub struct ArenaModel {
    pub capacity: nat,
    pub used: nat,
    pub n_objects: nat,
}

impl View for AcuteArena {
    type V = ArenaModel;

    closed spec fn view(&self) -> ArenaModel {
        ArenaModel { capacity: self.size as nat, used: self.offset as nat, n_objects: self.n_objects as nat }
    }
}

/// Where a region of `n` values of type `T` starts in an arena whose first
/// `used` bytes are taken: the next multiple of `T`'s alignment.
pub open spec fn region_start<T>(used: nat) -> int {
    spec_pad(used as int, align_of::<T>() as int)
}

impl AcuteArena {
    /// The bytes handed out never exceed the capacity.
    pub closed spec fn wf(&self) -> bool {
        self.offset <= self.size
    }

    /// An empty arena of `size` bytes.
    pub fn new(size: usize) -> (res: Result<AcuteArena, ArenaError>)
        ensures
            size == 0 ==> res == Err::<AcuteArena, ArenaError>(ArenaError::ZeroSize),
            size > 0 && size + align_of::<usize>() - 1 > isize::MAX ==> res == Err::<AcuteArena, ArenaError>(
                ArenaError::InvalidLayout { size },
            ),
            size > 0 && size + align_of::<usize>() - 1 <= isize::MAX ==> (res matches Ok(a) && a.wf() && a@ == (ArenaModel {
                capacity: size as nat,
                used: 0,
                n_objects: 0,
            })),
    {
        if size == 0 {
            return Err(ArenaError::ZeroSize);
        }
        let align = core::mem::align_of::<usize>();
        layout_for_type_is_valid::<usize>();
        if size > isize::MAX as usize || align - 1 > (isize::MAX as usize) - size {
            return Err(ArenaError::InvalidLayout { size });
        }
        Ok(AcuteArena { size, offset: 0, n_objects: 0 })
    }

    /// Reserves room for `n` values of type `T` at the next offset aligned
    /// for `T`, and gives that offset. When the room is not there, the arena
    /// is left as it was.
    pub fn alloc_tensor_data<T>(&mut self, n: usize) -> (res: Result<usize, ArenaError>)
        requires
            old(self).wf(),
            n * size_of::<T>() <= usize::MAX,
            old(self)@.used + align_of::<T>() - 1 <= usize::MAX,
            region_start::<T>(old(self)@.used) + n * size_of::<T>() <= usize::MAX,
            old(self)@.n_objects < usize::MAX,
        ensures
            final(self).wf(),
            final(self)@.capacity == old(self)@.capacity,
            region_start::<T>(old(self)@.used) + n * size_of::<T>() <= old(self)@.capacity ==> {
                &&& res == Ok::<usize, ArenaError>(region_start::<T>(old(self)@.used) as usize)
                &&& old(self)@.used <= region_start::<T>(old(self)@.used)
                &&& region_start::<T>(old(self)@.used) % (align_of::<T>() as int) == 0
                &&& final(self)@.used == region_start::<T>(old(self)@.used) + n * size_of::<T>()
                &&& final(self)@.n_objects == old(self)@.n_objects + 1
            },
            region_start::<T>(old(self)@.used) + n * size_of::<T>() > old(self)@.capacity ==> {
                &&& res == Err::<usize, ArenaError>(ArenaError::Exhausted {
                    need: (n * size_of::<T>()) as usize,
                    align: align_of::<T>() as usize,
                    left: (old(self)@.capacity - old(self)@.used) as usize,
                    capacity: old(self)@.capacity as usize,
                })
                &&& final(self)@ == old(self)@
            },
    {
        layout_for_type_is_valid::<T>();
        let align = core::mem::align_of::<T>();
        let size = n * core::mem::size_of::<T>();
        proof {
            lemma_pad(self.offset as int, align as int);
        }
        let aligned_offset = (self.offset + (align - 1)) / align * align;
        if aligned_offset + size > self.size {
            return Err(ArenaError::Exhausted { need: size, align, left: self.size - self.offset, capacity: self.size });
        }
        self.offset = aligned_offset + size;
        self.n_objects = self.n_objects + 1;
        Ok(aligned_offset)
    }

    /// The bytes handed out never exceed the arena's capacity.
    pub proof fn lemma_used_within_capacity(&self)
        requires
            self.wf(),
        ensures
            self@.used <= self@.capacity,
    {
    }

    /// Bytes handed out so far.
    pub fn used(&self) -> (r: usize)
        ensures
            r == self@.used,
    {
        self.offset
    }

    /// Total size of the arena in bytes.
    pub fn capacity(&self) -> (r: usize)
        ensures
            r == self@.capacity,
    {
        self.size
    }

    /// Number of regions handed out so far.
    pub fn n_objects(&self) -> (r: usize)
        ensures
            r == self@.n_objects,
    {
        self.n_objects
    }
}

} // verus!
