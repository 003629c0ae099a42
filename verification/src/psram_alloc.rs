//! The rules of an allocator that sends the heap to external memory.
//!
//! Internal memory is the only place FreeRTOS objects and DMA buffers can live,
//! so everything else is kept out of it as long as there is external memory.

use vstd::prelude::*;

verus! {

/// A pool of memory.
#[derive(Clone, Copy, Debug, PartialEq, Eq, Structural)]
pub enum Pool {
    Psram,
    /// The default heap.
    Fallback,
}

/// How a block is resized.
#[derive(Clone, Copy, Debug, PartialEq, Eq, Structural)]
pub enum Resize {
    /// By the heap, which may grow the block in place.
    InPlace,
    /// By a new block, into which this many bytes are copied.
    Copy { len: usize },
}

/// An allocator that prefers external memory.
#[derive(Clone, Copy, Debug, PartialEq, Eq, Structural)]
pub struct PsramAllocator;

/// The alignment that the heap gives without being asked.
pub const NATIVE_ALIGN: usize = 4;

impl PsramAllocator {
    /// The alignment to ask for: what the layout wants, and at least that of a
    /// word.
    pub fn alignment(&self, align: usize) -> (r: usize)
        ensures
            r == if align < 4 {
                4
            } else {
                align
            },
    {
        if align < NATIVE_ALIGN {
            NATIVE_ALIGN
        } else {
            align
        }
    }

    /// The pool to try at the `attempt`-th attempt, counted from zero: external
    /// memory first, then the default heap, so that an allocation never fails for
    /// want of external memory alone.
    pub fn pool(&self, attempt: u32) -> (r: Option<Pool>)
        ensures
            r == if attempt == 0 {
                Some(Pool::Psram)
            } else if attempt == 1 {
                Some(Pool::Fallback)
            } else {
                None
            },
    {
        if attempt == 0 {
            Some(Pool::Psram)
        } else if attempt == 1 {
            Some(Pool::Fallback)
        } else {
            None
        }
    }

    /// How to resize a block. The heap promises only its native alignment, so a
    /// block with more is copied.
    pub fn resize(&self, align: usize, size: usize, new_size: usize) -> (r: Resize)
        ensures
            r == if align > 4 {
                Resize::Copy { len: if size < new_size { size } else { new_size } }
            } else {
                Resize::InPlace
            },
    {
        if align > NATIVE_ALIGN {
            Resize::Copy { len: if size < new_size { size } else { new_size } }
        } else {
            Resize::InPlace
        }
    }
}

} // verus!
