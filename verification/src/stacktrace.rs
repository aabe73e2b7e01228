//! Walking the chain of frame records on a user stack.
//!
//! With frame pointers kept, each frame stores its return address at
//! `fp - 8` and its caller's frame pointer at `fp - 16`. Reading those words
//! is done by the caller; this module decides where to read and when the
//! walk ends.
use vstd::prelude::*;

verus! {

/// The lowest address a frame pointer may hold.
pub const STACK_FLOOR: usize = 0x10000;

/// The most frames a walk lists.
pub const MAX_FRAMES: usize = 20;

/// A frame pointer worth following: set, word-aligned and above the floor.
pub open spec fn plausible_frame(fp: usize) -> bool {
    fp != 0 && fp % 8 == 0 && fp >= STACK_FLOOR
}

/// With frame pointer `fp` after `depth` frames were listed: the addresses
/// of the return address and of the caller's frame pointer to read next, or
/// `None` when the walk stops.
pub fn next_frame_slots(fp: usize, depth: usize) -> (slots: Option<(usize, usize)>)
    ensures
        slots == if plausible_frame(fp) && depth < MAX_FRAMES {
            Some(((fp - 8) as usize, (fp - 16) as usize))
        } else {
            None::<(usize, usize)>
        },
{
    if fp != 0 && fp % 8 == 0 && fp >= STACK_FLOOR && depth < MAX_FRAMES {
        Some((fp - 8, fp - 16))
    } else {
        None
    }
}

} // verus!
