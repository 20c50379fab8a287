//! The pending window size.
//!
//! The event thread overwrites the request on every resize event and marks
//! it dirty; the render thread takes it once per frame. Resize events that
//! arrive between two frames coalesce: only the latest size is applied.

use vstd::prelude::*;

verus! {

/// Width of the window when the program starts.
pub const INITIAL_SCREEN_W: u32 = 800;

/// Height of the window when the program starts.
pub const INITIAL_SCREEN_H: u32 = 600;

/// The latest window size and whether the render thread has yet to apply
/// it.
#[derive(Clone, Copy, Debug, PartialEq, Eq, Structural)]
pub struct WindowSizeRequest {
    pub width: u32,
    pub height: u32,
    pub dirty: bool,
}

impl WindowSizeRequest {
    /// The request after a resize event: the new size, to be applied.
    pub open spec fn requested(self, size: (u32, u32)) -> WindowSizeRequest {
        WindowSizeRequest { width: size.0, height: size.1, dirty: true }
    }

    /// The request after a run of resize events.
    pub open spec fn requested_all(self, sizes: Seq<(u32, u32)>) -> WindowSizeRequest
        decreases sizes.len(),
    {
        if sizes.len() == 0 {
            self
        } else {
            self.requested_all(sizes.drop_last()).requested(sizes.last())
        }
    }

    /// What the render thread reads: the size, if one is pending.
    pub open spec fn pending(self) -> Option<(u32, u32)> {
        if self.dirty {
            Some((self.width, self.height))
        } else {
            None
        }
    }

    /// The request once the render thread has read it.
    pub open spec fn cleared(self) -> WindowSizeRequest {
        WindowSizeRequest { width: self.width, height: self.height, dirty: false }
    }

    /// A request that holds the current size with nothing to apply.
    pub fn new(width: u32, height: u32) -> (request: Self)
        ensures
            request == (WindowSizeRequest { width, height, dirty: false }),
    {
        WindowSizeRequest { width, height, dirty: false }
    }

    /// Records a resize event, replacing whatever was pending.
    pub fn request(&mut self, width: u32, height: u32)
        ensures
            *final(self) == old(self).requested((width, height)),
    {
        self.width = width;
        self.height = height;
        self.dirty = true;
    }

    /// Hands the pending size to the render thread and clears the flag;
    /// `None` when no resize happened since the last call.
    pub fn take(&mut self) -> (size: Option<(u32, u32)>)
        ensures
            size == old(self).pending(),
            *final(self) == old(self).cleared(),
    {
        if self.dirty {
            self.dirty = false;
            Some((self.width, self.height))
        } else {
            None
        }
    }
}

/// However many resize events arrive before the render thread reads, the
/// read applies exactly one resize, to the size of the last event, and the
/// read after it applies none.
pub proof fn lemma_resize_coalescing(start: WindowSizeRequest, sizes: Seq<(u32, u32)>)
    requires
        sizes.len() > 0,
    ensures
        start.requested_all(sizes).pending() == Some(sizes.last()),
        start.requested_all(sizes).cleared().pending() is None,
{
}

} // verus!
