//! The viewport: the window of rows of bytes shown on screen.
use vstd::prelude::*;

verus! {

/// The window of content shown on screen: `width` bytes per row, `height`
/// rows, starting at byte `offset`.
pub struct ViewPort {
    offset: usize,
    width: usize,
    height: usize,
}

impl View for ViewPort {
    /// (offset, width, height)
    type V = (usize, usize, usize);

    closed spec fn view(&self) -> (usize, usize, usize) {
        (self.offset, self.width, self.height)
    }
}

impl ViewPort {
    pub fn new(width: usize, height: usize) -> (v: ViewPort)
        ensures
            v@ == (0usize, width, height),
    {
        ViewPort { offset: 0, width: width, height: height }
    }

    pub fn get_width(&self) -> (r: usize)
        ensures
            r == self@.1,
    {
        self.width
    }

    pub fn get_height(&self) -> (r: usize)
        ensures
            r == self@.2,
    {
        self.height
    }

    pub fn get_offset(&self) -> (r: usize)
        ensures
            r == self@.0,
    {
        self.offset
    }

    pub fn set_offset(&mut self, new_offset: usize)
        ensures
            final(self)@ == (new_offset, old(self)@.1, old(self)@.2),
    {
        self.offset = new_offset;
    }

    pub fn set_width(&mut self, new_width: usize)
        ensures
            final(self)@ == (old(self)@.0, new_width, old(self)@.2),
    {
        self.width = new_width;
    }

    pub fn set_height(&mut self, new_height: usize)
        ensures
            final(self)@ == (old(self)@.0, old(self)@.1, new_height),
    {
        self.height = new_height;
    }

    pub fn set_size(&mut self, new_width: usize, new_height: usize)
        ensures
            final(self)@ == (old(self)@.0, new_width, new_height),
    {
        self.set_width(new_width);
        self.set_height(new_height);
    }
}

} // verus!
