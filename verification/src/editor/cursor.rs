//! The cursor: an anchor offset and a signed length (negative reaching
//! left of the anchor).
use vstd::prelude::*;

verus! {

/// The signed length a cursor spans: a negative length selects bytes to the
/// left of the anchor offset (the anchor itself included).
pub open spec fn span_length(length: int) -> int {
    if length < 0 { -length + 1 } else { length }
}

/// First byte covered by a cursor anchored at `offset` with signed `length`.
pub open spec fn span_start(offset: usize, length: isize) -> int {
    if length < 0 { offset as isize as int + length } else { offset as int }
}

pub struct Cursor {
    offset: usize,
    length: isize,
}

impl View for Cursor {
    type V = (usize, isize);

    closed spec fn view(&self) -> (usize, isize) {
        (self.offset, self.length)
    }
}

impl Cursor {
    pub fn new() -> (c: Cursor)
        ensures
            c@ == (0usize, 1isize),
    {
        Cursor { offset: 0, length: 1 }
    }

    pub fn set_length(&mut self, new_length: isize)
        ensures
            final(self)@ == (old(self)@.0, new_length),
    {
        self.length = new_length;
    }

    pub fn set_offset(&mut self, new_offset: usize)
        ensures
            final(self)@ == (new_offset, old(self)@.1),
    {
        self.offset = new_offset;
    }

    pub fn get_real_offset(&self) -> (r: usize)
        ensures
            r == self@.0,
    {
        self.offset
    }

    pub fn get_real_length(&self) -> (r: isize)
        ensures
            r == self@.1,
    {
        self.length
    }

    /// Number of bytes the cursor covers.
    pub fn get_length(&self) -> (r: usize)
        requires
            span_length(self@.1 as int) <= isize::MAX,
        ensures
            r == span_length(self@.1 as int),
    {
        let output;
        if self.length < 0 {
            output = (0 - self.length) + 1;
        } else {
            output = self.length;
        }
        output as usize
    }

    /// First byte the cursor covers.
    pub fn get_offset(&self) -> (r: usize)
        requires
            self@.1 < 0 ==> isize::MIN <= self@.0 as isize + self@.1,
        ensures
            r == span_start(self@.0, self@.1) as usize,
    {
        let output;
        if self.length < 0 {
            output = ((self.offset as isize) + self.length) as usize;
        } else {
            output = self.offset;
        }
        output
    }
}

} // verus!
