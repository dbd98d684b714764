//! The byte buffer being edited: reads, inserts, removals, masks, word
//! increments and digit replacement, each with what it does to the bytes.
use vstd::prelude::*;

use crate::bounds::{byte_slice_len, byte_vec_len};
use crate::matching::{byte_regex_find_all, byte_regex_matches, successive_matches};
use crate::text::push_str;

verus! {

#[derive(Debug, PartialEq, Eq)]
pub enum ContentError {
    OutOfBounds(usize, usize),
    InvalidDigit(u8, u8),
}

#[derive(Debug, PartialEq, Eq)]
pub enum BitMask {
    And,
    Or,
    Nor,
    Nand,
    Xor,
}

/// The byte each mask operation makes of a content byte `v` and a mask byte `m`.
pub open spec fn mask_byte(operation: BitMask, v: u8, m: u8) -> u8 {
    match operation {
        BitMask::Or => v | m,
        BitMask::Xor => v ^ m,
        BitMask::Nor => !(v | m),
        BitMask::And => v & m,
        BitMask::Nand => !(v & m),
    }
}

/// The bounds `[start, end)` of the chunk that `get_chunk(offset, length)`
/// reads from content of `len` bytes: the requested range clipped to the
/// content.
pub open spec fn chunk_start(len: int, offset: int) -> int {
    if offset < len { offset } else { len }
}

pub open spec fn chunk_end(len: int, offset: int, length: int) -> int {
    if len < offset + length { len } else { offset + length }
}

/// How many bytes `remove_bytes(offset, length)` takes out of content of
/// `len` bytes.
pub open spec fn removed_count(len: int, offset: int, length: int) -> int {
    if offset < len {
        if len - offset < length { len - offset } else { length }
    } else {
        0
    }
}

/// Content with `count` bytes taken out at `offset`.
pub open spec fn without_range(s: Seq<u8>, offset: int, count: int) -> Seq<u8> {
    s.subrange(0, offset) + s.subrange(offset + count, s.len() as int)
}

/// Content with `bytes` put in at `offset`.
pub open spec fn with_inserted(s: Seq<u8>, offset: int, bytes: Seq<u8>) -> Seq<u8> {
    s.subrange(0, offset) + bytes + s.subrange(offset, s.len() as int)
}

/// Where a carry (or borrow) that starts at `pos` stops: it moves left past
/// every byte equal to `full` (255 for a carry, 0 for a borrow) but never
/// past `low`, the first byte of the word.
pub open spec fn carry_stop(s: Seq<u8>, pos: int, low: int, full: u8) -> int
    decreases pos - low,
{
    if pos <= low || s[pos] != full {
        pos
    } else {
        carry_stop(s, pos - 1, low, full)
    }
}

/// Content after adding one (`up`) or subtracting one (`!up`) to the word
/// whose last byte is at `offset`, the carry having stopped at `stop`.
pub open spec fn stepped(s: Seq<u8>, offset: int, stop: int, up: bool) -> Seq<u8> {
    Seq::new(
        s.len(),
        |i: int|
            if stop < i <= offset {
                if up { 0u8 } else { 255u8 }
            } else if i == stop {
                if up {
                    if s[i] == 255 { 0u8 } else { (s[i] + 1) as u8 }
                } else {
                    if s[i] == 0 { 255u8 } else { (s[i] - 1) as u8 }
                }
            } else {
                s[i]
            },
    )
}

/// First byte of the word of `word_size` bytes that ends at `offset`.
pub open spec fn word_low(offset: usize, word_size: usize) -> int {
    offset + 1 - word_size
}

/// Whether the word of `word_size` bytes ending at `offset` can be
/// stepped: a carry (or borrow) that leaves the byte at `offset` needs the
/// word's first byte, `offset - (word_size - 1)`, which exists exactly when
/// `1 <= word_size <= offset + 1`.
pub open spec fn word_fits(s: Seq<u8>, offset: usize, word_size: usize, full: u8) -> bool {
    offset < s.len() && s[offset as int] == full ==> 1 <= word_size <= offset + 1
}

/// The number of base-`radix` digits used to write a byte: the least `k`
/// with `radix^k >= 256` (for radix 0 no digit, for radix 1 the 255 digits
/// that `ceil(log_1 256)` saturates to).
pub open spec fn digits_per_byte(radix: u8) -> nat {
    if radix == 0 {
        0
    } else if radix == 1 {
        255
    } else {
        digit_count_from(radix as nat, 1)
    }
}

pub open spec fn digit_count_from(radix: nat, power: nat) -> nat
    decreases (if power < 256 { 256 - power } else { 0 }),
{
    if power >= 256 || radix < 2 || power == 0 {
        0
    } else {
        proof {
            assert(power * radix >= 2 * power) by (nonlinear_arith)
                requires
                    radix >= 2,
                    power >= 1,
            ;
        }
        1 + digit_count_from(radix, power * radix)
    }
}

/// The first `n` digits of `b` in base `radix`, least significant first.
pub open spec fn byte_digits(b: int, radix: int, n: nat) -> Seq<int>
    decreases n,
{
    if n == 0 {
        Seq::empty()
    } else {
        seq![b % radix] + byte_digits(b / radix, radix, (n - 1) as nat)
    }
}

/// The number whose base-`radix` digits, least significant first, are `d`.
pub open spec fn digits_value(d: Seq<int>, radix: int) -> int
    decreases d.len(),
{
    if d.len() == 0 {
        0
    } else {
        d[0] + radix * digits_value(d.drop_first(), radix)
    }
}

/// The digits of `byte` with the digit at `position` replaced by `digit`.
pub open spec fn replaced_digits(byte: u8, position: u8, digit: u8, radix: u8) -> Seq<int> {
    let d = byte_digits(byte as int, radix as int, digits_per_byte(radix));
    if position < d.len() {
        d.update(position as int, digit as int)
    } else {
        d
    }
}

/// The value `replace_digit` computes for the byte.
pub open spec fn replaced_value(byte: u8, position: u8, digit: u8, radix: u8) -> int {
    digits_value(replaced_digits(byte, position, digit, radix), radix as int)
}

/// The regex a content search compiles: the pattern with Unicode turned off,
/// so that it matches raw bytes.
pub open spec fn byte_pattern(search_for: Seq<char>) -> Seq<char> {
    "(?-u:"@ + search_for + ")"@
}

pub struct Content {
    content_array: Vec<u8>,
}

impl View for Content {
    type V = Seq<u8>;

    closed spec fn view(&self) -> Seq<u8> {
        self.content_array@
    }
}

/// A carry stops at or left of where it starts, and never left of the
/// word's first byte unless it did not move at all.
pub proof fn lemma_carry_stop_bounds(s: Seq<u8>, pos: int, low: int, full: u8)
    ensures
        carry_stop(s, pos, low, full) <= pos,
        carry_stop(s, pos, low, full) >= low || carry_stop(s, pos, low, full) == pos,
        carry_stop(s, pos, low, full) < pos ==> s[pos] == full && low < pos,
    decreases pos - low,
{
    if !(pos <= low || s[pos] != full) {
        lemma_carry_stop_bounds(s, pos - 1, low, full);
    }
}

/// `digits_value` of a digit sequence extended at the front.
proof fn lemma_digits_value_step(d: Seq<int>, j: int, radix: int)
    requires
        0 <= j < d.len(),
    ensures
        digits_value(d.subrange(j, d.len() as int), radix) == d[j] + radix * digits_value(
            d.subrange(j + 1, d.len() as int),
            radix,
        ),
{
    assert(d.subrange(j, d.len() as int).drop_first() =~= d.subrange(j + 1, d.len() as int));
}

proof fn lemma_byte_digits_len(b: int, radix: int, n: nat)
    ensures
        byte_digits(b, radix, n).len() == n,
    decreases n,
{
    if n > 0 {
        lemma_byte_digits_len(b / radix, radix, (n - 1) as nat);
    }
}

impl Content {
    pub fn new() -> (c: Content)
        ensures
            c@ == Seq::<u8>::empty(),
    {
        Content { content_array: Vec::new() }
    }

    pub fn clear(&mut self)
        ensures
            final(self)@ == Seq::<u8>::empty(),
    {
        self.content_array.clear();
    }

    pub fn get_byte(&self, offset: usize) -> (r: Option<u8>)
        ensures
            r == if offset < self@.len() {
                Some(self@[offset as int])
            } else {
                None::<u8>
            },
    {
        if offset < self.content_array.len() {
            Some(self.content_array[offset])
        } else {
            None
        }
    }

    pub fn set_byte(&mut self, offset: usize, new_byte: u8) -> (r: Result<u8, ContentError>)
        ensures
            offset < old(self)@.len() ==> r == Ok::<u8, ContentError>(old(self)@[offset as int])
                && final(self)@ == old(self)@.update(offset as int, new_byte),
            offset >= old(self)@.len() ==> r == Err::<u8, ContentError>(
                ContentError::OutOfBounds(offset, old(self)@.len() as usize),
            ) && final(self)@ == old(self)@,
    {
        if offset < self.len() {
            let old_byte = self.content_array[offset];
            self.content_array.set(offset, new_byte);
            Ok(old_byte)
        } else {
            Err(ContentError::OutOfBounds(offset, self.len()))
        }
    }

    /// The bytes in `[offset, offset + length)`, clipped to the content.
    pub fn get_chunk(&self, offset: usize, length: usize) -> (r: Vec<u8>)
        requires
            offset + length <= usize::MAX,
        ensures
            r@ == self@.subrange(
                chunk_start(self@.len() as int, offset as int),
                chunk_end(self@.len() as int, offset as int, length as int),
            ),
    {
        let mut output: Vec<u8> = Vec::new();
        let len = self.len();
        let start = if offset < len { offset } else { len };
        let end = if len < offset + length { len } else { offset + length };
        let mut i = start;
        while i < end
            invariant
                start <= i <= end <= len == self@.len(),
                output@ =~= self@.subrange(start as int, i as int),
            decreases end - i,
        {
            output.push(self.content_array[i]);
            i += 1;
        }
        output
    }

    pub fn push(&mut self, byte: u8)
        ensures
            final(self)@ == old(self)@.push(byte),
    {
        self.content_array.push(byte);
    }

    /// Adds one to the big-endian word of `word_size` bytes that ends at
    /// `offset`, carrying leftwards; returns the bytes the carry changed as
    /// they were before.
    pub fn increment_byte(&mut self, offset: usize, word_size: usize) -> (r: Result<Vec<u8>, ContentError>)
        requires
            word_fits(old(self)@, offset, word_size, 255),
        ensures
            offset >= old(self)@.len() ==> r == Err::<Vec<u8>, ContentError>(
                ContentError::OutOfBounds(offset, old(self)@.len() as usize),
            ) && final(self)@ == old(self)@,
            offset < old(self)@.len() ==> {
                let stop = carry_stop(old(self)@, offset as int, word_low(offset, word_size), 255);
                &&& r matches Ok(v) && v@ == old(self)@.subrange(stop, offset + 1)
                &&& final(self)@ == stepped(old(self)@, offset as int, stop, true)
            },
    {
        self.step_word(offset, word_size, true)
    }

    /// Subtracts one from the big-endian word of `word_size` bytes that ends
    /// at `offset`, borrowing leftwards; returns the bytes the borrow changed
    /// as they were before.
    pub fn decrement_byte(&mut self, offset: usize, word_size: usize) -> (r: Result<Vec<u8>, ContentError>)
        requires
            word_fits(old(self)@, offset, word_size, 0),
        ensures
            offset >= old(self)@.len() ==> r == Err::<Vec<u8>, ContentError>(
                ContentError::OutOfBounds(offset, old(self)@.len() as usize),
            ) && final(self)@ == old(self)@,
            offset < old(self)@.len() ==> {
                let stop = carry_stop(old(self)@, offset as int, word_low(offset, word_size), 0);
                &&& r matches Ok(v) && v@ == old(self)@.subrange(stop, offset + 1)
                &&& final(self)@ == stepped(old(self)@, offset as int, stop, false)
            },
    {
        self.step_word(offset, word_size, false)
    }

    fn step_word(&mut self, offset: usize, word_size: usize, up: bool) -> (r: Result<Vec<u8>, ContentError>)
        requires
            word_fits(old(self)@, offset, word_size, if up { 255u8 } else { 0u8 }),
        ensures
            offset >= old(self)@.len() ==> r == Err::<Vec<u8>, ContentError>(
                ContentError::OutOfBounds(offset, old(self)@.len() as usize),
            ) && final(self)@ == old(self)@,
            offset < old(self)@.len() ==> {
                let stop = carry_stop(
                    old(self)@,
                    offset as int,
                    word_low(offset, word_size),
                    if up { 255u8 } else { 0u8 },
                );
                &&& r matches Ok(v) && v@ == old(self)@.subrange(stop, offset + 1)
                &&& final(self)@ == stepped(old(self)@, offset as int, stop, up)
            },
    {
        let ghost s = self@;
        let ghost full: u8 = if up { 255u8 } else { 0u8 };
        let ghost low = word_low(offset, word_size);
        let mut current_byte_offset = offset;
        if self.len() > current_byte_offset {
            let mut current_byte_value = self.content_array[current_byte_offset];
            let mut initial_bytes: Vec<u8> = Vec::new();
            loop
                invariant_except_break
                    current_byte_offset <= offset < s.len(),
                    self@.len() == s.len(),
                    current_byte_value == s[current_byte_offset as int],
                    initial_bytes@ =~= s.subrange(current_byte_offset + 1, offset + 1),
                    word_fits(s, offset, word_size, full),
                    current_byte_offset < offset ==> s[offset as int] == full,
                    full == if up { 255u8 } else { 0u8 },
                    low == word_low(offset, word_size),
                    carry_stop(s, offset as int, low, full) == carry_stop(
                        s,
                        current_byte_offset as int,
                        low,
                        full,
                    ),
                    forall|i: int|
                        0 <= i < s.len() ==> #[trigger] self@[i] == if current_byte_offset < i
                            <= offset {
                            if up { 0u8 } else { 255u8 }
                        } else {
                            s[i]
                        },
                ensures
                    initial_bytes@ =~= s.subrange(
                        carry_stop(s, offset as int, low, full),
                        offset + 1,
                    ),
                    self@ =~= stepped(s, offset as int, carry_stop(s, offset as int, low, full), up),
                decreases current_byte_offset,
            {
                initial_bytes.insert(0, current_byte_value);
                let keep_going = if up { current_byte_value == 255 } else { current_byte_value == 0 };
                if !keep_going {
                    let new_value = if up { current_byte_value + 1 } else { current_byte_value - 1 };
                    self.content_array.set(current_byte_offset, new_value);
                    break ;
                } else {
                    let wrapped = if up { 0u8 } else { 255u8 };
                    self.content_array.set(current_byte_offset, wrapped);
                    if current_byte_offset > offset - (word_size - 1) {
                        current_byte_offset -= 1;
                    } else {
                        break ;
                    }
                    current_byte_value = self.content_array[current_byte_offset];
                }
            }
            Ok(initial_bytes)
        } else {
            Err(ContentError::OutOfBounds(offset, self.len()))
        }
    }

    /// Combines the bytes from `offset` on with `mask` (byte by byte, as far
    /// as the content reaches) and returns the bytes it replaced.
    pub fn apply_mask(&mut self, offset: usize, mask: &[u8], operation: BitMask) -> (r: Result<Vec<u8>, ContentError>)
        requires
            offset + mask@.len() <= usize::MAX,
        ensures
            offset > old(self)@.len() ==> r == Err::<Vec<u8>, ContentError>(
                ContentError::OutOfBounds(offset, old(self)@.len() as usize),
            ) && final(self)@ == old(self)@,
            offset <= old(self)@.len() ==> {
                let k = removed_count(old(self)@.len() as int, offset as int, mask@.len() as int);
                &&& r matches Ok(v) && v@ == old(self)@.subrange(offset as int, offset + k)
                &&& final(self)@ == with_inserted(
                    without_range(old(self)@, offset as int, k),
                    offset as int,
                    Seq::new(k as nat, |i: int| mask_byte(operation, old(self)@[offset + i], mask@[i])),
                )
            },
    {
        let ghost s = self@;
        let len = self.len();
        let mask_len = byte_slice_len(mask);
        let mut new_bytes: Vec<u8> = Vec::new();
        let mut i: usize = 0;
        while i < mask_len
            invariant
                0 <= i <= mask_len == mask@.len(),
                self@ == s,
                len == s.len(),
                offset + mask@.len() <= usize::MAX,
                new_bytes@ =~= Seq::new(
                    removed_count(len as int, offset as int, i as int) as nat,
                    |j: int| mask_byte(operation, s[offset + j], mask@[j]),
                ),
            decreases mask_len - i,
        {
            match self.get_byte(offset + i) {
                Some(v) => {
                    let m = mask[i];
                    let b = match operation {
                        BitMask::Or => v | m,
                        BitMask::Xor => v ^ m,
                        BitMask::Nor => !(v | m),
                        BitMask::And => v & m,
                        BitMask::Nand => !(v & m),
                    };
                    new_bytes.push(b);
                },
                None => {},
            }
            i += 1;
        }
        let old_bytes = self.remove_bytes(offset, mask_len);
        proof {
            if offset <= len {
                assert(old_bytes@.len() == new_bytes@.len());
            }
        }
        let inserted = self.insert_bytes(offset, new_bytes.as_slice());
        match inserted {
            Ok(()) => Ok(old_bytes),
            Err(e) => Err(e),
        }
    }

    /// Puts `new_bytes` in at `offset`; an offset past the end is refused.
    pub fn insert_bytes(&mut self, offset: usize, new_bytes: &[u8]) -> (r: Result<(), ContentError>)
        ensures
            offset <= old(self)@.len() ==> r == Ok::<(), ContentError>(()) && final(self)@
                == with_inserted(old(self)@, offset as int, new_bytes@),
            offset > old(self)@.len() ==> r == Err::<(), ContentError>(
                ContentError::OutOfBounds(offset, old(self)@.len() as usize),
            ) && final(self)@ == old(self)@,
    {
        let len = self.content_array.len();
        if offset <= len {
            let mut new_content: Vec<u8> = Vec::new();
            let mut i: usize = 0;
            while i < offset
                invariant
                    i <= offset <= len == self@.len(),
                    new_content@ =~= self@.subrange(0, i as int),
                decreases offset - i,
            {
                new_content.push(self.content_array[i]);
                i += 1;
            }
            let mut j: usize = 0;
            while j < new_bytes.len()
                invariant
                    j <= new_bytes@.len(),
                    offset <= len == self@.len(),
                    new_content@ =~= self@.subrange(0, offset as int) + new_bytes@.subrange(0, j as int),
                decreases new_bytes@.len() - j,
            {
                new_content.push(new_bytes[j]);
                j += 1;
            }
            let mut k: usize = offset;
            while k < len
                invariant
                    offset <= k <= len == self@.len(),
                    new_content@ =~= self@.subrange(0, offset as int) + new_bytes@ + self@.subrange(
                        offset as int,
                        k as int,
                    ),
                decreases len - k,
            {
                new_content.push(self.content_array[k]);
                k += 1;
            }
            self.content_array = new_content;
            Ok(())
        } else {
            Err(ContentError::OutOfBounds(offset, self.len()))
        }
    }

    /// Takes up to `length` bytes out at `offset` and returns them; an offset
    /// at or past the end takes nothing.
    pub fn remove_bytes(&mut self, offset: usize, length: usize) -> (r: Vec<u8>)
        ensures
            ({
                let k = removed_count(old(self)@.len() as int, offset as int, length as int);
                &&& offset < old(self)@.len() ==> r@ == old(self)@.subrange(offset as int, offset + k)
                    && final(self)@ == without_range(old(self)@, offset as int, k)
                &&& offset >= old(self)@.len() ==> r@ == Seq::<u8>::empty() && final(self)@
                    == old(self)@
            }),
    {
        let len = self.content_array.len();
        if offset < len {
            let adj_length = if len - offset < length { len - offset } else { length };
            let mut removed_bytes: Vec<u8> = Vec::new();
            let mut kept: Vec<u8> = Vec::new();
            let mut i: usize = 0;
            while i < len
                invariant
                    i <= len == self@.len(),
                    offset < len,
                    adj_length == removed_count(len as int, offset as int, length as int),
                    kept@ =~= if i <= offset {
                        self@.subrange(0, i as int)
                    } else if i <= offset + adj_length {
                        self@.subrange(0, offset as int)
                    } else {
                        self@.subrange(0, offset as int) + self@.subrange(
                            offset + adj_length,
                            i as int,
                        )
                    },
                    removed_bytes@ =~= if i <= offset {
                        Seq::<u8>::empty()
                    } else if i <= offset + adj_length {
                        self@.subrange(offset as int, i as int)
                    } else {
                        self@.subrange(offset as int, offset + adj_length)
                    },
                decreases len - i,
            {
                if offset <= i && i < offset + adj_length {
                    removed_bytes.push(self.content_array[i]);
                } else {
                    kept.push(self.content_array[i]);
                }
                i += 1;
            }
            self.content_array = kept;
            removed_bytes
        } else {
            Vec::new()
        }
    }

    pub fn as_slice(&self) -> (r: &[u8])
        ensures
            r@ == self@,
    {
        self.content_array.as_slice()
    }

    pub fn len(&self) -> (r: usize)
        ensures
            r == self@.len(),
            r <= isize::MAX,
    {
        byte_vec_len(&self.content_array)
    }

    /// Every match of the regex `search_for`, applied to raw bytes, over the
    /// content, as (start, end) offsets in ascending order.
    pub fn find_all(&self, search_for: &str) -> (r: Result<Vec<(usize, usize)>, regex::Error>)
        ensures
            match r {
                Ok(v) => byte_regex_matches(byte_pattern(search_for@), self@) == Some(v@),
                Err(_) => byte_regex_matches(byte_pattern(search_for@), self@) is None,
            },
            r matches Ok(v) ==> successive_matches(v@, self@.len() as int),
    {
        let mut working_string = "(?-u:".to_owned();
        push_str(&mut working_string, search_for);
        push_str(&mut working_string, ")");
        proof {
            assert(working_string@ =~= byte_pattern(search_for@));
        }
        byte_regex_find_all(working_string.as_str(), self.as_slice())
    }

    /// Writes `digit_value` as the base-`radix` digit at `position` (0 being
    /// the least significant) of the byte at `offset`; returns the old byte.
    /// A result above 255 is refused as an invalid digit.
    pub fn replace_digit(&mut self, offset: usize, position: u8, digit_value: u8, radix: u8) -> (r: Result<u8, ContentError>)
        ensures
            offset >= old(self)@.len() ==> r == Err::<u8, ContentError>(
                ContentError::OutOfBounds(offset, old(self)@.len() as usize),
            ) && final(self)@ == old(self)@,
            offset < old(self)@.len() ==> {
                let v = replaced_value(old(self)@[offset as int], position, digit_value, radix);
                &&& v > 255 ==> r == Err::<u8, ContentError>(
                    ContentError::InvalidDigit(digit_value, radix),
                ) && final(self)@ == old(self)@
                &&& v <= 255 ==> r == Ok::<u8, ContentError>(old(self)@[offset as int])
                    && final(self)@ == old(self)@.update(offset as int, v as u8)
            },
    {
        match self.get_byte(offset) {
            Some(byte0) => {
                let steps = digit_count(radix);
                let ghost all = byte_digits(byte0 as int, radix as int, steps as nat);
                proof {
                    lemma_byte_digits_len(byte0 as int, radix as int, steps as nat);
                }
                let mut byte = byte0;
                let mut digits: Vec<u32> = Vec::new();
                let mut i: u32 = 0;
                while i < steps
                    invariant
                        i <= steps,
                        steps as nat == digits_per_byte(radix),
                        all == byte_digits(byte0 as int, radix as int, steps as nat),
                        all.len() == steps,
                        digits@.len() == i,
                        byte_digits(byte as int, radix as int, (steps - i) as nat) =~= all.subrange(
                            i as int,
                            steps as int,
                        ),
                        forall|j: int|
                            0 <= j < i ==> #[trigger] digits@[j] as int == if j == position {
                                digit_value as int
                            } else {
                                all[j]
                            },
                        forall|j: int| 0 <= j < i ==> #[trigger] digits@[j] < 256,
                    decreases steps - i,
                {
                    proof {
                        let rest = byte_digits(byte as int, radix as int, (steps - i) as nat);
                        assert(rest.drop_first() =~= all.subrange(i + 1, steps as int));
                        assert(rest[0] == all[i as int]);
                        assert(rest[0] == (byte as int) % (radix as int));
                    }
                    if i == position as u32 {
                        digits.push(digit_value as u32);
                    } else {
                        digits.push((byte % radix) as u32);
                    }
                    byte = byte / radix;
                    i += 1;
                }
                let ghost d = replaced_digits(byte0, position, digit_value, radix);
                proof {
                    assert(d.len() == steps);
                    assert forall|j: int| 0 <= j < steps implies #[trigger] digits@[j] as int == d[j] by {
                    }
                    assert forall|k: int| 0 <= k < steps implies #[trigger] d[k] >= 0 && d[k] < 256 by {
                        assert(digits@[k] as int == d[k]);
                        assert(digits@[k] < 256);
                    }
                }
                // The value is accumulated from the most significant digit
                // down; once it passes 255 it stays past 255, so it is held
                // at 256 from then on.
                let mut new_byte: u32 = 0;
                let mut j: u32 = steps;
                while j > 0
                    invariant
                        j <= steps,
                        d.len() == steps,
                        digits@.len() == steps,
                        forall|k: int| 0 <= k < steps ==> #[trigger] digits@[k] as int == d[k],
                        forall|k: int| 0 <= k < steps ==> #[trigger] d[k] >= 0,
                        forall|k: int| 0 <= k < steps ==> #[trigger] d[k] < 256,
                        new_byte <= 256,
                        steps > 0 ==> radix >= 1,
                        new_byte as int == if digits_value(d.subrange(j as int, steps as int), radix as int)
                            > 255 {
                            256
                        } else {
                            digits_value(d.subrange(j as int, steps as int), radix as int)
                        },
                        digits_value(d.subrange(j as int, steps as int), radix as int) >= 0,
                    decreases j,
                {
                    let digit = digits[(j - 1) as usize];
                    proof {
                        lemma_digits_value_step(d, j - 1, radix as int);
                        let tail = digits_value(d.subrange(j as int, steps as int), radix as int);
                        let r = radix as int;
                        assert(r * tail >= 0) by (nonlinear_arith)
                            requires
                                tail >= 0,
                                r >= 0,
                        ;
                        assert((new_byte as int) * r <= 256 * 255) by (nonlinear_arith)
                            requires
                                new_byte <= 256,
                                r <= 255,
                                r >= 0,
                        ;
                        if tail > 255 {
                            assert(r * tail >= tail) by (nonlinear_arith)
                                requires
                                    r >= 1,
                                    tail >= 0,
                            ;
                            assert(256 * r >= 256) by (nonlinear_arith)
                                requires
                                    r >= 1,
                            ;
                        } else {
                            assert((new_byte as int) * r == r * tail) by (nonlinear_arith)
                                requires
                                    new_byte as int == tail,
                            ;
                        }
                    }
                    let next = new_byte * (radix as u32) + digit;
                    new_byte = if next > 255 { 256 } else { next };
                    j -= 1;
                }
                proof {
                    assert(d.subrange(0, steps as int) =~= d);
                }
                if new_byte > 255 {
                    Err(ContentError::InvalidDigit(digit_value, radix))
                } else {
                    self.set_byte(offset, new_byte as u8)
                }
            },
            None => Err(ContentError::OutOfBounds(offset, self.len())),
        }
    }
}

/// `digits_per_byte`, computed.
pub fn digit_count(radix: u8) -> (r: u32)
    ensures
        r as nat == digits_per_byte(radix),
{
    if radix == 0 {
        0
    } else if radix == 1 {
        255
    } else {
        let mut power: u32 = 1;
        let mut count: u32 = 0;
        while power < 256
            invariant
                2 <= radix,
                1 <= power <= 255 * 256,
                count < power,
                count + digit_count_from(radix as nat, power as nat) == digit_count_from(
                    radix as nat,
                    1,
                ),
            decreases (if power < 256 { 256 - power } else { 0 }),
        {
            assert(power * (radix as u32) <= 255 * 255) by (nonlinear_arith)
                requires
                    power < 256,
                    radix <= 255,
            ;
            assert(power * (radix as u32) >= 2 * power) by (nonlinear_arith)
                requires
                    power >= 1,
                    radix >= 2,
            ;
            power = power * (radix as u32);
            count += 1;
        }
        count
    }
}

} // verus!
