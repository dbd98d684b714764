//! The editor: content, cursor, viewport, numeric view, clipboard, undo
//! and redo history, searches and the file the content belongs to.
pub mod content;
pub mod cursor;
pub mod formatter;
pub mod laws;
pub mod parsing;
pub mod replacing;
pub mod search;
pub mod viewport;

use vstd::prelude::*;

use content::{
    digit_count, digits_per_byte,
    byte_pattern, carry_stop, chunk_end, mask_byte, chunk_start, lemma_carry_stop_bounds, removed_count, replaced_value, stepped, with_inserted, without_range,
    word_fits, word_low, BitMask, Content, ContentError,
};
use crate::bounds::byte_slice_len;
use cursor::{span_length, span_start, Cursor};
use formatter::{Formatter, FormatterError, FormatterRef};
use viewport::ViewPort;
pub use parsing::{parse_words, string_to_bytes, string_to_integer};
use search::{rewrite_search, search_defined, search_rewrite_of};
use crate::matching::{byte_regex_matches, successive_matches};
use crate::text::string_from_utf8;
use vstd::utf8::decode_utf8;

verus! {

#[derive(Debug, PartialEq, Eq)]
pub enum SbyteError {
    PathNotSet,
    SetupFailed(String),
    RemapFailed(String),
    RowSetFailed(String),
    ApplyCursorFailed(String),
    DrawFailed(String),
    InvalidRegex(String),
    InvalidBinary(String),
    InvalidHexidecimal(String),
    InvalidDecimal(String),
    OutOfBounds(usize, usize),
    FailedToKill,
    EmptyStack,
    NoCommandGiven,
    ReadFail,
    InvalidCommand(String),
    ConversionFailed,
    InvalidDigit(FormatterRef),
    InvalidRadix(u8),
    BufferEmpty,
    KillSignal,
}

/// The editor error a content error stands for.
pub open spec fn content_error_spec(err: ContentError) -> SbyteError {
    match err {
        ContentError::OutOfBounds(offset, length) => SbyteError::OutOfBounds(offset, length),
        ContentError::InvalidDigit(_digit, radix) => {
            if radix == 16 {
                SbyteError::InvalidDigit(FormatterRef::HEX)
            } else if radix == 10 {
                SbyteError::InvalidDigit(FormatterRef::DEC)
            } else if radix == 2 {
                SbyteError::InvalidDigit(FormatterRef::BIN)
            } else {
                SbyteError::InvalidRadix(radix)
            }
        },
    }
}

impl From<ContentError> for SbyteError {
    fn from(err: ContentError) -> (r: Self) {
        match err {
            ContentError::OutOfBounds(offset, length) => SbyteError::OutOfBounds(offset, length),
            ContentError::InvalidDigit(_digit, radix) => {
                match radix {
                    16 => SbyteError::InvalidDigit(FormatterRef::HEX),
                    10 => SbyteError::InvalidDigit(FormatterRef::DEC),
                    2 => SbyteError::InvalidDigit(FormatterRef::BIN),
                    _ => SbyteError::InvalidRadix(radix),
                }
            },
        }
    }
}

impl vstd::std_specs::convert::FromSpecImpl<ContentError> for SbyteError {
    open spec fn obeys_from_spec() -> bool {
        true
    }

    open spec fn from_spec(err: ContentError) -> SbyteError {
        content_error_spec(err)
    }
}

impl From<FormatterError> for SbyteError {
    fn from(err: FormatterError) -> (r: Self) {
        match err {
            FormatterError::InvalidDigit(conv) => SbyteError::InvalidDigit(conv),
        }
    }
}

impl vstd::std_specs::convert::FromSpecImpl<FormatterError> for SbyteError {
    open spec fn obeys_from_spec() -> bool {
        true
    }

    open spec fn from_spec(err: FormatterError) -> SbyteError {
        match err {
            FormatterError::InvalidDigit(conv) => SbyteError::InvalidDigit(conv),
        }
    }
}

fn content_error(err: ContentError) -> (r: SbyteError)
    ensures
        r == content_error_spec(err),
{
    SbyteError::from(err)
}

#[verifier::external_type_specification]
#[verifier::external_body]
pub struct ExInstant(std::time::Instant);

/// `Instant::now()`: the moment the editor's clock starts from.
#[verifier::external_body]
fn clock_start() -> std::time::Instant {
    std::time::Instant::now()
}

/// `Instant::elapsed` on the editor's clock origin, in nanoseconds. It reads
/// the system clock, so nothing is stated of the value.
#[verifier::external_body]
fn clock_nanos(origin: &std::time::Instant) -> u64 {
    origin.elapsed().as_nanos() as u64
}

/// Edits recorded within this many nanoseconds of each other are undone and
/// redone together.
pub const UNDO_GROUP_NANOS: u64 = 50_000_000;

/// An entry of the undo or redo history, as the edit that reverts a change:
/// (offset, bytes to remove there, bytes to insert there, when).
pub type Task = (usize, usize, Vec<u8>, u64);

pub type TaskView = (usize, usize, Seq<u8>, u64);

pub open spec fn task_view(t: Task) -> TaskView {
    (t.0, t.1, t.2@, t.3)
}

pub open spec fn is_insert_task(remove: usize, insert: Seq<u8>) -> bool {
    remove == 0 && insert.len() > 0
}

pub open spec fn is_remove_task(remove: usize, insert: Seq<u8>) -> bool {
    remove > 0 && insert.len() == 0
}

/// The undo history after recording the edit that `(offset, remove, insert)`
/// reverts, stamped `now`: adjacent insertions and adjacent removals merge
/// into the entry on top of the history.
pub open spec fn pushed(stack: Seq<TaskView>, offset: usize, remove: usize, insert: Seq<u8>, now: u64) -> Seq<TaskView> {
    if stack.len() > 0 {
        let top = stack.last();
        if is_insert_task(remove, insert) && is_insert_task(top.1, top.2) && top.0 == offset
            + insert.len() {
            stack.drop_last().push((offset, top.1, insert + top.2, now))
        } else if is_insert_task(remove, insert) && is_insert_task(top.1, top.2) && top.0 == offset {
            stack.drop_last().push((top.0, top.1, top.2 + insert, now))
        } else if is_remove_task(remove, insert) && is_remove_task(top.1, top.2) && top.0 + top.1
            == offset {
            stack.drop_last().push((top.0, (top.1 + remove) as usize, top.2, now))
        } else {
            stack.push((offset, remove, insert, now))
        }
    } else {
        stack.push((offset, remove, insert, now))
    }
}

/// Cursor length once `set_cursor_length(new_length)` has run on a cursor
/// `c` over content of `len` bytes.
pub open spec fn length_after(c: (usize, isize), len: int, new_length: isize) -> isize {
    if c.0 == len && new_length > 0 {
        1
    } else if new_length < 0 {
        if new_length >= -(c.0 as int) {
            new_length
        } else {
            (-(c.0 as int)) as isize
        }
    } else if new_length == 0 {
        c.1
    } else {
        if (new_length as int) < len - c.0 {
            new_length
        } else {
            (len - c.0) as isize
        }
    }
}

/// Where `set_cursor_length(new_length)` is defined: the cursor is not past
/// the end when the length is clipped to the content, and the length it
/// leaves is neither zero nor too long to index digits in.
pub open spec fn length_settable(c: (usize, isize), len: int, new_length: isize, digits: int) -> bool {
    &&& (new_length > 0 && c.0 != len ==> c.0 <= len)
    &&& length_after(c, len, new_length) != 0
    &&& span_length(length_after(c, len, new_length) as int) * digits <= usize::MAX
}

/// The last byte the cursor covers (its first when it reaches leftwards).
pub open spec fn cursor_end(c: (usize, isize)) -> int {
    if c.1 <= 0 {
        span_start(c.0, c.1)
    } else {
        span_start(c.0, c.1) + span_length(c.1 as int) - 1
    }
}

/// The viewport offset moved down by whole rows until `c` is above the
/// bottom of a screen of `screen` bytes.
pub open spec fn scroll_forward(c: int, vo: int, w: int, screen: int) -> int
    decreases (if c >= vo { c - vo + 1 } else { 0 }),
{
    if w >= 1 && c >= screen + vo && screen >= 0 {
        scroll_forward(c, vo + w, w, screen)
    } else {
        vo
    }
}

/// The viewport offset moved up by whole rows (stopping at 0) until `c` is
/// not above it.
pub open spec fn scroll_back(c: int, vo: int, w: int) -> int
    decreases (if vo > 0 { vo } else { 0 }),
{
    if vo > c && vo > 0 && w >= 1 {
        if w > vo {
            0
        } else {
            scroll_back(c, vo - w, w)
        }
    } else {
        vo
    }
}

/// The viewport offset `adjust_viewport_offset` settles on for a cursor
/// ending at `c`.
pub open spec fn adjusted_viewport_offset(c: int, viewport: (usize, usize, usize)) -> int {
    scroll_back(
        c,
        scroll_forward(c, viewport.0 as int, viewport.1 as int, viewport.1 * viewport.2),
        viewport.1 as int,
    )
}

/// Digits shown per byte plus one, for each formatter: the width a byte
/// takes on screen, in characters.
pub open spec fn display_ratio_of(f: FormatterRef) -> u8 {
    match f {
        FormatterRef::HEX => 3,
        FormatterRef::BIN => 9,
        FormatterRef::DEC => 4,
    }
}

pub open spec fn radix_of(f: FormatterRef) -> u8 {
    match f {
        FormatterRef::HEX => 16,
        FormatterRef::BIN => 2,
        FormatterRef::DEC => 10,
    }
}

/// A cursor over content the editor can index without overflow.
pub open spec fn cursor_sane(c: (usize, isize), digits: int) -> bool {
    &&& c.0 <= isize::MAX
    &&& c.1 != 0
    &&& -isize::MAX <= c.1
    &&& span_length(c.1 as int) <= isize::MAX
    &&& (c.1 < 0 ==> c.0 + c.1 >= 0)
    &&& (c.1 > 0 ==> c.0 + c.1 <= isize::MAX + 1)
    &&& span_length(c.1 as int) * digits <= usize::MAX
}

pub open spec fn viewport_sane(v: (usize, usize, usize)) -> bool {
    &&& 1 <= v.1 <= isize::MAX
    &&& v.1 * v.2 <= isize::MAX
    &&& v.0 <= isize::MAX
}

/// Cursor, subcursor and viewport together.
pub type CursorView = ((usize, isize), (usize, isize), (usize, usize, usize));

/// The bytes `remove_bytes(offset, length)` takes out of content `s`.
pub open spec fn taken(s: Seq<u8>, offset: int, length: int) -> Seq<u8> {
    if offset < s.len() {
        s.subrange(offset, offset + removed_count(s.len() as int, offset, length))
    } else {
        Seq::empty()
    }
}

/// Content `s` once `remove_bytes(offset, length)` has run.
pub open spec fn after_removal(s: Seq<u8>, offset: int, length: int) -> Seq<u8> {
    if offset < s.len() {
        without_range(s, offset, removed_count(s.len() as int, offset, length))
    } else {
        s
    }
}

/// The number whose big-endian base-256 digits are `s`.
pub open spec fn big_endian_value(s: Seq<u8>) -> nat
    decreases s.len(),
{
    if s.len() == 0 {
        0
    } else {
        (big_endian_value(s.drop_last()) * 256 + s.last()) as nat
    }
}

/// The number whose little-endian base-256 digits are `s`.
pub open spec fn little_endian_value(s: Seq<u8>) -> nat
    decreases s.len(),
{
    if s.len() == 0 {
        0
    } else {
        (little_endian_value(s.drop_first()) * 256 + s[0]) as nat
    }
}

/// The mask applied over a cursor of `n` bytes: repeated (and cut) to `n`
/// bytes, except that a one-byte cursor takes the mask as it is.
pub open spec fn spread_mask(mask: Seq<u8>, n: int) -> Seq<u8> {
    if n != 1 {
        Seq::new(n as nat, |i: int| mask[i % (mask.len() as int)])
    } else {
        mask
    }
}

/// Content `s` with the bytes from `offset` on combined with `mask`, as far
/// as the content reaches.
pub open spec fn masked(s: Seq<u8>, offset: int, mask: Seq<u8>, operation: BitMask) -> Seq<u8> {
    let k = removed_count(s.len() as int, offset, mask.len() as int);
    with_inserted(
        without_range(s, offset, k),
        offset,
        Seq::new(k as nat, |i: int| mask_byte(operation, s[offset + i], mask[i])),
    )
}

/// The value of the digit character `c` in base `radix`, if it is one:
/// `0-9`, then `a-z` or `A-Z` from ten on.
pub open spec fn char_digit(c: char, radix: u32) -> Option<u32> {
    let n = c as u32;
    let v: int = if 48 <= n <= 57 {
        n - 48
    } else if 97 <= n <= 122 {
        n - 87
    } else if 65 <= n <= 90 {
        n - 55
    } else {
        radix as int
    };
    if v < radix {
        Some(v as u32)
    } else {
        None
    }
}

/// The formatter that follows `f` when the views are cycled.
pub open spec fn next_formatter(f: FormatterRef) -> FormatterRef {
    match f {
        FormatterRef::BIN => FormatterRef::HEX,
        FormatterRef::HEX => FormatterRef::DEC,
        FormatterRef::DEC => FormatterRef::BIN,
    }
}

/// The cursor length `cursor_increase_length_by_line` asks for: one row
/// longer, skipping zero when a leftward cursor turns rightward.
pub open spec fn grown_by_line(length: isize, width: usize) -> int {
    let n = length + width;
    if length < 0 && n >= 0 { n + 1 } else { n }
}

/// The cursor length `cursor_decrease_length_by_line` asks for: one row
/// shorter, skipping zero when a rightward cursor turns leftward.
pub open spec fn shrunk_by_line(length: isize, width: usize) -> int {
    let n = length - width;
    if length > 0 && n < 0 { n - 1 } else { n }
}

/// The anchor one row of `width` bytes above `offset`, stopping at 0.
pub open spec fn up_one_row(offset: usize, width: usize) -> usize {
    if offset < width { 0 } else { (offset - width) as usize }
}

/// The cursor length `cursor_increase_length` asks for.
pub open spec fn grown(length: isize) -> int {
    if length == -1 { 1 } else { length + 1 }
}

/// The cursor length `cursor_decrease_length` asks for.
pub open spec fn shrunk(length: isize) -> int {
    if length == 1 { -1 } else { length - 1 }
}

/// What a history step reads and changes: the content, the cursor view and
/// the changed offsets.
pub type StepState = (Seq<u8>, CursorView, Set<(usize, bool)>);

/// One entry of the history carried out on `st` (with `digits` digits per
/// byte): the cursor is reset to one byte at the entry's offset, the
/// entry's bytes are taken out and its bytes put in there. Gives the new
/// state and the entry that reverts it, or the error when the bytes to put
/// in lie past the end.
pub open spec fn history_step(st: StepState, digits: int, t: TaskView) -> (StepState, Result<TaskView, SbyteError>) {
    let s = st.0;
    let len = s.len() as int;
    let cv = after_offset(after_length(st.1, len, 1, digits), len, t.0);
    let removed = taken(s, t.0 as int, t.1 as int);
    let s1 = after_removal(s, t.0 as int, t.1 as int);
    if t.2.len() > 0 && t.0 > s1.len() {
        ((s1, cv, st.2), Err(SbyteError::OutOfBounds(t.0, s1.len() as usize)))
    } else {
        let s2 = if t.2.len() > 0 { with_inserted(s1, t.0 as int, t.2) } else { s1 };
        (
            (s2, cv, st.2.insert((t.0, t.2.len() != removed.len()))),
            Ok((t.0, t.2.len() as usize, removed, t.3)),
        )
    }
}

/// How far `later` is past `earlier`, or 0.
pub open spec fn time_gap(later: u64, earlier: u64) -> int {
    if later >= earlier { later - earlier } else { 0 }
}

/// Undo (`redo` false) or redo (`redo` true) from `source` onto `dest`:
/// entries are taken off the top of `source` and carried out while each is
/// within `UNDO_GROUP_NANOS` of the one before, and the reverting entries
/// go onto `dest`. The entry that ends a redo group moves to `dest` as it
/// is; the one that ends an undo group stays. `count` entries are done
/// already, the last stamped `latest`. Gives the state, the two histories
/// and the result.
pub open spec fn run_history(
    st: StepState,
    digits: int,
    source: Seq<TaskView>,
    dest: Seq<TaskView>,
    latest: Option<u64>,
    count: nat,
    redo: bool,
) -> (StepState, Seq<TaskView>, Seq<TaskView>, Result<usize, SbyteError>)
    decreases source.len(),
{
    let done = if count > 0 {
        Ok::<usize, SbyteError>(count as usize)
    } else {
        Err::<usize, SbyteError>(SbyteError::EmptyStack)
    };
    if source.len() == 0 {
        (st, source, dest, done)
    } else {
        let t = source.last();
        let in_group = match latest {
            None => true,
            Some(then) => if redo {
                time_gap(t.3, then) <= UNDO_GROUP_NANOS
            } else {
                time_gap(then, t.3) <= UNDO_GROUP_NANOS
            },
        };
        if !in_group {
            if redo {
                (st, source.drop_last(), dest.push(t), done)
            } else {
                (st, source, dest, done)
            }
        } else {
            let (st1, res) = history_step(st, digits, t);
            match res {
                Err(e) => (st1, source.drop_last(), dest, Err(e)),
                Ok(rt) => run_history(st1, digits, source.drop_last(), dest.push(rt), Some(t.3), count + 1, redo),
            }
        }
    }
}

/// What a search for `search` over `content` gives: the error for a
/// malformed binary literal, the matches of the written-out pattern, or the
/// error for a pattern that does not compile.
pub open spec fn search_result(search: Seq<char>, content: Seq<u8>, r: Result<Vec<(usize, usize)>, SbyteError>) -> bool {
    match search_rewrite_of(search) {
        None => true,
        Some(Err(text)) => r matches Err(SbyteError::InvalidBinary(m)) && m@ == decode_utf8(text),
        Some(Ok(p)) => match byte_regex_matches(byte_pattern(decode_utf8(p)), content) {
            Some(v) => r matches Ok(x) && x@ == v && successive_matches(v, content.len() as int),
            None => r matches Err(SbyteError::InvalidRegex(m)) && m@ == search,
        },
    }
}

/// The matches a search for `search` over `content` finds, if it finds any
/// (a malformed pattern finds none).
pub open spec fn search_matches(search: Seq<char>, content: Seq<u8>) -> Option<Seq<(usize, usize)>> {
    match search_rewrite_of(search) {
        Some(Ok(p)) => byte_regex_matches(byte_pattern(decode_utf8(p)), content),
        _ => None,
    }
}

/// Where `find_nth_after` starts counting: the first match that starts
/// past `offset`, or the first match.
pub open spec fn first_after(m: Seq<(usize, usize)>, offset: usize, i: nat) -> nat
    decreases m.len() - i,
{
    if i >= m.len() {
        0
    } else if m[i as int].0 > offset {
        i
    } else {
        first_after(m, offset, i + 1)
    }
}

/// Where `find_nth_before` starts counting: the last match that starts
/// before `offset` (scanning stops at the first that does not), or the last
/// match.
pub open spec fn last_before(m: Seq<(usize, usize)>, offset: usize, i: nat, found: nat) -> nat
    decreases m.len() - i,
{
    if i >= m.len() {
        found
    } else if m[i as int].0 >= offset {
        found
    } else {
        last_before(m, offset, i + 1, i)
    }
}

/// The viewport `v` with its offset adjusted for cursor `c`.
pub open spec fn viewport_for(c: (usize, isize), v: (usize, usize, usize)) -> (usize, usize, usize) {
    (adjusted_viewport_offset(cursor_end(c), v) as usize, v.1, v.2)
}

/// The cursor view after `set_cursor_offset(new_offset)` over content of
/// `len` bytes: offsets past the end change nothing.
pub open spec fn after_offset(cv: CursorView, len: int, new_offset: usize) -> CursorView {
    if new_offset <= len {
        let c = (new_offset, cv.0.1);
        (c, (0usize, cv.1.1), viewport_for(c, cv.2))
    } else {
        cv
    }
}

/// Where `set_cursor_offset(new_offset)` is defined.
pub open spec fn offset_settable(cv: CursorView, len: int, new_offset: usize, digits: int) -> bool {
    new_offset <= len ==> cursor_sane((new_offset, cv.0.1), digits)
}

/// The cursor view after `set_cursor_length(new_length)` over content of
/// `len` bytes with `digits` digits per byte.
pub open spec fn after_length(cv: CursorView, len: int, new_length: isize, digits: int) -> CursorView {
    let c = (cv.0.0, length_after(cv.0, len, new_length));
    (c, (0usize, digits as isize), viewport_for(c, cv.2))
}

pub struct Editor {
    user_msg: Option<String>,
    user_error_msg: Option<String>,
    flag_loading: bool,
    clipboard: Vec<u8>,
    active_content: Content,
    active_file_path: Option<String>,
    cursor: Cursor,
    subcursor: Cursor,
    active_formatter: FormatterRef,
    undo_stack: Vec<Task>,
    redo_stack: Vec<Task>,
    viewport: ViewPort,
    search_history: Vec<String>,
    changed_offsets: Vec<(usize, bool)>,
    clock_origin: std::time::Instant,
    _active_display_ratio: u8,
}

impl Editor {
    pub closed spec fn content(&self) -> Seq<u8> {
        self.active_content@
    }

    pub closed spec fn cursor_state(&self) -> (usize, isize) {
        self.cursor@
    }

    pub closed spec fn subcursor_state(&self) -> (usize, isize) {
        self.subcursor@
    }

    pub closed spec fn viewport_state(&self) -> (usize, usize, usize) {
        self.viewport@
    }

    pub closed spec fn formatter_ref(&self) -> FormatterRef {
        self.active_formatter
    }

    pub closed spec fn ratio(&self) -> u8 {
        self._active_display_ratio
    }

    pub closed spec fn clipboard_bytes(&self) -> Seq<u8> {
        self.clipboard@
    }

    pub closed spec fn undo_tasks(&self) -> Seq<TaskView> {
        self.undo_stack@.map_values(|t: Task| task_view(t))
    }

    pub closed spec fn redo_tasks(&self) -> Seq<TaskView> {
        self.redo_stack@.map_values(|t: Task| task_view(t))
    }

    pub closed spec fn user_message(&self) -> Option<Seq<char>> {
        match self.user_msg {
            Some(m) => Some(m@),
            None => None,
        }
    }

    pub closed spec fn user_error_message(&self) -> Option<Seq<char>> {
        match self.user_error_msg {
            Some(m) => Some(m@),
            None => None,
        }
    }

    pub closed spec fn file_path(&self) -> Option<Seq<char>> {
        match self.active_file_path {
            Some(m) => Some(m@),
            None => None,
        }
    }

    pub closed spec fn loading(&self) -> bool {
        self.flag_loading
    }

    pub closed spec fn searches(&self) -> Seq<Seq<char>> {
        self.search_history@.map_values(|s: String| s@)
    }

    pub closed spec fn changed(&self) -> Set<(usize, bool)> {
        self.changed_offsets@.to_set()
    }

    pub open spec fn cursor_view(&self) -> CursorView {
        (self.cursor_state(), self.subcursor_state(), self.viewport_state())
    }

    /// Number of digits the subcursor moves over per byte.
    pub open spec fn digits(&self) -> int {
        self.ratio() - 1
    }

    /// First byte under the cursor.
    pub open spec fn cursor_start(&self) -> int {
        span_start(self.cursor_state().0, self.cursor_state().1)
    }

    /// Number of bytes under the cursor.
    pub open spec fn cursor_span(&self) -> int {
        span_length(self.cursor_state().1 as int)
    }

    /// The bytes under the cursor, clipped to the content.
    pub open spec fn selection(&self) -> Seq<u8> {
        self.content().subrange(
            chunk_start(self.content().len() as int, self.cursor_start()),
            chunk_end(self.content().len() as int, self.cursor_start(), self.cursor_span()),
        )
    }

    /// The byte the subcursor's digit belongs to.
    pub open spec fn digit_offset(&self) -> int {
        self.cursor_start() + (self.subcursor_state().0 as int) / (self.subcursor_state().1 as int)
    }

    /// The place of the subcursor's digit in its byte, 0 being the least
    /// significant.
    pub open spec fn digit_position(&self) -> int {
        self.subcursor_state().1 - 1 - (self.subcursor_state().0 as int) % (self.subcursor_state().1 as int)
    }

    /// `after` is `self` once a mask operation with `mask` has run and
    /// returned `r`: the mask, spread over the cursor, combined with the
    /// bytes from the cursor's first on, the edit recorded; a cursor past
    /// the end is refused.
    pub open spec fn masked_as(
        &self,
        after: &Editor,
        operation: BitMask,
        mask: Seq<u8>,
        r: Result<(), SbyteError>,
    ) -> bool {
        let m = spread_mask(mask, self.cursor_span());
        let off = self.cursor_start();
        let k = removed_count(self.content().len() as int, off, m.len() as int);
        &&& after.same_settings(self)
        &&& off > self.content().len() ==> {
            &&& r == Err::<(), SbyteError>(SbyteError::OutOfBounds(off as usize, self.content().len() as usize))
            &&& after.content() == self.content()
            &&& after.same_history(self)
        }
        &&& off <= self.content().len() ==> {
            &&& r == Ok::<(), SbyteError>(())
            &&& after.content() == masked(self.content(), off, m, operation)
            &&& self.records(after, off as usize, m.len() as usize, self.content().subrange(off, off + k))
        }
    }

    /// What the history steps act on, in `self`.
    pub open spec fn step_state(&self) -> StepState {
        (self.content(), self.cursor_view(), self.changed())
    }

    /// `after` is `self` once an undo has run and returned `r`.
    pub open spec fn undone_as(&self, after: &Editor, r: Result<usize, SbyteError>) -> bool {
        let out = run_history(
            self.step_state(),
            self.digits(),
            self.undo_tasks(),
            self.redo_tasks(),
            None,
            0,
            false,
        );
        &&& after.step_state() == out.0
        &&& after.undo_tasks() == out.1
        &&& after.redo_tasks() == out.2
        &&& r == out.3
        &&& after.same_extras(self)
    }

    /// `after` is `self` once a redo has run and returned `r`.
    pub open spec fn redone_as(&self, after: &Editor, r: Result<usize, SbyteError>) -> bool {
        let out = run_history(
            self.step_state(),
            self.digits(),
            self.redo_tasks(),
            self.undo_tasks(),
            None,
            0,
            true,
        );
        &&& after.step_state() == out.0
        &&& after.redo_tasks() == out.1
        &&& after.undo_tasks() == out.2
        &&& r == out.3
        &&& after.same_extras(self)
    }

    /// The editor's standing invariant.
    pub closed spec fn wf(&self) -> bool {
        &&& self.wf_core()
        &&& self.subcursor_fits()
    }

    /// The subcursor moves over the digits of the bytes under the cursor.
    pub closed spec fn subcursor_fits(&self) -> bool {
        &&& self.subcursor@.1 == self._active_display_ratio - 1
        &&& self.subcursor@.0 < span_length(self.subcursor@.1 as int) * span_length(self.cursor@.1 as int)
    }

    /// The invariant apart from the subcursor.
    pub closed spec fn wf_core(&self) -> bool {
        &&& self._active_display_ratio == display_ratio_of(self.active_formatter)
        &&& cursor_sane(self.cursor@, self._active_display_ratio - 1)
        &&& viewport_sane(self.viewport@)
        &&& self.changed_offsets@.no_duplicates()
    }

    /// Everything but the content, the history and the record of changed
    /// offsets is as in `other`.
    pub open spec fn same_settings(&self, other: &Editor) -> bool {
        &&& self.cursor_state() == other.cursor_state()
        &&& self.subcursor_state() == other.subcursor_state()
        &&& self.viewport_state() == other.viewport_state()
        &&& self.same_extras(other)
    }

    /// The undo and redo histories and the changed offsets are as in `other`.
    pub open spec fn same_history(&self, other: &Editor) -> bool {
        &&& self.undo_tasks() == other.undo_tasks()
        &&& self.redo_tasks() == other.redo_tasks()
        &&& self.changed() == other.changed()
    }

    /// Formatter, clipboard, messages, file path, loading flag and search
    /// history are as in `other`.
    pub open spec fn same_extras(&self, other: &Editor) -> bool {
        &&& self.formatter_ref() == other.formatter_ref()
        &&& self.ratio() == other.ratio()
        &&& self.clipboard_bytes() == other.clipboard_bytes()
        &&& self.user_message() == other.user_message()
        &&& self.user_error_message() == other.user_error_message()
        &&& self.file_path() == other.file_path()
        &&& self.loading() == other.loading()
        &&& self.searches() == other.searches()
    }

    /// Everything but the clipboard is as in `other`.
    pub open spec fn same_state_but_clipboard(&self, other: &Editor) -> bool {
        &&& self.cursor_state() == other.cursor_state()
        &&& self.subcursor_state() == other.subcursor_state()
        &&& self.viewport_state() == other.viewport_state()
        &&& self.formatter_ref() == other.formatter_ref()
        &&& self.ratio() == other.ratio()
        &&& self.user_message() == other.user_message()
        &&& self.user_error_message() == other.user_error_message()
        &&& self.file_path() == other.file_path()
        &&& self.loading() == other.loading()
        &&& self.searches() == other.searches()
        &&& self.content() == other.content()
        &&& self.same_history(other)
    }

    /// Everything but the two messages is as in `other`.
    pub open spec fn same_state_but_messages(&self, other: &Editor) -> bool {
        &&& self.cursor_state() == other.cursor_state()
        &&& self.subcursor_state() == other.subcursor_state()
        &&& self.viewport_state() == other.viewport_state()
        &&& self.formatter_ref() == other.formatter_ref()
        &&& self.ratio() == other.ratio()
        &&& self.clipboard_bytes() == other.clipboard_bytes()
        &&& self.file_path() == other.file_path()
        &&& self.loading() == other.loading()
        &&& self.searches() == other.searches()
        &&& self.content() == other.content()
        &&& self.same_history(other)
    }

    /// Everything but the search history is as in `other`.
    pub open spec fn same_state_but_searches(&self, other: &Editor) -> bool {
        &&& self.cursor_state() == other.cursor_state()
        &&& self.subcursor_state() == other.subcursor_state()
        &&& self.viewport_state() == other.viewport_state()
        &&& self.formatter_ref() == other.formatter_ref()
        &&& self.ratio() == other.ratio()
        &&& self.clipboard_bytes() == other.clipboard_bytes()
        &&& self.user_message() == other.user_message()
        &&& self.user_error_message() == other.user_error_message()
        &&& self.file_path() == other.file_path()
        &&& self.loading() == other.loading()
        &&& self.content() == other.content()
        &&& self.same_history(other)
    }

    /// Everything but the file path is as in `other`.
    pub open spec fn same_settings_but_path(&self, other: &Editor) -> bool {
        &&& self.cursor_state() == other.cursor_state()
        &&& self.subcursor_state() == other.subcursor_state()
        &&& self.viewport_state() == other.viewport_state()
        &&& self.formatter_ref() == other.formatter_ref()
        &&& self.ratio() == other.ratio()
        &&& self.clipboard_bytes() == other.clipboard_bytes()
        &&& self.user_message() == other.user_message()
        &&& self.user_error_message() == other.user_error_message()
        &&& self.loading() == other.loading()
        &&& self.searches() == other.searches()
        &&& self.content() == other.content()
        &&& self.same_history(other)
    }

    /// Everything but the loading flag is as in `other`.
    pub open spec fn same_settings_but_loading(&self, other: &Editor) -> bool {
        &&& self.cursor_state() == other.cursor_state()
        &&& self.subcursor_state() == other.subcursor_state()
        &&& self.viewport_state() == other.viewport_state()
        &&& self.formatter_ref() == other.formatter_ref()
        &&& self.ratio() == other.ratio()
        &&& self.clipboard_bytes() == other.clipboard_bytes()
        &&& self.user_message() == other.user_message()
        &&& self.user_error_message() == other.user_error_message()
        &&& self.file_path() == other.file_path()
        &&& self.searches() == other.searches()
        &&& self.content() == other.content()
        &&& self.same_history(other)
    }

    /// Everything but the loading flag and the content is as in `other`.
    pub open spec fn same_settings_but_loading_content(&self, other: &Editor) -> bool {
        &&& self.cursor_state() == other.cursor_state()
        &&& self.subcursor_state() == other.subcursor_state()
        &&& self.viewport_state() == other.viewport_state()
        &&& self.formatter_ref() == other.formatter_ref()
        &&& self.ratio() == other.ratio()
        &&& self.clipboard_bytes() == other.clipboard_bytes()
        &&& self.user_message() == other.user_message()
        &&& self.user_error_message() == other.user_error_message()
        &&& self.file_path() == other.file_path()
        &&& self.searches() == other.searches()
        &&& self.same_history(other)
    }

    /// `after` is `self` with the edit that `(offset, remove, insert)`
    /// reverts recorded: pushed on the undo history (merging where it
    /// can) with a fresh timestamp, the redo history cleared, and the
    /// offset marked changed.
    pub open spec fn records(&self, after: &Editor, offset: usize, remove: usize, insert: Seq<u8>) -> bool {
        &&& after.undo_tasks().len() > 0
        &&& after.undo_tasks() == pushed(
            self.undo_tasks(),
            offset,
            remove,
            insert,
            after.undo_tasks().last().3,
        )
        &&& after.redo_tasks() == Seq::<TaskView>::empty()
        &&& after.changed() == self.changed().insert((offset, remove != insert.len()))
    }
}


proof fn lemma_display_ratios()
    ensures
        digits_per_byte(16) == 2,
        digits_per_byte(2) == 8,
        digits_per_byte(10) == 3,
{
    reveal_with_fuel(content::digit_count_from, 10);
    assert(content::digit_count_from(16, 256) == 0);
    assert(content::digit_count_from(16, 16) == 1);
    assert(content::digit_count_from(10, 1000) == 0);
    assert(content::digit_count_from(10, 100) == 1);
    assert(content::digit_count_from(10, 10) == 2);
    assert(content::digit_count_from(2, 256) == 0);
    assert(content::digit_count_from(2, 128) == 1);
    assert(content::digit_count_from(2, 64) == 2);
    assert(content::digit_count_from(2, 32) == 3);
    assert(content::digit_count_from(2, 16) == 4);
    assert(content::digit_count_from(2, 8) == 5);
    assert(content::digit_count_from(2, 4) == 6);
    assert(content::digit_count_from(2, 2) == 7);
}

proof fn lemma_span_bound(span: int, digits: int)
    requires
        span * digits <= usize::MAX,
        digits >= 2,
        span >= 0,
    ensures
        span <= isize::MAX,
{
    assert(span * digits >= span * 2) by (nonlinear_arith)
        requires
            digits >= 2,
            span >= 0,
    ;
}

/// Scrolling forward by whole rows keeps the offset on a row boundary.
proof fn lemma_scroll_forward_aligned(c: int, vo: int, w: int, screen: int)
    requires
        w >= 1,
        vo % w == 0,
    ensures
        scroll_forward(c, vo, w, screen) % w == 0,
    decreases (if c >= vo { c - vo + 1 } else { 0 }),
{
    if w >= 1 && c >= screen + vo && screen >= 0 {
        assert((vo + w) % w == 0) by (nonlinear_arith)
            requires
                w >= 1,
                vo % w == 0,
        ;
        lemma_scroll_forward_aligned(c, vo + w, w, screen);
    }
}

/// Scrolling back by whole rows keeps the offset on a row boundary.
proof fn lemma_scroll_back_aligned(c: int, vo: int, w: int)
    requires
        w >= 1,
        vo % w == 0,
    ensures
        scroll_back(c, vo, w) % w == 0,
    decreases (if vo > 0 { vo } else { 0 }),
{
    if vo > c && vo > 0 && w >= 1 && w <= vo {
        assert((vo - w) % w == 0) by (nonlinear_arith)
            requires
                w >= 1,
                vo % w == 0,
        ;
        lemma_scroll_back_aligned(c, vo - w, w);
    } else if vo > c && vo > 0 && w >= 1 {
        assert(0int % w == 0) by (nonlinear_arith)
            requires
                w >= 1,
        ;
    }
}

proof fn lemma_scroll_forward(c: int, vo: int, w: int, screen: int)
    requires
        w >= 1,
        screen >= 0,
    ensures
        c < screen + scroll_forward(c, vo, w, screen),
        scroll_forward(c, vo, w, screen) >= vo,
        c >= screen + vo && screen >= w ==> scroll_forward(c, vo, w, screen) <= c - screen + w,
        c >= screen + vo && screen >= w ==> scroll_forward(c, vo, w, screen) - w <= c,
    decreases (if c >= vo { c - vo + 1 } else { 0 }),
{
    if c >= screen + vo {
        lemma_scroll_forward(c, vo + w, w, screen);
    }
}

proof fn lemma_scroll_back(c: int, vo: int, w: int)
    requires
        w >= 1,
        c >= 0,
    ensures
        scroll_back(c, vo, w) <= c || scroll_back(c, vo, w) == vo && vo <= c,
        scroll_back(c, vo, w) <= c || vo <= 0,
        vo >= 0 ==> scroll_back(c, vo, w) >= 0,
        vo > c ==> scroll_back(c, vo, w) > c - w,
        scroll_back(c, vo, w) <= vo || vo < 0,
    decreases (if vo > 0 { vo } else { 0 }),
{
    if vo > c && vo > 0 && w >= 1 {
        if w <= vo {
            lemma_scroll_back(c, vo - w, w);
        }
    }
}

impl Editor {
    pub fn new() -> (e: Editor)
        ensures
            e.wf(),
            e.content() == Seq::<u8>::empty(),
            e.cursor_state() == (0usize, 1isize),
            e.subcursor_state() == (0usize, 2isize),
            e.viewport_state() == (0usize, 1usize, 1usize),
            e.formatter_ref() == FormatterRef::HEX,
            e.ratio() == 3,
            e.clipboard_bytes() == Seq::<u8>::empty(),
            e.undo_tasks() == Seq::<TaskView>::empty(),
            e.redo_tasks() == Seq::<TaskView>::empty(),
            e.user_message() is None,
            e.user_error_message() is None,
            e.file_path() is None,
            !e.loading(),
            e.searches() == Seq::<Seq<char>>::empty(),
            e.changed() == Set::<(usize, bool)>::empty(),
    {
        let mut output = Editor {
            flag_loading: false,
            user_msg: None,
            user_error_msg: None,
            clipboard: Vec::new(),
            active_content: Content::new(),
            active_file_path: None,
            cursor: Cursor::new(),
            subcursor: Cursor::new(),
            active_formatter: FormatterRef::HEX,
            undo_stack: Vec::new(),
            redo_stack: Vec::new(),
            viewport: ViewPort::new(1, 1),
            search_history: Vec::new(),
            changed_offsets: Vec::new(),
            clock_origin: clock_start(),
            _active_display_ratio: 3,
        };
        proof {
            assert(output.changed_offsets@.no_duplicates());
            assert(output.wf_core());
            assert(output.undo_tasks() =~= Seq::<TaskView>::empty());
            assert(output.redo_tasks() =~= Seq::<TaskView>::empty());
            assert(output.searches() =~= Seq::<Seq<char>>::empty());
            assert(output.changed() =~= Set::<(usize, bool)>::empty());
        }
        proof {
            assert(scroll_forward(0, 0, 1, 1) == 0);
            assert(scroll_back(0, 0, 1) == 0);
            assert(cursor_end((0usize, 1isize)) == 0);
            let v = (0usize, 1usize, 1usize);
            assert(v.1 * v.2 == 1) by (nonlinear_arith)
                requires
                    v.1 == 1,
                    v.2 == 1,
            ;
            assert(scroll_forward(0, v.0 as int, v.1 as int, v.1 * v.2) == 0);
            assert(adjusted_viewport_offset(0, v) == 0);
        }
        output.fit_cursor_length(1);
        let _ = output.set_cursor_offset(0);
        output.reset_subcursor();
        proof {
            assert(scroll_forward(0, 0, 1, 1) == 0);
            assert(scroll_back(0, 0, 1) == 0);
        }
        output
    }

    pub fn len(&self) -> (r: usize)
        ensures
            r == self.content().len(),
    {
        self.active_content.len()
    }

    pub fn get_display_ratio(&self) -> (r: u8)
        ensures
            r == self.ratio(),
    {
        self._active_display_ratio
    }

    pub fn get_cursor_offset(&self) -> (r: usize)
        requires
            self.wf(),
        ensures
            r == span_start(self.cursor_state().0, self.cursor_state().1),
    {
        self.cursor.get_offset()
    }

    pub fn get_cursor_real_offset(&self) -> (r: usize)
        ensures
            r == self.cursor_state().0,
    {
        self.cursor.get_real_offset()
    }

    pub fn get_cursor_length(&self) -> (r: usize)
        requires
            self.wf(),
        ensures
            r == span_length(self.cursor_state().1 as int),
    {
        self.cursor.get_length()
    }

    pub fn get_cursor_real_length(&self) -> (r: isize)
        ensures
            r == self.cursor_state().1,
    {
        self.cursor.get_real_length()
    }

    pub fn get_subcursor_offset(&self) -> (r: usize)
        requires
            self.wf(),
        ensures
            r == self.subcursor_state().0,
    {
        self.subcursor.get_offset()
    }

    pub fn get_subcursor_length(&self) -> (r: usize)
        requires
            self.wf(),
        ensures
            r == self.subcursor_state().1,
    {
        self.subcursor.get_length()
    }

    pub fn get_viewport_size(&self) -> (r: (usize, usize))
        ensures
            r == (self.viewport_state().1, self.viewport_state().2),
    {
        (self.viewport.get_width(), self.viewport.get_height())
    }

    pub fn get_viewport_offset(&self) -> (r: usize)
        ensures
            r == self.viewport_state().0,
    {
        self.viewport.get_offset()
    }

    /// Moves the viewport by whole rows so that the end of the cursor is on
    /// screen.
    pub fn adjust_viewport_offset(&mut self)
        requires
            old(self).wf(),
        ensures
            final(self).viewport_state() == (
                adjusted_viewport_offset(cursor_end(old(self).cursor_state()), old(self).viewport_state())
                    as usize,
                old(self).viewport_state().1,
                old(self).viewport_state().2,
            ),
            final(self).viewport_state().0 <= cursor_end(old(self).cursor_state()),
            old(self).viewport_state().0 % old(self).viewport_state().1 == 0
                ==> final(self).viewport_state().0 % old(self).viewport_state().1 == 0,
            old(self).viewport_state().2 >= 1 ==> cursor_end(old(self).cursor_state())
                < final(self).viewport_state().0 + old(self).viewport_state().1
                * old(self).viewport_state().2,
            final(self).content() == old(self).content(),
            final(self).cursor_state() == old(self).cursor_state(),
            final(self).subcursor_state() == old(self).subcursor_state(),
            final(self).wf_core(),
            old(self).wf() ==> final(self).wf(),
            final(self).same_extras(&*old(self)),
            final(self).same_history(&*old(self)),
    {
        proof {
            let v = old(self).viewport_state();
            if v.0 % v.1 == 0 {
                let c = cursor_end(old(self).cursor_state());
                lemma_scroll_forward_aligned(c, v.0 as int, v.1 as int, v.1 * v.2);
                lemma_scroll_back_aligned(c, scroll_forward(c, v.0 as int, v.1 as int, v.1 * v.2), v.1 as int);
            }
        }
        self.keep_cursor_on_screen();
        proof {
            let v = old(self).viewport_state();
            let f = self.viewport_state().0;
            let c = cursor_end(old(self).cursor_state());
            let fw = scroll_forward(c, v.0 as int, v.1 as int, v.1 * v.2);
            lemma_scroll_forward(c, v.0 as int, v.1 as int, v.1 * v.2);
            lemma_scroll_back(c, fw, v.1 as int);
            assert(f as int == adjusted_viewport_offset(c, v));
            assert((f as int) % (v.1 as int) == f % v.1);
            assert((v.0 as int) % (v.1 as int) == v.0 % v.1);
        }
    }

    fn keep_cursor_on_screen(&mut self)
        requires
            old(self).wf_core(),
        ensures
            final(self).viewport_state() == (
                adjusted_viewport_offset(cursor_end(old(self).cursor_state()), old(self).viewport_state())
                    as usize,
                old(self).viewport_state().1,
                old(self).viewport_state().2,
            ),
            final(self).viewport_state().0 <= cursor_end(old(self).cursor_state()),
            old(self).viewport_state().2 >= 1 ==> cursor_end(old(self).cursor_state())
                < final(self).viewport_state().0 + old(self).viewport_state().1
                * old(self).viewport_state().2,
            final(self).content() == old(self).content(),
            final(self).cursor_state() == old(self).cursor_state(),
            final(self).subcursor_state() == old(self).subcursor_state(),
            final(self).wf_core(),
            old(self).wf() ==> final(self).wf(),
            final(self).same_extras(&*old(self)),
            final(self).same_history(&*old(self)),
    {
        let width = self.viewport.get_width();
        let height = self.viewport.get_height();
        let screen_buffer_length = width * height;
        let mut adj_viewport_offset = self.viewport.get_offset();
        let ghost vo0 = adj_viewport_offset as int;
        let adj_cursor_offset = if self.cursor.get_real_length() <= 0 {
            self.cursor.get_offset()
        } else {
            self.cursor.get_offset() + self.cursor.get_length() - 1
        };
        let ghost c = adj_cursor_offset as int;
        assert(c == cursor_end(self.cursor@));
        assert(c <= isize::MAX);
        while adj_cursor_offset >= screen_buffer_length + adj_viewport_offset
            invariant
                1 <= width <= isize::MAX,
                screen_buffer_length == width * height <= isize::MAX,
                c == adj_cursor_offset <= isize::MAX,
                screen_buffer_length + adj_viewport_offset <= 2 * (isize::MAX as int),
                scroll_forward(c, adj_viewport_offset as int, width as int, screen_buffer_length as int)
                    == scroll_forward(c, vo0, width as int, screen_buffer_length as int),
            decreases (if c >= adj_viewport_offset { c - adj_viewport_offset + 1 } else { 0 }),
        {
            adj_viewport_offset += width;
        }
        let ghost vo1 = adj_viewport_offset as int;
        assert(vo1 == scroll_forward(c, vo0, width as int, screen_buffer_length as int));
        while adj_viewport_offset > adj_cursor_offset
            invariant
                1 <= width,
                c == adj_cursor_offset,
                scroll_back(c, adj_viewport_offset as int, width as int) == scroll_back(c, vo1, width as int),
            decreases adj_viewport_offset,
        {
            if width > adj_viewport_offset {
                adj_viewport_offset = 0;
            } else {
                adj_viewport_offset -= width;
            }
        }
        proof {
            lemma_scroll_forward(c, vo0, width as int, screen_buffer_length as int);
            lemma_scroll_back(c, vo1, width as int);
            if height >= 1 {
                assert(screen_buffer_length >= width) by (nonlinear_arith)
                    requires
                        screen_buffer_length == width * height,
                        height >= 1,
                        width >= 1,
                ;
            }
        }
        self.set_viewport_offset(adj_viewport_offset);
    }

    pub fn set_viewport_offset(&mut self, new_offset: usize)
        requires
            new_offset <= isize::MAX,
        ensures
            final(self).viewport_state() == (new_offset, old(self).viewport_state().1, old(self).viewport_state().2),
            final(self).content() == old(self).content(),
            final(self).cursor_state() == old(self).cursor_state(),
            final(self).subcursor_state() == old(self).subcursor_state(),
            old(self).wf_core() ==> final(self).wf_core(),
            old(self).wf() ==> final(self).wf(),
            final(self).same_extras(&*old(self)),
            final(self).same_history(&*old(self)),
    {
        self.viewport.set_offset(new_offset);
    }

    /// Sets the cursor's length, clipped to the content (a negative length
    /// reaches left, at most to the start), resets the subcursor and keeps
    /// the cursor on screen.
    pub fn set_cursor_length(&mut self, new_length: isize)
        requires
            old(self).wf(),
            length_settable(
                old(self).cursor_state(),
                old(self).content().len() as int,
                new_length,
                old(self).digits(),
            ),
        ensures
            final(self).wf(),
            final(self).cursor_view() == after_length(
                old(self).cursor_view(),
                old(self).content().len() as int,
                new_length,
                old(self).digits(),
            ),
            final(self).cursor_state() == (
                old(self).cursor_state().0,
                length_after(old(self).cursor_state(), old(self).content().len() as int, new_length),
            ),
            final(self).subcursor_state() == (0usize, (old(self).ratio() - 1) as isize),
            final(self).viewport_state() == (
                adjusted_viewport_offset(cursor_end(final(self).cursor_state()), old(self).viewport_state())
                    as usize,
                old(self).viewport_state().1,
                old(self).viewport_state().2,
            ),
            final(self).content() == old(self).content(),
            final(self).same_extras(&*old(self)),
            final(self).same_history(&*old(self)),
    {
        self.fit_cursor_length(new_length);
    }

    fn fit_cursor_length(&mut self, new_length: isize)
        requires
            old(self).wf_core(),
            length_settable(
                old(self).cursor_state(),
                old(self).content().len() as int,
                new_length,
                old(self).digits(),
            ),
        ensures
            final(self).wf(),
            final(self).cursor_view() == after_length(
                old(self).cursor_view(),
                old(self).content().len() as int,
                new_length,
                old(self).digits(),
            ),
            final(self).cursor_state() == (
                old(self).cursor_state().0,
                length_after(old(self).cursor_state(), old(self).content().len() as int, new_length),
            ),
            final(self).subcursor_state() == (0usize, (old(self).ratio() - 1) as isize),
            final(self).viewport_state() == (
                adjusted_viewport_offset(cursor_end(final(self).cursor_state()), old(self).viewport_state())
                    as usize,
                old(self).viewport_state().1,
                old(self).viewport_state().2,
            ),
            final(self).content() == old(self).content(),
            final(self).same_extras(&*old(self)),
            final(self).same_history(&*old(self)),
    {
        let len = self.active_content.len();
        let real_offset = self.cursor.get_real_offset();
        proof {
            let after = length_after(self.cursor@, len as int, new_length);
            lemma_span_bound(span_length(after as int), self.digits());
        }
        if real_offset == len && new_length > 0 {
            self.cursor.set_length(1);
        } else if new_length < 0 {
            let floor = 0 - real_offset as isize;
            let l = if new_length > floor { new_length } else { floor };
            self.cursor.set_length(l);
        } else if new_length == 0 {
        } else {
            let room = len - real_offset;
            let adj_length = (if (new_length as usize) < room { new_length as usize } else { room }) as isize;
            self.cursor.set_length(adj_length);
        }
        self.reset_subcursor();
        self.subcursor.set_offset(0);
        self.keep_cursor_on_screen();
    }

    /// Sets the subcursor to span one byte's digits and puts it on the
    /// first digit.
    pub fn set_subcursor_length(&mut self)
        requires
            old(self).wf(),
        ensures
            final(self).wf(),
            final(self).subcursor_state() == (0usize, (old(self).ratio() - 1) as isize),
            final(self).cursor_state() == old(self).cursor_state(),
            final(self).viewport_state() == old(self).viewport_state(),
            final(self).content() == old(self).content(),
            final(self).same_extras(&*old(self)),
            final(self).same_history(&*old(self)),
    {
        self.reset_subcursor();
    }

    fn reset_subcursor(&mut self)
        requires
            old(self).wf_core(),
        ensures
            final(self).wf(),
            final(self).subcursor_state() == (0usize, (old(self).ratio() - 1) as isize),
            final(self).cursor_state() == old(self).cursor_state(),
            final(self).viewport_state() == old(self).viewport_state(),
            final(self).content() == old(self).content(),
            final(self).same_extras(&*old(self)),
            final(self).same_history(&*old(self)),
    {
        self.subcursor.set_length((self._active_display_ratio - 1) as isize);
        self.wrap_subcursor_offset(0);
    }

    /// Moves the subcursor to digit `new_offset`, wrapping around the digits
    /// of the bytes under the cursor.
    pub fn set_subcursor_offset(&mut self, new_offset: usize)
        requires
            old(self).wf(),
            old(self).subcursor_state().1 == old(self).ratio() - 1,
        ensures
            final(self).wf(),
            final(self).subcursor_state() == (
                (new_offset as int % (old(self).digits() * span_length(old(self).cursor_state().1 as int)))
                    as usize,
                old(self).subcursor_state().1,
            ),
            final(self).cursor_state() == old(self).cursor_state(),
            final(self).viewport_state() == old(self).viewport_state(),
            final(self).content() == old(self).content(),
            final(self).same_extras(&*old(self)),
            final(self).same_history(&*old(self)),
    {
        self.wrap_subcursor_offset(new_offset);
    }

    fn wrap_subcursor_offset(&mut self, new_offset: usize)
        requires
            old(self).wf_core(),
            old(self).subcursor_state().1 == old(self).ratio() - 1,
        ensures
            final(self).wf(),
            final(self).subcursor_state() == (
                (new_offset as int % (old(self).digits() * span_length(old(self).cursor_state().1 as int)))
                    as usize,
                old(self).subcursor_state().1,
            ),
            final(self).cursor_state() == old(self).cursor_state(),
            final(self).viewport_state() == old(self).viewport_state(),
            final(self).content() == old(self).content(),
            final(self).same_extras(&*old(self)),
            final(self).same_history(&*old(self)),
    {
        proof {
            let d = self.digits();
            let sp = span_length(self.cursor@.1 as int);
            assert(d * sp == sp * d) by (nonlinear_arith);
            assert(d * sp >= 1) by (nonlinear_arith)
                requires
                    d >= 2,
                    sp >= 1,
            ;
        }
        let modlength = self.subcursor.get_length() * self.cursor.get_length();
        self.subcursor.set_offset(new_offset % modlength);
    }

    /// Moves the cursor's anchor to `new_offset` if that is within the
    /// content (the end included), resetting the subcursor and keeping the
    /// cursor on screen; refuses offsets past the end.
    pub fn set_cursor_offset(&mut self, new_offset: usize) -> (r: Result<(), SbyteError>)
        requires
            old(self).wf(),
            offset_settable(
                old(self).cursor_view(),
                old(self).content().len() as int,
                new_offset,
                old(self).digits(),
            ),
        ensures
            final(self).wf(),
            final(self).cursor_view() == after_offset(
                old(self).cursor_view(),
                old(self).content().len() as int,
                new_offset,
            ),
            new_offset <= old(self).content().len() ==> {
                &&& r == Ok::<(), SbyteError>(())
                &&& final(self).cursor_state() == (new_offset, old(self).cursor_state().1)
                &&& final(self).subcursor_state() == (0usize, old(self).subcursor_state().1)
                &&& final(self).viewport_state() == (
                    adjusted_viewport_offset(cursor_end(final(self).cursor_state()), old(self).viewport_state())
                        as usize,
                    old(self).viewport_state().1,
                    old(self).viewport_state().2,
                )
            },
            new_offset > old(self).content().len() ==> r == Err::<(), SbyteError>(
                SbyteError::OutOfBounds(new_offset, old(self).content().len() as usize),
            ) && final(self).same_settings(&*old(self)),
            final(self).content() == old(self).content(),
            final(self).same_extras(&*old(self)),
            final(self).same_history(&*old(self)),
    {
        if new_offset <= self.active_content.len() {
            self.cursor.set_offset(new_offset);
            self.subcursor.set_offset(0);
            self.adjust_viewport_offset();
            Ok(())
        } else {
            Err(SbyteError::OutOfBounds(new_offset, self.active_content.len()))
        }
    }
}


impl Editor {
    /// Records that the bytes at `offset` changed (`resized` when the
    /// change altered the content's length).
    fn mark_changed(&mut self, offset: usize, resized: bool)
        requires
            old(self).wf(),
        ensures
            final(self).wf(),
            final(self).changed() == old(self).changed().insert((offset, resized)),
            final(self).same_settings(&*old(self)),
            final(self).content() == old(self).content(),
            final(self).undo_tasks() == old(self).undo_tasks(),
            final(self).redo_tasks() == old(self).redo_tasks(),
    {
        let ghost before = self.changed_offsets@;
        let n = self.changed_offsets.len();
        let mut found = false;
        let mut i: usize = 0;
        while i < n
            invariant
                i <= n == self.changed_offsets@.len(),
                self.changed_offsets@ == before,
                found <==> exists|j: int| 0 <= j < i && self.changed_offsets@[j] == (offset, resized),
            decreases n - i,
        {
            let e = self.changed_offsets[i];
            if e.0 == offset && e.1 == resized {
                found = true;
            }
            i += 1;
        }
        if !found {
            self.changed_offsets.push((offset, resized));
            proof {
                assert(!before.contains((offset, resized)));
                assert(self.changed_offsets@ == before.push((offset, resized)));
                assert(self.changed_offsets@.no_duplicates()) by {
                    assert forall|a: int, b: int|
                        0 <= a < b < self.changed_offsets@.len() implies self.changed_offsets@[a]
                            != self.changed_offsets@[b] by {
                        if b == before.len() {
                            assert(before[a] == self.changed_offsets@[a]);
                        }
                    }
                }
                before.lemma_push_to_set_commute((offset, resized));
            }
        } else {
            proof {
                let j = choose|j: int| 0 <= j < i && before[j] == (offset, resized);
                assert(before.contains((offset, resized)));
                assert(before.to_set() =~= before.to_set().insert((offset, resized)));
            }
        }
    }

    /// Records on the undo history the edit that takes out `bytes_to_remove`
    /// bytes at `offset` and puts `bytes_to_insert` there (the edit that
    /// reverts a change just made), clearing the redo history. An insertion
    /// adjoining the insertion on top of the history, or a removal right
    /// after the removal on top, joins that entry.
    fn push_to_undo_stack(&mut self, offset: usize, bytes_to_remove: usize, bytes_to_insert: Vec<u8>)
        requires
            old(self).wf(),
            offset + bytes_to_remove <= usize::MAX,
        ensures
            final(self).wf(),
            old(self).records(&*final(self), offset, bytes_to_remove, bytes_to_insert@),
            final(self).same_settings(&*old(self)),
            final(self).content() == old(self).content(),
    {
        self.redo_stack = Vec::new();
        let now = clock_nanos(&self.clock_origin);
        let insert_len = bytes_to_insert.len();
        let resized = bytes_to_remove != insert_len;
        let is_insert = bytes_to_remove == 0 && insert_len > 0;
        let is_remove = bytes_to_remove > 0 && insert_len == 0;
        let ghost stack = self.undo_tasks();
        let ghost ins = bytes_to_insert@;
        match self.undo_stack.pop() {
            Some(top) => {
                let ghost rest = self.undo_stack@;
                proof {
                    assert(rest.map_values(|t: Task| task_view(t)) =~= stack.drop_last());
                    assert(stack.last() == task_view(top));
                }
                let (top_offset, top_remove, mut top_insert, top_time) = top;
                let will_insert = top_remove == 0 && top_insert.len() > 0;
                let will_remove = top_remove > 0 && top_insert.len() == 0;
                if is_insert && will_insert && top_offset >= insert_len && top_offset - insert_len
                    == offset {
                    let mut merged = bytes_to_insert;
                    merged.append(&mut top_insert);
                    self.undo_stack.push((offset, top_remove, merged, now));
                    proof {
                        assert(self.undo_stack@ == rest.push((offset, top_remove, merged, now)));
                        assert(self.undo_tasks() =~= stack.drop_last().push(
                            (offset, top_remove, ins + stack.last().2, now),
                        ));
                    }
                } else if is_insert && will_insert && top_offset == offset {
                    let mut tail = bytes_to_insert;
                    top_insert.append(&mut tail);
                    self.undo_stack.push((top_offset, top_remove, top_insert, now));
                    proof {
                        assert(self.undo_tasks() =~= stack.drop_last().push(
                            (top_offset, top_remove, stack.last().2 + ins, now),
                        ));
                    }
                } else if is_remove && will_remove && top_remove <= offset && offset - top_remove
                    == top_offset {
                    self.undo_stack.push((top_offset, top_remove + bytes_to_remove, top_insert, now));
                    proof {
                        assert(self.undo_tasks() =~= stack.drop_last().push(
                            (top_offset, (top_remove + bytes_to_remove) as usize, stack.last().2, now),
                        ));
                    }
                } else {
                    self.undo_stack.push((top_offset, top_remove, top_insert, top_time));
                    proof {
                        assert(self.undo_tasks() =~= stack);
                    }
                    self.undo_stack.push((offset, bytes_to_remove, bytes_to_insert, now));
                    proof {
                        assert(self.undo_tasks() =~= stack.push((offset, bytes_to_remove, ins, now)));
                    }
                }
            },
            None => {
                self.undo_stack.push((offset, bytes_to_remove, bytes_to_insert, now));
                proof {
                    assert(stack.len() == 0);
                    assert(self.undo_tasks() =~= stack.push((offset, bytes_to_remove, ins, now)));
                }
            },
        }
        proof {
            assert(self.undo_tasks() =~= pushed(stack, offset, bytes_to_remove, ins, now));
            assert(self.redo_tasks() =~= Seq::<TaskView>::empty());
        }
        self.mark_changed(offset, resized);
    }
}


impl Editor {
    /// Puts `new_bytes` in at `offset` and records the removal that undoes
    /// it; an offset past the end is refused and changes nothing.
    pub fn insert_bytes(&mut self, offset: usize, new_bytes: &[u8]) -> (r: Result<(), SbyteError>)
        requires
            old(self).wf(),
        ensures
            final(self).wf(),
            final(self).same_settings(&*old(self)),
            offset <= old(self).content().len() ==> {
                &&& r == Ok::<(), SbyteError>(())
                &&& final(self).content() == with_inserted(old(self).content(), offset as int, new_bytes@)
                &&& old(self).records(&*final(self), offset, new_bytes@.len() as usize, Seq::empty())
            },
            offset > old(self).content().len() ==> {
                &&& r == Err::<(), SbyteError>(
                    SbyteError::OutOfBounds(offset, old(self).content().len() as usize),
                )
                &&& final(self).content() == old(self).content()
                &&& final(self).same_history(&*old(self))
            },
    {
        let _len = self.active_content.len();
        let adj_byte_width = byte_slice_len(new_bytes);
        match self.active_content.insert_bytes(offset, new_bytes) {
            Ok(()) => {
                self.push_to_undo_stack(offset, adj_byte_width, Vec::new());
                Ok(())
            },
            Err(e) => Err(content_error(e)),
        }
    }

    /// Takes up to `length` bytes out at `offset`, records the insertion
    /// that undoes it, and returns them.
    pub fn remove_bytes(&mut self, offset: usize, length: usize) -> (r: Vec<u8>)
        requires
            old(self).wf(),
        ensures
            final(self).wf(),
            final(self).same_settings(&*old(self)),
            r@ == taken(old(self).content(), offset as int, length as int),
            final(self).content() == after_removal(old(self).content(), offset as int, length as int),
            old(self).records(&*final(self), offset, 0, r@),
    {
        let removed_bytes = self.active_content.remove_bytes(offset, length);
        let undo_bytes = removed_bytes.clone();
        proof {
            assert(undo_bytes@ =~= removed_bytes@);
        }
        self.push_to_undo_stack(offset, 0, undo_bytes);
        removed_bytes
    }

    /// Removes the bytes under the cursor.
    pub fn remove_bytes_at_cursor(&mut self) -> (r: Vec<u8>)
        requires
            old(self).wf(),
        ensures
            final(self).wf(),
            final(self).same_settings(&*old(self)),
            r@ == taken(old(self).content(), old(self).cursor_start(), old(self).cursor_span()),
            final(self).content() == after_removal(
                old(self).content(),
                old(self).cursor_start(),
                old(self).cursor_span(),
            ),
            old(self).records(&*final(self), old(self).cursor_start() as usize, 0, r@),
    {
        let offset = self.cursor.get_offset();
        let length = self.cursor.get_length();
        self.remove_bytes(offset, length)
    }

    /// Puts `new_bytes` in at the first byte under the cursor.
    pub fn insert_bytes_at_cursor(&mut self, new_bytes: &[u8]) -> (r: Result<(), SbyteError>)
        requires
            old(self).wf(),
        ensures
            final(self).wf(),
            final(self).same_settings(&*old(self)),
            old(self).cursor_start() <= old(self).content().len() ==> {
                &&& r == Ok::<(), SbyteError>(())
                &&& final(self).content() == with_inserted(
                    old(self).content(),
                    old(self).cursor_start(),
                    new_bytes@,
                )
                &&& old(self).records(
                    &*final(self),
                    old(self).cursor_start() as usize,
                    new_bytes@.len() as usize,
                    Seq::empty(),
                )
            },
            old(self).cursor_start() > old(self).content().len() ==> {
                &&& r == Err::<(), SbyteError>(
                    SbyteError::OutOfBounds(
                        old(self).cursor_start() as usize,
                        old(self).content().len() as usize,
                    ),
                )
                &&& final(self).content() == old(self).content()
                &&& final(self).same_history(&*old(self))
            },
    {
        let position = self.cursor.get_offset();
        self.insert_bytes(position, new_bytes)
    }

    /// Replaces the bytes from `position` on with `new_bytes` (the content
    /// grows where they reach past its end) and records the edit that
    /// undoes it; returns the bytes replaced. A position past the end is
    /// refused and changes nothing.
    pub fn overwrite_bytes(&mut self, position: usize, new_bytes: &[u8]) -> (r: Result<Vec<u8>, SbyteError>)
        requires
            old(self).wf(),
        ensures
            final(self).wf(),
            final(self).same_settings(&*old(self)),
            position <= old(self).content().len() ==> {
                let k = removed_count(old(self).content().len() as int, position as int, new_bytes@.len() as int);
                &&& r matches Ok(v) && v@ == old(self).content().subrange(position as int, position + k)
                &&& final(self).content() == with_inserted(
                    without_range(old(self).content(), position as int, k),
                    position as int,
                    new_bytes@,
                )
                &&& old(self).records(
                    &*final(self),
                    position,
                    new_bytes@.len() as usize,
                    old(self).content().subrange(position as int, position + k),
                )
            },
            position > old(self).content().len() ==> {
                &&& r == Err::<Vec<u8>, SbyteError>(
                    SbyteError::OutOfBounds(position, old(self).content().len() as usize),
                )
                &&& final(self).content() == old(self).content()
                &&& final(self).same_history(&*old(self))
            },
    {
        let ghost s = self.content();
        let _len = self.active_content.len();
        let length = byte_slice_len(new_bytes);
        let removed_bytes = self.active_content.remove_bytes(position, length);
        proof {
            if position as int == s.len() {
                assert(without_range(s, position as int, 0) =~= s);
                assert(s.subrange(position as int, position as int) =~= Seq::<u8>::empty());
            }
        }
        match self.active_content.insert_bytes(position, new_bytes) {
            Ok(()) => {
                let undo_bytes = removed_bytes.clone();
                proof {
                    assert(undo_bytes@ =~= removed_bytes@);
                }
                self.push_to_undo_stack(position, length, undo_bytes);
                Ok(removed_bytes)
            },
            Err(e) => Err(content_error(e)),
        }
    }

    /// Overwrites from the first byte under the cursor.
    pub fn overwrite_bytes_at_cursor(&mut self, new_bytes: &[u8]) -> (r: Result<Vec<u8>, SbyteError>)
        requires
            old(self).wf(),
        ensures
            final(self).wf(),
            final(self).same_settings(&*old(self)),
            old(self).cursor_start() <= old(self).content().len() ==> {
                let p = old(self).cursor_start();
                let k = removed_count(old(self).content().len() as int, p, new_bytes@.len() as int);
                &&& r matches Ok(v) && v@ == old(self).content().subrange(p, p + k)
                &&& final(self).content() == with_inserted(
                    without_range(old(self).content(), p, k),
                    p,
                    new_bytes@,
                )
                &&& old(self).records(
                    &*final(self),
                    p as usize,
                    new_bytes@.len() as usize,
                    old(self).content().subrange(p, p + k),
                )
            },
            old(self).cursor_start() > old(self).content().len() ==> {
                &&& r == Err::<Vec<u8>, SbyteError>(
                    SbyteError::OutOfBounds(
                        old(self).cursor_start() as usize,
                        old(self).content().len() as usize,
                    ),
                )
                &&& final(self).content() == old(self).content()
                &&& final(self).same_history(&*old(self))
            },
    {
        let position = self.cursor.get_offset();
        self.overwrite_bytes(position, new_bytes)
    }

    /// Adds one to the big-endian word of `word_size` bytes ending at
    /// `offset` and records the edit that undoes it.
    pub fn increment_byte(&mut self, offset: usize, word_size: usize) -> (r: Result<(), SbyteError>)
        requires
            old(self).wf(),
            word_fits(old(self).content(), offset, word_size, 255),
        ensures
            final(self).wf(),
            final(self).same_settings(&*old(self)),
            offset >= old(self).content().len() ==> {
                &&& r == Err::<(), SbyteError>(
                    SbyteError::OutOfBounds(offset, old(self).content().len() as usize),
                )
                &&& final(self).content() == old(self).content()
                &&& final(self).same_history(&*old(self))
            },
            offset < old(self).content().len() ==> {
                let stop = carry_stop(old(self).content(), offset as int, word_low(offset, word_size), 255);
                &&& r == Ok::<(), SbyteError>(())
                &&& final(self).content() == stepped(old(self).content(), offset as int, stop, true)
                &&& old(self).records(
                    &*final(self),
                    stop as usize,
                    (offset + 1 - stop) as usize,
                    old(self).content().subrange(stop, offset + 1),
                )
            },
    {
        let ghost s = self.content();
        let _len = self.active_content.len();
        proof {
            lemma_carry_stop_bounds(s, offset as int, word_low(offset, word_size), 255);
        }
        match self.active_content.increment_byte(offset, word_size) {
            Ok(undo_bytes) => {
                let undo_len = undo_bytes.len();
                let undo_offset = offset + 1 - undo_len;
                self.push_to_undo_stack(undo_offset, undo_len, undo_bytes);
                Ok(())
            },
            Err(_) => Err(SbyteError::OutOfBounds(offset, self.active_content.len())),
        }
    }

    /// Subtracts one from the big-endian word of `word_size` bytes ending at
    /// `offset` and records the edit that undoes it.
    pub fn decrement_byte(&mut self, offset: usize, word_size: usize) -> (r: Result<(), SbyteError>)
        requires
            old(self).wf(),
            word_fits(old(self).content(), offset, word_size, 0),
        ensures
            final(self).wf(),
            final(self).same_settings(&*old(self)),
            offset >= old(self).content().len() ==> {
                &&& r == Err::<(), SbyteError>(
                    SbyteError::OutOfBounds(offset, old(self).content().len() as usize),
                )
                &&& final(self).content() == old(self).content()
                &&& final(self).same_history(&*old(self))
            },
            offset < old(self).content().len() ==> {
                let stop = carry_stop(old(self).content(), offset as int, word_low(offset, word_size), 0);
                &&& r == Ok::<(), SbyteError>(())
                &&& final(self).content() == stepped(old(self).content(), offset as int, stop, false)
                &&& old(self).records(
                    &*final(self),
                    stop as usize,
                    (offset + 1 - stop) as usize,
                    old(self).content().subrange(stop, offset + 1),
                )
            },
    {
        let ghost s = self.content();
        let _len = self.active_content.len();
        proof {
            lemma_carry_stop_bounds(s, offset as int, word_low(offset, word_size), 0);
        }
        match self.active_content.decrement_byte(offset, word_size) {
            Ok(undo_bytes) => {
                let undo_len = undo_bytes.len();
                let undo_offset = offset + 1 - undo_len;
                self.push_to_undo_stack(undo_offset, undo_len, undo_bytes);
                Ok(())
            },
            Err(_) => Err(SbyteError::OutOfBounds(offset, self.active_content.len())),
        }
    }

    /// The bytes in `[offset, offset + length)`, clipped to the content.
    pub fn get_chunk(&self, offset: usize, length: usize) -> (r: Vec<u8>)
        requires
            offset + length <= usize::MAX,
        ensures
            r@ == self.content().subrange(
                chunk_start(self.content().len() as int, offset as int),
                chunk_end(self.content().len() as int, offset as int, length as int),
            ),
    {
        self.active_content.get_chunk(offset, length)
    }

    /// The bytes under the cursor.
    pub fn get_selected(&mut self) -> (r: Vec<u8>)
        requires
            old(self).wf(),
        ensures
            *final(self) == *old(self),
            r@ == old(self).selection(),
    {
        let offset = self.cursor.get_offset();
        let length = self.cursor.get_length();
        self.get_chunk(offset, length)
    }

    /// The bytes under the cursor read as a big-endian number.
    pub fn get_selected_as_big_endian(&mut self) -> (r: usize)
        requires
            old(self).wf(),
            big_endian_value(old(self).selection()) <= usize::MAX,
        ensures
            *final(self) == *old(self),
            r == big_endian_value(old(self).selection()),
    {
        let selected = self.get_selected();
        let ghost sel = selected@;
        let mut value: usize = 0;
        let mut i: usize = 0;
        while i < selected.len()
            invariant
                i <= sel.len() == selected@.len(),
                selected@ == sel,
                big_endian_value(sel) <= usize::MAX,
                value == big_endian_value(sel.subrange(0, i as int)),
            decreases sel.len() - i,
        {
            proof {
                lemma_big_endian_prefix(sel, i + 1);
                lemma_big_endian_monotone(sel, i + 1);
            }
            value = value * 256 + selected[i] as usize;
            i += 1;
        }
        proof {
            assert(sel.subrange(0, sel.len() as int) =~= sel);
        }
        value
    }

    /// The bytes under the cursor read as a little-endian number.
    pub fn get_selected_as_little_endian(&mut self) -> (r: usize)
        requires
            old(self).wf(),
            little_endian_value(old(self).selection()) <= usize::MAX,
        ensures
            *final(self) == *old(self),
            r == little_endian_value(old(self).selection()),
    {
        let selected = self.get_selected();
        let ghost sel = selected@;
        let mut value: usize = 0;
        let mut i: usize = selected.len();
        while i > 0
            invariant
                i <= sel.len() == selected@.len(),
                selected@ == sel,
                little_endian_value(sel) <= usize::MAX,
                value == little_endian_value(sel.subrange(i as int, sel.len() as int)),
            decreases i,
        {
            proof {
                assert(sel.subrange(i - 1, sel.len() as int).drop_first() =~= sel.subrange(
                    i as int,
                    sel.len() as int,
                ));
                lemma_little_endian_suffix(sel, i - 1);
                lemma_little_endian_monotone(sel, i - 1);
            }
            value = value * 256 + selected[i - 1] as usize;
            i -= 1;
        }
        proof {
            assert(sel.subrange(0, sel.len() as int) =~= sel);
        }
        value
    }

    /// Replaces the clipboard with `bytes_to_copy`.
    pub fn copy_to_clipboard(&mut self, bytes_to_copy: Vec<u8>)
        ensures
            final(self).clipboard_bytes() == bytes_to_copy@,
            final(self).same_state_but_clipboard(&*old(self)),
            old(self).wf() ==> final(self).wf(),
    {
        self.clipboard = bytes_to_copy;
    }

    pub fn get_clipboard(&self) -> (r: Vec<u8>)
        ensures
            r@ == self.clipboard_bytes(),
    {
        let r = self.clipboard.clone();
        proof {
            assert(r@ =~= self.clipboard@);
        }
        r
    }

    /// Copies the bytes under the cursor to the clipboard.
    pub fn copy_selection(&mut self)
        requires
            old(self).wf(),
        ensures
            final(self).wf(),
            final(self).clipboard_bytes() == old(self).selection(),
            final(self).same_state_but_clipboard(&*old(self)),
    {
        let selected_bytes = self.get_selected();
        self.copy_to_clipboard(selected_bytes);
    }
}

/// Reading one more byte multiplies the big-endian value by 256 and adds it.
proof fn lemma_big_endian_prefix(s: Seq<u8>, n: int)
    requires
        1 <= n <= s.len(),
    ensures
        big_endian_value(s.subrange(0, n)) == big_endian_value(s.subrange(0, n - 1)) * 256 + s[n - 1],
        big_endian_value(s.subrange(0, n - 1)) <= big_endian_value(s.subrange(0, n)),
{
    assert(s.subrange(0, n).drop_last() =~= s.subrange(0, n - 1));
}

/// A prefix reads as no larger a big-endian number than the whole.
proof fn lemma_big_endian_monotone(s: Seq<u8>, n: int)
    requires
        0 <= n <= s.len(),
    ensures
        big_endian_value(s.subrange(0, n)) <= big_endian_value(s),
    decreases s.len() - n,
{
    if n < s.len() {
        lemma_big_endian_prefix(s, n + 1);
        lemma_big_endian_monotone(s, n + 1);
    } else {
        assert(s.subrange(0, n) =~= s);
    }
}

/// A suffix reads as no larger a little-endian number than the whole.
proof fn lemma_little_endian_monotone(s: Seq<u8>, i: int)
    requires
        0 <= i <= s.len(),
    ensures
        little_endian_value(s.subrange(i, s.len() as int)) <= little_endian_value(s),
    decreases i,
{
    if i > 0 {
        lemma_little_endian_suffix(s, i - 1);
        lemma_little_endian_monotone(s, i - 1);
    } else {
        assert(s.subrange(0, s.len() as int) =~= s);
    }
}

/// Reading one more byte in front multiplies the little-endian value of the
/// rest by 256 and adds it.
proof fn lemma_little_endian_suffix(s: Seq<u8>, i: int)
    requires
        0 <= i < s.len(),
    ensures
        little_endian_value(s.subrange(i, s.len() as int)) == little_endian_value(
            s.subrange(i + 1, s.len() as int),
        ) * 256 + s[i],
{
    assert(s.subrange(i, s.len() as int).drop_first() =~= s.subrange(i + 1, s.len() as int));
}


/// `char::to_digit`: the value of a digit character in base `radix`.
pub fn to_digit(c: char, radix: u32) -> (r: Option<u32>)
    ensures
        r == char_digit(c, radix),
{
    let n = c as u32;
    let v: u32 = if 48 <= n && n <= 57 {
        n - 48
    } else if 97 <= n && n <= 122 {
        n - 87
    } else if 65 <= n && n <= 90 {
        n - 55
    } else {
        radix
    };
    if v < radix {
        Some(v)
    } else {
        None
    }
}

impl Editor {
    /// Combines the bytes under the cursor with `mask` (repeated or cut to
    /// the cursor's length, unless the cursor covers one byte) and records
    /// the edit that undoes it.
    fn apply_mask(&mut self, operation: BitMask, mask: &[u8]) -> (r: Result<(), SbyteError>)
        requires
            old(self).wf(),
            old(self).cursor_span() != 1 ==> mask@.len() > 0,
        ensures
            final(self).wf(),
            old(self).masked_as(&*final(self), operation, mask@, r),
    {
        let ghost op = operation;
        let _len = self.active_content.len();
        let mask_len = byte_slice_len(mask);
        let cursor_len = self.cursor.get_length();
        let offset = self.cursor.get_offset();
        let (result, used) = if cursor_len != 1 {
            let mut new_mask: Vec<u8> = Vec::new();
            let mut i: usize = 0;
            while i < cursor_len
                invariant
                    i <= cursor_len,
                    mask_len == mask@.len() > 0,
                    new_mask@ =~= Seq::new(i as nat, |j: int| mask@[j % (mask@.len() as int)]),
                decreases cursor_len - i,
            {
                new_mask.push(mask[i % mask_len]);
                i += 1;
            }
            (self.active_content.apply_mask(offset, new_mask.as_slice(), operation), cursor_len)
        } else {
            (self.active_content.apply_mask(offset, mask, operation), mask_len)
        };
        match result {
            Ok(old_bytes) => {
                self.push_to_undo_stack(offset, used, old_bytes);
                Ok(())
            },
            Err(e) => Err(content_error(e)),
        }
    }

    pub fn apply_or_mask(&mut self, mask: &[u8]) -> (r: Result<(), SbyteError>)
        requires
            old(self).wf(),
            old(self).cursor_span() != 1 ==> mask@.len() > 0,
        ensures
            final(self).wf(),
            old(self).masked_as(&*final(self), BitMask::Or, mask@, r),
    {
        self.apply_mask(BitMask::Or, mask)
    }

    pub fn apply_xor_mask(&mut self, mask: &[u8]) -> (r: Result<(), SbyteError>)
        requires
            old(self).wf(),
            old(self).cursor_span() != 1 ==> mask@.len() > 0,
        ensures
            final(self).wf(),
            old(self).masked_as(&*final(self), BitMask::Xor, mask@, r),
    {
        self.apply_mask(BitMask::Xor, mask)
    }

    pub fn apply_nor_mask(&mut self, mask: &[u8]) -> (r: Result<(), SbyteError>)
        requires
            old(self).wf(),
            old(self).cursor_span() != 1 ==> mask@.len() > 0,
        ensures
            final(self).wf(),
            old(self).masked_as(&*final(self), BitMask::Nor, mask@, r),
    {
        self.apply_mask(BitMask::Nor, mask)
    }

    pub fn apply_and_mask(&mut self, mask: &[u8]) -> (r: Result<(), SbyteError>)
        requires
            old(self).wf(),
            old(self).cursor_span() != 1 ==> mask@.len() > 0,
        ensures
            final(self).wf(),
            old(self).masked_as(&*final(self), BitMask::And, mask@, r),
    {
        self.apply_mask(BitMask::And, mask)
    }

    pub fn apply_nand_mask(&mut self, mask: &[u8]) -> (r: Result<(), SbyteError>)
        requires
            old(self).wf(),
            old(self).cursor_span() != 1 ==> mask@.len() > 0,
        ensures
            final(self).wf(),
            old(self).masked_as(&*final(self), BitMask::Nand, mask@, r),
    {
        self.apply_mask(BitMask::Nand, mask)
    }

    /// Flips every bit under the cursor.
    pub fn bitwise_not(&mut self) -> (r: Result<(), SbyteError>)
        requires
            old(self).wf(),
        ensures
            final(self).wf(),
            old(self).masked_as(
                &*final(self),
                BitMask::Xor,
                Seq::new(old(self).cursor_span() as nat, |i: int| 0xFFu8),
                r,
            ),
    {
        let mut mask: Vec<u8> = Vec::new();
        let n = self.cursor.get_length();
        let mut i: usize = 0;
        while i < n
            invariant
                i <= n,
                mask@ =~= Seq::new(i as nat, |j: int| 0xFFu8),
            decreases n - i,
        {
            mask.push(0xFF);
            i += 1;
        }
        self.apply_mask(BitMask::Xor, mask.as_slice())
    }

    /// Writes `digit` (a digit of the active formatter's base) as the digit
    /// under the subcursor and records the edit that undoes it.
    pub fn replace_digit(&mut self, digit: char) -> (r: Result<(), SbyteError>)
        requires
            old(self).wf(),
        ensures
            final(self).wf(),
            final(self).same_settings(&*old(self)),
            ({
                let radix = radix_of(old(self).formatter_ref());
                let off = old(self).digit_offset();
                let s = old(self).content();
                match char_digit(digit, radix as u32) {
                    None => {
                        &&& r == Err::<(), SbyteError>(SbyteError::InvalidDigit(old(self).formatter_ref()))
                        &&& final(self).content() == s
                        &&& final(self).same_history(&*old(self))
                    },
                    Some(value) => {
                        let v = replaced_value(s[off], old(self).digit_position() as u8, value as u8, radix);
                        &&& off >= s.len() ==> {
                            &&& r == Err::<(), SbyteError>(SbyteError::OutOfBounds(off as usize, s.len() as usize))
                            &&& final(self).content() == s
                            &&& final(self).same_history(&*old(self))
                        }
                        &&& off < s.len() && v > 255 ==> {
                            &&& r == Err::<(), SbyteError>(SbyteError::InvalidDigit(old(self).formatter_ref()))
                            &&& final(self).content() == s
                            &&& final(self).same_history(&*old(self))
                        }
                        &&& off < s.len() && v <= 255 ==> {
                            &&& r == Ok::<(), SbyteError>(())
                            &&& final(self).content() == s.update(off, v as u8)
                            &&& old(self).records(&*final(self), off as usize, 1, seq![s[off]])
                        }
                    },
                }
            }),
    {
        let _len = self.active_content.len();
        let radix = self.active_formatter.radix();
        let sub_len = self.subcursor.get_length();
        let sub_off = self.subcursor.get_offset();
        proof {
            let d = sub_len as int;
            let sp = span_length(self.cursor@.1 as int);
            assert(sub_off as int / d < sp) by (nonlinear_arith)
                requires
                    sub_off < d * sp,
                    d >= 1,
            ;
        }
        let offset = self.cursor.get_offset() + sub_off / sub_len;
        let position = sub_len - 1 - (sub_off % sub_len);
        match to_digit(digit, radix as u32) {
            Some(value) => {
                match self.active_content.replace_digit(offset, position as u8, value as u8, radix) {
                    Ok(old_byte) => {
                        let mut undo_bytes: Vec<u8> = Vec::new();
                        undo_bytes.push(old_byte);
                        proof {
                            assert(undo_bytes@ =~= seq![old_byte]);
                        }
                        self.push_to_undo_stack(offset, 1, undo_bytes);
                        Ok(())
                    },
                    Err(e) => Err(content_error(e)),
                }
            },
            None => Err(SbyteError::InvalidDigit(self.active_formatter)),
        }
    }

    /// Switches the numeric view to `formatter`: the display ratio becomes
    /// its digits per byte plus one and the subcursor is reset.
    pub fn set_active_formatter(&mut self, formatter: FormatterRef)
        requires
            old(self).wf(),
            old(self).cursor_span() * (display_ratio_of(formatter) - 1) <= usize::MAX,
        ensures
            final(self).wf(),
            final(self).formatter_ref() == formatter,
            final(self).ratio() == display_ratio_of(formatter),
            final(self).subcursor_state() == (0usize, (display_ratio_of(formatter) - 1) as isize),
            final(self).cursor_state() == old(self).cursor_state(),
            final(self).viewport_state() == old(self).viewport_state(),
            final(self).content() == old(self).content(),
            final(self).same_history(&*old(self)),
            final(self).clipboard_bytes() == old(self).clipboard_bytes(),
            final(self).user_message() == old(self).user_message(),
            final(self).user_error_message() == old(self).user_error_message(),
            final(self).file_path() == old(self).file_path(),
            final(self).loading() == old(self).loading(),
            final(self).searches() == old(self).searches(),
    {
        self.active_formatter = formatter;
        let radix = formatter.radix();
        let digits = digit_count(radix);
        proof {
            lemma_display_ratios();
        }
        self._active_display_ratio = (digits as u8) + 1;
        self.reset_subcursor();
    }

    pub fn get_active_formatter_ref(&self) -> (r: FormatterRef)
        ensures
            r == self.formatter_ref(),
    {
        self.active_formatter
    }

    /// The active formatter, as the reference that dispatches to it.
    pub fn get_active_formatter(&self) -> (r: FormatterRef)
        ensures
            r == self.formatter_ref(),
    {
        self.active_formatter
    }

    /// Cycles the numeric view: binary, hexadecimal, decimal, binary...
    pub fn toggle_formatter(&mut self)
        requires
            old(self).wf(),
            old(self).cursor_span() * (display_ratio_of(next_formatter(old(self).formatter_ref())) - 1)
                <= usize::MAX,
        ensures
            final(self).wf(),
            final(self).formatter_ref() == next_formatter(old(self).formatter_ref()),
            final(self).ratio() == display_ratio_of(final(self).formatter_ref()),
            final(self).subcursor_state() == (0usize, (final(self).ratio() - 1) as isize),
            final(self).cursor_state() == old(self).cursor_state(),
            final(self).viewport_state() == old(self).viewport_state(),
            final(self).content() == old(self).content(),
            final(self).same_history(&*old(self)),
            final(self).clipboard_bytes() == old(self).clipboard_bytes(),
    {
        let new_formatter = match self.get_active_formatter_ref() {
            FormatterRef::BIN => FormatterRef::HEX,
            FormatterRef::HEX => FormatterRef::DEC,
            FormatterRef::DEC => FormatterRef::BIN,
        };
        self.set_active_formatter(new_formatter);
    }
}


impl Editor {
    pub fn set_user_error_msg(&mut self, msg: &str)
        ensures
            final(self).user_error_message() == Some(msg@),
            final(self).same_state_but_messages(&*old(self)),
            final(self).user_message() == old(self).user_message(),
            old(self).wf() ==> final(self).wf(),
    {
        self.user_error_msg = Some(msg.to_owned());
    }

    pub fn set_user_msg(&mut self, msg: &str)
        ensures
            final(self).user_message() == Some(msg@),
            final(self).same_state_but_messages(&*old(self)),
            final(self).user_error_message() == old(self).user_error_message(),
            old(self).wf() ==> final(self).wf(),
    {
        self.user_msg = Some(msg.to_owned());
    }

    pub fn unset_user_msg(&mut self)
        ensures
            final(self).user_message() is None,
            final(self).same_state_but_messages(&*old(self)),
            final(self).user_error_message() == old(self).user_error_message(),
            old(self).wf() ==> final(self).wf(),
    {
        self.user_msg = None;
    }

    pub fn unset_user_error_msg(&mut self)
        ensures
            final(self).user_error_message() is None,
            final(self).same_state_but_messages(&*old(self)),
            final(self).user_message() == old(self).user_message(),
            old(self).wf() ==> final(self).wf(),
    {
        self.user_error_msg = None;
    }

    pub fn get_user_msg(&self) -> (r: Option<&String>)
        ensures
            r matches Some(m) ==> self.user_message() == Some(m@),
            r is None <==> self.user_message() is None,
    {
        self.user_msg.as_ref()
    }

    pub fn get_user_error_msg(&self) -> (r: Option<&String>)
        ensures
            r matches Some(m) ==> self.user_error_message() == Some(m@),
            r is None <==> self.user_error_message() is None,
    {
        self.user_error_msg.as_ref()
    }

    pub fn is_loading(&self) -> (r: bool)
        ensures
            r == self.loading(),
    {
        self.flag_loading
    }

    /// Marks the content as being loaded (`true`) or loaded (`false`).
    pub fn set_loading(&mut self, loading: bool)
        ensures
            final(self).loading() == loading,
            final(self).same_settings_but_loading(&*old(self)),
            old(self).wf() ==> final(self).wf(),
    {
        self.flag_loading = loading;
    }

    pub fn add_search_history(&mut self, search_string: String)
        ensures
            final(self).searches() == old(self).searches().push(search_string@),
            final(self).same_state_but_searches(&*old(self)),
            old(self).wf() ==> final(self).wf(),
    {
        let ghost before = self.search_history@;
        self.search_history.push(search_string);
        proof {
            assert(self.search_history@.map_values(|s: String| s@) =~= before.map_values(
                |s: String| s@,
            ).push(search_string@));
        }
    }

    pub fn get_search_history(&self) -> (r: Vec<String>)
        ensures
            r@.map_values(|s: String| s@) == self.searches(),
    {
        let mut out: Vec<String> = Vec::new();
        let mut i: usize = 0;
        while i < self.search_history.len()
            invariant
                i <= self.search_history@.len(),
                out@.map_values(|s: String| s@) =~= self.search_history@.subrange(0, i as int).map_values(
                    |s: String| s@,
                ),
            decreases self.search_history@.len() - i,
        {
            let ghost before = out@;
            out.push(self.search_history[i].clone());
            proof {
                assert(out@ == before.push(self.search_history@[i as int]));
                assert(self.search_history@.subrange(0, i + 1) =~= self.search_history@.subrange(
                    0,
                    i as int,
                ).push(self.search_history@[i as int]));
                assert(out@.map_values(|s: String| s@) =~= before.map_values(|s: String| s@).push(
                    self.search_history@[i as int]@,
                ));
            }
            i += 1;
        }
        proof {
            assert(self.search_history@.subrange(0, self.search_history@.len() as int)
                =~= self.search_history@);
        }
        out
    }

    /// Names the file the content belongs to.
    pub fn set_file_path(&mut self, new_file_path: &str)
        ensures
            final(self).file_path() == Some(new_file_path@),
            final(self).same_settings_but_path(&*old(self)),
            old(self).wf() ==> final(self).wf(),
    {
        self.active_file_path = Some(new_file_path.to_owned());
    }

    pub fn get_active_file_path(&self) -> (r: Option<&String>)
        ensures
            r matches Some(m) ==> self.file_path() == Some(m@),
            r is None <==> self.file_path() is None,
    {
        self.active_file_path.as_ref()
    }

    pub fn get_active_content(&self) -> (r: &[u8])
        ensures
            r@ == self.content(),
    {
        self.active_content.as_slice()
    }

    /// The undo history, oldest entry first: each entry is the edit that
    /// reverts a change, as (offset, bytes to remove, bytes to insert, when).
    pub fn get_undo_history(&self) -> (r: &Vec<Task>)
        ensures
            r@.map_values(|t: Task| task_view(t)) == self.undo_tasks(),
    {
        &self.undo_stack
    }

    /// The redo history, oldest entry first.
    pub fn get_redo_history(&self) -> (r: &Vec<Task>)
        ensures
            r@.map_values(|t: Task| task_view(t)) == self.redo_tasks(),
    {
        &self.redo_stack
    }

    /// Hands out the offsets changed since the last call (each once, with
    /// whether the change resized the content) and forgets them.
    pub fn fetch_changed_offsets(&mut self) -> (r: Vec<(usize, bool)>)
        requires
            old(self).wf(),
        ensures
            final(self).wf(),
            r@.to_set() == old(self).changed(),
            r@.no_duplicates(),
            final(self).changed() == Set::<(usize, bool)>::empty(),
            final(self).same_settings(&*old(self)),
            final(self).content() == old(self).content(),
            final(self).undo_tasks() == old(self).undo_tasks(),
            final(self).redo_tasks() == old(self).redo_tasks(),
    {
        let mut out: Vec<(usize, bool)> = Vec::new();
        std::mem::swap(&mut out, &mut self.changed_offsets);
        proof {
            assert(self.changed_offsets@.to_set() =~= Set::<(usize, bool)>::empty());
        }
        out
    }

    /// Moves the cursor's anchor one past its first byte.
    pub fn cursor_next_byte(&mut self)
        requires
            old(self).wf(),
            offset_settable(
                old(self).cursor_view(),
                old(self).content().len() as int,
                (old(self).cursor_start() + 1) as usize,
                old(self).digits(),
            ),
        ensures
            final(self).wf(),
            final(self).cursor_view() == after_offset(
                old(self).cursor_view(),
                old(self).content().len() as int,
                (old(self).cursor_start() + 1) as usize,
            ),
            final(self).content() == old(self).content(),
            final(self).same_extras(&*old(self)),
            final(self).same_history(&*old(self)),
    {
        let new_position = self.cursor.get_offset() + 1;
        let _ = self.set_cursor_offset(new_position);
    }

    /// Moves the cursor's anchor to one before its first byte, unless that
    /// is the start of the content.
    pub fn cursor_prev_byte(&mut self)
        requires
            old(self).wf(),
            old(self).cursor_start() != 0 ==> offset_settable(
                old(self).cursor_view(),
                old(self).content().len() as int,
                (old(self).cursor_start() - 1) as usize,
                old(self).digits(),
            ),
        ensures
            final(self).wf(),
            final(self).cursor_view() == if old(self).cursor_start() != 0 {
                after_offset(
                    old(self).cursor_view(),
                    old(self).content().len() as int,
                    (old(self).cursor_start() - 1) as usize,
                )
            } else {
                old(self).cursor_view()
            },
            final(self).content() == old(self).content(),
            final(self).same_extras(&*old(self)),
            final(self).same_history(&*old(self)),
    {
        if self.cursor.get_offset() != 0 {
            let new_position = self.cursor.get_offset() - 1;
            let _ = self.set_cursor_offset(new_position);
        }
    }

    /// Moves the subcursor to the next digit, wrapping around.
    pub fn subcursor_next_digit(&mut self)
        requires
            old(self).wf(),
        ensures
            final(self).wf(),
            final(self).subcursor_state() == (
                ((old(self).subcursor_state().0 + 1) % (old(self).digits() * old(self).cursor_span())) as usize,
                old(self).subcursor_state().1,
            ),
            final(self).cursor_state() == old(self).cursor_state(),
            final(self).viewport_state() == old(self).viewport_state(),
            final(self).content() == old(self).content(),
            final(self).same_extras(&*old(self)),
            final(self).same_history(&*old(self)),
    {
        proof {
            let d = self.digits();
            let sp = span_length(self.cursor@.1 as int);
            assert(d * sp == sp * d) by (nonlinear_arith);
        }
        let new_position = self.subcursor.get_offset() + 1;
        self.set_subcursor_offset(new_position);
    }

    /// Moves the subcursor to the previous digit, unless it is on the first.
    pub fn subcursor_prev_digit(&mut self)
        requires
            old(self).wf(),
        ensures
            final(self).wf(),
            old(self).subcursor_state().0 == 0 ==> final(self).subcursor_state() == old(self).subcursor_state(),
            old(self).subcursor_state().0 != 0 ==> final(self).subcursor_state() == (
                (old(self).subcursor_state().0 - 1) as usize,
                old(self).subcursor_state().1,
            ),
            final(self).cursor_state() == old(self).cursor_state(),
            final(self).viewport_state() == old(self).viewport_state(),
            final(self).content() == old(self).content(),
            final(self).same_extras(&*old(self)),
            final(self).same_history(&*old(self)),
    {
        if self.subcursor.get_offset() != 0 {
            let new_position = self.subcursor.get_offset() - 1;
            proof {
                let d = self.digits();
                let sp = span_length(self.cursor@.1 as int);
                assert(d * sp == sp * d) by (nonlinear_arith);
                assert((new_position as int) % (d * sp) == new_position as int) by (nonlinear_arith)
                    requires
                        0 <= new_position < d * sp,
                ;
            }
            self.set_subcursor_offset(new_position);
        }
    }

    /// Lengthens the cursor by one byte (from one byte leftwards straight to
    /// one byte rightwards).
    pub fn cursor_increase_length(&mut self)
        requires
            old(self).wf(),
            grown(old(self).cursor_state().1) <= isize::MAX,
            length_settable(
                old(self).cursor_state(),
                old(self).content().len() as int,
                grown(old(self).cursor_state().1) as isize,
                old(self).digits(),
            ),
        ensures
            final(self).wf(),
            final(self).cursor_view() == after_length(
                old(self).cursor_view(),
                old(self).content().len() as int,
                grown(old(self).cursor_state().1) as isize,
                old(self).digits(),
            ),
            final(self).content() == old(self).content(),
            final(self).same_extras(&*old(self)),
            final(self).same_history(&*old(self)),
    {
        let new_length = if self.cursor.get_real_length() == -1 {
            1
        } else {
            self.cursor.get_real_length() + 1
        };
        self.set_cursor_length(new_length);
    }

    /// Shortens the cursor by one byte (from one byte rightwards straight to
    /// one byte leftwards).
    pub fn cursor_decrease_length(&mut self)
        requires
            old(self).wf(),
            length_settable(
                old(self).cursor_state(),
                old(self).content().len() as int,
                shrunk(old(self).cursor_state().1) as isize,
                old(self).digits(),
            ),
        ensures
            final(self).wf(),
            final(self).cursor_view() == after_length(
                old(self).cursor_view(),
                old(self).content().len() as int,
                shrunk(old(self).cursor_state().1) as isize,
                old(self).digits(),
            ),
            final(self).content() == old(self).content(),
            final(self).same_extras(&*old(self)),
            final(self).same_history(&*old(self)),
    {
        let new_length = if self.cursor.get_real_length() == 1 {
            -1
        } else {
            self.cursor.get_real_length() - 1
        };
        self.set_cursor_length(new_length);
    }

    /// Moves the cursor's anchor one row down.
    pub fn cursor_next_line(&mut self)
        requires
            old(self).wf(),
            offset_settable(
                old(self).cursor_view(),
                old(self).content().len() as int,
                (old(self).cursor_state().0 + old(self).viewport_state().1) as usize,
                old(self).digits(),
            ),
        ensures
            final(self).wf(),
            final(self).cursor_view() == after_offset(
                old(self).cursor_view(),
                old(self).content().len() as int,
                (old(self).cursor_state().0 + old(self).viewport_state().1) as usize,
            ),
            final(self).content() == old(self).content(),
            final(self).same_extras(&*old(self)),
            final(self).same_history(&*old(self)),
    {
        let new_offset = self.cursor.get_real_offset() + self.viewport.get_width();
        let _ = self.set_cursor_offset(new_offset);
    }

    /// Moves the cursor's anchor one row up (at most to the start).
    pub fn cursor_prev_line(&mut self)
        requires
            old(self).wf(),
            offset_settable(
                old(self).cursor_view(),
                old(self).content().len() as int,
                up_one_row(old(self).cursor_state().0, old(self).viewport_state().1),
                old(self).digits(),
            ),
        ensures
            final(self).wf(),
            final(self).cursor_view() == after_offset(
                old(self).cursor_view(),
                old(self).content().len() as int,
                up_one_row(old(self).cursor_state().0, old(self).viewport_state().1),
            ),
            final(self).content() == old(self).content(),
            final(self).same_extras(&*old(self)),
            final(self).same_history(&*old(self)),
    {
        let viewport_width = self.viewport.get_width();
        let real_offset = self.cursor.get_real_offset();
        let step = if real_offset < viewport_width { real_offset } else { viewport_width };
        let new_offset = real_offset - step;
        let _ = self.set_cursor_offset(new_offset);
    }

    /// Lengthens the cursor by one row.
    pub fn cursor_increase_length_by_line(&mut self)
        requires
            old(self).wf(),
            grown_by_line(old(self).cursor_state().1, old(self).viewport_state().1) <= isize::MAX,
            length_settable(
                old(self).cursor_state(),
                old(self).content().len() as int,
                grown_by_line(old(self).cursor_state().1, old(self).viewport_state().1) as isize,
                old(self).digits(),
            ),
        ensures
            final(self).wf(),
            final(self).cursor_view() == after_length(
                old(self).cursor_view(),
                old(self).content().len() as int,
                grown_by_line(old(self).cursor_state().1, old(self).viewport_state().1) as isize,
                old(self).digits(),
            ),
            final(self).content() == old(self).content(),
            final(self).same_extras(&*old(self)),
            final(self).same_history(&*old(self)),
    {
        let mut new_length: isize = self.cursor.get_real_length() + (self.viewport.get_width() as isize);
        if self.cursor.get_real_length() < 0 && new_length >= 0 {
            new_length += 1;
        }
        self.set_cursor_length(new_length);
    }

    /// Shortens the cursor by one row.
    pub fn cursor_decrease_length_by_line(&mut self)
        requires
            old(self).wf(),
            shrunk_by_line(old(self).cursor_state().1, old(self).viewport_state().1) >= isize::MIN,
            length_settable(
                old(self).cursor_state(),
                old(self).content().len() as int,
                shrunk_by_line(old(self).cursor_state().1, old(self).viewport_state().1) as isize,
                old(self).digits(),
            ),
        ensures
            final(self).wf(),
            final(self).cursor_view() == after_length(
                old(self).cursor_view(),
                old(self).content().len() as int,
                shrunk_by_line(old(self).cursor_state().1, old(self).viewport_state().1) as isize,
                old(self).digits(),
            ),
            final(self).content() == old(self).content(),
            final(self).same_extras(&*old(self)),
            final(self).same_history(&*old(self)),
    {
        let mut new_length: isize = self.cursor.get_real_length() - (self.viewport.get_width() as isize);
        if self.cursor.get_real_length() > 0 && new_length < 0 {
            new_length -= 1;
        }
        self.set_cursor_length(new_length);
    }

    /// Puts the cursor's anchor at `offset` and then sets its length.
    pub fn make_selection(&mut self, offset: usize, length: usize)
        requires
            old(self).wf(),
            offset_settable(old(self).cursor_view(), old(self).content().len() as int, offset, old(self).digits()),
            length_settable(
                after_offset(old(self).cursor_view(), old(self).content().len() as int, offset).0,
                old(self).content().len() as int,
                length as isize,
                old(self).digits(),
            ),
        ensures
            final(self).wf(),
            final(self).cursor_view() == after_length(
                after_offset(old(self).cursor_view(), old(self).content().len() as int, offset),
                old(self).content().len() as int,
                length as isize,
                old(self).digits(),
            ),
            final(self).content() == old(self).content(),
            final(self).same_extras(&*old(self)),
            final(self).same_history(&*old(self)),
    {
        let _ = self.set_cursor_offset(offset);
        self.set_cursor_length(length as isize);
    }

    pub fn set_viewport_width(&mut self, new_width: usize)
        requires
            old(self).wf(),
            1 <= new_width <= isize::MAX,
            new_width * old(self).viewport_state().2 <= isize::MAX,
        ensures
            final(self).wf(),
            final(self).viewport_state() == (
                (old(self).viewport_state().0 / new_width * new_width) as usize,
                new_width,
                old(self).viewport_state().2,
            ),
            final(self).cursor_state() == old(self).cursor_state(),
            final(self).subcursor_state() == old(self).subcursor_state(),
            final(self).content() == old(self).content(),
            final(self).same_extras(&*old(self)),
            final(self).same_history(&*old(self)),
    {
        let height = self.viewport.get_height();
        self.set_viewport_size(new_width, height);
    }

    /// Resizes the viewport and aligns its offset down to a whole row.
    pub fn set_viewport_size(&mut self, width: usize, height: usize)
        requires
            old(self).wf(),
            1 <= width <= isize::MAX,
            width * height <= isize::MAX,
        ensures
            final(self).wf(),
            final(self).viewport_state() == (
                (old(self).viewport_state().0 / width * width) as usize,
                width,
                height,
            ),
            final(self).cursor_state() == old(self).cursor_state(),
            final(self).subcursor_state() == old(self).subcursor_state(),
            final(self).content() == old(self).content(),
            final(self).same_extras(&*old(self)),
            final(self).same_history(&*old(self)),
    {
        self.viewport.set_size(width, height);
        let old_offset = self.viewport.get_offset();
        proof {
            assert(old_offset as int / width as int * width as int <= old_offset) by (nonlinear_arith)
                requires
                    width >= 1,
            ;
        }
        self.set_viewport_offset((old_offset / width) * width);
    }
}


impl Editor {
    /// Carries out one history entry: resets the cursor to one byte at its
    /// offset, takes its bytes out and puts its bytes in; returns the entry
    /// that reverts it.
    fn do_undo_or_redo(&mut self, task: Task) -> (r: Result<Task, SbyteError>)
        requires
            old(self).wf(),
            old(self).cursor_state().0 <= old(self).content().len(),
        ensures
            final(self).wf(),
            final(self).cursor_state().0 <= final(self).content().len(),
            ({
                let out = history_step(old(self).step_state(), old(self).digits(), task_view(task));
                &&& final(self).step_state() == out.0
                &&& match r {
                    Ok(t) => out.1 == Ok::<TaskView, SbyteError>(task_view(t)),
                    Err(e) => out.1 == Err::<TaskView, SbyteError>(e),
                }
            }),
            final(self).same_extras(&*old(self)),
            final(self).undo_tasks() == old(self).undo_tasks(),
            final(self).redo_tasks() == old(self).redo_tasks(),
    {
        let ghost s = self.content();
        let ghost cv0 = self.cursor_view();
        let ghost d = self.digits();
        let len = self.active_content.len();
        let (offset, bytes_to_remove, bytes_to_insert, timestamp) = task;
        self.fit_cursor_length(1);
        let _ = self.set_cursor_offset(offset);
        proof {
            assert(self.cursor_view() == after_offset(after_length(cv0, len as int, 1, d), len as int, offset));
        }
        let mut opposite_bytes_to_insert: Vec<u8> = Vec::new();
        if bytes_to_remove > 0 {
            opposite_bytes_to_insert = self.active_content.remove_bytes(offset, bytes_to_remove);
        } else {
            proof {
                if (offset as int) < s.len() {
                    assert(without_range(s, offset as int, 0) =~= s);
                    assert(s.subrange(offset as int, offset as int) =~= Seq::<u8>::empty());
                }
            }
        }
        let ghost s1 = self.content();
        proof {
            assert(s1 == after_removal(s, offset as int, bytes_to_remove as int));
            assert(opposite_bytes_to_insert@ == taken(s, offset as int, bytes_to_remove as int));
        }
        let mut opposite_bytes_to_remove: usize = 0;
        if bytes_to_insert.len() > 0 {
            opposite_bytes_to_remove = bytes_to_insert.len();
            match self.active_content.insert_bytes(offset, bytes_to_insert.as_slice()) {
                Ok(()) => {},
                Err(e) => {
                    return Err(content_error(e));
                },
            }
        }
        let resized = opposite_bytes_to_remove != opposite_bytes_to_insert.len();
        self.mark_changed(offset, resized);
        Ok((offset, opposite_bytes_to_remove, opposite_bytes_to_insert, timestamp))
    }

    /// Undoes the most recent group of edits (entries recorded within
    /// `UNDO_GROUP_NANOS` of each other) and returns how many entries it
    /// undid; with nothing to undo, `EmptyStack`.
    pub fn undo(&mut self) -> (r: Result<usize, SbyteError>)
        requires
            old(self).wf(),
            old(self).cursor_state().0 <= old(self).content().len(),
        ensures
            final(self).wf(),
            old(self).undone_as(&*final(self), r),
    {
        let ghost d = self.digits();
        let n0 = self.undo_stack.len();
        let ghost goal = run_history(self.step_state(), d, self.undo_tasks(), self.redo_tasks(), None, 0, false);
        let mut tasks_undone: usize = 0;
        let mut latest_instant: Option<u64> = None;
        loop
            invariant
                self.wf(),
                self.cursor_state().0 <= self.content().len(),
                self.digits() == d,
                self.same_extras(&*old(self)),
                tasks_undone + self.undo_stack@.len() == n0,
                n0 == old(self).undo_stack@.len(),
                d == old(self).digits(),
                goal == run_history(
                    old(self).step_state(),
                    d,
                    old(self).undo_tasks(),
                    old(self).redo_tasks(),
                    None,
                    0,
                    false,
                ),
                latest_instant is Some ==> tasks_undone > 0,
                run_history(
                    self.step_state(),
                    d,
                    self.undo_tasks(),
                    self.redo_tasks(),
                    latest_instant,
                    tasks_undone as nat,
                    false,
                ) == goal,
            ensures
                self.wf(),
                self.same_extras(&*old(self)),
                goal == (
                    self.step_state(),
                    self.undo_tasks(),
                    self.redo_tasks(),
                    if tasks_undone > 0 {
                        Ok::<usize, SbyteError>(tasks_undone)
                    } else {
                        Err::<usize, SbyteError>(SbyteError::EmptyStack)
                    },
                ),
            decreases self.undo_stack@.len(),
        {
            let ghost before = self.undo_tasks();
            let ghost st_before = self.step_state();
            let ghost redo_before = self.redo_tasks();
            let ghost latest_before = latest_instant;
            match self.undo_stack.pop() {
                Some(task) => {
                    proof {
                        assert(self.undo_tasks() =~= before.drop_last());
                        assert(task_view(task) == before.last());
                    }
                    let stamp = task.3;
                    let in_group = match latest_instant {
                        Some(then) => then.saturating_sub(stamp) <= UNDO_GROUP_NANOS,
                        None => true,
                    };
                    if in_group {
                        latest_instant = Some(stamp);
                        match self.do_undo_or_redo(task) {
                            Ok(redo_task) => {
                                let ghost redo_before = self.redo_tasks();
                                self.redo_stack.push(redo_task);
                                proof {
                                    assert(self.redo_tasks() =~= redo_before.push(task_view(redo_task)));
                                }
                                tasks_undone += 1;
                            },
                            Err(e) => {
                                proof {
                                    assert(run_history(
                                        st_before,
                                        d,
                                        before,
                                        redo_before,
                                        latest_before,
                                        tasks_undone as nat,
                                        false,
                                    ) == (self.step_state(), self.undo_tasks(), self.redo_tasks(), Err::<usize, SbyteError>(e)));
                                }
                                return Err(e);
                            },
                        }
                    } else {
                        self.undo_stack.push(task);
                        proof {
                            assert(self.undo_tasks() =~= before);
                        }
                        break ;
                    }
                },
                None => {
                    break ;
                },
            }
        }
        if tasks_undone > 0 {
            Ok(tasks_undone)
        } else {
            Err(SbyteError::EmptyStack)
        }
    }
}


impl Editor {
    /// Redoes the most recent group of undone edits and returns how many
    /// entries it redid; with nothing to redo, `EmptyStack`. The entry that
    /// ends the group goes onto the undo history as it is.
    pub fn redo(&mut self) -> (r: Result<usize, SbyteError>)
        requires
            old(self).wf(),
            old(self).cursor_state().0 <= old(self).content().len(),
        ensures
            final(self).wf(),
            old(self).redone_as(&*final(self), r),
    {
        let ghost d = self.digits();
        let n0 = self.redo_stack.len();
        let ghost goal = run_history(self.step_state(), d, self.redo_tasks(), self.undo_tasks(), None, 0, true);
        let mut tasks_redone: usize = 0;
        let mut latest_instant: Option<u64> = None;
        loop
            invariant_except_break
                tasks_redone + self.redo_stack@.len() == n0,
                run_history(
                    self.step_state(),
                    d,
                    self.redo_tasks(),
                    self.undo_tasks(),
                    latest_instant,
                    tasks_redone as nat,
                    true,
                ) == goal,
            invariant
                self.wf(),
                self.cursor_state().0 <= self.content().len(),
                self.digits() == d,
                self.same_extras(&*old(self)),
                n0 == old(self).redo_stack@.len(),
                d == old(self).digits(),
                goal == run_history(
                    old(self).step_state(),
                    d,
                    old(self).redo_tasks(),
                    old(self).undo_tasks(),
                    None,
                    0,
                    true,
                ),
                latest_instant is Some ==> tasks_redone > 0,
            ensures
                self.wf(),
                self.same_extras(&*old(self)),
                goal == (
                    self.step_state(),
                    self.redo_tasks(),
                    self.undo_tasks(),
                    if tasks_redone > 0 {
                        Ok::<usize, SbyteError>(tasks_redone)
                    } else {
                        Err::<usize, SbyteError>(SbyteError::EmptyStack)
                    },
                ),
            decreases self.redo_stack@.len(),
        {
            let ghost before = self.redo_tasks();
            let ghost st_before = self.step_state();
            let ghost undo_before = self.undo_tasks();
            let ghost latest_before = latest_instant;
            match self.redo_stack.pop() {
                Some(task) => {
                    proof {
                        assert(self.redo_tasks() =~= before.drop_last());
                        assert(task_view(task) == before.last());
                    }
                    let stamp = task.3;
                    let in_group = match latest_instant {
                        Some(then) => stamp.saturating_sub(then) <= UNDO_GROUP_NANOS,
                        None => true,
                    };
                    if in_group {
                        latest_instant = Some(stamp);
                        match self.do_undo_or_redo(task) {
                            Ok(undo_task) => {
                                let ghost undo_mid = self.undo_tasks();
                                self.undo_stack.push(undo_task);
                                proof {
                                    assert(self.undo_tasks() =~= undo_mid.push(task_view(undo_task)));
                                }
                                tasks_redone += 1;
                            },
                            Err(e) => {
                                proof {
                                    assert(run_history(
                                        st_before,
                                        d,
                                        before,
                                        undo_before,
                                        latest_before,
                                        tasks_redone as nat,
                                        true,
                                    ) == (self.step_state(), self.redo_tasks(), self.undo_tasks(), Err::<usize, SbyteError>(e)));
                                }
                                return Err(e);
                            },
                        }
                    } else {
                        self.undo_stack.push(task);
                        proof {
                            assert(self.undo_tasks() =~= undo_before.push(before.last()));
                        }
                        break ;
                    }
                },
                None => {
                    break ;
                },
            }
        }
        if tasks_redone > 0 {
            Ok(tasks_redone)
        } else {
            Err(SbyteError::EmptyStack)
        }
    }
}


impl Editor {
    /// Every match of `search_for` over the content, as (start, end)
    /// offsets in ascending order. The pattern is a regex over raw bytes in
    /// which `\b` followed by up to eight of `0`, `1` and `.` is a byte in
    /// binary (`.` standing for either bit), and `\xH.` or `\x.H` is a byte
    /// with one hexadecimal digit open.
    pub fn find_all(&self, search_for: &str) -> (r: Result<Vec<(usize, usize)>, SbyteError>)
        requires
            search_defined(search_for@),
        ensures
            search_result(search_for@, self.content(), r),
    {
        match rewrite_search(search_for) {
            None => {
                proof {
                    assert(false);
                }
                Err(SbyteError::InvalidRegex(search_for.to_owned()))
            },
            Some(Err(text)) => match string_from_utf8(text) {
                Some(m) => Err(SbyteError::InvalidBinary(m)),
                None => {
                    proof {
                        assert(false);
                    }
                    Err(SbyteError::InvalidRegex(search_for.to_owned()))
                },
            },
            Some(Ok(pattern)) => match string_from_utf8(pattern) {
                Some(p) => match self.active_content.find_all(p.as_str()) {
                    Ok(v) => Ok(v),
                    Err(_) => Err(SbyteError::InvalidRegex(search_for.to_owned())),
                },
                None => {
                    proof {
                        assert(false);
                    }
                    Err(SbyteError::InvalidRegex(search_for.to_owned()))
                },
            },
        }
    }

    /// `find_all` where writing out the pattern's shorthand stays on
    /// character boundaries; `None` where it would cut a character.
    pub fn try_find_all(&self, search_for: &str) -> (r: Option<Result<Vec<(usize, usize)>, SbyteError>>)
        ensures
            r is None <==> !search_defined(search_for@),
            r matches Some(x) ==> search_result(search_for@, self.content(), x),
    {
        match rewrite_search(search_for) {
            None => None,
            Some(_) => Some(self.find_all(search_for)),
        }
    }

    /// The match `n` places after the first match that starts past
    /// `offset` (counting from the first match when none does), wrapping
    /// round; `None` when nothing matches.
    pub fn find_nth_after(&self, pattern: &str, offset: usize, n: usize) -> (r: Result<Option<(usize, usize)>, SbyteError>)
        requires
            search_defined(pattern@),
        ensures
            match search_matches(pattern@, self.content()) {
                None => r matches Err(e) && search_result(
                    pattern@,
                    self.content(),
                    Err::<Vec<(usize, usize)>, SbyteError>(e),
                ),
                Some(v) => r == Ok::<Option<(usize, usize)>, SbyteError>(
                    if v.len() > 0 {
                        Some(v[(first_after(v, offset, 0) as int + n) % (v.len() as int)])
                    } else {
                        None
                    },
                ),
            },
    {
        let matches = match self.find_all(pattern) {
            Ok(v) => v,
            Err(e) => {
                return Err(e);
            },
        };
        let len = matches.len();
        if len > 0 {
            let mut i: usize = 0;
            while i < len && matches[i].0 <= offset
                invariant
                    i <= len == matches@.len(),
                    first_after(matches@, offset, i as nat) == first_after(matches@, offset, 0),
                decreases len - i,
            {
                i += 1;
            }
            let match_index = if i < len {
                i
            } else {
                0
            };
            let index = wrapped_index(match_index, n, len);
            Ok(Some(matches[index]))
        } else {
            Ok(None)
        }
    }

    /// The match `n` places after the last match that starts before
    /// `offset` (the last match when the first does not), wrapping round;
    /// `None` when nothing matches.
    pub fn find_nth_before(&self, pattern: &str, offset: usize, n: usize) -> (r: Result<Option<(usize, usize)>, SbyteError>)
        requires
            search_defined(pattern@),
        ensures
            match search_matches(pattern@, self.content()) {
                None => r matches Err(e) && search_result(
                    pattern@,
                    self.content(),
                    Err::<Vec<(usize, usize)>, SbyteError>(e),
                ),
                Some(v) => r == Ok::<Option<(usize, usize)>, SbyteError>(
                    if v.len() > 0 {
                        Some(v[(last_before(v, offset, 0, (v.len() - 1) as nat) as int + n) % (v.len() as int)])
                    } else {
                        None
                    },
                ),
            },
    {
        let matches = match self.find_all(pattern) {
            Ok(v) => v,
            Err(e) => {
                return Err(e);
            },
        };
        let len = matches.len();
        if len > 0 {
            let mut match_index: usize = len - 1;
            let mut i: usize = 0;
            while i < len && matches[i].0 < offset
                invariant
                    i <= len == matches@.len(),
                    match_index < len,
                    last_before(matches@, offset, i as nat, match_index as nat) == last_before(
                        matches@,
                        offset,
                        0,
                        (len - 1) as nat,
                    ),
                decreases len - i,
            {
                match_index = i;
                i += 1;
            }
            let index = wrapped_index(match_index, n, len);
            Ok(Some(matches[index]))
        } else {
            Ok(None)
        }
    }

    /// The first match that starts past `offset` (or the first match).
    pub fn find_after(&self, pattern: &str, offset: usize) -> (r: Result<Option<(usize, usize)>, SbyteError>)
        requires
            search_defined(pattern@),
        ensures
            match search_matches(pattern@, self.content()) {
                None => r matches Err(e) && search_result(
                    pattern@,
                    self.content(),
                    Err::<Vec<(usize, usize)>, SbyteError>(e),
                ),
                Some(v) => r == Ok::<Option<(usize, usize)>, SbyteError>(
                    if v.len() > 0 {
                        Some(v[first_after(v, offset, 0) as int])
                    } else {
                        None
                    },
                ),
            },
    {
        proof {
            if let Some(v) = search_matches(pattern@, self.content()) {
                if v.len() > 0 {
                    lemma_first_after_bound(v, offset);
                }
            }
        }
        self.find_nth_after(pattern, offset, 0)
    }

    /// The last match that starts before `offset` (or the last match).
    pub fn find_before(&self, pattern: &str, offset: usize) -> (r: Result<Option<(usize, usize)>, SbyteError>)
        requires
            search_defined(pattern@),
        ensures
            match search_matches(pattern@, self.content()) {
                None => r matches Err(e) && search_result(
                    pattern@,
                    self.content(),
                    Err::<Vec<(usize, usize)>, SbyteError>(e),
                ),
                Some(v) => r == Ok::<Option<(usize, usize)>, SbyteError>(
                    if v.len() > 0 {
                        Some(v[last_before(v, offset, 0, (v.len() - 1) as nat) as int])
                    } else {
                        None
                    },
                ),
            },
    {
        proof {
            if let Some(v) = search_matches(pattern@, self.content()) {
                if v.len() > 0 {
                    lemma_last_before_bound(v, offset);
                }
            }
        }
        self.find_nth_before(pattern, offset, 0)
    }
}

/// `(index + n) % len` for `index < len`, without overflow.
fn wrapped_index(index: usize, n: usize, len: usize) -> (r: usize)
    requires
        index < len,
    ensures
        r == (index + n) % (len as int),
        r < len,
{
    let step = n % len;
    proof {
        vstd::arithmetic::div_mod::lemma_add_mod_noop(index as int, n as int, len as int);
        vstd::arithmetic::div_mod::lemma_small_mod(index as nat, len as nat);
    }
    if index >= len - step {
        proof {
            vstd::arithmetic::div_mod::lemma_mod_sub_multiples_vanish((index + step) as int, len as int);
            vstd::arithmetic::div_mod::lemma_small_mod((index + step - len) as nat, len as nat);
        }
        index - (len - step)
    } else {
        proof {
            vstd::arithmetic::div_mod::lemma_small_mod((index + step) as nat, len as nat);
        }
        index + step
    }
}

proof fn lemma_first_after_bound(v: Seq<(usize, usize)>, offset: usize)
    requires
        v.len() > 0,
    ensures
        first_after(v, offset, 0) < v.len(),
        (first_after(v, offset, 0) as int + 0) % (v.len() as int) == first_after(v, offset, 0),
{
    lemma_first_after_in(v, offset, 0);
    let f = first_after(v, offset, 0) as int;
    assert((f + 0) % (v.len() as int) == f) by (nonlinear_arith)
        requires
            0 <= f < v.len(),
    ;
}

proof fn lemma_first_after_in(m: Seq<(usize, usize)>, offset: usize, i: nat)
    requires
        m.len() > 0,
    ensures
        first_after(m, offset, i) < m.len(),
    decreases m.len() - i,
{
    if i < m.len() && m[i as int].0 <= offset {
        lemma_first_after_in(m, offset, i + 1);
    }
}

proof fn lemma_last_before_bound(v: Seq<(usize, usize)>, offset: usize)
    requires
        v.len() > 0,
    ensures
        last_before(v, offset, 0, (v.len() - 1) as nat) < v.len(),
        (last_before(v, offset, 0, (v.len() - 1) as nat) as int + 0) % (v.len() as int) == last_before(
            v,
            offset,
            0,
            (v.len() - 1) as nat,
        ),
{
    lemma_last_before_in(v, offset, 0, (v.len() - 1) as nat);
    let f = last_before(v, offset, 0, (v.len() - 1) as nat) as int;
    assert((f + 0) % (v.len() as int) == f) by (nonlinear_arith)
        requires
            0 <= f < v.len(),
    ;
}

proof fn lemma_last_before_in(m: Seq<(usize, usize)>, offset: usize, i: nat, found: nat)
    requires
        found < m.len(),
    ensures
        last_before(m, offset, i, found) < m.len(),
    decreases m.len() - i,
{
    if i < m.len() && m[i as int].0 < offset {
        lemma_last_before_in(m, offset, i + 1, i);
    }
}


impl Editor {
    /// Replaces the bytes `[start, end)` with `rep` and records the edit
    /// that undoes it.
    pub(crate) fn replace_range(&mut self, start: usize, end: usize, rep: &[u8])
        requires
            old(self).wf(),
            start <= end <= old(self).content().len(),
        ensures
            final(self).wf(),
            final(self).same_settings(&*old(self)),
            final(self).content() == with_inserted(
                without_range(old(self).content(), start as int, end - start),
                start as int,
                rep@,
            ),
            old(self).records(
                &*final(self),
                start,
                rep@.len() as usize,
                old(self).content().subrange(start as int, end as int),
            ),
    {
        let ghost cur = self.content();
        let _ = self.active_content.len();
        let rep_len = byte_slice_len(rep);
        let removed = self.active_content.remove_bytes(start, end - start);
        proof {
            if (start as int) < cur.len() {
                assert(removed_count(cur.len() as int, start as int, end - start) == end - start);
            } else {
                assert(without_range(cur, start as int, 0) =~= cur);
                assert(cur.subrange(start as int, end as int) =~= Seq::<u8>::empty());
            }
        }
        match self.active_content.insert_bytes(start, rep) {
            Ok(()) => {},
            Err(_) => {
                proof {
                    assert(false);
                }
            },
        }
        self.push_to_undo_stack(start, rep_len, removed);
    }
}


impl Editor {
    /// Starts loading the file at `file_path`: marks the editor as loading,
    /// empties the content and names the file. The bytes follow through
    /// `complete_load`.
    pub fn begin_load(&mut self, file_path: &str)
        requires
            old(self).wf(),
        ensures
            final(self).wf(),
            final(self).loading(),
            final(self).content() == Seq::<u8>::empty(),
            final(self).file_path() == Some(file_path@),
            final(self).cursor_state() == old(self).cursor_state(),
            final(self).subcursor_state() == old(self).subcursor_state(),
            final(self).viewport_state() == old(self).viewport_state(),
            final(self).formatter_ref() == old(self).formatter_ref(),
            final(self).ratio() == old(self).ratio(),
            final(self).clipboard_bytes() == old(self).clipboard_bytes(),
            final(self).user_message() == old(self).user_message(),
            final(self).user_error_message() == old(self).user_error_message(),
            final(self).searches() == old(self).searches(),
            final(self).same_history(&*old(self)),
    {
        self.flag_loading = true;
        self.active_content = Content::new();
        self.set_file_path(file_path);
    }

    /// Ends loading: the content becomes `bytes` and the editor is no
    /// longer loading.
    pub fn complete_load(&mut self, bytes: &[u8])
        requires
            old(self).wf(),
        ensures
            final(self).wf(),
            !final(self).loading(),
            final(self).content() == old(self).content() + bytes@,
            final(self).same_settings_but_loading_content(&*old(self)),
    {
        let ghost start = self.content();
        let mut i: usize = 0;
        while i < bytes.len()
            invariant
                i <= bytes@.len(),
                self.wf(),
                self.same_settings_but_loading_content(&*old(self)),
                start == old(self).content(),
                self.content() =~= start + bytes@.subrange(0, i as int),
            decreases bytes@.len() - i,
        {
            self.active_content.push(bytes[i]);
            i += 1;
        }
        proof {
            assert(bytes@.subrange(0, bytes@.len() as int) =~= bytes@);
        }
        self.flag_loading = false;
    }

    /// Where the content is to be saved: the active file's path, or
    /// `PathNotSet` when there is none.
    pub fn save(&self) -> (r: Result<String, SbyteError>)
        ensures
            match self.file_path() {
                Some(p) => r matches Ok(s) && s@ == p,
                None => r == Err::<String, SbyteError>(SbyteError::PathNotSet),
            },
    {
        match &self.active_file_path {
            Some(path) => Ok(path.clone()),
            None => Err(SbyteError::PathNotSet),
        }
    }
}


/// `span_length` of a cursor length, computed.
fn span_of(length: isize) -> (r: u128)
    ensures
        r == span_length(length as int),
{
    if length < 0 {
        (0i128 - length as i128 + 1) as u128
    } else {
        length as u128
    }
}

/// Whether a cursor at `c` is one the editor can index with `digits`
/// digits per byte (`cursor_sane`), computed.
fn cursor_is_sane(c: (usize, isize), digits: u8) -> (r: bool)
    ensures
        r == cursor_sane(c, digits as int),
{
    let span = span_of(c.1);
    let max = isize::MAX as u128;
    let leftward_ok = !(c.1 < 0) || (c.0 as i128) + (c.1 as i128) >= 0;
    let rightward_ok = !(c.1 > 0) || (c.0 as u128) + (c.1 as u128) <= max + 1;
    if span > max {
        return false;
    }
    proof {
        assert(span * (digits as u128) <= max * 255) by (nonlinear_arith)
            requires
                span <= max,
                digits <= 255,
        ;
    }
    (c.0 as u128) <= max && c.1 != 0 && -isize::MAX <= c.1 && leftward_ok && rightward_ok && span * (
    digits as u128) <= usize::MAX as u128
}

impl Editor {
    /// Whether `set_cursor_offset(new_offset)` can be called
    /// (`offset_settable`).
    pub fn can_set_cursor_offset(&self, new_offset: usize) -> (r: bool)
        requires
            self.wf(),
        ensures
            r == offset_settable(self.cursor_view(), self.content().len() as int, new_offset, self.digits()),
    {
        if new_offset <= self.active_content.len() {
            cursor_is_sane((new_offset, self.cursor.get_real_length()), self._active_display_ratio - 1)
        } else {
            true
        }
    }

    /// Whether `set_cursor_length(new_length)` can be called
    /// (`length_settable`).
    pub fn can_set_cursor_length(&self, new_length: isize) -> (r: bool)
        requires
            self.wf(),
        ensures
            r == length_settable(self.cursor_state(), self.content().len() as int, new_length, self.digits()),
    {
        let len = self.active_content.len();
        let real_offset = self.cursor.get_real_offset();
        let before_end = !(new_length > 0 && real_offset != len) || real_offset <= len;
        let after: isize = if real_offset == len && new_length > 0 {
            1
        } else if new_length < 0 {
            let floor = 0i128 - real_offset as i128;
            if new_length as i128 >= floor {
                new_length
            } else {
                floor as isize
            }
        } else if new_length == 0 {
            self.cursor.get_real_length()
        } else {
            if (new_length as i128) < (len as i128) - (real_offset as i128) {
                new_length
            } else {
                ((len as i128) - (real_offset as i128)) as isize
            }
        };
        proof {
            assert(after == length_after(self.cursor@, len as int, new_length));
        }
        let span = span_of(after);
        let digits: u128 = (self._active_display_ratio - 1) as u128;
        if span > usize::MAX as u128 {
            proof {
                assert(span * digits > usize::MAX) by (nonlinear_arith)
                    requires
                        span > usize::MAX,
                        digits >= 1,
                ;
            }
            return false;
        }
        proof {
            assert(span * digits <= 0x1_0000_0000_0000_0000 * 255) by (nonlinear_arith)
                requires
                    span <= 0x1_0000_0000_0000_0000,
                    digits <= 255,
            ;
        }
        before_end && after != 0 && span * digits <= usize::MAX as u128
    }
}

} // verus!
