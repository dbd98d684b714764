//! What the editing operations promise of each other.
use vstd::prelude::*;

use crate::editor::formatter::{decimal_rendering, dec_digit_value, hex_digit_value, hex_rendering, FormatterRef};
use crate::editor::parsing::{
    big_endian_bytes, bytes_radix, digits_number, integer_cuttable, integer_radix, integer_text,
    lemma_ascii_pair_boundary, parses_in, radix_digits, reads_bytes, reads_integer, split_words, word_step,
    words_after, WordState,
};
use crate::editor::{char_digit, SbyteError as ParseError};
use std::num::ParseIntError;
use vstd::utf8::{encode_scalar, encode_utf8, encode_utf8_decode_utf8, encode_utf8_valid_utf8, decode_utf8};
use crate::editor::big_endian_value;

use crate::editor::{
    first_after, last_before, masked, next_formatter,
    after_removal, history_step, is_insert_task, is_remove_task, pushed, run_history, taken, time_gap,
    Editor, SbyteError, StepState, TaskView, UNDO_GROUP_NANOS,
};
use crate::editor::content::{
    carry_stop, mask_byte, removed_count, stepped, with_inserted, without_range, word_fits,
    word_low, BitMask,
};

verus! {

/// Taking out the bytes just put in gives the content back, and what is
/// taken out is what was put in.
pub proof fn removal_undoes_insertion(s: Seq<u8>, offset: int, bytes: Seq<u8>)
    requires
        0 <= offset <= s.len(),
    ensures
        ({
            let t = with_inserted(s, offset, bytes);
            let k = removed_count(t.len() as int, offset, bytes.len() as int);
            &&& k == bytes.len()
            &&& bytes.len() > 0 ==> t.subrange(offset, offset + k) == bytes
            &&& without_range(t, offset, k) == s
        }),
{
    let t = with_inserted(s, offset, bytes);
    assert(t.subrange(offset, offset + bytes.len()) =~= bytes);
    assert(without_range(t, offset, bytes.len() as int) =~= s);
}

/// Putting back the bytes just taken out gives the content back.
pub proof fn insertion_undoes_removal(s: Seq<u8>, offset: int, length: int)
    requires
        0 <= offset < s.len(),
        length >= 0,
    ensures
        ({
            let k = removed_count(s.len() as int, offset, length);
            with_inserted(without_range(s, offset, k), offset, s.subrange(offset, offset + k)) == s
        }),
{
    let k = removed_count(s.len() as int, offset, length);
    assert(with_inserted(without_range(s, offset, k), offset, s.subrange(offset, offset + k)) =~= s);
}

/// The borrow of a decrement after an increment stops where the increment's
/// carry stopped.
proof fn lemma_borrow_after_carry(s: Seq<u8>, pos: int, low: int, stop: int, t: Seq<u8>)
    requires
        0 <= low <= stop <= pos < s.len(),
        t.len() == s.len(),
        stop == carry_stop(s, pos, low, 255),
        forall|i: int| stop < i <= pos ==> #[trigger] t[i] == 0u8,
        t[stop] == (if s[stop] == 255 { 0u8 } else { (s[stop] + 1) as u8 }),
    ensures
        carry_stop(t, pos, low, 0) == stop,
    decreases pos - low,
{
    if pos > stop {
        assert(s[pos] == 255 && pos > low) by {
            crate::editor::content::lemma_carry_stop_bounds(s, pos, low, 255);
        }
        assert(carry_stop(s, pos, low, 255) == carry_stop(s, pos - 1, low, 255));
        lemma_borrow_after_carry(s, pos - 1, low, stop, t);
    } else {
        if s[stop] == 255 {
            assert(stop <= low) by {
                if stop > low {
                    assert(carry_stop(s, stop, low, 255) == carry_stop(s, stop - 1, low, 255));
                    crate::editor::content::lemma_carry_stop_bounds(s, stop - 1, low, 255);
                }
            }
        }
    }
}

/// Subtracting one from a word just incremented gives the content back.
pub proof fn decrement_undoes_increment(s: Seq<u8>, offset: usize, word_size: usize)
    requires
        offset < s.len(),
        word_fits(s, offset, word_size, 255),
    ensures
        ({
            let low = word_low(offset, word_size);
            let up = stepped(s, offset as int, carry_stop(s, offset as int, low, 255), true);
            stepped(up, offset as int, carry_stop(up, offset as int, low, 0), false) == s
        }),
{
    let low = word_low(offset, word_size);
    let stop = carry_stop(s, offset as int, low, 255);
    crate::editor::content::lemma_carry_stop_bounds(s, offset as int, low, 255);
    let up = stepped(s, offset as int, stop, true);
    if stop == offset as int {
        if s[offset as int] == 255 {
            if offset as int > low {
                assert(carry_stop(s, offset as int, low, 255) == carry_stop(s, offset - 1, low, 255));
                crate::editor::content::lemma_carry_stop_bounds(s, offset - 1, low, 255);
            }
            assert(offset as int <= low);
            assert(carry_stop(up, offset as int, low, 0) == offset as int);
        } else {
            assert(up[offset as int] != 0);
            assert(carry_stop(up, offset as int, low, 0) == offset as int);
        }
    } else {
        assert(low >= 0);
        assert(stop >= low);
        lemma_borrow_after_carry(s, offset as int, low, stop, up);
    }
    let down = stepped(up, offset as int, stop, false);
    assert(down =~= s) by {
        assert forall|i: int| 0 <= i < s.len() implies down[i] == s[i] by {
            if stop < i <= offset {
                lemma_dot_is_full(s, offset as int, low, i);
            }
        }
    }
}

/// Every byte a carry moved past was 255.
proof fn lemma_dot_is_full(s: Seq<u8>, pos: int, low: int, i: int)
    requires
        0 <= pos < s.len(),
        0 <= i,
        carry_stop(s, pos, low, 255) < i <= pos,
    ensures
        s[i] == 255,
    decreases pos - i,
{
    crate::editor::content::lemma_carry_stop_bounds(s, pos, low, 255);
    if i < pos {
        assert(carry_stop(s, pos, low, 255) == carry_stop(s, pos - 1, low, 255));
        lemma_dot_is_full(s, pos - 1, low, i);
    }
}

/// Combining with the same mask twice by exclusive or gives the byte back.
pub proof fn xor_mask_is_its_own_inverse(v: u8, m: u8)
    ensures
        mask_byte(BitMask::Xor, mask_byte(BitMask::Xor, v, m), m) == v,
{
    assert((v ^ m) ^ m == v) by (bit_vector);
}


/// An undo right after an insertion takes the insertion back and leaves the
/// earlier history as it was, and a redo right after that puts it in again;
/// so it is where the insertion is an entry of its own (not merged into the
/// entry before it) and more than `UNDO_GROUP_NANOS` later than that entry.
pub proof fn undo_takes_back_insertion(
    before: Editor,
    offset: usize,
    bytes: Seq<u8>,
    edited: Editor,
    undone: Editor,
    undo_result: Result<usize, SbyteError>,
    redone: Editor,
    redo_result: Result<usize, SbyteError>,
)
    requires
        edited.undo_tasks().len() == before.undo_tasks().len() + 1,
        before.undo_tasks().len() > 0 ==> time_gap(edited.undo_tasks().last().3, before.undo_tasks().last().3)
            > UNDO_GROUP_NANOS,
        offset <= before.content().len(),
        bytes.len() <= isize::MAX,
        edited.content() == with_inserted(before.content(), offset as int, bytes),
        before.records(&edited, offset, bytes.len() as usize, Seq::empty()),
        edited.undone_as(&undone, undo_result),
        undone.redone_as(&redone, redo_result),
    ensures
        undo_result == Ok::<usize, SbyteError>(1),
        undone.content() == before.content(),
        undone.undo_tasks() == before.undo_tasks(),
        redo_result == Ok::<usize, SbyteError>(1),
        redone.content() == edited.content(),
        redone.redo_tasks().len() == 0,
{
    let s0 = before.content();
    let s = edited.content();
    let now = edited.undo_tasks().last().3;
    let t: TaskView = (offset, bytes.len() as usize, Seq::empty(), now);
    assert(edited.undo_tasks() =~= before.undo_tasks().push(t));
    removal_undoes_insertion(s0, offset as int, bytes);
    assert(taken(s, offset as int, bytes.len() as int) =~= bytes);
    assert(after_removal(s, offset as int, bytes.len() as int) =~= s0);
    let step = history_step(edited.step_state(), edited.digits(), t);
    assert(step.0.0 == s0);
    let rt: TaskView = (offset, 0usize, bytes, now);
    assert(step.1 == Ok::<TaskView, SbyteError>(rt));
    reveal_with_fuel(run_history, 2);
    assert(before.undo_tasks().push(t).drop_last() =~= before.undo_tasks());
    assert(undone.redo_tasks() == edited.redo_tasks().push(rt));
    assert(undone.redo_tasks() =~= seq![rt]);
    assert(taken(s0, offset as int, 0) =~= Seq::<u8>::empty());
    assert(after_removal(s0, offset as int, 0) =~= s0);
    let back = history_step(undone.step_state(), undone.digits(), rt);
    assert(back.0.0 =~= s);
    assert(seq![rt].drop_last() =~= Seq::<TaskView>::empty());
}

/// An undo right after a removal puts the removed bytes back and leaves the
/// earlier history as it was, and a redo right after that takes them out
/// again; so it is where the removal is an entry of its own (not merged into
/// the entry before it) and more than `UNDO_GROUP_NANOS` later than that
/// entry.
pub proof fn undo_takes_back_removal(
    before: Editor,
    offset: usize,
    length: usize,
    edited: Editor,
    removed: Seq<u8>,
    undone: Editor,
    undo_result: Result<usize, SbyteError>,
    redone: Editor,
    redo_result: Result<usize, SbyteError>,
)
    requires
        edited.undo_tasks().len() == before.undo_tasks().len() + 1,
        before.undo_tasks().len() > 0 ==> time_gap(edited.undo_tasks().last().3, before.undo_tasks().last().3)
            > UNDO_GROUP_NANOS,
        removed == taken(before.content(), offset as int, length as int),
        edited.content() == after_removal(before.content(), offset as int, length as int),
        before.records(&edited, offset, 0, removed),
        edited.undone_as(&undone, undo_result),
        undone.redone_as(&redone, redo_result),
    ensures
        undo_result == Ok::<usize, SbyteError>(1),
        undone.content() == before.content(),
        undone.undo_tasks() == before.undo_tasks(),
        redo_result == Ok::<usize, SbyteError>(1),
        redone.content() == edited.content(),
{
    let s0 = before.content();
    let s = edited.content();
    let now = edited.undo_tasks().last().3;
    let t: TaskView = (offset, 0usize, removed, now);
    assert(edited.undo_tasks() =~= before.undo_tasks().push(t));
    assert(taken(s, offset as int, 0) =~= Seq::<u8>::empty());
    assert(after_removal(s, offset as int, 0) =~= s);
    if (offset as int) < s0.len() {
        insertion_undoes_removal(s0, offset as int, length as int);
        let k = removed_count(s0.len() as int, offset as int, length as int);
        assert(offset <= s.len());
    } else {
        assert(removed =~= Seq::<u8>::empty());
    }
    let step = history_step(edited.step_state(), edited.digits(), t);
    assert(step.0.0 == s0);
    let rt: TaskView = (offset, removed.len() as usize, Seq::<u8>::empty(), now);
    assert(step.1 == Ok::<TaskView, SbyteError>(rt));
    reveal_with_fuel(run_history, 2);
    assert(before.undo_tasks().push(t).drop_last() =~= before.undo_tasks());
    assert(undone.redo_tasks() =~= seq![rt]);
    if (offset as int) < s0.len() {
        removal_undoes_insertion(s, offset as int, removed);
        let k = removed_count(s0.len() as int, offset as int, length as int);
        assert(taken(s0, offset as int, removed.len() as int) =~= removed);
        assert(after_removal(s0, offset as int, removed.len() as int) =~= s);
    } else {
        assert(after_removal(s0, offset as int, 0) =~= s0);
        assert(taken(s0, offset as int, 0) =~= Seq::<u8>::empty());
    }
    let back = history_step(undone.step_state(), undone.digits(), rt);
    assert(back.0.0 =~= s);
    assert(seq![rt].drop_last() =~= Seq::<TaskView>::empty());
}


/// Masking the same bytes twice with the same mask by exclusive or gives
/// the content back.
pub proof fn xor_masking_twice_restores(s: Seq<u8>, offset: int, mask: Seq<u8>)
    requires
        0 <= offset <= s.len(),
    ensures
        masked(masked(s, offset, mask, BitMask::Xor), offset, mask, BitMask::Xor) == s,
{
    let t = masked(s, offset, mask, BitMask::Xor);
    let k = removed_count(s.len() as int, offset, mask.len() as int);
    assert(t.len() == s.len());
    let k2 = removed_count(t.len() as int, offset, mask.len() as int);
    assert(k2 == k);
    let u = masked(t, offset, mask, BitMask::Xor);
    assert forall|i: int| 0 <= i < s.len() implies u[i] == s[i] by {
        if offset <= i < offset + k {
            xor_mask_is_its_own_inverse(s[i], mask[i - offset]);
        }
    }
    assert(u =~= s);
}

/// Cycling the numeric view three times comes back to where it started.
pub proof fn formatters_cycle_in_three(f: FormatterRef)
    ensures
        next_formatter(next_formatter(next_formatter(f))) == f,
{
}

/// No word the splitter gives is empty.
pub proof fn split_words_are_never_empty(s: Seq<char>)
    ensures
        forall|i: int| 0 <= i < split_words(s).len() ==> #[trigger] split_words(s)[i].len() > 0,
{
    lemma_words_nonempty(s, s.len());
}

proof fn lemma_words_nonempty(s: Seq<char>, n: nat)
    ensures
        forall|i: int| 0 <= i < words_after(s, n).0.len() ==> #[trigger] words_after(s, n).0[i].len() > 0,
    decreases n,
{
    if n > 0 && n <= s.len() {
        lemma_words_nonempty(s, (n - 1) as nat);
        let st: WordState = words_after(s, (n - 1) as nat);
        let next = word_step(st, s[n - 1]);
        assert forall|i: int| 0 <= i < next.0.len() implies #[trigger] next.0[i].len() > 0 by {
            if i < st.0.len() {
                assert(next.0[i] == st.0[i]);
            }
        }
    }
}

/// The bytes a number argument becomes read back, big-endian, as the
/// number.
pub proof fn number_bytes_read_back(n: nat)
    ensures
        big_endian_value(big_endian_bytes(n)) == n,
    decreases n,
{
    if n > 0 {
        number_bytes_read_back(n / 256);
        let b = big_endian_bytes(n);
        assert(b.drop_last() =~= big_endian_bytes(n / 256));
        assert(b.last() == (n % 256) as u8);
    }
}


/// Whether redo, from `st` with `latest` the stamp of the entry it carried
/// out last, carries out every entry of `top` (the last first): each within
/// `UNDO_GROUP_NANOS` of the one before and each without error.
pub open spec fn redoes_all(st: StepState, digits: int, top: Seq<TaskView>, latest: Option<u64>) -> bool
    decreases top.len(),
{
    if top.len() == 0 {
        true
    } else {
        let t = top.last();
        let in_group = match latest {
            None => true,
            Some(then) => time_gap(t.3, then) <= UNDO_GROUP_NANOS,
        };
        let step = history_step(st, digits, t);
        &&& in_group
        &&& step.1 is Ok
        &&& redoes_all(step.0, digits, top.drop_last(), Some(t.3))
    }
}

/// The state once redo has carried out every entry of `top`.
pub open spec fn redone_state(st: StepState, digits: int, top: Seq<TaskView>) -> StepState
    decreases top.len(),
{
    if top.len() == 0 {
        st
    } else {
        redone_state(history_step(st, digits, top.last()).0, digits, top.drop_last())
    }
}

/// A history entry's content and result depend on the content alone.
proof fn lemma_step_reads_content(a: StepState, b: StepState, da: int, db: int, t: TaskView)
    requires
        a.0 == b.0,
    ensures
        history_step(a, da, t).0.0 == history_step(b, db, t).0.0,
        history_step(a, da, t).1 == history_step(b, db, t).1,
{
}

/// So does whether redo carries out a run of entries, and the content it
/// leaves.
proof fn lemma_redo_reads_content(a: StepState, b: StepState, digits: int, top: Seq<TaskView>, latest: Option<u64>)
    requires
        a.0 == b.0,
    ensures
        redoes_all(a, digits, top, latest) == redoes_all(b, digits, top, latest),
        redone_state(a, digits, top).0 == redone_state(b, digits, top).0,
    decreases top.len(),
{
    if top.len() > 0 {
        let t = top.last();
        lemma_step_reads_content(a, b, digits, digits, t);
        lemma_redo_reads_content(
            history_step(a, digits, t).0,
            history_step(b, digits, t).0,
            digits,
            top.drop_last(),
            Some(t.3),
        );
    }
}

/// Redo carries out `below + above` by carrying out `above` and then
/// `below`, the latter from the stamp of the first entry of `above`.
proof fn lemma_redo_split(st: StepState, digits: int, below: Seq<TaskView>, above: Seq<TaskView>, latest: Option<u64>)
    ensures
        ({
            let mid = redone_state(st, digits, above);
            let after = if above.len() > 0 { Some(above[0].3) } else { latest };
            &&& redoes_all(st, digits, below + above, latest) == (redoes_all(st, digits, above, latest)
                && redoes_all(mid, digits, below, after))
            &&& redone_state(st, digits, below + above) == redone_state(mid, digits, below)
        }),
    decreases above.len(),
{
    if above.len() > 0 {
        let t = above.last();
        let st1 = history_step(st, digits, t).0;
        assert((below + above).last() == t);
        assert((below + above).drop_last() =~= below + above.drop_last());
        lemma_redo_split(st1, digits, below, above.drop_last(), Some(t.3));
        if above.len() == 1 {
            assert(above.drop_last() =~= Seq::<TaskView>::empty());
            assert(above[0] == t);
        } else {
            assert(above.drop_last()[0] == above[0]);
        }
    } else {
        assert(below + above =~= below);
    }
}

/// The entry a history step gives back, carried out on what the step left,
/// restores the content the step started from, without error.
proof fn lemma_step_reverts(st: StepState, digits: int, t: TaskView, x: StepState, dx: int)
    requires
        t.2.len() <= usize::MAX,
        history_step(st, digits, t).1 is Ok,
        x.0 == history_step(st, digits, t).0.0,
    ensures
        ({
            let r = history_step(st, digits, t).1->Ok_0;
            &&& history_step(x, dx, r).1 is Ok
            &&& history_step(x, dx, r).0.0 == st.0
            &&& r.3 == t.3
        }),
{
    let s = st.0;
    let o = t.0 as int;
    let removed = taken(s, o, t.1 as int);
    let s1 = after_removal(s, o, t.1 as int);
    let r = history_step(st, digits, t).1->Ok_0;
    assert(r == (t.0, t.2.len() as usize, removed, t.3));
    let s2 = x.0;
    // Taking out the bytes the step put in leaves `s1`.
    let s3 = after_removal(s2, o, t.2.len() as int);
    if t.2.len() > 0 {
        assert(o <= s1.len());
        assert(s2 == with_inserted(s1, o, t.2));
        removal_undoes_insertion(s1, o, t.2);
        assert(s3 =~= s1);
    } else {
        assert(s2 == s1);
        if o < s1.len() {
            assert(without_range(s1, o, 0) =~= s1);
        }
        assert(s3 =~= s1);
    }
    // Putting back the bytes the step took out gives `s`.
    if removed.len() > 0 {
        assert(o < s.len());
        let k = removed_count(s.len() as int, o, t.1 as int);
        insertion_undoes_removal(s, o, t.1 as int);
        assert(s1 == without_range(s, o, k));
        assert(removed == s.subrange(o, o + k));
        assert(s1.len() >= o);
        assert(!(removed.len() > 0 && r.0 > s3.len()));
        assert(with_inserted(s3, o, removed) == s);
    } else {
        if o < s.len() {
            let k = removed_count(s.len() as int, o, t.1 as int);
            assert(k == 0);
            assert(without_range(s, o, 0) =~= s);
        }
        assert(s1 == s);
    }
    assert(history_step(x, dx, r).1 is Ok);
    assert(history_step(x, dx, r).0.0 == st.0);
}

/// What an undo run leaves to redo: the entries it pushed (on top of
/// `dest`) are carried out, every one, by a redo from where the undo
/// stopped, and that redo ends on the content the undo started from. The
/// first of them carries the stamp of the first entry undone, which lies
/// within the window of `latest`.
proof fn lemma_undo_leaves_redoable(
    st: StepState,
    digits: int,
    source: Seq<TaskView>,
    dest: Seq<TaskView>,
    latest: Option<u64>,
    count: nat,
)
    requires
        run_history(st, digits, source, dest, latest, count, false).3 is Ok,
        forall|i: int| 0 <= i < source.len() ==> (#[trigger] source[i]).2.len() <= usize::MAX,
    ensures
        ({
            let out = run_history(st, digits, source, dest, latest, count, false);
            let pushed = out.2.subrange(dest.len() as int, out.2.len() as int);
            &&& out.2.len() >= dest.len()
            &&& out.2.subrange(0, dest.len() as int) == dest
            &&& out.3 == Ok::<usize, SbyteError>((count + pushed.len()) as usize)
            &&& count + pushed.len() > 0
            &&& redoes_all(out.0, digits, pushed, None)
            &&& redone_state(out.0, digits, pushed).0 == st.0
            &&& pushed.len() > 0 ==> source.len() > 0 && pushed[0].3 == source.last().3 && match latest {
                None => true,
                Some(then) => time_gap(then, source.last().3) <= UNDO_GROUP_NANOS,
            }
        }),
    decreases source.len(),
{
    let out = run_history(st, digits, source, dest, latest, count, false);
    if source.len() == 0 {
        assert(out.2.subrange(dest.len() as int, out.2.len() as int) =~= Seq::<TaskView>::empty());
        assert(out.2.subrange(0, dest.len() as int) =~= dest);
    } else {
        let t = source.last();
        let in_group = match latest {
            None => true,
            Some(then) => time_gap(then, t.3) <= UNDO_GROUP_NANOS,
        };
        if !in_group {
            assert(out.2.subrange(dest.len() as int, out.2.len() as int) =~= Seq::<TaskView>::empty());
            assert(out.2.subrange(0, dest.len() as int) =~= dest);
        } else {
            let step = history_step(st, digits, t);
            let r = step.1->Ok_0;
            let dest1 = dest.push(r);
            assert forall|i: int| 0 <= i < source.drop_last().len() implies (#[trigger] source.drop_last()[i]).2.len()
                <= usize::MAX by {
                assert(source.drop_last()[i] == source[i]);
            }
            lemma_undo_leaves_redoable(step.0, digits, source.drop_last(), dest1, Some(t.3), count + 1);
            let inner = out.2.subrange(dest1.len() as int, out.2.len() as int);
            let pushed = out.2.subrange(dest.len() as int, out.2.len() as int);
            assert(out.2.subrange(0, dest1.len() as int) == dest1);
            assert(out.2[dest.len() as int] == r) by {
                assert(out.2.subrange(0, dest1.len() as int)[dest.len() as int] == dest1[dest.len() as int]);
            }
            assert(out.2.subrange(0, dest.len() as int) =~= dest1.subrange(0, dest.len() as int));
            assert(out.2.subrange(0, dest.len() as int) =~= dest);
            assert(pushed =~= seq![r] + inner);
            // Redo carries out the inner entries first, ending on what this
            // step left, then this step's entry.
            lemma_redo_split(out.0, digits, seq![r], inner, None);
            let mid = redone_state(out.0, digits, inner);
            assert(mid.0 == step.0.0);
            let after = if inner.len() > 0 { Some(inner[0].3) } else { None::<u64> };
            lemma_step_reverts(st, digits, t, mid, digits);
            assert(seq![r].last() == r);
            assert(seq![r].drop_last() =~= Seq::<TaskView>::empty());
            assert(redoes_all(history_step(mid, digits, r).0, digits, Seq::<TaskView>::empty(), Some(r.3)));
            assert(redoes_all(mid, digits, seq![r], after));
            assert(redone_state(history_step(mid, digits, r).0, digits, Seq::<TaskView>::empty()) == history_step(
                mid,
                digits,
                r,
            ).0);
            assert(redone_state(mid, digits, seq![r]) == history_step(mid, digits, r).0);
        }
    }
}

/// A redo right after an undo puts back every edit the undo took back and
/// gives the content as it was before the undo, counting as many entries;
/// so it is whenever there was nothing to redo before the undo (with
/// entries waiting to be redone, the redo may go on into them).
pub proof fn redo_takes_back_undo(
    editor: Editor,
    undone: Editor,
    undo_result: Result<usize, SbyteError>,
    redone: Editor,
    redo_result: Result<usize, SbyteError>,
)
    requires
        forall|i: int| 0 <= i < editor.undo_tasks().len() ==> (#[trigger] editor.undo_tasks()[i]).2.len() <= usize::MAX,
        editor.redo_tasks().len() == 0,
        editor.undone_as(&undone, undo_result),
        undo_result is Ok,
        undone.redone_as(&redone, redo_result),
    ensures
        redone.content() == editor.content(),
        redo_result == undo_result,
{
    let d = editor.digits();
    let out = run_history(editor.step_state(), d, editor.undo_tasks(), editor.redo_tasks(), None, 0, false);
    lemma_undo_leaves_redoable(editor.step_state(), d, editor.undo_tasks(), editor.redo_tasks(), None, 0);
    let pushed = out.2.subrange(0, out.2.len() as int);
    assert(pushed =~= undone.redo_tasks());
    lemma_redo_reads_content(out.0, undone.step_state(), d, pushed, None);
    lemma_redo_runs(undone.step_state(), undone.digits(), undone.redo_tasks(), undone.undo_tasks(), 0);
}

/// A redo that can carry out every waiting entry does so, and ends where
/// `redone_state` says, counting them all.
proof fn lemma_redo_runs(st: StepState, digits: int, source: Seq<TaskView>, dest: Seq<TaskView>, count: nat)
    requires
        redoes_all(st, digits, source, None),
    ensures
        ({
            let out = run_history(st, digits, source, dest, None, count, true);
            &&& out.0 == redone_state(st, digits, source)
            &&& out.3 == if count + source.len() > 0 {
                Ok::<usize, SbyteError>((count + source.len()) as usize)
            } else {
                Err::<usize, SbyteError>(SbyteError::EmptyStack)
            }
        }),
{
    lemma_redo_runs_from(st, digits, source, dest, None, count);
}

proof fn lemma_redo_runs_from(
    st: StepState,
    digits: int,
    source: Seq<TaskView>,
    dest: Seq<TaskView>,
    latest: Option<u64>,
    count: nat,
)
    requires
        redoes_all(st, digits, source, latest),
    ensures
        ({
            let out = run_history(st, digits, source, dest, latest, count, true);
            &&& out.0 == redone_state(st, digits, source)
            &&& out.3 == if count + source.len() > 0 {
                Ok::<usize, SbyteError>((count + source.len()) as usize)
            } else {
                Err::<usize, SbyteError>(SbyteError::EmptyStack)
            }
        }),
    decreases source.len(),
{
    if source.len() > 0 {
        let t = source.last();
        let step = history_step(st, digits, t);
        lemma_redo_runs_from(step.0, digits, source.drop_last(), dest.push(step.1->Ok_0), Some(t.3), count + 1);
    }
}


/// `after` is `before` with the `old` bytes at `offset` replaced by `count`
/// new bytes, which is what every edit the editor records does with the
/// entry `(offset, count, old)` it records (an edit past the end records an
/// entry that changes nothing).
pub open spec fn replaces(before: Seq<u8>, after: Seq<u8>, offset: int, count: int, old: Seq<u8>) -> bool {
    ||| (count == 0 && old.len() == 0 && after == before)
    ||| {
        &&& 0 <= offset
        &&& offset + old.len() <= before.len()
        &&& offset + count <= after.len()
        &&& before.subrange(0, offset) == after.subrange(0, offset)
        &&& before.subrange(offset, offset + old.len()) == old
        &&& before.subrange(offset + old.len(), before.len() as int) == after.subrange(
            offset + count,
            after.len() as int,
        )
    }
}

/// An insertion replaces nothing at its offset by the bytes put in.
pub proof fn insertion_replaces(s: Seq<u8>, offset: int, bytes: Seq<u8>)
    requires
        0 <= offset <= s.len(),
    ensures
        replaces(s, with_inserted(s, offset, bytes), offset, bytes.len() as int, Seq::empty()),
{
    let t = with_inserted(s, offset, bytes);
    assert(s.subrange(0, offset) =~= t.subrange(0, offset));
    assert(s.subrange(offset, offset) =~= Seq::<u8>::empty());
    assert(s.subrange(offset, s.len() as int) =~= t.subrange(offset + bytes.len(), t.len() as int));
}

/// A removal replaces the bytes it takes out by nothing.
pub proof fn removal_replaces(s: Seq<u8>, offset: int, length: int)
    requires
        0 <= offset,
        length >= 0,
    ensures
        replaces(s, after_removal(s, offset, length), offset, 0, taken(s, offset, length)),
{
    if offset < s.len() {
        let k = removed_count(s.len() as int, offset, length);
        let t = after_removal(s, offset, length);
        assert(s.subrange(0, offset) =~= t.subrange(0, offset));
        assert(s.subrange(offset + k, s.len() as int) =~= t.subrange(offset, t.len() as int));
    }
}

/// An overwrite replaces the bytes it covers by the bytes written.
pub proof fn overwrite_replaces(s: Seq<u8>, offset: int, bytes: Seq<u8>)
    requires
        0 <= offset <= s.len(),
    ensures
        ({
            let k = removed_count(s.len() as int, offset, bytes.len() as int);
            replaces(
                s,
                with_inserted(without_range(s, offset, k), offset, bytes),
                offset,
                bytes.len() as int,
                s.subrange(offset, offset + k),
            )
        }),
{
    let k = removed_count(s.len() as int, offset, bytes.len() as int);
    let t = with_inserted(without_range(s, offset, k), offset, bytes);
    assert(s.subrange(0, offset) =~= t.subrange(0, offset));
    assert(s.subrange(offset + k, s.len() as int) =~= t.subrange(offset + bytes.len(), t.len() as int));
}

/// The content that carrying out history entry `t` on content `c` leaves,
/// and whether it succeeds.
pub open spec fn revert(c: Seq<u8>, t: TaskView) -> (Seq<u8>, bool) {
    let step = history_step((c, ((0, 1), (0, 1), (0, 1, 1)), Set::empty()), 2, t);
    (step.0.0, step.1 is Ok)
}

/// Whether carrying out the entries `g` (the last first) from content `c`
/// succeeds for every one.
pub open spec fn reverts_all(c: Seq<u8>, g: Seq<TaskView>) -> bool
    decreases g.len(),
{
    if g.len() == 0 {
        true
    } else {
        revert(c, g.last()).1 && reverts_all(revert(c, g.last()).0, g.drop_last())
    }
}

/// The content that carrying out the entries `g` (the last first) from
/// content `c` leaves.
pub open spec fn reverted(c: Seq<u8>, g: Seq<TaskView>) -> Seq<u8>
    decreases g.len(),
{
    if g.len() == 0 {
        c
    } else {
        reverted(revert(c, g.last()).0, g.drop_last())
    }
}

/// The entry an edit records takes the edit back.
proof fn lemma_entry_reverts(before: Seq<u8>, after: Seq<u8>, t: TaskView)
    requires
        replaces(before, after, t.0 as int, t.1 as int, t.2),
    ensures
        revert(after, t).1,
        revert(after, t).0 == before,
{
    let o = t.0 as int;
    let n = t.1 as int;
    if n == 0 && t.2.len() == 0 && after == before {
        if o < after.len() {
            assert(without_range(after, o, 0) =~= after);
        }
    } else {
        let k = removed_count(after.len() as int, o, n);
        let s1 = after_removal(after, o, n);
        if o < after.len() {
            assert(k == n);
            assert(s1 =~= before.subrange(0, o) + before.subrange(o + t.2.len(), before.len() as int));
        } else {
            assert(n == 0);
            assert(s1 == after);
            assert(after =~= before.subrange(0, o) + before.subrange(o + t.2.len(), before.len() as int));
        }
        if t.2.len() > 0 {
            assert(with_inserted(s1, o, t.2) =~= before);
        } else {
            assert(s1 =~= before);
        }
    }
}

/// Two entries the history merges into one: the merged entry replaces
/// what both edits together did.
proof fn lemma_merged_replaces(
    d: Seq<u8>,
    c: Seq<u8>,
    e: Seq<u8>,
    top: TaskView,
    offset: usize,
    remove: usize,
    insert: Seq<u8>,
)
    requires
        replaces(d, c, top.0 as int, top.1 as int, top.2),
        replaces(c, e, offset as int, remove as int, insert),
    ensures
        is_insert_task(remove, insert) && is_insert_task(top.1, top.2) && top.0 == offset + insert.len() ==> replaces(
            d,
            e,
            offset as int,
            top.1 as int,
            insert + top.2,
        ),
        !(is_insert_task(remove, insert) && is_insert_task(top.1, top.2) && top.0 == offset + insert.len())
            && is_insert_task(remove, insert) && is_insert_task(top.1, top.2) && top.0 == offset ==> replaces(
            d,
            e,
            top.0 as int,
            top.1 as int,
            top.2 + insert,
        ),
        is_remove_task(remove, insert) && is_remove_task(top.1, top.2) && top.0 + top.1 == offset ==> replaces(
            d,
            e,
            top.0 as int,
            top.1 + remove,
            top.2,
        ),
{
    let o1 = top.0 as int;
    let o2 = offset as int;
    if is_insert_task(remove, insert) && is_insert_task(top.1, top.2) && top.0 == offset + insert.len() {
        let m = insert + top.2;
        assert(d.subrange(0, o2) =~= c.subrange(0, o2));
        assert(d.subrange(0, o2) =~= e.subrange(0, o2));
        assert(d.subrange(o2, o2 + m.len()) =~= m) by {
            assert(c.subrange(o2, o1) =~= insert);
            assert forall|i: int| 0 <= i < m.len() implies d.subrange(o2, o2 + m.len())[i] == m[i] by {
                if i < insert.len() {
                    assert(d.subrange(0, o1)[o2 + i] == c.subrange(0, o1)[o2 + i]);
                } else {
                    assert(d.subrange(o1, o1 + top.2.len())[i - insert.len()] == top.2[i - insert.len()]);
                }
            }
        }
        assert(d.subrange(o2 + m.len(), d.len() as int) =~= e.subrange(o2, e.len() as int)) by {
            assert(d.subrange(o1 + top.2.len(), d.len() as int) =~= c.subrange(o1, c.len() as int));
            assert(c.subrange(o2 + insert.len(), c.len() as int) =~= e.subrange(o2, e.len() as int));
        }
    } else if is_insert_task(remove, insert) && is_insert_task(top.1, top.2) && top.0 == offset {
        let m = top.2 + insert;
        assert(d.subrange(o1 + top.2.len(), d.len() as int).len() == c.subrange(o1, c.len() as int).len());
        assert(c.len() == d.len() - top.2.len());
        assert(o1 + insert.len() <= c.len());
        assert(c.subrange(o1 + insert.len(), c.len() as int).len() == e.subrange(o1, e.len() as int).len());
        assert(e.len() == c.len() - insert.len());
        assert(d.subrange(0, o1) =~= e.subrange(0, o1));
        assert(d.subrange(o1, o1 + m.len()) =~= m) by {
            assert forall|i: int| 0 <= i < m.len() implies d.subrange(o1, o1 + m.len())[i] == m[i] by {
                if i < top.2.len() {
                    assert(d.subrange(o1, o1 + top.2.len())[i] == top.2[i]);
                } else {
                    assert(d.subrange(o1 + top.2.len(), d.len() as int)[i - top.2.len()] == c.subrange(
                        o1,
                        c.len() as int,
                    )[i - top.2.len()]);
                    assert(c.subrange(o1, o1 + insert.len())[i - top.2.len()] == insert[i - top.2.len()]);
                }
            }
        }
        assert(d.subrange(o1 + m.len(), d.len() as int) =~= e.subrange(o1, e.len() as int)) by {
            assert forall|i: int| 0 <= i < e.len() - o1 implies d.subrange(o1 + m.len(), d.len() as int)[i]
                == e.subrange(o1, e.len() as int)[i] by {
                assert(d.subrange(o1 + top.2.len(), d.len() as int)[insert.len() + i] == c.subrange(
                    o1,
                    c.len() as int,
                )[insert.len() + i]);
                assert(c.subrange(o1 + insert.len(), c.len() as int)[i] == e.subrange(o1, e.len() as int)[i]);
            }
        }
    }
    if is_remove_task(remove, insert) && is_remove_task(top.1, top.2) && top.0 + top.1 == offset {
        let n = top.1 + remove;
        assert(d.subrange(0, o1) =~= e.subrange(0, o1)) by {
            assert forall|i: int| 0 <= i < o1 implies d.subrange(0, o1)[i] == e.subrange(0, o1)[i] by {
                assert(d.subrange(0, o1)[i] == c.subrange(0, o1)[i]);
                assert(c.subrange(0, o2)[i] == e.subrange(0, o2)[i]);
            }
        }
        assert(d.subrange(o1, o1) =~= top.2);
        assert(d.subrange(o1, d.len() as int) =~= e.subrange(o1 + n, e.len() as int)) by {
            assert forall|i: int| 0 <= i < d.len() - o1 implies d.subrange(o1, d.len() as int)[i] == e.subrange(
                o1 + n,
                e.len() as int,
            )[i] by {
                assert(d.subrange(o1, d.len() as int)[i] == c.subrange(o1 + top.1, c.len() as int)[i]);
                assert(c.subrange(o2, c.len() as int)[i] == e.subrange(o2 + remove, e.len() as int)[i]);
            }
        }
    }
}



/// An undo run over the entries `g` that lie on top of `base`, all within
/// `UNDO_GROUP_NANOS` of each other and each more than that later than the
/// top of `base`, carries out every one of them and stops at `base`.
proof fn lemma_undo_runs_group(
    st: StepState,
    digits: int,
    base: Seq<TaskView>,
    g: Seq<TaskView>,
    dest: Seq<TaskView>,
    latest: Option<u64>,
    count: nat,
    lo: u64,
    hi: u64,
)
    requires
        reverts_all(st.0, g),
        lo <= hi,
        hi - lo <= UNDO_GROUP_NANOS,
        forall|j: int| 0 <= j < g.len() ==> lo <= (#[trigger] g[j]).3 <= hi,
        forall|i: int, j: int| 0 <= i < j < g.len() ==> (#[trigger] g[i]).3 <= (#[trigger] g[j]).3,
        latest matches Some(v) ==> lo <= v <= hi && (g.len() > 0 ==> g.last().3 <= v),
        g.len() > 0 || latest is Some,
        base.len() > 0 ==> base.last().3 + UNDO_GROUP_NANOS < lo,
    ensures
        ({
            let out = run_history(st, digits, base + g, dest, latest, count, false);
            &&& out.0.0 == reverted(st.0, g)
            &&& out.1 == base
            &&& out.3 == if count + g.len() > 0 {
                Ok::<usize, SbyteError>((count + g.len()) as usize)
            } else {
                Err::<usize, SbyteError>(SbyteError::EmptyStack)
            }
        }),
    decreases g.len(),
{
    if g.len() > 0 {
        let t = g.last();
        assert((base + g).last() == t);
        assert((base + g).drop_last() =~= base + g.drop_last());
        let step = history_step(st, digits, t);
        lemma_step_reads_content(st, (st.0, ((0, 1), (0, 1), (0, 1, 1)), Set::empty()), digits, 2, t);
        let g1 = g.drop_last();
        assert forall|j: int| 0 <= j < g1.len() implies lo <= (#[trigger] g1[j]).3 <= hi by {
            assert(g1[j] == g[j]);
        }
        assert forall|i: int, j: int| 0 <= i < j < g1.len() implies (#[trigger] g1[i]).3 <= (#[trigger] g1[j]).3 by {
            assert(g1[i] == g[i] && g1[j] == g[j]);
        }
        if g1.len() > 0 {
            assert(g1.last() == g[g.len() - 2]);
            assert(g[g.len() - 2].3 <= g[g.len() - 1].3);
        }
        lemma_undo_runs_group(step.0, digits, base, g1, dest.push(step.1->Ok_0), Some(t.3), count + 1, lo, hi);
    } else {
        assert(base + g =~= base);
    }
}

/// The stamp the `i`-th edit of `edits` gave its entry.
pub open spec fn edit_stamp(edits: Seq<Editor>, i: int) -> u64 {
    edits[i + 1].undo_tasks().last().3
}

/// A history `h` that a burst of edits left on top of `h0`, taking the
/// content from `c0` to `c`: `h0` with the burst's entries on top; the top
/// entry replaces what the edits since it began did, the entries below it
/// take the content back to `c0`, and the entries' stamps rise within
/// `[lo, hi]`.
spec fn burst_history(h0: Seq<TaskView>, h: Seq<TaskView>, c0: Seq<u8>, c: Seq<u8>, lo: u64, hi: u64) -> bool {
    let g = h.subrange(h0.len() as int, h.len() as int);
    let top = g.last();
    let d = revert(c, top).0;
    &&& h.len() > h0.len()
    &&& h.subrange(0, h0.len() as int) == h0
    &&& replaces(d, c, top.0 as int, top.1 as int, top.2)
    &&& reverts_all(d, g.drop_last())
    &&& reverted(d, g.drop_last()) == c0
    &&& forall|j: int| 0 <= j < g.len() ==> lo <= (#[trigger] g[j]).3 <= hi
    &&& forall|a: int, b: int| 0 <= a < b < g.len() ==> (#[trigger] g[a]).3 <= (#[trigger] g[b]).3
}

/// The first edit of a burst opens its history.
proof fn lemma_burst_opens(h0: Seq<TaskView>, h: Seq<TaskView>, c0: Seq<u8>, c: Seq<u8>, o: usize, n: usize, ins: Seq<u8>, now: u64)
    requires
        h == pushed(h0, o, n, ins, now),
        h.len() == h0.len() + 1,
        replaces(c0, c, o as int, n as int, ins),
    ensures
        burst_history(h0, h, c0, c, now, now),
{
    let e: TaskView = (o, n, ins, now);
    assert(h =~= h0.push(e));
    let g = h.subrange(h0.len() as int, h.len() as int);
    assert(g =~= seq![e]);
    assert(h.subrange(0, h0.len() as int) =~= h0);
    lemma_entry_reverts(c0, c, e);
    assert(g.drop_last() =~= Seq::<TaskView>::empty());
}

/// A further edit of a burst, within its window, keeps its history a
/// burst's.
proof fn lemma_burst_extends(
    h0: Seq<TaskView>,
    hk: Seq<TaskView>,
    h: Seq<TaskView>,
    c0: Seq<u8>,
    ck: Seq<u8>,
    c: Seq<u8>,
    o: usize,
    n: usize,
    ins: Seq<u8>,
    now: u64,
    lo: u64,
    hi: u64,
)
    requires
        burst_history(h0, hk, c0, ck, lo, hi),
        h == pushed(hk, o, n, ins, now),
        replaces(ck, c, o as int, n as int, ins),
        c.len() <= usize::MAX,
        hi <= now,
    ensures
        burst_history(h0, h, c0, c, lo, now),
{
    let g = hk.subrange(h0.len() as int, hk.len() as int);
    let top = g.last();
    assert(top == hk.last());
    let d = revert(ck, top).0;
    lemma_merged_replaces(d, ck, c, top, o, n, ins);
    let merged_low = is_insert_task(n, ins) && is_insert_task(top.1, top.2) && top.0 == o + ins.len();
    let merged_high = is_insert_task(n, ins) && is_insert_task(top.1, top.2) && top.0 == o;
    let merged_run = is_remove_task(n, ins) && is_remove_task(top.1, top.2) && top.0 + top.1 == o;
    assert(h.subrange(0, h0.len() as int) =~= h0) by {
        assert(h.subrange(0, h0.len() as int) =~= hk.subrange(0, h0.len() as int));
    }
    if merged_low || merged_high || merged_run {
        let m: TaskView = if merged_low {
            (o, top.1, ins + top.2, now)
        } else if merged_high {
            (top.0, top.1, top.2 + ins, now)
        } else {
            (top.0, (top.1 + n) as usize, top.2, now)
        };
        assert(h =~= hk.drop_last().push(m));
        let g2 = h.subrange(h0.len() as int, h.len() as int);
        assert(g2 =~= g.drop_last().push(m));
        assert(replaces(d, c, m.0 as int, m.1 as int, m.2));
        lemma_entry_reverts(d, c, m);
        assert(g2.drop_last() =~= g.drop_last());
        assert forall|j: int| 0 <= j < g2.len() implies lo <= (#[trigger] g2[j]).3 <= now by {
            if j < g2.len() - 1 {
                assert(g2[j] == g[j]);
            }
        }
        assert forall|a: int, b: int| 0 <= a < b < g2.len() implies (#[trigger] g2[a]).3 <= (#[trigger] g2[b]).3 by {
            assert(g2[a] == g[a]);
            if b < g2.len() - 1 {
                assert(g2[b] == g[b]);
            }
        }
    } else {
        let e: TaskView = (o, n, ins, now);
        assert(h =~= hk.push(e));
        let g2 = h.subrange(h0.len() as int, h.len() as int);
        assert(g2 =~= g.push(e));
        lemma_entry_reverts(ck, c, e);
        lemma_entry_reverts(d, ck, top);
        assert(g2.drop_last() =~= g);
        assert(reverts_all(ck, g));
        assert(reverted(ck, g) == reverted(d, g.drop_last()));
        assert forall|j: int| 0 <= j < g2.len() implies lo <= (#[trigger] g2[j]).3 <= now by {
            if j < g2.len() - 1 {
                assert(g2[j] == g[j]);
            }
        }
        assert forall|a: int, b: int| 0 <= a < b < g2.len() implies (#[trigger] g2[a]).3 <= (#[trigger] g2[b]).3 by {
            assert(g2[a] == g[a]);
            if b < g2.len() - 1 {
                assert(g2[b] == g[b]);
            }
        }
    }
}

proof fn lemma_burst_state(edits: Seq<Editor>, changes: Seq<(usize, usize, Seq<u8>)>, i: int)
    requires
        1 <= i <= changes.len(),
        edits.len() == changes.len() + 1,
        forall|k: int| 0 <= k < edits.len() ==> (#[trigger] edits[k]).content().len() <= usize::MAX,
        forall|k: int|
            0 <= k < changes.len() ==> #[trigger] edits[k].records(
                &edits[k + 1],
                changes[k].0,
                changes[k].1,
                changes[k].2,
            ),
        forall|k: int|
            0 <= k < changes.len() ==> replaces(
                #[trigger] edits[k].content(),
                edits[k + 1].content(),
                changes[k].0 as int,
                changes[k].1 as int,
                changes[k].2,
            ),
        edits[1].undo_tasks().len() == edits[0].undo_tasks().len() + 1,
        forall|a: int, b: int| 0 <= a < b < changes.len() ==> edit_stamp(edits, a) <= edit_stamp(edits, b),
    ensures
        burst_history(
            edits[0].undo_tasks(),
            edits[i].undo_tasks(),
            edits[0].content(),
            edits[i].content(),
            edit_stamp(edits, 0),
            edit_stamp(edits, i - 1),
        ),
    decreases i,
{
    let k = i - 1;
    assert(edits[k].records(&edits[k + 1], changes[k].0, changes[k].1, changes[k].2));
    assert(replaces(edits[k].content(), edits[k + 1].content(), changes[k].0 as int, changes[k].1 as int, changes[k].2));
    let now = edit_stamp(edits, k);
    if i == 1 {
        lemma_burst_opens(
            edits[0].undo_tasks(),
            edits[1].undo_tasks(),
            edits[0].content(),
            edits[1].content(),
            changes[0].0,
            changes[0].1,
            changes[0].2,
            now,
        );
    } else {
        lemma_burst_state(edits, changes, k);
        assert(edit_stamp(edits, k - 1) <= now);
        assert(edits[i].content().len() <= usize::MAX);
        lemma_burst_extends(
            edits[0].undo_tasks(),
            edits[k].undo_tasks(),
            edits[i].undo_tasks(),
            edits[0].content(),
            edits[k].content(),
            edits[i].content(),
            changes[k].0,
            changes[k].1,
            changes[k].2,
            now,
            edit_stamp(edits, 0),
            edit_stamp(edits, k - 1),
        );
    }
}

/// An undo right after a burst of edits takes every one of them back and
/// leaves the history as it was before the burst. A burst is a run of
/// edits (as the editor records them: each replaces some bytes by others
/// and records the entry that reverts it) whose stamps rise and stay within
/// `UNDO_GROUP_NANOS` of the first, the first opening an entry of its own
/// more than `UNDO_GROUP_NANOS` after the entry before it. (Edits that
/// merge into one entry take that entry's stamp forward, which is why the
/// whole burst has to fit the window.)
pub proof fn undo_takes_back_a_burst(
    edits: Seq<Editor>,
    changes: Seq<(usize, usize, Seq<u8>)>,
    undone: Editor,
    undo_result: Result<usize, SbyteError>,
)
    requires
        changes.len() >= 1,
        edits.len() == changes.len() + 1,
        forall|k: int| 0 <= k < edits.len() ==> (#[trigger] edits[k]).content().len() <= usize::MAX,
        forall|k: int|
            0 <= k < changes.len() ==> #[trigger] edits[k].records(
                &edits[k + 1],
                changes[k].0,
                changes[k].1,
                changes[k].2,
            ),
        forall|k: int|
            0 <= k < changes.len() ==> replaces(
                #[trigger] edits[k].content(),
                edits[k + 1].content(),
                changes[k].0 as int,
                changes[k].1 as int,
                changes[k].2,
            ),
        edits[1].undo_tasks().len() == edits[0].undo_tasks().len() + 1,
        forall|a: int, b: int| 0 <= a < b < changes.len() ==> edit_stamp(edits, a) <= edit_stamp(edits, b),
        edit_stamp(edits, changes.len() - 1) - edit_stamp(edits, 0) <= UNDO_GROUP_NANOS,
        edits[0].undo_tasks().len() > 0 ==> edits[0].undo_tasks().last().3 + UNDO_GROUP_NANOS < edit_stamp(
            edits,
            0,
        ),
        edits.last().undone_as(&undone, undo_result),
    ensures
        undone.content() == edits[0].content(),
        undone.undo_tasks() == edits[0].undo_tasks(),
        undo_result is Ok,
{
    let k = changes.len() as int;
    lemma_burst_state(edits, changes, k);
    let last = edits[k];
    assert(last == edits.last());
    let h0 = edits[0].undo_tasks();
    let h = last.undo_tasks();
    let g = h.subrange(h0.len() as int, h.len() as int);
    assert(h =~= h0 + g) by {
        assert(h.subrange(0, h0.len() as int) == h0);
    }
    let top = g.last();
    let d = revert(last.content(), top).0;
    lemma_entry_reverts(d, last.content(), top);
    assert(reverts_all(last.content(), g));
    assert(reverted(last.content(), g) == edits[0].content());
    let lo = edit_stamp(edits, 0);
    let hi = edit_stamp(edits, k - 1);
    if k > 1 {
        assert(lo <= hi);
    }
    lemma_undo_runs_group(
        last.step_state(),
        last.digits(),
        h0,
        g,
        last.redo_tasks(),
        None,
        0,
        lo,
        hi,
    );
}


/// The digit character for `d` (`0-9`, then `A-Z`).
pub open spec fn digit_char(d: nat) -> char {
    if d < 10 { (48 + d) as char } else { (55 + d) as char }
}

/// `n` written in base `radix`, most significant digit first, with no
/// leading zeros (`0` is written `0`): what `{}`, `{:X}` and `{:b}` give.
pub open spec fn rendered(n: nat, radix: nat) -> Seq<char>
    decreases n,
{
    if radix < 2 || n < radix {
        seq![digit_char(n)]
    } else {
        proof {
            assert(n / radix < n) by (nonlinear_arith)
                requires
                    radix >= 2,
                    n >= radix,
            ;
        }
        rendered(n / radix, radix).push(digit_char(n % radix))
    }
}

/// The marker a number argument in base `radix` starts with: `\x` for 16,
/// `\b` for 2, none for 10 (or, with `decimal_marker`, `\d`).
pub open spec fn radix_marker(radix: u32, decimal_marker: bool) -> Seq<char> {
    if radix == 16 {
        seq!['\\', 'x']
    } else if radix == 2 {
        seq!['\\', 'b']
    } else if decimal_marker {
        seq!['\\', 'd']
    } else {
        Seq::empty()
    }
}

proof fn lemma_rendered_reads(n: nat, radix: u32)
    requires
        radix == 2 || radix == 10 || radix == 16,
    ensures
        rendered(n, radix as nat).len() >= 1,
        parses_in(rendered(n, radix as nat), radix),
        radix_digits(rendered(n, radix as nat)) == rendered(n, radix as nat),
        digits_number(rendered(n, radix as nat), radix) == n,
        forall|i: int| 0 <= i < rendered(n, radix as nat).len() ==> 48 <= #[trigger] (rendered(n, radix as nat)[i] as u32) < 91,
    decreases n,
{
    let r = rendered(n, radix as nat);
    if n < radix {
        assert(r == seq![digit_char(n)]);
        assert(char_digit(digit_char(n), radix) == Some(n as u32));
        assert(r.drop_last() =~= Seq::<char>::empty());
        assert(r.last() == digit_char(n));
        assert(digits_number(r.drop_last(), radix) == 0);
        assert(0 * (radix as nat) == 0) by (nonlinear_arith);
        assert(digits_number(r, radix) == digits_number(r.drop_last(), radix) * (radix as nat) + n);
    } else {
        let q = n / (radix as nat);
        let m = n % (radix as nat);
        assert(q < n) by (nonlinear_arith)
            requires
                radix >= 2,
                n >= radix,
                q == n / (radix as nat),
        ;
        lemma_rendered_reads(q, radix);
        let p = rendered(q, radix as nat);
        assert(r == p.push(digit_char(m)));
        assert(r.drop_last() =~= p);
        assert(m < radix) by (nonlinear_arith)
            requires
                radix >= 2,
                m == n % (radix as nat),
        ;
        assert(char_digit(digit_char(m), radix) == Some(m as u32));
        vstd::arithmetic::div_mod::lemma_fundamental_div_mod(n as int, radix as int);
        assert(r.last() == digit_char(m));
        assert(digits_number(r, radix) == digits_number(p, radix) * (radix as nat) + m);
        assert(q * (radix as nat) == (radix as int) * (n as int / radix as int)) by (nonlinear_arith)
            requires
                q == n / (radix as nat),
                radix >= 2,
        ;
        assert forall|i: int| 0 <= i < r.len() implies char_digit(#[trigger] r[i], radix) is Some by {
            if i < p.len() {
                assert(r[i] == p[i]);
            }
        }
        assert forall|i: int| 0 <= i < r.len() implies 48 <= #[trigger] (r[i] as u32) < 91 by {
            if i < p.len() {
                assert(r[i] == p[i]);
            }
        }
    }
}

/// An ASCII character is encoded as its own byte.
proof fn lemma_encode_ascii(c: char)
    requires
        (c as u32) < 128,
    ensures
        encode_scalar(c as u32) == seq![(c as u32) as u8],
{
    let x = c as u32;
    assert((x & 0x7F) as u8 == x as u8) by (bit_vector)
        requires
            x < 128,
    ;
}

/// The encoding of two texts one after the other.
proof fn lemma_encode_concat(p: Seq<char>, t: Seq<char>)
    ensures
        encode_utf8(p + t) == encode_utf8(p) + encode_utf8(t),
    decreases p.len(),
{
    if p.len() > 0 {
        assert((p + t).drop_first() =~= p.drop_first() + t);
        assert((p + t)[0] == p[0]);
        lemma_encode_concat(p.drop_first(), t);
        assert(encode_utf8(p + t) =~= encode_utf8(p) + encode_utf8(t));
    } else {
        assert(p + t =~= t);
        assert(encode_utf8(p) + encode_utf8(t) =~= encode_utf8(t));
    }
}

/// A marker followed by written digits: its encoding starts with the
/// marker's bytes, and what follows the marker decodes to the digits.
proof fn lemma_marked_encoding(radix: u32, marked: bool, digits: Seq<char>)
    requires
        digits.len() >= 1,
        forall|i: int| 0 <= i < digits.len() ==> 48 <= #[trigger] (digits[i] as u32) < 91,
    ensures
        ({
            let m = radix_marker(radix, marked);
            let b = encode_utf8(m + digits);
            &&& b.len() == m.len() + encode_utf8(digits).len()
            &&& encode_utf8(digits).len() >= 1
            &&& m.len() == 2 ==> b[0] == 92 && b[1] == (m[1] as u32) as u8 && b.len() > 2
                && decode_utf8(b.subrange(2, b.len() as int)) == digits
            &&& m.len() == 0 ==> b.len() >= 1 && b[0] != 92 && b[0] < 128
        }),
{
    let m = radix_marker(radix, marked);
    lemma_encode_concat(m, digits);
    lemma_encode_ascii(digits[0]);
    assert(encode_utf8(digits) == encode_scalar(digits[0] as u32) + encode_utf8(digits.drop_first()));
    encode_utf8_decode_utf8(digits);
    if m.len() == 2 {
        lemma_encode_ascii(m[0]);
        lemma_encode_ascii(m[1]);
        assert(m.drop_first().drop_first() =~= Seq::<char>::empty());
        assert(m[0] == '\\');
        assert(('\\' as u32) as u8 == 92u8);
        assert(encode_utf8(m.drop_first().drop_first()) =~= Seq::<u8>::empty());
        assert(m.drop_first()[0] == m[1]);
        assert(encode_utf8(m.drop_first()) =~= encode_scalar(m[1] as u32) + encode_utf8(m.drop_first().drop_first()));
        assert(encode_utf8(m) =~= encode_scalar(m[0] as u32) + encode_utf8(m.drop_first()));
        assert(encode_utf8(m) =~= seq![92u8, (m[1] as u32) as u8]);
        let b = encode_utf8(m + digits);
        assert(b.subrange(2, b.len() as int) =~= encode_utf8(digits));
    } else {
        assert(m =~= Seq::<char>::empty());
        assert(encode_utf8(m) =~= Seq::<u8>::empty());
    }
}

/// A number written in decimal, or in hexadecimal after `\x`, or in
/// binary after `\b`, reads back as the number.
pub proof fn written_integers_read_back(n: usize, radix: u32, r: Result<usize, ParseIntError>)
    requires
        radix == 2 || radix == 10 || radix == 16,
        reads_integer(radix_marker(radix, false) + rendered(n as nat, radix as nat), r),
    ensures
        integer_cuttable(radix_marker(radix, false) + rendered(n as nat, radix as nat)),
        r == Ok::<usize, ParseIntError>(n),
{
    let d = rendered(n as nat, radix as nat);
    let s = radix_marker(radix, false) + d;
    lemma_rendered_reads(n as nat, radix);
    lemma_marked_encoding(radix, false, d);
    let b = encode_utf8(s);
    encode_utf8_valid_utf8(s);
    if radix != 10 {
        lemma_ascii_pair_boundary(b);
        assert(integer_radix(b) == radix);
        assert(integer_text(s) == d);
    } else {
        assert(radix_marker(radix, false) + d =~= d);
        assert(integer_radix(b) == 10);
        assert(integer_text(s) == d);
    }
}

/// A positive number written after `\x`, `\d` or `\b` reads back as its
/// shortest big-endian bytes, which read back as the number.
pub proof fn written_numbers_read_back_as_bytes(n: usize, radix: u32, r: Result<Vec<u8>, ParseError>)
    requires
        n > 0,
        radix == 2 || radix == 10 || radix == 16,
        reads_bytes(radix_marker(radix, true) + rendered(n as nat, radix as nat), r),
    ensures
        r matches Ok(v) && v@ == big_endian_bytes(n as nat) && v@.len() > 0 && v@[0] != 0
            && big_endian_value(v@) == n,
{
    let d = rendered(n as nat, radix as nat);
    let s = radix_marker(radix, true) + d;
    lemma_rendered_reads(n as nat, radix);
    lemma_marked_encoding(radix, true, d);
    let b = encode_utf8(s);
    assert(bytes_radix(b) == radix);
    number_bytes_read_back(n as nat);
    lemma_big_endian_leading(n as nat);
}

/// The big-endian bytes of a positive number start with a non-zero byte.
proof fn lemma_big_endian_leading(n: nat)
    requires
        n > 0,
    ensures
        big_endian_bytes(n).len() > 0,
        big_endian_bytes(n)[0] != 0,
    decreases n,
{
    if n / 256 > 0 {
        lemma_big_endian_leading(n / 256);
        assert(big_endian_bytes(n)[0] == big_endian_bytes(n / 256)[0]);
    } else {
        assert(big_endian_bytes(n / 256) =~= Seq::<u8>::empty());
        assert(n % 256 == n);
    }
}

/// The words after the first `n` characters when splitting only at
/// spaces: the finished words and the word being read.
pub open spec fn space_split_after(s: Seq<char>, n: nat) -> (Seq<Seq<char>>, Seq<char>)
    decreases n,
{
    if n == 0 || n > s.len() {
        (seq![], seq![])
    } else {
        let (words, word) = space_split_after(s, (n - 1) as nat);
        if s[n - 1] == ' ' {
            (if word.len() > 0 { words.push(word) } else { words }, seq![])
        } else {
            (words, word.push(s[n - 1]))
        }
    }
}

/// `s` split at its spaces, empty pieces left out.
pub open spec fn space_words(s: Seq<char>) -> Seq<Seq<char>> {
    let (words, word) = space_split_after(s, s.len());
    if word.len() > 0 { words.push(word) } else { words }
}

proof fn lemma_plain_words(s: Seq<char>, n: nat)
    requires
        n <= s.len(),
        forall|i: int| 0 <= i < s.len() ==> #[trigger] s[i] != '\\' && s[i] != '"' && s[i] != '\'',
    ensures
        ({
            let sp = space_split_after(s, n);
            words_after(s, n) == (sp.0, sp.1, if sp.1.len() > 0 { Some(' ') } else { None::<char> }, false)
        }),
    decreases n,
{
    if n > 0 {
        lemma_plain_words(s, (n - 1) as nat);
        let c = s[n - 1];
        assert(c != '\\' && c != '"' && c != '\'');
    }
}

/// Text without backslashes or quotes is split into words at its spaces,
/// empty pieces left out.
pub proof fn plain_text_splits_at_spaces(s: Seq<char>)
    requires
        forall|i: int| 0 <= i < s.len() ==> #[trigger] s[i] != '\\' && s[i] != '"' && s[i] != '\'',
    ensures
        split_words(s) == space_words(s),
{
    lemma_plain_words(s, s.len());
}


/// The hexadecimal view of a byte is two digits, high nibble first: read
/// as a two-digit hexadecimal number they give the byte back.
pub proof fn hex_rendering_reads_back(b: u8)
    ensures
        hex_rendering(b).len() == 2,
        hex_digit_value(hex_rendering(b)[0]) matches Some(high) && hex_digit_value(hex_rendering(b)[1]) matches Some(
            low,
        ) && high * 16 + low == b,
{
}

/// The decimal view of a byte is three digits, most significant first:
/// read as a three-digit decimal number they give the byte back.
pub proof fn decimal_rendering_reads_back(b: u8)
    ensures
        decimal_rendering(b).len() == 3,
        dec_digit_value(decimal_rendering(b)[0]) matches Some(h) && dec_digit_value(decimal_rendering(b)[1]) matches Some(
            t,
        ) && dec_digit_value(decimal_rendering(b)[2]) matches Some(u) && h * 100 + t * 10 + u == b,
{
}

/// Whether the matches `m` start in order.
pub open spec fn starts_in_order(m: Seq<(usize, usize)>) -> bool {
    forall|i: int, j: int| 0 <= i < j < m.len() ==> #[trigger] m[i].0 <= #[trigger] m[j].0
}

proof fn lemma_last_before_is_nearest(m: Seq<(usize, usize)>, offset: usize, i: nat)
    requires
        starts_in_order(m),
        1 <= i <= m.len(),
        forall|j: int| 0 <= j < i ==> #[trigger] m[j].0 < offset,
    ensures
        ({
            let f = last_before(m, offset, i, (i - 1) as nat);
            &&& f < m.len()
            &&& m[f as int].0 < offset
            &&& forall|j: int| 0 <= j < m.len() && #[trigger] m[j].0 < offset ==> m[j].0 <= m[f as int].0
        }),
    decreases m.len() - i,
{
    if i < m.len() && m[i as int].0 < offset {
        lemma_last_before_is_nearest(m, offset, i + 1);
    } else {
        assert forall|j: int| 0 <= j < m.len() && #[trigger] m[j].0 < offset implies m[j].0 <= m[i - 1].0 by {
            if j > i - 1 {
                if i < m.len() {
                    assert(m[i as int].0 <= m[j].0);
                }
            }
        }
    }
}

/// Searching back from `offset` (`find_before`, and where `find_nth_before`
/// starts counting) lands on the match nearest below `offset`: it starts
/// before `offset` and no match starts between it and `offset`. With no
/// match before `offset` it wraps round to the last match.
pub proof fn search_back_finds_the_nearest(m: Seq<(usize, usize)>, offset: usize)
    requires
        m.len() > 0,
        starts_in_order(m),
    ensures
        ({
            let f = last_before(m, offset, 0, (m.len() - 1) as nat);
            &&& f < m.len()
            &&& (exists|j: int| 0 <= j < m.len() && #[trigger] m[j].0 < offset) ==> {
                &&& m[f as int].0 < offset
                &&& forall|j: int| 0 <= j < m.len() && #[trigger] m[j].0 < offset ==> m[j].0 <= m[f as int].0
            }
            &&& (forall|j: int| 0 <= j < m.len() ==> #[trigger] m[j].0 >= offset) ==> f == m.len() - 1
        }),
{
    if m[0].0 < offset {
        lemma_last_before_is_nearest(m, offset, 1);
    } else {
        assert forall|j: int| 0 <= j < m.len() implies #[trigger] m[j].0 >= offset by {
            if j > 0 {
                assert(m[0].0 <= m[j].0);
            }
        }
    }
}

proof fn lemma_first_after_is_first(m: Seq<(usize, usize)>, offset: usize, i: nat)
    requires
        i <= m.len(),
        forall|j: int| 0 <= j < i ==> #[trigger] m[j].0 <= offset,
    ensures
        ({
            let f = first_after(m, offset, i);
            &&& (exists|j: int| 0 <= j < m.len() && #[trigger] m[j].0 > offset) ==> f < m.len() && m[f as int].0 > offset
                && forall|j: int| 0 <= j < f ==> #[trigger] m[j].0 <= offset
            &&& (forall|j: int| 0 <= j < m.len() ==> #[trigger] m[j].0 <= offset) ==> f == 0
        }),
    decreases m.len() - i,
{
    if i < m.len() && m[i as int].0 <= offset {
        lemma_first_after_is_first(m, offset, i + 1);
    }
}

/// Searching forward from `offset` (`find_after`, and where
/// `find_nth_after` starts counting) lands on the first match that starts
/// past `offset`, so with matches in order the nearest one; with none past
/// `offset` it wraps round to the first match.
pub proof fn search_forward_finds_the_nearest(m: Seq<(usize, usize)>, offset: usize)
    requires
        m.len() > 0,
    ensures
        ({
            let f = first_after(m, offset, 0);
            &&& f < m.len()
            &&& (exists|j: int| 0 <= j < m.len() && #[trigger] m[j].0 > offset) ==> {
                &&& m[f as int].0 > offset
                &&& forall|j: int| 0 <= j < f ==> #[trigger] m[j].0 <= offset
                &&& starts_in_order(m) ==> forall|j: int| 0 <= j < m.len() && #[trigger] m[j].0 > offset ==> m[f as int].0 <= m[j].0
            }
            &&& (forall|j: int| 0 <= j < m.len() ==> #[trigger] m[j].0 <= offset) ==> f == 0
        }),
{
    lemma_first_after_is_first(m, offset, 0);
    let f = first_after(m, offset, 0);
    if exists|j: int| 0 <= j < m.len() && #[trigger] m[j].0 > offset {
        if starts_in_order(m) {
            assert forall|j: int| 0 <= j < m.len() && #[trigger] m[j].0 > offset implies m[f as int].0 <= m[j].0 by {
                if j < f {
                } else if j > f {
                    assert(m[f as int].0 <= m[j].0);
                }
            }
        }
    } else {
        assert(f == 0);
    }
}

proof fn lemma_bare_word(s: Seq<char>, n: nat)
    requires
        1 <= n <= s.len(),
        s[0] != '"' && s[0] != '\'',
        forall|i: int| 0 <= i < s.len() ==> #[trigger] s[i] != ' ' && s[i] != '\\',
    ensures
        words_after(s, n) == (Seq::<Seq<char>>::empty(), s.subrange(0, n as int), Some(' '), false),
    decreases n,
{
    if n == 1 {
        assert(words_after(s, 0) == (Seq::<Seq<char>>::empty(), Seq::<char>::empty(), None::<char>, false));
        assert(s.subrange(0, 1) =~= seq![s[0]]);
    } else {
        lemma_bare_word(s, (n - 1) as nat);
        assert(s.subrange(0, n as int) =~= s.subrange(0, n - 1).push(s[n - 1]));
    }
}

/// A word that starts bare runs to the next space: quotes inside it are
/// kept and do not end it, so text with no spaces or backslashes that does
/// not start with a quote is one word, as it is.
pub proof fn bare_words_end_only_at_spaces(s: Seq<char>)
    requires
        s.len() > 0,
        s[0] != '"' && s[0] != '\'',
        forall|i: int| 0 <= i < s.len() ==> #[trigger] s[i] != ' ' && s[i] != '\\',
    ensures
        split_words(s) == seq![s],
{
    lemma_bare_word(s, s.len());
    assert(s.subrange(0, s.len() as int) =~= s);
    assert(Seq::<Seq<char>>::empty().push(s) =~= seq![s]);
}

} // verus!
