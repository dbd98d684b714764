//! Search and replace over the editor's content.
use vstd::prelude::*;

use crate::bounds::byte_slice_len;
use crate::editor::content::{with_inserted, without_range};
use crate::editor::search::search_defined;
use crate::editor::{pushed, search_matches, search_result, Editor, SbyteError, TaskView};
use crate::matching::successive_matches;

verus! {

/// The content after the last `j` matches of `m`, last first, have each
/// been replaced by `rep`.
pub open spec fn replaced(c: Seq<u8>, m: Seq<(usize, usize)>, rep: Seq<u8>, j: nat) -> Seq<u8>
    decreases j,
{
    if j == 0 || j > m.len() {
        c
    } else {
        let prev = replaced(c, m, rep, (j - 1) as nat);
        let h = m[m.len() - j];
        with_inserted(without_range(prev, h.0 as int, h.1 - h.0), h.0 as int, rep)
    }
}

/// The undo history after the replacements of `replaced` were recorded,
/// one per stamp: each reverting edit takes out `rep_len` bytes and puts
/// the matched bytes of `c` back.
pub open spec fn replace_history(
    u: Seq<TaskView>,
    c: Seq<u8>,
    m: Seq<(usize, usize)>,
    rep_len: usize,
    stamps: Seq<u64>,
) -> Seq<TaskView>
    decreases stamps.len(),
{
    if stamps.len() == 0 || stamps.len() > m.len() {
        u
    } else {
        let prev = replace_history(u, c, m, rep_len, stamps.drop_last());
        let h = m[m.len() - stamps.len()];
        pushed(prev, h.0, rep_len, c.subrange(h.0 as int, h.1 as int), stamps.last())
    }
}

/// The changed offsets after the last `j` replacements were recorded.
pub open spec fn replace_changes(
    ch: Set<(usize, bool)>,
    m: Seq<(usize, usize)>,
    rep_len: usize,
    j: nat,
) -> Set<(usize, bool)>
    decreases j,
{
    if j == 0 || j > m.len() {
        ch
    } else {
        let h = m[m.len() - j];
        replace_changes(ch, m, rep_len, (j - 1) as nat).insert((h.0, rep_len != h.1 - h.0))
    }
}

/// Replacing `[s, e)` leaves the bytes before `s` as they were.
proof fn lemma_replace_prefix(c: Seq<u8>, s: int, e: int, rep: Seq<u8>)
    requires
        0 <= s <= e <= c.len(),
    ensures
        with_inserted(without_range(c, s, e - s), s, rep).len() >= s,
        with_inserted(without_range(c, s, e - s), s, rep).subrange(0, s) == c.subrange(0, s),
{
    let r = with_inserted(without_range(c, s, e - s), s, rep);
    assert(r.subrange(0, s) =~= c.subrange(0, s));
}

impl Editor {
    /// Replaces every match of `search_for` with `replace_with`, last match
    /// first, recording each replacement; returns where the matches
    /// started, last first.
    pub fn replace(&mut self, search_for: &str, replace_with: &[u8]) -> (r: Result<Vec<usize>, SbyteError>)
        requires
            old(self).wf(),
            search_defined(search_for@),
        ensures
            final(self).wf(),
            final(self).same_settings(&*old(self)),
            match search_matches(search_for@, old(self).content()) {
                None => r matches Err(e) && search_result(
                    search_for@,
                    old(self).content(),
                    Err::<Vec<(usize, usize)>, SbyteError>(e),
                ) && final(self).content() == old(self).content() && final(self).same_history(
                    &*old(self),
                ),
                Some(m) => {
                    &&& r matches Ok(positions) && positions@ == Seq::new(
                        m.len(),
                        |i: int| m[m.len() - 1 - i].0,
                    )
                    &&& final(self).content() == replaced(old(self).content(), m, replace_with@, m.len())
                    &&& exists|stamps: Seq<u64>|
                        stamps.len() == m.len() && #[trigger] replace_history(
                            old(self).undo_tasks(),
                            old(self).content(),
                            m,
                            replace_with@.len() as usize,
                            stamps,
                        ) == final(self).undo_tasks()
                    &&& final(self).changed() == replace_changes(
                        old(self).changed(),
                        m,
                        replace_with@.len() as usize,
                        m.len(),
                    )
                    &&& final(self).redo_tasks() == if m.len() > 0 {
                        Seq::<TaskView>::empty()
                    } else {
                        old(self).redo_tasks()
                    }
                },
            },
    {
        let matches = match self.find_all(search_for) {
            Ok(v) => v,
            Err(e) => {
                return Err(e);
            },
        };
        let ghost m = matches@;
        let ghost c0 = self.content();
        let ghost u0 = self.undo_tasks();
        let ghost ch0 = self.changed();
        let ghost r0 = self.redo_tasks();
        let ghost mut stamps: Seq<u64> = Seq::empty();
        let rep_len = byte_slice_len(replace_with);
        let len = matches.len();
        let mut hit_positions: Vec<usize> = Vec::new();
        let mut k = len;
        proof {
            assert(c0.subrange(0, c0.len() as int) =~= c0);
        }
        while k > 0
            invariant
                k <= len == m.len(),
                matches@ == m,
                successive_matches(m, c0.len() as int),
                rep_len == replace_with@.len(),
                self.wf(),
                self.same_settings(&*old(self)),
                old(self).content() == c0,
                old(self).undo_tasks() == u0,
                old(self).changed() == ch0,
                old(self).redo_tasks() == r0,
                self.content() == replaced(c0, m, replace_with@, (len - k) as nat),
                ({
                    let bound = if k < len {
                        m[k as int].0 as int
                    } else {
                        c0.len() as int
                    };
                    &&& bound <= self.content().len()
                    &&& self.content().subrange(0, bound) == c0.subrange(0, bound)
                }),
                stamps.len() == len - k,
                self.undo_tasks() == replace_history(u0, c0, m, rep_len, stamps),
                self.changed() == replace_changes(ch0, m, rep_len, (len - k) as nat),
                k < len ==> self.redo_tasks() == Seq::<TaskView>::empty(),
                k == len ==> self.redo_tasks() == r0,
                hit_positions@ == Seq::new((len - k) as nat, |i: int| m[len - 1 - i].0),
            decreases k,
        {
            k -= 1;
            let (start, end) = matches[k];
            let ghost cur = self.content();
            let ghost bound = if k + 1 < len {
                m[k + 1].0 as int
            } else {
                c0.len() as int
            };
            proof {
                if k + 1 < len {
                    assert(m[k as int].1 <= m[k + 1].0);
                }
                assert(start <= end <= bound);
                assert forall|q: int| 0 <= q < end implies cur[q] == c0[q] by {
                    assert(cur.subrange(0, bound)[q] == c0.subrange(0, bound)[q]);
                }
                assert(cur.subrange(start as int, end as int) =~= c0.subrange(start as int, end as int));
                lemma_replace_prefix(cur, start as int, end as int, replace_with@);
            }
            hit_positions.push(start);
            self.replace_range(start, end, replace_with);
            proof {
                let now = self.undo_tasks().last().3;
                let before_stamps = stamps;
                stamps = stamps.push(now);
                assert(stamps.drop_last() =~= before_stamps);
                assert(stamps.last() == now);
                assert(m.len() - stamps.len() == k);
                assert(replace_history(u0, c0, m, rep_len, stamps) == pushed(
                    replace_history(u0, c0, m, rep_len, before_stamps),
                    start,
                    rep_len,
                    c0.subrange(start as int, end as int),
                    now,
                ));
                let after = self.content();
                assert(after.subrange(0, start as int) =~= c0.subrange(0, start as int)) by {
                    assert forall|q: int| 0 <= q < start implies after[q] == c0[q] by {
                        assert(after.subrange(0, start as int)[q] == cur.subrange(0, start as int)[q]);
                    }
                }
                assert(hit_positions@ =~= Seq::new((len - k) as nat, |i: int| m[len - 1 - i].0));
            }
        }
        proof {
            assert(stamps.len() == m.len());
            assert(replace_history(u0, c0, m, rep_len, stamps) == self.undo_tasks());
        }
        Ok(hit_positions)
    }
}

} // verus!
