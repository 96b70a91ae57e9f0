//! Segment-level structural edits: insert, remove and reorder the timed
//! word segments of a line.
//!
//! Segment word-index associations point into the owning line's
//! translation word lists, not at other segments, so none of these
//! operations needs any renumbering: associations travel with their
//! segment.

use crate::editor::{blank_segment_keys_hold, empty_usize_entries};
use crate::lyrics::{seg_views, BabelLyrics, LyricsSegment, SegmentView};
use crate::timestamp::Timestamp;
use vstd::prelude::*;

verus! {

/// A freshly created segment: zero-duration, empty text, one empty
/// association entry per language of `langs`.
pub open spec fn blank_segment(langs: Seq<u128>) -> SegmentView {
    SegmentView { begin: 0, end: 0, text: Seq::empty(), translations: empty_usize_entries(langs) }
}

/// `at` clamped into the insertion range of a sequence of length `n`.
pub open spec fn clamped(at: int, n: int) -> int {
    if at <= n {
        at
    } else {
        n
    }
}

/// Views of a sequence of segments with one inserted.
proof fn lemma_seg_views_insert(s: Seq<LyricsSegment>, i: int, x: LyricsSegment)
    requires
        0 <= i <= s.len(),
    ensures
        seg_views(s.insert(i, x)) == seg_views(s).insert(i, x@),
{
    s.insert_ensures(i, x);
    assert forall|t: int| 0 <= t < seg_views(s.insert(i, x)).len() implies seg_views(
        s.insert(i, x),
    )[t] == seg_views(s).insert(i, x@)[t] by {
        if t < i {
            assert(s.insert(i, x)[t] == s[t]);
            assert(seg_views(s).insert(i, x@)[t] == seg_views(s)[t]);
        } else if t == i {
            assert(s.insert(i, x)[t] == x);
            assert(seg_views(s).insert(i, x@)[t] == x@);
        } else {
            assert(s.insert(i, x)[t] == s[t - 1]);
            assert(seg_views(s).insert(i, x@)[t] == seg_views(s)[t - 1]);
        }
    }
    assert(seg_views(s.insert(i, x)) =~= seg_views(s).insert(i, x@));
}

/// Views of a sequence of segments with one removed.
proof fn lemma_seg_views_remove(s: Seq<LyricsSegment>, i: int)
    requires
        0 <= i < s.len(),
    ensures
        seg_views(s.remove(i)) == seg_views(s).remove(i),
{
    s.remove_ensures(i);
    seg_views(s).remove_ensures(i);
    assert forall|t: int| 0 <= t < seg_views(s.remove(i)).len() implies seg_views(s.remove(i))[t]
        == seg_views(s).remove(i)[t] by {
        if t < i {
            assert(s.remove(i)[t] == s[t]);
            assert(seg_views(s).remove(i)[t] == seg_views(s)[t]);
        } else {
            assert(s.remove(i)[t] == s[t + 1]);
            assert(seg_views(s).remove(i)[t] == seg_views(s)[t + 1]);
        }
    }
    assert(seg_views(s.remove(i)) =~= seg_views(s).remove(i));
}

impl BabelLyrics {
    /// Creates a zero-duration segment with empty text and one empty
    /// association entry per registered language, and inserts it into line
    /// `line` at position `at`, clamped to the valid range (past the end
    /// appends). A no-op when `line` is out of range.
    pub fn insert_segment(&mut self, line: usize, at: usize)
        ensures
            final(self)@.metadata == old(self)@.metadata,
            final(self)@.lines.len() == old(self)@.lines.len(),
            forall|t: int|
                0 <= t < old(self)@.lines.len() && t != line as int ==> final(self)@.lines[t]
                    == #[trigger] old(self)@.lines[t],
            (line as int) >= old(self)@.lines.len() ==> final(self)@ == old(self)@,
            (line as int) < old(self)@.lines.len() ==> {
                let l_old = old(self)@.lines[line as int];
                let l_new = final(self)@.lines[line as int];
                &&& l_new.begin == l_old.begin
                &&& l_new.end == l_old.end
                &&& l_new.agent_id == l_old.agent_id
                &&& l_new.uuid == l_old.uuid
                &&& l_new.translations == l_old.translations
                &&& l_new.original == l_old.original.insert(
                    clamped(at as int, l_old.original.len() as int),
                    blank_segment(old(self)@.lang_ids()),
                )
            },
            old(self)@.wf() ==> final(self)@.wf(),
    {
        let ghost orig = self@;
        if line >= self.lyrics.lines.len() {
            return ;
        }
        let translations = self.empty_segment_translations();
        let seg = LyricsSegment {
            begin: Timestamp::zero(),
            end: Timestamp::zero(),
            text: String::new(),
            translations,
        };
        let ghost seg_view = seg@;
        let n = self.lyrics.lines[line].original.len();
        let at_c = if at <= n {
            at
        } else {
            n
        };
        let ghost segs_before = self.lyrics.lines@[line as int].original@;
        self.lyrics.lines[line].original.insert(at_c, seg);
        proof {
            assert(seg_view.translations =~= blank_segment(orig.lang_ids()).translations);
            assert(seg_view == blank_segment(orig.lang_ids()));
            lemma_seg_views_insert(segs_before, at_c as int, seg);
            assert(self@.lines[line as int].original == orig.lines[line as int].original.insert(
                clamped(at as int, orig.lines[line as int].original.len() as int),
                blank_segment(orig.lang_ids()),
            ));
            if orig.wf() {
                let langs = orig.lang_ids();
                assert(self@.lang_ids() == langs);
                blank_segment_keys_hold(langs);
                assert forall|i: int| 0 <= i < self@.lines.len() implies (
                #[trigger] self@.lines[i]).wf_for(langs) by {
                    assert(orig.lines[i].wf_for(langs));
                    if i == line as int {
                        let l_new = self@.lines[i];
                        assert(l_new.keys() == orig.lines[i].keys());
                        assert forall|j: int| 0 <= j < l_new.original.len() implies (
                        #[trigger] l_new.original[j]).wf_for(langs) by {
                            let c = clamped(at as int, orig.lines[i].original.len() as int);
                            orig.lines[i].original.insert_ensures(c, blank_segment(langs));
                            if j < c {
                                assert(l_new.original[j] == orig.lines[i].original[j]);
                            } else if j == c {
                                assert(l_new.original[j] == blank_segment(langs));
                            } else {
                                assert(l_new.original[j] == orig.lines[i].original[j - 1]);
                            }
                        }
                    }
                }
            }
        }
    }

    /// Removes the segment at `index` of line `line`. A no-op when either
    /// index is out of range. No other segment's associations change.
    pub fn remove_segment(&mut self, line: usize, index: usize)
        ensures
            final(self)@.metadata == old(self)@.metadata,
            final(self)@.lines.len() == old(self)@.lines.len(),
            forall|t: int|
                0 <= t < old(self)@.lines.len() && t != line as int ==> final(self)@.lines[t]
                    == #[trigger] old(self)@.lines[t],
            (line as int) >= old(self)@.lines.len() || (index as int) >= old(self)@.lines[line as int].original.len()
                ==> final(self)@ == old(self)@,
            (line as int) < old(self)@.lines.len() && (index as int) < old(self)@.lines[line as int].original.len()
                ==> {
                let l_old = old(self)@.lines[line as int];
                let l_new = final(self)@.lines[line as int];
                &&& l_new.begin == l_old.begin
                &&& l_new.end == l_old.end
                &&& l_new.agent_id == l_old.agent_id
                &&& l_new.uuid == l_old.uuid
                &&& l_new.translations == l_old.translations
                &&& l_new.original == l_old.original.remove(index as int)
            },
            old(self)@.wf() ==> final(self)@.wf(),
    {
        let ghost orig = self@;
        if line >= self.lyrics.lines.len() {
            return ;
        }
        if index >= self.lyrics.lines[line].original.len() {
            return ;
        }
        let ghost segs_before = self.lyrics.lines@[line as int].original@;
        let _removed = self.lyrics.lines[line].original.remove(index);
        proof {
            lemma_seg_views_remove(segs_before, index as int);
            if orig.wf() {
                let langs = orig.lang_ids();
                assert forall|i: int| 0 <= i < self@.lines.len() implies (
                #[trigger] self@.lines[i]).wf_for(langs) by {
                    assert(orig.lines[i].wf_for(langs));
                    if i == line as int {
                        let l_new = self@.lines[i];
                        assert forall|j: int| 0 <= j < l_new.original.len() implies (
                        #[trigger] l_new.original[j]).wf_for(langs) by {
                            orig.lines[i].original.remove_ensures(index as int);
                            if j < index as int {
                                assert(l_new.original[j] == orig.lines[i].original[j]);
                            } else {
                                assert(l_new.original[j] == orig.lines[i].original[j + 1]);
                            }
                        }
                    }
                }
            }
        }
    }

    /// Swaps the segments at positions `from` and `to` of line `line`;
    /// each segment's associations travel with it. A no-op when either
    /// position is out of range.
    pub fn move_segment(&mut self, line: usize, from: usize, to: usize)
        ensures
            final(self)@.metadata == old(self)@.metadata,
            final(self)@.lines.len() == old(self)@.lines.len(),
            forall|t: int|
                0 <= t < old(self)@.lines.len() && t != line as int ==> final(self)@.lines[t]
                    == #[trigger] old(self)@.lines[t],
            (line as int) >= old(self)@.lines.len() || (from as int) >= old(self)@.lines[line as int].original.len()
                || (to as int) >= old(self)@.lines[line as int].original.len() ==> final(self)@
                == old(self)@,
            (line as int) < old(self)@.lines.len() && (from as int) < old(self)@.lines[line as int].original.len()
                && (to as int) < old(self)@.lines[line as int].original.len() ==> {
                let l_old = old(self)@.lines[line as int];
                let l_new = final(self)@.lines[line as int];
                &&& l_new.begin == l_old.begin
                &&& l_new.end == l_old.end
                &&& l_new.agent_id == l_old.agent_id
                &&& l_new.uuid == l_old.uuid
                &&& l_new.translations == l_old.translations
                &&& l_new.original == l_old.original.update(
                    from as int,
                    l_old.original[to as int],
                ).update(to as int, l_old.original[from as int])
            },
            old(self)@.wf() ==> final(self)@.wf(),
    {
        let ghost orig = self@;
        if line >= self.lyrics.lines.len() {
            return ;
        }
        let n = self.lyrics.lines[line].original.len();
        if from >= n || to >= n {
            return ;
        }
        let ghost segs_before = self.lyrics.lines@[line as int].original@;
        let ghost target = segs_before.update(from as int, segs_before[to as int]).update(
            to as int,
            segs_before[from as int],
        );
        if from == to {
            proof {
                let ov = orig.lines[line as int].original;
                assert(ov.update(from as int, ov[to as int]).update(
                    to as int,
                    ov[from as int],
                ) =~= ov);
            }
            return ;
        }
        let lo = if from < to {
            from
        } else {
            to
        };
        let hi = if from < to {
            to
        } else {
            from
        };
        let s_hi = self.lyrics.lines[line].original.remove(hi);
        let s_lo = self.lyrics.lines[line].original.remove(lo);
        self.lyrics.lines[line].original.insert(lo, s_hi);
        self.lyrics.lines[line].original.insert(hi, s_lo);
        proof {
            let a = segs_before.remove(hi as int);
            let b = a.remove(lo as int);
            let c = b.insert(lo as int, segs_before[hi as int]);
            let d = c.insert(hi as int, segs_before[lo as int]);
            segs_before.remove_ensures(hi as int);
            a.remove_ensures(lo as int);
            b.insert_ensures(lo as int, segs_before[hi as int]);
            c.insert_ensures(hi as int, segs_before[lo as int]);
            assert(d =~= segs_before.update(lo as int, segs_before[hi as int]).update(
                hi as int,
                segs_before[lo as int],
            ));
            assert(target =~= segs_before.update(lo as int, segs_before[hi as int]).update(
                hi as int,
                segs_before[lo as int],
            ));
            assert(self.lyrics.lines@[line as int].original@ == target);
            assert forall|t: int| 0 <= t < seg_views(target).len() implies seg_views(target)[t]
                == seg_views(segs_before).update(
                from as int,
                seg_views(segs_before)[to as int],
            ).update(to as int, seg_views(segs_before)[from as int])[t] by {}
            assert(seg_views(target) =~= seg_views(segs_before).update(
                from as int,
                seg_views(segs_before)[to as int],
            ).update(to as int, seg_views(segs_before)[from as int]));
            if orig.wf() {
                let langs = orig.lang_ids();
                assert forall|i: int| 0 <= i < self@.lines.len() implies (
                #[trigger] self@.lines[i]).wf_for(langs) by {
                    assert(orig.lines[i].wf_for(langs));
                    if i == line as int {
                        let l_new = self@.lines[i];
                        assert forall|j: int| 0 <= j < l_new.original.len() implies (
                        #[trigger] l_new.original[j]).wf_for(langs) by {
                            if j == from as int {
                                assert(l_new.original[j] == orig.lines[i].original[to as int]);
                            } else if j == to as int {
                                assert(l_new.original[j] == orig.lines[i].original[from as int]);
                            } else {
                                assert(l_new.original[j] == orig.lines[i].original[j]);
                            }
                        }
                    }
                }
            }
        }
    }
}

} // verus!
