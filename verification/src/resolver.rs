//! The active-window resolver: maps a playback timestamp to the
//! currently active line, the active segment within it, and the
//! translated-word positions highlighted per language.
//!
//! A line or segment is active exactly when the timestamp lies strictly
//! between its begin and end: an element that starts or ends exactly at
//! the current tick is not active.

use crate::lyrics::{pair_usize_views, BabelLyrics, LineView, SegmentView};
use crate::timestamp::Timestamp;
use vstd::prelude::*;

verus! {

/// A line is active at `t` when `t` lies strictly inside its bounds.
pub open spec fn line_active(l: LineView, t: u64) -> bool {
    l.begin < t && t < l.end
}

/// A segment is active at `t` when `t` lies strictly inside its bounds.
pub open spec fn seg_active(s: SegmentView, t: u64) -> bool {
    s.begin < t && t < s.end
}

/// The word positions that the first `ps` association entries keyed
/// `lang` record, concatenated in entry order.
pub open spec fn collect_entries(ps: Seq<(u128, Seq<usize>)>, lang: u128) -> Seq<usize>
    decreases ps.len(),
{
    if ps.len() == 0 {
        Seq::empty()
    } else {
        collect_entries(ps.drop_last(), lang) + (if ps.last().0 == lang {
            ps.last().1
        } else {
            Seq::empty()
        })
    }
}

/// What one segment contributes to the highlight of language `lang` at
/// `t`: its recorded positions when it is active, nothing otherwise.
pub open spec fn seg_collect(s: SegmentView, t: u64, lang: u128) -> Seq<usize> {
    if seg_active(s, t) {
        collect_entries(s.translations, lang)
    } else {
        Seq::empty()
    }
}

/// The highlighted word positions of language `lang` at `t`: the union,
/// in segment order, over all active segments' association lists.
pub open spec fn collect_segs(ss: Seq<SegmentView>, t: u64, lang: u128) -> Seq<usize>
    decreases ss.len(),
{
    if ss.len() == 0 {
        Seq::empty()
    } else {
        collect_segs(ss.drop_last(), t, lang) + seg_collect(ss.last(), t, lang)
    }
}

/// The per-frame result: the first active line, the first active segment
/// within it, and per registered language of that line the highlighted
/// translated-word positions.
pub struct ActiveWindow {
    pub active_line: Option<usize>,
    pub active_segment: Option<usize>,
    pub highlighted: Vec<(u128, Vec<usize>)>,
}

/// Computes the active window of `doc` at `t` by one pass over the
/// lines: the first strictly-active line, its first strictly-active
/// segment, and, for each translation entry of that line, every word
/// position an active segment associates with that language.
pub fn resolve(doc: &BabelLyrics, t: Timestamp) -> (r: ActiveWindow)
    ensures
        match r.active_line {
            None => forall|i: int|
                0 <= i < doc@.lines.len() ==> !line_active(#[trigger] doc@.lines[i], t.millis),
            Some(i) => {
                &&& (i as int) < doc@.lines.len()
                &&& line_active(doc@.lines[i as int], t.millis)
                &&& forall|w: int|
                    0 <= w < i as int ==> !line_active(#[trigger] doc@.lines[w], t.millis)
            },
        },
        r.active_line is None ==> r.active_segment is None && r.highlighted@.len() == 0,
        match r.active_line {
            None => true,
            Some(i) => {
                let l = doc@.lines[i as int];
                &&& match r.active_segment {
                    None => forall|j: int|
                        0 <= j < l.original.len() ==> !seg_active(
                            #[trigger] l.original[j],
                            t.millis,
                        ),
                    Some(j) => {
                        &&& (j as int) < l.original.len()
                        &&& seg_active(l.original[j as int], t.millis)
                        &&& forall|w: int|
                            0 <= w < j as int ==> !seg_active(#[trigger] l.original[w], t.millis)
                    },
                }
                &&& pair_usize_views(r.highlighted@).len() == l.translations.len()
                &&& forall|k: int|
                    0 <= k < l.translations.len() ==> pair_usize_views(r.highlighted@)[k] == (
                    l.translations[k].0,
                    collect_segs(l.original, t.millis, l.translations[k].0),
                )
            },
        },
{
    let line_count = doc.lyrics.lines.len();
    let mut i: usize = 0;
    while i < line_count
        invariant
            line_count == doc@.lines.len(),
            0 <= (i as int) <= line_count as int,
            forall|w: int| 0 <= w < i as int ==> !line_active(#[trigger] doc@.lines[w], t.millis),
        decreases line_count - i,
    {
        let line_ref = &doc.lyrics.lines[i];
        if t.millis > line_ref.begin.millis && t.millis < line_ref.end.millis {
            let active_segment = first_active_segment(line_ref, t);
            let highlighted = collect_highlights(line_ref, t);
            return ActiveWindow { active_line: Some(i), active_segment, highlighted };
        }
        i = i + 1;
    }
    ActiveWindow { active_line: None, active_segment: None, highlighted: Vec::new() }
}

/// The position of the first segment of `line` strictly active at `t`.
fn first_active_segment(line: &crate::lyrics::LyricsLine, t: Timestamp) -> (r: Option<usize>)
    ensures
        match r {
            None => forall|j: int|
                0 <= j < line@.original.len() ==> !seg_active(#[trigger] line@.original[j], t.millis),
            Some(j) => {
                &&& (j as int) < line@.original.len()
                &&& seg_active(line@.original[j as int], t.millis)
                &&& forall|w: int|
                    0 <= w < j as int ==> !seg_active(#[trigger] line@.original[w], t.millis)
            },
        },
{
    let seg_count = line.original.len();
    let mut j: usize = 0;
    while j < seg_count
        invariant
            seg_count == line@.original.len(),
            0 <= (j as int) <= seg_count as int,
            forall|w: int| 0 <= w < j as int ==> !seg_active(#[trigger] line@.original[w], t.millis),
        decreases seg_count - j,
    {
        let seg = &line.original[j];
        if t.millis > seg.begin.millis && t.millis < seg.end.millis {
            return Some(j);
        }
        j = j + 1;
    }
    None
}

/// One highlight entry per translation entry of `line`: the language key
/// and every word position an active segment associates with it.
fn collect_highlights(line: &crate::lyrics::LyricsLine, t: Timestamp) -> (r: Vec<
    (u128, Vec<usize>),
>)
    ensures
        pair_usize_views(r@).len() == line@.translations.len(),
        forall|k: int|
            0 <= k < line@.translations.len() ==> pair_usize_views(r@)[k] == (
                line@.translations[k].0,
                collect_segs(line@.original, t.millis, line@.translations[k].0),
            ),
{
    let mut r: Vec<(u128, Vec<usize>)> = Vec::new();
    let n = line.translations.len();
    let mut k: usize = 0;
    while k < n
        invariant
            n == line@.translations.len(),
            0 <= (k as int) <= n as int,
            r@.len() == k as int,
            forall|k2: int|
                0 <= k2 < k as int ==> pair_usize_views(r@)[k2] == (
                    line@.translations[k2].0,
                    collect_segs(line@.original, t.millis, line@.translations[k2].0),
                ),
        decreases n - k,
    {
        let lang = line.translations[k].0;
        let collected = collect_for_language(line, t, lang);
        let ghost r_prev = r@;
        r.push((lang, collected));
        proof {
            assert(line@.translations[k as int].0 == lang);
            assert forall|k2: int| 0 <= k2 < k as int + 1 implies pair_usize_views(r@)[k2] == (
                line@.translations[k2].0,
                collect_segs(line@.original, t.millis, line@.translations[k2].0),
            ) by {
                if k2 < k as int {
                    assert(r@[k2] == r_prev[k2]);
                    assert(pair_usize_views(r@)[k2] == (r@[k2].0, r@[k2].1@));
                    assert(pair_usize_views(r_prev)[k2] == (r_prev[k2].0, r_prev[k2].1@));
                } else {
                    assert(pair_usize_views(r@)[k2] == (r@[k2].0, r@[k2].1@));
                }
            }
        }
        k = k + 1;
    }
    r
}

/// Every word position the active segments of `line` associate with
/// language `lang`, in segment and entry order.
fn collect_for_language(line: &crate::lyrics::LyricsLine, t: Timestamp, lang: u128) -> (r: Vec<
    usize,
>)
    ensures
        r@ == collect_segs(line@.original, t.millis, lang),
{
    let mut out: Vec<usize> = Vec::new();
    let seg_count = line.original.len();
    let mut j: usize = 0;
    while j < seg_count
        invariant
            seg_count == line@.original.len(),
            0 <= (j as int) <= seg_count as int,
            out@ == collect_segs(line@.original.subrange(0, j as int), t.millis, lang),
        decreases seg_count - j,
    {
        proof {
            let pre = line@.original.subrange(0, j as int);
            let cur = line@.original.subrange(0, j as int + 1);
            assert(cur.drop_last() =~= pre);
            assert(cur.last() == line@.original[j as int]);
        }
        if t.millis > line.original[j].begin.millis && t.millis < line.original[j].end.millis {
            let entry_count = line.original[j].translations.len();
            let ghost base = out@;
            let mut m: usize = 0;
            while m < entry_count
                invariant
                    (j as int) < line@.original.len(),
                    entry_count == line@.original[j as int].translations.len(),
                    0 <= (m as int) <= entry_count as int,
                    out@ == base + collect_entries(
                        line@.original[j as int].translations.subrange(0, m as int),
                        lang,
                    ),
                decreases entry_count - m,
            {
                proof {
                    let ps = line@.original[j as int].translations;
                    assert(ps.subrange(0, m as int + 1).drop_last() =~= ps.subrange(0, m as int));
                    assert(ps.subrange(0, m as int + 1).last() == ps[m as int]);
                }
                if line.original[j].translations[m].0 == lang {
                    let list_len = line.original[j].translations[m].1.len();
                    let ghost base2 = out@;
                    let mut x: usize = 0;
                    while x < list_len
                        invariant
                            (j as int) < line@.original.len(),
                            (m as int) < line@.original[j as int].translations.len(),
                            list_len == line@.original[j as int].translations[m as int].1.len(),
                            0 <= (x as int) <= list_len as int,
                            out@ == base2 + line@.original[j as int].translations[m as int].1.subrange(
                                0,
                                x as int,
                            ),
                        decreases list_len - x,
                    {
                        let v = line.original[j].translations[m].1[x];
                        out.push(v);
                        proof {
                            let lst = line@.original[j as int].translations[m as int].1;
                            assert(v == lst[x as int]);
                            assert(lst.subrange(0, x as int + 1) =~= lst.subrange(0, x as int).push(
                                lst[x as int],
                            ));
                            assert(out@ =~= base2 + lst.subrange(0, x as int + 1));
                        }
                        x = x + 1;
                    }
                    proof {
                        let ps = line@.original[j as int].translations;
                        let lst = ps[m as int].1;
                        assert(lst.subrange(0, list_len as int) =~= lst);
                        assert(ps.subrange(0, m as int + 1).drop_last() =~= ps.subrange(
                            0,
                            m as int,
                        ));
                        assert(ps.subrange(0, m as int + 1).last() == ps[m as int]);
                        assert(ps[m as int].0 == lang);
                        assert(collect_entries(ps.subrange(0, m as int + 1), lang)
                            == collect_entries(ps.subrange(0, m as int), lang) + lst);
                        assert(out@ =~= base + collect_entries(
                            ps.subrange(0, m as int + 1),
                            lang,
                        ));
                    }
                } else {
                    proof {
                        let ps = line@.original[j as int].translations;
                        assert(ps[m as int].0 != lang);
                        assert(collect_entries(ps.subrange(0, m as int + 1), lang)
                            =~= collect_entries(ps.subrange(0, m as int), lang));
                        assert(out@ =~= base + collect_entries(
                            ps.subrange(0, m as int + 1),
                            lang,
                        ));
                    }
                }
                m = m + 1;
            }
            proof {
                let ps = line@.original[j as int].translations;
                assert(ps.subrange(0, entry_count as int) =~= ps);
                assert(seg_active(line@.original[j as int], t.millis));
                assert(seg_collect(line@.original[j as int], t.millis, lang) == collect_entries(
                    ps,
                    lang,
                ));
                assert(out@ =~= collect_segs(
                    line@.original.subrange(0, j as int),
                    t.millis,
                    lang,
                ) + seg_collect(line@.original[j as int], t.millis, lang));
                assert(out@ =~= collect_segs(
                    line@.original.subrange(0, j as int + 1),
                    t.millis,
                    lang,
                ));
            }
        } else {
            proof {
                assert(!seg_active(line@.original[j as int], t.millis));
                assert(seg_collect(line@.original[j as int], t.millis, lang) =~= Seq::empty());
                assert(out@ =~= collect_segs(
                    line@.original.subrange(0, j as int + 1),
                    t.millis,
                    lang,
                ));
            }
        }
        j = j + 1;
    }
    proof {
        assert(line@.original.subrange(0, seg_count as int) =~= line@.original);
    }
    out
}

/// A word position is highlighted for a language exactly when some
/// active segment records it in an association entry keyed by that
/// language.
pub proof fn lemma_highlight_membership(ss: Seq<SegmentView>, t: u64, lang: u128, w: usize)
    ensures
        collect_segs(ss, t, lang).contains(w) <==> exists|j: int, m: int|
            0 <= j < ss.len() && seg_active(ss[j], t) && 0 <= m
                < ss[j].translations.len() && (#[trigger] ss[j].translations[m]).0 == lang
                && ss[j].translations[m].1.contains(w),
    decreases ss.len(),
{
    if ss.len() == 0 {
    } else {
        let init = ss.drop_last();
        lemma_highlight_membership(init, t, lang, w);
        lemma_entries_membership(ss.last().translations, lang, w);
        if collect_segs(ss, t, lang).contains(w) {
            let idx = choose|idx: int|
                0 <= idx < collect_segs(ss, t, lang).len() && collect_segs(ss, t, lang)[idx] == w;
            if idx < collect_segs(init, t, lang).len() {
                assert(collect_segs(init, t, lang)[idx] == w);
                assert(collect_segs(init, t, lang).contains(w));
                let (j, m) = choose|j: int, m: int|
                    0 <= j < init.len() && seg_active(init[j], t) && 0 <= m
                        < init[j].translations.len() && (#[trigger] init[j].translations[m]).0 == lang
                        && init[j].translations[m].1.contains(w);
                assert(ss[j] == init[j]);
            } else {
                assert(seg_collect(ss.last(), t, lang)[idx - collect_segs(init, t, lang).len()]
                    == w);
                assert(seg_collect(ss.last(), t, lang).contains(w));
                assert(seg_active(ss.last(), t));
                assert(collect_entries(ss.last().translations, lang).contains(w));
                let m = choose|m: int|
                    0 <= m < ss.last().translations.len() && ss.last().translations[m].0 == lang
                        && ss.last().translations[m].1.contains(w);
                assert(ss[ss.len() - 1] == ss.last());
            }
        }
        if exists|j: int, m: int|
            0 <= j < ss.len() && seg_active(ss[j], t) && 0 <= m
                < ss[j].translations.len() && (#[trigger] ss[j].translations[m]).0 == lang
                && ss[j].translations[m].1.contains(w) {
            let (j, m) = choose|j: int, m: int|
                0 <= j < ss.len() && seg_active(ss[j], t) && 0 <= m
                    < ss[j].translations.len() && (#[trigger] ss[j].translations[m]).0 == lang
                    && ss[j].translations[m].1.contains(w);
            if j < ss.len() - 1 {
                assert(init[j] == ss[j]);
                assert(collect_segs(init, t, lang).contains(w));
                let idx = choose|idx: int|
                    0 <= idx < collect_segs(init, t, lang).len() && collect_segs(init, t, lang)[idx]
                        == w;
                assert(collect_segs(ss, t, lang)[idx] == w);
            } else {
                assert(ss[j] == ss.last());
                assert(collect_entries(ss.last().translations, lang).contains(w));
                let idx = choose|idx: int|
                    0 <= idx < collect_entries(ss.last().translations, lang).len()
                        && collect_entries(ss.last().translations, lang)[idx] == w;
                assert(collect_segs(ss, t, lang)[collect_segs(init, t, lang).len() + idx] == w);
            }
        }
    }
}

/// A word position occurs in the collected entries exactly when some
/// entry keyed by the language records it.
proof fn lemma_entries_membership(ps: Seq<(u128, Seq<usize>)>, lang: u128, w: usize)
    ensures
        collect_entries(ps, lang).contains(w) <==> exists|m: int|
            0 <= m < ps.len() && (#[trigger] ps[m]).0 == lang && ps[m].1.contains(w),
    decreases ps.len(),
{
    if ps.len() == 0 {
    } else {
        let init = ps.drop_last();
        lemma_entries_membership(init, lang, w);
        if collect_entries(ps, lang).contains(w) {
            let idx = choose|idx: int|
                0 <= idx < collect_entries(ps, lang).len() && collect_entries(ps, lang)[idx] == w;
            if idx < collect_entries(init, lang).len() {
                assert(collect_entries(init, lang)[idx] == w);
                assert(collect_entries(init, lang).contains(w));
                let m = choose|m: int|
                    0 <= m < init.len() && (#[trigger] init[m]).0 == lang && init[m].1.contains(w);
                assert(ps[m] == init[m]);
            } else {
                assert(ps.last().0 == lang);
                assert(ps.last().1[idx - collect_entries(init, lang).len()] == w);
                assert(ps.last().1.contains(w));
                assert(ps[ps.len() - 1] == ps.last());
            }
        }
        if exists|m: int| 0 <= m < ps.len() && (#[trigger] ps[m]).0 == lang && ps[m].1.contains(w) {
            let m = choose|m: int|
                0 <= m < ps.len() && (#[trigger] ps[m]).0 == lang && ps[m].1.contains(w);
            if m < ps.len() - 1 {
                assert(init[m] == ps[m]);
                assert(collect_entries(init, lang).contains(w));
                let idx = choose|idx: int|
                    0 <= idx < collect_entries(init, lang).len() && collect_entries(init, lang)[idx]
                        == w;
                assert(collect_entries(ps, lang)[idx] == w);
            } else {
                assert(ps[m] == ps.last());
                let idx = choose|idx: int| 0 <= idx < ps.last().1.len() && ps.last().1[idx] == w;
                assert(collect_entries(ps, lang)[collect_entries(init, lang).len() + idx] == w);
            }
        }
    }
}

} // verus!
