//! Structural editing of a lyrics document.
//!
//! Every operation keeps the core invariant: each line and segment holds
//! exactly one translation entry per registered language, in registry
//! order. Out-of-range indices and unknown identifiers are treated as
//! no-ops or clamped, never as errors.

use crate::ids::fresh_id;
use crate::lyrics::{
    entry_ids, entry_views, pair_string_keys, pair_string_views, pair_usize_keys,
    pair_usize_views, string_views, BabelLyrics, DocView, LineView, LyricsLine, SegmentView,
    TranslationEntry,
    TranslationEntryView,
};
use crate::timestamp::Timestamp;
use vstd::prelude::*;

verus! {

// ------------------------------------------------------------------
// Keyed-entry predicates and the document transformations the
// operations perform, each under one name.
// ------------------------------------------------------------------

/// Keeps a registry entry not keyed by `id`.
pub open spec fn entry_keep(id: u128) -> spec_fn(TranslationEntryView) -> bool {
    |e: TranslationEntryView| e.id != id
}

/// Keeps an association entry not keyed by `id`.
pub open spec fn pair_usize_keep(id: u128) -> spec_fn((u128, Seq<usize>)) -> bool {
    |p: (u128, Seq<usize>)| p.0 != id
}

/// Keeps a word-list entry not keyed by `id`.
pub open spec fn pair_string_keep(id: u128) -> spec_fn((u128, Seq<Seq<char>>)) -> bool {
    |p: (u128, Seq<Seq<char>>)| p.0 != id
}

/// Keeps a key other than `id`.
pub open spec fn key_keep(id: u128) -> spec_fn(u128) -> bool {
    |x: u128| x != id
}

/// A segment after a new language `id` is registered: one empty
/// association entry appended.
pub open spec fn seg_add_lang(s: SegmentView, id: u128) -> SegmentView {
    SegmentView {
        begin: s.begin,
        end: s.end,
        text: s.text,
        translations: s.translations.push((id, Seq::empty())),
    }
}

/// Segments after a new language `id` is registered.
pub open spec fn segs_add_lang(ss: Seq<SegmentView>, id: u128) -> Seq<SegmentView> {
    ss.map_values(|s: SegmentView| seg_add_lang(s, id))
}

/// A line after a new language `id` is registered: one empty word list
/// appended, and every segment extended likewise.
pub open spec fn line_add_lang(l: LineView, id: u128) -> LineView {
    LineView {
        begin: l.begin,
        end: l.end,
        agent_id: l.agent_id,
        original: segs_add_lang(l.original, id),
        uuid: l.uuid,
        translations: l.translations.push((id, Seq::empty())),
    }
}

/// Lines after a new language `id` is registered.
pub open spec fn lines_add_lang(ls: Seq<LineView>, id: u128) -> Seq<LineView> {
    ls.map_values(|l: LineView| line_add_lang(l, id))
}

/// A segment after language `id` is removed: every entry keyed by `id`
/// dropped.
pub open spec fn seg_remove_lang(s: SegmentView, id: u128) -> SegmentView {
    SegmentView {
        begin: s.begin,
        end: s.end,
        text: s.text,
        translations: s.translations.filter(pair_usize_keep(id)),
    }
}

/// Segments after language `id` is removed.
pub open spec fn segs_remove_lang(ss: Seq<SegmentView>, id: u128) -> Seq<SegmentView> {
    ss.map_values(|s: SegmentView| seg_remove_lang(s, id))
}

/// A line after language `id` is removed.
pub open spec fn line_remove_lang(l: LineView, id: u128) -> LineView {
    LineView {
        begin: l.begin,
        end: l.end,
        agent_id: l.agent_id,
        original: segs_remove_lang(l.original, id),
        uuid: l.uuid,
        translations: l.translations.filter(pair_string_keep(id)),
    }
}

/// Lines after language `id` is removed.
pub open spec fn lines_remove_lang(ls: Seq<LineView>, id: u128) -> Seq<LineView> {
    ls.map_values(|l: LineView| line_remove_lang(l, id))
}

/// One empty word-list entry per language of `langs`, in order.
pub open spec fn empty_string_entries(langs: Seq<u128>) -> Seq<(u128, Seq<Seq<char>>)> {
    langs.map_values(|lid: u128| (lid, Seq::<Seq<char>>::empty()))
}

/// One empty association entry per language of `langs`, in order.
pub open spec fn empty_usize_entries(langs: Seq<u128>) -> Seq<(u128, Seq<usize>)> {
    langs.map_values(|lid: u128| (lid, Seq::<usize>::empty()))
}

/// The keys of one empty association entry per language are exactly
/// those languages, in order.
pub proof fn blank_segment_keys_hold(langs: Seq<u128>)
    ensures
        crate::lyrics::pair_usize_keys(empty_usize_entries(langs)) == langs,
{
    assert(crate::lyrics::pair_usize_keys(empty_usize_entries(langs)) =~= langs);
}

/// No translation entry of any line or segment of `d` is keyed by `id`.
pub open spec fn no_entries_for(d: DocView, id: u128) -> bool {
    &&& forall|i: int, k: int|
        0 <= i < d.lines.len() && 0 <= k < d.lines[i].translations.len() ==> (
        #[trigger] d.lines[i].translations[k]).0 != id
    &&& forall|i: int, j: int, k: int|
        0 <= i < d.lines.len() && 0 <= j < d.lines[i].original.len() && 0 <= k
            < d.lines[i].original[j].translations.len() ==> (
        #[trigger] d.lines[i].original[j].translations[k]).0 != id
}

// ------------------------------------------------------------------
// Filtering helpers: in-place removal of the entries keyed by one
// language identifier.
// ------------------------------------------------------------------

/// Drops every registry entry whose id is `id`.
fn filter_entries(v: &mut Vec<TranslationEntry>, id: u128)
    ensures
        entry_views(final(v)@) == entry_views(old(v)@).filter(entry_keep(id)),
{
    let ghost orig = entry_views(old(v)@);
    let mut k: usize = 0;
    let ghost m: int = 0;
    while k < v.len()
        invariant
            0 <= (k as int) <= v@.len(),
            0 <= m <= orig.len(),
            entry_views(v@) =~= orig.subrange(0, m).filter(entry_keep(id)) + orig.subrange(
                m,
                orig.len() as int,
            ),
            (k as int) == orig.subrange(0, m).filter(entry_keep(id)).len(),
        decreases orig.len() - m,
    {
        proof {
            assert(entry_views(v@)[k as int] == orig.subrange(m, orig.len() as int)[0]);
            assert(entry_views(v@)[k as int] == orig[m]);
            assert(v@[k as int]@ == orig[m]);
        }
        let ghost pre_f = orig.subrange(0, m).filter(entry_keep(id));
        let ghost v_before = v@;
        if v[k].id == id {
            v.remove(k);
            proof {
                assert(v_before[k as int].id == id);
                assert(orig[m] == v_before[k as int]@);
                assert(orig[m].id == id);
                assert(!entry_keep(id)(orig[m]));
                assert(orig.subrange(0, m + 1) =~= orig.subrange(0, m).push(orig[m]));
                orig.subrange(0, m).lemma_filter_push(orig[m], entry_keep(id));
                assert(orig.subrange(0, m + 1).filter(entry_keep(id)) == pre_f);
                assert(v@ == v_before.remove(k as int));
                v_before.remove_ensures(k as int);
                assert(v@.len() == v_before.len() - 1);
                assert(entry_views(v@).len() == v@.len());
                assert(entry_views(v_before).len() == v_before.len());
                assert(entry_views(v_before) == pre_f + orig.subrange(m, orig.len() as int));
                assert(v_before.len() == k + (orig.len() - m));
                assert((pre_f + orig.subrange(m + 1, orig.len() as int)).len() == v@.len());
                assert forall|t: int| 0 <= t < entry_views(v@).len() implies entry_views(v@)[t]
                    == (pre_f + orig.subrange(m + 1, orig.len() as int))[t] by {
                    if t < k as int {
                        assert(v@[t] == v_before[t]);
                        assert(entry_views(v@)[t] == v@[t]@);
                        assert(entry_views(v_before)[t] == v_before[t]@);
                        assert(entry_views(v_before)[t] == (pre_f + orig.subrange(
                            m,
                            orig.len() as int,
                        ))[t]);
                        assert(entry_views(v_before)[t] == pre_f[t]);
                        assert((pre_f + orig.subrange(m + 1, orig.len() as int))[t] == pre_f[t]);
                    } else {
                        assert(v@[t] == v_before[t + 1]);
                        assert(entry_views(v@)[t] == v@[t]@);
                        assert(entry_views(v_before)[t + 1] == v_before[t + 1]@);
                        assert(entry_views(v_before)[t + 1] == (pre_f + orig.subrange(
                            m,
                            orig.len() as int,
                        ))[t + 1]);
                        assert(entry_views(v_before)[t + 1] == orig.subrange(
                            m,
                            orig.len() as int,
                        )[t + 1 - k]);
                        assert(entry_views(v_before)[t + 1] == orig[m + 1 + t - k]);
                        assert((pre_f + orig.subrange(m + 1, orig.len() as int))[t] == orig[m + 1
                            + t - k]);
                    }
                }
                assert(entry_views(v@) =~= pre_f + orig.subrange(m + 1, orig.len() as int));
                m = m + 1;
            }
        } else {
            proof {
                assert(orig.subrange(0, m + 1) =~= orig.subrange(0, m).push(orig[m]));
                orig.subrange(0, m).lemma_filter_push(orig[m], entry_keep(id));
                assert(orig.subrange(0, m + 1).filter(entry_keep(id)) == pre_f.push(orig[m]));
                assert(entry_views(v@) =~= pre_f.push(orig[m]) + orig.subrange(
                    m + 1,
                    orig.len() as int,
                ));
                m = m + 1;
            }
            k = k + 1;
        }
    }
    proof {
        assert(orig.subrange(0, m) =~= orig);
        assert(orig.subrange(m, orig.len() as int) =~= Seq::empty());
        assert(entry_views(v@) =~= orig.filter(entry_keep(id)));
    }
}

/// Drops every association entry whose key is `id`.
fn filter_pairs_usize(v: &mut Vec<(u128, Vec<usize>)>, id: u128)
    ensures
        pair_usize_views(final(v)@) == pair_usize_views(old(v)@).filter(pair_usize_keep(id)),
{
    let ghost orig = pair_usize_views(old(v)@);
    let mut k: usize = 0;
    let ghost m: int = 0;
    while k < v.len()
        invariant
            0 <= (k as int) <= v@.len(),
            0 <= m <= orig.len(),
            pair_usize_views(v@) =~= orig.subrange(0, m).filter(pair_usize_keep(id)) + orig.subrange(
                m,
                orig.len() as int,
            ),
            (k as int) == orig.subrange(0, m).filter(pair_usize_keep(id)).len(),
        decreases orig.len() - m,
    {
        proof {
            assert(pair_usize_views(v@)[k as int] == orig.subrange(m, orig.len() as int)[0]);
            assert(pair_usize_views(v@)[k as int] == orig[m]);
            assert(v@[k as int].0 == orig[m].0);
        }
        let ghost pre_f = orig.subrange(0, m).filter(pair_usize_keep(id));
        let ghost v_before = v@;
        if v[k].0 == id {
            v.remove(k);
            proof {
                assert(orig.subrange(0, m + 1) =~= orig.subrange(0, m).push(orig[m]));
                orig.subrange(0, m).lemma_filter_push(orig[m], pair_usize_keep(id));
                assert(orig.subrange(0, m + 1).filter(pair_usize_keep(id)) == pre_f);
                assert(v@ == v_before.remove(k as int));
                v_before.remove_ensures(k as int);
                assert(v@.len() == v_before.len() - 1);
                assert(pair_usize_views(v@).len() == v@.len());
                assert(pair_usize_views(v_before).len() == v_before.len());
                assert(pair_usize_views(v_before) == pre_f + orig.subrange(m, orig.len() as int));
                assert(v_before.len() == k + (orig.len() - m));
                assert((pre_f + orig.subrange(m + 1, orig.len() as int)).len() == v@.len());
                assert forall|t: int| 0 <= t < pair_usize_views(v@).len() implies pair_usize_views(v@)[t] == (pre_f
                    + orig.subrange(m + 1, orig.len() as int))[t] by {
                    if t < k as int {
                        assert(v@[t] == v_before[t]);
                        assert(pair_usize_views(v@)[t] == (v@[t].0, v@[t].1@));
                        assert(pair_usize_views(v_before)[t] == (v_before[t].0, v_before[t].1@));
                        assert(pair_usize_views(v_before)[t] == (pre_f + orig.subrange(
                            m,
                            orig.len() as int,
                        ))[t]);
                        assert(pair_usize_views(v_before)[t] == pre_f[t]);
                        assert((pre_f + orig.subrange(m + 1, orig.len() as int))[t] == pre_f[t]);
                    } else {
                        assert(v@[t] == v_before[t + 1]);
                        assert(pair_usize_views(v@)[t] == (v@[t].0, v@[t].1@));
                        assert(pair_usize_views(v_before)[t + 1] == (v_before[t + 1].0, v_before[t + 1].1@));
                        assert(pair_usize_views(v_before)[t + 1] == (pre_f + orig.subrange(
                            m,
                            orig.len() as int,
                        ))[t + 1]);
                        assert(pair_usize_views(v_before)[t + 1] == orig.subrange(
                            m,
                            orig.len() as int,
                        )[t + 1 - k]);
                        assert(pair_usize_views(v_before)[t + 1] == orig[m + 1 + t - k]);
                        assert((pre_f + orig.subrange(m + 1, orig.len() as int))[t] == orig[m + 1
                            + t - k]);
                    }
                }
                assert(pair_usize_views(v@) =~= pre_f + orig.subrange(m + 1, orig.len() as int));
                m = m + 1;
            }
        } else {
            proof {
                assert(orig.subrange(0, m + 1) =~= orig.subrange(0, m).push(orig[m]));
                orig.subrange(0, m).lemma_filter_push(orig[m], pair_usize_keep(id));
                assert(orig.subrange(0, m + 1).filter(pair_usize_keep(id)) == pre_f.push(orig[m]));
                assert(pair_usize_views(v@) =~= pre_f.push(orig[m]) + orig.subrange(
                    m + 1,
                    orig.len() as int,
                ));
                m = m + 1;
            }
            k = k + 1;
        }
    }
    proof {
        assert(orig.subrange(0, m) =~= orig);
        assert(orig.subrange(m, orig.len() as int) =~= Seq::empty());
        assert(pair_usize_views(v@) =~= orig.filter(pair_usize_keep(id)));
    }
}

/// Drops every line-translation entry whose key is `id`.
fn filter_pairs_string(v: &mut Vec<(u128, Vec<String>)>, id: u128)
    ensures
        pair_string_views(final(v)@) == pair_string_views(old(v)@).filter(pair_string_keep(id)),
{
    let ghost orig = pair_string_views(old(v)@);
    let mut k: usize = 0;
    let ghost m: int = 0;
    while k < v.len()
        invariant
            0 <= (k as int) <= v@.len(),
            0 <= m <= orig.len(),
            pair_string_views(v@) =~= orig.subrange(0, m).filter(pair_string_keep(id)) + orig.subrange(
                m,
                orig.len() as int,
            ),
            (k as int) == orig.subrange(0, m).filter(pair_string_keep(id)).len(),
        decreases orig.len() - m,
    {
        proof {
            assert(pair_string_views(v@)[k as int] == orig.subrange(m, orig.len() as int)[0]);
            assert(pair_string_views(v@)[k as int] == orig[m]);
            assert(v@[k as int].0 == orig[m].0);
        }
        let ghost pre_f = orig.subrange(0, m).filter(pair_string_keep(id));
        let ghost v_before = v@;
        if v[k].0 == id {
            v.remove(k);
            proof {
                assert(orig.subrange(0, m + 1) =~= orig.subrange(0, m).push(orig[m]));
                orig.subrange(0, m).lemma_filter_push(orig[m], pair_string_keep(id));
                assert(orig.subrange(0, m + 1).filter(pair_string_keep(id)) == pre_f);
                assert(v@ == v_before.remove(k as int));
                v_before.remove_ensures(k as int);
                assert(v@.len() == v_before.len() - 1);
                assert(pair_string_views(v@).len() == v@.len());
                assert(pair_string_views(v_before).len() == v_before.len());
                assert(pair_string_views(v_before) == pre_f + orig.subrange(m, orig.len() as int));
                assert(v_before.len() == k + (orig.len() - m));
                assert((pre_f + orig.subrange(m + 1, orig.len() as int)).len() == v@.len());
                assert forall|t: int| 0 <= t < pair_string_views(v@).len() implies pair_string_views(v@)[t] == (pre_f
                    + orig.subrange(m + 1, orig.len() as int))[t] by {
                    if t < k as int {
                        assert(v@[t] == v_before[t]);
                        assert(pair_string_views(v@)[t] == (v@[t].0, string_views(v@[t].1@)));
                        assert(pair_string_views(v_before)[t] == (v_before[t].0, string_views(v_before[t].1@)));
                        assert(pair_string_views(v_before)[t] == (pre_f + orig.subrange(
                            m,
                            orig.len() as int,
                        ))[t]);
                        assert(pair_string_views(v_before)[t] == pre_f[t]);
                        assert((pre_f + orig.subrange(m + 1, orig.len() as int))[t] == pre_f[t]);
                    } else {
                        assert(v@[t] == v_before[t + 1]);
                        assert(pair_string_views(v@)[t] == (v@[t].0, string_views(v@[t].1@)));
                        assert(pair_string_views(v_before)[t + 1] == (v_before[t + 1].0, string_views(v_before[t + 1].1@)));
                        assert(pair_string_views(v_before)[t + 1] == (pre_f + orig.subrange(
                            m,
                            orig.len() as int,
                        ))[t + 1]);
                        assert(pair_string_views(v_before)[t + 1] == orig.subrange(
                            m,
                            orig.len() as int,
                        )[t + 1 - k]);
                        assert(pair_string_views(v_before)[t + 1] == orig[m + 1 + t - k]);
                        assert((pre_f + orig.subrange(m + 1, orig.len() as int))[t] == orig[m + 1
                            + t - k]);
                    }
                }
                assert(pair_string_views(v@) =~= pre_f + orig.subrange(m + 1, orig.len() as int));
                m = m + 1;
            }
        } else {
            proof {
                assert(orig.subrange(0, m + 1) =~= orig.subrange(0, m).push(orig[m]));
                orig.subrange(0, m).lemma_filter_push(orig[m], pair_string_keep(id));
                assert(orig.subrange(0, m + 1).filter(pair_string_keep(id)) == pre_f.push(orig[m]));
                assert(pair_string_views(v@) =~= pre_f.push(orig[m]) + orig.subrange(
                    m + 1,
                    orig.len() as int,
                ));
                m = m + 1;
            }
            k = k + 1;
        }
    }
    proof {
        assert(orig.subrange(0, m) =~= orig);
        assert(orig.subrange(m, orig.len() as int) =~= Seq::empty());
        assert(pair_string_views(v@) =~= orig.filter(pair_string_keep(id)));
    }
}

// ------------------------------------------------------------------
// Lemmas about filtering keyed sequences.
// ------------------------------------------------------------------

/// Filtering registry entries by id and projecting the ids commutes with
/// projecting and filtering.
proof fn lemma_entry_ids_of_filter(s: Seq<TranslationEntryView>, id: u128)
    ensures
        entry_ids(s.filter(entry_keep(id))) == entry_ids(s).filter(key_keep(id)),
    decreases s.len(),
{
    reveal(Seq::filter);
    if s.len() == 0 {
        assert(entry_ids(s.filter(entry_keep(id))) =~= entry_ids(s).filter(key_keep(id)));
    } else {
        let init = s.drop_last();
        lemma_entry_ids_of_filter(init, id);
        assert(entry_ids(s).drop_last() =~= entry_ids(init));
        assert(entry_ids(s).last() == s.last().id);
        if entry_keep(id)(s.last()) {
            assert(s.filter(entry_keep(id)) == init.filter(entry_keep(id)).push(s.last()));
            assert(entry_ids(s.filter(entry_keep(id))) =~= entry_ids(
                init.filter(entry_keep(id)),
            ).push(s.last().id));
        } else {
            assert(s.filter(entry_keep(id)) == init.filter(entry_keep(id)));
        }
        assert(entry_ids(s.filter(entry_keep(id))) =~= entry_ids(s).filter(key_keep(id)));
    }
}

/// Filtering word-list entries by key and projecting the keys commutes
/// with projecting and filtering.
proof fn lemma_string_keys_of_filter(s: Seq<(u128, Seq<Seq<char>>)>, id: u128)
    ensures
        pair_string_keys(s.filter(pair_string_keep(id))) == pair_string_keys(s).filter(
            key_keep(id),
        ),
    decreases s.len(),
{
    reveal(Seq::filter);
    if s.len() == 0 {
        assert(pair_string_keys(s.filter(pair_string_keep(id))) =~= pair_string_keys(s).filter(
            key_keep(id),
        ));
    } else {
        let init = s.drop_last();
        lemma_string_keys_of_filter(init, id);
        assert(pair_string_keys(s).drop_last() =~= pair_string_keys(init));
        assert(pair_string_keys(s).last() == s.last().0);
        if pair_string_keep(id)(s.last()) {
            assert(s.filter(pair_string_keep(id)) == init.filter(pair_string_keep(id)).push(
                s.last(),
            ));
            assert(pair_string_keys(s.filter(pair_string_keep(id))) =~= pair_string_keys(
                init.filter(pair_string_keep(id)),
            ).push(s.last().0));
        } else {
            assert(s.filter(pair_string_keep(id)) == init.filter(pair_string_keep(id)));
        }
        assert(pair_string_keys(s.filter(pair_string_keep(id))) =~= pair_string_keys(s).filter(
            key_keep(id),
        ));
    }
}

/// Filtering association entries by key and projecting the keys commutes
/// with projecting and filtering.
proof fn lemma_usize_keys_of_filter(s: Seq<(u128, Seq<usize>)>, id: u128)
    ensures
        pair_usize_keys(s.filter(pair_usize_keep(id))) == pair_usize_keys(s).filter(key_keep(id)),
    decreases s.len(),
{
    reveal(Seq::filter);
    if s.len() == 0 {
        assert(pair_usize_keys(s.filter(pair_usize_keep(id))) =~= pair_usize_keys(s).filter(
            key_keep(id),
        ));
    } else {
        let init = s.drop_last();
        lemma_usize_keys_of_filter(init, id);
        assert(pair_usize_keys(s).drop_last() =~= pair_usize_keys(init));
        assert(pair_usize_keys(s).last() == s.last().0);
        if pair_usize_keep(id)(s.last()) {
            assert(s.filter(pair_usize_keep(id)) == init.filter(pair_usize_keep(id)).push(
                s.last(),
            ));
            assert(pair_usize_keys(s.filter(pair_usize_keep(id))) =~= pair_usize_keys(
                init.filter(pair_usize_keep(id)),
            ).push(s.last().0));
        } else {
            assert(s.filter(pair_usize_keep(id)) == init.filter(pair_usize_keep(id)));
        }
        assert(pair_usize_keys(s.filter(pair_usize_keep(id))) =~= pair_usize_keys(s).filter(
            key_keep(id),
        ));
    }
}

/// Every element of a filtered sequence occurs in the original.
pub proof fn lemma_filter_elements<X>(s: Seq<X>, pred: spec_fn(X) -> bool)
    ensures
        forall|i: int|
            0 <= i < s.filter(pred).len() ==> s.contains(#[trigger] s.filter(pred)[i]),
    decreases s.len(),
{
    reveal(Seq::filter);
    if s.len() > 0 {
        let init = s.drop_last();
        lemma_filter_elements(init, pred);
        assert forall|i: int| 0 <= i < s.filter(pred).len() implies s.contains(
            #[trigger] s.filter(pred)[i],
        ) by {
            if i < init.filter(pred).len() {
                assert(init.contains(init.filter(pred)[i]));
                let w = choose|w: int| 0 <= w < init.len() && init[w] == init.filter(pred)[i];
                assert(s[w] == s.filter(pred)[i]);
            } else {
                assert(s.filter(pred)[i] == s.last());
                assert(s[s.len() - 1] == s.last());
            }
        }
    }
}

/// Filtering keeps pairwise distinctness.
proof fn lemma_filter_distinct(s: Seq<u128>, pred: spec_fn(u128) -> bool)
    requires
        forall|i: int, j: int| 0 <= i < j < s.len() ==> s[i] != s[j],
    ensures
        forall|i: int, j: int|
            0 <= i < j < s.filter(pred).len() ==> s.filter(pred)[i] != s.filter(pred)[j],
    decreases s.len(),
{
    reveal(Seq::filter);
    if s.len() > 0 {
        let init = s.drop_last();
        lemma_filter_distinct(init, pred);
        lemma_filter_elements(init, pred);
        assert forall|i: int, j: int| 0 <= i < j < s.filter(pred).len() implies s.filter(pred)[i]
            != s.filter(pred)[j] by {
            if j < init.filter(pred).len() {
            } else if pred(s.last()) && j == s.filter(pred).len() - 1 {
                assert(s.filter(pred)[j] == s.last());
                assert(init.contains(init.filter(pred)[i]));
                let w = choose|w: int| 0 <= w < init.len() && init[w] == init.filter(pred)[i];
                assert(s[w] == s.filter(pred)[i]);
                assert(s[s.len() - 1] == s.last());
            }
        }
    }
}

// ------------------------------------------------------------------
// The operations.
// ------------------------------------------------------------------

impl BabelLyrics {
    /// Registers language `id` under the given display name and appends an
    /// empty translation entry keyed by `id` to every line and segment.
    /// A no-op returning `false` when `id` is already registered.
    pub fn add_language_with_id(&mut self, id: u128, name: String) -> (added: bool)
        ensures
            added == !old(self)@.lang_ids().contains(id),
            !added ==> final(self)@ == old(self)@,
            added ==> final(self)@.metadata.agents == old(self)@.metadata.agents,
            added ==> final(self)@.metadata.translations == old(self)@.metadata.translations.push(
                TranslationEntryView { language: name@, id },
            ),
            added ==> final(self)@.lines == lines_add_lang(old(self)@.lines, id),
            old(self)@.wf() ==> final(self)@.wf(),
            old(self)@.wf() && old(self)@.langs_unique() ==> final(self)@.langs_unique(),
    {
        let ghost orig = self@;
        let ghost name_view = name@;
        let mut k: usize = 0;
        let n = self.metadata.translations.len();
        while k < n
            invariant
                self == old(self),
                n == self.metadata.translations@.len(),
                0 <= (k as int) <= n as int,
                forall|t: int| 0 <= t < k as int ==> orig.lang_ids()[t] != id,
                orig == self@,
            decreases n - k,
        {
            if self.metadata.translations[k].id == id {
                assert(orig.lang_ids()[k as int] == id);
                assert(orig.lang_ids().contains(id));
                return false;
            }
            k = k + 1;
        }
        proof {
            if orig.lang_ids().contains(id) {
                let w = choose|w: int| 0 <= w < orig.lang_ids().len() && orig.lang_ids()[w] == id;
                assert(false);
            }
        }
        self.metadata.translations.push(TranslationEntry { language: name, id });
        proof {
            assert(self@.metadata.translations =~~= orig.metadata.translations.push(
                TranslationEntryView { language: name_view, id },
            ));
            assert(self@.lines =~~= orig.lines);
        }
        let line_count = self.lyrics.lines.len();
        let mut i: usize = 0;
        while i < line_count
            invariant
                line_count == self.lyrics.lines@.len(),
                0 <= (i as int) <= line_count as int,
                self@.metadata.agents == orig.metadata.agents,
                self@.metadata.translations == orig.metadata.translations.push(
                    TranslationEntryView { language: name_view, id },
                ),
                forall|t: int|
                    0 <= t < i as int ==> self@.lines[t] == line_add_lang(
                        #[trigger] orig.lines[t],
                        id,
                    ),
                forall|t: int|
                    (i as int) <= t && t < line_count as int ==> self@.lines[t]
                        == #[trigger] orig.lines[t],
            decreases line_count - i,
        {
            let ghost line_orig = self@.lines[i as int];
            self.lyrics.lines[i].translations.push((id, Vec::new()));
            proof {
                assert(self@.lines[i as int].translations =~~= line_orig.translations.push(
                    (id, Seq::empty()),
                ));
            }
            let seg_count = self.lyrics.lines[i].original.len();
            let mut j: usize = 0;
            while j < seg_count
                invariant
                    i < line_count,
                    line_count == self.lyrics.lines@.len(),
                    seg_count == self@.lines[i as int].original.len(),
                    0 <= (j as int) <= seg_count as int,
                    self@.metadata.agents == orig.metadata.agents,
                    self@.metadata.translations == orig.metadata.translations.push(
                        TranslationEntryView { language: name_view, id },
                    ),
                    forall|t: int|
                        0 <= t < i as int ==> self@.lines[t] == line_add_lang(
                            #[trigger] orig.lines[t],
                            id,
                        ),
                    forall|t: int|
                        (i as int) < t && t < line_count as int ==> self@.lines[t]
                            == #[trigger] orig.lines[t],
                    self@.lines[i as int].begin == line_orig.begin,
                    self@.lines[i as int].end == line_orig.end,
                    self@.lines[i as int].agent_id == line_orig.agent_id,
                    self@.lines[i as int].uuid == line_orig.uuid,
                    self@.lines[i as int].translations == line_orig.translations.push(
                        (id, Seq::empty()),
                    ),
                    forall|t: int|
                        0 <= t < j as int ==> self@.lines[i as int].original[t] == seg_add_lang(
                            #[trigger] line_orig.original[t],
                            id,
                        ),
                    forall|t: int|
                        (j as int) <= t && t < seg_count as int ==> self@.lines[i as int].original[t]
                            == #[trigger] line_orig.original[t],
                decreases seg_count - j,
            {
                self.lyrics.lines[i].original[j].translations.push((id, Vec::new()));
                proof {
                    assert(self@.lines[i as int].original[j as int].translations
                        =~~= line_orig.original[j as int].translations.push((id, Seq::empty())));
                    assert(self@.lines[i as int].original[j as int] == seg_add_lang(
                        line_orig.original[j as int],
                        id,
                    ));
                }
                j = j + 1;
            }
            proof {
                assert(self@.lines[i as int].original =~~= segs_add_lang(line_orig.original, id));
                assert(self@.lines[i as int] == line_add_lang(line_orig, id));
            }
            i = i + 1;
        }
        proof {
            assert(self@.lines =~~= lines_add_lang(orig.lines, id));
            assert(self@.lang_ids() =~~= orig.lang_ids().push(id));
            lemma_add_lang_preserves_wf(orig, self@, id);
        }
        true
    }

    /// Generates a fresh identifier, registers a language under it with the
    /// given display name, and appends an empty translation entry keyed by
    /// it to every line and segment. Returns the new identifier, or `None`
    /// in the vanishingly unlikely event that the drawn identifier is
    /// already registered, in which case the document is unchanged.
    pub fn add_language(&mut self, name: String) -> (r: Option<u128>)
        ensures
            match r {
                None => final(self)@ == old(self)@,
                Some(id) => {
                    &&& !old(self)@.lang_ids().contains(id)
                    &&& final(self)@.metadata.agents == old(self)@.metadata.agents
                    &&& final(self)@.metadata.translations == old(
                        self,
                    )@.metadata.translations.push(TranslationEntryView { language: name@, id })
                    &&& final(self)@.lines == lines_add_lang(old(self)@.lines, id)
                },
            },
            old(self)@.wf() ==> final(self)@.wf(),
            old(self)@.wf() && old(self)@.langs_unique() ==> final(self)@.langs_unique(),
    {
        let id = fresh_id();
        let added = self.add_language_with_id(id, name);
        if added {
            Some(id)
        } else {
            None
        }
    }

    /// Unregisters language `id` and removes every line and segment entry
    /// keyed by it. A no-op when `id` is not registered.
    pub fn remove_language(&mut self, id: u128)
        ensures
            final(self)@.metadata.agents == old(self)@.metadata.agents,
            final(self)@.metadata.translations == old(self)@.metadata.translations.filter(
                entry_keep(id),
            ),
            final(self)@.lines == lines_remove_lang(old(self)@.lines, id),
            no_entries_for(final(self)@, id),
            old(self)@.wf() ==> final(self)@.wf(),
            old(self)@.langs_unique() ==> final(self)@.langs_unique(),
    {
        let ghost orig = self@;
        filter_entries(&mut self.metadata.translations, id);
        let line_count = self.lyrics.lines.len();
        let mut i: usize = 0;
        while i < line_count
            invariant
                line_count == self.lyrics.lines@.len(),
                0 <= (i as int) <= line_count as int,
                self@.metadata.agents == orig.metadata.agents,
                self@.metadata.translations == orig.metadata.translations.filter(entry_keep(id)),
                forall|t: int|
                    0 <= t < i as int ==> self@.lines[t] == line_remove_lang(
                        #[trigger] orig.lines[t],
                        id,
                    ),
                forall|t: int|
                    (i as int) <= t && t < line_count as int ==> self@.lines[t]
                        == #[trigger] orig.lines[t],
            decreases line_count - i,
        {
            let ghost line_orig = self@.lines[i as int];
            filter_pairs_string(&mut self.lyrics.lines[i].translations, id);
            let seg_count = self.lyrics.lines[i].original.len();
            let mut j: usize = 0;
            while j < seg_count
                invariant
                    i < line_count,
                    line_count == self.lyrics.lines@.len(),
                    seg_count == self@.lines[i as int].original.len(),
                    0 <= (j as int) <= seg_count as int,
                    self@.metadata.agents == orig.metadata.agents,
                    self@.metadata.translations == orig.metadata.translations.filter(
                        entry_keep(id),
                    ),
                    forall|t: int|
                        0 <= t < i as int ==> self@.lines[t] == line_remove_lang(
                            #[trigger] orig.lines[t],
                            id,
                        ),
                    forall|t: int|
                        (i as int) < t && t < line_count as int ==> self@.lines[t]
                            == #[trigger] orig.lines[t],
                    self@.lines[i as int].begin == line_orig.begin,
                    self@.lines[i as int].end == line_orig.end,
                    self@.lines[i as int].agent_id == line_orig.agent_id,
                    self@.lines[i as int].uuid == line_orig.uuid,
                    self@.lines[i as int].translations == line_orig.translations.filter(
                        pair_string_keep(id),
                    ),
                    forall|t: int|
                        0 <= t < j as int ==> self@.lines[i as int].original[t] == seg_remove_lang(
                            #[trigger] line_orig.original[t],
                            id,
                        ),
                    forall|t: int|
                        (j as int) <= t && t < seg_count as int ==> self@.lines[i as int].original[t]
                            == #[trigger] line_orig.original[t],
                decreases seg_count - j,
            {
                filter_pairs_usize(&mut self.lyrics.lines[i].original[j].translations, id);
                proof {
                    assert(self@.lines[i as int].original[j as int] == seg_remove_lang(
                        line_orig.original[j as int],
                        id,
                    ));
                }
                j = j + 1;
            }
            proof {
                assert(self@.lines[i as int].original =~~= segs_remove_lang(
                    line_orig.original,
                    id,
                ));
                assert(self@.lines[i as int] == line_remove_lang(line_orig, id));
            }
            i = i + 1;
        }
        proof {
            assert(self@.lines =~~= lines_remove_lang(orig.lines, id));
            lemma_remove_lang_preserves_wf(orig, self@, id);
            assert forall|i2: int, k2: int|
                0 <= i2 < self@.lines.len() && 0 <= k2 < self@.lines[i2].translations.len() implies (
            #[trigger] self@.lines[i2].translations[k2]).0 != id by {
                assert(self@.lines[i2] == line_remove_lang(orig.lines[i2], id));
                orig.lines[i2].translations.lemma_filter_pred(pair_string_keep(id), k2);
            }
            assert forall|i2: int, j2: int, k2: int|
                0 <= i2 < self@.lines.len() && 0 <= j2 < self@.lines[i2].original.len() && 0 <= k2
                    < self@.lines[i2].original[j2].translations.len() implies (
            #[trigger] self@.lines[i2].original[j2].translations[k2]).0 != id by {
                assert(self@.lines[i2] == line_remove_lang(orig.lines[i2], id));
                assert(self@.lines[i2].original[j2] == seg_remove_lang(
                    orig.lines[i2].original[j2],
                    id,
                ));
                orig.lines[i2].original[j2].translations.lemma_filter_pred(
                    pair_usize_keep(id),
                    k2,
                );
            }
        }
    }

    /// The per-language empty word lists a freshly created line starts
    /// with: one `(id, [])` pair per registered language, in registry order.
    pub(crate) fn empty_line_translations(&self) -> (r: Vec<(u128, Vec<String>)>)
        ensures
            pair_string_views(r@) == empty_string_entries(self@.lang_ids()),
    {
        let mut r: Vec<(u128, Vec<String>)> = Vec::new();
        let n = self.metadata.translations.len();
        let mut k: usize = 0;
        while k < n
            invariant
                n == self.metadata.translations@.len(),
                0 <= (k as int) <= n as int,
                r@.len() == k as int,
                pair_string_views(r@) =~~= empty_string_entries(
                    self@.lang_ids().subrange(0, k as int),
                ),
            decreases n - k,
        {
            let entry_id = self.metadata.translations[k].id;
            let ghost r_prev = r@;
            r.push((entry_id, Vec::new()));
            proof {
                assert(self@.lang_ids()[k as int] == self.metadata.translations@[k as int]@.id);
                assert(entry_id == self@.lang_ids()[k as int]);
                assert(r@ == r_prev.push(r@[k as int]));
                assert(r@[k as int].0 == entry_id);
                assert(r@[k as int].1@ =~= Seq::<String>::empty());
                assert(self@.lang_ids().subrange(0, k as int + 1) =~= self@.lang_ids().subrange(
                    0,
                    k as int,
                ).push(self@.lang_ids()[k as int]));
                assert forall|t: int| 0 <= t < pair_string_views(r@).len() implies
                    pair_string_views(r@)[t] == empty_string_entries(
                    self@.lang_ids().subrange(0, k as int + 1),
                )[t] by {
                    if t < k as int {
                        assert(r@[t] == r_prev[t]);
                        assert(pair_string_views(r@)[t] == (r@[t].0, string_views(r@[t].1@)));
                        assert(pair_string_views(r_prev)[t] == (
                            r_prev[t].0,
                            string_views(r_prev[t].1@),
                        ));
                        assert(pair_string_views(r_prev)[t] == empty_string_entries(
                            self@.lang_ids().subrange(0, k as int),
                        )[t]);
                        assert(empty_string_entries(self@.lang_ids().subrange(0, k as int))[t]
                            == empty_string_entries(
                            self@.lang_ids().subrange(0, k as int + 1),
                        )[t]);
                    } else {
                        assert(pair_string_views(r@)[t] == (r@[t].0, string_views(r@[t].1@)));
                        assert(string_views(r@[t].1@) =~= Seq::<Seq<char>>::empty());
                        assert(pair_string_views(r@)[t] == (
                            self@.lang_ids()[k as int],
                            Seq::<Seq<char>>::empty(),
                        ));
                        assert(empty_string_entries(self@.lang_ids().subrange(0, k as int + 1))[t]
                            == (self@.lang_ids()[k as int], Seq::<Seq<char>>::empty()));
                    }
                }
                assert(pair_string_views(r@) =~~= empty_string_entries(
                    self@.lang_ids().subrange(0, k as int + 1),
                ));
            }
            k = k + 1;
        }
        proof {
            assert(self@.lang_ids().subrange(0, n as int) =~= self@.lang_ids());
        }
        r
    }

    /// The per-language empty association lists a freshly created segment
    /// starts with.
    pub(crate) fn empty_segment_translations(&self) -> (r: Vec<(u128, Vec<usize>)>)
        ensures
            pair_usize_views(r@) == empty_usize_entries(self@.lang_ids()),
    {
        let mut r: Vec<(u128, Vec<usize>)> = Vec::new();
        let n = self.metadata.translations.len();
        let mut k: usize = 0;
        while k < n
            invariant
                n == self.metadata.translations@.len(),
                0 <= (k as int) <= n as int,
                r@.len() == k as int,
                pair_usize_views(r@) =~~= empty_usize_entries(
                    self@.lang_ids().subrange(0, k as int),
                ),
            decreases n - k,
        {
            let entry_id = self.metadata.translations[k].id;
            let ghost r_prev = r@;
            r.push((entry_id, Vec::new()));
            proof {
                assert(self@.lang_ids()[k as int] == self.metadata.translations@[k as int]@.id);
                assert(entry_id == self@.lang_ids()[k as int]);
                assert(r@ == r_prev.push(r@[k as int]));
                assert(r@[k as int].0 == entry_id);
                assert(r@[k as int].1@ =~= Seq::<usize>::empty());
                assert(self@.lang_ids().subrange(0, k as int + 1) =~= self@.lang_ids().subrange(
                    0,
                    k as int,
                ).push(self@.lang_ids()[k as int]));
                assert forall|t: int| 0 <= t < pair_usize_views(r@).len() implies
                    pair_usize_views(r@)[t] == empty_usize_entries(
                    self@.lang_ids().subrange(0, k as int + 1),
                )[t] by {
                    if t < k as int {
                        assert(r@[t] == r_prev[t]);
                        assert(pair_usize_views(r@)[t] == (r@[t].0, r@[t].1@));
                        assert(pair_usize_views(r_prev)[t] == (r_prev[t].0, r_prev[t].1@));
                        assert(pair_usize_views(r_prev)[t] == empty_usize_entries(
                            self@.lang_ids().subrange(0, k as int),
                        )[t]);
                        assert(empty_usize_entries(self@.lang_ids().subrange(0, k as int))[t]
                            == empty_usize_entries(self@.lang_ids().subrange(0, k as int + 1))[t]);
                    } else {
                        assert(pair_usize_views(r@)[t] == (r@[t].0, r@[t].1@));
                        assert(r@[t].1@ =~= Seq::<usize>::empty());
                        assert(pair_usize_views(r@)[t] == (
                            self@.lang_ids()[k as int],
                            Seq::<usize>::empty(),
                        ));
                        assert(empty_usize_entries(self@.lang_ids().subrange(0, k as int + 1))[t]
                            == (self@.lang_ids()[k as int], Seq::<usize>::empty()));
                    }
                }
                assert(pair_usize_views(r@) =~~= empty_usize_entries(
                    self@.lang_ids().subrange(0, k as int + 1),
                ));
            }
            k = k + 1;
        }
        proof {
            assert(self@.lang_ids().subrange(0, n as int) =~= self@.lang_ids());
        }
        r
    }

    /// Appends a new line: zero-duration bounds, empty agent and text, a
    /// freshly generated uuid, and one empty translation entry per
    /// registered language.
    pub fn add_line(&mut self)
        ensures
            final(self)@.metadata == old(self)@.metadata,
            final(self)@.lines.len() == old(self)@.lines.len() + 1,
            final(self)@.lines.subrange(0, old(self)@.lines.len() as int) == old(self)@.lines,
            final(self)@.lines.last().begin == 0,
            final(self)@.lines.last().end == 0,
            final(self)@.lines.last().agent_id == Seq::<char>::empty(),
            final(self)@.lines.last().original == Seq::<SegmentView>::empty(),
            final(self)@.lines.last().translations == empty_string_entries(old(self)@.lang_ids()),
            old(self)@.wf() ==> final(self)@.wf(),
    {
        let ghost orig = self@;
        let translations = self.empty_line_translations();
        let uuid = fresh_id();
        let line = LyricsLine {
            begin: Timestamp::zero(),
            end: Timestamp::zero(),
            agent_id: String::new(),
            original: Vec::new(),
            uuid,
            translations,
        };
        self.lyrics.lines.push(line);
        proof {
            assert(self@.lines =~~= orig.lines.push(self@.lines.last()));
            assert(self@.lines.subrange(0, orig.lines.len() as int) =~~= orig.lines);
            assert(self@.lines.last().original =~~= Seq::<SegmentView>::empty());
            if orig.wf() {
                let langs = self@.lang_ids();
                assert(pair_string_keys(empty_string_entries(langs)) =~~= langs);
                assert(self@.lines.last().wf_for(langs));
                assert forall|i: int| 0 <= i < self@.lines.len() implies (
                #[trigger] self@.lines[i]).wf_for(langs) by {
                    if i < orig.lines.len() {
                        assert(self@.lines[i] == orig.lines[i]);
                        assert(orig.lines[i].wf_for(orig.lang_ids()));
                    }
                }
            }
        }
    }
}

// ------------------------------------------------------------------
// Invariant preservation.
// ------------------------------------------------------------------

/// Registering a language keeps the document well-formed, and keeps the
/// registry free of duplicates when the new identifier is fresh.
proof fn lemma_add_lang_preserves_wf(pre: DocView, post: DocView, id: u128)
    requires
        !pre.lang_ids().contains(id),
        post.lang_ids() == pre.lang_ids().push(id),
        post.lines == lines_add_lang(pre.lines, id),
    ensures
        pre.wf() ==> post.wf(),
        pre.wf() && pre.langs_unique() ==> post.langs_unique(),
{
    if pre.wf() {
        let langs = post.lang_ids();
        assert forall|i: int| 0 <= i < post.lines.len() implies (#[trigger] post.lines[i]).wf_for(
            langs,
        ) by {
            let l = pre.lines[i];
            assert(l.wf_for(pre.lang_ids()));
            assert(post.lines[i] == line_add_lang(l, id));
            assert(post.lines[i].keys() =~~= l.keys().push(id));
            assert forall|j: int| 0 <= j < post.lines[i].original.len() implies (
            #[trigger] post.lines[i].original[j]).wf_for(langs) by {
                assert(post.lines[i].original[j] == seg_add_lang(l.original[j], id));
                assert(post.lines[i].original[j].keys() =~~= l.original[j].keys().push(id));
                assert(l.original[j].wf_for(pre.lang_ids()));
            }
        }
        if pre.langs_unique() {
            assert forall|i: int, j: int| 0 <= i < j < langs.len() implies langs[i] != langs[j] by {
                if j == langs.len() - 1 {
                    assert(langs[j] == id);
                    assert(pre.lang_ids()[i] == langs[i]);
                    if langs[i] == id {
                        assert(pre.lang_ids().contains(id));
                    }
                }
            }
        }
    }
}

/// Some word-list entry is keyed by `id`.
pub open spec fn has_string_entry(ps: Seq<(u128, Seq<Seq<char>>)>, id: u128) -> bool {
    exists|k: int| 0 <= k < ps.len() && (#[trigger] ps[k]).0 == id
}

/// Some association entry is keyed by `id`.
pub open spec fn has_assoc_entry(ps: Seq<(u128, Seq<usize>)>, id: u128) -> bool {
    exists|k: int| 0 <= k < ps.len() && (#[trigger] ps[k]).0 == id
}

/// Immediately after a language is registered under a fresh identifier,
/// every line and every segment of the document holds exactly one
/// translation entry keyed by that identifier.
pub proof fn lemma_added_language_entry_unique(pre: DocView, post: DocView, id: u128)
    requires
        pre.wf(),
        !pre.lang_ids().contains(id),
        post.lines == lines_add_lang(pre.lines, id),
    ensures
        forall|i: int|
            0 <= i < post.lines.len() ==> has_string_entry(
                (#[trigger] post.lines[i]).translations,
                id,
            ),
        forall|i: int, k1: int, k2: int|
            0 <= i < post.lines.len() && 0 <= k1 < post.lines[i].translations.len() && 0 <= k2
                < post.lines[i].translations.len() && (#[trigger] post.lines[i].translations[k1]).0
                == id && (#[trigger] post.lines[i].translations[k2]).0 == id ==> k1 == k2,
        forall|i: int, j: int|
            0 <= i < post.lines.len() && 0 <= j < post.lines[i].original.len() ==> has_assoc_entry(
                (#[trigger] post.lines[i].original[j]).translations,
                id,
            ),
        forall|i: int, j: int, k1: int, k2: int|
            0 <= i < post.lines.len() && 0 <= j < post.lines[i].original.len() && 0 <= k1
                < post.lines[i].original[j].translations.len() && 0 <= k2
                < post.lines[i].original[j].translations.len() && (
            #[trigger] post.lines[i].original[j].translations[k1]).0 == id && (
            #[trigger] post.lines[i].original[j].translations[k2]).0 == id ==> k1 == k2,
{
    assert forall|i: int| 0 <= i < post.lines.len() implies has_string_entry(
        (#[trigger] post.lines[i]).translations,
        id,
    ) by {
        let l = pre.lines[i];
        assert(post.lines[i] == line_add_lang(l, id));
        let last = post.lines[i].translations.len() - 1;
        assert((post.lines[i].translations[last]).0 == id);
    }
    assert forall|i: int, k1: int, k2: int|
        0 <= i < post.lines.len() && 0 <= k1 < post.lines[i].translations.len() && 0 <= k2
            < post.lines[i].translations.len() && (#[trigger] post.lines[i].translations[k1]).0
            == id && (#[trigger] post.lines[i].translations[k2]).0 == id implies k1 == k2 by {
        let l = pre.lines[i];
        assert(post.lines[i] == line_add_lang(l, id));
        assert(l.wf_for(pre.lang_ids()));
        let last = post.lines[i].translations.len() - 1;
        if k1 < last {
            assert(post.lines[i].translations[k1] == l.translations[k1]);
            assert(l.keys()[k1] == l.translations[k1].0);
            assert(pre.lang_ids().contains(l.translations[k1].0));
        }
        if k2 < last {
            assert(post.lines[i].translations[k2] == l.translations[k2]);
            assert(l.keys()[k2] == l.translations[k2].0);
            assert(pre.lang_ids().contains(l.translations[k2].0));
        }
    }
    assert forall|i: int, j: int|
        0 <= i < post.lines.len() && 0 <= j < post.lines[i].original.len() implies has_assoc_entry(
        (#[trigger] post.lines[i].original[j]).translations,
        id,
    ) by {
        let l = pre.lines[i];
        assert(post.lines[i] == line_add_lang(l, id));
        assert(post.lines[i].original[j] == seg_add_lang(l.original[j], id));
        let last = post.lines[i].original[j].translations.len() - 1;
        assert((post.lines[i].original[j].translations[last]).0 == id);
    }
    assert forall|i: int, j: int, k1: int, k2: int|
        0 <= i < post.lines.len() && 0 <= j < post.lines[i].original.len() && 0 <= k1
            < post.lines[i].original[j].translations.len() && 0 <= k2
            < post.lines[i].original[j].translations.len() && (
        #[trigger] post.lines[i].original[j].translations[k1]).0 == id && (
        #[trigger] post.lines[i].original[j].translations[k2]).0 == id implies k1 == k2 by {
        let l = pre.lines[i];
        assert(post.lines[i] == line_add_lang(l, id));
        assert(l.wf_for(pre.lang_ids()));
        let s = l.original[j];
        assert(s.wf_for(pre.lang_ids()));
        assert(post.lines[i].original[j] == seg_add_lang(s, id));
        let last = post.lines[i].original[j].translations.len() - 1;
        if k1 < last {
            assert(post.lines[i].original[j].translations[k1] == s.translations[k1]);
            assert(s.keys()[k1] == s.translations[k1].0);
            assert(pre.lang_ids().contains(s.translations[k1].0));
        }
        if k2 < last {
            assert(post.lines[i].original[j].translations[k2] == s.translations[k2]);
            assert(s.keys()[k2] == s.translations[k2].0);
            assert(pre.lang_ids().contains(s.translations[k2].0));
        }
    }
}

/// Unregistering a language keeps the document well-formed and the
/// registry free of duplicates.
proof fn lemma_remove_lang_preserves_wf(pre: DocView, post: DocView, id: u128)
    requires
        post.metadata.translations == pre.metadata.translations.filter(entry_keep(id)),
        post.lines == lines_remove_lang(pre.lines, id),
    ensures
        pre.wf() ==> post.wf(),
        pre.langs_unique() ==> post.langs_unique(),
{
    lemma_entry_ids_of_filter(pre.metadata.translations, id);
    assert(post.lang_ids() == pre.lang_ids().filter(key_keep(id)));
    if pre.wf() {
        let langs = post.lang_ids();
        assert forall|i: int| 0 <= i < post.lines.len() implies (#[trigger] post.lines[i]).wf_for(
            langs,
        ) by {
            let l = pre.lines[i];
            assert(l.wf_for(pre.lang_ids()));
            assert(post.lines[i] == line_remove_lang(l, id));
            lemma_string_keys_of_filter(l.translations, id);
            assert(post.lines[i].keys() == l.keys().filter(key_keep(id)));
            assert forall|j: int| 0 <= j < post.lines[i].original.len() implies (
            #[trigger] post.lines[i].original[j]).wf_for(langs) by {
                assert(post.lines[i].original[j] == seg_remove_lang(l.original[j], id));
                lemma_usize_keys_of_filter(l.original[j].translations, id);
                assert(l.original[j].wf_for(pre.lang_ids()));
            }
        }
    }
    if pre.langs_unique() {
        lemma_filter_distinct(pre.lang_ids(), key_keep(id));
    }
}

} // verus!

