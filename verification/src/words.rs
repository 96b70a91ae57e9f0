//! Word-level edits: translation word lists and segment-to-word
//! associations.
//!
//! Translation words are referenced by position, so removing a word is
//! the one place where index consistency must be actively maintained:
//! every association list of the line drops the removed position and
//! shifts the positions above it down by one.

use crate::lyrics::{
    pair_string_keys, pair_string_views, pair_usize_keys, pair_usize_views, string_views,
    BabelLyrics, SegmentView,
};
use vstd::prelude::*;

verus! {

// ------------------------------------------------------------------
// The transformations, each under one name.
// ------------------------------------------------------------------

/// Keeps a word index other than `i`.
pub open spec fn keep_not(i: usize) -> spec_fn(usize) -> bool {
    |x: usize| x != i
}

/// Steps a word index above `i` down by one; leaves the rest alone.
pub open spec fn dec_above(i: usize) -> spec_fn(usize) -> usize {
    |x: usize|
        if x > i {
            (x - 1) as usize
        } else {
            x
        }
}

/// An association list after the line's word at position `i` is removed:
/// `i` itself disappears, and every recorded position above `i` steps
/// down by one.
pub open spec fn shift_remove(s: Seq<usize>, i: usize) -> Seq<usize> {
    s.filter(keep_not(i)).map_values(dec_above(i))
}

/// An association list after position `i` is marked included: appended
/// once, only when absent.
pub open spec fn assoc_add(s: Seq<usize>, i: usize) -> Seq<usize> {
    if s.contains(i) {
        s
    } else {
        s.push(i)
    }
}

/// An association list after position `i` is marked excluded.
pub open spec fn assoc_remove(s: Seq<usize>, i: usize) -> Seq<usize> {
    s.filter(keep_not(i))
}

/// Rewrites one per-language association entry when its key is `lang`.
pub open spec fn assoc_entry_removed(lang: u128, i: usize) -> spec_fn((u128, Seq<usize>)) -> (
    u128,
    Seq<usize>,
) {
    |p: (u128, Seq<usize>)|
        if p.0 == lang {
            (p.0, shift_remove(p.1, i))
        } else {
            p
        }
}

/// A segment after the line's word at position `i` of language `lang` is
/// removed: every association entry keyed by `lang` is shifted.
pub open spec fn seg_word_removed(s: SegmentView, lang: u128, i: usize) -> SegmentView {
    SegmentView {
        begin: s.begin,
        end: s.end,
        text: s.text,
        translations: s.translations.map_values(assoc_entry_removed(lang, i)),
    }
}

/// Segments after the line's word at position `i` of language `lang` is
/// removed.
pub open spec fn segs_word_removed(ss: Seq<SegmentView>, lang: u128, i: usize) -> Seq<
    SegmentView,
> {
    ss.map_values(|s: SegmentView| seg_word_removed(s, lang, i))
}

/// `k` is the position of the first entry keyed `lang`.
pub open spec fn first_key_string(s: Seq<(u128, Seq<Seq<char>>)>, lang: u128, k: int) -> bool {
    &&& 0 <= k < s.len()
    &&& s[k].0 == lang
    &&& forall|t: int| 0 <= t < k ==> s[t].0 != lang
}

/// No entry is keyed `lang`.
pub open spec fn no_key_string(s: Seq<(u128, Seq<Seq<char>>)>, lang: u128) -> bool {
    forall|t: int| 0 <= t < s.len() ==> s[t].0 != lang
}

/// `k` is the position of the first association entry keyed `lang`.
pub open spec fn first_key_assoc(s: Seq<(u128, Seq<usize>)>, lang: u128, k: int) -> bool {
    &&& 0 <= k < s.len()
    &&& s[k].0 == lang
    &&& forall|t: int| 0 <= t < k ==> s[t].0 != lang
}

/// No association entry is keyed `lang`.
pub open spec fn no_key_assoc(s: Seq<(u128, Seq<usize>)>, lang: u128) -> bool {
    forall|t: int| 0 <= t < s.len() ==> s[t].0 != lang
}

// ------------------------------------------------------------------
// Executable helpers.
// ------------------------------------------------------------------

/// Whether `x` occurs in `v`.
fn vec_contains_usize(v: &Vec<usize>, x: usize) -> (r: bool)
    ensures
        r == v@.contains(x),
{
    let n = v.len();
    let mut t: usize = 0;
    while t < n
        invariant
            n == v@.len(),
            0 <= (t as int) <= n as int,
            forall|w: int| 0 <= w < t as int ==> v@[w] != x,
        decreases n - t,
    {
        if v[t] == x {
            assert(v@.contains(x));
            return true;
        }
        t = t + 1;
    }
    proof {
        if v@.contains(x) {
            let w = choose|w: int| 0 <= w < v@.len() && v@[w] == x;
            assert(false);
        }
    }
    false
}

/// Rewrites `v` to `assoc_remove(v, i)`: drops every occurrence of `i`.
fn assoc_remove_vec(v: &mut Vec<usize>, i: usize)
    ensures
        final(v)@ == assoc_remove(old(v)@, i),
{
    let mut out: Vec<usize> = Vec::new();
    let n = v.len();
    let mut t: usize = 0;
    while t < n
        invariant
            n == v@.len(),
            v@ == old(v)@,
            0 <= (t as int) <= n as int,
            out@ == v@.subrange(0, t as int).filter(keep_not(i)),
        decreases n - t,
    {
        let x = v[t];
        proof {
            assert(v@.subrange(0, t as int + 1) =~= v@.subrange(0, t as int).push(v@[t as int]));
            v@.subrange(0, t as int).lemma_filter_push(v@[t as int], keep_not(i));
        }
        if x != i {
            out.push(x);
        }
        t = t + 1;
    }
    proof {
        assert(v@.subrange(0, n as int) =~= v@);
    }
    *v = out;
}

/// Rewrites `v` to `shift_remove(v, i)`: drops every occurrence of `i`
/// and steps the entries above `i` down by one.
fn shift_remove_vec(v: &mut Vec<usize>, i: usize)
    ensures
        final(v)@ == shift_remove(old(v)@, i),
{
    let mut out: Vec<usize> = Vec::new();
    let n = v.len();
    let mut t: usize = 0;
    while t < n
        invariant
            n == v@.len(),
            v@ == old(v)@,
            0 <= (t as int) <= n as int,
            out@ == shift_remove(v@.subrange(0, t as int), i),
        decreases n - t,
    {
        let x = v[t];
        proof {
            let pre = v@.subrange(0, t as int);
            assert(v@.subrange(0, t as int + 1) =~= pre.push(v@[t as int]));
            pre.lemma_filter_push(v@[t as int], keep_not(i));
            if v@[t as int] != i {
                assert(pre.push(v@[t as int]).filter(keep_not(i)) == pre.filter(keep_not(i)).push(
                    v@[t as int],
                ));
                assert(shift_remove(v@.subrange(0, t as int + 1), i) =~= shift_remove(
                    pre,
                    i,
                ).push(dec_above(i)(v@[t as int])));
            } else {
                assert(shift_remove(v@.subrange(0, t as int + 1), i) == shift_remove(pre, i));
            }
        }
        if x != i {
            if x > i {
                out.push(x - 1);
            } else {
                out.push(x);
            }
        }
        t = t + 1;
    }
    proof {
        assert(v@.subrange(0, n as int) =~= v@);
    }
    *v = out;
}

// ------------------------------------------------------------------
// The operations.
// ------------------------------------------------------------------

impl BabelLyrics {
    /// Appends an empty word to line `line`'s translation word list for
    /// language `lang` (its first entry with that key). Positions of
    /// existing words do not change, so no association needs renumbering.
    /// A no-op when `line` is out of range or no entry carries that key.
    pub fn add_translation_word(&mut self, line: usize, lang: u128)
        ensures
            final(self)@.metadata == old(self)@.metadata,
            final(self)@.lines.len() == old(self)@.lines.len(),
            forall|t: int|
                0 <= t < old(self)@.lines.len() && t != line as int ==> final(self)@.lines[t]
                    == #[trigger] old(self)@.lines[t],
            (line as int) >= old(self)@.lines.len() ==> final(self)@ == old(self)@,
            (line as int) < old(self)@.lines.len() ==> {
                let l_old = old(self)@.lines[line as int];
                let l_new = final(self)@.lines[line as int];
                &&& l_new.begin == l_old.begin
                &&& l_new.end == l_old.end
                &&& l_new.agent_id == l_old.agent_id
                &&& l_new.uuid == l_old.uuid
                &&& l_new.original == l_old.original
                &&& (no_key_string(l_old.translations, lang) ==> l_new == l_old)
                &&& forall|k: int|
                    first_key_string(l_old.translations, lang, k) ==> l_new.translations
                        == l_old.translations.update(
                        k,
                        (lang, l_old.translations[k].1.push(Seq::<char>::empty())),
                    )
            },
            old(self)@.wf() ==> final(self)@.wf(),
    {
        let ghost orig = self@;
        if line >= self.lyrics.lines.len() {
            return ;
        }
        let n = self.lyrics.lines[line].translations.len();
        let mut k: usize = 0;
        while k < n
            invariant
                self == old(self),
                orig == self@,
                (line as int) < self@.lines.len(),
                n == self@.lines[line as int].translations.len(),
                0 <= (k as int) <= n as int,
                forall|t: int|
                    0 <= t < k as int ==> self@.lines[line as int].translations[t].0 != lang,
            decreases n - k,
        {
            if self.lyrics.lines[line].translations[k].0 == lang {
                let ghost l_old = orig.lines[line as int];
                self.lyrics.lines[line].translations[k].1.push(String::new());
                proof {
                    let l_new = self@.lines[line as int];
                    assert(string_views(
                        self.lyrics.lines@[line as int].translations@[k as int].1@,
                    ) =~= l_old.translations[k as int].1.push(Seq::<char>::empty()));
                    assert forall|t: int| 0 <= t < l_new.translations.len() implies
                        l_new.translations[t] == l_old.translations.update(
                        k as int,
                        (lang, l_old.translations[k as int].1.push(Seq::<char>::empty())),
                    )[t] by {
                        if t != k as int {
                            assert(self.lyrics.lines@[line as int].translations@[t]
                                == old(self).lyrics.lines@[line as int].translations@[t]);
                        }
                    }
                    assert(l_new.translations =~= l_old.translations.update(
                        k as int,
                        (lang, l_old.translations[k as int].1.push(Seq::<char>::empty())),
                    ));
                    assert forall|k2: int|
                        first_key_string(l_old.translations, lang, k2) implies l_new.translations
                        == l_old.translations.update(
                        k2,
                        (lang, l_old.translations[k2].1.push(Seq::<char>::empty())),
                    ) by {
                        assert(l_old.translations[k as int].0 == lang);
                        if k2 < k as int {
                            assert(l_old.translations[k2].0 != lang);
                        } else if k2 > k as int {
                            assert(l_old.translations[k as int].0 != lang);
                        }
                        assert(k2 == k as int);
                    }
                    assert(pair_string_keys(l_new.translations) =~= pair_string_keys(
                        l_old.translations,
                    ));
                    lemma_same_shape_wf(orig, self@, line as int);
                }
                return ;
            }
            k = k + 1;
        }
        proof {
            assert(no_key_string(orig.lines[line as int].translations, lang));
            assert forall|k2: int|
                first_key_string(orig.lines[line as int].translations, lang, k2) implies false by {
                assert(orig.lines[line as int].translations[k2].0 != lang);
            }
        }
    }

    /// Removes the word at `word` from line `line`'s translation word
    /// list for language `lang` (its first entry with that key), and for
    /// every segment of the line removes `word` from each association
    /// list keyed by `lang` and steps every recorded position above
    /// `word` down by one. A no-op when `line`, the key or `word` is not
    /// found.
    pub fn remove_translation_word(&mut self, line: usize, lang: u128, word: usize)
        ensures
            final(self)@.metadata == old(self)@.metadata,
            final(self)@.lines.len() == old(self)@.lines.len(),
            forall|t: int|
                0 <= t < old(self)@.lines.len() && t != line as int ==> final(self)@.lines[t]
                    == #[trigger] old(self)@.lines[t],
            (line as int) >= old(self)@.lines.len() ==> final(self)@ == old(self)@,
            (line as int) < old(self)@.lines.len() ==> {
                let l_old = old(self)@.lines[line as int];
                let l_new = final(self)@.lines[line as int];
                &&& l_new.begin == l_old.begin
                &&& l_new.end == l_old.end
                &&& l_new.agent_id == l_old.agent_id
                &&& l_new.uuid == l_old.uuid
                &&& (no_key_string(l_old.translations, lang) ==> l_new == l_old)
                &&& forall|k: int|
                    first_key_string(l_old.translations, lang, k) && (word as int)
                        >= l_old.translations[k].1.len() ==> l_new == l_old
                &&& forall|k: int|
                    first_key_string(l_old.translations, lang, k) && (word as int)
                        < l_old.translations[k].1.len() ==> {
                        &&& l_new.translations == l_old.translations.update(
                            k,
                            (lang, l_old.translations[k].1.remove(word as int)),
                        )
                        &&& l_new.original == segs_word_removed(l_old.original, lang, word)
                    }
            },
            old(self)@.wf() ==> final(self)@.wf(),
    {
        let ghost orig = self@;
        if line >= self.lyrics.lines.len() {
            return ;
        }
        let n = self.lyrics.lines[line].translations.len();
        let mut k: usize = 0;
        while k < n
            invariant
                self == old(self),
                orig == self@,
                (line as int) < self@.lines.len(),
                n == self@.lines[line as int].translations.len(),
                0 <= (k as int) <= n as int,
                forall|t: int|
                    0 <= t < k as int ==> self@.lines[line as int].translations[t].0 != lang,
            decreases n - k,
        {
            if self.lyrics.lines[line].translations[k].0 == lang {
                self.remove_translation_word_at(line, k, lang, word);
                proof {
                    let l_old = orig.lines[line as int];
                    assert forall|k2: int|
                        first_key_string(l_old.translations, lang, k2) implies k2 == k as int by {
                        assert(l_old.translations[k as int].0 == lang);
                        if k2 < k as int {
                            assert(l_old.translations[k2].0 != lang);
                        } else if k2 > k as int {
                            assert(l_old.translations[k as int].0 != lang);
                        }
                    }
                }
                return ;
            }
            k = k + 1;
        }
        proof {
            assert(no_key_string(orig.lines[line as int].translations, lang));
            assert forall|k2: int|
                first_key_string(orig.lines[line as int].translations, lang, k2) implies false by {
                assert(orig.lines[line as int].translations[k2].0 != lang);
            }
        }
    }

    /// The body of a word removal once the line's entry is located:
    /// removes the word at `word` of entry `k` and shifts every
    /// association of the line's segments for `lang`.
    fn remove_translation_word_at(&mut self, line: usize, k: usize, lang: u128, word: usize)
        requires
            (line as int) < old(self)@.lines.len(),
            (k as int) < old(self)@.lines[line as int].translations.len(),
            old(self)@.lines[line as int].translations[k as int].0 == lang,
        ensures
            final(self)@.metadata == old(self)@.metadata,
            final(self)@.lines.len() == old(self)@.lines.len(),
            forall|t: int|
                0 <= t < old(self)@.lines.len() && t != line as int ==> final(self)@.lines[t]
                    == #[trigger] old(self)@.lines[t],
            ({
                let l_old = old(self)@.lines[line as int];
                let l_new = final(self)@.lines[line as int];
                &&& l_new.begin == l_old.begin
                &&& l_new.end == l_old.end
                &&& l_new.agent_id == l_old.agent_id
                &&& l_new.uuid == l_old.uuid
                &&& ((word as int) >= l_old.translations[k as int].1.len() ==> l_new == l_old)
                &&& (word as int) < l_old.translations[k as int].1.len() ==> {
                    &&& l_new.translations == l_old.translations.update(
                        k as int,
                        (lang, l_old.translations[k as int].1.remove(word as int)),
                    )
                    &&& l_new.original == segs_word_removed(l_old.original, lang, word)
                }
            }),
            old(self)@.wf() ==> final(self)@.wf(),
    {
        let ghost orig = self@;
        if word >= self.lyrics.lines[line].translations[k].1.len() {
            return ;
        }
        let ghost l_old = orig.lines[line as int];
        let ghost words_before = self.lyrics.lines@[line as int].translations@[k as int].1@;
        let _w = self.lyrics.lines[line].translations[k].1.remove(word);
        proof {
            lemma_string_views_remove(words_before, word as int);
            let l_mid = self@.lines[line as int];
            assert forall|t: int| 0 <= t < l_mid.translations.len() implies l_mid.translations[t]
                == l_old.translations.update(
                k as int,
                (lang, l_old.translations[k as int].1.remove(word as int)),
            )[t] by {
                if t != k as int {
                    assert(self.lyrics.lines@[line as int].translations@[t] == old(
                        self,
                    ).lyrics.lines@[line as int].translations@[t]);
                }
            }
            assert(l_mid.translations =~= l_old.translations.update(
                k as int,
                (lang, l_old.translations[k as int].1.remove(word as int)),
            ));
            assert(l_mid.original == l_old.original);
            assert forall|t: int|
                0 <= t < orig.lines.len() && t != line as int implies self@.lines[t]
                == #[trigger] orig.lines[t] by {
                assert(self.lyrics.lines@[t] == old(self).lyrics.lines@[t]);
            }
        }
        let ghost after_words = self@;
        let seg_count = self.lyrics.lines[line].original.len();
        let mut j: usize = 0;
        while j < seg_count
            invariant
                (line as int) < self@.lines.len(),
                self@.lines.len() == after_words.lines.len(),
                seg_count == self@.lines[line as int].original.len(),
                seg_count == after_words.lines[line as int].original.len(),
                0 <= (j as int) <= seg_count as int,
                self@.metadata == after_words.metadata,
                forall|t: int|
                    0 <= t < self@.lines.len() && t != line as int ==> self@.lines[t]
                        == #[trigger] after_words.lines[t],
                self@.lines[line as int].begin == after_words.lines[line as int].begin,
                self@.lines[line as int].end == after_words.lines[line as int].end,
                self@.lines[line as int].agent_id == after_words.lines[line as int].agent_id,
                self@.lines[line as int].uuid == after_words.lines[line as int].uuid,
                self@.lines[line as int].translations == after_words.lines[line as int].translations,
                forall|t: int|
                    0 <= t < j as int ==> self@.lines[line as int].original[t] == seg_word_removed(
                        #[trigger] after_words.lines[line as int].original[t],
                        lang,
                        word,
                    ),
                forall|t: int|
                    (j as int) <= t && t < seg_count as int ==> self@.lines[line as int].original[t]
                        == #[trigger] after_words.lines[line as int].original[t],
            decreases seg_count - j,
        {
            let ghost seg_before = self@.lines[line as int].original[j as int];
            let entry_count = self.lyrics.lines[line].original[j].translations.len();
            let mut e: usize = 0;
            while e < entry_count
                invariant
                    (line as int) < self@.lines.len(),
                    self@.lines.len() == after_words.lines.len(),
                    (j as int) < self@.lines[line as int].original.len(),
                    self@.lines[line as int].original.len() == after_words.lines[line as int].original.len(),
                    entry_count == self@.lines[line as int].original[j as int].translations.len(),
                    entry_count == seg_before.translations.len(),
                    0 <= (e as int) <= entry_count as int,
                    self@.metadata == after_words.metadata,
                    forall|t: int|
                        0 <= t < self@.lines.len() && t != line as int ==> self@.lines[t]
                            == #[trigger] after_words.lines[t],
                    self@.lines[line as int].begin == after_words.lines[line as int].begin,
                    self@.lines[line as int].end == after_words.lines[line as int].end,
                    self@.lines[line as int].agent_id == after_words.lines[line as int].agent_id,
                    self@.lines[line as int].uuid == after_words.lines[line as int].uuid,
                    self@.lines[line as int].translations == after_words.lines[line as int].translations,
                    forall|t: int|
                        0 <= t < j as int ==> self@.lines[line as int].original[t]
                            == seg_word_removed(
                            #[trigger] after_words.lines[line as int].original[t],
                            lang,
                            word,
                        ),
                    forall|t: int|
                        (j as int) < t && t < after_words.lines[line as int].original.len()
                            ==> self@.lines[line as int].original[t]
                            == #[trigger] after_words.lines[line as int].original[t],
                    seg_before == after_words.lines[line as int].original[j as int],
                    self@.lines[line as int].original[j as int].begin == seg_before.begin,
                    self@.lines[line as int].original[j as int].end == seg_before.end,
                    self@.lines[line as int].original[j as int].text == seg_before.text,
                    forall|t: int|
                        0 <= t < e as int ==> self@.lines[line as int].original[j as int].translations[t]
                            == assoc_entry_removed(lang, word)(
                            #[trigger] seg_before.translations[t],
                        ),
                    forall|t: int|
                        (e as int) <= t && t < entry_count as int
                            ==> self@.lines[line as int].original[j as int].translations[t]
                            == #[trigger] seg_before.translations[t],
                decreases entry_count - e,
            {
                let ghost entry_before = seg_before.translations[e as int];
                if self.lyrics.lines[line].original[j].translations[e].0 == lang {
                    shift_remove_vec(
                        &mut self.lyrics.lines[line].original[j].translations[e].1,
                        word,
                    );
                    proof {
                        assert(self@.lines[line as int].original[j as int].translations[e as int]
                            == (entry_before.0, shift_remove(entry_before.1, word)));
                        assert(self@.lines[line as int].original[j as int].translations[e as int]
                            == assoc_entry_removed(lang, word)(entry_before));
                    }
                } else {
                    proof {
                        assert(self@.lines[line as int].original[j as int].translations[e as int]
                            == assoc_entry_removed(lang, word)(entry_before));
                    }
                }
                e = e + 1;
            }
            proof {
                assert(self@.lines[line as int].original[j as int].translations
                    =~= seg_before.translations.map_values(assoc_entry_removed(lang, word)));
                assert(self@.lines[line as int].original[j as int] == seg_word_removed(
                    seg_before,
                    lang,
                    word,
                ));
            }
            j = j + 1;
        }
        proof {
            assert(self@.lines[line as int].original =~= segs_word_removed(after_words.lines[line as int].original, lang, word));
            assert(self@.lines[line as int].original =~= segs_word_removed(l_old.original, lang, word));
            assert forall|t: int|
                0 <= t < orig.lines.len() && t != line as int implies self@.lines[t]
                == #[trigger] orig.lines[t] by {
                assert(self@.lines[t] == after_words.lines[t]);
                assert(after_words.lines[t] == orig.lines[t]);
            }
            if orig.wf() {
                lemma_word_removed_wf(orig, self@, line as int, k as int, lang, word);
            }
        }
    }

    /// Adds (`included == true`) or removes (`included == false`) word
    /// position `word` in the association list for language `lang` of
    /// segment `seg` of line `line` (the segment's first entry with that
    /// key). Adding is idempotent: a present position is not duplicated.
    /// A no-op when `line`, `seg` or the key is not found.
    pub fn toggle_segment_word_association(
        &mut self,
        line: usize,
        seg: usize,
        lang: u128,
        word: usize,
        included: bool,
    )
        ensures
            final(self)@.metadata == old(self)@.metadata,
            final(self)@.lines.len() == old(self)@.lines.len(),
            forall|t: int|
                0 <= t < old(self)@.lines.len() && t != line as int ==> final(self)@.lines[t]
                    == #[trigger] old(self)@.lines[t],
            (line as int) >= old(self)@.lines.len() ==> final(self)@ == old(self)@,
            (line as int) < old(self)@.lines.len() && (seg as int) >= old(
                self,
            )@.lines[line as int].original.len() ==> final(self)@ == old(self)@,
            (line as int) < old(self)@.lines.len() && (seg as int) < old(
                self,
            )@.lines[line as int].original.len() ==> {
                let l_old = old(self)@.lines[line as int];
                let l_new = final(self)@.lines[line as int];
                let s_old = l_old.original[seg as int];
                let s_new = l_new.original[seg as int];
                &&& l_new.begin == l_old.begin
                &&& l_new.end == l_old.end
                &&& l_new.agent_id == l_old.agent_id
                &&& l_new.uuid == l_old.uuid
                &&& l_new.translations == l_old.translations
                &&& l_new.original.len() == l_old.original.len()
                &&& forall|t: int|
                    0 <= t < l_old.original.len() && t != seg as int ==> l_new.original[t]
                        == #[trigger] l_old.original[t]
                &&& (no_key_assoc(s_old.translations, lang) ==> s_new == s_old)
                &&& forall|k: int|
                    first_key_assoc(s_old.translations, lang, k) ==> s_new.translations
                        == s_old.translations.update(
                        k,
                        (
                            lang,
                            if included {
                                assoc_add(s_old.translations[k].1, word)
                            } else {
                                assoc_remove(s_old.translations[k].1, word)
                            },
                        ),
                    )
            },
            old(self)@.wf() ==> final(self)@.wf(),
    {
        let ghost orig = self@;
        if line >= self.lyrics.lines.len() {
            return ;
        }
        if seg >= self.lyrics.lines[line].original.len() {
            return ;
        }
        let n = self.lyrics.lines[line].original[seg].translations.len();
        let mut k: usize = 0;
        while k < n
            invariant
                self == old(self),
                orig == self@,
                (line as int) < self@.lines.len(),
                (seg as int) < self@.lines[line as int].original.len(),
                n == self@.lines[line as int].original[seg as int].translations.len(),
                0 <= (k as int) <= n as int,
                forall|t: int|
                    0 <= t < k as int
                        ==> self@.lines[line as int].original[seg as int].translations[t].0 != lang,
            decreases n - k,
        {
            if self.lyrics.lines[line].original[seg].translations[k].0 == lang {
                let ghost s_old = orig.lines[line as int].original[seg as int];
                let ghost list_before =
                    self.lyrics.lines@[line as int].original@[seg as int].translations@[k as int].1@;
                if included {
                    let present = vec_contains_usize(
                        &self.lyrics.lines[line].original[seg].translations[k].1,
                        word,
                    );
                    if !present {
                        self.lyrics.lines[line].original[seg].translations[k].1.push(word);
                        proof {
                            assert(self@.lines[line as int].original[seg as int].translations[k as int].1
                                =~= assoc_add(s_old.translations[k as int].1, word));
                        }
                    } else {
                        proof {
                            assert(assoc_add(s_old.translations[k as int].1, word)
                                == s_old.translations[k as int].1);
                        }
                    }
                } else {
                    assoc_remove_vec(
                        &mut self.lyrics.lines[line].original[seg].translations[k].1,
                        word,
                    );
                }
                proof {
                    let s_new = self@.lines[line as int].original[seg as int];
                    let target = s_old.translations.update(
                        k as int,
                        (
                            lang,
                            if included {
                                assoc_add(s_old.translations[k as int].1, word)
                            } else {
                                assoc_remove(s_old.translations[k as int].1, word)
                            },
                        ),
                    );
                    assert forall|t: int| 0 <= t < s_new.translations.len() implies
                        s_new.translations[t] == target[t] by {
                        if t != k as int {
                            assert(self.lyrics.lines@[line as int].original@[seg as int].translations@[t]
                                == old(
                                self,
                            ).lyrics.lines@[line as int].original@[seg as int].translations@[t]);
                        }
                    }
                    assert(s_new.translations =~= target);
                    assert forall|k2: int|
                        first_key_assoc(s_old.translations, lang, k2) implies s_new.translations
                        == s_old.translations.update(
                        k2,
                        (
                            lang,
                            if included {
                                assoc_add(s_old.translations[k2].1, word)
                            } else {
                                assoc_remove(s_old.translations[k2].1, word)
                            },
                        ),
                    ) by {
                        assert(s_old.translations[k as int].0 == lang);
                        if k2 < k as int {
                            assert(s_old.translations[k2].0 != lang);
                        } else if k2 > k as int {
                            assert(s_old.translations[k as int].0 != lang);
                        }
                        assert(k2 == k as int);
                    }
                    assert(pair_usize_keys(s_new.translations) =~= pair_usize_keys(
                        s_old.translations,
                    ));
                    lemma_same_shape_wf(orig, self@, line as int);
                }
                return ;
            }
            k = k + 1;
        }
        proof {
            assert(no_key_assoc(orig.lines[line as int].original[seg as int].translations, lang));
            assert forall|k2: int|
                first_key_assoc(
                    orig.lines[line as int].original[seg as int].translations,
                    lang,
                    k2,
                ) implies false by {
                assert(orig.lines[line as int].original[seg as int].translations[k2].0 != lang);
            }
        }
    }
}

// ------------------------------------------------------------------
// Lemmas.
// ------------------------------------------------------------------

/// Views of a word list with one word removed.
proof fn lemma_string_views_remove(s: Seq<String>, i: int)
    requires
        0 <= i < s.len(),
    ensures
        string_views(s.remove(i)) == string_views(s).remove(i),
{
    s.remove_ensures(i);
    string_views(s).remove_ensures(i);
    assert forall|t: int| 0 <= t < string_views(s.remove(i)).len() implies string_views(
        s.remove(i),
    )[t] == string_views(s).remove(i)[t] by {
        if t < i {
            assert(s.remove(i)[t] == s[t]);
            assert(string_views(s).remove(i)[t] == string_views(s)[t]);
        } else {
            assert(s.remove(i)[t] == s[t + 1]);
            assert(string_views(s).remove(i)[t] == string_views(s)[t + 1]);
        }
    }
    assert(string_views(s.remove(i)) =~= string_views(s).remove(i));
}

/// A document whose lines changed only inside word lists and association
/// lists — never in their key sequences — stays well-formed.
proof fn lemma_same_shape_wf(pre: crate::lyrics::DocView, post: crate::lyrics::DocView, line: int)
    requires
        post.metadata == pre.metadata,
        post.lines.len() == pre.lines.len(),
        forall|t: int|
            0 <= t < pre.lines.len() && t != line ==> post.lines[t] == #[trigger] pre.lines[t],
        0 <= line < pre.lines.len() ==> {
            &&& pair_string_keys(post.lines[line].translations) == pair_string_keys(
                pre.lines[line].translations,
            )
            &&& post.lines[line].original.len() == pre.lines[line].original.len()
            &&& forall|j: int|
                0 <= j < pre.lines[line].original.len() ==> pair_usize_keys(
                    #[trigger] post.lines[line].original[j].translations,
                ) == pair_usize_keys(pre.lines[line].original[j].translations)
        },
    ensures
        pre.wf() ==> post.wf(),
{
    if pre.wf() {
        let langs = post.lang_ids();
        assert(langs == pre.lang_ids());
        assert forall|i: int| 0 <= i < post.lines.len() implies (#[trigger] post.lines[i]).wf_for(
            langs,
        ) by {
            assert(pre.lines[i].wf_for(langs));
            if i == line {
                assert forall|j: int| 0 <= j < post.lines[i].original.len() implies (
                #[trigger] post.lines[i].original[j]).wf_for(langs) by {
                    assert(pre.lines[i].original[j].wf_for(langs));
                }
            }
        }
    }
}

/// Removing a word keeps the document well-formed: keys change nowhere.
proof fn lemma_word_removed_wf(
    pre: crate::lyrics::DocView,
    post: crate::lyrics::DocView,
    line: int,
    k: int,
    lang: u128,
    word: usize,
)
    requires
        pre.wf(),
        post.metadata == pre.metadata,
        post.lines.len() == pre.lines.len(),
        forall|t: int|
            0 <= t < pre.lines.len() && t != line ==> post.lines[t] == #[trigger] pre.lines[t],
        0 <= line < pre.lines.len(),
        0 <= k < pre.lines[line].translations.len(),
        post.lines[line].translations == pre.lines[line].translations.update(
            k,
            (lang, post.lines[line].translations[k].1),
        ),
        pre.lines[line].translations[k].0 == lang,
        post.lines[line].original == segs_word_removed(pre.lines[line].original, lang, word),
    ensures
        post.wf(),
{
    let langs = post.lang_ids();
    assert(langs == pre.lang_ids());
    assert forall|i: int| 0 <= i < post.lines.len() implies (#[trigger] post.lines[i]).wf_for(
        langs,
    ) by {
        assert(pre.lines[i].wf_for(langs));
        if i == line {
            assert(pair_string_keys(post.lines[i].translations) =~= pair_string_keys(
                pre.lines[i].translations,
            ));
            assert forall|j: int| 0 <= j < post.lines[i].original.len() implies (
            #[trigger] post.lines[i].original[j]).wf_for(langs) by {
                assert(pre.lines[i].original[j].wf_for(langs));
                assert(post.lines[i].original[j] == seg_word_removed(
                    pre.lines[i].original[j],
                    lang,
                    word,
                ));
                assert(pair_usize_keys(post.lines[i].original[j].translations)
                    =~= pair_usize_keys(pre.lines[i].original[j].translations));
            }
        }
    }
}

/// What a word removal does to one association list, membership-wise:
/// every recorded position below the removed one stays, every position
/// above it is present as its predecessor, and nothing else appears.
/// When the list did not record the position one above the removed one,
/// the removed position itself is gone from the result.
pub proof fn lemma_removed_word_positions(s: Seq<usize>, i: usize)
    ensures
        forall|j: usize| s.contains(j) && j < i ==> #[trigger] shift_remove(s, i).contains(j),
        forall|j: usize|
            s.contains(j) && j > i ==> #[trigger] shift_remove(s, i).contains((j - 1) as usize),
        forall|x: usize|
            #[trigger] shift_remove(s, i).contains(x) ==> (x < i && s.contains(x)) || (x >= i && x
                < usize::MAX && s.contains((x + 1) as usize)),
{
    let filtered = s.filter(keep_not(i));
    crate::editor::lemma_filter_elements(s, keep_not(i));
    assert forall|j: usize| s.contains(j) && j < i implies #[trigger] shift_remove(s, i).contains(
        j,
    ) by {
        let w = choose|w: int| 0 <= w < s.len() && s[w] == j;
        s.lemma_filter_contains(keep_not(i), w);
        let w2 = choose|w2: int| 0 <= w2 < filtered.len() && filtered[w2] == j;
        assert(shift_remove(s, i)[w2] == dec_above(i)(j));
        assert(shift_remove(s, i)[w2] == j);
    }
    assert forall|j: usize| s.contains(j) && j > i implies #[trigger] shift_remove(s, i).contains(
        (j - 1) as usize,
    ) by {
        let w = choose|w: int| 0 <= w < s.len() && s[w] == j;
        s.lemma_filter_contains(keep_not(i), w);
        let w2 = choose|w2: int| 0 <= w2 < filtered.len() && filtered[w2] == j;
        assert(shift_remove(s, i)[w2] == dec_above(i)(j));
        assert(shift_remove(s, i)[w2] == (j - 1) as usize);
    }
    assert forall|x: usize| #[trigger] shift_remove(s, i).contains(x) implies (x < i && s.contains(
        x,
    )) || (x >= i && x < usize::MAX && s.contains((x + 1) as usize)) by {
        let w = choose|w: int| 0 <= w < shift_remove(s, i).len() && shift_remove(s, i)[w] == x;
        let y = filtered[w];
        s.lemma_filter_pred(keep_not(i), w);
        assert(s.contains(y));
        assert(y != i);
        assert(x == dec_above(i)(y));
        if y > i {
            assert(x == (y - 1) as usize);
        }
    }
}

/// Marking a word position as included twice is the same as marking it
/// once: a present position is never duplicated.
pub proof fn lemma_toggle_include_idempotent(s: Seq<usize>, i: usize)
    ensures
        assoc_add(assoc_add(s, i), i) == assoc_add(s, i),
{
    if !s.contains(i) {
        assert(s.push(i)[s.len() as int] == i);
        assert(s.push(i).contains(i));
    }
}

} // verus!
