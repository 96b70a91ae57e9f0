//! Markup import: builds a document from an externally parsed sequence
//! of timed lines of timed words.
//!
//! Each input line becomes one document line with a fresh uuid, an empty
//! agent and no translations; each input word becomes one segment with
//! empty translation entries. No translation language is registered.

use crate::ids::fresh_id;
use crate::lyrics::{
    BabelLyrics, LineView, Lyrics, LyricsLine, LyricsMetadata, LyricsSegment, SegmentView,
};
use crate::timestamp::Timestamp;
use vstd::prelude::*;

verus! {

/// One timed word of the parsed markup.
pub struct TimedWord {
    pub begin: Timestamp,
    pub end: Timestamp,
    pub text: String,
}

/// One timed line of the parsed markup: its bounds and its words.
pub struct TimedLine {
    pub begin: Timestamp,
    pub end: Timestamp,
    pub words: Vec<TimedWord>,
}

/// The segment built from one parsed word: same bounds and text, no
/// translation entries.
pub open spec fn seg_matches(w: TimedWord, s: SegmentView) -> bool {
    &&& s.begin == w.begin.millis
    &&& s.end == w.end.millis
    &&& s.text == w.text@
    &&& s.translations == Seq::<(u128, Seq<usize>)>::empty()
}

/// The line built from one parsed line: same bounds, empty agent, no
/// translations, one segment per word.
pub open spec fn line_matches(src: TimedLine, l: LineView) -> bool {
    &&& l.begin == src.begin.millis
    &&& l.end == src.end.millis
    &&& l.agent_id == Seq::<char>::empty()
    &&& l.translations == Seq::<(u128, Seq<Seq<char>>)>::empty()
    &&& l.original.len() == src.words@.len()
    &&& forall|j: int|
        0 <= j < src.words@.len() ==> seg_matches(#[trigger] src.words@[j], l.original[j])
}

/// Builds a document from parsed markup: one line per input line, one
/// segment per input word, empty metadata, fresh uuids.
pub fn import_markup(input: Vec<TimedLine>) -> (r: BabelLyrics)
    ensures
        r@.metadata.agents.len() == 0,
        r@.metadata.translations.len() == 0,
        r@.lines.len() == input@.len(),
        forall|i: int| 0 <= i < input@.len() ==> line_matches(#[trigger] input@[i], r@.lines[i]),
        r@.wf(),
        r@.langs_unique(),
{
    let ghost input_orig = input@;
    let mut input = input;
    let mut out_lines: Vec<LyricsLine> = Vec::new();
    let ghost mut m: int = 0;
    while input.len() > 0
        invariant
            0 <= m <= input_orig.len(),
            input@ == input_orig.subrange(m, input_orig.len() as int),
            out_lines@.len() == m,
            forall|i: int|
                0 <= i < m ==> line_matches(#[trigger] input_orig[i], out_lines@[i]@),
        decreases input@.len(),
    {
        let tl = input.remove(0);
        proof {
            assert(tl == input_orig[m]);
            assert(input@ =~= input_orig.subrange(m + 1, input_orig.len() as int));
        }
        let segments = words_to_segments(tl.words);
        let line = LyricsLine {
            begin: tl.begin,
            end: tl.end,
            agent_id: String::new(),
            original: segments,
            uuid: fresh_id(),
            translations: Vec::new(),
        };
        out_lines.push(line);
        proof {
            assert(out_lines@.last()@.translations =~= Seq::<(u128, Seq<Seq<char>>)>::empty());
            assert(line_matches(input_orig[m], out_lines@.last()@));
            m = m + 1;
        }
    }
    proof {
        assert(m == input_orig.len());
    }
    let r = BabelLyrics {
        metadata: LyricsMetadata { agents: Vec::new(), translations: Vec::new() },
        lyrics: Lyrics { lines: out_lines },
    };
    proof {
        assert(r@.metadata.translations =~= Seq::<crate::lyrics::TranslationEntryView>::empty());
        assert(r@.metadata.agents =~= Seq::<crate::lyrics::AgentView>::empty());
        assert(r@.lang_ids() =~= Seq::<u128>::empty());
        assert forall|i: int| 0 <= i < r@.lines.len() implies (#[trigger] r@.lines[i]).wf_for(
            r@.lang_ids(),
        ) by {
            assert(line_matches(input_orig[i], r@.lines[i]));
            assert(r@.lines[i].keys() =~= Seq::<u128>::empty());
            assert forall|j: int| 0 <= j < r@.lines[i].original.len() implies (
            #[trigger] r@.lines[i].original[j]).wf_for(r@.lang_ids()) by {
                assert(seg_matches(input_orig[i].words@[j], r@.lines[i].original[j]));
                assert(r@.lines[i].original[j].keys() =~= Seq::<u128>::empty());
            }
        }
    }
    r
}

/// Builds one segment per parsed word: same bounds and text, no
/// translation entries.
fn words_to_segments(words: Vec<TimedWord>) -> (r: Vec<LyricsSegment>)
    ensures
        r@.len() == words@.len(),
        forall|j: int| 0 <= j < words@.len() ==> seg_matches(#[trigger] words@[j], r@[j]@),
{
    let ghost words_orig = words@;
    let mut words = words;
    let mut out: Vec<LyricsSegment> = Vec::new();
    let ghost mut m: int = 0;
    while words.len() > 0
        invariant
            0 <= m <= words_orig.len(),
            words@ == words_orig.subrange(m, words_orig.len() as int),
            out@.len() == m,
            forall|j: int| 0 <= j < m ==> seg_matches(#[trigger] words_orig[j], out@[j]@),
        decreases words@.len(),
    {
        let w = words.remove(0);
        proof {
            assert(w == words_orig[m]);
            assert(words@ =~= words_orig.subrange(m + 1, words_orig.len() as int));
        }
        let seg = LyricsSegment {
            begin: w.begin,
            end: w.end,
            text: w.text,
            translations: Vec::new(),
        };
        out.push(seg);
        proof {
            assert(out@.last()@.translations =~= Seq::<(u128, Seq<usize>)>::empty());
            assert(seg_matches(words_orig[m], out@.last()@));
            m = m + 1;
        }
    }
    proof {
        assert(m == words_orig.len());
    }
    out
}

} // verus!
