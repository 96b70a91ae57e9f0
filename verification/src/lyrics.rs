//! The lyrics document: multi-language, word-level-timed lyrics.
//!
//! A document owns a registry of translation languages and an ordered
//! sequence of lines; each line is an ordered sequence of timed word
//! segments plus, per registered language, a line-level list of translated
//! words; each segment records, per registered language, which translated
//! words of its line it is associated with, by position in that word list.

use crate::timestamp::Timestamp;
use vstd::prelude::*;

verus! {

/// A registered translation language: a stable identifier and a display name.
#[derive(Clone, Debug)]
pub struct TranslationEntry {
    pub language: String,
    pub id: u128,
}

/// A speaker/performer reference; metadata only.
#[derive(Clone, Debug)]
pub struct Agent {
    pub id: String,
}

/// Document metadata: agents and the translation-language registry.
#[derive(Clone, Debug)]
pub struct LyricsMetadata {
    pub agents: Vec<Agent>,
    pub translations: Vec<TranslationEntry>,
}

/// A word-level timed unit of original text within a line.
///
/// `translations` holds one `(language_id, word_index_list)` pair per
/// registered language; each index refers to a position in the owning
/// line's translation word list for that language.
#[derive(Clone, Debug)]
pub struct LyricsSegment {
    pub begin: Timestamp,
    pub end: Timestamp,
    pub text: String,
    pub translations: Vec<(u128, Vec<usize>)>,
}

/// A phrase-level timed grouping of segments, with per-language line
/// translations. `uuid` is the line's stable identity, independent of its
/// position among the lines.
#[derive(Clone, Debug)]
pub struct LyricsLine {
    pub begin: Timestamp,
    pub end: Timestamp,
    pub agent_id: String,
    pub original: Vec<LyricsSegment>,
    pub uuid: u128,
    pub translations: Vec<(u128, Vec<String>)>,
}

/// The ordered sequence of lines; insertion order is playback order.
#[derive(Clone, Debug)]
pub struct Lyrics {
    pub lines: Vec<LyricsLine>,
}

/// The top-level document.
#[derive(Clone, Debug)]
pub struct BabelLyrics {
    pub metadata: LyricsMetadata,
    pub lyrics: Lyrics,
}

// ------------------------------------------------------------------
// Mathematical models. Each exec type views as a structure of `Seq`s
// and plain values; every contract in the crate speaks over these.
// ------------------------------------------------------------------

pub struct TranslationEntryView {
    pub language: Seq<char>,
    pub id: u128,
}

pub struct AgentView {
    pub id: Seq<char>,
}

pub struct MetadataView {
    pub agents: Seq<AgentView>,
    pub translations: Seq<TranslationEntryView>,
}

pub struct SegmentView {
    pub begin: u64,
    pub end: u64,
    pub text: Seq<char>,
    pub translations: Seq<(u128, Seq<usize>)>,
}

pub struct LineView {
    pub begin: u64,
    pub end: u64,
    pub agent_id: Seq<char>,
    pub original: Seq<SegmentView>,
    pub uuid: u128,
    pub translations: Seq<(u128, Seq<Seq<char>>)>,
}

pub struct DocView {
    pub metadata: MetadataView,
    pub lines: Seq<LineView>,
}

// ------------------------------------------------------------------
// The view of each sequence shape, under one name so that every contract
// and proof speaks of the same function.
// ------------------------------------------------------------------

/// Views of a sequence of words.
pub open spec fn string_views(s: Seq<String>) -> Seq<Seq<char>> {
    s.map_values(|w: String| w@)
}

/// Views of a sequence of agents.
pub open spec fn agent_views(s: Seq<Agent>) -> Seq<AgentView> {
    s.map_values(|a: Agent| a@)
}

/// Views of a sequence of registry entries.
pub open spec fn entry_views(s: Seq<TranslationEntry>) -> Seq<TranslationEntryView> {
    s.map_values(|e: TranslationEntry| e@)
}

/// Views of a sequence of per-language association entries.
pub open spec fn pair_usize_views(s: Seq<(u128, Vec<usize>)>) -> Seq<(u128, Seq<usize>)> {
    s.map_values(|p: (u128, Vec<usize>)| (p.0, p.1@))
}

/// Views of a sequence of per-language word-list entries.
pub open spec fn pair_string_views(s: Seq<(u128, Vec<String>)>) -> Seq<(u128, Seq<Seq<char>>)> {
    s.map_values(|p: (u128, Vec<String>)| (p.0, string_views(p.1@)))
}

/// Views of a sequence of segments.
pub open spec fn seg_views(s: Seq<LyricsSegment>) -> Seq<SegmentView> {
    s.map_values(|x: LyricsSegment| x@)
}

/// Views of a sequence of lines.
pub open spec fn line_views(s: Seq<LyricsLine>) -> Seq<LineView> {
    s.map_values(|x: LyricsLine| x@)
}

/// The identifiers of a sequence of registry entries, in order.
pub open spec fn entry_ids(s: Seq<TranslationEntryView>) -> Seq<u128> {
    s.map_values(|e: TranslationEntryView| e.id)
}

/// The language keys of a sequence of association entries, in order.
pub open spec fn pair_usize_keys(s: Seq<(u128, Seq<usize>)>) -> Seq<u128> {
    s.map_values(|p: (u128, Seq<usize>)| p.0)
}

/// The language keys of a sequence of word-list entries, in order.
pub open spec fn pair_string_keys(s: Seq<(u128, Seq<Seq<char>>)>) -> Seq<u128> {
    s.map_values(|p: (u128, Seq<Seq<char>>)| p.0)
}

impl View for TranslationEntry {
    type V = TranslationEntryView;

    open spec fn view(&self) -> TranslationEntryView {
        TranslationEntryView { language: self.language@, id: self.id }
    }
}

impl View for Agent {
    type V = AgentView;

    open spec fn view(&self) -> AgentView {
        AgentView { id: self.id@ }
    }
}

impl View for LyricsMetadata {
    type V = MetadataView;

    open spec fn view(&self) -> MetadataView {
        MetadataView {
            agents: agent_views(self.agents@),
            translations: entry_views(self.translations@),
        }
    }
}

impl View for LyricsSegment {
    type V = SegmentView;

    open spec fn view(&self) -> SegmentView {
        SegmentView {
            begin: self.begin.millis,
            end: self.end.millis,
            text: self.text@,
            translations: pair_usize_views(self.translations@),
        }
    }
}

impl View for LyricsLine {
    type V = LineView;

    open spec fn view(&self) -> LineView {
        LineView {
            begin: self.begin.millis,
            end: self.end.millis,
            agent_id: self.agent_id@,
            original: seg_views(self.original@),
            uuid: self.uuid,
            translations: pair_string_views(self.translations@),
        }
    }
}

impl View for BabelLyrics {
    type V = DocView;

    open spec fn view(&self) -> DocView {
        DocView { metadata: self.metadata@, lines: line_views(self.lyrics.lines@) }
    }
}

// ------------------------------------------------------------------
// Well-formedness: every line and segment holds exactly one translation
// entry per registered language, keyed in registry order.
// ------------------------------------------------------------------

impl SegmentView {
    /// The language keys of the segment's association entries, in order.
    pub open spec fn keys(self) -> Seq<u128> {
        pair_usize_keys(self.translations)
    }

    /// The segment carries exactly one association entry per language of
    /// `langs`, in the same order.
    pub open spec fn wf_for(self, langs: Seq<u128>) -> bool {
        self.keys() == langs
    }

    /// The word-index list the segment records for language `id`, or the
    /// empty sequence when no entry carries that key.
    pub open spec fn assoc_for(self, id: u128) -> Seq<usize> {
        if exists|k: int| 0 <= k < self.translations.len() && self.translations[k].0 == id {
            self.translations[choose|k: int|
                0 <= k < self.translations.len() && self.translations[k].0 == id].1
        } else {
            Seq::empty()
        }
    }
}

impl LineView {
    /// The language keys of the line's translation entries, in order.
    pub open spec fn keys(self) -> Seq<u128> {
        pair_string_keys(self.translations)
    }

    /// The line and all its segments carry exactly one entry per language
    /// of `langs`, in the same order.
    pub open spec fn wf_for(self, langs: Seq<u128>) -> bool {
        &&& self.keys() == langs
        &&& forall|j: int|
            0 <= j < self.original.len() ==> (#[trigger] self.original[j]).wf_for(langs)
    }
}

impl DocView {
    /// The registered language identifiers, in registry order.
    pub open spec fn lang_ids(self) -> Seq<u128> {
        entry_ids(self.metadata.translations)
    }

    /// No two registered languages share an identifier.
    pub open spec fn langs_unique(self) -> bool {
        forall|i: int, j: int|
            0 <= i < j < self.lang_ids().len() ==> self.lang_ids()[i] != self.lang_ids()[j]
    }

    /// The core invariant: every line and segment holds exactly one
    /// translation entry per registered language, in registry order.
    pub open spec fn wf(self) -> bool {
        forall|i: int| 0 <= i < self.lines.len() ==> (#[trigger] self.lines[i]).wf_for(self.lang_ids())
    }
}

impl BabelLyrics {
    /// An empty document: no agents, no languages, no lines.
    pub fn empty() -> (r: BabelLyrics)
        ensures
            r@.metadata.agents.len() == 0,
            r@.metadata.translations.len() == 0,
            r@.lines.len() == 0,
            r@.wf(),
            r@.langs_unique(),
    {
        BabelLyrics {
            metadata: LyricsMetadata { agents: Vec::new(), translations: Vec::new() },
            lyrics: Lyrics { lines: Vec::new() },
        }
    }
}

} // verus!
