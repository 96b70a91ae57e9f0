//! The persisted document form: a length-prefixed binary encoding that
//! round-trips a document losslessly.
//!
//! Every number is eight little-endian bytes (sixteen for identifiers);
//! every string is its byte length followed by its UTF-8 bytes; every
//! list is its element count followed by the elements. `export` emits
//! exactly `enc_doc` of the document; `import_serialized` accepts a byte
//! string exactly when it is `enc_doc` of some document, and returns
//! that document.

use crate::lyrics::{
    agent_views, entry_views, line_views, pair_string_views, pair_usize_views, seg_views,
    string_views, Agent, AgentView, BabelLyrics, DocView, LineView, Lyrics, LyricsLine,
    LyricsMetadata, LyricsSegment, SegmentView, TranslationEntry, TranslationEntryView,
};
use crate::timestamp::Timestamp;
use vstd::bytes::{
    lemma_auto_spec_u128_to_from_le_bytes, lemma_auto_spec_u64_to_from_le_bytes,
    spec_u128_from_le_bytes, spec_u128_to_le_bytes, spec_u64_from_le_bytes, spec_u64_to_le_bytes,
    u128_from_le_bytes, u128_to_le_bytes, u64_from_le_bytes, u64_to_le_bytes,
};
use vstd::prelude::*;
use vstd::slice::{slice_subrange, slice_to_vec};
use vstd::string::StrSliceExecFns;
use vstd::utf8::{
    decode_utf8, decode_utf8_encode_utf8, encode_utf8, encode_utf8_decode_utf8,
    encode_utf8_valid_utf8, valid_utf8,
};

verus! {

/// The import error: the bytes are not the encoding of any document.
#[derive(Clone, Copy, PartialEq, Eq, Structural, Debug)]
pub enum CodecError {
    Malformed,
}

// ------------------------------------------------------------------
// The encoding, as spec functions.
// ------------------------------------------------------------------

/// Eight little-endian bytes.
pub open spec fn enc_u64(x: u64) -> Seq<u8> {
    spec_u64_to_le_bytes(x)
}

/// Sixteen little-endian bytes.
pub open spec fn enc_u128(x: u128) -> Seq<u8> {
    spec_u128_to_le_bytes(x)
}

/// Byte length, then the UTF-8 bytes.
pub open spec fn enc_str(s: Seq<char>) -> Seq<u8> {
    enc_u64(encode_utf8(s).len() as u64) + encode_utf8(s)
}

/// The elements of `s`, encoded by `f` and concatenated.
pub open spec fn enc_seq<A>(s: Seq<A>, f: spec_fn(A) -> Seq<u8>) -> Seq<u8>
    decreases s.len(),
{
    if s.len() == 0 {
        Seq::empty()
    } else {
        f(s[0]) + enc_seq(s.drop_first(), f)
    }
}

/// Element count, then the elements.
pub open spec fn enc_list<A>(s: Seq<A>, f: spec_fn(A) -> Seq<u8>) -> Seq<u8> {
    enc_u64(s.len() as u64) + enc_seq(s, f)
}

/// One word position.
pub open spec fn word_enc() -> spec_fn(usize) -> Seq<u8> {
    |w: usize| enc_u64(w as u64)
}

/// One translated word.
pub open spec fn string_enc() -> spec_fn(Seq<char>) -> Seq<u8> {
    |s: Seq<char>| enc_str(s)
}

/// One per-language association entry of a segment.
pub open spec fn enc_assoc_entry(p: (u128, Seq<usize>)) -> Seq<u8> {
    enc_u128(p.0) + enc_list(p.1, word_enc())
}

/// One association entry, as a list element.
pub open spec fn assoc_entry_enc() -> spec_fn((u128, Seq<usize>)) -> Seq<u8> {
    |p: (u128, Seq<usize>)| enc_assoc_entry(p)
}

/// One per-language word-list entry of a line.
pub open spec fn enc_wordlist_entry(p: (u128, Seq<Seq<char>>)) -> Seq<u8> {
    enc_u128(p.0) + enc_list(p.1, string_enc())
}

/// One word-list entry, as a list element.
pub open spec fn wordlist_entry_enc() -> spec_fn((u128, Seq<Seq<char>>)) -> Seq<u8> {
    |p: (u128, Seq<Seq<char>>)| enc_wordlist_entry(p)
}

/// One segment: bounds, text, association entries.
pub open spec fn enc_segment(s: SegmentView) -> Seq<u8> {
    enc_u64(s.begin) + enc_u64(s.end) + enc_str(s.text) + enc_list(
        s.translations,
        assoc_entry_enc(),
    )
}

/// One segment, as a list element.
pub open spec fn segment_enc() -> spec_fn(SegmentView) -> Seq<u8> {
    |s: SegmentView| enc_segment(s)
}

/// One line: bounds, agent, uuid, segments, word-list entries.
pub open spec fn enc_line(l: LineView) -> Seq<u8> {
    enc_u64(l.begin) + enc_u64(l.end) + enc_str(l.agent_id) + enc_u128(l.uuid) + enc_list(
        l.original,
        segment_enc(),
    ) + enc_list(l.translations, wordlist_entry_enc())
}

/// One line, as a list element.
pub open spec fn line_enc() -> spec_fn(LineView) -> Seq<u8> {
    |l: LineView| enc_line(l)
}

/// One agent.
pub open spec fn enc_agent(a: AgentView) -> Seq<u8> {
    enc_str(a.id)
}

/// One agent, as a list element.
pub open spec fn agent_enc() -> spec_fn(AgentView) -> Seq<u8> {
    |a: AgentView| enc_agent(a)
}

/// One registry entry: display name, then identifier.
pub open spec fn enc_registry_entry(e: TranslationEntryView) -> Seq<u8> {
    enc_str(e.language) + enc_u128(e.id)
}

/// One registry entry, as a list element.
pub open spec fn registry_entry_enc() -> spec_fn(TranslationEntryView) -> Seq<u8> {
    |e: TranslationEntryView| enc_registry_entry(e)
}

/// The whole document: agents, registry, lines.
pub open spec fn enc_doc(d: DocView) -> Seq<u8> {
    enc_list(d.metadata.agents, agent_enc()) + enc_list(
        d.metadata.translations,
        registry_entry_enc(),
    ) + enc_list(d.lines, line_enc())
}

// ------------------------------------------------------------------
// Machine-size validity: every length that the format stores in one
// count fits the machine's word. Every document built in memory
// satisfies it; the import contracts promise success only for such
// documents.
// ------------------------------------------------------------------

pub open spec fn str_ok(s: Seq<char>) -> bool {
    encode_utf8(s).len() <= usize::MAX
}

pub open spec fn strs_ok(ss: Seq<Seq<char>>) -> bool {
    ss.len() <= usize::MAX && forall|q: int| 0 <= q < ss.len() ==> str_ok(#[trigger] ss[q])
}

pub open spec fn assoc_entries_ok(ps: Seq<(u128, Seq<usize>)>) -> bool {
    ps.len() <= usize::MAX && forall|q: int|
        0 <= q < ps.len() ==> (#[trigger] ps[q]).1.len() <= usize::MAX
}

pub open spec fn wordlist_entries_ok(ps: Seq<(u128, Seq<Seq<char>>)>) -> bool {
    ps.len() <= usize::MAX && forall|q: int| 0 <= q < ps.len() ==> strs_ok((#[trigger] ps[q]).1)
}

pub open spec fn seg_ok(s: SegmentView) -> bool {
    str_ok(s.text) && assoc_entries_ok(s.translations)
}

pub open spec fn segs_ok(ss: Seq<SegmentView>) -> bool {
    ss.len() <= usize::MAX && forall|q: int| 0 <= q < ss.len() ==> seg_ok(#[trigger] ss[q])
}

pub open spec fn line_ok(l: LineView) -> bool {
    str_ok(l.agent_id) && segs_ok(l.original) && wordlist_entries_ok(l.translations)
}

pub open spec fn lines_ok(ls: Seq<LineView>) -> bool {
    ls.len() <= usize::MAX && forall|q: int| 0 <= q < ls.len() ==> line_ok(#[trigger] ls[q])
}

pub open spec fn agents_ok(ags: Seq<AgentView>) -> bool {
    ags.len() <= usize::MAX && forall|q: int| 0 <= q < ags.len() ==> str_ok((#[trigger] ags[q]).id)
}

pub open spec fn registry_ok(es: Seq<TranslationEntryView>) -> bool {
    es.len() <= usize::MAX && forall|q: int|
        0 <= q < es.len() ==> str_ok((#[trigger] es[q]).language)
}

/// Every count of the document fits the machine's word.
pub open spec fn doc_ok(d: DocView) -> bool {
    agents_ok(d.metadata.agents) && registry_ok(d.metadata.translations) && lines_ok(d.lines)
}

// ------------------------------------------------------------------
// A concatenation lemma for element sequences.
// ------------------------------------------------------------------

/// Extending the encoded prefix by one element appends that element's
/// encoding.
pub proof fn lemma_enc_seq_snoc<A>(s: Seq<A>, f: spec_fn(A) -> Seq<u8>, m: int)
    requires
        0 <= m < s.len(),
    ensures
        enc_seq(s.subrange(0, m + 1), f) == enc_seq(s.subrange(0, m), f) + f(s[m]),
    decreases m,
{
    if m == 0 {
        let one = s.subrange(0, 1);
        assert(one.drop_first() =~= Seq::<A>::empty());
        assert(enc_seq(one, f) == f(s[0]) + enc_seq(one.drop_first(), f));
        assert(enc_seq(s.subrange(0, 0), f) =~= Seq::<u8>::empty());
        assert(enc_seq(s.subrange(0, 1), f) =~= enc_seq(s.subrange(0, 0), f) + f(s[0]));
    } else {
        let sd = s.drop_first();
        lemma_enc_seq_snoc(sd, f, m - 1);
        assert(sd.subrange(0, m) =~= s.subrange(0, m + 1).drop_first());
        assert(sd.subrange(0, m - 1) =~= s.subrange(0, m).drop_first());
        assert(sd[m - 1] == s[m]);
        assert(enc_seq(s.subrange(0, m + 1), f) == f(s[0]) + enc_seq(
            s.subrange(0, m + 1).drop_first(),
            f,
        ));
        assert(enc_seq(s.subrange(0, m), f) == f(s[0]) + enc_seq(s.subrange(0, m).drop_first(), f));
        assert(enc_seq(s.subrange(0, m + 1), f) =~= enc_seq(s.subrange(0, m), f) + f(s[m]));
    }
}

// ------------------------------------------------------------------
// Encoders.
// ------------------------------------------------------------------

fn push_u64(out: &mut Vec<u8>, x: u64)
    ensures
        final(out)@ == old(out)@ + enc_u64(x),
{
    let mut b = u64_to_le_bytes(x);
    out.append(&mut b);
}

fn push_u128(out: &mut Vec<u8>, x: u128)
    ensures
        final(out)@ == old(out)@ + enc_u128(x),
{
    let mut b = u128_to_le_bytes(x);
    out.append(&mut b);
}

fn push_str(out: &mut Vec<u8>, s: &String)
    ensures
        final(out)@ == old(out)@ + enc_str(s@),
        str_ok(s@),
{
    let bytes = s.as_str().as_bytes_vec();
    push_u64(out, bytes.len() as u64);
    let mut bytes = bytes;
    out.append(&mut bytes);
}

fn push_words(out: &mut Vec<u8>, ws: &Vec<usize>)
    ensures
        final(out)@ == old(out)@ + enc_list(ws@, word_enc()),
        ws@.len() <= usize::MAX,
{
    push_u64(out, ws.len() as u64);
    let ghost base = out@;
    let n = ws.len();
    let mut m: usize = 0;
    while m < n
        invariant
            n == ws@.len(),
            0 <= (m as int) <= n as int,
            out@ == base + enc_seq(ws@.subrange(0, m as int), word_enc()),
        decreases n - m,
    {
        push_u64(out, ws[m] as u64);
        proof {
            lemma_enc_seq_snoc(ws@, word_enc(), m as int);
            assert(word_enc()(ws@[m as int]) == enc_u64((ws@[m as int]) as u64));
        }
        m = m + 1;
    }
    proof {
        assert(ws@.subrange(0, n as int) =~= ws@);
    }
}

fn push_string_list(out: &mut Vec<u8>, ss: &Vec<String>)
    ensures
        final(out)@ == old(out)@ + enc_list(string_views(ss@), string_enc()),
        strs_ok(string_views(ss@)),
{
    push_u64(out, ss.len() as u64);
    let ghost base = out@;
    let ghost sv = string_views(ss@);
    let n = ss.len();
    let mut m: usize = 0;
    while m < n
        invariant
            n == ss@.len(),
            sv == string_views(ss@),
            sv.len() == n as int,
            0 <= (m as int) <= n as int,
            out@ == base + enc_seq(sv.subrange(0, m as int), string_enc()),
            forall|q: int| 0 <= q < m as int ==> str_ok(#[trigger] sv[q]),
        decreases n - m,
    {
        push_str(out, &ss[m]);
        proof {
            lemma_enc_seq_snoc(sv, string_enc(), m as int);
            assert(sv[m as int] == ss@[m as int]@);
        }
        m = m + 1;
    }
    proof {
        assert(sv.subrange(0, n as int) =~= sv);
    }
}

fn push_assoc_entries(out: &mut Vec<u8>, ps: &Vec<(u128, Vec<usize>)>)
    ensures
        final(out)@ == old(out)@ + enc_list(pair_usize_views(ps@), assoc_entry_enc()),
        assoc_entries_ok(pair_usize_views(ps@)),
{
    push_u64(out, ps.len() as u64);
    let ghost base = out@;
    let ghost pv = pair_usize_views(ps@);
    let n = ps.len();
    let mut m: usize = 0;
    while m < n
        invariant
            n == ps@.len(),
            pv == pair_usize_views(ps@),
            pv.len() == n as int,
            0 <= (m as int) <= n as int,
            out@ == base + enc_seq(pv.subrange(0, m as int), assoc_entry_enc()),
            forall|q: int| 0 <= q < m as int ==> (#[trigger] pv[q]).1.len() <= usize::MAX,
        decreases n - m,
    {
        push_u128(out, ps[m].0);
        push_words(out, &ps[m].1);
        proof {
            lemma_enc_seq_snoc(pv, assoc_entry_enc(), m as int);
            assert(pv[m as int] == (ps@[m as int].0, ps@[m as int].1@));
            assert(assoc_entry_enc()(pv[m as int]) == enc_u128(pv[m as int].0) + enc_list(
                pv[m as int].1,
                word_enc(),
            ));
            assert(out@ =~= base + enc_seq(pv.subrange(0, m as int + 1), assoc_entry_enc()));
        }
        m = m + 1;
    }
    proof {
        assert(pv.subrange(0, n as int) =~= pv);
    }
}

fn push_wordlist_entries(out: &mut Vec<u8>, ps: &Vec<(u128, Vec<String>)>)
    ensures
        final(out)@ == old(out)@ + enc_list(pair_string_views(ps@), wordlist_entry_enc()),
        wordlist_entries_ok(pair_string_views(ps@)),
{
    push_u64(out, ps.len() as u64);
    let ghost base = out@;
    let ghost pv = pair_string_views(ps@);
    let n = ps.len();
    let mut m: usize = 0;
    while m < n
        invariant
            n == ps@.len(),
            pv == pair_string_views(ps@),
            pv.len() == n as int,
            0 <= (m as int) <= n as int,
            out@ == base + enc_seq(pv.subrange(0, m as int), wordlist_entry_enc()),
            forall|q: int| 0 <= q < m as int ==> strs_ok((#[trigger] pv[q]).1),
        decreases n - m,
    {
        push_u128(out, ps[m].0);
        push_string_list(out, &ps[m].1);
        proof {
            lemma_enc_seq_snoc(pv, wordlist_entry_enc(), m as int);
            assert(pv[m as int] == (ps@[m as int].0, string_views(ps@[m as int].1@)));
            assert(wordlist_entry_enc()(pv[m as int]) == enc_u128(pv[m as int].0) + enc_list(
                pv[m as int].1,
                string_enc(),
            ));
            assert(out@ =~= base + enc_seq(pv.subrange(0, m as int + 1), wordlist_entry_enc()));
        }
        m = m + 1;
    }
    proof {
        assert(pv.subrange(0, n as int) =~= pv);
    }
}

fn push_segment(out: &mut Vec<u8>, s: &LyricsSegment)
    ensures
        final(out)@ == old(out)@ + enc_segment(s@),
        seg_ok(s@),
{
    push_u64(out, s.begin.millis);
    push_u64(out, s.end.millis);
    push_str(out, &s.text);
    push_assoc_entries(out, &s.translations);
    proof {
        assert(final(out)@ =~= old(out)@ + enc_segment(s@));
    }
}

fn push_segments(out: &mut Vec<u8>, ss: &Vec<LyricsSegment>)
    ensures
        final(out)@ == old(out)@ + enc_list(seg_views(ss@), segment_enc()),
        segs_ok(seg_views(ss@)),
{
    push_u64(out, ss.len() as u64);
    let ghost base = out@;
    let ghost sv = seg_views(ss@);
    let n = ss.len();
    let mut m: usize = 0;
    while m < n
        invariant
            n == ss@.len(),
            sv == seg_views(ss@),
            sv.len() == n as int,
            0 <= (m as int) <= n as int,
            out@ == base + enc_seq(sv.subrange(0, m as int), segment_enc()),
            forall|q: int| 0 <= q < m as int ==> seg_ok(#[trigger] sv[q]),
        decreases n - m,
    {
        push_segment(out, &ss[m]);
        proof {
            lemma_enc_seq_snoc(sv, segment_enc(), m as int);
            assert(sv[m as int] == ss@[m as int]@);
            assert(out@ =~= base + enc_seq(sv.subrange(0, m as int + 1), segment_enc()));
        }
        m = m + 1;
    }
    proof {
        assert(sv.subrange(0, n as int) =~= sv);
    }
}

fn push_line(out: &mut Vec<u8>, l: &LyricsLine)
    ensures
        final(out)@ == old(out)@ + enc_line(l@),
        line_ok(l@),
{
    push_u64(out, l.begin.millis);
    push_u64(out, l.end.millis);
    push_str(out, &l.agent_id);
    push_u128(out, l.uuid);
    push_segments(out, &l.original);
    push_wordlist_entries(out, &l.translations);
    proof {
        assert(final(out)@ =~= old(out)@ + enc_line(l@));
    }
}

fn push_lines(out: &mut Vec<u8>, ls: &Vec<LyricsLine>)
    ensures
        final(out)@ == old(out)@ + enc_list(line_views(ls@), line_enc()),
        lines_ok(line_views(ls@)),
{
    push_u64(out, ls.len() as u64);
    let ghost base = out@;
    let ghost lv = line_views(ls@);
    let n = ls.len();
    let mut m: usize = 0;
    while m < n
        invariant
            n == ls@.len(),
            lv == line_views(ls@),
            lv.len() == n as int,
            0 <= (m as int) <= n as int,
            out@ == base + enc_seq(lv.subrange(0, m as int), line_enc()),
            forall|q: int| 0 <= q < m as int ==> line_ok(#[trigger] lv[q]),
        decreases n - m,
    {
        push_line(out, &ls[m]);
        proof {
            lemma_enc_seq_snoc(lv, line_enc(), m as int);
            assert(lv[m as int] == ls@[m as int]@);
            assert(out@ =~= base + enc_seq(lv.subrange(0, m as int + 1), line_enc()));
        }
        m = m + 1;
    }
    proof {
        assert(lv.subrange(0, n as int) =~= lv);
    }
}

fn push_agents(out: &mut Vec<u8>, ags: &Vec<Agent>)
    ensures
        final(out)@ == old(out)@ + enc_list(agent_views(ags@), agent_enc()),
        agents_ok(agent_views(ags@)),
{
    push_u64(out, ags.len() as u64);
    let ghost base = out@;
    let ghost av = agent_views(ags@);
    let n = ags.len();
    let mut m: usize = 0;
    while m < n
        invariant
            n == ags@.len(),
            av == agent_views(ags@),
            av.len() == n as int,
            0 <= (m as int) <= n as int,
            out@ == base + enc_seq(av.subrange(0, m as int), agent_enc()),
            forall|q: int| 0 <= q < m as int ==> str_ok((#[trigger] av[q]).id),
        decreases n - m,
    {
        push_str(out, &ags[m].id);
        proof {
            lemma_enc_seq_snoc(av, agent_enc(), m as int);
            assert(av[m as int] == ags@[m as int]@);
            assert(out@ =~= base + enc_seq(av.subrange(0, m as int + 1), agent_enc()));
        }
        m = m + 1;
    }
    proof {
        assert(av.subrange(0, n as int) =~= av);
    }
}

fn push_registry(out: &mut Vec<u8>, es: &Vec<TranslationEntry>)
    ensures
        final(out)@ == old(out)@ + enc_list(entry_views(es@), registry_entry_enc()),
        registry_ok(entry_views(es@)),
{
    push_u64(out, es.len() as u64);
    let ghost base = out@;
    let ghost ev = entry_views(es@);
    let n = es.len();
    let mut m: usize = 0;
    while m < n
        invariant
            n == es@.len(),
            ev == entry_views(es@),
            ev.len() == n as int,
            0 <= (m as int) <= n as int,
            out@ == base + enc_seq(ev.subrange(0, m as int), registry_entry_enc()),
            forall|q: int| 0 <= q < m as int ==> str_ok((#[trigger] ev[q]).language),
        decreases n - m,
    {
        push_str(out, &es[m].language);
        push_u128(out, es[m].id);
        proof {
            lemma_enc_seq_snoc(ev, registry_entry_enc(), m as int);
            assert(ev[m as int] == es@[m as int]@);
            assert(registry_entry_enc()(ev[m as int]) == enc_str(ev[m as int].language)
                + enc_u128(ev[m as int].id));
            assert(out@ =~= base + enc_seq(ev.subrange(0, m as int + 1), registry_entry_enc()));
        }
        m = m + 1;
    }
    proof {
        assert(ev.subrange(0, n as int) =~= ev);
    }
}

// ------------------------------------------------------------------
// Decoders. Each one is exact both ways: what it returns re-encodes to
// exactly the bytes it consumed, and whenever the input from `pos` on
// starts with the encoding of a machine-size-valid value, it returns
// that value.
// ------------------------------------------------------------------

fn dec_u64(b: &Vec<u8>, pos: usize) -> (r: Option<(u64, usize)>)
    ensures
        match r {
            Some(v) => (pos as int) + 8 == v.1 as int && v.1 as int <= b@.len() && b@.subrange(
                pos as int,
                v.1 as int,
            ) == enc_u64(v.0),
            None => (pos as int) + 8 > b@.len(),
        },
{
    if b.len() < 8 || pos > b.len() - 8 {
        return None;
    }
    let x = u64_from_le_bytes(slice_subrange(b.as_slice(), pos, pos + 8));
    proof {
        lemma_auto_spec_u64_to_from_le_bytes();
        assert(b@.subrange(pos as int, (pos as int) + 8).len() == 8);
    }
    Some((x, pos + 8))
}

fn dec_u128(b: &Vec<u8>, pos: usize) -> (r: Option<(u128, usize)>)
    ensures
        match r {
            Some(v) => (pos as int) + 16 == v.1 as int && v.1 as int <= b@.len() && b@.subrange(
                pos as int,
                v.1 as int,
            ) == enc_u128(v.0),
            None => (pos as int) + 16 > b@.len(),
        },
{
    if b.len() < 16 || pos > b.len() - 16 {
        return None;
    }
    let x = u128_from_le_bytes(slice_subrange(b.as_slice(), pos, pos + 16));
    proof {
        lemma_auto_spec_u128_to_from_le_bytes();
        assert(b@.subrange(pos as int, (pos as int) + 16).len() == 16);
    }
    Some((x, pos + 16))
}

fn dec_usize(b: &Vec<u8>, pos: usize) -> (r: Option<(usize, usize)>)
    ensures
        match r {
            Some(v) => (pos as int) + 8 == v.1 as int && v.1 as int <= b@.len() && b@.subrange(
                pos as int,
                v.1 as int,
            ) == enc_u64(v.0 as u64),
            None => (pos as int) + 8 > b@.len() || spec_u64_from_le_bytes(
                b@.subrange(pos as int, (pos as int) + 8),
            ) > usize::MAX as u64,
        },
{
    match dec_u64(b, pos) {
        None => None,
        Some((x, p2)) => {
            proof {
                lemma_auto_spec_u64_to_from_le_bytes();
                assert(spec_u64_from_le_bytes(b@.subrange(pos as int, (pos as int) + 8)) == x);
            }
            if x > usize::MAX as u64 {
                None
            } else {
                Some((x as usize, p2))
            }
        },
    }
}

fn dec_str(b: &Vec<u8>, pos: usize) -> (r: Option<(String, usize)>)
    requires
        pos <= b@.len(),
    ensures
        match r {
            Some(v) => pos <= v.1 && v.1 as int <= b@.len() && b@.subrange(pos as int, v.1 as int)
                == enc_str(v.0@),
            None => true,
        },
        forall|u: Seq<char>|
            #![trigger enc_str(u)]
            enc_str(u).is_prefix_of(b@.subrange(pos as int, b@.len() as int)) && str_ok(u)
                ==> match r {
                Some(v) => v.0@ == u && v.1 as int == pos + enc_str(u).len(),
                None => false,
            },
{
    let ghost whole = b@.subrange(pos as int, b@.len() as int);
    match dec_usize(b, pos) {
        None => {
            proof {
                lemma_auto_spec_u64_to_from_le_bytes();
                assert forall|u: Seq<char>|
                    enc_str(u).is_prefix_of(whole) && str_ok(u) implies false by {
                    assert(whole.subrange(0, 8) =~= b@.subrange(pos as int, (pos as int) + 8));
                    assert(enc_str(u).subrange(0, 8) =~= enc_u64(encode_utf8(u).len() as u64));
                    assert(b@.subrange(pos as int, (pos as int) + 8) == enc_u64(
                        encode_utf8(u).len() as u64,
                    ));
                }
            }
            None
        },
        Some((n, p1)) => {
            proof {
                assert forall|u: Seq<char>|
                    enc_str(u).is_prefix_of(whole) && str_ok(u) implies n
                    == encode_utf8(u).len() by {
                    lemma_auto_spec_u64_to_from_le_bytes();
                    assert(whole.subrange(0, 8) =~= b@.subrange(pos as int, (pos as int) + 8));
                    assert(enc_str(u).subrange(0, 8) =~= enc_u64(encode_utf8(u).len() as u64));
                    assert(enc_u64(n as u64) == enc_u64(encode_utf8(u).len() as u64));
                    assert(spec_u64_from_le_bytes(enc_u64(n as u64)) == n as u64);
                    assert(spec_u64_from_le_bytes(enc_u64(encode_utf8(u).len() as u64))
                        == encode_utf8(u).len() as u64);
                }
            }
            if n > b.len() - p1 {
                proof {
                    assert forall|u: Seq<char>|
                        enc_str(u).is_prefix_of(whole) && str_ok(u) implies false by {
                        assert(enc_str(u).len() == 8 + encode_utf8(u).len());
                    }
                }
                return None;
            }
            let bytes = slice_to_vec(slice_subrange(b.as_slice(), p1, p1 + n));
            proof {
                assert(bytes@ == b@.subrange(p1 as int, (p1 as int) + (n as int)));
            }
            match string_from_utf8(bytes) {
                None => {
                    proof {
                        assert forall|u: Seq<char>|
                            enc_str(u).is_prefix_of(whole) && str_ok(u) implies false by {
                            encode_utf8_valid_utf8(u);
                            assert(enc_str(u).subrange(8, enc_str(u).len() as int)
                                =~= encode_utf8(u));
                            assert(b@.subrange(p1 as int, (p1 as int) + (n as int))
                                =~= whole.subrange(8, 8 + (n as int)));
                            assert(whole.subrange(8, 8 + (n as int)) =~= enc_str(u).subrange(
                                8,
                                enc_str(u).len() as int,
                            ));
                        }
                    }
                    None
                },
                Some(s) => {
                    proof {
                        decode_utf8_encode_utf8(b@.subrange(p1 as int, (p1 as int) + (n as int)));
                        assert(encode_utf8(s@) == b@.subrange(p1 as int, (p1 as int) + (n as int)));
                        assert(b@.subrange(pos as int, (p1 as int) + (n as int)) =~= enc_u64(
                            n as u64,
                        ) + b@.subrange(p1 as int, (p1 as int) + (n as int)));
                        assert(b@.subrange(pos as int, (p1 as int) + (n as int)) == enc_str(s@));
                        assert forall|u: Seq<char>|
                            enc_str(u).is_prefix_of(whole) && str_ok(u) implies s@ == u && ((
                        p1 + n) as int) == pos + enc_str(u).len() by {
                            assert(enc_str(u).subrange(8, enc_str(u).len() as int)
                                =~= encode_utf8(u));
                            assert(b@.subrange(p1 as int, (p1 as int) + (n as int))
                                =~= whole.subrange(8, 8 + (n as int)));
                            assert(whole.subrange(8, 8 + (n as int)) =~= enc_str(u).subrange(
                                8,
                                enc_str(u).len() as int,
                            ));
                            assert(encode_utf8(u) == b@.subrange(
                                p1 as int,
                                (p1 as int) + (n as int),
                            ));
                            encode_utf8_decode_utf8(u);
                        }
                    }
                    Some((s, p1 + n))
                },
            }
        },
    }
}

/// Relies on `String::from_utf8`: succeeds exactly on valid UTF-8 and
/// decodes it; the result is stated over vstd's UTF-8 model.
#[verifier::external_body]
fn string_from_utf8(bytes: Vec<u8>) -> (r: Option<String>)
    ensures
        match r {
            Some(s) => valid_utf8(bytes@) && s@ == decode_utf8(bytes@),
            None => !valid_utf8(bytes@),
        },
{
    match String::from_utf8(bytes) {
        Ok(s) => Some(s),
        Err(_) => None,
    }
}

fn dec_words(b: &Vec<u8>, pos: usize) -> (r: Option<(Vec<usize>, usize)>)
    requires
        pos <= b@.len(),
    ensures
        match r {
            Some(v) => pos <= v.1 && v.1 as int <= b@.len() && b@.subrange(pos as int, v.1 as int)
                == enc_list(v.0@, word_enc()),
            None => true,
        },
        forall|u: Seq<usize>|
            #![trigger enc_list(u, word_enc())]
            enc_list(u, word_enc()).is_prefix_of(b@.subrange(pos as int, b@.len() as int))
                && u.len() <= usize::MAX ==> match r {
                Some(v) => v.0@ == u && v.1 as int == pos + enc_list(u, word_enc()).len(),
                None => false,
            },
{
    let ghost whole = b@.subrange(pos as int, b@.len() as int);
    match dec_usize(b, pos) {
        None => {
            proof {
                lemma_auto_spec_u64_to_from_le_bytes();
                assert forall|u: Seq<usize>|
                    enc_list(u, word_enc()).is_prefix_of(whole) && u.len()
                        <= usize::MAX implies false by {
                    assert(whole.subrange(0, 8) =~= b@.subrange(pos as int, (pos as int) + 8));
                    assert(enc_list(u, word_enc()).subrange(0, 8) =~= enc_u64(u.len() as u64));
                    assert(b@.subrange(pos as int, (pos as int) + 8) == enc_u64(u.len() as u64));
                }
            }
            None
        },
        Some((n, p1)) => {
            proof {
                assert forall|u: Seq<usize>|
                    enc_list(u, word_enc()).is_prefix_of(whole) && u.len() <= usize::MAX implies (
                n as int) == u.len() && enc_seq(u, word_enc()).is_prefix_of(
                    b@.subrange(p1 as int, b@.len() as int),
                ) by {
                    lemma_auto_spec_u64_to_from_le_bytes();
                    assert(whole.subrange(0, 8) =~= b@.subrange(pos as int, (pos as int) + 8));
                    assert(enc_list(u, word_enc()).subrange(0, 8) =~= enc_u64(u.len() as u64));
                    assert(enc_u64(n as u64) == enc_u64(u.len() as u64));
                    assert(spec_u64_from_le_bytes(enc_u64(n as u64)) == n as u64);
                    assert(spec_u64_from_le_bytes(enc_u64(u.len() as u64)) == u.len() as u64);
                    assert(b@.subrange(p1 as int, b@.len() as int) =~= whole.subrange(
                        8,
                        whole.len() as int,
                    ));
                    assert(enc_list(u, word_enc()).subrange(8, enc_list(u, word_enc()).len() as int)
                        =~= enc_seq(u, word_enc()));
                    assert(enc_seq(u, word_enc()).is_prefix_of(
                        whole.subrange(8, whole.len() as int),
                    ));
                }
            }
            let mut out: Vec<usize> = Vec::new();
            let mut p = p1;
            let mut m: usize = 0;
            proof {
                assert forall|u: Seq<usize>|
                    enc_list(u, word_enc()).is_prefix_of(whole) && u.len()
                        <= usize::MAX implies out@ == u.subrange(0, 0) && enc_seq(
                    u.subrange(0, u.len() as int),
                    word_enc(),
                ).is_prefix_of(b@.subrange(p1 as int, b@.len() as int)) by {
                    assert(out@ =~= u.subrange(0, 0));
                    assert(u.subrange(0, u.len() as int) =~= u);
                }
            }
            while m < n
                invariant
                    whole == b@.subrange(pos as int, b@.len() as int),
                    pos <= p1,
                    p1 as int <= b@.len(),
                    0 <= (m as int) <= n as int,
                    p1 <= p,
                    p as int <= b@.len(),
                    out@.len() == m as int,
                    b@.subrange(p1 as int, p as int) == enc_seq(out@, word_enc()),
                    forall|u: Seq<usize>|
                        #![trigger enc_list(u, word_enc())]
                        enc_list(u, word_enc()).is_prefix_of(
                            b@.subrange(pos as int, b@.len() as int),
                        ) && u.len() <= usize::MAX ==> (n as int) == u.len() && out@ == u.subrange(
                            0,
                            m as int,
                        ) && enc_seq(u.subrange(m as int, u.len() as int), word_enc()).is_prefix_of(
                            b@.subrange(p as int, b@.len() as int),
                        ),
                decreases n - m,
            {
                match dec_usize(b, p) {
                    None => {
                        proof {
                            assert forall|u: Seq<usize>|
                                enc_list(u, word_enc()).is_prefix_of(whole) && u.len()
                                    <= usize::MAX implies false by {
                                let rest = u.subrange(m as int, u.len() as int);
                                assert(rest.len() > 0);
                                assert(rest.drop_first() =~= u.subrange(
                                    m as int + 1,
                                    u.len() as int,
                                ));
                                assert(enc_seq(rest, word_enc()) == word_enc()(rest[0]) + enc_seq(
                                    rest.drop_first(),
                                    word_enc(),
                                ));
                                lemma_auto_spec_u64_to_from_le_bytes();
                                assert(b@.subrange(p as int, (p as int) + 8) =~= enc_seq(
                                    rest,
                                    word_enc(),
                                ).subrange(0, 8));
                                assert(enc_seq(rest, word_enc()).subrange(0, 8) =~= enc_u64(
                                    rest[0] as u64,
                                ));
                                assert(spec_u64_from_le_bytes(enc_u64(rest[0] as u64)) == rest[0]
                                    as u64);
                            }
                        }
                        return None;
                    },
                    Some((w, p2)) => {
                        let ghost out_prev = out@;
                        out.push(w);
                        proof {
                            assert(out@ =~= out_prev.push(w));
                            assert(out@.subrange(0, m as int) =~= out_prev);
                            lemma_enc_seq_snoc(out@, word_enc(), m as int);
                            assert(b@.subrange(p1 as int, p2 as int) =~= enc_seq(
                                out_prev,
                                word_enc(),
                            ) + enc_u64(w as u64));
                            assert(out@.subrange(0, m as int + 1) =~= out@);
                            assert(b@.subrange(p1 as int, p2 as int) == enc_seq(
                                out@,
                                word_enc(),
                            ));
                            assert forall|u: Seq<usize>|
                                enc_list(u, word_enc()).is_prefix_of(whole) && u.len()
                                    <= usize::MAX implies (n as int) == u.len() && out@
                                == u.subrange(0, m as int + 1) && enc_seq(
                                u.subrange(m as int + 1, u.len() as int),
                                word_enc(),
                            ).is_prefix_of(b@.subrange(p2 as int, b@.len() as int)) by {
                                let rest = u.subrange(m as int, u.len() as int);
                                assert(rest.len() > 0);
                                assert(rest.drop_first() =~= u.subrange(
                                    m as int + 1,
                                    u.len() as int,
                                ));
                                assert(enc_seq(rest, word_enc()) == word_enc()(rest[0]) + enc_seq(
                                    rest.drop_first(),
                                    word_enc(),
                                ));
                                lemma_auto_spec_u64_to_from_le_bytes();
                                assert(b@.subrange(p as int, (p as int) + 8) =~= enc_seq(
                                    rest,
                                    word_enc(),
                                ).subrange(0, 8));
                                assert(enc_seq(rest, word_enc()).subrange(0, 8) =~= enc_u64(
                                    rest[0] as u64,
                                ));
                                assert(enc_u64(w as u64) == enc_u64(rest[0] as u64));
                                assert(spec_u64_from_le_bytes(enc_u64(w as u64)) == w as u64);
                                assert(spec_u64_from_le_bytes(enc_u64(rest[0] as u64)) == rest[0]
                                    as u64);
                                assert(w == rest[0]);
                                assert(u.subrange(0, m as int + 1) =~= u.subrange(
                                    0,
                                    m as int,
                                ).push(u[m as int]));
                                assert(out@ =~= u.subrange(0, m as int + 1));
                                assert(enc_seq(rest.drop_first(), word_enc()).is_prefix_of(
                                    b@.subrange(p2 as int, b@.len() as int),
                                )) by {
                                    assert(enc_seq(rest, word_enc()).is_prefix_of(
                                        b@.subrange(p as int, b@.len() as int),
                                    ));
                                    assert(b@.subrange(p as int, b@.len() as int).subrange(
                                        8,
                                        b@.len() - p as int,
                                    ) =~= b@.subrange(p2 as int, b@.len() as int));
                                    assert(enc_seq(rest, word_enc()).subrange(
                                        8,
                                        enc_seq(rest, word_enc()).len() as int,
                                    ) =~= enc_seq(rest.drop_first(), word_enc()));
                                }
                            }
                        }
                        p = p2;
                    },
                }
                m = m + 1;
            }
            proof {
                assert(b@.subrange(pos as int, p as int) =~= enc_u64(n as u64) + enc_seq(
                    out@,
                    word_enc(),
                ));
                assert(out@.len() as u64 == n as u64);
                assert(b@.subrange(pos as int, p as int) == enc_list(out@, word_enc()));
                assert forall|u: Seq<usize>|
                    enc_list(u, word_enc()).is_prefix_of(whole) && u.len()
                        <= usize::MAX implies out@ == u && (p as int) == pos + enc_list(
                    u,
                    word_enc(),
                ).len() by {
                    assert(out@ =~= u.subrange(0, m as int));
                    assert(u.subrange(0, m as int) =~= u);
                    assert(enc_seq(u, word_enc()).len() == (p as int) - (p1 as int)) by {
                        assert(enc_seq(out@, word_enc()) == b@.subrange(p1 as int, p as int));
                    }
                }
            }
            Some((out, p))
        },
    }
}


/// Splitting a prefix: when a concatenation is a prefix of `w`, its
/// first part is a prefix of `w` and its second part is a prefix of the
/// rest of `w`.
pub proof fn lemma_prefix_split(a: Seq<u8>, c: Seq<u8>, w: Seq<u8>)
    requires
        (a + c).is_prefix_of(w),
    ensures
        a.is_prefix_of(w),
        c.is_prefix_of(w.subrange(a.len() as int, w.len() as int)),
{
    assert((a + c).len() <= w.len());
    assert(w.subrange(0, (a + c).len() as int) == a + c);
    assert forall|i: int| 0 <= i < a.len() implies w.subrange(0, a.len() as int)[i] == a[i] by {
        assert(w.subrange(0, (a + c).len() as int)[i] == w[i]);
        assert((a + c)[i] == a[i]);
    }
    assert(w.subrange(0, a.len() as int) =~= a);
    assert forall|i: int|
        0 <= i < c.len() implies w.subrange(a.len() as int, w.len() as int).subrange(
        0,
        c.len() as int,
    )[i] == c[i] by {
        assert(w.subrange(0, (a + c).len() as int)[a.len() + i] == w[a.len() + i]);
        assert((a + c)[a.len() + i] == c[i]);
    }
    assert(w.subrange(a.len() as int, w.len() as int).subrange(0, c.len() as int) =~= c);
}


fn dec_agent(b: &Vec<u8>, pos: usize) -> (r: Option<(Agent, usize)>)
    requires
        pos <= b@.len(),
    ensures
        match r {
            Some(v) => pos <= v.1 && v.1 as int <= b@.len() && b@.subrange(pos as int, v.1 as int)
                == enc_agent(v.0@),
            None => true,
        },
        forall|u: AgentView|
            #![trigger enc_agent(u)]
            enc_agent(u).is_prefix_of(b@.subrange(pos as int, b@.len() as int)) && str_ok(u.id)
                ==> match r {
                Some(v) => v.0@ == u && v.1 as int == pos + enc_agent(u).len(),
                None => false,
            },
{
    match dec_str(b, pos) {
        None => {
            proof {
                assert forall|u: AgentView|
                    enc_agent(u).is_prefix_of(b@.subrange(pos as int, b@.len() as int)) && str_ok(
                        u.id,
                    ) implies false by {
            lemma_auto_spec_u64_to_from_le_bytes();
            lemma_auto_spec_u128_to_from_le_bytes();
        }
            }
            None
        },
        Some((s, p2)) => {
            proof {
                assert forall|u: AgentView|
                    enc_agent(u).is_prefix_of(b@.subrange(pos as int, b@.len() as int)) && str_ok(
                        u.id,
                    ) implies Agent { id: s }@ == u && (p2 as int) == pos + enc_agent(u).len() by {
            lemma_auto_spec_u64_to_from_le_bytes();
            lemma_auto_spec_u128_to_from_le_bytes();
                    assert(u == AgentView { id: u.id });
                }
            }
            Some((Agent { id: s }, p2))
        },
    }
}

fn dec_registry_entry(b: &Vec<u8>, pos: usize) -> (r: Option<(TranslationEntry, usize)>)
    requires
        pos <= b@.len(),
    ensures
        match r {
            Some(v) => pos <= v.1 && v.1 as int <= b@.len() && b@.subrange(pos as int, v.1 as int)
                == enc_registry_entry(v.0@),
            None => true,
        },
        forall|u: TranslationEntryView|
            #![trigger enc_registry_entry(u)]
            enc_registry_entry(u).is_prefix_of(b@.subrange(pos as int, b@.len() as int)) && str_ok(
                u.language,
            ) ==> match r {
                Some(v) => v.0@ == u && v.1 as int == pos + enc_registry_entry(u).len(),
                None => false,
            },
{
    let ghost whole = b@.subrange(pos as int, b@.len() as int);
    proof {
        lemma_auto_spec_u64_to_from_le_bytes();
        lemma_auto_spec_u128_to_from_le_bytes();
        assert forall|u: TranslationEntryView|
            enc_registry_entry(u).is_prefix_of(whole) && str_ok(u.language) implies enc_str(
            u.language,
        ).is_prefix_of(whole) && enc_u128(u.id).is_prefix_of(
            whole.subrange(enc_str(u.language).len() as int, whole.len() as int),
        ) by {
            lemma_auto_spec_u64_to_from_le_bytes();
            lemma_auto_spec_u128_to_from_le_bytes();
            lemma_prefix_split(enc_str(u.language), enc_u128(u.id), whole);
        }
    }
    match dec_str(b, pos) {
        None => {
            proof {
                assert forall|u: TranslationEntryView|
                    enc_registry_entry(u).is_prefix_of(whole) && str_ok(u.language) implies
                    false by {}
            }
            None
        },
        Some((s, p1)) => {
            proof {
                assert forall|u: TranslationEntryView|
                    enc_registry_entry(u).is_prefix_of(whole) && str_ok(u.language) implies s@
                    == u.language && (p1 as int) == pos + enc_str(u.language).len() by {
            lemma_auto_spec_u64_to_from_le_bytes();
            lemma_auto_spec_u128_to_from_le_bytes();}
            }
            match dec_u128(b, p1) {
                None => {
                    proof {
                        assert forall|u: TranslationEntryView|
                            enc_registry_entry(u).is_prefix_of(whole) && str_ok(
                                u.language,
                            ) implies false by {
                            assert(whole.subrange(
                                (p1 - pos) as int,
                                whole.len() as int,
                            ) =~= b@.subrange(p1 as int, b@.len() as int));
                        }
                    }
                    None
                },
                Some((id, p2)) => {
                    proof {
                        assert forall|u: TranslationEntryView|
                            enc_registry_entry(u).is_prefix_of(whole) && str_ok(
                                u.language,
                            ) implies TranslationEntry { language: s, id }@ == u && (p2 as int)
                            == pos + enc_registry_entry(u).len() by {
                            lemma_auto_spec_u64_to_from_le_bytes();
                            lemma_auto_spec_u128_to_from_le_bytes();
                            assert((p1 - pos) as int == enc_str(u.language).len());
                            assert(whole.subrange(
                                (p1 - pos) as int,
                                whole.len() as int,
                            ) =~= b@.subrange(p1 as int, b@.len() as int));
                            assert(enc_u128(u.id).is_prefix_of(
                                b@.subrange(p1 as int, b@.len() as int),
                            ));
                            assert(b@.subrange(p1 as int, b@.len() as int).subrange(0, 16)
                                =~= b@.subrange(p1 as int, (p1 as int) + 16));
                            assert(b@.subrange(p1 as int, (p1 as int) + 16) == enc_u128(u.id));
                            assert(spec_u128_from_le_bytes(enc_u128(id)) == id);
                            assert(spec_u128_from_le_bytes(enc_u128(u.id)) == u.id);
                            assert(id == u.id);
                            assert(u == TranslationEntryView { language: u.language, id: u.id });
                        }
                        assert(b@.subrange(pos as int, p2 as int) =~= enc_str(s@) + enc_u128(id));
                    }
                    Some((TranslationEntry { language: s, id }, p2))
                },
            }
        },
    }
}

fn dec_assoc_entry(b: &Vec<u8>, pos: usize) -> (r: Option<((u128, Vec<usize>), usize)>)
    requires
        pos <= b@.len(),
    ensures
        match r {
            Some(v) => pos <= v.1 && v.1 as int <= b@.len() && b@.subrange(pos as int, v.1 as int)
                == enc_assoc_entry((v.0.0, v.0.1@)),
            None => true,
        },
        forall|u: (u128, Seq<usize>)|
            #![trigger enc_assoc_entry(u)]
            enc_assoc_entry(u).is_prefix_of(b@.subrange(pos as int, b@.len() as int)) && u.1.len()
                <= usize::MAX ==> match r {
                Some(v) => (v.0.0, v.0.1@) == u && v.1 as int == pos + enc_assoc_entry(u).len(),
                None => false,
            },
{
    let ghost whole = b@.subrange(pos as int, b@.len() as int);
    proof {
        lemma_auto_spec_u64_to_from_le_bytes();
        lemma_auto_spec_u128_to_from_le_bytes();
        assert forall|u: (u128, Seq<usize>)|
            enc_assoc_entry(u).is_prefix_of(whole) && u.1.len() <= usize::MAX implies enc_u128(
            u.0,
        ).is_prefix_of(whole) && enc_list(u.1, word_enc()).is_prefix_of(
            whole.subrange(16, whole.len() as int),
        ) by {
            lemma_auto_spec_u64_to_from_le_bytes();
            lemma_auto_spec_u128_to_from_le_bytes();
            lemma_prefix_split(enc_u128(u.0), enc_list(u.1, word_enc()), whole);
        }
    }
    match dec_u128(b, pos) {
        None => {
            proof {
                assert forall|u: (u128, Seq<usize>)|
                    enc_assoc_entry(u).is_prefix_of(whole) && u.1.len()
                        <= usize::MAX implies false by {
            lemma_auto_spec_u64_to_from_le_bytes();
            lemma_auto_spec_u128_to_from_le_bytes();
        }
            }
            None
        },
        Some((id, p1)) => {
            proof {
                assert forall|u: (u128, Seq<usize>)|
                    enc_assoc_entry(u).is_prefix_of(whole) && u.1.len() <= usize::MAX implies id
                    == u.0 && enc_list(u.1, word_enc()).is_prefix_of(
                    b@.subrange(p1 as int, b@.len() as int),
                ) by {
            lemma_auto_spec_u64_to_from_le_bytes();
            lemma_auto_spec_u128_to_from_le_bytes();
                    assert(b@.subrange(pos as int, p1 as int) =~= whole.subrange(0, 16));
                    assert(whole.subrange(0, 16) =~= enc_u128(u.0).subrange(0, 16));
                    lemma_auto_spec_u128_to_from_le_bytes();
                    assert(spec_u128_from_le_bytes(enc_u128(id)) == id);
                    assert(spec_u128_from_le_bytes(enc_u128(u.0)) == u.0);
                    assert(whole.subrange(16, whole.len() as int) =~= b@.subrange(
                        p1 as int,
                        b@.len() as int,
                    ));
                }
            }
            match dec_words(b, p1) {
                None => {
                    proof {
                        assert forall|u: (u128, Seq<usize>)|
                            enc_assoc_entry(u).is_prefix_of(whole) && u.1.len()
                                <= usize::MAX implies false by {
            lemma_auto_spec_u64_to_from_le_bytes();
            lemma_auto_spec_u128_to_from_le_bytes();
        }
                    }
                    None
                },
                Some((ws, p2)) => {
                    proof {
                        assert(b@.subrange(pos as int, p2 as int) =~= enc_u128(id) + enc_list(
                            ws@,
                            word_enc(),
                        ));
                        assert forall|u: (u128, Seq<usize>)|
                            enc_assoc_entry(u).is_prefix_of(whole) && u.1.len()
                                <= usize::MAX implies ((id, ws@) == u) && (p2 as int) == pos
                            + enc_assoc_entry(u).len() by {
            lemma_auto_spec_u64_to_from_le_bytes();
            lemma_auto_spec_u128_to_from_le_bytes();
                            assert(u == (u.0, u.1));
                        }
                    }
                    Some(((id, ws), p2))
                },
            }
        },
    }
}


fn dec_string_list(b: &Vec<u8>, pos: usize) -> (r: Option<(Vec<String>, usize)>)
    requires
        pos <= b@.len(),
    ensures
        match r {
            Some(v) => pos <= v.1 && v.1 as int <= b@.len() && b@.subrange(pos as int, v.1 as int)
                == enc_list(string_views(v.0@), string_enc()),
            None => true,
        },
        forall|u: Seq<Seq<char>>|
            #![trigger enc_list(u, string_enc())]
            enc_list(u, string_enc()).is_prefix_of(b@.subrange(pos as int, b@.len() as int)) && strs_ok(u)
                ==> match r {
                Some(v) => string_views(v.0@) == u && v.1 as int == pos + enc_list(u, string_enc()).len(),
                None => false,
            },
{
    let ghost whole = b@.subrange(pos as int, b@.len() as int);
    match dec_usize(b, pos) {
        None => {
            proof {
                lemma_auto_spec_u64_to_from_le_bytes();
                assert forall|u: Seq<Seq<char>>|
                    enc_list(u, string_enc()).is_prefix_of(whole) && strs_ok(u) implies false by {
                    assert(whole.subrange(0, 8) =~= b@.subrange(pos as int, (pos as int) + 8));
                    assert(enc_list(u, string_enc()).subrange(0, 8) =~= enc_u64(u.len() as u64));
                    assert(b@.subrange(pos as int, (pos as int) + 8) == enc_u64(u.len() as u64));
                }
            }
            None
        },
        Some((n, p1)) => {
            proof {
                assert forall|u: Seq<Seq<char>>|
                    enc_list(u, string_enc()).is_prefix_of(whole) && strs_ok(u) implies (n as int) == u.len()
                    && enc_seq(u, string_enc()).is_prefix_of(b@.subrange(p1 as int, b@.len() as int)) by {
                    lemma_auto_spec_u64_to_from_le_bytes();
                    assert(whole.subrange(0, 8) =~= b@.subrange(pos as int, (pos as int) + 8));
                    assert(enc_list(u, string_enc()).subrange(0, 8) =~= enc_u64(u.len() as u64));
                    assert(enc_u64(n as u64) == enc_u64(u.len() as u64));
                    assert(spec_u64_from_le_bytes(enc_u64(n as u64)) == n as u64);
                    assert(spec_u64_from_le_bytes(enc_u64(u.len() as u64)) == u.len() as u64);
                    assert(b@.subrange(p1 as int, b@.len() as int) =~= whole.subrange(
                        8,
                        whole.len() as int,
                    ));
                    assert(enc_list(u, string_enc()).subrange(8, enc_list(u, string_enc()).len() as int)
                        =~= enc_seq(u, string_enc()));
                    assert(enc_seq(u, string_enc()).is_prefix_of(whole.subrange(8, whole.len() as int)));
                }
            }
            let mut out: Vec<String> = Vec::new();
            let mut p = p1;
            let mut m: usize = 0;
            proof {
                assert forall|u: Seq<Seq<char>>|
                    enc_list(u, string_enc()).is_prefix_of(whole) && strs_ok(u) implies string_views(out@)
                    == u.subrange(0, 0) && enc_seq(u.subrange(0, u.len() as int), string_enc()).is_prefix_of(
                    b@.subrange(p1 as int, b@.len() as int),
                ) by {
                    assert(string_views(out@) =~= u.subrange(0, 0));
                    assert(u.subrange(0, u.len() as int) =~= u);
                }
            }
            while m < n
                invariant
                    whole == b@.subrange(pos as int, b@.len() as int),
                    pos <= p1,
                    p1 as int <= b@.len(),
                    0 <= (m as int) <= n as int,
                    p1 <= p,
                    p as int <= b@.len(),
                    out@.len() == m as int,
                    b@.subrange(p1 as int, p as int) == enc_seq(string_views(out@), string_enc()),
                    forall|u: Seq<Seq<char>>|
                        #![trigger enc_list(u, string_enc())]
                        enc_list(u, string_enc()).is_prefix_of(b@.subrange(pos as int, b@.len() as int))
                            && strs_ok(u) ==> (n as int) == u.len() && string_views(out@) == u.subrange(
                            0,
                            m as int,
                        ) && enc_seq(u.subrange(m as int, u.len() as int), string_enc()).is_prefix_of(
                            b@.subrange(p as int, b@.len() as int),
                        ),
                decreases n - m,
            {
                match dec_str(b, p) {
                    None => {
                        proof {
                            assert forall|u: Seq<Seq<char>>|
                                enc_list(u, string_enc()).is_prefix_of(whole) && strs_ok(u) implies false by {
                                let rest = u.subrange(m as int, u.len() as int);
                                assert(rest.len() > 0);
                                assert(rest.drop_first() =~= u.subrange(
                                    m as int + 1,
                                    u.len() as int,
                                ));
                                assert(enc_seq(rest, string_enc()) == string_enc()(rest[0]) + enc_seq(
                                    rest.drop_first(),
                                    string_enc(),
                                ));
                                lemma_prefix_split(
                                    enc_str(rest[0]),
                                    enc_seq(rest.drop_first(), string_enc()),
                                    b@.subrange(p as int, b@.len() as int),
                                );
                                assert(str_ok(rest[0]));
                            }
                        }
                        return None;
                    },
                    Some((e, p2)) => {
                        let ghost out_prev = out@;
                        out.push(e);
                        proof {
                            assert(out@ =~= out_prev.push(e));
                            assert(string_views(out@) =~= string_views(out_prev).push(e@));
                            assert(string_views(out@).subrange(0, m as int) =~= string_views(out_prev));
                            lemma_enc_seq_snoc(string_views(out@), string_enc(), m as int);
                            assert(string_views(out@).subrange(0, m as int + 1) =~= string_views(out@));
                            assert(b@.subrange(p1 as int, p2 as int) =~= enc_seq(
                                string_views(out_prev),
                                string_enc(),
                            ) + enc_str(e@));
                            assert(b@.subrange(p1 as int, p2 as int) == enc_seq(
                                string_views(out@),
                                string_enc(),
                            ));
                            assert forall|u: Seq<Seq<char>>|
                                enc_list(u, string_enc()).is_prefix_of(whole) && strs_ok(u) implies (n as int)
                                == u.len() && string_views(out@) == u.subrange(0, m as int + 1) && enc_seq(
                                u.subrange(m as int + 1, u.len() as int),
                                string_enc(),
                            ).is_prefix_of(b@.subrange(p2 as int, b@.len() as int)) by {
                                let rest = u.subrange(m as int, u.len() as int);
                                assert(rest.len() > 0);
                                assert(rest.drop_first() =~= u.subrange(
                                    m as int + 1,
                                    u.len() as int,
                                ));
                                assert(enc_seq(rest, string_enc()) == string_enc()(rest[0]) + enc_seq(
                                    rest.drop_first(),
                                    string_enc(),
                                ));
                                lemma_prefix_split(
                                    enc_str(rest[0]),
                                    enc_seq(rest.drop_first(), string_enc()),
                                    b@.subrange(p as int, b@.len() as int),
                                );
                                assert(str_ok(rest[0]));
                                assert(e@ == rest[0]);
                                assert(u.subrange(0, m as int + 1) =~= u.subrange(
                                    0,
                                    m as int,
                                ).push(u[m as int]));
                                assert(string_views(out@) =~= u.subrange(0, m as int + 1));
                                assert(b@.subrange(p as int, b@.len() as int).subrange(
                                    enc_str(rest[0]).len() as int,
                                    b@.len() - p as int,
                                ) =~= b@.subrange(p2 as int, b@.len() as int));
                            }
                        }
                        p = p2;
                    },
                }
                m = m + 1;
            }
            proof {
                assert(b@.subrange(pos as int, p as int) =~= enc_u64(n as u64) + enc_seq(
                    string_views(out@),
                    string_enc(),
                ));
                assert(string_views(out@).len() == n as int);
                assert(b@.subrange(pos as int, p as int) == enc_list(string_views(out@), string_enc()));
                assert forall|u: Seq<Seq<char>>|
                    enc_list(u, string_enc()).is_prefix_of(whole) && strs_ok(u) implies string_views(out@) == u && (
                p as int) == pos + enc_list(u, string_enc()).len() by {
                    assert(string_views(out@) =~= u.subrange(0, m as int));
                    assert(u.subrange(0, m as int) =~= u);
                    assert(enc_seq(u, string_enc()).len() == (p as int) - (p1 as int)) by {
                        assert(enc_seq(string_views(out@), string_enc()) == b@.subrange(p1 as int, p as int));
                    }
                }
            }
            Some((out, p))
        },
    }
}

fn dec_assoc_entries(b: &Vec<u8>, pos: usize) -> (r: Option<(Vec<(u128, Vec<usize>)>, usize)>)
    requires
        pos <= b@.len(),
    ensures
        match r {
            Some(v) => pos <= v.1 && v.1 as int <= b@.len() && b@.subrange(pos as int, v.1 as int)
                == enc_list(pair_usize_views(v.0@), assoc_entry_enc()),
            None => true,
        },
        forall|u: Seq<(u128, Seq<usize>)>|
            #![trigger enc_list(u, assoc_entry_enc())]
            enc_list(u, assoc_entry_enc()).is_prefix_of(b@.subrange(pos as int, b@.len() as int)) && assoc_entries_ok(u)
                ==> match r {
                Some(v) => pair_usize_views(v.0@) == u && v.1 as int == pos + enc_list(u, assoc_entry_enc()).len(),
                None => false,
            },
{
    let ghost whole = b@.subrange(pos as int, b@.len() as int);
    match dec_usize(b, pos) {
        None => {
            proof {
                lemma_auto_spec_u64_to_from_le_bytes();
                assert forall|u: Seq<(u128, Seq<usize>)>|
                    enc_list(u, assoc_entry_enc()).is_prefix_of(whole) && assoc_entries_ok(u) implies false by {
                    assert(whole.subrange(0, 8) =~= b@.subrange(pos as int, (pos as int) + 8));
                    assert(enc_list(u, assoc_entry_enc()).subrange(0, 8) =~= enc_u64(u.len() as u64));
                    assert(b@.subrange(pos as int, (pos as int) + 8) == enc_u64(u.len() as u64));
                }
            }
            None
        },
        Some((n, p1)) => {
            proof {
                assert forall|u: Seq<(u128, Seq<usize>)>|
                    enc_list(u, assoc_entry_enc()).is_prefix_of(whole) && assoc_entries_ok(u) implies (n as int) == u.len()
                    && enc_seq(u, assoc_entry_enc()).is_prefix_of(b@.subrange(p1 as int, b@.len() as int)) by {
                    lemma_auto_spec_u64_to_from_le_bytes();
                    assert(whole.subrange(0, 8) =~= b@.subrange(pos as int, (pos as int) + 8));
                    assert(enc_list(u, assoc_entry_enc()).subrange(0, 8) =~= enc_u64(u.len() as u64));
                    assert(enc_u64(n as u64) == enc_u64(u.len() as u64));
                    assert(spec_u64_from_le_bytes(enc_u64(n as u64)) == n as u64);
                    assert(spec_u64_from_le_bytes(enc_u64(u.len() as u64)) == u.len() as u64);
                    assert(b@.subrange(p1 as int, b@.len() as int) =~= whole.subrange(
                        8,
                        whole.len() as int,
                    ));
                    assert(enc_list(u, assoc_entry_enc()).subrange(8, enc_list(u, assoc_entry_enc()).len() as int)
                        =~= enc_seq(u, assoc_entry_enc()));
                    assert(enc_seq(u, assoc_entry_enc()).is_prefix_of(whole.subrange(8, whole.len() as int)));
                }
            }
            let mut out: Vec<(u128, Vec<usize>)> = Vec::new();
            let mut p = p1;
            let mut m: usize = 0;
            proof {
                assert forall|u: Seq<(u128, Seq<usize>)>|
                    enc_list(u, assoc_entry_enc()).is_prefix_of(whole) && assoc_entries_ok(u) implies pair_usize_views(out@)
                    == u.subrange(0, 0) && enc_seq(u.subrange(0, u.len() as int), assoc_entry_enc()).is_prefix_of(
                    b@.subrange(p1 as int, b@.len() as int),
                ) by {
                    assert(pair_usize_views(out@) =~= u.subrange(0, 0));
                    assert(u.subrange(0, u.len() as int) =~= u);
                }
            }
            while m < n
                invariant
                    whole == b@.subrange(pos as int, b@.len() as int),
                    pos <= p1,
                    p1 as int <= b@.len(),
                    0 <= (m as int) <= n as int,
                    p1 <= p,
                    p as int <= b@.len(),
                    out@.len() == m as int,
                    b@.subrange(p1 as int, p as int) == enc_seq(pair_usize_views(out@), assoc_entry_enc()),
                    forall|u: Seq<(u128, Seq<usize>)>|
                        #![trigger enc_list(u, assoc_entry_enc())]
                        enc_list(u, assoc_entry_enc()).is_prefix_of(b@.subrange(pos as int, b@.len() as int))
                            && assoc_entries_ok(u) ==> (n as int) == u.len() && pair_usize_views(out@) == u.subrange(
                            0,
                            m as int,
                        ) && enc_seq(u.subrange(m as int, u.len() as int), assoc_entry_enc()).is_prefix_of(
                            b@.subrange(p as int, b@.len() as int),
                        ),
                decreases n - m,
            {
                match dec_assoc_entry(b, p) {
                    None => {
                        proof {
                            assert forall|u: Seq<(u128, Seq<usize>)>|
                                enc_list(u, assoc_entry_enc()).is_prefix_of(whole) && assoc_entries_ok(u) implies false by {
                                let rest = u.subrange(m as int, u.len() as int);
                                assert(rest.len() > 0);
                                assert(rest.drop_first() =~= u.subrange(
                                    m as int + 1,
                                    u.len() as int,
                                ));
                                assert(enc_seq(rest, assoc_entry_enc()) == assoc_entry_enc()(rest[0]) + enc_seq(
                                    rest.drop_first(),
                                    assoc_entry_enc(),
                                ));
                                lemma_prefix_split(
                                    enc_assoc_entry(rest[0]),
                                    enc_seq(rest.drop_first(), assoc_entry_enc()),
                                    b@.subrange(p as int, b@.len() as int),
                                );
                                assert((rest[0]).1.len() <= usize::MAX);
                            }
                        }
                        return None;
                    },
                    Some((e, p2)) => {
                        let ghost out_prev = out@;
                        out.push(e);
                        proof {
                            assert(out@ =~= out_prev.push(e));
                            assert(pair_usize_views(out@) =~= pair_usize_views(out_prev).push((e.0, e.1@)));
                            assert(pair_usize_views(out@).subrange(0, m as int) =~= pair_usize_views(out_prev));
                            lemma_enc_seq_snoc(pair_usize_views(out@), assoc_entry_enc(), m as int);
                            assert(pair_usize_views(out@).subrange(0, m as int + 1) =~= pair_usize_views(out@));
                            assert(b@.subrange(p1 as int, p2 as int) =~= enc_seq(
                                pair_usize_views(out_prev),
                                assoc_entry_enc(),
                            ) + enc_assoc_entry((e.0, e.1@)));
                            assert(b@.subrange(p1 as int, p2 as int) == enc_seq(
                                pair_usize_views(out@),
                                assoc_entry_enc(),
                            ));
                            assert forall|u: Seq<(u128, Seq<usize>)>|
                                enc_list(u, assoc_entry_enc()).is_prefix_of(whole) && assoc_entries_ok(u) implies (n as int)
                                == u.len() && pair_usize_views(out@) == u.subrange(0, m as int + 1) && enc_seq(
                                u.subrange(m as int + 1, u.len() as int),
                                assoc_entry_enc(),
                            ).is_prefix_of(b@.subrange(p2 as int, b@.len() as int)) by {
                                let rest = u.subrange(m as int, u.len() as int);
                                assert(rest.len() > 0);
                                assert(rest.drop_first() =~= u.subrange(
                                    m as int + 1,
                                    u.len() as int,
                                ));
                                assert(enc_seq(rest, assoc_entry_enc()) == assoc_entry_enc()(rest[0]) + enc_seq(
                                    rest.drop_first(),
                                    assoc_entry_enc(),
                                ));
                                lemma_prefix_split(
                                    enc_assoc_entry(rest[0]),
                                    enc_seq(rest.drop_first(), assoc_entry_enc()),
                                    b@.subrange(p as int, b@.len() as int),
                                );
                                assert((rest[0]).1.len() <= usize::MAX);
                                assert((e.0, e.1@) == rest[0]);
                                assert(u.subrange(0, m as int + 1) =~= u.subrange(
                                    0,
                                    m as int,
                                ).push(u[m as int]));
                                assert(pair_usize_views(out@) =~= u.subrange(0, m as int + 1));
                                assert(b@.subrange(p as int, b@.len() as int).subrange(
                                    enc_assoc_entry(rest[0]).len() as int,
                                    b@.len() - p as int,
                                ) =~= b@.subrange(p2 as int, b@.len() as int));
                            }
                        }
                        p = p2;
                    },
                }
                m = m + 1;
            }
            proof {
                assert(b@.subrange(pos as int, p as int) =~= enc_u64(n as u64) + enc_seq(
                    pair_usize_views(out@),
                    assoc_entry_enc(),
                ));
                assert(pair_usize_views(out@).len() == n as int);
                assert(b@.subrange(pos as int, p as int) == enc_list(pair_usize_views(out@), assoc_entry_enc()));
                assert forall|u: Seq<(u128, Seq<usize>)>|
                    enc_list(u, assoc_entry_enc()).is_prefix_of(whole) && assoc_entries_ok(u) implies pair_usize_views(out@) == u && (
                p as int) == pos + enc_list(u, assoc_entry_enc()).len() by {
                    assert(pair_usize_views(out@) =~= u.subrange(0, m as int));
                    assert(u.subrange(0, m as int) =~= u);
                    assert(enc_seq(u, assoc_entry_enc()).len() == (p as int) - (p1 as int)) by {
                        assert(enc_seq(pair_usize_views(out@), assoc_entry_enc()) == b@.subrange(p1 as int, p as int));
                    }
                }
            }
            Some((out, p))
        },
    }
}

fn dec_registry(b: &Vec<u8>, pos: usize) -> (r: Option<(Vec<TranslationEntry>, usize)>)
    requires
        pos <= b@.len(),
    ensures
        match r {
            Some(v) => pos <= v.1 && v.1 as int <= b@.len() && b@.subrange(pos as int, v.1 as int)
                == enc_list(entry_views(v.0@), registry_entry_enc()),
            None => true,
        },
        forall|u: Seq<TranslationEntryView>|
            #![trigger enc_list(u, registry_entry_enc())]
            enc_list(u, registry_entry_enc()).is_prefix_of(b@.subrange(pos as int, b@.len() as int)) && registry_ok(u)
                ==> match r {
                Some(v) => entry_views(v.0@) == u && v.1 as int == pos + enc_list(u, registry_entry_enc()).len(),
                None => false,
            },
{
    let ghost whole = b@.subrange(pos as int, b@.len() as int);
    match dec_usize(b, pos) {
        None => {
            proof {
                lemma_auto_spec_u64_to_from_le_bytes();
                assert forall|u: Seq<TranslationEntryView>|
                    enc_list(u, registry_entry_enc()).is_prefix_of(whole) && registry_ok(u) implies false by {
                    assert(whole.subrange(0, 8) =~= b@.subrange(pos as int, (pos as int) + 8));
                    assert(enc_list(u, registry_entry_enc()).subrange(0, 8) =~= enc_u64(u.len() as u64));
                    assert(b@.subrange(pos as int, (pos as int) + 8) == enc_u64(u.len() as u64));
                }
            }
            None
        },
        Some((n, p1)) => {
            proof {
                assert forall|u: Seq<TranslationEntryView>|
                    enc_list(u, registry_entry_enc()).is_prefix_of(whole) && registry_ok(u) implies (n as int) == u.len()
                    && enc_seq(u, registry_entry_enc()).is_prefix_of(b@.subrange(p1 as int, b@.len() as int)) by {
                    lemma_auto_spec_u64_to_from_le_bytes();
                    assert(whole.subrange(0, 8) =~= b@.subrange(pos as int, (pos as int) + 8));
                    assert(enc_list(u, registry_entry_enc()).subrange(0, 8) =~= enc_u64(u.len() as u64));
                    assert(enc_u64(n as u64) == enc_u64(u.len() as u64));
                    assert(spec_u64_from_le_bytes(enc_u64(n as u64)) == n as u64);
                    assert(spec_u64_from_le_bytes(enc_u64(u.len() as u64)) == u.len() as u64);
                    assert(b@.subrange(p1 as int, b@.len() as int) =~= whole.subrange(
                        8,
                        whole.len() as int,
                    ));
                    assert(enc_list(u, registry_entry_enc()).subrange(8, enc_list(u, registry_entry_enc()).len() as int)
                        =~= enc_seq(u, registry_entry_enc()));
                    assert(enc_seq(u, registry_entry_enc()).is_prefix_of(whole.subrange(8, whole.len() as int)));
                }
            }
            let mut out: Vec<TranslationEntry> = Vec::new();
            let mut p = p1;
            let mut m: usize = 0;
            proof {
                assert forall|u: Seq<TranslationEntryView>|
                    enc_list(u, registry_entry_enc()).is_prefix_of(whole) && registry_ok(u) implies entry_views(out@)
                    == u.subrange(0, 0) && enc_seq(u.subrange(0, u.len() as int), registry_entry_enc()).is_prefix_of(
                    b@.subrange(p1 as int, b@.len() as int),
                ) by {
                    assert(entry_views(out@) =~= u.subrange(0, 0));
                    assert(u.subrange(0, u.len() as int) =~= u);
                }
            }
            while m < n
                invariant
                    whole == b@.subrange(pos as int, b@.len() as int),
                    pos <= p1,
                    p1 as int <= b@.len(),
                    0 <= (m as int) <= n as int,
                    p1 <= p,
                    p as int <= b@.len(),
                    out@.len() == m as int,
                    b@.subrange(p1 as int, p as int) == enc_seq(entry_views(out@), registry_entry_enc()),
                    forall|u: Seq<TranslationEntryView>|
                        #![trigger enc_list(u, registry_entry_enc())]
                        enc_list(u, registry_entry_enc()).is_prefix_of(b@.subrange(pos as int, b@.len() as int))
                            && registry_ok(u) ==> (n as int) == u.len() && entry_views(out@) == u.subrange(
                            0,
                            m as int,
                        ) && enc_seq(u.subrange(m as int, u.len() as int), registry_entry_enc()).is_prefix_of(
                            b@.subrange(p as int, b@.len() as int),
                        ),
                decreases n - m,
            {
                match dec_registry_entry(b, p) {
                    None => {
                        proof {
                            assert forall|u: Seq<TranslationEntryView>|
                                enc_list(u, registry_entry_enc()).is_prefix_of(whole) && registry_ok(u) implies false by {
                                let rest = u.subrange(m as int, u.len() as int);
                                assert(rest.len() > 0);
                                assert(rest.drop_first() =~= u.subrange(
                                    m as int + 1,
                                    u.len() as int,
                                ));
                                assert(enc_seq(rest, registry_entry_enc()) == registry_entry_enc()(rest[0]) + enc_seq(
                                    rest.drop_first(),
                                    registry_entry_enc(),
                                ));
                                lemma_prefix_split(
                                    enc_registry_entry(rest[0]),
                                    enc_seq(rest.drop_first(), registry_entry_enc()),
                                    b@.subrange(p as int, b@.len() as int),
                                );
                                assert(str_ok((rest[0]).language));
                            }
                        }
                        return None;
                    },
                    Some((e, p2)) => {
                        let ghost out_prev = out@;
                        out.push(e);
                        proof {
                            assert(out@ =~= out_prev.push(e));
                            assert(entry_views(out@) =~= entry_views(out_prev).push(e@));
                            assert(entry_views(out@).subrange(0, m as int) =~= entry_views(out_prev));
                            lemma_enc_seq_snoc(entry_views(out@), registry_entry_enc(), m as int);
                            assert(entry_views(out@).subrange(0, m as int + 1) =~= entry_views(out@));
                            assert(b@.subrange(p1 as int, p2 as int) =~= enc_seq(
                                entry_views(out_prev),
                                registry_entry_enc(),
                            ) + enc_registry_entry(e@));
                            assert(b@.subrange(p1 as int, p2 as int) == enc_seq(
                                entry_views(out@),
                                registry_entry_enc(),
                            ));
                            assert forall|u: Seq<TranslationEntryView>|
                                enc_list(u, registry_entry_enc()).is_prefix_of(whole) && registry_ok(u) implies (n as int)
                                == u.len() && entry_views(out@) == u.subrange(0, m as int + 1) && enc_seq(
                                u.subrange(m as int + 1, u.len() as int),
                                registry_entry_enc(),
                            ).is_prefix_of(b@.subrange(p2 as int, b@.len() as int)) by {
                                let rest = u.subrange(m as int, u.len() as int);
                                assert(rest.len() > 0);
                                assert(rest.drop_first() =~= u.subrange(
                                    m as int + 1,
                                    u.len() as int,
                                ));
                                assert(enc_seq(rest, registry_entry_enc()) == registry_entry_enc()(rest[0]) + enc_seq(
                                    rest.drop_first(),
                                    registry_entry_enc(),
                                ));
                                lemma_prefix_split(
                                    enc_registry_entry(rest[0]),
                                    enc_seq(rest.drop_first(), registry_entry_enc()),
                                    b@.subrange(p as int, b@.len() as int),
                                );
                                assert(str_ok((rest[0]).language));
                                assert(e@ == rest[0]);
                                assert(u.subrange(0, m as int + 1) =~= u.subrange(
                                    0,
                                    m as int,
                                ).push(u[m as int]));
                                assert(entry_views(out@) =~= u.subrange(0, m as int + 1));
                                assert(b@.subrange(p as int, b@.len() as int).subrange(
                                    enc_registry_entry(rest[0]).len() as int,
                                    b@.len() - p as int,
                                ) =~= b@.subrange(p2 as int, b@.len() as int));
                            }
                        }
                        p = p2;
                    },
                }
                m = m + 1;
            }
            proof {
                assert(b@.subrange(pos as int, p as int) =~= enc_u64(n as u64) + enc_seq(
                    entry_views(out@),
                    registry_entry_enc(),
                ));
                assert(entry_views(out@).len() == n as int);
                assert(b@.subrange(pos as int, p as int) == enc_list(entry_views(out@), registry_entry_enc()));
                assert forall|u: Seq<TranslationEntryView>|
                    enc_list(u, registry_entry_enc()).is_prefix_of(whole) && registry_ok(u) implies entry_views(out@) == u && (
                p as int) == pos + enc_list(u, registry_entry_enc()).len() by {
                    assert(entry_views(out@) =~= u.subrange(0, m as int));
                    assert(u.subrange(0, m as int) =~= u);
                    assert(enc_seq(u, registry_entry_enc()).len() == (p as int) - (p1 as int)) by {
                        assert(enc_seq(entry_views(out@), registry_entry_enc()) == b@.subrange(p1 as int, p as int));
                    }
                }
            }
            Some((out, p))
        },
    }
}

fn dec_agents(b: &Vec<u8>, pos: usize) -> (r: Option<(Vec<Agent>, usize)>)
    requires
        pos <= b@.len(),
    ensures
        match r {
            Some(v) => pos <= v.1 && v.1 as int <= b@.len() && b@.subrange(pos as int, v.1 as int)
                == enc_list(agent_views(v.0@), agent_enc()),
            None => true,
        },
        forall|u: Seq<AgentView>|
            #![trigger enc_list(u, agent_enc())]
            enc_list(u, agent_enc()).is_prefix_of(b@.subrange(pos as int, b@.len() as int)) && agents_ok(u)
                ==> match r {
                Some(v) => agent_views(v.0@) == u && v.1 as int == pos + enc_list(u, agent_enc()).len(),
                None => false,
            },
{
    let ghost whole = b@.subrange(pos as int, b@.len() as int);
    match dec_usize(b, pos) {
        None => {
            proof {
                lemma_auto_spec_u64_to_from_le_bytes();
                assert forall|u: Seq<AgentView>|
                    enc_list(u, agent_enc()).is_prefix_of(whole) && agents_ok(u) implies false by {
                    assert(whole.subrange(0, 8) =~= b@.subrange(pos as int, (pos as int) + 8));
                    assert(enc_list(u, agent_enc()).subrange(0, 8) =~= enc_u64(u.len() as u64));
                    assert(b@.subrange(pos as int, (pos as int) + 8) == enc_u64(u.len() as u64));
                }
            }
            None
        },
        Some((n, p1)) => {
            proof {
                assert forall|u: Seq<AgentView>|
                    enc_list(u, agent_enc()).is_prefix_of(whole) && agents_ok(u) implies (n as int) == u.len()
                    && enc_seq(u, agent_enc()).is_prefix_of(b@.subrange(p1 as int, b@.len() as int)) by {
                    lemma_auto_spec_u64_to_from_le_bytes();
                    assert(whole.subrange(0, 8) =~= b@.subrange(pos as int, (pos as int) + 8));
                    assert(enc_list(u, agent_enc()).subrange(0, 8) =~= enc_u64(u.len() as u64));
                    assert(enc_u64(n as u64) == enc_u64(u.len() as u64));
                    assert(spec_u64_from_le_bytes(enc_u64(n as u64)) == n as u64);
                    assert(spec_u64_from_le_bytes(enc_u64(u.len() as u64)) == u.len() as u64);
                    assert(b@.subrange(p1 as int, b@.len() as int) =~= whole.subrange(
                        8,
                        whole.len() as int,
                    ));
                    assert(enc_list(u, agent_enc()).subrange(8, enc_list(u, agent_enc()).len() as int)
                        =~= enc_seq(u, agent_enc()));
                    assert(enc_seq(u, agent_enc()).is_prefix_of(whole.subrange(8, whole.len() as int)));
                }
            }
            let mut out: Vec<Agent> = Vec::new();
            let mut p = p1;
            let mut m: usize = 0;
            proof {
                assert forall|u: Seq<AgentView>|
                    enc_list(u, agent_enc()).is_prefix_of(whole) && agents_ok(u) implies agent_views(out@)
                    == u.subrange(0, 0) && enc_seq(u.subrange(0, u.len() as int), agent_enc()).is_prefix_of(
                    b@.subrange(p1 as int, b@.len() as int),
                ) by {
                    assert(agent_views(out@) =~= u.subrange(0, 0));
                    assert(u.subrange(0, u.len() as int) =~= u);
                }
            }
            while m < n
                invariant
                    whole == b@.subrange(pos as int, b@.len() as int),
                    pos <= p1,
                    p1 as int <= b@.len(),
                    0 <= (m as int) <= n as int,
                    p1 <= p,
                    p as int <= b@.len(),
                    out@.len() == m as int,
                    b@.subrange(p1 as int, p as int) == enc_seq(agent_views(out@), agent_enc()),
                    forall|u: Seq<AgentView>|
                        #![trigger enc_list(u, agent_enc())]
                        enc_list(u, agent_enc()).is_prefix_of(b@.subrange(pos as int, b@.len() as int))
                            && agents_ok(u) ==> (n as int) == u.len() && agent_views(out@) == u.subrange(
                            0,
                            m as int,
                        ) && enc_seq(u.subrange(m as int, u.len() as int), agent_enc()).is_prefix_of(
                            b@.subrange(p as int, b@.len() as int),
                        ),
                decreases n - m,
            {
                match dec_agent(b, p) {
                    None => {
                        proof {
                            assert forall|u: Seq<AgentView>|
                                enc_list(u, agent_enc()).is_prefix_of(whole) && agents_ok(u) implies false by {
                                let rest = u.subrange(m as int, u.len() as int);
                                assert(rest.len() > 0);
                                assert(rest.drop_first() =~= u.subrange(
                                    m as int + 1,
                                    u.len() as int,
                                ));
                                assert(enc_seq(rest, agent_enc()) == agent_enc()(rest[0]) + enc_seq(
                                    rest.drop_first(),
                                    agent_enc(),
                                ));
                                lemma_prefix_split(
                                    enc_agent(rest[0]),
                                    enc_seq(rest.drop_first(), agent_enc()),
                                    b@.subrange(p as int, b@.len() as int),
                                );
                                assert(str_ok((rest[0]).id));
                            }
                        }
                        return None;
                    },
                    Some((e, p2)) => {
                        let ghost out_prev = out@;
                        out.push(e);
                        proof {
                            assert(out@ =~= out_prev.push(e));
                            assert(agent_views(out@) =~= agent_views(out_prev).push(e@));
                            assert(agent_views(out@).subrange(0, m as int) =~= agent_views(out_prev));
                            lemma_enc_seq_snoc(agent_views(out@), agent_enc(), m as int);
                            assert(agent_views(out@).subrange(0, m as int + 1) =~= agent_views(out@));
                            assert(b@.subrange(p1 as int, p2 as int) =~= enc_seq(
                                agent_views(out_prev),
                                agent_enc(),
                            ) + enc_agent(e@));
                            assert(b@.subrange(p1 as int, p2 as int) == enc_seq(
                                agent_views(out@),
                                agent_enc(),
                            ));
                            assert forall|u: Seq<AgentView>|
                                enc_list(u, agent_enc()).is_prefix_of(whole) && agents_ok(u) implies (n as int)
                                == u.len() && agent_views(out@) == u.subrange(0, m as int + 1) && enc_seq(
                                u.subrange(m as int + 1, u.len() as int),
                                agent_enc(),
                            ).is_prefix_of(b@.subrange(p2 as int, b@.len() as int)) by {
                                let rest = u.subrange(m as int, u.len() as int);
                                assert(rest.len() > 0);
                                assert(rest.drop_first() =~= u.subrange(
                                    m as int + 1,
                                    u.len() as int,
                                ));
                                assert(enc_seq(rest, agent_enc()) == agent_enc()(rest[0]) + enc_seq(
                                    rest.drop_first(),
                                    agent_enc(),
                                ));
                                lemma_prefix_split(
                                    enc_agent(rest[0]),
                                    enc_seq(rest.drop_first(), agent_enc()),
                                    b@.subrange(p as int, b@.len() as int),
                                );
                                assert(str_ok((rest[0]).id));
                                assert(e@ == rest[0]);
                                assert(u.subrange(0, m as int + 1) =~= u.subrange(
                                    0,
                                    m as int,
                                ).push(u[m as int]));
                                assert(agent_views(out@) =~= u.subrange(0, m as int + 1));
                                assert(b@.subrange(p as int, b@.len() as int).subrange(
                                    enc_agent(rest[0]).len() as int,
                                    b@.len() - p as int,
                                ) =~= b@.subrange(p2 as int, b@.len() as int));
                            }
                        }
                        p = p2;
                    },
                }
                m = m + 1;
            }
            proof {
                assert(b@.subrange(pos as int, p as int) =~= enc_u64(n as u64) + enc_seq(
                    agent_views(out@),
                    agent_enc(),
                ));
                assert(agent_views(out@).len() == n as int);
                assert(b@.subrange(pos as int, p as int) == enc_list(agent_views(out@), agent_enc()));
                assert forall|u: Seq<AgentView>|
                    enc_list(u, agent_enc()).is_prefix_of(whole) && agents_ok(u) implies agent_views(out@) == u && (
                p as int) == pos + enc_list(u, agent_enc()).len() by {
                    assert(agent_views(out@) =~= u.subrange(0, m as int));
                    assert(u.subrange(0, m as int) =~= u);
                    assert(enc_seq(u, agent_enc()).len() == (p as int) - (p1 as int)) by {
                        assert(enc_seq(agent_views(out@), agent_enc()) == b@.subrange(p1 as int, p as int));
                    }
                }
            }
            Some((out, p))
        },
    }
}


fn dec_wordlist_entry(b: &Vec<u8>, pos: usize) -> (r: Option<((u128, Vec<String>), usize)>)
    requires
        pos <= b@.len(),
    ensures
        match r {
            Some(v) => pos <= v.1 && v.1 as int <= b@.len() && b@.subrange(pos as int, v.1 as int)
                == enc_wordlist_entry((v.0.0, string_views(v.0.1@))),
            None => true,
        },
        forall|u: (u128, Seq<Seq<char>>)|
            #![trigger enc_wordlist_entry(u)]
            enc_wordlist_entry(u).is_prefix_of(b@.subrange(pos as int, b@.len() as int))
                && strs_ok(u.1) ==> match r {
                Some(v) => (v.0.0, string_views(v.0.1@)) == u && v.1 as int == pos
                    + enc_wordlist_entry(u).len(),
                None => false,
            },
{
    let ghost whole = b@.subrange(pos as int, b@.len() as int);
    proof {
        lemma_auto_spec_u64_to_from_le_bytes();
        lemma_auto_spec_u128_to_from_le_bytes();
        assert forall|u: (u128, Seq<Seq<char>>)|
            enc_wordlist_entry(u).is_prefix_of(whole) && strs_ok(u.1) implies enc_u128(
            u.0,
        ).is_prefix_of(whole) && enc_list(u.1, string_enc()).is_prefix_of(
            whole.subrange(16, whole.len() as int),
        ) by {
            lemma_prefix_split(enc_u128(u.0), enc_list(u.1, string_enc()), whole);
        }
    }
    match dec_u128(b, pos) {
        None => {
            proof {
                assert forall|u: (u128, Seq<Seq<char>>)|
                    enc_wordlist_entry(u).is_prefix_of(whole) && strs_ok(u.1) implies false by {
                    lemma_auto_spec_u128_to_from_le_bytes();
                }
            }
            None
        },
        Some((id, p1)) => {
            proof {
                assert forall|u: (u128, Seq<Seq<char>>)|
                    enc_wordlist_entry(u).is_prefix_of(whole) && strs_ok(u.1) implies id == u.0
                    && enc_list(u.1, string_enc()).is_prefix_of(
                    b@.subrange(p1 as int, b@.len() as int),
                ) by {
                    lemma_auto_spec_u128_to_from_le_bytes();
                    assert(b@.subrange(pos as int, p1 as int) =~= whole.subrange(0, 16));
                    assert(whole.subrange(0, 16) =~= enc_u128(u.0).subrange(0, 16));
                    assert(spec_u128_from_le_bytes(enc_u128(id)) == id);
                    assert(spec_u128_from_le_bytes(enc_u128(u.0)) == u.0);
                    assert(whole.subrange(16, whole.len() as int) =~= b@.subrange(
                        p1 as int,
                        b@.len() as int,
                    ));
                }
            }
            match dec_string_list(b, p1) {
                None => {
                    proof {
                        assert forall|u: (u128, Seq<Seq<char>>)|
                            enc_wordlist_entry(u).is_prefix_of(whole) && strs_ok(
                                u.1,
                            ) implies false by {}
                    }
                    None
                },
                Some((ws, p2)) => {
                    proof {
                        assert(b@.subrange(pos as int, p2 as int) =~= enc_u128(id) + enc_list(
                            string_views(ws@),
                            string_enc(),
                        ));
                        assert forall|u: (u128, Seq<Seq<char>>)|
                            enc_wordlist_entry(u).is_prefix_of(whole) && strs_ok(u.1) implies ((
                        id,
                        string_views(ws@),
                        ) == u) && (p2 as int) == pos + enc_wordlist_entry(u).len() by {
                            assert(u == (u.0, u.1));
                        }
                    }
                    Some(((id, ws), p2))
                },
            }
        },
    }
}

fn dec_segment(b: &Vec<u8>, pos: usize) -> (r: Option<(LyricsSegment, usize)>)
    requires
        pos <= b@.len(),
    ensures
        match r {
            Some(v) => pos <= v.1 && v.1 as int <= b@.len() && b@.subrange(pos as int, v.1 as int)
                == enc_segment(v.0@),
            None => true,
        },
        forall|u: SegmentView|
            #![trigger enc_segment(u)]
            enc_segment(u).is_prefix_of(b@.subrange(pos as int, b@.len() as int)) && seg_ok(u)
                ==> match r {
                Some(v) => v.0@ == u && v.1 as int == pos + enc_segment(u).len(),
                None => false,
            },
{
    let ghost whole = b@.subrange(pos as int, b@.len() as int);
    proof {
        lemma_auto_spec_u64_to_from_le_bytes();
        assert forall|u: SegmentView|
            enc_segment(u).is_prefix_of(whole) && seg_ok(u) implies enc_u64(u.begin).is_prefix_of(
            whole,
        ) && enc_u64(u.end).is_prefix_of(whole.subrange(8, whole.len() as int)) && enc_str(
            u.text,
        ).is_prefix_of(whole.subrange(16, whole.len() as int)) && enc_list(
            u.translations,
            assoc_entry_enc(),
        ).is_prefix_of(whole.subrange(16 + enc_str(u.text).len() as int, whole.len() as int)) by {
            lemma_auto_spec_u64_to_from_le_bytes();
            let fa = enc_u64(u.begin);
            let fb = enc_u64(u.end);
            let fc = enc_str(u.text);
            let fd = enc_list(u.translations, assoc_entry_enc());
            lemma_prefix_split(fa + fb + fc, fd, whole);
            lemma_prefix_split(fa + fb, fc, whole);
            lemma_prefix_split(fa, fb, whole);
            assert(whole.subrange((fa + fb).len() as int, whole.len() as int) =~= whole.subrange(
                16,
                whole.len() as int,
            ));
            assert(whole.subrange((fa + fb + fc).len() as int, whole.len() as int)
                =~= whole.subrange(16 + fc.len() as int, whole.len() as int));
            assert(whole.subrange(fa.len() as int, whole.len() as int) =~= whole.subrange(
                8,
                whole.len() as int,
            ));
        }
    }
    match dec_u64(b, pos) {
        None => {
            proof {
                assert forall|u: SegmentView|
                    enc_segment(u).is_prefix_of(whole) && seg_ok(u) implies false by {
                    lemma_auto_spec_u64_to_from_le_bytes();
                }
            }
            None
        },
        Some((bg, pa)) => {
            proof {
                assert forall|u: SegmentView|
                    enc_segment(u).is_prefix_of(whole) && seg_ok(u) implies bg == u.begin by {
                    lemma_auto_spec_u64_to_from_le_bytes();
                    assert(b@.subrange(pos as int, pa as int) =~= whole.subrange(0, 8));
                    assert(whole.subrange(0, 8) =~= enc_u64(u.begin).subrange(0, 8));
                    assert(spec_u64_from_le_bytes(enc_u64(bg)) == bg);
                    assert(spec_u64_from_le_bytes(enc_u64(u.begin)) == u.begin);
                }
                assert forall|u: SegmentView|
                    enc_segment(u).is_prefix_of(whole) && seg_ok(u) implies enc_u64(
                    u.end,
                ).is_prefix_of(b@.subrange(pa as int, b@.len() as int)) by {
                    assert(whole.subrange(8, whole.len() as int) =~= b@.subrange(
                        pa as int,
                        b@.len() as int,
                    ));
                }
            }
            match dec_u64(b, pa) {
                None => {
                    proof {
                        assert forall|u: SegmentView|
                            enc_segment(u).is_prefix_of(whole) && seg_ok(u) implies false by {
                            lemma_auto_spec_u64_to_from_le_bytes();
                        }
                    }
                    None
                },
                Some((en, pb)) => {
                    proof {
                        assert forall|u: SegmentView|
                            enc_segment(u).is_prefix_of(whole) && seg_ok(u) implies en == u.end
                            && enc_str(u.text).is_prefix_of(
                            b@.subrange(pb as int, b@.len() as int),
                        ) by {
                            lemma_auto_spec_u64_to_from_le_bytes();
                            assert(b@.subrange(pa as int, pb as int) =~= whole.subrange(8, 16));
                            assert(enc_u64(u.end).is_prefix_of(
                                whole.subrange(8, whole.len() as int),
                            ));
                            assert(whole.subrange(8, whole.len() as int).subrange(0, 8)
                                =~= whole.subrange(8, 16));
                            assert(whole.subrange(8, whole.len() as int).subrange(
                                0,
                                enc_u64(u.end).len() as int,
                            ) == enc_u64(u.end));
                            assert(whole.subrange(8, 16) == enc_u64(u.end));
                            assert(spec_u64_from_le_bytes(enc_u64(en)) == en);
                            assert(spec_u64_from_le_bytes(enc_u64(u.end)) == u.end);
                            assert(whole.subrange(16, whole.len() as int) =~= b@.subrange(
                                pb as int,
                                b@.len() as int,
                            ));
                        }
                    }
                    match dec_str(b, pb) {
                        None => {
                            proof {
                                assert forall|u: SegmentView|
                                    enc_segment(u).is_prefix_of(whole) && seg_ok(
                                        u,
                                    ) implies false by {}
                            }
                            None
                        },
                        Some((tx, pc)) => {
                            proof {
                                assert forall|u: SegmentView|
                                    enc_segment(u).is_prefix_of(whole) && seg_ok(u) implies tx@
                                    == u.text && enc_list(
                                    u.translations,
                                    assoc_entry_enc(),
                                ).is_prefix_of(b@.subrange(pc as int, b@.len() as int)) by {
                                    assert((pc - pos) as int == 16 + enc_str(u.text).len() as int);
                                    assert(whole.subrange(
                                        16 + enc_str(u.text).len() as int,
                                        whole.len() as int,
                                    ) =~= b@.subrange(pc as int, b@.len() as int));
                                }
                            }
                            match dec_assoc_entries(b, pc) {
                                None => {
                                    proof {
                                        assert forall|u: SegmentView|
                                            enc_segment(u).is_prefix_of(whole) && seg_ok(
                                                u,
                                            ) implies false by {}
                                    }
                                    None
                                },
                                Some((ps, pd)) => {
                                    let seg = LyricsSegment {
                                        begin: Timestamp { millis: bg },
                                        end: Timestamp { millis: en },
                                        text: tx,
                                        translations: ps,
                                    };
                                    proof {
                                        assert(b@.subrange(pos as int, pd as int) =~= enc_u64(bg)
                                            + enc_u64(en) + enc_str(seg.text@) + enc_list(
                                            pair_usize_views(ps@),
                                            assoc_entry_enc(),
                                        ));
                                        assert(b@.subrange(pos as int, pd as int) == enc_segment(
                                            seg@,
                                        ));
                                        assert forall|u: SegmentView|
                                            enc_segment(u).is_prefix_of(whole) && seg_ok(
                                                u,
                                            ) implies seg@ == u && (pd as int) == pos
                                            + enc_segment(u).len() by {
                                            assert(u == SegmentView {
                                                begin: u.begin,
                                                end: u.end,
                                                text: u.text,
                                                translations: u.translations,
                                            });
                                        }
                                    }
                                    Some((seg, pd))
                                },
                            }
                        },
                    }
                },
            }
        },
    }
}

fn dec_segments(b: &Vec<u8>, pos: usize) -> (r: Option<(Vec<LyricsSegment>, usize)>)
    requires
        pos <= b@.len(),
    ensures
        match r {
            Some(v) => pos <= v.1 && v.1 as int <= b@.len() && b@.subrange(pos as int, v.1 as int)
                == enc_list(seg_views(v.0@), segment_enc()),
            None => true,
        },
        forall|u: Seq<SegmentView>|
            #![trigger enc_list(u, segment_enc())]
            enc_list(u, segment_enc()).is_prefix_of(b@.subrange(pos as int, b@.len() as int)) && segs_ok(u)
                ==> match r {
                Some(v) => seg_views(v.0@) == u && v.1 as int == pos + enc_list(u, segment_enc()).len(),
                None => false,
            },
{
    let ghost whole = b@.subrange(pos as int, b@.len() as int);
    match dec_usize(b, pos) {
        None => {
            proof {
                lemma_auto_spec_u64_to_from_le_bytes();
                assert forall|u: Seq<SegmentView>|
                    enc_list(u, segment_enc()).is_prefix_of(whole) && segs_ok(u) implies false by {
                    assert(whole.subrange(0, 8) =~= b@.subrange(pos as int, (pos as int) + 8));
                    assert(enc_list(u, segment_enc()).subrange(0, 8) =~= enc_u64(u.len() as u64));
                    assert(b@.subrange(pos as int, (pos as int) + 8) == enc_u64(u.len() as u64));
                }
            }
            None
        },
        Some((n, p1)) => {
            proof {
                assert forall|u: Seq<SegmentView>|
                    enc_list(u, segment_enc()).is_prefix_of(whole) && segs_ok(u) implies (n as int) == u.len()
                    && enc_seq(u, segment_enc()).is_prefix_of(b@.subrange(p1 as int, b@.len() as int)) by {
                    lemma_auto_spec_u64_to_from_le_bytes();
                    assert(whole.subrange(0, 8) =~= b@.subrange(pos as int, (pos as int) + 8));
                    assert(enc_list(u, segment_enc()).subrange(0, 8) =~= enc_u64(u.len() as u64));
                    assert(enc_u64(n as u64) == enc_u64(u.len() as u64));
                    assert(spec_u64_from_le_bytes(enc_u64(n as u64)) == n as u64);
                    assert(spec_u64_from_le_bytes(enc_u64(u.len() as u64)) == u.len() as u64);
                    assert(b@.subrange(p1 as int, b@.len() as int) =~= whole.subrange(
                        8,
                        whole.len() as int,
                    ));
                    assert(enc_list(u, segment_enc()).subrange(8, enc_list(u, segment_enc()).len() as int)
                        =~= enc_seq(u, segment_enc()));
                    assert(enc_seq(u, segment_enc()).is_prefix_of(whole.subrange(8, whole.len() as int)));
                }
            }
            let mut out: Vec<LyricsSegment> = Vec::new();
            let mut p = p1;
            let mut m: usize = 0;
            proof {
                assert forall|u: Seq<SegmentView>|
                    enc_list(u, segment_enc()).is_prefix_of(whole) && segs_ok(u) implies seg_views(out@)
                    == u.subrange(0, 0) && enc_seq(u.subrange(0, u.len() as int), segment_enc()).is_prefix_of(
                    b@.subrange(p1 as int, b@.len() as int),
                ) by {
                    assert(seg_views(out@) =~= u.subrange(0, 0));
                    assert(u.subrange(0, u.len() as int) =~= u);
                }
            }
            while m < n
                invariant
                    whole == b@.subrange(pos as int, b@.len() as int),
                    pos <= p1,
                    p1 as int <= b@.len(),
                    0 <= (m as int) <= n as int,
                    p1 <= p,
                    p as int <= b@.len(),
                    out@.len() == m as int,
                    b@.subrange(p1 as int, p as int) == enc_seq(seg_views(out@), segment_enc()),
                    forall|u: Seq<SegmentView>|
                        #![trigger enc_list(u, segment_enc())]
                        enc_list(u, segment_enc()).is_prefix_of(b@.subrange(pos as int, b@.len() as int))
                            && segs_ok(u) ==> (n as int) == u.len() && seg_views(out@) == u.subrange(
                            0,
                            m as int,
                        ) && enc_seq(u.subrange(m as int, u.len() as int), segment_enc()).is_prefix_of(
                            b@.subrange(p as int, b@.len() as int),
                        ),
                decreases n - m,
            {
                match dec_segment(b, p) {
                    None => {
                        proof {
                            assert forall|u: Seq<SegmentView>|
                                enc_list(u, segment_enc()).is_prefix_of(whole) && segs_ok(u) implies false by {
                                let rest = u.subrange(m as int, u.len() as int);
                                assert(rest.len() > 0);
                                assert(rest.drop_first() =~= u.subrange(
                                    m as int + 1,
                                    u.len() as int,
                                ));
                                assert(enc_seq(rest, segment_enc()) == segment_enc()(rest[0]) + enc_seq(
                                    rest.drop_first(),
                                    segment_enc(),
                                ));
                                lemma_prefix_split(
                                    enc_segment(rest[0]),
                                    enc_seq(rest.drop_first(), segment_enc()),
                                    b@.subrange(p as int, b@.len() as int),
                                );
                                assert(seg_ok(rest[0]));
                            }
                        }
                        return None;
                    },
                    Some((e, p2)) => {
                        let ghost out_prev = out@;
                        out.push(e);
                        proof {
                            assert(out@ =~= out_prev.push(e));
                            assert(seg_views(out@) =~= seg_views(out_prev).push(e@));
                            assert(seg_views(out@).subrange(0, m as int) =~= seg_views(out_prev));
                            lemma_enc_seq_snoc(seg_views(out@), segment_enc(), m as int);
                            assert(seg_views(out@).subrange(0, m as int + 1) =~= seg_views(out@));
                            assert(b@.subrange(p1 as int, p2 as int) =~= enc_seq(
                                seg_views(out_prev),
                                segment_enc(),
                            ) + enc_segment(e@));
                            assert(b@.subrange(p1 as int, p2 as int) == enc_seq(
                                seg_views(out@),
                                segment_enc(),
                            ));
                            assert forall|u: Seq<SegmentView>|
                                enc_list(u, segment_enc()).is_prefix_of(whole) && segs_ok(u) implies (n as int)
                                == u.len() && seg_views(out@) == u.subrange(0, m as int + 1) && enc_seq(
                                u.subrange(m as int + 1, u.len() as int),
                                segment_enc(),
                            ).is_prefix_of(b@.subrange(p2 as int, b@.len() as int)) by {
                                let rest = u.subrange(m as int, u.len() as int);
                                assert(rest.len() > 0);
                                assert(rest.drop_first() =~= u.subrange(
                                    m as int + 1,
                                    u.len() as int,
                                ));
                                assert(enc_seq(rest, segment_enc()) == segment_enc()(rest[0]) + enc_seq(
                                    rest.drop_first(),
                                    segment_enc(),
                                ));
                                lemma_prefix_split(
                                    enc_segment(rest[0]),
                                    enc_seq(rest.drop_first(), segment_enc()),
                                    b@.subrange(p as int, b@.len() as int),
                                );
                                assert(seg_ok(rest[0]));
                                assert(e@ == rest[0]);
                                assert(u.subrange(0, m as int + 1) =~= u.subrange(
                                    0,
                                    m as int,
                                ).push(u[m as int]));
                                assert(seg_views(out@) =~= u.subrange(0, m as int + 1));
                                assert(b@.subrange(p as int, b@.len() as int).subrange(
                                    enc_segment(rest[0]).len() as int,
                                    b@.len() - p as int,
                                ) =~= b@.subrange(p2 as int, b@.len() as int));
                            }
                        }
                        p = p2;
                    },
                }
                m = m + 1;
            }
            proof {
                assert(b@.subrange(pos as int, p as int) =~= enc_u64(n as u64) + enc_seq(
                    seg_views(out@),
                    segment_enc(),
                ));
                assert(seg_views(out@).len() == n as int);
                assert(b@.subrange(pos as int, p as int) == enc_list(seg_views(out@), segment_enc()));
                assert forall|u: Seq<SegmentView>|
                    enc_list(u, segment_enc()).is_prefix_of(whole) && segs_ok(u) implies seg_views(out@) == u && (
                p as int) == pos + enc_list(u, segment_enc()).len() by {
                    assert(seg_views(out@) =~= u.subrange(0, m as int));
                    assert(u.subrange(0, m as int) =~= u);
                    assert(enc_seq(u, segment_enc()).len() == (p as int) - (p1 as int)) by {
                        assert(enc_seq(seg_views(out@), segment_enc()) == b@.subrange(p1 as int, p as int));
                    }
                }
            }
            Some((out, p))
        },
    }
}


fn dec_wordlist_entries(b: &Vec<u8>, pos: usize) -> (r: Option<(Vec<(u128, Vec<String>)>, usize)>)
    requires
        pos <= b@.len(),
    ensures
        match r {
            Some(v) => pos <= v.1 && v.1 as int <= b@.len() && b@.subrange(pos as int, v.1 as int)
                == enc_list(pair_string_views(v.0@), wordlist_entry_enc()),
            None => true,
        },
        forall|u: Seq<(u128, Seq<Seq<char>>)>|
            #![trigger enc_list(u, wordlist_entry_enc())]
            enc_list(u, wordlist_entry_enc()).is_prefix_of(b@.subrange(pos as int, b@.len() as int)) && wordlist_entries_ok(u)
                ==> match r {
                Some(v) => pair_string_views(v.0@) == u && v.1 as int == pos + enc_list(u, wordlist_entry_enc()).len(),
                None => false,
            },
{
    let ghost whole = b@.subrange(pos as int, b@.len() as int);
    match dec_usize(b, pos) {
        None => {
            proof {
                lemma_auto_spec_u64_to_from_le_bytes();
                assert forall|u: Seq<(u128, Seq<Seq<char>>)>|
                    enc_list(u, wordlist_entry_enc()).is_prefix_of(whole) && wordlist_entries_ok(u) implies false by {
                    assert(whole.subrange(0, 8) =~= b@.subrange(pos as int, (pos as int) + 8));
                    assert(enc_list(u, wordlist_entry_enc()).subrange(0, 8) =~= enc_u64(u.len() as u64));
                    assert(b@.subrange(pos as int, (pos as int) + 8) == enc_u64(u.len() as u64));
                }
            }
            None
        },
        Some((n, p1)) => {
            proof {
                assert forall|u: Seq<(u128, Seq<Seq<char>>)>|
                    enc_list(u, wordlist_entry_enc()).is_prefix_of(whole) && wordlist_entries_ok(u) implies (n as int) == u.len()
                    && enc_seq(u, wordlist_entry_enc()).is_prefix_of(b@.subrange(p1 as int, b@.len() as int)) by {
                    lemma_auto_spec_u64_to_from_le_bytes();
                    assert(whole.subrange(0, 8) =~= b@.subrange(pos as int, (pos as int) + 8));
                    assert(enc_list(u, wordlist_entry_enc()).subrange(0, 8) =~= enc_u64(u.len() as u64));
                    assert(enc_u64(n as u64) == enc_u64(u.len() as u64));
                    assert(spec_u64_from_le_bytes(enc_u64(n as u64)) == n as u64);
                    assert(spec_u64_from_le_bytes(enc_u64(u.len() as u64)) == u.len() as u64);
                    assert(b@.subrange(p1 as int, b@.len() as int) =~= whole.subrange(
                        8,
                        whole.len() as int,
                    ));
                    assert(enc_list(u, wordlist_entry_enc()).subrange(8, enc_list(u, wordlist_entry_enc()).len() as int)
                        =~= enc_seq(u, wordlist_entry_enc()));
                    assert(enc_seq(u, wordlist_entry_enc()).is_prefix_of(whole.subrange(8, whole.len() as int)));
                }
            }
            let mut out: Vec<(u128, Vec<String>)> = Vec::new();
            let mut p = p1;
            let mut m: usize = 0;
            proof {
                assert forall|u: Seq<(u128, Seq<Seq<char>>)>|
                    enc_list(u, wordlist_entry_enc()).is_prefix_of(whole) && wordlist_entries_ok(u) implies pair_string_views(out@)
                    == u.subrange(0, 0) && enc_seq(u.subrange(0, u.len() as int), wordlist_entry_enc()).is_prefix_of(
                    b@.subrange(p1 as int, b@.len() as int),
                ) by {
                    assert(pair_string_views(out@) =~= u.subrange(0, 0));
                    assert(u.subrange(0, u.len() as int) =~= u);
                }
            }
            while m < n
                invariant
                    whole == b@.subrange(pos as int, b@.len() as int),
                    pos <= p1,
                    p1 as int <= b@.len(),
                    0 <= (m as int) <= n as int,
                    p1 <= p,
                    p as int <= b@.len(),
                    out@.len() == m as int,
                    b@.subrange(p1 as int, p as int) == enc_seq(pair_string_views(out@), wordlist_entry_enc()),
                    forall|u: Seq<(u128, Seq<Seq<char>>)>|
                        #![trigger enc_list(u, wordlist_entry_enc())]
                        enc_list(u, wordlist_entry_enc()).is_prefix_of(b@.subrange(pos as int, b@.len() as int))
                            && wordlist_entries_ok(u) ==> (n as int) == u.len() && pair_string_views(out@) == u.subrange(
                            0,
                            m as int,
                        ) && enc_seq(u.subrange(m as int, u.len() as int), wordlist_entry_enc()).is_prefix_of(
                            b@.subrange(p as int, b@.len() as int),
                        ),
                decreases n - m,
            {
                match dec_wordlist_entry(b, p) {
                    None => {
                        proof {
                            assert forall|u: Seq<(u128, Seq<Seq<char>>)>|
                                enc_list(u, wordlist_entry_enc()).is_prefix_of(whole) && wordlist_entries_ok(u) implies false by {
                                let rest = u.subrange(m as int, u.len() as int);
                                assert(rest.len() > 0);
                                assert(rest.drop_first() =~= u.subrange(
                                    m as int + 1,
                                    u.len() as int,
                                ));
                                assert(enc_seq(rest, wordlist_entry_enc()) == wordlist_entry_enc()(rest[0]) + enc_seq(
                                    rest.drop_first(),
                                    wordlist_entry_enc(),
                                ));
                                lemma_prefix_split(
                                    enc_wordlist_entry(rest[0]),
                                    enc_seq(rest.drop_first(), wordlist_entry_enc()),
                                    b@.subrange(p as int, b@.len() as int),
                                );
                                assert(strs_ok((rest[0]).1));
                            }
                        }
                        return None;
                    },
                    Some((e, p2)) => {
                        let ghost out_prev = out@;
                        out.push(e);
                        proof {
                            assert(out@ =~= out_prev.push(e));
                            assert(pair_string_views(out@) =~= pair_string_views(out_prev).push((e.0, string_views(e.1@))));
                            assert(pair_string_views(out@).subrange(0, m as int) =~= pair_string_views(out_prev));
                            lemma_enc_seq_snoc(pair_string_views(out@), wordlist_entry_enc(), m as int);
                            assert(pair_string_views(out@).subrange(0, m as int + 1) =~= pair_string_views(out@));
                            assert(b@.subrange(p1 as int, p2 as int) =~= enc_seq(
                                pair_string_views(out_prev),
                                wordlist_entry_enc(),
                            ) + enc_wordlist_entry((e.0, string_views(e.1@))));
                            assert(b@.subrange(p1 as int, p2 as int) == enc_seq(
                                pair_string_views(out@),
                                wordlist_entry_enc(),
                            ));
                            assert forall|u: Seq<(u128, Seq<Seq<char>>)>|
                                enc_list(u, wordlist_entry_enc()).is_prefix_of(whole) && wordlist_entries_ok(u) implies (n as int)
                                == u.len() && pair_string_views(out@) == u.subrange(0, m as int + 1) && enc_seq(
                                u.subrange(m as int + 1, u.len() as int),
                                wordlist_entry_enc(),
                            ).is_prefix_of(b@.subrange(p2 as int, b@.len() as int)) by {
                                let rest = u.subrange(m as int, u.len() as int);
                                assert(rest.len() > 0);
                                assert(rest.drop_first() =~= u.subrange(
                                    m as int + 1,
                                    u.len() as int,
                                ));
                                assert(enc_seq(rest, wordlist_entry_enc()) == wordlist_entry_enc()(rest[0]) + enc_seq(
                                    rest.drop_first(),
                                    wordlist_entry_enc(),
                                ));
                                lemma_prefix_split(
                                    enc_wordlist_entry(rest[0]),
                                    enc_seq(rest.drop_first(), wordlist_entry_enc()),
                                    b@.subrange(p as int, b@.len() as int),
                                );
                                assert(strs_ok((rest[0]).1));
                                assert((e.0, string_views(e.1@)) == rest[0]);
                                assert(u.subrange(0, m as int + 1) =~= u.subrange(
                                    0,
                                    m as int,
                                ).push(u[m as int]));
                                assert(pair_string_views(out@) =~= u.subrange(0, m as int + 1));
                                assert(b@.subrange(p as int, b@.len() as int).subrange(
                                    enc_wordlist_entry(rest[0]).len() as int,
                                    b@.len() - p as int,
                                ) =~= b@.subrange(p2 as int, b@.len() as int));
                            }
                        }
                        p = p2;
                    },
                }
                m = m + 1;
            }
            proof {
                assert(b@.subrange(pos as int, p as int) =~= enc_u64(n as u64) + enc_seq(
                    pair_string_views(out@),
                    wordlist_entry_enc(),
                ));
                assert(pair_string_views(out@).len() == n as int);
                assert(b@.subrange(pos as int, p as int) == enc_list(pair_string_views(out@), wordlist_entry_enc()));
                assert forall|u: Seq<(u128, Seq<Seq<char>>)>|
                    enc_list(u, wordlist_entry_enc()).is_prefix_of(whole) && wordlist_entries_ok(u) implies pair_string_views(out@) == u && (
                p as int) == pos + enc_list(u, wordlist_entry_enc()).len() by {
                    assert(pair_string_views(out@) =~= u.subrange(0, m as int));
                    assert(u.subrange(0, m as int) =~= u);
                    assert(enc_seq(u, wordlist_entry_enc()).len() == (p as int) - (p1 as int)) by {
                        assert(enc_seq(pair_string_views(out@), wordlist_entry_enc()) == b@.subrange(p1 as int, p as int));
                    }
                }
            }
            Some((out, p))
        },
    }
}



#[verifier::rlimit(60)]
fn dec_line(b: &Vec<u8>, pos: usize) -> (r: Option<(LyricsLine, usize)>)
    requires
        pos <= b@.len(),
    ensures
        match r {
            Some(v) => pos <= v.1 && v.1 as int <= b@.len() && b@.subrange(pos as int, v.1 as int)
                == enc_line(v.0@),
            None => true,
        },
        forall|u: LineView|
            #![trigger enc_line(u)]
            enc_line(u).is_prefix_of(b@.subrange(pos as int, b@.len() as int)) && line_ok(u)
                ==> match r {
                Some(v) => v.0@ == u && v.1 as int == pos + enc_line(u).len(),
                None => false,
            },
{
    let ghost whole = b@.subrange(pos as int, b@.len() as int);
    proof {
        lemma_auto_spec_u64_to_from_le_bytes();
        lemma_auto_spec_u128_to_from_le_bytes();
        assert forall|u: LineView|
            enc_line(u).is_prefix_of(whole) && line_ok(u) implies enc_u64(u.begin).is_prefix_of(
            whole,
        ) && enc_u64(u.end).is_prefix_of(whole.subrange(8, whole.len() as int)) && enc_str(
            u.agent_id,
        ).is_prefix_of(whole.subrange(16, whole.len() as int)) && enc_u128(u.uuid).is_prefix_of(
            whole.subrange(16 + enc_str(u.agent_id).len() as int, whole.len() as int),
        ) && enc_list(u.original, segment_enc()).is_prefix_of(
            whole.subrange(32 + enc_str(u.agent_id).len() as int, whole.len() as int),
        ) && enc_list(u.translations, wordlist_entry_enc()).is_prefix_of(
            whole.subrange(
                32 + enc_str(u.agent_id).len() as int + enc_list(
                    u.original,
                    segment_enc(),
                ).len() as int,
                whole.len() as int,
            ),
        ) by {
            lemma_auto_spec_u64_to_from_le_bytes();
            lemma_auto_spec_u128_to_from_le_bytes();
            let fa = enc_u64(u.begin);
            let fb = enc_u64(u.end);
            let fc = enc_str(u.agent_id);
            let fd = enc_u128(u.uuid);
            let fe = enc_list(u.original, segment_enc());
            let ff = enc_list(u.translations, wordlist_entry_enc());
            lemma_prefix_split(fa + fb + fc + fd + fe, ff, whole);
            lemma_prefix_split(fa + fb + fc + fd, fe, whole);
            lemma_prefix_split(fa + fb + fc, fd, whole);
            lemma_prefix_split(fa + fb, fc, whole);
            lemma_prefix_split(fa, fb, whole);
            assert(whole.subrange(fa.len() as int, whole.len() as int) =~= whole.subrange(
                8,
                whole.len() as int,
            ));
            assert(whole.subrange((fa + fb).len() as int, whole.len() as int) =~= whole.subrange(
                16,
                whole.len() as int,
            ));
            assert(whole.subrange((fa + fb + fc).len() as int, whole.len() as int)
                =~= whole.subrange(16 + fc.len() as int, whole.len() as int));
            assert(whole.subrange((fa + fb + fc + fd).len() as int, whole.len() as int)
                =~= whole.subrange(32 + fc.len() as int, whole.len() as int));
            assert(whole.subrange((fa + fb + fc + fd + fe).len() as int, whole.len() as int)
                =~= whole.subrange(32 + fc.len() as int + fe.len() as int, whole.len() as int));
        }
    }
    match dec_u64(b, pos) {
        None => {
            proof {
                assert forall|u: LineView|
                    enc_line(u).is_prefix_of(whole) && line_ok(u) implies false by {
                    lemma_auto_spec_u64_to_from_le_bytes();
                }
            }
            None
        },
        Some((bg, pa)) => {
            proof {
                assert forall|u: LineView|
                    enc_line(u).is_prefix_of(whole) && line_ok(u) implies bg == u.begin && enc_u64(
                    u.end,
                ).is_prefix_of(b@.subrange(pa as int, b@.len() as int)) by {
                    lemma_auto_spec_u64_to_from_le_bytes();
                    assert(b@.subrange(pos as int, pa as int) =~= whole.subrange(0, 8));
                    assert(whole.subrange(0, 8) =~= enc_u64(u.begin).subrange(0, 8));
                    assert(spec_u64_from_le_bytes(enc_u64(bg)) == bg);
                    assert(spec_u64_from_le_bytes(enc_u64(u.begin)) == u.begin);
                    assert(whole.subrange(8, whole.len() as int) =~= b@.subrange(
                        pa as int,
                        b@.len() as int,
                    ));
                }
            }
            match dec_u64(b, pa) {
                None => {
                    proof {
                        assert forall|u: LineView|
                            enc_line(u).is_prefix_of(whole) && line_ok(u) implies false by {
                            lemma_auto_spec_u64_to_from_le_bytes();
                        }
                    }
                    None
                },
                Some((en, pb)) => {
                    proof {
                        assert forall|u: LineView|
                            enc_line(u).is_prefix_of(whole) && line_ok(u) implies en == u.end
                            && enc_str(u.agent_id).is_prefix_of(
                            b@.subrange(pb as int, b@.len() as int),
                        ) by {
                            lemma_auto_spec_u64_to_from_le_bytes();
                            assert(b@.subrange(pa as int, pb as int) =~= whole.subrange(8, 16));
                            assert(enc_u64(u.end).is_prefix_of(
                                whole.subrange(8, whole.len() as int),
                            ));
                            assert(whole.subrange(8, whole.len() as int).subrange(0, 8)
                                =~= whole.subrange(8, 16));
                            assert(whole.subrange(8, whole.len() as int).subrange(
                                0,
                                enc_u64(u.end).len() as int,
                            ) == enc_u64(u.end));
                            assert(whole.subrange(8, 16) == enc_u64(u.end));
                            assert(spec_u64_from_le_bytes(enc_u64(en)) == en);
                            assert(spec_u64_from_le_bytes(enc_u64(u.end)) == u.end);
                            assert(whole.subrange(16, whole.len() as int) =~= b@.subrange(
                                pb as int,
                                b@.len() as int,
                            ));
                        }
                    }
                    match dec_str(b, pb) {
                        None => {
                            proof {
                                assert forall|u: LineView|
                                    enc_line(u).is_prefix_of(whole) && line_ok(
                                        u,
                                    ) implies false by {}
                            }
                            None
                        },
                        Some((ag, pc)) => {
                            proof {
                                assert forall|u: LineView|
                                    enc_line(u).is_prefix_of(whole) && line_ok(u) implies ag@
                                    == u.agent_id && enc_u128(u.uuid).is_prefix_of(
                                    b@.subrange(pc as int, b@.len() as int),
                                ) by {
                                    assert((pc - pos) as int == 16 + enc_str(
                                        u.agent_id,
                                    ).len() as int);
                                    assert(whole.subrange(
                                        16 + enc_str(u.agent_id).len() as int,
                                        whole.len() as int,
                                    ) =~= b@.subrange(pc as int, b@.len() as int));
                                }
                            }
                            match dec_u128(b, pc) {
                                None => {
                                    proof {
                                        assert forall|u: LineView|
                                            enc_line(u).is_prefix_of(whole) && line_ok(
                                                u,
                                            ) implies false by {
                                            lemma_auto_spec_u128_to_from_le_bytes();
                                        }
                                    }
                                    None
                                },
                                Some((uid, pd)) => {
                                    proof {
                                        assert forall|u: LineView|
                                            enc_line(u).is_prefix_of(whole) && line_ok(
                                                u,
                                            ) implies uid == u.uuid && enc_list(
                                            u.original,
                                            segment_enc(),
                                        ).is_prefix_of(
                                            b@.subrange(pd as int, b@.len() as int),
                                        ) by {
                                            lemma_auto_spec_u128_to_from_le_bytes();
                                            assert(enc_u128(u.uuid).is_prefix_of(
                                                b@.subrange(pc as int, b@.len() as int),
                                            ));
                                            assert(b@.subrange(pc as int, pd as int)
                                                =~= b@.subrange(pc as int, b@.len() as int).subrange(
                                                0,
                                                16,
                                            ));
                                            assert(b@.subrange(
                                                pc as int,
                                                b@.len() as int,
                                            ).subrange(0, enc_u128(u.uuid).len() as int)
                                                == enc_u128(u.uuid));
                                            assert(b@.subrange(pc as int, pd as int) == enc_u128(
                                                u.uuid,
                                            ));
                                            assert(spec_u128_from_le_bytes(enc_u128(uid)) == uid);
                                            assert(spec_u128_from_le_bytes(enc_u128(u.uuid))
                                                == u.uuid);
                                            assert((pd - pos) as int == 32 + enc_str(
                                                u.agent_id,
                                            ).len() as int);
                                            assert(whole.subrange(
                                                32 + enc_str(u.agent_id).len() as int,
                                                whole.len() as int,
                                            ) =~= b@.subrange(pd as int, b@.len() as int));
                                        }
                                    }
                                    match dec_segments(b, pd) {
                                        None => {
                                            proof {
                                                assert forall|u: LineView|
                                                    enc_line(u).is_prefix_of(whole) && line_ok(
                                                        u,
                                                    ) implies false by {}
                                            }
                                            None
                                        },
                                        Some((segs, pe)) => {
                                            proof {
                                                assert forall|u: LineView|
                                                    enc_line(u).is_prefix_of(whole) && line_ok(
                                                        u,
                                                    ) implies seg_views(segs@) == u.original
                                                    && enc_list(
                                                    u.translations,
                                                    wordlist_entry_enc(),
                                                ).is_prefix_of(
                                                    b@.subrange(pe as int, b@.len() as int),
                                                ) by {
                                                    assert((pe - pos) as int == 32 + enc_str(
                                                        u.agent_id,
                                                    ).len() as int + enc_list(
                                                        u.original,
                                                        segment_enc(),
                                                    ).len() as int);
                                                    assert(whole.subrange(
                                                        32 + enc_str(u.agent_id).len() as int
                                                            + enc_list(
                                                            u.original,
                                                            segment_enc(),
                                                        ).len() as int,
                                                        whole.len() as int,
                                                    ) =~= b@.subrange(pe as int, b@.len() as int));
                                                }
                                            }
                                            match dec_wordlist_entries(b, pe) {
                                                None => {
                                                    proof {
                                                        assert forall|u: LineView|
                                                            enc_line(u).is_prefix_of(whole)
                                                                && line_ok(u) implies false by {}
                                                    }
                                                    None
                                                },
                                                Some((wl, pf)) => {
                                                    let line = LyricsLine {
                                                        begin: Timestamp { millis: bg },
                                                        end: Timestamp { millis: en },
                                                        agent_id: ag,
                                                        original: segs,
                                                        uuid: uid,
                                                        translations: wl,
                                                    };
                                                    proof {
                                                        assert(b@.subrange(pos as int, pf as int)
                                                            =~= enc_u64(bg) + enc_u64(en)
                                                            + enc_str(line.agent_id@) + enc_u128(
                                                            uid,
                                                        ) + enc_list(
                                                            seg_views(segs@),
                                                            segment_enc(),
                                                        ) + enc_list(
                                                            pair_string_views(wl@),
                                                            wordlist_entry_enc(),
                                                        ));
                                                        assert(b@.subrange(pos as int, pf as int)
                                                            == enc_line(line@));
                                                        assert forall|u: LineView|
                                                            enc_line(u).is_prefix_of(whole)
                                                                && line_ok(u) implies line@ == u
                                                            && (pf as int) == pos + enc_line(
                                                            u,
                                                        ).len() by {
                                                            assert(u == LineView {
                                                                begin: u.begin,
                                                                end: u.end,
                                                                agent_id: u.agent_id,
                                                                original: u.original,
                                                                uuid: u.uuid,
                                                                translations: u.translations,
                                                            });
                                                        }
                                                    }
                                                    Some((line, pf))
                                                },
                                            }
                                        },
                                    }
                                },
                            }
                        },
                    }
                },
            }
        },
    }
}

fn dec_lines(b: &Vec<u8>, pos: usize) -> (r: Option<(Vec<LyricsLine>, usize)>)
    requires
        pos <= b@.len(),
    ensures
        match r {
            Some(v) => pos <= v.1 && v.1 as int <= b@.len() && b@.subrange(pos as int, v.1 as int)
                == enc_list(line_views(v.0@), line_enc()),
            None => true,
        },
        forall|u: Seq<LineView>|
            #![trigger enc_list(u, line_enc())]
            enc_list(u, line_enc()).is_prefix_of(b@.subrange(pos as int, b@.len() as int)) && lines_ok(u)
                ==> match r {
                Some(v) => line_views(v.0@) == u && v.1 as int == pos + enc_list(u, line_enc()).len(),
                None => false,
            },
{
    let ghost whole = b@.subrange(pos as int, b@.len() as int);
    match dec_usize(b, pos) {
        None => {
            proof {
                lemma_auto_spec_u64_to_from_le_bytes();
                assert forall|u: Seq<LineView>|
                    enc_list(u, line_enc()).is_prefix_of(whole) && lines_ok(u) implies false by {
                    assert(whole.subrange(0, 8) =~= b@.subrange(pos as int, (pos as int) + 8));
                    assert(enc_list(u, line_enc()).subrange(0, 8) =~= enc_u64(u.len() as u64));
                    assert(b@.subrange(pos as int, (pos as int) + 8) == enc_u64(u.len() as u64));
                }
            }
            None
        },
        Some((n, p1)) => {
            proof {
                assert forall|u: Seq<LineView>|
                    enc_list(u, line_enc()).is_prefix_of(whole) && lines_ok(u) implies (n as int) == u.len()
                    && enc_seq(u, line_enc()).is_prefix_of(b@.subrange(p1 as int, b@.len() as int)) by {
                    lemma_auto_spec_u64_to_from_le_bytes();
                    assert(whole.subrange(0, 8) =~= b@.subrange(pos as int, (pos as int) + 8));
                    assert(enc_list(u, line_enc()).subrange(0, 8) =~= enc_u64(u.len() as u64));
                    assert(enc_u64(n as u64) == enc_u64(u.len() as u64));
                    assert(spec_u64_from_le_bytes(enc_u64(n as u64)) == n as u64);
                    assert(spec_u64_from_le_bytes(enc_u64(u.len() as u64)) == u.len() as u64);
                    assert(b@.subrange(p1 as int, b@.len() as int) =~= whole.subrange(
                        8,
                        whole.len() as int,
                    ));
                    assert(enc_list(u, line_enc()).subrange(8, enc_list(u, line_enc()).len() as int)
                        =~= enc_seq(u, line_enc()));
                    assert(enc_seq(u, line_enc()).is_prefix_of(whole.subrange(8, whole.len() as int)));
                }
            }
            let mut out: Vec<LyricsLine> = Vec::new();
            let mut p = p1;
            let mut m: usize = 0;
            proof {
                assert forall|u: Seq<LineView>|
                    enc_list(u, line_enc()).is_prefix_of(whole) && lines_ok(u) implies line_views(out@)
                    == u.subrange(0, 0) && enc_seq(u.subrange(0, u.len() as int), line_enc()).is_prefix_of(
                    b@.subrange(p1 as int, b@.len() as int),
                ) by {
                    assert(line_views(out@) =~= u.subrange(0, 0));
                    assert(u.subrange(0, u.len() as int) =~= u);
                }
            }
            while m < n
                invariant
                    whole == b@.subrange(pos as int, b@.len() as int),
                    pos <= p1,
                    p1 as int <= b@.len(),
                    0 <= (m as int) <= n as int,
                    p1 <= p,
                    p as int <= b@.len(),
                    out@.len() == m as int,
                    b@.subrange(p1 as int, p as int) == enc_seq(line_views(out@), line_enc()),
                    forall|u: Seq<LineView>|
                        #![trigger enc_list(u, line_enc())]
                        enc_list(u, line_enc()).is_prefix_of(b@.subrange(pos as int, b@.len() as int))
                            && lines_ok(u) ==> (n as int) == u.len() && line_views(out@) == u.subrange(
                            0,
                            m as int,
                        ) && enc_seq(u.subrange(m as int, u.len() as int), line_enc()).is_prefix_of(
                            b@.subrange(p as int, b@.len() as int),
                        ),
                decreases n - m,
            {
                match dec_line(b, p) {
                    None => {
                        proof {
                            assert forall|u: Seq<LineView>|
                                enc_list(u, line_enc()).is_prefix_of(whole) && lines_ok(u) implies false by {
                                let rest = u.subrange(m as int, u.len() as int);
                                assert(rest.len() > 0);
                                assert(rest.drop_first() =~= u.subrange(
                                    m as int + 1,
                                    u.len() as int,
                                ));
                                assert(enc_seq(rest, line_enc()) == line_enc()(rest[0]) + enc_seq(
                                    rest.drop_first(),
                                    line_enc(),
                                ));
                                lemma_prefix_split(
                                    enc_line(rest[0]),
                                    enc_seq(rest.drop_first(), line_enc()),
                                    b@.subrange(p as int, b@.len() as int),
                                );
                                assert(line_ok(rest[0]));
                            }
                        }
                        return None;
                    },
                    Some((e, p2)) => {
                        let ghost out_prev = out@;
                        out.push(e);
                        proof {
                            assert(out@ =~= out_prev.push(e));
                            assert(line_views(out@) =~= line_views(out_prev).push(e@));
                            assert(line_views(out@).subrange(0, m as int) =~= line_views(out_prev));
                            lemma_enc_seq_snoc(line_views(out@), line_enc(), m as int);
                            assert(line_views(out@).subrange(0, m as int + 1) =~= line_views(out@));
                            assert(b@.subrange(p1 as int, p2 as int) =~= enc_seq(
                                line_views(out_prev),
                                line_enc(),
                            ) + enc_line(e@));
                            assert(b@.subrange(p1 as int, p2 as int) == enc_seq(
                                line_views(out@),
                                line_enc(),
                            ));
                            assert forall|u: Seq<LineView>|
                                enc_list(u, line_enc()).is_prefix_of(whole) && lines_ok(u) implies (n as int)
                                == u.len() && line_views(out@) == u.subrange(0, m as int + 1) && enc_seq(
                                u.subrange(m as int + 1, u.len() as int),
                                line_enc(),
                            ).is_prefix_of(b@.subrange(p2 as int, b@.len() as int)) by {
                                let rest = u.subrange(m as int, u.len() as int);
                                assert(rest.len() > 0);
                                assert(rest.drop_first() =~= u.subrange(
                                    m as int + 1,
                                    u.len() as int,
                                ));
                                assert(enc_seq(rest, line_enc()) == line_enc()(rest[0]) + enc_seq(
                                    rest.drop_first(),
                                    line_enc(),
                                ));
                                lemma_prefix_split(
                                    enc_line(rest[0]),
                                    enc_seq(rest.drop_first(), line_enc()),
                                    b@.subrange(p as int, b@.len() as int),
                                );
                                assert(line_ok(rest[0]));
                                assert(e@ == rest[0]);
                                assert(u.subrange(0, m as int + 1) =~= u.subrange(
                                    0,
                                    m as int,
                                ).push(u[m as int]));
                                assert(line_views(out@) =~= u.subrange(0, m as int + 1));
                                assert(b@.subrange(p as int, b@.len() as int).subrange(
                                    enc_line(rest[0]).len() as int,
                                    b@.len() - p as int,
                                ) =~= b@.subrange(p2 as int, b@.len() as int));
                            }
                        }
                        p = p2;
                    },
                }
                m = m + 1;
            }
            proof {
                assert(b@.subrange(pos as int, p as int) =~= enc_u64(n as u64) + enc_seq(
                    line_views(out@),
                    line_enc(),
                ));
                assert(line_views(out@).len() == n as int);
                assert(b@.subrange(pos as int, p as int) == enc_list(line_views(out@), line_enc()));
                assert forall|u: Seq<LineView>|
                    enc_list(u, line_enc()).is_prefix_of(whole) && lines_ok(u) implies line_views(out@) == u && (
                p as int) == pos + enc_list(u, line_enc()).len() by {
                    assert(line_views(out@) =~= u.subrange(0, m as int));
                    assert(u.subrange(0, m as int) =~= u);
                    assert(enc_seq(u, line_enc()).len() == (p as int) - (p1 as int)) by {
                        assert(enc_seq(line_views(out@), line_enc()) == b@.subrange(p1 as int, p as int));
                    }
                }
            }
            Some((out, p))
        },
    }
}


impl BabelLyrics {
    /// Serializes the document: the result is exactly `enc_doc` of it.
    pub fn export(&self) -> (r: Vec<u8>)
        ensures
            r@ == enc_doc(self@),
            doc_ok(self@),
    {
        let mut out: Vec<u8> = Vec::new();
        push_agents(&mut out, &self.metadata.agents);
        push_registry(&mut out, &self.metadata.translations);
        push_lines(&mut out, &self.lyrics.lines);
        proof {
            assert(out@ =~= enc_doc(self@));
        }
        out
    }
}

/// Deserializes a document. Succeeds exactly when the bytes are the
/// encoding of some machine-size-valid document; the result re-encodes
/// to exactly the input.
pub fn import_serialized(b: &Vec<u8>) -> (r: Result<BabelLyrics, CodecError>)
    ensures
        match r {
            Ok(d) => b@ == enc_doc(d@),
            Err(_) => true,
        },
        forall|u: DocView|
            #![trigger enc_doc(u)]
            enc_doc(u) == b@ && doc_ok(u) ==> match r {
                Ok(d) => d@ == u,
                Err(_) => false,
            },
{
    let ghost whole = b@.subrange(0, b@.len() as int);
    proof {
        assert(whole =~= b@);
        assert forall|u: DocView| enc_doc(u) == b@ && doc_ok(u) implies enc_list(
            u.metadata.agents,
            agent_enc(),
        ).is_prefix_of(whole) && enc_list(u.metadata.translations, registry_entry_enc()).is_prefix_of(
            whole.subrange(
                enc_list(u.metadata.agents, agent_enc()).len() as int,
                whole.len() as int,
            ),
        ) && enc_list(u.lines, line_enc()).is_prefix_of(
            whole.subrange(
                enc_list(u.metadata.agents, agent_enc()).len() as int + enc_list(
                    u.metadata.translations,
                    registry_entry_enc(),
                ).len() as int,
                whole.len() as int,
            ),
        ) by {
            let fa = enc_list(u.metadata.agents, agent_enc());
            let fb = enc_list(u.metadata.translations, registry_entry_enc());
            let fc = enc_list(u.lines, line_enc());
            assert((fa + fb + fc).is_prefix_of(whole));
            lemma_prefix_split(fa + fb, fc, whole);
            lemma_prefix_split(fa, fb, whole);
            assert(whole.subrange((fa + fb).len() as int, whole.len() as int) =~= whole.subrange(
                fa.len() as int + fb.len() as int,
                whole.len() as int,
            ));
        }
    }
    match dec_agents(b, 0) {
        None => {
            proof {
                assert forall|u: DocView| enc_doc(u) == b@ && doc_ok(u) implies false by {}
            }
            Err(CodecError::Malformed)
        },
        Some((ags, pa)) => {
            proof {
                assert forall|u: DocView|
                    enc_doc(u) == b@ && doc_ok(u) implies agent_views(ags@) == u.metadata.agents
                    && enc_list(u.metadata.translations, registry_entry_enc()).is_prefix_of(
                    b@.subrange(pa as int, b@.len() as int),
                ) by {
                    assert((pa as int) == enc_list(u.metadata.agents, agent_enc()).len());
                    assert(whole.subrange(
                        enc_list(u.metadata.agents, agent_enc()).len() as int,
                        whole.len() as int,
                    ) =~= b@.subrange(pa as int, b@.len() as int));
                }
            }
            match dec_registry(b, pa) {
                None => {
                    proof {
                        assert forall|u: DocView| enc_doc(u) == b@ && doc_ok(u) implies false by {}
                    }
                    Err(CodecError::Malformed)
                },
                Some((reg, pb)) => {
                    proof {
                        assert forall|u: DocView|
                            enc_doc(u) == b@ && doc_ok(u) implies entry_views(reg@)
                            == u.metadata.translations && enc_list(u.lines, line_enc()).is_prefix_of(
                            b@.subrange(pb as int, b@.len() as int),
                        ) by {
                            assert((pb as int) == enc_list(u.metadata.agents, agent_enc()).len()
                                + enc_list(u.metadata.translations, registry_entry_enc()).len());
                            assert(whole.subrange(
                                enc_list(u.metadata.agents, agent_enc()).len() as int + enc_list(
                                    u.metadata.translations,
                                    registry_entry_enc(),
                                ).len() as int,
                                whole.len() as int,
                            ) =~= b@.subrange(pb as int, b@.len() as int));
                        }
                    }
                    match dec_lines(b, pb) {
                        None => {
                            proof {
                                assert forall|u: DocView|
                                    enc_doc(u) == b@ && doc_ok(u) implies false by {}
                            }
                            Err(CodecError::Malformed)
                        },
                        Some((lines, pc)) => {
                            if pc != b.len() {
                                proof {
                                    assert forall|u: DocView|
                                        enc_doc(u) == b@ && doc_ok(u) implies false by {
                                        assert((pc as int) == enc_doc(u).len());
                                    }
                                }
                                return Err(CodecError::Malformed);
                            }
                            let doc = BabelLyrics {
                                metadata: LyricsMetadata { agents: ags, translations: reg },
                                lyrics: Lyrics { lines },
                            };
                            proof {
                                assert(b@.subrange(0, pc as int) =~= b@);
                                assert(b@ =~= enc_list(agent_views(doc.metadata.agents@), agent_enc())
                                    + enc_list(
                                    entry_views(doc.metadata.translations@),
                                    registry_entry_enc(),
                                ) + enc_list(line_views(doc.lyrics.lines@), line_enc()));
                                assert(b@ == enc_doc(doc@));
                                assert forall|u: DocView|
                                    enc_doc(u) == b@ && doc_ok(u) implies doc@ == u by {
                                    assert(u == DocView {
                                        metadata: crate::lyrics::MetadataView {
                                            agents: u.metadata.agents,
                                            translations: u.metadata.translations,
                                        },
                                        lines: u.lines,
                                    });
                                }
                            }
                            Ok(doc)
                        },
                    }
                },
            }
        },
    }
}

/// The round trip: importing an exported document yields a document
/// structurally equal to it, so exporting that document again yields
/// the same bytes.
pub fn reimport(d: &BabelLyrics) -> (r: BabelLyrics)
    ensures
        r@ == d@,
{
    let bytes = d.export();
    match import_serialized(&bytes) {
        Ok(doc) => doc,
        Err(_) => {
            proof {
                assert(false);
            }
            BabelLyrics::empty()
        },
    }
}

} // verus!
