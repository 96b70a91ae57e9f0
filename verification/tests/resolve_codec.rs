use babel_player::codec::import_serialized;
use babel_player::import::{import_markup, TimedLine, TimedWord};
use babel_player::lyrics::{
    Agent, BabelLyrics, Lyrics, LyricsLine, LyricsMetadata, LyricsSegment, TranslationEntry,
};
use babel_player::resolver::resolve;
use babel_player::Timestamp;

const L1: u128 = 1;

fn seg(begin: u64, end: u64, text: &str, assoc: Vec<usize>) -> LyricsSegment {
    LyricsSegment {
        begin: Timestamp { millis: begin },
        end: Timestamp { millis: end },
        text: String::from(text),
        translations: vec![(L1, assoc)],
    }
}

fn sample_doc() -> BabelLyrics {
    BabelLyrics {
        metadata: LyricsMetadata {
            agents: vec![Agent { id: String::from("v1") }],
            translations: vec![TranslationEntry { language: String::from("es"), id: L1 }],
        },
        lyrics: Lyrics {
            lines: vec![LyricsLine {
                begin: Timestamp { millis: 0 },
                end: Timestamp { millis: 1000 },
                agent_id: String::from("v1"),
                original: vec![seg(0, 500, "Hello", vec![0]), seg(500, 1000, "World", vec![1])],
                uuid: 42,
                translations: vec![(L1, vec![String::from("Hola"), String::from("Mundo")])],
            }],
        },
    }
}

#[test]
fn resolver_boundary_instants_are_not_active() {
    let mut d = sample_doc();
    d.lyrics.lines[0].begin = Timestamp { millis: 1000 };
    d.lyrics.lines[0].end = Timestamp { millis: 2000 };
    assert_eq!(resolve(&d, Timestamp { millis: 1000 }).active_line, None);
    assert_eq!(resolve(&d, Timestamp { millis: 2000 }).active_line, None);
    assert_eq!(resolve(&d, Timestamp { millis: 1500 }).active_line, Some(0));
}

#[test]
fn resolve_reports_active_segment_and_highlights() {
    let d = sample_doc();
    let w = resolve(&d, Timestamp { millis: 250 });
    assert_eq!(w.active_line, Some(0));
    assert_eq!(w.active_segment, Some(0));
    assert_eq!(w.highlighted, vec![(L1, vec![0usize])]);
}

#[test]
fn resolve_after_word_removal_highlights_shifted_index() {
    let mut d = sample_doc();
    d.remove_translation_word(0, L1, 0);
    assert_eq!(d.lyrics.lines[0].translations[0].1, vec![String::from("Mundo")]);
    let w = resolve(&d, Timestamp { millis: 750 });
    assert_eq!(w.active_segment, Some(1));
    assert_eq!(w.highlighted, vec![(L1, vec![0usize])]);
    let w_early = resolve(&d, Timestamp { millis: 250 });
    assert_eq!(w_early.highlighted, vec![(L1, vec![])]);
}

#[test]
fn resolve_outside_every_line_reports_nothing() {
    let d = sample_doc();
    let w = resolve(&d, Timestamp { millis: 5000 });
    assert_eq!(w.active_line, None);
    assert_eq!(w.active_segment, None);
    assert!(w.highlighted.is_empty());
}

#[test]
fn export_import_round_trips_exactly() {
    let mut d = sample_doc();
    d.lyrics.lines[0].original[0].text = String::from("こんにちは");
    let bytes = d.export();
    let back = import_serialized(&bytes).expect("import of an export succeeds");
    assert_eq!(back.export(), bytes);
    assert_eq!(back.metadata.agents.len(), 1);
    assert_eq!(back.metadata.agents[0].id, "v1");
    assert_eq!(back.metadata.translations.len(), 1);
    assert_eq!(back.metadata.translations[0].language, "es");
    assert_eq!(back.metadata.translations[0].id, L1);
    let line = &back.lyrics.lines[0];
    assert_eq!(line.begin.millis, 0);
    assert_eq!(line.end.millis, 1000);
    assert_eq!(line.agent_id, "v1");
    assert_eq!(line.uuid, 42);
    assert_eq!(line.original[0].text, "こんにちは");
    assert_eq!(line.original[0].translations[0].1, vec![0usize]);
    assert_eq!(line.original[1].text, "World");
    assert_eq!(line.translations[0].1, vec![String::from("Hola"), String::from("Mundo")]);
}

#[test]
fn export_of_empty_document_is_three_zero_counts() {
    let d = BabelLyrics::empty();
    assert_eq!(d.export(), vec![0u8; 24]);
}

#[test]
fn import_rejects_malformed_bytes() {
    assert!(import_serialized(&vec![1u8, 2, 3]).is_err());
    let d = sample_doc();
    let mut bytes = d.export();
    bytes.pop();
    assert!(import_serialized(&bytes).is_err());
    bytes = d.export();
    bytes.push(0);
    assert!(import_serialized(&bytes).is_err());
}

#[test]
fn import_markup_maps_lines_and_words() {
    let input = vec![
        TimedLine {
            begin: Timestamp { millis: 10 },
            end: Timestamp { millis: 900 },
            words: vec![
                TimedWord {
                    begin: Timestamp { millis: 10 },
                    end: Timestamp { millis: 400 },
                    text: String::from("Ding"),
                },
                TimedWord {
                    begin: Timestamp { millis: 400 },
                    end: Timestamp { millis: 900 },
                    text: String::from("dong"),
                },
            ],
        },
        TimedLine {
            begin: Timestamp { millis: 1000 },
            end: Timestamp { millis: 1500 },
            words: vec![],
        },
    ];
    let d = import_markup(input);
    assert!(d.metadata.agents.is_empty());
    assert!(d.metadata.translations.is_empty());
    assert_eq!(d.lyrics.lines.len(), 2);
    let first = &d.lyrics.lines[0];
    assert_eq!(first.begin.millis, 10);
    assert_eq!(first.end.millis, 900);
    assert_eq!(first.agent_id, "");
    assert!(first.translations.is_empty());
    assert_eq!(first.original.len(), 2);
    assert_eq!(first.original[0].text, "Ding");
    assert_eq!(first.original[0].begin.millis, 10);
    assert_eq!(first.original[0].end.millis, 400);
    assert!(first.original[0].translations.is_empty());
    assert_eq!(first.original[1].text, "dong");
    assert_eq!(d.lyrics.lines[1].original.len(), 0);
    assert_ne!(first.uuid, d.lyrics.lines[1].uuid);
}
