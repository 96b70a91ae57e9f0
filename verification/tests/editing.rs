use babel_player::lyrics::{
    Agent, BabelLyrics, Lyrics, LyricsLine, LyricsMetadata, LyricsSegment, TranslationEntry,
};
use babel_player::Timestamp;

const L1: u128 = 1;

fn seg(begin: u64, end: u64, text: &str, assoc: Vec<usize>) -> LyricsSegment {
    LyricsSegment {
        begin: Timestamp { millis: begin },
        end: Timestamp { millis: end },
        text: String::from(text),
        translations: vec![(L1, assoc)],
    }
}

/// One registered language `es` (id 1), one line 0..1000 with segments
/// "Hello" 0..500 -> [0] and "World" 500..1000 -> [1], line translation
/// ["Hola", "Mundo"].
fn sample_doc() -> BabelLyrics {
    BabelLyrics {
        metadata: LyricsMetadata {
            agents: vec![Agent { id: String::from("v1") }],
            translations: vec![TranslationEntry { language: String::from("es"), id: L1 }],
        },
        lyrics: Lyrics {
            lines: vec![LyricsLine {
                begin: Timestamp { millis: 0 },
                end: Timestamp { millis: 1000 },
                agent_id: String::from("v1"),
                original: vec![seg(0, 500, "Hello", vec![0]), seg(500, 1000, "World", vec![1])],
                uuid: 42,
                translations: vec![(L1, vec![String::from("Hola"), String::from("Mundo")])],
            }],
        },
    }
}

fn bare_doc() -> BabelLyrics {
    let mut d = sample_doc();
    d.metadata.translations.clear();
    for line in d.lyrics.lines.iter_mut() {
        line.translations.clear();
        for s in line.original.iter_mut() {
            s.translations.clear();
        }
    }
    d
}

#[test]
fn add_language_registers_entry_everywhere() {
    let mut d = bare_doc();
    assert!(d.add_language_with_id(7, String::from("fr")));
    assert_eq!(d.metadata.translations.len(), 1);
    assert_eq!(d.metadata.translations[0].id, 7);
    assert_eq!(d.metadata.translations[0].language, "fr");
    for line in &d.lyrics.lines {
        let keyed: Vec<_> = line.translations.iter().filter(|p| p.0 == 7).collect();
        assert_eq!(keyed.len(), 1);
        assert!(keyed[0].1.is_empty());
        for s in &line.original {
            let keyed: Vec<_> = s.translations.iter().filter(|p| p.0 == 7).collect();
            assert_eq!(keyed.len(), 1);
            assert!(keyed[0].1.is_empty());
        }
    }
}

#[test]
fn add_language_existing_id_is_noop() {
    let mut d = bare_doc();
    assert!(d.add_language_with_id(7, String::from("fr")));
    assert!(!d.add_language_with_id(7, String::from("de")));
    assert_eq!(d.metadata.translations.len(), 1);
    assert_eq!(d.metadata.translations[0].language, "fr");
}

#[test]
fn add_language_generates_fresh_id() {
    let mut d = sample_doc();
    let id = d.add_language(String::from("de")).expect("fresh id");
    assert_ne!(id, L1);
    assert_eq!(d.metadata.translations.len(), 2);
    assert_eq!(d.lyrics.lines[0].translations.len(), 2);
    assert_eq!(d.lyrics.lines[0].original[0].translations.len(), 2);
}

#[test]
fn remove_language_leaves_no_entry() {
    let mut d = sample_doc();
    d.remove_language(L1);
    assert!(d.metadata.translations.is_empty());
    for line in &d.lyrics.lines {
        assert!(line.translations.iter().all(|p| p.0 != L1));
        assert!(line.translations.is_empty());
        for s in &line.original {
            assert!(s.translations.iter().all(|p| p.0 != L1));
            assert!(s.translations.is_empty());
        }
    }
}

#[test]
fn remove_unknown_language_is_noop() {
    let mut d = sample_doc();
    d.remove_language(99);
    assert_eq!(d.metadata.translations.len(), 1);
    assert_eq!(d.lyrics.lines[0].translations.len(), 1);
    assert_eq!(d.lyrics.lines[0].translations[0].1.len(), 2);
}

#[test]
fn remove_translation_word_shifts_associations() {
    let mut d = sample_doc();
    d.remove_translation_word(0, L1, 0);
    let line = &d.lyrics.lines[0];
    assert_eq!(line.translations[0].1, vec![String::from("Mundo")]);
    assert_eq!(line.original[0].translations[0].1, Vec::<usize>::new());
    assert_eq!(line.original[1].translations[0].1, vec![0usize]);
}

#[test]
fn remove_translation_word_keeps_lower_indices() {
    let mut d = sample_doc();
    d.lyrics.lines[0].translations[0].1.push(String::from("!"));
    d.lyrics.lines[0].original[0].translations[0].1 = vec![0, 2];
    d.remove_translation_word(0, L1, 1);
    let line = &d.lyrics.lines[0];
    assert_eq!(line.translations[0].1, vec![String::from("Hola"), String::from("!")]);
    assert_eq!(line.original[0].translations[0].1, vec![0usize, 1usize]);
    assert_eq!(line.original[1].translations[0].1, Vec::<usize>::new());
}

#[test]
fn remove_translation_word_out_of_range_is_noop() {
    let mut d = sample_doc();
    d.remove_translation_word(0, L1, 5);
    assert_eq!(d.lyrics.lines[0].translations[0].1.len(), 2);
    assert_eq!(d.lyrics.lines[0].original[1].translations[0].1, vec![1usize]);
}

#[test]
fn toggle_include_twice_equals_once() {
    let mut d1 = sample_doc();
    d1.toggle_segment_word_association(0, 0, L1, 1, true);
    let once = d1.lyrics.lines[0].original[0].translations[0].1.clone();
    d1.toggle_segment_word_association(0, 0, L1, 1, true);
    let twice = d1.lyrics.lines[0].original[0].translations[0].1.clone();
    assert_eq!(once, twice);
    assert_eq!(once, vec![0usize, 1usize]);
}

#[test]
fn toggle_exclude_removes_position() {
    let mut d = sample_doc();
    d.toggle_segment_word_association(0, 1, L1, 1, false);
    assert_eq!(d.lyrics.lines[0].original[1].translations[0].1, Vec::<usize>::new());
}

#[test]
fn add_translation_word_appends_empty_word() {
    let mut d = sample_doc();
    d.add_translation_word(0, L1);
    let words = &d.lyrics.lines[0].translations[0].1;
    assert_eq!(words.len(), 3);
    assert_eq!(words[2], "");
    assert_eq!(d.lyrics.lines[0].original[0].translations[0].1, vec![0usize]);
}

#[test]
fn insert_then_move_yields_new_first() {
    let mut d = sample_doc();
    d.insert_segment(0, 1);
    d.move_segment(0, 1, 0);
    let texts: Vec<&str> =
        d.lyrics.lines[0].original.iter().map(|s| s.text.as_str()).collect();
    assert_eq!(texts, vec!["", "Hello", "World"]);
    // associations travel with their segments
    assert_eq!(d.lyrics.lines[0].original[1].translations[0].1, vec![0usize]);
    assert_eq!(d.lyrics.lines[0].original[2].translations[0].1, vec![1usize]);
}

#[test]
fn insert_segment_past_end_appends() {
    let mut d = sample_doc();
    d.insert_segment(0, 99);
    assert_eq!(d.lyrics.lines[0].original.len(), 3);
    assert_eq!(d.lyrics.lines[0].original[2].text, "");
    assert_eq!(d.lyrics.lines[0].original[2].translations.len(), 1);
    assert_eq!(d.lyrics.lines[0].original[2].translations[0].0, L1);
}

#[test]
fn remove_segment_out_of_range_is_noop() {
    let mut d = sample_doc();
    d.remove_segment(0, 5);
    assert_eq!(d.lyrics.lines[0].original.len(), 2);
    d.remove_segment(3, 0);
    assert_eq!(d.lyrics.lines.len(), 1);
}

#[test]
fn remove_segment_drops_only_that_segment() {
    let mut d = sample_doc();
    d.remove_segment(0, 0);
    assert_eq!(d.lyrics.lines[0].original.len(), 1);
    assert_eq!(d.lyrics.lines[0].original[0].text, "World");
    assert_eq!(d.lyrics.lines[0].original[0].translations[0].1, vec![1usize]);
}

#[test]
fn add_line_carries_registered_languages() {
    let mut d = sample_doc();
    d.add_line();
    assert_eq!(d.lyrics.lines.len(), 2);
    let line = &d.lyrics.lines[1];
    assert_eq!(line.begin.millis, 0);
    assert_eq!(line.end.millis, 0);
    assert_eq!(line.agent_id, "");
    assert!(line.original.is_empty());
    assert_eq!(line.translations.len(), 1);
    assert_eq!(line.translations[0].0, L1);
    assert!(line.translations[0].1.is_empty());
}
