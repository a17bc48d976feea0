use kokoros::tts::koko::TTSKoko;
use kokoros::tts::speech::split_text_into_speech_chunks;

fn engine() -> TTSKoko {
    TTSKoko::new("model.onnx", vec!["af_sarah".to_string(), "af_nicole".to_string()]).unwrap()
}

#[test]
fn short_sentences_stay_whole_and_end_with_a_full_stop() {
    let chunks = engine().split_text_into_speech_chunks("Hello world. This is a test!", 10);
    assert_eq!(chunks, vec!["Hello world.", "This is a test."]);
}

#[test]
fn question_and_exclamation_marks_end_sentences() {
    let chunks = split_text_into_speech_chunks("  Who are you?   I am here!Fine ", 5);
    assert_eq!(chunks, vec!["Who are you.", "I am here.", "Fine."]);
}

#[test]
fn a_long_sentence_is_cut_at_clause_marks_and_packed() {
    let text = "one two three, four five six; seven eight: nine ten.";
    let chunks = split_text_into_speech_chunks(text, 4);
    assert_eq!(chunks, vec!["one two three,", "four five six;", "seven eight: nine ten"]);
}

#[test]
fn a_clause_over_the_limit_stands_alone() {
    let chunks = split_text_into_speech_chunks("a b c d e f, g h.", 3);
    assert_eq!(chunks, vec!["a b c d e f,", "g h"]);
}

#[test]
fn a_mark_that_follows_nothing_is_dropped() {
    let chunks = split_text_into_speech_chunks("a,,b c d.", 1);
    assert_eq!(chunks, vec!["a,", "b c d"]);
    let chunks = split_text_into_speech_chunks(",x y z!", 2);
    assert_eq!(chunks, vec!["x y z"]);
}

#[test]
fn a_blank_clause_keeps_its_mark() {
    let chunks = split_text_into_speech_chunks("a b, , c d?", 2);
    assert_eq!(chunks, vec!["a b,", ",", "c d"]);
}

#[test]
fn a_limit_of_zero_gives_one_chunk_per_clause() {
    let chunks = split_text_into_speech_chunks("hi there, you.", 0);
    assert_eq!(chunks, vec!["hi there,", "you"]);
}

#[test]
fn a_text_without_sentences_is_packed_word_by_word() {
    assert_eq!(split_text_into_speech_chunks("...", 3), vec!["..."]);
    assert_eq!(split_text_into_speech_chunks(" ?! .. ! ", 2), vec!["?! ..", "!"]);
    assert_eq!(split_text_into_speech_chunks(" ?! .. ! ", 0), vec!["?!", "..", "!"]);
}

#[test]
fn a_text_without_a_sentence_mark_is_packed_word_by_word() {
    assert_eq!(split_text_into_speech_chunks("a b c d e f", 2), vec!["a b", "c d", "e f"]);
    assert_eq!(split_text_into_speech_chunks("a b c d e", 2), vec!["a b", "c d", "e"]);
    assert_eq!(split_text_into_speech_chunks("  one,  two; three\tfour ", 3), vec!["one, two; three", "four"]);
    assert_eq!(split_text_into_speech_chunks("hello there", 5), vec!["hello there"]);
    assert_eq!(split_text_into_speech_chunks("a b c", 0), vec!["a", "b", "c"]);
    assert_eq!(engine().split_text_into_speech_chunks("a b c d e f", 4), vec!["a b c d", "e f"]);
}

#[test]
fn an_empty_or_blank_text_gives_no_chunk() {
    assert!(split_text_into_speech_chunks("", 3).is_empty());
    assert!(split_text_into_speech_chunks(" \t\n ", 3).is_empty());
}

#[test]
fn speech_chunks_are_never_empty() {
    let texts = ["a. b. c.", "x,, y;; z::", " . , . ; ", "one two three four five six seven", "p q, r s t: u!"];
    for text in texts {
        for max in 0..4 {
            for chunk in split_text_into_speech_chunks(text, max) {
                assert!(!chunk.is_empty());
            }
        }
    }
}

#[test]
fn unicode_white_space_separates_words() {
    let chunks = split_text_into_speech_chunks("a\u{a0}b\u{3000}c, d\u{2003}e.", 3);
    assert_eq!(chunks, vec!["a\u{a0}b\u{3000}c,", "d\u{2003}e"]);
}

fn ink(text: &str) -> String {
    text.chars().filter(|c| !c.is_whitespace() && !",;:.!?".contains(*c)).collect()
}

#[test]
fn speech_chunks_hold_the_characters_of_the_text_in_order() {
    let texts = [
        "Hello world. This is a test!",
        "one two three, four five six; seven eight: nine ten.",
        "a,,b c d. e f ,g: h?",
        "no marks at all in this text",
        " ... ?! ",
        "",
    ];
    for text in texts {
        for max in 0..6 {
            let chunks = split_text_into_speech_chunks(text, max);
            assert_eq!(ink(&chunks.concat()), ink(text), "{:?} with {}", text, max);
        }
    }
}

#[test]
fn speech_chunks_keep_to_the_limit_or_are_a_single_clause_or_word() {
    let texts = [
        "Hello world. This is a test!",
        "one two three, four five six; seven eight: nine ten.",
        "a b c d e f g, h i. j k l m n o p q r",
        "no marks at all in this text",
    ];
    for text in texts {
        for max in 0..6 {
            for chunk in split_text_into_speech_chunks(text, max) {
                let count = chunk.split_whitespace().count();
                let inner = &chunk[..chunk.len() - 1];
                let one_clause = !inner.contains([',', ';', ':']);
                assert!(count <= max || count == 1 || one_clause, "{:?} in {:?}", chunk, text);
            }
        }
    }
}

#[test]
fn a_text_without_a_sentence_mark_keeps_its_words() {
    let text = "  no marks,  at all; in this text ";
    let expected: Vec<&str> = text.split_whitespace().collect();
    for max in 0..8 {
        let chunks = split_text_into_speech_chunks(text, max);
        let words: Vec<&str> = chunks.iter().flat_map(|c| c.split_whitespace()).collect();
        assert_eq!(words, expected);
        assert!(chunks.iter().all(|c| c.split_whitespace().count() <= max.max(1)));
    }
}
