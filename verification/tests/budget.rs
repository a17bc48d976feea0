use kokoros::tts::budget::split_text_into_chunks;
use kokoros::tts::koko::TTSKoko;

fn letters(text: &str) -> usize {
    text.chars().count()
}

fn words_of(chunks: &[String]) -> Vec<String> {
    chunks
        .iter()
        .flat_map(|c| c.split_whitespace().map(|w| w.to_string()))
        .collect()
}

#[test]
fn sentences_are_gathered_while_they_fit() {
    let chunks = split_text_into_chunks("Hello world. This is a test!", 500, letters);
    assert_eq!(chunks, vec!["Hello world. This is a test."]);
}

#[test]
fn a_sentence_that_does_not_fit_opens_a_new_chunk() {
    let chunks = split_text_into_chunks("Hello world. This is a test!", 17, letters);
    assert_eq!(chunks, vec!["Hello world.", "This is a test."]);
}

#[test]
fn a_sentence_over_the_budget_is_packed_word_by_word() {
    let chunks = split_text_into_chunks("Hello world. This is a test!", 10, letters);
    assert_eq!(chunks, vec!["Hello", "world.", "This is", "a test."]);
}

#[test]
fn a_word_over_the_budget_stands_alone() {
    let chunks = split_text_into_chunks("a extraordinarily b", 7, letters);
    assert_eq!(chunks, vec!["a", "extraordinarily", "b."]);
}

#[test]
fn semicolons_end_sentences_and_blank_parts_are_dropped() {
    let chunks = split_text_into_chunks(" one ; ; two ?! three ", 6, letters);
    assert_eq!(chunks, vec!["one.", "two.", "three."]);
}

#[test]
fn chunks_keep_the_order_of_the_text() {
    let text = "A b. Cccccccccccc dddddddddddd. E f.";
    let chunks = split_text_into_chunks(text, 6, letters);
    assert_eq!(chunks, vec!["A b.", "Cccccccccccc", "dddddddddddd.", "E f."]);
}

#[test]
fn the_same_input_gives_the_same_chunks() {
    let text = "One two three. Four five six seven eight nine ten! Eleven; twelve?";
    for max in [0, 3, 7, 12, 20, 500] {
        let first = split_text_into_chunks(text, max, letters);
        let second = split_text_into_chunks(text, max, letters);
        assert_eq!(first, second);
    }
}

#[test]
fn every_word_of_the_sentences_is_kept_in_order() {
    let text = "One two three. Four five six seven eight nine ten! Eleven; twelve?";
    let expected: Vec<String> = [
        "One", "two", "three.", "Four", "five", "six", "seven", "eight", "nine", "ten.",
        "Eleven.", "twelve.",
    ]
    .iter()
    .map(|w| w.to_string())
    .collect();
    for max in [0, 3, 7, 12, 20, 500] {
        let chunks = split_text_into_chunks(text, max, letters);
        assert_eq!(words_of(&chunks), expected);
    }
}

#[test]
fn every_chunk_fits_the_budget_or_is_a_single_word() {
    let text = "One two three. Four five six seven eight nine ten! Eleven; twelve?";
    for max in [0, 3, 7, 12, 20, 500] {
        for chunk in split_text_into_chunks(text, max, letters) {
            assert!(letters(&chunk) + 2 <= max || chunk.split_whitespace().count() == 1);
            assert!(!chunk.is_empty());
        }
    }
}

#[test]
fn a_text_without_sentences_gives_no_chunk() {
    assert!(split_text_into_chunks("", 10, letters).is_empty());
    assert!(split_text_into_chunks(" .. ;! ? ", 10, letters).is_empty());
}

#[test]
fn the_engine_splits_as_the_chunker_does() {
    let tts = TTSKoko::new("model.onnx", Vec::new()).unwrap();
    let chunks = tts.split_text_into_chunks("Hello world. This is a test!", 17, letters);
    assert_eq!(chunks, vec!["Hello world.", "This is a test."]);
}

#[test]
fn the_two_pad_tokens_count_against_the_budget() {
    // "ab cd." measures 6 tokens: 8 with its pad tokens.
    assert_eq!(split_text_into_chunks("ab cd", 8, letters), vec!["ab cd."]);
    assert_eq!(split_text_into_chunks("ab cd", 7, letters), vec!["ab", "cd."]);
    assert_eq!(split_text_into_chunks("ab cd", 6, letters), vec!["ab", "cd."]);
    // Together the two sentences measure 7 tokens: 9 with the pad tokens.
    assert_eq!(split_text_into_chunks("ab. cd.", 9, letters), vec!["ab. cd."]);
    assert_eq!(split_text_into_chunks("ab. cd.", 8, letters), vec!["ab.", "cd."]);
    assert_eq!(split_text_into_chunks("ab. cd.", 1, letters), vec!["ab.", "cd."]);
}
