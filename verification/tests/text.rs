use kokoros::tts::text::{
    blank, chars_of, split_at_marks, split_words, string_of, trimmed, whitespace,
};
use kokoros::tts::vocab::{symbol, token_id, SYMBOLS, SYMBOL_COUNT};

fn chars(text: &str) -> Vec<char> {
    text.chars().collect()
}

fn texts(parts: Vec<Vec<char>>) -> Vec<String> {
    parts.iter().map(|p| p.iter().collect()).collect()
}

#[test]
fn white_space_is_what_the_characters_say_of_themselves() {
    for code in 0..=0x10ffffu32 {
        if let Some(c) = char::from_u32(code) {
            assert_eq!(whitespace(c), c.is_whitespace(), "U+{:04X}", code);
        }
    }
}

#[test]
fn strings_and_characters_convert_both_ways() {
    let text = "heɪ ðɪs ɪz ˈlʌvliː! 日本";
    assert_eq!(chars_of(text), chars(text));
    assert_eq!(string_of(&chars(text)), text);
    assert!(chars_of("").is_empty());
}

#[test]
fn trimming_removes_white_space_at_both_ends_only() {
    for text in ["", " ", "a", "  a b  ", "\t\u{a0}x\u{3000}y \n", " . ", "\u{2003}"] {
        let got: String = trimmed(&chars(text)).iter().collect();
        assert_eq!(got, text.trim());
        assert_eq!(blank(&chars(text)), text.trim().is_empty());
    }
}

#[test]
fn words_are_the_runs_between_white_space() {
    for text in ["", "  ", "one", " one  two\tthree\n", "a\u{a0}b", "x. y, z!", "  lead", "trail  "] {
        let expected: Vec<String> = text.split_whitespace().map(|w| w.to_string()).collect();
        assert_eq!(texts(split_words(&chars(text))), expected);
    }
}

#[test]
fn a_text_is_cut_at_every_mark() {
    let marks = vec!['.', '!', '?'];
    for text in ["", "a", "a.b", ".a.", "a..b", "?!", "no marks here", "end."] {
        let expected: Vec<String> =
            text.split(|c| c == '.' || c == '!' || c == '?').map(|p| p.to_string()).collect();
        assert_eq!(texts(split_at_marks(&chars(text), &marks)), expected);
    }
}

#[test]
fn the_alphabet_has_its_number_of_symbols() {
    assert_eq!(SYMBOLS.chars().count(), SYMBOL_COUNT);
    assert_eq!(SYMBOL_COUNT, 178);
}

#[test]
fn every_symbol_has_the_id_of_its_last_position() {
    let symbols: Vec<char> = SYMBOLS.chars().collect();
    for (i, c) in symbols.iter().enumerate() {
        let last = symbols.iter().rposition(|s| s == c).unwrap();
        assert_eq!(token_id(*c), Some(last as i64));
        if last == i {
            assert_eq!(symbol(i as i64), Some(*c));
        } else {
            assert_eq!(symbol(i as i64), None);
        }
    }
    assert_eq!(token_id('$'), Some(0));
    assert_eq!(token_id(' '), Some(16));
    assert_eq!(token_id('N'), Some(30));
    assert_eq!(token_id('1'), None);
    assert_eq!(symbol(-1), None);
    assert_eq!(symbol(178), None);
    assert_eq!(symbol(i64::MAX), None);
    assert_eq!(symbol(i64::MIN), None);
}
