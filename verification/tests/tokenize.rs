use kokoros::tts::tokenize::{tokenize, tokens_to_phonemes};

#[test]
fn test_tokenize() {
    let text = "heɪ ðɪs ɪz ˈlʌvliː!";
    let tokens = tokenize(text);

    println!("Actual tokens: {:?}", tokens);

    let empty = "";
    let empty_tokens = tokenize(empty);
    assert!(empty_tokens.is_empty());

    let punct = "...";
    let punct_tokens = tokenize(punct);
    assert_eq!(punct_tokens.len(), 3);
}

#[test]
fn test_tokens_to_phonemes() {
    let tokens = vec![
        50, 47, 102, 16, 81, 102, 61, 16, 102, 68, 16, 156, 54, 138, 64, 54, 51, 158, 5,
    ];
    let text = tokens_to_phonemes(&tokens);
    println!("Actual text: {}", text);

    let empty_tokens: Vec<i64> = vec![];
    assert_eq!(tokens_to_phonemes(&empty_tokens), "");
}

#[test]
fn tokenize_gives_the_positions_in_the_alphabet() {
    assert_eq!(
        tokenize("heɪ ðɪs ɪz ˈlʌvliː!"),
        vec![50, 47, 102, 16, 81, 102, 61, 16, 102, 68, 16, 156, 54, 138, 64, 54, 51, 158, 5]
    );
    assert_eq!(tokenize("$"), vec![0]);
    assert_eq!(tokenize("ᵻ"), vec![177]);
}

#[test]
fn tokens_to_phonemes_gives_the_characters() {
    let tokens = vec![
        50, 47, 102, 16, 81, 102, 61, 16, 102, 68, 16, 156, 54, 138, 64, 54, 51, 158, 5,
    ];
    assert_eq!(tokens_to_phonemes(&tokens), "heɪ ðɪs ɪz ˈlʌvliː!");
}

#[test]
fn unknown_characters_and_ids_are_passed_over() {
    assert_eq!(tokenize("a1b"), vec![43, 44]);
    assert_eq!(tokens_to_phonemes(&[43, -1, 178, 44, 1000]), "ab");
}

#[test]
fn a_repeated_symbol_keeps_its_last_position() {
    assert_eq!(tokenize("'"), vec![176]);
    assert_eq!(tokens_to_phonemes(&[174]), "");
    assert_eq!(tokens_to_phonemes(&[176]), "'");
}

#[test]
fn round_trips_drop_only_what_is_unknown() {
    let text = "hɛlˈoʊ, wɜːld! 123";
    let back = tokens_to_phonemes(&tokenize(text));
    assert_eq!(back, "hɛlˈoʊ, wɜːld! ");
    let tokens = vec![0, 30, 174, 5, -7, 177];
    assert_eq!(tokenize(&tokens_to_phonemes(&tokens)), vec![0, 30, 5, 177]);
}
