use kokoros::tts::koko::TTSKoko;
use kokoros::tts::style::{resolve_style, row_for, StyleTerm};
use kokoros::tts::synth::TtsError;

fn names() -> Vec<String> {
    vec!["a".to_string(), "b".to_string(), "af_sarah".to_string(), "af_nicole".to_string()]
}

#[test]
fn a_single_voice_is_taken_as_it_is() {
    let mix = resolve_style(&names(), "af_sarah", 7).unwrap();
    assert!(mix.direct);
    assert_eq!(mix.row, 7);
    assert_eq!(mix.terms, vec![StyleTerm { voice: 2, tenths: 10 }]);
}

#[test]
fn an_unknown_single_voice_is_not_found() {
    assert!(resolve_style(&names(), "zzz", 7).is_none());
    let tts = TTSKoko::new("model.onnx", names()).unwrap();
    match tts.mix_styles("zzz", 7) {
        Err(TtsError::VoiceNotFound(name)) => assert_eq!(name, "zzz"),
        other => panic!("unexpected: {:?}", other),
    }
}

#[test]
fn a_blend_lists_its_voices_with_their_weights() {
    let tts = TTSKoko::new("model.onnx", names()).unwrap();
    let mix = tts.mix_styles("a.5+b.5", 3).unwrap();
    assert!(!mix.direct);
    assert_eq!(mix.row, 3);
    assert_eq!(
        mix.terms,
        vec![StyleTerm { voice: 0, tenths: 5 }, StyleTerm { voice: 1, tenths: 5 }]
    );
    let mix = tts.mix_styles("af_sarah.4+af_nicole.6", 3).unwrap();
    assert_eq!(
        mix.terms,
        vec![StyleTerm { voice: 2, tenths: 4 }, StyleTerm { voice: 3, tenths: 6 }]
    );
}

#[test]
fn an_unknown_voice_in_a_blend_adds_nothing() {
    let mix = resolve_style(&names(), "a.5+zzz.5", 3).unwrap();
    assert!(!mix.direct);
    assert_eq!(mix.terms, vec![StyleTerm { voice: 0, tenths: 5 }]);
    let mix = resolve_style(&names(), "zzz.5+yyy.5", 3).unwrap();
    assert!(mix.terms.is_empty());
}

#[test]
fn a_term_of_another_form_adds_nothing() {
    let mix = resolve_style(&names(), "a+b.x+a.55+b.+.5+a.5.5+b.3", 0).unwrap();
    assert_eq!(mix.terms, vec![StyleTerm { voice: 1, tenths: 3 }]);
}

#[test]
fn weights_are_not_brought_to_a_sum_of_ten() {
    let mix = resolve_style(&names(), "a.9+b.9+a.0", 0).unwrap();
    assert_eq!(
        mix.terms,
        vec![
            StyleTerm { voice: 0, tenths: 9 },
            StyleTerm { voice: 1, tenths: 9 },
            StyleTerm { voice: 0, tenths: 0 }
        ]
    );
}

#[test]
fn the_row_is_the_token_count_held_to_the_table() {
    assert_eq!(row_for(0), 0);
    assert_eq!(row_for(42), 42);
    assert_eq!(row_for(510), 510);
    assert_eq!(row_for(511), 510);
    assert_eq!(row_for(usize::MAX), 510);
    assert_eq!(resolve_style(&names(), "a", 9000).unwrap().row, 510);
}

#[test]
fn the_first_of_two_voices_with_one_name_is_taken() {
    let twice = vec!["x".to_string(), "y".to_string(), "x".to_string()];
    let mix = resolve_style(&twice, "x", 1).unwrap();
    assert_eq!(mix.terms, vec![StyleTerm { voice: 0, tenths: 10 }]);
}

// The vector that a resolved style stands for, over tables of two values a row.
fn vector(tables: &[Vec<[f32; 2]>], style: &str, tokens_len: usize) -> Option<Vec<f32>> {
    let mix = resolve_style(&names(), style, tokens_len)?;
    if mix.direct {
        return Some(tables[mix.terms[0].voice][mix.row].to_vec());
    }
    let mut sum = vec![0.0f32; 2];
    for term in &mix.terms {
        for j in 0..2 {
            sum[j] += tables[term.voice][mix.row][j] * (f32::from(term.tenths) * 0.1);
        }
    }
    Some(sum)
}

fn tables() -> Vec<Vec<[f32; 2]>> {
    (0..4)
        .map(|voice| (0..511).map(|row| [voice as f32 + 1.0, row as f32 * 0.5]).collect())
        .collect()
}

#[test]
fn a_blend_is_the_weighted_sum_of_its_voices() {
    let tables = tables();
    for n in [0usize, 7, 510] {
        let blend = vector(&tables, "a.5+b.5", n).unwrap();
        for j in 0..2 {
            let expected = 0.5 * tables[0][n][j] + 0.5 * tables[1][n][j];
            assert!((blend[j] - expected).abs() < 1e-4);
        }
    }
}

#[test]
fn an_unknown_voice_leaves_the_rest_of_the_blend() {
    let tables = tables();
    let blend = vector(&tables, "a.5+zzz.5", 7).unwrap();
    for j in 0..2 {
        assert!((blend[j] - 0.5 * tables[0][7][j]).abs() < 1e-4);
    }
    assert_eq!(vector(&tables, "zzz.5+yyy.5", 7).unwrap(), vec![0.0, 0.0]);
}

#[test]
fn a_single_voice_gives_its_row_unchanged() {
    let tables = tables();
    assert_eq!(vector(&tables, "b", 7).unwrap(), tables[1][7].to_vec());
    assert_eq!(vector(&tables, "b", 4000).unwrap(), tables[1][510].to_vec());
    assert!(vector(&tables, "zzz", 7).is_none());
}
