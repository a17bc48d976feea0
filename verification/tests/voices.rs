use kokoros::tts::koko::TTSKoko;
use kokoros::tts::names::{distinct, name_le, sorted_names};

fn owned(names: &[&str]) -> Vec<String> {
    names.iter().map(|n| n.to_string()).collect()
}

#[test]
fn the_available_voices_come_in_ascending_order() {
    let tts = TTSKoko::new("model.onnx", owned(&["bm_george", "af_sky", "af", "am_adam", "af_bella"])).unwrap();
    assert_eq!(
        tts.get_available_voices(),
        vec!["af", "af_bella", "af_sky", "am_adam", "bm_george"]
    );
    assert_eq!(tts.voice_count(), 5);
}

#[test]
fn sorting_keeps_every_name_as_often_as_it_is_given() {
    let given = owned(&["b", "a", "b", "", "ab", "a"]);
    assert_eq!(sorted_names(&given), vec!["", "a", "a", "ab", "b", "b"]);
    assert!(sorted_names(&Vec::new()).is_empty());
}

#[test]
fn names_are_ordered_as_strings_are() {
    let names = ["", "a", "ab", "b", "B", "é", "z", "日本", "a\u{10000}", "aé"];
    for a in names {
        for b in names {
            assert_eq!(name_le(&a.to_string(), &b.to_string()), a <= b);
        }
    }
    let mut sorted = owned(&names);
    sorted.sort();
    assert_eq!(sorted_names(&owned(&names)), sorted);
}

#[test]
fn a_name_given_twice_is_found_out() {
    assert!(distinct(&owned(&[])));
    assert!(distinct(&owned(&["a", "b", "ab", ""])));
    assert!(!distinct(&owned(&["a", "b", "a"])));
    assert!(!distinct(&owned(&["", "x", ""])));
}

#[test]
fn the_available_voices_are_each_named_once() {
    let names = owned(&["b", "c", "a", "ab"]);
    let tts = TTSKoko::new("model.onnx", names).unwrap();
    let listed = tts.get_available_voices();
    assert_eq!(listed, vec!["a", "ab", "b", "c"]);
    assert!(listed.windows(2).all(|w| w[0] < w[1]));
    assert_eq!(listed.len(), tts.voice_count());
}
