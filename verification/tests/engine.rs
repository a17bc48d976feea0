use kokoros::tts::koko::{InitConfig, TTSKoko, TTSOpts};
use kokoros::tts::style::StyleTerm;
use kokoros::tts::synth::{ChunkInput, Diagnostics, TtsError};
use kokoros::tts::wav::WavLayout;
use std::cell::RefCell;

fn engine() -> TTSKoko {
    TTSKoko::new("model.onnx", vec!["af_sarah".to_string(), "af_nicole".to_string()]).unwrap()
}

// Each character of the text becomes 26 phonemes, so that a chunk of a few
// words fills most of the budget.
fn wide(text: &str, _lan: &str) -> Result<String, String> {
    Ok(text.chars().map(|_| "abcdefghijklmnopqrstuvwxyz").collect())
}

fn plain(text: &str, _lan: &str) -> Result<String, String> {
    Ok(text.to_string())
}

// One sample per token: the token id times the speed.
fn echo(input: ChunkInput, speed: f32, _note: Diagnostics) -> Result<Vec<f32>, String> {
    Ok(input.tokens[0].iter().map(|t| *t as f32 * speed).collect())
}

// A handler that keeps what it is given.
fn keep(mut got: Vec<Vec<f32>>, audio: Vec<f32>) -> Result<Vec<Vec<f32>>, String> {
    got.push(audio);
    Ok(got)
}

fn tokens_of_wide(t: &str) -> usize {
    kokoros::tts::tokenize::tokenize(&wide(t, "en").unwrap()).len()
}

#[test]
fn the_default_configuration_names_the_files_and_the_rate() {
    let cfg = InitConfig::default();
    assert_eq!(
        cfg.model_url,
        "https://github.com/thewh1teagle/kokoro-onnx/releases/download/model-files-v1.0/kokoro-v1.0.onnx"
    );
    assert_eq!(
        cfg.voices_url,
        "https://github.com/thewh1teagle/kokoro-onnx/releases/download/model-files-v1.0/voices-v1.0.bin"
    );
    assert_eq!(cfg.sample_rate, 24000);
    assert_eq!(engine().sample_rate(), 24000);
    let custom = InitConfig { sample_rate: 22050, ..InitConfig::default() };
    assert_eq!(TTSKoko::from_config("m", Vec::new(), custom).unwrap().sample_rate(), 22050);
}

#[test]
fn an_engine_holds_no_name_twice() {
    let twice = vec!["a".to_string(), "b".to_string(), "a".to_string()];
    assert!(TTSKoko::new("model.onnx", twice.clone()).is_none());
    assert!(TTSKoko::from_config("model.onnx", twice, InitConfig::default()).is_none());
    assert!(TTSKoko::new("model.onnx", vec!["a".to_string(), "b".to_string()]).is_some());
    assert!(TTSKoko::new("model.onnx", Vec::new()).is_some());
    let copy = engine().clone();
    assert_eq!(copy.get_available_voices(), engine().get_available_voices());
    assert_eq!(copy.sample_rate(), 24000);
}

#[test]
fn a_chunk_is_framed_by_pad_tokens_after_the_silence() {
    let input = engine().prepare("ab!", "af_nicole", Some(2)).unwrap();
    assert_eq!(input.tokens, vec![vec![0, 30, 30, 43, 44, 5, 0]]);
    assert_eq!(input.style.row, 5);
    assert!(input.style.direct);
    assert_eq!(input.style.terms, vec![StyleTerm { voice: 1, tenths: 10 }]);
}

#[test]
fn a_chunk_without_silence_or_phonemes_is_two_pad_tokens() {
    let input = engine().prepare("", "af_sarah.5+af_nicole.5", None).unwrap();
    assert_eq!(input.tokens, vec![vec![0, 0]]);
    assert_eq!(input.style.row, 0);
    assert!(!input.style.direct);
}

#[test]
fn the_style_row_is_held_to_the_table_for_long_chunks() {
    let phonemes: String = std::iter::repeat('a').take(600).collect();
    let input = engine().prepare(&phonemes, "af_sarah", Some(10)).unwrap();
    assert_eq!(input.tokens[0].len(), 612);
    assert_eq!(input.style.row, 510);
}

#[test]
fn an_unknown_voice_fails_the_chunk() {
    match engine().prepare("ab", "nobody", None) {
        Err(TtsError::VoiceNotFound(name)) => assert_eq!(name, "nobody"),
        other => panic!("unexpected: {:?}", other),
    }
}

#[test]
fn two_sentences_give_the_audio_of_both_chunks() {
    let tts = engine();
    let text = "Hello world. This is a test!";
    let chunks = tts.split_text_into_chunks(text, 500, tokens_of_wide);
    assert_eq!(chunks, vec!["Hello world.", "This is a test."]);
    assert_eq!(tts.chunks_for(text, &wide), chunks);
    let first = tts.prepare(&wide(&chunks[0], "en-us").unwrap(), "af_sarah", None).unwrap();
    let second = tts.prepare(&wide(&chunks[1], "en-us").unwrap(), "af_sarah", None).unwrap();
    let first_len = first.tokens[0].len();
    let second_len = second.tokens[0].len();
    assert_eq!(first_len, 12 * 26 + 2);
    assert_eq!(second_len, 15 * 26 + 2);
    let audio = tts
        .tts_raw_audio(text, "en-us", "af_sarah", 1.0, None, None, None, None, wide, echo)
        .unwrap();
    assert!(first_len > 0 && second_len > 0);
    assert_eq!(audio.len(), first_len + second_len);
    assert_eq!(audio[0], 0.0);
    assert_eq!(audio[1], 43.0);
}

#[test]
fn every_chunk_of_a_request_fits_the_budget_with_its_padding() {
    let tts = engine();
    let text = "Alpha beta gamma delta epsilon zeta. Eta theta iota kappa. Lambda mu nu.";
    let lens: RefCell<Vec<usize>> = RefCell::new(Vec::new());
    let infer = |input: ChunkInput, speed: f32, note: Diagnostics| {
        lens.borrow_mut().push(input.tokens[0].len());
        echo(input, speed, note)
    };
    tts.tts_raw_audio(text, "en", "af_sarah", 1.0, None, None, None, None, wide, infer).unwrap();
    assert_eq!(*lens.borrow(), vec![418, 496, 366, 158, 340]);
    assert!(lens.borrow().iter().all(|n| *n <= 500));
}

#[test]
fn short_sentences_are_spoken_as_one_chunk() {
    let tts = engine();
    let text = "Hello world. This is a test!";
    let audio = tts
        .tts_raw_audio(text, "en-us", "af_sarah", 2.0, Some(1), None, None, None, plain, echo)
        .unwrap();
    let expected: Vec<f32> = tts
        .prepare("Hello world. This is a test.", "af_sarah", Some(1))
        .unwrap()
        .tokens[0]
        .iter()
        .map(|t| *t as f32 * 2.0)
        .collect();
    assert_eq!(audio, expected);
    assert_eq!(audio[1], 60.0);
}

#[test]
fn a_text_without_sentences_gives_no_audio() {
    let audio = engine()
        .tts_raw_audio(" .. ", "en-us", "nobody", 1.0, None, None, None, None, plain, echo)
        .unwrap();
    assert!(audio.is_empty());
    let got = engine()
        .tts_raw_audio_streaming(
            " .. ", "en-us", "nobody", 1.0, None, None, None, None, plain, echo, vec![vec![1.0]],
            keep,
        )
        .unwrap();
    assert_eq!(got, vec![vec![1.0]]);
}

#[test]
fn the_inference_is_told_of_the_request_and_the_chunk() {
    let tts = engine();
    let notes: RefCell<Vec<Diagnostics>> = RefCell::new(Vec::new());
    let infer = |input: ChunkInput, speed: f32, note: Diagnostics| {
        let audio = echo(input, speed, Diagnostics {
            request_id: None,
            instance_id: None,
            chunk_number: None,
            text: String::new(),
            phonemes: String::new(),
        });
        notes.borrow_mut().push(note);
        audio
    };
    let text = "Alpha beta gamma. Delta epsilon eta.";
    tts.tts_raw_audio(text, "en-us", "af_sarah", 1.0, None, Some("req-7"), Some("01"), Some(3), wide, infer)
        .unwrap();
    let notes = notes.borrow();
    assert_eq!(notes.len(), 2);
    assert_eq!(notes[0].request_id.as_deref(), Some("req-7"));
    assert_eq!(notes[0].instance_id.as_deref(), Some("01"));
    assert_eq!(notes[0].chunk_number, Some(3));
    assert_eq!(notes[0].text, "Alpha beta gamma.");
    assert_eq!(notes[0].phonemes, wide("Alpha beta gamma.", "en-us").unwrap());
    assert_eq!(notes[1].text, "Delta epsilon eta.");
    assert_eq!(notes[1].request_id.as_deref(), Some("req-7"));
}

#[test]
fn the_chunk_handler_is_called_in_the_order_of_the_chunks() {
    let tts = engine();
    let text = "Alpha beta gamma. Delta epsilon eta. Iota kappa mu.";
    let chunks = tts.split_text_into_chunks(text, 500, tokens_of_wide);
    assert_eq!(chunks, vec!["Alpha beta gamma.", "Delta epsilon eta.", "Iota kappa mu."]);
    let expected: Vec<Vec<f32>> = chunks
        .iter()
        .map(|c| {
            let input = tts.prepare(&wide(c, "en-gb").unwrap(), "af_sarah", None).unwrap();
            input.tokens[0].iter().map(|t| *t as f32).collect()
        })
        .collect();
    let seen: RefCell<Vec<String>> = RefCell::new(Vec::new());
    let heard: RefCell<usize> = RefCell::new(0);
    let phonemize = |t: &str, lan: &str| {
        if lan == "en-gb" {
            // A chunk is begun only when the one before it was handed over.
            assert_eq!(seen.borrow().len(), *heard.borrow());
            seen.borrow_mut().push(t.to_string());
        }
        wide(t, lan)
    };
    let deliver = |got: Vec<Vec<f32>>, audio: Vec<f32>| {
        *heard.borrow_mut() += 1;
        assert_eq!(seen.borrow().len(), *heard.borrow());
        keep(got, audio)
    };
    let got = tts
        .tts_raw_audio_streaming(
            text, "en-gb", "af_sarah", 1.0, None, None, None, None, phonemize, echo, Vec::new(),
            deliver,
        )
        .unwrap();
    assert_eq!(*seen.borrow(), chunks);
    assert_eq!(got, expected);
    assert_eq!(got.iter().map(|a| a.len()).collect::<Vec<_>>(), vec![444, 470, 366]);
}

#[test]
fn a_failing_inference_ends_the_request_with_the_chunk() {
    let tts = engine();
    let text = "Alpha beta gamma. Delta epsilon eta. Iota kappa mu.";
    let calls: RefCell<usize> = RefCell::new(0);
    let infer = |input: ChunkInput, speed: f32, note: Diagnostics| {
        *calls.borrow_mut() += 1;
        if *calls.borrow() == 2 {
            Err("out of memory".to_string())
        } else {
            echo(input, speed, note)
        }
    };
    match tts.tts_raw_audio(text, "en-us", "af_sarah", 1.0, None, None, None, None, wide, infer) {
        Err(TtsError::Inference { chunk, message }) => {
            assert_eq!(chunk, "Delta epsilon eta.");
            assert_eq!(message, "out of memory");
        }
        other => panic!("unexpected: {:?}", other),
    }
    assert_eq!(*calls.borrow(), 2);
}

#[test]
fn a_failing_phonemizer_ends_the_request() {
    let tts = engine();
    let phonemize = |t: &str, lan: &str| {
        if lan == "xx" {
            Err(format!("Failed to set voice: `{}`", lan))
        } else {
            plain(t, lan)
        }
    };
    match tts.tts_raw_audio("Hello there.", "xx", "af_sarah", 1.0, None, None, None, None, phonemize, echo)
    {
        Err(TtsError::Phonemization { chunk, message }) => {
            assert_eq!(chunk, "Hello there.");
            assert_eq!(message, "Failed to set voice: `xx`");
        }
        other => panic!("unexpected: {:?}", other),
    }
}

#[test]
fn a_failing_phonemizer_counts_no_tokens_for_the_chunker() {
    let tts = engine();
    let phonemize = |t: &str, lan: &str| {
        if lan == "en" {
            Err("no voice".to_string())
        } else {
            wide(t, lan)
        }
    };
    let text = "Alpha beta gamma delta. Epsilon zeta eta theta.";
    let got = tts
        .tts_raw_audio_streaming(
            text, "de", "af_sarah", 1.0, None, None, None, None, phonemize, echo, Vec::new(), keep,
        )
        .unwrap();
    assert_eq!(got.iter().map(|a| a.len()).collect::<Vec<_>>(), vec![47 * 26 + 2]);
}

#[test]
fn an_unknown_voice_ends_the_request() {
    match engine()
        .tts_raw_audio("Hello.", "en-us", "nobody", 1.0, None, None, None, None, plain, echo)
    {
        Err(TtsError::VoiceNotFound(name)) => assert_eq!(name, "nobody"),
        other => panic!("unexpected: {:?}", other),
    }
}

#[test]
fn a_failing_handler_ends_the_stream() {
    let tts = engine();
    let text = "Alpha beta gamma. Delta epsilon eta. Iota kappa mu.";
    let inferred: RefCell<usize> = RefCell::new(0);
    let infer = |input: ChunkInput, speed: f32, note: Diagnostics| {
        *inferred.borrow_mut() += 1;
        echo(input, speed, note)
    };
    let deliver = |heard: usize, _audio: Vec<f32>| {
        if heard == 1 {
            Err("broken pipe".to_string())
        } else {
            Ok(heard + 1)
        }
    };
    match tts.tts_raw_audio_streaming(
        text, "en-us", "af_sarah", 1.0, None, None, None, None, wide, infer, 0usize, deliver,
    ) {
        Err(TtsError::Sink(message)) => assert_eq!(message, "broken pipe"),
        other => panic!("unexpected: {:?}", other),
    }
    assert_eq!(*inferred.borrow(), 2);
}

fn opts<'a>(txt: &'a str, style_name: &'a str, mono: bool) -> TTSOpts<'a, f32> {
    TTSOpts {
        txt,
        lan: "en-us",
        style_name,
        save_path: "tmp/output.wav",
        mono,
        speed: 1.0,
        initial_silence: None,
    }
}

#[test]
fn the_audio_is_written_with_one_channel() {
    let tts = engine();
    let written: RefCell<Vec<(String, WavLayout, Vec<f32>)>> = RefCell::new(Vec::new());
    let write = |path: &str, layout: WavLayout, samples: Vec<f32>| {
        written.borrow_mut().push((path.to_string(), layout, samples));
        Ok(())
    };
    tts.tts(opts("ab.", "af_sarah", true), plain, echo, write).unwrap();
    let written = written.borrow();
    assert_eq!(written.len(), 1);
    assert_eq!(written[0].0, "tmp/output.wav");
    assert_eq!(written[0].1, WavLayout { channels: 1, sample_rate: 24000, bits_per_sample: 32 });
    assert_eq!(written[0].2, vec![0.0, 43.0, 44.0, 4.0, 0.0]);
}

#[test]
fn the_audio_is_written_twice_over_with_two_channels() {
    let tts = engine();
    let written: RefCell<Vec<(WavLayout, Vec<f32>)>> = RefCell::new(Vec::new());
    let write = |_path: &str, layout: WavLayout, samples: Vec<f32>| {
        written.borrow_mut().push((layout, samples));
        Ok(())
    };
    tts.tts(opts("ab.", "af_sarah", false), plain, echo, write).unwrap();
    let written = written.borrow();
    assert_eq!(written[0].0, WavLayout { channels: 2, sample_rate: 24000, bits_per_sample: 32 });
    assert_eq!(written[0].1, vec![0.0, 0.0, 43.0, 43.0, 44.0, 44.0, 4.0, 4.0, 0.0, 0.0]);
}

#[test]
fn nothing_is_written_where_the_request_fails() {
    let tts = engine();
    let written: RefCell<usize> = RefCell::new(0);
    let write = |_path: &str, _layout: WavLayout, _samples: Vec<f32>| {
        *written.borrow_mut() += 1;
        Ok(())
    };
    let outcome = tts.tts(opts("ab.", "nobody", true), plain, echo, write);
    assert!(matches!(outcome, Err(TtsError::VoiceNotFound(_))));
    assert_eq!(*written.borrow(), 0);
}

#[test]
fn a_failing_writer_fails_the_request() {
    let write = |_path: &str, _layout: WavLayout, _samples: Vec<f32>| Err("disk full".to_string());
    match engine().tts(opts("ab.", "af_sarah", true), plain, echo, write) {
        Err(TtsError::Sink(message)) => assert_eq!(message, "disk full"),
        other => panic!("unexpected: {:?}", other),
    }
}
