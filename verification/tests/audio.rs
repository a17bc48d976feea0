use kokoros::model::flatten;
use kokoros::pool::InstancePool;
use kokoros::tts::synth::TtsError;
use kokoros::tts::wav::{wav_frames, wav_layout};

#[test]
fn one_channel_carries_the_audio_as_it_is() {
    let audio: Vec<f32> = vec![0.5, -0.25, 1.0];
    assert_eq!(wav_frames(&audio, true), audio);
    let layout = wav_layout(24000, true);
    assert_eq!((layout.channels, layout.sample_rate, layout.bits_per_sample), (1, 24000, 32));
}

#[test]
fn two_channels_carry_each_sample_twice() {
    let audio: Vec<f32> = vec![0.5, -0.25, 1.0];
    assert_eq!(wav_frames(&audio, false), vec![0.5, 0.5, -0.25, -0.25, 1.0, 1.0]);
    assert!(wav_frames(&Vec::<f32>::new(), false).is_empty());
    let layout = wav_layout(22050, false);
    assert_eq!((layout.channels, layout.sample_rate, layout.bits_per_sample), (2, 22050, 32));
}

#[test]
fn a_batch_is_laid_out_row_after_row() {
    let flat = flatten(&vec![vec![0i64, 43, 44, 0]]).unwrap();
    assert_eq!((flat.rows, flat.columns), (1, 4));
    assert_eq!(flat.values, vec![0, 43, 44, 0]);
    let flat = flatten(&vec![vec![1.5f32, 2.5], vec![3.5, 4.5], vec![5.5, 6.5]]).unwrap();
    assert_eq!((flat.rows, flat.columns), (3, 2));
    assert_eq!(flat.values, vec![1.5, 2.5, 3.5, 4.5, 5.5, 6.5]);
}

#[test]
fn a_batch_that_does_not_fill_its_shape_is_refused() {
    assert!(flatten(&vec![vec![1i64, 2], vec![3]]).is_none());
    assert!(flatten(&vec![vec![1i64], vec![2, 3]]).is_none());
    let flat = flatten(&vec![vec![1i64, 2], vec![3], vec![4, 5, 6]]).unwrap();
    assert_eq!((flat.rows, flat.columns), (3, 2));
    assert_eq!(flat.values, vec![1, 2, 3, 4, 5, 6]);
    let flat = flatten(&vec![Vec::<i64>::new(), Vec::new()]).unwrap();
    assert_eq!((flat.rows, flat.columns), (2, 0));
}

#[test]
fn requests_are_assigned_in_turn() {
    assert!(InstancePool::<String>::new(Vec::new()).is_none());
    let engines = vec!["first".to_string(), "second".to_string(), "third".to_string()];
    let mut pool = InstancePool::new(engines.clone()).unwrap();
    assert_eq!(pool.size(), 3);
    let served: Vec<usize> = (0..8).map(|_| pool.assign()).collect();
    assert_eq!(served, vec![0, 1, 2, 0, 1, 2, 0, 1]);
    assert_eq!(pool.instance(served[4]), "second");
    let mut again = InstancePool::new(engines).unwrap();
    let repeated: Vec<usize> = (0..8).map(|_| again.assign()).collect();
    assert_eq!(served, repeated);
    let mut single = InstancePool::new(vec![7u8]).unwrap();
    assert_eq!((single.assign(), single.assign()), (0, 0));
    assert_eq!(*single.instance(0), 7);
}

#[test]
fn failures_have_their_messages() {
    assert_eq!(
        TtsError::VoiceNotFound("zzz".to_string()).message(),
        "can not found from styles_map: zzz"
    );
    let failure = TtsError::Inference { chunk: "Hi.".to_string(), message: "boom".to_string() };
    assert_eq!(failure.message(), "Chunk processing failed: boom");
    let failure = TtsError::Phonemization { chunk: "Hi.".to_string(), message: "no voice".to_string() };
    assert_eq!(failure.message(), "no voice");
    assert_eq!(TtsError::Sink("broken pipe".to_string()).message(), "broken pipe");
}
