//! The layout of the audio that is written to a file: one channel, or two
//! channels that carry the same samples.

use vstd::prelude::*;

verus! {

/// Number of bits in a sample.
pub const BITS_PER_SAMPLE: u16 = 32;

/// The parameters of an audio file.
#[derive(Clone, Copy, Debug, PartialEq, Eq)]
pub struct WavLayout {
    pub channels: u16,
    pub sample_rate: u32,
    pub bits_per_sample: u16,
}

/// The samples as they are written: the audio itself for one channel, and
/// each sample twice in a row for two.
pub open spec fn frames<S>(audio: Seq<S>, mono: bool) -> Seq<S> {
    if mono {
        audio
    } else {
        Seq::new(2 * audio.len(), |i: int| audio[i / 2])
    }
}

/// The layout of a file with the given sample rate, for one channel or two.
pub fn wav_layout(sample_rate: u32, mono: bool) -> (layout: WavLayout)
    ensures
        layout.channels == (if mono {
            1u16
        } else {
            2u16
        }),
        layout.sample_rate == sample_rate,
        layout.bits_per_sample == BITS_PER_SAMPLE,
{
    WavLayout {
        channels: if mono {
            1
        } else {
            2
        },
        sample_rate,
        bits_per_sample: BITS_PER_SAMPLE,
    }
}

/// Lays the audio out for writing: see `frames`.
pub fn wav_frames<S: Copy>(audio: &Vec<S>, mono: bool) -> (out: Vec<S>)
    ensures
        out@ == frames(audio@, mono),
{
    let mut out: Vec<S> = Vec::new();
    let mut i: usize = 0;
    while i < audio.len()
        invariant
            i <= audio.len(),
            out@ == frames(audio@.take(i as int), mono),
        decreases audio.len() - i,
    {
        let sample = audio[i];
        out.push(sample);
        if !mono {
            out.push(sample);
        }
        proof {
            assert(out@ =~= frames(audio@.take(i + 1), mono));
        }
        i += 1;
    }
    proof {
        assert(audio@.take(audio@.len() as int) == audio@);
    }
    out
}

} // verus!
