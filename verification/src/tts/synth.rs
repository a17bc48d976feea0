//! What one request computes: the tokens and the style handed to the
//! inference engine for each chunk, and the audio or the failure that results.
//!
//! The phonemizer, the inference engine and the audio sink are not part of
//! this library. They are handed in as function values, and the functions
//! below say what is computed where those function values compute `ph`, `inf`
//! and `sink`.

use crate::tts::style::{
    blend_terms, is_blend, resolve_style, resolved_terms, style_row, voice_index, StyleMix,
    StyleTerm, STYLE_ROWS,
};
use crate::tts::budget::{over, PADDING};
use crate::tts::text::strings;
use crate::tts::tokenize::{tokenize, tokens_of};
use crate::tts::wav::{frames, WavLayout, BITS_PER_SAMPLE};
use vstd::prelude::*;
use vstd::string::StringExecFns;

verus! {

/// Token id that frames every token sequence, at its start and at its end.
pub const PAD_TOKEN: i64 = 0;

/// Token id of silence.
pub const SILENCE_TOKEN: i64 = 30;

/// Token budget of a chunk, below the model's context by a margin.
pub const CHUNK_BUDGET: usize = 500;

/// Number of tokens that the model takes at most.
pub const MODEL_CONTEXT: usize = 512;

/// Why a request failed.
#[derive(Debug)]
pub enum TtsError {
    /// A style string without `+` names a voice that is not loaded.
    VoiceNotFound(String),
    /// The phonemizer failed on a chunk.
    Phonemization { chunk: String, message: String },
    /// The inference engine failed on a chunk.
    Inference { chunk: String, message: String },
    /// The receiver of the audio failed.
    Sink(String),
}

/// A failure, with its texts as character sequences.
pub ghost enum Failure {
    VoiceNotFound(Seq<char>),
    Phonemization { chunk: Seq<char>, message: Seq<char> },
    Inference { chunk: Seq<char>, message: Seq<char> },
    Sink(Seq<char>),
}

impl View for TtsError {
    type V = Failure;

    open spec fn view(&self) -> Failure {
        match self {
            TtsError::VoiceNotFound(name) => Failure::VoiceNotFound(name@),
            TtsError::Phonemization { chunk, message } => Failure::Phonemization {
                chunk: chunk@,
                message: message@,
            },
            TtsError::Inference { chunk, message } => Failure::Inference {
                chunk: chunk@,
                message: message@,
            },
            TtsError::Sink(message) => Failure::Sink(message@),
        }
    }
}

/// The message of a failure.
pub open spec fn failure_message(failure: Failure) -> Seq<char> {
    match failure {
        Failure::VoiceNotFound(name) => "can not found from styles_map: "@ + name,
        Failure::Phonemization { chunk, message } => message,
        Failure::Inference { chunk, message } => "Chunk processing failed: "@ + message,
        Failure::Sink(message) => message,
    }
}

impl TtsError {
    /// The message of the failure, for the user.
    pub fn message(&self) -> (out: String)
        ensures
            out@ == failure_message(self@),
    {
        match self {
            TtsError::VoiceNotFound(name) => {
                let mut out = "can not found from styles_map: ".to_owned();
                out.append(name.as_str());
                out
            },
            TtsError::Phonemization { chunk: _, message } => message.clone(),
            TtsError::Inference { chunk: _, message } => {
                let mut out = "Chunk processing failed: ".to_owned();
                out.append(message.as_str());
                out
            },
            TtsError::Sink(message) => message.clone(),
        }
    }
}

/// What the inference engine is given for one chunk: a batch of one row of
/// tokens, and the style.
#[derive(Debug)]
pub struct ChunkInput {
    pub tokens: Vec<Vec<i64>>,
    pub style: StyleMix,
}

/// A chunk's input as plain values.
pub ghost struct Input {
    pub tokens: Seq<Seq<i64>>,
    pub row: nat,
    pub direct: bool,
    pub terms: Seq<StyleTerm>,
}

/// The rows of a batch of tokens.
pub open spec fn rows(batch: Seq<Vec<i64>>) -> Seq<Seq<i64>> {
    batch.map_values(|row: Vec<i64>| row@)
}

impl View for ChunkInput {
    type V = Input;

    open spec fn view(&self) -> Input {
        Input {
            tokens: rows(self.tokens@),
            row: self.style.row as nat,
            direct: self.style.direct,
            terms: self.style.terms@,
        }
    }
}

/// `n` tokens of silence.
pub open spec fn silence(n: nat) -> Seq<i64> {
    Seq::new(n, |i: int| SILENCE_TOKEN)
}

/// The tokens of an utterance: the leading silence, then the tokens of the
/// phonemes.
pub open spec fn utterance(phonemes: Seq<char>, silence_len: nat) -> Seq<i64> {
    silence(silence_len) + tokens_of(phonemes)
}

/// A token sequence framed by the pad token.
pub open spec fn padded(tokens: Seq<i64>) -> Seq<i64> {
    seq![PAD_TOKEN] + tokens + seq![PAD_TOKEN]
}

/// A chunk that is within the budget with its pad tokens fits the model as
/// long as the silence before it stays within the margin between the budget
/// and the model's context.
pub proof fn lemma_padded_fits_context(phonemes: Seq<char>, silence_len: nat)
    requires
        !over(tokens_of(phonemes).len(), CHUNK_BUDGET as nat),
        silence_len <= MODEL_CONTEXT - CHUNK_BUDGET,
    ensures
        padded(utterance(phonemes, silence_len)).len() == tokens_of(phonemes).len() + silence_len
            + PADDING,
        padded(utterance(phonemes, silence_len)).len() <= MODEL_CONTEXT,
        padded(utterance(phonemes, silence_len)).first() == PAD_TOKEN,
        padded(utterance(phonemes, silence_len)).last() == PAD_TOKEN,
{
}

/// The terms of the style that `style` asks for: the named voice with full
/// weight, or the resolved terms of the blend.
pub open spec fn style_terms(names: Seq<Seq<char>>, style: Seq<char>) -> Option<Seq<StyleTerm>> {
    if is_blend(style) {
        Some(resolved_terms(names, blend_terms(style)))
    } else {
        match voice_index(names, style) {
            Some(voice) => Some(seq![StyleTerm { voice: voice as usize, tenths: 10 }]),
            None => None,
        }
    }
}

/// The input for a chunk with the given phonemes, or `None` where the style
/// names a single voice that is not loaded. The style row is chosen by the
/// number of tokens before padding.
pub open spec fn chunk_input(
    names: Seq<Seq<char>>,
    phonemes: Seq<char>,
    style: Seq<char>,
    silence_len: nat,
) -> Option<Input> {
    match style_terms(names, style) {
        Some(terms) => Some(
            Input {
                tokens: seq![padded(utterance(phonemes, silence_len))],
                row: style_row(utterance(phonemes, silence_len).len()),
                direct: !is_blend(style),
                terms,
            },
        ),
        None => None,
    }
}

/// Whether `input` is an input that the engine makes: one row of tokens
/// framed by the pad token, and a style that stays inside the tables of
/// `voices` loaded voices.
pub open spec fn engine_input(input: Input, voices: nat) -> bool {
    &&& input.tokens.len() == 1
    &&& input.tokens[0].len() >= 2
    &&& input.tokens[0].first() == PAD_TOKEN
    &&& input.tokens[0].last() == PAD_TOKEN
    &&& input.row < STYLE_ROWS
    &&& forall|i: int| 0 <= i < input.terms.len() ==> (#[trigger] input.terms[i]).voice < voices
}

/// The number of silence tokens that a request asks for.
pub open spec fn silence_len(initial_silence: Option<usize>) -> nat {
    match initial_silence {
        Some(n) => n as nat,
        None => 0,
    }
}

/// Builds the input of the inference engine for a chunk from its phonemes:
/// `initial_silence` silence tokens and the tokens of the phonemes, framed by
/// the pad token, with the style resolved for the number of tokens before
/// padding. Fails exactly where the style names a single voice that is not
/// loaded.
pub fn prepare_chunk(
    names: &Vec<String>,
    phonemes: &str,
    style_name: &str,
    initial_silence: Option<usize>,
) -> (r: Result<ChunkInput, TtsError>)
    ensures
        match r {
            Ok(input) => chunk_input(
                strings(names@),
                phonemes@,
                style_name@,
                silence_len(initial_silence),
            ) == Some(input@) && engine_input(input@, names.len() as nat),
            Err(e) => chunk_input(
                strings(names@),
                phonemes@,
                style_name@,
                silence_len(initial_silence),
            ) is None && e@ == Failure::VoiceNotFound(style_name@),
        },
{
    let spoken = tokenize(phonemes);
    let n = match initial_silence {
        Some(n) => n,
        None => 0,
    };
    let mut row: Vec<i64> = Vec::new();
    row.push(PAD_TOKEN);
    let mut i: usize = 0;
    while i < n
        invariant
            i <= n,
            row@ == seq![PAD_TOKEN] + silence(i as nat),
        decreases n - i,
    {
        row.push(SILENCE_TOKEN);
        proof {
            assert(silence(i as nat).push(SILENCE_TOKEN) == silence((i + 1) as nat));
        }
        i += 1;
    }
    let mut k: usize = 0;
    while k < spoken.len()
        invariant
            k <= spoken.len(),
            row@ == seq![PAD_TOKEN] + silence(n as nat) + spoken@.take(k as int),
        decreases spoken.len() - k,
    {
        row.push(spoken[k]);
        proof {
            assert(spoken@.take(k + 1) == spoken@.take(k as int).push(spoken@[k as int]));
        }
        k += 1;
    }
    proof {
        assert(spoken@.take(spoken@.len() as int) == spoken@);
        assert(seq![PAD_TOKEN] + silence(n as nat) + spoken@ == seq![PAD_TOKEN] + utterance(
            phonemes@,
            n as nat,
        ));
    }
    let count = row.len() - 1;
    row.push(PAD_TOKEN);
    proof {
        let spoken_all = utterance(phonemes@, n as nat);
        assert(count == spoken_all.len());
        assert(row@ =~= padded(spoken_all));
        strings(names@).index_of_first_ensures(style_name@);
    }
    match resolve_style(names, style_name, count) {
        Some(style) => {
            let mut tokens: Vec<Vec<i64>> = Vec::new();
            tokens.push(row);
            proof {
                assert(rows(tokens@) =~= seq![row@]);
                assert(style_terms(strings(names@), style_name@) == Some(style.terms@));
            }
            Ok(ChunkInput { tokens, style })
        },
        None => Err(TtsError::VoiceNotFound(style_name.to_owned())),
    }
}

/// What is known of a chunk beside its input, for the records of whoever
/// runs the inference: the identifiers that the caller gave to the request,
/// the text of the chunk and its phonemes.
#[derive(Debug)]
pub struct Diagnostics {
    pub request_id: Option<String>,
    pub instance_id: Option<String>,
    pub chunk_number: Option<usize>,
    pub text: String,
    pub phonemes: String,
}

/// The diagnostics of a chunk as plain values.
pub ghost struct Note {
    pub request_id: Option<Seq<char>>,
    pub instance_id: Option<Seq<char>>,
    pub chunk_number: Option<usize>,
    pub text: Seq<char>,
    pub phonemes: Seq<char>,
}

/// An optional text as an optional character sequence.
pub open spec fn label(id: Option<String>) -> Option<Seq<char>> {
    match id {
        Some(text) => Some(text@),
        None => None,
    }
}

/// An optional string slice as an optional character sequence.
pub open spec fn tag(id: Option<&str>) -> Option<Seq<char>> {
    match id {
        Some(text) => Some(text@),
        None => None,
    }
}

impl View for Diagnostics {
    type V = Note;

    open spec fn view(&self) -> Note {
        Note {
            request_id: label(self.request_id),
            instance_id: label(self.instance_id),
            chunk_number: self.chunk_number,
            text: self.text@,
            phonemes: self.phonemes@,
        }
    }
}

/// An owned copy of an optional identifier.
pub fn keep(id: Option<&str>) -> (r: Option<String>)
    ensures
        label(r) == tag(id),
{
    match id {
        Some(text) => Some(text.to_owned()),
        None => None,
    }
}

/// The parts of a request that are the same for all its chunks. The speed
/// is a value that this library hands on to the inference engine as it is,
/// and so are the identifiers.
pub ghost struct Request<V> {
    pub names: Seq<Seq<char>>,
    pub lan: Seq<char>,
    pub style: Seq<char>,
    pub speed: V,
    pub silence_len: nat,
    pub request_id: Option<Seq<char>>,
    pub instance_id: Option<Seq<char>>,
    pub chunk_number: Option<usize>,
}

/// The diagnostics that go with a chunk of a request.
pub open spec fn note_of<V>(request: Request<V>, chunk: Seq<char>, phonemes: Seq<char>) -> Note {
    Note {
        request_id: request.request_id,
        instance_id: request.instance_id,
        chunk_number: request.chunk_number,
        text: chunk,
        phonemes,
    }
}

/// Whether the function value `phonemize` computes `ph`: whatever it returns
/// for a text and a language is `ph` of the two.
pub open spec fn phonemizes<P: Fn(&str, &str) -> Result<String, String>>(
    phonemize: P,
    ph: spec_fn(Seq<char>, Seq<char>) -> Result<Seq<char>, Seq<char>>,
) -> bool {
    forall|t: &str, l: &str, r: Result<String, String>| #[trigger]
        phonemize.ensures((t, l), r) ==> (match r {
            Ok(p) => ph(t@, l@) == Ok::<Seq<char>, Seq<char>>(p@),
            Err(e) => ph(t@, l@) == Err::<Seq<char>, Seq<char>>(e@),
        })
}

/// Whether the function value `infer` computes `inf`: whatever it returns for
/// an input, a speed and the diagnostics is `inf` of the three.
pub open spec fn infers<S, V, I: Fn(ChunkInput, V, Diagnostics) -> Result<Vec<S>, String>>(
    infer: I,
    inf: spec_fn(Input, V, Note) -> Result<Seq<S>, Seq<char>>,
) -> bool {
    forall|input: ChunkInput, speed: V, note: Diagnostics, r: Result<Vec<S>, String>| #[trigger]
        infer.ensures((input, speed, note), r) ==> (match r {
            Ok(a) => inf(input@, speed, note@) == Ok::<Seq<S>, Seq<char>>(a@),
            Err(e) => inf(input@, speed, note@) == Err::<Seq<S>, Seq<char>>(e@),
        })
}

/// Whether the function value `callback` computes `sink`: whatever it makes
/// of its state and a piece of audio is `sink` of the two.
pub open spec fn delivers<S, T, C: Fn(T, Vec<S>) -> Result<T, String>>(
    callback: C,
    sink: spec_fn(T, Seq<S>) -> Result<T, Seq<char>>,
) -> bool {
    forall|state: T, a: Vec<S>, r: Result<T, String>| #[trigger]
        callback.ensures((state, a), r) ==> (match r {
            Ok(next) => sink(state, a@) == Ok::<T, Seq<char>>(next),
            Err(e) => sink(state, a@) == Err::<T, Seq<char>>(e@),
        })
}

/// Whether the function value `write` computes `wr`: whatever it returns for
/// a path, a layout and samples is `wr` of the three.
pub open spec fn writes<S, W: Fn(&str, WavLayout, Vec<S>) -> Result<(), String>>(
    write: W,
    wr: spec_fn(Seq<char>, WavLayout, Seq<S>) -> Result<(), Seq<char>>,
) -> bool {
    forall|path: &str, layout: WavLayout, samples: Vec<S>, r: Result<(), String>| #[trigger]
        write.ensures((path, layout, samples), r) ==> (match r {
            Ok(_) => wr(path@, layout, samples@) is Ok,
            Err(e) => wr(path@, layout, samples@) == Err::<(), Seq<char>>(e@),
        })
}

/// The token count of a text as the phonemizer `ph` and the vocabulary give
/// it: the number of tokens of its English phonemes, none where
/// phonemization fails.
pub open spec fn token_count(
    ph: spec_fn(Seq<char>, Seq<char>) -> Result<Seq<char>, Seq<char>>,
) -> spec_fn(Seq<char>) -> nat {
    |t: Seq<char>|
        match ph(t, "en"@) {
            Ok(p) => tokens_of(p).len(),
            Err(_) => 0,
        }
}

/// The audio of one chunk, or the failure of the first step that fails:
/// phonemization, the style, inference.
pub open spec fn chunk_audio<S, V>(
    ph: spec_fn(Seq<char>, Seq<char>) -> Result<Seq<char>, Seq<char>>,
    inf: spec_fn(Input, V, Note) -> Result<Seq<S>, Seq<char>>,
    request: Request<V>,
    chunk: Seq<char>,
) -> Result<Seq<S>, Failure> {
    match ph(chunk, request.lan) {
        Err(message) => Err(Failure::Phonemization { chunk, message }),
        Ok(phonemes) => match chunk_input(
            request.names,
            phonemes,
            request.style,
            request.silence_len,
        ) {
            None => Err(Failure::VoiceNotFound(request.style)),
            Some(input) => match inf(input, request.speed, note_of(request, chunk, phonemes)) {
                Ok(audio) => Ok(audio),
                Err(message) => Err(Failure::Inference { chunk, message }),
            },
        },
    }
}

/// The audio of a request: the audio of its chunks, one after the other in
/// the order of the chunks, or the failure of the first chunk that fails.
pub open spec fn audio_of<S, V>(
    ph: spec_fn(Seq<char>, Seq<char>) -> Result<Seq<char>, Seq<char>>,
    inf: spec_fn(Input, V, Note) -> Result<Seq<S>, Seq<char>>,
    request: Request<V>,
    chunks: Seq<Seq<char>>,
) -> Result<Seq<S>, Failure>
    decreases chunks.len(),
{
    if chunks.len() == 0 {
        Ok(Seq::empty())
    } else {
        match audio_of(ph, inf, request, chunks.drop_last()) {
            Err(e) => Err(e),
            Ok(before) => match chunk_audio(ph, inf, request, chunks.last()) {
                Err(e) => Err(e),
                Ok(audio) => Ok(before + audio),
            },
        }
    }
}

/// The outcome of a streamed request. The sink has a state: it is given the
/// state and the audio of a chunk and gives the next state. Each chunk's
/// audio is handed to it before the next chunk is begun, in the order of the
/// chunks, and the first failure, of a chunk or of the sink, ends the
/// request. The outcome is the state after the last chunk.
pub open spec fn streamed<S, V, T>(
    ph: spec_fn(Seq<char>, Seq<char>) -> Result<Seq<char>, Seq<char>>,
    inf: spec_fn(Input, V, Note) -> Result<Seq<S>, Seq<char>>,
    sink: spec_fn(T, Seq<S>) -> Result<T, Seq<char>>,
    request: Request<V>,
    start: T,
    chunks: Seq<Seq<char>>,
) -> Result<T, Failure>
    decreases chunks.len(),
{
    if chunks.len() == 0 {
        Ok(start)
    } else {
        match streamed(ph, inf, sink, request, start, chunks.drop_last()) {
            Err(e) => Err(e),
            Ok(state) => match chunk_audio(ph, inf, request, chunks.last()) {
                Err(e) => Err(e),
                Ok(audio) => match sink(state, audio) {
                    Ok(next) => Ok(next),
                    Err(message) => Err(Failure::Sink(message)),
                },
            },
        }
    }
}

/// The outcome of a request whose audio is written to a file: the failure of
/// the request where it fails, and else what the writer makes of the path, of
/// the layout for one channel or two at the given sample rate, and of the
/// audio laid out for it.
pub open spec fn saved<S, V>(
    ph: spec_fn(Seq<char>, Seq<char>) -> Result<Seq<char>, Seq<char>>,
    inf: spec_fn(Input, V, Note) -> Result<Seq<S>, Seq<char>>,
    wr: spec_fn(Seq<char>, WavLayout, Seq<S>) -> Result<(), Seq<char>>,
    request: Request<V>,
    chunks: Seq<Seq<char>>,
    save_path: Seq<char>,
    sample_rate: u32,
    mono: bool,
) -> Result<(), Failure> {
    match audio_of(ph, inf, request, chunks) {
        Err(e) => Err(e),
        Ok(audio) => match wr(
            save_path,
            WavLayout {
                channels: if mono {
                    1
                } else {
                    2
                },
                sample_rate,
                bits_per_sample: BITS_PER_SAMPLE,
            },
            frames(audio, mono),
        ) {
            Ok(_) => Ok(()),
            Err(message) => Err(Failure::Sink(message)),
        },
    }
}

/// A failure among the first chunks is the failure of the request.
pub proof fn lemma_audio_of_failure<S, V>(
    ph: spec_fn(Seq<char>, Seq<char>) -> Result<Seq<char>, Seq<char>>,
    inf: spec_fn(Input, V, Note) -> Result<Seq<S>, Seq<char>>,
    request: Request<V>,
    chunks: Seq<Seq<char>>,
    n: int,
)
    requires
        0 <= n <= chunks.len(),
        audio_of(ph, inf, request, chunks.take(n)) is Err,
    ensures
        audio_of(ph, inf, request, chunks) == audio_of(ph, inf, request, chunks.take(n)),
    decreases chunks.len() - n,
{
    if n < chunks.len() {
        assert(chunks.take(n + 1).drop_last() == chunks.take(n));
        lemma_audio_of_failure(ph, inf, request, chunks, n + 1);
    } else {
        assert(chunks.take(n) == chunks);
    }
}

/// A failure among the first chunks is the failure of the streamed request.
pub proof fn lemma_streamed_failure<S, V, T>(
    ph: spec_fn(Seq<char>, Seq<char>) -> Result<Seq<char>, Seq<char>>,
    inf: spec_fn(Input, V, Note) -> Result<Seq<S>, Seq<char>>,
    sink: spec_fn(T, Seq<S>) -> Result<T, Seq<char>>,
    request: Request<V>,
    start: T,
    chunks: Seq<Seq<char>>,
    n: int,
)
    requires
        0 <= n <= chunks.len(),
        streamed(ph, inf, sink, request, start, chunks.take(n)) is Err,
    ensures
        streamed(ph, inf, sink, request, start, chunks) == streamed(
            ph,
            inf,
            sink,
            request,
            start,
            chunks.take(n),
        ),
    decreases chunks.len() - n,
{
    if n < chunks.len() {
        assert(chunks.take(n + 1).drop_last() == chunks.take(n));
        lemma_streamed_failure(ph, inf, sink, request, start, chunks, n + 1);
    } else {
        assert(chunks.take(n) == chunks);
    }
}

/// The length of the audio of all chunks together.
pub open spec fn audio_len<S, V>(
    ph: spec_fn(Seq<char>, Seq<char>) -> Result<Seq<char>, Seq<char>>,
    inf: spec_fn(Input, V, Note) -> Result<Seq<S>, Seq<char>>,
    request: Request<V>,
    chunks: Seq<Seq<char>>,
) -> nat
    decreases chunks.len(),
{
    if chunks.len() == 0 {
        0
    } else {
        audio_len(ph, inf, request, chunks.drop_last()) + (match chunk_audio(
            ph,
            inf,
            request,
            chunks.last(),
        ) {
            Ok(audio) => audio.len(),
            Err(_) => 0,
        })
    }
}

/// Where a request succeeds, every chunk has succeeded and the audio is as
/// long as the audio of all chunks together.
pub proof fn lemma_audio_of_success<S, V>(
    ph: spec_fn(Seq<char>, Seq<char>) -> Result<Seq<char>, Seq<char>>,
    inf: spec_fn(Input, V, Note) -> Result<Seq<S>, Seq<char>>,
    request: Request<V>,
    chunks: Seq<Seq<char>>,
)
    requires
        audio_of(ph, inf, request, chunks) is Ok,
    ensures
        forall|i: int| 0 <= i < chunks.len() ==> chunk_audio(ph, inf, request, #[trigger] chunks[i]) is Ok,
        audio_of(ph, inf, request, chunks)->Ok_0.len() == audio_len(ph, inf, request, chunks),
    decreases chunks.len(),
{
    if chunks.len() > 0 {
        lemma_audio_of_success(ph, inf, request, chunks.drop_last());
        assert forall|i: int| 0 <= i < chunks.len() implies chunk_audio(
            ph,
            inf,
            request,
            #[trigger] chunks[i],
        ) is Ok by {
            if i < chunks.len() - 1 {
                assert(chunks.drop_last()[i] == chunks[i]);
            }
        }
    }
}

/// The audio of each chunk, in the order of the chunks.
pub open spec fn chunk_audios<S, V>(
    ph: spec_fn(Seq<char>, Seq<char>) -> Result<Seq<char>, Seq<char>>,
    inf: spec_fn(Input, V, Note) -> Result<Seq<S>, Seq<char>>,
    request: Request<V>,
    chunks: Seq<Seq<char>>,
) -> Seq<Seq<S>> {
    Seq::new(chunks.len(), |i: int| chunk_audio(ph, inf, request, chunks[i])->Ok_0)
}

/// The sink that keeps what it is given, in the order in which it is given.
pub open spec fn collecting<S>() -> spec_fn(Seq<Seq<S>>, Seq<S>) -> Result<Seq<Seq<S>>, Seq<char>> {
    |got: Seq<Seq<S>>, audio: Seq<S>| Ok::<Seq<Seq<S>>, Seq<char>>(got.push(audio))
}

/// Order of delivery: a sink that keeps what it is given has, after a
/// request that succeeds, the audio of chunk 0, of chunk 1 and so on, each
/// once and in the order of the chunks.
pub proof fn lemma_streamed_in_order<S, V>(
    ph: spec_fn(Seq<char>, Seq<char>) -> Result<Seq<char>, Seq<char>>,
    inf: spec_fn(Input, V, Note) -> Result<Seq<S>, Seq<char>>,
    request: Request<V>,
    chunks: Seq<Seq<char>>,
)
    requires
        audio_of(ph, inf, request, chunks) is Ok,
    ensures
        streamed(ph, inf, collecting::<S>(), request, Seq::<Seq<S>>::empty(), chunks) == Ok::<
            Seq<Seq<S>>,
            Failure,
        >(chunk_audios(ph, inf, request, chunks)),
    decreases chunks.len(),
{
    if chunks.len() == 0 {
        assert(chunk_audios(ph, inf, request, chunks) =~= Seq::<Seq<S>>::empty());
    } else {
        let rest = chunks.drop_last();
        lemma_streamed_in_order(ph, inf, request, rest);
        let before = chunk_audios(ph, inf, request, rest);
        let audio = chunk_audio(ph, inf, request, chunks.last())->Ok_0;
        assert(chunk_audios(ph, inf, request, chunks) =~= before.push(audio));
    }
}

/// A streamed request succeeds or fails as the request does that gathers
/// the audio, as long as the sink does not fail: with a sink that never
/// fails the two have the same failure.
pub proof fn lemma_streamed_as_gathered<S, V, T>(
    ph: spec_fn(Seq<char>, Seq<char>) -> Result<Seq<char>, Seq<char>>,
    inf: spec_fn(Input, V, Note) -> Result<Seq<S>, Seq<char>>,
    sink: spec_fn(T, Seq<S>) -> Result<T, Seq<char>>,
    request: Request<V>,
    start: T,
    chunks: Seq<Seq<char>>,
)
    requires
        forall|state: T, a: Seq<S>| (#[trigger] sink(state, a)) is Ok,
    ensures
        match audio_of(ph, inf, request, chunks) {
            Ok(_) => streamed(ph, inf, sink, request, start, chunks) is Ok,
            Err(e) => streamed(ph, inf, sink, request, start, chunks) == Err::<T, Failure>(e),
        },
    decreases chunks.len(),
{
    if chunks.len() > 0 {
        lemma_streamed_as_gathered(ph, inf, sink, request, start, chunks.drop_last());
    }
}

} // verus!
