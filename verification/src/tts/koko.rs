//! The synthesis engine: configuration, loaded voices and the per-request
//! pipeline from text to audio.

use crate::tts::budget::{all_fit, all_words, budget_chunks, measures, sentences_of};
use crate::tts::names::{
    copy_names, distinct, lemma_distinct_ascending, sorted_names, strictly_ascending,
};
use crate::tts::speech::speech_chunks;
use crate::tts::style::{
    blend_terms, is_blend, resolve_style, resolved_terms, style_row, voice_index, StyleMix,
    StyleTerm,
};
use crate::tts::synth::{
    audio_of, chunk_audio, chunk_input, delivers, engine_input, infers, keep,
    lemma_audio_of_failure, lemma_streamed_failure, phonemizes, prepare_chunk, saved, silence_len,
    streamed, tag, token_count, writes, ChunkInput, Diagnostics, Failure, Input, Note, Request,
    TtsError, CHUNK_BUDGET,
};
use crate::tts::text::strings;
use crate::tts::tokenize::tokenize;
use crate::tts::wav::{wav_frames, wav_layout, WavLayout};
use vstd::prelude::*;

verus! {

/// Where the model and the voices can be had, and the sample rate of the
/// audio that the model gives.
#[derive(Clone, Debug)]
pub struct InitConfig {
    pub model_url: String,
    pub voices_url: String,
    pub sample_rate: u32,
}

impl Default for InitConfig {
    fn default() -> (r: Self)
        ensures
            r.model_url@
                == "https://github.com/thewh1teagle/kokoro-onnx/releases/download/model-files-v1.0/kokoro-v1.0.onnx"@,
            r.voices_url@
                == "https://github.com/thewh1teagle/kokoro-onnx/releases/download/model-files-v1.0/voices-v1.0.bin"@,
            r.sample_rate == 24000,
    {
        InitConfig {
            model_url: "https://github.com/thewh1teagle/kokoro-onnx/releases/download/model-files-v1.0/kokoro-v1.0.onnx".to_owned(),
            voices_url: "https://github.com/thewh1teagle/kokoro-onnx/releases/download/model-files-v1.0/voices-v1.0.bin".to_owned(),
            sample_rate: 24000,
        }
    }
}

/// What a request to synthesize a text into a file asks for. The speed is
/// handed on to the inference engine as it is.
#[derive(Clone, Debug)]
pub struct TTSOpts<'a, V> {
    pub txt: &'a str,
    pub lan: &'a str,
    pub style_name: &'a str,
    pub save_path: &'a str,
    pub mono: bool,
    pub speed: V,
    pub initial_silence: Option<usize>,
}

/// The outcome of a request as plain values.
pub open spec fn outcome<S>(r: Result<Vec<S>, TtsError>) -> Result<Seq<S>, Failure> {
    match r {
        Ok(audio) => Ok(audio@),
        Err(e) => Err(e@),
    }
}

/// The outcome of a request that ends in a state or in nothing, as plain
/// values.
pub open spec fn stream_outcome<T>(r: Result<T, TtsError>) -> Result<T, Failure> {
    match r {
        Ok(state) => Ok(state),
        Err(e) => Err(e@),
    }
}

/// A synthesis engine: the path of its model, the names of the voices that
/// are loaded, in the order of their tables, and its configuration. No name
/// is that of two voices.
#[derive(Debug)]
pub struct TTSKoko {
    model_path: String,
    voices: Vec<String>,
    init_config: InitConfig,
}

impl Clone for TTSKoko {
    fn clone(&self) -> (r: Self)
        ensures
            r.voice_names() == self.voice_names(),
            r.model_path() == self.model_path(),
            r.rate() == self.rate(),
    {
        proof {
            use_type_invariant(self);
        }
        TTSKoko {
            model_path: self.model_path.clone(),
            voices: copy_names(&self.voices),
            init_config: InitConfig {
                model_url: self.init_config.model_url.clone(),
                voices_url: self.init_config.voices_url.clone(),
                sample_rate: self.init_config.sample_rate,
            },
        }
    }
}

impl TTSKoko {
    /// The names of the loaded voices, in the order of their tables.
    pub closed spec fn voice_names(&self) -> Seq<Seq<char>> {
        strings(self.voices@)
    }

    /// The path of the model as it was given.
    pub closed spec fn model_path(&self) -> Seq<char> {
        self.model_path@
    }

    /// The sample rate of the audio.
    pub closed spec fn rate(&self) -> u32 {
        self.init_config.sample_rate
    }

    /// The request that the given arguments describe to this engine.
    pub open spec fn request<V>(
        &self,
        lan: Seq<char>,
        style: Seq<char>,
        speed: V,
        initial_silence: Option<usize>,
        request_id: Option<Seq<char>>,
        instance_id: Option<Seq<char>>,
        chunk_number: Option<usize>,
    ) -> Request<V> {
        Request {
            names: self.voice_names(),
            lan,
            style,
            speed,
            silence_len: silence_len(initial_silence),
            request_id,
            instance_id,
            chunk_number,
        }
    }

    /// No name is that of two voices.
    #[verifier::type_invariant]
    closed spec fn wf(&self) -> bool {
        strings(self.voices@).no_duplicates()
    }

    /// An engine with the default configuration, or `None` where a name is
    /// given for two voices.
    pub fn new(model_path: &str, voices: Vec<String>) -> (r: Option<Self>)
        ensures
            r is Some <==> strings(voices@).no_duplicates(),
            r is Some ==> r->0.voice_names() == strings(voices@) && r->0.model_path()
                == model_path@ && r->0.rate() == 24000,
    {
        Self::from_config(model_path, voices, InitConfig::default())
    }

    /// An engine for the model at `model_path` with the given voices loaded,
    /// or `None` where a name is given for two voices.
    pub fn from_config(model_path: &str, voices: Vec<String>, cfg: InitConfig) -> (r: Option<Self>)
        ensures
            r is Some <==> strings(voices@).no_duplicates(),
            r is Some ==> r->0.voice_names() == strings(voices@) && r->0.model_path()
                == model_path@ && r->0.rate() == cfg.sample_rate,
    {
        if distinct(&voices) {
            Some(TTSKoko { model_path: model_path.to_owned(), voices, init_config: cfg })
        } else {
            None
        }
    }


    /// The sample rate of the audio that this engine gives.
    pub fn sample_rate(&self) -> (r: u32)
        ensures
            r == self.rate(),
    {
        self.init_config.sample_rate
    }

    /// The names of the loaded voices in strictly ascending order: every
    /// name once.
    pub fn get_available_voices(&self) -> (out: Vec<String>)
        ensures
            strictly_ascending(strings(out@)),
            strings(out@).to_set() == self.voice_names().to_set(),
            out.len() == self.voice_names().len(),
    {
        let out = sorted_names(&self.voices);
        proof {
            use_type_invariant(self);
            lemma_distinct_ascending(strings(self.voices@), strings(out@));
        }
        out
    }

    /// The number of loaded voices, none of which shares its name with
    /// another.
    pub fn voice_count(&self) -> (n: usize)
        ensures
            n == self.voice_names().len(),
            self.voice_names().no_duplicates(),
    {
        proof {
            use_type_invariant(self);
        }
        self.voices.len()
    }

    /// Splits a text into chunks under a budget of `max_tokens` tokens, as
    /// `measure` counts them and with the two pad tokens that frame a chunk
    /// counted in: see `budget_chunks`.
    pub fn split_text_into_chunks<F: Fn(&str) -> usize>(
        &self,
        text: &str,
        max_tokens: usize,
        measure: F,
    ) -> (out: Vec<String>)
        requires
            forall|t: &str| t@.len() > 0 ==> measure.requires((t,)),
        ensures
            forall|m: spec_fn(Seq<char>) -> nat| #[trigger]
                measures(measure, m) ==> strings(out@) == budget_chunks(
                    m,
                    max_tokens as nat,
                    text@,
                ),
            all_words(strings(out@)) == all_words(sentences_of(text@)),
            all_fit(measure, max_tokens, strings(out@)),
            forall|i: int| 0 <= i < out.len() ==> (#[trigger] out[i])@.len() > 0,
            out.len() == 0 <==> sentences_of(text@).len() == 0,
    {
        crate::tts::budget::split_text_into_chunks(text, max_tokens, measure)
    }

    /// Splits a text into chunks for speech under a limit of `max_words`
    /// words: the chunks of its sentences, or, where the text holds no
    /// sentence mark, its words packed `max_words` to a chunk. See
    /// `speech_chunks`.
    pub fn split_text_into_speech_chunks(&self, text: &str, max_words: usize) -> (out: Vec<String>)
        ensures
            strings(out@) == speech_chunks(text@, max_words as nat),
            forall|i: int| 0 <= i < out.len() ==> (#[trigger] out[i])@.len() > 0,
    {
        crate::tts::speech::split_text_into_speech_chunks(text, max_words)
    }

    /// Resolves a style string for an utterance of `tokens_len` tokens.
    ///
    /// A string without `+` names one voice: its row is taken as it is, and
    /// the call fails with `VoiceNotFound` exactly if no voice has that name.
    /// A string with `+` is a blend: the result holds one term for each term
    /// `name.digit` whose name is that of a voice, and never fails. The row is
    /// the token count, held to the last row of the tables.
    pub fn mix_styles(&self, style_name: &str, tokens_len: usize) -> (r: Result<StyleMix, TtsError>)
        ensures
            r is Err <==> !is_blend(style_name@) && voice_index(self.voice_names(), style_name@)
                is None,
            r is Err ==> r->Err_0@ == Failure::VoiceNotFound(style_name@),
            r is Ok ==> r->Ok_0.row == style_row(tokens_len as nat),
            r is Ok ==> r->Ok_0.direct == !is_blend(style_name@),
            r is Ok && !is_blend(style_name@) ==> r->Ok_0.terms@ == seq![
                StyleTerm {
                    voice: voice_index(self.voice_names(), style_name@)->0 as usize,
                    tenths: 10,
                },
            ],
            r is Ok && is_blend(style_name@) ==> r->Ok_0.terms@ == resolved_terms(
                self.voice_names(),
                blend_terms(style_name@),
            ),
            r is Ok ==> forall|i: int|
                0 <= i < r->Ok_0.terms.len() ==> (#[trigger] r->Ok_0.terms[i]).voice
                    < self.voice_names().len(),
    {
        match resolve_style(&self.voices, style_name, tokens_len) {
            Some(mix) => Ok(mix),
            None => Err(TtsError::VoiceNotFound(style_name.to_owned())),
        }
    }

    /// Builds the input of the inference engine for a chunk from its
    /// phonemes: see `chunk_input`.
    pub fn prepare(&self, phonemes: &str, style_name: &str, initial_silence: Option<usize>) -> (r:
        Result<ChunkInput, TtsError>)
        ensures
            match r {
                Ok(input) => chunk_input(
                    self.voice_names(),
                    phonemes@,
                    style_name@,
                    silence_len(initial_silence),
                ) == Some(input@) && engine_input(input@, self.voice_names().len()),
                Err(e) => chunk_input(
                    self.voice_names(),
                    phonemes@,
                    style_name@,
                    silence_len(initial_silence),
                ) is None && e@ == Failure::VoiceNotFound(style_name@),
            },
    {
        prepare_chunk(&self.voices, phonemes, style_name, initial_silence)
    }

    /// The token count of a text in the measure of the chunker: the number of
    /// tokens of its English phonemes, none where phonemization fails.
    pub fn count_tokens<P: Fn(&str, &str) -> Result<String, String>>(text: &str, phonemize: &P) -> (n:
        usize)
        requires
            text@.len() > 0,
            forall|t: &str, l: &str| t@.len() > 0 ==> phonemize.requires((t, l)),
        ensures
            forall|ph: spec_fn(Seq<char>, Seq<char>) -> Result<Seq<char>, Seq<char>>| #[trigger]
                phonemizes(*phonemize, ph) ==> n as nat == token_count(ph)(text@),
    {
        match phonemize(text, "en") {
            Ok(p) => tokenize(p.as_str()).len(),
            Err(_) => 0,
        }
    }

    /// The chunks of a text for synthesis: split under a budget of
    /// `CHUNK_BUDGET` tokens, a text measured by the tokens of its English
    /// phonemes.
    pub fn chunks_for<P: Fn(&str, &str) -> Result<String, String>>(&self, txt: &str, phonemize: &P) -> (chunks:
        Vec<String>)
        requires
            forall|t: &str, l: &str| t@.len() > 0 ==> phonemize.requires((t, l)),
        ensures
            forall|ph: spec_fn(Seq<char>, Seq<char>) -> Result<Seq<char>, Seq<char>>| #[trigger]
                phonemizes(*phonemize, ph) ==> strings(chunks@) == budget_chunks(
                    token_count(ph),
                    CHUNK_BUDGET as nat,
                    txt@,
                ),
            forall|i: int| 0 <= i < chunks.len() ==> (#[trigger] chunks[i])@.len() > 0,
            chunks.len() == 0 <==> sentences_of(txt@).len() == 0,
    {
        let measure = |t: &str| -> (n: usize)
            requires
                t@.len() > 0,
            ensures
                forall|ph: spec_fn(Seq<char>, Seq<char>) -> Result<Seq<char>, Seq<char>>| #[trigger]
                    phonemizes(*phonemize, ph) ==> n as nat == token_count(ph)(t@),
            { Self::count_tokens(t, phonemize) };
        let chunks = self.split_text_into_chunks(txt, CHUNK_BUDGET, measure);
        proof {
            assert forall|ph: spec_fn(Seq<char>, Seq<char>) -> Result<Seq<char>, Seq<char>>| #[trigger]
                phonemizes(*phonemize, ph) implies strings(chunks@) == budget_chunks(
                token_count(ph),
                CHUNK_BUDGET as nat,
                txt@,
            ) by {
                assert(measures(measure, token_count(ph)));
            }
        }
        chunks
    }

    /// The audio of one chunk, or the failure of its first step that fails.
    /// The inference engine is given the input of the chunk, the speed, and
    /// for its records the identifiers of the request with the text and the
    /// phonemes of the chunk.
    pub fn chunk_audio<S, V, P: Fn(&str, &str) -> Result<String, String>, I: Fn(
        ChunkInput,
        V,
        Diagnostics,
    ) -> Result<Vec<S>, String>>(
        &self,
        chunk: &String,
        lan: &str,
        style_name: &str,
        speed: V,
        initial_silence: Option<usize>,
        request_id: Option<&str>,
        instance_id: Option<&str>,
        chunk_number: Option<usize>,
        phonemize: &P,
        infer: &I,
    ) -> (r: Result<Vec<S>, TtsError>)
        requires
            chunk@.len() > 0,
            forall|t: &str, l: &str| t@.len() > 0 ==> phonemize.requires((t, l)),
            forall|input: ChunkInput, v: V, note: Diagnostics|
                engine_input(input@, self.voice_names().len()) ==> infer.requires(
                    (input, v, note),
                ),
        ensures
            forall|
                ph: spec_fn(Seq<char>, Seq<char>) -> Result<Seq<char>, Seq<char>>,
                inf: spec_fn(Input, V, Note) -> Result<Seq<S>, Seq<char>>,
            |
                #![trigger phonemizes(*phonemize, ph), infers(*infer, inf)]
                phonemizes(*phonemize, ph) && infers(*infer, inf) ==> outcome(r) == chunk_audio(
                    ph,
                    inf,
                    self.request(
                        lan@,
                        style_name@,
                        speed,
                        initial_silence,
                        tag(request_id),
                        tag(instance_id),
                        chunk_number,
                    ),
                    chunk@,
                ),
            r is Err && r->Err_0 is VoiceNotFound ==> r->Err_0@ == Failure::VoiceNotFound(
                style_name@,
            ) && !is_blend(style_name@) && voice_index(self.voice_names(), style_name@) is None,
            r is Err && r->Err_0 is Phonemization ==> r->Err_0->Phonemization_chunk@ == chunk@,
            r is Err && r->Err_0 is Inference ==> r->Err_0->Inference_chunk@ == chunk@,
            r is Err ==> !(r->Err_0 is Sink),
    {
        let phonemes = match phonemize(chunk.as_str(), lan) {
            Ok(p) => p,
            Err(message) => {
                return Err(TtsError::Phonemization { chunk: chunk.clone(), message });
            },
        };
        let input = match self.prepare(phonemes.as_str(), style_name, initial_silence) {
            Ok(input) => input,
            Err(e) => {
                return Err(e);
            },
        };
        let note = Diagnostics {
            request_id: keep(request_id),
            instance_id: keep(instance_id),
            chunk_number,
            text: chunk.clone(),
            phonemes,
        };
        match infer(input, speed, note) {
            Ok(audio) => Ok(audio),
            Err(message) => Err(TtsError::Inference { chunk: chunk.clone(), message }),
        }
    }

    /// Synthesizes a text: splits it into chunks under the token budget and
    /// gathers the audio of the chunks in their order.
    ///
    /// `phonemize` turns a text in a language into phonemes and `infer` turns
    /// the input of a chunk into audio at the given speed. The chunks are
    /// measured by the tokens of their English phonemes against a budget of
    /// `CHUNK_BUDGET`; a text whose phonemization fails counts as no tokens
    /// there. Each chunk is then phonemized in the language of the request.
    /// The identifiers are handed on to `infer` with each chunk. The first
    /// step that fails ends the request with its failure, and no audio is
    /// returned. Where the two function values compute `ph` and `inf`, the
    /// outcome is that of `audio_of` on the chunks of the text.
    pub fn tts_raw_audio<S, V: Copy, P: Fn(&str, &str) -> Result<String, String>, I: Fn(
        ChunkInput,
        V,
        Diagnostics,
    ) -> Result<Vec<S>, String>>(
        &self,
        txt: &str,
        lan: &str,
        style_name: &str,
        speed: V,
        initial_silence: Option<usize>,
        request_id: Option<&str>,
        instance_id: Option<&str>,
        chunk_number: Option<usize>,
        phonemize: P,
        infer: I,
    ) -> (r: Result<Vec<S>, TtsError>)
        requires
            forall|t: &str, l: &str| t@.len() > 0 ==> phonemize.requires((t, l)),
            forall|input: ChunkInput, v: V, note: Diagnostics|
                engine_input(input@, self.voice_names().len()) ==> infer.requires(
                    (input, v, note),
                ),
        ensures
            forall|
                ph: spec_fn(Seq<char>, Seq<char>) -> Result<Seq<char>, Seq<char>>,
                inf: spec_fn(Input, V, Note) -> Result<Seq<S>, Seq<char>>,
            |
                #![trigger phonemizes(phonemize, ph), infers(infer, inf)]
                phonemizes(phonemize, ph) && infers(infer, inf) ==> outcome(r) == audio_of(
                    ph,
                    inf,
                    self.request(
                        lan@,
                        style_name@,
                        speed,
                        initial_silence,
                        tag(request_id),
                        tag(instance_id),
                        chunk_number,
                    ),
                    budget_chunks(token_count(ph), CHUNK_BUDGET as nat, txt@),
                ),
            r is Err && r->Err_0 is VoiceNotFound ==> r->Err_0@ == Failure::VoiceNotFound(
                style_name@,
            ) && !is_blend(style_name@) && voice_index(self.voice_names(), style_name@) is None,
            r is Err ==> !(r->Err_0 is Sink),
            sentences_of(txt@).len() == 0 ==> r is Ok && r->Ok_0@.len() == 0,
    {
        let chunks = self.chunks_for(txt, &phonemize);
        let ghost all = strings(chunks@);
        let ghost request = self.request(
            lan@,
            style_name@,
            speed,
            initial_silence,
            tag(request_id),
            tag(instance_id),
            chunk_number,
        );
        let mut audio: Vec<S> = Vec::new();
        let mut i: usize = 0;
        while i < chunks.len()
            invariant
                i <= chunks.len(),
                all == strings(chunks@),
                chunks.len() == 0 <==> sentences_of(txt@).len() == 0,
                forall|k: int| 0 <= k < chunks.len() ==> (#[trigger] chunks[k])@.len() > 0,
                request == self.request(
                    lan@,
                    style_name@,
                    speed,
                    initial_silence,
                    tag(request_id),
                    tag(instance_id),
                    chunk_number,
                ),
                forall|ph: spec_fn(Seq<char>, Seq<char>) -> Result<Seq<char>, Seq<char>>| #[trigger]
                    phonemizes(phonemize, ph) ==> all == budget_chunks(
                        token_count(ph),
                        CHUNK_BUDGET as nat,
                        txt@,
                    ),
                forall|t: &str, l: &str| t@.len() > 0 ==> phonemize.requires((t, l)),
                forall|input: ChunkInput, v: V, note: Diagnostics|
                    engine_input(input@, self.voice_names().len()) ==> infer.requires(
                        (input, v, note),
                    ),
                forall|
                    ph: spec_fn(Seq<char>, Seq<char>) -> Result<Seq<char>, Seq<char>>,
                    inf: spec_fn(Input, V, Note) -> Result<Seq<S>, Seq<char>>,
                |
                    #![trigger phonemizes(phonemize, ph), infers(infer, inf)]
                    phonemizes(phonemize, ph) && infers(infer, inf) ==> audio_of(
                        ph,
                        inf,
                        request,
                        all.take(i as int),
                    ) == Ok::<Seq<S>, Failure>(audio@),
                i == 0 ==> audio@.len() == 0,
            decreases chunks.len() - i,
        {
            proof {
                assert(all.take(i + 1).drop_last() == all.take(i as int));
                assert(all.take(i + 1).last() == chunks@[i as int]@);
            }
            match self.chunk_audio(
                &chunks[i],
                lan,
                style_name,
                speed,
                initial_silence,
                request_id,
                instance_id,
                chunk_number,
                &phonemize,
                &infer,
            ) {
                Ok(mut part) => {
                    audio.append(&mut part);
                },
                Err(e) => {
                    proof {
                        assert forall|
                            ph: spec_fn(Seq<char>, Seq<char>) -> Result<Seq<char>, Seq<char>>,
                            inf: spec_fn(Input, V, Note) -> Result<Seq<S>, Seq<char>>,
                        |
                            #![trigger phonemizes(phonemize, ph), infers(infer, inf)]
                            phonemizes(phonemize, ph) && infers(infer, inf) implies audio_of(
                            ph,
                            inf,
                            request,
                            all,
                        ) == Err::<Seq<S>, Failure>(e@) by {
                            lemma_audio_of_failure(ph, inf, request, all, i + 1);
                        }
                    }
                    return Err(e);
                },
            }
            i += 1;
        }
        proof {
            assert(all.take(chunks@.len() as int) == all);
        }
        Ok(audio)
    }

    /// Synthesizes a text and hands the audio of each chunk to
    /// `chunk_callback` as soon as it is there, in the order of the chunks.
    ///
    /// The handler has a state: it is given `state` with the audio of the
    /// first chunk, and with each later chunk the state that it gave back for
    /// the chunk before. The state after the last chunk is the result. The
    /// first step that fails, of a chunk or of the handler, ends the request
    /// with its failure; no later chunk is begun. Where the function values
    /// compute `ph`, `inf` and `sink`, the outcome is that of `streamed` on
    /// the chunks of the text.
    pub fn tts_raw_audio_streaming<S, V: Copy, T, P: Fn(&str, &str) -> Result<String, String>, I: Fn(
        ChunkInput,
        V,
        Diagnostics,
    ) -> Result<Vec<S>, String>, C: Fn(T, Vec<S>) -> Result<T, String>>(
        &self,
        txt: &str,
        lan: &str,
        style_name: &str,
        speed: V,
        initial_silence: Option<usize>,
        request_id: Option<&str>,
        instance_id: Option<&str>,
        chunk_number: Option<usize>,
        phonemize: P,
        infer: I,
        state: T,
        chunk_callback: C,
    ) -> (r: Result<T, TtsError>)
        requires
            forall|t: &str, l: &str| t@.len() > 0 ==> phonemize.requires((t, l)),
            forall|input: ChunkInput, v: V, note: Diagnostics|
                engine_input(input@, self.voice_names().len()) ==> infer.requires(
                    (input, v, note),
                ),
            forall|st: T, audio: Vec<S>| chunk_callback.requires((st, audio)),
        ensures
            forall|
                ph: spec_fn(Seq<char>, Seq<char>) -> Result<Seq<char>, Seq<char>>,
                inf: spec_fn(Input, V, Note) -> Result<Seq<S>, Seq<char>>,
                sink: spec_fn(T, Seq<S>) -> Result<T, Seq<char>>,
            |
                #![trigger phonemizes(phonemize, ph), infers(infer, inf), delivers(chunk_callback, sink)]
                phonemizes(phonemize, ph) && infers(infer, inf) && delivers(chunk_callback, sink)
                    ==> stream_outcome(r) == streamed(
                    ph,
                    inf,
                    sink,
                    self.request(
                        lan@,
                        style_name@,
                        speed,
                        initial_silence,
                        tag(request_id),
                        tag(instance_id),
                        chunk_number,
                    ),
                    state,
                    budget_chunks(token_count(ph), CHUNK_BUDGET as nat, txt@),
                ),
            r is Err && r->Err_0 is VoiceNotFound ==> r->Err_0@ == Failure::VoiceNotFound(
                style_name@,
            ) && !is_blend(style_name@) && voice_index(self.voice_names(), style_name@) is None,
            sentences_of(txt@).len() == 0 ==> r == Ok::<T, TtsError>(state),
    {
        let chunks = self.chunks_for(txt, &phonemize);
        let ghost all = strings(chunks@);
        let ghost request = self.request(
            lan@,
            style_name@,
            speed,
            initial_silence,
            tag(request_id),
            tag(instance_id),
            chunk_number,
        );
        let mut current = state;
        let mut i: usize = 0;
        while i < chunks.len()
            invariant
                i <= chunks.len(),
                all == strings(chunks@),
                chunks.len() == 0 <==> sentences_of(txt@).len() == 0,
                forall|k: int| 0 <= k < chunks.len() ==> (#[trigger] chunks[k])@.len() > 0,
                request == self.request(
                    lan@,
                    style_name@,
                    speed,
                    initial_silence,
                    tag(request_id),
                    tag(instance_id),
                    chunk_number,
                ),
                forall|ph: spec_fn(Seq<char>, Seq<char>) -> Result<Seq<char>, Seq<char>>| #[trigger]
                    phonemizes(phonemize, ph) ==> all == budget_chunks(
                        token_count(ph),
                        CHUNK_BUDGET as nat,
                        txt@,
                    ),
                forall|t: &str, l: &str| t@.len() > 0 ==> phonemize.requires((t, l)),
                forall|input: ChunkInput, v: V, note: Diagnostics|
                    engine_input(input@, self.voice_names().len()) ==> infer.requires(
                        (input, v, note),
                    ),
                forall|st: T, audio: Vec<S>| chunk_callback.requires((st, audio)),
                forall|
                    ph: spec_fn(Seq<char>, Seq<char>) -> Result<Seq<char>, Seq<char>>,
                    inf: spec_fn(Input, V, Note) -> Result<Seq<S>, Seq<char>>,
                    sink: spec_fn(T, Seq<S>) -> Result<T, Seq<char>>,
                |
                    #![trigger phonemizes(phonemize, ph), infers(infer, inf), delivers(chunk_callback, sink)]
                    phonemizes(phonemize, ph) && infers(infer, inf) && delivers(
                        chunk_callback,
                        sink,
                    ) ==> streamed(ph, inf, sink, request, state, all.take(i as int)) == Ok::<
                        T,
                        Failure,
                    >(current),
                i == 0 ==> current == state,
            decreases chunks.len() - i,
        {
            proof {
                assert(all.take(i + 1).drop_last() == all.take(i as int));
                assert(all.take(i + 1).last() == chunks@[i as int]@);
            }
            let delivered = match self.chunk_audio(
                &chunks[i],
                lan,
                style_name,
                speed,
                initial_silence,
                request_id,
                instance_id,
                chunk_number,
                &phonemize,
                &infer,
            ) {
                Ok(part) => match chunk_callback(current, part) {
                    Ok(next) => Ok(next),
                    Err(message) => Err(TtsError::Sink(message)),
                },
                Err(e) => Err(e),
            };
            match delivered {
                Ok(next) => {
                    current = next;
                },
                Err(e) => {
                    proof {
                        lemma_stream_ends(
                            phonemize,
                            infer,
                            chunk_callback,
                            request,
                            state,
                            all,
                            i + 1,
                            e@,
                        );
                    }
                    return Err(e);
                },
            }
            i += 1;
        }
        proof {
            assert(all.take(chunks@.len() as int) == all);
        }
        Ok(current)
    }

    /// Synthesizes a text and has the audio written to a file: with one
    /// channel, or with two channels that carry the same samples.
    ///
    /// `write` takes the path, the layout of the file and the samples. Where
    /// the request fails nothing is written. Where the function values compute
    /// `ph`, `inf` and `wr`, the outcome is that of `saved`.
    pub fn tts<S: Copy, V: Copy, P: Fn(&str, &str) -> Result<String, String>, I: Fn(
        ChunkInput,
        V,
        Diagnostics,
    ) -> Result<Vec<S>, String>, W: Fn(&str, WavLayout, Vec<S>) -> Result<(), String>>(
        &self,
        opts: TTSOpts<'_, V>,
        phonemize: P,
        infer: I,
        write: W,
    ) -> (r: Result<(), TtsError>)
        requires
            forall|t: &str, l: &str| t@.len() > 0 ==> phonemize.requires((t, l)),
            forall|input: ChunkInput, v: V, note: Diagnostics|
                engine_input(input@, self.voice_names().len()) ==> infer.requires(
                    (input, v, note),
                ),
            forall|path: &str, layout: WavLayout, samples: Vec<S>|
                write.requires((path, layout, samples)),
        ensures
            forall|
                ph: spec_fn(Seq<char>, Seq<char>) -> Result<Seq<char>, Seq<char>>,
                inf: spec_fn(Input, V, Note) -> Result<Seq<S>, Seq<char>>,
                wr: spec_fn(Seq<char>, WavLayout, Seq<S>) -> Result<(), Seq<char>>,
            |
                #![trigger phonemizes(phonemize, ph), infers(infer, inf), writes(write, wr)]
                phonemizes(phonemize, ph) && infers(infer, inf) && writes(write, wr)
                    ==> stream_outcome(r) == saved(
                    ph,
                    inf,
                    wr,
                    self.request(
                        opts.lan@,
                        opts.style_name@,
                        opts.speed,
                        opts.initial_silence,
                        None,
                        None,
                        None,
                    ),
                    budget_chunks(token_count(ph), CHUNK_BUDGET as nat, opts.txt@),
                    opts.save_path@,
                    self.rate(),
                    opts.mono,
                ),
            r is Err && r->Err_0 is VoiceNotFound ==> r->Err_0@ == Failure::VoiceNotFound(
                opts.style_name@,
            ) && !is_blend(opts.style_name@) && voice_index(
                self.voice_names(),
                opts.style_name@,
            ) is None,
    {
        let gathered = self.tts_raw_audio(
            opts.txt,
            opts.lan,
            opts.style_name,
            opts.speed,
            opts.initial_silence,
            None,
            None,
            None,
            phonemize,
            infer,
        );
        let audio = match gathered {
            Ok(audio) => audio,
            Err(e) => {
                return Err(e);
            },
        };
        let samples = wav_frames(&audio, opts.mono);
        let layout = wav_layout(self.sample_rate(), opts.mono);
        match write(opts.save_path, layout, samples) {
            Ok(_) => Ok(()),
            Err(message) => Err(TtsError::Sink(message)),
        }
    }
}

/// A streamed request that has failed among its first chunks has failed.
proof fn lemma_stream_ends<S, V, T, P: Fn(&str, &str) -> Result<String, String>, I: Fn(
    ChunkInput,
    V,
    Diagnostics,
) -> Result<Vec<S>, String>, C: Fn(T, Vec<S>) -> Result<T, String>>(
    phonemize: P,
    infer: I,
    callback: C,
    request: Request<V>,
    start: T,
    all: Seq<Seq<char>>,
    n: int,
    failure: Failure,
)
    requires
        0 <= n <= all.len(),
        forall|
            ph: spec_fn(Seq<char>, Seq<char>) -> Result<Seq<char>, Seq<char>>,
            inf: spec_fn(Input, V, Note) -> Result<Seq<S>, Seq<char>>,
            sink: spec_fn(T, Seq<S>) -> Result<T, Seq<char>>,
        |
            #![trigger phonemizes(phonemize, ph), infers(infer, inf), delivers(callback, sink)]
            phonemizes(phonemize, ph) && infers(infer, inf) && delivers(callback, sink)
                ==> streamed(ph, inf, sink, request, start, all.take(n)) == Err::<T, Failure>(
                failure,
            ),
    ensures
        forall|
            ph: spec_fn(Seq<char>, Seq<char>) -> Result<Seq<char>, Seq<char>>,
            inf: spec_fn(Input, V, Note) -> Result<Seq<S>, Seq<char>>,
            sink: spec_fn(T, Seq<S>) -> Result<T, Seq<char>>,
        |
            #![trigger phonemizes(phonemize, ph), infers(infer, inf), delivers(callback, sink)]
            phonemizes(phonemize, ph) && infers(infer, inf) && delivers(callback, sink)
                ==> streamed(ph, inf, sink, request, start, all) == Err::<T, Failure>(failure),
{
    assert forall|
        ph: spec_fn(Seq<char>, Seq<char>) -> Result<Seq<char>, Seq<char>>,
        inf: spec_fn(Input, V, Note) -> Result<Seq<S>, Seq<char>>,
        sink: spec_fn(T, Seq<S>) -> Result<T, Seq<char>>,
    |
        #![trigger phonemizes(phonemize, ph), infers(infer, inf), delivers(callback, sink)]
        phonemizes(phonemize, ph) && infers(infer, inf) && delivers(
            callback,
            sink,
        ) implies streamed(ph, inf, sink, request, start, all) == Err::<T, Failure>(failure) by {
        lemma_streamed_failure(ph, inf, sink, request, start, all, n);
    }
}

} // verus!
