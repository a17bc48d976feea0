//! Chunking under a token budget: whole sentences are gathered while their
//! measured length, with the two pad tokens that frame a chunk, fits, and a
//! sentence that alone exceeds the budget is packed word by word.
//!
//! The measure is handed in by the caller; it stands for the phonemizer and
//! the tokenizer behind it. Where it is a function of the text, the chunks
//! are a function of text, budget and measure.

use crate::tts::speech::{all_nonempty, flushed, join_spaced};
use crate::tts::text::{
    blank, chars_of, is_blank, is_whitespace, is_word, lemma_trim, lemma_words,
    lemma_words_of_trim, lemma_words_of_word, lemma_words_spaced, pieces, slice_of, spaced,
    split_at_marks, split_words, string_of, strings, strings_of, texts, trim, trimmed, words,
};
use vstd::prelude::*;

verus! {

/// Number of pad tokens that frame the tokens of a chunk.
pub const PADDING: usize = 2;

/// Whether a text that measures `count` tokens exceeds a budget of `max`
/// tokens once the pad tokens are added to it.
pub open spec fn over(count: nat, max: nat) -> bool {
    count + PADDING > max
}

/// The characters that end a sentence for this chunker.
pub open spec fn budget_marks() -> Seq<char> {
    seq!['.', '?', '!', ';']
}

/// The sentences among `parts`, each trimmed and closed with a full stop;
/// blank parts are passed over.
pub open spec fn sentences(parts: Seq<Seq<char>>) -> Seq<Seq<char>>
    decreases parts.len(),
{
    if parts.len() == 0 {
        Seq::empty()
    } else if is_blank(parts.last()) {
        sentences(parts.drop_last())
    } else {
        sentences(parts.drop_last()).push(trim(parts.last()).push('.'))
    }
}

/// The sentences of a text.
pub open spec fn sentences_of(text: Seq<char>) -> Seq<Seq<char>> {
    sentences(pieces(text, budget_marks()))
}

/// Whether the function value `measure` computes `m`: whatever it returns for
/// a text is `m` of that text.
pub open spec fn measures<F: Fn(&str) -> usize>(measure: F, m: spec_fn(Seq<char>) -> nat) -> bool {
    forall|t: &str, n: usize| #[trigger] measure.ensures((t,), n) ==> n as nat == m(t@)
}

/// Packing of words under a budget: the chunks that are complete and the
/// chunk that is still open. A word joins the open chunk while the two
/// together measure within the budget and opens a new chunk otherwise.
pub open spec fn pack_words(m: spec_fn(Seq<char>) -> nat, max: nat, ws: Seq<Seq<char>>) -> (
    Seq<Seq<char>>,
    Seq<char>,
)
    decreases ws.len(),
{
    if ws.len() == 0 {
        (Seq::empty(), Seq::empty())
    } else {
        let (chunks, open) = pack_words(m, max, ws.drop_last());
        let word = ws.last();
        let joined = if open.len() == 0 {
            word
        } else {
            spaced(open, word)
        };
        if over(m(joined), max) {
            (flushed(chunks, open), word)
        } else {
            (chunks, joined)
        }
    }
}

/// The chunks of a sentence that is packed word by word.
pub open spec fn word_chunks(m: spec_fn(Seq<char>) -> nat, max: nat, sentence: Seq<char>) -> Seq<
    Seq<char>,
> {
    flushed(pack_words(m, max, words(sentence)).0, pack_words(m, max, words(sentence)).1)
}

/// Packing of sentences under a budget: the chunks that are complete and the
/// chunk that is still open. A sentence that measures within the budget joins
/// the open chunk while the two together still do, and opens a new chunk
/// otherwise. One that alone exceeds the budget closes the open chunk and is
/// packed word by word, so that the chunks keep the order of the text.
pub open spec fn pack_sentences(m: spec_fn(Seq<char>) -> nat, max: nat, ss: Seq<Seq<char>>) -> (
    Seq<Seq<char>>,
    Seq<char>,
)
    decreases ss.len(),
{
    if ss.len() == 0 {
        (Seq::empty(), Seq::empty())
    } else {
        let (chunks, open) = pack_sentences(m, max, ss.drop_last());
        let sentence = ss.last();
        if over(m(sentence), max) {
            (flushed(chunks, open) + word_chunks(m, max, sentence), Seq::empty())
        } else if open.len() == 0 {
            (chunks, sentence)
        } else if over(m(spaced(open, sentence)), max) {
            (chunks.push(open), sentence)
        } else {
            (chunks, spaced(open, sentence))
        }
    }
}

/// The chunks of `text` under a budget of `max` tokens as `m` measures them.
pub open spec fn budget_chunks(m: spec_fn(Seq<char>) -> nat, max: nat, text: Seq<char>) -> Seq<
    Seq<char>,
> {
    flushed(
        pack_sentences(m, max, sentences_of(text)).0,
        pack_sentences(m, max, sentences_of(text)).1,
    )
}

/// The words of all of `parts`, in order.
pub open spec fn all_words(parts: Seq<Seq<char>>) -> Seq<Seq<char>>
    decreases parts.len(),
{
    if parts.len() == 0 {
        Seq::empty()
    } else {
        all_words(parts.drop_last()) + words(parts.last())
    }
}

/// Whether every one of `chunks` measures within the budget with its pad
/// tokens, or is a single word.
pub open spec fn within_budget(m: spec_fn(Seq<char>) -> nat, max: nat, chunks: Seq<Seq<char>>) -> bool {
    forall|i: int|
        0 <= i < chunks.len() ==> !over(m(#[trigger] chunks[i]), max) || words(chunks[i]).len() == 1
}

/// Whether `measure` has answered for the text `chunk` with a count that is
/// within the budget with the pad tokens.
pub open spec fn measured_within<F: Fn(&str) -> usize>(measure: F, max: usize, chunk: Seq<char>) -> bool {
    exists|t: &str, n: usize|
        #[trigger] measure.ensures((t,), n) && t@ == chunk && !over(n as nat, max as nat)
}

/// Whether every one of `chunks` was measured within the budget with its
/// pad tokens, or is a single word.
pub open spec fn all_fit<F: Fn(&str) -> usize>(measure: F, max: usize, chunks: Seq<Seq<char>>) -> bool {
    forall|i: int|
        0 <= i < chunks.len() ==> measured_within(measure, max, #[trigger] chunks[i]) || words(
            chunks[i],
        ).len() == 1
}

/// The words of two lists of texts put together are the words of the first
/// followed by those of the second.
pub proof fn lemma_all_words_concat(a: Seq<Seq<char>>, b: Seq<Seq<char>>)
    ensures
        all_words(a + b) == all_words(a) + all_words(b),
    decreases b.len(),
{
    if b.len() == 0 {
        assert(a + b == a);
        assert(all_words(a) + all_words(b) == all_words(a));
    } else {
        lemma_all_words_concat(a, b.drop_last());
        assert((a + b).drop_last() == a + b.drop_last());
        assert((a + b).last() == b.last());
        assert((all_words(a) + all_words(b.drop_last())) + words(b.last()) == all_words(a) + (
        all_words(b.drop_last()) + words(b.last())));
    }
}

/// Closing the open chunk keeps the words.
pub proof fn lemma_all_words_flushed(chunks: Seq<Seq<char>>, open: Seq<char>)
    ensures
        all_words(flushed(chunks, open)) == all_words(chunks) + words(open),
{
    if open.len() > 0 {
        assert(chunks.push(open).drop_last() == chunks);
    } else {
        assert(all_words(chunks) + words(open) == all_words(chunks));
    }
}

/// Whether `s` has the form of a sentence: a text that does not begin with
/// white space, closed with a full stop.
pub open spec fn is_sentence(s: Seq<char>) -> bool {
    s.len() >= 2 && s.last() == '.' && !is_whitespace(s.first())
}

/// Every sentence of a text has the form of a sentence.
pub proof fn lemma_sentences(parts: Seq<Seq<char>>)
    ensures
        forall|i: int| 0 <= i < sentences(parts).len() ==> is_sentence(#[trigger] sentences(parts)[i]),
        all_nonempty(sentences(parts)),
    decreases parts.len(),
{
    if parts.len() > 0 {
        lemma_sentences(parts.drop_last());
        if !is_blank(parts.last()) {
            lemma_trim(parts.last());
            let t = trim(parts.last());
            assert(t.push('.').first() == t.first());
            assert(is_sentence(t.push('.')));
            let before = sentences(parts.drop_last());
            assert forall|i: int| 0 <= i < sentences(parts).len() implies is_sentence(
                #[trigger] sentences(parts)[i],
            ) by {
                if i < before.len() {
                    assert(sentences(parts)[i] == before[i]);
                }
            }
        }
    }
}

/// Word packing keeps the words: the chunks and the open chunk together hold
/// exactly the words that were packed, and no chunk is empty.
pub proof fn lemma_pack_words(m: spec_fn(Seq<char>) -> nat, max: nat, ws: Seq<Seq<char>>)
    requires
        forall|i: int| 0 <= i < ws.len() ==> is_word(#[trigger] ws[i]),
    ensures
        all_words(pack_words(m, max, ws).0) + words(pack_words(m, max, ws).1) == ws,
        all_nonempty(pack_words(m, max, ws).0),
        ws.len() > 0 ==> pack_words(m, max, ws).1.len() > 0,
        within_budget(m, max, pack_words(m, max, ws).0),
        !over(m(pack_words(m, max, ws).1), max) || words(pack_words(m, max, ws).1).len() <= 1,
    decreases ws.len(),
{
    if ws.len() == 0 {
        assert(all_words(Seq::empty()) + words(Seq::empty()) == ws);
    } else {
        let rest = ws.drop_last();
        assert forall|i: int| 0 <= i < rest.len() implies is_word(#[trigger] rest[i]) by {
            assert(rest[i] == ws[i]);
        }
        lemma_pack_words(m, max, rest);
        let (chunks, open) = pack_words(m, max, rest);
        let word = ws.last();
        assert(is_word(ws[ws.len() - 1]));
        lemma_words_of_word(word);
        lemma_words_spaced(open, word);
        lemma_all_words_flushed(chunks, open);
        assert(rest + seq![word] == ws);
        assert((all_words(chunks) + words(open)) + seq![word] == all_words(chunks) + (words(open)
            + seq![word]));
        if open.len() == 0 {
            assert(words(open) + seq![word] == seq![word]);
        }
    }
}

/// Coverage: the chunks hold every word of the text's sentences, in order.
pub proof fn lemma_pack_sentences(m: spec_fn(Seq<char>) -> nat, max: nat, ss: Seq<Seq<char>>)
    ensures
        all_words(pack_sentences(m, max, ss).0) + words(pack_sentences(m, max, ss).1) == all_words(
            ss,
        ),
        all_nonempty(ss) ==> all_nonempty(pack_sentences(m, max, ss).0),
        within_budget(m, max, pack_sentences(m, max, ss).0),
        pack_sentences(m, max, ss).1.len() > 0 ==> !over(m(pack_sentences(m, max, ss).1), max),
    decreases ss.len(),
{
    if ss.len() == 0 {
        assert(all_words(Seq::empty()) + words(Seq::empty()) == all_words(ss));
    } else {
        let rest = ss.drop_last();
        lemma_pack_sentences(m, max, rest);
        if all_nonempty(ss) {
            assert forall|i: int| 0 <= i < rest.len() implies (#[trigger] rest[i]).len() > 0 by {
                assert(rest[i] == ss[i]);
            }
        }
        let (chunks, open) = pack_sentences(m, max, rest);
        let sentence = ss.last();
        lemma_words_spaced(open, sentence);
        lemma_all_words_flushed(chunks, open);
        if over(m(sentence), max) {
            lemma_words(sentence);
            lemma_pack_words(m, max, words(sentence));
            let (wc, wo) = pack_words(m, max, words(sentence));
            lemma_all_words_flushed(wc, wo);
            lemma_all_words_concat(flushed(chunks, open), word_chunks(m, max, sentence));
            assert(words(Seq::<char>::empty()) == Seq::<Seq<char>>::empty());
            assert(all_words(flushed(chunks, open) + word_chunks(m, max, sentence)) + Seq::<
                Seq<char>,
            >::empty() == all_words(rest) + words(sentence));
            assert(within_budget(m, max, flushed(chunks, open) + word_chunks(m, max, sentence)))
                by {
                let a = flushed(chunks, open);
                let b = word_chunks(m, max, sentence);
                assert forall|i: int| 0 <= i < (a + b).len() implies !over(
                    m(#[trigger] (a + b)[i]),
                    max,
                ) || words((a + b)[i]).len() == 1 by {
                    if i < a.len() {
                        assert((a + b)[i] == a[i]);
                        if i < chunks.len() {
                            assert(a[i] == chunks[i]);
                        }
                    } else {
                        assert((a + b)[i] == b[i - a.len()]);
                        if i - a.len() < wc.len() {
                            assert(b[i - a.len()] == wc[i - a.len()]);
                        } else {
                            lemma_words(wo);
                        }
                    }
                }
            }
        } else if open.len() == 0 {
            assert(words(open) == Seq::<Seq<char>>::empty());
            assert(all_words(chunks) + words(open) == all_words(chunks));
        } else if over(m(spaced(open, sentence)), max) {
            assert(chunks.push(open).drop_last() == chunks);
        } else {
            assert((all_words(chunks) + words(open)) + words(sentence) == all_words(chunks) + (
            words(open) + words(sentence)));
        }
    }
}

/// The chunks are a function of the text, the budget and what the measure
/// answers: two measures that agree on every text give the same chunks, and
/// so does the same measure asked twice.
pub proof fn lemma_budget_chunks_determined(
    m1: spec_fn(Seq<char>) -> nat,
    m2: spec_fn(Seq<char>) -> nat,
    max: nat,
    text: Seq<char>,
)
    requires
        forall|t: Seq<char>| #[trigger] m1(t) == m2(t),
    ensures
        budget_chunks(m1, max, text) == budget_chunks(m2, max, text),
{
    assert(m1 =~= m2);
}

/// Coverage: the chunks of a text hold every word of its sentences, in the
/// order of the text.
pub proof fn lemma_budget_chunks_cover(m: spec_fn(Seq<char>) -> nat, max: nat, text: Seq<char>)
    ensures
        all_words(budget_chunks(m, max, text)) == all_words(sentences_of(text)),
{
    let ss = sentences_of(text);
    lemma_pack_sentences(m, max, ss);
    lemma_all_words_flushed(pack_sentences(m, max, ss).0, pack_sentences(m, max, ss).1);
}

/// Budget: every chunk of a text, counted with its two pad tokens, is within
/// the budget, except a chunk that is a single word.
pub proof fn lemma_budget_chunks_fit(m: spec_fn(Seq<char>) -> nat, max: nat, text: Seq<char>)
    ensures
        within_budget(m, max, budget_chunks(m, max, text)),
{
    let ss = sentences_of(text);
    lemma_pack_sentences(m, max, ss);
    let (chunks, open) = pack_sentences(m, max, ss);
    assert forall|i: int| 0 <= i < flushed(chunks, open).len() implies !over(
        m(#[trigger] flushed(chunks, open)[i]),
        max,
    ) || words(flushed(chunks, open)[i]).len() == 1 by {
        if i < chunks.len() {
            assert(flushed(chunks, open)[i] == chunks[i]);
        }
    }
}

/// No chunk of a text is empty.
pub proof fn lemma_budget_chunks_nonempty(m: spec_fn(Seq<char>) -> nat, max: nat, text: Seq<char>)
    ensures
        all_nonempty(budget_chunks(m, max, text)),
{
    let ss = sentences_of(text);
    lemma_sentences(pieces(text, budget_marks()));
    lemma_pack_sentences(m, max, ss);
}

/// The words of a part with a full stop added to the last of them.
pub open spec fn closed_words(part: Seq<char>) -> Seq<Seq<char>> {
    words(part).drop_last().push(words(part).last().push('.'))
}

/// The words of a sentence are the words of the part of the text that it
/// was made from, with the full stop added to the last word.
pub proof fn lemma_words_of_sentence(part: Seq<char>)
    requires
        !is_blank(part),
    ensures
        words(trim(part).push('.')) == closed_words(part),
{
    lemma_trim(part);
    lemma_words_of_trim(part);
    let t = trim(part);
    let s = t.push('.');
    assert(s.drop_last() == t);
    assert(s[s.len() - 2] == t.last());
}

/// The words of the parts of a text that are not blank, each part closed
/// with a full stop after its last word.
pub open spec fn closed_parts_words(parts: Seq<Seq<char>>) -> Seq<Seq<char>>
    decreases parts.len(),
{
    if parts.len() == 0 {
        Seq::empty()
    } else if is_blank(parts.last()) {
        closed_parts_words(parts.drop_last())
    } else {
        closed_parts_words(parts.drop_last()) + closed_words(parts.last())
    }
}

/// The words of the sentences of a text are the words of the text between
/// its sentence marks, in order, with a full stop after the last word of each
/// sentence.
pub proof fn lemma_words_of_sentences(parts: Seq<Seq<char>>)
    ensures
        all_words(sentences(parts)) == closed_parts_words(parts),
    decreases parts.len(),
{
    if parts.len() > 0 {
        lemma_words_of_sentences(parts.drop_last());
        if !is_blank(parts.last()) {
            lemma_words_of_sentence(parts.last());
            let before = sentences(parts.drop_last());
            assert(before.push(trim(parts.last()).push('.')).drop_last() == before);
        }
    }
}

/// Tells whether a measured count exceeds the budget with its pad tokens.
pub fn exceeds(count: usize, max_tokens: usize) -> (r: bool)
    ensures
        r == over(count as nat, max_tokens as nat),
{
    max_tokens < PADDING || count > max_tokens - PADDING
}

/// Packs words under the budget and adds the chunks to `chunks`.
pub fn pack_words_into<F: Fn(&str) -> usize>(
    ws: &Vec<Vec<char>>,
    max_tokens: usize,
    measure: &F,
    chunks: &mut Vec<Vec<char>>,
)
    requires
        forall|t: &str| t@.len() > 0 ==> measure.requires((t,)),
        forall|i: int| 0 <= i < ws.len() ==> is_word(#[trigger] ws[i]@),
    ensures
        forall|m: spec_fn(Seq<char>) -> nat| #[trigger]
            measures(*measure, m) ==> texts(final(chunks)@) == texts(old(chunks)@) + flushed(
                pack_words(m, max_tokens as nat, texts(ws@)).0,
                pack_words(m, max_tokens as nat, texts(ws@)).1,
            ),
        all_words(texts(final(chunks)@)) == all_words(texts(old(chunks)@)) + texts(ws@),
        all_nonempty(texts(old(chunks)@)) ==> all_nonempty(texts(final(chunks)@)),
        all_fit(*measure, max_tokens, texts(old(chunks)@)) ==> all_fit(
            *measure,
            max_tokens,
            texts(final(chunks)@),
        ),
        final(chunks).len() >= old(chunks).len(),
        ws.len() > 0 ==> final(chunks).len() > old(chunks).len(),
{
    let ghost before = texts(chunks@);
    let ghost held = chunks.len();
    let ghost all = texts(ws@);
    let ghost max = max_tokens as nat;
    let mut open: Vec<char> = Vec::new();
    let mut i: usize = 0;
    proof {
        assert(before + Seq::<Seq<char>>::empty() == before);
        assert(all.take(0) == Seq::<Seq<char>>::empty());
        assert(words(open@) == Seq::<Seq<char>>::empty());
        assert(all_words(before) + words(open@) == all_words(before) + all.take(0));
    }
    while i < ws.len()
        invariant
            i <= ws.len(),
            all == texts(ws@),
            max == max_tokens as nat,
            forall|t: &str| t@.len() > 0 ==> measure.requires((t,)),
            forall|k: int| 0 <= k < ws.len() ==> is_word(#[trigger] ws[k]@),
            forall|m: spec_fn(Seq<char>) -> nat| #[trigger]
                measures(*measure, m) ==> texts(chunks@) == before + pack_words(
                    m,
                    max,
                    all.take(i as int),
                ).0 && open@ == pack_words(m, max, all.take(i as int)).1,
            all_words(texts(chunks@)) + words(open@) == all_words(before) + all.take(i as int),
            all_nonempty(before) ==> all_nonempty(texts(chunks@)),
            all_fit(*measure, max_tokens, before) ==> all_fit(
                *measure,
                max_tokens,
                texts(chunks@),
            ),
            open@.len() == 0 || measured_within(*measure, max_tokens, open@) || words(open@).len()
                == 1,
            i > 0 ==> open@.len() > 0,
            chunks.len() >= held,
        decreases ws.len() - i,
    {
        let word = &ws[i];
        let joined = if open.len() == 0 {
            slice_of(word, 0, word.len())
        } else {
            join_spaced(&open, word)
        };
        let joined_text = string_of(&joined);
        let n = measure(joined_text.as_str());
        proof {
            if !over(n as nat, max_tokens as nat) {
                assert(measured_within(*measure, max_tokens, joined@));
            }
            let s = all.take(i + 1);
            assert(s.drop_last() == all.take(i as int));
            assert(s.last() == word@);
            assert(word@.subrange(0, word@.len() as int) == word@);
            assert(is_word(ws[i as int]@));
            lemma_words_of_word(word@);
            lemma_words_spaced(open@, word@);
            assert(all.take(i + 1) == all.take(i as int) + seq![word@]);
            assert((all_words(before) + all.take(i as int)) + seq![word@] == all_words(before) + (
            all.take(i as int) + seq![word@]));
            if open@.len() == 0 {
                assert(words(open@) == Seq::<Seq<char>>::empty());
            }
        }
        if exceeds(n, max_tokens) {
            if open.len() > 0 {
                proof {
                    assert(texts(chunks@.push(open)) == texts(chunks@).push(open@));
                    assert(texts(chunks@).push(open@).drop_last() == texts(chunks@));
                    assert forall|m: spec_fn(Seq<char>) -> nat| #[trigger]
                        measures(*measure, m) implies texts(chunks@).push(open@) == before
                        + flushed(
                        pack_words(m, max, all.take(i as int)).0,
                        pack_words(m, max, all.take(i as int)).1,
                    ) by {
                        let done = pack_words(m, max, all.take(i as int)).0;
                        assert((before + done).push(open@) == before + done.push(open@));
                    }
                    assert((all_words(texts(chunks@)) + words(open@)) + seq![word@] == all_words(
                        texts(chunks@),
                    ) + words(open@) + words(word@));
                }
                chunks.push(open);
            }
            open = slice_of(word, 0, word.len());
        } else {
            proof {
                assert((all_words(texts(chunks@)) + words(open@)) + seq![word@] == all_words(
                    texts(chunks@),
                ) + (words(open@) + seq![word@]));
            }
            open = joined;
        }
        i += 1;
    }
    proof {
        assert(all.take(ws@.len() as int) == all);
    }
    if open.len() > 0 {
        proof {
            assert(texts(chunks@.push(open)) == texts(chunks@).push(open@));
            assert(texts(chunks@).push(open@).drop_last() == texts(chunks@));
            assert forall|m: spec_fn(Seq<char>) -> nat| #[trigger]
                measures(*measure, m) implies texts(chunks@).push(open@) == before + flushed(
                pack_words(m, max, all).0,
                pack_words(m, max, all).1,
            ) by {
                let done = pack_words(m, max, all).0;
                assert((before + done).push(open@) == before + done.push(open@));
            }
        }
        chunks.push(open);
    } else {
        proof {
            assert(words(open@) == Seq::<Seq<char>>::empty());
            assert(all_words(texts(chunks@)) + words(open@) == all_words(texts(chunks@)));
        }
    }
}

/// Splits a text into chunks under a budget of `max_tokens` tokens.
///
/// A sentence ends at `.`, `?`, `!` or `;`; each is trimmed and closed with a
/// full stop. `measure` gives the token count of a text; it is asked about
/// texts that are not empty only, and its answer counts with the two pad
/// tokens that frame a chunk. Sentences are gathered, with a space between
/// them, while the gathered text stays within the budget. A sentence that
/// alone exceeds the budget closes the chunk before it and is packed word by
/// word in the same way.
///
/// Whatever `measure` answers, no chunk is empty, the chunks hold the words of
/// the sentences in the order of the text, and every chunk was measured
/// within the budget or is a single word. Where `measure` computes a function
/// `m`, the chunks are `budget_chunks(m, max_tokens, text)`.
pub fn split_text_into_chunks<F: Fn(&str) -> usize>(text: &str, max_tokens: usize, measure: F) -> (out:
    Vec<String>)
    requires
        forall|t: &str| t@.len() > 0 ==> measure.requires((t,)),
    ensures
        forall|m: spec_fn(Seq<char>) -> nat| #[trigger]
            measures(measure, m) ==> strings(out@) == budget_chunks(m, max_tokens as nat, text@),
        all_words(strings(out@)) == all_words(sentences_of(text@)),
        all_fit(measure, max_tokens, strings(out@)),
        forall|i: int| 0 <= i < out.len() ==> (#[trigger] out[i])@.len() > 0,
        out.len() == 0 <==> sentences_of(text@).len() == 0,
{
    let chars = chars_of(text);
    let marks: Vec<char> = vec!['.', '?', '!', ';'];
    assert(marks@ == budget_marks());
    let parts = split_at_marks(&chars, &marks);
    let ghost all = texts(parts@);
    let ghost max = max_tokens as nat;
    let mut chunks: Vec<Vec<char>> = Vec::new();
    let mut open: Vec<char> = Vec::new();
    let mut i: usize = 0;
    proof {
        assert(words(open@) == Seq::<Seq<char>>::empty());
        assert(all_words(texts(chunks@)) + words(open@) == all_words(sentences(all.take(0))));
    }
    while i < parts.len()
        invariant
            i <= parts.len(),
            all == texts(parts@),
            max == max_tokens as nat,
            forall|t: &str| t@.len() > 0 ==> measure.requires((t,)),
            forall|m: spec_fn(Seq<char>) -> nat| #[trigger]
                measures(measure, m) ==> texts(chunks@) == pack_sentences(
                    m,
                    max,
                    sentences(all.take(i as int)),
                ).0 && open@ == pack_sentences(m, max, sentences(all.take(i as int))).1,
            all_words(texts(chunks@)) + words(open@) == all_words(sentences(all.take(i as int))),
            all_nonempty(texts(chunks@)),
            all_fit(measure, max_tokens, texts(chunks@)),
            open@.len() == 0 || measured_within(measure, max_tokens, open@),
            chunks.len() == 0 && open.len() == 0 <==> sentences(all.take(i as int)).len() == 0,
        decreases parts.len() - i,
    {
        proof {
            let s = all.take(i + 1);
            assert(s.drop_last() == all.take(i as int));
            assert(s.last() == parts@[i as int]@);
        }
        if !blank(&parts[i]) {
            let mut sentence = trimmed(&parts[i]);
            sentence.push('.');
            let ghost ss = sentences(all.take(i + 1));
            proof {
                assert(ss.drop_last() == sentences(all.take(i as int)));
                assert(ss.last() == sentence@);
                lemma_words_spaced(open@, sentence@);
            }
            let sentence_text = string_of(&sentence);
            let n = measure(sentence_text.as_str());
            proof {
                if !over(n as nat, max_tokens as nat) {
                    assert(measured_within(measure, max_tokens, sentence@));
                }
            }
            if exceeds(n, max_tokens) {
                if open.len() > 0 {
                    proof {
                        assert(texts(chunks@.push(open)) == texts(chunks@).push(open@));
                        assert(texts(chunks@).push(open@).drop_last() == texts(chunks@));
                    }
                    chunks.push(open);
                    open = Vec::new();
                }
                let ghost closed = texts(chunks@);
                proof {
                    assert(words(Seq::<char>::empty()) == Seq::<Seq<char>>::empty());
                    assert(all_words(closed) + Seq::<Seq<char>>::empty() == all_words(closed));
                    assert(all_words(closed) == all_words(ss.drop_last()));
                    lemma_words(sentence@);
                }
                let ws = split_words(&sentence);
                proof {
                    assert forall|k: int| 0 <= k < ws.len() implies is_word(#[trigger] ws[k]@) by {
                        assert(texts(ws@)[k] == ws[k]@);
                    }
                }
                pack_words_into(&ws, max_tokens, &measure, &mut chunks);
                proof {
                    assert(all_words(texts(chunks@)) + words(open@) == all_words(texts(chunks@)));
                }
            } else if open.len() == 0 {
                proof {
                    assert(words(open@) == Seq::<Seq<char>>::empty());
                    assert(all_words(texts(chunks@)) + words(open@) == all_words(texts(chunks@)));
                }
                open = sentence;
            } else {
                let joined = join_spaced(&open, &sentence);
                let joined_text = string_of(&joined);
                let k = measure(joined_text.as_str());
                proof {
                    if !over(k as nat, max_tokens as nat) {
                        assert(measured_within(measure, max_tokens, joined@));
                    }
                }
                if exceeds(k, max_tokens) {
                    proof {
                        assert(texts(chunks@.push(open)) == texts(chunks@).push(open@));
                        assert(texts(chunks@).push(open@).drop_last() == texts(chunks@));
                    }
                    chunks.push(open);
                    open = sentence;
                } else {
                    proof {
                        assert((all_words(texts(chunks@)) + words(open@)) + words(sentence@)
                            == all_words(texts(chunks@)) + (words(open@) + words(sentence@)));
                    }
                    open = joined;
                }
            }
        }
        i += 1;
    }
    proof {
        assert(all.take(parts@.len() as int) == all);
        lemma_all_words_flushed(texts(chunks@), open@);
    }
    if open.len() > 0 {
        proof {
            assert(texts(chunks@.push(open)) == texts(chunks@).push(open@));
        }
        chunks.push(open);
    }
    let out = strings_of(&chunks);
    proof {
        assert forall|i: int| 0 <= i < out.len() implies (#[trigger] out[i])@.len() > 0 by {
            assert(strings(out@)[i] == out[i]@);
            assert(texts(chunks@)[i].len() > 0);
        }
    }
    out
}

} // verus!
