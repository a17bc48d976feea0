//! Chunking by word count: sentences that are short enough stay whole, longer
//! ones are cut at clause marks and packed, and a text that holds no sentence
//! mark is packed word by word, so many words to a chunk.

use crate::tts::budget::{all_words, lemma_all_words_flushed};
use crate::tts::text::{
    blank, chars_of, holds_mark, is_blank, is_whitespace, is_word, lemma_pieces,
    lemma_pieces_of_blank, lemma_pieces_single, lemma_trim, lemma_trim_end, lemma_trim_start,
    lemma_words, lemma_words_of_word, lemma_words_spaced, trim_start,
    pieces, slice_of, spaced, split_at_marks, split_words, strings, strings_of, texts, trim,
    trimmed, words,
};
use vstd::prelude::*;

verus! {

/// The characters that end a sentence for this chunker.
pub open spec fn sentence_marks() -> Seq<char> {
    seq!['.', '!', '?']
}

/// Whether `c` ends a clause inside a sentence.
pub open spec fn is_clause_mark(c: char) -> bool {
    c == ',' || c == ';' || c == ':'
}

/// The clauses found so far in `s` and the clause that is still open. A
/// clause ends with its mark; a mark that follows nothing is dropped.
pub open spec fn clause_scan(s: Seq<char>) -> (Seq<Seq<char>>, Seq<char>)
    decreases s.len(),
{
    if s.len() == 0 {
        (Seq::empty(), Seq::empty())
    } else {
        let (closed, open) = clause_scan(s.drop_last());
        let c = s.last();
        if !is_clause_mark(c) {
            (closed, open.push(c))
        } else if open.len() > 0 {
            (closed.push(open.push(c)), Seq::empty())
        } else {
            (closed, Seq::empty())
        }
    }
}

/// `chunks` with `current` added at the end unless it is empty.
pub open spec fn flushed(chunks: Seq<Seq<char>>, current: Seq<char>) -> Seq<Seq<char>> {
    if current.len() > 0 {
        chunks.push(current)
    } else {
        chunks
    }
}

/// The clauses of a sentence as they are cut: each with its mark, the rest
/// of the sentence last.
pub open spec fn raw_clauses(s: Seq<char>) -> Seq<Seq<char>> {
    flushed(clause_scan(s).0, clause_scan(s).1)
}

/// Each text trimmed, without those that are blank.
pub open spec fn tidy(parts: Seq<Seq<char>>) -> Seq<Seq<char>>
    decreases parts.len(),
{
    if parts.len() == 0 {
        Seq::empty()
    } else {
        flushed(tidy(parts.drop_last()), trim(parts.last()))
    }
}

/// Packing of `parts` under a limit of `max` words: the chunks that are
/// complete, the chunk that is still open, and the number of words in it. A
/// part joins the open chunk while the limit allows it and opens a new chunk
/// otherwise.
pub open spec fn pack(parts: Seq<Seq<char>>, max: nat) -> (Seq<Seq<char>>, Seq<char>, nat)
    decreases parts.len(),
{
    if parts.len() == 0 {
        (Seq::empty(), Seq::empty(), 0)
    } else {
        let (chunks, current, count) = pack(parts.drop_last(), max);
        let part = parts.last();
        let n = words(part).len();
        if count + n <= max {
            (
                chunks,
                if current.len() == 0 {
                    part
                } else {
                    spaced(current, part)
                },
                count + n,
            )
        } else {
            (flushed(chunks, current), part, n)
        }
    }
}

/// The chunks into which `parts` are packed under a limit of `max` words.
pub open spec fn packed(parts: Seq<Seq<char>>, max: nat) -> Seq<Seq<char>> {
    flushed(pack(parts, max).0, pack(parts, max).1)
}

/// The chunks of one trimmed sentence: the sentence with a full stop where it
/// has at most `max` words, its packed clauses otherwise.
pub open spec fn sentence_chunks(sentence: Seq<char>, max: nat) -> Seq<Seq<char>> {
    if words(sentence).len() <= max {
        seq![sentence.push('.')]
    } else {
        packed(tidy(raw_clauses(sentence)), max)
    }
}

/// The chunks of the sentences among `parts`, blank parts passed over.
pub open spec fn sentences_chunks(parts: Seq<Seq<char>>, max: nat) -> Seq<Seq<char>>
    decreases parts.len(),
{
    if parts.len() == 0 {
        Seq::empty()
    } else if is_blank(parts.last()) {
        sentences_chunks(parts.drop_last(), max)
    } else {
        sentences_chunks(parts.drop_last(), max) + sentence_chunks(trim(parts.last()), max)
    }
}

/// The speech chunks of `text` under a limit of `max` words. A text that
/// holds no sentence mark is packed word by word, and so is one whose
/// sentences give no chunk; any other text gives the chunks of its sentences.
pub open spec fn speech_chunks(text: Seq<char>, max: nat) -> Seq<Seq<char>> {
    let by_sentence = sentences_chunks(pieces(text, sentence_marks()), max);
    if !holds_mark(text, sentence_marks()) || by_sentence.len() == 0 {
        packed(words(text), max)
    } else {
        by_sentence
    }
}

/// No text in `parts` is empty.
pub open spec fn all_nonempty(parts: Seq<Seq<char>>) -> bool {
    forall|i: int| 0 <= i < parts.len() ==> (#[trigger] parts[i]).len() > 0
}

/// Tidied texts are never empty.
pub proof fn lemma_tidy_nonempty(parts: Seq<Seq<char>>)
    ensures
        all_nonempty(tidy(parts)),
    decreases parts.len(),
{
    if parts.len() > 0 {
        lemma_tidy_nonempty(parts.drop_last());
    }
}

/// Packing texts that are not empty gives chunks that are not empty, and at
/// least one chunk where there is a text.
pub proof fn lemma_packed_nonempty(parts: Seq<Seq<char>>, max: nat)
    requires
        all_nonempty(parts),
    ensures
        all_nonempty(pack(parts, max).0),
        parts.len() > 0 ==> pack(parts, max).1.len() > 0,
        all_nonempty(packed(parts, max)),
        parts.len() > 0 ==> packed(parts, max).len() > 0,
    decreases parts.len(),
{
    if parts.len() > 0 {
        let rest = parts.drop_last();
        assert(all_nonempty(rest)) by {
            assert forall|i: int| 0 <= i < rest.len() implies (#[trigger] rest[i]).len() > 0 by {
                assert(rest[i] == parts[i]);
            }
        }
        lemma_packed_nonempty(rest, max);
        assert(parts.last() == parts[parts.len() - 1]);
    }
}

/// Whether every one of `chunks` has at most `max` words or is one of
/// `parts`.
pub open spec fn within_limit(chunks: Seq<Seq<char>>, parts: Seq<Seq<char>>, max: nat) -> bool {
    forall|i: int|
        0 <= i < chunks.len() ==> words(#[trigger] chunks[i]).len() <= max || parts.contains(
            chunks[i],
        )
}

/// Packing keeps to the limit: every chunk has at most `max` words, except
/// a chunk that is a single part with more words than that.
pub proof fn lemma_packed_within_limit(parts: Seq<Seq<char>>, max: nat)
    ensures
        within_limit(pack(parts, max).0, parts, max),
        pack(parts, max).2 == words(pack(parts, max).1).len(),
        pack(parts, max).2 <= max || parts.contains(pack(parts, max).1),
        within_limit(packed(parts, max), parts, max),
    decreases parts.len(),
{
    if parts.len() > 0 {
        let rest = parts.drop_last();
        lemma_packed_within_limit(rest, max);
        let (chunks, current, count) = pack(rest, max);
        let part = parts.last();
        lemma_words_spaced(current, part);
        assert(parts[parts.len() - 1] == part);
        assert forall|t: Seq<char>| rest.contains(t) implies parts.contains(t) by {
            let k = choose|k: int| 0 <= k < rest.len() && rest[k] == t;
            assert(parts[k] == t);
        }
        if count + words(part).len() <= max {
            if current.len() == 0 {
                assert(words(current) == Seq::<Seq<char>>::empty());
            }
        } else {
            let done = flushed(chunks, current);
            assert forall|i: int| 0 <= i < done.len() implies words(#[trigger] done[i]).len()
                <= max || parts.contains(done[i]) by {
                if i < chunks.len() {
                    assert(done[i] == chunks[i]);
                }
            }
        }
        let (c2, cur2, n2) = pack(parts, max);
        assert forall|i: int| 0 <= i < packed(parts, max).len() implies words(
            #[trigger] packed(parts, max)[i],
        ).len() <= max || parts.contains(packed(parts, max)[i]) by {
            if i < c2.len() {
                assert(packed(parts, max)[i] == c2[i]);
            }
        }
    } else {
        assert(words(Seq::<char>::empty()) == Seq::<Seq<char>>::empty());
    }
}

/// Every speech chunk holds at least one character.
pub proof fn lemma_sentences_chunks_nonempty(parts: Seq<Seq<char>>, max: nat)
    ensures
        all_nonempty(sentences_chunks(parts, max)),
    decreases parts.len(),
{
    if parts.len() > 0 {
        lemma_sentences_chunks_nonempty(parts.drop_last(), max);
        if !is_blank(parts.last()) {
            let s = trim(parts.last());
            lemma_tidy_nonempty(raw_clauses(s));
            lemma_packed_nonempty(tidy(raw_clauses(s)), max);
        }
    }
}

/// Every speech chunk holds at least one character.
pub proof fn lemma_speech_chunks_nonempty(text: Seq<char>, max: nat)
    ensures
        all_nonempty(speech_chunks(text, max)),
{
    lemma_sentences_chunks_nonempty(pieces(text, sentence_marks()), max);
    lemma_words(text);
    assert(all_nonempty(words(text))) by {
        assert forall|i: int| 0 <= i < words(text).len() implies (#[trigger] words(text)[i]).len()
            > 0 by {
            assert(is_word(words(text)[i]));
        }
    }
    lemma_packed_nonempty(words(text), max);
}

/// Parts that are all blank give no chunk.
pub proof fn lemma_sentences_chunks_of_blank(parts: Seq<Seq<char>>, max: nat)
    requires
        forall|i: int| 0 <= i < parts.len() ==> is_blank(#[trigger] parts[i]),
    ensures
        sentences_chunks(parts, max).len() == 0,
    decreases parts.len(),
{
    if parts.len() > 0 {
        let rest = parts.drop_last();
        assert forall|i: int| 0 <= i < rest.len() implies is_blank(#[trigger] rest[i]) by {
            assert(rest[i] == parts[i]);
        }
        lemma_sentences_chunks_of_blank(rest, max);
        assert(is_blank(parts[parts.len() - 1]));
    }
}

/// A text has no speech chunk exactly if it is blank.
pub proof fn lemma_speech_chunks_none(text: Seq<char>, max: nat)
    ensures
        speech_chunks(text, max).len() == 0 <==> is_blank(text),
{
    lemma_words(text);
    if is_blank(text) {
        lemma_pieces_of_blank(text, sentence_marks());
        lemma_sentences_chunks_of_blank(pieces(text, sentence_marks()), max);
    } else {
        assert(all_nonempty(words(text))) by {
            assert forall|i: int| 0 <= i < words(text).len() implies (#[trigger] words(text)[i]).len()
                > 0 by {
                assert(is_word(words(text)[i]));
            }
        }
        lemma_packed_nonempty(words(text), max);
    }
}

/// The clauses of the sentences among `parts`, trimmed, in order.
pub open spec fn clauses_of(parts: Seq<Seq<char>>) -> Seq<Seq<char>>
    decreases parts.len(),
{
    if parts.len() == 0 {
        Seq::empty()
    } else if is_blank(parts.last()) {
        clauses_of(parts.drop_last())
    } else {
        clauses_of(parts.drop_last()) + tidy(raw_clauses(trim(parts.last())))
    }
}

/// Whether `chunk` keeps to the limit of `max` words in `text`: it has at
/// most `max` words, or it is a single clause of a sentence of the text, or a
/// single word of the text.
pub open spec fn keeps_limit(chunk: Seq<char>, text: Seq<char>, max: nat) -> bool {
    ||| words(chunk).len() <= max
    ||| clauses_of(pieces(text, sentence_marks())).contains(chunk)
    ||| words(text).contains(chunk)
}

/// A trimmed sentence with its full stop has as many words as without it.
pub proof fn lemma_words_with_stop(sentence: Seq<char>)
    requires
        sentence.len() > 0,
        !is_whitespace(sentence.last()),
    ensures
        words(sentence.push('.')).len() == words(sentence).len(),
{
    let s = sentence.push('.');
    assert(s.drop_last() == sentence);
    assert(s[s.len() - 2] == sentence.last());
    lemma_words(sentence);
}

/// The chunks of sentences keep to the limit: each has at most `max` words
/// or is a single clause.
pub proof fn lemma_sentences_chunks_within_limit(parts: Seq<Seq<char>>, max: nat)
    ensures
        within_limit(sentences_chunks(parts, max), clauses_of(parts), max),
    decreases parts.len(),
{
    if parts.len() > 0 {
        let rest = parts.drop_last();
        lemma_sentences_chunks_within_limit(rest, max);
        let before = sentences_chunks(rest, max);
        if !is_blank(parts.last()) {
            let s = trim(parts.last());
            lemma_trim(parts.last());
            lemma_words_with_stop(s);
            let clauses = tidy(raw_clauses(s));
            lemma_packed_within_limit(clauses, max);
            let added = sentence_chunks(s, max);
            let all = clauses_of(parts);
            assert forall|i: int| 0 <= i < (before + added).len() implies words(
                #[trigger] (before + added)[i],
            ).len() <= max || all.contains((before + added)[i]) by {
                let c = (before + added)[i];
                if i < before.len() {
                    assert(c == before[i]);
                    if clauses_of(rest).contains(c) {
                        let k = choose|k: int| 0 <= k < clauses_of(rest).len() && clauses_of(rest)[k] == c;
                        assert(all[k] == c);
                    }
                } else {
                    assert(c == added[i - before.len()]);
                    if words(s).len() > max && clauses.contains(c) {
                        let k = choose|k: int| 0 <= k < clauses.len() && clauses[k] == c;
                        assert(all[clauses_of(rest).len() + k] == c);
                    }
                }
            }
        }
    }
}

/// Word limit: every speech chunk has at most `max` words, except a chunk
/// that is a single clause of a sentence or a single word of the text.
pub proof fn lemma_speech_chunks_within_limit(text: Seq<char>, max: nat)
    ensures
        forall|i: int|
            0 <= i < speech_chunks(text, max).len() ==> keeps_limit(
                #[trigger] speech_chunks(text, max)[i],
                text,
                max,
            ),
{
    let parts = pieces(text, sentence_marks());
    lemma_sentences_chunks_within_limit(parts, max);
    lemma_packed_within_limit(words(text), max);
}

/// Whether `c` is neither white space nor a mark of a sentence or a clause.
pub open spec fn is_ink(c: char) -> bool {
    !is_whitespace(c) && !is_clause_mark(c) && c != '.' && c != '!' && c != '?'
}

/// The characters of `s` that are neither white space nor marks, in order.
pub open spec fn ink(s: Seq<char>) -> Seq<char> {
    s.filter(|c: char| is_ink(c))
}

/// The characters of all of `parts` that are neither white space nor marks,
/// in order.
pub open spec fn ink_all(parts: Seq<Seq<char>>) -> Seq<char>
    decreases parts.len(),
{
    if parts.len() == 0 {
        Seq::empty()
    } else {
        ink_all(parts.drop_last()) + ink(parts.last())
    }
}

/// What a character adds at the end of a text.
pub proof fn lemma_ink_push(s: Seq<char>, c: char)
    ensures
        ink(s.push(c)) == (if is_ink(c) {
            ink(s).push(c)
        } else {
            ink(s)
        }),
{
    reveal(Seq::filter);
    assert(s.push(c).drop_last() == s);
}

/// The two parts of a text add up.
pub proof fn lemma_ink_concat(a: Seq<char>, b: Seq<char>)
    ensures
        ink(a + b) == ink(a) + ink(b),
{
    Seq::filter_distributes_over_add(a, b, |c: char| is_ink(c));
}

/// A blank text holds nothing but white space.
pub proof fn lemma_ink_of_blank(s: Seq<char>)
    requires
        is_blank(s),
    ensures
        ink(s) == Seq::<char>::empty(),
    decreases s.len(),
{
    reveal(Seq::filter);
    if s.len() > 0 {
        let rest = s.drop_last();
        assert forall|i: int| 0 <= i < rest.len() implies is_whitespace(#[trigger] rest[i]) by {
            assert(rest[i] == s[i]);
        }
        lemma_ink_of_blank(rest);
        assert(is_whitespace(s[s.len() - 1]));
    }
}

/// Trimming takes away white space only.
pub proof fn lemma_ink_of_trim(s: Seq<char>)
    ensures
        ink(trim(s)) == ink(s),
{
    lemma_trim(s);
    lemma_trim_start(s);
    let t = trim_start(s);
    lemma_trim_end(t);
    let head = s.take(s.len() - t.len());
    let core = trim(s);
    let tail = t.skip(core.len() as int);
    assert(t == core + tail);
    assert(s == head + t);
    lemma_ink_of_blank(head);
    lemma_ink_of_blank(tail);
    lemma_ink_concat(core, tail);
    lemma_ink_concat(head, t);
    assert(ink(core) + Seq::<char>::empty() == ink(core));
    assert(Seq::<char>::empty() + ink(t) == ink(t));
}

/// A space between two texts adds nothing.
pub proof fn lemma_ink_spaced(a: Seq<char>, b: Seq<char>)
    ensures
        ink(spaced(a, b)) == ink(a) + ink(b),
{
    lemma_ink_concat(a + seq![' '], b);
    assert(a + seq![' '] == a.push(' '));
    lemma_ink_push(a, ' ');
}

/// A list with one more text.
pub proof fn lemma_ink_all_push(parts: Seq<Seq<char>>, part: Seq<char>)
    ensures
        ink_all(parts.push(part)) == ink_all(parts) + ink(part),
        ink_all(flushed(parts, part)) == ink_all(parts) + ink(part),
{
    assert(parts.push(part).drop_last() == parts);
    if part.len() == 0 {
        reveal(Seq::filter);
        assert(ink(part) == Seq::<char>::empty());
        assert(ink_all(parts) + ink(part) == ink_all(parts));
    }
}

/// Two lists put together.
pub proof fn lemma_ink_all_concat(a: Seq<Seq<char>>, b: Seq<Seq<char>>)
    ensures
        ink_all(a + b) == ink_all(a) + ink_all(b),
    decreases b.len(),
{
    if b.len() == 0 {
        assert(a + b == a);
        assert(ink_all(a) + ink_all(b) == ink_all(a));
    } else {
        lemma_ink_all_concat(a, b.drop_last());
        assert((a + b).drop_last() == a + b.drop_last());
        assert((a + b).last() == b.last());
        assert((ink_all(a) + ink_all(b.drop_last())) + ink(b.last()) == ink_all(a) + (ink_all(
            b.drop_last(),
        ) + ink(b.last())));
    }
}

/// A text whose last piece grows by a character.
proof fn lemma_ink_all_grow(before: Seq<Seq<char>>, c: char)
    requires
        before.len() > 0,
    ensures
        ink_all(before.drop_last().push(before.last().push(c))) == (if is_ink(c) {
            ink_all(before).push(c)
        } else {
            ink_all(before)
        }),
{
    lemma_ink_all_push(before.drop_last(), before.last().push(c));
    lemma_ink_push(before.last(), c);
    assert(before.drop_last().push(before.last()) == before);
    lemma_ink_all_push(before.drop_last(), before.last());
    if is_ink(c) {
        assert(ink_all(before.drop_last()) + ink(before.last()).push(c) == (ink_all(
            before.drop_last(),
        ) + ink(before.last())).push(c));
    }
}

/// The words of a text hold its characters that are no white space.
pub proof fn lemma_ink_of_words(s: Seq<char>)
    ensures
        ink_all(words(s)) == ink(s),
    decreases s.len(),
{
    reveal(Seq::filter);
    if s.len() > 0 {
        let rest = s.drop_last();
        let c = s.last();
        lemma_ink_of_words(rest);
        assert(rest.push(c) == s);
        lemma_ink_push(rest, c);
        if is_whitespace(c) {
        } else if s.len() > 1 && !is_whitespace(s[s.len() - 2]) {
            assert(rest.last() == s[s.len() - 2]);
            lemma_words(rest);
            lemma_ink_all_grow(words(rest), c);
        } else {
            lemma_ink_all_push(words(rest), seq![c]);
            assert(seq![c] == Seq::<char>::empty().push(c));
            lemma_ink_push(Seq::<char>::empty(), c);
            if is_ink(c) {
                assert(ink_all(words(rest)) + Seq::<char>::empty().push(c) == ink_all(
                    words(rest),
                ).push(c));
            } else {
                assert(ink_all(words(rest)) + Seq::<char>::empty() == ink_all(words(rest)));
            }
        }
    }
}

/// The parts between the sentence marks of a text hold its characters that
/// are no sentence marks.
pub proof fn lemma_ink_of_pieces(s: Seq<char>)
    ensures
        ink_all(pieces(s, sentence_marks())) == ink(s),
    decreases s.len(),
{
    reveal(Seq::filter);
    let marks = sentence_marks();
    assert(marks[0] == '.' && marks[1] == '!' && marks[2] == '?');
    if s.len() == 0 {
        lemma_ink_all_push(Seq::empty(), Seq::empty());
        assert(seq![Seq::<char>::empty()] == Seq::<Seq<char>>::empty().push(Seq::empty()));
        assert(ink_all(Seq::<Seq<char>>::empty()) + ink(Seq::<char>::empty()) == Seq::<
            char,
        >::empty());
    } else {
        let rest = s.drop_last();
        let c = s.last();
        lemma_ink_of_pieces(rest);
        assert(rest.push(c) == s);
        lemma_ink_push(rest, c);
        lemma_pieces(rest, marks);
        if marks.contains(c) {
            lemma_ink_all_push(pieces(rest, marks), Seq::empty());
            assert(ink(Seq::<char>::empty()) == Seq::<char>::empty());
            assert(ink_all(pieces(rest, marks)) + Seq::<char>::empty() == ink_all(
                pieces(rest, marks),
            ));
        } else {
            lemma_ink_all_grow(pieces(rest, marks), c);
        }
    }
}

/// The clauses of a sentence hold its characters that are no marks.
pub proof fn lemma_ink_of_clauses(s: Seq<char>)
    ensures
        ink_all(clause_scan(s).0) + ink(clause_scan(s).1) == ink(s),
        ink_all(raw_clauses(s)) == ink(s),
    decreases s.len(),
{
    reveal(Seq::filter);
    if s.len() == 0 {
        assert(ink_all(Seq::<Seq<char>>::empty()) + ink(Seq::<char>::empty()) == Seq::<
            char,
        >::empty());
    } else {
        let rest = s.drop_last();
        let c = s.last();
        lemma_ink_of_clauses(rest);
        assert(rest.push(c) == s);
        lemma_ink_push(rest, c);
        let (closed, open) = clause_scan(rest);
        lemma_ink_push(open, c);
        if !is_clause_mark(c) {
            if is_ink(c) {
                assert(ink_all(closed) + ink(open).push(c) == (ink_all(closed) + ink(open)).push(c));
            }
        } else if open.len() > 0 {
            lemma_ink_all_push(closed, open.push(c));
            assert(ink(Seq::<char>::empty()) == Seq::<char>::empty());
            assert((ink_all(closed) + ink(open)) + Seq::<char>::empty() == ink_all(closed) + ink(
                open,
            ));
        } else {
        }
    }
    lemma_ink_all_push(clause_scan(s).0, clause_scan(s).1);
}

/// Tidying takes away white space only.
pub proof fn lemma_ink_of_tidy(parts: Seq<Seq<char>>)
    ensures
        ink_all(tidy(parts)) == ink_all(parts),
    decreases parts.len(),
{
    if parts.len() > 0 {
        lemma_ink_of_tidy(parts.drop_last());
        lemma_ink_of_trim(parts.last());
        lemma_ink_all_push(tidy(parts.drop_last()), trim(parts.last()));
    }
}

/// Packing adds spaces only.
pub proof fn lemma_ink_of_packed(parts: Seq<Seq<char>>, max: nat)
    ensures
        ink_all(pack(parts, max).0) + ink(pack(parts, max).1) == ink_all(parts),
        ink_all(packed(parts, max)) == ink_all(parts),
    decreases parts.len(),
{
    reveal(Seq::filter);
    if parts.len() == 0 {
        assert(ink_all(Seq::<Seq<char>>::empty()) + ink(Seq::<char>::empty()) == Seq::<
            char,
        >::empty());
    } else {
        let rest = parts.drop_last();
        lemma_ink_of_packed(rest, max);
        let (chunks, current, count) = pack(rest, max);
        let part = parts.last();
        lemma_ink_spaced(current, part);
        lemma_ink_all_push(chunks, current);
        if count + words(part).len() <= max {
            if current.len() == 0 {
                assert(ink(current) == Seq::<char>::empty());
                assert(ink_all(chunks) + ink(current) == ink_all(chunks));
            } else {
                assert((ink_all(chunks) + ink(current)) + ink(part) == ink_all(chunks) + (ink(
                    current,
                ) + ink(part)));
            }
        }
    }
    lemma_ink_all_push(pack(parts, max).0, pack(parts, max).1);
}

/// The chunks of sentences hold the characters of the parts that are no
/// white space and no marks.
pub proof fn lemma_ink_of_sentences_chunks(parts: Seq<Seq<char>>, max: nat)
    ensures
        ink_all(sentences_chunks(parts, max)) == ink_all(parts),
    decreases parts.len(),
{
    if parts.len() > 0 {
        let rest = parts.drop_last();
        lemma_ink_of_sentences_chunks(rest, max);
        let part = parts.last();
        if is_blank(part) {
            lemma_ink_of_blank(part);
            assert(ink_all(rest) + ink(part) == ink_all(rest));
        } else {
            let s = trim(part);
            lemma_ink_of_trim(part);
            lemma_ink_all_concat(sentences_chunks(rest, max), sentence_chunks(s, max));
            if words(s).len() <= max {
                lemma_ink_push(s, '.');
                lemma_ink_all_push(Seq::empty(), s.push('.'));
                assert(seq![s.push('.')] == Seq::<Seq<char>>::empty().push(s.push('.')));
                assert(Seq::<char>::empty() + ink(s) == ink(s));
            } else {
                lemma_ink_of_clauses(s);
                lemma_ink_of_tidy(raw_clauses(s));
                lemma_ink_of_packed(tidy(raw_clauses(s)), max);
            }
        }
    }
}

/// Coverage: the speech chunks of a text hold every character of the text
/// that is neither white space nor a mark of a sentence or a clause, in the
/// order of the text, and no other such character.
pub proof fn lemma_speech_chunks_cover(text: Seq<char>, max: nat)
    ensures
        ink_all(speech_chunks(text, max)) == ink(text),
{
    lemma_ink_of_words(text);
    lemma_ink_of_packed(words(text), max);
    lemma_ink_of_pieces(text);
    lemma_ink_of_sentences_chunks(pieces(text, sentence_marks()), max);
}

/// Packing words gives chunks that hold these words, in their order.
pub proof fn lemma_packed_words(ws: Seq<Seq<char>>, max: nat)
    requires
        forall|i: int| 0 <= i < ws.len() ==> is_word(#[trigger] ws[i]),
    ensures
        all_words(pack(ws, max).0) + words(pack(ws, max).1) == ws,
        all_words(packed(ws, max)) == ws,
    decreases ws.len(),
{
    if ws.len() == 0 {
        assert(all_words(Seq::empty()) + words(Seq::empty()) == ws);
    } else {
        let rest = ws.drop_last();
        assert forall|i: int| 0 <= i < rest.len() implies is_word(#[trigger] rest[i]) by {
            assert(rest[i] == ws[i]);
        }
        lemma_packed_words(rest, max);
        let (chunks, current, count) = pack(rest, max);
        let word = ws.last();
        assert(is_word(ws[ws.len() - 1]));
        lemma_words_of_word(word);
        lemma_words_spaced(current, word);
        lemma_all_words_flushed(chunks, current);
        assert(rest + seq![word] == ws);
        assert((all_words(chunks) + words(current)) + seq![word] == all_words(chunks) + (words(
            current,
        ) + seq![word]));
        if current.len() == 0 {
            assert(words(current) + seq![word] == seq![word]);
        }
    }
    lemma_all_words_flushed(pack(ws, max).0, pack(ws, max).1);
}

/// A text without a sentence mark is packed word by word: its chunks hold
/// the words of the text, in their order, each chunk at most `max` of them
/// or a single word.
pub proof fn lemma_speech_chunks_of_words(text: Seq<char>, max: nat)
    requires
        !holds_mark(text, sentence_marks()),
    ensures
        speech_chunks(text, max) == packed(words(text), max),
        all_words(speech_chunks(text, max)) == words(text),
        within_limit(speech_chunks(text, max), words(text), max),
{
    lemma_words(text);
    lemma_packed_words(words(text), max);
    lemma_packed_within_limit(words(text), max);
}

/// Tells clause marks from other characters.
pub fn clause_mark(c: char) -> (r: bool)
    ensures
        r == is_clause_mark(c),
{
    c == ',' || c == ';' || c == ':'
}

/// A copy of `a`, then a space, then a copy of `b`.
pub fn join_spaced(a: &Vec<char>, b: &Vec<char>) -> (out: Vec<char>)
    ensures
        out@ == spaced(a@, b@),
{
    let mut out = slice_of(a, 0, a.len());
    out.push(' ');
    let mut i: usize = 0;
    while i < b.len()
        invariant
            i <= b.len(),
            out@ == a@ + seq![' '] + b@.take(i as int),
        decreases b.len() - i,
    {
        out.push(b[i]);
        proof {
            assert(b@.take(i + 1) == b@.take(i as int).push(b@[i as int]));
        }
        i += 1;
    }
    proof {
        assert(b@.take(b@.len() as int) == b@);
    }
    out
}

/// Cuts a sentence into clauses, each closed by its mark.
pub fn cut_clauses(sentence: &Vec<char>) -> (out: Vec<Vec<char>>)
    ensures
        texts(out@) == raw_clauses(sentence@),
{
    let mut out: Vec<Vec<char>> = Vec::new();
    let mut open: Vec<char> = Vec::new();
    let mut i: usize = 0;
    while i < sentence.len()
        invariant
            i <= sentence.len(),
            clause_scan(sentence@.take(i as int)) == (texts(out@), open@),
        decreases sentence.len() - i,
    {
        let c = sentence[i];
        proof {
            let s = sentence@.take(i + 1);
            assert(s.drop_last() == sentence@.take(i as int));
            assert(s.last() == c);
        }
        if !clause_mark(c) {
            open.push(c);
        } else {
            if open.len() > 0 {
                open.push(c);
                proof {
                    assert(texts(out@.push(open)) == texts(out@).push(open@));
                }
                out.push(open);
            }
            open = Vec::new();
        }
        i += 1;
    }
    proof {
        assert(sentence@.take(sentence@.len() as int) == sentence@);
    }
    if open.len() > 0 {
        proof {
            assert(texts(out@.push(open)) == texts(out@).push(open@));
        }
        out.push(open);
    }
    out
}

/// Trims every text and leaves out those that are blank.
pub fn tidied(parts: &Vec<Vec<char>>) -> (out: Vec<Vec<char>>)
    ensures
        texts(out@) == tidy(texts(parts@)),
{
    let mut out: Vec<Vec<char>> = Vec::new();
    let mut i: usize = 0;
    while i < parts.len()
        invariant
            i <= parts.len(),
            texts(out@) == tidy(texts(parts@).take(i as int)),
        decreases parts.len() - i,
    {
        let t = trimmed(&parts[i]);
        proof {
            let s = texts(parts@).take(i + 1);
            assert(s.drop_last() == texts(parts@).take(i as int));
            assert(s.last() == parts@[i as int]@);
            assert(texts(out@.push(t)) == texts(out@).push(t@));
        }
        if t.len() > 0 {
            out.push(t);
        }
        i += 1;
    }
    proof {
        assert(texts(parts@).take(parts@.len() as int) == texts(parts@));
    }
    out
}

/// Packs `parts` under a limit of `max_words` words and adds the chunks to
/// `chunks`.
pub fn pack_into(parts: &Vec<Vec<char>>, max_words: usize, chunks: &mut Vec<Vec<char>>)
    ensures
        texts(final(chunks)@) == texts(old(chunks)@) + packed(texts(parts@), max_words as nat),
{
    let ghost before = texts(chunks@);
    let mut current: Vec<char> = Vec::new();
    let mut count: usize = 0;
    let mut i: usize = 0;
    proof {
        assert(before + Seq::<Seq<char>>::empty() == before);
    }
    while i < parts.len()
        invariant
            i <= parts.len(),
            texts(chunks@) == before + pack(texts(parts@).take(i as int), max_words as nat).0,
            current@ == pack(texts(parts@).take(i as int), max_words as nat).1,
            count == pack(texts(parts@).take(i as int), max_words as nat).2,
        decreases parts.len() - i,
    {
        let part = &parts[i];
        let n = split_words(part).len();
        proof {
            let s = texts(parts@).take(i + 1);
            assert(s.drop_last() == texts(parts@).take(i as int));
            assert(s.last() == part@);
            lemma_words(part@);
        }
        if count <= max_words && n <= max_words - count {
            if current.len() == 0 {
                current = slice_of(part, 0, part.len());
                proof {
                    assert(part@.subrange(0, part@.len() as int) == part@);
                }
            } else {
                current = join_spaced(&current, part);
            }
            count = count + n;
        } else {
            if current.len() > 0 {
                proof {
                    assert(texts(chunks@.push(current)) == texts(chunks@).push(current@));
                    let done = pack(texts(parts@).take(i as int), max_words as nat).0;
                    assert((before + done).push(current@) == before + done.push(current@));
                }
                chunks.push(current);
            }
            current = slice_of(part, 0, part.len());
            proof {
                assert(part@.subrange(0, part@.len() as int) == part@);
            }
            count = n;
        }
        i += 1;
    }
    proof {
        assert(texts(parts@).take(parts@.len() as int) == texts(parts@));
    }
    if current.len() > 0 {
        proof {
            assert(texts(chunks@.push(current)) == texts(chunks@).push(current@));
            let done = pack(texts(parts@), max_words as nat).0;
            assert((before + done).push(current@) == before + done.push(current@));
        }
        chunks.push(current);
    }
}

/// Adds the chunks of one trimmed sentence to `chunks`.
pub fn sentence_into(sentence: &Vec<char>, max_words: usize, chunks: &mut Vec<Vec<char>>)
    ensures
        texts(final(chunks)@) == texts(old(chunks)@) + sentence_chunks(
            sentence@,
            max_words as nat,
        ),
{
    if split_words(sentence).len() <= max_words {
        let mut whole = slice_of(sentence, 0, sentence.len());
        whole.push('.');
        proof {
            assert(sentence@.subrange(0, sentence@.len() as int) == sentence@);
            assert(texts(chunks@.push(whole)) == texts(chunks@).push(whole@));
            assert(texts(chunks@).push(whole@) == texts(chunks@) + seq![whole@]);
        }
        chunks.push(whole);
    } else {
        let clauses = tidied(&cut_clauses(sentence));
        pack_into(&clauses, max_words, chunks);
    }
}

/// Splits a text into chunks for speech under a limit of `max_words` words
/// per chunk. A sentence ends at `.`, `!` or `?`. One with at most
/// `max_words` words becomes a chunk that ends with a full stop; a longer one
/// is cut after `,`, `;` and `:` and its clauses are packed in order, a
/// clause alone where it exceeds the limit. A text that holds none of `.`,
/// `!` and `?`, or only such marks and white space, is packed word by word,
/// `max_words` words to a chunk. No chunk is empty.
pub fn split_text_into_speech_chunks(text: &str, max_words: usize) -> (out: Vec<String>)
    ensures
        strings(out@) == speech_chunks(text@, max_words as nat),
        forall|i: int| 0 <= i < out.len() ==> (#[trigger] out[i])@.len() > 0,
{
    let chars = chars_of(text);
    let marks: Vec<char> = vec!['.', '!', '?'];
    assert(marks@ == sentence_marks());
    let parts = split_at_marks(&chars, &marks);
    let mut chunks: Vec<Vec<char>> = Vec::new();
    proof {
        lemma_pieces_single(text@, sentence_marks());
    }
    let marked = parts.len() > 1;
    let mut i: usize = 0;
    while marked && i < parts.len()
        invariant
            i <= parts.len(),
            marked || chunks@.len() == 0,
            texts(chunks@) == sentences_chunks(texts(parts@).take(i as int), max_words as nat),
        decreases parts.len() - i,
    {
        proof {
            let s = texts(parts@).take(i + 1);
            assert(s.drop_last() == texts(parts@).take(i as int));
            assert(s.last() == parts@[i as int]@);
        }
        if !blank(&parts[i]) {
            let sentence = trimmed(&parts[i]);
            sentence_into(&sentence, max_words, &mut chunks);
        }
        i += 1;
    }
    proof {
        assert(texts(parts@).take(parts@.len() as int) == texts(parts@));
    }
    if chunks.len() == 0 {
        proof {
            assert(chunks@ == Seq::<Vec<char>>::empty());
            assert(texts(chunks@) == Seq::<Seq<char>>::empty());
        }
        let all = split_words(&chars);
        pack_into(&all, max_words, &mut chunks);
        proof {
            assert(Seq::<Seq<char>>::empty() + packed(words(text@), max_words as nat) == packed(
                words(text@),
                max_words as nat,
            ));
        }
    }
    let out = strings_of(&chunks);
    proof {
        lemma_speech_chunks_nonempty(text@, max_words as nat);
        assert forall|i: int| 0 <= i < out.len() implies (#[trigger] out[i])@.len() > 0 by {
            assert(strings(out@)[i] == out[i]@);
        }
    }
    out
}

} // verus!
