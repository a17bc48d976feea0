//! Conversion between phoneme strings and token id sequences.

use crate::tts::vocab::{
    alphabet, lemma_token_in_range, lemma_token_symbol_inverse, symbol, symbol_of, token_id,
    token_of, SYMBOL_COUNT,
};
use vstd::prelude::*;

verus! {

/// The token ids of the characters of `phonemes` that the vocabulary knows,
/// in their order; unknown characters are passed over.
pub open spec fn tokens_of(phonemes: Seq<char>) -> Seq<i64> {
    phonemes.filter_map(|c: char| token_of(c))
}

/// The characters of the token ids in `tokens` that the vocabulary knows, in
/// their order; unknown ids are passed over.
pub open spec fn phonemes_of(tokens: Seq<i64>) -> Seq<char> {
    tokens.filter_map(|t: i64| symbol_of(t))
}

/// Tokenizing distributes over concatenation.
pub proof fn lemma_tokens_of_concat(a: Seq<char>, b: Seq<char>)
    ensures
        tokens_of(a + b) == tokens_of(a) + tokens_of(b),
    decreases b.len(),
{
    if b.len() == 0 {
        assert(a + b == a);
        assert(tokens_of(b) == Seq::<i64>::empty());
        assert(tokens_of(a) + tokens_of(b) == tokens_of(a));
    } else {
        lemma_tokens_of_concat(a, b.drop_last());
        assert((a + b).drop_last() == a + b.drop_last());
        assert((a + b).last() == b.last());
        match token_of(b.last()) {
            Some(t) => {
                assert(tokens_of(a + b) == tokens_of(a + b.drop_last()) + seq![t]);
                assert(tokens_of(b) == tokens_of(b.drop_last()) + seq![t]);
                assert(tokens_of(a) + (tokens_of(b.drop_last()) + seq![t]) == (tokens_of(a)
                    + tokens_of(b.drop_last())) + seq![t]);
            },
            None => {},
        }
    }
}

/// A phoneme string never yields more tokens than it has characters, and
/// every token is the id of a character.
pub proof fn lemma_tokens_of_bounds(phonemes: Seq<char>)
    ensures
        tokens_of(phonemes).len() <= phonemes.len(),
        forall|i: int|
            0 <= i < tokens_of(phonemes).len() ==> 0 <= #[trigger] tokens_of(phonemes)[i]
                < SYMBOL_COUNT && symbol_of(tokens_of(phonemes)[i]) is Some,
    decreases phonemes.len(),
{
    if phonemes.len() > 0 {
        lemma_tokens_of_bounds(phonemes.drop_last());
        let c = phonemes.last();
        lemma_token_in_range(c);
        match token_of(c) {
            Some(t) => {
                lemma_token_symbol_inverse(c, t);
            },
            None => {},
        }
    }
}

/// Tokens turned back into text give the text without the characters that
/// the vocabulary does not know.
pub proof fn lemma_text_round_trip(phonemes: Seq<char>)
    ensures
        phonemes_of(tokens_of(phonemes)) == phonemes.filter(|c: char| alphabet().contains(c)),
    decreases phonemes.len(),
{
    let known = |c: char| alphabet().contains(c);
    reveal(Seq::filter);
    if phonemes.len() == 0 {
        assert(tokens_of(phonemes) == Seq::<i64>::empty());
    } else {
        let rest = phonemes.drop_last();
        let c = phonemes.last();
        lemma_text_round_trip(rest);
        lemma_token_in_range(c);
        match token_of(c) {
            Some(t) => {
                lemma_token_symbol_inverse(c, t);
                let sofar = tokens_of(rest);
                assert(tokens_of(phonemes) == sofar + seq![t]);
                assert((sofar + seq![t]).drop_last() == sofar);
                assert((sofar + seq![t]).last() == t);
                assert(phonemes_of(sofar + seq![t]) == phonemes_of(sofar) + seq![c]);
                assert(phonemes.filter(known) == rest.filter(known).push(c));
            },
            None => {
                assert(phonemes.filter(known) == rest.filter(known));
            },
        }
    }
}

/// Text turned back into tokens gives the tokens without the ids that the
/// vocabulary does not use.
pub proof fn lemma_token_round_trip(tokens: Seq<i64>)
    ensures
        tokens_of(phonemes_of(tokens)) == tokens.filter(|t: i64| symbol_of(t) is Some),
    decreases tokens.len(),
{
    let used = |t: i64| symbol_of(t) is Some;
    reveal(Seq::filter);
    if tokens.len() == 0 {
        assert(phonemes_of(tokens) == Seq::<char>::empty());
    } else {
        let rest = tokens.drop_last();
        let t = tokens.last();
        lemma_token_round_trip(rest);
        match symbol_of(t) {
            Some(c) => {
                lemma_token_symbol_inverse(c, t);
                let sofar = phonemes_of(rest);
                assert(phonemes_of(tokens) == sofar + seq![c]);
                assert((sofar + seq![c]).drop_last() == sofar);
                assert((sofar + seq![c]).last() == c);
                assert(tokens_of(sofar + seq![c]) == tokens_of(sofar) + seq![t]);
                assert(tokens.filter(used) == rest.filter(used).push(t));
            },
            None => {
                assert(tokens.filter(used) == rest.filter(used));
            },
        }
    }
}

/// Maps each character of a phoneme string to its token id and passes over
/// the characters that have none.
pub fn tokenize(phonemes: &str) -> (tokens: Vec<i64>)
    ensures
        tokens@ == tokens_of(phonemes@),
{
    let mut tokens: Vec<i64> = Vec::new();
    for c in it: phonemes.chars()
        invariant
            it.seq() == phonemes@,
            tokens@ == tokens_of(phonemes@.take(it.index() as int)),
    {
        proof {
            phonemes@.lemma_filter_map_take_succ(|c: char| token_of(c), it.index() as int);
        }
        match token_id(c) {
            Some(t) => {
                tokens.push(t);
            },
            None => {},
        }
    }
    proof {
        assert(phonemes@.take(phonemes@.len() as int) == phonemes@);
    }
    tokens
}

/// Maps each token id to its character and passes over the ids that have none.
pub fn tokens_to_phonemes(tokens: &[i64]) -> (phonemes: String)
    ensures
        phonemes@ == phonemes_of(tokens@),
{
    let mut phonemes = String::new();
    let mut i: usize = 0;
    while i < tokens.len()
        invariant
            i <= tokens.len(),
            phonemes@ == phonemes_of(tokens@.take(i as int)),
        decreases tokens.len() - i,
    {
        proof {
            tokens@.lemma_filter_map_take_succ(|t: i64| symbol_of(t), i as int);
        }
        match symbol(tokens[i]) {
            Some(c) => {
                phonemes.push(c);
            },
            None => {},
        }
        i += 1;
    }
    proof {
        assert(tokens@.take(i as int) == tokens@);
    }
    phonemes
}

} // verus!
