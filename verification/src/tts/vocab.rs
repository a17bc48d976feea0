//! The phoneme vocabulary: a fixed alphabet whose positions are the token ids.
//!
//! A character's token id is the last position at which it stands in the
//! alphabet, so a character written twice keeps one id and the earlier
//! position stays unused. Characters and used ids are in bijection.

use vstd::prelude::*;

verus! {

/// Every symbol of the vocabulary, in the order of the token ids: the pad
/// sign, punctuation, the Latin letters and the phonetic letters.
pub const SYMBOLS: &'static str =
    "$;:,.!?¡¿—…\"«»“” ABCDEFGHIJKLMNOPQRSTUVWXYZabcdefghijklmnopqrstuvwxyzɑɐɒæɓʙβɔɕçɗɖðʤəɘɚɛɜɝɞɟʄɡɠɢʛɦɧħɥʜɨɪʝɭɬɫɮʟɱɯɰŋɳɲɴøɵɸθœɶʘɹɺɾɻʀʁɽʂʃʈʧʉʊʋⱱʌɣɤʍχʎʏʑʐʒʔʡʕʢǀǁǂǃˈˌːˑʼʴʰʱʲʷˠˤ˞↓↑→↗↘'̩'ᵻ";

/// Number of positions in the alphabet.
pub const SYMBOL_COUNT: usize = 178;

/// The alphabet as a sequence of characters.
pub open spec fn alphabet() -> Seq<char> {
    SYMBOLS@
}

/// The token id of `c`: the last position of `c` in the alphabet, if it has one.
pub open spec fn token_of(c: char) -> Option<i64> {
    match alphabet().index_of_last(c) {
        Some(i) => Some(i as i64),
        None => None,
    }
}

/// The character that token id `t` stands for, if `t` is the id of one.
pub open spec fn symbol_of(t: i64) -> Option<char> {
    if 0 <= t < alphabet().len() && alphabet().index_of_last(alphabet()[t as int]) == Some(
        t as int,
    ) {
        Some(alphabet()[t as int])
    } else {
        None
    }
}

/// The alphabet has exactly `SYMBOL_COUNT` positions.
pub proof fn lemma_alphabet_len()
    ensures
        alphabet().len() == SYMBOL_COUNT,
{
    reveal_strlit(
        "$;:,.!?¡¿—…\"«»“” ABCDEFGHIJKLMNOPQRSTUVWXYZabcdefghijklmnopqrstuvwxyzɑɐɒæɓʙβɔɕçɗɖðʤəɘɚɛɜɝɞɟʄɡɠɢʛɦɧħɥʜɨɪʝɭɬɫɮʟɱɯɰŋɳɲɴøɵɸθœɶʘɹɺɾɻʀʁɽʂʃʈʧʉʊʋⱱʌɣɤʍχʎʏʑʐʒʔʡʕʢǀǁǂǃˈˌːˑʼʴʰʱʲʷˠˤ˞↓↑→↗↘'̩'ᵻ",
    );
}

/// Every token id is a position of the alphabet, and the character stands there.
pub proof fn lemma_token_in_range(c: char)
    ensures
        token_of(c) is Some <==> alphabet().contains(c),
        token_of(c) is Some ==> 0 <= token_of(c)->0 < SYMBOL_COUNT && alphabet()[token_of(
            c,
        )->0 as int] == c,
{
    lemma_alphabet_len();
    alphabet().index_of_last_ensures(c);
}

/// The two directions of the vocabulary are inverse to each other: `t` is the
/// id of `c` exactly if `c` is the character of `t`.
pub proof fn lemma_token_symbol_inverse(c: char, t: i64)
    ensures
        token_of(c) == Some(t) <==> symbol_of(t) == Some(c),
{
    lemma_alphabet_len();
    alphabet().index_of_last_ensures(c);
}

/// Looks up the token id of a character.
pub fn token_id(c: char) -> (r: Option<i64>)
    ensures
        r == token_of(c),
{
    let mut found: Option<i64> = None;
    let mut i: i64 = 0;
    proof {
        lemma_alphabet_len();
        alphabet().take(0).index_of_last_ensures(c);
    }
    for s in it: SYMBOLS.chars()
        invariant
            it.seq() == alphabet(),
            alphabet().len() == SYMBOL_COUNT,
            i == it.index(),
            found == match alphabet().take(i as int).index_of_last(c) {
                Some(k) => Some(k as i64),
                None => None,
            },
    {
        proof {
            let before = alphabet().take(i as int);
            let after = alphabet().take(i + 1);
            assert(after.drop_last() == before);
            assert(after.last() == s);
            before.index_of_last_ensures(c);
            after.index_of_last_ensures(c);
            if s != c {
                if before.contains(c) {
                    let k = before.index_of_last(c)->0;
                    assert(after[k] == c);
                    let j = after.index_of_last(c)->0;
                    assert(before[j] == c);
                } else if after.contains(c) {
                    let j = after.index_of_last(c)->0;
                    assert(before[j] == c);
                }
            }
        }
        if s == c {
            found = Some(i);
        }
        i += 1;
    }
    proof {
        assert(alphabet().take(i as int) == alphabet());
    }
    found
}

/// Looks up the character of a token id.
pub fn symbol(t: i64) -> (r: Option<char>)
    ensures
        r == symbol_of(t),
{
    let mut found: Option<char> = None;
    let mut i: i64 = 0;
    proof {
        lemma_alphabet_len();
    }
    for s in it: SYMBOLS.chars()
        invariant
            it.seq() == alphabet(),
            alphabet().len() == SYMBOL_COUNT,
            i == it.index(),
            found == (if 0 <= t < i && alphabet().take(i as int).index_of_last(
                alphabet()[t as int],
            ) == Some(t as int) {
                Some(alphabet()[t as int])
            } else {
                None
            }),
    {
        proof {
            if 0 <= t <= i {
                let c = alphabet()[t as int];
                let before = alphabet().take(i as int);
                let after = alphabet().take(i + 1);
                assert(after.drop_last() == before);
                assert(after.last() == s);
                before.index_of_last_ensures(c);
                after.index_of_last_ensures(c);
                assert(after[t as int] == c);
                if t < i {
                    assert(before[t as int] == c);
                    if s != c {
                        let j = after.index_of_last(c)->0;
                        assert(before[j] == c);
                        let k = before.index_of_last(c)->0;
                        assert(after[k] == c);
                    }
                }
            }
        }
        if i == t {
            found = Some(s);
        } else if i > t {
            match found {
                Some(c) => {
                    if c == s {
                        found = None;
                    }
                },
                None => {},
            }
        }
        i += 1;
    }
    proof {
        assert(alphabet().take(i as int) == alphabet());
    }
    found
}

} // verus!
