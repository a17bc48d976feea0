//! Voice styles: the grammar of a style string and its resolution against the
//! names of the voices that are loaded.
//!
//! A style string either names one voice or, where it holds a `+`, lists the
//! terms of a blend as `name.digit`, the digit being the weight in tenths. The
//! vectors themselves are numbers that this library never looks into: a
//! resolved style says which rows of which voices are to be taken, and with
//! what weights.

use crate::tts::text::{chars_of, pieces, slice_of, split_at_marks, string_of, strings, texts};
use vstd::prelude::*;

verus! {

/// Number of values in a style vector.
pub const STYLE_DIM: usize = 256;

/// Number of rows in the style table of a voice, one per token count.
pub const STYLE_ROWS: usize = 511;

/// One term of a resolved style: the place of the voice among the loaded
/// voices, and its weight in tenths.
#[derive(Clone, Copy, Debug, PartialEq, Eq)]
pub struct StyleTerm {
    pub voice: usize,
    pub tenths: u8,
}

/// A resolved style: the row to take from each voice's table, whether the row
/// of a single voice is taken as it is, and the terms to add up otherwise.
#[derive(Debug)]
pub struct StyleMix {
    pub row: usize,
    pub direct: bool,
    pub terms: Vec<StyleTerm>,
}

/// The row of a style table that serves an utterance of `tokens_len` tokens:
/// the token count, held to the last row of the table.
pub open spec fn style_row(tokens_len: nat) -> nat {
    if tokens_len < STYLE_ROWS {
        tokens_len
    } else {
        (STYLE_ROWS - 1) as nat
    }
}

/// Whether a style string asks for a blend.
pub open spec fn is_blend(style: Seq<char>) -> bool {
    style.contains('+')
}

/// Whether `c` is a decimal digit.
pub open spec fn is_digit(c: char) -> bool {
    '0' <= c <= '9'
}

/// The value of the decimal digit `c`.
pub open spec fn digit_value(c: char) -> u8 {
    (c as u32 - '0' as u32) as u8
}

/// What a term of a blend says: the name of a voice and its weight in tenths.
pub ghost struct Term {
    pub name: Seq<char>,
    pub tenths: u8,
}

/// The name and the weight in tenths that a term of a blend gives, where it
/// has the form `name.digit`: the name ends at the first dot, and a single
/// digit follows.
pub open spec fn term_of(term: Seq<char>) -> Option<Term> {
    match term.index_of_first('.') {
        Some(dot) => if term.len() == dot + 2 && is_digit(term[dot + 1]) {
            Some(Term { name: term.take(dot), tenths: digit_value(term[dot + 1]) })
        } else {
            None
        },
        None => None,
    }
}

/// The place of the first voice called `name` among `names`.
pub open spec fn voice_index(names: Seq<Seq<char>>, name: Seq<char>) -> Option<int> {
    names.index_of_first(name)
}

/// The resolved terms of a blend: one for each term of the form `name.digit`
/// whose name is that of a voice, in order. Terms of another form and terms
/// that name no voice add nothing.
pub open spec fn resolved_terms(names: Seq<Seq<char>>, terms: Seq<Seq<char>>) -> Seq<StyleTerm>
    decreases terms.len(),
{
    if terms.len() == 0 {
        Seq::empty()
    } else {
        let before = resolved_terms(names, terms.drop_last());
        match term_of(terms.last()) {
            Some(term) => match voice_index(names, term.name) {
                Some(voice) => before.push(StyleTerm { voice: voice as usize, tenths: term.tenths }),
                None => before,
            },
            None => before,
        }
    }
}

/// The terms of a blend as the style string lists them.
pub open spec fn blend_terms(style: Seq<char>) -> Seq<Seq<char>> {
    pieces(style, seq!['+'])
}

/// A blend is resolved term by term: the terms of two lists put together
/// resolve to what the first list resolves to, followed by what the second
/// does.
pub proof fn lemma_resolved_terms_concat(
    names: Seq<Seq<char>>,
    first: Seq<Seq<char>>,
    second: Seq<Seq<char>>,
)
    ensures
        resolved_terms(names, first + second) == resolved_terms(names, first) + resolved_terms(
            names,
            second,
        ),
    decreases second.len(),
{
    if second.len() == 0 {
        assert(first + second == first);
        assert(resolved_terms(names, first) + resolved_terms(names, second) == resolved_terms(
            names,
            first,
        ));
    } else {
        lemma_resolved_terms_concat(names, first, second.drop_last());
        assert((first + second).drop_last() == first + second.drop_last());
        assert((first + second).last() == second.last());
        let a = resolved_terms(names, first);
        let b = resolved_terms(names, second.drop_last());
        assert(forall|t: StyleTerm| (a + b).push(t) == a + b.push(t));
    }
}

/// A term that names no voice, or has not the form of a term, changes nothing
/// in a blend.
pub proof fn lemma_unresolved_term_adds_nothing(
    names: Seq<Seq<char>>,
    terms: Seq<Seq<char>>,
    term: Seq<char>,
)
    requires
        term_of(term) is None || voice_index(names, term_of(term).unwrap().name) is None,
    ensures
        resolved_terms(names, terms.push(term)) == resolved_terms(names, terms),
{
    assert(terms.push(term).drop_last() == terms);
}

/// A term that names a voice adds that voice with its weight at the end of
/// the blend.
pub proof fn lemma_resolved_term_adds_one(
    names: Seq<Seq<char>>,
    terms: Seq<Seq<char>>,
    term: Seq<char>,
)
    requires
        term_of(term) is Some,
        voice_index(names, term_of(term).unwrap().name) is Some,
    ensures
        resolved_terms(names, terms.push(term)) == resolved_terms(names, terms).push(
            StyleTerm {
                voice: voice_index(names, term_of(term).unwrap().name)->0 as usize,
                tenths: term_of(term).unwrap().tenths,
            },
        ),
        0 <= voice_index(names, term_of(term).unwrap().name)->0 < names.len(),
        names[voice_index(names, term_of(term).unwrap().name)->0] == term_of(term).unwrap().name,
        term_of(term).unwrap().tenths <= 9,
{
    assert(terms.push(term).drop_last() == terms);
    names.index_of_first_ensures(term_of(term).unwrap().name);
    term.index_of_first_ensures('.');
}

/// The row of the style tables for an utterance of `tokens_len` tokens.
pub fn row_for(tokens_len: usize) -> (row: usize)
    ensures
        row == style_row(tokens_len as nat),
        row < STYLE_ROWS,
{
    if tokens_len < STYLE_ROWS {
        tokens_len
    } else {
        STYLE_ROWS - 1
    }
}

/// Finds the first voice called `name`.
pub fn find_voice(names: &Vec<String>, name: &Vec<char>) -> (r: Option<usize>)
    ensures
        match r {
            Some(i) => voice_index(strings(names@), name@) == Some(i as int),
            None => voice_index(strings(names@), name@) is None,
        },
{
    let wanted = string_of(name);
    let mut i: usize = 0;
    while i < names.len()
        invariant
            i <= names.len(),
            wanted@ == name@,
            forall|j: int| 0 <= j < i ==> strings(names@)[j] != name@,
        decreases names.len() - i,
    {
        if names[i] == wanted {
            proof {
                strings(names@).index_of_first_ensures(name@);
                assert(strings(names@)[i as int] == name@);
                let found = strings(names@).index_of_first(name@)->0;
                if found < i {
                    assert(strings(names@)[found] != name@);
                }
            }
            return Some(i);
        }
        i += 1;
    }
    proof {
        strings(names@).index_of_first_ensures(name@);
        if strings(names@).contains(name@) {
            let j = choose|j: int| 0 <= j < strings(names@).len() && strings(names@)[j] == name@;
            assert(strings(names@)[j] != name@);
        }
    }
    None
}

/// Reads a term of a blend: the name before the first dot and the digit
/// after it.
pub fn read_term(term: &Vec<char>) -> (r: Option<(Vec<char>, u8)>)
    ensures
        match r {
            Some((name, tenths)) => term_of(term@) == Some(Term { name: name@, tenths }),
            None => term_of(term@) is None,
        },
{
    let mut dot: usize = 0;
    proof {
        term@.index_of_first_ensures('.');
    }
    while dot < term.len() && term[dot] != '.'
        invariant
            dot <= term.len(),
            forall|j: int| 0 <= j < dot ==> term@[j] != '.',
        decreases term.len() - dot,
    {
        dot += 1;
    }
    if dot == term.len() {
        proof {
            if term@.contains('.') {
                let j = choose|j: int| 0 <= j < term@.len() && term@[j] == '.';
                assert(term@[j] != '.');
            }
        }
        return None;
    }
    proof {
        assert(term@.contains('.'));
        let found = term@.index_of_first('.')->0;
        if found < dot {
            assert(term@[found] != '.');
        }
        assert(found == dot);
    }
    if term.len() - dot == 2 {
        let c = term[dot + 1];
        if '0' <= c && c <= '9' {
            let name = slice_of(term, 0, dot);
            let tenths = (c as u32 - '0' as u32) as u8;
            return Some((name, tenths));
        }
    }
    None
}

/// Resolves a style string against the names of the loaded voices for an
/// utterance of `tokens_len` tokens.
///
/// Without a `+` the string is the name of one voice, which must be loaded:
/// the result takes that voice's row as it is, or is `None` where no voice has
/// that name. With a `+` the string is a blend, and the result holds its
/// resolved terms; a blend never fails.
pub fn resolve_style(names: &Vec<String>, style: &str, tokens_len: usize) -> (r: Option<StyleMix>)
    ensures
        r is None <==> !is_blend(style@) && voice_index(strings(names@), style@) is None,
        r is Some ==> r->0.row == style_row(tokens_len as nat),
        r is Some ==> r->0.direct == !is_blend(style@),
        r is Some && !is_blend(style@) ==> r->0.terms@ == seq![
            StyleTerm { voice: voice_index(strings(names@), style@)->0 as usize, tenths: 10 },
        ],
        r is Some && is_blend(style@) ==> r->0.terms@ == resolved_terms(
            strings(names@),
            blend_terms(style@),
        ),
        r is Some ==> forall|i: int|
            0 <= i < r->0.terms.len() ==> (#[trigger] r->0.terms[i]).voice < names.len(),
{
    let chars = chars_of(style);
    let plus: Vec<char> = vec!['+'];
    assert(plus@ == seq!['+']);
    let row = row_for(tokens_len);
    let mut blend = false;
    let mut k: usize = 0;
    while k < chars.len()
        invariant
            k <= chars.len(),
            blend <==> exists|j: int| 0 <= j < k && chars@[j] == '+',
        decreases chars.len() - k,
    {
        if chars[k] == '+' {
            blend = true;
        }
        k += 1;
    }
    if !blend {
        proof {
            strings(names@).index_of_first_ensures(style@);
        }
        return match find_voice(names, &chars) {
            Some(voice) => {
                let mut terms: Vec<StyleTerm> = Vec::new();
                terms.push(StyleTerm { voice, tenths: 10 });
                Some(StyleMix { row, direct: true, terms })
            },
            None => None,
        };
    }
    let listed = split_at_marks(&chars, &plus);
    let ghost all = texts(listed@);
    let ghost known = strings(names@);
    let mut terms: Vec<StyleTerm> = Vec::new();
    let mut i: usize = 0;
    while i < listed.len()
        invariant
            i <= listed.len(),
            all == texts(listed@),
            known == strings(names@),
            terms@ == resolved_terms(known, all.take(i as int)),
            forall|j: int| 0 <= j < terms.len() ==> (#[trigger] terms[j]).voice < names.len(),
        decreases listed.len() - i,
    {
        proof {
            let s = all.take(i + 1);
            assert(s.drop_last() == all.take(i as int));
            assert(s.last() == listed@[i as int]@);
        }
        match read_term(&listed[i]) {
            Some((name, tenths)) => {
                proof {
                    known.index_of_first_ensures(name@);
                }
                match find_voice(names, &name) {
                    Some(voice) => {
                        terms.push(StyleTerm { voice, tenths });
                    },
                    None => {},
                }
            },
            None => {},
        }
        i += 1;
    }
    proof {
        assert(all.take(listed@.len() as int) == all);
    }
    Some(StyleMix { row, direct: false, terms })
}

} // verus!
