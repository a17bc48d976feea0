//! Text as sequences of characters: white space, trimming, words and
//! splitting at separators.

use vstd::prelude::*;

verus! {

/// `String::push` of the standard library, taken on trust: it appends the
/// given character to the end of the string and changes nothing else.
pub assume_specification[ String::push ](s: &mut String, c: char)
    ensures
        final(s)@ == old(s)@.push(c),
;

/// Whether `c` is white space as Unicode defines it.
pub open spec fn is_whitespace(c: char) -> bool {
    ||| '\u{9}' <= c <= '\u{d}'
    ||| c == ' '
    ||| c == '\u{85}'
    ||| c == '\u{a0}'
    ||| c == '\u{1680}'
    ||| '\u{2000}' <= c <= '\u{200a}'
    ||| c == '\u{2028}'
    ||| c == '\u{2029}'
    ||| c == '\u{202f}'
    ||| c == '\u{205f}'
    ||| c == '\u{3000}'
}

/// Whether `s` holds nothing but white space.
pub open spec fn is_blank(s: Seq<char>) -> bool {
    forall|i: int| 0 <= i < s.len() ==> is_whitespace(#[trigger] s[i])
}

/// Whether `s` is one word: not empty and free of white space.
pub open spec fn is_word(s: Seq<char>) -> bool {
    s.len() > 0 && forall|i: int| 0 <= i < s.len() ==> !is_whitespace(#[trigger] s[i])
}

/// `s` without its leading white space.
pub open spec fn trim_start(s: Seq<char>) -> Seq<char>
    decreases s.len(),
{
    if s.len() > 0 && is_whitespace(s.first()) {
        trim_start(s.drop_first())
    } else {
        s
    }
}

/// `s` without its trailing white space.
pub open spec fn trim_end(s: Seq<char>) -> Seq<char>
    decreases s.len(),
{
    if s.len() > 0 && is_whitespace(s.last()) {
        trim_end(s.drop_last())
    } else {
        s
    }
}

/// `s` without its leading and trailing white space.
pub open spec fn trim(s: Seq<char>) -> Seq<char> {
    trim_end(trim_start(s))
}

/// The words of `s`: its maximal runs of characters that are not white
/// space, in their order.
pub open spec fn words(s: Seq<char>) -> Seq<Seq<char>>
    decreases s.len(),
{
    if s.len() == 0 {
        Seq::empty()
    } else if is_whitespace(s.last()) {
        words(s.drop_last())
    } else if s.len() > 1 && !is_whitespace(s[s.len() - 2]) {
        let before = words(s.drop_last());
        before.drop_last().push(before.last().push(s.last()))
    } else {
        words(s.drop_last()).push(seq![s.last()])
    }
}

/// The pieces into which the characters of `marks` cut `s`: one more piece
/// than there are marks in `s`, some of them possibly empty.
pub open spec fn pieces(s: Seq<char>, marks: Seq<char>) -> Seq<Seq<char>>
    decreases s.len(),
{
    if s.len() == 0 {
        seq![Seq::empty()]
    } else if marks.contains(s.last()) {
        pieces(s.drop_last(), marks).push(Seq::empty())
    } else {
        let before = pieces(s.drop_last(), marks);
        before.drop_last().push(before.last().push(s.last()))
    }
}

/// Whether `s` holds one of `marks`.
pub open spec fn holds_mark(s: Seq<char>, marks: Seq<char>) -> bool {
    exists|i: int| 0 <= i < s.len() && marks.contains(#[trigger] s[i])
}

/// `a` and `b` with one space between them.
pub open spec fn spaced(a: Seq<char>, b: Seq<char>) -> Seq<char> {
    a + seq![' '] + b
}

/// The character sequences that a sequence of character vectors holds.
pub open spec fn texts(v: Seq<Vec<char>>) -> Seq<Seq<char>> {
    v.map_values(|w: Vec<char>| w@)
}

/// The character sequences that a sequence of strings holds.
pub open spec fn strings(v: Seq<String>) -> Seq<Seq<char>> {
    v.map_values(|w: String| w@)
}

/// Trimming at the start leaves a suffix that does not begin with white
/// space, and what it removes is blank.
pub proof fn lemma_trim_start(s: Seq<char>)
    ensures
        trim_start(s).len() <= s.len(),
        trim_start(s) == s.skip(s.len() - trim_start(s).len()),
        is_blank(s.take(s.len() - trim_start(s).len())),
        trim_start(s).len() > 0 ==> !is_whitespace(trim_start(s).first()),
    decreases s.len(),
{
    if s.len() > 0 && is_whitespace(s.first()) {
        let rest = s.drop_first();
        lemma_trim_start(rest);
        let k = rest.len() - trim_start(rest).len();
        assert(rest.skip(k) == s.skip(k + 1));
        assert forall|i: int| 0 <= i < k + 1 implies is_whitespace(#[trigger] s.take(k + 1)[i]) by {
            if i > 0 {
                assert(s.take(k + 1)[i] == rest.take(k)[i - 1]);
            }
        }
    } else {
        assert(s.skip(0) == s);
    }
}

/// Trimming at the end leaves a prefix that does not end with white space,
/// and what it removes is blank.
pub proof fn lemma_trim_end(s: Seq<char>)
    ensures
        trim_end(s).len() <= s.len(),
        trim_end(s) == s.take(trim_end(s).len() as int),
        is_blank(s.skip(trim_end(s).len() as int)),
        trim_end(s).len() > 0 ==> !is_whitespace(trim_end(s).last()),
    decreases s.len(),
{
    if s.len() > 0 && is_whitespace(s.last()) {
        let rest = s.drop_last();
        lemma_trim_end(rest);
        let k = trim_end(rest).len() as int;
        assert(rest.take(k) == s.take(k));
        assert forall|i: int| 0 <= i < s.len() - k implies is_whitespace(#[trigger] s.skip(k)[i]) by {
            if i < rest.len() - k {
                assert(s.skip(k)[i] == rest.skip(k)[i]);
            }
        }
    } else {
        assert(s.take(s.len() as int) == s);
    }
}

/// A trimmed text is empty exactly if the text was blank; otherwise it
/// neither begins nor ends with white space.
pub proof fn lemma_trim(s: Seq<char>)
    ensures
        trim(s).len() <= s.len(),
        trim(s).len() == 0 <==> is_blank(s),
        trim(s).len() > 0 ==> !is_whitespace(trim(s).first()) && !is_whitespace(trim(s).last()),
        trim(s) == s.subrange(
            s.len() - trim_start(s).len(),
            s.len() - trim_start(s).len() + trim(s).len(),
        ),
{
    lemma_trim_start(s);
    let t = trim_start(s);
    lemma_trim_end(t);
    let a = s.len() - t.len();
    let n = trim(s).len() as int;
    assert(t.take(n) == s.subrange(a, a + n));
    if n == 0 {
        assert forall|i: int| 0 <= i < s.len() implies is_whitespace(#[trigger] s[i]) by {
            if i < a {
                assert(s[i] == s.take(a)[i]);
            } else {
                assert(s[i] == t.skip(0)[i - a]);
            }
        }
    } else {
        assert(trim(s).first() == t.first());
        assert(s[a] == t.first());
    }
}

/// A text that ends outside white space has at least one word, each word is
/// a word, and there are no more words than characters.
pub proof fn lemma_words(s: Seq<char>)
    ensures
        words(s).len() <= s.len(),
        s.len() > 0 && !is_whitespace(s.last()) ==> words(s).len() > 0,
        forall|i: int| 0 <= i < words(s).len() ==> is_word(#[trigger] words(s)[i]),
        is_blank(s) <==> words(s).len() == 0,
    decreases s.len(),
{
    if s.len() > 0 {
        let rest = s.drop_last();
        lemma_words(rest);
        if is_whitespace(s.last()) {
            if is_blank(rest) {
                assert forall|i: int| 0 <= i < s.len() implies is_whitespace(#[trigger] s[i]) by {
                    if i < rest.len() {
                        assert(s[i] == rest[i]);
                    }
                }
            } else {
                let i = choose|i: int| 0 <= i < rest.len() && !is_whitespace(#[trigger] rest[i]);
                assert(s[i] == rest[i]);
            }
        } else {
            assert(s[s.len() - 1] == s.last());
            if s.len() > 1 && !is_whitespace(s[s.len() - 2]) {
                assert(rest.last() == s[s.len() - 2]);
            }
        }
    }
}

/// A word is its own only word.
pub proof fn lemma_words_of_word(w: Seq<char>)
    requires
        is_word(w),
    ensures
        words(w) == seq![w],
    decreases w.len(),
{
    if w.len() == 1 {
        assert(words(w.drop_last()) == Seq::<Seq<char>>::empty());
        assert(seq![w.last()] == w);
    } else {
        let rest = w.drop_last();
        assert(forall|i: int| 0 <= i < rest.len() ==> rest[i] == w[i]);
        lemma_words_of_word(rest);
        assert(rest.push(w.last()) == w);
        assert(seq![rest].drop_last().push(rest.push(w.last())) == seq![w]);
    }
}

/// Where two texts meet at white space, or one of them is empty, the words
/// of the whole are those of the first followed by those of the second.
pub proof fn lemma_words_concat(a: Seq<char>, b: Seq<char>)
    requires
        a.len() == 0 || b.len() == 0 || is_whitespace(a.last()) || is_whitespace(b.first()),
    ensures
        words(a + b) == words(a) + words(b),
    decreases b.len(),
{
    if b.len() == 0 {
        assert(a + b == a);
        assert(words(a) + words(b) == words(a));
    } else {
        let s = a + b;
        let rest = b.drop_last();
        assert(s.drop_last() == a + rest);
        assert(s.last() == b.last());
        if rest.len() > 0 {
            assert(rest.first() == b.first());
        } else {
            assert(a + rest == a);
        }
        lemma_words_concat(a, rest);
        if is_whitespace(b.last()) {
        } else if s.len() > 1 && !is_whitespace(s[s.len() - 2]) {
            assert(rest.len() > 0) by {
                if rest.len() == 0 {
                    assert(s[s.len() - 2] == a.last());
                    assert(b.first() == b.last());
                }
            }
            assert(s[s.len() - 2] == b[b.len() - 2]);
            assert(rest.last() == b[b.len() - 2]);
            lemma_words(rest);
            let x = words(a);
            let y = words(rest);
            assert((x + y).drop_last() == x + y.drop_last());
            assert((x + y.drop_last()).push(y.last().push(b.last())) == x + y.drop_last().push(
                y.last().push(b.last()),
            ));
        } else {
            if b.len() > 1 {
                assert(s[s.len() - 2] == b[b.len() - 2]);
            }
            assert((words(a) + words(rest)).push(seq![b.last()]) == words(a) + words(rest).push(
                seq![b.last()],
            ));
        }
    }
}

/// A blank text has no words.
pub proof fn lemma_words_of_blank(s: Seq<char>)
    requires
        is_blank(s),
    ensures
        words(s) == Seq::<Seq<char>>::empty(),
{
    lemma_words(s);
}

/// Trimming does not change the words of a text.
pub proof fn lemma_words_of_trim(s: Seq<char>)
    ensures
        words(trim(s)) == words(s),
{
    lemma_trim(s);
    lemma_trim_start(s);
    let t = trim_start(s);
    lemma_trim_end(t);
    let a = s.len() - t.len();
    let head = s.take(a);
    let core = trim(s);
    let tail = t.skip(core.len() as int);
    assert(t == core + tail);
    assert(s == head + t);
    lemma_words_of_blank(head);
    lemma_words_of_blank(tail);
    if tail.len() > 0 {
        assert(is_whitespace(tail[0]));
    }
    lemma_words_concat(core, tail);
    if head.len() > 0 {
        assert(is_whitespace(head[head.len() - 1]));
    }
    lemma_words_concat(head, t);
    assert(words(core) + Seq::<Seq<char>>::empty() == words(core));
    assert(Seq::<Seq<char>>::empty() + words(t) == words(t));
}

/// Two texts with a space between them have the words of the first followed
/// by the words of the second.
pub proof fn lemma_words_spaced(a: Seq<char>, b: Seq<char>)
    ensures
        words(spaced(a, b)) == words(a) + words(b),
{
    let sp = seq![' '];
    assert(is_whitespace(sp.last()));
    assert(is_whitespace(sp.first()));
    lemma_words_concat(a, sp);
    lemma_words_concat(a + sp, b);
    assert(is_blank(sp));
    lemma_words_of_blank(sp);
    assert(words(a) + Seq::<Seq<char>>::empty() == words(a));
}

/// No piece holds a mark, and the pieces put together are the text without
/// its marks.
pub proof fn lemma_pieces(s: Seq<char>, marks: Seq<char>)
    ensures
        pieces(s, marks).len() >= 1,
        forall|i: int, j: int|
            0 <= i < pieces(s, marks).len() && 0 <= j < pieces(s, marks)[i].len()
                ==> !marks.contains(#[trigger] pieces(s, marks)[i][j]),
        pieces(s, marks).flatten() == s.filter(|c: char| !marks.contains(c)),
    decreases s.len(),
{
    let keep = |c: char| !marks.contains(c);
    reveal(Seq::filter);
    if s.len() == 0 {
        seq![Seq::<char>::empty()].lemma_flatten_one_element();
    } else {
        let rest = s.drop_last();
        lemma_pieces(rest, marks);
        let before = pieces(rest, marks);
        if marks.contains(s.last()) {
            before.lemma_flatten_push(Seq::empty());
            assert(before.flatten() + Seq::<char>::empty() == before.flatten());
        } else {
            let grown = before.last().push(s.last());
            before.drop_last().lemma_flatten_push(grown);
            before.drop_last().lemma_flatten_push(before.last());
            assert(before.drop_last().push(before.last()) == before);
            assert(before.drop_last().flatten() + grown == (before.drop_last().flatten()
                + before.last()).push(s.last()));
        }
    }
}

/// A text is one piece exactly if it holds no mark.
pub proof fn lemma_pieces_single(s: Seq<char>, marks: Seq<char>)
    ensures
        pieces(s, marks).len() >= 1,
        pieces(s, marks).len() == 1 <==> !holds_mark(s, marks),
        !holds_mark(s, marks) ==> pieces(s, marks) == seq![s],
    decreases s.len(),
{
    if s.len() == 0 {
        assert(s == Seq::<char>::empty());
    } else {
        let rest = s.drop_last();
        lemma_pieces_single(rest, marks);
        if marks.contains(s.last()) {
            assert(marks.contains(s[s.len() - 1]));
        } else if holds_mark(rest, marks) {
            let i = choose|i: int| 0 <= i < rest.len() && marks.contains(#[trigger] rest[i]);
            assert(s[i] == rest[i]);
        } else {
            if holds_mark(s, marks) {
                let i = choose|i: int| 0 <= i < s.len() && marks.contains(#[trigger] s[i]);
                if i < rest.len() {
                    assert(rest[i] == s[i]);
                }
            }
            assert(rest.push(s.last()) == s);
            assert(seq![rest].drop_last().push(rest.push(s.last())) == seq![s]);
        }
    }
}

/// The pieces of a blank text are blank.
pub proof fn lemma_pieces_of_blank(s: Seq<char>, marks: Seq<char>)
    requires
        is_blank(s),
    ensures
        forall|i: int| 0 <= i < pieces(s, marks).len() ==> is_blank(#[trigger] pieces(s, marks)[i]),
    decreases s.len(),
{
    if s.len() > 0 {
        let rest = s.drop_last();
        assert forall|i: int| 0 <= i < rest.len() implies is_whitespace(#[trigger] rest[i]) by {
            assert(rest[i] == s[i]);
        }
        lemma_pieces_of_blank(rest, marks);
        let before = pieces(rest, marks);
        lemma_pieces(rest, marks);
        assert(is_whitespace(s[s.len() - 1]));
        assert forall|i: int| 0 <= i < pieces(s, marks).len() implies is_blank(
            #[trigger] pieces(s, marks)[i],
        ) by {
            if i < before.len() - 1 {
                assert(pieces(s, marks)[i] == before[i]);
            } else if marks.contains(s.last()) {
                if i < before.len() {
                    assert(pieces(s, marks)[i] == before[i]);
                }
            } else {
                assert(is_blank(before[before.len() - 1]));
                let grown = before.last().push(s.last());
                assert(pieces(s, marks)[i] == grown);
                assert forall|j: int| 0 <= j < grown.len() implies is_whitespace(
                    #[trigger] grown[j],
                ) by {
                    if j < before.last().len() {
                        assert(grown[j] == before.last()[j]);
                    }
                }
            }
        }
    }
}

/// Tells white space from other characters.
pub fn whitespace(c: char) -> (r: bool)
    ensures
        r == is_whitespace(c),
{
    ('\u{9}' <= c && c <= '\u{d}') || c == ' ' || c == '\u{85}' || c == '\u{a0}' || c
        == '\u{1680}' || ('\u{2000}' <= c && c <= '\u{200a}') || c == '\u{2028}' || c
        == '\u{2029}' || c == '\u{202f}' || c == '\u{205f}' || c == '\u{3000}'
}

/// The characters of a string.
pub fn chars_of(s: &str) -> (v: Vec<char>)
    ensures
        v@ == s@,
{
    let mut v: Vec<char> = Vec::new();
    for c in it: s.chars()
        invariant
            it.seq() == s@,
            v@ == s@.take(it.index() as int),
    {
        v.push(c);
    }
    proof {
        assert(s@.take(s@.len() as int) == s@);
    }
    v
}

/// The string that holds the given characters.
pub fn string_of(v: &Vec<char>) -> (s: String)
    ensures
        s@ == v@,
{
    let mut s = String::new();
    let mut i: usize = 0;
    while i < v.len()
        invariant
            i <= v.len(),
            s@ == v@.take(i as int),
        decreases v.len() - i,
    {
        s.push(v[i]);
        i += 1;
    }
    proof {
        assert(v@.take(v@.len() as int) == v@);
    }
    s
}

/// The strings that hold the given texts.
pub fn strings_of(v: &Vec<Vec<char>>) -> (out: Vec<String>)
    ensures
        strings(out@) == texts(v@),
{
    let mut out: Vec<String> = Vec::new();
    let mut i: usize = 0;
    while i < v.len()
        invariant
            i <= v.len(),
            strings(out@) == texts(v@.take(i as int)),
        decreases v.len() - i,
    {
        let s = string_of(&v[i]);
        proof {
            assert(v@.take(i + 1) == v@.take(i as int).push(v@[i as int]));
            assert(texts(v@.take(i as int).push(v@[i as int])) == texts(v@.take(i as int)).push(
                v@[i as int]@,
            ));
            assert(strings(out@.push(s)) == strings(out@).push(s@));
        }
        out.push(s);
        i += 1;
    }
    proof {
        assert(v@.take(v@.len() as int) == v@);
    }
    out
}

/// Copies the characters of `v` from `from` up to `to`.
pub fn slice_of(v: &Vec<char>, from: usize, to: usize) -> (out: Vec<char>)
    requires
        from <= to <= v.len(),
    ensures
        out@ == v@.subrange(from as int, to as int),
{
    let mut out: Vec<char> = Vec::new();
    let mut i: usize = from;
    while i < to
        invariant
            from <= i <= to <= v.len(),
            out@ == v@.subrange(from as int, i as int),
        decreases to - i,
    {
        out.push(v[i]);
        proof {
            assert(v@.subrange(from as int, i + 1) == v@.subrange(from as int, i as int).push(
                v@[i as int],
            ));
        }
        i += 1;
    }
    out
}

/// Whether a text holds nothing but white space.
pub fn blank(v: &Vec<char>) -> (r: bool)
    ensures
        r == is_blank(v@),
{
    let mut i: usize = 0;
    while i < v.len()
        invariant
            i <= v.len(),
            forall|j: int| 0 <= j < i ==> is_whitespace(#[trigger] v@[j]),
        decreases v.len() - i,
    {
        if !whitespace(v[i]) {
            return false;
        }
        i += 1;
    }
    true
}

/// Removes leading and trailing white space.
pub fn trimmed(v: &Vec<char>) -> (out: Vec<char>)
    ensures
        out@ == trim(v@),
{
    let mut from: usize = 0;
    proof {
        assert(v@.skip(0) == v@);
    }
    while from < v.len() && whitespace(v[from])
        invariant
            from <= v.len(),
            trim_start(v@) == trim_start(v@.skip(from as int)),
        decreases v.len() - from,
    {
        proof {
            assert(v@.skip(from as int).drop_first() == v@.skip(from + 1));
        }
        from += 1;
    }
    let mut to: usize = v.len();
    proof {
        assert(v@.skip(from as int).take(to - from) == v@.skip(from as int));
    }
    while to > from && whitespace(v[to - 1])
        invariant
            from <= to <= v.len(),
            trim_start(v@) == v@.skip(from as int),
            trim(v@) == trim_end(v@.skip(from as int).take(to - from)),
        decreases to,
    {
        proof {
            assert(v@.skip(from as int).take(to - from).drop_last() == v@.skip(from as int).take(
                to - from - 1,
            ));
        }
        to -= 1;
    }
    proof {
        assert(v@.skip(from as int).take(to - from) == v@.subrange(from as int, to as int));
    }
    slice_of(v, from, to)
}

/// Splits a text into its words.
pub fn split_words(v: &Vec<char>) -> (out: Vec<Vec<char>>)
    ensures
        texts(out@) == words(v@),
{
    let mut out: Vec<Vec<char>> = Vec::new();
    let mut word: Vec<char> = Vec::new();
    let mut i: usize = 0;
    while i < v.len()
        invariant
            i <= v.len(),
            word@.len() > 0 <==> i > 0 && !is_whitespace(v@[i - 1]),
            words(v@.take(i as int)) == (if word@.len() > 0 {
                texts(out@).push(word@)
            } else {
                texts(out@)
            }),
        decreases v.len() - i,
    {
        let c = v[i];
        proof {
            let s = v@.take(i + 1);
            assert(s.drop_last() == v@.take(i as int));
            assert(s.last() == c);
            if i > 0 {
                assert(s[s.len() - 2] == v@[i - 1]);
            }
        }
        if whitespace(c) {
            if word.len() > 0 {
                proof {
                    assert(texts(out@.push(word)) == texts(out@).push(word@));
                }
                out.push(word);
                word = Vec::new();
            }
        } else {
            proof {
                if word@.len() > 0 {
                    let before = texts(out@).push(word@);
                    assert(before.drop_last() == texts(out@));
                    assert(before.last() == word@);
                } else {
                    assert(seq![c] == word@.push(c));
                }
            }
            word.push(c);
        }
        i += 1;
    }
    proof {
        assert(v@.take(v@.len() as int) == v@);
    }
    if word.len() > 0 {
        proof {
            assert(texts(out@.push(word)) == texts(out@).push(word@));
        }
        out.push(word);
    }
    out
}

/// Whether `c` is one of `marks`.
pub fn is_mark(c: char, marks: &Vec<char>) -> (r: bool)
    ensures
        r == marks@.contains(c),
{
    let mut i: usize = 0;
    while i < marks.len()
        invariant
            i <= marks.len(),
            forall|j: int| 0 <= j < i ==> marks@[j] != c,
        decreases marks.len() - i,
    {
        if marks[i] == c {
            return true;
        }
        i += 1;
    }
    false
}

/// Cuts a text at every character that is one of `marks`.
pub fn split_at_marks(v: &Vec<char>, marks: &Vec<char>) -> (out: Vec<Vec<char>>)
    ensures
        texts(out@) == pieces(v@, marks@),
{
    let mut out: Vec<Vec<char>> = Vec::new();
    let mut piece: Vec<char> = Vec::new();
    let mut i: usize = 0;
    while i < v.len()
        invariant
            i <= v.len(),
            pieces(v@.take(i as int), marks@) == texts(out@).push(piece@),
        decreases v.len() - i,
    {
        let c = v[i];
        proof {
            let s = v@.take(i + 1);
            assert(s.drop_last() == v@.take(i as int));
            assert(s.last() == c);
            let before = texts(out@).push(piece@);
            assert(before.drop_last() == texts(out@));
            assert(before.last() == piece@);
        }
        if is_mark(c, marks) {
            proof {
                assert(texts(out@.push(piece)) == texts(out@).push(piece@));
            }
            out.push(piece);
            piece = Vec::new();
        } else {
            piece.push(c);
        }
        i += 1;
    }
    proof {
        assert(v@.take(v@.len() as int) == v@);
        assert(texts(out@.push(piece)) == texts(out@).push(piece@));
    }
    out.push(piece);
    out
}

} // verus!
