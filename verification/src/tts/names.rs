//! The order of voice names: texts ordered character by character, as
//! strings are ordered.

use crate::tts::text::{chars_of, strings};
use vstd::prelude::*;
use vstd::seq_lib::{to_multiset_build, to_multiset_insert, to_multiset_remove};

verus! {

/// Whether `a` stands before `b` or is equal to it, character by character;
/// a text stands before every text that it begins.
pub open spec fn lex_le(a: Seq<char>, b: Seq<char>) -> bool
    decreases a.len(),
{
    if a.len() == 0 {
        true
    } else if b.len() == 0 {
        false
    } else if a.first() == b.first() {
        lex_le(a.drop_first(), b.drop_first())
    } else {
        a.first() < b.first()
    }
}

/// Whether the texts stand in ascending order.
pub open spec fn ascending(names: Seq<Seq<char>>) -> bool {
    forall|i: int, j: int| 0 <= i < j < names.len() ==> lex_le(#[trigger] names[i], #[trigger] names[j])
}

/// Whether the texts stand in strictly ascending order: each before the
/// next and different from it, so that none occurs twice.
pub open spec fn strictly_ascending(names: Seq<Seq<char>>) -> bool {
    forall|i: int, j: int|
        0 <= i < j < names.len() ==> lex_le(#[trigger] names[i], #[trigger] names[j]) && names[i]
            != names[j]
}

/// Names in ascending order with none twice among them are in strictly
/// ascending order, and every list that holds the same names is as long.
pub proof fn lemma_distinct_ascending(given: Seq<Seq<char>>, sorted: Seq<Seq<char>>)
    requires
        given.no_duplicates(),
        ascending(sorted),
        sorted.to_multiset() == given.to_multiset(),
    ensures
        strictly_ascending(sorted),
        sorted.no_duplicates(),
        sorted.len() == given.len(),
        sorted.to_set() == given.to_set(),
{
    broadcast use vstd::seq_lib::group_to_multiset_ensures;

    given.lemma_multiset_has_no_duplicates();
    sorted.lemma_multiset_has_no_duplicates_conv();
    assert(sorted.to_multiset().len() == sorted.len());
    assert(given.to_multiset().len() == given.len());
    assert(sorted.to_set() =~= given.to_set()) by {
        assert forall|x: Seq<char>| sorted.to_set().contains(x) == given.to_set().contains(x) by {
            assert(sorted.contains(x) <==> sorted.to_multiset().count(x) > 0);
            assert(given.contains(x) <==> given.to_multiset().count(x) > 0);
        }
    }
}

/// Of two texts one stands before the other or is equal to it.
pub proof fn lemma_lex_le_total(a: Seq<char>, b: Seq<char>)
    ensures
        lex_le(a, b) || lex_le(b, a),
    decreases a.len(),
{
    if a.len() > 0 && b.len() > 0 && a.first() == b.first() {
        lemma_lex_le_total(a.drop_first(), b.drop_first());
    }
}

/// The order is transitive.
pub proof fn lemma_lex_le_transitive(a: Seq<char>, b: Seq<char>, c: Seq<char>)
    requires
        lex_le(a, b),
        lex_le(b, c),
    ensures
        lex_le(a, c),
    decreases a.len(),
{
    if a.len() > 0 && b.len() > 0 && c.len() > 0 && a.first() == b.first() && b.first()
        == c.first() {
        lemma_lex_le_transitive(a.drop_first(), b.drop_first(), c.drop_first());
    }
}

/// Two texts that stand before each other are equal.
pub proof fn lemma_lex_le_antisymmetric(a: Seq<char>, b: Seq<char>)
    requires
        lex_le(a, b),
        lex_le(b, a),
    ensures
        a == b,
    decreases a.len(),
{
    if a.len() > 0 && b.len() > 0 {
        lemma_lex_le_antisymmetric(a.drop_first(), b.drop_first());
        assert(a =~= seq![a.first()] + a.drop_first());
        assert(b =~= seq![b.first()] + b.drop_first());
    } else {
        assert(a =~= b);
    }
}

/// There is one ascending order of given names: two ascending lists that
/// hold the same names, each as often as the other, are equal.
pub proof fn lemma_ascending_unique(a: Seq<Seq<char>>, b: Seq<Seq<char>>)
    requires
        ascending(a),
        ascending(b),
        a.to_multiset() == b.to_multiset(),
    ensures
        a == b,
    decreases a.len(),
{
    broadcast use vstd::seq_lib::group_to_multiset_ensures;

    assert(a.len() == b.len()) by {
        assert(a.to_multiset().len() == a.len());
        assert(b.to_multiset().len() == b.len());
    }
    if a.len() == 0 {
        assert(a =~= b);
    } else {
        let x = a[0];
        let y = b[0];
        assert(a.to_multiset().count(x) > 0) by {
            assert(a.contains(x));
        }
        assert(b.contains(x));
        let i = choose|i: int| 0 <= i < b.len() && b[i] == x;
        assert(lex_le(y, x)) by {
            if i > 0 {
                assert(lex_le(b[0], b[i]));
            } else {
                lemma_lex_le_total(x, x);
            }
        }
        assert(b.to_multiset().count(y) > 0) by {
            assert(b.contains(y));
        }
        assert(a.contains(y));
        let j = choose|j: int| 0 <= j < a.len() && a[j] == y;
        assert(lex_le(x, y)) by {
            if j > 0 {
                assert(lex_le(a[0], a[j]));
            } else {
                lemma_lex_le_total(y, y);
            }
        }
        lemma_lex_le_antisymmetric(x, y);
        let ra = a.remove(0);
        let rb = b.remove(0);
        to_multiset_remove(a, 0);
        to_multiset_remove(b, 0);
        assert forall|p: int, q: int| 0 <= p < q < ra.len() implies lex_le(
            #[trigger] ra[p],
            #[trigger] ra[q],
        ) by {
            assert(ra[p] == a[p + 1] && ra[q] == a[q + 1]);
        }
        assert forall|p: int, q: int| 0 <= p < q < rb.len() implies lex_le(
            #[trigger] rb[p],
            #[trigger] rb[q],
        ) by {
            assert(rb[p] == b[p + 1] && rb[q] == b[q + 1]);
        }
        lemma_ascending_unique(ra, rb);
        assert(a =~= seq![x] + ra);
        assert(b =~= seq![y] + rb);
    }
}

/// A copy of the names.
pub fn copy_names(names: &Vec<String>) -> (out: Vec<String>)
    ensures
        strings(out@) == strings(names@),
{
    let mut out: Vec<String> = Vec::new();
    let mut i: usize = 0;
    while i < names.len()
        invariant
            i <= names.len(),
            strings(out@) == strings(names@).take(i as int),
        decreases names.len() - i,
    {
        let name = names[i].clone();
        proof {
            assert(strings(out@.push(name)) == strings(out@).push(name@));
            assert(strings(names@).take(i + 1) == strings(names@).take(i as int).push(name@));
        }
        out.push(name);
        i += 1;
    }
    proof {
        assert(strings(names@).take(names@.len() as int) == strings(names@));
    }
    out
}

/// Compares two names.
pub fn name_le(a: &String, b: &String) -> (r: bool)
    ensures
        r == lex_le(a@, b@),
{
    let x = chars_of(a.as_str());
    let y = chars_of(b.as_str());
    let mut i: usize = 0;
    proof {
        assert(x@.skip(0) == x@);
        assert(y@.skip(0) == y@);
    }
    while i < x.len() && i < y.len() && x[i] == y[i]
        invariant
            i <= x.len(),
            i <= y.len(),
            lex_le(x@, y@) == lex_le(x@.skip(i as int), y@.skip(i as int)),
        decreases x.len() - i,
    {
        proof {
            assert(x@.skip(i as int).drop_first() == x@.skip(i + 1));
            assert(y@.skip(i as int).drop_first() == y@.skip(i + 1));
        }
        i += 1;
    }
    if i == x.len() {
        true
    } else if i == y.len() {
        false
    } else {
        x[i] < y[i]
    }
}

/// Whether no name occurs twice.
pub fn distinct(names: &Vec<String>) -> (r: bool)
    ensures
        r == strings(names@).no_duplicates(),
{
    let mut i: usize = 0;
    while i < names.len()
        invariant
            i <= names.len(),
            forall|a: int, b: int|
                0 <= a < b < i ==> #[trigger] strings(names@)[a] != #[trigger] strings(names@)[b],
        decreases names.len() - i,
    {
        let mut k: usize = 0;
        while k < i
            invariant
                k <= i < names.len(),
                forall|a: int| 0 <= a < k ==> #[trigger] strings(names@)[a] != strings(names@)[i as int],
            decreases i - k,
        {
            if names[k] == names[i] {
                proof {
                    assert(strings(names@)[k as int] == strings(names@)[i as int]);
                }
                return false;
            }
            k += 1;
        }
        i += 1;
    }
    proof {
        assert forall|a: int, b: int|
            0 <= a < strings(names@).len() && 0 <= b < strings(names@).len() && a
                != b implies strings(names@)[a] != strings(names@)[b] by {
            if a < b {
                assert(strings(names@)[a] != strings(names@)[b]);
            } else {
                assert(strings(names@)[b] != strings(names@)[a]);
            }
        }
    }
    true
}

/// The names in ascending order: the same names, each as often as it is
/// given.
pub fn sorted_names(names: &Vec<String>) -> (out: Vec<String>)
    ensures
        ascending(strings(out@)),
        strings(out@).to_multiset() == strings(names@).to_multiset(),
{
    let mut out: Vec<String> = Vec::new();
    let mut i: usize = 0;
    proof {
        assert(strings(names@).take(0) == strings(out@));
    }
    while i < names.len()
        invariant
            i <= names.len(),
            ascending(strings(out@)),
            strings(out@).to_multiset() == strings(names@).take(i as int).to_multiset(),
        decreases names.len() - i,
    {
        let name = names[i].clone();
        let mut at: usize = 0;
        while at < out.len() && name_le(&out[at], &name)
            invariant
                at <= out.len(),
                forall|k: int| 0 <= k < at ==> lex_le(#[trigger] strings(out@)[k], name@),
            decreases out.len() - at,
        {
            at += 1;
        }
        proof {
            let before = strings(out@);
            let after = before.insert(at as int, name@);
            assert(strings(out@.insert(at as int, name)) =~= after);
            assert forall|a: int, b: int| 0 <= a < b < after.len() implies lex_le(
                #[trigger] after[a],
                #[trigger] after[b],
            ) by {
                if b < at {
                    assert(after[a] == before[a] && after[b] == before[b]);
                } else if b == at {
                    assert(after[a] == before[a]);
                } else if a == at {
                    assert(after[b] == before[b - 1]);
                    lemma_lex_le_total(before[at as int], name@);
                    if b - 1 > at {
                        lemma_lex_le_transitive(name@, before[at as int], before[b - 1]);
                    }
                } else if a < at {
                    assert(after[a] == before[a] && after[b] == before[b - 1]);
                } else {
                    assert(after[a] == before[a - 1] && after[b] == before[b - 1]);
                }
            }
            to_multiset_insert(before, at as int, name@);
            let given = strings(names@);
            assert(given.take(i + 1) =~= given.take(i as int).push(name@));
            to_multiset_build(given.take(i as int), name@);
        }
        out.insert(at, name);
        i += 1;
    }
    proof {
        assert(strings(names@).take(names@.len() as int) == strings(names@));
    }
    out
}

} // verus!
