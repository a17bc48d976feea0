//! The shape in which a batch is handed to the inference engine: its rows
//! laid end to end, with the number of rows and the length of a row.

use crate::tts::text::strings;
use vstd::prelude::*;
use vstd::string::StringExecFns;

verus! {

/// A batch as the engine takes it: the number of rows, the length of a row,
/// and the values of all rows in one sequence.
#[derive(Debug)]
pub struct Flat<T> {
    pub rows: usize,
    pub columns: usize,
    pub values: Vec<T>,
}

/// The rows of a batch as sequences.
pub open spec fn row_values<T>(batch: Seq<Vec<T>>) -> Seq<Seq<T>> {
    batch.map_values(|row: Vec<T>| row@)
}

/// Lays the rows of a batch end to end. The batch has the shape of its first
/// row: the result is `None` where the values are not as many as that shape
/// holds, as with rows of different lengths.
pub fn flatten<T: Copy>(batch: &Vec<Vec<T>>) -> (r: Option<Flat<T>>)
    requires
        batch.len() > 0,
    ensures
        r is Some <==> row_values(batch@).flatten().len() == batch.len() * batch[0].len(),
        r is Some ==> r->0.rows == batch.len() && r->0.columns == batch[0].len() && r->0.values@
            == row_values(batch@).flatten(),
{
    let ghost all = row_values(batch@);
    let mut values: Vec<T> = Vec::new();
    let mut i: usize = 0;
    while i < batch.len()
        invariant
            i <= batch.len(),
            all == row_values(batch@),
            values@ == all.take(i as int).flatten(),
        decreases batch.len() - i,
    {
        let row = &batch[i];
        let mut k: usize = 0;
        proof {
            all.take(i as int).lemma_flatten_push(row@);
            assert(all.take(i + 1) == all.take(i as int).push(row@));
            assert(row@.take(0) == Seq::<T>::empty());
        }
        let ghost before = values@;
        while k < row.len()
            invariant
                k <= row.len(),
                values@ == before + row@.take(k as int),
            decreases row.len() - k,
        {
            values.push(row[k]);
            proof {
                assert(row@.take(k + 1) == row@.take(k as int).push(row@[k as int]));
            }
            k += 1;
        }
        proof {
            assert(row@.take(row@.len() as int) == row@);
        }
        i += 1;
    }
    proof {
        assert(all.take(batch@.len() as int) == all);
    }
    let rows = batch.len();
    let columns = batch[0].len();
    assert(values.len() == row_values(batch@).flatten().len());
    match rows.checked_mul(columns) {
        Some(expected) => {
            if expected == values.len() {
                Some(Flat { rows, columns, values })
            } else {
                None
            }
        },
        None => None,
    }
}

/// Each name as an item of a list.
pub open spec fn listed(names: Seq<Seq<char>>) -> Seq<Seq<char>> {
    names.map_values(|name: Seq<char>| "  - "@ + name)
}

/// What is shown of a model: the names of its inputs, the names of its
/// outputs, and the execution provider that it runs on.
pub open spec fn info(inputs: Seq<Seq<char>>, outputs: Seq<Seq<char>>, cuda: bool) -> Seq<Seq<char>> {
    seq!["Input names:"@] + listed(inputs) + seq!["Output names:"@] + listed(outputs) + seq![
        if cuda {
            "Configured with: CUDA execution provider"@
        } else {
            "Configured with: CPU execution provider"@
        },
    ]
}

/// Adds each name to `lines` as an item of a list.
fn list_into(names: &Vec<String>, lines: &mut Vec<String>)
    ensures
        strings(final(lines)@) == strings(old(lines)@) + listed(strings(names@)),
{
    let ghost before = strings(lines@);
    let mut i: usize = 0;
    proof {
        assert(before + listed(strings(names@).take(0)) == before);
    }
    while i < names.len()
        invariant
            i <= names.len(),
            strings(lines@) == before + listed(strings(names@).take(i as int)),
        decreases names.len() - i,
    {
        let mut item = "  - ".to_owned();
        item.append(names[i].as_str());
        proof {
            let shown = strings(names@);
            assert(shown.take(i + 1) == shown.take(i as int).push(names@[i as int]@));
            assert(listed(shown.take(i + 1)) == listed(shown.take(i as int)).push(item@));
            assert(strings(lines@.push(item)) == strings(lines@).push(item@));
        }
        lines.push(item);
        i += 1;
    }
    proof {
        assert(strings(names@).take(names@.len() as int) == strings(names@));
    }
}

/// The lines that show a model: see `info`.
pub fn info_lines(inputs: &Vec<String>, outputs: &Vec<String>, cuda: bool) -> (lines: Vec<String>)
    ensures
        strings(lines@) == info(strings(inputs@), strings(outputs@), cuda),
{
    let mut lines: Vec<String> = Vec::new();
    lines.push("Input names:".to_owned());
    proof {
        assert(strings(lines@) == seq!["Input names:"@]);
    }
    list_into(inputs, &mut lines);
    let ghost first = strings(lines@);
    lines.push("Output names:".to_owned());
    proof {
        assert(strings(lines@) == first + seq!["Output names:"@]);
    }
    list_into(outputs, &mut lines);
    let ghost second = strings(lines@);
    let provider = if cuda {
        "Configured with: CUDA execution provider".to_owned()
    } else {
        "Configured with: CPU execution provider".to_owned()
    };
    lines.push(provider);
    proof {
        assert(strings(lines@) == second + seq![provider@]);
    }
    lines
}

} // verus!
