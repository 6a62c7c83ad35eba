//! Putting values at the places that they name.

use vstd::prelude::*;

use crate::errors::Error;

verus! {

/// `k` is the first position whose index cannot be used: it lies beyond the
/// output, or an earlier position has taken it.
pub open spec fn first_fault(indices: Seq<usize>, output_len: usize, k: int) -> bool {
    &&& 0 <= k < indices.len()
    &&& (indices[k] >= output_len || indices.subrange(0, k).contains(indices[k]))
    &&& forall|i: int| 0 <= i < k ==> #[trigger] indices[i] < output_len
    &&& indices.subrange(0, k).no_duplicates()
}

/// Every index lies within the output, and none occurs twice.
pub open spec fn placeable(indices: Seq<usize>, output_len: usize) -> bool {
    &&& forall|i: int| 0 <= i < indices.len() ==> #[trigger] indices[i] < output_len
    &&& indices.no_duplicates()
}

/// The error that a fault at position `k` gives.
pub open spec fn fault_error(indices: Seq<usize>, output_len: usize, k: int) -> Error {
    if indices[k] >= output_len {
        Error::IndexOutOfRange { output_len, index: indices[k] }
    } else {
        Error::DuplicateIndex { index: indices[k] }
    }
}

/// `r` is what unpacking `input` by `indices` into `output_len` places gives:
/// each value at the place that its index names and nothing elsewhere, or the
/// error of the first index that cannot be used.
pub open spec fn unpacked<T>(
    input: Seq<T>,
    indices: Seq<usize>,
    output_len: usize,
    r: Result<Vec<Option<T>>, Error>,
) -> bool {
    match r {
        Ok(out) => {
            &&& placeable(indices, output_len)
            &&& out.len() == output_len
            &&& forall|i: int| 0 <= i < input.len() ==> out[#[trigger] indices[i] as int] == Some(input[i])
            &&& forall|j: int|
                0 <= j < output_len ==> (#[trigger] out[j] is None <==> !indices.contains(j as usize))
        },
        Err(e) => exists|k: int| #[trigger]
            first_fault(indices, output_len, k) && e == fault_error(indices, output_len, k),
    }
}

/// A fault and a placeable list of indices exclude each other.
proof fn lemma_fault_or_placeable(indices: Seq<usize>, output_len: usize, k: int)
    requires
        first_fault(indices, output_len, k),
    ensures
        !placeable(indices, output_len),
{
    if indices.subrange(0, k).contains(indices[k]) {
        let i = choose|i: int| 0 <= i < k && indices.subrange(0, k)[i] == indices[k];
        assert(indices[i] == indices[k]);
    }
}

/// The first index that cannot be used, if there is one.
fn find_fault(indices: &Vec<usize>, output_len: usize) -> (r: Option<usize>)
    ensures
        match r {
            Some(k) => first_fault(indices@, output_len, k as int),
            None => placeable(indices@, output_len),
        },
{
    let mut seen: Vec<bool> = Vec::new();
    let mut j: usize = 0;
    while j < output_len
        invariant
            j <= output_len,
            seen.len() == j,
            forall|x: int| 0 <= x < j ==> !(#[trigger] seen[x]),
        decreases output_len - j,
    {
        seen.push(false);
        j += 1;
    }
    let mut k: usize = 0;
    while k < indices.len()
        invariant
            k <= indices.len(),
            seen.len() == output_len,
            forall|i: int| 0 <= i < k ==> #[trigger] indices[i] < output_len,
            indices@.subrange(0, k as int).no_duplicates(),
            forall|x: int|
                0 <= x < output_len ==> (#[trigger] seen[x] <==> indices@.subrange(
                    0,
                    k as int,
                ).contains(x as usize)),
        decreases indices.len() - k,
    {
        let idx = indices[k];
        if idx >= output_len {
            return Some(k);
        }
        if seen[idx] {
            return Some(k);
        }
        let ghost before = indices@.subrange(0, k as int);
        let ghost after = indices@.subrange(0, k + 1);
        seen.set(idx, true);
        assert(after =~= before.push(idx));
        assert(after.no_duplicates()) by {
            assert forall|x: int, y: int|
                0 <= x < after.len() && 0 <= y < after.len() && x != y implies #[trigger] after[x]
                != #[trigger] after[y] by {
                if x < k && y < k {
                    assert(before[x] == after[x]);
                    assert(before[y] == after[y]);
                } else if x < k {
                    assert(before[x] == after[x]);
                } else {
                    assert(before[y] == after[y]);
                }
            }
        }
        assert forall|x: int| 0 <= x < output_len implies (#[trigger] seen[x] <==> after.contains(
            x as usize,
        )) by {
            if x == idx {
                assert(after[k as int] == idx);
            } else {
                if before.contains(x as usize) {
                    let i = choose|i: int| 0 <= i < before.len() && before[i] == x as usize;
                    assert(after[i] == x as usize);
                }
                if after.contains(x as usize) {
                    let i = choose|i: int| 0 <= i < after.len() && after[i] == x as usize;
                    assert(before[i] == x as usize);
                }
            }
        }
        k += 1;
    }
    assert(indices@.subrange(0, indices.len() as int) =~= indices@);
    None
}

/// Given the values `input`, the place `indices[i]` that each value `input[i]`
/// belongs at, and the number of places, assembles the output: each value at
/// its place, and `None` at a place that no value names.
pub fn unpack_indexed<T>(input: Vec<T>, indices: &Vec<usize>, output_len: usize) -> (r: Result<
    Vec<Option<T>>,
    Error,
>)
    requires
        input.len() == indices.len(),
    ensures
        unpacked(input@, indices@, output_len, r),
        r is Ok <==> placeable(indices@, output_len),
{
    match find_fault(indices, output_len) {
        Some(k) => {
            let idx = indices[k];
            proof {
                lemma_fault_or_placeable(indices@, output_len, k as int);
            }
            if idx >= output_len {
                return Err(Error::IndexOutOfRange { output_len, index: idx });
            } else {
                return Err(Error::DuplicateIndex { index: idx });
            }
        },
        None => {},
    }
    let ghost values = input@;
    let mut input = input;
    let mut output: Vec<Option<T>> = Vec::new();
    let mut j: usize = 0;
    while j < output_len
        invariant
            j <= output_len,
            output.len() == j,
            forall|x: int| 0 <= x < j ==> #[trigger] output[x] is None,
        decreases output_len - j,
    {
        output.push(None);
        j += 1;
    }
    let mut k: usize = input.len();
    while k > 0
        invariant
            k == input.len(),
            k <= indices.len(),
            values.len() == indices.len(),
            input@ == values.subrange(0, k as int),
            output.len() == output_len,
            placeable(indices@, output_len),
            forall|i: int|
                k <= i < indices.len() ==> output[#[trigger] indices[i] as int] == Some(values[i]),
            forall|x: int|
                0 <= x < output_len && (forall|i: int|
                    k <= i < indices.len() ==> #[trigger] indices[i] != x) ==> #[trigger] output[x] is None,
        decreases k,
    {
        let value = input.pop().unwrap();
        k -= 1;
        let idx = indices[k];
        let ghost before = output@;
        output.set(idx, Some(value));
        assert forall|i: int| k <= i < indices.len() implies output[#[trigger] indices[i] as int]
            == Some(values[i]) by {
            if i > k {
                assert(indices[i] != indices[k as int]);
                assert(before[indices[i] as int] == Some(values[i]));
            }
        }
        assert forall|x: int|
            0 <= x < output_len && (forall|i: int|
                k <= i < indices.len() ==> #[trigger] indices[i] != x) implies #[trigger] output[x] is None by {
            assert(indices[k as int] != x);
            assert(forall|i: int| k + 1 <= i < indices.len() ==> #[trigger] indices[i] != x);
            assert(before[x] is None);
        }
    }
    assert forall|x: int| 0 <= x < output_len implies (#[trigger] output[x] is None
        <==> !indices@.contains(x as usize)) by {
        if indices@.contains(x as usize) {
            let i = choose|i: int| 0 <= i < indices.len() && indices[i] == x as usize;
            assert(output[indices[i] as int] == Some(values[i]));
        }
    }
    Ok(output)
}

/// Given a vector `input`, an expected output vector length `output_len` and a
/// function `idx_fn` that maps input values to output indices, assembles an
/// output vector with each element at the right index, or `None` if no element
/// is found for an index.
pub fn unpack_vec<T, F>(input: Vec<T>, output_len: usize, idx_fn: F) -> (r: Result<
    Vec<Option<T>>,
    Error,
>) where F: Fn(&T) -> usize
    requires
        forall|i: int| 0 <= i < input.len() ==> call_requires(idx_fn, (&#[trigger] input[i],)),
    ensures
        exists|indices: Seq<usize>|
            {
                &&& indices.len() == input.len()
                &&& forall|i: int|
                    0 <= i < input.len() ==> call_ensures(idx_fn, (&input[i],), #[trigger] indices[i])
                &&& #[trigger] unpacked(input@, indices, output_len, r)
            },
{
    let mut indices: Vec<usize> = Vec::new();
    let mut i: usize = 0;
    while i < input.len()
        invariant
            i <= input.len(),
            indices.len() == i,
            forall|t: int| 0 <= t < input.len() ==> call_requires(idx_fn, (&#[trigger] input[t],)),
            forall|t: int| 0 <= t < i ==> call_ensures(idx_fn, (&input[t],), #[trigger] indices[t]),
        decreases input.len() - i,
    {
        let idx = idx_fn(&input[i]);
        indices.push(idx);
        i += 1;
    }
    let ghost values = input@;
    let r = unpack_indexed(input, &indices, output_len);
    assert(unpacked(values, indices@, output_len, r));
    r
}

} // verus!
