//! The Burrows–Wheeler transform of a text, read off its suffix array: the
//! last element first, then, in rank order, the element just before each
//! suffix that has one.

use vstd::prelude::*;

verus! {

/// The transform of the entries of `sa` taken so far: for each entry in
/// order, the element of `d` just before it, skipping the entry 0.
pub open spec fn bwt_rest<T>(d: Seq<T>, sa: Seq<usize>) -> Seq<T>
    decreases sa.len(),
{
    if sa.len() == 0 {
        Seq::empty()
    } else {
        bwt_rest(d, sa.drop_last()) + if sa.last() > 0 {
            seq![d[sa.last() - 1]]
        } else {
            Seq::empty()
        }
    }
}

/// The whole transform: the text's last element, then the rest.
pub open spec fn bwt_spec<T>(d: Seq<T>, sa: Seq<usize>) -> Seq<T> {
    (if d.len() > 0 {
        seq![d.last()]
    } else {
        Seq::empty()
    }) + bwt_rest(d, sa)
}

/// Builds the Burrows–Wheeler transform of `data` from its suffix array.
pub fn bwt<T: Copy>(data: &[T], suffix_array: &[usize]) -> (r: Vec<T>)
    requires
        forall|q: int| 0 <= q < suffix_array@.len() ==> (#[trigger] suffix_array@[q]) < data@.len(),
    ensures
        r@ == bwt_spec(data@, suffix_array@),
{
    let mut out: Vec<T> = Vec::new();

    if data.len() > 0 {
        out.push(data[data.len() - 1]);
    }

    let n = suffix_array.len();
    let mut k: usize = 0;
    while k < n
        invariant
            k <= n,
            n == suffix_array@.len(),
            forall|q: int| 0 <= q < n ==> (#[trigger] suffix_array@[q]) < data@.len(),
            out@ == bwt_spec(data@, suffix_array@.take(k as int)),
        decreases n - k,
    {
        let ghost before = suffix_array@.take(k as int);
        let index = suffix_array[k];
        if index > 0 {
            out.push(data[index - 1]);
        }
        proof {
            assert(suffix_array@.take(k + 1).drop_last() =~= before);
            assert(suffix_array@.take(k + 1).last() == suffix_array@[k as int]);
        }
        k = k + 1;
    }
    proof {
        assert(suffix_array@.take(n as int) =~= suffix_array@);
    }
    out
}

} // verus!
