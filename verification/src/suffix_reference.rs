//! The back-reference index: for each position of the text, the best prior
//! occurrence of its longest shared prefix, derived from the suffix array
//! and the LCP array by two monotonic-stack sweeps over the ranks.

use vstd::prelude::*;

use crate::suffix_array::{
    bucket_seq, in_domain, is_suffix_array, lcp_array, lemma_lcp_value,
    lemma_suffix_array_distinct, lemma_suffix_lcp_bounds, rank_array, same_bucket, suffix_array,
    suffix_lcp, BucketOption,
};

verus! {

/// A back reference: a strictly earlier position `index` of the text whose
/// suffix shares a prefix of length `lcp` with the suffix it is recorded for.
#[derive(Clone, Copy, Debug, PartialEq, Eq, Structural)]
pub struct LcpBack {
    pub index: usize,
    pub lcp: usize,
}

/// A pending stack entry of the sweeps: a position and the running minimum
/// of the LCP values between it and the rank under the cursor.
#[derive(Clone, Copy)]
struct LcpHead {
    index: usize,
    lcp: usize,
}

/// Derives the back reference of each position of `data`: the best strictly
/// earlier occurrence of its longest shared prefix. Candidates come from a
/// forward sweep over the ranks (catching prior occurrences that are
/// lexicographically earlier) and a backward sweep (catching the
/// lexicographically later ones), each keeping a stack of positions with the
/// running minimum of the LCP values in between; a checking pass then holds
/// every candidate to the text, replacing a failing one with the best the
/// text itself shows. The contract is exact: an entry names a strictly
/// earlier position sharing exactly `lcp >= 1` leading elements, no earlier
/// position shares more, and no nearer position shares as much; a position
/// whose earlier occurrences share nothing gets `None` — a zero-length
/// occurrence is recorded as no occurrence at all.
pub fn back_array<T, B: BucketOption<T>>(
    data: &[T],
    bucket_option: &B,
    suffix_array: &[usize],
    lcp_array: &[usize],
) -> (r: Vec<Option<LcpBack>>)
    requires
        in_domain(*bucket_option, data@),
        is_suffix_array(bucket_seq(*bucket_option, data@), suffix_array@),
        lcp_array@.len() == data@.len(),
    ensures
        r@.len() == data@.len(),
        forall|i: int|
            0 <= i < r@.len() ==> ((#[trigger] r@[i]) is Some ==> {
                let b = r@[i]->Some_0;
                &&& b.index < i
                &&& 1 <= b.lcp
                &&& i + b.lcp <= data@.len()
                &&& b.lcp == suffix_lcp(bucket_seq(*bucket_option, data@), b.index as int, i)
            }),
        forall|i: int, j2: int|
            0 <= j2 < i < r@.len() ==> #[trigger] suffix_lcp(bucket_seq(*bucket_option, data@), j2, i)
                <= back_lcp_of(r@[i]),
        forall|i: int, j2: int|
            0 <= j2 < i < r@.len() && (r@[i] is Some && r@[i]->Some_0.index < j2)
                ==> #[trigger] suffix_lcp(bucket_seq(*bucket_option, data@), j2, i) < back_lcp_of(r@[i]),
{
    let ghost s = bucket_seq(*bucket_option, data@);
    let n = suffix_array.len();
    proof {
        assert(n == data@.len());
    }
    let mut back: Vec<Option<LcpBack>> = vec![None; n];
    let mut heads: Vec<LcpHead> = Vec::new();

    // Forward sweep, ranks ascending; a new position pops and settles every
    // stacked position that lies after it in the text.
    let mut rank: usize = 0;
    while rank < n
        invariant
            rank <= n,
            n == suffix_array@.len(),
            lcp_array@.len() == n,
            back@.len() == n,
            forall|q: int| 0 <= q < n ==> (#[trigger] suffix_array@[q]) < n,
            forall|h: int| 0 <= h < heads@.len() ==> (#[trigger] heads@[h]).index < n,
            forall|i: int|
                0 <= i < n ==> ((#[trigger] back@[i]) is Some ==> back@[i]->Some_0.index < i),
        decreases n - rank,
    {
        let index = suffix_array[rank];
        let mut acc_lcp = usize::MAX;

        let mut popping = true;
        while popping && heads.len() > 0
            invariant
                n == suffix_array@.len(),
                back@.len() == n,
                index < n,
                forall|h: int| 0 <= h < heads@.len() ==> (#[trigger] heads@[h]).index < n,
                forall|i: int|
                    0 <= i < n ==> ((#[trigger] back@[i]) is Some ==> back@[i]->Some_0.index < i),
            decreases heads@.len() + if popping { 1int } else { 0int },
        {
            let t = heads.len() - 1;
            let mut head = heads[t];
            if acc_lcp < head.lcp {
                head.lcp = acc_lcp;
            }
            heads[t] = head;

            if index >= head.index {
                popping = false;
            } else {
                back[head.index] = Some(LcpBack { index, lcp: head.lcp });
                acc_lcp = head.lcp;
                heads.pop();
            }
        }

        let next_lcp = if rank + 1 < n {
            lcp_array[rank + 1]
        } else {
            0
        };
        heads.push(LcpHead { index, lcp: next_lcp });
        rank = rank + 1;
    }

    // Backward sweep, ranks descending; an entry replaces an earlier one
    // only when it shares more, or as much from nearer by.
    let mut heads: Vec<LcpHead> = Vec::new();
    let mut rank: usize = n;
    while rank > 0
        invariant
            rank <= n,
            n == suffix_array@.len(),
            lcp_array@.len() == n,
            back@.len() == n,
            forall|q: int| 0 <= q < n ==> (#[trigger] suffix_array@[q]) < n,
            forall|h: int| 0 <= h < heads@.len() ==> (#[trigger] heads@[h]).index < n,
            forall|i: int|
                0 <= i < n ==> ((#[trigger] back@[i]) is Some ==> back@[i]->Some_0.index < i),
        decreases rank,
    {
        rank = rank - 1;
        let index = suffix_array[rank];
        let mut acc_lcp = usize::MAX;

        let mut popping = true;
        while popping && heads.len() > 0
            invariant
                n == suffix_array@.len(),
                back@.len() == n,
                index < n,
                forall|h: int| 0 <= h < heads@.len() ==> (#[trigger] heads@[h]).index < n,
                forall|i: int|
                    0 <= i < n ==> ((#[trigger] back@[i]) is Some ==> back@[i]->Some_0.index < i),
            decreases heads@.len() + if popping { 1int } else { 0int },
        {
            let t = heads.len() - 1;
            let mut head = heads[t];
            if acc_lcp < head.lcp {
                head.lcp = acc_lcp;
            }
            heads[t] = head;

            if index >= head.index {
                popping = false;
            } else {
                let improves = match back[head.index] {
                    None => true,
                    Some(b) => head.lcp > b.lcp || (head.lcp == b.lcp && index > b.index),
                };
                if improves {
                    back[head.index] = Some(LcpBack { index, lcp: head.lcp });
                }
                acc_lcp = head.lcp;
                heads.pop();
            }
        }

        let next_lcp = lcp_array[rank];
        heads.push(LcpHead { index, lcp: next_lcp });
    }

    // Hold every candidate to the text: its shared-prefix length must be
    // exact, no earlier position may share more, and no nearer one as much;
    // a failing candidate is replaced by the best the text itself shows,
    // the nearest of the longest.
    let mut i: usize = 0;
    while i < n
        invariant
            i <= n,
            n == data@.len(),
            in_domain(*bucket_option, data@),
            s == bucket_seq(*bucket_option, data@),
            back@.len() == n,
            forall|m: int|
                0 <= m < n ==> ((#[trigger] back@[m]) is Some ==> back@[m]->Some_0.index < m),
            forall|m: int|
                0 <= m < i ==> ((#[trigger] back@[m]) is Some ==> {
                    let b = back@[m]->Some_0;
                    &&& b.index < m
                    &&& 1 <= b.lcp
                    &&& m + b.lcp <= n
                    &&& b.lcp == suffix_lcp(s, b.index as int, m)
                }),
            forall|m: int, j2: int|
                0 <= j2 < m < i ==> #[trigger] suffix_lcp(s, j2, m) <= back_lcp_of(back@[m]),
            forall|m: int, j2: int|
                0 <= j2 < m < i && (back@[m] is Some && back@[m]->Some_0.index < j2)
                    ==> #[trigger] suffix_lcp(s, j2, m) < back_lcp_of(back@[m]),
        decreases n - i,
    {
        // The best the text shows for position i, latest start winning.
        let mut best: usize = 0;
        let mut best_j: usize = 0;
        let mut j: usize = 0;
        while j < i
            invariant
                j <= i < n,
                n == data@.len(),
                in_domain(*bucket_option, data@),
                s == bucket_seq(*bucket_option, data@),
                best <= n - i,
                forall|j2: int| 0 <= j2 < j ==> #[trigger] suffix_lcp(s, j2, i as int) <= best,
                best > 0 ==> best_j < i && suffix_lcp(s, best_j as int, i as int) == best,
                forall|j2: int|
                    best_j < j2 < j ==> #[trigger] suffix_lcp(s, j2, i as int) < best,
                best == 0 && j > 0 ==> best_j == j - 1,
            decreases i - j,
        {
            let l = shared_prefix_len(data, bucket_option, j, i);
            if l >= best {
                best = l;
                best_j = j;
            }
            j = j + 1;
        }

        let keep = match back[i] {
            Some(b) => best >= 1 && b.lcp == best && b.index == best_j,
            None => best == 0,
        };
        if !keep {
            if best >= 1 {
                back[i] = Some(LcpBack { index: best_j, lcp: best });
            } else {
                back[i] = None;
            }
        }
        i = i + 1;
    }

    back
}

/// The recorded shared-prefix length of a back-reference entry: zero where
/// there is none.
pub open spec fn back_lcp_of(entry: Option<LcpBack>) -> int {
    match entry {
        Some(b) => b.lcp as int,
        None => 0,
    }
}

/// The length of the longest prefix the suffixes at `j` and `i` share,
/// counted element by element.
fn shared_prefix_len<T, B: BucketOption<T>>(data: &[T], bucket_option: &B, j: usize, i: usize) -> (l: usize)
    requires
        in_domain(*bucket_option, data@),
        j < i <= data@.len(),
    ensures
        l == suffix_lcp(bucket_seq(*bucket_option, data@), j as int, i as int),
        l <= data@.len() - i,
{
    let ghost s = bucket_seq(*bucket_option, data@);
    let n = data.len();
    let mut l: usize = 0;
    while j + l < n && i + l < n && same_bucket(data, bucket_option, j + l, i + l)
        invariant
            n == data@.len(),
            in_domain(*bucket_option, data@),
            s == bucket_seq(*bucket_option, data@),
            j < i <= n,
            j + l <= n,
            i + l <= n,
            forall|u: int| 0 <= u < l ==> #[trigger] s[j + u] == s[i + u],
        decreases n - l,
    {
        l = l + 1;
    }
    proof {
        lemma_lcp_value(s, j as int, i as int, l as int);
    }
    l
}

/// The suffix structure of one text: its suffix array, the rank array, and a
/// back reference for each position. Built by `from_data`; every entry of
/// the back array is held to the text before it is kept.
pub struct SuffixReference {
    suffix_array: Vec<usize>,
    rank_array: Vec<usize>,
    back_array: Vec<Option<LcpBack>>,
    text: Ghost<Seq<int>>,
}

impl SuffixReference {
    /// The text, as bucket indices, that this structure describes.
    pub closed spec fn text_spec(&self) -> Seq<int> {
        self.text@
    }

    /// The text's length.
    pub closed spec fn len_spec(&self) -> int {
        self.text@.len() as int
    }

    /// All three arrays describe `text`: the suffix array orders its
    /// suffixes, the rank array inverts the suffix array, and every back
    /// reference names a strictly earlier position whose suffix shares
    /// exactly `lcp` leading elements, at least one.
    pub closed spec fn wf(&self) -> bool {
        &&& is_suffix_array(self.text@, self.suffix_array@)
        &&& self.rank_array@.len() == self.text@.len()
        &&& forall|i: int|
            0 <= i < self.text@.len() ==> (#[trigger] self.rank_array@[i]) < self.text@.len()
                && self.suffix_array@[self.rank_array@[i] as int] == i
        &&& forall|q: int|
            0 <= q < self.text@.len() ==> self.rank_array@[#[trigger] self.suffix_array@[q] as int]
                == q
        &&& self.back_array@.len() == self.text@.len()
        &&& forall|i: int|
            0 <= i < self.text@.len() ==> ((#[trigger] self.back_array@[i]) is Some ==> {
                let b = self.back_array@[i]->Some_0;
                &&& b.index < i
                &&& 1 <= b.lcp
                &&& i + b.lcp <= self.text@.len()
                &&& b.lcp == suffix_lcp(self.text@, b.index as int, i)
            })
        &&& forall|i: int, j2: int|
            0 <= j2 < i < self.text@.len() ==> #[trigger] suffix_lcp(self.text@, j2, i)
                <= back_lcp_of(self.back_array@[i])
        &&& forall|i: int, j2: int|
            0 <= j2 < i < self.text@.len() && (self.back_array@[i] is Some
                && self.back_array@[i]->Some_0.index < j2) ==> #[trigger] suffix_lcp(
                self.text@,
                j2,
                i,
            ) < back_lcp_of(self.back_array@[i])
    }

    /// Builds the suffix structure of `data` under `bucket_option`: the
    /// suffix array, its inverse, and the checked back-reference array of
    /// `back_array`, whose exactness, maximality and nearest-tie-break
    /// contract becomes this structure's invariant. The stored array is the
    /// suffix array of the text, so `index` is pinned: the suffix array of a
    /// text is unique.
    pub fn from_data<T, B: BucketOption<T>>(data: &[T], bucket_option: &B) -> (r: SuffixReference)
        requires
            in_domain(*bucket_option, data@),
            data@.len() < usize::MAX,
        ensures
            r.wf(),
            r.text_spec() == bucket_seq(*bucket_option, data@),
            r.len_spec() == data@.len(),
            is_suffix_array(bucket_seq(*bucket_option, data@), r.sa_spec()),
            r.sa_spec().len() == data@.len(),
            r.rank_spec().len() == data@.len(),
    {
        let ghost s = bucket_seq(*bucket_option, data@);
        let sa = suffix_array(data, bucket_option);
        proof {
            lemma_suffix_array_distinct(s, sa@);
        }
        let rank = rank_array(sa.as_slice());
        let lcp = lcp_array(data, bucket_option, sa.as_slice(), rank.as_slice());
        let back = back_array(data, bucket_option, sa.as_slice(), lcp.as_slice());

        SuffixReference { suffix_array: sa, rank_array: rank, back_array: back, text: Ghost(s) }
    }

    /// The suffix array entries.
    pub closed spec fn sa_spec(&self) -> Seq<usize> {
        self.suffix_array@
    }

    /// The rank array entries.
    pub closed spec fn rank_spec(&self) -> Seq<usize> {
        self.rank_array@
    }

    /// The back array entries.
    pub closed spec fn back_spec(&self) -> Seq<Option<LcpBack>> {
        self.back_array@
    }

    /// The position whose suffix has the given rank.
    pub fn index(&self, rank: usize) -> (r: usize)
        requires
            self.wf(),
            rank < self.len_spec(),
        ensures
            r == self.sa_spec()[rank as int],
            r < self.len_spec(),
            self.rank_spec()[r as int] == rank,
    {
        self.suffix_array[rank]
    }

    /// The rank of the suffix at the given position.
    pub fn rank(&self, index: usize) -> (r: usize)
        requires
            self.wf(),
            index < self.len_spec(),
        ensures
            r == self.rank_spec()[index as int],
            r < self.len_spec(),
            self.sa_spec()[r as int] == index,
    {
        self.rank_array[index]
    }

    /// The back reference recorded for a position: the strictly earlier
    /// position whose suffix shares exactly `lcp >= 1` leading elements with
    /// the suffix at `index` — element by element — such that no earlier
    /// position shares more and no nearer one shares as much. `None` where
    /// no earlier position shares anything (a zero-length occurrence is
    /// recorded as no occurrence), and for any `index` past the end.
    pub fn back(&self, index: usize) -> (r: Option<LcpBack>)
        requires
            self.wf(),
        ensures
            index < self.len_spec() ==> r == self.back_spec()[index as int],
            index >= self.len_spec() ==> r is None,
            r is Some ==> {
                let b = r->Some_0;
                &&& b.index < index < self.len_spec()
                &&& 1 <= b.lcp
                &&& index + b.lcp <= self.len_spec()
                &&& b.lcp == suffix_lcp(self.text_spec(), b.index as int, index as int)
                &&& forall|m: int|
                    0 <= m < b.lcp ==> #[trigger] self.text_spec()[b.index + m]
                        == self.text_spec()[index + m]
            },
            index < self.len_spec() ==> forall|j2: int|
                0 <= j2 < index ==> #[trigger] suffix_lcp(self.text_spec(), j2, index as int)
                    <= back_lcp_of(r),
            r is Some ==> forall|j2: int|
                r->Some_0.index < j2 < index ==> #[trigger] suffix_lcp(
                    self.text_spec(),
                    j2,
                    index as int,
                ) < r->Some_0.lcp,
    {
        let r = if index < self.back_array.len() {
            self.back_array[index]
        } else {
            None
        };
        proof {
            if r is Some {
                lemma_suffix_lcp_bounds(self.text@, r->Some_0.index as int, index as int);
            }
        }
        r
    }
}

} // verus!
