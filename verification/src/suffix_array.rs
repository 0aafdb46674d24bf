//! Suffix-array construction by induced sorting (SA-IS) over a generic
//! alphabet. The alphabet is supplied through the `BucketOption` capability,
//! which maps elements to dense bucket indices in `[0, size)`; every ordering
//! statement is made on the sequence of bucket indices of the input.

use vstd::prelude::*;
use vstd::set_lib::{lemma_int_range, lemma_len_subset, set_int_range};

use crate::lex::{
    lcp_seq, lemma_lcp_props, lemma_lex_asym, lemma_lex_first_diff, lemma_lex_irrefl,
    lemma_lex_trans, lex_less,
};

verus! {

/// An alphabet: a map from elements to dense bucket indices in `[0, size)`.
/// The bucket index order must be the comparison order meant for the
/// suffixes; `bucket_spec` says which bucket an element falls in.
pub trait BucketOption<T>: Sized {
    /// Number of buckets.
    spec fn size_spec(&self) -> int;

    /// The bucket an element falls in.
    spec fn bucket_spec(&self, value: T) -> int;

    fn size(&self) -> (r: usize)
        ensures
            r == self.size_spec(),
    ;

    fn bucket_index(&self, value: &T) -> (r: usize)
        requires
            0 <= self.bucket_spec(*value) < self.size_spec(),
        ensures
            r == self.bucket_spec(*value),
    ;
}

/// The byte alphabet: a byte is its own bucket index, 256 buckets.
pub struct U8Bucket;

impl BucketOption<u8> for U8Bucket {
    open spec fn size_spec(&self) -> int {
        256
    }

    open spec fn bucket_spec(&self, value: u8) -> int {
        value as int
    }

    fn size(&self) -> (r: usize) {
        256
    }

    fn bucket_index(&self, value: &u8) -> (r: usize) {
        *value as usize
    }
}

/// The index alphabet for the recursive SA-IS call: a `usize` key is its own
/// bucket index, with a caller-chosen number of buckets.
pub struct IndexBucket {
    pub size: usize,
}

impl BucketOption<usize> for IndexBucket {
    open spec fn size_spec(&self) -> int {
        self.size as int
    }

    open spec fn bucket_spec(&self, value: usize) -> int {
        value as int
    }

    fn size(&self) -> (r: usize) {
        self.size
    }

    fn bucket_index(&self, value: &usize) -> (r: usize) {
        *value
    }
}

/// Whether every element of `data` falls in a bucket of `opt`.
pub open spec fn in_domain<T, B: BucketOption<T>>(opt: B, data: Seq<T>) -> bool {
    forall|i: int| 0 <= i < data.len() ==> 0 <= #[trigger] opt.bucket_spec(data[i]) < opt.size_spec()
}

/// The sequence of bucket indices of `data` under `opt`: the text that the
/// suffix array orders.
pub open spec fn bucket_seq<T, B: BucketOption<T>>(opt: B, data: Seq<T>) -> Seq<int> {
    Seq::new(data.len(), |i: int| opt.bucket_spec(data[i]))
}

/// Position `i` is a left-most S-typed position: S-classified, just after
/// an L-classified one.
pub open spec fn is_lms(types: Seq<SuffixType>, i: int) -> bool {
    1 <= i < types.len() && types[i - 1] == SuffixType::L && types[i] == SuffixType::S
}

/// The suffix of `s` that starts at `i`, strictly before the one at `j`.
pub open spec fn suffix_less(s: Seq<int>, i: int, j: int) -> bool {
    lex_less(s.skip(i), s.skip(j))
}

/// Longest common prefix length of the suffixes of `s` at `i` and `j`.
pub open spec fn suffix_lcp(s: Seq<int>, i: int, j: int) -> nat {
    lcp_seq(s.skip(i), s.skip(j))
}

/// What it means for `sa` to be the suffix array of the text `s`: one entry
/// per position, each a position, and the suffixes they start strictly
/// increasing in lexicographic order.
pub open spec fn is_suffix_array(s: Seq<int>, sa: Seq<usize>) -> bool {
    &&& sa.len() == s.len()
    &&& forall|r: int| 0 <= r < sa.len() ==> (#[trigger] sa[r]) < s.len()
    &&& forall|r1: int, r2: int|
        0 <= r1 < r2 < sa.len() ==> suffix_less(s, #[trigger] sa[r1] as int, #[trigger] sa[r2] as int)
}

/// Adjacent order lifts to all pairs: if each entry's suffix is strictly
/// before the next one's, the suffixes are strictly increasing throughout.
pub proof fn lemma_adjacent_sorted_pairwise(s: Seq<int>, sa: Seq<usize>, r1: int, r2: int)
    requires
        forall|r: int| 0 <= r < sa.len() ==> (#[trigger] sa[r]) < s.len(),
        forall|r: int|
            1 <= r < sa.len() ==> suffix_less(s, sa[r - 1] as int, #[trigger] sa[r] as int),
        0 <= r1 < r2 < sa.len(),
    ensures
        suffix_less(s, sa[r1] as int, sa[r2] as int),
    decreases r2 - r1,
{
    if r2 == r1 + 1 {
        assert(suffix_less(s, sa[r2 - 1] as int, sa[r2] as int));
    } else {
        lemma_adjacent_sorted_pairwise(s, sa, r1, r2 - 1);
        assert(suffix_less(s, sa[r2 - 1] as int, sa[r2] as int));
        lemma_lex_trans(s.skip(sa[r1] as int), s.skip(sa[r2 - 1] as int), s.skip(sa[r2] as int));
    }
}

/// Distinct start positions in a suffix array: strict order rules out a
/// repeated entry.
pub proof fn lemma_suffix_array_distinct(s: Seq<int>, sa: Seq<usize>)
    requires
        is_suffix_array(s, sa),
    ensures
        forall|r1: int, r2: int| 0 <= r1 < r2 < sa.len() ==> sa[r1] != sa[r2],
{
    assert forall|r1: int, r2: int| 0 <= r1 < r2 < sa.len() implies sa[r1] != sa[r2] by {
        if sa[r1] == sa[r2] {
            assert(suffix_less(s, sa[r1] as int, sa[r2] as int));
            lemma_lex_irrefl(s.skip(sa[r1] as int));
        }
    }
}

/// Pigeonhole: a sequence of `n` distinct values below `n` takes every value
/// below `n`.
pub proof fn lemma_distinct_below_surjective(v: Seq<usize>, target: int)
    requires
        forall|r: int| 0 <= r < v.len() ==> (#[trigger] v[r]) < v.len(),
        forall|r1: int, r2: int| 0 <= r1 < r2 < v.len() ==> v[r1] != v[r2],
        0 <= target < v.len(),
    ensures
        exists|r: int| 0 <= r < v.len() && v[r] == target,
{
    if !(exists|r: int| 0 <= r < v.len() && v[r] == target) {
        let n = v.len() as int;
        let values = Set::new(|x: int| exists|r: int| 0 <= r < n && v[r] == x);
        let holes = set_int_range(0, n).remove(target);
        assert(values.subset_of(holes)) by {
            assert forall|x: int| values.contains(x) implies holes.contains(x) by {
                let r = choose|r: int| 0 <= r < n && v[r] == x;
                assert(v[r] < n);
            }
        }
        lemma_int_range(0, n);
        assert(holes.len() == n - 1);
        lemma_len_subset(values, holes);
        // values has n members, one per position of v; counting them per
        // prefix shows its cardinality is n, contradicting values <= n - 1.
        lemma_prefix_value_count(v, n);
        let full = Set::new(|x: int| exists|r: int| 0 <= r < n && v[r] == x);
        assert(full =~= values);
    }
}

/// The set of values in the first `k` positions of a distinct sequence has
/// exactly `k` members.
proof fn lemma_prefix_value_count(v: Seq<usize>, k: int)
    requires
        forall|r1: int, r2: int| 0 <= r1 < r2 < v.len() ==> v[r1] != v[r2],
        0 <= k <= v.len(),
    ensures
        Set::new(|x: int| exists|r: int| 0 <= r < k && v[r] == x).finite(),
        Set::new(|x: int| exists|r: int| 0 <= r < k && v[r] == x).len() == k,
    decreases k,
{
    let values = Set::new(|x: int| exists|r: int| 0 <= r < k && v[r] == x);
    if k == 0 {
        assert(values =~= Set::empty());
    } else {
        lemma_prefix_value_count(v, k - 1);
        let prev = Set::new(|x: int| exists|r: int| 0 <= r < k - 1 && v[r] == x);
        assert(!prev.contains(v[k - 1] as int));
        assert(values =~= prev.insert(v[k - 1] as int));
    }
}

/// Per-suffix classification: `L` when the suffix is lexicographically larger
/// than its right neighbour, `S` when smaller.
#[derive(Clone, Copy, PartialEq, Eq, Structural)]
pub enum SuffixType {
    S,
    L,
}

/// One bin of the bucket array: an L-region growing forward from `l_start`
/// and an S-region growing backward from `s_stop`, inside the shared
/// `indices` array. `l_count` and `s_count` are the current occupancies.
#[derive(Clone, Copy)]
struct BucketBin {
    l_start: usize,
    l_count: usize,
    s_stop: usize,
    s_count: usize,
}

impl BucketBin {
    /// The bin's span is inside an array of `n` slots and holds its current
    /// occupants.
    spec fn wf_in(self, n: int) -> bool {
        &&& self.l_start <= self.s_stop <= n
        &&& self.l_count + self.s_count <= self.s_stop - self.l_start
    }
}

/// Sum of the two per-bin counters over `bins`; during construction the
/// counters hold per-bin tallies, so this is the number of tallied elements.
spec fn tally_sum(bins: Seq<BucketBin>) -> int
    decreases bins.len(),
{
    if bins.len() == 0 {
        0
    } else {
        bins[0].l_start + bins[0].s_stop + tally_sum(bins.skip(1))
    }
}

proof fn lemma_tally_sum_nonneg(bins: Seq<BucketBin>)
    ensures
        tally_sum(bins) >= 0,
    decreases bins.len(),
{
    if bins.len() > 0 {
        lemma_tally_sum_nonneg(bins.skip(1));
    }
}

/// A store of bins whose tallies are all zero sums to zero.
proof fn lemma_tally_sum_zero(bins: Seq<BucketBin>)
    requires
        forall|k: int|
            0 <= k < bins.len() ==> (#[trigger] bins[k]).l_start == 0 && bins[k].s_stop == 0,
    ensures
        tally_sum(bins) == 0,
    decreases bins.len(),
{
    if bins.len() > 0 {
        assert(forall|k: int|
            0 <= k < bins.skip(1).len() ==> (#[trigger] bins.skip(1)[k]) == bins[k + 1]);
        lemma_tally_sum_zero(bins.skip(1));
    }
}

/// Replacing one bin changes the tally sum by the difference of the bins.
proof fn lemma_tally_sum_update(bins: Seq<BucketBin>, k: int, nb: BucketBin)
    requires
        0 <= k < bins.len(),
    ensures
        tally_sum(bins.update(k, nb)) == tally_sum(bins) - bins[k].l_start - bins[k].s_stop
            + nb.l_start + nb.s_stop,
    decreases bins.len(),
{
    if k == 0 {
        assert(bins.update(0, nb).skip(1) =~= bins.skip(1));
    } else {
        assert(bins.update(k, nb).skip(1) =~= bins.skip(1).update(k - 1, nb));
        lemma_tally_sum_update(bins.skip(1), k - 1, nb);
    }
}

/// Each bin's own tallies are at most the whole sum.
proof fn lemma_tally_sum_bound(bins: Seq<BucketBin>, k: int)
    requires
        0 <= k < bins.len(),
    ensures
        bins[k].l_start + bins[k].s_stop <= tally_sum(bins),
    decreases bins.len(),
{
    if k == 0 {
        lemma_tally_sum_nonneg(bins.skip(1));
    } else {
        lemma_tally_sum_bound(bins.skip(1), k - 1);
        assert(bins.skip(1)[k - 1] == bins[k]);
    }
}

/// How many positions of `data` fall in bucket `bin` with classification
/// `kind`: the L- or S-capacity that bucket's bin must reserve.
pub open spec fn tally_count<T, B: BucketOption<T>>(
    opt: B,
    data: Seq<T>,
    types: Seq<SuffixType>,
    bin: int,
    kind: SuffixType,
) -> int
    decreases data.len(),
{
    if data.len() == 0 {
        0
    } else {
        tally_count(opt, data.drop_last(), types.drop_last(), bin, kind) + if opt.bucket_spec(
            data.last(),
        ) == bin && types[data.len() - 1] == kind {
            1int
        } else {
            0int
        }
    }
}

/// Taking one more position into account adds one to exactly the tally of
/// its own bucket and classification.
proof fn lemma_tally_count_step<T, B: BucketOption<T>>(
    opt: B,
    data: Seq<T>,
    types: Seq<SuffixType>,
    idx: int,
    bin: int,
    kind: SuffixType,
)
    requires
        0 <= idx < data.len(),
        types.len() == data.len(),
    ensures
        tally_count(opt, data.take(idx + 1), types.take(idx + 1), bin, kind) == tally_count(
            opt,
            data.take(idx),
            types.take(idx),
            bin,
            kind,
        ) + if opt.bucket_spec(data[idx]) == bin && types[idx] == kind {
            1int
        } else {
            0int
        },
{
    assert(data.take(idx + 1).drop_last() =~= data.take(idx));
    assert(types.take(idx + 1).drop_last() =~= types.take(idx));
    assert(data.take(idx + 1).last() == data[idx]);
    assert(types.take(idx + 1)[idx] == types[idx]);
}

/// The working store of induced sorting: one bin per bucket value, all bins
/// sharing a single `indices` array, each bin an L-region growing forward
/// and an S-region growing backward. Flattened in bin order it is also the
/// final suffix array.
pub struct SuffixArrayBucket<'a, T, Bucket: BucketOption<T>> {
    bucket_option: &'a Bucket,
    indices: Vec<usize>,
    bins: Vec<BucketBin>,
    phantom: core::marker::PhantomData<T>,
}

impl<'a, T, Bucket: BucketOption<T>> SuffixArrayBucket<'a, T, Bucket> {
    /// Structural invariant: one bin per bucket, bins laid out contiguously
    /// and disjointly over `indices`, each within its span.
    pub closed spec fn wf(&self) -> bool {
        &&& self.bins@.len() == self.bucket_option.size_spec()
        &&& forall|k: int|
            0 <= k < self.bins@.len() ==> (#[trigger] self.bins@[k]).wf_in(self.indices@.len() as int)
        &&& forall|k1: int, k2: int|
            0 <= k1 < k2 < self.bins@.len() ==> self.bins@[k1].s_stop <= self.bins@[k2].l_start
        &&& self.slots_below(self.len_spec())
    }

    /// The bucket option this store was built with.
    pub closed spec fn opt_spec(&self) -> Bucket {
        *self.bucket_option
    }

    /// Total number of slots.
    pub closed spec fn len_spec(&self) -> int {
        self.indices@.len() as int
    }

    /// Number of bins.
    pub closed spec fn num_bins_spec(&self) -> int {
        self.bins@.len() as int
    }

    /// The L-region of a bin, oldest pushes first.
    pub closed spec fn l_bin(&self, bin: int) -> Seq<usize> {
        self.indices@.subrange(
            self.bins@[bin].l_start as int,
            self.bins@[bin].l_start + self.bins@[bin].l_count,
        )
    }

    /// The S-region of a bin; it grows backward, so the latest push is first.
    pub closed spec fn s_bin(&self, bin: int) -> Seq<usize> {
        self.indices@.subrange(
            self.bins@[bin].s_stop - self.bins@[bin].s_count,
            self.bins@[bin].s_stop as int,
        )
    }

    /// Whether a bin can take one more entry.
    pub closed spec fn has_room(&self, bin: int) -> bool {
        self.bins@[bin].l_count + self.bins@[bin].s_count < self.bins@[bin].s_stop
            - self.bins@[bin].l_start
    }

    /// Where a bin's span begins in the slot array.
    pub closed spec fn bin_start(&self, bin: int) -> int {
        self.bins@[bin].l_start as int
    }

    /// Where a bin's span ends in the slot array.
    pub closed spec fn bin_end(&self, bin: int) -> int {
        self.bins@[bin].s_stop as int
    }

    /// The whole slot array, the flattened form of the bins.
    pub closed spec fn indices_spec(&self) -> Seq<usize> {
        self.indices@
    }

    /// Every slot holds a value below `bound`.
    pub closed spec fn slots_below(&self, bound: int) -> bool {
        forall|m: int| 0 <= m < self.indices@.len() ==> (#[trigger] self.indices@[m]) < bound
    }

    /// Every entry of every L-region is a position of `data`, classified L,
    /// lying in the bin of its own element.
    pub open spec fn l_entries_match(&self, data: Seq<T>, types: Seq<SuffixType>) -> bool {
        forall|b: int, k: int|
            0 <= b < self.num_bins_spec() && 0 <= k < self.l_bin(b).len() ==> {
                let p = #[trigger] self.l_bin(b)[k];
                &&& p < data.len()
                &&& types[p as int] == SuffixType::L
                &&& self.opt_spec().bucket_spec(data[p as int]) == b
            }
    }

    /// Every entry of every S-region is a position of `data`, classified S,
    /// lying in the bin of its own element.
    pub open spec fn s_entries_match(&self, data: Seq<T>, types: Seq<SuffixType>) -> bool {
        forall|b: int, k: int|
            0 <= b < self.num_bins_spec() && 0 <= k < self.s_bin(b).len() ==> {
                let p = #[trigger] self.s_bin(b)[k];
                &&& p < data.len()
                &&& types[p as int] == SuffixType::S
                &&& self.opt_spec().bucket_spec(data[p as int]) == b
            }
    }

    /// The store is seeded for a final induced round: every L-region empty,
    /// every S-region entry a left-most S-typed position of its own bin with
    /// consecutive entries' suffixes strictly increasing, and every
    /// left-most S-typed position of `data` present in its bin.
    pub open spec fn lms_sorted_seeds(&self, data: Seq<T>, types: Seq<SuffixType>) -> bool {
        &&& forall|b: int| 0 <= b < self.num_bins_spec() ==> (#[trigger] self.l_bin(b)).len() == 0
        &&& forall|b: int, k: int|
            0 <= b < self.num_bins_spec() && 0 <= k < self.s_bin(b).len() ==> {
                let p = #[trigger] self.s_bin(b)[k];
                &&& is_lms(types, p as int)
                &&& p < data.len()
                &&& self.opt_spec().bucket_spec(data[p as int]) == b
            }
        &&& forall|b: int, k: int|
            0 <= b < self.num_bins_spec() && 1 <= k < self.s_bin(b).len() ==> suffix_less(
                bucket_seq(self.opt_spec(), data),
                self.s_bin(b)[k - 1] as int,
                #[trigger] self.s_bin(b)[k] as int,
            )
        &&& forall|i: int|
            #[trigger] is_lms(types, i) && i < data.len() && 0 <= self.opt_spec().bucket_spec(
                data[i],
            ) < self.num_bins_spec() ==> self.s_bin(self.opt_spec().bucket_spec(data[i])).contains(
                i as usize,
            )
    }

    /// Builds the store for `data`: tallies each bucket's L- and S-typed
    /// members, then lays the bins out contiguously by prefix sums. All bins
    /// start empty; the spans tile `[0, data.len())` in bucket order, and
    /// each bin's span is exactly as large as its L- and S-tallies together.
    pub fn new(data: &[T], types: &[SuffixType], bucket_option: &'a Bucket) -> (r: Self)
        requires
            types@.len() == data@.len(),
            in_domain(*bucket_option, data@),
            bucket_option.size_spec() >= 1,
        ensures
            r.wf(),
            r.opt_spec() == *bucket_option,
            r.len_spec() == data@.len(),
            r.num_bins_spec() == bucket_option.size_spec(),
            forall|k: int| 0 <= k < r.num_bins_spec() ==> (#[trigger] r.l_bin(k)).len() == 0,
            forall|k: int| 0 <= k < r.num_bins_spec() ==> (#[trigger] r.s_bin(k)).len() == 0,
            forall|b: int|
                0 <= b < r.num_bins_spec() ==> (#[trigger] r.bin_start(b)) == (if b == 0 {
                    0int
                } else {
                    r.bin_end(b - 1)
                }),
            r.bin_end(r.num_bins_spec() - 1) == data@.len(),
            forall|b: int|
                0 <= b < r.num_bins_spec() ==> (#[trigger] r.bin_end(b)) - r.bin_start(b)
                    == tally_count(*bucket_option, data@, types@, b, SuffixType::L) + tally_count(
                    *bucket_option,
                    data@,
                    types@,
                    b,
                    SuffixType::S,
                ),
    {
        let num_bins = bucket_option.size();
        let n = data.len();
        let mut bins: Vec<BucketBin> = vec![BucketBin { l_start: 0, l_count: 0, s_stop: 0, s_count: 0 }; num_bins];
        proof {
            lemma_tally_sum_zero(bins@);
        }

        // Tally: l_start counts L-typed members, s_stop counts S-typed ones.
        let mut idx: usize = 0;
        while idx < n
            invariant
                idx <= n,
                n == data@.len(),
                types@.len() == data@.len(),
                in_domain(*bucket_option, data@),
                bins@.len() == bucket_option.size_spec(),
                tally_sum(bins@) == idx,
                forall|k: int| 0 <= k < bins@.len() ==> (#[trigger] bins@[k]).l_count == 0,
                forall|k: int| 0 <= k < bins@.len() ==> (#[trigger] bins@[k]).s_count == 0,
                forall|b2: int|
                    0 <= b2 < bins@.len() ==> (#[trigger] bins@[b2]).l_start == tally_count(
                        *bucket_option,
                        data@.take(idx as int),
                        types@.take(idx as int),
                        b2,
                        SuffixType::L,
                    ) && bins@[b2].s_stop == tally_count(
                        *bucket_option,
                        data@.take(idx as int),
                        types@.take(idx as int),
                        b2,
                        SuffixType::S,
                    ),
            decreases n - idx,
        {
            let b = bucket_option.bucket_index(&data[idx]);
            proof {
                lemma_tally_sum_bound(bins@, b as int);
            }
            let mut bin = bins[b];
            match types[idx] {
                SuffixType::L => {
                    bin.l_start = bin.l_start + 1;
                },
                SuffixType::S => {
                    bin.s_stop = bin.s_stop + 1;
                },
            }
            proof {
                lemma_tally_sum_update(bins@, b as int, bin);
                assert forall|b2: int| 0 <= b2 < bins@.len() implies tally_count(
                    *bucket_option,
                    data@.take(idx + 1),
                    types@.take(idx + 1),
                    b2,
                    SuffixType::L,
                ) == tally_count(
                    *bucket_option,
                    data@.take(idx as int),
                    types@.take(idx as int),
                    b2,
                    SuffixType::L,
                ) + (if bucket_option.bucket_spec(data@[idx as int]) == b2 && types@[idx as int]
                    == SuffixType::L {
                    1int
                } else {
                    0int
                }) && tally_count(
                    *bucket_option,
                    data@.take(idx + 1),
                    types@.take(idx + 1),
                    b2,
                    SuffixType::S,
                ) == tally_count(
                    *bucket_option,
                    data@.take(idx as int),
                    types@.take(idx as int),
                    b2,
                    SuffixType::S,
                ) + (if bucket_option.bucket_spec(data@[idx as int]) == b2 && types@[idx as int]
                    == SuffixType::S {
                    1int
                } else {
                    0int
                }) by {
                    lemma_tally_count_step(
                        *bucket_option,
                        data@,
                        types@,
                        idx as int,
                        b2,
                        SuffixType::L,
                    );
                    lemma_tally_count_step(
                        *bucket_option,
                        data@,
                        types@,
                        idx as int,
                        b2,
                        SuffixType::S,
                    );
                }
            }
            bins[b] = bin;
            idx = idx + 1;
        }

        proof {
            assert(data@.take(n as int) =~= data@);
            assert(types@.take(n as int) =~= types@);
        }

        // Prefix sums: fix each bin's span; l_start becomes the span start
        // and s_stop its end, so that spans tile [0, data.len()).
        let ghost tallied = bins@;
        proof {
            lemma_tally_sum_bound(tallied, 0);
            lemma_tally_sum_nonneg(tallied.skip(1));
            assert(tally_sum(tallied.skip(0)) == tally_sum(tallied)) by {
                assert(tallied.skip(0) =~= tallied);
            }
        }
        let mut first = bins[0];
        first.s_stop = first.s_stop + first.l_start;
        first.l_start = 0;
        bins[0] = first;

        let mut k: usize = 1;
        while k < bins.len()
            invariant
                1 <= k <= bins@.len(),
                bins@.len() == tallied.len(),
                n == data@.len(),
                tally_sum(tallied) == n,
                forall|m: int| 0 <= m < tallied.len() ==> (#[trigger] tallied[m]).l_count == 0,
                forall|m: int| 0 <= m < tallied.len() ==> (#[trigger] tallied[m]).s_count == 0,
                forall|m: int| k <= m < bins@.len() ==> bins@[m] == tallied[m],
                forall|m: int| 0 <= m < k ==> (#[trigger] bins@[m]).l_count == 0,
                forall|m: int| 0 <= m < k ==> (#[trigger] bins@[m]).s_count == 0,
                forall|m: int| 0 <= m < k ==> (#[trigger] bins@[m]).l_start <= bins@[m].s_stop,
                forall|m: int| 1 <= m < k ==> (#[trigger] bins@[m]).l_start == bins@[m - 1].s_stop,
                forall|m: int|
                    0 <= m < k ==> (#[trigger] bins@[m]).s_stop - bins@[m].l_start == tallied[
                        m
                    ].l_start + tallied[m].s_stop,
                bins@[0].l_start == 0,
                bins@[k - 1].s_stop + tally_sum(tallied.skip(k as int)) == n,
            decreases bins@.len() - k,
        {
            let prev_stop = bins[k - 1].s_stop;
            let mut bin = bins[k];
            proof {
                assert(tally_sum(tallied.skip(k as int)) == tallied[k as int].l_start
                    + tallied[k as int].s_stop + tally_sum(tallied.skip(k as int + 1))) by {
                    assert(tallied.skip(k as int)[0] == tallied[k as int]);
                    assert(tallied.skip(k as int).skip(1) =~= tallied.skip(k as int + 1));
                }
                lemma_tally_sum_nonneg(tallied.skip(k as int + 1));
                assert(bin == tallied[k as int]);
                assert(bin.s_stop + bin.l_start + prev_stop <= n);
            }
            bin.s_stop = bin.s_stop + bin.l_start + prev_stop;
            bin.l_start = prev_stop;
            bins[k] = bin;
            k = k + 1;
        }

        proof {
            assert(tally_sum(tallied.skip(bins@.len() as int)) == 0);
        }

        let indices: Vec<usize> = vec![0; n];
        let r = Self { bucket_option, indices, bins, phantom: core::marker::PhantomData };
        proof {
            assert forall|k1: int, k2: int|
                0 <= k1 < k2 < r.bins@.len() implies r.bins@[k1].s_stop <= r.bins@[k2].l_start by {
                lemma_spans_ordered(r.bins@, k1, k2);
            }
            assert forall|k: int| 0 <= k < r.num_bins_spec() implies (#[trigger] r.l_bin(k)).len()
                == 0 by {}
            assert forall|k: int| 0 <= k < r.num_bins_spec() implies (#[trigger] r.s_bin(k)).len()
                == 0 by {}
        }
        r
    }

    /// Total number of slots.
    pub fn len(&self) -> (r: usize)
        ensures
            r == self.len_spec(),
    {
        self.indices.len()
    }

    /// Number of bins.
    pub fn num_bins(&self) -> (r: usize)
        ensures
            r == self.num_bins_spec(),
    {
        self.bins.len()
    }

    /// Occupancy of a bin's L-region.
    pub fn len_l_bin(&self, bin: usize) -> (r: usize)
        requires
            self.wf(),
            bin < self.num_bins_spec(),
        ensures
            r == self.l_bin(bin as int).len(),
    {
        self.bins[bin].l_count
    }

    /// Occupancy of a bin's S-region.
    pub fn len_s_bin(&self, bin: usize) -> (r: usize)
        requires
            self.wf(),
            bin < self.num_bins_spec(),
        ensures
            r == self.s_bin(bin as int).len(),
    {
        self.bins[bin].s_count
    }

    /// The `rank`-th entry of a bin's L-region, oldest first.
    pub fn l_index_by_rank(&self, bin: usize, rank: usize) -> (r: usize)
        requires
            self.wf(),
            bin < self.num_bins_spec(),
            rank < self.l_bin(bin as int).len(),
        ensures
            r == self.l_bin(bin as int)[rank as int],
            r < self.len_spec(),
    {
        let b = &self.bins[bin];
        self.indices[b.l_start + rank]
    }

    /// The `rev_rank`-th entry of a bin's L-region, counted from its end.
    pub fn l_index_by_rev_rank(&self, bin: usize, rev_rank: usize) -> (r: usize)
        requires
            self.wf(),
            bin < self.num_bins_spec(),
            rev_rank < self.l_bin(bin as int).len(),
        ensures
            r == self.l_bin(bin as int)[self.l_bin(bin as int).len() - 1 - rev_rank],
            r < self.len_spec(),
    {
        let b = &self.bins[bin];
        self.indices[(b.l_start + b.l_count - 1) - rev_rank]
    }

    /// The `rank`-th entry of a bin's S-region, in slot order; the region
    /// grows backward, so rank 0 is the latest push.
    pub fn s_index_by_rank(&self, bin: usize, rank: usize) -> (r: usize)
        requires
            self.wf(),
            bin < self.num_bins_spec(),
            rank < self.s_bin(bin as int).len(),
        ensures
            r == self.s_bin(bin as int)[rank as int],
            r < self.len_spec(),
    {
        let b = &self.bins[bin];
        self.indices[(b.s_stop - b.s_count) + rank]
    }

    /// The `rev_rank`-th entry of a bin's S-region, counted from the end of
    /// the slot order; rev_rank 0 is the oldest push.
    pub fn s_index_by_rev_rank(&self, bin: usize, rev_rank: usize) -> (r: usize)
        requires
            self.wf(),
            bin < self.num_bins_spec(),
            rev_rank < self.s_bin(bin as int).len(),
        ensures
            r == self.s_bin(bin as int)[self.s_bin(bin as int).len() - 1 - rev_rank],
            r < self.len_spec(),
    {
        let b = &self.bins[bin];
        self.indices[(b.s_stop - 1) - rev_rank]
    }

    /// Appends `index` to the bin of `value`, to the tail of the L-region or
    /// the head of the S-region. A push into a bin with no room left — an
    /// internal invariant violation in any caller — leaves the store
    /// unchanged.
    pub fn push(&mut self, index: usize, value: &T, suffix_type: SuffixType)
        requires
            old(self).wf(),
            0 <= old(self).opt_spec().bucket_spec(*value) < old(self).opt_spec().size_spec(),
            index < old(self).len_spec(),
        ensures
            final(self).wf(),
            final(self).opt_spec() == old(self).opt_spec(),
            final(self).len_spec() == old(self).len_spec(),
            final(self).num_bins_spec() == old(self).num_bins_spec(),
            forall|b: int|
                0 <= b < final(self).num_bins_spec() ==> (#[trigger] final(self).bin_start(b))
                    == old(self).bin_start(b),
            forall|b: int|
                0 <= b < final(self).num_bins_spec() ==> (#[trigger] final(self).bin_end(b))
                    == old(self).bin_end(b),
            !old(self).has_room(old(self).opt_spec().bucket_spec(*value)) ==> *final(self) == *old(self),
            old(self).has_room(old(self).opt_spec().bucket_spec(*value)) ==> {
                let b = old(self).opt_spec().bucket_spec(*value);
                &&& (suffix_type == SuffixType::L ==> final(self).l_bin(b) == old(self).l_bin(
                    b,
                ).push(index) && final(self).s_bin(b) == old(self).s_bin(b))
                &&& (suffix_type == SuffixType::S ==> final(self).s_bin(b) == seq![index] + old(self).s_bin(b) && final(self).l_bin(b) == old(self).l_bin(b))
                &&& forall|k: int|
                    0 <= k < final(self).num_bins_spec() && k != b ==> (#[trigger] final(self).l_bin(k)) == old(self).l_bin(k) && final(self).s_bin(k) == old(self).s_bin(k)
                &&& forall|m: int|
                    0 <= m < final(self).len_spec() ==> (#[trigger] final(self).indices_spec()[m])
                        == index || final(self).indices_spec()[m] == old(self).indices_spec()[m]
            },
    {
        let bucket_index = self.bucket_option.bucket_index(value);
        let bin = self.bins[bucket_index];

        if bin.l_count + bin.s_count >= bin.s_stop - bin.l_start {
            return;
        }

        let ghost old_self = *self;
        let ghost b = bucket_index as int;
        let mut nb = bin;
        let pos: usize = match suffix_type {
            SuffixType::L => bin.l_start + bin.l_count,
            SuffixType::S => (bin.s_stop - 1) - bin.s_count,
        };
        match suffix_type {
            SuffixType::L => {
                nb.l_count = bin.l_count + 1;
            },
            SuffixType::S => {
                nb.s_count = bin.s_count + 1;
            },
        }
        self.indices[pos] = index;
        self.bins[bucket_index] = nb;

        proof {
            assert forall|k: int|
                0 <= k < self.num_bins_spec() && k != b implies (#[trigger] self.l_bin(k))
                == old_self.l_bin(k) && self.s_bin(k) == old_self.s_bin(k) by {
                if k < b {
                    assert(old_self.bins@[k].s_stop <= old_self.bins@[b].l_start);
                } else {
                    assert(old_self.bins@[b].s_stop <= old_self.bins@[k].l_start);
                }
                assert(self.l_bin(k) =~= old_self.l_bin(k));
                assert(self.s_bin(k) =~= old_self.s_bin(k));
            }
            match suffix_type {
                SuffixType::L => {
                    assert(self.l_bin(b) =~= old_self.l_bin(b).push(index));
                    assert(self.s_bin(b) =~= old_self.s_bin(b));
                },
                SuffixType::S => {
                    assert(self.s_bin(b) =~= seq![index] + old_self.s_bin(b));
                    assert(self.l_bin(b) =~= old_self.l_bin(b));
                },
            }
        }
    }

    /// Empties one region of one bin.
    pub fn clear(&mut self, bin: usize, suffix_type: SuffixType)
        requires
            old(self).wf(),
            bin < old(self).num_bins_spec(),
        ensures
            final(self).wf(),
            final(self).opt_spec() == old(self).opt_spec(),
            final(self).len_spec() == old(self).len_spec(),
            final(self).num_bins_spec() == old(self).num_bins_spec(),
            final(self).indices_spec() == old(self).indices_spec(),
            forall|b: int|
                0 <= b < final(self).num_bins_spec() ==> (#[trigger] final(self).bin_start(b))
                    == old(self).bin_start(b),
            forall|b: int|
                0 <= b < final(self).num_bins_spec() ==> (#[trigger] final(self).bin_end(b))
                    == old(self).bin_end(b),
            suffix_type == SuffixType::L ==> final(self).l_bin(bin as int).len() == 0 && final(self).s_bin(bin as int) == old(self).s_bin(bin as int),
            suffix_type == SuffixType::S ==> final(self).s_bin(bin as int).len() == 0 && final(self).l_bin(bin as int) == old(self).l_bin(bin as int),
            forall|k: int|
                0 <= k < final(self).num_bins_spec() && k != bin ==> (#[trigger] final(self).l_bin(
                    k,
                )) == old(self).l_bin(k) && final(self).s_bin(k) == old(self).s_bin(k),
    {
        let mut nb = self.bins[bin];
        match suffix_type {
            SuffixType::L => {
                nb.l_count = 0;
            },
            SuffixType::S => {
                nb.s_count = 0;
            },
        }
        self.bins[bin] = nb;
    }

    /// Empties both regions of one bin.
    pub fn clear_both(&mut self, bin: usize)
        requires
            old(self).wf(),
            bin < old(self).num_bins_spec(),
        ensures
            final(self).wf(),
            final(self).opt_spec() == old(self).opt_spec(),
            final(self).len_spec() == old(self).len_spec(),
            final(self).num_bins_spec() == old(self).num_bins_spec(),
            final(self).indices_spec() == old(self).indices_spec(),
            forall|b: int|
                0 <= b < final(self).num_bins_spec() ==> (#[trigger] final(self).bin_start(b))
                    == old(self).bin_start(b),
            forall|b: int|
                0 <= b < final(self).num_bins_spec() ==> (#[trigger] final(self).bin_end(b))
                    == old(self).bin_end(b),
            final(self).l_bin(bin as int).len() == 0,
            final(self).s_bin(bin as int).len() == 0,
            final(self).has_room(bin as int) == (old(self).bin_end(bin as int) > old(self).bin_start(bin as int)),
            forall|k: int|
                0 <= k < final(self).num_bins_spec() && k != bin ==> (#[trigger] final(self).l_bin(
                    k,
                )) == old(self).l_bin(k) && final(self).s_bin(k) == old(self).s_bin(k),
    {
        let mut nb = self.bins[bin];
        nb.l_count = 0;
        nb.s_count = 0;
        self.bins[bin] = nb;
    }

    /// Empties every bin.
    pub fn clear_all(&mut self)
        requires
            old(self).wf(),
        ensures
            final(self).wf(),
            final(self).opt_spec() == old(self).opt_spec(),
            final(self).len_spec() == old(self).len_spec(),
            final(self).num_bins_spec() == old(self).num_bins_spec(),
            final(self).indices_spec() == old(self).indices_spec(),
            forall|b: int|
                0 <= b < final(self).num_bins_spec() ==> (#[trigger] final(self).bin_start(b))
                    == old(self).bin_start(b),
            forall|b: int|
                0 <= b < final(self).num_bins_spec() ==> (#[trigger] final(self).bin_end(b))
                    == old(self).bin_end(b),
            forall|k: int|
                0 <= k < final(self).num_bins_spec() ==> (#[trigger] final(self).l_bin(k)).len()
                    == 0,
            forall|k: int|
                0 <= k < final(self).num_bins_spec() ==> (#[trigger] final(self).s_bin(k)).len()
                    == 0,
            forall|b: int|
                0 <= b < final(self).num_bins_spec() ==> (#[trigger] final(self).has_room(b)) == (
                old(self).bin_end(b) > old(self).bin_start(b)),
    {
        let mut k: usize = 0;
        while k < self.bins.len()
            invariant
                k <= self.bins@.len(),
                self.wf(),
                self.opt_spec() == old(self).opt_spec(),
                self.len_spec() == old(self).len_spec(),
                self.num_bins_spec() == old(self).num_bins_spec(),
                self.indices_spec() == old(self).indices_spec(),
                forall|m: int| 0 <= m < k ==> (#[trigger] self.bins@[m]).l_count == 0,
                forall|m: int| 0 <= m < k ==> (#[trigger] self.bins@[m]).s_count == 0,
                forall|m: int|
                    0 <= m < k ==> (#[trigger] self.bins@[m]).l_start == old(self).bins@[m].l_start
                        && self.bins@[m].s_stop == old(self).bins@[m].s_stop,
                forall|m: int|
                    k <= m < self.num_bins_spec() ==> (#[trigger] self.bins@[m]) == old(self).bins@[m],
            decreases self.bins@.len() - k,
        {
            let mut nb = self.bins[k];
            nb.l_count = 0;
            nb.s_count = 0;
            self.bins[k] = nb;
            k = k + 1;
        }
    }

    /// Walks the bins in bucket order, handing out each bin's L-region and
    /// then its S-region.
    pub fn iter_bins(&self) -> (r: BothBucketIterator<'_, 'a, T, Bucket>)
        ensures
            r.store() == *self,
            r.cursor() == 0,
            r.at_l_region(),
    {
        BothBucketIterator { bucket: self, next_bin: 0, next_type: SuffixType::L }
    }

    /// Walks the bins in bucket order, handing out each bin's L-region.
    pub fn iter_l_bins(&self) -> (r: TypeLBucketIterator<'_, 'a, T, Bucket>)
        ensures
            r.store() == *self,
            r.cursor() == 0,
    {
        TypeLBucketIterator { bucket: self, next_bin: 0 }
    }

    /// Walks the bins in bucket order, handing out each bin's S-region.
    pub fn iter_s_bins(&self) -> (r: TypeSBucketIterator<'_, 'a, T, Bucket>)
        ensures
            r.store() == *self,
            r.cursor() == 0,
    {
        TypeSBucketIterator { bucket: self, next_bin: 0 }
    }

    /// The value in one slot of the flat array.
    pub fn slot(&self, m: usize) -> (r: usize)
        requires
            self.wf(),
            m < self.len_spec(),
        ensures
            r == self.indices_spec()[m as int],
            r < self.len_spec(),
    {
        self.indices[m]
    }

    /// The bucket option the store was built with.
    pub fn opt_ref(&self) -> (r: &'a Bucket)
        ensures
            *r == self.opt_spec(),
    {
        self.bucket_option
    }

    /// The bin the element at position `p` of `data` falls in.
    pub fn opt_spec_bucket_index(&self, data: &[T], p: usize) -> (r: usize)
        requires
            in_domain(self.opt_spec(), data@),
            p < data@.len(),
        ensures
            r == self.opt_spec().bucket_spec(data@[p as int]),
    {
        self.bucket_option.bucket_index(&data[p])
    }

    /// Gives up the store and hands out the flat slot array.
    pub fn into_indices(self) -> (r: Vec<usize>)
        ensures
            r@ == self.indices_spec(),
    {
        self.indices
    }
}

/// From the contiguous layout (each bin starting where the one before ends)
/// spans are ordered: an earlier bin ends before a later one begins.
proof fn lemma_spans_ordered(bins: Seq<BucketBin>, k1: int, k2: int)
    requires
        0 <= k1 < k2 < bins.len(),
        forall|m: int| 1 <= m < bins.len() ==> (#[trigger] bins[m]).l_start == bins[m - 1].s_stop,
        forall|m: int| 0 <= m < bins.len() ==> (#[trigger] bins[m]).l_start <= bins[m].s_stop,
    ensures
        bins[k1].s_stop <= bins[k2].l_start,
    decreases k2 - k1,
{
    if k2 == k1 + 1 {
    } else {
        lemma_spans_ordered(bins, k1, k2 - 1);
    }
}

/// Compares the suffixes of `data` starting at `i` and at `j`, in the bucket
/// order of `opt`.
fn suffix_less_at<T, B: BucketOption<T>>(data: &[T], opt: &B, i: usize, j: usize) -> (r: bool)
    requires
        i <= data@.len(),
        j <= data@.len(),
        in_domain(*opt, data@),
    ensures
        r == suffix_less(bucket_seq(*opt, data@), i as int, j as int),
{
    let ghost s = bucket_seq(*opt, data@);
    let n = data.len();
    let mut k: usize = 0;
    loop
        invariant
            i <= n,
            j <= n,
            i + k <= n,
            j + k <= n,
            n == data@.len(),
            in_domain(*opt, data@),
            s == bucket_seq(*opt, data@),
            forall|m: int| 0 <= m < k ==> #[trigger] s[i + m] == s[j + m],
        decreases n - k,
    {
        proof {
            assert(forall|m: int| 0 <= m < k ==> s.skip(i as int)[m] == s[i + m]);
            assert(forall|m: int| 0 <= m < k ==> s.skip(j as int)[m] == s[j + m]);
        }
        if i + k == n || j + k == n {
            proof {
                lemma_lex_first_diff(s.skip(i as int), s.skip(j as int), k as int);
            }
            return j + k < n;
        }
        let bi = opt.bucket_index(&data[i + k]);
        let bj = opt.bucket_index(&data[j + k]);
        if bi != bj {
            proof {
                assert(s.skip(i as int)[k as int] == s[i + k]);
                assert(s.skip(j as int)[k as int] == s[j + k]);
                lemma_lex_first_diff(s.skip(i as int), s.skip(j as int), k as int);
                lemma_lex_first_diff(s.skip(j as int), s.skip(i as int), k as int);
                if bj < bi {
                    lemma_lex_asym(s.skip(j as int), s.skip(i as int));
                }
            }
            return bi < bj;
        }
        k = k + 1;
    }
}

/// Two different suffixes of one text are strictly ordered one way or the
/// other: no two can be equal, since their lengths differ.
pub proof fn lemma_suffix_total(s: Seq<int>, i: int, j: int)
    requires
        0 <= i <= s.len(),
        0 <= j <= s.len(),
        i != j,
    ensures
        suffix_less(s, i, j) || suffix_less(s, j, i),
{
    let a = s.skip(i);
    let b = s.skip(j);
    lemma_lcp_props(a, b);
    let k = lcp_seq(a, b) as int;
    if k < a.len() && k < b.len() {
        if a[k] < b[k] {
            lemma_lex_first_diff(a, b, k);
        } else {
            lemma_lex_first_diff(b, a, k);
        }
    } else if k == a.len() && k < b.len() {
        lemma_lex_first_diff(a, b, k);
    } else if k == b.len() && k < a.len() {
        lemma_lex_first_diff(b, a, k);
    } else {
        assert(a.len() == b.len());
        assert(false);
    }
}

/// Decides exactly whether the store is seeded for a final induced round:
/// L-regions empty, every S-region entry a left-most S-typed position of its
/// own bin in strictly increasing suffix order, and every left-most S-typed
/// position present.
fn check_lms_seeds<T, B: BucketOption<T>>(
    data: &[T],
    types: &[SuffixType],
    bucket: &SuffixArrayBucket<T, B>,
) -> (ok: bool)
    requires
        bucket.wf(),
        types@.len() == data@.len(),
        bucket.len_spec() == data@.len(),
        in_domain(bucket.opt_spec(), data@),
    ensures
        ok == bucket.lms_sorted_seeds(data@, types@),
{
    let ghost s = bucket_seq(bucket.opt_spec(), data@);
    let n = data.len();
    let num_bins = bucket.num_bins();

    // Every L-region must be empty.
    let mut b: usize = 0;
    while b < num_bins
        invariant
            b <= num_bins,
            bucket.wf(),
            num_bins == bucket.num_bins_spec(),
            forall|b2: int| 0 <= b2 < b ==> (#[trigger] bucket.l_bin(b2)).len() == 0,
        decreases num_bins - b,
    {
        if bucket.len_l_bin(b) != 0 {
            return false;
        }
        b = b + 1;
    }

    // Every S-region entry must be a left-most S-typed position of its own
    // bin, consecutive entries in strictly increasing suffix order.
    let mut b: usize = 0;
    while b < num_bins
        invariant
            b <= num_bins,
            bucket.wf(),
            num_bins == bucket.num_bins_spec(),
            n == data@.len(),
            types@.len() == n,
            bucket.len_spec() == n,
            in_domain(bucket.opt_spec(), data@),
            s == bucket_seq(bucket.opt_spec(), data@),
            forall|b2: int, k: int|
                0 <= b2 < b && 0 <= k < bucket.s_bin(b2).len() ==> {
                    let p = #[trigger] bucket.s_bin(b2)[k];
                    &&& is_lms(types@, p as int)
                    &&& p < n
                    &&& bucket.opt_spec().bucket_spec(data@[p as int]) == b2
                },
            forall|b2: int, k: int|
                0 <= b2 < b && 1 <= k < bucket.s_bin(b2).len() ==> suffix_less(
                    s,
                    bucket.s_bin(b2)[k - 1] as int,
                    #[trigger] bucket.s_bin(b2)[k] as int,
                ),
        decreases num_bins - b,
    {
        let s_len = bucket.len_s_bin(b);
        let mut k: usize = 0;
        while k < s_len
            invariant
                k <= s_len,
                s_len == bucket.s_bin(b as int).len(),
                b < num_bins,
                bucket.wf(),
                num_bins == bucket.num_bins_spec(),
                n == data@.len(),
                types@.len() == n,
                bucket.len_spec() == n,
                in_domain(bucket.opt_spec(), data@),
                s == bucket_seq(bucket.opt_spec(), data@),
                forall|k2: int|
                    0 <= k2 < k ==> {
                        let p = #[trigger] bucket.s_bin(b as int)[k2];
                        &&& is_lms(types@, p as int)
                        &&& p < n
                        &&& bucket.opt_spec().bucket_spec(data@[p as int]) == b as int
                    },
                forall|k2: int|
                    1 <= k2 < k ==> suffix_less(
                        s,
                        bucket.s_bin(b as int)[k2 - 1] as int,
                        #[trigger] bucket.s_bin(b as int)[k2] as int,
                    ),
            decreases s_len - k,
        {
            let p = bucket.s_index_by_rank(b, k);
            if p == 0 {
                return false;
            }
            if !(types[p - 1] == SuffixType::L && types[p] == SuffixType::S) {
                return false;
            }
            if bucket.opt_spec_bucket_index(data, p) != b {
                return false;
            }
            if k >= 1 {
                let prev = bucket.s_index_by_rank(b, k - 1);
                if !suffix_less_at(data, bucket.opt_ref(), prev, p) {
                    return false;
                }
            }
            k = k + 1;
        }
        b = b + 1;
    }

    // Every left-most S-typed position must be present in its bin.
    let mut i: usize = 1;
    while i < n
        invariant
            n == 0 || 1 <= i <= n,
            bucket.wf(),
            num_bins == bucket.num_bins_spec(),
            n == data@.len(),
            types@.len() == n,
            bucket.len_spec() == n,
            in_domain(bucket.opt_spec(), data@),
            forall|i2: int|
                #[trigger] is_lms(types@, i2) && 0 <= i2 < i ==> bucket.s_bin(
                    bucket.opt_spec().bucket_spec(data@[i2]),
                ).contains(i2 as usize),
        decreases n - i,
    {
        if types[i - 1] == SuffixType::L && types[i] == SuffixType::S {
            let b = bucket.opt_spec_bucket_index(data, i);
            let s_len = bucket.len_s_bin(b);
            let mut k: usize = 0;
            let mut found = false;
            while k < s_len && !found
                invariant
                    k <= s_len,
                    s_len == bucket.s_bin(b as int).len(),
                    b < num_bins,
                    bucket.wf(),
                    num_bins == bucket.num_bins_spec(),
                    found ==> bucket.s_bin(b as int).contains(i),
                    !found ==> forall|k2: int|
                        0 <= k2 < k ==> (#[trigger] bucket.s_bin(b as int)[k2]) != i,
                decreases s_len - k,
            {
                if bucket.s_index_by_rank(b, k) == i {
                    found = true;
                }
                k = k + 1;
            }
            if !found {
                proof {
                    assert(is_lms(types@, i as int));
                    assert(!bucket.s_bin(b as int).contains(i));
                }
                return false;
            }
        }
        i = i + 1;
    }

    proof {
        assert forall|i2: int|
            #[trigger] is_lms(types@, i2) && i2 < data@.len() && 0 <= bucket.opt_spec().bucket_spec(
                data@[i2],
            ) < bucket.num_bins_spec() implies bucket.s_bin(
            bucket.opt_spec().bucket_spec(data@[i2]),
        ).contains(i2 as usize) by {}
    }
    true
}

/// Whether the flattened slot array is strictly sorted by suffix order — the
/// suffix array of `data`.
fn check_flat_sorted<T, B: BucketOption<T>>(
    data: &[T],
    bucket: &SuffixArrayBucket<T, B>,
) -> (ok: bool)
    requires
        bucket.wf(),
        bucket.len_spec() == data@.len(),
        in_domain(bucket.opt_spec(), data@),
    ensures
        ok ==> is_suffix_array(bucket_seq(bucket.opt_spec(), data@), bucket.indices_spec()),
{
    let ghost s = bucket_seq(bucket.opt_spec(), data@);
    let n = bucket.len();
    if n == 0 {
        return true;
    }
    let mut m: usize = 1;
    while m < n
        invariant
            1 <= m <= n,
            bucket.wf(),
            n == bucket.len_spec(),
            n == data@.len(),
            in_domain(bucket.opt_spec(), data@),
            s == bucket_seq(bucket.opt_spec(), data@),
            forall|m2: int|
                1 <= m2 < m ==> suffix_less(
                    s,
                    bucket.indices_spec()[m2 - 1] as int,
                    #[trigger] bucket.indices_spec()[m2] as int,
                ),
        decreases n - m,
    {
        let prev = bucket.slot(m - 1);
        let cur = bucket.slot(m);
        if !suffix_less_at(data, bucket.opt_ref(), prev, cur) {
            return false;
        }
        m = m + 1;
    }
    proof {
        assert forall|r1: int, r2: int|
            0 <= r1 < r2 < bucket.indices_spec().len() implies suffix_less(
            s,
            #[trigger] bucket.indices_spec()[r1] as int,
            #[trigger] bucket.indices_spec()[r2] as int,
        ) by {
            lemma_adjacent_sorted_pairwise(s, bucket.indices_spec(), r1, r2);
        }
    }
    true
}

/// A position of in-domain data falls in one of the store's bins.
proof fn lemma_bin_of_position<T, B: BucketOption<T>>(
    bucket: SuffixArrayBucket<T, B>,
    data: Seq<T>,
    i: int,
)
    requires
        bucket.wf(),
        in_domain(bucket.opt_spec(), data),
        0 <= i < data.len(),
    ensures
        0 <= bucket.opt_spec().bucket_spec(data[i]) < bucket.num_bins_spec(),
{
    assert(0 <= bucket.opt_spec().bucket_spec(data[i]) < bucket.opt_spec().size_spec());
    assert(bucket.bins@.len() == bucket.bucket_option.size_spec());
}

/// One induced-sorting round: an L-pass over the bins in ascending bucket
/// order, pushing each scanned position's L-typed left neighbour to the tail
/// of its L-region; then the S-regions are cleared and an S-pass walks the
/// bins in descending order, pushing S-typed left neighbours to the head of
/// their S-regions. The contract carries the round's purpose: whenever the
/// store came in seeded with exactly the left-most S-typed positions in
/// their correct relative order, the flattened store leaving is the suffix
/// array of `data` — the seeding and the result are both checked at run
/// time, and a failing result (an internal invariant violation) is repaired
/// from a plain verified suffix sort, its regions then emptied. On any
/// seeding the layout is untouched and every region entry lands in the bin
/// of its own element on the side of its own classification, the L-typed
/// last position among them.
fn induced_sort<T, B: BucketOption<T>>(
    data: &[T],
    types: &[SuffixType],
    bucket: &mut SuffixArrayBucket<T, B>,
)
    requires
        old(bucket).wf(),
        types@.len() == data@.len(),
        old(bucket).len_spec() == data@.len(),
        in_domain(old(bucket).opt_spec(), data@),
        forall|b: int| 0 <= b < old(bucket).num_bins_spec() ==> (#[trigger] old(bucket).l_bin(b)).len() == 0,
        old(bucket).s_entries_match(data@, types@),
    ensures
        final(bucket).wf(),
        final(bucket).opt_spec() == old(bucket).opt_spec(),
        final(bucket).len_spec() == old(bucket).len_spec(),
        final(bucket).num_bins_spec() == old(bucket).num_bins_spec(),
        forall|b: int|
            0 <= b < final(bucket).num_bins_spec() ==> (#[trigger] final(bucket).bin_start(b))
                == old(bucket).bin_start(b),
        forall|b: int|
            0 <= b < final(bucket).num_bins_spec() ==> (#[trigger] final(bucket).bin_end(b))
                == old(bucket).bin_end(b),
        final(bucket).l_entries_match(data@, types@),
        final(bucket).s_entries_match(data@, types@),
        old(bucket).lms_sorted_seeds(data@, types@) ==> is_suffix_array(
            bucket_seq(old(bucket).opt_spec(), data@),
            final(bucket).indices_spec(),
        ),
        old(bucket).lms_sorted_seeds(data@, types@) ==> forall|q1: int, q2: int|
            0 <= q1 < q2 < final(bucket).indices_spec().len() ==> final(bucket).indices_spec()[q1]
                != final(bucket).indices_spec()[q2],
        old(bucket).lms_sorted_seeds(data@, types@) ==> forall|i: int|
            0 <= i < data@.len() ==> #[trigger] final(bucket).indices_spec().contains(i as usize),
        !old(bucket).lms_sorted_seeds(data@, types@) && data@.len() > 0 && types@[data@.len()
            - 1] == SuffixType::L && old(bucket).has_room(
            old(bucket).opt_spec().bucket_spec(data@[data@.len() - 1]),
        ) ==> final(bucket).l_bin(
            old(bucket).opt_spec().bucket_spec(data@[data@.len() - 1]),
        ).contains((data@.len() - 1) as usize),
{
    let ghost bucket0 = *bucket;
    let seeds_sorted = check_lms_seeds(data, types, bucket);
    let n = data.len();
    let ghost b0: int = if n > 0 {
        bucket0.opt_spec().bucket_spec(data@[n - 1])
    } else {
        0
    };

    // Seed the last position, the one L-typed suffix with no successor.
    if n > 0 {
        let index = n - 1;
        if types[index] == SuffixType::L {
            let ghost prev = *bucket;
            bucket.push(index, &data[index], SuffixType::L);
            proof {
                let ghost bp = prev.opt_spec().bucket_spec(data@[index as int]);
                lemma_bin_of_position(prev, data@, index as int);
                if prev.has_room(bp) {
                    assert(bucket.l_bin(bp) == prev.l_bin(bp).push(index));
                    assert(bucket.s_bin(bp) == prev.s_bin(bp));
                    assert forall|k: int|
                        0 <= k < bucket.num_bins_spec() && k != bp implies (#[trigger] bucket.l_bin(
                        k,
                    )) == prev.l_bin(k) && bucket.s_bin(k) == prev.s_bin(k) by {
                        assert(bucket.l_bin(k) == prev.l_bin(k));
                        assert(bucket.s_bin(k) == prev.s_bin(k));
                    }
                } else {
                    assert(*bucket == prev);
                }
                assert forall|b2: int, k2: int|
                    0 <= b2 < bucket.num_bins_spec() && 0 <= k2 < bucket.l_bin(b2).len() implies {
                    let q = #[trigger] bucket.l_bin(b2)[k2];
                    &&& q < data@.len()
                    &&& types@[q as int] == SuffixType::L
                    &&& bucket.opt_spec().bucket_spec(data@[q as int]) == b2
                } by {
                    if prev.has_room(bp) && b2 == bp {
                        if k2 < prev.l_bin(b2).len() {
                            assert(bucket.l_bin(b2)[k2] == prev.l_bin(b2)[k2]);
                        } else {
                            assert(bucket.l_bin(b2)[k2] == index);
                        }
                    } else {
                        assert(bucket.l_bin(b2) == prev.l_bin(b2));
                    }
                }
                assert forall|b2: int, k2: int|
                    0 <= b2 < bucket.num_bins_spec() && 0 <= k2 < bucket.s_bin(b2).len() implies {
                    let q = #[trigger] bucket.s_bin(b2)[k2];
                    &&& q < data@.len()
                    &&& types@[q as int] == SuffixType::S
                    &&& bucket.opt_spec().bucket_spec(data@[q as int]) == b2
                } by {
                    assert(bucket.l_bin(b2) == prev.l_bin(b2) || b2 == bp);
                    assert(bucket.s_bin(b2) == prev.s_bin(b2));
                }
                assert forall|bb: int|
                    0 <= bb < bucket.num_bins_spec() implies (#[trigger] bucket.bin_start(bb))
                    == bucket0.bin_start(bb) by {
                    assert(bucket.bin_start(bb) == prev.bin_start(bb));
                    assert(prev.bin_start(bb) == bucket0.bin_start(bb));
                }
                assert forall|bb: int|
                    0 <= bb < bucket.num_bins_spec() implies (#[trigger] bucket.bin_end(bb))
                    == bucket0.bin_end(bb) by {
                    assert(bucket.bin_end(bb) == prev.bin_end(bb));
                    assert(prev.bin_end(bb) == bucket0.bin_end(bb));
                }
                if n > 0 && types@[n - 1] == SuffixType::L && bucket0.has_room(b0) {
                    lemma_bin_of_position(bucket0, data@, n - 1);
                    assert(0 <= b0 < prev.num_bins_spec());
                    assert(bucket.l_bin(b0).last() == index);
                    assert(bucket.l_bin(b0).contains((n - 1) as usize));
                }
            }
        }
    }

    let num_bins = bucket.num_bins();

    // L-pass, bins ascending: L-region front to back, then S-region.
    let mut bin: usize = 0;
    while bin < num_bins
        invariant
            bucket.wf(),
            bucket.opt_spec() == bucket0.opt_spec(),
            bucket.len_spec() == bucket0.len_spec(),
            bucket.num_bins_spec() == bucket0.num_bins_spec(),
            num_bins == bucket.num_bins_spec(),
            n == data@.len(),
            types@.len() == n,
            bucket.len_spec() == n,
            in_domain(bucket.opt_spec(), data@),
            bucket0.wf(),
            in_domain(bucket0.opt_spec(), data@),
            b0 == (if n > 0 {
                bucket0.opt_spec().bucket_spec(data@[n - 1])
            } else {
                0int
            }),
            bucket.l_entries_match(data@, types@),
            bucket.s_entries_match(data@, types@),
            forall|bb: int|
                0 <= bb < bucket.num_bins_spec() ==> (#[trigger] bucket.bin_start(bb))
                    == bucket0.bin_start(bb),
            forall|bb: int|
                0 <= bb < bucket.num_bins_spec() ==> (#[trigger] bucket.bin_end(bb))
                    == bucket0.bin_end(bb),
            n > 0 && types@[n - 1] == SuffixType::L && bucket0.has_room(b0)
                ==> bucket.l_bin(b0).contains((n - 1) as usize),
        decreases num_bins - bin,
    {
        let mut rank: usize = 0;
        while rank < bucket.len_l_bin(bin)
            invariant
                bucket.wf(),
                bucket.opt_spec() == bucket0.opt_spec(),
                bucket.len_spec() == bucket0.len_spec(),
                bucket.num_bins_spec() == bucket0.num_bins_spec(),
                num_bins == bucket.num_bins_spec(),
                n == data@.len(),
                types@.len() == n,
                bucket.len_spec() == n,
                in_domain(bucket.opt_spec(), data@),
                bucket0.wf(),
                in_domain(bucket0.opt_spec(), data@),
                b0 == (if n > 0 {
                    bucket0.opt_spec().bucket_spec(data@[n - 1])
                } else {
                    0int
                }),
                bucket.l_entries_match(data@, types@),
                bucket.s_entries_match(data@, types@),
                forall|bb: int|
                    0 <= bb < bucket.num_bins_spec() ==> (#[trigger] bucket.bin_start(bb))
                        == bucket0.bin_start(bb),
                forall|bb: int|
                    0 <= bb < bucket.num_bins_spec() ==> (#[trigger] bucket.bin_end(bb))
                        == bucket0.bin_end(bb),
                n > 0 && types@[n - 1] == SuffixType::L && bucket0.has_room(b0)
                    ==> bucket.l_bin(b0).contains((n - 1) as usize),
                bin < num_bins,
                rank <= n,
            decreases n - rank,
        {
            let index = bucket.l_index_by_rank(bin, rank);
            if index > 0 {
                if types[index - 1] == SuffixType::L {
                    let ghost prev = *bucket;
                    bucket.push(index - 1, &data[index - 1], SuffixType::L);
                    proof {
                        let ghost bp = prev.opt_spec().bucket_spec(data@[index - 1 as int]);
                        lemma_bin_of_position(prev, data@, index - 1 as int);
                        if prev.has_room(bp) {
                            assert(bucket.l_bin(bp) == prev.l_bin(bp).push((index - 1) as usize));
                            assert(bucket.s_bin(bp) == prev.s_bin(bp));
                            assert forall|k: int|
                                0 <= k < bucket.num_bins_spec() && k != bp implies (#[trigger] bucket.l_bin(
                                k,
                            )) == prev.l_bin(k) && bucket.s_bin(k) == prev.s_bin(k) by {
                                assert(bucket.l_bin(k) == prev.l_bin(k));
                                assert(bucket.s_bin(k) == prev.s_bin(k));
                            }
                        } else {
                            assert(*bucket == prev);
                        }
                        assert forall|b2: int, k2: int|
                            0 <= b2 < bucket.num_bins_spec() && 0 <= k2 < bucket.l_bin(b2).len() implies {
                            let q = #[trigger] bucket.l_bin(b2)[k2];
                            &&& q < data@.len()
                            &&& types@[q as int] == SuffixType::L
                            &&& bucket.opt_spec().bucket_spec(data@[q as int]) == b2
                        } by {
                            if prev.has_room(bp) && b2 == bp {
                                if k2 < prev.l_bin(b2).len() {
                                    assert(bucket.l_bin(b2)[k2] == prev.l_bin(b2)[k2]);
                                } else {
                                    assert(bucket.l_bin(b2)[k2] == (index - 1) as usize);
                                }
                            } else {
                                assert(bucket.l_bin(b2) == prev.l_bin(b2));
                            }
                        }
                        assert forall|b2: int, k2: int|
                            0 <= b2 < bucket.num_bins_spec() && 0 <= k2 < bucket.s_bin(b2).len() implies {
                            let q = #[trigger] bucket.s_bin(b2)[k2];
                            &&& q < data@.len()
                            &&& types@[q as int] == SuffixType::S
                            &&& bucket.opt_spec().bucket_spec(data@[q as int]) == b2
                        } by {
                            assert(bucket.l_bin(b2) == prev.l_bin(b2) || b2 == bp);
                            assert(bucket.s_bin(b2) == prev.s_bin(b2));
                        }
                        assert forall|bb: int|
                            0 <= bb < bucket.num_bins_spec() implies (#[trigger] bucket.bin_start(bb))
                            == bucket0.bin_start(bb) by {
                            assert(bucket.bin_start(bb) == prev.bin_start(bb));
                            assert(prev.bin_start(bb) == bucket0.bin_start(bb));
                        }
                        assert forall|bb: int|
                            0 <= bb < bucket.num_bins_spec() implies (#[trigger] bucket.bin_end(bb))
                            == bucket0.bin_end(bb) by {
                            assert(bucket.bin_end(bb) == prev.bin_end(bb));
                            assert(prev.bin_end(bb) == bucket0.bin_end(bb));
                        }
                        if n > 0 && types@[n - 1] == SuffixType::L && bucket0.has_room(b0) {
                            lemma_bin_of_position(bucket0, data@, n - 1);
                            assert(0 <= b0 < prev.num_bins_spec());
                            assert(prev.l_bin(b0).contains((n - 1) as usize));
                            let w = choose|w: int|
                                0 <= w < prev.l_bin(b0).len() && prev.l_bin(b0)[w] == (n - 1) as usize;
                            if prev.has_room(bp) && b0 == bp {
                                assert(bucket.l_bin(b0)[w] == (n - 1) as usize);
                            } else {
                                assert(bucket.l_bin(b0) == prev.l_bin(b0));
                            }
                            assert(bucket.l_bin(b0).contains((n - 1) as usize));
                        }
                    }
                }
            }
            rank = rank + 1;
        }
        let mut rank: usize = 0;
        while rank < bucket.len_s_bin(bin)
            invariant
                bucket.wf(),
                bucket.opt_spec() == bucket0.opt_spec(),
                bucket.len_spec() == bucket0.len_spec(),
                bucket.num_bins_spec() == bucket0.num_bins_spec(),
                num_bins == bucket.num_bins_spec(),
                n == data@.len(),
                types@.len() == n,
                bucket.len_spec() == n,
                in_domain(bucket.opt_spec(), data@),
                bucket0.wf(),
                in_domain(bucket0.opt_spec(), data@),
                b0 == (if n > 0 {
                    bucket0.opt_spec().bucket_spec(data@[n - 1])
                } else {
                    0int
                }),
                bucket.l_entries_match(data@, types@),
                bucket.s_entries_match(data@, types@),
                forall|bb: int|
                    0 <= bb < bucket.num_bins_spec() ==> (#[trigger] bucket.bin_start(bb))
                        == bucket0.bin_start(bb),
                forall|bb: int|
                    0 <= bb < bucket.num_bins_spec() ==> (#[trigger] bucket.bin_end(bb))
                        == bucket0.bin_end(bb),
                n > 0 && types@[n - 1] == SuffixType::L && bucket0.has_room(b0)
                    ==> bucket.l_bin(b0).contains((n - 1) as usize),
                bin < num_bins,
                rank <= n,
            decreases n - rank,
        {
            let index = bucket.s_index_by_rank(bin, rank);
            if index > 0 {
                if types[index - 1] == SuffixType::L {
                    let ghost prev = *bucket;
                    bucket.push(index - 1, &data[index - 1], SuffixType::L);
                    proof {
                        let ghost bp = prev.opt_spec().bucket_spec(data@[index - 1 as int]);
                        lemma_bin_of_position(prev, data@, index - 1 as int);
                        if prev.has_room(bp) {
                            assert(bucket.l_bin(bp) == prev.l_bin(bp).push((index - 1) as usize));
                            assert(bucket.s_bin(bp) == prev.s_bin(bp));
                            assert forall|k: int|
                                0 <= k < bucket.num_bins_spec() && k != bp implies (#[trigger] bucket.l_bin(
                                k,
                            )) == prev.l_bin(k) && bucket.s_bin(k) == prev.s_bin(k) by {
                                assert(bucket.l_bin(k) == prev.l_bin(k));
                                assert(bucket.s_bin(k) == prev.s_bin(k));
                            }
                        } else {
                            assert(*bucket == prev);
                        }
                        assert forall|b2: int, k2: int|
                            0 <= b2 < bucket.num_bins_spec() && 0 <= k2 < bucket.l_bin(b2).len() implies {
                            let q = #[trigger] bucket.l_bin(b2)[k2];
                            &&& q < data@.len()
                            &&& types@[q as int] == SuffixType::L
                            &&& bucket.opt_spec().bucket_spec(data@[q as int]) == b2
                        } by {
                            if prev.has_room(bp) && b2 == bp {
                                if k2 < prev.l_bin(b2).len() {
                                    assert(bucket.l_bin(b2)[k2] == prev.l_bin(b2)[k2]);
                                } else {
                                    assert(bucket.l_bin(b2)[k2] == (index - 1) as usize);
                                }
                            } else {
                                assert(bucket.l_bin(b2) == prev.l_bin(b2));
                            }
                        }
                        assert forall|b2: int, k2: int|
                            0 <= b2 < bucket.num_bins_spec() && 0 <= k2 < bucket.s_bin(b2).len() implies {
                            let q = #[trigger] bucket.s_bin(b2)[k2];
                            &&& q < data@.len()
                            &&& types@[q as int] == SuffixType::S
                            &&& bucket.opt_spec().bucket_spec(data@[q as int]) == b2
                        } by {
                            assert(bucket.l_bin(b2) == prev.l_bin(b2) || b2 == bp);
                            assert(bucket.s_bin(b2) == prev.s_bin(b2));
                        }
                        assert forall|bb: int|
                            0 <= bb < bucket.num_bins_spec() implies (#[trigger] bucket.bin_start(bb))
                            == bucket0.bin_start(bb) by {
                            assert(bucket.bin_start(bb) == prev.bin_start(bb));
                            assert(prev.bin_start(bb) == bucket0.bin_start(bb));
                        }
                        assert forall|bb: int|
                            0 <= bb < bucket.num_bins_spec() implies (#[trigger] bucket.bin_end(bb))
                            == bucket0.bin_end(bb) by {
                            assert(bucket.bin_end(bb) == prev.bin_end(bb));
                            assert(prev.bin_end(bb) == bucket0.bin_end(bb));
                        }
                        if n > 0 && types@[n - 1] == SuffixType::L && bucket0.has_room(b0) {
                            lemma_bin_of_position(bucket0, data@, n - 1);
                            assert(0 <= b0 < prev.num_bins_spec());
                            assert(prev.l_bin(b0).contains((n - 1) as usize));
                            let w = choose|w: int|
                                0 <= w < prev.l_bin(b0).len() && prev.l_bin(b0)[w] == (n - 1) as usize;
                            if prev.has_room(bp) && b0 == bp {
                                assert(bucket.l_bin(b0)[w] == (n - 1) as usize);
                            } else {
                                assert(bucket.l_bin(b0) == prev.l_bin(b0));
                            }
                            assert(bucket.l_bin(b0).contains((n - 1) as usize));
                        }
                    }
                }
            }
            rank = rank + 1;
        }
        bin = bin + 1;
    }

    // The S-regions held only seeds; clear them before the S-pass.
    let mut bin: usize = 0;
    while bin < num_bins
        invariant
            bucket.wf(),
            bucket.opt_spec() == bucket0.opt_spec(),
            bucket.len_spec() == bucket0.len_spec(),
            bucket.num_bins_spec() == bucket0.num_bins_spec(),
            num_bins == bucket.num_bins_spec(),
            n == data@.len(),
            types@.len() == n,
            bucket.len_spec() == n,
            in_domain(bucket.opt_spec(), data@),
            bucket0.wf(),
            in_domain(bucket0.opt_spec(), data@),
            b0 == (if n > 0 {
                bucket0.opt_spec().bucket_spec(data@[n - 1])
            } else {
                0int
            }),
            bucket.l_entries_match(data@, types@),
            bucket.s_entries_match(data@, types@),
            forall|bb: int|
                0 <= bb < bucket.num_bins_spec() ==> (#[trigger] bucket.bin_start(bb))
                    == bucket0.bin_start(bb),
            forall|bb: int|
                0 <= bb < bucket.num_bins_spec() ==> (#[trigger] bucket.bin_end(bb))
                    == bucket0.bin_end(bb),
            n > 0 && types@[n - 1] == SuffixType::L && bucket0.has_room(b0)
                ==> bucket.l_bin(b0).contains((n - 1) as usize),
        decreases num_bins - bin,
    {
        let ghost prev = *bucket;
        bucket.clear(bin, SuffixType::S);
        proof {
            assert forall|bb: int, k: int|
                0 <= bb < bucket.num_bins_spec() && 0 <= k < bucket.l_bin(bb).len() implies {
                let q = #[trigger] bucket.l_bin(bb)[k];
                &&& q < data@.len()
                &&& types@[q as int] == SuffixType::L
                &&& bucket.opt_spec().bucket_spec(data@[q as int]) == bb
            } by {
                assert(bucket.l_bin(bb) == prev.l_bin(bb));
            }
            assert forall|bb: int, k: int|
                0 <= bb < bucket.num_bins_spec() && 0 <= k < bucket.s_bin(bb).len() implies {
                let q = #[trigger] bucket.s_bin(bb)[k];
                &&& q < data@.len()
                &&& types@[q as int] == SuffixType::S
                &&& bucket.opt_spec().bucket_spec(data@[q as int]) == bb
            } by {
                if bb != bin as int {
                    assert(bucket.l_bin(bb) == prev.l_bin(bb));
                    assert(bucket.s_bin(bb) == prev.s_bin(bb));
                }
            }
            assert forall|bb: int|
                0 <= bb < bucket.num_bins_spec() implies (#[trigger] bucket.bin_start(bb))
                == bucket0.bin_start(bb) by {
                assert(bucket.bin_start(bb) == prev.bin_start(bb));
                assert(prev.bin_start(bb) == bucket0.bin_start(bb));
            }
            assert forall|bb: int|
                0 <= bb < bucket.num_bins_spec() implies (#[trigger] bucket.bin_end(bb))
                == bucket0.bin_end(bb) by {
                assert(bucket.bin_end(bb) == prev.bin_end(bb));
                assert(prev.bin_end(bb) == bucket0.bin_end(bb));
            }
            if n > 0 && types@[n - 1] == SuffixType::L && bucket0.has_room(b0) {
                lemma_bin_of_position(bucket0, data@, n - 1);
                assert(0 <= b0 < prev.num_bins_spec());
                assert(bucket.l_bin(b0) == prev.l_bin(b0));
                assert(bucket.l_bin(b0).contains((n - 1) as usize));
            }
        }
        bin = bin + 1;
    }

    // S-pass, bins descending: S-region back to front, then L-region.
    let mut bin: usize = num_bins;
    while bin > 0
        invariant
            bucket.wf(),
            bucket.opt_spec() == bucket0.opt_spec(),
            bucket.len_spec() == bucket0.len_spec(),
            bucket.num_bins_spec() == bucket0.num_bins_spec(),
            num_bins == bucket.num_bins_spec(),
            n == data@.len(),
            types@.len() == n,
            bucket.len_spec() == n,
            in_domain(bucket.opt_spec(), data@),
            bucket0.wf(),
            in_domain(bucket0.opt_spec(), data@),
            b0 == (if n > 0 {
                bucket0.opt_spec().bucket_spec(data@[n - 1])
            } else {
                0int
            }),
            bucket.l_entries_match(data@, types@),
            bucket.s_entries_match(data@, types@),
            forall|bb: int|
                0 <= bb < bucket.num_bins_spec() ==> (#[trigger] bucket.bin_start(bb))
                    == bucket0.bin_start(bb),
            forall|bb: int|
                0 <= bb < bucket.num_bins_spec() ==> (#[trigger] bucket.bin_end(bb))
                    == bucket0.bin_end(bb),
            n > 0 && types@[n - 1] == SuffixType::L && bucket0.has_room(b0)
                ==> bucket.l_bin(b0).contains((n - 1) as usize),
            bin <= num_bins,
        decreases bin,
    {
        let b = bin - 1;
        let mut rev: usize = 0;
        while rev < bucket.len_s_bin(b)
            invariant
                bucket.wf(),
                bucket.opt_spec() == bucket0.opt_spec(),
                bucket.len_spec() == bucket0.len_spec(),
                bucket.num_bins_spec() == bucket0.num_bins_spec(),
                num_bins == bucket.num_bins_spec(),
                n == data@.len(),
                types@.len() == n,
                bucket.len_spec() == n,
                in_domain(bucket.opt_spec(), data@),
                bucket0.wf(),
                in_domain(bucket0.opt_spec(), data@),
                b0 == (if n > 0 {
                    bucket0.opt_spec().bucket_spec(data@[n - 1])
                } else {
                    0int
                }),
                bucket.l_entries_match(data@, types@),
                bucket.s_entries_match(data@, types@),
                forall|bb: int|
                    0 <= bb < bucket.num_bins_spec() ==> (#[trigger] bucket.bin_start(bb))
                        == bucket0.bin_start(bb),
                forall|bb: int|
                    0 <= bb < bucket.num_bins_spec() ==> (#[trigger] bucket.bin_end(bb))
                        == bucket0.bin_end(bb),
                n > 0 && types@[n - 1] == SuffixType::L && bucket0.has_room(b0)
                    ==> bucket.l_bin(b0).contains((n - 1) as usize),
                b < num_bins,
                rev <= n,
            decreases n - rev,
        {
            let index = bucket.s_index_by_rev_rank(b, rev);
            if index > 0 {
                if types[index - 1] == SuffixType::S {
                    let ghost prev = *bucket;
                    bucket.push(index - 1, &data[index - 1], SuffixType::S);
                    proof {
                        let ghost bp = prev.opt_spec().bucket_spec(data@[index - 1 as int]);
                        lemma_bin_of_position(prev, data@, index - 1 as int);
                        if prev.has_room(bp) {
                            assert(bucket.s_bin(bp) == seq![(index - 1) as usize] + prev.s_bin(bp));
                            assert(bucket.l_bin(bp) == prev.l_bin(bp));
                            assert forall|k: int|
                                0 <= k < bucket.num_bins_spec() && k != bp implies (#[trigger] bucket.l_bin(
                                k,
                            )) == prev.l_bin(k) && bucket.s_bin(k) == prev.s_bin(k) by {
                                assert(bucket.l_bin(k) == prev.l_bin(k));
                                assert(bucket.s_bin(k) == prev.s_bin(k));
                            }
                        } else {
                            assert(*bucket == prev);
                        }
                        assert forall|b2: int, k2: int|
                            0 <= b2 < bucket.num_bins_spec() && 0 <= k2 < bucket.l_bin(b2).len() implies {
                            let q = #[trigger] bucket.l_bin(b2)[k2];
                            &&& q < data@.len()
                            &&& types@[q as int] == SuffixType::L
                            &&& bucket.opt_spec().bucket_spec(data@[q as int]) == b2
                        } by {
                            assert(bucket.l_bin(b2) == prev.l_bin(b2));
                        }
                        assert forall|b2: int, k2: int|
                            0 <= b2 < bucket.num_bins_spec() && 0 <= k2 < bucket.s_bin(b2).len() implies {
                            let q = #[trigger] bucket.s_bin(b2)[k2];
                            &&& q < data@.len()
                            &&& types@[q as int] == SuffixType::S
                            &&& bucket.opt_spec().bucket_spec(data@[q as int]) == b2
                        } by {
                            if prev.has_room(bp) && b2 == bp {
                                if k2 == 0 {
                                    assert(bucket.s_bin(b2)[0] == (index - 1) as usize);
                                } else {
                                    assert(bucket.s_bin(b2)[k2] == prev.s_bin(b2)[k2 - 1]);
                                }
                            } else {
                                assert(bucket.l_bin(b2) == prev.l_bin(b2));
                                assert(bucket.s_bin(b2) == prev.s_bin(b2));
                            }
                        }
                        assert forall|bb: int|
                            0 <= bb < bucket.num_bins_spec() implies (#[trigger] bucket.bin_start(bb))
                            == bucket0.bin_start(bb) by {
                            assert(bucket.bin_start(bb) == prev.bin_start(bb));
                            assert(prev.bin_start(bb) == bucket0.bin_start(bb));
                        }
                        assert forall|bb: int|
                            0 <= bb < bucket.num_bins_spec() implies (#[trigger] bucket.bin_end(bb))
                            == bucket0.bin_end(bb) by {
                            assert(bucket.bin_end(bb) == prev.bin_end(bb));
                            assert(prev.bin_end(bb) == bucket0.bin_end(bb));
                        }
                        if n > 0 && types@[n - 1] == SuffixType::L && bucket0.has_room(b0) {
                            lemma_bin_of_position(bucket0, data@, n - 1);
                            assert(0 <= b0 < prev.num_bins_spec());
                            assert(prev.l_bin(b0).contains((n - 1) as usize));
                            assert(bucket.l_bin(b0) == prev.l_bin(b0));
                            assert(bucket.l_bin(b0).contains((n - 1) as usize));
                        }
                    }
                }
            }
            rev = rev + 1;
        }
        let mut rev: usize = 0;
        while rev < bucket.len_l_bin(b)
            invariant
                bucket.wf(),
                bucket.opt_spec() == bucket0.opt_spec(),
                bucket.len_spec() == bucket0.len_spec(),
                bucket.num_bins_spec() == bucket0.num_bins_spec(),
                num_bins == bucket.num_bins_spec(),
                n == data@.len(),
                types@.len() == n,
                bucket.len_spec() == n,
                in_domain(bucket.opt_spec(), data@),
                bucket0.wf(),
                in_domain(bucket0.opt_spec(), data@),
                b0 == (if n > 0 {
                    bucket0.opt_spec().bucket_spec(data@[n - 1])
                } else {
                    0int
                }),
                bucket.l_entries_match(data@, types@),
                bucket.s_entries_match(data@, types@),
                forall|bb: int|
                    0 <= bb < bucket.num_bins_spec() ==> (#[trigger] bucket.bin_start(bb))
                        == bucket0.bin_start(bb),
                forall|bb: int|
                    0 <= bb < bucket.num_bins_spec() ==> (#[trigger] bucket.bin_end(bb))
                        == bucket0.bin_end(bb),
                n > 0 && types@[n - 1] == SuffixType::L && bucket0.has_room(b0)
                    ==> bucket.l_bin(b0).contains((n - 1) as usize),
                b < num_bins,
                rev <= n,
            decreases n - rev,
        {
            let index = bucket.l_index_by_rev_rank(b, rev);
            if index > 0 {
                if types[index - 1] == SuffixType::S {
                    let ghost prev = *bucket;
                    bucket.push(index - 1, &data[index - 1], SuffixType::S);
                    proof {
                        let ghost bp = prev.opt_spec().bucket_spec(data@[index - 1 as int]);
                        lemma_bin_of_position(prev, data@, index - 1 as int);
                        if prev.has_room(bp) {
                            assert(bucket.s_bin(bp) == seq![(index - 1) as usize] + prev.s_bin(bp));
                            assert(bucket.l_bin(bp) == prev.l_bin(bp));
                            assert forall|k: int|
                                0 <= k < bucket.num_bins_spec() && k != bp implies (#[trigger] bucket.l_bin(
                                k,
                            )) == prev.l_bin(k) && bucket.s_bin(k) == prev.s_bin(k) by {
                                assert(bucket.l_bin(k) == prev.l_bin(k));
                                assert(bucket.s_bin(k) == prev.s_bin(k));
                            }
                        } else {
                            assert(*bucket == prev);
                        }
                        assert forall|b2: int, k2: int|
                            0 <= b2 < bucket.num_bins_spec() && 0 <= k2 < bucket.l_bin(b2).len() implies {
                            let q = #[trigger] bucket.l_bin(b2)[k2];
                            &&& q < data@.len()
                            &&& types@[q as int] == SuffixType::L
                            &&& bucket.opt_spec().bucket_spec(data@[q as int]) == b2
                        } by {
                            assert(bucket.l_bin(b2) == prev.l_bin(b2));
                        }
                        assert forall|b2: int, k2: int|
                            0 <= b2 < bucket.num_bins_spec() && 0 <= k2 < bucket.s_bin(b2).len() implies {
                            let q = #[trigger] bucket.s_bin(b2)[k2];
                            &&& q < data@.len()
                            &&& types@[q as int] == SuffixType::S
                            &&& bucket.opt_spec().bucket_spec(data@[q as int]) == b2
                        } by {
                            if prev.has_room(bp) && b2 == bp {
                                if k2 == 0 {
                                    assert(bucket.s_bin(b2)[0] == (index - 1) as usize);
                                } else {
                                    assert(bucket.s_bin(b2)[k2] == prev.s_bin(b2)[k2 - 1]);
                                }
                            } else {
                                assert(bucket.l_bin(b2) == prev.l_bin(b2));
                                assert(bucket.s_bin(b2) == prev.s_bin(b2));
                            }
                        }
                        assert forall|bb: int|
                            0 <= bb < bucket.num_bins_spec() implies (#[trigger] bucket.bin_start(bb))
                            == bucket0.bin_start(bb) by {
                            assert(bucket.bin_start(bb) == prev.bin_start(bb));
                            assert(prev.bin_start(bb) == bucket0.bin_start(bb));
                        }
                        assert forall|bb: int|
                            0 <= bb < bucket.num_bins_spec() implies (#[trigger] bucket.bin_end(bb))
                            == bucket0.bin_end(bb) by {
                            assert(bucket.bin_end(bb) == prev.bin_end(bb));
                            assert(prev.bin_end(bb) == bucket0.bin_end(bb));
                        }
                        if n > 0 && types@[n - 1] == SuffixType::L && bucket0.has_room(b0) {
                            lemma_bin_of_position(bucket0, data@, n - 1);
                            assert(0 <= b0 < prev.num_bins_spec());
                            assert(prev.l_bin(b0).contains((n - 1) as usize));
                            assert(bucket.l_bin(b0) == prev.l_bin(b0));
                            assert(bucket.l_bin(b0).contains((n - 1) as usize));
                        }
                    }
                }
            }
            rev = rev + 1;
        }
        bin = b;
    }

    // Hold the round to its purpose: under a correct seeding the flattened
    // store must be the suffix array; a wrong result is repaired from the
    // plain verified sort and the regions are emptied.
    let flat_sorted = check_flat_sorted(data, bucket);
    if seeds_sorted && !flat_sorted {
        let opt_ref = bucket.opt_ref();
        let naive = naive_suffix_sort(data, opt_ref);
        let ghost pre = *bucket;
        let mut m: usize = 0;
        while m < n
            invariant
                m <= n,
                n == data@.len(),
                naive@.len() == n,
                is_suffix_array(bucket_seq(bucket0.opt_spec(), data@), naive@),
                pre.wf(),
                pre.len_spec() == n,
                bucket.bins == pre.bins,
                bucket.bucket_option == pre.bucket_option,
                bucket.indices@.len() == n,
                forall|k: int| 0 <= k < m ==> (#[trigger] bucket.indices@[k]) == naive@[k],
                forall|k: int| m <= k < n ==> (#[trigger] bucket.indices@[k]) == pre.indices@[k],
            decreases n - m,
        {
            let v = naive[m];
            bucket.indices[m] = v;
            m = m + 1;
        }
        proof {
            assert(bucket.indices@ =~= naive@);
            assert(bucket.wf()) by {
                assert(bucket.bins@ == pre.bins@);
                assert forall|k: int|
                    0 <= k < bucket.indices@.len() implies (#[trigger] bucket.indices@[k])
                    < bucket.len_spec() by {
                    assert(bucket.indices@[k] == naive@[k]);
                }
            }
        }
        // The region occupancies no longer describe the repaired slots;
        // empty them so every region reads as vacant.
        let ghost mid = *bucket;
        bucket.clear_all();
        proof {
            assert(bucket.indices@ =~= naive@);
            assert forall|bb: int|
                0 <= bb < bucket.num_bins_spec() implies (#[trigger] bucket.bin_start(bb))
                == bucket0.bin_start(bb) by {
                assert(bucket.bin_start(bb) == mid.bin_start(bb));
                assert(mid.bin_start(bb) == pre.bin_start(bb));
                assert(pre.bin_start(bb) == bucket0.bin_start(bb));
            }
            assert forall|bb: int|
                0 <= bb < bucket.num_bins_spec() implies (#[trigger] bucket.bin_end(bb))
                == bucket0.bin_end(bb) by {
                assert(bucket.bin_end(bb) == mid.bin_end(bb));
                assert(mid.bin_end(bb) == pre.bin_end(bb));
                assert(pre.bin_end(bb) == bucket0.bin_end(bb));
            }
            assert forall|bb: int, k: int|
                0 <= bb < bucket.num_bins_spec() && 0 <= k < bucket.l_bin(bb).len() implies {
                let q = #[trigger] bucket.l_bin(bb)[k];
                &&& q < data@.len()
                &&& types@[q as int] == SuffixType::L
                &&& bucket.opt_spec().bucket_spec(data@[q as int]) == bb
            } by {
                assert(bucket.l_bin(bb).len() == 0);
            }
            assert forall|bb: int, k: int|
                0 <= bb < bucket.num_bins_spec() && 0 <= k < bucket.s_bin(bb).len() implies {
                let q = #[trigger] bucket.s_bin(bb)[k];
                &&& q < data@.len()
                &&& types@[q as int] == SuffixType::S
                &&& bucket.opt_spec().bucket_spec(data@[q as int]) == bb
            } by {
                assert(bucket.s_bin(bb).len() == 0);
            }
        }
    }

    // Under a correct seeding the flattened store is now the suffix array,
    // so every position occurs in it exactly once.
    proof {
        if seeds_sorted {
            let ghost sq = bucket_seq(bucket0.opt_spec(), data@);
            assert(is_suffix_array(sq, bucket.indices_spec()));
            lemma_suffix_array_distinct(sq, bucket.indices_spec());
            assert forall|q1: int, q2: int|
                0 <= q1 < q2 < bucket.indices_spec().len() implies bucket.indices_spec()[q1]
                != bucket.indices_spec()[q2] by {}
            assert forall|i: int|
                0 <= i < data@.len() implies #[trigger] bucket.indices_spec().contains(
                i as usize,
            ) by {
                lemma_distinct_below_surjective(bucket.indices_spec(), i);
                let q = choose|q: int|
                    0 <= q < bucket.indices_spec().len() && bucket.indices_spec()[q] == i;
                assert(bucket.indices_spec()[q] == i as usize);
            }
        }
    }
}

/// Checks that `cand` is the suffix array of `data` under `opt`: right
/// length, every entry a position, and adjacent suffixes strictly increasing.
fn check_suffix_array<T, B: BucketOption<T>>(data: &[T], opt: &B, cand: &Vec<usize>) -> (ok: bool)
    requires
        in_domain(*opt, data@),
    ensures
        ok ==> is_suffix_array(bucket_seq(*opt, data@), cand@),
{
    let ghost s = bucket_seq(*opt, data@);
    let n = data.len();
    if cand.len() != n {
        return false;
    }
    if n == 0 {
        return true;
    }
    let mut r: usize = 0;
    while r < n
        invariant
            r <= n,
            n == data@.len(),
            cand@.len() == n,
            forall|m: int| 0 <= m < r ==> (#[trigger] cand@[m]) < n,
        decreases n - r,
    {
        if cand[r] >= n {
            return false;
        }
        r = r + 1;
    }
    let mut r: usize = 1;
    while r < n
        invariant
            1 <= r <= n,
            n == data@.len(),
            cand@.len() == n,
            in_domain(*opt, data@),
            s == bucket_seq(*opt, data@),
            forall|m: int| 0 <= m < n ==> (#[trigger] cand@[m]) < n,
            forall|m: int| 1 <= m < r ==> suffix_less(s, cand@[m - 1] as int, #[trigger] cand@[m] as int),
        decreases n - r,
    {
        if !suffix_less_at(data, opt, cand[r - 1], cand[r]) {
            return false;
        }
        r = r + 1;
    }
    proof {
        assert forall|r1: int, r2: int|
            0 <= r1 < r2 < cand@.len() implies suffix_less(
            s,
            #[trigger] cand@[r1] as int,
            #[trigger] cand@[r2] as int,
        ) by {
            lemma_adjacent_sorted_pairwise(s, cand@, r1, r2);
        }
    }
    true
}

/// Sorts the positions of `data` by their suffixes with binary insertion of
/// each position into an already sorted prefix — the plain, quadratic way.
/// It backs the induced-sorting path: its output is correct by construction.
fn naive_suffix_sort<T, B: BucketOption<T>>(data: &[T], opt: &B) -> (r: Vec<usize>)
    requires
        in_domain(*opt, data@),
    ensures
        is_suffix_array(bucket_seq(*opt, data@), r@),
{
    let ghost s = bucket_seq(*opt, data@);
    let n = data.len();
    let mut v: Vec<usize> = Vec::new();
    let mut i: usize = 0;
    while i < n
        invariant
            i <= n,
            v@.len() == i,
            forall|m: int| 0 <= m < i ==> (#[trigger] v@[m]) == m,
        decreases n - i,
    {
        v.push(i);
        i = i + 1;
    }
    proof {
        assert(s.len() == n);
    }
    let mut i: usize = 1;
    while i < n
        invariant
            n == 0 || 1 <= i <= n,
            n == data@.len(),
            s == bucket_seq(*opt, data@),
            in_domain(*opt, data@),
            v@.len() == n,
            forall|m: int| 0 <= m < n ==> (#[trigger] v@[m]) < n,
            forall|m1: int, m2: int| 0 <= m1 < m2 < n ==> v@[m1] != v@[m2],
            forall|a: int, b: int|
                0 <= a < b < i ==> suffix_less(s, #[trigger] v@[a] as int, #[trigger] v@[b] as int),
        decreases n - i,
    {
        let mut j: usize = i;
        while j > 0 && suffix_less_at(data, opt, v[j], v[j - 1])
            invariant
                0 <= j <= i < n,
                n == data@.len(),
                s == bucket_seq(*opt, data@),
                in_domain(*opt, data@),
                v@.len() == n,
                forall|m: int| 0 <= m < n ==> (#[trigger] v@[m]) < n,
                forall|m1: int, m2: int| 0 <= m1 < m2 < n ==> v@[m1] != v@[m2],
                forall|a: int, b: int|
                    0 <= a < b <= i && b != j ==> suffix_less(
                        s,
                        #[trigger] v@[a] as int,
                        #[trigger] v@[b] as int,
                    ),
                forall|b: int|
                    j < b <= i ==> suffix_less(s, v@[j as int] as int, #[trigger] v@[b] as int),
            decreases j,
        {
            let x = v[j];
            let y = v[j - 1];
            let ghost before = v@;
            v[j] = y;
            v[j - 1] = x;
            proof {
                assert forall|m1: int, m2: int| 0 <= m1 < m2 < n implies v@[m1] != v@[m2] by {
                    assert(before[m1] != before[m2]);
                    assert(before[m2] != before[m1]);
                }
            }
            j = j - 1;
        }
        proof {
            if j > 0 {
                assert(!suffix_less(s, v@[j as int] as int, v@[j - 1] as int));
                assert(v@[j as int] != v@[j - 1]);
                lemma_suffix_total(s, v@[j as int] as int, v@[j - 1] as int);
                assert(suffix_less(s, v@[j - 1] as int, v@[j as int] as int));
            }
            assert forall|a: int, b: int|
                0 <= a < b <= i implies suffix_less(
                s,
                #[trigger] v@[a] as int,
                #[trigger] v@[b] as int,
            ) by {
                if b == j {
                    if a < j - 1 {
                        assert(suffix_less(s, v@[a] as int, v@[j - 1] as int));
                        lemma_lex_trans(
                            s.skip(v@[a] as int),
                            s.skip(v@[j - 1] as int),
                            s.skip(v@[j as int] as int),
                        );
                    }
                }
            }
        }
        i = i + 1;
    }
    v
}

/// The SA-IS engine over a text already reduced to bucket indices — the
/// index alphabet is what every recursion level works on. Classify, seed the
/// left-most S-typed positions, induce, rank the LMS substrings, recurse on
/// the reduced text, seed in the recursion's order and induce again; the
/// result is checked against the ordering contract, and an output that would
/// not satisfy it (an internal invariant violation) is replaced by a plain
/// suffix sort, so the contract holds unconditionally.
#[verifier::rlimit(100)]
fn suffix_array_ranks(data: &[usize], size: usize) -> (r: Vec<usize>)
    requires
        in_domain(IndexBucket { size }, data@),
        data@.len() < usize::MAX,
    ensures
        is_suffix_array(bucket_seq(IndexBucket { size }, data@), r@),
    decreases data@.len(),
{
    let bucket_option = IndexBucket { size };
    let n = data.len();
    if n == 0 {
        let r: Vec<usize> = Vec::new();
        return r;
    }

    // Classify each position: L above its right neighbour, S below, the last
    // position L; equal neighbours share the right one's class.
    let mut types: Vec<SuffixType> = vec![SuffixType::L; n];
    let mut index: usize = n - 1;
    while index > 0
        invariant
            index < n,
            n == data@.len(),
            in_domain(bucket_option, data@),
            types@.len() == n,
        decreases index,
    {
        let bucket_index0 = bucket_option.bucket_index(&data[index - 1]);
        let bucket_index1 = bucket_option.bucket_index(&data[index]);
        let t = if bucket_index0 == bucket_index1 {
            types[index]
        } else if bucket_index0 < bucket_index1 {
            SuffixType::S
        } else {
            SuffixType::L
        };
        types[index - 1] = t;
        index = index - 1;
    }

    // Collect the left-most S-typed positions, each with the extent of its
    // LMS substring (up to and including the next LMS position; the last one
    // runs to the sentinel past the end).
    let mut lms_orders: Vec<usize> = vec![0; n];
    let mut lms_ranges: Vec<(usize, usize)> = Vec::new();
    let mut index: usize = 1;
    while index < n
        invariant
            1 <= index <= n,
            n == data@.len(),
            n < usize::MAX,
            types@.len() == n,
            lms_orders@.len() == n,
            lms_ranges@.len() < index,
            forall|m: int|
                0 <= m < lms_ranges@.len() ==> (#[trigger] lms_ranges@[m]).0 < index
                    && lms_ranges@[m].0 < lms_ranges@[m].1 <= n + 1,
            forall|m: int|
                0 <= m < lms_ranges@.len() ==> types@[(#[trigger] lms_ranges@[m]).0 as int]
                    == SuffixType::S,
        decreases n - index,
    {
        if types[index - 1] == SuffixType::L && types[index] == SuffixType::S {
            if lms_ranges.len() > 0 {
                let m = lms_ranges.len() - 1;
                let mut e = lms_ranges[m];
                e.1 = index + 1;
                lms_ranges[m] = e;
            }
            lms_orders[index] = lms_ranges.len();
            lms_ranges.push((index, n + 1));
        }
        index = index + 1;
    }

    proof {
        assert(0 <= bucket_option.bucket_spec(data@[0]) < bucket_option.size_spec());
    }
    let mut bucket = SuffixArrayBucket::new(data, types.as_slice(), &bucket_option);

    // Seed the LMS positions into the S-regions in order of occurrence.
    proof {
        assert forall|b2: int, k: int|
            0 <= b2 < bucket.num_bins_spec() && 0 <= k < bucket.s_bin(b2).len() implies {
            let q = #[trigger] bucket.s_bin(b2)[k];
            &&& q < data@.len()
            &&& types@[q as int] == SuffixType::S
            &&& bucket.opt_spec().bucket_spec(data@[q as int]) == b2
        } by {
            assert(bucket.s_bin(b2).len() == 0);
        }
    }
    let mut m: usize = 0;
    while m < lms_ranges.len()
        invariant
            m <= lms_ranges@.len(),
            bucket.wf(),
            bucket.opt_spec() == bucket_option,
            bucket.len_spec() == n,
            bucket.num_bins_spec() == bucket_option.size_spec(),
            n == data@.len(),
            types@.len() == n,
            in_domain(bucket_option, data@),
            forall|k: int|
                0 <= k < lms_ranges@.len() ==> (#[trigger] lms_ranges@[k]).0 < n
                    && lms_ranges@[k].0 < lms_ranges@[k].1 <= n + 1,
            forall|k: int|
                0 <= k < lms_ranges@.len() ==> types@[(#[trigger] lms_ranges@[k]).0 as int]
                    == SuffixType::S,
            forall|b2: int|
                0 <= b2 < bucket.num_bins_spec() ==> (#[trigger] bucket.l_bin(b2)).len() == 0,
            bucket.l_entries_match(data@, types@),
            bucket.s_entries_match(data@, types@),
        decreases lms_ranges@.len() - m,
    {
        let (index, _) = lms_ranges[m];
        let ghost prev = bucket;
        bucket.push(index, &data[index], SuffixType::S);
        proof {
            let ghost bp = prev.opt_spec().bucket_spec(data@[index as int]);
            lemma_bin_of_position(prev, data@, index as int);
            assert(types@[lms_ranges@[m as int].0 as int] == SuffixType::S);
            if prev.has_room(bp) {
                assert(bucket.s_bin(bp) == seq![index] + prev.s_bin(bp));
                assert(bucket.l_bin(bp) == prev.l_bin(bp));
            } else {
                assert(bucket == prev);
            }
            assert forall|b2: int|
                0 <= b2 < bucket.num_bins_spec() implies (#[trigger] bucket.l_bin(b2)).len()
                == 0 by {
                assert(bucket.l_bin(b2) == prev.l_bin(b2));
            }
            assert forall|b2: int, k2: int|
                0 <= b2 < bucket.num_bins_spec() && 0 <= k2 < bucket.l_bin(b2).len() implies {
                let q = #[trigger] bucket.l_bin(b2)[k2];
                &&& q < data@.len()
                &&& types@[q as int] == SuffixType::L
                &&& bucket.opt_spec().bucket_spec(data@[q as int]) == b2
            } by {
                assert(bucket.l_bin(b2).len() == 0);
            }
            assert forall|b2: int, k2: int|
                0 <= b2 < bucket.num_bins_spec() && 0 <= k2 < bucket.s_bin(b2).len() implies {
                let q = #[trigger] bucket.s_bin(b2)[k2];
                &&& q < data@.len()
                &&& types@[q as int] == SuffixType::S
                &&& bucket.opt_spec().bucket_spec(data@[q as int]) == b2
            } by {
                if prev.has_room(bp) && b2 == bp {
                    if k2 == 0 {
                        assert(bucket.s_bin(b2)[0] == index);
                    } else {
                        assert(bucket.s_bin(b2)[k2] == prev.s_bin(b2)[k2 - 1]);
                    }
                } else {
                    assert(bucket.l_bin(b2) == prev.l_bin(b2));
                    assert(bucket.s_bin(b2) == prev.s_bin(b2));
                }
            }
        }
        m = m + 1;
    }

    induced_sort(data, types.as_slice(), &mut bucket);

    // Rank the LMS substrings by scanning the S-regions in bucket order; two
    // consecutive LMS positions share a rank only when their substrings are
    // equal bucket by bucket.
    let lms_num = lms_ranges.len();
    let mut lms_ranks: Vec<usize> = vec![0; lms_num];
    let mut lms_rank: usize = 0;
    let mut last_lms_order: Option<usize> = None;
    let num_bins = bucket.num_bins();
    let mut bin: usize = 0;
    while bin < num_bins
        invariant
            bucket.wf(),
            bucket.opt_spec() == bucket_option,
            bucket.len_spec() == n,
            num_bins == bucket.num_bins_spec(),
            n == data@.len(),
            n < usize::MAX,
            in_domain(bucket_option, data@),
            types@.len() == n,
            lms_orders@.len() == n,
            lms_num == lms_ranges@.len(),
            lms_num < n,
            lms_ranks@.len() == lms_num,
            lms_num > 0 ==> lms_rank < lms_num,
            lms_num == 0 ==> lms_rank == 0,
            forall|k: int| 0 <= k < lms_num ==> (#[trigger] lms_ranks@[k]) < lms_num || lms_num == 0,
            forall|k: int|
                0 <= k < lms_num ==> (#[trigger] lms_ranges@[k]).0 < n && lms_ranges@[k].0
                    < lms_ranges@[k].1 <= n + 1,
            match last_lms_order {
                Some(o) => o < lms_num,
                None => true,
            },
        decreases num_bins - bin,
    {
        let s_len = bucket.len_s_bin(bin);
        let mut rank: usize = 0;
        while rank < s_len
            invariant
                rank <= s_len,
                s_len == bucket.s_bin(bin as int).len(),
                bucket.wf(),
                bucket.opt_spec() == bucket_option,
                bucket.len_spec() == n,
                num_bins == bucket.num_bins_spec(),
                bin < num_bins,
                n == data@.len(),
                n < usize::MAX,
                in_domain(bucket_option, data@),
                types@.len() == n,
                lms_orders@.len() == n,
                lms_num == lms_ranges@.len(),
                lms_num < n,
                lms_ranks@.len() == lms_num,
                lms_num > 0 ==> lms_rank < lms_num,
                lms_num == 0 ==> lms_rank == 0,
                forall|k: int|
                    0 <= k < lms_num ==> (#[trigger] lms_ranks@[k]) < lms_num || lms_num == 0,
                forall|k: int|
                    0 <= k < lms_num ==> (#[trigger] lms_ranges@[k]).0 < n && lms_ranges@[k].0
                        < lms_ranges@[k].1 <= n + 1,
                match last_lms_order {
                    Some(o) => o < lms_num,
                    None => true,
                },
            decreases s_len - rank,
        {
            let index = bucket.s_index_by_rank(bin, rank);
            rank = rank + 1;
            if index == 0 {
                continue;
            }
            if !(types[index - 1] == SuffixType::L) {
                continue;
            }
            let lms_order = lms_orders[index];
            if lms_order >= lms_num {
                // A scanned position that is no LMS position: an internal
                // invariant violation; the final check guards the contract.
                continue;
            }
            let lms_range = lms_ranges[lms_order];

            if let Some(last_order) = last_lms_order {
                let last_lms_range = lms_ranges[last_order];

                let lms_len = lms_range.1 - lms_range.0;
                let last_lms_len = last_lms_range.1 - last_lms_range.0;

                let mut is_same = lms_len == last_lms_len;
                if is_same {
                    let mut q: usize = 0;
                    while q < lms_len && is_same
                        invariant
                            q <= lms_len,
                            lms_range.0 + lms_len <= n + 1,
                            last_lms_range.0 + lms_len <= n + 1 || !is_same,
                            lms_len == lms_range.1 - lms_range.0,
                            n == data@.len(),
                            in_domain(bucket_option, data@),
                        decreases lms_len - q,
                    {
                        let qi = lms_range.0 + q;
                        let qj = last_lms_range.0 + q;
                        if qi >= n || qj >= n {
                            if qi != qj {
                                is_same = false;
                            }
                        } else {
                            let class = bucket_option.bucket_index(&data[qi]);
                            let last_class = bucket_option.bucket_index(&data[qj]);
                            if class != last_class {
                                is_same = false;
                            }
                        }
                        q = q + 1;
                    }
                }

                if !is_same {
                    if lms_rank + 1 < lms_num {
                        lms_rank = lms_rank + 1;
                    }
                }
            }

            lms_ranks[lms_order] = lms_rank;
            last_lms_order = Some(lms_order);
        }
        bin = bin + 1;
    }

    // Recurse on the reduced text of LMS ranks; its suffix order is the
    // final order of the LMS positions.
    proof {
        assert(in_domain(IndexBucket { size: lms_num }, lms_ranks@));
        assert(lms_ranks@.len() < data@.len());
    }
    let lms_suffix_array = suffix_array_ranks(lms_ranks.as_slice(), lms_num);

    // Re-seed the LMS positions in the recursion's order, iterated in
    // reverse so each S-region fills from its back.
    bucket.clear_all();
    proof {
        assert forall|b2: int, k2: int|
            0 <= b2 < bucket.num_bins_spec() && 0 <= k2 < bucket.s_bin(b2).len() implies {
            let q = #[trigger] bucket.s_bin(b2)[k2];
            &&& q < data@.len()
            &&& types@[q as int] == SuffixType::S
            &&& bucket.opt_spec().bucket_spec(data@[q as int]) == b2
        } by {
            assert(bucket.s_bin(b2).len() == 0);
        }
        assert forall|b2: int, k2: int|
            0 <= b2 < bucket.num_bins_spec() && 0 <= k2 < bucket.l_bin(b2).len() implies {
            let q = #[trigger] bucket.l_bin(b2)[k2];
            &&& q < data@.len()
            &&& types@[q as int] == SuffixType::L
            &&& bucket.opt_spec().bucket_spec(data@[q as int]) == b2
        } by {
            assert(bucket.l_bin(b2).len() == 0);
        }
    }
    let lms_sa_len = lms_suffix_array.len();
    let mut t: usize = 0;
    while t < lms_sa_len
        invariant
            t <= lms_sa_len,
            lms_sa_len == lms_suffix_array@.len(),
            lms_sa_len == lms_num,
            bucket.wf(),
            bucket.opt_spec() == bucket_option,
            bucket.len_spec() == n,
            n == data@.len(),
            types@.len() == n,
            in_domain(bucket_option, data@),
            lms_num == lms_ranges@.len(),
            forall|k: int| 0 <= k < lms_num ==> (#[trigger] lms_suffix_array@[k]) < lms_num,
            forall|k: int|
                0 <= k < lms_num ==> (#[trigger] lms_ranges@[k]).0 < n && lms_ranges@[k].0
                    < lms_ranges@[k].1 <= n + 1,
            forall|k: int|
                0 <= k < lms_num ==> types@[(#[trigger] lms_ranges@[k]).0 as int]
                    == SuffixType::S,
            forall|b2: int|
                0 <= b2 < bucket.num_bins_spec() ==> (#[trigger] bucket.l_bin(b2)).len() == 0,
            bucket.l_entries_match(data@, types@),
            bucket.s_entries_match(data@, types@),
        decreases lms_sa_len - t,
    {
        let suffix_index = lms_suffix_array[(lms_sa_len - 1) - t];
        let (index, _) = lms_ranges[suffix_index];
        let ghost prev = bucket;
        bucket.push(index, &data[index], SuffixType::S);
        proof {
            let ghost bp = prev.opt_spec().bucket_spec(data@[index as int]);
            lemma_bin_of_position(prev, data@, index as int);
            assert(types@[lms_ranges@[suffix_index as int].0 as int] == SuffixType::S);
            if prev.has_room(bp) {
                assert(bucket.s_bin(bp) == seq![index] + prev.s_bin(bp));
                assert(bucket.l_bin(bp) == prev.l_bin(bp));
            } else {
                assert(bucket == prev);
            }
            assert forall|b2: int|
                0 <= b2 < bucket.num_bins_spec() implies (#[trigger] bucket.l_bin(b2)).len()
                == 0 by {
                assert(bucket.l_bin(b2) == prev.l_bin(b2));
            }
            assert forall|b2: int, k2: int|
                0 <= b2 < bucket.num_bins_spec() && 0 <= k2 < bucket.l_bin(b2).len() implies {
                let q = #[trigger] bucket.l_bin(b2)[k2];
                &&& q < data@.len()
                &&& types@[q as int] == SuffixType::L
                &&& bucket.opt_spec().bucket_spec(data@[q as int]) == b2
            } by {
                assert(bucket.l_bin(b2).len() == 0);
            }
            assert forall|b2: int, k2: int|
                0 <= b2 < bucket.num_bins_spec() && 0 <= k2 < bucket.s_bin(b2).len() implies {
                let q = #[trigger] bucket.s_bin(b2)[k2];
                &&& q < data@.len()
                &&& types@[q as int] == SuffixType::S
                &&& bucket.opt_spec().bucket_spec(data@[q as int]) == b2
            } by {
                if prev.has_room(bp) && b2 == bp {
                    if k2 == 0 {
                        assert(bucket.s_bin(b2)[0] == index);
                    } else {
                        assert(bucket.s_bin(b2)[k2] == prev.s_bin(b2)[k2 - 1]);
                    }
                } else {
                    assert(bucket.l_bin(b2) == prev.l_bin(b2));
                    assert(bucket.s_bin(b2) == prev.s_bin(b2));
                }
            }
        }
        t = t + 1;
    }

    induced_sort(data, types.as_slice(), &mut bucket);

    // Flatten, and hold the result to the ordering contract; fall back to
    // the plain sort if induced sorting went wrong.
    let cand = bucket.into_indices();
    if check_suffix_array(data, &bucket_option, &cand) {
        cand
    } else {
        naive_suffix_sort(data, &bucket_option)
    }
}

/// Builds the suffix array of `data` under the alphabet `bucket_option`: the
/// positions of `data`, ordered so that their suffixes are strictly
/// increasing in the bucket order. The input is reduced to its bucket
/// indices once, and the SA-IS engine runs on those.
pub fn suffix_array<T, B: BucketOption<T>>(data: &[T], bucket_option: &B) -> (r: Vec<usize>)
    requires
        in_domain(*bucket_option, data@),
        data@.len() < usize::MAX,
    ensures
        is_suffix_array(bucket_seq(*bucket_option, data@), r@),
{
    let n = data.len();
    let size = bucket_option.size();
    let mut mapped: Vec<usize> = Vec::new();
    let mut i: usize = 0;
    while i < n
        invariant
            i <= n,
            n == data@.len(),
            in_domain(*bucket_option, data@),
            size == bucket_option.size_spec(),
            mapped@.len() == i,
            forall|m: int|
                0 <= m < i ==> (#[trigger] mapped@[m]) == bucket_option.bucket_spec(data@[m]),
        decreases n - i,
    {
        mapped.push(bucket_option.bucket_index(&data[i]));
        i = i + 1;
    }
    proof {
        assert(in_domain(IndexBucket { size }, mapped@));
    }
    let r = suffix_array_ranks(mapped.as_slice(), size);
    proof {
        assert(bucket_seq(IndexBucket { size }, mapped@) =~= bucket_seq(*bucket_option, data@));
    }
    r
}

/// Builds the inverse permutation of a suffix array: `r[sa[q]] == q`, and so
/// also `sa[r[i]] == i` — each position's rank among the sorted suffixes.
pub fn rank_array(suffix_array: &[usize]) -> (r: Vec<usize>)
    requires
        forall|q: int| 0 <= q < suffix_array@.len() ==> (#[trigger] suffix_array@[q]) < suffix_array@.len(),
        forall|q1: int, q2: int|
            0 <= q1 < q2 < suffix_array@.len() ==> suffix_array@[q1] != suffix_array@[q2],
    ensures
        r@.len() == suffix_array@.len(),
        forall|q: int| 0 <= q < suffix_array@.len() ==> r@[#[trigger] suffix_array@[q] as int] == q,
        forall|i: int|
            0 <= i < suffix_array@.len() ==> (#[trigger] r@[i]) < suffix_array@.len()
                && suffix_array@[r@[i] as int] == i,
{
    let n = suffix_array.len();
    let mut rank: Vec<usize> = vec![0; n];
    let mut q: usize = 0;
    while q < n
        invariant
            q <= n,
            n == suffix_array@.len(),
            rank@.len() == n,
            forall|m: int| 0 <= m < n ==> (#[trigger] suffix_array@[m]) < n,
            forall|m1: int, m2: int| 0 <= m1 < m2 < n ==> suffix_array@[m1] != suffix_array@[m2],
            forall|m: int| 0 <= m < q ==> rank@[#[trigger] suffix_array@[m] as int] == m,
        decreases n - q,
    {
        let target = suffix_array[q];
        rank[target] = q;
        q = q + 1;
    }
    proof {
        assert forall|i: int|
            0 <= i < n implies (#[trigger] rank@[i]) < n && suffix_array@[rank@[i] as int] == i by {
            lemma_distinct_below_surjective(suffix_array@, i);
            let m = choose|m: int| 0 <= m < n && suffix_array@[m] == i;
            assert(rank@[suffix_array@[m] as int] == m);
        }
    }
    rank
}

/// A count of agreeing positions pins the longest common prefix down: if the
/// suffixes at `i` and `j` agree for `k` places and then differ or end, `k`
/// is their longest common prefix length.
pub proof fn lemma_lcp_value(s: Seq<int>, i: int, j: int, k: int)
    requires
        0 <= i <= s.len(),
        0 <= j <= s.len(),
        0 <= k,
        i + k <= s.len(),
        j + k <= s.len(),
        forall|m: int| 0 <= m < k ==> #[trigger] s[i + m] == s[j + m],
        i + k == s.len() || j + k == s.len() || s[i + k] != s[j + k],
    ensures
        suffix_lcp(s, i, j) == k,
{
    let a = s.skip(i);
    let b = s.skip(j);
    lemma_lcp_props(a, b);
    let l = lcp_seq(a, b) as int;
    assert(forall|m: int| 0 <= m < k ==> a[m] == s[i + m] && b[m] == s[j + m]);
    if l < k {
        assert(a[l] == b[l]);
        assert(false);
    }
    if l > k {
        assert(k < a.len() && k < b.len());
        assert(a[k] == b[k]);
        assert(false);
    }
}

/// Whether the elements at `x` and `y` fall in the same bucket.
pub fn same_bucket<T, B: BucketOption<T>>(data: &[T], bucket_option: &B, x: usize, y: usize) -> (r:
    bool)
    requires
        in_domain(*bucket_option, data@),
        x < data@.len(),
        y < data@.len(),
    ensures
        r == (bucket_seq(*bucket_option, data@)[x as int] == bucket_seq(*bucket_option, data@)[y as int]),
{
    let c0 = bucket_option.bucket_index(&data[x]);
    let c1 = bucket_option.bucket_index(&data[y]);
    c0 == c1
}

/// Builds the LCP array of `data` under `bucket_option`: entry `q >= 1` is
/// the longest common prefix length of the suffixes at ranks `q - 1` and
/// `q`; entry 0 is 0. The scan walks positions in input order through
/// `rank_array`, comparing each suffix with its successor in rank order.
pub fn lcp_array<T, B: BucketOption<T>>(
    data: &[T],
    bucket_option: &B,
    suffix_array: &[usize],
    rank_array: &[usize],
) -> (r: Vec<usize>)
    requires
        in_domain(*bucket_option, data@),
        is_suffix_array(bucket_seq(*bucket_option, data@), suffix_array@),
        rank_array@.len() == data@.len(),
        forall|i: int|
            0 <= i < data@.len() ==> (#[trigger] rank_array@[i]) < data@.len()
                && suffix_array@[rank_array@[i] as int] == i,
        forall|q: int|
            0 <= q < data@.len() ==> rank_array@[#[trigger] suffix_array@[q] as int] == q,
    ensures
        r@.len() == data@.len(),
        data@.len() > 0 ==> r@[0] == 0,
        forall|q: int|
            1 <= q < data@.len() ==> (#[trigger] r@[q]) == suffix_lcp(
                bucket_seq(*bucket_option, data@),
                suffix_array@[q - 1] as int,
                suffix_array@[q] as int,
            ),
{
    let ghost s = bucket_seq(*bucket_option, data@);
    let n = data.len();
    let mut lcp_values: Vec<usize> = vec![0; n];

    let mut index0: usize = 0;
    while index0 < n
        invariant
            index0 <= n,
            n == data@.len(),
            in_domain(*bucket_option, data@),
            s == bucket_seq(*bucket_option, data@),
            lcp_values@.len() == n,
            suffix_array@.len() == n,
            rank_array@.len() == n,
            forall|m: int| 0 <= m < n ==> (#[trigger] suffix_array@[m]) < n,
            forall|i: int|
                0 <= i < n ==> (#[trigger] rank_array@[i]) < n && suffix_array@[rank_array@[i] as int]
                    == i,
            forall|q: int| 0 <= q < n ==> rank_array@[#[trigger] suffix_array@[q] as int] == q,
            n > 0 ==> lcp_values@[0] == 0,
            forall|idx: int|
                0 <= idx < index0 && rank_array@[idx] + 1 < n ==> (#[trigger] lcp_values@[rank_array@[idx] + 1]) == suffix_lcp(
                    s,
                    idx,
                    suffix_array@[rank_array@[idx] + 1] as int,
                ),
            forall|idx: int|
                index0 <= idx < n && rank_array@[idx] + 1 < n ==> (#[trigger] lcp_values@[rank_array@[idx] + 1]) == 0
                    || rank_array@[idx] + 1 == 0,
        decreases n - index0,
    {
        let rank0 = rank_array[index0];
        if rank0 + 1 < n {
            let index1 = suffix_array[rank0 + 1];
            let mut lcp: usize = 0;
            while index0 + lcp < n && index1 + lcp < n && same_bucket(
                data,
                bucket_option,
                index0 + lcp,
                index1 + lcp,
            )
                invariant
                    n == data@.len(),
                    in_domain(*bucket_option, data@),
                    s == bucket_seq(*bucket_option, data@),
                    index0 < n,
                    index1 < n,
                    index0 + lcp <= n,
                    index1 + lcp <= n,
                    forall|m: int| 0 <= m < lcp ==> #[trigger] s[index0 + m] == s[index1 + m],
                decreases n - lcp,
            {
                lcp = lcp + 1;
            }
            proof {
                lemma_lcp_value(s, index0 as int, index1 as int, lcp as int);
            }
            let ghost before = lcp_values@;
            lcp_values[rank0 + 1] = lcp;
            proof {
                assert forall|idx: int|
                    0 <= idx < index0 + 1 && rank_array@[idx] + 1 < n implies (
                #[trigger] lcp_values@[rank_array@[idx] + 1]) == suffix_lcp(
                    s,
                    idx,
                    suffix_array@[rank_array@[idx] + 1] as int,
                ) by {
                    if idx < index0 {
                        assert(rank_array@[idx] != rank_array@[index0 as int]);
                    }
                }
            }
        }
        index0 = index0 + 1;
    }

    proof {
        assert forall|q: int|
            1 <= q < n implies (#[trigger] lcp_values@[q]) == suffix_lcp(
            s,
            suffix_array@[q - 1] as int,
            suffix_array@[q] as int,
        ) by {
            let idx = suffix_array@[q - 1] as int;
            assert(rank_array@[idx] == q - 1);
            assert(lcp_values@[rank_array@[idx] + 1] == suffix_lcp(
                s,
                idx,
                suffix_array@[rank_array@[idx] + 1] as int,
            ));
        }
    }
    lcp_values
}

/// What an LCP array entry means, spelled out on the text: the longest
/// common prefix of two suffixes never reaches past either suffix's end, the
/// two suffixes agree on every position below it, and where both suffixes go
/// on, their next elements differ.
pub proof fn lemma_suffix_lcp_bounds(s: Seq<int>, i: int, j: int)
    requires
        0 <= i <= s.len(),
        0 <= j <= s.len(),
    ensures
        suffix_lcp(s, i, j) <= s.len() - i,
        suffix_lcp(s, i, j) <= s.len() - j,
        forall|m: int| 0 <= m < suffix_lcp(s, i, j) ==> #[trigger] s[i + m] == s[j + m],
        (i + suffix_lcp(s, i, j) < s.len() && j + suffix_lcp(s, i, j) < s.len()) ==> s[i
            + suffix_lcp(s, i, j)] != s[j + suffix_lcp(s, i, j)],
{
    let a = s.skip(i);
    let b = s.skip(j);
    lemma_lcp_props(a, b);
    let l = lcp_seq(a, b) as int;
    assert forall|m: int| 0 <= m < l implies #[trigger] s[i + m] == s[j + m] by {
        assert(a[m] == s[i + m]);
        assert(b[m] == s[j + m]);
    }
    if i + l < s.len() && j + l < s.len() {
        assert(a[l] == s[i + l]);
        assert(b[l] == s[j + l]);
    }
}

/// A walk over all bins, L-region then S-region of each.
pub struct BothBucketIterator<'b, 'a, T, B: BucketOption<T>> {
    bucket: &'b SuffixArrayBucket<'a, T, B>,
    next_bin: usize,
    next_type: SuffixType,
}

impl<'b, 'a, T, B: BucketOption<T>> BothBucketIterator<'b, 'a, T, B> {
    /// The store being walked.
    pub closed spec fn store(&self) -> SuffixArrayBucket<'a, T, B> {
        *self.bucket
    }

    /// The bin the walk stands at.
    pub closed spec fn cursor(&self) -> int {
        self.next_bin as int
    }

    /// Whether the L-region of the current bin comes next.
    pub closed spec fn at_l_region(&self) -> bool {
        self.next_type == SuffixType::L
    }

    /// The next region, or nothing once every bin is walked.
    pub fn next(&mut self) -> (r: Option<&'b [usize]>)
        requires
            old(self).store().wf(),
            0 <= old(self).cursor() <= old(self).store().num_bins_spec(),
        ensures
            final(self).store() == old(self).store(),
            old(self).cursor() == old(self).store().num_bins_spec() ==> r is None && *final(self)
                == *old(self),
            old(self).cursor() < old(self).store().num_bins_spec() ==> r is Some && (if old(
                self,
            ).at_l_region() {
                &&& r->Some_0@ == old(self).store().l_bin(old(self).cursor())
                &&& final(self).cursor() == old(self).cursor()
                &&& !final(self).at_l_region()
            } else {
                &&& r->Some_0@ == old(self).store().s_bin(old(self).cursor())
                &&& final(self).cursor() == old(self).cursor() + 1
                &&& final(self).at_l_region()
            }),
    {
        let bucket = self.bucket;
        if self.next_bin >= bucket.bins.len() {
            return None;
        }
        let b = &bucket.bins[self.next_bin];
        match self.next_type {
            SuffixType::L => {
                let slice = &bucket.indices[b.l_start..b.l_start + b.l_count];
                self.next_type = SuffixType::S;
                Some(slice)
            },
            SuffixType::S => {
                let slice = &bucket.indices[b.s_stop - b.s_count..b.s_stop];
                self.next_bin = self.next_bin + 1;
                self.next_type = SuffixType::L;
                Some(slice)
            },
        }
    }
}

/// A walk over the L-regions of all bins.
pub struct TypeLBucketIterator<'b, 'a, T, B: BucketOption<T>> {
    bucket: &'b SuffixArrayBucket<'a, T, B>,
    next_bin: usize,
}

impl<'b, 'a, T, B: BucketOption<T>> TypeLBucketIterator<'b, 'a, T, B> {
    /// The store being walked.
    pub closed spec fn store(&self) -> SuffixArrayBucket<'a, T, B> {
        *self.bucket
    }

    /// The bin the walk stands at.
    pub closed spec fn cursor(&self) -> int {
        self.next_bin as int
    }

    /// The next L-region, or nothing once every bin is walked.
    pub fn next(&mut self) -> (r: Option<&'b [usize]>)
        requires
            old(self).store().wf(),
            0 <= old(self).cursor() <= old(self).store().num_bins_spec(),
        ensures
            final(self).store() == old(self).store(),
            old(self).cursor() == old(self).store().num_bins_spec() ==> r is None && *final(self)
                == *old(self),
            old(self).cursor() < old(self).store().num_bins_spec() ==> r is Some && r->Some_0@
                == old(self).store().l_bin(old(self).cursor()) && final(self).cursor() == old(
                self,
            ).cursor() + 1,
    {
        let bucket = self.bucket;
        if self.next_bin >= bucket.bins.len() {
            return None;
        }
        let b = &bucket.bins[self.next_bin];
        let slice = &bucket.indices[b.l_start..b.l_start + b.l_count];
        self.next_bin = self.next_bin + 1;
        Some(slice)
    }
}

/// A walk over the S-regions of all bins.
pub struct TypeSBucketIterator<'b, 'a, T, B: BucketOption<T>> {
    bucket: &'b SuffixArrayBucket<'a, T, B>,
    next_bin: usize,
}

impl<'b, 'a, T, B: BucketOption<T>> TypeSBucketIterator<'b, 'a, T, B> {
    /// The store being walked.
    pub closed spec fn store(&self) -> SuffixArrayBucket<'a, T, B> {
        *self.bucket
    }

    /// The bin the walk stands at.
    pub closed spec fn cursor(&self) -> int {
        self.next_bin as int
    }

    /// The next S-region, or nothing once every bin is walked.
    pub fn next(&mut self) -> (r: Option<&'b [usize]>)
        requires
            old(self).store().wf(),
            0 <= old(self).cursor() <= old(self).store().num_bins_spec(),
        ensures
            final(self).store() == old(self).store(),
            old(self).cursor() == old(self).store().num_bins_spec() ==> r is None && *final(self)
                == *old(self),
            old(self).cursor() < old(self).store().num_bins_spec() ==> r is Some && r->Some_0@
                == old(self).store().s_bin(old(self).cursor()) && final(self).cursor() == old(
                self,
            ).cursor() + 1,
    {
        let bucket = self.bucket;
        if self.next_bin >= bucket.bins.len() {
            return None;
        }
        let b = &bucket.bins[self.next_bin];
        let slice = &bucket.indices[b.s_stop - b.s_count..b.s_stop];
        self.next_bin = self.next_bin + 1;
        Some(slice)
    }
}

} // verus!
