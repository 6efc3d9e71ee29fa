use vstd::prelude::*;
use vstd::string::StringSliceAdditionalSpecFns;

verus! {

/// A bound on the size of one base's score, for any `i32` cutoff and offset.
const SCORE_BOUND: i128 = 0x2_0000_0000;

/// The base that NextSeq instruments report, with high quality, where they
/// saw no signal.
pub const DARK_BASE: u8 = 71;

/// Score of each base for a Mott trim: the cutoff minus the decoded quality.
pub open spec fn quality_scores(quals: Seq<u8>, cutoff: int, phred_base: int) -> Seq<int> {
    Seq::new(quals.len(), |i: int| cutoff - (quals[i] - phred_base))
}

/// Scores for a NextSeq trim: a `G` call counts as quality `cutoff - 1`,
/// whatever its reported quality.
pub open spec fn nextseq_scores(bases: Seq<u8>, quals: Seq<u8>, cutoff: int, phred_base: int) -> Seq<
    int,
> {
    Seq::new(
        quals.len(),
        |i: int|
            cutoff - if bases[i] == DARK_BASE {
                cutoff - 1
            } else {
                quals[i] - phred_base
            },
    )
}

/// Sum of the first `k` scores.
pub open spec fn prefix_sum(sc: Seq<int>, k: int) -> int
    decreases k,
{
    if k <= 0 {
        0
    } else {
        prefix_sum(sc, k - 1) + sc[k - 1]
    }
}

/// Sum of the scores from index `k` to the end.
pub open spec fn suffix_sum(sc: Seq<int>, k: int) -> int
    decreases sc.len() - k,
{
    if k >= sc.len() {
        0
    } else {
        sc[k] + suffix_sum(sc, k + 1)
    }
}

/// The forward scan reaches prefix length `m`: every prefix sum up to `m`
/// is non-negative and the next one, if any, is negative.
pub open spec fn front_reach(sc: Seq<int>, m: int) -> bool {
    &&& 0 <= m <= sc.len()
    &&& forall|j: int| 1 <= j <= m ==> prefix_sum(sc, j) >= 0
    &&& m == sc.len() || prefix_sum(sc, m + 1) < 0
}

/// `k` is the first prefix length within reach `m` with the largest sum.
pub open spec fn is_front_cut(sc: Seq<int>, m: int, k: int) -> bool {
    &&& front_reach(sc, m)
    &&& 0 <= k <= m
    &&& forall|j: int| 0 <= j <= m ==> prefix_sum(sc, j) <= prefix_sum(sc, k)
    &&& forall|j: int| 0 <= j < k ==> prefix_sum(sc, j) < prefix_sum(sc, k)
}

/// The backward scan reaches down to index `lo`: every suffix sum from `lo`
/// on is non-negative and the one before, if any, is negative.
pub open spec fn back_reach(sc: Seq<int>, lo: int) -> bool {
    &&& 0 <= lo <= sc.len()
    &&& forall|j: int| lo <= j < sc.len() ==> suffix_sum(sc, j) >= 0
    &&& lo == 0 || suffix_sum(sc, lo - 1) < 0
}

/// `k` is the last index within reach `lo` with the largest suffix sum.
pub open spec fn is_back_cut(sc: Seq<int>, lo: int, k: int) -> bool {
    &&& back_reach(sc, lo)
    &&& lo <= k <= sc.len()
    &&& forall|j: int| lo <= j <= sc.len() ==> suffix_sum(sc, j) <= suffix_sum(sc, k)
    &&& forall|j: int| k < j <= sc.len() ==> suffix_sum(sc, j) < suffix_sum(sc, k)
}

/// The prefix length that the forward scan reaches.
pub open spec fn front_reach_point(sc: Seq<int>) -> int {
    choose|m: int| front_reach(sc, m)
}

/// The index down to which the backward scan reaches.
pub open spec fn back_reach_point(sc: Seq<int>) -> int {
    choose|lo: int| back_reach(sc, lo)
}

/// Number of bases that a Mott trim removes from the front.
pub open spec fn front_cut(sc: Seq<int>) -> int {
    choose|k: int| is_front_cut(sc, front_reach_point(sc), k)
}

/// Index up to which a Mott trim keeps the bases, trimming from the back.
pub open spec fn back_cut(sc: Seq<int>) -> int {
    choose|k: int| is_back_cut(sc, back_reach_point(sc), k)
}

/// Bounds `[start, stop)` that a quality trim keeps; `(0, 0)` when the
/// trims from both ends meet or cross.
pub open spec fn quality_trim_bounds(quals: Seq<u8>, cutoff_front: int, cutoff_back: int, phred_base: int) -> (int, int) {
    let start = front_cut(quality_scores(quals, cutoff_front, phred_base));
    let stop = back_cut(quality_scores(quals, cutoff_back, phred_base));
    if start < stop {
        (start, stop)
    } else {
        (0, 0)
    }
}

/// Index up to which a NextSeq trim keeps the bases.
pub open spec fn nextseq_trim_stop(bases: Seq<u8>, quals: Seq<u8>, cutoff: int, phred_base: int) -> int {
    back_cut(nextseq_scores(bases, quals, cutoff, phred_base))
}

pub(crate) proof fn lemma_front_cut_unique(sc: Seq<int>, m: int, k: int)
    requires
        is_front_cut(sc, m, k),
    ensures
        front_reach_point(sc) == m,
        front_cut(sc) == k,
{
    let m2 = front_reach_point(sc);
    assert(front_reach(sc, m2));
    if m2 < m {
        assert(prefix_sum(sc, m2 + 1) >= 0);
    } else if m < m2 {
        assert(prefix_sum(sc, m + 1) >= 0);
    }
    let k2 = front_cut(sc);
    assert(is_front_cut(sc, m, k2));
    if k2 < k {
        assert(prefix_sum(sc, k2) < prefix_sum(sc, k));
    } else if k < k2 {
        assert(prefix_sum(sc, k) < prefix_sum(sc, k2));
    }
}

pub(crate) proof fn lemma_back_cut_unique(sc: Seq<int>, lo: int, k: int)
    requires
        is_back_cut(sc, lo, k),
    ensures
        back_reach_point(sc) == lo,
        back_cut(sc) == k,
{
    let lo2 = back_reach_point(sc);
    assert(back_reach(sc, lo2));
    if lo2 < lo {
        assert(suffix_sum(sc, lo - 1) >= 0);
    } else if lo < lo2 {
        assert(suffix_sum(sc, lo2 - 1) >= 0);
    }
    let k2 = back_cut(sc);
    assert(is_back_cut(sc, lo, k2));
    if k2 < k {
        assert(suffix_sum(sc, k2) < suffix_sum(sc, k));
    } else if k < k2 {
        assert(suffix_sum(sc, k) < suffix_sum(sc, k2));
    }
}

/// Forward Mott scan over the quality bytes.
fn front_trim(quals: &[u8], cutoff: i32, phred_base: i32) -> (start: usize)
    ensures
        start == front_cut(quality_scores(quals@, cutoff as int, phred_base as int)),
        start <= quals@.len(),
{
    let ghost sc = quality_scores(quals@, cutoff as int, phred_base as int);
    let n = quals.len();
    let mut s: i128 = 0;
    let mut best: i128 = 0;
    let mut start: usize = 0;
    let mut i: usize = 0;
    let mut going = true;
    while going && i < n
        invariant
            n == quals@.len(),
            sc == quality_scores(quals@, cutoff as int, phred_base as int),
            i <= n,
            start <= i,
            s == prefix_sum(sc, i as int),
            0 <= s <= i * SCORE_BOUND,
            best == prefix_sum(sc, start as int),
            forall|j: int| 1 <= j <= i ==> prefix_sum(sc, j) >= 0,
            forall|j: int| 0 <= j <= i ==> prefix_sum(sc, j) <= best,
            forall|j: int| 0 <= j < start ==> prefix_sum(sc, j) < best,
            !going ==> i < n && prefix_sum(sc, i + 1) < 0,
        decreases n - i + if going { 1int } else { 0int },
    {
        let step: i128 = cutoff as i128 - (quals[i] as i128 - phred_base as i128);
        let next: i128 = s + step;
        if next < 0 {
            going = false;
        } else {
            s = next;
            i = i + 1;
            if s > best {
                best = s;
                start = i;
            }
        }
    }
    proof {
        assert(is_front_cut(sc, i as int, start as int));
        lemma_front_cut_unique(sc, i as int, start as int);
    }
    start
}

/// Backward Mott scan; with `nextseq`, a `G` call counts as quality
/// `cutoff - 1`.
pub(crate) fn back_trim(bases: &[u8], quals: &[u8], cutoff: i32, phred_base: i32, nextseq: bool) -> (stop: usize)
    requires
        quals@.len() <= bases@.len(),
    ensures
        nextseq ==> stop == back_cut(nextseq_scores(bases@, quals@, cutoff as int, phred_base as int)),
        !nextseq ==> stop == back_cut(quality_scores(quals@, cutoff as int, phred_base as int)),
        stop <= quals@.len(),
{
    let ghost sc = if nextseq {
        nextseq_scores(bases@, quals@, cutoff as int, phred_base as int)
    } else {
        quality_scores(quals@, cutoff as int, phred_base as int)
    };
    let n = quals.len();
    let mut s: i128 = 0;
    let mut best: i128 = 0;
    let mut stop: usize = n;
    let mut k: usize = n;
    let mut going = true;
    while going && k > 0
        invariant
            n == quals@.len(),
            quals@.len() <= bases@.len(),
            sc == if nextseq {
                nextseq_scores(bases@, quals@, cutoff as int, phred_base as int)
            } else {
                quality_scores(quals@, cutoff as int, phred_base as int)
            },
            k <= stop <= n,
            s == suffix_sum(sc, k as int),
            0 <= s <= (n - k) * SCORE_BOUND,
            best == suffix_sum(sc, stop as int),
            forall|j: int| k <= j < n ==> suffix_sum(sc, j) >= 0,
            forall|j: int| k <= j <= n ==> suffix_sum(sc, j) <= best,
            forall|j: int| stop < j <= n ==> suffix_sum(sc, j) < best,
            !going ==> k > 0 && suffix_sum(sc, k - 1) < 0,
        decreases k + if going { 1int } else { 0int },
    {
        let idx = k - 1;
        let quality: i128 = if nextseq && bases[idx] == DARK_BASE {
            cutoff as i128 - 1
        } else {
            quals[idx] as i128 - phred_base as i128
        };
        let next: i128 = s + (cutoff as i128 - quality);
        if next < 0 {
            going = false;
        } else {
            s = next;
            k = idx;
            if s > best {
                best = s;
                stop = k;
            }
        }
    }
    proof {
        assert(suffix_sum(sc, n as int) == 0);
        assert(is_back_cut(sc, k as int, stop as int));
        lemma_back_cut_unique(sc, k as int, stop as int);
    }
    stop
}

pub(crate) fn quality_trim_bytes(quals: &[u8], cutoff_front: i32, cutoff_back: i32, phred_base: i32) -> (r: (usize, usize))
    ensures
        (r.0 as int, r.1 as int) == quality_trim_bounds(quals@, cutoff_front as int, cutoff_back as int, phred_base as int),
        r.0 <= r.1 <= quals@.len(),
{
    let start = front_trim(quals, cutoff_front, phred_base);
    let stop = back_trim(quals, quals, cutoff_back, phred_base, false);
    if start >= stop {
        (0, 0)
    } else {
        (start, stop)
    }
}

/// Mott quality trim of a read: returns `(start, stop)`, the bounds of the
/// part to keep, or `(0, 0)` when nothing is kept. The forward scan stops at
/// the first prefix whose score sum turns negative and cuts at the first
/// best sum before it; the backward scan does the same from the end.
pub fn quality_trim_index(qualities: &str, cutoff_front: i32, cutoff_back: i32, base: i32) -> (r: (usize, usize))
    ensures
        (r.0 as int, r.1 as int) == quality_trim_bounds(qualities.spec_bytes(), cutoff_front as int, cutoff_back as int, base as int),
        r.0 <= r.1 <= qualities.spec_bytes().len(),
{
    quality_trim_bytes(qualities.as_bytes(), cutoff_front, cutoff_back, base)
}

/// NextSeq trim: a backward Mott scan in which every `G` call counts as
/// quality `cutoff - 1`. Returns the index up to which the read is kept.
pub fn nextseq_trim_index(sequence: &str, qualities: &str, cutoff: i32, base: i32) -> (r: usize)
    requires
        qualities.spec_bytes().len() <= sequence.spec_bytes().len(),
    ensures
        r == nextseq_trim_stop(sequence.spec_bytes(), qualities.spec_bytes(), cutoff as int, base as int),
        r <= qualities.spec_bytes().len(),
{
    back_trim(sequence.as_bytes(), qualities.as_bytes(), cutoff, base, true)
}

proof fn lemma_back_scan(sc: Seq<int>, k: int, stop: int)
    requires
        0 <= k <= stop <= sc.len(),
        forall|j: int| k <= j < sc.len() ==> suffix_sum(sc, j) >= 0,
        forall|j: int| k <= j <= sc.len() ==> suffix_sum(sc, j) <= suffix_sum(sc, stop),
        forall|j: int| stop < j <= sc.len() ==> suffix_sum(sc, j) < suffix_sum(sc, stop),
    ensures
        is_back_cut(sc, back_reach_point(sc), back_cut(sc)),
    decreases k,
{
    if k == 0 || suffix_sum(sc, k - 1) < 0 {
        assert(is_back_cut(sc, k, stop));
        lemma_back_cut_unique(sc, k, stop);
    } else if suffix_sum(sc, k - 1) > suffix_sum(sc, stop) {
        lemma_back_scan(sc, k - 1, k - 1);
    } else {
        lemma_back_scan(sc, k - 1, stop);
    }
}

proof fn lemma_back_cut_exists(sc: Seq<int>)
    ensures
        is_back_cut(sc, back_reach_point(sc), back_cut(sc)),
{
    assert(suffix_sum(sc, sc.len() as int) == 0);
    lemma_back_scan(sc, sc.len() as int, sc.len() as int);
}

proof fn lemma_dark_run_sums(sc: Seq<int>, g: int, j: int)
    requires
        0 <= sc.len() - g <= j <= sc.len(),
        forall|i: int| sc.len() - g <= i < sc.len() ==> sc[i] == 1,
    ensures
        suffix_sum(sc, j) == sc.len() - j,
    decreases sc.len() - j,
{
    if j < sc.len() {
        lemma_dark_run_sums(sc, g, j + 1);
    }
}

/// A NextSeq trim removes a trailing run of `G` calls, whatever qualities
/// the instrument reported for them.
pub proof fn lemma_nextseq_trims_trailing_g(bases: Seq<u8>, quals: Seq<u8>, cutoff: int, phred_base: int, g: int)
    requires
        quals.len() <= bases.len(),
        0 < g <= quals.len(),
        forall|i: int| quals.len() - g <= i < quals.len() ==> bases[i] == DARK_BASE,
    ensures
        nextseq_trim_stop(bases, quals, cutoff, phred_base) <= quals.len() - g,
{
    let sc = nextseq_scores(bases, quals, cutoff, phred_base);
    let n = sc.len() as int;
    assert forall|i: int| n - g <= i < n implies sc[i] == 1 by {}
    lemma_back_cut_exists(sc);
    let lo = back_reach_point(sc);
    let k = back_cut(sc);
    if lo > n - g {
        lemma_dark_run_sums(sc, g, lo - 1);
    }
    if k > n - g {
        lemma_dark_run_sums(sc, g, k);
        lemma_dark_run_sums(sc, g, n - g);
    }
}

} // verus!
