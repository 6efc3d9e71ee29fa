use vstd::prelude::*;

verus! {

/// The byte that marks a wildcard position in a barcode pattern.
pub const WILDCARD: u8 = 78;

/// Number of positions `i < n` where `pat[i]` is not a wildcard and differs
/// from `seq[offset + i]`.
pub open spec fn mismatch_count(seq: Seq<u8>, pat: Seq<u8>, offset: int, n: int) -> nat
    decreases n,
{
    if n <= 0 {
        0
    } else {
        mismatch_count(seq, pat, offset, n - 1) + if pat[n - 1] != WILDCARD && pat[n - 1]
            != seq[offset + n - 1] {
            1nat
        } else {
            0nat
        }
    }
}

/// `pat` aligns with `seq` at `offset` with at most `max` substitutions.
pub open spec fn matches_at(seq: Seq<u8>, pat: Seq<u8>, offset: int, max: int) -> bool {
    &&& 0 <= offset
    &&& offset + pat.len() <= seq.len()
    &&& mismatch_count(seq, pat, offset, pat.len() as int) <= max
}

pub open spec fn prefix_matches(seq: Seq<u8>, pat: Seq<u8>, max: int) -> bool {
    matches_at(seq, pat, 0, max)
}

pub open spec fn suffix_matches(seq: Seq<u8>, pat: Seq<u8>, max: int) -> bool {
    matches_at(seq, pat, seq.len() - pat.len(), max)
}

proof fn lemma_mismatch_count_monotonic(seq: Seq<u8>, pat: Seq<u8>, offset: int, i: int, n: int)
    requires
        i <= n,
    ensures
        mismatch_count(seq, pat, offset, i) <= mismatch_count(seq, pat, offset, n),
    decreases n - i,
{
    if i < n {
        lemma_mismatch_count_monotonic(seq, pat, offset, i, n - 1);
    }
}

fn match_at(seq: &[u8], bc: &[u8], offset: usize, mismatches: usize) -> (r: bool)
    requires
        offset + bc@.len() <= seq@.len(),
    ensures
        r == (mismatch_count(seq@, bc@, offset as int, bc@.len() as int) <= mismatches),
{
    let slen = seq.len();
    let mut mm: usize = 0;
    let mut i: usize = 0;
    while i < bc.len()
        invariant
            slen == seq@.len(),
            i <= bc@.len(),
            offset + bc@.len() <= seq@.len(),
            mm == mismatch_count(seq@, bc@, offset as int, i as int),
            mm <= mismatches,
            mm <= i,
        decreases bc@.len() - i,
    {
        let b = bc[i];
        let k: usize = offset + i;
        if b != WILDCARD && b != seq[k] {
            mm = mm + 1;
            if mm > mismatches {
                proof {
                    lemma_mismatch_count_monotonic(seq@, bc@, offset as int, i + 1, bc@.len() as int);
                }
                return false;
            }
        }
        i = i + 1;
    }
    true
}

/// Whether `bc` matches the start of `seq` with at most `mismatches`
/// substitutions; a wildcard in `bc` matches any base.
pub fn prefix_match(seq: &[u8], bc: &[u8], mismatches: usize) -> (r: bool)
    ensures
        r == prefix_matches(seq@, bc@, mismatches as int),
{
    if bc.len() > seq.len() {
        return false;
    }
    match_at(seq, bc, 0, mismatches)
}

/// Whether `bc` matches the end of `seq` with at most `mismatches`
/// substitutions; a wildcard in `bc` matches any base.
pub fn suffix_match(seq: &[u8], bc: &[u8], mismatches: usize) -> (r: bool)
    ensures
        r == suffix_matches(seq@, bc@, mismatches as int),
{
    if bc.len() > seq.len() {
        return false;
    }
    let offset = seq.len() - bc.len();
    match_at(seq, bc, offset, mismatches)
}

/// Indices of the wildcard positions of `pat`, in increasing order.
pub open spec fn wildcard_positions(pat: Seq<u8>) -> Seq<int>
    decreases pat.len(),
{
    if pat.len() == 0 {
        Seq::empty()
    } else if pat.last() == WILDCARD {
        wildcard_positions(pat.drop_last()).push(pat.len() - 1)
    } else {
        wildcard_positions(pat.drop_last())
    }
}

/// The bases of `seq` at the wildcard positions of `pat`, with `pat`
/// placed at `offset`.
pub open spec fn umi_at(seq: Seq<u8>, pat: Seq<u8>, offset: int) -> Seq<u8> {
    wildcard_positions(pat).map_values(|p: int| seq[offset + p])
}

/// The UMI of `seq` read through `pat` aligned with the end of `seq`.
pub open spec fn suffix_umi(seq: Seq<u8>, pat: Seq<u8>) -> Seq<u8> {
    umi_at(seq, pat, seq.len() - pat.len())
}

/// Collects the bases of `seq` that stand under the wildcards of `bc` when
/// `bc` is aligned with the end of `seq`. `None` when `bc` is longer than
/// `seq`; an empty UMI when `bc` has no wildcard.
pub fn extract_umi_from_suffix(seq: &[u8], bc: &[u8]) -> (r: Option<Vec<u8>>)
    ensures
        bc@.len() > seq@.len() ==> r is None,
        bc@.len() <= seq@.len() ==> (r matches Some(u) && u@ == suffix_umi(seq@, bc@)),
{
    if bc.len() > seq.len() {
        return None;
    }
    let slen = seq.len();
    let offset = slen - bc.len();
    let mut umi: Vec<u8> = Vec::new();
    let mut i: usize = 0;
    while i < bc.len()
        invariant
            slen == seq@.len(),
            i <= bc@.len(),
            offset + bc@.len() == seq@.len(),
            umi@ == umi_at(seq@, bc@.subrange(0, i as int), offset as int),
        decreases bc@.len() - i,
    {
        let ghost prev = bc@.subrange(0, i as int);
        let ghost next = bc@.subrange(0, i + 1);
        assert(next.drop_last() =~= prev);
        if bc[i] == WILDCARD {
            umi.push(seq[offset + i]);
            assert(umi@ =~= umi_at(seq@, next, offset as int));
        } else {
            assert(umi@ =~= umi_at(seq@, next, offset as int));
        }
        i = i + 1;
    }
    assert(bc@.subrange(0, bc@.len() as int) =~= bc@);
    Some(umi)
}

proof fn lemma_exact_prefix_count(seq: Seq<u8>, pat: Seq<u8>, n: int)
    requires
        0 <= n <= pat.len(),
        pat.len() <= seq.len(),
        forall|i: int| 0 <= i < pat.len() ==> pat[i] == seq[i],
    ensures
        mismatch_count(seq, pat, 0, n) == 0,
    decreases n,
{
    if n > 0 {
        lemma_exact_prefix_count(seq, pat, n - 1);
    }
}

proof fn lemma_one_flip_count(seq: Seq<u8>, pat: Seq<u8>, k: int, c: u8, n: int)
    requires
        0 <= n <= pat.len(),
        pat.len() <= seq.len(),
        0 <= k < pat.len(),
        c != pat[k],
        c != WILDCARD,
        forall|i: int| 0 <= i < pat.len() ==> pat[i] == seq[i],
    ensures
        mismatch_count(seq, pat.update(k, c), 0, n) == if k < n { 1nat } else { 0nat },
    decreases n,
{
    if n > 0 {
        lemma_one_flip_count(seq, pat, k, c, n - 1);
    }
}

/// A wildcard-free pattern that is a prefix of a sequence matches it
/// exactly; changing one of its bases to another non-wildcard base makes it
/// fail at tolerance zero and match at any tolerance of one or more.
pub proof fn lemma_prefix_match_single_flip(seq: Seq<u8>, pat: Seq<u8>)
    requires
        pat.len() <= seq.len(),
        pat =~= seq.subrange(0, pat.len() as int),
        forall|i: int| 0 <= i < pat.len() ==> pat[i] != WILDCARD,
    ensures
        prefix_matches(seq, pat, 0),
        forall|k: int, c: u8|
            0 <= k < pat.len() && c != pat[k] && c != WILDCARD ==> {
                &&& !prefix_matches(seq, #[trigger] pat.update(k, c), 0)
                &&& forall|t: int| t >= 1 ==> prefix_matches(seq, pat.update(k, c), t)
            },
{
    assert forall|i: int| 0 <= i < pat.len() implies pat[i] == seq[i] by {
        assert(pat[i] == seq.subrange(0, pat.len() as int)[i]);
    }
    lemma_exact_prefix_count(seq, pat, pat.len() as int);
    assert forall|k: int, c: u8|
        0 <= k < pat.len() && c != pat[k] && c != WILDCARD implies {
            &&& !prefix_matches(seq, #[trigger] pat.update(k, c), 0)
            &&& forall|t: int| t >= 1 ==> prefix_matches(seq, pat.update(k, c), t)
        } by {
        lemma_one_flip_count(seq, pat, k, c, pat.len() as int);
    }
}

/// No pattern longer than the sequence matches it, at either end, whatever
/// the tolerance.
pub proof fn lemma_long_pattern_never_matches(seq: Seq<u8>, pat: Seq<u8>, max: int)
    requires
        pat.len() > seq.len(),
    ensures
        !prefix_matches(seq, pat, max),
        !suffix_matches(seq, pat, max),
{
}

/// Whether a pattern byte is a wildcard.
pub open spec fn is_wildcard(b: u8) -> bool {
    b == WILDCARD
}

proof fn lemma_wildcard_positions(pat: Seq<u8>)
    ensures
        wildcard_positions(pat).len() == pat.filter(|b: u8| is_wildcard(b)).len(),
        forall|k: int|
            0 <= k < wildcard_positions(pat).len() ==> {
                &&& 0 <= #[trigger] wildcard_positions(pat)[k] < pat.len()
                &&& pat[wildcard_positions(pat)[k]] == WILDCARD
            },
        forall|k: int, l: int|
            0 <= k < l < wildcard_positions(pat).len() ==> wildcard_positions(pat)[k]
                < wildcard_positions(pat)[l],
        forall|i: int|
            0 <= i < pat.len() && pat[i] == WILDCARD ==> wildcard_positions(pat).contains(i),
    decreases pat.len(),
{
    reveal(Seq::filter);
    if pat.len() > 0 {
        let prev = pat.drop_last();
        lemma_wildcard_positions(prev);
        assert forall|i: int| 0 <= i < pat.len() && pat[i] == WILDCARD implies wildcard_positions(
            pat,
        ).contains(i) by {
            if i < pat.len() - 1 {
                assert(prev[i] == WILDCARD);
                let j = choose|j: int|
                    0 <= j < wildcard_positions(prev).len() && wildcard_positions(prev)[j] == i;
                assert(wildcard_positions(pat)[j] == i);
            } else {
                assert(wildcard_positions(pat).last() == i);
            }
        }
    }
}

/// A UMI read through a suffix-anchored pattern has one base per wildcard of
/// the pattern, and its `k`-th base is the base of the sequence under the
/// pattern's `k`-th wildcard.
pub proof fn lemma_suffix_umi_shape(seq: Seq<u8>, pat: Seq<u8>)
    requires
        pat.len() <= seq.len(),
    ensures
        suffix_umi(seq, pat).len() == pat.filter(|b: u8| is_wildcard(b)).len(),
        forall|k: int|
            0 <= k < suffix_umi(seq, pat).len() ==> {
                let p = #[trigger] wildcard_positions(pat)[k];
                &&& 0 <= p < pat.len()
                &&& pat[p] == WILDCARD
                &&& suffix_umi(seq, pat)[k] == seq[seq.len() - pat.len() + p]
            },
{
    lemma_wildcard_positions(pat);
}

} // verus!
