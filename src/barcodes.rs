use vstd::prelude::*;
use crate::align::WILDCARD;
use crate::fields::{
    combo_key, count_fixed, field_head, fixed_count, head_of, make_combo_key, text_head,
    text_head_of, text_label, text_label_of, to_upper, upper_of,
};
use vstd::string::StrSliceExecFns;
use vstd::utf8::encode_utf8;
use crate::order::{bytes_eq, insert_sorted, strictly_sorted};

verus! {

/// A 5′ barcode and the 3′ barcodes linked to it, in match-priority order.
pub struct Link {
    pub five: Vec<u8>,
    pub threes: Vec<Vec<u8>>,
}

/// A sample label registered for a barcode combination key.
pub struct SampleName {
    pub key: Vec<u8>,
    pub name: Vec<u8>,
}

/// Why a barcode table was rejected.
#[derive(Debug, Clone, Copy, PartialEq, Eq, Structural)]
pub enum BarcodeError {
    /// Two 5′ barcodes differ in length once their wildcards are removed.
    FiveLengthMismatch,
    /// Two 3′ barcodes carry their wildcards at different positions.
    UmiPositionMismatch,
}

/// The barcode library: 5′ and 3′ barcodes, their linkage, sample names and
/// the 3′ mismatch tolerance.
pub struct BarcodeSet {
    /// The 5′ barcodes, sorted, without repeats; the first that matches wins.
    pub five_prime: Vec<Vec<u8>>,
    /// The 3′ barcodes, sorted, without repeats.
    pub three_prime: Vec<Vec<u8>>,
    /// One link per 5′ barcode; links are tried in this order, that of first
    /// appearance in the table.
    pub linked: Vec<Link>,
    /// Sample labels by combination key.
    pub sample_names: Vec<SampleName>,
    /// Substitutions allowed when matching a 3′ barcode.
    pub three_p_mismatches: usize,
}

/// The map that a list of entries denotes; a later entry for a key wins.
pub open spec fn as_map<V>(e: Seq<(Seq<u8>, V)>) -> Map<Seq<u8>, V>
    decreases e.len(),
{
    if e.len() == 0 {
        Map::empty()
    } else {
        as_map(e.drop_last()).insert(e.last().0, e.last().1)
    }
}

/// No two entries share a key.
pub open spec fn keys_unique<V>(e: Seq<(Seq<u8>, V)>) -> bool {
    forall|i: int, j: int| 0 <= i < j < e.len() ==> e[i].0 != e[j].0
}

pub open spec fn links_view(v: Seq<Link>) -> Seq<(Seq<u8>, Seq<Seq<u8>>)> {
    Seq::new(v.len(), |i: int| (v[i].five@, v[i].threes.deep_view()))
}

pub open spec fn samples_view(v: Seq<SampleName>) -> Seq<(Seq<u8>, Seq<u8>)> {
    Seq::new(v.len(), |i: int| (v[i].key@, v[i].name@))
}

impl BarcodeSet {
    pub open spec fn links(&self) -> Seq<(Seq<u8>, Seq<Seq<u8>>)> {
        links_view(self.linked@)
    }

    pub open spec fn samples(&self) -> Seq<(Seq<u8>, Seq<u8>)> {
        samples_view(self.sample_names@)
    }

    /// Barcode lists sorted without repeats; one link per 5′ barcode and one
    /// label per combination key.
    pub open spec fn wf(&self) -> bool {
        &&& strictly_sorted(self.five_prime.deep_view())
        &&& strictly_sorted(self.three_prime.deep_view())
        &&& keys_unique(self.links())
        &&& keys_unique(self.samples())
    }
}

// The barcode table, row by row, each field a text. A row is kept when its
// first field, upper-cased, is not empty.
pub open spec fn row_kept(row: Seq<Seq<char>>) -> bool {
    row.len() > 0 && upper_of(row[0]).len() > 0
}

/// The 5′ barcode of a row: its first field, upper-cased, up to the first
/// separator.
pub open spec fn row_five(row: Seq<Seq<char>>) -> Seq<u8> {
    field_head(upper_of(row[0]))
}

/// The 3′ barcode of a field: the part before the separator, upper-cased.
pub open spec fn three_of(field: Seq<char>) -> Seq<u8> {
    upper_of(text_head(field))
}

/// The sample label of a field: the part between its first and second
/// separators, as UTF-8 bytes.
pub open spec fn label_bytes(field: Seq<char>) -> Seq<u8> {
    encode_utf8(text_label(field))
}

/// The 3′ barcodes of the non-empty fields `1..n` of a row, in order.
pub open spec fn row_threes_upto(row: Seq<Seq<char>>, n: int) -> Seq<Seq<u8>>
    decreases n,
{
    if n <= 1 {
        Seq::empty()
    } else if row[n - 1].len() > 0 {
        row_threes_upto(row, n - 1).push(three_of(row[n - 1]))
    } else {
        row_threes_upto(row, n - 1)
    }
}

pub open spec fn row_threes(row: Seq<Seq<char>>) -> Seq<Seq<u8>> {
    row_threes_upto(row, row.len() as int)
}

/// The 5′ barcodes of the kept rows among the first `n`.
pub open spec fn five_set_upto(rows: Seq<Seq<Seq<char>>>, n: int) -> Set<Seq<u8>>
    decreases n,
{
    if n <= 0 {
        Set::empty()
    } else if row_kept(rows[n - 1]) {
        five_set_upto(rows, n - 1).insert(row_five(rows[n - 1]))
    } else {
        five_set_upto(rows, n - 1)
    }
}

/// The 3′ barcodes of the kept rows among the first `n`.
pub open spec fn three_set_upto(rows: Seq<Seq<Seq<char>>>, n: int) -> Set<Seq<u8>>
    decreases n,
{
    if n <= 0 {
        Set::empty()
    } else if row_kept(rows[n - 1]) {
        three_set_upto(rows, n - 1).union(row_threes(rows[n - 1]).to_set())
    } else {
        three_set_upto(rows, n - 1)
    }
}

/// The linkage after the first `n` rows: each kept row with 3′ barcodes
/// links its 5′ barcode to them, a later row replacing an earlier one.
pub open spec fn links_upto(rows: Seq<Seq<Seq<char>>>, n: int) -> Map<Seq<u8>, Seq<Seq<u8>>>
    decreases n,
{
    if n <= 0 {
        Map::empty()
    } else if row_kept(rows[n - 1]) && row_threes(rows[n - 1]).len() > 0 {
        links_upto(rows, n - 1).insert(row_five(rows[n - 1]), row_threes(rows[n - 1]))
    } else {
        links_upto(rows, n - 1)
    }
}

/// The 5′ barcodes of the links after the first `n` rows, in the order in
/// which they first got 3′ barcodes.
pub open spec fn link_order_upto(rows: Seq<Seq<Seq<char>>>, n: int) -> Seq<Seq<u8>>
    decreases n,
{
    if n <= 0 {
        Seq::empty()
    } else {
        let prev = link_order_upto(rows, n - 1);
        if row_kept(rows[n - 1]) && row_threes(rows[n - 1]).len() > 0 && !prev.contains(
            row_five(rows[n - 1]),
        ) {
            prev.push(row_five(rows[n - 1]))
        } else {
            prev
        }
    }
}

pub open spec fn link_keys(e: Seq<(Seq<u8>, Seq<Seq<u8>>)>) -> Seq<Seq<u8>> {
    e.map_values(|p: (Seq<u8>, Seq<Seq<u8>>)| p.0)
}

/// The labels that fields `1..n` of a row add to `m`.
pub open spec fn row_samples_upto(m: Map<Seq<u8>, Seq<u8>>, five: Seq<u8>, row: Seq<Seq<char>>, n: int) -> Map<Seq<u8>, Seq<u8>>
    decreases n,
{
    if n <= 1 {
        m
    } else {
        let prev = row_samples_upto(m, five, row, n - 1);
        let f = row[n - 1];
        if f.len() > 0 && label_bytes(f).len() > 0 {
            prev.insert(combo_key(five, three_of(f)), label_bytes(f))
        } else {
            prev
        }
    }
}

/// The sample labels after the first `n` rows, keyed by combination key.
pub open spec fn samples_upto(rows: Seq<Seq<Seq<char>>>, n: int) -> Map<Seq<u8>, Seq<u8>>
    decreases n,
{
    if n <= 0 {
        Map::empty()
    } else if row_kept(rows[n - 1]) {
        row_samples_upto(samples_upto(rows, n - 1), row_five(rows[n - 1]), rows[n - 1], rows[n - 1].len() as int)
    } else {
        samples_upto(rows, n - 1)
    }
}

/// All kept rows have 5′ barcodes of one length, wildcards not counted.
pub open spec fn fives_consistent(rows: Seq<Seq<Seq<char>>>) -> bool {
    forall|i: int, j: int|
        0 <= i < rows.len() && 0 <= j < rows.len() && row_kept(rows[i]) && row_kept(rows[j])
            ==> fixed_count(row_five(rows[i])) == fixed_count(row_five(rows[j]))
}

proof fn lemma_as_map_update<V>(e: Seq<(Seq<u8>, V)>, i: int, v: V)
    requires
        keys_unique(e),
        0 <= i < e.len(),
    ensures
        as_map(e.update(i, (e[i].0, v))) == as_map(e).insert(e[i].0, v),
    decreases e.len(),
{
    let u = e.update(i, (e[i].0, v));
    if i == e.len() - 1 {
        assert(u.drop_last() =~= e.drop_last());
        assert(as_map(u) =~= as_map(e).insert(e[i].0, v));
    } else {
        assert(u.drop_last() =~= e.drop_last().update(i, (e[i].0, v)));
        lemma_as_map_update(e.drop_last(), i, v);
        assert(as_map(u) =~= as_map(e).insert(e[i].0, v));
    }
}

/// A copy of `s`.
pub fn copy_bytes(s: &[u8]) -> (r: Vec<u8>)
    ensures
        r@ == s@,
{
    let mut r: Vec<u8> = Vec::new();
    let mut i: usize = 0;
    while i < s.len()
        invariant
            i <= s@.len(),
            r@ =~= s@.subrange(0, i as int),
        decreases s@.len() - i,
    {
        r.push(s[i]);
        i = i + 1;
        assert(r@ =~= s@.subrange(0, i as int));
    }
    assert(s@.subrange(0, s@.len() as int) =~= s@);
    r
}

/// Links `five` to `threes`, replacing an earlier link of `five`.
fn upsert_link(links: &mut Vec<Link>, five: Vec<u8>, threes: Vec<Vec<u8>>)
    requires
        keys_unique(links_view(old(links)@)),
    ensures
        keys_unique(links_view(final(links)@)),
        as_map(links_view(final(links)@)) == as_map(links_view(old(links)@)).insert(five@, threes.deep_view()),
        link_keys(links_view(final(links)@)) == if link_keys(links_view(old(links)@)).contains(five@) {
            link_keys(links_view(old(links)@))
        } else {
            link_keys(links_view(old(links)@)).push(five@)
        },
{
    let ghost e = links_view(links@);
    let ghost kv = (five@, threes.deep_view());
    let mut i: usize = 0;
    while i < links.len() && !bytes_eq(links[i].five.as_slice(), five.as_slice())
        invariant
            links_view(links@) == e,
            i <= links@.len(),
            forall|j: int| 0 <= j < i ==> (#[trigger] e[j]).0 != five@,
        decreases links@.len() - i,
    {
        i = i + 1;
    }
    if i < links.len() {
        proof {
            lemma_as_map_update(e, i as int, kv.1);
        }
        links.set(i, Link { five, threes });
        assert(links_view(links@) =~= e.update(i as int, (e[i as int].0, kv.1)));
        assert(link_keys(e).contains(kv.0)) by {
            assert(link_keys(e)[i as int] == kv.0);
        }
        assert(link_keys(links_view(links@)) =~= link_keys(e));
    } else {
        links.push(Link { five, threes });
        assert(links_view(links@).drop_last() =~= e);
        assert(links_view(links@) =~= e.push(kv));
        assert(!link_keys(e).contains(kv.0));
        assert(link_keys(links_view(links@)) =~= link_keys(e).push(kv.0));
    }
}

/// Registers `name` under `key`, replacing an earlier label of `key`.
fn upsert_sample(samples: &mut Vec<SampleName>, key: Vec<u8>, name: Vec<u8>)
    requires
        keys_unique(samples_view(old(samples)@)),
    ensures
        keys_unique(samples_view(final(samples)@)),
        as_map(samples_view(final(samples)@)) == as_map(samples_view(old(samples)@)).insert(key@, name@),
{
    let ghost e = samples_view(samples@);
    let ghost kv = (key@, name@);
    let mut i: usize = 0;
    while i < samples.len() && !bytes_eq(samples[i].key.as_slice(), key.as_slice())
        invariant
            samples_view(samples@) == e,
            i <= samples@.len(),
            forall|j: int| 0 <= j < i ==> (#[trigger] e[j]).0 != key@,
        decreases samples@.len() - i,
    {
        i = i + 1;
    }
    if i < samples.len() {
        proof {
            lemma_as_map_update(e, i as int, kv.1);
        }
        samples.set(i, SampleName { key, name });
        assert(samples_view(samples@) =~= e.update(i as int, (e[i as int].0, kv.1)));
    } else {
        samples.push(SampleName { key, name });
        assert(samples_view(samples@).drop_last() =~= e);
        assert(samples_view(samples@) =~= e.push(kv));
    }
}

/// With unique keys, each entry is what the map holds for its key.
pub proof fn lemma_as_map_index<V>(e: Seq<(Seq<u8>, V)>, i: int)
    requires
        keys_unique(e),
        0 <= i < e.len(),
    ensures
        as_map(e).contains_key(e[i].0),
        as_map(e)[e[i].0] == e[i].1,
    decreases e.len(),
{
    if i < e.len() - 1 {
        lemma_as_map_index(e.drop_last(), i);
    }
}

/// A key that no entry has is not in the map.
pub proof fn lemma_as_map_absent<V>(e: Seq<(Seq<u8>, V)>, k: Seq<u8>)
    requires
        forall|i: int| 0 <= i < e.len() ==> (#[trigger] e[i]).0 != k,
    ensures
        !as_map(e).contains_key(k),
    decreases e.len(),
{
    if e.len() > 0 {
        lemma_as_map_absent(e.drop_last(), k);
    }
}

proof fn lemma_bytes_deep_view(v: Vec<u8>)
    ensures
        v.deep_view() == v@,
{
    assert(v.deep_view() =~= v@);
}

impl BarcodeSet {
    /// Builds the library from the rows of a barcode table. A row whose
    /// first field is empty is skipped. The first field holds a 5′ barcode,
    /// optionally followed by a separator and text that is ignored; every
    /// further non-empty field holds a 3′ barcode, optionally followed by a
    /// separator and a sample label for that combination. Barcodes are
    /// upper-cased. Links are kept in the order in which their 5′ barcodes
    /// first got 3′ barcodes; a later row replaces a link's 3′ barcodes.
    /// Fails when two 5′ barcodes differ in length once their wildcards are
    /// removed.
    pub fn from_rows(rows: &Vec<Vec<String>>, three_p_mismatches: usize) -> (r: Result<BarcodeSet, BarcodeError>)
        ensures
            r is Err <==> !fives_consistent(rows.deep_view()),
            r matches Err(e) ==> e == BarcodeError::FiveLengthMismatch,
            r matches Ok(set) ==> {
                &&& set.wf()
                &&& set.five_prime.deep_view().to_set() == five_set_upto(rows.deep_view(), rows@.len() as int)
                &&& set.three_prime.deep_view().to_set() == three_set_upto(rows.deep_view(), rows@.len() as int)
                &&& as_map(set.links()) == links_upto(rows.deep_view(), rows@.len() as int)
                &&& link_keys(set.links()) == link_order_upto(rows.deep_view(), rows@.len() as int)
                &&& as_map(set.samples()) == samples_upto(rows.deep_view(), rows@.len() as int)
                &&& set.three_p_mismatches == three_p_mismatches
            },
    {
        let ghost d = rows.deep_view();
        let mut five_prime: Vec<Vec<u8>> = Vec::new();
        let mut three_prime: Vec<Vec<u8>> = Vec::new();
        let mut linked: Vec<Link> = Vec::new();
        let mut sample_names: Vec<SampleName> = Vec::new();
        let mut have_first = false;
        let mut first_count: usize = 0;
        let ghost mut first_row: int = 0;
        assert(five_prime.deep_view().to_set() =~= Set::empty());
        assert(three_prime.deep_view().to_set() =~= Set::empty());
        assert(as_map(links_view(linked@)) =~= Map::empty());
        assert(link_keys(links_view(linked@)) =~= Seq::empty());
        assert(as_map(samples_view(sample_names@)) =~= Map::empty());
        let mut ri: usize = 0;
        while ri < rows.len()
            invariant
                d == rows.deep_view(),
                ri <= rows@.len(),
                strictly_sorted(five_prime.deep_view()),
                strictly_sorted(three_prime.deep_view()),
                keys_unique(links_view(linked@)),
                keys_unique(samples_view(sample_names@)),
                five_prime.deep_view().to_set() == five_set_upto(d, ri as int),
                three_prime.deep_view().to_set() == three_set_upto(d, ri as int),
                as_map(links_view(linked@)) == links_upto(d, ri as int),
                link_keys(links_view(linked@)) == link_order_upto(d, ri as int),
                as_map(samples_view(sample_names@)) == samples_upto(d, ri as int),
                have_first ==> 0 <= first_row < ri && row_kept(d[first_row]) && fixed_count(
                    row_five(d[first_row]),
                ) == first_count,
                !have_first ==> forall|j: int| 0 <= j < ri ==> !row_kept(#[trigger] d[j]),
                have_first ==> forall|j: int|
                    0 <= j < ri && row_kept(#[trigger] d[j]) ==> fixed_count(row_five(d[j]))
                        == first_count,
            decreases rows@.len() - ri,
        {
            let row = &rows[ri];
            let ghost dr = d[ri as int];
            assert(dr == row.deep_view());
            let upper_first: Vec<u8> = if row.len() > 0 {
                to_upper(row[0].as_str())
            } else {
                Vec::new()
            };
            if upper_first.len() > 0 {
                let five = head_of(upper_first.as_slice());
                let c = count_fixed(five.as_slice());
                if have_first && c != first_count {
                    assert(!fives_consistent(d)) by {
                        assert(row_kept(d[ri as int]));
                    }
                    return Err(BarcodeError::FiveLengthMismatch);
                }
                if !have_first {
                    have_first = true;
                    first_count = c;
                    proof {
                        first_row = ri as int;
                    }
                }
                insert_sorted(&mut five_prime, copy_bytes(five.as_slice()));
                let ghost samples_before = samples_upto(d, ri as int);
                let ghost threes_before = three_set_upto(d, ri as int);
                let mut threes: Vec<Vec<u8>> = Vec::new();
                assert(threes.deep_view() =~= row_threes_upto(dr, 1));
                assert(threes_before.union(row_threes_upto(dr, 1).to_set()) =~= threes_before);
                let mut k: usize = 1;
                while k < row.len()
                    invariant
                        dr == row.deep_view(),
                        1 <= k <= row@.len(),
                        five@ == row_five(dr),
                        threes.deep_view() == row_threes_upto(dr, k as int),
                        strictly_sorted(three_prime.deep_view()),
                        three_prime.deep_view().to_set() == threes_before.union(
                            row_threes_upto(dr, k as int).to_set(),
                        ),
                        keys_unique(samples_view(sample_names@)),
                        as_map(samples_view(sample_names@)) == row_samples_upto(
                            samples_before,
                            five@,
                            dr,
                            k as int,
                        ),
                    decreases row@.len() - k,
                {
                    let f = row[k].as_str();
                    if f.unicode_len() > 0 {
                        let bc = to_upper(text_head_of(f));
                        insert_sorted(&mut three_prime, copy_bytes(bc.as_slice()));
                        let label = text_label_of(f);
                        if label.len() > 0 {
                            let key = make_combo_key(five.as_slice(), bc.as_slice());
                            upsert_sample(&mut sample_names, key, label);
                        }
                        let ghost before = threes.deep_view();
                        let ghost bcv = bc@;
                        let ghost old_threes = threes@;
                        proof {
                            lemma_bytes_deep_view(bc);
                        }
                        threes.push(bc);
                        proof {
                            assert forall|j: int| 0 <= j < threes@.len() implies threes.deep_view()[j]
                                == before.push(bcv)[j] by {
                                if j < old_threes.len() {
                                    assert(threes@[j] == old_threes[j]);
                                }
                            }
                            assert(threes.deep_view() =~= before.push(bcv));
                            before.lemma_push_to_set_commute(bcv);
                            assert(three_prime.deep_view().to_set() =~= threes_before.union(
                                before.push(bcv).to_set(),
                            ));
                        }
                    }
                    k = k + 1;
                }
                if threes.len() > 0 {
                    upsert_link(&mut linked, copy_bytes(five.as_slice()), threes);
                }
            }
            ri = ri + 1;
        }
        proof {
            assert(fives_consistent(d));
        }
        Ok(BarcodeSet { five_prime, three_prime, linked, sample_names, three_p_mismatches })
    }
}

/// The complementary base: `A`↔`T`, `C`↔`G`, anything else `N`.
pub open spec fn complement(b: u8) -> u8 {
    if b == 65 {
        84
    } else if b == 84 {
        65
    } else if b == 67 {
        71
    } else if b == 71 {
        67
    } else {
        WILDCARD
    }
}

pub open spec fn reverse_complement(s: Seq<u8>) -> Seq<u8> {
    Seq::new(s.len(), |i: int| complement(s[s.len() - 1 - i]))
}

/// Reverse complement of a base sequence.
pub fn rev_comp(seq: &[u8]) -> (r: Vec<u8>)
    ensures
        r@ == reverse_complement(seq@),
{
    let n = seq.len();
    let mut out: Vec<u8> = Vec::new();
    let mut i: usize = 0;
    while i < n
        invariant
            n == seq@.len(),
            i <= n,
            out@.len() == i,
            forall|j: int| 0 <= j < i ==> out@[j] == complement(seq@[n - 1 - j]),
        decreases n - i,
    {
        let b = seq[n - 1 - i];
        let c: u8 = if b == 65 {
            84
        } else if b == 84 {
            65
        } else if b == 67 {
            71
        } else if b == 71 {
            67
        } else {
            WILDCARD
        };
        out.push(c);
        i = i + 1;
    }
    assert(out@ =~= reverse_complement(seq@));
    out
}

/// Position `k` of `b` holds a wildcard.
pub open spec fn wild_at(b: Seq<u8>, k: int) -> bool {
    0 <= k < b.len() && b[k] == WILDCARD
}

/// `a` and `b` hold wildcards at the same positions.
pub open spec fn same_wildcard_positions(a: Seq<u8>, b: Seq<u8>) -> bool {
    forall|k: int| #[trigger] wild_at(a, k) == wild_at(b, k)
}

fn same_positions(a: &[u8], b: &[u8]) -> (r: bool)
    ensures
        r == same_wildcard_positions(a@, b@),
{
    let n = if a.len() > b.len() {
        a.len()
    } else {
        b.len()
    };
    let mut k: usize = 0;
    while k < n
        invariant
            k <= n,
            n >= a@.len(),
            n >= b@.len(),
            forall|j: int| 0 <= j < k ==> #[trigger] wild_at(a@, j) == wild_at(b@, j),
        decreases n - k,
    {
        let wa = k < a.len() && a[k] == WILDCARD;
        let wb = k < b.len() && b[k] == WILDCARD;
        if wa != wb {
            assert(wild_at(a@, k as int) != wild_at(b@, k as int));
            return false;
        }
        k = k + 1;
    }
    assert forall|j: int| #[trigger] wild_at(a@, j) == wild_at(b@, j) by {
        if j < 0 || j >= n {
        }
    }
    true
}

/// Checks that all 3′ barcodes carry their wildcards (UMI positions) at
/// the same places.
pub fn check_n_position(bcds: &[Vec<u8>]) -> (r: Result<(), BarcodeError>)
    ensures
        r is Ok <==> forall|i: int|
            0 <= i < bcds@.len() ==> same_wildcard_positions(bcds@[0]@, #[trigger] bcds@[i]@),
        r matches Err(e) ==> e == BarcodeError::UmiPositionMismatch,
{
    if bcds.len() == 0 {
        return Ok(());
    }
    let mut i: usize = 0;
    while i < bcds.len()
        invariant
            0 < bcds@.len(),
            i <= bcds@.len(),
            forall|j: int| 0 <= j < i ==> same_wildcard_positions(bcds@[0]@, #[trigger] bcds@[j]@),
        decreases bcds@.len() - i,
    {
        if !same_positions(bcds[0].as_slice(), bcds[i].as_slice()) {
            return Err(BarcodeError::UmiPositionMismatch);
        }
        i = i + 1;
    }
    Ok(())
}

} // verus!
