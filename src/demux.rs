use vstd::prelude::*;
use crate::align::{
    extract_umi_from_suffix, mismatch_count, prefix_match, prefix_matches, suffix_match,
    suffix_matches, suffix_umi, wildcard_positions, WILDCARD,
};
use crate::barcodes::{
    as_map, copy_bytes, keys_unique, lemma_as_map_absent, lemma_as_map_index, rev_comp,
    reverse_complement, BarcodeSet,
};
use crate::fields::{combo_key, copy_range, make_combo_key};
use crate::order::bytes_eq;
use crate::trim::{
    back_trim, is_back_cut, is_front_cut, lemma_back_cut_unique, lemma_front_cut_unique,
    nextseq_trim_stop, prefix_sum, quality_scores, quality_trim_bounds, quality_trim_bytes,
    suffix_sum,
};

verus! {

/// The ASCII offset of Phred quality bytes.
pub const PHRED_OFFSET: i32 = 33;

/// How reads are trimmed and matched.
pub struct ClassifyOptions {
    /// Trim with the NextSeq rule instead of the two-ended quality trim.
    pub nextseq: bool,
    /// Match linked 5′/3′ barcode pairs instead of 5′ barcodes alone.
    pub three_prime_only: bool,
    /// Leave a matched 3′ barcode in the read.
    pub keep_barcode: bool,
    /// Drop unmatched reads instead of routing them to the default sink.
    pub ignore_no_match: bool,
    /// Phred quality cutoff for trimming.
    pub phred_quality: i32,
}

/// Where a classified read goes.
pub enum Route {
    /// The default sink for unmatched reads.
    NoMatch,
    /// Nowhere: the read is dropped.
    Skip,
    /// The sink of this routing key.
    Key(Vec<u8>),
}

pub ghost enum RouteView {
    NoMatch,
    Skip,
    Key(Seq<u8>),
}

impl View for Route {
    type V = RouteView;

    open spec fn view(&self) -> RouteView {
        match self {
            Route::NoMatch => RouteView::NoMatch,
            Route::Skip => RouteView::Skip,
            Route::Key(k) => RouteView::Key(k@),
        }
    }
}

/// A read after trimming and barcode matching.
pub struct Classified {
    pub route: Route,
    pub head: Vec<u8>,
    pub seq: Vec<u8>,
    pub qual: Vec<u8>,
}

/// The bounds of the part of a read that trimming keeps.
pub open spec fn read_bounds(seq: Seq<u8>, qual: Seq<u8>, nextseq: bool, cutoff: int) -> (int, int) {
    if nextseq {
        (0, nextseq_trim_stop(seq, qual, cutoff, PHRED_OFFSET as int))
    } else {
        quality_trim_bounds(qual, cutoff, cutoff, PHRED_OFFSET as int)
    }
}

/// The first barcode at index `i` or later that matches the start of `s`
/// exactly (wildcards aside).
pub open spec fn first_five_from(fps: Seq<Seq<u8>>, s: Seq<u8>, i: int) -> Option<int>
    decreases fps.len() - i,
{
    if i < 0 || i >= fps.len() {
        None
    } else if prefix_matches(s, fps[i], 0) {
        Some(i)
    } else {
        first_five_from(fps, s, i + 1)
    }
}

/// The first 3′ barcode at index `t` or later that matches the end of `s`
/// within `mm` mismatches.
pub open spec fn first_three_from(threes: Seq<Seq<u8>>, s: Seq<u8>, mm: int, t: int) -> Option<int>
    decreases threes.len() - t,
{
    if t < 0 || t >= threes.len() {
        None
    } else if suffix_matches(s, threes[t], mm) {
        Some(t)
    } else {
        first_three_from(threes, s, mm, t + 1)
    }
}

/// The first link at index `e` or later whose reverse-complemented 5′
/// barcode starts `s` exactly and one of whose 3′ barcodes ends it: the
/// link's index and the first such 3′ barcode's index.
pub open spec fn first_link_from(links: Seq<(Seq<u8>, Seq<Seq<u8>>)>, s: Seq<u8>, mm: int, e: int) -> Option<(int, int)>
    decreases links.len() - e,
{
    if e < 0 || e >= links.len() {
        None
    } else if prefix_matches(s, reverse_complement(links[e].0), 0) && first_three_from(links[e].1, s, mm, 0) is Some {
        Some((e, first_three_from(links[e].1, s, mm, 0)->Some_0))
    } else {
        first_link_from(links, s, mm, e + 1)
    }
}

/// The routing key of a 5′/3′ combination: its sample label if one is
/// registered, else the combination key.
pub open spec fn combo_route(lib: BarcodeSet, five: Seq<u8>, three: Seq<u8>) -> Seq<u8> {
    let key = combo_key(five, three);
    if as_map(lib.samples()).contains_key(key) {
        as_map(lib.samples())[key]
    } else {
        key
    }
}

/// The marker put before a UMI appended to a read's identifier.
pub open spec fn umi_marker() -> Seq<u8> {
    seq![114u8, 98u8, 99u8, 58u8]
}

pub open spec fn unmatched_route(ignore_no_match: bool) -> RouteView {
    if ignore_no_match {
        RouteView::Skip
    } else {
        RouteView::NoMatch
    }
}

/// What classification makes of a read: its route, identifier, sequence and
/// qualities.
pub open spec fn classify_spec(
    id: Seq<u8>,
    seq: Seq<u8>,
    qual: Seq<u8>,
    library: Option<BarcodeSet>,
    opts: ClassifyOptions,
) -> (RouteView, Seq<u8>, Seq<u8>, Seq<u8>) {
    let (a, b) = read_bounds(seq, qual, opts.nextseq, opts.phred_quality as int);
    let ts = seq.subrange(a, b);
    let tq = qual.subrange(a, b);
    match library {
        None => (RouteView::NoMatch, id, ts, tq),
        Some(lib) => if !opts.three_prime_only {
            match first_five_from(lib.five_prime.deep_view(), ts, 0) {
                Some(k) => (RouteView::Key(lib.five_prime.deep_view()[k]), id, ts, tq),
                None => (unmatched_route(opts.ignore_no_match), id, ts, tq),
            }
        } else {
            match first_link_from(lib.links(), ts, lib.three_p_mismatches as int, 0) {
                Some((e, t)) => {
                    let five = lib.links()[e].0;
                    let three = lib.links()[e].1[t];
                    let umi = suffix_umi(ts, three);
                    let head = if umi.len() > 0 {
                        id + umi_marker() + umi
                    } else {
                        id
                    };
                    let cut = if opts.keep_barcode {
                        ts.len() as int
                    } else {
                        ts.len() - three.len()
                    };
                    (
                        RouteView::Key(combo_route(lib, five, three)),
                        head,
                        ts.subrange(0, cut),
                        tq.subrange(0, cut),
                    )
                },
                None => (unmatched_route(opts.ignore_no_match), id, ts, tq),
            }
        },
    }
}

fn find_five(fps: &Vec<Vec<u8>>, s: &[u8]) -> (r: Option<usize>)
    ensures
        r matches Some(k) ==> first_five_from(fps.deep_view(), s@, 0) == Some(k as int) && k < fps@.len(),
        r is None ==> first_five_from(fps.deep_view(), s@, 0) is None,
{
    let ghost d = fps.deep_view();
    let mut i: usize = 0;
    while i < fps.len()
        invariant
            d == fps.deep_view(),
            i <= fps@.len(),
            first_five_from(d, s@, 0) == first_five_from(d, s@, i as int),
        decreases fps@.len() - i,
    {
        assert(d[i as int] == fps@[i as int]@);
        if prefix_match(s, fps[i].as_slice(), 0) {
            return Some(i);
        }
        i = i + 1;
    }
    None
}

fn find_three(threes: &Vec<Vec<u8>>, s: &[u8], mm: usize) -> (r: Option<usize>)
    ensures
        r matches Some(t) ==> first_three_from(threes.deep_view(), s@, mm as int, 0) == Some(t as int) && t < threes@.len()
            && suffix_matches(s@, threes@[t as int]@, mm as int),
        r is None ==> first_three_from(threes.deep_view(), s@, mm as int, 0) is None,
{
    let ghost d = threes.deep_view();
    let mut t: usize = 0;
    while t < threes.len()
        invariant
            d == threes.deep_view(),
            t <= threes@.len(),
            first_three_from(d, s@, mm as int, 0) == first_three_from(d, s@, mm as int, t as int),
        decreases threes@.len() - t,
    {
        assert(d[t as int] == threes@[t as int]@);
        if suffix_match(s, threes[t].as_slice(), mm) {
            return Some(t);
        }
        t = t + 1;
    }
    None
}

fn find_link(lib: &BarcodeSet, s: &[u8]) -> (r: Option<(usize, usize)>)
    ensures
        r matches Some((e, t)) ==> {
            &&& first_link_from(lib.links(), s@, lib.three_p_mismatches as int, 0) == Some((e as int, t as int))
            &&& e < lib.linked@.len()
            &&& t < lib.linked@[e as int].threes@.len()
            &&& suffix_matches(s@, lib.linked@[e as int].threes@[t as int]@, lib.three_p_mismatches as int)
        },
        r is None ==> first_link_from(lib.links(), s@, lib.three_p_mismatches as int, 0) is None,
{
    let ghost links = lib.links();
    let mm = lib.three_p_mismatches;
    let mut e: usize = 0;
    while e < lib.linked.len()
        invariant
            links == lib.links(),
            mm == lib.three_p_mismatches,
            e <= lib.linked@.len(),
            first_link_from(links, s@, mm as int, 0) == first_link_from(links, s@, mm as int, e as int),
        decreases lib.linked@.len() - e,
    {
        let link = &lib.linked[e];
        let five_rc = rev_comp(link.five.as_slice());
        if prefix_match(s, five_rc.as_slice(), 0) {
            match find_three(&link.threes, s, mm) {
                Some(t) => {
                    return Some((e, t));
                },
                None => {},
            }
        }
        e = e + 1;
    }
    None
}

/// The routing key of a 5′/3′ combination: its registered sample label, or
/// the combination key itself.
fn route_for_combo(lib: &BarcodeSet, five: &[u8], three: &[u8]) -> (r: Vec<u8>)
    requires
        keys_unique(lib.samples()),
    ensures
        r@ == combo_route(*lib, five@, three@),
{
    let key = make_combo_key(five, three);
    let ghost e = lib.samples();
    let mut i: usize = 0;
    while i < lib.sample_names.len()
        invariant
            e == lib.samples(),
            keys_unique(e),
            key@ == combo_key(five@, three@),
            i <= lib.sample_names@.len(),
            forall|j: int| 0 <= j < i ==> (#[trigger] e[j]).0 != key@,
        decreases lib.sample_names@.len() - i,
    {
        if bytes_eq(lib.sample_names[i].key.as_slice(), key.as_slice()) {
            proof {
                lemma_as_map_index(e, i as int);
                assert(e[i as int].0 == key@);
                assert(e[i as int].1 == lib.sample_names@[i as int].name@);
            }
            return copy_bytes(lib.sample_names[i].name.as_slice());
        }
        i = i + 1;
    }
    proof {
        lemma_as_map_absent(e, key@);
    }
    key
}

/// Appends `s` to `out`.
fn append(out: &mut Vec<u8>, s: &[u8])
    ensures
        final(out)@ == old(out)@ + s@,
{
    let ghost start = out@;
    let mut i: usize = 0;
    while i < s.len()
        invariant
            i <= s@.len(),
            out@ =~= start + s@.subrange(0, i as int),
        decreases s@.len() - i,
    {
        out.push(s[i]);
        i = i + 1;
        assert(out@ =~= start + s@.subrange(0, i as int));
    }
    assert(s@.subrange(0, s@.len() as int) =~= s@);
}

/// Trims a read, matches it against the library and decides its route.
/// Without a library every read goes to the default sink. With one, in
/// linked mode the first link whose reverse-complemented 5′ barcode starts
/// the trimmed read exactly and one of whose 3′ barcodes ends it within the
/// library's tolerance wins: its UMI is appended to the identifier after
/// `rbc:`, the 3′ barcode is cut off unless it is to be kept, and the route
/// is the combination's sample label or key. Otherwise the first 5′ barcode
/// that starts the trimmed read exactly is the route. An unmatched read
/// goes to the default sink, or is dropped when so configured.
pub fn classify_record(
    id: &[u8],
    seq: &[u8],
    qual: &[u8],
    library: Option<&BarcodeSet>,
    opts: &ClassifyOptions,
) -> (r: Classified)
    requires
        qual@.len() <= seq@.len(),
        library matches Some(lib) ==> keys_unique(lib.samples()),
    ensures
        (r.route@, r.head@, r.seq@, r.qual@) == classify_spec(
            id@,
            seq@,
            qual@,
            match library {
                Some(lib) => Some(*lib),
                None => None,
            },
            *opts,
        ),
{
    let (start, stop) = if opts.nextseq {
        (0, back_trim(seq, qual, opts.phred_quality, PHRED_OFFSET, true))
    } else {
        quality_trim_bytes(qual, opts.phred_quality, opts.phred_quality, PHRED_OFFSET)
    };
    let out_seq = copy_range(seq, start, stop);
    let out_qual = copy_range(qual, start, stop);
    let head = copy_bytes(id);
    let unmatched = if opts.ignore_no_match {
        Route::Skip
    } else {
        Route::NoMatch
    };
    match library {
        None => Classified { route: Route::NoMatch, head, seq: out_seq, qual: out_qual },
        Some(lib) => {
            if !opts.three_prime_only {
                match find_five(&lib.five_prime, out_seq.as_slice()) {
                    Some(k) => {
                        proof {
                            assert(lib.five_prime.deep_view()[k as int] == lib.five_prime@[k as int]@);
                        }
                        let key = copy_bytes(lib.five_prime[k].as_slice());
                        Classified { route: Route::Key(key), head, seq: out_seq, qual: out_qual }
                    },
                    None => Classified { route: unmatched, head, seq: out_seq, qual: out_qual },
                }
            } else {
                match find_link(lib, out_seq.as_slice()) {
                    Some((e, t)) => {
                        let link = &lib.linked[e];
                        let three = &link.threes[t];
                        proof {
                            assert(lib.links()[e as int].1[t as int] == three@);
                        }
                        let mut head = head;
                        match extract_umi_from_suffix(out_seq.as_slice(), three.as_slice()) {
                            Some(umi) => {
                                if umi.len() > 0 {
                                    head.push(114u8);
                                    head.push(98u8);
                                    head.push(99u8);
                                    head.push(58u8);
                                    append(&mut head, umi.as_slice());
                                    assert(head@ =~= id@ + umi_marker() + umi@);
                                }
                            },
                            None => {},
                        }
                        let cut = if opts.keep_barcode {
                            out_seq.len()
                        } else {
                            out_seq.len() - three.len()
                        };
                        let final_seq = copy_range(out_seq.as_slice(), 0, cut);
                        let final_qual = copy_range(out_qual.as_slice(), 0, cut);
                        let key = route_for_combo(lib, link.five.as_slice(), three.as_slice());
                        Classified { route: Route::Key(key), head, seq: final_seq, qual: final_qual }
                    },
                    None => Classified { route: unmatched, head, seq: out_seq, qual: out_qual },
                }
            }
        },
    }
}

/// A read that the library cannot match is dropped when `ignore_no_match`
/// is set, and goes to the default sink otherwise.
pub proof fn lemma_unmatched_route(
    id: Seq<u8>,
    seq: Seq<u8>,
    qual: Seq<u8>,
    lib: BarcodeSet,
    opts: ClassifyOptions,
)
    requires
        ({
            let (a, b) = read_bounds(seq, qual, opts.nextseq, opts.phred_quality as int);
            let ts = seq.subrange(a, b);
            if opts.three_prime_only {
                first_link_from(lib.links(), ts, lib.three_p_mismatches as int, 0) is None
            } else {
                first_five_from(lib.five_prime.deep_view(), ts, 0) is None
            }
        }),
    ensures
        opts.ignore_no_match ==> classify_spec(id, seq, qual, Some(lib), opts).0 == RouteView::Skip,
        !opts.ignore_no_match ==> classify_spec(id, seq, qual, Some(lib), opts).0
            == RouteView::NoMatch,
{
}

/// A read whose first and last qualities are above the cutoff is not
/// trimmed by the quality trim.
pub proof fn lemma_good_ends_not_trimmed(qual: Seq<u8>, cutoff: int)
    requires
        qual.len() > 0,
        qual[0] - PHRED_OFFSET > cutoff,
        qual.last() - PHRED_OFFSET > cutoff,
    ensures
        quality_trim_bounds(qual, cutoff, cutoff, PHRED_OFFSET as int) == (0int, qual.len() as int),
{
    let sc = quality_scores(qual, cutoff, PHRED_OFFSET as int);
    let n = sc.len() as int;
    assert(prefix_sum(sc, 0) == 0);
    assert(prefix_sum(sc, 1) == sc[0]);
    assert(is_front_cut(sc, 0, 0));
    lemma_front_cut_unique(sc, 0, 0);
    assert(suffix_sum(sc, n) == 0);
    assert(suffix_sum(sc, n - 1) == sc[n - 1]);
    assert(is_back_cut(sc, n, n));
    lemma_back_cut_unique(sc, n, n);
}

/// The 5′ barcode `ACGT`, whose reverse complement is itself.
pub open spec fn acgt() -> Seq<u8> {
    seq![65u8, 67u8, 71u8, 84u8]
}

/// A 3′ barcode of four wildcards.
pub open spec fn four_wildcards() -> Seq<u8> {
    seq![WILDCARD, WILDCARD, WILDCARD, WILDCARD]
}

/// In linked mode, with a library that links `ACGT` to a 3′ barcode of four
/// wildcards labelled `name`, an untrimmed read `ACGT ++ m ++ u` with `u` of
/// four bases goes to `name`, with `rbc:` and `u` appended to its identifier
/// and the last four bases and qualities cut off.
pub proof fn lemma_linked_umi_routing(
    id: Seq<u8>,
    m: Seq<u8>,
    u: Seq<u8>,
    qual: Seq<u8>,
    lib: BarcodeSet,
    opts: ClassifyOptions,
    name: Seq<u8>,
)
    requires
        opts.three_prime_only,
        !opts.nextseq,
        !opts.keep_barcode,
        u.len() == 4,
        lib.links() == seq![(acgt(), seq![four_wildcards()])],
        as_map(lib.samples()).contains_key(combo_key(acgt(), four_wildcards())),
        as_map(lib.samples())[combo_key(acgt(), four_wildcards())] == name,
        qual.len() == acgt().len() + m.len() + u.len(),
        qual[0] - PHRED_OFFSET > opts.phred_quality,
        qual.last() - PHRED_OFFSET > opts.phred_quality,
    ensures
        classify_spec(id, acgt() + m + u, qual, Some(lib), opts) == (
            RouteView::Key(name),
            id + umi_marker() + u,
            acgt() + m,
            qual.subrange(0, qual.len() - 4),
        ),
{
    let s = acgt() + m + u;
    let n = s.len() as int;
    lemma_good_ends_not_trimmed(qual, opts.phred_quality as int);
    assert(s.subrange(0, n) =~= s);
    assert(qual.subrange(0, n) =~= qual);
    assert(reverse_complement(acgt()) =~= acgt());
    reveal_with_fuel(mismatch_count, 5);
    assert(mismatch_count(s, acgt(), 0, 4) == 0);
    assert(prefix_matches(s, reverse_complement(acgt()), 0));
    assert(mismatch_count(s, four_wildcards(), n - 4, 4) == 0);
    let threes = seq![four_wildcards()];
    assert(suffix_matches(s, threes[0], lib.three_p_mismatches as int));
    assert(first_three_from(threes, s, lib.three_p_mismatches as int, 0) == Some(0int));
    assert(first_link_from(lib.links(), s, lib.three_p_mismatches as int, 0) == Some((0int, 0int)));
    reveal_with_fuel(wildcard_positions, 5);
    assert(four_wildcards().drop_last().drop_last().drop_last().drop_last() =~= Seq::<u8>::empty());
    assert(wildcard_positions(four_wildcards()) =~= seq![0int, 1int, 2int, 3int]);
    assert(suffix_umi(s, four_wildcards()) =~= u);
    assert(s.subrange(0, n - 4) =~= acgt() + m);
}

/// Whether a classified read is written: it is not dropped and is at least
/// `final_min_length` long.
pub fn keeps_record(c: &Classified, final_min_length: usize) -> (r: bool)
    ensures
        r == (!(c.route@ is Skip) && c.seq@.len() >= final_min_length),
{
    match c.route {
        Route::Skip => false,
        _ => c.seq.len() >= final_min_length,
    }
}

/// The routing key that names the default sink.
pub open spec fn default_key() -> Seq<u8> {
    seq![110u8, 111u8, 95u8, 109u8, 97u8, 116u8, 99u8, 104u8]
}

/// Whether a written read goes to the default sink: it is unmatched, or its
/// routing key is `no_match`.
pub fn goes_to_default(route: &Route) -> (r: bool)
    ensures
        r == (route@ is NoMatch || route@ == RouteView::Key(default_key())),
{
    match route {
        Route::NoMatch => true,
        Route::Skip => false,
        Route::Key(k) => {
            let d: Vec<u8> = vec![110u8, 111u8, 95u8, 109u8, 97u8, 116u8, 99u8, 104u8];
            assert(d@ =~= default_key());
            bytes_eq(k.as_slice(), d.as_slice())
        },
    }
}

/// A read in FASTQ form: `@` and the identifier, the sequence, `+`, and the
/// qualities, each on a line of its own.
pub open spec fn fastq_record(name: Seq<u8>, seq: Seq<u8>, qual: Seq<u8>) -> Seq<u8> {
    seq![64u8] + name + seq![10u8] + seq + seq![10u8, 43u8, 10u8] + qual + seq![10u8]
}

/// Appends a read in FASTQ form to `out`.
pub fn write_fastq_record(out: &mut Vec<u8>, name: &[u8], seq: &[u8], qual: &[u8])
    ensures
        final(out)@ == old(out)@ + fastq_record(name@, seq@, qual@),
{
    let ghost start = out@;
    out.push(64u8);
    append(out, name);
    out.push(10u8);
    append(out, seq);
    out.push(10u8);
    out.push(43u8);
    out.push(10u8);
    append(out, qual);
    out.push(10u8);
    assert(out@ =~= start + fastq_record(name@, seq@, qual@));
}

/// The sinks of a run: the default sink for unmatched reads and one sink
/// per routing key, created on first use.
pub struct Writers<W> {
    pub default: W,
    pub by_barcode: Vec<(Vec<u8>, W)>,
}

impl<W> Writers<W> {
    /// The routing keys that have a sink, in order of creation.
    pub open spec fn keys(&self) -> Seq<Seq<u8>> {
        Seq::new(self.by_barcode@.len(), |i: int| self.by_barcode@[i].0@)
    }

    /// One sink per routing key.
    pub open spec fn wf(&self) -> bool {
        self.keys().no_duplicates()
    }

    pub fn new(default: W) -> (r: Self)
        ensures
            r.wf(),
            r.keys().len() == 0,
            r.default == default,
    {
        Writers { default, by_barcode: Vec::new() }
    }

    /// The index of the sink of `key`, if it has one.
    pub fn position(&self, key: &[u8]) -> (r: Option<usize>)
        ensures
            r matches Some(i) ==> i < self.keys().len() && self.keys()[i as int] == key@,
            r is None ==> !self.keys().contains(key@),
    {
        let mut i: usize = 0;
        while i < self.by_barcode.len()
            invariant
                i <= self.keys().len(),
                forall|j: int| 0 <= j < i ==> self.keys()[j] != key@,
            decreases self.keys().len() - i,
        {
            if bytes_eq(self.by_barcode[i].0.as_slice(), key) {
                return Some(i);
            }
            i = i + 1;
        }
        None
    }

    /// Adds the sink of a routing key that has none yet; returns its index.
    pub fn register(&mut self, key: Vec<u8>, w: W) -> (r: usize)
        requires
            old(self).wf(),
            !old(self).keys().contains(key@),
        ensures
            final(self).wf(),
            final(self).keys() == old(self).keys().push(key@),
            r == old(self).keys().len(),
            final(self).by_barcode@ == old(self).by_barcode@.push((key, w)),
            final(self).default == old(self).default,
    {
        let ghost k0 = self.keys();
        let ghost kv = key@;
        let r = self.by_barcode.len();
        self.by_barcode.push((key, w));
        assert(self.keys() =~= k0.push(kv));
        r
    }
}

} // verus!
