use vstd::prelude::*;

verus! {

/// Byte-wise lexicographic order: `a` sorts strictly before `b`.
pub open spec fn lex_lt(a: Seq<u8>, b: Seq<u8>) -> bool
    decreases a.len(),
{
    if a.len() == 0 {
        b.len() > 0
    } else if b.len() == 0 {
        false
    } else if a[0] != b[0] {
        a[0] < b[0]
    } else {
        lex_lt(a.drop_first(), b.drop_first())
    }
}

/// Every element sorts strictly before every later one.
pub open spec fn strictly_sorted(v: Seq<Seq<u8>>) -> bool {
    forall|i: int, j: int| 0 <= i < j < v.len() ==> lex_lt(v[i], v[j])
}

/// No byte string sorts before itself.
pub proof fn lemma_lex_irreflexive(a: Seq<u8>)
    ensures
        !lex_lt(a, a),
    decreases a.len(),
{
    if a.len() > 0 {
        lemma_lex_irreflexive(a.drop_first());
    }
}

/// The order is transitive.
pub proof fn lemma_lex_transitive(a: Seq<u8>, b: Seq<u8>, c: Seq<u8>)
    requires
        lex_lt(a, b),
        lex_lt(b, c),
    ensures
        lex_lt(a, c),
    decreases a.len(),
{
    if a.len() > 0 && b.len() > 0 && c.len() > 0 && a[0] == b[0] && b[0] == c[0] {
        lemma_lex_transitive(a.drop_first(), b.drop_first(), c.drop_first());
    }
}

/// Of two different byte strings, one sorts before the other.
pub proof fn lemma_lex_total(a: Seq<u8>, b: Seq<u8>)
    requires
        a != b,
    ensures
        lex_lt(a, b) || lex_lt(b, a),
    decreases a.len(),
{
    if a.len() > 0 && b.len() > 0 && a[0] == b[0] {
        if a.drop_first() == b.drop_first() {
            assert(a =~= seq![a[0]] + a.drop_first());
            assert(b =~= seq![b[0]] + b.drop_first());
        }
        lemma_lex_total(a.drop_first(), b.drop_first());
    } else if a.len() == 0 && b.len() == 0 {
        assert(a =~= b);
    }
}

/// Compares two byte strings: negative, zero or positive as `a` sorts
/// before, equal to, or after `b`.
pub fn compare_bytes(a: &[u8], b: &[u8]) -> (r: i8)
    ensures
        r < 0 <==> lex_lt(a@, b@),
        r == 0 <==> a@ == b@,
        r > 0 <==> lex_lt(b@, a@),
{
    let mut i: usize = 0;
    assert(a@.subrange(0, a@.len() as int) =~= a@);
    assert(b@.subrange(0, b@.len() as int) =~= b@);
    while i < a.len() && i < b.len() && a[i] == b[i]
        invariant
            i <= a@.len(),
            i <= b@.len(),
            a@.subrange(0, i as int) == b@.subrange(0, i as int),
            lex_lt(a@, b@) == lex_lt(a@.subrange(i as int, a@.len() as int), b@.subrange(i as int, b@.len() as int)),
            lex_lt(b@, a@) == lex_lt(b@.subrange(i as int, b@.len() as int), a@.subrange(i as int, a@.len() as int)),
        decreases a@.len() - i,
    {
        let ghost sa = a@.subrange(i as int, a@.len() as int);
        let ghost sb = b@.subrange(i as int, b@.len() as int);
        assert(sa.drop_first() =~= a@.subrange(i + 1, a@.len() as int));
        assert(sb.drop_first() =~= b@.subrange(i + 1, b@.len() as int));
        assert(a@.subrange(0, i + 1) =~= a@.subrange(0, i as int).push(a@[i as int]));
        assert(b@.subrange(0, i + 1) =~= b@.subrange(0, i as int).push(b@[i as int]));
        i = i + 1;
    }
    let ghost sa = a@.subrange(i as int, a@.len() as int);
    let ghost sb = b@.subrange(i as int, b@.len() as int);
    if i == a.len() && i == b.len() {
        assert(a@ =~= a@.subrange(0, i as int));
        assert(b@ =~= b@.subrange(0, i as int));
        proof {
            lemma_lex_irreflexive(a@);
        }
        0
    } else if i == a.len() {
        assert(a@.len() != b@.len());
        -1
    } else if i == b.len() {
        assert(a@.len() != b@.len());
        1
    } else {
        assert(a@[i as int] != b@[i as int]);
        assert(sa[0] == a@[i as int]);
        assert(sb[0] == b@[i as int]);
        if a[i] < b[i] {
            -1
        } else {
            1
        }
    }
}

/// Whether two byte strings are equal.
pub fn bytes_eq(a: &[u8], b: &[u8]) -> (r: bool)
    ensures
        r == (a@ == b@),
{
    compare_bytes(a, b) == 0
}

/// Inserts `x` into a strictly sorted list, unless it is already there.
pub fn insert_sorted(v: &mut Vec<Vec<u8>>, x: Vec<u8>)
    requires
        strictly_sorted(old(v).deep_view()),
    ensures
        strictly_sorted(final(v).deep_view()),
        final(v).deep_view().to_set() == old(v).deep_view().to_set().insert(x@),
{
    let ghost d0 = v.deep_view();
    let mut i: usize = 0;
    while i < v.len() && compare_bytes(v[i].as_slice(), x.as_slice()) < 0
        invariant
            v.deep_view() == d0,
            strictly_sorted(d0),
            i <= v@.len(),
            forall|j: int| 0 <= j < i ==> lex_lt(#[trigger] d0[j], x@),
        decreases v@.len() - i,
    {
        assert(d0[i as int] == v@[i as int]@);
        i = i + 1;
    }
    if i < v.len() && compare_bytes(v[i].as_slice(), x.as_slice()) == 0 {
        assert(d0[i as int] == x@);
        assert(d0.to_set().insert(x@) =~= d0.to_set());
        return;
    }
    proof {
        if i < v@.len() {
            assert(d0[i as int] == v@[i as int]@);
            lemma_lex_total(d0[i as int], x@);
            assert forall|j: int| i <= j < d0.len() implies lex_lt(x@, #[trigger] d0[j]) by {
                if j > i {
                    lemma_lex_transitive(x@, d0[i as int], d0[j]);
                }
            }
        }
    }
    let ghost xv = x@;
    let ghost v0 = v@;
    v.insert(i, x);
    proof {
        let d1 = v.deep_view();
        assert(d1.len() == d0.len() + 1);
        assert forall|k: int| 0 <= k < d1.len() implies d1[k] == d0.insert(i as int, xv)[k] by {
            assert(d1[k] == v@[k]@);
            if k < i {
                assert(v@[k] == v0[k]);
            } else if k > i {
                assert(v@[k] == v0[k - 1]);
            }
        }
        assert(d1 =~= d0.insert(i as int, xv));
        assert forall|p: int, q: int| 0 <= p < q < d1.len() implies lex_lt(d1[p], d1[q]) by {
            if q < i {
            } else if q == i {
            } else if p < i {
                lemma_lex_transitive(d0[p], xv, d0[q - 1]);
            } else if p == i {
            } else {
            }
        }
        assert forall|y: Seq<u8>| d1.to_set().contains(y) <==> d0.to_set().insert(xv).contains(y) by {
            if d1.to_set().contains(y) {
                let k = choose|k: int| 0 <= k < d1.len() && d1[k] == y;
                if k > i {
                    assert(d0[k - 1] == y);
                } else if k < i {
                    assert(d0[k] == y);
                }
            }
            if d0.to_set().contains(y) {
                let k = choose|k: int| 0 <= k < d0.len() && d0[k] == y;
                if k >= i {
                    assert(d1[k + 1] == y);
                } else {
                    assert(d1[k] == y);
                }
            }
            if y == xv {
                assert(d1[i as int] == y);
            }
        }
        assert(d1.to_set() =~= d0.to_set().insert(xv));
    }
}

} // verus!
