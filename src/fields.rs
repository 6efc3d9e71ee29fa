use vstd::prelude::*;
use crate::align::WILDCARD;
use vstd::string::{StrSliceExecFns, StringSliceAdditionalSpecFns};
use vstd::utf8::encode_utf8;

verus! {

/// Separates a barcode from the text that follows it in a table field.
pub const SEPARATOR: u8 = 58;

/// The UTF-8 bytes of the upper-case form of the text `s`, as
/// `str::to_uppercase` gives it.
pub uninterp spec fn upper_of(s: Seq<char>) -> Seq<u8>;

/// Relies on `str::to_uppercase`: the upper-case form of a text depends on
/// its characters alone.
#[verifier::external_body]
pub(crate) fn to_upper(s: &str) -> (r: Vec<u8>)
    ensures
        r@ == upper_of(s@),
{
    s.to_uppercase().into_bytes()
}

/// The separator, as a character of a text field.
pub open spec fn is_separator_char(c: char) -> bool {
    c == ':'
}

/// Index of the first separator character in `s` at or after `from`, or
/// the length of `s` when there is none.
pub open spec fn char_separator_from(s: Seq<char>, from: int) -> int
    decreases s.len() - from,
{
    if from >= s.len() {
        s.len() as int
    } else if is_separator_char(s[from]) {
        from
    } else {
        char_separator_from(s, from + 1)
    }
}

/// The part of a text field before its first separator.
pub open spec fn text_head(s: Seq<char>) -> Seq<char> {
    s.subrange(0, char_separator_from(s, 0))
}

/// The part of a text field between its first and second separators;
/// empty when the field has no separator.
pub open spec fn text_label(s: Seq<char>) -> Seq<char> {
    let c = char_separator_from(s, 0);
    if c < s.len() {
        s.subrange(c + 1, char_separator_from(s, c + 1))
    } else {
        Seq::empty()
    }
}

fn find_char_separator(s: &str, from: usize) -> (r: usize)
    requires
        from <= s@.len(),
    ensures
        r == char_separator_from(s@, from as int),
        from <= r <= s@.len(),
{
    let n = s.unicode_len();
    let mut i = from;
    while i < n && s.get_char(i) != ':'
        invariant
            n == s@.len(),
            from <= i <= n,
            char_separator_from(s@, i as int) == char_separator_from(s@, from as int),
        decreases n - i,
    {
        i = i + 1;
    }
    i
}

/// The part of a text field before its first separator.
pub fn text_head_of(s: &str) -> (r: &str)
    ensures
        r@ == text_head(s@),
{
    let c = find_char_separator(s, 0);
    s.substring_char(0, c)
}

/// The UTF-8 bytes of the part of a text field between its first and
/// second separators.
pub fn text_label_of(s: &str) -> (r: Vec<u8>)
    ensures
        r@ == encode_utf8(text_label(s@)),
{
    let c = find_char_separator(s, 0);
    let n = s.unicode_len();
    if c < n {
        let d = find_char_separator(s, c + 1);
        s.substring_char(c + 1, d).as_bytes_vec()
    } else {
        proof {
            reveal_with_fuel(encode_utf8, 1);
        }
        Vec::new()
    }
}

/// Index of the first separator in `s` at or after `from`, or the length of
/// `s` when there is none.
pub open spec fn separator_from(s: Seq<u8>, from: int) -> int
    decreases s.len() - from,
{
    if from >= s.len() {
        s.len() as int
    } else if s[from] == SEPARATOR {
        from
    } else {
        separator_from(s, from + 1)
    }
}

/// The part of a field before its first separator.
pub open spec fn field_head(s: Seq<u8>) -> Seq<u8> {
    s.subrange(0, separator_from(s, 0))
}

/// Number of bytes of `s` that are not wildcards.
pub open spec fn fixed_count(s: Seq<u8>) -> nat
    decreases s.len(),
{
    if s.len() == 0 {
        0
    } else {
        fixed_count(s.drop_last()) + if s.last() != WILDCARD {
            1nat
        } else {
            0nat
        }
    }
}

/// The key of a 5′/3′ barcode combination: `5bc_<five>_3bc_<three>`.
pub open spec fn combo_key(five: Seq<u8>, three: Seq<u8>) -> Seq<u8> {
    seq![53u8, 98u8, 99u8, 95u8] + five + seq![95u8, 51u8, 98u8, 99u8, 95u8] + three
}

fn find_separator(s: &[u8], from: usize) -> (r: usize)
    requires
        from <= s@.len(),
    ensures
        r == separator_from(s@, from as int),
        from <= r <= s@.len(),
{
    let mut i = from;
    while i < s.len() && s[i] != SEPARATOR
        invariant
            from <= i <= s@.len(),
            separator_from(s@, i as int) == separator_from(s@, from as int),
        decreases s@.len() - i,
    {
        i = i + 1;
    }
    i
}

/// The bytes of `s` from `lo` up to `hi`.
pub fn copy_range(s: &[u8], lo: usize, hi: usize) -> (r: Vec<u8>)
    requires
        lo <= hi <= s@.len(),
    ensures
        r@ == s@.subrange(lo as int, hi as int),
{
    let mut r: Vec<u8> = Vec::new();
    let mut i = lo;
    while i < hi
        invariant
            lo <= i <= hi <= s@.len(),
            r@ =~= s@.subrange(lo as int, i as int),
        decreases hi - i,
    {
        r.push(s[i]);
        i = i + 1;
        assert(r@ =~= s@.subrange(lo as int, i as int));
    }
    r
}

/// The part of a field before its first separator.
pub fn head_of(s: &[u8]) -> (r: Vec<u8>)
    ensures
        r@ == field_head(s@),
{
    let c = find_separator(s, 0);
    copy_range(s, 0, c)
}

/// Number of bytes of `s` that are not wildcards.
pub fn count_fixed(s: &[u8]) -> (r: usize)
    ensures
        r == fixed_count(s@),
{
    let mut n: usize = 0;
    let mut i: usize = 0;
    while i < s.len()
        invariant
            i <= s@.len(),
            n <= i,
            n == fixed_count(s@.subrange(0, i as int)),
        decreases s@.len() - i,
    {
        assert(s@.subrange(0, i + 1).drop_last() =~= s@.subrange(0, i as int));
        if s[i] != WILDCARD {
            n = n + 1;
        }
        i = i + 1;
    }
    assert(s@.subrange(0, s@.len() as int) =~= s@);
    n
}

/// The key of a 5′/3′ barcode combination.
pub fn make_combo_key(five: &[u8], three: &[u8]) -> (r: Vec<u8>)
    ensures
        r@ == combo_key(five@, three@),
{
    let mut r: Vec<u8> = Vec::new();
    r.push(53u8);
    r.push(98u8);
    r.push(99u8);
    r.push(95u8);
    let mut i: usize = 0;
    while i < five.len()
        invariant
            i <= five@.len(),
            r@ =~= seq![53u8, 98u8, 99u8, 95u8] + five@.subrange(0, i as int),
        decreases five@.len() - i,
    {
        r.push(five[i]);
        i = i + 1;
        assert(r@ =~= seq![53u8, 98u8, 99u8, 95u8] + five@.subrange(0, i as int));
    }
    r.push(95u8);
    r.push(51u8);
    r.push(98u8);
    r.push(99u8);
    r.push(95u8);
    let ghost mid = r@;
    assert(five@.subrange(0, five@.len() as int) =~= five@);
    assert(mid =~= seq![53u8, 98u8, 99u8, 95u8] + five@ + seq![95u8, 51u8, 98u8, 99u8, 95u8]);
    let mut j: usize = 0;
    while j < three.len()
        invariant
            j <= three@.len(),
            r@ =~= mid + three@.subrange(0, j as int),
        decreases three@.len() - j,
    {
        r.push(three[j]);
        j = j + 1;
        assert(r@ =~= mid + three@.subrange(0, j as int));
    }
    assert(three@.subrange(0, three@.len() as int) =~= three@);
    r
}

} // verus!
