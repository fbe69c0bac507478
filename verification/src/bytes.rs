//! Byte-level helpers shared by the HTTP, JSON and string modules.

use vstd::prelude::*;

verus! {

/// ASCII lower-casing of a single byte; other bytes are left unchanged.
pub open spec fn spec_lower(b: u8) -> u8 {
    if 65 <= b <= 90 {
        (b + 32) as u8
    } else {
        b
    }
}

/// ASCII upper-casing of a single byte; other bytes are left unchanged.
pub open spec fn spec_upper(b: u8) -> u8 {
    if 97 <= b <= 122 {
        (b - 32) as u8
    } else {
        b
    }
}

/// ASCII lower-casing of a byte sequence.
pub open spec fn seq_lower(s: Seq<u8>) -> Seq<u8> {
    s.map_values(|b: u8| spec_lower(b))
}

/// Two byte sequences are equal when ASCII case is ignored.
pub open spec fn eq_ignore_case(a: Seq<u8>, b: Seq<u8>) -> bool {
    seq_lower(a) == seq_lower(b)
}

/// `s` has byte `c` at `i` and nowhere before.
pub open spec fn first_at(s: Seq<u8>, c: u8, i: int) -> bool {
    &&& 0 <= i < s.len()
    &&& s[i] == c
    &&& forall|j: int| 0 <= j < i ==> s[j] != c
}

/// The result of searching `s` for its first byte equal to `c`.
pub open spec fn find_first(s: Seq<u8>, c: u8, r: Option<usize>) -> bool {
    match r {
        Some(i) => first_at(s, c, i as int),
        None => forall|j: int| 0 <= j < s.len() ==> s[j] != c,
    }
}

/// Index of the first byte equal to `c`, or the length when there is none.
pub open spec fn index_of(s: Seq<u8>, c: u8) -> int
    decreases s.len(),
{
    if s.len() == 0 {
        0
    } else if s[0] == c {
        0
    } else {
        1 + index_of(s.drop_first(), c)
    }
}

/// `index_of` lies within the sequence, finds `c` when below the length, and no earlier
/// byte is `c`.
pub proof fn lemma_index_of(s: Seq<u8>, c: u8)
    ensures
        0 <= index_of(s, c) <= s.len(),
        index_of(s, c) < s.len() ==> s[index_of(s, c)] == c,
        forall|j: int| 0 <= j < index_of(s, c) ==> s[j] != c,
    decreases s.len(),
{
    if s.len() > 0 && s[0] != c {
        lemma_index_of(s.drop_first(), c);
        assert forall|j: int| 0 <= j < index_of(s, c) implies s[j] != c by {
            if j > 0 {
                assert(s[j] == s.drop_first()[j - 1]);
            }
        }
    }
}

/// `index_of` is characterised by "no earlier `c`" and "`c` here, or the end".
pub proof fn lemma_index_of_unique(s: Seq<u8>, c: u8, i: int)
    requires
        0 <= i <= s.len(),
        i < s.len() ==> s[i] == c,
        forall|j: int| 0 <= j < i ==> s[j] != c,
    ensures
        index_of(s, c) == i,
    decreases s.len(),
{
    if s.len() > 0 && s[0] != c {
        assert forall|j: int| 0 <= j < i - 1 implies s.drop_first()[j] != c by {
            assert(s.drop_first()[j] == s[j + 1]);
        }
        lemma_index_of_unique(s.drop_first(), c, i - 1);
    }
}

/// Position of the first `c` at or after `from`, or the length when there is none.
pub fn index_of_from(s: &[u8], from: usize, c: u8) -> (r: usize)
    requires
        from <= s@.len(),
    ensures
        r == from + index_of(s@.subrange(from as int, s@.len() as int), c),
        from <= r <= s@.len(),
{
    let mut i: usize = from;
    while i < s.len() && s[i] != c
        invariant
            from <= i <= s@.len(),
            forall|j: int| from <= j < i ==> s@[j] != c,
        decreases s@.len() - i,
    {
        i += 1;
    }
    proof {
        let t = s@.subrange(from as int, s@.len() as int);
        lemma_index_of_unique(t, c, i - from);
    }
    i
}

/// `s[a..b]` equals `t`.
pub fn range_eq(s: &[u8], a: usize, b: usize, t: &[u8]) -> (r: bool)
    requires
        a <= b <= s@.len(),
    ensures
        r == (s@.subrange(a as int, b as int) == t@),
{
    let sub = vstd::slice::slice_subrange(s, a, b);
    bytes_eq(sub, t)
}

/// ASCII decimal digit.
pub open spec fn is_digit(b: u8) -> bool {
    48 <= b <= 57
}

/// Decimal representation (most significant digit first) of a natural number.
pub open spec fn decimal(n: nat) -> Seq<u8>
    decreases n,
{
    if n < 10 {
        seq![(48 + n) as u8]
    } else {
        decimal(n / 10).push((48 + n % 10) as u8)
    }
}

/// The decimal digits of a number.
pub proof fn lemma_decimal(n: nat)
    ensures
        decimal(n).len() >= 1,
        forall|i: int| 0 <= i < decimal(n).len() ==> 48 <= #[trigger] decimal(n)[i] <= 57,
        digits_value(decimal(n)) == n,
    decreases n,
{
    if n >= 10 {
        lemma_decimal(n / 10);
        let d = decimal(n / 10).push((48 + n % 10) as u8);
        assert(d.drop_last() =~= decimal(n / 10));
        vstd::arithmetic::div_mod::lemma_fundamental_div_mod(n as int, 10);
        assert(d.last() - 48 == n % 10);
        assert(digits_value(d) == digits_value(decimal(n / 10)) * 10 + (n % 10));
        vstd::arithmetic::mul::lemma_mul_is_commutative((n / 10) as int, 10);
        assert(decimal(n) == d);
        assert(digits_value(d) == n);
    } else {
        assert(decimal(n).drop_last() =~= Seq::<u8>::empty());
        assert(digits_value(Seq::<u8>::empty()) == 0);
        assert(decimal(n).last() == 48 + n);
        assert(digits_value(decimal(n)) == n);
    }
}

/// The decimal digits of a positive number do not start with `0`.
pub proof fn lemma_decimal_lead(n: nat)
    requires
        n > 0,
    ensures
        decimal(n)[0] != 48,
    decreases n,
{
    if n >= 10 {
        lemma_decimal_lead(n / 10);
        lemma_decimal(n / 10);
    }
}

/// Value of a sequence of decimal digits.
pub open spec fn digits_value(s: Seq<u8>) -> nat
    decreases s.len(),
{
    if s.len() == 0 {
        0
    } else {
        digits_value(s.drop_last()) * 10 + (s.last() - 48) as nat
    }
}

/// All bytes are decimal digits.
pub open spec fn all_digits(s: Seq<u8>) -> bool {
    forall|i: int| 0 <= i < s.len() ==> is_digit(s[i])
}

/// What `usize::from_str` gives for these bytes: an optional `+` then one or more
/// decimal digits whose value fits a `usize`.
pub open spec fn spec_parse_usize(s: Seq<u8>) -> Option<usize> {
    let d = if s.len() > 0 && s[0] == 43 { s.drop_first() } else { s };
    if d.len() > 0 && all_digits(d) && digits_value(d) <= usize::MAX {
        Some(digits_value(d) as usize)
    } else {
        None
    }
}

/// Parse an unsigned decimal number the way `usize::from_str` does.
pub fn parse_usize(s: &[u8]) -> (r: Option<usize>)
    ensures
        r == spec_parse_usize(s@),
{
    let mut start: usize = 0;
    if s.len() > 0 && s[0] == 43 {
        start = 1;
    }
    let ghost d = s@.subrange(start as int, s@.len() as int);
    proof {
        if s@.len() > 0 && s@[0] == 43 {
            assert(d =~= s@.drop_first());
        } else {
            assert(d =~= s@);
        }
    }
    if start >= s.len() {
        return None;
    }
    let mut value: usize = 0;
    let mut i: usize = start;
    while i < s.len()
        invariant
            start <= i <= s@.len(),
            d == s@.subrange(start as int, s@.len() as int),
            d == (if s@.len() > 0 && s@[0] == 43 { s@.drop_first() } else { s@ }),
            d.len() > 0,
            all_digits(s@.subrange(start as int, i as int)),
            value == digits_value(s@.subrange(start as int, i as int)),
        decreases s@.len() - i,
    {
        let c = s[i];
        let ghost pre = s@.subrange(start as int, i as int);
        let ghost next = s@.subrange(start as int, i + 1);
        proof {
            assert(next.drop_last() =~= pre);
        }
        if c < 48 || c > 57 {
            proof {
                assert(d[i - start] == c);
                assert(!is_digit(d[i - start]));
                assert(!all_digits(d));
            }
            return None;
        }
        let digit = (c - 48) as usize;
        if value > (usize::MAX - digit) / 10 {
            proof {
                assert(value * 10 + digit > usize::MAX) by (nonlinear_arith)
                    requires
                        value > (usize::MAX - digit) / 10,
                        digit <= 9,
                ;
                assert(digits_value(next) == value * 10 + digit);
                if all_digits(d) {
                    assert(d.subrange(0, (i - start + 1) as int) =~= next);
                    lemma_digits_monotone(d, (i - start + 1) as int);
                }
            }
            return None;
        }
        value = value * 10 + digit;
        i += 1;
        proof {
            assert(all_digits(next));
        }
    }
    proof {
        assert(s@.subrange(start as int, s@.len() as int) =~= d);
    }
    Some(value)
}

/// A prefix of a digit sequence has no larger value than the whole.
pub proof fn lemma_digits_monotone(d: Seq<u8>, k: int)
    requires
        0 <= k <= d.len(),
        all_digits(d),
    ensures
        digits_value(d.subrange(0, k)) <= digits_value(d),
    decreases d.len() - k,
{
    if k < d.len() {
        lemma_digits_monotone(d, k + 1);
        assert(d.subrange(0, k + 1).drop_last() =~= d.subrange(0, k));
    } else {
        assert(d.subrange(0, k) =~= d);
    }
}

/// Lower-case one byte.
pub fn lower_byte(b: u8) -> (r: u8)
    ensures
        r == spec_lower(b),
{
    if b >= 65 && b <= 90 {
        b + 32
    } else {
        b
    }
}

/// Upper-case one byte.
pub fn upper_byte(b: u8) -> (r: u8)
    ensures
        r == spec_upper(b),
{
    if b >= 97 && b <= 122 {
        b - 32
    } else {
        b
    }
}

/// Compare two byte slices ignoring ASCII case.
pub fn eq_ignore_ascii_case(a: &[u8], b: &[u8]) -> (r: bool)
    ensures
        r == eq_ignore_case(a@, b@),
{
    if a.len() != b.len() {
        proof {
            assert(seq_lower(a@).len() != seq_lower(b@).len());
        }
        return false;
    }
    let mut i: usize = 0;
    while i < a.len()
        invariant
            a@.len() == b@.len(),
            i <= a@.len(),
            forall|j: int| 0 <= j < i ==> spec_lower(#[trigger] a@[j]) == spec_lower(b@[j]),
        decreases a@.len() - i,
    {
        if lower_byte(a[i]) != lower_byte(b[i]) {
            proof {
                assert(seq_lower(a@)[i as int] != seq_lower(b@)[i as int]);
            }
            return false;
        }
        i += 1;
    }
    proof {
        assert(seq_lower(a@) =~= seq_lower(b@));
    }
    true
}

/// Compare two byte slices for equality.
pub fn bytes_eq(a: &[u8], b: &[u8]) -> (r: bool)
    ensures
        r == (a@ == b@),
{
    if a.len() != b.len() {
        return false;
    }
    let mut i: usize = 0;
    while i < a.len()
        invariant
            a@.len() == b@.len(),
            i <= a@.len(),
            forall|j: int| 0 <= j < i ==> #[trigger] a@[j] == b@[j],
        decreases a@.len() - i,
    {
        if a[i] != b[i] {
            return false;
        }
        i += 1;
    }
    proof {
        assert(a@ =~= b@);
    }
    true
}

/// ASCII lower-case copy of a byte slice.
pub fn to_lower_vec(s: &[u8]) -> (r: Vec<u8>)
    ensures
        r@ == seq_lower(s@),
{
    let mut out: Vec<u8> = Vec::new();
    let mut i: usize = 0;
    while i < s.len()
        invariant
            i <= s@.len(),
            out@ == seq_lower(s@.take(i as int)),
        decreases s@.len() - i,
    {
        out.push(lower_byte(s[i]));
        proof {
            assert(seq_lower(s@.take(i + 1)) =~= seq_lower(s@.take(i as int)).push(spec_lower(s@[i as int])));
        }
        i += 1;
    }
    proof {
        assert(s@.take(s@.len() as int) =~= s@);
    }
    out
}

/// Position of the first occurrence of `needle` in `haystack`.
pub fn find_byte(needle: u8, haystack: &[u8]) -> (r: Option<usize>)
    ensures
        find_first(haystack@, needle, r),
{
    let mut i: usize = 0;
    while i < haystack.len()
        invariant
            i <= haystack@.len(),
            forall|j: int| 0 <= j < i ==> haystack@[j] != needle,
        decreases haystack@.len() - i,
    {
        if haystack[i] == needle {
            return Some(i);
        }
        i += 1;
    }
    None
}

/// Append all bytes of `src` to `dst`.
pub fn push_all(dst: &mut Vec<u8>, src: &[u8])
    ensures
        final(dst)@ == old(dst)@ + src@,
{
    dst.extend_from_slice(src);
    proof {
        assert(dst@ =~= old(dst)@ + src@);
    }
}

} // verus!
