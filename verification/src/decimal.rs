//! Decimal formatting of integers.

use vstd::prelude::*;
use crate::bytes::decimal;
use crate::string::ops::push_char;

verus! {

/// itoa's `Buffer::format` on a `u64`: the decimal digits of `n` (no sign, no padding).
#[verifier::external_body]
pub(crate) fn itoa_u64(n: u64) -> (r: Vec<u8>)
    ensures
        r@ == decimal(n as nat),
{
    let mut buf = itoa::Buffer::new();
    buf.format(n).as_bytes().to_vec()
}

/// itoa's `Buffer::format` on an `i64`: `-` before a negative number, then the decimal
/// digits of its magnitude.
#[verifier::external_body]
pub(crate) fn itoa_i64(n: i64) -> (r: Vec<u8>)
    ensures
        r@ == (if n < 0 {
            seq![45u8] + decimal((-(n as int)) as nat)
        } else {
            decimal(n as nat)
        }),
{
    let mut buf = itoa::Buffer::new();
    buf.format(n).as_bytes().to_vec()
}

/// The decimal digits of `n` (no sign, no padding).
pub(crate) fn usize_to_string_bytes(n: usize) -> (r: Vec<u8>)
    ensures
        r@ == decimal(n as nat),
    decreases n,
{
    if n < 10 {
        let d: u8 = 48 + n as u8;
        let r = vec![d];
        proof {
            assert(r@ =~= decimal(n as nat));
        }
        r
    } else {
        let mut r = usize_to_string_bytes(n / 10);
        let d: u8 = 48 + (n % 10) as u8;
        r.push(d);
        r
    }
}

/// The decimal digits of `n`, as characters.
pub open spec fn digit_chars(n: nat) -> Seq<char> {
    decimal(n).map_values(|b: u8| b as char)
}

/// Appends the decimal digits of `n`.
pub(crate) fn push_decimal(out: &mut String, n: usize)
    ensures
        final(out)@ == old(out)@ + digit_chars(n as nat),
{
    let digits = usize_to_string_bytes(n);
    let ghost start = out@;
    let mut i: usize = 0;
    while i < digits.len()
        invariant
            0 <= i <= digits@.len(),
            digits@ == decimal(n as nat),
            out@ == start + digits@.subrange(0, i as int).map_values(|b: u8| b as char),
        decreases digits@.len() - i,
    {
        push_char(out, digits[i] as char);
        i = i + 1;
        proof {
            assert(out@ =~= start + digits@.subrange(0, i as int).map_values(|b: u8| b as char));
        }
    }
    proof {
        assert(digits@.subrange(0, i as int) =~= digits@);
    }
}

} // verus!
