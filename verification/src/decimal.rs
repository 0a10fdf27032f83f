//! Unsigned decimal numerals as they appear in anymap headers and ASCII
//! pixel data: rendering a number as ASCII digits and parsing it back.

use vstd::prelude::*;

use vstd::arithmetic::div_mod::lemma_fundamental_div_mod;

verus! {

/// An ASCII decimal digit.
pub open spec fn is_digit(b: u8) -> bool {
    48 <= b <= 57
}

/// A non-empty token made of ASCII digits only.
pub open spec fn is_digits(t: Seq<u8>) -> bool {
    t.len() > 0 && forall|i: int| 0 <= i < t.len() ==> is_digit(#[trigger] t[i])
}

/// The number an all-digit token denotes.
pub open spec fn dec_val(t: Seq<u8>) -> nat
    decreases t.len(),
{
    if t.len() == 0 {
        0
    } else {
        (dec_val(t.drop_last()) * 10 + (t.last() - 48)) as nat
    }
}

/// The shortest decimal rendering of a number: no leading zeros, and the
/// single digit `0` for zero.
pub open spec fn spec_dec(n: nat) -> Seq<u8>
    decreases n,
{
    if n < 10 {
        seq![(48 + n) as u8]
    } else {
        spec_dec(n / 10).push((48 + n % 10) as u8)
    }
}

/// A rendered number consists of digits.
pub proof fn lemma_spec_dec_digits(n: nat)
    ensures
        is_digits(spec_dec(n)),
    decreases n,
{
    if n >= 10 {
        lemma_spec_dec_digits(n / 10);
        let s = spec_dec(n / 10);
        let d = (48 + n % 10) as u8;
        assert forall|i: int| 0 <= i < s.push(d).len() implies is_digit(#[trigger] s.push(d)[i]) by {
            if i < s.len() {
                assert(s.push(d)[i] == s[i]);
            } else {
                assert(s.push(d)[i] == d);
            }
        }
    }
}

/// Parsing a rendered number gives the number back.
pub proof fn lemma_dec_val_spec_dec(n: nat)
    ensures
        dec_val(spec_dec(n)) == n,
    decreases n,
{
    if n < 10 {
        let s = seq![(48 + n) as u8];
        assert(s.drop_last() =~= Seq::<u8>::empty());
        assert(s.last() == (48 + n) as u8);
        assert(dec_val(s) == (dec_val(s.drop_last()) * 10 + (s.last() - 48)) as nat);
    } else {
        lemma_dec_val_spec_dec(n / 10);
        let s = spec_dec(n / 10);
        let d = (48 + n % 10) as u8;
        assert(s.push(d).drop_last() =~= s);
        assert(s.push(d).last() == d);
        assert(spec_dec(n) == s.push(d));
        assert(dec_val(s.push(d)) == (dec_val(s) * 10 + (d - 48)) as nat);
        lemma_fundamental_div_mod(n as int, 10);
        assert(n / 10 * 10 + n % 10 == n);
    }
}

/// Extending an all-digit prefix by one digit multiplies its value by ten
/// and adds the digit.
pub proof fn lemma_dec_val_take_step(t: Seq<u8>, i: int)
    requires
        0 <= i < t.len(),
        is_digit(t[i]),
    ensures
        dec_val(t.take(i + 1)) == dec_val(t.take(i)) * 10 + (t[i] - 48),
{
    assert(t.take(i + 1).drop_last() =~= t.take(i));
    assert(t.take(i + 1).last() == t[i]);
}

/// For an all-digit token, every prefix denotes at most the whole token's
/// value.
pub proof fn lemma_dec_val_take_le(t: Seq<u8>, i: int)
    requires
        0 <= i <= t.len(),
        forall|j: int| 0 <= j < t.len() ==> is_digit(#[trigger] t[j]),
    ensures
        dec_val(t.take(i)) <= dec_val(t),
    decreases t.len() - i,
{
    if i == t.len() {
        assert(t.take(i) =~= t);
    } else {
        lemma_dec_val_take_step(t, i);
        lemma_dec_val_take_le(t, i + 1);
    }
}

/// Appends the decimal rendering of `n` to `out`.
pub fn push_decimal(n: usize, out: &mut Vec<u8>)
    ensures
        final(out)@ == old(out)@ + spec_dec(n as nat),
    decreases n,
{
    if n < 10 {
        out.push(48 + n as u8);
        assert(out@ =~= old(out)@ + spec_dec(n as nat));
    } else {
        push_decimal(n / 10, out);
        out.push(48 + (n % 10) as u8);
        assert(out@ =~= old(out)@ + spec_dec(n as nat));
    }
}

/// Whether a token is non-empty and made of ASCII digits only.
pub fn check_digits(t: &Vec<u8>) -> (b: bool)
    ensures
        b == is_digits(t@),
{
    let len = t.len();
    if len == 0 {
        return false;
    }
    let mut i: usize = 0;
    while i < len
        invariant
            0 <= i <= len,
            len == t@.len(),
            forall|j: int| 0 <= j < i ==> is_digit(#[trigger] t@[j]),
        decreases len - i,
    {
        let b = t[i];
        if b < 48 || b > 57 {
            return false;
        }
        i += 1;
    }
    true
}

/// Parses a token as an unsigned number fitting the machine word:
/// succeeds exactly when the token is non-empty, all digits, and its
/// value is at most `usize::MAX`.
pub fn parse_usize(t: &Vec<u8>) -> (r: Option<usize>)
    ensures
        r == (if is_digits(t@) && dec_val(t@) <= usize::MAX {
            Some(dec_val(t@) as usize)
        } else {
            None::<usize>
        }),
{
    let len = t.len();
    if len == 0 {
        return None;
    }
    let mut val: usize = 0;
    let mut i: usize = 0;
    assert(t@.take(0) =~= Seq::<u8>::empty());
    while i < len
        invariant
            0 <= i <= len,
            len == t@.len(),
            0 < len,
            forall|j: int| 0 <= j < i ==> is_digit(#[trigger] t@[j]),
            val == dec_val(t@.take(i as int)),
        decreases len - i,
    {
        let b = t[i];
        if b < 48 || b > 57 {
            return None;
        }
        let d = (b - 48) as usize;
        let next = val.checked_mul(10);
        if next.is_none() || next.unwrap() > usize::MAX - d {
            proof {
                lemma_dec_val_take_step(t@, i as int);
                if is_digits(t@) {
                    lemma_dec_val_take_le(t@, i as int + 1);
                }
            }
            return None;
        }
        val = next.unwrap() + d;
        proof {
            lemma_dec_val_take_step(t@, i as int);
        }
        i += 1;
    }
    assert(t@.take(len as int) =~= t@);
    Some(val)
}

/// Parses a token as an unsigned byte value: succeeds exactly when the
/// token is non-empty, all digits, and its value is at most 255.
pub fn parse_u8(t: &Vec<u8>) -> (r: Option<u8>)
    ensures
        r == (if is_digits(t@) && dec_val(t@) <= 255 {
            Some(dec_val(t@) as u8)
        } else {
            None::<u8>
        }),
{
    match parse_usize(t) {
        Some(v) => if v <= 255 {
            Some(v as u8)
        } else {
            None
        },
        None => None,
    }
}

} // verus!
