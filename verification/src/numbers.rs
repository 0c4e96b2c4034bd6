//! Decimal integer literals: the numeric value of a digit string, its
//! canonical decimal spelling, and a verified parser into the 64-bit signed
//! range. The round-trip law says that parsing a digit run without leading
//! zeros and spelling the value again gives back exactly the original run.

use vstd::prelude::*;
use vstd::arithmetic::div_mod::lemma_fundamental_div_mod_converse;
use vstd::string::StrSliceExecFns;

use crate::mylexer::push_char;

verus! {

/// A decimal digit character.
pub open spec fn is_digit_char(c: char) -> bool {
    48 <= c as int && c as int <= 57
}

/// Every character of the text is a decimal digit.
pub open spec fn all_digits(s: Seq<char>) -> bool {
    forall|i: int| 0 <= i < s.len() ==> is_digit_char(#[trigger] s[i])
}

/// Numeric value of a digit string, most significant digit first.
pub open spec fn digits_val(s: Seq<char>) -> int
    decreases s.len(),
{
    if s.len() == 0 {
        0
    } else {
        digits_val(s.drop_last()) * 10 + (s.last() as int - 48)
    }
}

/// The digit character of a value below ten.
pub open spec fn digit_char(n: int) -> char {
    (48 + n) as char
}

/// Canonical decimal spelling of a non-negative value.
pub open spec fn dec_digits(n: int) -> Seq<char>
    decreases n,
{
    if n < 10 {
        seq![digit_char(n)]
    } else {
        dec_digits(n / 10) + seq![digit_char(n % 10)]
    }
}

pub proof fn lemma_digits_val_nonneg(s: Seq<char>)
    requires
        all_digits(s),
    ensures
        0 <= digits_val(s),
    decreases s.len(),
{
    if s.len() > 0 {
        assert(all_digits(s.drop_last()));
        lemma_digits_val_nonneg(s.drop_last());
    }
}

/// A digit string that does not start with `0` has a positive value.
pub proof fn lemma_digits_val_first_nonzero(s: Seq<char>)
    requires
        all_digits(s),
        s.len() >= 1,
        s[0] != '0',
    ensures
        1 <= digits_val(s),
    decreases s.len(),
{
    if s.len() == 1 {
        assert(s.last() == s[0]);
        assert(s[0] as int != 48);
    } else {
        assert(all_digits(s.drop_last()));
        assert(s.drop_last()[0] == s[0]);
        lemma_digits_val_first_nonzero(s.drop_last());
    }
}

/// A prefix of a digit string never has a larger value than the whole.
pub proof fn lemma_digits_val_prefix(s: Seq<char>, k: int)
    requires
        all_digits(s),
        0 <= k <= s.len(),
    ensures
        digits_val(s.subrange(0, k)) <= digits_val(s),
    decreases s.len() - k,
{
    if k < s.len() {
        let a = s.subrange(0, k);
        let b = s.subrange(0, k + 1);
        assert(b.drop_last() =~= a);
        assert(b.last() == s[k]);
        assert(all_digits(a));
        lemma_digits_val_nonneg(a);
        assert(digits_val(b) == digits_val(a) * 10 + (s[k] as int - 48));
        lemma_digits_val_prefix(s, k + 1);
    } else {
        assert(s.subrange(0, k) =~= s);
    }
}

/// Round trip: spelling the value of a digit run (with no leading zeros
/// beyond a single `0`) in decimal gives back exactly the run.
pub proof fn lemma_dec_round_trip(s: Seq<char>)
    requires
        all_digits(s),
        s.len() >= 1,
        s.len() == 1 || s[0] != '0',
    ensures
        dec_digits(digits_val(s)) == s,
    decreases s.len(),
{
    broadcast use vstd::utf8::char_u32_cast;

    if s.len() == 1 {
        assert(s.drop_last().len() == 0);
        assert(digits_val(s.drop_last()) == 0);
        assert(s.last() == s[0]);
        assert(digits_val(s) == s[0] as int - 48);
        assert(48 <= s[0] as u32 <= 57);
        assert(digit_char(digits_val(s)) == s[0]);
        assert(dec_digits(digits_val(s)) =~= s);
    } else {
        let s2 = s.drop_last();
        let d = s.last() as int - 48;
        let v2 = digits_val(s2);
        let v = digits_val(s);
        assert(all_digits(s2));
        assert(s2[0] == s[0]);
        lemma_dec_round_trip(s2);
        lemma_digits_val_first_nonzero(s2);
        assert(v == v2 * 10 + d);
        assert(10 <= v2 * 10);
        lemma_fundamental_div_mod_converse(v, 10, v2, d);
        assert(dec_digits(v) == dec_digits(v2) + seq![digit_char(d)]);
        assert(digit_char(d) == s.last());
        assert(dec_digits(v2) + seq![digit_char(d)] =~= s);
    }
}

/// Parse a run of decimal digits as a non-negative 64-bit signed integer.
/// The value is returned exactly when the text consists of one or more
/// decimal digits and the value fits the type; any other text, and any run
/// whose value is too large, is rejected.
pub fn parse_dec_i64(s: &str) -> (r: Option<i64>)
    ensures
        r == (if all_digits(s@) && s@.len() >= 1 && digits_val(s@) <= i64::MAX {
            Some(digits_val(s@) as i64)
        } else {
            None::<i64>
        }),
{
    let n = s.unicode_len();
    if n == 0 {
        return None;
    }
    let mut i: usize = 0;
    let mut acc: u64 = 0;
    while i < n
        invariant
            n == s@.len(),
            0 <= i <= n,
            all_digits(s@.subrange(0, i as int)),
            acc as int == digits_val(s@.subrange(0, i as int)),
            acc <= 0x7fff_ffff_ffff_ffff,
        decreases n - i,
    {
        let c = s.get_char(i);
        let v = c as u32;
        if v < 48 || v > 57 {
            proof {
                assert(!is_digit_char(s@[i as int]));
            }
            return None;
        }
        let d = (v - 48) as u64;
        proof {
            assert(s@.subrange(0, i as int + 1).drop_last() =~= s@.subrange(0, i as int));
            assert(s@.subrange(0, i as int + 1).last() == s@[i as int]);
            assert(all_digits(s@.subrange(0, i as int + 1)));
            assert(digits_val(s@.subrange(0, i as int + 1)) == acc as int * 10 + d as int);
        }
        let limit: u64 = 922337203685477580;
        if acc > limit || (acc == limit && d > 7) {
            proof {
                if all_digits(s@) {
                    lemma_digits_val_prefix(s@, i as int + 1);
                }
            }
            return None;
        }
        acc = acc * 10 + d;
        i = i + 1;
    }
    proof {
        assert(s@.subrange(0, n as int) =~= s@);
    }
    Some(acc as i64)
}

/// Spell a value in decimal, exactly as `dec_digits` says: together with
/// `parse_dec_i64` this makes the round-trip law checkable on real values.
pub fn dec_string(n: u64) -> (r: String)
    ensures
        r@ == dec_digits(n as int),
    decreases n,
{
    broadcast use vstd::utf8::char_u32_cast;

    if n < 10 {
        let mut s = String::new();
        let digit: u8 = 48 + (n as u8);
        push_char(&mut s, digit as char);
        proof {
            assert(s@ =~= seq![digit_char(n as int)]);
        }
        s
    } else {
        let mut s = dec_string(n / 10);
        let digit: u8 = 48 + ((n % 10) as u8);
        push_char(&mut s, digit as char);
        proof {
            assert((n as int) / 10 == (n / 10) as int);
            assert((n as int) % 10 == (n % 10) as int);
            assert(s@ =~= dec_digits((n / 10) as int) + seq![digit_char((n % 10) as int)]);
        }
        s
    }
}

} // verus!
