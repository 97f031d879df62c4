//! Decimal text for the engine's integers, and the one string-building
//! helper the crate relies on.

use vstd::prelude::*;
use vstd::string::StrSliceExecFns;
use crate::{UInt, UINT_MAX};

verus! {

/// Relies on String::push: appends one character at the end.
#[verifier::external_body]
pub(crate) fn push_char(s: &mut String, c: char)
    ensures
        final(s)@ == old(s)@.push(c),
{
    s.push(c)
}

/// The character for one decimal digit.
pub open spec fn digit_char(d: int) -> char {
    if d == 0 {
        '0'
    } else if d == 1 {
        '1'
    } else if d == 2 {
        '2'
    } else if d == 3 {
        '3'
    } else if d == 4 {
        '4'
    } else if d == 5 {
        '5'
    } else if d == 6 {
        '6'
    } else if d == 7 {
        '7'
    } else if d == 8 {
        '8'
    } else {
        '9'
    }
}

/// The decimal text of a nonnegative integer, most significant digit first,
/// without leading zeros (except for zero itself).
pub open spec fn dec_digits(n: int) -> Seq<char>
    decreases n,
        when n >= 0
{
    if n < 10 {
        seq![digit_char(n)]
    } else {
        dec_digits(n / 10) + seq![digit_char(n % 10)]
    }
}

/// The character is a decimal digit.
pub open spec fn is_digit(c: char) -> bool {
    48 <= c as int <= 57
}

/// The value of one digit character.
pub open spec fn digit_val(c: char) -> int {
    c as int - 48
}

/// Every character of the sequence is a decimal digit.
pub open spec fn all_digits(s: Seq<char>) -> bool {
    forall|i: int| 0 <= i < s.len() ==> is_digit(#[trigger] s[i])
}

/// The value of a sequence of digit characters, most significant first.
pub open spec fn digits_val(s: Seq<char>) -> int
    decreases s.len(),
{
    if s.len() == 0 {
        0
    } else {
        digits_val(s.drop_last()) * 10 + digit_val(s.last())
    }
}

/// What parsing decimal text yields: the value of the digits after an
/// optional leading plus sign, provided there is at least one digit, every
/// character is a digit, and the value fits.
pub open spec fn parse_dec(s: Seq<char>) -> Option<UInt> {
    let body = if s.len() > 0 && s[0] == '+' {
        s.drop_first()
    } else {
        s
    };
    if body.len() == 0 || !all_digits(body) || digits_val(body) > UINT_MAX {
        None
    } else {
        Some(digits_val(body) as UInt)
    }
}

/// Writes a number as decimal text.
pub fn u32_to_string(n: UInt) -> (r: String)
    ensures
        r@ == dec_digits(n as int),
    decreases n,
{
    if n < 10 {
        let mut s = String::new();
        push_char(&mut s, digit_char_exec(n));
        proof {
            assert(s@ =~= seq![digit_char(n as int)]);
        }
        s
    } else {
        let mut s = u32_to_string(n / 10);
        push_char(&mut s, digit_char_exec(n % 10));
        proof {
            assert(s@ =~= dec_digits(n as int / 10) + seq![digit_char(n as int % 10)]);
        }
        s
    }
}

/// The character for one decimal digit.
fn digit_char_exec(d: UInt) -> (r: char)
    requires
        d < 10,
    ensures
        r == digit_char(d as int),
{
    if d == 0 {
        '0'
    } else if d == 1 {
        '1'
    } else if d == 2 {
        '2'
    } else if d == 3 {
        '3'
    } else if d == 4 {
        '4'
    } else if d == 5 {
        '5'
    } else if d == 6 {
        '6'
    } else if d == 7 {
        '7'
    } else if d == 8 {
        '8'
    } else {
        '9'
    }
}

/// Reads a number from decimal text; see [`parse_dec`] for exactly which
/// texts are accepted.
pub fn parse_u32(s: &str) -> (r: Option<UInt>)
    ensures
        r == parse_dec(s@),
{
    let ghost sv = s@;
    let n = s.unicode_len();
    let start: usize = if n > 0 && s.get_char(0) == '+' {
        1
    } else {
        0
    };
    let ghost body = if sv.len() > 0 && sv[0] == '+' {
        sv.drop_first()
    } else {
        sv
    };
    proof {
        assert(body =~= sv.subrange(start as int, n as int));
    }
    if n == start {
        return None;
    }
    let mut v: UInt = 0;
    let mut i: usize = start;
    proof {
        assert(sv.subrange(start as int, start as int) =~= Seq::<char>::empty());
    }
    while i < n
        invariant
            n == sv.len(),
            sv == s@,
            start <= i <= n,
            body == sv.subrange(start as int, n as int),
            start == 0 || (start == 1 && sv[0] == '+'),
            start == 0 ==> !(sv.len() > 0 && sv[0] == '+'),
            forall|j: int| start <= j < i ==> is_digit(#[trigger] sv[j]),
            v == digits_val(sv.subrange(start as int, i as int)),
        decreases n - i,
    {
        let c = s.get_char(i);
        let cv = c as u32;
        proof {
            assert(cv == c as int);
        }
        if cv < 48 || cv > 57 {
            proof {
                assert(!is_digit(sv[i as int]));
                assert(body[i - start] == sv[i as int]);
                assert(!all_digits(body));
            }
            return None;
        }
        let digit = cv - 48;
        let wide: u64 = (v as u64) * 10 + (digit as u64);
        proof {
            assert(sv.subrange(start as int, i as int + 1).drop_last() =~= sv.subrange(
                start as int,
                i as int,
            ));
            assert(sv.subrange(start as int, i as int + 1).last() == sv[i as int]);
        }
        if wide > UINT_MAX as u64 {
            proof {
                let pre = sv.subrange(start as int, i as int + 1);
                assert(digit_val(sv[i as int]) == digit);
                assert(digits_val(pre) == digits_val(sv.subrange(start as int, i as int)) * 10
                    + digit_val(sv[i as int]));
                assert(digits_val(pre) == wide);
                if all_digits(body) {
                    assert(pre =~= body.subrange(0, i as int + 1 - start));
                    lemma_digits_val_prefix_le(body, i as int + 1 - start);
                    assert(digits_val(body) >= digits_val(pre));
                    assert(digits_val(body) > UINT_MAX);
                }
                assert(body == (if sv.len() > 0 && sv[0] == '+' {
                    sv.drop_first()
                } else {
                    sv
                }));
                assert(body.len() > 0);
                assert(parse_dec(sv) == None::<UInt>);
            }
            return None;
        }
        v = wide as UInt;
        i = i + 1;
    }
    proof {
        assert(body =~= sv.subrange(start as int, n as int));
        assert(all_digits(body)) by {
            assert(forall|j: int|
                0 <= j < body.len() ==> #[trigger] body[j] == sv[j + start]);
        }
    }
    Some(v)
}

/// Digit values are nonnegative.
pub proof fn lemma_digits_val_nonneg(s: Seq<char>)
    requires
        all_digits(s),
    ensures
        digits_val(s) >= 0,
    decreases s.len(),
{
    if s.len() > 0 {
        assert(forall|i: int|
            0 <= i < s.drop_last().len() ==> #[trigger] s.drop_last()[i] == s[i]);
        lemma_digits_val_nonneg(s.drop_last());
    }
}

/// A prefix of a digit string is worth no more than the whole.
pub proof fn lemma_digits_val_prefix_le(s: Seq<char>, k: int)
    requires
        all_digits(s),
        0 <= k <= s.len(),
    ensures
        digits_val(s.subrange(0, k)) <= digits_val(s),
    decreases s.len() - k,
{
    if k < s.len() {
        lemma_digits_val_prefix_le(s, k + 1);
        let pre = s.subrange(0, k);
        let pre1 = s.subrange(0, k + 1);
        assert(pre1.drop_last() =~= pre);
        assert(pre1.last() == s[k]);
        assert(forall|i: int| 0 <= i < pre.len() ==> #[trigger] pre[i] == s[i]);
        lemma_digits_val_nonneg(pre);
        assert(digits_val(pre) <= digits_val(pre) * 10 + digit_val(s[k])) by (nonlinear_arith)
            requires
                digits_val(pre) >= 0,
                digit_val(s[k]) >= 0,
        ;
    } else {
        assert(s.subrange(0, k) =~= s);
    }
}

/// Decimal text round trip: the text of `n` is all digits, nonempty, does
/// not start with a plus sign, and reads back as `n`.
pub proof fn lemma_dec_digits_val(n: int)
    requires
        0 <= n,
    ensures
        all_digits(dec_digits(n)),
        digits_val(dec_digits(n)) == n,
        dec_digits(n).len() >= 1,
        dec_digits(n)[0] != '+',
    decreases n,
{
    if n < 10 {
        assert(dec_digits(n) =~= seq![digit_char(n)]);
        assert(is_digit(digit_char(n)));
        assert(digit_val(digit_char(n)) == n);
        assert(seq![digit_char(n)].drop_last() =~= Seq::<char>::empty());
        assert(digits_val(Seq::<char>::empty()) == 0);
        assert(digits_val(seq![digit_char(n)]) == digit_val(digit_char(n)));
    } else {
        vstd::arithmetic::div_mod::lemma_fundamental_div_mod(n, 10);
        vstd::arithmetic::div_mod::lemma_mod_division_less_than_divisor(n, 10);
        vstd::arithmetic::div_mod::lemma_div_pos_is_pos(n, 10);
        lemma_dec_digits_val(n / 10);
        let s = dec_digits(n);
        let hd = dec_digits(n / 10);
        assert(s == hd + seq![digit_char(n % 10)]);
        assert(s.drop_last() =~= hd);
        assert(s.last() == digit_char(n % 10));
        assert(is_digit(digit_char(n % 10)));
        assert(digit_val(digit_char(n % 10)) == n % 10);
        assert(digits_val(s) == (n / 10) * 10 + n % 10);
        assert(10 * (n / 10) == (n / 10) * 10) by (nonlinear_arith);
        assert(forall|i: int| 0 <= i < hd.len() ==> #[trigger] s[i] == hd[i]);
        assert(all_digits(s));
    }
}

/// Reading the decimal text of a value that fits gives back the value.
pub proof fn lemma_dec_roundtrip(n: int)
    requires
        0 <= n <= UINT_MAX,
    ensures
        parse_dec(dec_digits(n)) == Some(n as UInt),
{
    lemma_dec_digits_val(n);
    let s = dec_digits(n);
    assert(is_digit(s[0]));
    assert(s[0] as int != 43);
    assert('+' as int == 43);
}

} // verus!
