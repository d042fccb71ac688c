//! Decimal text: rendering integers for the JSON output, and reading the
//! `+N` / `-N` bodies of increment requests.

use vstd::prelude::*;

verus! {

/// The decimal digit character for `d` in `0 .. 10`.
pub open spec fn digit_char(d: int) -> char {
    if d == 0 {
        '0'
    } else if d == 1 {
        '1'
    } else if d == 2 {
        '2'
    } else if d == 3 {
        '3'
    } else if d == 4 {
        '4'
    } else if d == 5 {
        '5'
    } else if d == 6 {
        '6'
    } else if d == 7 {
        '7'
    } else if d == 8 {
        '8'
    } else {
        '9'
    }
}

/// Decimal text of a non-negative integer, most significant digit first.
pub open spec fn dec_nat(n: nat) -> Seq<char>
    decreases n,
{
    if n < 10 {
        seq![digit_char(n as int)]
    } else {
        dec_nat(n / 10) + seq![digit_char((n % 10) as int)]
    }
}

/// Decimal text of an integer: a leading minus sign when negative.
pub open spec fn dec_int(n: int) -> Seq<char> {
    if n < 0 {
        seq!['-'] + dec_nat((-n) as nat)
    } else {
        dec_nat(n as nat)
    }
}

fn digit_of(d: u64) -> (c: char)
    requires
        d < 10,
    ensures
        c == digit_char(d as int),
{
    match d {
        0 => '0',
        1 => '1',
        2 => '2',
        3 => '3',
        4 => '4',
        5 => '5',
        6 => '6',
        7 => '7',
        8 => '8',
        _ => '9',
    }
}

/// Appends the decimal text of `n` to `out`.
pub fn push_dec_u64(n: u64, out: &mut Vec<char>)
    ensures
        final(out)@ == old(out)@ + dec_nat(n as nat),
    decreases n,
{
    if n < 10 {
        out.push(digit_of(n));
        assert(out@ =~= old(out)@ + dec_nat(n as nat));
    } else {
        push_dec_u64(n / 10, out);
        out.push(digit_of(n % 10));
        assert(out@ =~= old(out)@ + dec_nat(n as nat));
    }
}

/// Appends the decimal text of `n` to `out`, with a minus sign when negative.
pub fn push_dec_i64(n: i64, out: &mut Vec<char>)
    ensures
        final(out)@ == old(out)@ + dec_int(n as int),
{
    if n < 0 {
        out.push('-');
        let m: u64 = if n == i64::MIN {
            9223372036854775808u64
        } else {
            (-n) as u64
        };
        assert(m as int == -(n as int));
        push_dec_u64(m, out);
        assert(out@ =~= old(out)@ + dec_int(n as int));
    } else {
        push_dec_u64(n as u64, out);
    }
}

/// Whether `c` is a decimal digit.
pub open spec fn is_digit(c: char) -> bool {
    0x30 <= c as u32 && c as u32 <= 0x39
}

/// The numeric value of a digit character.
pub open spec fn digit_val(c: char) -> int {
    c as u32 - 0x30
}

pub open spec fn all_digits(s: Seq<char>) -> bool {
    forall|i: int| 0 <= i < s.len() ==> is_digit(#[trigger] s[i])
}

/// Value of a digit string, most significant digit first.
pub open spec fn dec_val(s: Seq<char>) -> int
    decreases s.len(),
{
    if s.len() == 0 {
        0
    } else {
        dec_val(s.drop_last()) * 10 + digit_val(s.last())
    }
}

proof fn lemma_dec_val_nonneg(s: Seq<char>)
    requires
        all_digits(s),
    ensures
        dec_val(s) >= 0,
    decreases s.len(),
{
    if s.len() > 0 {
        assert(all_digits(s.drop_last()));
        lemma_dec_val_nonneg(s.drop_last());
    }
}

proof fn lemma_dec_val_prefix(s: Seq<char>, i: int)
    requires
        all_digits(s),
        0 <= i <= s.len(),
    ensures
        dec_val(s.take(i)) <= dec_val(s),
    decreases s.len(),
{
    if i < s.len() {
        assert(all_digits(s.drop_last()));
        assert(s.drop_last().take(i) =~= s.take(i));
        lemma_dec_val_prefix(s.drop_last(), i);
        lemma_dec_val_nonneg(s.drop_last());
    } else {
        assert(s.take(i) =~= s);
    }
}

/// The meaning of an increment request body: a sign and at least one digit,
/// naming a magnitude that fits a signed 64-bit integer; anything else is
/// malformed.
pub open spec fn delta_spec(s: Seq<char>) -> Option<i64> {
    if s.len() >= 2 && (s[0] == '+' || s[0] == '-') && all_digits(s.skip(1)) && dec_val(s.skip(1))
        <= i64::MAX {
        if s[0] == '+' {
            Some(dec_val(s.skip(1)) as i64)
        } else {
            Some((-dec_val(s.skip(1))) as i64)
        }
    } else {
        None
    }
}

/// Reads an increment request body of the form `+N` or `-N`. Returns the
/// signed amount, or `None` when the body is malformed or out of range.
pub fn parse_delta(s: &str) -> (r: Option<i64>)
    ensures
        r == delta_spec(s@),
{
    let cs = crate::strutil::str_chars(s);
    if cs.len() < 2 {
        return None;
    }
    let sign = cs[0];
    if !(sign == '+' || sign == '-') {
        return None;
    }
    let ghost digits = s@.skip(1);
    let mut acc: i64 = 0;
    let mut j: usize = 1;
    while j < cs.len()
        invariant
            1 <= j <= cs.len(),
            cs@ == s@,
            cs.len() >= 2,
            digits == s@.skip(1),
            all_digits(digits.take(j - 1)),
            0 <= acc,
            acc as int == dec_val(digits.take(j - 1)),
        decreases cs.len() - j,
    {
        let c = cs[j];
        let cv = c as u32;
        if !(0x30 <= cv && cv <= 0x39) {
            assert(!is_digit(digits[j - 1]));
            return None;
        }
        let d: i64 = (cv - 0x30) as i64;
        proof {
            assert(digits.take(j as int) =~= digits.take(j - 1).push(digits[j - 1]));
            assert(digits.take(j as int).drop_last() =~= digits.take(j - 1));
            assert(all_digits(digits.take(j as int)));
        }
        let next = match acc.checked_mul(10) {
            Some(m) => m.checked_add(d),
            None => None,
        };
        match next {
            Some(v) => {
                acc = v;
            },
            None => {
                proof {
                    assert(dec_val(digits.take(j as int)) > i64::MAX);
                    if all_digits(digits) && dec_val(digits) <= i64::MAX {
                        lemma_dec_val_prefix(digits, j as int);
                        assert(false);
                    }
                }
                return None;
            },
        }
        j += 1;
    }
    assert(digits.take(cs.len() - 1) =~= digits);
    if sign == '+' {
        Some(acc)
    } else {
        Some(-acc)
    }
}

} // verus!
