//! Decimal numerals as character sequences: the numeral of a natural number,
//! its value, and an in-place increment that never overflows.

use vstd::prelude::*;
use vstd::arithmetic::power::pow;

verus! {

/// The decimal digit character for `d` (for `d < 10`).
pub open spec fn digit_char(d: nat) -> char {
    if d == 0 {
        '0'
    } else if d == 1 {
        '1'
    } else if d == 2 {
        '2'
    } else if d == 3 {
        '3'
    } else if d == 4 {
        '4'
    } else if d == 5 {
        '5'
    } else if d == 6 {
        '6'
    } else if d == 7 {
        '7'
    } else if d == 8 {
        '8'
    } else {
        '9'
    }
}

/// The value of a decimal digit character (`'0'` to `'9'`).
pub open spec fn digit_value(c: char) -> nat {
    if c == '1' {
        1
    } else if c == '2' {
        2
    } else if c == '3' {
        3
    } else if c == '4' {
        4
    } else if c == '5' {
        5
    } else if c == '6' {
        6
    } else if c == '7' {
        7
    } else if c == '8' {
        8
    } else if c == '9' {
        9
    } else {
        0
    }
}

/// `c` is one of `'0'` to `'9'`.
pub open spec fn is_digit(c: char) -> bool {
    c == '0' || c == '1' || c == '2' || c == '3' || c == '4' || c == '5' || c == '6' || c == '7'
        || c == '8' || c == '9'
}

/// The decimal numeral of `n`, without leading zeros (as `format!("{n}")`).
pub open spec fn dec(n: nat) -> Seq<char>
    decreases n,
{
    if n < 10 {
        seq![digit_char(n)]
    } else {
        dec(n / 10).push(digit_char(n % 10))
    }
}

/// The number a sequence of digit characters denotes.
pub open spec fn numeral_value(s: Seq<char>) -> nat
    decreases s.len(),
{
    if s.len() == 0 {
        0
    } else {
        numeral_value(s.drop_last()) * 10 + digit_value(s.last())
    }
}

/// A numeral is non-empty, made of digits, and denotes `n`.
pub proof fn lemma_dec_facts(n: nat)
    ensures
        dec(n).len() >= 1,
        forall|i: int| 0 <= i < dec(n).len() ==> is_digit(#[trigger] dec(n)[i]),
        numeral_value(dec(n)) == n,
        n < pow(10, dec(n).len()),
    decreases n,
{
    if n >= 10 {
        lemma_dec_facts(n / 10);
        let d = dec(n / 10);
        assert(dec(n).drop_last() == d);
        assert(dec(n).last() == digit_char(n % 10));
        assert(digit_value(digit_char(n % 10)) == n % 10);
        assert(n == (n / 10) * 10 + n % 10);
        assert(numeral_value(dec(n)) == numeral_value(d) * 10 + digit_value(dec(n).last()));
        assert(numeral_value(dec(n)) == n);
        vstd::arithmetic::power::lemma_pow_adds(10, d.len(), 1);
        vstd::arithmetic::power::lemma_pow1(10);
        assert(n / 10 < pow(10, d.len()));
        assert(n < pow(10, d.len()) * 10) by (nonlinear_arith)
            requires
                n / 10 < pow(10, d.len()),
                n >= 0,
        ;
    } else {
        assert(seq![digit_char(n)].drop_last() =~= Seq::<char>::empty());
        assert(digit_value(digit_char(n)) == n);
        let one = seq![digit_char(n)];
        assert(dec(n) == one);
        assert(one.last() == digit_char(n));
        assert(numeral_value(one) == numeral_value(one.drop_last()) * 10 + digit_value(one.last()));
        assert(numeral_value(one.drop_last()) == 0);
        vstd::arithmetic::power::lemma_pow1(10);
    }
}

/// Different numbers have different numerals.
pub proof fn lemma_dec_injective(a: nat, b: nat)
    requires
        dec(a) == dec(b),
    ensures
        a == b,
{
    lemma_dec_facts(a);
    lemma_dec_facts(b);
}

/// How the numeral of `n + 1` is obtained from that of `n`.
pub proof fn lemma_dec_succ(n: nat)
    ensures
        n % 10 < 9 ==> dec(n + 1) == dec(n).drop_last().push(digit_char(n % 10 + 1)),
        n == 9 ==> dec(n + 1) == seq!['1', '0'],
        n % 10 == 9 && n > 9 ==> dec(n + 1) == dec(n / 10 + 1).push('0') && dec(n).drop_last()
            == dec(n / 10),
{
    if n >= 10 {
        assert(dec(n).drop_last() == dec(n / 10));
    }
    if n == 9 {
        assert(dec(10) == dec(1).push('0'));
        assert(dec(1) == seq!['1']);
    }
}

/// The digit after `c` (for `c` in `'0'` to `'8'`).
fn next_digit(c: char) -> (r: char)
    requires
        is_digit(c),
        c != '9',
    ensures
        r == digit_char(digit_value(c) + 1),
{
    if c == '0' {
        '1'
    } else if c == '1' {
        '2'
    } else if c == '2' {
        '3'
    } else if c == '3' {
        '4'
    } else if c == '4' {
        '5'
    } else if c == '5' {
        '6'
    } else if c == '6' {
        '7'
    } else if c == '7' {
        '8'
    } else {
        '9'
    }
}

/// Turns the numeral of `n` into the numeral of `n + 1`.
pub(crate) fn increment_numeral(d: &mut Vec<char>, Ghost(n): Ghost<nat>)
    requires
        old(d)@ == dec(n),
    ensures
        final(d)@ == dec(n + 1),
    decreases n,
{
    proof {
        lemma_dec_facts(n);
        lemma_dec_succ(n);
    }
    let c = d.pop().unwrap();
    proof {
        if n >= 10 {
            assert(dec(n).last() == digit_char(n % 10));
        }
        assert(c == digit_char(n % 10));
        assert(d@ == dec(n).drop_last());
    }
    if c != '9' {
        let nc = next_digit(c);
        d.push(nc);
    } else if d.len() == 0 {
        d.push('1');
        d.push('0');
    } else {
        proof {
            assert(n > 9);
        }
        increment_numeral(d, Ghost(n / 10));
        d.push('0');
    }
}

} // verus!
