//! Decimal rendering of machine integers, with a proof that distinct numbers
//! render to distinct strings. Edge identifiers and serialized counters are
//! built from these numerals, so their uniqueness rests on this module.

use vstd::prelude::*;

verus! {

/// The character for a single decimal digit.
pub open spec fn digit_char(d: nat) -> char {
    if d == 0 {
        '0'
    } else if d == 1 {
        '1'
    } else if d == 2 {
        '2'
    } else if d == 3 {
        '3'
    } else if d == 4 {
        '4'
    } else if d == 5 {
        '5'
    } else if d == 6 {
        '6'
    } else if d == 7 {
        '7'
    } else if d == 8 {
        '8'
    } else {
        '9'
    }
}

/// Decimal rendering of a natural number, most significant digit first,
/// without leading zeros (a single `'0'` for zero).
pub open spec fn dec_digits(n: nat) -> Seq<char>
    decreases n,
{
    if n < 10 {
        seq![digit_char(n)]
    } else {
        dec_digits(n / 10).push(digit_char(n % 10))
    }
}

/// The numeric value of a digit character (unspecified off the ten digits).
spec fn digit_val(c: char) -> nat {
    if c == '0' {
        0
    } else if c == '1' {
        1
    } else if c == '2' {
        2
    } else if c == '3' {
        3
    } else if c == '4' {
        4
    } else if c == '5' {
        5
    } else if c == '6' {
        6
    } else if c == '7' {
        7
    } else if c == '8' {
        8
    } else {
        9
    }
}

/// Reads a digit string back into the number it renders.
spec fn undec(s: Seq<char>) -> nat
    decreases s.len(),
{
    if s.len() == 0 {
        0
    } else {
        undec(s.drop_last()) * 10 + digit_val(s.last())
    }
}

/// `undec` inverts `dec_digits`, so rendering loses no information.
proof fn lemma_undec_dec(n: nat)
    ensures
        undec(dec_digits(n)) == n,
    decreases n,
{
    if n < 10 {
        let s = dec_digits(n);
        assert(s == seq![digit_char(n)]);
        assert(s.drop_last() =~= Seq::<char>::empty());
        assert(s.last() == digit_char(n));
        assert(undec(s) == undec(s.drop_last()) * 10 + digit_val(s.last()));
        assert(undec(Seq::<char>::empty()) == 0);
        assert(digit_val(digit_char(n)) == n);
    } else {
        lemma_undec_dec(n / 10);
        let s = dec_digits(n);
        assert(s == dec_digits(n / 10).push(digit_char(n % 10)));
        assert(s.drop_last() =~= dec_digits(n / 10));
        assert(s.last() == digit_char(n % 10));
        assert(undec(s) == undec(s.drop_last()) * 10 + digit_val(s.last()));
        assert(digit_val(digit_char(n % 10)) == n % 10);
        assert(n / 10 * 10 + n % 10 == n) by (nonlinear_arith);
    }
}

/// Distinct numbers have distinct decimal renderings.
pub proof fn lemma_dec_digits_injective(a: nat, b: nat)
    requires
        dec_digits(a) == dec_digits(b),
    ensures
        a == b,
{
    lemma_undec_dec(a);
    lemma_undec_dec(b);
}

/// The one-character string for a single decimal digit.
fn digit_str(d: u64) -> (r: &'static str)
    requires
        d < 10,
    ensures
        r@ == seq![digit_char(d as nat)],
{
    if d == 0 {
        let s = "0";
        proof {
            reveal_strlit("0");
        }
        assert(s@ =~= seq![digit_char(d as nat)]);
        s
    } else if d == 1 {
        let s = "1";
        proof {
            reveal_strlit("1");
        }
        assert(s@ =~= seq![digit_char(d as nat)]);
        s
    } else if d == 2 {
        let s = "2";
        proof {
            reveal_strlit("2");
        }
        assert(s@ =~= seq![digit_char(d as nat)]);
        s
    } else if d == 3 {
        let s = "3";
        proof {
            reveal_strlit("3");
        }
        assert(s@ =~= seq![digit_char(d as nat)]);
        s
    } else if d == 4 {
        let s = "4";
        proof {
            reveal_strlit("4");
        }
        assert(s@ =~= seq![digit_char(d as nat)]);
        s
    } else if d == 5 {
        let s = "5";
        proof {
            reveal_strlit("5");
        }
        assert(s@ =~= seq![digit_char(d as nat)]);
        s
    } else if d == 6 {
        let s = "6";
        proof {
            reveal_strlit("6");
        }
        assert(s@ =~= seq![digit_char(d as nat)]);
        s
    } else if d == 7 {
        let s = "7";
        proof {
            reveal_strlit("7");
        }
        assert(s@ =~= seq![digit_char(d as nat)]);
        s
    } else if d == 8 {
        let s = "8";
        proof {
            reveal_strlit("8");
        }
        assert(s@ =~= seq![digit_char(d as nat)]);
        s
    } else {
        let s = "9";
        proof {
            reveal_strlit("9");
        }
        assert(s@ =~= seq![digit_char(d as nat)]);
        s
    }
}

/// Renders `n` in decimal.
pub fn u64_to_dec(n: u64) -> (r: String)
    ensures
        r@ == dec_digits(n as nat),
    decreases n,
{
    if n < 10 {
        digit_str(n).to_owned()
    } else {
        let mut s = u64_to_dec(n / 10);
        s.append(digit_str(n % 10));
        assert(s@ =~= dec_digits(n as nat));
        s
    }
}

} // verus!
