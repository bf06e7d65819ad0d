//! Plain-text rendering: decimal numerals and fixed-width padding.
use vstd::prelude::*;

verus! {

/// The ASCII digit for `d ∈ [0, 10)`.
pub open spec fn digit_char(d: int) -> char {
    if d == 0 {
        '0'
    } else if d == 1 {
        '1'
    } else if d == 2 {
        '2'
    } else if d == 3 {
        '3'
    } else if d == 4 {
        '4'
    } else if d == 5 {
        '5'
    } else if d == 6 {
        '6'
    } else if d == 7 {
        '7'
    } else if d == 8 {
        '8'
    } else {
        '9'
    }
}

/// Decimal numeral of `v`, most significant digit first, no leading zeros.
pub open spec fn decimal(v: nat) -> Seq<char>
    decreases v,
{
    if v < 10 {
        seq![digit_char(v as int)]
    } else {
        decimal(v / 10) + seq![digit_char((v % 10) as int)]
    }
}

/// `n` spaces.
pub open spec fn spaces(n: nat) -> Seq<char> {
    Seq::new(n, |i: int| ' ')
}

/// `s` right-aligned in a field of width `w` (never truncated).
pub open spec fn right_aligned(s: Seq<char>, w: nat) -> Seq<char> {
    if s.len() < w {
        spaces((w - s.len()) as nat) + s
    } else {
        s
    }
}

/// `s` centred in a field of width `w`: the odd space goes to the right.
pub open spec fn centred(s: Seq<char>, w: nat) -> Seq<char> {
    if s.len() < w {
        let pad = (w - s.len()) as nat;
        spaces(pad / 2) + s + spaces((pad - pad / 2) as nat)
    } else {
        s
    }
}

fn push_digit(out: &mut String, d: u128)
    requires
        d < 10,
    ensures
        final(out)@ == old(out)@ + seq![digit_char(d as int)],
{
    if d == 0 {
        proof {
            reveal_strlit("0");
        }
        out.append("0");
    } else if d == 1 {
        proof {
            reveal_strlit("1");
        }
        out.append("1");
    } else if d == 2 {
        proof {
            reveal_strlit("2");
        }
        out.append("2");
    } else if d == 3 {
        proof {
            reveal_strlit("3");
        }
        out.append("3");
    } else if d == 4 {
        proof {
            reveal_strlit("4");
        }
        out.append("4");
    } else if d == 5 {
        proof {
            reveal_strlit("5");
        }
        out.append("5");
    } else if d == 6 {
        proof {
            reveal_strlit("6");
        }
        out.append("6");
    } else if d == 7 {
        proof {
            reveal_strlit("7");
        }
        out.append("7");
    } else if d == 8 {
        proof {
            reveal_strlit("8");
        }
        out.append("8");
    } else {
        proof {
            reveal_strlit("9");
        }
        out.append("9");
    }
}

/// Append the decimal numeral of `v`.
pub(crate) fn push_decimal(out: &mut String, v: u128)
    ensures
        final(out)@ == old(out)@ + decimal(v as nat),
    decreases v,
{
    if v >= 10 {
        push_decimal(out, v / 10);
    }
    push_digit(out, v % 10);
    proof {
        if v >= 10 {
            assert(decimal(v as nat) == decimal((v / 10) as nat) + seq![digit_char((v % 10) as int)]);
        } else {
            assert(v % 10 == v);
        }
    }
}

/// Number of decimal digits of `v`.
pub(crate) fn decimal_len(v: u128) -> (n: usize)
    ensures
        n == decimal(v as nat).len(),
        1 <= n <= 39,
    decreases v,
{
    if v < 10 {
        1
    } else {
        let m = decimal_len(v / 10);
        proof {
            assert(v / 10 < u128::MAX / 10 + 1);
            if m == 39 {
                lemma_decimal_len_bound((v / 10) as nat);
            }
        }
        m + 1
    }
}

proof fn lemma_decimal_len_bound(v: nat)
    requires
        v < 34028236692093846346337460743176821146,
    ensures
        decimal(v).len() <= 38,
{
    reveal_with_fuel(pow10, 38);
    assert(pow10(37) == 10000000000000000000000000000000000000);
    lemma_decimal_len_pow(v, 37, 10000000000000000000000000000000000000);
}

/// A numeral below `10^(e+1)` has at most `e + 1` digits.
proof fn lemma_decimal_len_pow(v: nat, e: nat, p: nat)
    requires
        v < 10 * p,
        p == pow10(e),
    ensures
        decimal(v).len() <= e + 1,
    decreases e,
{
    if v >= 10 {
        if e == 0 {
            assert(p == 1);
        } else {
            assert(pow10(e) == 10 * pow10((e - 1) as nat));
            lemma_decimal_len_pow(v / 10, (e - 1) as nat, pow10((e - 1) as nat));
        }
    }
}

/// `10^e`.
pub open spec fn pow10(e: nat) -> nat
    decreases e,
{
    if e == 0 {
        1
    } else {
        10 * pow10((e - 1) as nat)
    }
}

/// Append `n` spaces.
pub(crate) fn push_spaces(out: &mut String, n: usize)
    ensures
        final(out)@ == old(out)@ + spaces(n as nat),
{
    let ghost start = out@;
    let mut i: usize = 0;
    while i < n
        invariant
            i <= n,
            out@ == start + spaces(i as nat),
        decreases n - i,
    {
        proof {
            reveal_strlit(" ");
        }
        out.append(" ");
        i = i + 1;
        assert(out@ =~= start + spaces(i as nat));
    }
}

/// Append the numeral of `v` right-aligned in a field of width `w`.
pub(crate) fn push_right_aligned(out: &mut String, v: u128, w: usize)
    ensures
        final(out)@ == old(out)@ + right_aligned(decimal(v as nat), w as nat),
{
    let n = decimal_len(v);
    let ghost start = out@;
    if n < w {
        push_spaces(out, w - n);
    }
    push_decimal(out, v);
    proof {
        if n < w {
            assert(out@ =~= start + (spaces((w - n) as nat) + decimal(v as nat)));
        } else {
            assert(out@ =~= start + decimal(v as nat));
        }
    }
}

/// Append the numeral of `v` centred in a field of width `w`.
pub(crate) fn push_centred(out: &mut String, v: u128, w: usize)
    ensures
        final(out)@ == old(out)@ + centred(decimal(v as nat), w as nat),
{
    let n = decimal_len(v);
    let ghost start = out@;
    if n < w {
        let pad = w - n;
        push_spaces(out, pad / 2);
        push_decimal(out, v);
        push_spaces(out, pad - pad / 2);
        assert(out@ =~= start + (spaces((pad / 2) as nat) + decimal(v as nat) + spaces((pad - pad / 2) as nat)));
    } else {
        push_decimal(out, v);
    }
}

} // verus!
