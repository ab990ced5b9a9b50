//! Text for reports.
use vstd::prelude::*;
use vstd::string::StringExecFns;

verus! {

/// The character of the decimal digit `d`.
pub open spec fn digit_char(d: nat) -> char {
    if d == 0 {
        '0'
    } else if d == 1 {
        '1'
    } else if d == 2 {
        '2'
    } else if d == 3 {
        '3'
    } else if d == 4 {
        '4'
    } else if d == 5 {
        '5'
    } else if d == 6 {
        '6'
    } else if d == 7 {
        '7'
    } else if d == 8 {
        '8'
    } else {
        '9'
    }
}

/// `n` in decimal, without leading zeros.
pub open spec fn decimal(n: nat) -> Seq<char>
    decreases n,
{
    if n < 10 {
        seq![digit_char(n)]
    } else {
        decimal(n / 10) + seq![digit_char(n % 10)]
    }
}

/// `s` with spaces before it up to a length of `width`.
pub open spec fn pad_left(s: Seq<char>, width: nat) -> Seq<char> {
    if s.len() >= width {
        s
    } else {
        Seq::new((width - s.len()) as nat, |i: int| ' ') + s
    }
}

/// `numerator / denominator` as a percentage in thousandths, rounded to the
/// nearest, halves up.
pub open spec fn percent_thousandths(numerator: nat, denominator: nat) -> nat
    recommends
        denominator > 0,
{
    ((200000 * numerator + denominator) / (2 * denominator)) as nat
}

/// `numerator / denominator` as a percentage with three decimals, right
/// aligned in seven characters, then `%`; `NaN` for `0 / 0` and `inf` for
/// any other division by zero.
pub open spec fn percent_text(numerator: nat, denominator: nat) -> Seq<char> {
    if denominator == 0 {
        pad_left(
            if numerator == 0 {
                seq!['N', 'a', 'N']
            } else {
                seq!['i', 'n', 'f']
            },
            7,
        ) + seq!['%']
    } else {
        let t = percent_thousandths(numerator, denominator);
        let f = t % 1000;
        pad_left(
            decimal(t / 1000) + seq!['.', digit_char(f / 100), digit_char((f / 10) % 10), digit_char(f % 10)],
            7,
        ) + seq!['%']
    }
}

/// Appends the character of the digit `d`.
fn push_digit(s: &mut String, d: u128)
    requires
        d < 10,
    ensures
        final(s)@ == old(s)@ + seq![digit_char(d as nat)],
{
    proof {
        reveal_strlit("0");
        reveal_strlit("1");
        reveal_strlit("2");
        reveal_strlit("3");
        reveal_strlit("4");
        reveal_strlit("5");
        reveal_strlit("6");
        reveal_strlit("7");
        reveal_strlit("8");
        reveal_strlit("9");
    }
    if d == 0 {
        s.append("0");
    } else if d == 1 {
        s.append("1");
    } else if d == 2 {
        s.append("2");
    } else if d == 3 {
        s.append("3");
    } else if d == 4 {
        s.append("4");
    } else if d == 5 {
        s.append("5");
    } else if d == 6 {
        s.append("6");
    } else if d == 7 {
        s.append("7");
    } else if d == 8 {
        s.append("8");
    } else {
        s.append("9");
    }
}

/// Appends `n` in decimal.
fn push_decimal(s: &mut String, n: u128)
    ensures
        final(s)@ == old(s)@ + decimal(n as nat),
    decreases n,
{
    if n >= 10 {
        push_decimal(s, n / 10);
        push_digit(s, n % 10);
        assert(final(s)@ =~= old(s)@ + decimal(n as nat));
    } else {
        push_digit(s, n);
    }
}

/// Appends `k` spaces.
fn push_spaces(s: &mut String, k: usize)
    ensures
        final(s)@ == old(s)@ + Seq::new(k as nat, |i: int| ' '),
{
    proof {
        reveal_strlit(" ");
    }
    let mut i: usize = 0;
    while i < k
        invariant
            i <= k,
            s@ == old(s)@ + Seq::new(i as nat, |j: int| ' '),
        decreases k - i,
    {
        proof {
            reveal_strlit(" ");
        }
        s.append(" ");
        i = i + 1;
        assert(s@ =~= old(s)@ + Seq::new(i as nat, |j: int| ' '));
    }
}

/// `decimal(n)` has one digit below 10, two below 100, three below 1000.
proof fn lemma_decimal_len(n: nat)
    ensures
        n < 10 ==> decimal(n).len() == 1,
        10 <= n < 100 ==> decimal(n).len() == 2,
        100 <= n < 1000 ==> decimal(n).len() == 3,
        n >= 1000 ==> decimal(n).len() >= 4,
    decreases n,
{
    if n >= 10 {
        lemma_decimal_len(n / 10);
    }
}

/// `numerator / denominator` as a percentage with three decimals, right
/// aligned in seven characters, then `%`.
pub fn pretty_print_percent(numerator: u64, denominator: u64) -> (r: String)
    ensures
        r@ == percent_text(numerator as nat, denominator as nat),
{
    let mut r = String::new();
    proof {
        reveal_strlit("NaN");
        reveal_strlit("inf");
        reveal_strlit(".");
        reveal_strlit("%");
    }
    if denominator == 0 {
        push_spaces(&mut r, 4);
        if numerator == 0 {
            r.append("NaN");
        } else {
            r.append("inf");
        }
        r.append("%");
        assert(r@ =~= percent_text(numerator as nat, denominator as nat));
        return r;
    }
    let n = numerator as u128;
    let d = denominator as u128;
    let t = (200000 * n + d) / (2 * d);
    let whole = t / 1000;
    let f = t % 1000;
    proof {
        lemma_decimal_len(whole as nat);
    }
    let pad: usize = if whole < 10 {
        2
    } else if whole < 100 {
        1
    } else {
        0
    };
    push_spaces(&mut r, pad);
    push_decimal(&mut r, whole);
    r.append(".");
    push_digit(&mut r, f / 100);
    push_digit(&mut r, (f / 10) % 10);
    push_digit(&mut r, f % 10);
    r.append("%");
    assert(r@ =~= percent_text(numerator as nat, denominator as nat));
    r
}

} // verus!
