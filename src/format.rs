//! Human-readable rendering of iteration counts.

use vstd::arithmetic::power2::{
    lemma2_to64, lemma2_to64_rest, lemma_pow2_adds, lemma_pow2_pos, lemma_pow2_strictly_increases,
    lemma_pow2_unfold, pow2,
};
use vstd::prelude::*;

verus! {

/// The character of a decimal digit.
pub open spec fn digit_char(d: nat) -> char
    recommends
        d < 10,
{
    seq!['0', '1', '2', '3', '4', '5', '6', '7', '8', '9'][d as int]
}

/// The decimal digits of `n`, most significant first, without leading zeros.
pub open spec fn decimal(n: nat) -> Seq<char>
    decreases n,
{
    if n < 10 {
        seq![digit_char(n)]
    } else {
        decimal(n / 10).push(digit_char(n % 10))
    }
}

/// `n / d` rounded to the nearest integer, ties going to the even neighbour.
pub open spec fn round_half_even(n: nat, d: nat) -> nat
    recommends
        d > 0,
{
    let q = n / d;
    let r = n % d;
    if 2 * r > d || (2 * r == d && q % 2 == 1) {
        q + 1
    } else {
        q
    }
}

/// The position of the highest set bit of `x` (zero for zero and one).
pub open spec fn floor_log2(x: nat) -> nat
    decreases x,
{
    if x < 2 {
        0
    } else {
        1 + floor_log2(x / 2)
    }
}

/// The integer that an `f64` holds after converting `n` to it: `n` rounded to
/// 53 significant bits, ties to even.
pub open spec fn as_f64(n: nat) -> nat {
    if floor_log2(n) <= 52 {
        n
    } else {
        let k = (floor_log2(n) - 52) as nat;
        round_half_even(n, pow2(k)) * pow2(k)
    }
}

/// The number of binary places of an `f64` holding a value whose integer part
/// is `a / b` (below 2^53).
pub open spec fn quotient_places(a: nat, b: nat) -> nat {
    (52 - floor_log2(a / b)) as nat
}

/// The `f64` division `a / b`, correctly rounded to 53 significant bits with
/// ties to even, is this value over `2^quotient_places(a, b)`.
pub open spec fn quotient_mantissa(a: nat, b: nat) -> nat {
    round_half_even(a * pow2(quotient_places(a, b)), b)
}

/// The `f64` quotient `a / b` printed with no decimals: its exact binary value
/// rounded to a whole number, ties to even.
pub open spec fn whole_of_quotient(a: nat, b: nat) -> nat {
    round_half_even(quotient_mantissa(a, b), pow2(quotient_places(a, b)))
}

/// The `f64` quotient `a / b` printed with one decimal, as a count of tenths:
/// its exact binary value rounded to tenths, ties to even.
pub open spec fn tenths_of_quotient(a: nat, b: nat) -> nat {
    round_half_even(10 * quotient_mantissa(a, b), pow2(quotient_places(a, b)))
}

/// A count of tenths written with one decimal place (`12` is `1.2`).
pub open spec fn tenths(t: nat) -> Seq<char> {
    decimal(t / 10) + seq!['.'] + decimal(t % 10)
}

/// The text that `iter_count` gives for `n` iterations: the exact count below
/// ten thousand, then thousands, millions or billions. Those are the count
/// converted to `f64` and divided in `f64`, and the binary result is printed
/// rounded to a whole number or to one decimal place.
pub open spec fn iter_count_text(n: nat) -> Seq<char> {
    let x = as_f64(n);
    if n < 10_000 {
        decimal(n) + " iterations"@
    } else if n < 1_000_000 {
        decimal(whole_of_quotient(x, 1_000)) + "k iterations"@
    } else if n < 10_000_000 {
        tenths(tenths_of_quotient(x, 1_000_000)) + "M iterations"@
    } else if n < 1_000_000_000 {
        decimal(whole_of_quotient(x, 1_000_000)) + "M iterations"@
    } else if n < 10_000_000_000 {
        tenths(tenths_of_quotient(x, 1_000_000_000)) + "B iterations"@
    } else {
        decimal(whole_of_quotient(x, 1_000_000_000)) + "B iterations"@
    }
}

fn digit_str(d: u64) -> (r: &'static str)
    requires
        d < 10,
    ensures
        r@ == seq![digit_char(d as nat)],
{
    proof {
        reveal_strlit("0");
        reveal_strlit("1");
        reveal_strlit("2");
        reveal_strlit("3");
        reveal_strlit("4");
        reveal_strlit("5");
        reveal_strlit("6");
        reveal_strlit("7");
        reveal_strlit("8");
        reveal_strlit("9");
    }
    let r = match d {
        0 => "0",
        1 => "1",
        2 => "2",
        3 => "3",
        4 => "4",
        5 => "5",
        6 => "6",
        7 => "7",
        8 => "8",
        _ => "9",
    };
    assert(r@ =~= seq![digit_char(d as nat)]);
    r
}

fn push_decimal(s: &mut String, n: u128)
    ensures
        final(s)@ == old(s)@ + decimal(n as nat),
    decreases n,
{
    if n >= 10 {
        push_decimal(s, n / 10);
    }
    s.append(digit_str((n % 10) as u64));
    assert(final(s)@ =~= old(s)@ + decimal(n as nat));
}

fn push_tenths(s: &mut String, t: u128)
    ensures
        final(s)@ == old(s)@ + tenths(t as nat),
{
    push_decimal(s, t / 10);
    proof {
        reveal_strlit(".");
    }
    s.append(".");
    push_decimal(s, t % 10);
    assert(final(s)@ =~= old(s)@ + tenths(t as nat));
}

fn divide_rounded(n: u128, d: u128) -> (r: u128)
    requires
        d >= 1,
    ensures
        r as nat == round_half_even(n as nat, d as nat),
        r <= n / d + 1,
{
    let q = n / d;
    let r = n % d;
    assert(d >= 2 ==> q <= n / 2) by (nonlinear_arith)
        requires
            q == n / d,
    ;
    if r > d - r || (r == d - r && q % 2 == 1) {
        q + 1
    } else {
        q
    }
}

/// The highest set bit of `x` and the power of two it stands for.
fn highest_bit(x: u128) -> (r: (u128, u128))
    ensures
        r.0 == floor_log2(x as nat),
        r.1 == pow2(r.0 as nat),
        r.0 <= x,
        x >= 1 ==> r.1 <= x,
        x < 2 * r.1,
    decreases x,
{
    if x < 2 {
        proof {
            lemma2_to64();
        }
        (0, 1)
    } else {
        let (e, p) = highest_bit(x / 2);
        proof {
            lemma_pow2_unfold((e + 1) as nat);
        }
        (e + 1, 2 * p)
    }
}

fn power_of_two(k: u128) -> (r: u128)
    requires
        k <= 64,
    ensures
        r == pow2(k as nat),
{
    proof {
        lemma2_to64();
    }
    let mut r: u128 = 1;
    let mut i: u128 = 0;
    while i < k
        invariant
            i <= k <= 64,
            r == pow2(i as nat),
            pow2(64) == 0x10000000000000000,
        decreases k - i,
    {
        proof {
            lemma_pow2_unfold((i + 1) as nat);
            if i + 1 < 64 {
                lemma_pow2_strictly_increases((i + 1) as nat, 64);
            }
        }
        r = 2 * r;
        i = i + 1;
    }
    r
}

/// The integer value of `n as f64`.
fn to_f64_value(n: u64) -> (r: u128)
    ensures
        r == as_f64(n as nat),
        r <= 2 * n,
{
    let (e, p) = highest_bit(n as u128);
    if e <= 52 {
        n as u128
    } else {
        proof {
            lemma2_to64();
            if e > 64 {
                lemma_pow2_strictly_increases(64, e as nat);
            }
        }
        let k = e - 52;
        let pk = power_of_two(k);
        proof {
            lemma_pow2_strictly_increases(k as nat, e as nat);
        }
        let t = divide_rounded(n as u128, pk);
        assert(t * pk <= 2 * (n as int)) by (nonlinear_arith)
            requires
                t <= (n as int) / (pk as int) + 1,
                1 <= pk <= n,
        ;
        t * pk
    }
}

/// The `f64` quotient `a / b` as a mantissa and the power of two it is over.
fn f64_quotient(a: u128, b: u128) -> (r: (u128, u128))
    requires
        1 <= b <= 1_000_000_000,
        a / b < 0x20_0000_0000_0000,
    ensures
        r.0 == quotient_mantissa(a as nat, b as nat),
        r.1 == pow2(quotient_places(a as nat, b as nat)),
        r.0 <= 0x20_0000_0000_0000,
        r.1 >= 1,
{
    let q = a / b;
    let (e, p) = highest_bit(q);
    proof {
        lemma2_to64_rest();
        if e > 53 {
            lemma_pow2_strictly_increases(53, e as nat);
        }
    }
    let s = 52 - e;
    let ps = power_of_two(s);
    proof {
        lemma_pow2_adds(e as nat, s as nat);
        lemma_pow2_pos(s as nat);
    }
    assert(a * ps < b * 0x20_0000_0000_0000) by (nonlinear_arith)
        requires
            q == a / b,
            b >= 1,
            q < 2 * p,
            p * ps == 0x10_0000_0000_0000,
            ps >= 1,
    ;
    let m = divide_rounded(a * ps, b);
    assert((a * ps) / (b as int) < 0x20_0000_0000_0000) by (nonlinear_arith)
        requires
            a * ps < b * 0x20_0000_0000_0000,
            b >= 1,
    ;
    (m, ps)
}

/// `n as f64 / unit` printed with no decimals.
fn whole_quotient(n: u64, unit: u128) -> (r: u128)
    requires
        1_000 <= unit <= 1_000_000_000,
        (n as int) / (unit as int) < 0x10_0000_0000_0000,
    ensures
        r == whole_of_quotient(as_f64(n as nat), unit as nat),
{
    let a = to_f64_value(n);
    assert(a / unit < 0x20_0000_0000_0000) by (nonlinear_arith)
        requires
            a <= 2 * (n as int),
            unit >= 1,
            (n as int) / (unit as int) < 0x10_0000_0000_0000,
    ;
    let (m, ps) = f64_quotient(a, unit);
    divide_rounded(m, ps)
}

/// `n as f64 / unit` printed with one decimal, as a count of tenths.
fn tenths_quotient(n: u64, unit: u128) -> (r: u128)
    requires
        1_000 <= unit <= 1_000_000_000,
        (n as int) / (unit as int) < 0x10_0000_0000_0000,
    ensures
        r == tenths_of_quotient(as_f64(n as nat), unit as nat),
{
    let a = to_f64_value(n);
    assert(a / unit < 0x20_0000_0000_0000) by (nonlinear_arith)
        requires
            a <= 2 * (n as int),
            unit >= 1,
            (n as int) / (unit as int) < 0x10_0000_0000_0000,
    ;
    let (m, ps) = f64_quotient(a, unit);
    divide_rounded(10 * m, ps)
}

/// Render an iteration count, scaled to thousands, millions or billions once
/// it reaches ten thousand.
pub fn iter_count(iterations: u64) -> (r: String)
    ensures
        r@ == iter_count_text(iterations as nat),
{
    proof {
        reveal_strlit("");
    }
    let mut s = String::from_str("");
    let suffix: &str;
    if iterations < 10_000 {
        push_decimal(&mut s, iterations as u128);
        suffix = " iterations";
    } else if iterations < 1_000_000 {
        push_decimal(&mut s, whole_quotient(iterations, 1_000));
        suffix = "k iterations";
    } else if iterations < 10_000_000 {
        push_tenths(&mut s, tenths_quotient(iterations, 1_000_000));
        suffix = "M iterations";
    } else if iterations < 1_000_000_000 {
        push_decimal(&mut s, whole_quotient(iterations, 1_000_000));
        suffix = "M iterations";
    } else if iterations < 10_000_000_000 {
        push_tenths(&mut s, tenths_quotient(iterations, 1_000_000_000));
        suffix = "B iterations";
    } else {
        push_decimal(&mut s, whole_quotient(iterations, 1_000_000_000));
        suffix = "B iterations";
    }
    s.append(suffix);
    assert(s@ =~= iter_count_text(iterations as nat));
    s
}

} // verus!
