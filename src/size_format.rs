//! Human-readable byte counts in binary (1024-based) units, with two decimals.
use vstd::prelude::*;

verus! {

/// Bytes in one kibibyte; each unit is this many times the previous one.
pub const STEP: u64 = 1024;

/// `1024` raised to the power `k`.
pub open spec fn pow1024(k: nat) -> nat
    decreases k,
{
    if k == 0 {
        1
    } else {
        1024 * pow1024((k - 1) as nat)
    }
}

/// Index of the unit a byte count is shown in: 0 for B, 1 for KB, 2 for MB,
/// 3 for GB and 4 for TB. It is the largest unit whose size does not exceed
/// the count, stopping at TB.
pub open spec fn unit_index(b: nat) -> nat {
    if b < pow1024(1) {
        0
    } else if b < pow1024(2) {
        1
    } else if b < pow1024(3) {
        2
    } else if b < pow1024(4) {
        3
    } else {
        4
    }
}

/// Symbol of the unit with the given index.
pub open spec fn unit_symbol(k: nat) -> Seq<char> {
    if k == 0 {
        seq!['B']
    } else if k == 1 {
        seq!['K', 'B']
    } else if k == 2 {
        seq!['M', 'B']
    } else if k == 3 {
        seq!['G', 'B']
    } else {
        seq!['T', 'B']
    }
}

/// `n / d` rounded to the nearest integer, ties going to the even neighbour
/// (as two-decimal formatting of the exact quotient rounds).
pub open spec fn div_round_half_even(n: nat, d: nat) -> nat
    recommends
        d > 0,
{
    let q = n / d;
    let r = n % d;
    if 2 * r > d || (2 * r == d && q % 2 == 1) {
        q + 1
    } else {
        q
    }
}

/// The count scaled to the unit with index `k`, in hundredths, rounded to the
/// nearest hundredth.
pub open spec fn hundredths_in(b: nat, k: nat) -> nat {
    div_round_half_even(b * 100, pow1024(k))
}

/// The unit a byte count is shown in: the one `unit_index` picks, or the next
/// one where rounding would bring the figure up to 1024.00 below TB.
pub open spec fn shown_unit(b: nat) -> nat {
    let k = unit_index(b);
    if k < 4 && hundredths_in(b, k) >= 102400 {
        k + 1
    } else {
        k
    }
}

/// The figure shown for a byte count, in hundredths.
pub open spec fn scaled_hundredths(b: nat) -> nat {
    hundredths_in(b, shown_unit(b))
}

/// The decimal digit character for `d < 10`.
pub open spec fn digit_char(d: nat) -> char {
    if d == 0 {
        '0'
    } else if d == 1 {
        '1'
    } else if d == 2 {
        '2'
    } else if d == 3 {
        '3'
    } else if d == 4 {
        '4'
    } else if d == 5 {
        '5'
    } else if d == 6 {
        '6'
    } else if d == 7 {
        '7'
    } else if d == 8 {
        '8'
    } else {
        '9'
    }
}

/// The decimal numeral of `n`, without leading zeros.
pub open spec fn decimal(n: nat) -> Seq<char>
    decreases n,
{
    if n < 10 {
        seq![digit_char(n)]
    } else {
        decimal(n / 10).push(digit_char(n % 10))
    }
}

/// A count of hundredths written as a number with exactly two decimals.
pub open spec fn two_decimals(h: nat) -> Seq<char> {
    decimal(h / 100) + seq!['.', digit_char((h % 100) / 10), digit_char(h % 10)]
}

/// The text shown for a byte count: the scaled figure with two decimals, a
/// space, and the unit symbol.
pub open spec fn size_text(b: nat) -> Seq<char> {
    two_decimals(scaled_hundredths(b)) + seq![' '] + unit_symbol(shown_unit(b))
}

proof fn lemma_pow1024_values()
    ensures
        pow1024(0) == 1,
        pow1024(1) == 1024,
        pow1024(2) == 1048576,
        pow1024(3) == 1073741824,
        pow1024(4) == 1099511627776,
        pow1024(5) == 1125899906842624,
{
    reveal_with_fuel(pow1024, 6);
}

proof fn lemma_rounded_below(b: nat, d: nat, m: nat)
    requires
        d > 0,
        b < m * d,
    ensures
        div_round_half_even(b * 100, d) <= 100 * m,
{
    let q = (b * 100) / d;
    let r = (b * 100) % d;
    assert(q * d + r == b * 100 && 0 <= r < d) by (nonlinear_arith)
        requires
            d > 0,
            q == (b * 100) / d,
            r == (b * 100) % d,
    ;
    assert(q < 100 * m) by (nonlinear_arith)
        requires
            q * d + r == b * 100,
            b < m * d,
            r >= 0,
            d > 0,
    ;
}

/// Every byte count is shown in one of the five units. The unit is at least
/// the one `unit_index` picks, so the scaled value is at least 1 (bytes
/// aside). Below the largest unit the two-decimal figure shown is below
/// 1024.00; in the largest unit it may be any size.
pub proof fn lemma_unit_bounds(b: nat)
    ensures
        unit_index(b) <= 4,
        unit_index(b) > 0 ==> pow1024(unit_index(b)) <= b,
        unit_index(b) < 4 ==> b < pow1024(unit_index(b) + 1),
        unit_index(b) <= shown_unit(b) <= 4,
        shown_unit(b) < 4 ==> scaled_hundredths(b) < 102400,
{
    lemma_pow1024_values();
    let k = unit_index(b);
    if k < 4 && hundredths_in(b, k) >= 102400 && k + 1 < 4 {
        let d = pow1024(k + 1);
        assert(b < 1 * d);
        lemma_rounded_below(b, d, 1);
    }
}

/// The string literal holding the digit `d < 10`.
fn digit_str(d: u128) -> (r: &'static str)
    requires
        d < 10,
    ensures
        r@ == seq![digit_char(d as nat)],
{
    proof {
        reveal_strlit("0");
        reveal_strlit("1");
        reveal_strlit("2");
        reveal_strlit("3");
        reveal_strlit("4");
        reveal_strlit("5");
        reveal_strlit("6");
        reveal_strlit("7");
        reveal_strlit("8");
        reveal_strlit("9");
    }
    if d == 0 {
        "0"
    } else if d == 1 {
        "1"
    } else if d == 2 {
        "2"
    } else if d == 3 {
        "3"
    } else if d == 4 {
        "4"
    } else if d == 5 {
        "5"
    } else if d == 6 {
        "6"
    } else if d == 7 {
        "7"
    } else if d == 8 {
        "8"
    } else {
        "9"
    }
}

/// Appends the decimal numeral of `n` to `s`.
fn append_decimal(s: &mut String, n: u128)
    ensures
        final(s)@ == old(s)@ + decimal(n as nat),
    decreases n,
{
    if n >= 10 {
        append_decimal(s, n / 10);
    }
    s.append(digit_str(n % 10));
    proof {
        if n >= 10 {
            assert(decimal(n as nat) == decimal((n / 10) as nat).push(digit_char((n % 10) as nat)));
        }
    }
    assert(s@ =~= old(s)@ + decimal(n as nat));
}

/// Which unit a byte count is shown in (see `unit_index`).
pub fn unit_of(b: u64) -> (k: usize)
    ensures
        k as nat == unit_index(b as nat),
{
    proof {
        lemma_pow1024_values();
    }
    if b < STEP {
        0
    } else if b < STEP * STEP {
        1
    } else if b < STEP * STEP * STEP {
        2
    } else if b < STEP * STEP * STEP * STEP {
        3
    } else {
        4
    }
}

/// The size of the unit with index `k`, in bytes.
fn unit_size(k: usize) -> (r: u128)
    requires
        k <= 4,
    ensures
        r as nat == pow1024(k as nat),
        0 < r <= 1099511627776,
{
    proof {
        lemma_pow1024_values();
    }
    let step = STEP as u128;
    if k == 0 {
        1
    } else if k == 1 {
        step
    } else if k == 2 {
        step * step
    } else if k == 3 {
        step * step * step
    } else {
        step * step * step * step
    }
}

/// `n / d` rounded to the nearest integer, ties to even.
fn round_div(n: u128, d: u128) -> (r: u128)
    requires
        0 < d <= 1099511627776,
        n <= u64::MAX as u128 * 100,
    ensures
        r as nat == div_round_half_even(n as nat, d as nat),
{
    let q = n / d;
    let rem = n % d;
    assert(q <= n) by (nonlinear_arith)
        requires
            q == n / d,
            d > 0,
    ;
    if 2 * rem > d || (2 * rem == d && q % 2 == 1) {
        q + 1
    } else {
        q
    }
}

/// The unit symbol with index `k`.
fn unit_str(k: usize) -> (r: &'static str)
    requires
        k <= 4,
    ensures
        r@ == unit_symbol(k as nat),
{
    proof {
        reveal_strlit("B");
        reveal_strlit("KB");
        reveal_strlit("MB");
        reveal_strlit("GB");
        reveal_strlit("TB");
    }
    if k == 0 {
        "B"
    } else if k == 1 {
        "KB"
    } else if k == 2 {
        "MB"
    } else if k == 3 {
        "GB"
    } else {
        "TB"
    }
}

/// Writes a byte count in binary units: `1024` gives `"1.00 KB"`, `0` gives
/// `"0.00 B"`, and counts of a tebibyte or more stay in TB.
pub fn format_bytes(b: u64) -> (r: String)
    ensures
        r@ == size_text(b as nat),
        shown_unit(b as nat) < 4 ==> scaled_hundredths(b as nat) < 102400,
{
    proof {
        lemma_unit_bounds(b as nat);
    }
    let n: u128 = (b as u128) * 100;
    let mut k = unit_of(b);
    let mut h = round_div(n, unit_size(k));
    if k < 4 && h >= 102400 {
        k = k + 1;
        h = round_div(n, unit_size(k));
    }
    assert(k as nat == shown_unit(b as nat));
    assert(h as nat == scaled_hundredths(b as nat));
    let mut s = String::new();
    append_decimal(&mut s, h / 100);
    proof {
        reveal_strlit(".");
        reveal_strlit(" ");
    }
    s.append(".");
    s.append(digit_str((h % 100) / 10));
    s.append(digit_str(h % 10));
    s.append(" ");
    s.append(unit_str(k));
    assert(s@ =~= size_text(b as nat));
    s
}

} // verus!
