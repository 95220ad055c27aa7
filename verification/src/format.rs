//! Turning raw numbers into human-friendly text.
//!
//! The sizes are shown the way a 64-bit float prints them: the count is first taken as the
//! nearest double, scaled down by 1024 per unit, and then written with one decimal rounded
//! half to even. Every step is computed here on integers, exactly.

use vstd::prelude::*;
use vstd::string::*;
use vstd::arithmetic::power2::*;

use crate::text::{decimal, decimal_string, digit_char, digit_str};

verus! {

/// Quotient of `a / b` rounded to the nearest integer, ties to the even one.
pub open spec fn round_half_even(a: nat, b: nat) -> nat
    recommends
        b > 0,
{
    let q = a / b;
    let r = a % b;
    if 2 * r > b || (2 * r == b && q % 2 == 1) {
        q + 1
    } else {
        q
    }
}

/// The number of binary digits of `n` (0 for 0).
pub open spec fn bit_len(n: nat) -> nat
    decreases n,
{
    if n == 0 {
        0
    } else {
        1 + bit_len(n / 2)
    }
}

/// The double nearest to `n` (the value of `n as f64` for a machine integer): `n` rounded to
/// 53 significant bits, ties to even.
pub open spec fn nearest_double(n: nat) -> nat {
    if n < pow2(53) {
        n
    } else {
        let s = (bit_len(n) - 53) as nat;
        round_half_even(n, pow2(s)) * pow2(s)
    }
}

/// The unit names, from bytes up to terabytes.
pub open spec fn unit_name(u: nat) -> Seq<char> {
    if u == 0 {
        "B"@
    } else if u == 1 {
        "KB"@
    } else if u == 2 {
        "MB"@
    } else if u == 3 {
        "GB"@
    } else {
        "TB"@
    }
}

/// `1024` to the power `u`, for the units in use.
pub open spec fn unit_size(u: nat) -> nat {
    if u == 0 {
        1
    } else if u == 1 {
        1024
    } else if u == 2 {
        1048576
    } else if u == 3 {
        1073741824
    } else {
        1099511627776
    }
}

/// The largest unit (at most terabytes) that `x` reaches.
pub open spec fn unit_index(x: nat) -> nat {
    if x >= unit_size(4) {
        4
    } else if x >= unit_size(3) {
        3
    } else if x >= unit_size(2) {
        2
    } else if x >= unit_size(1) {
        1
    } else {
        0
    }
}

/// A quantity counted in tenths, written with one decimal: `12.3`.
pub open spec fn tenths_text(t: nat) -> Seq<char> {
    decimal(t / 10) + seq!['.', digit_char(t % 10)]
}

/// The text for `n` bytes: whole bytes below 1 KB (`512 B`), otherwise the size in the
/// largest unit it reaches, with one decimal rounded half to even (`1.5 KB`).
pub open spec fn bytes_text(n: nat) -> Seq<char> {
    let x = nearest_double(n);
    let u = unit_index(x);
    if u == 0 {
        decimal(n) + " B"@
    } else {
        tenths_text(round_half_even(10 * x, unit_size(u))) + seq![' '] + unit_name(u)
    }
}

/// Exact `round_half_even` on machine integers.
fn div_round_half_even(a: u128, b: u128) -> (q: u128)
    requires
        b > 0,
        a / b < u128::MAX,
    ensures
        q == round_half_even(a as nat, b as nat),
{
    let q = a / b;
    let r = a % b;
    if r > b - r || (r == b - r && q % 2 == 1) {
        q + 1
    } else {
        q
    }
}

/// `2^s` as a machine integer.
fn pow2_u128(s: u32) -> (p: u128)
    requires
        s < 128,
    ensures
        p == pow2(s as nat),
{
    let mut p: u128 = 1;
    let mut i: u32 = 0;
    proof {
        lemma2_to64();
    }
    while i < s
        invariant
            i <= s < 128,
            p == pow2(i as nat),
        decreases s - i,
    {
        proof {
            lemma_pow2_unfold((i + 1) as nat);
            lemma_pow2_strictly_increases((i + 1) as nat, 128);
            lemma2_to64_rest();
            assert(pow2(128) == 0x1_0000_0000_0000_0000_0000_0000_0000_0000) by {
                lemma_pow2_adds(64, 64);
            }
        }
        p = p * 2;
        i = i + 1;
    }
    p
}

proof fn lemma_pow2_le(a: nat, b: nat)
    requires
        a <= b,
    ensures
        pow2(a) <= pow2(b),
{
    if a < b {
        lemma_pow2_strictly_increases(a, b);
    }
}

proof fn lemma_bit_len_bound(n: nat)
    ensures
        n < pow2(bit_len(n)),
        n > 0 ==> pow2((bit_len(n) - 1) as nat) <= n,
    decreases n,
{
    if n > 0 {
        lemma_bit_len_bound(n / 2);
        lemma_pow2_unfold(bit_len(n));
        if n / 2 > 0 {
            lemma_pow2_unfold((bit_len(n) - 1) as nat);
        } else {
            lemma2_to64();
        }
    } else {
        lemma2_to64();
    }
}

/// The number of binary digits of `n`.
fn bit_len_u128(n: u128) -> (l: u32)
    ensures
        l == bit_len(n as nat),
        l <= 128,
{
    let mut m = n;
    let mut l: u32 = 0;
    proof {
        lemma_bit_len_bound(n as nat);
        assert(pow2(128) == 0x1_0000_0000_0000_0000_0000_0000_0000_0000) by {
            lemma2_to64();
            lemma_pow2_adds(64, 64);
        }
        if bit_len(n as nat) > 128 {
            lemma_pow2_le(128, (bit_len(n as nat) - 1) as nat);
        }
    }
    while m > 0
        invariant
            l + bit_len(m as nat) == bit_len(n as nat),
            l <= 128 - bit_len(m as nat),
        decreases m,
    {
        m = m / 2;
        l = l + 1;
    }
    l
}

proof fn lemma_bit_len_shift(n: nat, k: nat)
    requires
        n >= pow2(k),
    ensures
        bit_len(n) == bit_len(n / pow2(k)) + k,
    decreases k,
{
    lemma_pow2_pos(k);
    if k == 0 {
        lemma2_to64();
        assert(n / 1 == n);
    } else {
        lemma_pow2_unfold(k);
        let h = pow2((k - 1) as nat);
        lemma_pow2_pos((k - 1) as nat);
        assert(n / 2 >= h) by {
            vstd::arithmetic::div_mod::lemma_div_is_ordered((2 * h) as int, n as int, 2);
        }
        lemma_bit_len_shift(n / 2, (k - 1) as nat);
        vstd::arithmetic::div_mod::lemma_div_denominator(n as int, 2, h as int);
        assert(n / pow2(k) == (n / 2) / h);
        assert(bit_len(n) == 1 + bit_len(n / 2));
    }
}

/// The value of `n as f64`, exactly.
fn float_of_u64(n: u64) -> (x: u128)
    ensures
        x == nearest_double(n as nat),
        x <= 0x1_0000_0000_0000_0000,
        n >= 1 ==> x >= 1,
{
    proof {
        lemma2_to64();
        lemma2_to64_rest();
    }
    if n < 0x20_0000_0000_0000 {
        n as u128
    } else {
        let l = bit_len_u128(n as u128);
        proof {
            lemma_bit_len_bound(n as nat);
            if l > 64 {
                lemma_pow2_le(64, (l - 1) as nat);
            }
            if l < 54 {
                lemma_pow2_le(l as nat, 53);
            }
        }
        let s = l - 53;
        let p = pow2_u128(s);
        proof {
            lemma_pow2_pos(s as nat);
            assert(s <= 11);
            lemma_pow2_le(s as nat, 11);
            assert(pow2(11) == 2048) by { lemma2_to64(); }
        }
        let q = div_round_half_even(n as u128, p);
        proof {
            lemma_pow2_adds(53, s as nat);
            assert(pow2(53) == 0x20_0000_0000_0000) by { lemma2_to64_rest(); }
            let big = pow2(l as nat);
            assert(big == 0x20_0000_0000_0000 * p);
            assert(p * 0x20_0000_0000_0000 == 0x20_0000_0000_0000 * p) by (nonlinear_arith);
            vstd::arithmetic::div_mod::lemma_multiply_divide_lt(n as int, p as int, 0x20_0000_0000_0000int);
            assert(q <= 0x20_0000_0000_0000);
            lemma_pow2_le(l as nat, 64);
            assert(pow2(64) == 0x1_0000_0000_0000_0000) by { lemma2_to64_rest(); }
            assert(q * p <= 0x20_0000_0000_0000 * p) by (nonlinear_arith)
                requires q <= 0x20_0000_0000_0000, p > 0;
            assert(p <= n);
            vstd::arithmetic::div_mod::lemma_div_is_ordered(p as int, n as int, p as int);
            vstd::arithmetic::div_mod::lemma_div_by_self(p as int);
            assert(q * p >= 1) by (nonlinear_arith)
                requires q >= 1, p >= 1;
        }
        q * p
    }
}

/// The unit name as a string.
fn unit_str(u: u128) -> (s: &'static str)
    requires
        1 <= u <= 4,
    ensures
        s@ == unit_name(u as nat),
{
    if u == 1 {
        "KB"
    } else if u == 2 {
        "MB"
    } else if u == 3 {
        "GB"
    } else {
        "TB"
    }
}

/// Format a byte count like `1.4 GB` or `812 KB`.
pub fn bytes(n: u64) -> (s: String)
    ensures
        s@ == bytes_text(n as nat),
{
    let x = float_of_u64(n);
    let (u, size): (u128, u128) = if x >= 1099511627776 {
        (4, 1099511627776)
    } else if x >= 1073741824 {
        (3, 1073741824)
    } else if x >= 1048576 {
        (2, 1048576)
    } else if x >= 1024 {
        (1, 1024)
    } else {
        (0, 1)
    };
    if u == 0 {
        let mut s = decimal_string(n as u128);
        proof {
            reveal_strlit(" B");
        }
        s.append(" B");
        s
    } else {
        let t = div_round_half_even(10 * x, size);
        let mut s = decimal_string(t / 10);
        s.append(".");
        s.append(digit_str(t % 10));
        s.append(" ");
        s.append(unit_str(u));
        proof {
            reveal_strlit(".");
            reveal_strlit(" ");
            assert(s@ =~= tenths_text(t as nat) + seq![' '] + unit_name(u as nat));
        }
        s
    }
}

/// Milliseconds in a duration of `secs` seconds and `nanos` nanoseconds, whole ones.
pub open spec fn millis(secs: nat, nanos: nat) -> nat {
    secs * 1000 + nanos / 1_000_000
}

/// The least `k` from `start` up to 30 with `nanos * 2^k >= 10^9` (30 when there is none).
pub open spec fn nanos_shift(nanos: nat, start: nat) -> nat
    decreases 30 - start,
{
    if start >= 30 || nanos * pow2(start) >= 1_000_000_000 {
        start
    } else {
        nanos_shift(nanos, start + 1)
    }
}

/// The double nearest to `nanos / 10^9`, times `2^82`: the quotient `nanos` by `10^9`
/// rounded to 53 significant bits, ties to even.
pub open spec fn nanos_fraction(nanos: nat) -> nat {
    if nanos == 0 {
        0
    } else {
        let k = nanos_shift(nanos, 1);
        round_half_even(nanos * pow2(52 + k), 1_000_000_000) * pow2((30 - k) as nat)
    }
}

/// A duration in seconds as a double (`secs as f64 + nanos as f64 / 1e9`), times `2^52`.
/// The sum of the two doubles is rounded to 53 significant bits, ties to even.
pub open spec fn seconds_value(secs: nat, nanos: nat) -> nat {
    nearest_double(nearest_double(secs) * pow2(82) + nanos_fraction(nanos)) / pow2(30)
}

/// The text for a duration: whole milliseconds below one second (`820 ms`), otherwise the
/// seconds with one decimal rounded half to even (`2.4 s`).
pub open spec fn duration_text(secs: nat, nanos: nat) -> Seq<char> {
    let ms = millis(secs, nanos);
    if ms < 1000 {
        decimal(ms) + " ms"@
    } else {
        tenths_text(round_half_even(10 * seconds_value(secs, nanos), pow2(52))) + " s"@
    }
}

/// The double nearest to `nanos / 10^9`, times `2^82`.
fn nanos_fraction_u128(nanos: u32) -> (a: u128)
    requires
        nanos < 1_000_000_000,
    ensures
        a == nanos_fraction(nanos as nat),
        a <= pow2(82),
{
    if nanos == 0 {
        return 0;
    }
    proof {
        lemma2_to64();
    }
    let mut k: u32 = 1;
    let mut p: u128 = 2;
    proof {
        assert((nanos as nat) * p <= 1_000_000_000 * 0x4000_0000) by (nonlinear_arith)
            requires p == 2, nanos < 1_000_000_000;
    }
    while k < 30 && (nanos as u128) * p < 1_000_000_000
        invariant
            1 <= k <= 30,
            p == pow2(k as nat),
            p <= 0x4000_0000,
            (nanos as nat) * p <= 1_000_000_000 * 0x4000_0000,
            nanos_shift(nanos as nat, 1) == nanos_shift(nanos as nat, k as nat),
            k > 1 ==> (nanos as nat) * pow2((k - 1) as nat) < 1_000_000_000,
            0 < nanos < 1_000_000_000,
        decreases 30 - k,
    {
        proof {
            lemma2_to64();
            lemma_pow2_unfold((k + 1) as nat);
            assert(p * 2 <= 0x4000_0000) by {
                lemma_pow2_le((k + 1) as nat, 30);
            }
        }
        p = p * 2;
        k = k + 1;
        proof {
            assert((nanos as nat) * p <= 1_000_000_000 * 0x4000_0000) by (nonlinear_arith)
                requires p <= 0x4000_0000, nanos < 1_000_000_000;
        }
    }
    proof {
        lemma_pow2_le(k as nat, 30);
        assert((nanos as nat) * pow2(k as nat) < 2_000_000_000) by {
            if k > 1 {
                lemma_pow2_unfold(k as nat);
                let h = pow2((k - 1) as nat);
                assert((nanos as nat) * (2 * h) == 2 * ((nanos as nat) * h)) by (nonlinear_arith);
            }
        }
    }
    let big = pow2_u128(52 + k);
    proof {
        lemma_pow2_adds(52, k as nat);
        assert(pow2(52) == 0x10_0000_0000_0000) by { lemma2_to64_rest(); }
        assert((nanos as nat) * big < 2_000_000_000 * 0x10_0000_0000_0000) by (nonlinear_arith)
            requires
                (nanos as nat) * pow2(k as nat) < 2_000_000_000,
                big == pow2(k as nat) * 0x10_0000_0000_0000,
        ;
    }
    let sig = div_round_half_even(nanos as u128 * big, 1_000_000_000);
    proof {
        vstd::arithmetic::div_mod::lemma_multiply_divide_lt(
            (nanos as nat * big) as int, 1_000_000_000, 0x20_0000_0000_0000int);
        assert(sig <= 0x20_0000_0000_0000);
    }
    let low = pow2_u128(30 - k);
    proof {
        lemma_pow2_adds((30 - k) as nat, 53);
        lemma_pow2_le((30 - k) as nat, 29);
        assert(pow2(53) == 0x20_0000_0000_0000) by { lemma2_to64_rest(); }
        assert(sig * low <= 0x20_0000_0000_0000 * low) by (nonlinear_arith)
            requires sig <= 0x20_0000_0000_0000;
        assert(pow2((30 - k) as nat) * pow2(53) <= pow2(82)) by {
            lemma_pow2_adds((30 - k) as nat, 53);
            lemma_pow2_le(((30 - k) as nat + 53) as nat, 82);
        }
    }
    sig * low
}

/// A duration of `secs` seconds (at least one) and `nanos` nanoseconds as a double, times `2^52`.
fn seconds_u128(secs: u64, nanos: u32) -> (v: u128)
    requires
        secs >= 1,
        nanos < 1_000_000_000,
    ensures
        v == seconds_value(secs as nat, nanos as nat),
        v <= 0x20_0000_0000_0000_0000_0000_0000_0000,
{
    let sf = float_of_u64(secs);
    let a = nanos_fraction_u128(nanos);
    proof {
        lemma2_to64();
        lemma2_to64_rest();
        lemma_pow2_adds(52, 30);
        lemma_pow2_adds(64, 18);
        assert(pow2(82) == 0x4_0000_0000_0000_0000_0000);
    }
    let xhi: u128 = sf * 0x10_0000_0000_0000 + a / 0x4000_0000;
    let xlo: u128 = a % 0x4000_0000;
    let ghost x: nat = (sf as nat) * pow2(82) + a as nat;
    proof {
        assert(x == xhi * 0x4000_0000 + xlo) by (nonlinear_arith)
            requires
                x == (sf as nat) * 0x4_0000_0000_0000_0000_0000 + a as nat,
                xhi == sf * 0x10_0000_0000_0000 + a / 0x4000_0000,
                xlo == a % 0x4000_0000,
                a as int == 0x4000_0000 * (a as int / 0x4000_0000) + (a as int % 0x4000_0000),
        {}
        vstd::arithmetic::div_mod::lemma_fundamental_div_mod(a as int, 0x4000_0000);
        vstd::arithmetic::div_mod::lemma_fundamental_div_mod_converse(
            x as int, 0x4000_0000, xhi as int, xlo as int);
        assert(x >= pow2(82));
        lemma_pow2_le(53, 82);
        lemma_pow2_le(30, 82);
        lemma_bit_len_shift(x, 30);
        assert(xhi >= 0x10_0000_0000_0000);
    }
    let lhi = bit_len_u128(xhi);
    proof {
        lemma_bit_len_bound(xhi as nat);
        if lhi < 53 {
            lemma_pow2_le(lhi as nat, 52);
        }
        lemma_pow2_adds(64, 53);
        assert(xhi < pow2(117));
        if lhi > 117 {
            lemma_pow2_le(117, (lhi - 1) as nat);
        }
    }
    let dp = pow2_u128(lhi - 53);
    let q = xhi / dp;
    let rh = xhi % dp;
    proof {
        lemma_pow2_pos((lhi - 53) as nat);
        lemma_pow2_le((lhi - 53) as nat, 64);
        lemma_pow2_adds(53, (lhi - 53) as nat);
        vstd::arithmetic::div_mod::lemma_multiply_divide_lt(xhi as int, dp as int, 0x20_0000_0000_0000int);
    }
    let r: u128 = rh * 0x4000_0000 + xlo;
    let full: u128 = dp * 0x4000_0000;
    let q2: u128 = if r > full - r || (r == full - r && q % 2 == 1) {
        q + 1
    } else {
        q
    };
    proof {
        let d = (lhi - 23) as nat;
        lemma_pow2_adds((lhi - 53) as nat, 30);
        assert(pow2(d) == full);
        assert(bit_len(x) == lhi + 30);
        vstd::arithmetic::div_mod::lemma_fundamental_div_mod(xhi as int, dp as int);
        assert(x == q * full + r && r < full) by (nonlinear_arith)
            requires
                x == xhi * 0x4000_0000 + xlo,
                xhi as int == dp * (xhi as int / dp as int) + (xhi as int % dp as int),
                q == xhi / dp,
                rh == xhi % dp,
                rh < dp,
                xlo < 0x4000_0000,
                r == rh * 0x4000_0000 + xlo,
                full == dp * 0x4000_0000,
        {}
        vstd::arithmetic::div_mod::lemma_fundamental_div_mod_converse(x as int, full as int, q as int, r as int);
        assert(nearest_double(x) == q2 * full);
        assert(q2 * full == (q2 * dp) * 0x4000_0000) by (nonlinear_arith)
            requires full == dp * 0x4000_0000;
        vstd::arithmetic::div_mod::lemma_fundamental_div_mod_converse(
            (q2 * full) as int, 0x4000_0000, (q2 * dp) as int, 0);
        assert(q2 * dp <= 0x20_0000_0000_0000 * 0x1_0000_0000_0000_0000) by (nonlinear_arith)
            requires q2 <= 0x20_0000_0000_0000, dp <= 0x1_0000_0000_0000_0000;
    }
    q2 * dp
}

/// Format a duration of `secs` seconds and `nanos` nanoseconds like `820 ms` or `2.4 s`.
pub fn duration(secs: u64, nanos: u32) -> (s: String)
    requires
        nanos < 1_000_000_000,
    ensures
        s@ == duration_text(secs as nat, nanos as nat),
{
    let ms: u128 = secs as u128 * 1000 + (nanos / 1_000_000) as u128;
    if ms < 1000 {
        let mut s = decimal_string(ms);
        proof {
            reveal_strlit(" ms");
        }
        s.append(" ms");
        return s;
    }
    let v = seconds_u128(secs, nanos);
    proof {
        lemma2_to64_rest();
    }
    let t = div_round_half_even(10 * v, 0x10_0000_0000_0000);
    let mut s = decimal_string(t / 10);
    s.append(".");
    s.append(digit_str(t % 10));
    s.append(" s");
    proof {
        reveal_strlit(".");
        reveal_strlit(" s");
        assert(s@ =~= tenths_text(t as nat) + " s"@);
    }
    s
}

/// Counts below 1 KB are written in whole bytes: `512 B`.
pub proof fn small_counts_stay_in_bytes(n: nat)
    requires
        n < 1024,
    ensures
        bytes_text(n) == decimal(n) + " B"@,
{
    lemma2_to64_rest();
}

/// A whole number of units, below 1024 of them, is written with `.0`: `3.0 GB`.
pub proof fn whole_units_print_point_zero(k: nat, u: nat)
    requires
        1 <= u <= 4,
        1 <= k < 1024,
    ensures
        bytes_text(k * unit_size(u)) == decimal(k) + seq!['.', '0', ' '] + unit_name(u),
{
    let p = unit_size(u);
    let n = k * p;
    lemma2_to64_rest();
    assert(n < 1024 * p) by (nonlinear_arith)
        requires n == k * p, k < 1024, p > 0;
    assert(n >= p) by (nonlinear_arith)
        requires n == k * p, k >= 1, p > 0;
    assert(1024 * unit_size(4) < pow2(53));
    assert(n < pow2(53));
    assert(nearest_double(n) == n);
    assert(unit_index(n) == u);
    assert(10 * n == (10 * k) * p) by (nonlinear_arith)
        requires n == k * p;
    vstd::arithmetic::div_mod::lemma_fundamental_div_mod_converse((10 * n) as int, p as int, (10 * k) as int, 0);
    assert(round_half_even(10 * n, p) == 10 * k);
    assert((10 * k) / 10 == k);
    assert((10 * k) % 10 == 0);
    assert(tenths_text(10 * k) =~= decimal(k) + seq!['.', '0']);
    assert(bytes_text(n) =~= decimal(k) + seq!['.', '0', ' '] + unit_name(u));
}

/// A whole number of seconds is written with `.0`: `3.0 s`.
pub proof fn whole_seconds_print_point_zero(secs: nat)
    requires
        1 <= secs < pow2(52),
    ensures
        duration_text(secs, 0) == decimal(secs) + seq!['.', '0'] + " s"@,
{
    lemma2_to64_rest();
    lemma_pow2_strictly_increases(52, 53);
    assert(nearest_double(secs) == secs);
    assert(nanos_fraction(0) == 0);
    let x = secs * pow2(82);
    lemma_pow2_pos(82);
    vstd::arithmetic::div_mod::lemma_fundamental_div_mod_converse(x as int, pow2(82) as int, secs as int, 0);
    lemma_pow2_le(0, 82);
    assert(x >= pow2(82)) by (nonlinear_arith)
        requires x == secs * pow2(82), secs >= 1;
    lemma_bit_len_shift(x, 82);
    let l = bit_len(secs);
    lemma_bit_len_bound(secs);
    if l > 52 {
        lemma_pow2_le(52, (l - 1) as nat);
    }
    assert(l >= 1);
    let d = (l + 29) as nat;
    let m = (53 - l) as nat;
    lemma_pow2_adds(m, d);
    lemma_pow2_pos(d);
    lemma_pow2_pos(m);
    assert(x == (secs * pow2(m)) * pow2(d)) by (nonlinear_arith)
        requires x == secs * pow2(82), pow2(82) == pow2(m) * pow2(d);
    vstd::arithmetic::div_mod::lemma_fundamental_div_mod_converse(x as int, pow2(d) as int, (secs * pow2(m)) as int, 0);
    lemma_pow2_le(53, 82);
    assert(x >= pow2(53));
    assert(bit_len(x) - 53 == d);
    assert(round_half_even(x, pow2(d)) == secs * pow2(m));
    assert(nearest_double(x) == x);
    lemma_pow2_adds(52, 30);
    assert(x == (secs * pow2(52)) * pow2(30)) by (nonlinear_arith)
        requires x == secs * pow2(82), pow2(82) == pow2(52) * pow2(30);
    lemma_pow2_pos(30);
    vstd::arithmetic::div_mod::lemma_fundamental_div_mod_converse(x as int, pow2(30) as int, (secs * pow2(52)) as int, 0);
    assert(seconds_value(secs, 0) == secs * pow2(52));
    lemma_pow2_pos(52);
    assert(10 * (secs * pow2(52)) == (10 * secs) * pow2(52)) by (nonlinear_arith);
    vstd::arithmetic::div_mod::lemma_fundamental_div_mod_converse(
        (10 * (secs * pow2(52))) as int, pow2(52) as int, (10 * secs) as int, 0);
    assert(round_half_even(10 * seconds_value(secs, 0), pow2(52)) == 10 * secs);
    assert(millis(secs, 0) >= 1000);
    assert(tenths_text(10 * secs) =~= decimal(secs) + seq!['.', '0']);
}

/// Rounding to the nearest, ties to even: the rounded quotient `t` of `a / b` is at most half a
/// step away from it (`|a - t * b| <= b / 2`), and at exactly half a step `t` is even. Sizes
/// and durations are rounded to tenths this way.
pub proof fn rounding_is_nearest_half_even(a: nat, b: nat)
    requires
        b > 0,
    ensures
        ({
            let t = round_half_even(a, b);
            let d = a - t * b;
            &&& 2 * d <= b
            &&& -b <= 2 * d
            &&& (2 * d == b || 2 * d == -b) ==> t % 2 == 0
        }),
{
    let q = a / b;
    let r = a % b;
    vstd::arithmetic::div_mod::lemma_fundamental_div_mod(a as int, b as int);
    let t = round_half_even(a, b);
    if t == q {
        assert(a - t * b == r) by (nonlinear_arith)
            requires a == b * q + r, t == q;
    } else {
        assert(a - t * b == r - b) by (nonlinear_arith)
            requires a == b * q + r, t == q + 1;
    }
}

} // verus!
