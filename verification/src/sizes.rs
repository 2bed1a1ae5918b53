//! Byte counts for display: `512 B`, `1.5 KB`, `3.2 MB` (and the compact
//! `512B`, `1.5K`, `3.2M`).
//!
//! The count is converted to a double, divided by 1024 or 1024², and
//! printed with one decimal, as `format!("{:.1}", n as f64 / 1024.0)`
//! does.  All of that is done here exactly, in integers: the conversion
//! rounds to 53 significant bits (ties to even), the division by a power
//! of two is exact, and the printing rounds the exact quotient to tenths
//! (ties to even).
use vstd::prelude::*;

use crate::text::{append_str, decimal, digit_char, push_decimal};
use crate::wrappers::push_char;

verus! {

/// 2⁵³: below it every integer is a double.
pub open spec fn exact_limit() -> nat {
    0x20_0000_0000_0000
}

/// The spacing of the doubles around `n`: 1 below 2⁵³, doubling with
/// each further bit of `n`.
pub open spec fn spacing(n: nat) -> nat
    decreases n,
{
    if n < exact_limit() {
        1
    } else {
        2 * spacing(n / 2)
    }
}

/// Round `n` to a multiple of `unit`, ties to the even multiple.
pub open spec fn round_to_multiple(n: nat, unit: nat) -> nat {
    let q = n / unit;
    let r = n % unit;
    if 2 * r > unit || (2 * r == unit && q % 2 == 1) {
        (q + 1) * unit
    } else {
        q * unit
    }
}

/// The value of `n as f64`: `n` rounded to 53 significant bits.
pub open spec fn as_double(n: nat) -> nat {
    round_to_multiple(n, spacing(n))
}

/// `v / den` in tenths, rounded to nearest, ties to even.
pub open spec fn tenths(v: nat, den: nat) -> nat {
    let t = v * 10;
    let f = t / den;
    let r = t % den;
    if 2 * r > den || (2 * r == den && f % 2 == 1) {
        f + 1
    } else {
        f
    }
}

/// A number of tenths written with one decimal (`15` is `1.5`).
pub open spec fn one_decimal(t: nat) -> Seq<char> {
    decimal(t / 10) + seq!['.', digit_char(t % 10)]
}

/// `n` divided by `den` as doubles, printed with one decimal.
pub open spec fn scaled(n: nat, den: nat) -> Seq<char> {
    one_decimal(tenths(as_double(n), den))
}

/// What `format_bytes` prints for `n`.
pub open spec fn bytes_text(n: u64) -> Seq<char> {
    if n >= 1048576 {
        scaled(n as nat, 1048576) + " MB"@
    } else if n >= 1024 {
        scaled(n as nat, 1024) + " KB"@
    } else {
        decimal(n as nat) + " B"@
    }
}

/// What `format_size` prints for `n`.
pub open spec fn compact_size_text(n: u64) -> Seq<char> {
    if n >= 1048576 {
        scaled(n as nat, 1048576) + "M"@
    } else if n >= 1024 {
        scaled(n as nat, 1024) + "K"@
    } else {
        decimal(n as nat) + "B"@
    }
}

/// `spacing(n)`.
fn spacing_of(n: u64) -> (u: u128)
    ensures
        u == spacing(n as nat),
        1 <= u <= 4096,
{
    let mut m: u64 = n;
    let mut u: u128 = 1;
    while m >= 0x20_0000_0000_0000
        invariant
            1 <= u <= 4096,
            u * m <= n,
            spacing(n as nat) == u * spacing(m as nat),
        decreases m,
    {
        let ghost m0 = m as nat;
        assert(spacing(m0) == 2 * spacing(m0 / 2));
        assert(u <= 2048) by (nonlinear_arith)
            requires
                u * m0 <= n,
                m0 >= 0x20_0000_0000_0000,
                n < 0x1_0000_0000_0000_0000,
        ;
        assert(2 * u * (m0 / 2) <= u * m0) by (nonlinear_arith)
            requires
                1 <= u,
        ;
        assert(u * spacing(m0) == 2 * u * spacing(m0 / 2)) by (nonlinear_arith)
            requires
                spacing(m0) == 2 * spacing(m0 / 2),
        ;
        m = m / 2;
        u = u * 2;
    }
    assert(spacing(m as nat) == 1);
    assert(u * spacing(m as nat) == u) by (nonlinear_arith)
        requires
            spacing(m as nat) == 1,
    ;
    u
}

/// `as_double(n)`.
fn double_of(n: u64) -> (d: u128)
    ensures
        d == as_double(n as nat),
        d <= n as nat + 4096,
{
    let u = spacing_of(n);
    let q = n as u128 / u;
    let r = n as u128 % u;
    let up = 2 * r > u || (2 * r == u && q % 2 == 1);
    let k = if up { q + 1 } else { q };
    assert(k * u <= n + u) by (nonlinear_arith)
        requires
            q == n as u128 / u,
            k <= q + 1,
            1 <= u,
    ;
    k * u
}

/// `tenths(v, den)`.
fn tenths_of(v: u128, den: u128) -> (t: u128)
    requires
        1 <= den <= 1048576,
        v <= 0x1_0000_0000_0000_1000,
    ensures
        t == tenths(v as nat, den as nat),
{
    let x = v * 10;
    let f = x / den;
    let r = x % den;
    let up = 2 * r > den || (2 * r == den && f % 2 == 1);
    if up {
        f + 1
    } else {
        f
    }
}

/// Append `t` tenths with one decimal.
fn push_one_decimal(s: &mut String, t: u128)
    ensures
        final(s)@ == old(s)@ + one_decimal(t as nat),
{
    push_decimal(s, t / 10);
    push_char(s, '.');
    push_decimal(s, t % 10);
    assert(decimal((t % 10) as nat) =~= seq![digit_char((t % 10) as nat)]);
    assert(s@ =~= old(s)@ + one_decimal(t as nat));
}

/// Format a byte count as a human-readable string (`512 B`, `1.5 KB`,
/// `3.2 MB`).
pub fn format_bytes(bytes: u64) -> (r: String)
    ensures
        r@ == bytes_text(bytes),
{
    let mut r = String::new();
    if bytes >= 1048576 {
        push_one_decimal(&mut r, tenths_of(double_of(bytes), 1048576));
        append_str(&mut r, " MB");
    } else if bytes >= 1024 {
        push_one_decimal(&mut r, tenths_of(double_of(bytes), 1024));
        append_str(&mut r, " KB");
    } else {
        push_decimal(&mut r, bytes as u128);
        append_str(&mut r, " B");
    }
    assert(r@ =~= bytes_text(bytes));
    r
}

/// Format a byte count compactly (`512B`, `1.5K`, `3.2M`).
pub fn format_size(bytes: u64) -> (r: String)
    ensures
        r@ == compact_size_text(bytes),
{
    let mut r = String::new();
    if bytes >= 1048576 {
        push_one_decimal(&mut r, tenths_of(double_of(bytes), 1048576));
        append_str(&mut r, "M");
    } else if bytes >= 1024 {
        push_one_decimal(&mut r, tenths_of(double_of(bytes), 1024));
        append_str(&mut r, "K");
    } else {
        push_decimal(&mut r, bytes as u128);
        append_str(&mut r, "B");
    }
    assert(r@ =~= compact_size_text(bytes));
    r
}

} // verus!
