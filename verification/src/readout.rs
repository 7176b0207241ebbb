use vstd::prelude::*;

use crate::document::BufferDocument;
use crate::edit_op::EditOp;
use crate::labels::{format_len, transport_state_label, transport_state_label_spec};
use crate::selection::Selection;
use crate::transport::TransportState;
use crate::rfc3339::{padded, push_padded};
use crate::text::{decimal, push_decimal, push_decimal_wide, string_of};

verus! {

/// `2` to the power `n`.
pub open spec fn two_to(n: nat) -> nat
    decreases n,
{
    if n == 0 {
        1
    } else {
        2 * two_to((n - 1) as nat)
    }
}

/// `a / d` rounded to the nearest integer, ties to the even one.
pub open spec fn div_round_even(a: nat, d: nat) -> nat {
    let q = a / d;
    let r = a % d;
    if 2 * r > d || (2 * r == d && q % 2 == 1) {
        q + 1
    } else {
        q
    }
}

/// How many low bits of `n` an `f64` cannot hold: `n` halved that many
/// times is below `2^53`.
pub open spec fn excess_bits(n: nat) -> nat
    decreases n,
{
    if n < 0x20_0000_0000_0000 {
        0
    } else {
        1 + excess_bits(n / 2)
    }
}

/// The `f64` nearest to `n` (ties to an even significand), which is an
/// integer.
pub open spec fn as_f64(n: nat) -> nat {
    let p = two_to(excess_bits(n));
    div_round_even(n, p) * p
}

/// The least `s`, from `s` on, with `a * 2^s` at least `r * 2^63`: the
/// scale at which `a / r` has a 53-bit significand above `2^11`.
pub open spec fn lift(a: nat, r: nat, s: nat) -> nat
    decreases 128 - s,
{
    if s >= 128 || a * two_to(s) >= r * two_to(63) {
        s
    } else {
        lift(a, r, s + 1)
    }
}

/// `10` to the power `n`.
pub open spec fn ten_to(n: nat) -> nat
    decreases n,
{
    if n == 0 {
        1
    } else {
        10 * ten_to((n - 1) as nat)
    }
}

/// `frame / r` seconds in units of `10^-places` seconds: the quotient of
/// the nearest `f64` of `frame` by `r`, rounded to the nearest `f64`, then
/// to `places` decimals with ties to even.
pub open spec fn secs_scaled(frame: u64, r: nat, places: nat) -> nat {
    let a = as_f64(frame as nat);
    if a == 0 {
        0
    } else {
        let s = lift(a, r, 0);
        let m = div_round_even(a * two_to(s), r * two_to(11));
        if s <= 11 {
            ten_to(places) * m * two_to((11 - s) as nat)
        } else {
            div_round_even(ten_to(places) * m, two_to((s - 11) as nat))
        }
    }
}

/// `c` units of `10^-places` as a decimal with `places` decimals.
pub open spec fn fixed_text(c: nat, places: nat) -> Seq<char> {
    decimal(c / ten_to(places)) + "."@ + padded(c % ten_to(places), places)
}

/// A timeline frame as seconds with two decimals (a zero rate counting as
/// one): `1.00s`.
pub open spec fn format_stamp_spec(frame: u64, rate: u32) -> Seq<char> {
    let r: nat = if rate == 0 {
        1
    } else {
        rate as nat
    };
    fixed_text(secs_scaled(frame, r, 2), 2) + "s"@
}

/// The unit a byte count is shown in: the largest of KB, MB, GB and TB
/// (1, 2, 3, 4) not above the count's nearest `f64`.
pub open spec fn byte_unit(v: nat) -> nat {
    if v >= two_to(40) {
        4
    } else if v >= two_to(30) {
        3
    } else if v >= two_to(20) {
        2
    } else {
        1
    }
}

pub open spec fn unit_name(unit: nat) -> Seq<char> {
    if unit == 1 {
        "KB"@
    } else if unit == 2 {
        "MB"@
    } else if unit == 3 {
        "GB"@
    } else {
        "TB"@
    }
}

/// A byte count: whole bytes below 1024, else in the largest binary unit
/// up to TB with one decimal, rounded with ties to even.
pub open spec fn format_bytes_spec(bytes: u64) -> Seq<char> {
    if bytes < 1024 {
        decimal(bytes as nat) + " B"@
    } else {
        let v = as_f64(bytes as nat);
        let unit = byte_unit(v);
        let t = div_round_even(10 * v, two_to(10 * unit));
        decimal(t / 10) + "."@ + decimal(t % 10) + " "@ + unit_name(unit)
    }
}

proof fn lemma_two_to_pos(n: nat)
    ensures
        two_to(n) >= 1,
    decreases n,
{
    if n > 0 {
        lemma_two_to_pos((n - 1) as nat);
    }
}

proof fn lemma_two_to_add(a: nat, b: nat)
    ensures
        two_to(a + b) == two_to(a) * two_to(b),
    decreases b,
{
    if b > 0 {
        let c = (b - 1) as nat;
        lemma_two_to_add(a, c);
        assert(a + b == (a + c) + 1);
        assert(two_to(a + b) == 2 * two_to(a + c));
        assert(two_to(b) == 2 * two_to(c));
        assert(two_to(a) * (2 * two_to(c)) == 2 * (two_to(a) * two_to(c))) by (nonlinear_arith);
        assert(two_to(a + b) == two_to(a) * two_to(b));
    } else {
        assert(two_to(b) == 1);
        assert(a + b == a);
        assert(two_to(a) * 1 == two_to(a));
    }
}

proof fn lemma_two_to_mono(a: nat, b: nat)
    requires
        a <= b,
    ensures
        two_to(a) <= two_to(b),
    decreases b,
{
    if a < b {
        lemma_two_to_mono(a, (b - 1) as nat);
        lemma_two_to_pos((b - 1) as nat);
    }
}

/// `div_round_even` as the machine computes it.
fn round_even(a: u128, d: u128) -> (r: u128)
    requires
        d > 0,
        a / d < u128::MAX,
    ensures
        r == div_round_even(a as nat, d as nat),
{
    let q = a / d;
    let rem = a % d;
    let twice: u128 = if rem > u128::MAX / 2 {
        u128::MAX
    } else {
        2 * rem
    };
    proof {
        assert(rem < d);
    }
    if rem > u128::MAX / 2 {
        return q + 1;
    }
    if twice > d || (twice == d && q % 2 == 1) {
        q + 1
    } else {
        q
    }
}

/// The nearest `f64` to `n`, as an integer.
fn f64_of(n: u64) -> (v: u128)
    ensures
        v == as_f64(n as nat),
        v <= 0x1_0000_0000_0000_0000,
{
    let mut p: u128 = 1;
    let mut e: u32 = 0;
    proof {
        lemma_excess_step(n as nat, 1);
    }
    while n as u128 / p >= 0x20_0000_0000_0000
        invariant
            p == two_to(e as nat),
            e <= 11,
            p >= 1,
            excess_bits(n as nat) == e + excess_bits((n as nat) / (p as nat)),
        decreases 12 - e,
    {
        proof {
            lemma_excess_halving(n as nat, p as nat);
            lemma_small_scale(n as nat, p as nat);
            reveal_with_fuel(two_to, 12);
            if e >= 11 {
                lemma_two_to_mono(11, e as nat);
            }
            lemma_two_to_mono((e + 1) as nat, 11);
        }
        p = p * 2;
        e = e + 1;
    }
    proof {
        assert(excess_bits((n as nat) / (p as nat)) == 0);
        reveal_with_fuel(two_to, 12);
        lemma_two_to_mono(e as nat, 11);
    }
    let m = round_even(n as u128, p);
    proof {
        assert(m <= 0x20_0000_0000_0000) by {
            lemma_round_even_bound(n as nat, p as nat);
        }
        assert(m * p <= 0x1_0000_0000_0000_0000) by {
            lemma_round_even_scaled(n as nat, p as nat);
        }
    }
    m * p
}

proof fn lemma_excess_step(n: nat, p: nat)
    requires
        p == 1,
    ensures
        excess_bits(n) == 0 + excess_bits(n / p),
{
}

/// Halving once more while the quotient has too many bits.
proof fn lemma_excess_halving(n: nat, p: nat)
    requires
        p >= 1,
        n / p >= 0x20_0000_0000_0000,
    ensures
        excess_bits(n / p) == 1 + excess_bits(n / (p * 2)),
{
    vstd::arithmetic::div_mod::lemma_div_denominator(n as int, p as int, 2);
}

/// A `u64` needs at most 11 halvings to fit in 53 bits.
proof fn lemma_small_scale(n: nat, p: nat)
    requires
        n < 0x1_0000_0000_0000_0000,
        p >= 1,
        n / p >= 0x20_0000_0000_0000,
    ensures
        p < 0x800,
{
    assert(p * (n / p) <= n) by {
        vstd::arithmetic::div_mod::lemma_fundamental_div_mod(n as int, p as int);
    }
    assert(p * 0x20_0000_0000_0000 <= p * (n / p)) by (nonlinear_arith)
        requires
            n / p >= 0x20_0000_0000_0000,
            p >= 1,
    ;
}

proof fn lemma_round_even_bound(n: nat, p: nat)
    requires
        p >= 1,
        n / p < 0x20_0000_0000_0000,
    ensures
        div_round_even(n, p) <= 0x20_0000_0000_0000,
{
}

proof fn lemma_round_even_scaled(n: nat, p: nat)
    requires
        p >= 1,
        n < 0x1_0000_0000_0000_0000,
        p <= 0x800,
        n / p < 0x20_0000_0000_0000,
    ensures
        div_round_even(n, p) * p <= 0x1_0000_0000_0000_0000,
{
    let q = n / p;
    vstd::arithmetic::div_mod::lemma_fundamental_div_mod(n as int, p as int);
    assert((q + 1) * p == q * p + p) by (nonlinear_arith);
    assert(q * p <= n);
    assert(div_round_even(n, p) <= q + 1);
    assert(div_round_even(n, p) * p <= (q + 1) * p) by (nonlinear_arith)
        requires
            div_round_even(n, p) <= q + 1,
            p >= 1,
    ;
    if div_round_even(n, p) == q + 1 {
        // Rounding up happens only past half of `p`, so `n` is at least
        // `q * p + 1` and `(q + 1) * p` stays within one `p` of it; the
        // power of two above `n` bounds it.
        lemma_round_up_bound(n, p, q);
    }
}

proof fn lemma_round_up_bound(n: nat, p: nat, q: nat)
    requires
        p >= 1,
        p <= 0x800,
        q == n / p,
        n < 0x1_0000_0000_0000_0000,
        q < 0x20_0000_0000_0000,
    ensures
        (q + 1) * p <= 0x1_0000_0000_0000_0000,
{
    assert((q + 1) * p <= 0x20_0000_0000_0000 * p) by (nonlinear_arith)
        requires
            q + 1 <= 0x20_0000_0000_0000,
            p >= 1,
    ;
    if p > 0x800 {
    } else {
        assert(0x20_0000_0000_0000 * p <= 0x20_0000_0000_0000 * 0x800) by (nonlinear_arith)
            requires
                p <= 0x800,
        ;
    }
}


proof fn lemma_powers()
    ensures
        two_to(10) == 0x400,
        two_to(11) == 0x800,
        two_to(20) == 0x10_0000,
        two_to(30) == 0x4000_0000,
        two_to(40) == 0x100_0000_0000,
        two_to(63) == 0x8000_0000_0000_0000,
{
    reveal_with_fuel(two_to, 12);
    lemma_two_to_add(10, 10);
    lemma_two_to_add(20, 10);
    lemma_two_to_add(30, 10);
    lemma_two_to_add(40, 11);
    lemma_two_to_add(51, 12);
    lemma_two_to_add(11, 1);
}

/// `2^k` as a machine number.
fn pow2_wide(k: u32) -> (p: u128)
    requires
        k < 127,
    ensures
        p == two_to(k as nat),
{
    let mut p: u128 = 1;
    let mut i: u32 = 0;
    while i < k
        invariant
            i <= k,
            k < 127,
            p == two_to(i as nat),
        decreases k - i,
    {
        proof {
            lemma_two_to_mono((i + 1) as nat, 126);
            assert(two_to(126) < u128::MAX) by {
                lemma_two_to_add(63, 63);
                lemma_powers();
            }
        }
        p = p * 2;
        i = i + 1;
    }
    p
}

/// `10^places` as a machine number.
fn ten_to_wide(places: u32) -> (p: u128)
    requires
        places <= 6,
    ensures
        p == ten_to(places as nat),
        p <= 1_000_000,
{
    let mut p: u128 = 1;
    let mut i: u32 = 0;
    while i < places
        invariant
            i <= places,
            places <= 6,
            p == ten_to(i as nat),
        decreases places - i,
    {
        proof {
            lemma_ten_to_small(i as nat);
        }
        p = p * 10;
        i = i + 1;
    }
    proof {
        lemma_ten_to_small(places as nat);
    }
    p
}

proof fn lemma_ten_to_small(n: nat)
    requires
        n <= 6,
    ensures
        ten_to(n) <= 1_000_000,
        n <= 5 ==> ten_to(n) <= 100_000,
{
    reveal_with_fuel(ten_to, 7);
    if n == 0 {
    } else if n == 1 {
    } else if n == 2 {
    } else if n == 3 {
    } else if n == 4 {
    } else if n == 5 {
    } else {
    }
}

proof fn lemma_ten_to_pos(n: nat)
    ensures
        ten_to(n) >= 1,
    decreases n,
{
    if n > 0 {
        lemma_ten_to_pos((n - 1) as nat);
    }
}

/// `frame / r` seconds in units of `10^-places`, as `secs_scaled` says.
fn scaled_secs(frame: u64, r: u64, places: u32) -> (c: u128)
    requires
        1 <= r <= 0xffff_ffff,
        places <= 6,
    ensures
        c == secs_scaled(frame, r as nat, places as nat),
{
    let r = r as u128;
    let a = f64_of(frame);
    if a == 0 {
        return 0;
    }
    proof {
        lemma_powers();
    }
    let target: u128 = r * 0x8000_0000_0000_0000;
    let mut num: u128 = a;
    let mut s: u32 = 0;
    proof {
        assert(two_to(0) == 1);
        assert(a * two_to(0) == a);
    }
    while num < target
        invariant
            1 <= a <= 0x1_0000_0000_0000_0000,
            1 <= r <= 0xffff_ffff,
            target == r * two_to(63),
            two_to(63) == 0x8000_0000_0000_0000,
            num == a * two_to(s as nat),
            s <= 96,
            num <= 2 * target,
            lift(a as nat, r as nat, 0) == lift(a as nat, r as nat, s as nat),
        decreases 96 - s,
    {
        proof {
            assert(a * two_to(s as nat) >= two_to(s as nat)) by (nonlinear_arith)
                requires
                    a >= 1,
            ;
            if s >= 95 {
                lemma_two_to_mono(95, s as nat);
                lemma_two_to_add(63, 32);
                lemma_two_to_add(30, 2);
                lemma_powers();
                reveal_with_fuel(two_to, 3);
                assert(two_to(32) == 0x1_0000_0000);
                assert(two_to(95) == 0x8000_0000_0000_0000 * 0x1_0000_0000);
                assert(target < two_to(95));
            }
            assert(two_to((s + 1) as nat) == 2 * two_to(s as nat));
            assert(a * (2 * two_to(s as nat)) == 2 * (a * two_to(s as nat))) by (nonlinear_arith);
        }
        num = num * 2;
        s = s + 1;
    }
    proof {
        assert(lift(a as nat, r as nat, s as nat) == s);
    }
    let m = round_even(num, r * 2048);
    let scale = ten_to_wide(places);
    proof {
        assert(num < 0x1_0000_0000_0000_0000_0000_0000);
        vstd::arithmetic::div_mod::lemma_div_is_ordered(
            num as int,
            0x1_0000_0000_0000_0000_0000_0000int,
            2048,
        );
        assert(0x1_0000_0000_0000_0000_0000_0000int / 2048 == 0x20_0000_0000_0000_0000_0000int);
        assert(m <= num / 2048 + 1) by {
            let d = (r * 2048) as int;
            assert((num as int) / d <= (num as int) / 2048) by (nonlinear_arith)
                requires
                    d >= 2048,
                    num >= 0,
            ;
        }
    }
    if s <= 11 {
        let p = pow2_wide(11 - s);
        proof {
            lemma_two_to_mono((11 - s) as nat, 11);
            assert(scale * m <= 1_000_000 * (0x20_0000_0000_0000_0000_0000 + 1)) by (nonlinear_arith)
                requires
                    m <= 0x20_0000_0000_0000_0000_0000 + 1,
                    scale <= 1_000_000,
            ;
            assert(scale * m * p <= 1_000_000 * (0x20_0000_0000_0000_0000_0000 + 1) * 2048) by (nonlinear_arith)
                requires
                    m <= 0x20_0000_0000_0000_0000_0000 + 1,
                    p <= 2048,
                    scale <= 1_000_000,
            ;
        }
        scale * m * p
    } else {
        let p = pow2_wide(s - 11);
        proof {
            lemma_two_to_pos((s - 11) as nat);
            assert(scale * m <= 1_000_000 * (0x20_0000_0000_0000_0000_0000 + 1)) by (nonlinear_arith)
                requires
                    m <= 0x20_0000_0000_0000_0000_0000 + 1,
                    scale <= 1_000_000,
            ;
        }
        round_even(scale * m, p)
    }
}

/// Appends `c` units of `10^-places` as a decimal with `places` decimals.
fn push_fixed(out: &mut String, c: u128, places: u32)
    requires
        1 <= places <= 6,
    ensures
        final(out)@ == old(out)@ + fixed_text(c as nat, places as nat),
{
    let scale = ten_to_wide(places);
    proof {
        lemma_ten_to_pos(places as nat);
    }
    push_decimal_wide(out, c / scale);
    out.append(".");
    let frac = c % scale;
    push_padded(out, frac as u64, places as usize);
    proof {
        assert(frac < 1_000_000);
    }
}

/// A timeline frame as seconds with two decimals (`1.00s`), as the `f64`
/// seconds print with `{:.2}`.
pub fn format_stamp(frame: u64, sample_rate: u32) -> (s: String)
    ensures
        s@ == format_stamp_spec(frame, sample_rate),
{
    let r: u64 = if sample_rate == 0 {
        1
    } else {
        sample_rate as u64
    };
    let c = scaled_secs(frame, r, 2);
    let mut s = String::new();
    push_fixed(&mut s, c, 2);
    s.append("s");
    proof {
        assert(s@ =~= fixed_text(c as nat, 2) + "s"@);
    }
    s
}

/// A byte count: whole bytes below 1024, else in KB, MB, GB or TB with one
/// decimal, as the `f64` quotient prints with `{:.1}`.
pub fn format_bytes(bytes: u64) -> (s: String)
    ensures
        s@ == format_bytes_spec(bytes),
{
    if bytes < 1024 {
        let mut s = String::new();
        push_decimal(&mut s, bytes);
        s.append(" B");
        proof {
            assert(s@ =~= decimal(bytes as nat) + " B"@);
        }
        return s;
    }
    let v = f64_of(bytes);
    proof {
        lemma_powers();
        lemma_two_to_add(10, 10);
    }
    let (unit, scale, name): (u32, u128, &str) = if v >= 0x100_0000_0000 {
        (4, 0x100_0000_0000, "TB")
    } else if v >= 0x4000_0000 {
        (3, 0x4000_0000, "GB")
    } else if v >= 0x10_0000 {
        (2, 0x10_0000, "MB")
    } else {
        (1, 0x400, "KB")
    };
    let t = round_even(10 * v, scale);
    let mut s = String::new();
    push_decimal_wide(&mut s, t / 10);
    s.append(".");
    push_decimal_wide(&mut s, t % 10);
    s.append(" ");
    s.append(name);
    proof {
        assert(unit as nat == byte_unit(v as nat));
        assert(scale == two_to(10 * unit as nat));
        assert(name@ == unit_name(unit as nat));
        assert(s@ =~= decimal((t / 10) as nat) + "."@ + decimal((t % 10) as nat) + " "@ + unit_name(
            unit as nat,
        ));
    }
    s
}

/// An edit's shift as `+n` or `-n`.
pub open spec fn signed_text(d: i64) -> Seq<char> {
    if d >= 0 {
        "+"@ + decimal(d as nat)
    } else {
        "-"@ + decimal((-d) as nat)
    }
}

/// The second line of an edit's card: where it applied and how much.
pub open spec fn edit_detail_spec(op: EditOp, rate: u32) -> Seq<char> {
    match op {
        EditOp::Init => "start of composition"@,
        EditOp::Cut { start, len } => format_stamp_spec(start, rate) + " \u{b7} "@ + decimal(len as nat) + " smp"@,
        EditOp::Copy { start, len } => format_stamp_spec(start, rate) + " \u{b7} "@ + decimal(len as nat)
            + " smp"@,
        EditOp::Remove { start, len } => format_stamp_spec(start, rate) + " \u{b7} "@ + decimal(len as nat)
            + " smp"@,
        EditOp::Delete { start, len } => format_stamp_spec(start, rate) + " \u{b7} "@ + decimal(len as nat)
            + " smp"@,
        EditOp::Trim { start, len } => format_stamp_spec(start, rate) + " \u{b7} "@ + decimal(len as nat)
            + " smp"@,
        EditOp::Duplicate { start, len } => format_stamp_spec(start, rate) + " \u{b7} "@ + decimal(
            len as nat,
        ) + " smp"@,
        EditOp::Paste { at, len } => "at "@ + format_stamp_spec(at, rate) + " \u{b7} "@ + decimal(len as nat)
            + " smp"@,
        EditOp::Move { from, len, dest } => format_stamp_spec(from, rate) + " \u{2192} "@ + format_stamp_spec(
            dest,
            rate,
        ) + " \u{b7} "@ + decimal(len as nat) + " smp"@,
        EditOp::Roll { at, delta } => "at "@ + format_stamp_spec(at, rate) + " \u{b7} "@ + signed_text(delta)
            + " smp"@,
    }
}

/// `stamp · n smp`.
fn stamp_and_len(frame: u64, len: u64, rate: u32) -> (s: String)
    ensures
        s@ == format_stamp_spec(frame, rate) + " \u{b7} "@ + decimal(len as nat) + " smp"@,
{
    let mut s = format_stamp(frame, rate);
    s.append(" \u{b7} ");
    let tail = format_len(len);
    s.append(tail.as_str());
    s
}

/// The second line of an edit's card in the history panel.
pub fn edit_detail(op: &EditOp, sample_rate: u32) -> (s: String)
    ensures
        s@ == edit_detail_spec(*op, sample_rate),
{
    match *op {
        EditOp::Init => string_of("start of composition"),
        EditOp::Cut { start, len }
        | EditOp::Copy { start, len }
        | EditOp::Remove { start, len }
        | EditOp::Delete { start, len }
        | EditOp::Trim { start, len }
        | EditOp::Duplicate { start, len } => stamp_and_len(start, len, sample_rate),
        EditOp::Paste { at, len } => {
            let mut s = string_of("at ");
            let rest = stamp_and_len(at, len, sample_rate);
            s.append(rest.as_str());
            proof {
                assert(s@ =~= "at "@ + format_stamp_spec(at, sample_rate) + " \u{b7} "@ + decimal(len as nat)
                    + " smp"@);
            }
            s
        },
        EditOp::Move { from, len, dest } => {
            let mut s = format_stamp(from, sample_rate);
            s.append(" \u{2192} ");
            let rest = stamp_and_len(dest, len, sample_rate);
            s.append(rest.as_str());
            proof {
                assert(s@ =~= format_stamp_spec(from, sample_rate) + " \u{2192} "@ + format_stamp_spec(
                    dest,
                    sample_rate,
                ) + " \u{b7} "@ + decimal(len as nat) + " smp"@);
            }
            s
        },
        EditOp::Roll { at, delta } => {
            let mut s = string_of("at ");
            let stamp = format_stamp(at, sample_rate);
            s.append(stamp.as_str());
            s.append(" \u{b7} ");
            if delta >= 0 {
                s.append("+");
                push_decimal(&mut s, delta as u64);
            } else {
                s.append("-");
                push_decimal(&mut s, (-(delta as i128)) as u64);
            }
            s.append(" smp");
            proof {
                assert(s@ =~= "at "@ + format_stamp_spec(at, sample_rate) + " \u{b7} "@ + signed_text(delta)
                    + " smp"@);
            }
            s
        },
    }
}


/// Seconds of `sample` at `rate` with six decimals; `0.000000s` at a zero
/// rate.
pub open spec fn secs_text_spec(sample: u64, rate: u32) -> Seq<char> {
    let c = if rate == 0 {
        0
    } else {
        secs_scaled(sample, rate as nat, 6)
    };
    fixed_text(c, 6) + "s"@
}

/// `parts` with `sep` between each two.
pub open spec fn joined(parts: Seq<Seq<char>>, sep: Seq<char>) -> Seq<char>
    decreases parts.len(),
{
    if parts.len() == 0 {
        seq![]
    } else if parts.len() == 1 {
        parts[0]
    } else {
        joined(parts.drop_last(), sep) + sep + parts.last()
    }
}

/// The separator between the parts of the header line.
pub open spec fn header_sep() -> Seq<char> {
    "  \u{b7}  "@
}

/// The header line of a document: the transport state, the caret's time,
/// and for a selected region its ends, its length in seconds and in
/// samples.
pub open spec fn header_meta_spec(doc: BufferDocument, transport: TransportState) -> Seq<char> {
    let label = transport_state_label_spec(transport);
    let rate = doc.composition.sample_rate_spec();
    if doc.frames_spec() == 0 {
        "No file open"@ + header_sep() + label
    } else {
        let pos_part = match doc.current_position {
            Some(p) => seq!["pos "@ + secs_text_spec(p.sample as u64, rate)],
            None => Seq::<Seq<char>>::empty(),
        };
        let region_part = match doc.selection {
            Selection::Region { start, end, .. } => if end > start {
                let len = (end - start + 1) as nat;
                let r: nat = if rate == 0 {
                    1
                } else {
                    rate as nat
                };
                seq![
                    "region "@ + secs_text_spec(start as u64, rate) + "\u{2013}"@ + secs_text_spec(
                        end as u64,
                        rate,
                    ),
                    "len "@ + fixed_text(secs_scaled(len as u64, r, 6), 6) + "s"@,
                    decimal(len) + " smp"@,
                ]
            } else {
                Seq::<Seq<char>>::empty()
            },
            _ => Seq::<Seq<char>>::empty(),
        };
        joined(seq![label] + pos_part + region_part, header_sep())
    }
}

/// Seconds of `sample` at `rate` with six decimals.
pub fn secs_text(sample: u64, rate: u32) -> (s: String)
    ensures
        s@ == secs_text_spec(sample, rate),
{
    let c = if rate == 0 {
        0
    } else {
        scaled_secs(sample, rate as u64, 6)
    };
    let mut s = String::new();
    push_fixed(&mut s, c, 6);
    s.append("s");
    proof {
        assert(s@ =~= fixed_text(c as nat, 6) + "s"@);
    }
    s
}

/// The line shown for the sample under the pointer.
pub fn format_hover_meta(doc: &BufferDocument, sample: usize) -> (s: String)
    ensures
        s@ == "hover "@ + secs_text_spec(sample as u64, doc.composition.sample_rate_spec()) + header_sep()
            + decimal(sample as nat) + " smp"@,
{
    let mut s = string_of("hover ");
    let secs = secs_text(sample as u64, doc.sample_rate());
    s.append(secs.as_str());
    s.append("  \u{b7}  ");
    push_decimal(&mut s, sample as u64);
    s.append(" smp");
    proof {
        assert(s@ =~= "hover "@ + secs_text_spec(sample as u64, doc.composition.sample_rate_spec())
            + header_sep() + decimal(sample as nat) + " smp"@);
    }
    s
}

/// Appends `part` to `out`, after the separator unless it is the first.
fn push_part(out: &mut String, part: &str, parts: Ghost<Seq<Seq<char>>>)
    requires
        old(out)@ == joined(parts@, header_sep()),
        parts@.len() >= 1,
    ensures
        final(out)@ == joined(parts@.push(part@), header_sep()),
{
    out.append("  \u{b7}  ");
    out.append(part);
    proof {
        assert(parts@.push(part@).drop_last() =~= parts@);
        assert(final(out)@ =~= joined(parts@, header_sep()) + header_sep() + part@);
    }
}

/// The header line of a document.
pub fn format_header_meta(doc: &BufferDocument, transport: TransportState) -> (s: String)
    requires
        doc.wf(),
        doc.selection matches Selection::Region { start, end, .. } ==> end - start < usize::MAX,
    ensures
        s@ == header_meta_spec(*doc, transport),
{
    let label = transport_state_label(transport);
    if !doc.is_loaded() {
        let mut s = string_of("No file open");
        s.append("  \u{b7}  ");
        s.append(label);
        proof {
            assert(s@ =~= "No file open"@ + header_sep() + transport_state_label_spec(transport));
        }
        return s;
    }
    let rate = doc.sample_rate();
    let mut s = string_of(label);
    let ghost mut parts: Seq<Seq<char>> = seq![label@];
    proof {
        assert(joined(parts, header_sep()) == label@);
    }
    let ghost pos_part: Seq<Seq<char>> = Seq::empty();
    match &doc.current_position {
        Some(pos) => {
            let mut part = string_of("pos ");
            let secs = secs_text(pos.sample as u64, rate);
            part.append(secs.as_str());
            push_part(&mut s, part.as_str(), Ghost(parts));
            proof {
                pos_part = seq![part@];
                parts = parts.push(part@);
            }
        },
        None => {},
    }
    let ghost region_part: Seq<Seq<char>> = Seq::empty();
    match &doc.selection {
        Selection::Region { start, end, .. } => {
            if *end > *start {
                let mut region = string_of("region ");
                let a = secs_text(*start as u64, rate);
                region.append(a.as_str());
                region.append("\u{2013}");
                let b = secs_text(*end as u64, rate);
                region.append(b.as_str());
                push_part(&mut s, region.as_str(), Ghost(parts));
                proof {
                    parts = parts.push(region@);
                }
                let len_samples = *end - *start + 1;
                let r: u64 = if rate == 0 {
                    1
                } else {
                    rate as u64
                };
                let mut len_part = string_of("len ");
                let c = scaled_secs(len_samples as u64, r, 6);
                push_fixed(&mut len_part, c, 6);
                len_part.append("s");
                push_part(&mut s, len_part.as_str(), Ghost(parts));
                proof {
                    parts = parts.push(len_part@);
                }
                let mut count = String::new();
                push_decimal(&mut count, len_samples as u64);
                count.append(" smp");
                push_part(&mut s, count.as_str(), Ghost(parts));
                proof {
                    parts = parts.push(count@);
                    region_part = seq![region@, len_part@, count@];
                }
            }
        },
        _ => {},
    }
    proof {
        assert(parts =~= seq![label@] + pos_part + region_part);
    }
    s
}

} // verus!
