//! Decimal numbers in the track files, read as fixed-point integers.
//!
//! A number is an optional sign, digits with at most one decimal point (at
//! least one digit in all), and an optional exponent: `e` or `E`, an optional
//! sign and at least one digit. Its value is kept as a count of millionths,
//! cut toward zero: digits past the sixth decimal are dropped.

use vstd::prelude::*;
use vstd::arithmetic::div_mod::{lemma_basic_div, lemma_div_multiples_vanish_fancy};
use vstd::arithmetic::mul::lemma_mul_inequality;

verus! {

/// Decimal digits kept after the point: values count millionths.
pub const SCALE_DIGITS: i64 = 6;

/// Exponents are read up to this size; any larger one moves every digit of
/// a token out of, or far beyond, the range of an `i64`.
const EXPONENT_CAP: u128 = 1000000000000000000000;

pub open spec fn is_digit(c: char) -> bool {
    '0' <= c <= '9'
}

pub open spec fn digit_value(c: char) -> nat {
    ((c as u32) - ('0' as u32)) as nat
}

pub open spec fn pow10(n: nat) -> nat
    decreases n,
{
    if n == 0 {
        1
    } else {
        10 * pow10((n - 1) as nat)
    }
}

/// The number that a string of digits spells.
pub open spec fn digits_value(d: Seq<char>) -> nat
    decreases d.len(),
{
    if d.len() == 0 {
        0
    } else {
        digits_value(d.drop_last()) * 10 + digit_value(d.last())
    }
}

/// How many digits follow one another in `t` from position `i` on.
pub open spec fn digit_run(t: Seq<char>, i: int) -> int
    decreases t.len() - i,
{
    if 0 <= i < t.len() && is_digit(t[i]) {
        1 + digit_run(t, i + 1)
    } else {
        0
    }
}

pub open spec fn is_negative(t: Seq<char>) -> bool {
    t.len() > 0 && t[0] == '-'
}

pub open spec fn int_start(t: Seq<char>) -> int {
    if t.len() > 0 && (t[0] == '+' || t[0] == '-') {
        1
    } else {
        0
    }
}

pub open spec fn int_end(t: Seq<char>) -> int {
    int_start(t) + digit_run(t, int_start(t))
}

pub open spec fn frac_start(t: Seq<char>) -> int {
    if int_end(t) < t.len() && t[int_end(t)] == '.' {
        int_end(t) + 1
    } else {
        int_end(t)
    }
}

pub open spec fn frac_end(t: Seq<char>) -> int {
    frac_start(t) + digit_run(t, frac_start(t))
}

pub open spec fn has_exponent(t: Seq<char>) -> bool {
    frac_end(t) < t.len() && (t[frac_end(t)] == 'e' || t[frac_end(t)] == 'E')
}

pub open spec fn exponent_is_negative(t: Seq<char>) -> bool {
    has_exponent(t) && frac_end(t) + 1 < t.len() && t[frac_end(t) + 1] == '-'
}

pub open spec fn exp_start(t: Seq<char>) -> int {
    if has_exponent(t) {
        if frac_end(t) + 1 < t.len() && (t[frac_end(t) + 1] == '+' || t[frac_end(t) + 1] == '-') {
            frac_end(t) + 2
        } else {
            frac_end(t) + 1
        }
    } else {
        frac_end(t)
    }
}

pub open spec fn exp_end(t: Seq<char>) -> int {
    exp_start(t) + digit_run(t, exp_start(t))
}

/// `t` is a decimal number as described for this module.
pub open spec fn is_number(t: Seq<char>) -> bool {
    &&& int_end(t) - int_start(t) + frac_end(t) - frac_start(t) > 0
    &&& exp_end(t) == t.len()
    &&& has_exponent(t) ==> exp_end(t) > exp_start(t)
}

/// The digits before and after the point, together.
pub open spec fn mantissa_digits(t: Seq<char>) -> Seq<char> {
    t.subrange(int_start(t), int_end(t)) + t.subrange(frac_start(t), frac_end(t))
}

pub open spec fn exponent(t: Seq<char>) -> int {
    let e = digits_value(t.subrange(exp_start(t), exp_end(t))) as int;
    if exponent_is_negative(t) {
        -e
    } else {
        e
    }
}

/// `m * 10^k`, cut toward zero.
pub open spec fn shifted(m: nat, k: int) -> nat {
    if k >= 0 {
        m * pow10(k as nat)
    } else {
        m / pow10((-k) as nat)
    }
}

/// The size of the number in millionths, cut toward zero.
pub open spec fn magnitude(t: Seq<char>) -> nat {
    shifted(
        digits_value(mantissa_digits(t)),
        exponent(t) - (frac_end(t) - frac_start(t)) + SCALE_DIGITS,
    )
}

/// The value of `t` in millionths, where `t` is a number whose size in
/// millionths fits an `i64`.
pub open spec fn fixed_value(t: Seq<char>) -> Option<int> {
    if is_number(t) && magnitude(t) <= i64::MAX {
        Some(
            if is_negative(t) {
                -(magnitude(t) as int)
            } else {
                magnitude(t) as int
            },
        )
    } else {
        None
    }
}

proof fn lemma_pow10_positive(n: nat)
    ensures
        pow10(n) >= 1,
    decreases n,
{
    if n > 0 {
        lemma_pow10_positive((n - 1) as nat);
    }
}

proof fn lemma_pow10_grows(a: nat, b: nat)
    requires
        a <= b,
    ensures
        pow10(a) <= pow10(b),
    decreases b,
{
    if a < b {
        lemma_pow10_grows(a, (b - 1) as nat);
        lemma_pow10_positive((b - 1) as nat);
    }
}

proof fn lemma_digits_value_bound(d: Seq<char>)
    requires
        forall|i: int| 0 <= i < d.len() ==> is_digit(#[trigger] d[i]),
    ensures
        digits_value(d) < pow10(d.len()),
    decreases d.len(),
{
    if d.len() > 0 {
        let p = d.drop_last();
        assert forall|i: int| 0 <= i < p.len() implies is_digit(#[trigger] p[i]) by {
            assert(p[i] == d[i]);
        }
        lemma_digits_value_bound(p);
        assert(is_digit(d[d.len() - 1]));
        assert(digits_value(p) + 1 <= pow10(p.len()));
        lemma_mul_inequality(digits_value(p) + 1 as int, pow10(p.len()) as int, 10);
    }
}

proof fn lemma_digit_run_bounds(t: Seq<char>, i: int)
    ensures
        digit_run(t, i) >= 0,
        digit_run(t, i) > 0 ==> 0 <= i && i + digit_run(t, i) <= t.len(),
    decreases t.len() - i,
{
    if 0 <= i < t.len() && is_digit(t[i]) {
        lemma_digit_run_bounds(t, i + 1);
    }
}

proof fn lemma_digit_run_digits(t: Seq<char>, i: int, j: int)
    requires
        i <= j < i + digit_run(t, i),
    ensures
        0 <= j < t.len(),
        is_digit(t[j]),
    decreases j - i,
{
    lemma_digit_run_bounds(t, i);
    lemma_digit_run_bounds(t, i + 1);
    if j > i {
        lemma_digit_run_digits(t, i + 1, j);
    }
}

/// End of the run of digits of `t` that starts at `i`.
fn run_end(t: &Vec<char>, i: usize) -> (r: usize)
    requires
        i <= t@.len(),
    ensures
        r == i + digit_run(t@, i as int),
        i <= r <= t@.len(),
{
    let mut j = i;
    while j < t.len() && '0' <= t[j] && t[j] <= '9'
        invariant
            i <= j <= t@.len(),
            digit_run(t@, i as int) == (j - i) + digit_run(t@, j as int),
        decreases t@.len() - j,
    {
        j = j + 1;
    }
    j
}

proof fn lemma_pow10_values()
    ensures
        pow10(0) == 1,
        pow10(4) == 10000,
        pow10(17) == 100000000000000000,
        pow10(18) == 1000000000000000000,
        pow10(19) == 10000000000000000000,
{
    reveal_with_fuel(pow10, 20);
}

/// Where the parts of a number lie in a token.
struct Spans {
    int_start: usize,
    int_end: usize,
    frac_start: usize,
    frac_end: usize,
    exp_start: usize,
    exp_end: usize,
    has_exp: bool,
}

fn find_spans(t: &Vec<char>) -> (r: Spans)
    ensures
        r.int_start == int_start(t@),
        r.int_end == int_end(t@),
        r.frac_start == frac_start(t@),
        r.frac_end == frac_end(t@),
        r.exp_start == exp_start(t@),
        r.exp_end == exp_end(t@),
        r.has_exp == has_exponent(t@),
        r.int_start <= r.int_end <= r.frac_start <= r.frac_end <= r.exp_start <= r.exp_end
            <= t@.len(),
{
    let n = t.len();
    let a: usize = if n > 0 && (t[0] == '+' || t[0] == '-') {
        1
    } else {
        0
    };
    let b = run_end(t, a);
    let c: usize = if b < n && t[b] == '.' {
        b + 1
    } else {
        b
    };
    let d = run_end(t, c);
    let has_exp = d < n && (t[d] == 'e' || t[d] == 'E');
    let e: usize = if has_exp {
        if d + 1 < n && (t[d + 1] == '+' || t[d + 1] == '-') {
            d + 2
        } else {
            d + 1
        }
    } else {
        d
    };
    let f = run_end(t, e);
    Spans {
        int_start: a,
        int_end: b,
        frac_start: c,
        frac_end: d,
        exp_start: e,
        exp_end: f,
        has_exp,
    }
}

proof fn lemma_digits_of_subrange(t: Seq<char>, i: int, j: int)
    requires
        0 <= i <= j <= t.len(),
        forall|k: int| i <= k < j ==> is_digit(#[trigger] t[k]),
    ensures
        forall|k: int| 0 <= k < j - i ==> is_digit(#[trigger] t.subrange(i, j)[k]),
{
    assert forall|k: int| 0 <= k < j - i implies is_digit(#[trigger] t.subrange(i, j)[k]) by {
        assert(t.subrange(i, j)[k] == t[i + k]);
    }
}

/// A longer prefix of a string of digits spells at least as much.
proof fn lemma_prefix_grows(d: Seq<char>, i: int, j: int)
    requires
        0 <= i <= j <= d.len(),
    ensures
        digits_value(d.take(i)) <= digits_value(d.take(j)),
    decreases j - i,
{
    if i < j {
        lemma_prefix_grows(d, i, j - 1);
        assert(d.take(j).drop_last() =~= d.take(j - 1));
    }
}

/// Cutting the last `n` digits off a string divides what it spells by
/// `10^n`, dropping the remainder.
proof fn lemma_cut_digits(d: Seq<char>, p: int)
    requires
        0 <= p <= d.len(),
        forall|i: int| 0 <= i < d.len() ==> is_digit(#[trigger] d[i]),
    ensures
        digits_value(d) / pow10((d.len() - p) as nat) == digits_value(d.take(p)),
        digits_value(d) == digits_value(d.take(p)) * pow10((d.len() - p) as nat) + digits_value(
            d.skip(p),
        ),
        digits_value(d.skip(p)) < pow10((d.len() - p) as nat),
    decreases d.len(),
{
    let m = pow10((d.len() - p) as nat);
    if p == d.len() {
        assert(d.take(p) =~= d);
        assert(d.skip(p) =~= Seq::<char>::empty());
        assert(digits_value(d.skip(p)) == 0);
    } else {
        let dl = d.drop_last();
        assert forall|i: int| 0 <= i < dl.len() implies is_digit(#[trigger] dl[i]) by {
            assert(dl[i] == d[i]);
        }
        lemma_cut_digits(dl, p);
        assert(dl.take(p) =~= d.take(p));
        assert(d.skip(p).drop_last() =~= dl.skip(p));
        assert(d.skip(p).last() == d.last());
        let q = digits_value(d.take(p));
        let r0 = digits_value(dl.skip(p));
        let m0 = pow10((dl.len() - p) as nat);
        assert(m == 10 * m0);
        assert(is_digit(d[d.len() - 1]));
        let c = digit_value(d.last());
        assert(digits_value(d) == (q * m0 + r0) * 10 + c);
        assert((q * m0 + r0) * 10 + c == q * m + (r0 * 10 + c)) by (nonlinear_arith)
            requires
                m == 10 * m0,
        ;
        assert(r0 * 10 + c < m) by (nonlinear_arith)
            requires
                r0 < m0,
                c < 10,
                m == 10 * m0,
        ;
    }
    lemma_pow10_positive((d.len() - p) as nat);
    lemma_div_multiples_vanish_fancy(
        digits_value(d.take(p)) as int,
        digits_value(d.skip(p)) as int,
        m as int,
    );
    assert(m * digits_value(d.take(p)) == digits_value(d.take(p)) * m);
}

/// The digits of `t[a..b]` followed by those of `t[c..d]`.
fn collect_digits(t: &Vec<char>, a: usize, b: usize, c: usize, d: usize) -> (r: Vec<char>)
    requires
        a <= b <= c <= d <= t@.len(),
    ensures
        r@ == t@.subrange(a as int, b as int) + t@.subrange(c as int, d as int),
{
    let mut r: Vec<char> = Vec::new();
    let mut k = a;
    while k < b
        invariant
            a <= k <= b <= c <= d <= t@.len(),
            r@ == t@.subrange(a as int, k as int),
        decreases b - k,
    {
        r.push(t[k]);
        k = k + 1;
        assert(r@ =~= t@.subrange(a as int, k as int));
    }
    let ghost front = r@;
    let mut k = c;
    while k < d
        invariant
            c <= k <= d <= t@.len(),
            r@ == front + t@.subrange(c as int, k as int),
        decreases d - k,
    {
        r.push(t[k]);
        k = k + 1;
        assert(r@ =~= front + t@.subrange(c as int, k as int));
    }
    r
}

/// The number that the digits `t[from..to]` spell, or `EXPONENT_CAP` where
/// that is larger.
fn capped_digits_value(t: &Vec<char>, from: usize, to: usize) -> (r: u128)
    requires
        from <= to <= t@.len(),
        forall|k: int| from <= k < to ==> is_digit(#[trigger] t@[k]),
    ensures
        r == if digits_value(t@.subrange(from as int, to as int)) < EXPONENT_CAP {
            digits_value(t@.subrange(from as int, to as int))
        } else {
            EXPONENT_CAP as nat
        },
{
    let mut acc: u128 = 0;
    let mut k = from;
    assert(t@.subrange(from as int, from as int) =~= Seq::<char>::empty());
    while k < to
        invariant
            from <= k <= to <= t@.len(),
            forall|q: int| from <= q < to ==> is_digit(#[trigger] t@[q]),
            acc == if digits_value(t@.subrange(from as int, k as int)) < EXPONENT_CAP {
                digits_value(t@.subrange(from as int, k as int))
            } else {
                EXPONENT_CAP as nat
            },
        decreases to - k,
    {
        assert(t@.subrange(from as int, k + 1).drop_last() =~= t@.subrange(from as int, k as int));
        assert(t@.subrange(from as int, k + 1).last() == t@[k as int]);
        assert(is_digit(t@[k as int]));
        let dg = (t[k] as u32 - '0' as u32) as u128;
        if acc < EXPONENT_CAP {
            let x = acc * 10 + dg;
            acc = if x > EXPONENT_CAP {
                EXPONENT_CAP
            } else {
                x
            };
        }
        k = k + 1;
    }
    acc
}

/// The number that the first `count` digits of `ds` spell, where it fits an
/// `i64`.
fn prefix_value(ds: &Vec<char>, count: usize) -> (r: Option<u64>)
    requires
        count <= ds@.len(),
        forall|i: int| 0 <= i < ds@.len() ==> is_digit(#[trigger] ds@[i]),
    ensures
        r is None <==> digits_value(ds@.take(count as int)) > i64::MAX,
        r matches Some(v) ==> v == digits_value(ds@.take(count as int)),
{
    let mut acc: u64 = 0;
    let mut k: usize = 0;
    assert(ds@.take(0) =~= Seq::<char>::empty());
    while k < count
        invariant
            k <= count <= ds@.len(),
            forall|i: int| 0 <= i < ds@.len() ==> is_digit(#[trigger] ds@[i]),
            acc == digits_value(ds@.take(k as int)),
            acc <= i64::MAX,
        decreases count - k,
    {
        assert(ds@.take(k + 1).drop_last() =~= ds@.take(k as int));
        assert(ds@.take(k + 1).last() == ds@[k as int]);
        assert(is_digit(ds@[k as int]));
        let dg = (ds[k] as u32 - '0' as u32) as u128;
        let x: u128 = acc as u128 * 10 + dg;
        if x > i64::MAX as u128 {
            proof {
                lemma_prefix_grows(ds@, k + 1, count as int);
            }
            return None;
        }
        acc = x as u64;
        k = k + 1;
    }
    Some(acc)
}

/// `v * 10^k`, where that fits an `i64`.
fn scale_up(v: u64, k: u128) -> (r: Option<u64>)
    requires
        v <= i64::MAX,
    ensures
        r is None <==> v * pow10(k as nat) > i64::MAX,
        r matches Some(x) ==> x == v * pow10(k as nat),
{
    if v == 0 {
        assert(v * pow10(k as nat) == 0);
        return Some(0);
    }
    let mut x: u64 = v;
    let mut i: u128 = 0;
    proof {
        lemma_pow10_values();
    }
    while i < k
        invariant
            0 <= i <= k,
            x == v * pow10(i as nat),
            x <= i64::MAX,
            v >= 1,
        decreases k - i,
    {
        proof {
            assert(pow10((i + 1) as nat) == 10 * pow10(i as nat));
            assert(v * pow10((i + 1) as nat) == x * 10) by (nonlinear_arith)
                requires
                    x == v * pow10(i as nat),
                    pow10((i + 1) as nat) == 10 * pow10(i as nat),
            ;
        }
        if x > (i64::MAX as u64) / 10 {
            proof {
                lemma_pow10_grows((i + 1) as nat, k as nat);
                assert(v * pow10((i + 1) as nat) <= v * pow10(k as nat)) by (nonlinear_arith)
                    requires
                        pow10((i + 1) as nat) <= pow10(k as nat),
                ;
            }
            return None;
        }
        x = x * 10;
        i = i + 1;
    }
    Some(x)
}

/// The size in millionths of a number whose digits `ds` are moved so that
/// the first `p` of them stand before the point.
proof fn lemma_magnitude_by_point(ds: Seq<char>, p: int)
    requires
        forall|i: int| 0 <= i < ds.len() ==> is_digit(#[trigger] ds[i]),
    ensures
        shifted(digits_value(ds), p - ds.len()) == cut_value(ds, p),
{
    assert(ds.take(ds.len() as int) =~= ds);
    if p < 0 {
        lemma_digits_value_bound(ds);
        lemma_pow10_grows(ds.len(), (ds.len() - p) as nat);
        lemma_basic_div(digits_value(ds) as int, pow10((ds.len() - p) as nat) as int);
    } else if p <= ds.len() {
        lemma_cut_digits(ds, p);
        if p == ds.len() {
            assert(pow10(0) == 1) by {
                lemma_pow10_values();
            }
        }
    }
}

/// What the digits `ds` spell once the first `p` of them stand before the
/// point and the rest are dropped.
pub open spec fn cut_value(ds: Seq<char>, p: int) -> nat {
    if p < 0 {
        0
    } else if p <= ds.len() {
        digits_value(ds.take(p))
    } else {
        digits_value(ds) * pow10((p - ds.len()) as nat)
    }
}

/// Where the point stands before all digits, or at least 19 places past
/// them, moving it further the same way changes nothing that fits an `i64`.
proof fn lemma_far_point(ds: Seq<char>, p: int, q: int)
    requires
        (p < 0 && q < 0) || (p >= ds.len() + 19 && q >= p),
    ensures
        (cut_value(ds, p) > i64::MAX) == (cut_value(ds, q) > i64::MAX),
        cut_value(ds, p) <= i64::MAX ==> cut_value(ds, p) == cut_value(ds, q),
{
    if p >= 0 {
        let dv = digits_value(ds);
        lemma_pow10_values();
        lemma_pow10_grows(19, (p - ds.len()) as nat);
        lemma_pow10_grows((p - ds.len()) as nat, (q - ds.len()) as nat);
        if dv > 0 {
            assert(dv * pow10((p - ds.len()) as nat) >= pow10((p - ds.len()) as nat))
                by (nonlinear_arith)
                requires
                    dv >= 1,
            ;
            assert(dv * pow10((q - ds.len()) as nat) >= pow10((q - ds.len()) as nat))
                by (nonlinear_arith)
                requires
                    dv >= 1,
            ;
        } else {
            assert(dv * pow10((p - ds.len()) as nat) == 0) by (nonlinear_arith)
                requires
                    dv == 0,
            ;
            assert(dv * pow10((q - ds.len()) as nat) == 0) by (nonlinear_arith)
                requires
                    dv == 0,
            ;
        }
    }
}

/// `cut_value(ds, p)`, where it fits an `i64`.
fn cut_value_of(ds: &Vec<char>, p: i128) -> (r: Option<u64>)
    requires
        forall|i: int| 0 <= i < ds@.len() ==> is_digit(#[trigger] ds@[i]),
    ensures
        r is None <==> cut_value(ds@, p as int) > i64::MAX,
        r matches Some(v) ==> v == cut_value(ds@, p as int),
{
    let len = ds.len();
    if p < 0 {
        Some(0)
    } else if p <= len as i128 {
        prefix_value(ds, p as usize)
    } else {
        assert(ds@.take(len as int) =~= ds@);
        match prefix_value(ds, len) {
            None => {
                proof {
                    lemma_pow10_positive((p - len) as nat);
                    let dv = digits_value(ds@);
                    assert(dv * pow10((p - len) as nat) >= dv) by (nonlinear_arith)
                        requires
                            pow10((p - len) as nat) >= 1,
                    ;
                }
                None
            },
            Some(v) => scale_up(v, (p - len as i128) as u128),
        }
    }
}

/// The value in millionths of the number `t`, or `None` where `t` is no
/// number or its size in millionths does not fit an `i64`.
pub fn parse_fixed(t: &Vec<char>) -> (r: Option<i64>)
    ensures
        r is None <==> fixed_value(t@) is None,
        r matches Some(v) ==> fixed_value(t@) == Some(v as int),
{
    let ghost s = t@;
    let sp = find_spans(t);
    let a = sp.int_start;
    let b = sp.int_end;
    let c = sp.frac_start;
    let d = sp.frac_end;
    let e = sp.exp_start;
    let f = sp.exp_end;
    if (b - a) + (d - c) == 0 || f != t.len() || (sp.has_exp && f == e) {
        return None;
    }
    proof {
        assert forall|k: int| a <= k < b implies is_digit(#[trigger] s[k]) by {
            lemma_digit_run_digits(s, a as int, k);
        }
        assert forall|k: int| c <= k < d implies is_digit(#[trigger] s[k]) by {
            lemma_digit_run_digits(s, c as int, k);
        }
        assert forall|k: int| e <= k < f implies is_digit(#[trigger] s[k]) by {
            lemma_digit_run_digits(s, e as int, k);
        }
    }
    let ds = collect_digits(t, a, b, c, d);
    let es = capped_digits_value(t, e, f);
    let ghost md = mantissa_digits(s);
    proof {
        assert(ds@ == md);
        assert forall|k: int| 0 <= k < md.len() implies is_digit(#[trigger] md[k]) by {
            if k < b - a {
                assert(md[k] == s[a + k]);
            } else {
                assert(md[k] == s[c + k - (b - a)]);
            }
        }
    }
    let exp_negative = sp.has_exp && d + 1 < t.len() && t[d + 1] == '-';
    let len = ds.len();
    let int_len = (b - a) as i128;
    let p: i128 = if exp_negative {
        int_len - es as i128 + 6
    } else {
        int_len + es as i128 + 6
    };
    let size = cut_value_of(&ds, p);
    proof {
        let ev = digits_value(s.subrange(e as int, f as int));
        let pt = if exponent_is_negative(s) {
            (b - a) - ev + 6
        } else {
            (b - a) + ev + 6
        };
        assert(exp_negative == exponent_is_negative(s));
        assert(pt - md.len() == exponent(s) - (d - c) + SCALE_DIGITS);
        lemma_magnitude_by_point(md, pt);
        if ev >= EXPONENT_CAP {
            lemma_far_point(md, p as int, pt);
        }
    }
    match size {
        None => None,
        Some(v) => {
            if t.len() > 0 && t[0] == '-' {
                Some(-(v as i64))
            } else {
                Some(v as i64)
            }
        },
    }
}

} // verus!
