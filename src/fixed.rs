//! The text form of 16.16 fixed-point option words.
//!
//! A fixed-point word `raw` stands for the number `raw / 65536`. Its text is
//! the exact decimal expansion of that number; reading a text back rounds the
//! number it denotes to the nearest word, halves away from zero, and clamps it
//! to the range of an `i32`.
use vstd::prelude::*;
use vstd::arithmetic::div_mod::{
    lemma_div_by_multiple, lemma_div_is_ordered, lemma_fundamental_div_mod,
    lemma_fundamental_div_mod_converse_div, lemma_mod_pos_bound,
};
use crate::decimal::{
    all_digits, capped, char_digit_value, char_is_digit, digits_value, is_digit,
    lemma_capped_step, lemma_digits_bound, lemma_digits_concat, lemma_nat_digits,
    lemma_padded_digits, lemma_pow10_add, lemma_pow10_pos, nat_digits, padded_digits, pow10,
    push_digits, scan_sign, sign_split, int_text_value, CodecError,
};

verus! {

/// `10^16 / 2^16`: one unit of a fixed-point word in units of `10^-16`.
pub const FRACTION_SCALE: u64 = 152587890625;

/// The integer part from which a text saturates the fixed-point word.
pub const FIXED_INT_LIMIT: u64 = 32768;

/// Whether `body` is digits, a point at `k`, and digits, with at least one digit.
pub open spec fn is_point_split(body: Seq<char>, k: int) -> bool {
    &&& 0 <= k < body.len()
    &&& body[k] == '.'
    &&& body.len() >= 2
    &&& all_digits(body.take(k))
    &&& all_digits(body.skip(k + 1))
}

/// The digits of a number written as digits with at most one point among
/// them, at least one digit in all, and how many of the digits follow the
/// point.
pub open spec fn mantissa_value(body: Seq<char>) -> Option<(Seq<char>, nat)> {
    if body.len() > 0 && all_digits(body) {
        Some((body, 0nat))
    } else if exists|k: int| is_point_split(body, k) {
        let k = choose|k: int| is_point_split(body, k);
        Some((body.take(k) + body.skip(k + 1), (body.len() - k - 1) as nat))
    } else {
        None
    }
}

/// The letters that start an exponent.
pub open spec fn is_exponent_mark(c: char) -> bool {
    c == 'e' || c == 'E'
}

/// Whether `body` is a number, an exponent mark at `k`, and an integer.
pub open spec fn is_exponent_split(body: Seq<char>, k: int) -> bool {
    &&& 0 <= k < body.len()
    &&& is_exponent_mark(body[k])
    &&& mantissa_value(body.take(k)) is Some
    &&& int_text_value(body.skip(k + 1)) is Some
}

/// The word whose first three or all eight letters name infinity.
pub open spec fn infinity_word() -> Seq<char> {
    seq!['i', 'n', 'f', 'i', 'n', 'i', 't', 'y']
}

/// Whether `c` is the lower-case letter `w` in either case.
pub open spec fn same_letter(c: char, w: char) -> bool {
    c == w || (c as u32) + 32 == (w as u32)
}

/// Whether a text is `inf` or `infinity`, in any case.
pub open spec fn is_infinity_text(body: Seq<char>) -> bool {
    &&& (body.len() == 3 || body.len() == 8)
    &&& forall|i: int| 0 <= i < body.len() ==> same_letter(#[trigger] body[i], infinity_word()[i])
}

/// The word that names no number.
pub open spec fn nan_word() -> Seq<char> {
    seq!['n', 'a', 'n']
}

/// Whether a text is `nan`, in any case.
pub open spec fn is_nan_text(body: Seq<char>) -> bool {
    &&& body.len() == 3
    &&& forall|i: int| 0 <= i < body.len() ==> same_letter(#[trigger] body[i], nan_word()[i])
}

/// What a text denotes as a number.
pub enum ParsedNumber {
    /// `±digits / 10^frac_len * 10^exponent`.
    Finite { neg: bool, digits: Seq<char>, frac_len: nat, exponent: int },
    Infinite { neg: bool },
    /// The text names no number.
    NotANumber,
}

/// The number a text denotes: an optional sign, then `inf`, `infinity` or
/// `nan` in any case, or digits with at most one point among them followed by
/// an optional exponent (`e` or `E`, an optional sign, digits).
pub open spec fn number_value(s: Seq<char>) -> Option<ParsedNumber> {
    let (neg, body) = sign_split(s);
    if is_infinity_text(body) {
        Some(ParsedNumber::Infinite { neg })
    } else if is_nan_text(body) {
        Some(ParsedNumber::NotANumber)
    } else if exists|k: int| is_exponent_split(body, k) {
        let k = choose|k: int| is_exponent_split(body, k);
        let m = mantissa_value(body.take(k))->Some_0;
        Some(
            ParsedNumber::Finite {
                neg,
                digits: m.0,
                frac_len: m.1,
                exponent: int_text_value(body.skip(k + 1))->Some_0,
            },
        )
    } else {
        match mantissa_value(body) {
            Some(m) => Some(ParsedNumber::Finite { neg, digits: m.0, frac_len: m.1, exponent: 0 }),
            None => None,
        }
    }
}

/// `a / b` rounded to the nearest integer, halves up.
pub open spec fn round_half_up(a: int, b: int) -> int {
    (2 * a + b) / (2 * b)
}

/// The fixed-point word nearest to `±n / 10^d`, clamped to the `i32` range.
pub open spec fn fixed_from_decimal(neg: bool, n: int, d: nat) -> i32 {
    let m = round_half_up(n * 65536, pow10(d));
    if neg {
        if m >= 0x8000_0000 {
            i32::MIN
        } else {
            (-m) as i32
        }
    } else {
        if m >= 0x7fff_ffff {
            i32::MAX
        } else {
            m as i32
        }
    }
}

/// The fixed-point word nearest to `±n * 10^-k`, clamped to the `i32` range.
pub open spec fn fixed_from_scaled(neg: bool, n: int, k: int) -> i32 {
    if k >= 0 {
        fixed_from_decimal(neg, n, k as nat)
    } else {
        fixed_from_decimal(neg, n * pow10((-k) as nat), 0)
    }
}

/// What reading a fixed-point option value from its text gives: infinities
/// give the ends of the range, and `nan` the word zero.
pub open spec fn fixed_of_text(s: Seq<char>) -> Result<i32, CodecError> {
    match number_value(s) {
        None => Err(CodecError::Malformed),
        Some(ParsedNumber::Infinite { neg }) => Ok(
            if neg {
                i32::MIN
            } else {
                i32::MAX
            },
        ),
        Some(ParsedNumber::NotANumber) => Ok(0),
        Some(ParsedNumber::Finite { neg, digits, frac_len, exponent }) => Ok(
            fixed_from_scaled(neg, digits_value(digits), frac_len - exponent),
        ),
    }
}

/// Drops trailing zero digits of a `w`-digit fraction `n`.
pub open spec fn strip_zeros(n: nat, w: nat) -> (nat, nat)
    decreases w,
{
    if w > 0 && n % 10 == 0 {
        strip_zeros(n / 10, (w - 1) as nat)
    } else {
        (n, w)
    }
}

/// The digits after the point of `f / 65536`, without trailing zeros.
pub open spec fn fraction_digits(f: nat) -> Seq<char> {
    let (v, w) = strip_zeros(f * (FRACTION_SCALE as nat), 16);
    padded_digits(v, w)
}

/// The magnitude of a word.
pub open spec fn magnitude(raw: i32) -> nat {
    if raw < 0 {
        (-(raw as int)) as nat
    } else {
        raw as nat
    }
}

/// The text of a fixed-point word: the exact decimal value of `raw / 65536`,
/// with a point only where the value is not whole.
pub open spec fn fixed_text(raw: i32) -> Seq<char> {
    let m = magnitude(raw);
    let f = m % 65536;
    (if raw < 0 {
        seq!['-']
    } else {
        Seq::empty()
    }) + nat_digits(m / 65536) + (if f == 0 {
        Seq::empty()
    } else {
        seq!['.'] + fraction_digits(f)
    })
}

pub proof fn lemma_strip_zeros(n: nat, w: nat)
    requires
        0 < n < pow10(w),
    ensures
        ({
            let (v, x) = strip_zeros(n, w);
            &&& 0 < v < pow10(x)
            &&& 1 <= x <= w
            &&& v * pow10((w - x) as nat) == n
        }),
    decreases w,
{
    if w > 0 && n % 10 == 0 {
        assert(n / 10 > 0);
        assert(n / 10 < pow10((w - 1) as nat));
        lemma_strip_zeros(n / 10, (w - 1) as nat);
        let (v, x) = strip_zeros(n / 10, (w - 1) as nat);
        assert(pow10((w - x) as nat) == 10 * pow10((w - 1 - x) as nat));
        assert(v * (10 * pow10((w - 1 - x) as nat)) == 10 * (v * pow10((w - 1 - x) as nat)))
            by (nonlinear_arith);
    } else {
        if w == 0 {
            assert(pow10(0) == 1);
        }
    }
}

/// Only one point can split a text into digits, a point and digits.
pub proof fn lemma_point_split_unique(body: Seq<char>, k: int)
    requires
        is_point_split(body, k),
    ensures
        forall|j: int| is_point_split(body, j) ==> j == k,
        !all_digits(body),
{
    assert(!is_digit('.'));
    assert forall|j: int| is_point_split(body, j) implies j == k by {
        if j < k {
            assert(body.take(k)[j] == body[j]);
        } else if j > k {
            assert(body.take(j)[k] == body[k]);
        }
    }
}

/// Rounding is unchanged when numerator and denominator are scaled alike.
pub proof fn lemma_round_scaled(a: int, b: int, c: int)
    requires
        a >= 0,
        b > 0,
        c > 0,
    ensures
        round_half_up(a * c, b * c) == round_half_up(a, b),
{
    let x = 2 * a + b;
    let y = 2 * b;
    let q = x / y;
    let r = x % y;
    lemma_fundamental_div_mod(x, y);
    lemma_mod_pos_bound(x, y);
    assert(x == q * y + r && 0 <= r < y);
    assert(x * c == q * (y * c) + r * c && 0 <= r * c < y * c) by (nonlinear_arith)
        requires
            x == q * y + r,
            0 <= r < y,
            c > 0,
    ;
    assert(2 * (a * c) + b * c == x * c) by (nonlinear_arith)
        requires
            x == 2 * a + b,
    ;
    assert(2 * (b * c) == y * c) by (nonlinear_arith)
        requires
            y == 2 * b,
    ;
    lemma_fundamental_div_mod_converse_div(x * c, y * c, q, r * c);
}

/// Digits beyond the seventeenth after the point never change the rounding
/// to a multiple of `2^-16`.
pub proof fn lemma_round_truncated(p: int, g: int, t: int)
    requires
        p >= 0,
        t >= 1,
        0 <= g < t,
    ensures
        round_half_up((p * t + g) * 65536, 100000000000000000 * t) == round_half_up(
            p * 65536,
            100000000000000000,
        ),
{
    let k: int = 65536;
    let h: int = 762939453125;
    let d: int = 100000000000000000;
    assert(d == k * 2 * h);
    let x = p * k;
    let q = x / d;
    let rr = x % d;
    assert(x == q * d + rr && 0 <= rr < d);
    let r = p - q * 2 * h;
    assert(rr == k * r) by (nonlinear_arith)
        requires
            x == q * d + rr,
            x == p * k,
            d == k * 2 * h,
            r == p - q * 2 * h,
    ;
    assert(0 <= r < 2 * h) by (nonlinear_arith)
        requires
            rr == k * r,
            0 <= rr < d,
            d == k * 2 * h,
            k > 0,
    ;
    let y = (p * t + g) * k;
    assert(2 * y + d * t == q * (2 * d * t) + (2 * rr * t + 2 * g * k + d * t)) by (nonlinear_arith)
        requires
            y == (p * t + g) * k,
            x == p * k,
            x == q * d + rr,
    ;
    assert(2 * x + d == q * (2 * d) + (2 * rr + d));
    if r >= h {
        assert(2 * x + d == (q + 1) * (2 * d) + (2 * rr - d));
        assert(0 <= 2 * rr - d < 2 * d) by (nonlinear_arith)
            requires
                rr == k * r,
                r >= h,
                rr < d,
                d == k * 2 * h,
                k > 0,
        ;
        lemma_fundamental_div_mod_converse_div(2 * x + d, 2 * d, q + 1, 2 * rr - d);
        assert(2 * y + d * t == (q + 1) * (2 * d * t) + (2 * rr * t + 2 * g * k - d * t))
            by (nonlinear_arith)
            requires
                2 * y + d * t == q * (2 * d * t) + (2 * rr * t + 2 * g * k + d * t),
        ;
        assert(0 <= 2 * rr * t + 2 * g * k - d * t < 2 * d * t) by (nonlinear_arith)
            requires
                rr == k * r,
                r >= h,
                rr < d,
                d == k * 2 * h,
                0 <= g < t,
                k == 65536,
                h == 762939453125,
        ;
        lemma_fundamental_div_mod_converse_div(
            2 * y + d * t,
            2 * d * t,
            q + 1,
            2 * rr * t + 2 * g * k - d * t,
        );
    } else {
        assert(0 <= 2 * rr + d < 2 * d) by (nonlinear_arith)
            requires
                rr == k * r,
                0 <= r < h,
                d == k * 2 * h,
                k > 0,
        ;
        lemma_fundamental_div_mod_converse_div(2 * x + d, 2 * d, q, 2 * rr + d);
        assert(0 <= 2 * rr * t + 2 * g * k + d * t < 2 * d * t) by (nonlinear_arith)
            requires
                rr == k * r,
                0 <= r < h,
                d == k * 2 * h,
                0 <= g < t,
                k > 0,
        ;
        lemma_fundamental_div_mod_converse_div(
            2 * y + d * t,
            2 * d * t,
            q,
            2 * rr * t + 2 * g * k + d * t,
        );
    }
    assert(2 * ((p * t + g) * 65536) + 100000000000000000 * t == 2 * y + d * t);
    assert(2 * (100000000000000000 * t) == 2 * d * t) by (nonlinear_arith)
        requires
            d == 100000000000000000,
    ;
}

pub proof fn lemma_pow10_values()
    ensures
        pow10(16) == 10000000000000000,
        pow10(17) == 100000000000000000,
{
    reveal_with_fuel(pow10, 18);
}

pub proof fn lemma_pow10_le(a: nat, b: nat)
    requires
        a <= b,
    ensures
        pow10(a) <= pow10(b),
{
    lemma_pow10_add(a, (b - a) as nat);
    lemma_pow10_pos(a);
    lemma_pow10_pos((b - a) as nat);
    assert(pow10(a) * pow10((b - a) as nat) >= pow10(a)) by (nonlinear_arith)
        requires
            pow10(a) >= 1,
            pow10((b - a) as nat) >= 1,
    ;
    assert(a + (b - a) as nat == b);
}

/// A number whose integer part is at least `32768` rounds to at least `2^31`.
pub proof fn lemma_round_saturates(i: int, f: int, d: nat)
    requires
        i >= 32768,
        f >= 0,
    ensures
        round_half_up((i * pow10(d) + f) * 65536, pow10(d)) >= 0x8000_0000,
{
    let b = pow10(d);
    lemma_pow10_pos(d);
    let a = (i * b + f) * 65536;
    assert(2 * a + b >= 0x8000_0000 * (2 * b)) by (nonlinear_arith)
        requires
            a == (i * b + f) * 65536,
            i >= 32768,
            f >= 0,
            b >= 1,
    ;
    lemma_div_is_ordered(0x8000_0000 * (2 * b), 2 * a + b, 2 * b);
    lemma_div_by_multiple(0x8000_0000, 2 * b);
}

/// Rounding a number to a multiple of `2^-16` only needs the first
/// seventeen digits after its point.
pub proof fn lemma_round_prefix(i: int, fs: Seq<char>, e: nat)
    requires
        i >= 0,
        all_digits(fs),
        e == if fs.len() < 17 {
            fs.len()
        } else {
            17
        },
    ensures
        round_half_up((i * pow10(fs.len()) + digits_value(fs)) * 65536, pow10(fs.len()))
            == round_half_up(
            (i * 100000000000000000 + digits_value(fs.take(e as int)) * pow10((17 - e) as nat))
                * 65536,
            100000000000000000,
        ),
{
    let fd = fs.len();
    lemma_pow10_values();
    lemma_digits_bound(fs);
    if fd <= 17 {
        assert(fs.take(e as int) =~= fs);
        let c = pow10((17 - fd) as nat);
        lemma_pow10_pos((17 - fd) as nat);
        lemma_pow10_add(fd, (17 - fd) as nat);
        assert(fd + (17 - fd) as nat == 17);
        let n = i * pow10(fd) + digits_value(fs);
        lemma_round_scaled(n * 65536, pow10(fd), c);
        assert(n * 65536 * c == (i * 100000000000000000 + digits_value(fs) * c) * 65536)
            by (nonlinear_arith)
            requires
                n == i * pow10(fd) + digits_value(fs),
                pow10(fd) * c == 100000000000000000,
        ;
    } else {
        let head = fs.take(17);
        let tail = fs.skip(17);
        assert(fs =~= head + tail);
        lemma_digits_concat(head, tail);
        assert(all_digits(tail)) by {
            assert forall|j: int| 0 <= j < tail.len() implies is_digit(#[trigger] tail[j]) by {
                assert(tail[j] == fs[j + 17]);
            }
        }
        lemma_digits_bound(tail);
        assert(all_digits(head)) by {
            assert forall|j: int| 0 <= j < head.len() implies is_digit(#[trigger] head[j]) by {
                assert(head[j] == fs[j]);
            }
        }
        lemma_digits_bound(head);
        let t = pow10((fd - 17) as nat);
        lemma_pow10_add(17, (fd - 17) as nat);
        assert(17 + (fd - 17) as nat == fd);
        assert(pow10(0) == 1);
        let p = i * 100000000000000000 + digits_value(head);
        let g = digits_value(tail);
        assert(i * pow10(fd) + digits_value(fs) == p * t + g) by (nonlinear_arith)
            requires
                pow10(fd) == 100000000000000000 * t,
                digits_value(fs) == digits_value(head) * t + g,
                p == i * 100000000000000000 + digits_value(head),
        ;
        lemma_round_truncated(p, g, t);
        assert(digits_value(head) * pow10(0) == digits_value(head));
    }
}

/// `10^k` as a word.
fn pow10_word(k: u64) -> (r: u128)
    requires
        k <= 17,
    ensures
        r == pow10(k as nat),
{
    let mut r: u128 = 1;
    let mut i: u64 = 0;
    while i < k
        invariant
            i <= k <= 17,
            r == pow10(i as nat),
        decreases k - i,
    {
        proof {
            lemma_pow10_le(i as nat, 16);
            lemma_pow10_values();
        }
        r = r * 10;
        i = i + 1;
    }
    r
}

/// The word for `±(int_digits . frac)`, from the capped integer part and the
/// first `e` digits of the fraction.
fn fixed_word(
    neg: bool,
    ip: u64,
    f17: u64,
    e: u64,
    Ghost(int_digits): Ghost<Seq<char>>,
    Ghost(frac): Ghost<Seq<char>>,
) -> (r: i32)
    requires
        all_digits(int_digits),
        all_digits(frac),
        ip as int == capped(digits_value(int_digits), 65536),
        e == if frac.len() < 17 {
            frac.len()
        } else {
            17
        },
        f17 as int == digits_value(frac.take(e as int)),
    ensures
        r == fixed_from_decimal(
            neg,
            digits_value(int_digits) * pow10(frac.len()) + digits_value(frac),
            frac.len(),
        ),
{
    let ghost i = digits_value(int_digits);
    let ghost n = i * pow10(frac.len()) + digits_value(frac);
    let ghost m = round_half_up(n * 65536, pow10(frac.len()));
    proof {
        lemma_digits_bound(int_digits);
        lemma_digits_bound(frac);
    }
    if ip >= FIXED_INT_LIMIT {
        proof {
            lemma_round_saturates(i, digits_value(frac), frac.len());
        }
        return if neg {
            i32::MIN
        } else {
            i32::MAX
        };
    }
    let head = Ghost(frac.take(e as int));
    proof {
        assert(all_digits(head@)) by {
            assert forall|j: int| 0 <= j < head@.len() implies is_digit(#[trigger] head@[j]) by {
                assert(head@[j] == frac[j]);
            }
        }
        lemma_digits_bound(head@);
        lemma_pow10_add(e as nat, (17 - e) as nat);
        assert(e as nat + (17 - e) as nat == 17);
        lemma_pow10_values();
        lemma_pow10_pos((17 - e) as nat);
        assert(f17 * pow10((17 - e) as nat) < 100000000000000000) by (nonlinear_arith)
            requires
                f17 < pow10(e as nat),
                pow10(e as nat) * pow10((17 - e) as nat) == 100000000000000000,
                pow10((17 - e) as nat) >= 1,
        ;
        lemma_round_prefix(i, frac, e as nat);
    }
    let scale: u128 = 100000000000000000;
    let p: u128 = (ip as u128) * scale + (f17 as u128) * pow10_word(17 - e);
    let w: u128 = (2 * (p * 65536) + scale) / (2 * scale);
    assert(w == m);
    if neg {
        if w >= 0x8000_0000 {
            i32::MIN
        } else {
            (0 - (w as i64)) as i32
        }
    } else {
        if w >= 0x7fff_ffff {
            i32::MAX
        } else {
            w as i32
        }
    }
}

/// A number's text holds only digits and at most one point.
pub proof fn lemma_mantissa_chars(body: Seq<char>)
    requires
        mantissa_value(body) is Some,
    ensures
        forall|i: int| 0 <= i < body.len() ==> is_digit(#[trigger] body[i]) || body[i] == '.',
{
    if !(body.len() > 0 && all_digits(body)) {
        let k = choose|k: int| is_point_split(body, k);
        assert forall|i: int| 0 <= i < body.len() implies is_digit(#[trigger] body[i]) || body[i] == '.' by {
            if i < k {
                assert(body[i] == body.take(k)[i]);
            } else if i > k {
                assert(body[i] == body.skip(k + 1)[i - k - 1]);
            }
        }
    }
}

/// Only one exponent mark can split a text into a number and an exponent.
pub proof fn lemma_exponent_split_unique(body: Seq<char>, k: int)
    requires
        is_exponent_split(body, k),
    ensures
        forall|j: int| is_exponent_split(body, j) ==> j == k,
{
    assert forall|j: int| is_exponent_split(body, j) implies j == k by {
        if j < k {
            lemma_mantissa_chars(body.take(k));
            assert(body.take(k)[j] == body[j]);
        } else if j > k {
            lemma_mantissa_chars(body.take(j));
            assert(body.take(j)[k] == body[k]);
        }
    }
}

/// The `i`-th letter of the word naming infinity.
fn infinity_char(i: usize) -> (c: char)
    requires
        i < 8,
    ensures
        c == infinity_word()[i as int],
{
    match i {
        0 => 'i',
        1 => 'n',
        2 => 'f',
        3 => 'i',
        4 => 'n',
        5 => 'i',
        6 => 't',
        _ => 'y',
    }
}

/// The `i`-th letter of the word that names no number.
fn nan_char(i: usize) -> (c: char)
    requires
        i < 3,
    ensures
        c == nan_word()[i as int],
{
    match i {
        1 => 'a',
        _ => 'n',
    }
}

/// Whether the text after `start` is `nan` in any case.
fn is_nan_at(s: &str, start: usize) -> (r: bool)
    requires
        start <= s@.len(),
    ensures
        r == is_nan_text(s@.skip(start as int)),
{
    let n = s.unicode_len();
    let ghost body = s@.skip(start as int);
    if n - start != 3 {
        return false;
    }
    let mut i: usize = 0;
    while i < 3
        invariant
            i <= 3,
            n - start == 3,
            n == s@.len(),
            body == s@.skip(start as int),
            forall|j: int| 0 <= j < i ==> same_letter(#[trigger] body[j], nan_word()[j]),
        decreases 3 - i,
    {
        let c = s.get_char(start + i);
        let w = nan_char(i);
        assert(body[i as int] == c);
        if !(c == w || (w as u32 >= 32 && c as u32 == w as u32 - 32)) {
            return false;
        }
        i = i + 1;
    }
    true
}

/// Whether the text after `start` names infinity.
fn is_infinity_at(s: &str, start: usize) -> (r: bool)
    requires
        start <= s@.len(),
    ensures
        r == is_infinity_text(s@.skip(start as int)),
{
    let n = s.unicode_len();
    let len = n - start;
    let ghost body = s@.skip(start as int);
    if len != 3 && len != 8 {
        return false;
    }
    let mut i: usize = 0;
    while i < len
        invariant
            i <= len,
            len == n - start,
            n == s@.len(),
            len == 3 || len == 8,
            body == s@.skip(start as int),
            forall|j: int| 0 <= j < i ==> same_letter(#[trigger] body[j], infinity_word()[j]),
        decreases len - i,
    {
        let c = s.get_char(start + i);
        let w = infinity_char(i);
        assert(body[i as int] == c);
        if !(c == w || (w as u32 >= 32 && c as u32 == w as u32 - 32)) {
            return false;
        }
        i = i + 1;
    }
    true
}

/// The first exponent mark at or after `start`, or the end of the text.
fn find_exponent_mark(s: &str, start: usize) -> (ep: usize)
    requires
        start <= s@.len(),
    ensures
        start <= ep <= s@.len(),
        forall|j: int| start <= j < ep ==> !is_exponent_mark(#[trigger] s@[j]),
        ep < s@.len() ==> is_exponent_mark(s@[ep as int]),
{
    let n = s.unicode_len();
    let mut i: usize = start;
    while i < n
        invariant
            start <= i <= n,
            n == s@.len(),
            forall|j: int| start <= j < i ==> !is_exponent_mark(#[trigger] s@[j]),
        decreases n - i,
    {
        let c = s.get_char(i);
        if c == 'e' || c == 'E' {
            return i;
        }
        i = i + 1;
    }
    n
}

/// The digits of the number written in `s[from..to]`, and how many of them
/// stand before its point.
fn collect_mantissa(s: &str, from: usize, to: usize) -> (r: Option<(Vec<char>, usize)>)
    requires
        from <= to <= s@.len(),
    ensures
        match mantissa_value(s@.subrange(from as int, to as int)) {
            None => r is None,
            Some(m) => r is Some && r->Some_0.0@ == m.0 && r->Some_0.1 <= m.0.len() && m.0.len()
                - r->Some_0.1 == m.1,
        },
{
    let ghost body = s@.subrange(from as int, to as int);
    let mut g: Vec<char> = Vec::new();
    let mut i: usize = from;
    let mut point: Option<usize> = None;
    assert(body.take(0) =~= Seq::<char>::empty());
    while i < to
        invariant
            from <= i <= to <= s@.len(),
            body == s@.subrange(from as int, to as int),
            point matches Some(k) ==> {
                &&& from <= k < i
                &&& body[k - from] == '.'
                &&& all_digits(body.take(k - from))
                &&& all_digits(body.subrange(k - from + 1, i - from))
                &&& g@ == body.take(k - from) + body.subrange(k - from + 1, i - from)
            },
            point is None ==> all_digits(body.take(i - from)) && g@ == body.take(i - from),
        decreases to - i,
    {
        let c = s.get_char(i);
        let ghost p = i - from;
        assert(body[p] == c);
        if c == '.' && point.is_none() {
            point = Some(i);
            assert(body.subrange(p + 1, p + 1) =~= Seq::<char>::empty());
            assert(body.take(p) + Seq::<char>::empty() =~= body.take(p));
        } else if char_is_digit(c) {
            g.push(c);
            proof {
                match point {
                    Some(k) => {
                        assert(body.subrange(k - from + 1, p + 1) =~= body.subrange(k - from + 1, p).push(c));
                        assert(g@ =~= body.take(k - from) + body.subrange(k - from + 1, p + 1));
                    },
                    None => {
                        assert(body.take(p + 1) =~= body.take(p).push(c));
                    },
                }
            }
        } else {
            proof {
                assert(!is_digit('.'));
                assert(!is_digit(body[p]));
                assert forall|j: int| !is_point_split(body, j) by {
                    if 0 <= j < p && is_point_split(body, j) {
                        match point {
                            Some(k) => {
                                if j < k - from {
                                    assert(body.take(k - from)[j] == body[j]);
                                } else if j > k - from {
                                    assert(body.subrange(k - from + 1, p)[j - (k - from) - 1] == body[j]);
                                }
                                assert(body.skip(j + 1)[p - j - 1] == body[p]);
                            },
                            None => {
                                assert(body.take(p)[j] == body[j]);
                            },
                        }
                    } else if j > p && j < body.len() {
                        assert(body.take(j)[p] == body[p]);
                    } else if j == p && is_point_split(body, j) {
                        let k = point->Some_0;
                        assert(body.take(p)[k - from] == body[k - from]);
                    }
                }
            }
            return None;
        }
        i = i + 1;
    }
    match point {
        None => {
            assert(body.take(to - from) =~= body);
            if g.len() == 0 {
                return None;
            }
            let len = g.len();
            Some((g, len))
        },
        Some(k) => {
            let ghost k0 = k - from;
            assert(!all_digits(body)) by {
                assert(!is_digit('.'));
            }
            if to - from < 2 {
                return None;
            }
            proof {
                assert(body.subrange(k0 + 1, to - from) =~= body.skip(k0 + 1));
                assert(is_point_split(body, k0));
                lemma_point_split_unique(body, k0);
            }
            Some((g, k - from))
        },
    }
}

/// The sign and the magnitude, capped at `cap`, of the integer in `s[from..to]`.
fn scan_exponent(s: &str, from: usize, to: usize, cap: u128) -> (r: Option<(bool, u128)>)
    requires
        from <= to <= s@.len(),
        cap < 0x1_0000_0000_0000_0000_0000,
    ensures
        match int_text_value(s@.subrange(from as int, to as int)) {
            None => r is None,
            Some(v) => r is Some && {
                let (neg, m) = r->Some_0;
                &&& m == capped(
                    if v < 0 {
                        -v
                    } else {
                        v
                    },
                    cap as int,
                )
                &&& neg ==> v <= 0
                &&& !neg ==> v >= 0
            },
        },
{
    let ghost t = s@.subrange(from as int, to as int);
    let mut neg = false;
    let mut start = from;
    if from < to {
        let c = s.get_char(from);
        assert(t[0] == c);
        if c == '-' {
            neg = true;
            start = from + 1;
        } else if c == '+' {
            start = from + 1;
        }
    }
    let ghost rest = s@.subrange(start as int, to as int);
    assert(sign_split(t) == (neg, rest)) by {
        if start == from {
            assert(t =~= rest);
        } else {
            assert(t.drop_first() =~= rest);
        }
    }
    if start >= to {
        return None;
    }
    let mut acc: u128 = 0;
    let mut i: usize = start;
    assert(s@.subrange(start as int, start as int) =~= Seq::<char>::empty());
    while i < to
        invariant
            start <= i <= to <= s@.len(),
            rest == s@.subrange(start as int, to as int),
            t == s@.subrange(from as int, to as int),
            sign_split(t) == (neg, rest),
            cap < 0x1_0000_0000_0000_0000_0000,
            all_digits(s@.subrange(start as int, i as int)),
            acc == capped(digits_value(s@.subrange(start as int, i as int)), cap as int),
            acc <= cap,
        decreases to - i,
    {
        let c = s.get_char(i);
        if !char_is_digit(c) {
            assert(rest[i - start] == c);
            assert(!is_digit(rest[i - start]));
            return None;
        }
        let d = char_digit_value(c);
        proof {
            let pre = s@.subrange(start as int, i as int);
            assert(s@.subrange(start as int, i + 1) =~= pre.push(c));
            lemma_capped_step(pre, c, cap as int);
            lemma_digits_bound(pre);
        }
        acc = if acc >= cap {
            cap
        } else {
            let x = acc * 10 + d as u128;
            if x > cap {
                cap
            } else {
                x
            }
        };
        i = i + 1;
    }
    assert(s@.subrange(start as int, to as int) =~= rest);
    proof {
        lemma_digits_bound(rest);
    }
    Some((neg, acc))
}

/// Whether some digit of `g` is not zero.
fn has_nonzero_digit(g: &Vec<char>) -> (r: bool)
    requires
        all_digits(g@),
    ensures
        r == (digits_value(g@) > 0),
{
    let mut i: usize = 0;
    let mut nz = false;
    assert(g@.take(0) =~= Seq::<char>::empty());
    while i < g.len()
        invariant
            i <= g@.len(),
            all_digits(g@),
            nz == (digits_value(g@.take(i as int)) > 0),
            digits_value(g@.take(i as int)) >= 0,
        decreases g@.len() - i,
    {
        let c = g[i];
        proof {
            assert(is_digit(g@[i as int]));
            assert(g@.take(i + 1) =~= g@.take(i as int).push(c));
            lemma_capped_step(g@.take(i as int), c, 0);
        }
        if char_digit_value(c) != 0 {
            nz = true;
        }
        i = i + 1;
    }
    assert(g@.take(g@.len() as int) =~= g@);
    nz
}

/// The word for `±g / 10^(len - point)`.
fn word_from_digits(neg: bool, g: &Vec<char>, point: usize) -> (r: i32)
    requires
        all_digits(g@),
        point <= g@.len(),
    ensures
        r == fixed_from_decimal(neg, digits_value(g@), (g@.len() - point) as nat),
{
    let cap: u64 = 65536;
    let mut ip: u64 = 0;
    let mut i: usize = 0;
    assert(g@.take(0) =~= Seq::<char>::empty());
    while i < point
        invariant
            i <= point <= g@.len(),
            all_digits(g@),
            cap == 65536,
            ip == capped(digits_value(g@.take(i as int)), cap as int),
            ip <= cap,
        decreases point - i,
    {
        let c = g[i];
        let d = char_digit_value(c);
        proof {
            assert(is_digit(g@[i as int]));
            assert(g@.take(i + 1) =~= g@.take(i as int).push(c));
            lemma_capped_step(g@.take(i as int), c, cap as int);
        }
        ip = if ip >= cap {
            cap
        } else {
            let t = ip * 10 + d;
            if t > cap {
                cap
            } else {
                t
            }
        };
        i = i + 1;
    }
    let ghost ints = g@.take(point as int);
    let ghost frac = g@.skip(point as int);
    let mut f17: u64 = 0;
    let mut e: u64 = 0;
    let mut j: usize = point;
    assert(frac.take(0) =~= Seq::<char>::empty());
    while j < g.len()
        invariant
            point <= j <= g@.len(),
            all_digits(g@),
            frac == g@.skip(point as int),
            e as int == if j - point < 17 {
                j - point
            } else {
                17
            },
            f17 == digits_value(frac.take(e as int)),
            f17 < pow10(e as nat),
        decreases g@.len() - j,
    {
        let c = g[j];
        if e < 17 {
            let d = char_digit_value(c);
            proof {
                assert(is_digit(g@[j as int]));
                assert(frac[e as int] == c);
                assert(frac.take(e + 1) =~= frac.take(e as int).push(c));
                lemma_capped_step(frac.take(e as int), c, 0);
                lemma_pow10_le(e as nat, 16);
                lemma_pow10_values();
            }
            f17 = f17 * 10 + d;
            e = e + 1;
        }
        j = j + 1;
    }
    proof {
        assert(all_digits(ints)) by {
            assert forall|x: int| 0 <= x < ints.len() implies is_digit(#[trigger] ints[x]) by {
                assert(ints[x] == g@[x]);
            }
        }
        assert(all_digits(frac)) by {
            assert forall|x: int| 0 <= x < frac.len() implies is_digit(#[trigger] frac[x]) by {
                assert(frac[x] == g@[x + point]);
            }
        }
        assert(g@ =~= ints + frac);
        lemma_digits_concat(ints, frac);
    }
    fixed_word(neg, ip, f17, e, Ghost(ints), Ghost(frac))
}

/// `g` followed by `z` zeros.
fn pad_zeros_right(g: &Vec<char>, z: usize) -> (r: Vec<char>)
    requires
        all_digits(g@),
    ensures
        all_digits(r@),
        r@.len() == g@.len() + z,
        digits_value(r@) == digits_value(g@) * pow10(z as nat),
{
    let mut r: Vec<char> = Vec::new();
    let mut i: usize = 0;
    assert(g@.take(0) =~= Seq::<char>::empty());
    while i < g.len()
        invariant
            i <= g@.len(),
            all_digits(g@),
            r@ == g@.take(i as int),
        decreases g@.len() - i,
    {
        r.push(g[i]);
        assert(g@.take(i + 1) =~= g@.take(i as int).push(g@[i as int]));
        i = i + 1;
    }
    assert(g@.take(g@.len() as int) =~= g@);
    let mut k: usize = 0;
    while k < z
        invariant
            k <= z,
            all_digits(g@),
            all_digits(r@),
            r@.len() == g@.len() + k,
            digits_value(r@) == digits_value(g@) * pow10(k as nat),
        decreases z - k,
    {
        let ghost before = r@;
        r.push('0');
        proof {
            lemma_capped_step(before, '0', 0);
            let v = digits_value(g@);
            let p = pow10(k as nat);
            assert(pow10((k + 1) as nat) == 10 * p);
            assert(v * p * 10 == v * (10 * p)) by (nonlinear_arith);
        }
        k = k + 1;
    }
    r
}

/// `z` zeros followed by `g`.
fn pad_zeros_left(g: &Vec<char>, z: usize) -> (r: Vec<char>)
    requires
        all_digits(g@),
    ensures
        all_digits(r@),
        r@.len() == g@.len() + z,
        digits_value(r@) == digits_value(g@),
{
    let mut r: Vec<char> = Vec::new();
    let mut k: usize = 0;
    assert(digits_value(Seq::<char>::empty()) == 0);
    while k < z
        invariant
            k <= z,
            all_digits(r@),
            r@.len() == k,
            digits_value(r@) == 0,
        decreases z - k,
    {
        let ghost before = r@;
        r.push('0');
        proof {
            lemma_capped_step(before, '0', 0);
        }
        k = k + 1;
    }
    let mut i: usize = 0;
    assert(g@.take(0) =~= Seq::<char>::empty());
    while i < g.len()
        invariant
            i <= g@.len(),
            all_digits(g@),
            all_digits(r@),
            r@.len() == z + i,
            digits_value(r@) == digits_value(g@.take(i as int)),
        decreases g@.len() - i,
    {
        let ghost before = r@;
        let c = g[i];
        r.push(c);
        proof {
            assert(is_digit(g@[i as int]));
            assert(g@.take(i + 1) =~= g@.take(i as int).push(c));
            lemma_capped_step(before, c, 0);
            lemma_capped_step(g@.take(i as int), c, 0);
        }
        i = i + 1;
    }
    assert(g@.take(g@.len() as int) =~= g@);
    r
}

/// A number of at least `10^5` saturates the word; one below `10^-6` in
/// magnitude reads as zero.
pub proof fn lemma_scaled_extremes(neg: bool, n: int, total: nat, k: int)
    requires
        0 <= n < pow10(total),
    ensures
        n >= 1 && k <= -5 ==> fixed_from_scaled(neg, n, k) == if neg {
            i32::MIN
        } else {
            i32::MAX
        },
        k >= total + 6 ==> fixed_from_scaled(neg, n, k) == 0,
{
    if n >= 1 && k <= -5 {
        let big = n * pow10((-k) as nat);
        lemma_pow10_le(5, (-k) as nat);
        reveal_with_fuel(pow10, 6);
        assert(big >= 32768) by (nonlinear_arith)
            requires
                big == n * pow10((-k) as nat),
                n >= 1,
                pow10((-k) as nat) >= 100000,
        ;
        lemma_round_saturates(big, 0, 0);
        assert(pow10(0) == 1);
        assert((big * pow10(0) + 0) * 65536 == big * 65536) by (nonlinear_arith)
            requires
                pow10(0) == 1,
        ;
    }
    if k >= total + 6 {
        let b = pow10(k as nat);
        lemma_pow10_add(total, (k - total) as nat);
        assert(total + (k - total) as nat == k as nat);
        lemma_pow10_le(6, (k - total) as nat);
        reveal_with_fuel(pow10, 7);
        lemma_pow10_pos(total);
        assert(0 <= 2 * (n * 65536) + b < 2 * b) by (nonlinear_arith)
            requires
                0 <= n < pow10(total),
                b == pow10(total) * pow10((k - total) as nat),
                pow10((k - total) as nat) >= 1000000,
                pow10(total) >= 1,
        ;
        lemma_fundamental_div_mod_converse_div(2 * (n * 65536) + b, 2 * b, 0, 2 * (n * 65536) + b);
        assert(round_half_up(n * 65536, b) == 0);
    }
}

/// A number of value zero reads as zero.
pub proof fn lemma_zero_reads_zero(neg: bool, k: int)
    ensures
        fixed_from_scaled(neg, 0, k) == 0,
{
    if k >= 0 {
        let b = pow10(k as nat);
        lemma_pow10_pos(k as nat);
        lemma_fundamental_div_mod_converse_div(b, 2 * b, 0, b);
        assert(round_half_up(0, b) == 0);
    } else {
        assert(pow10(0) == 1);
        assert(0 * pow10((-k) as nat) == 0);
        lemma_fundamental_div_mod_converse_div(1, 2, 0, 1);
        assert(round_half_up(0, 1) == 0);
    }
}

/// The word for `±g / 10^(len - point) * 10^exponent`, from the exponent's
/// sign and its magnitude capped at `len + 16`.
fn word_from_parts(
    neg: bool,
    g: &Vec<char>,
    point: usize,
    eneg: bool,
    emag: u128,
    Ghost(exponent): Ghost<int>,
) -> (r: i32)
    requires
        all_digits(g@),
        point <= g@.len(),
        emag == capped(
            if exponent < 0 {
                -exponent
            } else {
                exponent
            },
            g@.len() as int + 16,
        ),
        eneg ==> exponent <= 0,
        !eneg ==> exponent >= 0,
    ensures
        r == fixed_from_scaled(neg, digits_value(g@), (g@.len() - point) - exponent),
{
    let total = g.len();
    let ghost k = (total - point) - exponent;
    let ghost v = digits_value(g@);
    proof {
        lemma_digits_bound(g@);
    }
    if !has_nonzero_digit(&g) {
        proof {
            lemma_zero_reads_zero(neg, k);
        }
        return 0;
    }
    let b = total - point;
    if !eneg && emag >= b as u128 + 5 {
        proof {
            lemma_scaled_extremes(neg, v, total as nat, k);
        }
        return if neg {
            i32::MIN
        } else {
            i32::MAX
        };
    }
    if eneg && emag >= point as u128 + 6 {
        proof {
            lemma_scaled_extremes(neg, v, total as nat, k);
        }
        return 0;
    }
    assert(emag == if exponent < 0 {
        -exponent
    } else {
        exponent
    });
    if !eneg {
        if emag <= b as u128 {
            let x = emag as usize;
            word_from_digits(neg, g, point + x)
        } else {
            let z = (emag - b as u128) as usize;
            let padded = pad_zeros_right(g, z);
            proof {
                assert(pow10(0) == 1);
                assert(k == -(z as int));
            }
            let len = padded.len();
            word_from_digits(neg, &padded, len)
        }
    } else {
        if emag <= point as u128 {
            let x = emag as usize;
            word_from_digits(neg, g, point - x)
        } else {
            let z = (emag - point as u128) as usize;
            let padded = pad_zeros_left(g, z);
            word_from_digits(neg, &padded, 0)
        }
    }
}

/// Reads a fixed-point option value from its text: an optional `+` or `-`,
/// then `inf`, `infinity` or `nan` in any case, or digits with at most one point
/// among them and an optional exponent (`e` or `E`, an optional sign,
/// digits). The value is rounded to the nearest multiple of `2^-16`, halves
/// away from zero; one beyond the range of the word, or an infinity, gives its
/// nearest end; `nan` gives zero.
pub fn text_to_fixed(s: &str) -> (r: Result<i32, CodecError>)
    ensures
        r == fixed_of_text(s@),
{
    let n = s.unicode_len();
    let (neg, start) = scan_sign(s);
    let ghost body = s@.skip(start as int);
    if is_infinity_at(s, start) {
        return Ok(
            if neg {
                i32::MIN
            } else {
                i32::MAX
            },
        );
    }
    if is_nan_at(s, start) {
        return Ok(0);
    }
    let ep = find_exponent_mark(s, start);
    let ghost k0 = ep - start;
    assert(body.take(k0) =~= s@.subrange(start as int, ep as int));
    let ghost mant = mantissa_value(body.take(k0));
    let (g, point) = match collect_mantissa(s, start, ep) {
        Some(m) => m,
        None => {
            proof {
                assert forall|j: int| !is_exponent_split(body, j) by {
                    if 0 <= j < k0 {
                        assert(body[j] == s@[start + j]);
                    } else if j > k0 && is_exponent_split(body, j) {
                        lemma_mantissa_chars(body.take(j));
                        assert(body.take(j)[k0] == body[k0]);
                    }
                }
                if ep < n {
                    assert(mantissa_value(body) is None) by {
                        if mantissa_value(body) is Some {
                            lemma_mantissa_chars(body);
                            assert(body[k0] == s@[ep as int]);
                        }
                    }
                } else {
                    assert(body.take(k0) =~= body);
                }
            }
            return Err(CodecError::Malformed);
        },
    };
    let total = g.len();
    let ghost frac_len = (total - point) as nat;
    let cap: u128 = total as u128 + 16;
    let ghost exponent: int;
    let mut eneg = false;
    let mut emag: u128 = 0;
    if ep < n {
        let ghost etext = body.skip(k0 + 1);
        assert(etext =~= s@.subrange(ep + 1, n as int));
        match scan_exponent(s, ep + 1, n, cap) {
            Some((b, m)) => {
                eneg = b;
                emag = m;
            },
            None => {
                proof {
                    assert forall|j: int| !is_exponent_split(body, j) by {
                        if 0 <= j < k0 {
                            assert(body[j] == s@[start + j]);
                        } else if j > k0 && is_exponent_split(body, j) {
                            lemma_mantissa_chars(body.take(j));
                            assert(body.take(j)[k0] == body[k0]);
                        }
                    }
                    assert(mantissa_value(body) is None) by {
                        if mantissa_value(body) is Some {
                            lemma_mantissa_chars(body);
                            assert(body[k0] == s@[ep as int]);
                        }
                    }
                }
                return Err(CodecError::Malformed);
            },
        }
        proof {
            assert(is_exponent_split(body, k0));
            lemma_exponent_split_unique(body, k0);
            exponent = int_text_value(etext)->Some_0;
        }
    } else {
        proof {
            assert(body.take(k0) =~= body);
            assert forall|j: int| !is_exponent_split(body, j) by {
                if 0 <= j < body.len() {
                    assert(body[j] == s@[start + j]);
                }
            }
            exponent = 0;
        }
    }
    assert(number_value(s@) == Some(
        ParsedNumber::Finite { neg, digits: g@, frac_len, exponent },
    ));
    assert(emag == capped(if exponent < 0 { -exponent } else { exponent }, cap as int));
    assert(eneg ==> exponent <= 0);
    assert(!eneg ==> exponent >= 0);
    Ok(word_from_parts(neg, &g, point, eneg, emag, Ghost(exponent)))
}

/// Appends the last `w` digits of `n`, with leading zeros.
fn push_padded(s: &mut String, n: u64, w: u64)
    ensures
        final(s)@ == old(s)@ + padded_digits(n as nat, w as nat),
    decreases w,
{
    if w > 0 {
        push_padded(s, n / 10, w - 1);
        s.push(crate::decimal::digit_to_char(n % 10));
    }
    assert(final(s)@ =~= old(s)@ + padded_digits(n as nat, w as nat));
}

/// The text of a fixed-point option value: the exact decimal value of
/// `raw / 65536`.
pub fn fixed_to_text(raw: i32) -> (r: String)
    ensures
        r@ == fixed_text(raw),
{
    let mut s = String::new();
    let m: u64 = if raw < 0 {
        s.push('-');
        (0 - (raw as i64)) as u64
    } else {
        raw as u64
    };
    assert(m == magnitude(raw));
    push_digits(&mut s, m / 65536);
    let ghost head = s@;
    let f = m % 65536;
    if f != 0 {
        s.push('.');
        let mut v: u64 = f * FRACTION_SCALE;
        let mut w: u64 = 16;
        while w > 0 && v % 10 == 0
            invariant
                w <= 16,
                strip_zeros(v as nat, w as nat) == strip_zeros(
                    (f * FRACTION_SCALE) as nat,
                    16,
                ),
            decreases w,
        {
            v = v / 10;
            w = w - 1;
        }
        push_padded(&mut s, v, w);
        assert(s@ =~= fixed_text(raw));
    } else {
        assert(s@ =~= fixed_text(raw));
    }
    s
}

/// Reading back the text of a fixed-point word gives that word again, for
/// every word.
pub proof fn lemma_fixed_text_round_trip(raw: i32)
    ensures
        fixed_of_text(fixed_text(raw)) == Ok::<i32, CodecError>(raw),
{
    let m = magnitude(raw);
    let ip = m / 65536;
    let f = m % 65536;
    let neg = raw < 0;
    let text = fixed_text(raw);
    let digits = nat_digits(ip);
    lemma_nat_digits(ip);
    let tail = if f == 0 {
        Seq::<char>::empty()
    } else {
        seq!['.'] + fraction_digits(f)
    };
    let body = digits + tail;
    assert(is_digit(digits[0]));
    if neg {
        assert(text =~= seq!['-'] + body);
        assert(text.drop_first() =~= body);
    } else {
        assert(text =~= body);
        assert(text[0] == digits[0]);
    }
    assert(sign_split(text) == (neg, body));
    assert(m == ip * 65536 + f);
    let n: int;
    let d: nat;
    if f == 0 {
        assert(body =~= digits);
        n = ip as int;
        d = 0;
        assert(pow10(0) == 1);
        assert(n * 65536 == m * pow10(d));
        assert(mantissa_value(body) == Some((body, 0nat)));
        assert forall|k: int| !is_exponent_split(body, k) by {
            if 0 <= k < body.len() {
                assert(is_digit(body[k]));
            }
        }
    } else {
        lemma_pow10_values();
        let (v, w) = strip_zeros(f * (FRACTION_SCALE as nat), 16);
        lemma_strip_zeros(f * (FRACTION_SCALE as nat), 16);
        lemma_padded_digits(v, w);
        let fd = padded_digits(v, w);
        let k = digits.len() as int;
        assert(body[k] == '.');
        assert(body.take(k) =~= digits);
        assert(body.skip(k + 1) =~= fd);
        assert(is_point_split(body, k));
        lemma_point_split_unique(body, k);
        lemma_digits_concat(digits, fd);
        assert(body.take(k) + body.skip(k + 1) =~= digits + fd);
        assert(mantissa_value(body) == Some((digits + fd, w)));
        assert forall|j: int| !is_exponent_split(body, j) by {
            if 0 <= j < k {
                assert(body[j] == digits[j]);
                assert(is_digit(body[j]));
            } else if k < j < body.len() {
                assert(body[j] == fd[j - k - 1]);
                assert(is_digit(body[j]));
            }
        }
        n = ip * pow10(w) + v;
        d = w;
        assert(body.len() - k - 1 == w);
        let c = pow10((16 - w) as nat);
        lemma_pow10_pos((16 - w) as nat);
        lemma_pow10_add(w, (16 - w) as nat);
        assert(w + (16 - w) as nat == 16);
        assert(n * 65536 * c == m * pow10(w) * c) by (nonlinear_arith)
            requires
                n == ip * pow10(w) + v,
                v * c == f * 152587890625,
                pow10(w) * c == 10000000000000000,
                m == ip * 65536 + f,
        ;
        assert(n * 65536 == m * pow10(w)) by (nonlinear_arith)
            requires
                n * 65536 * c == m * pow10(w) * c,
                c >= 1,
        ;
    }
    assert(!is_infinity_text(body)) by {
        assert(body[0] == digits[0]);
        assert(!same_letter(body[0], infinity_word()[0]));
    }
    assert(!is_nan_text(body)) by {
        assert(body[0] == digits[0]);
        assert(!same_letter(body[0], nan_word()[0]));
    }
    assert(number_value(text) == Some(
        ParsedNumber::Finite { neg, digits: mantissa_value(body)->Some_0.0, frac_len: d, exponent: 0 },
    ));
    assert(digits_value(mantissa_value(body)->Some_0.0) == n);
    let b = pow10(d);
    lemma_pow10_pos(d);
    assert(2 * (n * 65536) + b == m * (2 * b) + b) by (nonlinear_arith)
        requires
            n * 65536 == m * b,
    ;
    lemma_fundamental_div_mod_converse_div(2 * (n * 65536) + b, 2 * b, m as int, b);
    assert(round_half_up(n * 65536, b) == m);
}

/// Reading a text gives the word nearest to the number it denotes: for
/// `x / 10^d` of magnitude below `32768 - 2^-16`, the word `w` is within half
/// of `2^-16` of it.
pub proof fn lemma_fixed_reading_is_nearest(neg: bool, n: int, d: nat)
    requires
        n >= 0,
        n * 65536 <= 0x7fff_ffff * pow10(d),
    ensures
        ({
            let x = if neg {
                -n
            } else {
                n
            };
            let w = fixed_from_decimal(neg, n, d) as int;
            -pow10(d) <= 2 * (w * pow10(d) - x * 65536) <= pow10(d)
        }),
{
    let b = pow10(d);
    lemma_pow10_pos(d);
    let a = n * 65536;
    let num = 2 * a + b;
    let q = num / (2 * b);
    let r = num % (2 * b);
    lemma_fundamental_div_mod(num, 2 * b);
    lemma_mod_pos_bound(num, 2 * b);
    assert(0 <= q < 0x8000_0000 && -b < 2 * b * q - 2 * a <= b) by (nonlinear_arith)
        requires
            num == 2 * b * q + r,
            0 <= r < 2 * b,
            num == 2 * a + b,
            a >= 0,
            b >= 1,
            a <= 0x7fff_ffff * b,
    ;
    assert(round_half_up(a, b) == q);
    assert(2 * (q * b) == 2 * b * q) by (nonlinear_arith);
    assert((-q) * b == -(q * b)) by (nonlinear_arith);
}

} // verus!
