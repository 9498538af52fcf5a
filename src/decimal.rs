//! Decimal digit strings: their values, and the text form of `i32` words.
use vstd::prelude::*;

verus! {

/// Relies on `String::push`: the character is appended at the end.
pub assume_specification[ std::string::String::push ](s: &mut std::string::String, ch: char)
    ensures
        final(s)@ == old(s)@.push(ch),
;

pub open spec fn is_digit(c: char) -> bool {
    48 <= (c as u32) && (c as u32) <= 57
}

pub open spec fn digit_val(c: char) -> int {
    (c as u32) - 48
}

pub open spec fn all_digits(s: Seq<char>) -> bool {
    forall|i: int| 0 <= i < s.len() ==> is_digit(#[trigger] s[i])
}

/// The value of a string of decimal digits, most significant first.
pub open spec fn digits_value(s: Seq<char>) -> int
    decreases s.len(),
{
    if s.len() == 0 {
        0
    } else {
        digits_value(s.drop_last()) * 10 + digit_val(s.last())
    }
}

pub open spec fn pow10(n: nat) -> int
    decreases n,
{
    if n == 0 {
        1
    } else {
        10 * pow10((n - 1) as nat)
    }
}

pub open spec fn digit_char(d: int) -> char {
    if d == 0 {
        '0'
    } else if d == 1 {
        '1'
    } else if d == 2 {
        '2'
    } else if d == 3 {
        '3'
    } else if d == 4 {
        '4'
    } else if d == 5 {
        '5'
    } else if d == 6 {
        '6'
    } else if d == 7 {
        '7'
    } else if d == 8 {
        '8'
    } else {
        '9'
    }
}

/// The shortest digit string of `n`.
pub open spec fn nat_digits(n: nat) -> Seq<char>
    decreases n,
{
    if n < 10 {
        seq![digit_char(n as int)]
    } else {
        nat_digits(n / 10).push(digit_char((n % 10) as int))
    }
}

/// The last `w` digits of `n`, with leading zeros.
pub open spec fn padded_digits(n: nat, w: nat) -> Seq<char>
    decreases w,
{
    if w == 0 {
        Seq::empty()
    } else {
        padded_digits(n / 10, (w - 1) as nat).push(digit_char((n % 10) as int))
    }
}

/// Splits off a leading `-` or `+`: whether the text is negative, and the rest.
pub open spec fn sign_split(s: Seq<char>) -> (bool, Seq<char>) {
    if s.len() > 0 && s[0] == '-' {
        (true, s.drop_first())
    } else if s.len() > 0 && s[0] == '+' {
        (false, s.drop_first())
    } else {
        (false, s)
    }
}

/// The integer that a text denotes: an optional sign and at least one digit.
pub open spec fn int_text_value(s: Seq<char>) -> Option<int> {
    let (neg, body) = sign_split(s);
    if body.len() > 0 && all_digits(body) {
        Some(
            if neg {
                -digits_value(body)
            } else {
                digits_value(body)
            },
        )
    } else {
        None
    }
}

/// The canonical text of an integer: `-` for a negative one, then its digits.
pub open spec fn int_text(v: int) -> Seq<char> {
    if v < 0 {
        seq!['-'] + nat_digits((-v) as nat)
    } else {
        nat_digits(v as nat)
    }
}

/// What reading an integer option value from its text gives.
pub open spec fn int_of_text(s: Seq<char>) -> Result<i32, CodecError> {
    match int_text_value(s) {
        None => Err(CodecError::Malformed),
        Some(v) => if i32::MIN <= v <= i32::MAX {
            Ok(v as i32)
        } else {
            Err(CodecError::OutOfRange)
        },
    }
}

/// `v` where it is below `cap`, else `cap`.
pub open spec fn capped(v: int, cap: int) -> int {
    if v < cap {
        v
    } else {
        cap
    }
}

/// Why a text does not give a numeric option value.
#[derive(Debug, Clone, Copy, PartialEq, Eq, Structural)]
pub enum CodecError {
    /// The text is not a number.
    Malformed,
    /// The number does not fit the option's word.
    OutOfRange,
}

pub proof fn lemma_digit_char(d: int)
    requires
        0 <= d < 10,
    ensures
        is_digit(digit_char(d)),
        digit_val(digit_char(d)) == d,
{
}

pub proof fn lemma_pow10_pos(n: nat)
    ensures
        pow10(n) >= 1,
    decreases n,
{
    if n > 0 {
        lemma_pow10_pos((n - 1) as nat);
    }
}

pub proof fn lemma_pow10_add(a: nat, b: nat)
    ensures
        pow10(a + b) == pow10(a) * pow10(b),
    decreases b,
{
    if b > 0 {
        lemma_pow10_add(a, (b - 1) as nat);
        assert(pow10(a + b) == 10 * pow10((a + b - 1) as nat));
        assert(pow10(a) * pow10(b) == pow10(a) * (10 * pow10((b - 1) as nat)));
        assert(pow10(a) * (10 * pow10((b - 1) as nat)) == 10 * (pow10(a) * pow10(
            (b - 1) as nat,
        ))) by (nonlinear_arith);
    }
}

pub proof fn lemma_nat_digits(n: nat)
    ensures
        nat_digits(n).len() >= 1,
        all_digits(nat_digits(n)),
        digits_value(nat_digits(n)) == n,
    decreases n,
{
    if n < 10 {
        lemma_digit_char(n as int);
        assert(nat_digits(n).drop_last() =~= Seq::<char>::empty());
        assert(digits_value(Seq::<char>::empty()) == 0);
        assert(digits_value(nat_digits(n)) == digits_value(nat_digits(n).drop_last()) * 10
            + digit_val(nat_digits(n).last()));
    } else {
        lemma_nat_digits(n / 10);
        lemma_digit_char((n % 10) as int);
        let s = nat_digits(n);
        assert(s.drop_last() =~= nat_digits(n / 10));
        assert(s.last() == digit_char((n % 10) as int));
        assert(n == (n / 10) * 10 + n % 10);
        assert(digits_value(s) == digits_value(s.drop_last()) * 10 + digit_val(s.last()));
    }
}

pub proof fn lemma_padded_digits(n: nat, w: nat)
    ensures
        padded_digits(n, w).len() == w,
        all_digits(padded_digits(n, w)),
        n < pow10(w) ==> digits_value(padded_digits(n, w)) == n,
    decreases w,
{
    if w > 0 {
        lemma_padded_digits(n / 10, (w - 1) as nat);
        lemma_digit_char((n % 10) as int);
        let s = padded_digits(n, w);
        assert(s.drop_last() =~= padded_digits(n / 10, (w - 1) as nat));
        if n < pow10(w) {
            assert(n / 10 < pow10((w - 1) as nat));
        }
    } else {
        if n < pow10(w) {
            assert(n == 0);
        }
    }
}

/// The value of two digit strings side by side.
pub proof fn lemma_digits_concat(a: Seq<char>, b: Seq<char>)
    ensures
        digits_value(a + b) == digits_value(a) * pow10(b.len()) + digits_value(b),
    decreases b.len(),
{
    if b.len() == 0 {
        assert(a + b =~= a);
    } else {
        lemma_digits_concat(a, b.drop_last());
        assert((a + b).drop_last() =~= a + b.drop_last());
        assert((a + b).last() == b.last());
        let x = digits_value(a);
        let p = pow10((b.len() - 1) as nat);
        let y = digits_value(b.drop_last());
        assert((x * p + y) * 10 == x * (10 * p) + y * 10) by (nonlinear_arith);
    }
}

pub proof fn lemma_digits_bound(s: Seq<char>)
    requires
        all_digits(s),
    ensures
        0 <= digits_value(s) < pow10(s.len()),
    decreases s.len(),
{
    if s.len() > 0 {
        let t = s.drop_last();
        assert(all_digits(t)) by {
            assert forall|i: int| 0 <= i < t.len() implies is_digit(#[trigger] t[i]) by {
                assert(t[i] == s[i]);
            }
        }
        lemma_digits_bound(t);
        assert(is_digit(s[s.len() - 1]));
        let v = digits_value(t);
        let p = pow10(t.len());
        assert(v * 10 + 9 < 10 * p) by (nonlinear_arith)
            requires
                v < p,
        ;
    }
}

/// The character of one decimal digit.
pub fn digit_to_char(d: u64) -> (c: char)
    requires
        d < 10,
    ensures
        c == digit_char(d as int),
{
    match d {
        0 => '0',
        1 => '1',
        2 => '2',
        3 => '3',
        4 => '4',
        5 => '5',
        6 => '6',
        7 => '7',
        8 => '8',
        _ => '9',
    }
}

/// Appends the shortest digit string of `n`.
pub fn push_digits(s: &mut String, n: u64)
    ensures
        final(s)@ == old(s)@ + nat_digits(n as nat),
    decreases n,
{
    if n >= 10 {
        push_digits(s, n / 10);
    }
    s.push(digit_to_char(n % 10));
    proof {
        if n < 10 {
            assert(nat_digits(n as nat) =~= seq![digit_char(n as int)]);
        }
        assert(final(s)@ =~= old(s)@ + nat_digits(n as nat));
    }
}

/// The text of an integer option value.
pub fn int_to_text(v: i32) -> (r: String)
    ensures
        r@ == int_text(v as int),
        int_text_value(r@) == Some(v as int),
{
    let mut s = String::new();
    let m: u64 = if v < 0 {
        s.push('-');
        (0 - (v as i64)) as u64
    } else {
        v as u64
    };
    push_digits(&mut s, m);
    proof {
        lemma_nat_digits(m as nat);
        let body = nat_digits(m as nat);
        assert(s@ =~= int_text(v as int));
        if v < 0 {
            assert(sign_split(s@).1 =~= body);
        } else {
            assert(body[0] != '-' && body[0] != '+') by {
                assert(is_digit(body[0]));
            }
            assert(sign_split(s@).1 =~= body);
        }
    }
    s
}

/// Whether a character is a decimal digit.
pub fn char_is_digit(c: char) -> (r: bool)
    ensures
        r == is_digit(c),
{
    let u = c as u32;
    48 <= u && u <= 57
}

/// The value of a decimal digit.
pub fn char_digit_value(c: char) -> (r: u64)
    requires
        is_digit(c),
    ensures
        r == digit_val(c),
        r < 10,
{
    (c as u32 - 48) as u64
}

/// Reads an optional leading sign: whether it is `-`, and where the rest starts.
pub fn scan_sign(s: &str) -> (r: (bool, usize))
    ensures
        r.1 <= 1,
        r.1 <= s@.len(),
        sign_split(s@) == (r.0, s@.skip(r.1 as int)),
{
    let n = s.unicode_len();
    if n > 0 {
        let c = s.get_char(0);
        if c == '-' {
            return (true, 1);
        } else if c == '+' {
            return (false, 1);
        }
    }
    assert(s@.skip(0) =~= s@);
    (false, 0)
}

/// Appends one digit to a value kept below a cap.
pub proof fn lemma_capped_step(s: Seq<char>, c: char, cap: int)
    requires
        cap >= 0,
        is_digit(c),
    ensures
        capped(digits_value(s.push(c)), cap) == capped(capped(digits_value(s), cap) * 10
            + digit_val(c), cap),
        digits_value(s.push(c)) == digits_value(s) * 10 + digit_val(c),
{
    assert(s.push(c).drop_last() =~= s);
}

/// Reads an integer option value from its text: an optional `+` or `-`, then
/// decimal digits, with a value that fits an `i32`.
pub fn text_to_int(s: &str) -> (r: Result<i32, CodecError>)
    ensures
        r == int_of_text(s@),
{
    let n = s.unicode_len();
    let (neg, start) = scan_sign(s);
    let ghost body = s@.skip(start as int);
    if start >= n {
        return Err(CodecError::Malformed);
    }
    let cap: u64 = 0x1_0000_0000;
    let mut acc: u64 = 0;
    let mut i: usize = start;
    assert(s@.subrange(start as int, start as int) =~= Seq::<char>::empty());
    while i < n
        invariant
            start <= i <= n,
            n == s@.len(),
            body == s@.skip(start as int),
            all_digits(s@.subrange(start as int, i as int)),
            acc == capped(digits_value(s@.subrange(start as int, i as int)), cap as int),
            acc <= cap,
            cap == 0x1_0000_0000,
            sign_split(s@) == (neg, body),
        decreases n - i,
    {
        let c = s.get_char(i);
        if !char_is_digit(c) {
            assert(!all_digits(body)) by {
                assert(body[i - start] == s@[i as int]);
                assert(!is_digit(body[i - start]));
            }
            return Err(CodecError::Malformed);
        }
        let d = char_digit_value(c);
        proof {
            let pre = s@.subrange(start as int, i as int);
            assert(s@.subrange(start as int, i + 1) =~= pre.push(c));
            lemma_capped_step(pre, c, cap as int);
            lemma_digits_bound(pre);
        }
        acc = if acc >= cap {
            cap
        } else {
            let t = acc * 10 + d;
            if t > cap {
                cap
            } else {
                t
            }
        };
        i = i + 1;
    }
    assert(s@.subrange(start as int, n as int) =~= body);
    proof {
        lemma_digits_bound(body);
    }
    if neg {
        if acc <= 0x8000_0000 {
            Ok((0 - (acc as i64)) as i32)
        } else {
            Err(CodecError::OutOfRange)
        }
    } else {
        if acc <= 0x7fff_ffff {
            Ok(acc as i32)
        } else {
            Err(CodecError::OutOfRange)
        }
    }
}

} // verus!
