use vstd::prelude::*;
use crate::math::{
    abs_int, mul_div_floor, mul_div_ceil, Int, in_i128, in_u128, int_str_value, magnitude, trunc_div, trunc_rem, uint_str_value, MathError,
    Uint, parse_int, parse_uint,
};
use crate::text::{
    chars_of, nat_digits, padded_digits, pow10, push_digits, push_padded_digits, string_from_chars,
    trim_trailing_zeros, trim_zeros,
};

verus! {

/// Number of decimal digits of a fixed-point number taken as decimal places.
pub const DECIMAL_PLACES: u32 = 18;

/// Ratio between the inner integer of a fixed-point number and its value.
pub const DECIMAL_FRACTION: u128 = 1_000_000_000_000_000_000;

pub open spec fn fraction() -> int {
    1_000_000_000_000_000_000
}

pub proof fn lemma_pow10_18()
    ensures
        pow10(18) == fraction(),
{
    reveal_with_fuel(pow10, 19);
}

pub proof fn lemma_pow10_monotonic(i: nat, j: nat)
    requires
        i <= j,
    ensures
        1 <= pow10(i) <= pow10(j),
    decreases j,
{
    if j > 0 {
        if i < j {
            lemma_pow10_monotonic(i, (j - 1) as nat);
        } else {
            lemma_pow10_monotonic(0, (j - 1) as nat);
        }
    }
}

/// `10^n` for `n <= 18`.
pub fn pow10_u128(n: u32) -> (r: u128)
    requires
        n <= 18,
    ensures
        r == pow10(n as nat),
{
    let mut acc: u128 = 1;
    let mut i: u32 = 0;
    while i < n
        invariant
            i <= n <= 18,
            acc == pow10(i as nat),
        decreases n - i,
    {
        proof {
            lemma_pow10_monotonic((i + 1) as nat, 18);
            lemma_pow10_18();
        }
        acc = acc * 10;
        i = i + 1;
    }
    acc
}

/// The decimal form of a non-negative fixed-point number whose inner integer
/// is `a`: the whole part, then, if the fractional part is not zero, a dot
/// and the fractional digits without trailing zeros.
pub open spec fn unsigned_dec_chars(a: nat) -> Seq<char> {
    let whole = a / (fraction() as nat);
    let frac = a % (fraction() as nat);
    if frac == 0 {
        nat_digits(whole)
    } else {
        nat_digits(whole) + seq!['.'] + trim_trailing_zeros(padded_digits(frac, 18))
    }
}

/// The decimal form of a fixed-point number whose inner integer is `a`.
pub open spec fn signed_dec_chars(a: int) -> Seq<char> {
    if a < 0 {
        seq!['-'] + unsigned_dec_chars((-a) as nat)
    } else {
        unsigned_dec_chars(a as nat)
    }
}

fn push_unsigned_dec(a: u128, out: &mut Vec<char>)
    ensures
        final(out)@ == old(out)@ + unsigned_dec_chars(a as nat),
{
    let whole = a / DECIMAL_FRACTION;
    let frac = a % DECIMAL_FRACTION;
    push_digits(whole, out);
    if frac != 0 {
        let mut tail: Vec<char> = Vec::new();
        push_padded_digits(frac, DECIMAL_PLACES, &mut tail);
        trim_zeros(&mut tail);
        out.push('.');
        let ghost before = out@;
        out.append(&mut tail);
        proof {
            assert(tail@ == Seq::<char>::empty());
        }
    }
    proof {
        if frac != 0 {
            assert(final(out)@ =~= old(out)@ + unsigned_dec_chars(a as nat));
        } else {
            assert(final(out)@ =~= old(out)@ + unsigned_dec_chars(a as nat));
        }
    }
}

pub open spec fn int_like(s: Seq<char>, signed: bool) -> Option<int> {
    if signed { int_str_value(s) } else { uint_str_value(s) }
}

pub open spec fn in_range(x: int, signed: bool) -> bool {
    if signed { in_i128(x) } else { in_u128(x) }
}

/// Whether `c` occurs in `s`.
#[verifier::opaque]
pub open spec fn has_char(s: Seq<char>, c: char) -> bool {
    exists|i: int| 0 <= i < s.len() && s[i] == c
}

/// The index of the first `c` in `s`, where there is one.
#[verifier::opaque]
pub open spec fn first_char(s: Seq<char>, c: char) -> int {
    choose|d: int| 0 <= d < s.len() && s[d] == c && !has_char(s.subrange(0, d), c)
}

/// The inner integer of the fixed-point number that `s` denotes, as the
/// parse of a fixed-point number reads it: a whole part that the integer
/// type parses, then optionally a dot and at most 18 fractional digits that
/// it parses too, applied with the sign of the whole string.
pub open spec fn dec_str_value(s: Seq<char>, signed: bool) -> Option<int> {
    if !has_char(s, '.') {
        undotted_value(s, signed)
    } else {
        let d = first_char(s, '.');
        if has_char(s.subrange(d + 1, s.len() as int), '.') {
            None
        } else {
            dotted_value(s, d, signed)
        }
    }
}

/// The value of `s`, which has no dot, read as a whole number.
#[verifier::opaque]
pub open spec fn undotted_value(s: Seq<char>, signed: bool) -> Option<int> {
    match int_like(s, signed) {
        Some(w) => if in_range(w, signed) && in_range(w * fraction(), signed) {
            Some(w * fraction())
        } else {
            None
        },
        None => None,
    }
}

/// The value of `s` read as a whole part before the dot at `d` and a
/// fractional part after it.
#[verifier::opaque]
pub open spec fn dotted_value(s: Seq<char>, d: int, signed: bool) -> Option<int> {
    let whole = s.subrange(0, d);
    let frac = s.subrange(d + 1, s.len() as int);
    match (int_like(whole, signed), int_like(frac, signed)) {
        (Some(w), Some(f)) => {
            let fp = f * pow10((18 - frac.len()) as nat);
            let t = if s[0] == '-' { w * fraction() - fp } else { w * fraction() + fp };
            if in_range(w, signed) && in_range(w * fraction(), signed) && in_range(f, signed)
                && frac.len() <= 18 && in_range(fp, signed) && in_range(t, signed) {
                Some(t)
            } else {
                None
            }
        },
        _ => None,
    }
}

/// The first `ch` at or after `from`.
pub fn find_char(s: &Vec<char>, from: usize, ch: char) -> (r: Option<usize>)
    requires
        from <= s@.len(),
    ensures
        match r {
            Some(d) => from <= d < s@.len() && s@[d as int] == ch && forall|i: int| from <= i < d ==> s@[i] != ch,
            None => forall|i: int| from <= i < s@.len() ==> s@[i] != ch,
        },
{
    let mut i: usize = from;
    while i < s.len()
        invariant
            from <= i <= s@.len(),
            forall|j: int| from <= j < i ==> s@[j] != ch,
        decreases s@.len() - i,
    {
        if s[i] == ch {
            return Some(i);
        }
        i = i + 1;
    }
    None
}

/// Splits `s` at its first `ch`: `Ok(None)` where it has none, `Ok(Some(d))`
/// where it has exactly one, at `d`, and `Err` where it has more.
pub fn split_at_char(s: &Vec<char>, ch: char) -> (r: Result<Option<usize>, ()>)
    ensures
        match r {
            Ok(None) => !has_char(s@, ch),
            Ok(Some(d)) => has_char(s@, ch) && d == first_char(s@, ch) && d < s@.len()
                && !has_char(s@.subrange(d + 1, s@.len() as int), ch),
            Err(_) => has_char(s@, ch) && has_char(s@.subrange(first_char(s@, ch) + 1, s@.len() as int), ch),
        },
{
    reveal(has_char);
    reveal(first_char);
    match find_char(s, 0, ch) {
        None => {
            assert(!has_char(s@, ch));
            Ok(None)
        },
        Some(d) => {
            proof {
                assert(has_char(s@, ch));
                let c = first_char(s@, ch);
                assert(!has_char(s@.subrange(0, d as int), ch)) by {
                    assert forall|i: int| 0 <= i < d implies s@.subrange(0, d as int)[i] != ch by {}
                }
                assert(0 <= c < s@.len() && s@[c] == ch && !has_char(s@.subrange(0, c), ch));
                if c < d {
                    assert(s@[c] != ch);
                } else if c > d {
                    assert(s@.subrange(0, c)[d as int] == ch);
                }
                assert(c == d);
            }
            assert(d < s.len());
            let rest = find_char(s, d + 1, ch);
            match rest {
                None => {
                    proof {
                        let t = s@.subrange(d + 1, s@.len() as int);
                        assert forall|i: int| 0 <= i < t.len() implies t[i] != ch by {
                            assert(t[i] == s@[d + 1 + i]);
                        }
                    }
                    Ok(Some(d))
                },
                Some(e) => {
                    proof {
                        let t = s@.subrange(d + 1, s@.len() as int);
                        assert(t[e - d - 1] == ch);
                    }
                    Err(())
                },
            }
        },
    }
}

fn undotted_u128(cs: &Vec<char>) -> (r: Option<u128>)
    ensures
        match undotted_value(cs@, false) {
            Some(v) => r == Some(v as u128),
            None => r is None,
        },
{
    reveal(undotted_value);
    reveal(dotted_value);
    let n = cs.len();
    proof {
        assert(cs@.subrange(0, n as int) =~= cs@);
    }
    let w = match parse_uint(cs, 0, n) {
        Some(w) => w,
        None => return None,
    };
    w.checked_mul(DECIMAL_FRACTION)
}

fn undotted_i128(cs: &Vec<char>) -> (r: Option<i128>)
    ensures
        match undotted_value(cs@, true) {
            Some(v) => r == Some(v as i128),
            None => r is None,
        },
{
    reveal(undotted_value);
    reveal(dotted_value);
    let n = cs.len();
    proof {
        assert(cs@.subrange(0, n as int) =~= cs@);
    }
    let w = match parse_int(cs, 0, n) {
        Some(w) => w,
        None => return None,
    };
    w.checked_mul(DECIMAL_FRACTION as i128)
}

fn dec_from_chars_u128(cs: &Vec<char>) -> (r: Option<u128>)
    ensures
        match dec_str_value(cs@, false) {
            Some(v) => r == Some(v as u128),
            None => r is None,
        },
{
    match split_at_char(cs, '.') {
        Err(_) => None,
        Ok(None) => undotted_u128(cs),
        Ok(Some(d)) => dotted_u128(cs, d),
    }
}

fn dec_from_chars_i128(cs: &Vec<char>) -> (r: Option<i128>)
    ensures
        match dec_str_value(cs@, true) {
            Some(v) => r == Some(v as i128),
            None => r is None,
        },
{
    match split_at_char(cs, '.') {
        Err(_) => None,
        Ok(None) => undotted_i128(cs),
        Ok(Some(d)) => dotted_i128(cs, d),
    }
}

fn dotted_u128(cs: &Vec<char>, d: usize) -> (r: Option<u128>)
    requires
        d < cs@.len(),
    ensures
        match dotted_value(cs@, d as int, false) {
            Some(v) => r == Some(v as u128),
            None => r is None,
        },
{
    reveal(undotted_value);
    reveal(dotted_value);
    let n = cs.len();
    let w = match parse_uint(cs, 0, d) {
        Some(w) => w,
        None => return None,
    };
    let whole = match w.checked_mul(DECIMAL_FRACTION) {
        Some(v) => v,
        None => return None,
    };
    let f = match parse_uint(cs, d + 1, n) {
        Some(f) => f,
        None => return None,
    };
    let flen = n - d - 1;
    if flen > 18 {
        return None;
    }
    let factor = pow10_u128((DECIMAL_PLACES - flen as u32) as u32);
    let fp = match f.checked_mul(factor) {
        Some(v) => v,
        None => return None,
    };
    let t = if cs[0] == '-' {
        whole.checked_sub(fp)
    } else {
        whole.checked_add(fp)
    };
    t
}

fn dotted_i128(cs: &Vec<char>, d: usize) -> (r: Option<i128>)
    requires
        d < cs@.len(),
    ensures
        match dotted_value(cs@, d as int, true) {
            Some(v) => r == Some(v as i128),
            None => r is None,
        },
{
    reveal(undotted_value);
    reveal(dotted_value);
    let n = cs.len();
    let w = match parse_int(cs, 0, d) {
        Some(w) => w,
        None => return None,
    };
    let whole = match w.checked_mul(DECIMAL_FRACTION as i128) {
        Some(v) => v,
        None => return None,
    };
    let f = match parse_int(cs, d + 1, n) {
        Some(f) => f,
        None => return None,
    };
    let flen = n - d - 1;
    if flen > 18 {
        return None;
    }
    let factor = pow10_u128((DECIMAL_PLACES - flen as u32) as u32);
    proof {
        lemma_pow10_monotonic((18 - flen) as nat, 18);
        lemma_pow10_18();
    }
    let fp = match f.checked_mul(factor as i128) {
        Some(v) => v,
        None => return None,
    };
    let t = if cs[0] == '-' {
        whole.checked_sub(fp)
    } else {
        whole.checked_add(fp)
    };
    t
}

/// A fixed-point decimal number with 18 decimal places, stored as its value
/// times `10^18`.
#[derive(Debug, Clone, Copy, PartialEq, Eq, PartialOrd, Ord, Structural)]
pub struct Dec<U>(pub Uint<U>);

/// 128-bit unsigned fixed-point number with 18 decimal places.
pub type Udec128 = Dec<u128>;

/// 128-bit signed fixed-point number with 18 decimal places.
pub type Dec128 = Dec<i128>;

impl<U: Copy> Dec<U> {
    /// A decimal with the given inner integer, _without_ adding decimal places.
    pub fn raw(value: Uint<U>) -> (r: Dec<U>)
        ensures
            r.0 == value,
    {
        Dec(value)
    }

    pub fn numerator(&self) -> (r: &Uint<U>)
        ensures
            *r == self.0,
    {
        &self.0
    }
}

impl Dec<u128> {
    /// `x` as a decimal: `x * 10^18` inside.
    pub fn new(x: u128) -> (r: Dec<u128>)
        requires
            x * fraction() <= u128::MAX,
        ensures
            r.0.0 == x * fraction(),
    {
        Dec(Uint(x * DECIMAL_FRACTION))
    }

    /// `x` percent.
    pub fn new_percent(x: u128) -> (r: Dec<u128>)
        requires
            x * 10_000_000_000_000_000 <= u128::MAX,
        ensures
            r.0.0 == x * 10_000_000_000_000_000,
    {
        Dec(Uint(x * 10_000_000_000_000_000))
    }

    /// `x` per mille.
    pub fn new_permille(x: u128) -> (r: Dec<u128>)
        requires
            x * 1_000_000_000_000_000 <= u128::MAX,
        ensures
            r.0.0 == x * 1_000_000_000_000_000,
    {
        Dec(Uint(x * 1_000_000_000_000_000))
    }

    /// `x` basis points.
    pub fn new_bps(x: u128) -> (r: Dec<u128>)
        requires
            x * 100_000_000_000_000 <= u128::MAX,
        ensures
            r.0.0 == x * 100_000_000_000_000,
    {
        Dec(Uint(x * 100_000_000_000_000))
    }

    pub fn zero() -> (r: Dec<u128>)
        ensures
            r.0.0 == 0,
    {
        Dec(Uint(0))
    }

    pub fn one() -> (r: Dec<u128>)
        ensures
            r.0.0 == fraction(),
    {
        Dec(Uint(DECIMAL_FRACTION))
    }

    pub fn checked_add(self, other: Dec<u128>) -> (r: Result<Dec<u128>, MathError>)
        ensures
            in_u128(self.0.0 + other.0.0) ==> r == Ok::<Dec<u128>, MathError>(Dec(Uint((self.0.0 + other.0.0) as u128))),
            !in_u128(self.0.0 + other.0.0) ==> r == Err::<Dec<u128>, MathError>(MathError::Overflow),
    {
        match self.0.checked_add(other.0) {
            Ok(v) => Ok(Dec(v)),
            Err(e) => Err(e),
        }
    }

    pub fn checked_sub(self, other: Dec<u128>) -> (r: Result<Dec<u128>, MathError>)
        ensures
            in_u128(self.0.0 - other.0.0) ==> r == Ok::<Dec<u128>, MathError>(Dec(Uint((self.0.0 - other.0.0) as u128))),
            !in_u128(self.0.0 - other.0.0) ==> r == Err::<Dec<u128>, MathError>(MathError::Overflow),
    {
        match self.0.checked_sub(other.0) {
            Ok(v) => Ok(Dec(v)),
            Err(e) => Err(e),
        }
    }

    pub fn checked_rem(self, other: Dec<u128>) -> (r: Result<Dec<u128>, MathError>)
        ensures
            other.0.0 != 0 ==> r == Ok::<Dec<u128>, MathError>(Dec(Uint(self.0.0 % other.0.0))),
            other.0.0 == 0 ==> r == Err::<Dec<u128>, MathError>(MathError::DivisionByZero),
    {
        match self.0.checked_rem(other.0) {
            Ok(v) => Ok(Dec(v)),
            Err(e) => Err(e),
        }
    }

    /// The decimal whose value is `atomics / 10^decimal_places`, rounded down.
    pub fn checked_from_atomics(atomics: Uint<u128>, decimal_places: u32) -> (r: Result<Dec<u128>, MathError>)
        ensures
            decimal_places <= 18 ==> {
                let v = atomics.0 * pow10((18 - decimal_places) as nat);
                &&& in_u128(v) ==> r == Ok::<Dec<u128>, MathError>(Dec(Uint(v as u128)))
                &&& !in_u128(v) ==> r == Err::<Dec<u128>, MathError>(MathError::Overflow)
            },
            decimal_places > 18 ==> r == Ok::<Dec<u128>, MathError>(
                Dec(Uint(((atomics.0 as int) / (pow10((decimal_places - 18) as nat) as int)) as u128)),
            ),
    {
        if decimal_places <= DECIMAL_PLACES {
            let factor = pow10_u128(DECIMAL_PLACES - decimal_places);
            match atomics.checked_mul(Uint(factor)) {
                Ok(v) => Ok(Dec(v)),
                Err(e) => Err(e),
            }
        } else {
            let digits = decimal_places - DECIMAL_PLACES;
            match Uint(10u128).checked_pow(digits) {
                Ok(factor) => {
                    proof {
                        lemma_pow10_is_pow(digits as nat);
                        lemma_pow10_monotonic(0, digits as nat);
                    }
                    Ok(Dec(Uint(atomics.0 / factor.0)))
                },
                Err(_) => {
                    proof {
                        lemma_pow10_is_pow(digits as nat);
                        assert((atomics.0 as int) / (pow10(digits as nat) as int) == 0) by (nonlinear_arith)
                            requires (atomics.0 as int) < (pow10(digits as nat) as int), atomics.0 >= 0;
                    }
                    Ok(Dec(Uint(0)))
                },
            }
        }
    }

    /// The whole part, rounded down.
    pub fn into_int(self) -> (r: Uint<u128>)
        ensures
            r.0 == (self.0.0 as int) / fraction(),
    {
        Uint(self.0.0 / DECIMAL_FRACTION)
    }

    /// Parses a decimal such as `"1.23"`, `"1"` or `"000012"`, without
    /// rounding: more than 18 fractional digits is an error.
    pub fn from_str(s: &str) -> (r: Result<Dec<u128>, MathError>)
        ensures
            match dec_str_value(s@, false) {
                Some(v) => r == Ok::<Dec<u128>, MathError>(Dec(Uint(v as u128))),
                None => r == Err::<Dec<u128>, MathError>(MathError::ParseNumber),
            },
    {
        let cs = chars_of(s);
        match dec_from_chars_u128(&cs) {
            Some(v) => Ok(Dec(Uint(v))),
            None => Err(MathError::ParseNumber),
        }
    }

    /// The decimal form: the whole part, then the fractional digits without
    /// trailing zeros, if there are any.
    pub fn to_string(&self) -> (r: String)
        ensures
            r@ == unsigned_dec_chars(self.0.0 as nat),
    {
        let mut out: Vec<char> = Vec::new();
        push_unsigned_dec(self.0.0, &mut out);
        proof {
            assert(out@ =~= unsigned_dec_chars(self.0.0 as nat));
        }
        string_from_chars(&out)
    }
}

/// `10^n` is the power of ten that `vstd` knows.
pub proof fn lemma_pow10_is_pow(n: nat)
    ensures
        pow10(n) == vstd::arithmetic::power::pow(10, n),
    decreases n,
{
    vstd::arithmetic::power::lemma_pow0(10);
    if n > 0 {
        lemma_pow10_is_pow((n - 1) as nat);
        vstd::arithmetic::power::lemma_pow_adds(10, (n - 1) as nat, 1);
        vstd::arithmetic::power::lemma_pow1(10);
    }
}

impl Int<u128> {
    /// The integer as a decimal of the same value.
    pub fn checked_into_dec(self) -> (r: Result<Dec<u128>, MathError>)
        ensures
            in_u128(self.0 * fraction()) ==> r == Ok::<Dec<u128>, MathError>(Dec(Uint((self.0 * fraction()) as u128))),
            !in_u128(self.0 * fraction()) ==> r == Err::<Dec<u128>, MathError>(MathError::OverflowConversion),
    {
        match self.checked_mul(Uint(DECIMAL_FRACTION)) {
            Ok(v) => Ok(Dec(v)),
            Err(_) => Err(MathError::OverflowConversion),
        }
    }
}

impl Dec<i128> {
    /// `x` as a decimal: `x * 10^18` inside.
    pub fn new(x: i128) -> (r: Dec<i128>)
        requires
            in_i128(x * fraction()),
        ensures
            r.0.0 == x * fraction(),
    {
        Dec(Uint(x * (DECIMAL_FRACTION as i128)))
    }

    /// `x` percent.
    pub fn new_percent(x: i128) -> (r: Dec<i128>)
        requires
            in_i128(x * 10_000_000_000_000_000),
        ensures
            r.0.0 == x * 10_000_000_000_000_000,
    {
        Dec(Uint(x * 10_000_000_000_000_000))
    }

    /// `x` per mille.
    pub fn new_permille(x: i128) -> (r: Dec<i128>)
        requires
            in_i128(x * 1_000_000_000_000_000),
        ensures
            r.0.0 == x * 1_000_000_000_000_000,
    {
        Dec(Uint(x * 1_000_000_000_000_000))
    }

    /// `x` basis points.
    pub fn new_bps(x: i128) -> (r: Dec<i128>)
        requires
            in_i128(x * 100_000_000_000_000),
        ensures
            r.0.0 == x * 100_000_000_000_000,
    {
        Dec(Uint(x * 100_000_000_000_000))
    }

    pub fn zero() -> (r: Dec<i128>)
        ensures
            r.0.0 == 0,
    {
        Dec(Uint(0))
    }

    pub fn one() -> (r: Dec<i128>)
        ensures
            r.0.0 == fraction(),
    {
        Dec(Uint(DECIMAL_FRACTION as i128))
    }

    pub fn is_negative(&self) -> (r: bool)
        ensures
            r == (self.0.0 < 0),
    {
        self.0.0 < 0
    }

    pub fn checked_add(self, other: Dec<i128>) -> (r: Result<Dec<i128>, MathError>)
        ensures
            in_i128(self.0.0 + other.0.0) ==> r == Ok::<Dec<i128>, MathError>(Dec(Uint((self.0.0 + other.0.0) as i128))),
            !in_i128(self.0.0 + other.0.0) ==> r == Err::<Dec<i128>, MathError>(MathError::Overflow),
    {
        match self.0.checked_add(other.0) {
            Ok(v) => Ok(Dec(v)),
            Err(e) => Err(e),
        }
    }

    pub fn checked_sub(self, other: Dec<i128>) -> (r: Result<Dec<i128>, MathError>)
        ensures
            in_i128(self.0.0 - other.0.0) ==> r == Ok::<Dec<i128>, MathError>(Dec(Uint((self.0.0 - other.0.0) as i128))),
            !in_i128(self.0.0 - other.0.0) ==> r == Err::<Dec<i128>, MathError>(MathError::Overflow),
    {
        match self.0.checked_sub(other.0) {
            Ok(v) => Ok(Dec(v)),
            Err(e) => Err(e),
        }
    }

    /// Remainder rounding toward zero; it has the sign of `self`.
    pub fn checked_rem(self, other: Dec<i128>) -> (r: Result<Dec<i128>, MathError>)
        ensures
            other.0.0 != 0 ==> r == Ok::<Dec<i128>, MathError>(Dec(Uint(trunc_rem(self.0.0 as int, other.0.0 as int) as i128))),
            other.0.0 == 0 ==> r == Err::<Dec<i128>, MathError>(MathError::DivisionByZero),
    {
        match self.0.checked_rem(other.0) {
            Ok(v) => Ok(Dec(v)),
            Err(e) => Err(e),
        }
    }

    pub fn checked_neg(self) -> (r: Result<Dec<i128>, MathError>)
        ensures
            self.0.0 != i128::MIN ==> r == Ok::<Dec<i128>, MathError>(Dec(Uint((-self.0.0) as i128))),
            self.0.0 == i128::MIN ==> r == Err::<Dec<i128>, MathError>(MathError::Overflow),
    {
        match self.0.checked_neg() {
            Ok(v) => Ok(Dec(v)),
            Err(e) => Err(e),
        }
    }

    /// The whole part, rounded toward zero.
    pub fn into_int(self) -> (r: Uint<i128>)
        ensures
            r.0 == trunc_div(self.0.0 as int, fraction()),
    {
        let q = self.0.checked_div(Uint(DECIMAL_FRACTION as i128));
        proof {
            let a = if self.0.0 < 0 { -self.0.0 } else { self.0.0 as int };
            assert(a / fraction() <= a) by (nonlinear_arith)
                requires a >= 0;
        }
        q.unwrap()
    }

    /// Parses a decimal such as `"-1.05"`, `"1"` or `"0.5"`, without
    /// rounding: more than 18 fractional digits is an error.
    pub fn from_str(s: &str) -> (r: Result<Dec<i128>, MathError>)
        ensures
            match dec_str_value(s@, true) {
                Some(v) => r == Ok::<Dec<i128>, MathError>(Dec(Uint(v as i128))),
                None => r == Err::<Dec<i128>, MathError>(MathError::ParseNumber),
            },
    {
        let cs = chars_of(s);
        match dec_from_chars_i128(&cs) {
            Some(v) => Ok(Dec(Uint(v))),
            None => Err(MathError::ParseNumber),
        }
    }

    /// The decimal form: a `-` for a negative value, the whole part, then
    /// the fractional digits without trailing zeros, if there are any.
    pub fn to_string(&self) -> (r: String)
        ensures
            r@ == signed_dec_chars(self.0.0 as int),
    {
        let mut out: Vec<char> = Vec::new();
        if self.0.0 < 0 {
            out.push('-');
        }
        push_unsigned_dec(magnitude(self.0.0), &mut out);
        proof {
            assert(out@ =~= signed_dec_chars(self.0.0 as int));
        }
        string_from_chars(&out)
    }
}

impl Int<i128> {
    /// The integer as a decimal of the same value.
    pub fn checked_into_dec(self) -> (r: Result<Dec<i128>, MathError>)
        ensures
            in_i128(self.0 * fraction()) ==> r == Ok::<Dec<i128>, MathError>(Dec(Uint((self.0 * fraction()) as i128))),
            !in_i128(self.0 * fraction()) ==> r == Err::<Dec<i128>, MathError>(MathError::OverflowConversion),
    {
        match self.checked_mul(Uint(DECIMAL_FRACTION as i128)) {
            Ok(v) => Ok(Dec(v)),
            Err(_) => Err(MathError::OverflowConversion),
        }
    }
}

impl Dec<u128> {
    /// The decimal `numerator / denominator`, rounded down.
    pub fn checked_from_ratio(numerator: Uint<u128>, denominator: Uint<u128>) -> (r: Result<Dec<u128>, MathError>)
        ensures
            denominator.0 == 0 ==> r == Err::<Dec<u128>, MathError>(MathError::DivisionByZero),
            denominator.0 != 0 && mul_div_floor(numerator.0 as int, fraction(), denominator.0 as int) <= u128::MAX
                ==> r == Ok::<Dec<u128>, MathError>(Dec(Uint(mul_div_floor(numerator.0 as int, fraction(), denominator.0 as int) as u128))),
            denominator.0 != 0 && mul_div_floor(numerator.0 as int, fraction(), denominator.0 as int) > u128::MAX
                ==> r is Err,
    {
        match numerator.checked_multiply_ratio_floor(Uint(DECIMAL_FRACTION), denominator) {
            Ok(v) => Ok(Dec(v)),
            Err(e) => Err(e),
        }
    }

    /// The product, rounded down to 18 decimal places.
    pub fn checked_mul(self, other: Dec<u128>) -> (r: Result<Dec<u128>, MathError>)
        ensures
            mul_div_floor(self.0.0 as int, other.0.0 as int, fraction()) <= u128::MAX
                ==> r == Ok::<Dec<u128>, MathError>(Dec(Uint(mul_div_floor(self.0.0 as int, other.0.0 as int, fraction()) as u128))),
            mul_div_floor(self.0.0 as int, other.0.0 as int, fraction()) > u128::MAX ==> r is Err,
    {
        match self.0.checked_multiply_ratio_floor(other.0, Uint(DECIMAL_FRACTION)) {
            Ok(v) => Ok(Dec(v)),
            Err(e) => Err(e),
        }
    }

    /// The quotient, rounded down to 18 decimal places.
    pub fn checked_div(self, other: Dec<u128>) -> (r: Result<Dec<u128>, MathError>)
        ensures
            other.0.0 == 0 ==> r == Err::<Dec<u128>, MathError>(MathError::DivisionByZero),
            other.0.0 != 0 && mul_div_floor(self.0.0 as int, fraction(), other.0.0 as int) <= u128::MAX
                ==> r == Ok::<Dec<u128>, MathError>(Dec(Uint(mul_div_floor(self.0.0 as int, fraction(), other.0.0 as int) as u128))),
            other.0.0 != 0 && mul_div_floor(self.0.0 as int, fraction(), other.0.0 as int) > u128::MAX ==> r is Err,
    {
        match self.0.checked_multiply_ratio_floor(Uint(DECIMAL_FRACTION), other.0) {
            Ok(v) => Ok(Dec(v)),
            Err(e) => Err(e),
        }
    }
}

impl Uint<u128> {
    /// The integer times a decimal, rounded down.
    pub fn checked_mul_dec_floor(self, rhs: Dec<u128>) -> (r: Result<Uint<u128>, MathError>)
        ensures
            mul_div_floor(self.0 as int, rhs.0.0 as int, fraction()) <= u128::MAX
                ==> r == Ok::<Uint<u128>, MathError>(Uint(mul_div_floor(self.0 as int, rhs.0.0 as int, fraction()) as u128)),
            mul_div_floor(self.0 as int, rhs.0.0 as int, fraction()) > u128::MAX ==> r is Err,
    {
        if self.0 == 0 || rhs.0.0 == 0 {
            proof {
                assert(self.0 * rhs.0.0 == 0) by (nonlinear_arith) requires self.0 == 0 || rhs.0.0 == 0;
            }
            return Ok(Uint(0));
        }
        self.checked_multiply_ratio_floor(rhs.0, Uint(DECIMAL_FRACTION))
    }

    /// The integer times a decimal, rounded up.
    pub fn checked_mul_dec_ceil(self, rhs: Dec<u128>) -> (r: Result<Uint<u128>, MathError>)
        ensures
            mul_div_ceil(self.0 as int, rhs.0.0 as int, fraction()) <= u128::MAX
                ==> r == Ok::<Uint<u128>, MathError>(Uint(mul_div_ceil(self.0 as int, rhs.0.0 as int, fraction()) as u128)),
            mul_div_ceil(self.0 as int, rhs.0.0 as int, fraction()) > u128::MAX ==> r is Err,
    {
        if self.0 == 0 || rhs.0.0 == 0 {
            proof {
                assert(self.0 * rhs.0.0 == 0) by (nonlinear_arith) requires self.0 == 0 || rhs.0.0 == 0;
            }
            return Ok(Uint(0));
        }
        self.checked_multiply_ratio_ceil(rhs.0, Uint(DECIMAL_FRACTION))
    }

    /// The integer divided by a decimal, rounded down.
    pub fn checked_div_dec_floor(self, rhs: Dec<u128>) -> (r: Result<Uint<u128>, MathError>)
        ensures
            rhs.0.0 == 0 ==> r == Err::<Uint<u128>, MathError>(MathError::DivisionByZero),
            rhs.0.0 != 0 && mul_div_floor(self.0 as int, fraction(), rhs.0.0 as int) <= u128::MAX
                ==> r == Ok::<Uint<u128>, MathError>(Uint(mul_div_floor(self.0 as int, fraction(), rhs.0.0 as int) as u128)),
            rhs.0.0 != 0 && mul_div_floor(self.0 as int, fraction(), rhs.0.0 as int) > u128::MAX ==> r is Err,
    {
        if rhs.0.0 == 0 {
            return Err(MathError::DivisionByZero);
        }
        self.checked_multiply_ratio_floor(Uint(DECIMAL_FRACTION), rhs.0)
    }

    /// The integer divided by a decimal, rounded up.
    pub fn checked_div_dec_ceil(self, rhs: Dec<u128>) -> (r: Result<Uint<u128>, MathError>)
        ensures
            rhs.0.0 == 0 ==> r == Err::<Uint<u128>, MathError>(MathError::DivisionByZero),
            rhs.0.0 != 0 && mul_div_ceil(self.0 as int, fraction(), rhs.0.0 as int) <= u128::MAX
                ==> r == Ok::<Uint<u128>, MathError>(Uint(mul_div_ceil(self.0 as int, fraction(), rhs.0.0 as int) as u128)),
            rhs.0.0 != 0 && mul_div_ceil(self.0 as int, fraction(), rhs.0.0 as int) > u128::MAX ==> r is Err,
    {
        if rhs.0.0 == 0 {
            return Err(MathError::DivisionByZero);
        }
        self.checked_multiply_ratio_ceil(Uint(DECIMAL_FRACTION), rhs.0)
    }
}

/// A fixed-point decimal number: how many decimal places it has, and the
/// ratio between its inner integer and its value.
pub trait FixedPoint {
    fn decimal_places() -> (r: u32)
        ensures
            r == DECIMAL_PLACES;

    fn decimal_fraction() -> (r: u128)
        ensures
            r == DECIMAL_FRACTION;
}

impl FixedPoint for Dec<u128> {
    fn decimal_places() -> (r: u32) {
        DECIMAL_PLACES
    }

    fn decimal_fraction() -> (r: u128) {
        DECIMAL_FRACTION
    }
}

impl FixedPoint for Dec<i128> {
    fn decimal_places() -> (r: u32) {
        DECIMAL_PLACES
    }

    fn decimal_fraction() -> (r: u128) {
        DECIMAL_FRACTION
    }
}

/// A number that may be negative; zero is not. `signed_value` is the
/// integer it holds (the inner integer, for a decimal).
pub trait Sign: Sized {
    spec fn signed_value(&self) -> int;

    fn checked_abs(self) -> (r: Result<Self, MathError>)
        ensures
            r matches Ok(v) ==> v.signed_value() == abs_int(self.signed_value()),
            r is Err ==> self.signed_value() < 0;

    fn is_negative(&self) -> (r: bool)
        ensures
            r == (self.signed_value() < 0);
}

impl Sign for Uint<u128> {
    open spec fn signed_value(&self) -> int {
        self.0 as int
    }

    fn checked_abs(self) -> (r: Result<Uint<u128>, MathError>) {
        Ok(self)
    }

    fn is_negative(&self) -> (r: bool) {
        false
    }
}

impl Sign for Uint<i128> {
    open spec fn signed_value(&self) -> int {
        self.0 as int
    }

    fn checked_abs(self) -> (r: Result<Uint<i128>, MathError>) {
        Uint::<i128>::checked_abs(self)
    }

    fn is_negative(&self) -> (r: bool) {
        self.0 < 0
    }
}

impl Sign for Dec<u128> {
    open spec fn signed_value(&self) -> int {
        self.0.0 as int
    }

    fn checked_abs(self) -> (r: Result<Dec<u128>, MathError>) {
        Ok(self)
    }

    fn is_negative(&self) -> (r: bool) {
        false
    }
}

impl Sign for Dec<i128> {
    open spec fn signed_value(&self) -> int {
        self.0.0 as int
    }

    fn checked_abs(self) -> (r: Result<Dec<i128>, MathError>) {
        match Uint::<i128>::checked_abs(self.0) {
            Ok(v) => Ok(Dec(v)),
            Err(e) => Err(e),
        }
    }

    fn is_negative(&self) -> (r: bool) {
        self.0.0 < 0
    }
}

} // verus!
