use vstd::prelude::*;
use vstd::arithmetic::power::pow;
use crate::text::{
    all_digits, chars_of, digits_value, nat_digits, padded_digits, parse_digits, pow10, push_digits,
    push_padded_digits, string_from_chars, trim_trailing_zeros, trim_zeros,
};

verus! {

/// The error of a checked arithmetic operation or of a parse.
#[derive(Debug, Clone, Copy, PartialEq, Eq, Structural)]
pub enum MathError {
    Overflow,
    DivisionByZero,
    ParseNumber,
    OverflowConversion,
}

/// The value of a string as `str::parse` reads an unsigned integer: an
/// optional `+` followed by one or more decimal digits.
pub open spec fn uint_str_value(s: Seq<char>) -> Option<int> {
    let body = if s.len() > 0 && s[0] == '+' { s.subrange(1, s.len() as int) } else { s };
    if body.len() > 0 && all_digits(body) {
        Some(digits_value(body) as int)
    } else {
        None
    }
}

/// The value of a string as `str::parse` reads a signed integer: an optional
/// `+` or `-` followed by one or more decimal digits.
pub open spec fn int_str_value(s: Seq<char>) -> Option<int> {
    if s.len() > 0 && s[0] == '-' {
        let body = s.subrange(1, s.len() as int);
        if body.len() > 0 && all_digits(body) {
            Some(-(digits_value(body) as int))
        } else {
            None
        }
    } else {
        uint_str_value(s)
    }
}

pub open spec fn in_u128(x: int) -> bool {
    0 <= x <= u128::MAX
}

pub open spec fn in_i128(x: int) -> bool {
    i128::MIN <= x <= i128::MAX
}

/// `a / b` rounded toward zero, as Rust's integer division does.
pub open spec fn trunc_div(a: int, b: int) -> int {
    let q = (if a < 0 { -a } else { a }) / (if b < 0 { -b } else { b });
    if (a < 0) != (b < 0) { -q } else { q }
}

/// The remainder of `trunc_div`; it has the sign of `a`.
pub open spec fn trunc_rem(a: int, b: int) -> int {
    let r = (if a < 0 { -a } else { a }) % (if b < 0 { -b } else { b });
    if a < 0 { -r } else { r }
}

/// Parses `s[from..to]` as `str::parse::<u128>` does.
pub fn parse_uint(s: &Vec<char>, from: usize, to: usize) -> (r: Option<u128>)
    requires
        from <= to <= s@.len(),
    ensures
        match uint_str_value(s@.subrange(from as int, to as int)) {
            Some(v) => if in_u128(v) { r == Some(v as u128) } else { r is None },
            None => r is None,
        },
{
    let ghost t = s@.subrange(from as int, to as int);
    if from < to && s[from] == '+' {
        proof {
            assert(t.subrange(1, t.len() as int) =~= s@.subrange(from + 1, to as int));
        }
        parse_digits(s, from + 1, to)
    } else {
        parse_digits(s, from, to)
    }
}

/// Parses `s[from..to]` as `str::parse::<i128>` does.
pub fn parse_int(s: &Vec<char>, from: usize, to: usize) -> (r: Option<i128>)
    requires
        from <= to <= s@.len(),
    ensures
        match int_str_value(s@.subrange(from as int, to as int)) {
            Some(v) => if in_i128(v) { r == Some(v as i128) } else { r is None },
            None => r is None,
        },
{
    let ghost t = s@.subrange(from as int, to as int);
    if from < to && s[from] == '-' {
        proof {
            assert(t.subrange(1, t.len() as int) =~= s@.subrange(from + 1, to as int));
        }
        match parse_digits(s, from + 1, to) {
            None => None,
            Some(m) => {
                if m <= 170141183460469231731687303715884105727u128 {
                    Some(-(m as i128))
                } else if m == 170141183460469231731687303715884105728u128 {
                    Some(i128::MIN)
                } else {
                    None
                }
            },
        }
    } else {
        match parse_uint(s, from, to) {
            None => None,
            Some(m) => {
                if m <= 170141183460469231731687303715884105727u128 {
                    Some(m as i128)
                } else {
                    None
                }
            },
        }
    }
}

/// An integer of the underlying type `U` (`u128`, `i128`, `u64`).
#[derive(Debug, Clone, Copy, PartialEq, Eq, PartialOrd, Ord, Structural)]
pub struct Uint<U>(pub U);

/// A signed integer; same representation as `Uint`.
pub type Int<U> = Uint<U>;

pub type Uint64 = Uint<u64>;

pub type Uint128 = Uint<u128>;

pub type Int128 = Uint<i128>;

impl<U: Copy> Uint<U> {
    pub fn new(value: U) -> (r: Uint<U>)
        ensures
            r.0 == value,
    {
        Uint(value)
    }

    pub fn number(&self) -> (r: U)
        ensures
            r == self.0,
    {
        self.0
    }

    pub fn number_ref(&self) -> (r: &U)
        ensures
            *r == self.0,
    {
        &self.0
    }
}

impl Uint<u128> {
    pub fn zero() -> (r: Uint<u128>)
        ensures
            r.0 == 0,
    {
        Uint(0)
    }

    pub fn one() -> (r: Uint<u128>)
        ensures
            r.0 == 1,
    {
        Uint(1)
    }

    pub fn max() -> (r: Uint<u128>)
        ensures
            r.0 == u128::MAX,
    {
        Uint(u128::MAX)
    }

    pub fn is_zero(&self) -> (r: bool)
        ensures
            r == (self.0 == 0),
    {
        self.0 == 0
    }

    pub fn checked_add(self, other: Uint<u128>) -> (r: Result<Uint<u128>, MathError>)
        ensures
            in_u128(self.0 + other.0) ==> r == Ok::<Uint<u128>, MathError>(Uint((self.0 + other.0) as u128)),
            !in_u128(self.0 + other.0) ==> r == Err::<Uint<u128>, MathError>(MathError::Overflow),
    {
        match self.0.checked_add(other.0) {
            Some(v) => Ok(Uint(v)),
            None => Err(MathError::Overflow),
        }
    }

    pub fn checked_sub(self, other: Uint<u128>) -> (r: Result<Uint<u128>, MathError>)
        ensures
            in_u128(self.0 - other.0) ==> r == Ok::<Uint<u128>, MathError>(Uint((self.0 - other.0) as u128)),
            !in_u128(self.0 - other.0) ==> r == Err::<Uint<u128>, MathError>(MathError::Overflow),
    {
        match self.0.checked_sub(other.0) {
            Some(v) => Ok(Uint(v)),
            None => Err(MathError::Overflow),
        }
    }

    pub fn checked_mul(self, other: Uint<u128>) -> (r: Result<Uint<u128>, MathError>)
        ensures
            in_u128(self.0 * other.0) ==> r == Ok::<Uint<u128>, MathError>(Uint((self.0 * other.0) as u128)),
            !in_u128(self.0 * other.0) ==> r == Err::<Uint<u128>, MathError>(MathError::Overflow),
    {
        proof {
            assert(self.0 * other.0 >= 0) by (nonlinear_arith);
        }
        match self.0.checked_mul(other.0) {
            Some(v) => Ok(Uint(v)),
            None => Err(MathError::Overflow),
        }
    }

    pub fn checked_div(self, other: Uint<u128>) -> (r: Result<Uint<u128>, MathError>)
        ensures
            other.0 != 0 ==> r == Ok::<Uint<u128>, MathError>(Uint(self.0 / other.0)),
            other.0 == 0 ==> r == Err::<Uint<u128>, MathError>(MathError::DivisionByZero),
    {
        if other.0 == 0 {
            Err(MathError::DivisionByZero)
        } else {
            Ok(Uint(self.0 / other.0))
        }
    }

    pub fn checked_rem(self, other: Uint<u128>) -> (r: Result<Uint<u128>, MathError>)
        ensures
            other.0 != 0 ==> r == Ok::<Uint<u128>, MathError>(Uint(self.0 % other.0)),
            other.0 == 0 ==> r == Err::<Uint<u128>, MathError>(MathError::DivisionByZero),
    {
        if other.0 == 0 {
            Err(MathError::DivisionByZero)
        } else {
            Ok(Uint(self.0 % other.0))
        }
    }

    pub fn checked_pow(self, exp: u32) -> (r: Result<Uint<u128>, MathError>)
        ensures
            in_u128(pow(self.0 as int, exp as nat)) ==> r == Ok::<Uint<u128>, MathError>(
                Uint(pow(self.0 as int, exp as nat) as u128),
            ),
            !in_u128(pow(self.0 as int, exp as nat)) ==> r == Err::<Uint<u128>, MathError>(MathError::Overflow),
    {
        let mut acc: u128 = 1;
        let mut i: u32 = 0;
        let mut overflowed = false;
        proof {
            vstd::arithmetic::power::lemma_pow0(self.0 as int);
        }
        while i < exp
            invariant
                i <= exp,
                !overflowed ==> acc == pow(self.0 as int, i as nat),
                overflowed ==> !in_u128(pow(self.0 as int, exp as nat)),
            decreases exp - i,
        {
            if !overflowed {
                match acc.checked_mul(self.0) {
                    Some(v) => {
                        proof {
                            vstd::arithmetic::power::lemma_pow_adds(self.0 as int, i as nat, 1);
                            vstd::arithmetic::power::lemma_pow1(self.0 as int);
                        }
                        acc = v;
                    },
                    None => {
                        proof {
                            vstd::arithmetic::power::lemma_pow_adds(self.0 as int, i as nat, 1);
                            vstd::arithmetic::power::lemma_pow1(self.0 as int);
                            assert(self.0 > 1) by (nonlinear_arith)
                                requires acc * self.0 > u128::MAX, acc <= u128::MAX, acc >= 0;
                            vstd::arithmetic::power::lemma_pow_increases(self.0 as nat, (i + 1) as nat, exp as nat);
                        }
                        overflowed = true;
                    },
                }
            }
            i = i + 1;
        }
        if overflowed {
            Err(MathError::Overflow)
        } else {
            Ok(Uint(acc))
        }
    }

    /// Parses the string as `str::parse::<u128>` does.
    pub fn from_str(s: &str) -> (r: Result<Uint<u128>, MathError>)
        ensures
            match uint_str_value(s@) {
                Some(v) => if in_u128(v) {
                    r == Ok::<Uint<u128>, MathError>(Uint(v as u128))
                } else {
                    r == Err::<Uint<u128>, MathError>(MathError::ParseNumber)
                },
                None => r == Err::<Uint<u128>, MathError>(MathError::ParseNumber),
            },
    {
        let cs = chars_of(s);
        proof {
            assert(cs@.subrange(0, cs@.len() as int) =~= s@);
        }
        match parse_uint(&cs, 0, cs.len()) {
            Some(v) => Ok(Uint(v)),
            None => Err(MathError::ParseNumber),
        }
    }

    pub fn to_string(&self) -> (r: String)
        ensures
            r@ == nat_digits(self.0 as nat),
    {
        let mut out: Vec<char> = Vec::new();
        push_digits(self.0, &mut out);
        proof {
            assert(out@ =~= nat_digits(self.0 as nat));
        }
        string_from_chars(&out)
    }
}

/// `a * b / c`, rounded down.
pub open spec fn mul_div_floor(a: int, b: int, c: int) -> int {
    (a * b) / c
}

/// `a * b / c`, rounded up.
pub open spec fn mul_div_ceil(a: int, b: int, c: int) -> int {
    (a * b) / c + if (a * b) % c != 0 { 1int } else { 0int }
}

pub open spec fn abs_int(x: int) -> int {
    if x < 0 { -x } else { x }
}

/// The magnitude of a signed integer.
pub fn magnitude(x: i128) -> (r: u128)
    ensures
        r == abs_int(x as int),
{
    if x >= 0 {
        x as u128
    } else if x == i128::MIN {
        170141183460469231731687303715884105728u128
    } else {
        (-x) as u128
    }
}

impl Uint<i128> {
    pub fn zero() -> (r: Uint<i128>)
        ensures
            r.0 == 0,
    {
        Uint(0)
    }

    pub fn one() -> (r: Uint<i128>)
        ensures
            r.0 == 1,
    {
        Uint(1)
    }

    pub fn is_zero(&self) -> (r: bool)
        ensures
            r == (self.0 == 0),
    {
        self.0 == 0
    }

    pub fn is_negative(&self) -> (r: bool)
        ensures
            r == (self.0 < 0),
    {
        self.0 < 0
    }

    pub fn checked_add(self, other: Uint<i128>) -> (r: Result<Uint<i128>, MathError>)
        ensures
            in_i128(self.0 + other.0) ==> r == Ok::<Uint<i128>, MathError>(Uint((self.0 + other.0) as i128)),
            !in_i128(self.0 + other.0) ==> r == Err::<Uint<i128>, MathError>(MathError::Overflow),
    {
        match self.0.checked_add(other.0) {
            Some(v) => Ok(Uint(v)),
            None => Err(MathError::Overflow),
        }
    }

    pub fn checked_sub(self, other: Uint<i128>) -> (r: Result<Uint<i128>, MathError>)
        ensures
            in_i128(self.0 - other.0) ==> r == Ok::<Uint<i128>, MathError>(Uint((self.0 - other.0) as i128)),
            !in_i128(self.0 - other.0) ==> r == Err::<Uint<i128>, MathError>(MathError::Overflow),
    {
        match self.0.checked_sub(other.0) {
            Some(v) => Ok(Uint(v)),
            None => Err(MathError::Overflow),
        }
    }

    pub fn checked_mul(self, other: Uint<i128>) -> (r: Result<Uint<i128>, MathError>)
        ensures
            in_i128(self.0 * other.0) ==> r == Ok::<Uint<i128>, MathError>(Uint((self.0 * other.0) as i128)),
            !in_i128(self.0 * other.0) ==> r == Err::<Uint<i128>, MathError>(MathError::Overflow),
    {
        match self.0.checked_mul(other.0) {
            Some(v) => Ok(Uint(v)),
            None => Err(MathError::Overflow),
        }
    }

    pub fn checked_neg(self) -> (r: Result<Uint<i128>, MathError>)
        ensures
            self.0 != i128::MIN ==> r == Ok::<Uint<i128>, MathError>(Uint((-self.0) as i128)),
            self.0 == i128::MIN ==> r == Err::<Uint<i128>, MathError>(MathError::Overflow),
    {
        if self.0 == i128::MIN {
            Err(MathError::Overflow)
        } else {
            Ok(Uint(-self.0))
        }
    }

    pub fn checked_abs(self) -> (r: Result<Uint<i128>, MathError>)
        ensures
            self.0 != i128::MIN ==> r == Ok::<Uint<i128>, MathError>(
                Uint(abs_int(self.0 as int) as i128),
            ),
            self.0 == i128::MIN ==> r == Err::<Uint<i128>, MathError>(MathError::Overflow),
    {
        if self.0 == i128::MIN {
            Err(MathError::Overflow)
        } else if self.0 < 0 {
            Ok(Uint(-self.0))
        } else {
            Ok(self)
        }
    }

    /// Division rounding toward zero.
    pub fn checked_div(self, other: Uint<i128>) -> (r: Result<Uint<i128>, MathError>)
        ensures
            other.0 == 0 ==> r == Err::<Uint<i128>, MathError>(MathError::DivisionByZero),
            other.0 != 0 && in_i128(trunc_div(self.0 as int, other.0 as int)) ==> r == Ok::<Uint<i128>, MathError>(
                Uint(trunc_div(self.0 as int, other.0 as int) as i128),
            ),
            other.0 != 0 && !in_i128(trunc_div(self.0 as int, other.0 as int)) ==> r == Err::<Uint<i128>, MathError>(
                MathError::Overflow,
            ),
    {
        if other.0 == 0 {
            return Err(MathError::DivisionByZero);
        }
        let a = magnitude(self.0);
        let b = magnitude(other.0);
        let q = a / b;
        proof {
            assert(q <= a) by (nonlinear_arith)
                requires q == a / b, b >= 1;
        }
        if (self.0 < 0) != (other.0 < 0) {
            if q <= 170141183460469231731687303715884105727u128 {
                Ok(Uint(-(q as i128)))
            } else {
                Ok(Uint(i128::MIN))
            }
        } else if q <= 170141183460469231731687303715884105727u128 {
            Ok(Uint(q as i128))
        } else {
            Err(MathError::Overflow)
        }
    }

    /// Remainder of the division rounding toward zero; it has the sign of `self`.
    pub fn checked_rem(self, other: Uint<i128>) -> (r: Result<Uint<i128>, MathError>)
        ensures
            other.0 == 0 ==> r == Err::<Uint<i128>, MathError>(MathError::DivisionByZero),
            other.0 != 0 ==> r == Ok::<Uint<i128>, MathError>(Uint(trunc_rem(self.0 as int, other.0 as int) as i128)),
    {
        if other.0 == 0 {
            return Err(MathError::DivisionByZero);
        }
        let a = magnitude(self.0);
        let b = magnitude(other.0);
        let m = a % b;
        proof {
            assert(m <= a && m < b) by (nonlinear_arith)
                requires m == a % b, b >= 1;
        }
        if self.0 < 0 {
            Ok(Uint(-(m as i128)))
        } else {
            Ok(Uint(m as i128))
        }
    }

    /// Parses the string as `str::parse::<i128>` does.
    pub fn from_str(s: &str) -> (r: Result<Uint<i128>, MathError>)
        ensures
            match int_str_value(s@) {
                Some(v) => if in_i128(v) {
                    r == Ok::<Uint<i128>, MathError>(Uint(v as i128))
                } else {
                    r == Err::<Uint<i128>, MathError>(MathError::ParseNumber)
                },
                None => r == Err::<Uint<i128>, MathError>(MathError::ParseNumber),
            },
    {
        let cs = chars_of(s);
        proof {
            assert(cs@.subrange(0, cs@.len() as int) =~= s@);
        }
        match parse_int(&cs, 0, cs.len()) {
            Some(v) => Ok(Uint(v)),
            None => Err(MathError::ParseNumber),
        }
    }

    pub fn to_string(&self) -> (r: String)
        ensures
            r@ == (if self.0 < 0 { seq!['-'] + nat_digits((-self.0) as nat) } else { nat_digits(self.0 as nat) }),
    {
        let mut out: Vec<char> = Vec::new();
        if self.0 < 0 {
            out.push('-');
        }
        push_digits(magnitude(self.0), &mut out);
        proof {
            if self.0 < 0 {
                assert(out@ =~= seq!['-'] + nat_digits((-self.0) as nat));
            } else {
                assert(out@ =~= nat_digits(self.0 as nat));
            }
        }
        string_from_chars(&out)
    }
}

impl Uint<u64> {
    /// The product as the next wider integer, which cannot overflow.
    pub fn checked_full_mul(self, rhs: Uint<u64>) -> (r: Result<Uint<u128>, MathError>)
        ensures
            r is Ok,
            r->Ok_0.0 == self.0 * rhs.0,
    {
        proof {
            assert(self.0 * rhs.0 <= u64::MAX * u64::MAX) by (nonlinear_arith)
                requires self.0 <= u64::MAX, rhs.0 <= u64::MAX, self.0 >= 0, rhs.0 >= 0;
        }
        Ok(Uint(self.0 as u128 * rhs.0 as u128))
    }

    /// `self * numerator / denominator`, rounded down.
    pub fn checked_multiply_ratio_floor(self, numerator: Uint<u64>, denominator: Uint<u64>) -> (r: Result<Uint<u64>, MathError>)
        ensures
            denominator.0 == 0 ==> r == Err::<Uint<u64>, MathError>(MathError::DivisionByZero),
            denominator.0 != 0 && mul_div_floor(self.0 as int, numerator.0 as int, denominator.0 as int) <= u64::MAX ==> r == Ok::<Uint<u64>, MathError>(
                Uint(mul_div_floor(self.0 as int, numerator.0 as int, denominator.0 as int) as u64),
            ),
            denominator.0 != 0 && mul_div_floor(self.0 as int, numerator.0 as int, denominator.0 as int) > u64::MAX ==> r == Err::<Uint<u64>, MathError>(
                MathError::OverflowConversion,
            ),
    {
        if denominator.0 == 0 {
            return Err(MathError::DivisionByZero);
        }
        let p = self.checked_full_mul(numerator).unwrap();
        let d = denominator.0 as u128;
        let q = p.0 / d;
        assert(q == mul_div_floor(self.0 as int, numerator.0 as int, denominator.0 as int));
        if q <= u64::MAX as u128 {
            Ok(Uint(q as u64))
        } else {
            Err(MathError::OverflowConversion)
        }
    }

    /// `self * numerator / denominator`, rounded up.
    pub fn checked_multiply_ratio_ceil(self, numerator: Uint<u64>, denominator: Uint<u64>) -> (r: Result<Uint<u64>, MathError>)
        ensures
            denominator.0 == 0 ==> r == Err::<Uint<u64>, MathError>(MathError::DivisionByZero),
            denominator.0 != 0 ==> {
                let c = mul_div_ceil(self.0 as int, numerator.0 as int, denominator.0 as int);
                &&& c <= u64::MAX ==> r == Ok::<Uint<u64>, MathError>(Uint(c as u64))
                &&& c > u64::MAX ==> r is Err
            },
    {
        if denominator.0 == 0 {
            return Err(MathError::DivisionByZero);
        }
        let floor = self.checked_multiply_ratio_floor(numerator, denominator);
        let p = self.checked_full_mul(numerator).unwrap();
        let d = denominator.0 as u128;
        assert(p.0 % d == (self.0 * numerator.0) % (denominator.0 as int));
        match floor {
            Err(e) => Err(e),
            Ok(f) => {
                if p.0 % d != 0 {
                    match f.0.checked_add(1) {
                        Some(v) => Ok(Uint(v)),
                        None => Err(MathError::Overflow),
                    }
                } else {
                    Ok(f)
                }
            },
        }
    }
}

/// `x * y` as `q * c + m` with `m < c`, for `x < c`, without any wider
/// integer: the product is built bit by bit of `y`, modulo `c`.
fn mul_div_rem(x: u128, y: u128, c: u128) -> (r: (u128, u128))
    requires
        x < c,
    ensures
        r.0 * c + r.1 == x * y,
        r.1 < c,
        y == 0 ==> r.0 == 0,
        y > 0 ==> r.0 < y,
    decreases y,
{
    if y == 0 {
        proof {
            assert(x * y == 0) by (nonlinear_arith) requires y == 0;
        }
        return (0, 0);
    }
    let h = y / 2;
    let (q, m) = mul_div_rem(x, h, c);
    proof {
        if h > 0 {
            assert(q < h);
        } else {
            assert(q == 0);
        }
    }
    // Doubling: 2 * (q * c + m) == (2q + carry) * c + m2.
    let (q2, m2) = if m >= c - m {
        (2 * q + 1, m - (c - m))
    } else {
        (2 * q, m + m)
    };
    proof {
        assert(q2 * c + m2 == 2 * (x * h)) by (nonlinear_arith)
            requires
                q * c + m == x * h,
                (m >= c - m && q2 == 2 * q + 1 && m2 == m - (c - m)) || (m < c - m && q2 == 2 * q && m2 == m + m);
        assert(y == 2 * h + y % 2);
        assert(x * y == 2 * (x * h) + x * (y % 2)) by (nonlinear_arith)
            requires y == 2 * h + y % 2;
    }
    if y % 2 == 1 {
        proof {
            assert(x * (y % 2) == x) by (nonlinear_arith) requires y % 2 == 1;
        }
        if m2 >= c - x {
            let r = (q2 + 1, m2 - (c - x));
            proof {
                assert(r.0 * c + r.1 == x * y) by (nonlinear_arith)
                    requires q2 * c + m2 == 2 * (x * h), x * y == 2 * (x * h) + x, r.0 == q2 + 1, r.1 == m2 - (c - x);
            }
            r
        } else {
            let r = (q2, m2 + x);
            proof {
                assert(r.0 * c + r.1 == x * y) by (nonlinear_arith)
                    requires q2 * c + m2 == 2 * (x * h), x * y == 2 * (x * h) + x, r.0 == q2, r.1 == m2 + x;
            }
            r
        }
    } else {
        proof {
            assert(x * (y % 2) == 0) by (nonlinear_arith) requires y % 2 == 0;
        }
        (q2, m2)
    }
}

/// `a * b` as `q * c + m` with `m < c`, where `q` is known only when it
/// fits in a `u128`.
fn wide_mul_div(a: u128, b: u128, c: u128) -> (r: Option<(u128, u128)>)
    requires
        c > 0,
    ensures
        r matches Some((q, m)) ==> q * c + m == a * b && m < c,
        r is None ==> (a * b) / (c as int) > u128::MAX,
        r is None ==> (a as int * b as int) / (c as int) > u128::MAX,
{
    let qa = a / c;
    let ra = a % c;
    let qb = b / c;
    let rb = b % c;
    let (q3, r3) = mul_div_rem(ra, rb, c);
    proof {
        vstd::arithmetic::div_mod::lemma_fundamental_div_mod(a as int, c as int);
        vstd::arithmetic::div_mod::lemma_fundamental_div_mod(b as int, c as int);
        assert(a == qa * c + ra) by (nonlinear_arith)
            requires a == c * qa + ra;
        assert(b == qb * c + rb) by (nonlinear_arith)
            requires b == c * qb + rb;
        assert(a * b == (qa * b + ra * qb + q3) * c + r3) by (nonlinear_arith)
            requires
                a == qa * c + ra,
                b == qb * c + rb,
                q3 * c + r3 == ra * rb;
        vstd::arithmetic::div_mod::lemma_fundamental_div_mod_converse(a * b, c as int, qa * b + ra * qb + q3, r3 as int);
        assert(qa * b >= 0 && ra * qb >= 0) by (nonlinear_arith)
            requires qa >= 0, b >= 0, ra >= 0, qb >= 0;
    }
    let t1 = match qa.checked_mul(b) {
        Some(v) => v,
        None => return None,
    };
    let t2 = match ra.checked_mul(qb) {
        Some(v) => v,
        None => return None,
    };
    let s = match t1.checked_add(t2) {
        Some(v) => v,
        None => return None,
    };
    match s.checked_add(q3) {
        Some(q) => Some((q, r3)),
        None => None,
    }
}

impl Uint<u128> {
    /// `self * numerator / denominator`, rounded down, computed exactly.
    pub fn checked_multiply_ratio_floor(self, numerator: Uint<u128>, denominator: Uint<u128>) -> (r: Result<Uint<u128>, MathError>)
        ensures
            denominator.0 == 0 ==> r == Err::<Uint<u128>, MathError>(MathError::DivisionByZero),
            denominator.0 != 0 && mul_div_floor(self.0 as int, numerator.0 as int, denominator.0 as int) <= u128::MAX
                ==> r == Ok::<Uint<u128>, MathError>(Uint(mul_div_floor(self.0 as int, numerator.0 as int, denominator.0 as int) as u128)),
            denominator.0 != 0 && mul_div_floor(self.0 as int, numerator.0 as int, denominator.0 as int) > u128::MAX
                ==> r == Err::<Uint<u128>, MathError>(MathError::OverflowConversion),
    {
        if denominator.0 == 0 {
            return Err(MathError::DivisionByZero);
        }
        match wide_mul_div(self.0, numerator.0, denominator.0) {
            Some((q, m)) => {
                proof {
                    vstd::arithmetic::div_mod::lemma_fundamental_div_mod_converse(
                        self.0 * numerator.0, denominator.0 as int, q as int, m as int);
                }
                Ok(Uint(q))
            },
            None => Err(MathError::OverflowConversion),
        }
    }

    /// `self * numerator / denominator`, rounded up, computed exactly.
    pub fn checked_multiply_ratio_ceil(self, numerator: Uint<u128>, denominator: Uint<u128>) -> (r: Result<Uint<u128>, MathError>)
        ensures
            denominator.0 == 0 ==> r == Err::<Uint<u128>, MathError>(MathError::DivisionByZero),
            denominator.0 != 0 && mul_div_floor(self.0 as int, numerator.0 as int, denominator.0 as int) > u128::MAX
                ==> r == Err::<Uint<u128>, MathError>(MathError::OverflowConversion),
            denominator.0 != 0 && mul_div_floor(self.0 as int, numerator.0 as int, denominator.0 as int) <= u128::MAX
                && mul_div_ceil(self.0 as int, numerator.0 as int, denominator.0 as int) > u128::MAX
                ==> r == Err::<Uint<u128>, MathError>(MathError::Overflow),
            denominator.0 != 0 && mul_div_ceil(self.0 as int, numerator.0 as int, denominator.0 as int) <= u128::MAX
                ==> r == Ok::<Uint<u128>, MathError>(Uint(mul_div_ceil(self.0 as int, numerator.0 as int, denominator.0 as int) as u128)),
    {
        if denominator.0 == 0 {
            return Err(MathError::DivisionByZero);
        }
        match wide_mul_div(self.0, numerator.0, denominator.0) {
            Some((q, m)) => {
                proof {
                    vstd::arithmetic::div_mod::lemma_fundamental_div_mod_converse(
                        self.0 * numerator.0, denominator.0 as int, q as int, m as int);
                }
                if m != 0 {
                    match q.checked_add(1) {
                        Some(v) => Ok(Uint(v)),
                        None => Err(MathError::Overflow),
                    }
                } else {
                    Ok(Uint(q))
                }
            },
            None => {
                proof {
                    assert(mul_div_ceil(self.0 as int, numerator.0 as int, denominator.0 as int)
                        >= mul_div_floor(self.0 as int, numerator.0 as int, denominator.0 as int));
                }
                Err(MathError::OverflowConversion)
            },
        }
    }
}

} // verus!
