//! Double-precision numbers by their bits: their order, and their decimal
//! notation. No arithmetic is done on them here.

use crate::numbers::{dec, decimal, digit_char};
use vstd::prelude::*;

verus! {

/// A double-precision number, as the bits of its IEEE 754 representation.
#[derive(Clone, Copy, Debug, PartialEq, Eq, Structural)]
pub struct Double {
    pub bits: u64,
}

/// The sign bit.
pub const SIGN: u64 = 0x8000000000000000;

/// The bits of positive infinity.
pub const INFINITY: u64 = 0x7FF0000000000000;

/// The lowest bit of the exponent.
pub const EXPONENT_ONE: u64 = 0x0010000000000000;

/// 0.
pub const ZERO: u64 = 0;

/// 0.005.
pub const TWO_HUNDREDTH: u64 = 0x3F747AE147AE147B;

/// 0.05.
pub const TWENTIETH: u64 = 0x3FA999999999999A;

/// 0.2.
pub const FIFTH: u64 = 0x3FC999999999999A;

/// 0.5.
pub const HALF: u64 = 0x3FE0000000000000;

/// 0.6.
pub const THREE_FIFTHS: u64 = 0x3FE3333333333333;

/// 1.
pub const ONE: u64 = 0x3FF0000000000000;

/// 20.
pub const TWENTY: u64 = 0x4034000000000000;

/// 60.
pub const SIXTY: u64 = 0x404E000000000000;

/// 105.
pub const HUNDRED_FIVE: u64 = 0x405A400000000000;

impl Double {
    /// Whether the sign bit is set.
    pub open spec fn negative(self) -> bool {
        self.bits >= SIGN
    }

    /// The bits without the sign.
    pub open spec fn magnitude(self) -> int {
        if self.negative() {
            self.bits - SIGN
        } else {
            self.bits as int
        }
    }

    /// Whether it is not a number.
    pub open spec fn nan(self) -> bool {
        self.magnitude() > INFINITY
    }

    /// Its place in the total order of all bit patterns, in which every negative
    /// one comes before every other.
    pub open spec fn place(self) -> int {
        if self.negative() {
            -self.magnitude() - 1
        } else {
            self.magnitude()
        }
    }

    /// Its place among the numbers, where the two zeros are one.
    pub open spec fn rank(self) -> int {
        if self.negative() {
            -self.magnitude()
        } else {
            self.magnitude()
        }
    }

    /// Whether it is less than another number.
    pub open spec fn less(self, other: Double) -> bool {
        !self.nan() && !other.nan() && self.rank() < other.rank()
    }

    /// Whether it is the same number as another.
    pub open spec fn same(self, other: Double) -> bool {
        !self.nan() && !other.nan() && self.rank() == other.rank()
    }

    /// Whether it is at least another number.
    pub open spec fn at_least(self, other: Double) -> bool {
        other.less(self) || other.same(self)
    }

    /// The bits without the sign.
    fn strip_sign(&self) -> (res: u64)
        ensures
            res == self.magnitude(),
    {
        if self.bits >= SIGN {
            self.bits - SIGN
        } else {
            self.bits
        }
    }

    /// Whether it is not a number.
    pub fn is_nan(&self) -> (res: bool)
        ensures
            res == self.nan(),
    {
        self.strip_sign() > INFINITY
    }

    /// Its place in the total order.
    pub fn order_key(&self) -> (res: i64)
        ensures
            res == self.place(),
    {
        if self.bits >= SIGN {
            -((self.bits - SIGN) as i64) - 1
        } else {
            self.bits as i64
        }
    }

    /// Whether it is less than another number.
    pub fn lt(&self, other: &Double) -> (res: bool)
        ensures
            res == self.less(*other),
    {
        if self.is_nan() || other.is_nan() {
            return false;
        }
        let a = self.strip_sign();
        let b = other.strip_sign();
        if self.bits >= SIGN {
            if other.bits >= SIGN {
                b < a
            } else {
                a > 0 || b > 0
            }
        } else {
            other.bits < SIGN && a < b
        }
    }

    /// Whether it is the same number as another.
    pub fn eq_num(&self, other: &Double) -> (res: bool)
        ensures
            res == self.same(*other),
    {
        !self.is_nan() && !other.is_nan() && (self.bits == other.bits || (self.strip_sign() == 0
            && other.strip_sign() == 0))
    }

    /// Whether it is at least another number.
    pub fn ge(&self, other: &Double) -> (res: bool)
        ensures
            res == self.at_least(*other),
    {
        other.lt(self) || other.eq_num(self)
    }

    /// Half of a number that is at least 0.05: the exponent goes down by one, and
    /// infinity stays.
    pub open spec fn halved(self) -> Double {
        if self.bits >= INFINITY {
            self
        } else {
            Double { bits: (self.bits - EXPONENT_ONE) as u64 }
        }
    }

    /// Half of a number that is at least 0.05.
    pub fn half(&self) -> (res: Double)
        requires
            self.at_least(Double { bits: TWENTIETH }),
        ensures
            res == self.halved(),
    {
        if self.bits >= INFINITY {
            *self
        } else {
            Double { bits: self.bits - EXPONENT_ONE }
        }
    }
}

/// The total order is one: two numbers with the same place are the same bits.
pub proof fn theorem_place_is_unique(a: Double, b: Double)
    requires
        a.place() == b.place(),
    ensures
        a == b,
{
}

/// Two to the power of `n`.
pub open spec fn two_to(n: nat) -> nat
    decreases n,
{
    if n == 0 {
        1
    } else {
        2 * two_to((n - 1) as nat)
    }
}

/// Ten to the power of `n`.
pub open spec fn ten_to(n: nat) -> nat
    decreases n,
{
    if n == 0 {
        1
    } else {
        10 * ten_to((n - 1) as nat)
    }
}

/// `a / b`, rounded to the nearest integer, halves to the even one.
pub open spec fn rounded_div(a: nat, b: nat) -> nat {
    let q = a / b;
    let r = a % b;
    if 2 * r > b || (2 * r == b && q % 2 == 1) {
        q + 1
    } else {
        q
    }
}

impl Double {
    /// The integer that is scaled by a power of two: the significand.
    pub open spec fn significand(self) -> nat {
        let m = self.magnitude();
        (if m < EXPONENT_ONE {
            m
        } else {
            m % (EXPONENT_ONE as int) + EXPONENT_ONE
        }) as nat
    }

    /// The power of two that the significand is scaled by.
    pub open spec fn exponent(self) -> int {
        let m = self.magnitude();
        if m < EXPONENT_ONE {
            -1074
        } else {
            m / (EXPONENT_ONE as int) - 1075
        }
    }

    /// The magnitude of a finite number times `10^digits`, rounded to an integer.
    pub open spec fn scaled(self, digits: nat) -> nat {
        if self.exponent() >= 0 {
            self.significand() * two_to(self.exponent() as nat) * ten_to(digits)
        } else {
            rounded_div(self.significand() * ten_to(digits), two_to((-self.exponent()) as nat))
        }
    }

    /// The number in decimal notation, with that many digits after the point.
    pub open spec fn fixed_text(self, digits: nat) -> Seq<char> {
        if self.nan() {
            "NaN"@
        } else {
            let sign = if self.negative() {
                "-"@
            } else {
                ""@
            };
            if self.magnitude() == INFINITY {
                sign + "inf"@
            } else {
                let n = self.scaled(digits);
                sign + decimal(n / ten_to(digits)) + (if digits == 0 {
                    ""@
                } else {
                    "."@ + padded(n % ten_to(digits), digits)
                })
            }
        }
    }
}

/// The last `digits` decimal digits of a number.
pub open spec fn padded(n: nat, digits: nat) -> Seq<char>
    decreases digits,
{
    if digits == 0 {
        Seq::empty()
    } else {
        padded(n / 10, (digits - 1) as nat).push(digit_char(n % 10))
    }
}

proof fn lemma_two_to_positive(n: nat)
    ensures
        two_to(n) >= 1,
    decreases n,
{
    if n > 0 {
        lemma_two_to_positive((n - 1) as nat);
    }
}

proof fn lemma_ten_to_positive(n: nat)
    ensures
        ten_to(n) >= 1,
    decreases n,
{
    if n > 0 {
        lemma_ten_to_positive((n - 1) as nat);
    }
}

/// Writes the last `digits` decimal digits of a number.
fn write_padded(n: u128, digits: u8) -> (res: String)
    ensures
        res@ == padded(n as nat, digits as nat),
    decreases digits,
{
    if digits == 0 {
        let none = String::new();
        assert(none@ =~= Seq::empty());
        none
    } else {
        let mut out = write_padded(n / 10, digits - 1);
        out.push((48 + (n % 10) as u8) as char);
        out
    }
}

/// Ten to the power of a number of at most four.
fn small_power(digits: u8) -> (res: u128)
    requires
        digits <= 4,
    ensures
        res == ten_to(digits as nat),
        1 <= res <= 10000,
{
    proof {
        reveal_with_fuel(ten_to, 6);
    }
    if digits == 0 {
        1
    } else if digits == 1 {
        10
    } else if digits == 2 {
        100
    } else if digits == 3 {
        1000
    } else {
        10000
    }
}

/// `a / 2^k`, rounded to the nearest integer, halves to the even one.
fn divide_rounded(a: u128, k: u32) -> (res: u128)
    requires
        k >= 1,
        a < u128::MAX / 2,
    ensures
        res == rounded_div(a as nat, two_to(k as nat)),
{
    let mut q: u128 = a / 2;
    let mut bit = a % 2 == 1;
    let mut low = false;
    let mut i: u32 = 1;
    let ghost mut rest: nat = 0;
    proof {
        reveal_with_fuel(two_to, 2);
        let two = two_to(1);
        assert(two == 2 && two_to(0) == 1);
        assert(q * two == 2 * q) by (nonlinear_arith)
            requires
                two == 2,
        ;
    }
    while i < k
        invariant
            1 <= i <= k,
            a as nat == q * two_to(i as nat) + (if bit {
                two_to((i - 1) as nat)
            } else {
                0
            }) + rest,
            rest < two_to((i - 1) as nat),
            low == (rest > 0),
            q < u128::MAX / 2,
        decreases k - i,
    {
        let ghost q0 = q as nat;
        let ghost bit0 = bit;
        let ghost p = two_to(i as nat);
        let ghost h = two_to((i - 1) as nat);
        proof {
            assert(two_to((i + 1) as nat) == 2 * p);
            assert(p == 2 * h);
            assert(q0 * p == (q0 / 2) * (2 * p) + (q0 % 2) * p) by (nonlinear_arith)
                requires
                    q0 == 2 * (q0 / 2) + q0 % 2,
            ;
            rest = rest + (if bit0 {
                h
            } else {
                0
            });
        }
        low = low || bit;
        bit = q % 2 == 1;
        q = q / 2;
        i += 1;
        proof {
            assert(((q0 % 2) as nat) * p == (if bit {
                p
            } else {
                0
            })) by (nonlinear_arith)
                requires
                    bit == (q0 % 2 == 1),
            ;
            lemma_two_to_positive((i - 2) as nat);
        }
    }
    proof {
        let p = two_to(k as nat);
        let h = two_to((k - 1) as nat);
        let r = (if bit {
            h
        } else {
            0
        }) + rest;
        assert(p == 2 * h);
        lemma_two_to_positive((k - 1) as nat);
        assert(a as nat == q * p + r && r < p);
        assert(a as nat / p == q && a as nat % p == r) by (nonlinear_arith)
            requires
                a as nat == q * p + r,
                0 <= r < p,
                q >= 0,
        ;
    }
    if bit && (low || q % 2 == 1) {
        q + 1
    } else {
        q
    }
}

/// The number that decimal digits stand for, the lowest first.
spec fn digits_number(d: Seq<u8>) -> nat
    decreases d.len(),
{
    if d.len() == 0 {
        0
    } else {
        d[0] as nat + 10 * digits_number(d.skip(1))
    }
}

spec fn are_digits(d: Seq<u8>) -> bool {
    forall|i: int| 0 <= i < d.len() ==> #[trigger] d[i] < 10
}

proof fn lemma_digits_push(d: Seq<u8>, x: u8)
    ensures
        digits_number(d.push(x)) == digits_number(d) + x * ten_to(d.len()),
    decreases d.len(),
{
    let e = d.push(x);
    if d.len() == 0 {
        assert(e.skip(1) =~= Seq::empty());
        reveal_with_fuel(digits_number, 2);
        assert(ten_to(0) == 1);
        assert(x * 1 == x) by (nonlinear_arith);
    } else {
        assert(e.skip(1) =~= d.skip(1).push(x));
        lemma_digits_push(d.skip(1), x);
        let t = ten_to((d.len() - 1) as nat);
        assert(ten_to(d.len()) == 10 * t);
        assert(10 * (x * t) == x * (10 * t)) by (nonlinear_arith);
    }
}

/// Doubles a number given by its digits.
fn double_digits(d: &Vec<u8>) -> (res: Vec<u8>)
    requires
        are_digits(d@),
        d.len() > 0,
        d@.last() > 0,
        d.len() < 10000,
    ensures
        are_digits(res@),
        digits_number(res@) == 2 * digits_number(d@),
        res.len() > 0,
        res@.last() > 0,
        res.len() <= d.len() + 1,
{
    let mut out: Vec<u8> = Vec::new();
    let mut carry: u8 = 0;
    let mut i: usize = 0;
    proof {
        assert(d@.take(0) =~= Seq::empty());
    }
    while i < d.len()
        invariant
            i <= d.len(),
            out.len() == i,
            are_digits(d@),
            are_digits(out@),
            carry <= 1,
            digits_number(out@) + carry * ten_to(i as nat) == 2 * digits_number(d@.take(i as int)),
            i > 0 && carry == 0 ==> (d@[i - 1] > 0 ==> out@[i - 1] > 0),
        decreases d.len() - i,
    {
        let x = 2 * d[i] + carry;
        let ghost before = out@;
        let ghost carry0 = carry;
        out.push(x % 10);
        carry = x / 10;
        proof {
            let t = ten_to(i as nat);
            lemma_digits_push(before, x % 10);
            assert(d@.take(i + 1) =~= d@.take(i as int).push(d@[i as int]));
            lemma_digits_push(d@.take(i as int), d@[i as int]);
            assert(ten_to((i + 1) as nat) == 10 * t);
            let lo = (x % 10) as int;
            let hi = (x / 10) as int;
            let c0 = carry0 as int;
            let di = d@[i as int] as int;
            assert(lo * t + hi * (10 * t) == (2 * di + c0) * t) by (nonlinear_arith)
                requires
                    lo + 10 * hi == 2 * di + c0,
            ;
            assert((2 * di + c0) * t == 2 * (di * t) + c0 * t) by (nonlinear_arith);
        }
        i += 1;
    }
    proof {
        assert(d@.take(d.len() as int) =~= d@);
    }
    if carry > 0 {
        let ghost before = out@;
        out.push(carry);
        proof {
            lemma_digits_push(before, carry);
        }
    }
    out
}

/// Digits without a leading zero are the decimal notation.
proof fn lemma_digits_decimal(d: Seq<u8>)
    requires
        are_digits(d),
        d.len() > 0,
        d.last() > 0,
    ensures
        decimal(digits_number(d)) == Seq::new(
            d.len(),
            |i: int| digit_char(d[d.len() - 1 - i] as nat),
        ),
        digits_number(d) > 0,
    decreases d.len(),
{
    let text = Seq::new(d.len(), |i: int| digit_char(d[d.len() - 1 - i] as nat));
    if d.len() == 1 {
        reveal_with_fuel(digits_number, 2);
        assert(d.skip(1).len() == 0);
        assert(digits_number(d) == d[0]);
        assert(decimal(digits_number(d)) =~= text);
    } else {
        let rest = d.skip(1);
        assert(rest.last() == d.last());
        assert(are_digits(rest)) by {
            assert forall|i: int| 0 <= i < rest.len() implies #[trigger] rest[i] < 10 by {
                assert(rest[i] == d[i + 1]);
            }
        }
        lemma_digits_decimal(rest);
        let n = digits_number(d);
        assert(n == d[0] + 10 * digits_number(rest));
        assert(d[0] < 10);
        assert(n / 10 == digits_number(rest));
        assert(n % 10 == d[0]);
        assert(decimal(n) =~= text);
    }
}

/// Writes `m * 2^e`.
fn write_big(m: u64, e: u32) -> (res: String)
    requires
        m > 0,
        e <= 1100,
    ensures
        res@ == decimal((m * two_to(e as nat)) as nat),
{
    let mut d: Vec<u8> = Vec::new();
    let mut n: u64 = m;
    proof {
        reveal_with_fuel(ten_to, 21);
        assert(n * 1 == n);
    }
    while n > 0
        invariant
            are_digits(d@),
            m == n * ten_to(d.len() as nat) + digits_number(d@),
            d.len() <= 20,
            n > 0 ==> d.len() < 20 && n < ten_to((20 - d.len()) as nat),
            d.len() > 0 && n == 0 ==> d@.last() > 0,
            d.len() == 0 ==> n == m,
            m > 0,
        decreases n,
    {
        let x = (n % 10) as u8;
        let ghost before = d@;
        let ghost n0 = n;
        d.push(x);
        n = n / 10;
        proof {
            let t = ten_to(before.len());
            lemma_digits_push(before, x);
            assert(ten_to(d@.len()) == 10 * t);
            let q = n as int;
            let r = x as int;
            assert(n0 as int == 10 * q + r);
            assert((10 * q + r) * t == q * (10 * t) + r * t) by (nonlinear_arith);
            if n > 0 {
                assert(ten_to((20 - before.len()) as nat) == 10 * ten_to(
                    (20 - d.len()) as nat,
                ));
                if d.len() == 20 {
                    assert(ten_to(0) == 1);
                }
            }
        }
    }
    proof {
        assert(0 * ten_to(d@.len()) == 0);
        reveal_with_fuel(two_to, 1);
    }
    let mut i: u32 = 0;
    while i < e
        invariant
            i <= e <= 1100,
            are_digits(d@),
            0 < d.len() <= 20 + i,
            d@.last() > 0,
            digits_number(d@) == m * two_to(i as nat),
        decreases e - i,
    {
        d = double_digits(&d);
        proof {
            let t = two_to(i as nat) as int;
            let mm = m as int;
            assert(2 * (mm * t) == mm * (2 * t)) by (nonlinear_arith);
        }
        i += 1;
    }
    let mut out = String::new();
    let mut k: usize = d.len();
    let ghost text = Seq::new(d@.len(), |j: int| digit_char(d@[d@.len() - 1 - j] as nat));
    while k > 0
        invariant
            k <= d.len(),
            are_digits(d@),
            text == Seq::new(d@.len(), |j: int| digit_char(d@[d@.len() - 1 - j] as nat)),
            out@ == text.take(d.len() - k),
        decreases k,
    {
        let ghost before = out@;
        assert(d@[k - 1] < 10);
        out.push((48 + d[k - 1]) as char);
        k -= 1;
        assert(out@ =~= text.take(d.len() - k));
    }
    proof {
        assert(text.take(d.len() as int) =~= text);
        lemma_digits_decimal(d@);
    }
    out
}

impl Double {
    /// Writes the number with up to four digits after the point, rounded to the
    /// nearest, halves to even.
    pub fn fixed(&self, digits: u8) -> (res: String)
        requires
            digits <= 4,
        ensures
            res@ == self.fixed_text(digits as nat),
    {
        if self.is_nan() {
            return String::from_str("NaN");
        }
        let mut out = if self.bits >= SIGN {
            String::from_str("-")
        } else {
            String::from_str("")
        };
        let ghost sign = out@;
        let mag = self.strip_sign();
        if mag == INFINITY {
            out.append("inf");
            return out;
        }
        let m: u64 = if mag < EXPONENT_ONE { mag } else { mag % EXPONENT_ONE + EXPONENT_ONE };
        assert(m == self.significand());
        let power = small_power(digits);
        let ghost ten = ten_to(digits as nat);
        if mag >= EXPONENT_ONE && mag / EXPONENT_ONE >= 1075 {
            let e: u32 = (mag / EXPONENT_ONE - 1075) as u32;
            proof {
                assert(mag / EXPONENT_ONE <= 2047);
                let v = (m * two_to(e as nat)) as nat;
                assert(self.scaled(digits as nat) == v * ten);
                assert((v * ten) / ten == v && (v * ten) % ten == 0) by (nonlinear_arith)
                    requires
                        ten >= 1,
                        v >= 0,
                ;
            }
            out.append(write_big(m, e).as_str());
            if digits > 0 {
                out.append(".");
                out.append(write_padded(0, digits).as_str());
                assert(out@ =~= sign + decimal((m * two_to(e as nat)) as nat) + ("."@ + padded(
                    0,
                    digits as nat,
                )));
            } else {
                proof {
                    reveal_strlit("");
                }
                assert(out@ =~= sign + decimal((m * two_to(e as nat)) as nat) + ""@);
            }
            return out;
        }
        let k: u32 = if mag < EXPONENT_ONE { 1074 } else { (1075 - mag / EXPONENT_ONE) as u32 };
        assert(k == -self.exponent());
        assert(m < 0x20000000000000);
        assert((m as u128) * power <= 0x20000000000000 * 10000) by (nonlinear_arith)
            requires
                m < 0x20000000000000,
                power <= 10000,
        ;
        let n = divide_rounded((m as u128) * power, k);
        proof {
            assert(n == self.scaled(digits as nat));
            lemma_rounded_small(((m as u128) * power) as nat, k);
            assert(n / power <= n) by (nonlinear_arith)
                requires
                    power >= 1,
                    n >= 0,
            ;
        }
        out.append(dec128(n / power).as_str());
        if digits > 0 {
            out.append(".");
            out.append(write_padded(n % power, digits).as_str());
            assert(out@ =~= sign + decimal((n / power) as nat) + ("."@ + padded(
                (n % power) as nat,
                digits as nat,
            )));
        } else {
            proof {
                reveal_strlit("");
            }
            assert(out@ =~= sign + decimal((n / power) as nat) + ""@);
        }
        out
    }
}

/// Rounding a division does not make a number larger than it was, plus one.
proof fn lemma_rounded_small(a: nat, k: u32)
    ensures
        rounded_div(a, two_to(k as nat)) <= a + 1,
{
    let b = two_to(k as nat);
    lemma_two_to_positive(k as nat);
    assert(a / b <= a) by (nonlinear_arith)
        requires
            b >= 1,
    ;
}

/// Writes a number in decimal notation.
fn dec128(n: u128) -> (res: String)
    ensures
        res@ == decimal(n as nat),
    decreases n,
{
    if n < 10 {
        dec(n as u64)
    } else {
        let mut out = dec128(n / 10);
        out.push((48 + (n % 10) as u8) as char);
        out
    }
}

/// How many binary digits a number has.
pub open spec fn bit_len(n: nat) -> nat
    decreases n,
{
    if n == 0 {
        0
    } else {
        1 + bit_len(n / 2)
    }
}

/// The significand that is nearest to a number, with its highest bit set, halves
/// to even.
pub open spec fn nearest_significand(n: nat) -> nat {
    if bit_len(n) <= 53 {
        n * two_to((53 - bit_len(n)) as nat)
    } else {
        rounded_div(n, two_to((bit_len(n) - 53) as nat))
    }
}

/// The double that is nearest to a number.
pub open spec fn of_count(n: nat) -> Double {
    if n == 0 {
        Double { bits: ZERO }
    } else {
        Double {
            bits: ((bit_len(n) + 1021) * EXPONENT_ONE + nearest_significand(n)) as u64,
        }
    }
}

proof fn lemma_bit_len(n: nat)
    ensures
        n < two_to(bit_len(n)),
        n > 0 ==> two_to((bit_len(n) - 1) as nat) <= n,
    decreases n,
{
    if n > 0 {
        lemma_bit_len(n / 2);
        if n == 1 {
            assert(bit_len(0) == 0);
            assert(two_to(0) == 1);
            reveal_with_fuel(two_to, 2);
        }
    }
}

proof fn lemma_two_to_grows(a: nat, b: nat)
    requires
        a <= b,
    ensures
        two_to(a) <= two_to(b),
    decreases b - a,
{
    if a < b {
        lemma_two_to_grows(a, (b - 1) as nat);
        lemma_two_to_positive((b - 1) as nat);
    }
}

proof fn lemma_two_to_64()
    ensures
        two_to(64) == 0x10000000000000000,
        two_to(52) == EXPONENT_ONE,
        two_to(53) == 2 * EXPONENT_ONE,
{
    reveal_with_fuel(two_to, 33);
    assert(two_to(32) == 0x100000000);
    assert(two_to(52) == EXPONENT_ONE);
    assert(two_to(53) == 2 * EXPONENT_ONE);
    assert(two_to(64) == 0x10000000000000000);
}

impl Double {
    /// The double that is nearest to a number.
    pub fn from_count(n: u64) -> (res: Double)
        ensures
            res == of_count(n as nat),
    {
        if n == 0 {
            return Double { bits: ZERO };
        }
        let mut len: u32 = 0;
        let mut rest: u64 = n;
        proof {
            lemma_two_to_64();
            lemma_bit_len(n as nat);
            if bit_len(n as nat) > 64 {
                lemma_two_to_grows(64, (bit_len(n as nat) - 1) as nat);
            }
        }
        while rest > 0
            invariant
                len + bit_len(rest as nat) == bit_len(n as nat),
                bit_len(n as nat) <= 64,
            decreases rest,
        {
            rest = rest / 2;
            len += 1;
        }
        let m: u64 = if len <= 53 {
            let mut m: u64 = n;
            let mut i: u32 = len;
            proof {
                assert(n * 1 == n) by (nonlinear_arith);
                assert(two_to(0) == 1);
            }
            while i < 53
                invariant
                    1 <= len <= i <= 53,
                    len == bit_len(n as nat),
                    m == n * two_to((i - len) as nat),
                    m < two_to(i as nat),
                    two_to(53) == 2 * EXPONENT_ONE,
                decreases 53 - i,
            {
                proof {
                    let t = two_to((i - len) as nat);
                    let k = n as nat;
                    assert(2 * (k * t) == k * (2 * t)) by (nonlinear_arith);
                    assert(two_to((i + 1 - len) as nat) == 2 * t);
                    lemma_two_to_grows((i + 1) as nat, 53);
                    assert(two_to((i + 1) as nat) == 2 * two_to(i as nat));
                }
                m = m * 2;
                i += 1;
            }
            m
        } else {
            let q = divide_rounded(n as u128, len - 53);
            proof {
                lemma_two_to_positive((len - 53) as nat);
                lemma_rounded_top(n as nat, len as nat);
            }
            q as u64
        };
        proof {
            assert(m == nearest_significand(n as nat));
            assert(m <= 2 * EXPONENT_ONE);
        }
        Double { bits: (len as u64 + 1021) * EXPONENT_ONE + m }
    }
}

/// A number cut to its highest bits, rounded, has one bit more at most.
proof fn lemma_rounded_top(n: nat, len: nat)
    requires
        53 < len <= 64,
        n < two_to(len),
    ensures
        rounded_div(n, two_to((len - 53) as nat)) <= 2 * EXPONENT_ONE,
{
    lemma_two_to_64();
    let b = two_to((len - 53) as nat);
    lemma_two_to_positive((len - 53) as nat);
    lemma_two_to_sum((len - 53) as nat, 53);
    let top = two_to(53);
    assert(n / b < top) by (nonlinear_arith)
        requires
            n < b * top,
            b >= 1,
    ;
}

proof fn lemma_two_to_sum(a: nat, b: nat)
    ensures
        two_to(a + b) == two_to(a) * two_to(b),
    decreases a,
{
    if a > 0 {
        lemma_two_to_sum((a - 1) as nat, b);
        let x = two_to((a - 1) as nat);
        let y = two_to(b);
        assert(2 * (x * y) == (2 * x) * y) by (nonlinear_arith);
    } else {
        assert(two_to(0) == 1);
        assert(1 * two_to(b) == two_to(b)) by (nonlinear_arith);
    }
}

/// A count below 2^53 is the double it becomes: its significand times its power
/// of two is the count.
pub proof fn theorem_small_count_is_exact(n: nat)
    requires
        0 < n < 0x20000000000000,
    ensures
        of_count(n).significand() == n * two_to((-of_count(n).exponent()) as nat),
        !of_count(n).negative(),
        !of_count(n).nan(),
{
    lemma_bit_len(n);
    lemma_two_to_64();
    let len = bit_len(n);
    if len > 53 {
        lemma_two_to_grows(53, (len - 1) as nat);
    }
    let k = (53 - len) as nat;
    let m = nearest_significand(n);
    lemma_two_to_sum(k, len);
    lemma_two_to_sum(k, (len - 1) as nat);
    let t = two_to(k);
    lemma_two_to_positive(k);
    let hi = two_to(len);
    let lo = two_to((len - 1) as nat);
    assert(n * t < t * hi) by (nonlinear_arith)
        requires
            n < hi,
            t >= 1,
    ;
    assert(t * lo <= n * t) by (nonlinear_arith)
        requires
            lo <= n,
            t >= 1,
    ;
    assert(EXPONENT_ONE <= m < 2 * EXPONENT_ONE);
    let bits = (len + 1021) * EXPONENT_ONE + m;
    assert(bits / (EXPONENT_ONE as int) == len + 1022);
    assert(bits % (EXPONENT_ONE as int) == m - EXPONENT_ONE);
}

/// What is not a number lies beyond the infinities, on both sides of zero.
pub proof fn theorem_what_is_no_number(d: Double)
    ensures
        d.nan() <==> 0x7FF0000000000000 < d.bits < 0x8000000000000000 || d.bits
            > 0xFFF0000000000000,
{
}

/// Numbers from zero up compare as their bits do, negative ones the other way round, and
/// a negative one is less than the others, but for the two zeros.
pub proof fn theorem_numbers_compare_by_their_bits(a: Double, b: Double)
    requires
        !a.nan(),
        !b.nan(),
    ensures
        a.bits < 0x8000000000000000 && b.bits < 0x8000000000000000 ==> (a.less(b) <==> a.bits
            < b.bits) && (a.same(b) <==> a.bits == b.bits),
        a.bits >= 0x8000000000000000 && b.bits >= 0x8000000000000000 ==> (a.less(b) <==> a.bits
            > b.bits) && (a.same(b) <==> a.bits == b.bits),
        a.bits >= 0x8000000000000000 && b.bits < 0x8000000000000000 ==> !b.less(a) && (a.less(b)
            <==> !a.same(b)) && (a.same(b) <==> a.bits == 0x8000000000000000 && b.bits == 0),
        a.at_least(b) <==> !a.less(b),
{
}

/// What is not a number is neither less than anything, nor the same, nor at least it.
pub proof fn theorem_no_number_compares_with_nothing(a: Double, b: Double)
    requires
        a.nan() || b.nan(),
    ensures
        !a.less(b),
        !a.same(b),
        !a.at_least(b),
{
}

/// The total order is that of the numbers, with the two zeros told apart.
pub proof fn theorem_total_order_refines_the_numbers(a: Double, b: Double)
    requires
        !a.nan(),
        !b.nan(),
    ensures
        a.less(b) ==> a.place() < b.place(),
        a.place() < b.place() ==> a.less(b) || (a.bits == 0x8000000000000000 && b.bits == 0),
{
}

/// Rounding goes to the nearest integer, and to the even one where two are as near.
pub proof fn theorem_rounding_goes_to_the_nearest(a: nat, b: nat)
    requires
        b > 0,
    ensures
        2 * (rounded_div(a, b) * b - a) <= b,
        2 * (a - rounded_div(a, b) * b) <= b,
        2 * (rounded_div(a, b) * b - a) == b || 2 * (a - rounded_div(a, b) * b) == b
            ==> rounded_div(a, b) % 2 == 0,
{
    let q = a / b;
    let r = a % b;
    assert(a == q * b + r && 0 <= r < b) by (nonlinear_arith)
        requires
            b > 0,
            q == a / b,
            r == a % b,
    ;
    assert((q + 1) * b == q * b + b) by (nonlinear_arith);
}

/// A number is a significand of fifty-three bits, scaled by the power of two that its
/// exponent gives; the smallest numbers have fewer bits and one exponent.
pub proof fn theorem_significand_and_exponent(d: Double)
    requires
        d.bits < 0x7FF0000000000000,
    ensures
        d.bits >= 0x10000000000000 ==> 0x10000000000000 <= d.significand() < 0x20000000000000
            && d.bits == (d.exponent() + 1074) * 0x10000000000000 + d.significand(),
        d.bits < 0x10000000000000 ==> d.significand() == d.bits && d.exponent() == -1074,
{
}

proof fn lemma_padded_len(n: nat, digits: nat)
    ensures
        padded(n, digits).len() == digits,
    decreases digits,
{
    if digits > 0 {
        lemma_padded_len(n / 10, (digits - 1) as nat);
    }
}

/// A number is shown rounded, with just as many digits after the point as asked for and no
/// point where none are; a negative one has its sign, and what is not finite a name.
pub proof fn theorem_numbers_as_shown(d: Double, digits: nat)
    ensures
        d.nan() ==> d.fixed_text(digits) == "NaN"@,
        d.bits == 0x7FF0000000000000 ==> d.fixed_text(digits) == "inf"@,
        d.bits == 0xFFF0000000000000 ==> d.fixed_text(digits) == "-"@ + "inf"@,
        d.bits < 0x7FF0000000000000 ==> d.fixed_text(0) == decimal(d.scaled(0)),
        0x8000000000000000 <= d.bits < 0xFFF0000000000000 ==> d.fixed_text(0) == "-"@ + decimal(
            d.scaled(0),
        ),
        d.bits < 0x7FF0000000000000 && digits > 0 ==> exists|tail: Seq<char>|
            #![trigger tail.len()]
            tail.len() == digits && d.fixed_text(digits) == decimal(
                d.scaled(digits) / ten_to(digits),
            ) + "."@ + tail,
{
    reveal_strlit("");
    reveal_strlit(".");
    lemma_ten_to_positive(digits);
    let n = d.scaled(digits);
    let tail = padded(n % ten_to(digits), digits);
    lemma_padded_len(n % ten_to(digits), digits);
    assert(ten_to(0) == 1);
    let whole = d.scaled(0);
    assert(whole / 1 == whole);
    assert(""@ + "inf"@ =~= "inf"@);
    assert(""@ + decimal(d.scaled(0)) + ""@ =~= decimal(d.scaled(0)));
    assert("-"@ + decimal(d.scaled(0)) + ""@ =~= "-"@ + decimal(d.scaled(0)));
    assert(tail.len() == digits);
    assert(""@ + decimal(n / ten_to(digits)) + ("."@ + tail) =~= decimal(n / ten_to(digits)) + "."@
        + tail);
}

} // verus!
