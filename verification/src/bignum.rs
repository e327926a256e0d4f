//! Arbitrary-precision integers.
//!
//! `BigNum` holds its value as two's-complement little-endian bytes, the
//! exchange format of `num_bigint::BigInt`.  Every arithmetic operation is
//! carried out by `num_bigint`; the trusted items below state what each of
//! those calls computes, in terms of the mathematical integer `x@`.
use vstd::arithmetic::power::pow;
use vstd::prelude::*;

verus! {

/// Unsigned value of little-endian base-256 digits.
pub open spec fn le_unsigned(s: Seq<u8>) -> nat
    decreases s.len(),
{
    if s.len() == 0 {
        0
    } else {
        s[0] as nat + 256 * le_unsigned(s.drop_first())
    }
}

/// Value of a little-endian two's-complement byte string (the empty string is 0).
pub open spec fn twos_complement_value(s: Seq<u8>) -> int {
    if s.len() == 0 {
        0
    } else if s.last() < 128 {
        le_unsigned(s) as int
    } else {
        le_unsigned(s) - pow(256, s.len())
    }
}

/// Absolute value.
pub open spec fn abs(x: int) -> nat {
    if x < 0 {
        (-x) as nat
    } else {
        x as nat
    }
}

/// Quotient rounded toward zero, as Rust's `/` computes it.
pub open spec fn trunc_div(a: int, b: int) -> int {
    let q = (abs(a) / abs(b)) as int;
    if (a < 0) != (b < 0) {
        -q
    } else {
        q
    }
}

/// Remainder that goes with `trunc_div`: it has the sign of the dividend.
pub open spec fn trunc_rem(a: int, b: int) -> int {
    a - b * trunc_div(a, b)
}

/// Decimal digits of a natural number, most significant first ("0" for zero).
pub open spec fn decimal_digits(n: nat) -> Seq<char>
    decreases n,
{
    if n < 10 {
        seq![digit_char(n)]
    } else {
        decimal_digits(n / 10).push(digit_char(n % 10))
    }
}

pub open spec fn digit_char(d: nat) -> char {
    if d == 0 {
        '0'
    } else if d == 1 {
        '1'
    } else if d == 2 {
        '2'
    } else if d == 3 {
        '3'
    } else if d == 4 {
        '4'
    } else if d == 5 {
        '5'
    } else if d == 6 {
        '6'
    } else if d == 7 {
        '7'
    } else if d == 8 {
        '8'
    } else {
        '9'
    }
}

/// Decimal text of an integer: a leading `-` for negative values.
pub open spec fn decimal_text(x: int) -> Seq<char> {
    if x < 0 {
        seq!['-'] + decimal_digits(abs(x))
    } else {
        decimal_digits(abs(x))
    }
}

/// A decimal digit `0`–`9`.
pub open spec fn is_digit_char(c: char) -> bool {
    c == '0' || c == '1' || c == '2' || c == '3' || c == '4' || c == '5' || c == '6' || c == '7'
        || c == '8' || c == '9'
}

/// The decimal digits of `n` are digits: at least one, and at least two from 10 on.
pub proof fn lemma_decimal_digits_shape(n: nat)
    ensures
        decimal_digits(n).len() >= 1,
        n >= 10 ==> decimal_digits(n).len() >= 2,
        forall|i: int| 0 <= i < decimal_digits(n).len() ==> is_digit_char(#[trigger] decimal_digits(n)[i]),
    decreases n,
{
    if n >= 10 {
        lemma_decimal_digits_shape(n / 10);
        let p = decimal_digits(n / 10);
        assert(decimal_digits(n) == p.push(digit_char(n % 10)));
        assert forall|i: int| 0 <= i < decimal_digits(n).len() implies is_digit_char(#[trigger] decimal_digits(n)[i]) by {
            if i < p.len() {
                assert(decimal_digits(n)[i] == p[i]);
            }
        }
    }
}

/// Different natural numbers have different decimal digits.
pub proof fn lemma_decimal_digits_injective(n: nat, m: nat)
    requires
        decimal_digits(n) == decimal_digits(m),
    ensures
        n == m,
    decreases n,
{
    lemma_decimal_digits_shape(n);
    lemma_decimal_digits_shape(m);
    if n < 10 && m < 10 {
        assert(decimal_digits(n)[0] == digit_char(n));
        assert(decimal_digits(m)[0] == digit_char(m));
    } else if n >= 10 && m >= 10 {
        let s = decimal_digits(n);
        assert(s == decimal_digits(n / 10).push(digit_char(n % 10)));
        assert(s == decimal_digits(m / 10).push(digit_char(m % 10)));
        assert(s.drop_last() =~= decimal_digits(n / 10));
        assert(s.drop_last() =~= decimal_digits(m / 10));
        assert(s.last() == digit_char(n % 10));
        assert(s.last() == digit_char(m % 10));
        lemma_decimal_digits_injective(n / 10, m / 10);
        assert(n % 10 == m % 10);
    } else {
        assert(decimal_digits(n).len() != decimal_digits(m).len());
    }
}

/// The decimal text of an integer is made of digits and a leading `-` at most.
pub proof fn lemma_decimal_text_chars(x: int)
    ensures
        forall|i: int| 0 <= i < decimal_text(x).len() ==> is_digit_char(#[trigger] decimal_text(x)[i])
            || decimal_text(x)[i] == '-',
{
    lemma_decimal_digits_shape(abs(x));
    let d = decimal_digits(abs(x));
    if x < 0 {
        assert forall|i: int| 0 <= i < decimal_text(x).len() implies is_digit_char(#[trigger] decimal_text(x)[i])
            || decimal_text(x)[i] == '-' by {
            if i > 0 {
                assert(decimal_text(x)[i] == d[i - 1]);
            }
        }
    }
}

/// Different integers have different decimal texts; in particular `x` and
/// `−x` differ for `x ≠ 0`, by the sign.
pub proof fn lemma_decimal_text_injective(x: int, y: int)
    requires
        decimal_text(x) == decimal_text(y),
    ensures
        x == y,
{
    lemma_decimal_digits_shape(abs(x));
    lemma_decimal_digits_shape(abs(y));
    let dx = decimal_digits(abs(x));
    let dy = decimal_digits(abs(y));
    if x < 0 && y < 0 {
        assert(dx =~= decimal_text(x).subrange(1, decimal_text(x).len() as int));
        assert(dy =~= decimal_text(y).subrange(1, decimal_text(y).len() as int));
        lemma_decimal_digits_injective(abs(x), abs(y));
    } else if x >= 0 && y >= 0 {
        lemma_decimal_digits_injective(abs(x), abs(y));
    } else if x < 0 {
        assert(decimal_text(x)[0] == '-');
        assert(is_digit_char(dy[0]));
    } else {
        assert(decimal_text(y)[0] == '-');
        assert(is_digit_char(dx[0]));
    }
}

/// An integer of any size.
#[derive(Debug, Clone)]
pub struct BigNum {
    bytes: Vec<u8>,
}

impl View for BigNum {
    type V = int;

    closed spec fn view(&self) -> int {
        twos_complement_value(self.bytes@)
    }
}

impl BigNum {
    /// The number whose two's-complement little-endian bytes are `bytes`.
    pub fn from_signed_bytes_le(bytes: Vec<u8>) -> (r: BigNum)
        ensures
            r@ == twos_complement_value(bytes@),
    {
        BigNum { bytes }
    }

    /// The two's-complement little-endian bytes that hold this number.
    pub fn signed_bytes_le(&self) -> (r: &Vec<u8>)
        ensures
            twos_complement_value(r@) == self@,
    {
        &self.bytes
    }

    /// A second value equal to this one.
    pub fn duplicate(&self) -> (r: BigNum)
        ensures
            r@ == self@,
    {
        let bytes = self.bytes.clone();
        assert(bytes@ =~= self.bytes@);
        BigNum { bytes }
    }

    /// `num_bigint::BigInt::from(i64)`, whose value is `x`.
    #[verifier::external_body]
    pub(crate) fn from_i64(x: i64) -> (r: BigNum)
        ensures
            r@ == x as int,
    {
        BigNum { bytes: num_bigint::BigInt::from(x).to_signed_bytes_le() }
    }

    /// `&BigInt + &BigInt`: the exact sum.
    #[verifier::external_body]
    pub(crate) fn add(&self, other: &BigNum) -> (r: BigNum)
        ensures
            r@ == self@ + other@,
    {
        let x = num_bigint::BigInt::from_signed_bytes_le(&self.bytes);
        let y = num_bigint::BigInt::from_signed_bytes_le(&other.bytes);
        BigNum { bytes: (&x + &y).to_signed_bytes_le() }
    }

    /// `&BigInt - &BigInt`: the exact difference.
    #[verifier::external_body]
    pub(crate) fn sub(&self, other: &BigNum) -> (r: BigNum)
        ensures
            r@ == self@ - other@,
    {
        let x = num_bigint::BigInt::from_signed_bytes_le(&self.bytes);
        let y = num_bigint::BigInt::from_signed_bytes_le(&other.bytes);
        BigNum { bytes: (&x - &y).to_signed_bytes_le() }
    }

    /// `&BigInt * &BigInt`: the exact product.
    #[verifier::external_body]
    pub(crate) fn mul(&self, other: &BigNum) -> (r: BigNum)
        ensures
            r@ == self@ * other@,
    {
        let x = num_bigint::BigInt::from_signed_bytes_le(&self.bytes);
        let y = num_bigint::BigInt::from_signed_bytes_le(&other.bytes);
        BigNum { bytes: (&x * &y).to_signed_bytes_le() }
    }

    /// `-BigInt`: the negation.
    #[verifier::external_body]
    pub(crate) fn neg(&self) -> (r: BigNum)
        ensures
            r@ == -self@,
    {
        let x = num_bigint::BigInt::from_signed_bytes_le(&self.bytes);
        BigNum { bytes: (-x).to_signed_bytes_le() }
    }

    /// `num_traits::Signed::abs`: the absolute value.
    #[verifier::external_body]
    pub(crate) fn abs(&self) -> (r: BigNum)
        ensures
            r@ == abs(self@),
    {
        let x = num_bigint::BigInt::from_signed_bytes_le(&self.bytes);
        BigNum { bytes: num_traits::Signed::abs(&x).to_signed_bytes_le() }
    }

    /// `BigInt::pow`: `self` raised to the power `e`.
    #[verifier::external_body]
    pub(crate) fn pow(&self, e: u32) -> (r: BigNum)
        ensures
            r@ == pow(self@, e as nat),
    {
        let x = num_bigint::BigInt::from_signed_bytes_le(&self.bytes);
        BigNum { bytes: x.pow(e).to_signed_bytes_le() }
    }

    /// `&BigInt / &BigInt`: the quotient rounded toward zero.  It panics on a
    /// zero divisor, which `requires` leaves out.
    #[verifier::external_body]
    pub(crate) fn div(&self, other: &BigNum) -> (r: BigNum)
        requires
            other@ != 0,
        ensures
            r@ == trunc_div(self@, other@),
    {
        let x = num_bigint::BigInt::from_signed_bytes_le(&self.bytes);
        let y = num_bigint::BigInt::from_signed_bytes_le(&other.bytes);
        BigNum { bytes: (&x / &y).to_signed_bytes_le() }
    }

    /// `&BigInt % &BigInt`: the remainder of the division rounded toward zero,
    /// with the sign of the dividend.  It panics on a zero divisor.
    #[verifier::external_body]
    pub(crate) fn rem(&self, other: &BigNum) -> (r: BigNum)
        requires
            other@ != 0,
        ensures
            r@ == trunc_rem(self@, other@),
    {
        let x = num_bigint::BigInt::from_signed_bytes_le(&self.bytes);
        let y = num_bigint::BigInt::from_signed_bytes_le(&other.bytes);
        BigNum { bytes: (&x % &y).to_signed_bytes_le() }
    }

    /// `num_traits::Zero::is_zero`.
    #[verifier::external_body]
    pub(crate) fn is_zero(&self) -> (r: bool)
        ensures
            r == (self@ == 0),
    {
        let x = num_bigint::BigInt::from_signed_bytes_le(&self.bytes);
        num_traits::Zero::is_zero(&x)
    }

    /// `num_traits::One::is_one`.
    #[verifier::external_body]
    pub(crate) fn is_one(&self) -> (r: bool)
        ensures
            r == (self@ == 1),
    {
        let x = num_bigint::BigInt::from_signed_bytes_le(&self.bytes);
        num_traits::One::is_one(&x)
    }

    /// `num_traits::Signed::is_negative`.
    #[verifier::external_body]
    pub(crate) fn is_negative(&self) -> (r: bool)
        ensures
            r == (self@ < 0),
    {
        let x = num_bigint::BigInt::from_signed_bytes_le(&self.bytes);
        num_traits::Signed::is_negative(&x)
    }

    /// `BigInt == BigInt`: equality of the values.
    #[verifier::external_body]
    pub(crate) fn equals(&self, other: &BigNum) -> (r: bool)
        ensures
            r == (self@ == other@),
    {
        let x = num_bigint::BigInt::from_signed_bytes_le(&self.bytes);
        let y = num_bigint::BigInt::from_signed_bytes_le(&other.bytes);
        x == y
    }

    /// `i64::try_from(&BigInt)`: the value when it fits in an `i64`.
    #[verifier::external_body]
    pub(crate) fn to_i64(&self) -> (r: Option<i64>)
        ensures
            r == (if i64::MIN <= self@ <= i64::MAX {
                Some(self@ as i64)
            } else {
                None::<i64>
            }),
    {
        let x = num_bigint::BigInt::from_signed_bytes_le(&self.bytes);
        i64::try_from(&x).ok()
    }

    /// `BigInt::to_string` (its `Display`): the decimal text of the value.
    #[verifier::external_body]
    pub(crate) fn to_decimal(&self) -> (r: String)
        ensures
            r@ == decimal_text(self@),
    {
        let x = num_bigint::BigInt::from_signed_bytes_le(&self.bytes);
        x.to_string()
    }
}

} // verus!
