//! Unsigned integers of any size (IPv6 addresses and masks) read from digit
//! strings.
use vstd::prelude::*;
use vstd::arithmetic::power2::pow2;

verus! {

/// An unsigned integer of any size, as base-2^32 digits, least significant
/// first.
#[derive(Debug, Clone, PartialEq, Eq, Hash)]
pub struct Uint {
    pub digits: Vec<u32>,
}

/// The value of base-2^32 digits, least significant first.
pub open spec fn limbs_value(d: Seq<u32>) -> nat
    decreases d.len(),
{
    if d.len() == 0 {
        0
    } else {
        d[0] as nat + 0x1_0000_0000 * limbs_value(d.drop_first())
    }
}

impl Uint {
    /// The number held.
    pub open spec fn value(&self) -> nat {
        limbs_value(self.digits@)
    }
}

/// The value of one digit byte: `0-9`, then `a-z` or `A-Z` from ten; any
/// other byte has the value 255.
pub open spec fn digit_val(b: u8) -> int {
    if 48 <= b <= 57 {
        b - 48
    } else if 97 <= b <= 122 {
        b - 97 + 10
    } else if 65 <= b <= 90 {
        b - 65 + 10
    } else {
        255
    }
}

/// The digits of a numeral: without one leading `+` unless a second follows.
pub open spec fn digits_part(s: Seq<u8>) -> Seq<u8> {
    if s.len() >= 1 && s[0] == 43 && !(s.len() >= 2 && s[1] == 43) {
        s.drop_first()
    } else {
        s
    }
}

/// A numeral in `radix`: an optional `+`, then digits of the radix and `_`
/// separators, not empty and not led by `_`.
pub open spec fn numeral(s: Seq<u8>, radix: int) -> bool {
    let d = digits_part(s);
    &&& d.len() > 0
    &&& d[0] != 95
    &&& forall|i: int| 0 <= i < d.len() ==> (d[i] == 95 || digit_val(#[trigger] d[i]) < radix)
}

/// The value of a digit sequence, separators skipped.
pub open spec fn digits_value(d: Seq<u8>, radix: int) -> int
    decreases d.len(),
{
    if d.len() == 0 {
        0
    } else if d.last() == 95 {
        digits_value(d.drop_last(), radix)
    } else {
        digits_value(d.drop_last(), radix) * radix + digit_val(d.last())
    }
}

/// The value a numeral denotes.
pub open spec fn numeral_value(s: Seq<u8>, radix: int) -> int {
    digits_value(digits_part(s), radix)
}

/// Relies on `num::BigUint::parse_bytes`, which is `Some` exactly for a
/// numeral in the radix and then holds its value, and on
/// `BigUint::to_u32_digits`, which gives that value's base-2^32 digits,
/// least significant first. `parse_bytes` panics for a radix outside 2..=36.
#[verifier::external_body]
fn parse_big(buf: &[u8], radix: u32) -> (r: Option<Vec<u32>>)
    requires
        2 <= radix <= 36,
    ensures
        r matches Some(v) ==> numeral(buf@, radix as int) && limbs_value(v@) == numeral_value(buf@, radix as int),
        r is None ==> !numeral(buf@, radix as int),
{
    match num::BigUint::parse_bytes(buf, radix) {
        Some(v) => Some(v.to_u32_digits()),
        None => None,
    }
}

/// Relies on `BigUint::new` (digits, least significant first, make their
/// value), the sum of `BigUint`s, and `BigUint::to_u32_digits`.
#[verifier::external_body]
fn big_add(a: &Vec<u32>, b: &Vec<u32>) -> (r: Vec<u32>)
    ensures
        limbs_value(r@) == limbs_value(a@) + limbs_value(b@),
{
    (num::BigUint::new(a.clone()) + num::BigUint::new(b.clone())).to_u32_digits()
}

/// Relies on `BigUint::new`, the difference of `BigUint`s (which panics
/// below zero), and `BigUint::to_u32_digits`.
#[verifier::external_body]
fn big_sub(a: &Vec<u32>, b: &Vec<u32>) -> (r: Vec<u32>)
    requires
        limbs_value(a@) >= limbs_value(b@),
    ensures
        limbs_value(r@) == limbs_value(a@) - limbs_value(b@),
{
    (num::BigUint::new(a.clone()) - num::BigUint::new(b.clone())).to_u32_digits()
}

/// Relies on `BigUint::new`, the truncating quotient of `BigUint`s (which
/// panics on a zero divisor), and `BigUint::to_u32_digits`.
#[verifier::external_body]
fn big_div(a: &Vec<u32>, b: &Vec<u32>) -> (r: Vec<u32>)
    requires
        limbs_value(b@) > 0,
    ensures
        limbs_value(r@) == limbs_value(a@) / limbs_value(b@),
{
    (num::BigUint::new(a.clone()) / num::BigUint::new(b.clone())).to_u32_digits()
}

/// Relies on `BigUint::new`, the remainder of `BigUint`s (which panics on a
/// zero divisor), and `BigUint::to_u32_digits`.
#[verifier::external_body]
fn big_rem(a: &Vec<u32>, b: &Vec<u32>) -> (r: Vec<u32>)
    requires
        limbs_value(b@) > 0,
    ensures
        limbs_value(r@) == limbs_value(a@) % limbs_value(b@),
{
    (num::BigUint::new(a.clone()) % num::BigUint::new(b.clone())).to_u32_digits()
}

/// Relies on `BigUint::new`, `BigUint >> usize` (division by a power of
/// two), and `BigUint::to_u32_digits`.
#[verifier::external_body]
fn big_shr(a: &Vec<u32>, rhs: usize) -> (r: Vec<u32>)
    ensures
        limbs_value(r@) == limbs_value(a@) / pow2(rhs as nat),
{
    (num::BigUint::new(a.clone()) >> rhs).to_u32_digits()
}

/// Relies on `BigUint::new`, `BigUint << usize` (multiplication by a power
/// of two), and `BigUint::to_u32_digits`.
#[verifier::external_body]
fn big_shl(a: &Vec<u32>, rhs: usize) -> (r: Vec<u32>)
    ensures
        limbs_value(r@) == limbs_value(a@) * pow2(rhs as nat),
{
    (num::BigUint::new(a.clone()) << rhs).to_u32_digits()
}

impl Uint {
    /// The sum.
    pub fn add(&self, other: &Uint) -> (r: Uint)
        ensures
            r.value() == self.value() + other.value(),
    {
        Uint { digits: big_add(&self.digits, &other.digits) }
    }

    /// The difference; `other` may not exceed `self`.
    pub fn sub(&self, other: &Uint) -> (r: Uint)
        requires
            self.value() >= other.value(),
        ensures
            r.value() == self.value() - other.value(),
    {
        Uint { digits: big_sub(&self.digits, &other.digits) }
    }

    /// The truncated quotient by a non-zero divisor.
    pub fn div(&self, other: &Uint) -> (r: Uint)
        requires
            other.value() > 0,
        ensures
            r.value() == self.value() / other.value(),
    {
        Uint { digits: big_div(&self.digits, &other.digits) }
    }

    /// The remainder by a non-zero divisor.
    pub fn rem(&self, other: &Uint) -> (r: Uint)
        requires
            other.value() > 0,
        ensures
            r.value() == self.value() % other.value(),
    {
        Uint { digits: big_rem(&self.digits, &other.digits) }
    }

    /// The value shifted right by `rhs` bits.
    pub fn shr(&self, rhs: usize) -> (r: Uint)
        ensures
            r.value() == self.value() / pow2(rhs as nat),
    {
        Uint { digits: big_shr(&self.digits, rhs) }
    }

    /// The value shifted left by `rhs` bits.
    pub fn shl(&self, rhs: usize) -> (r: Uint)
        ensures
            r.value() == self.value() * pow2(rhs as nat),
    {
        Uint { digits: big_shl(&self.digits, rhs) }
    }
}

impl Uint {
    /// Reads a numeral in `radix`; `None` when `buf` is no numeral.
    pub fn try_parse_bytes(buf: &[u8], radix: u32) -> (r: Option<Uint>)
        requires
            2 <= radix <= 36,
        ensures
            r matches Some(u) ==> u.value() == numeral_value(buf@, radix as int),
            r is None <==> !numeral(buf@, radix as int),
    {
        match parse_big(buf, radix) {
            Some(digits) => Some(Uint { digits }),
            None => None,
        }
    }

    /// Reads a numeral in `radix`.
    pub fn parse_bytes(buf: &[u8], radix: u32) -> (r: Uint)
        requires
            2 <= radix <= 36,
            numeral(buf@, radix as int),
        ensures
            r.value() == numeral_value(buf@, radix as int),
    {
        match Uint::try_parse_bytes(buf, radix) {
            Some(u) => u,
            None => vstd::pervasive::unreached(),
        }
    }
}

impl Default for Uint {
    /// Zero.
    fn default() -> (r: Uint)
        ensures
            r.value() == 0,
    {
        Uint { digits: Vec::new() }
    }
}

} // verus!
