//! 256-bit unsigned integers: a plain four-limb value, with the arithmetic of [`bnum`].
//!
//! The value is held as its four little-endian 64-bit limbs. Each arithmetic operation hands the
//! limbs to `bnum::types::U256` and takes the limbs of the answer back.

use core::cmp::Ordering;
use vstd::arithmetic::power::pow;
use vstd::arithmetic::power2::pow2;
use vstd::prelude::*;

verus! {

/// A 256-bit unsigned integer, least significant limb first.
#[derive(Clone, Copy)]
pub struct U256 {
    pub limbs: [u64; 4],
}

/// `2^64`, the weight of one limb.
pub open spec fn limb_base() -> int {
    0x1_0000_0000_0000_0000int
}

/// `2^128`, one past the largest `u128`.
pub open spec fn two_128() -> int {
    0x1_0000_0000_0000_0000_0000_0000_0000_0000int
}

/// `2^256`, one past the largest [`U256`].
pub open spec fn two_256() -> int {
    0x1_0000_0000_0000_0000_0000_0000_0000_0000_0000_0000_0000_0000_0000_0000_0000_0000int
}

impl U256 {
    /// The integer that the four limbs write in base `2^64`.
    pub open spec fn value(self) -> int {
        self.limbs[0] + limb_base() * (self.limbs[1] + limb_base() * (self.limbs[2] + limb_base()
            * self.limbs[3]))
    }
}

impl View for U256 {
    type V = int;

    open spec fn view(&self) -> int {
        self.value()
    }
}

impl U256 {
    /// Whether the value is zero.
    pub fn is_zero(&self) -> (zero: bool)
        ensures
            zero == (self@ == 0),
    {
        self.limbs[0] == 0 && self.limbs[1] == 0 && self.limbs[2] == 0 && self.limbs[3] == 0
    }
}

/// `U256::from(u128)` of bnum: the same integer, widened.
#[verifier::external_body]
pub(crate) fn from_u128(x: u128) -> (r: U256)
    ensures
        r@ == x,
{
    U256 { limbs: *bnum::types::U256::from(x).digits() }
}

/// `u128::try_from(U256)` of bnum: the same integer where it fits a `u128`, an error (here `None`)
/// exactly where it does not.
#[verifier::external_body]
pub(crate) fn to_u128(x: U256) -> (r: Option<u128>)
    ensures
        r == (if x@ <= u128::MAX {
            Some(x@ as u128)
        } else {
            None
        }),
{
    u128::try_from(bnum::types::U256::from_digits(x.limbs)).ok()
}

/// The operator `*` of bnum's `U256`: the exact product. A product past 256 bits is left out, as
/// there the operator panics or wraps, depending on the build.
#[verifier::external_body]
pub(crate) fn times(a: U256, b: U256) -> (r: U256)
    requires
        a@ * b@ < two_256(),
    ensures
        r@ == a@ * b@,
{
    let x = bnum::types::U256::from_digits(a.limbs);
    let y = bnum::types::U256::from_digits(b.limbs);
    U256 { limbs: *(x * y).digits() }
}

/// `U256::checked_mul` of bnum: the exact product, `None` exactly where it exceeds 256 bits.
#[verifier::external_body]
pub(crate) fn checked_times(a: U256, b: U256) -> (r: Option<U256>)
    ensures
        r is Some <==> a@ * b@ < two_256(),
        r matches Some(v) ==> v@ == a@ * b@,
{
    let x = bnum::types::U256::from_digits(a.limbs);
    let y = bnum::types::U256::from_digits(b.limbs);
    match x.checked_mul(y) {
        Some(v) => Some(U256 { limbs: *v.digits() }),
        None => None,
    }
}

/// `U256::checked_add` of bnum: the exact sum, `None` exactly where it exceeds 256 bits.
#[verifier::external_body]
pub(crate) fn checked_plus(a: U256, b: U256) -> (r: Option<U256>)
    ensures
        r is Some <==> a@ + b@ < two_256(),
        r matches Some(v) ==> v@ == a@ + b@,
{
    let x = bnum::types::U256::from_digits(a.limbs);
    let y = bnum::types::U256::from_digits(b.limbs);
    match x.checked_add(y) {
        Some(v) => Some(U256 { limbs: *v.digits() }),
        None => None,
    }
}

/// The operator `-` of bnum's `U256`: the exact difference. A negative difference is left out, as
/// there the operator panics or wraps, depending on the build.
#[verifier::external_body]
pub(crate) fn minus(a: U256, b: U256) -> (r: U256)
    requires
        b@ <= a@,
    ensures
        r@ == a@ - b@,
{
    let x = bnum::types::U256::from_digits(a.limbs);
    let y = bnum::types::U256::from_digits(b.limbs);
    U256 { limbs: *(x - y).digits() }
}

/// The operator `/` of bnum's `U256`: the floor of the quotient. It panics on a zero divisor.
#[verifier::external_body]
pub(crate) fn quotient(a: U256, b: U256) -> (r: U256)
    requires
        b@ != 0,
    ensures
        r@ == a@ / b@,
{
    let x = bnum::types::U256::from_digits(a.limbs);
    let y = bnum::types::U256::from_digits(b.limbs);
    U256 { limbs: *(x / y).digits() }
}

/// The operator `%` of bnum's `U256`: the remainder. It panics on a zero divisor.
#[verifier::external_body]
pub(crate) fn remainder(a: U256, b: U256) -> (r: U256)
    requires
        b@ != 0,
    ensures
        r@ == a@ % b@,
{
    let x = bnum::types::U256::from_digits(a.limbs);
    let y = bnum::types::U256::from_digits(b.limbs);
    U256 { limbs: *(x % y).digits() }
}

/// The operator `>>` of bnum's `U256`: the floor of the division by `2^bits`. A shift of 256 bits
/// or more is left out, as there the operator panics or wraps, depending on the build.
#[verifier::external_body]
pub(crate) fn shift_right(a: U256, bits: u32) -> (r: U256)
    requires
        bits < 256,
    ensures
        r@ == a@ / (pow2(bits as nat) as int),
{
    U256 { limbs: *(bnum::types::U256::from_digits(a.limbs) >> bits).digits() }
}

/// `U256::pow` of bnum: the exact power. A power past 256 bits is left out, as there the function
/// panics or wraps, depending on the build.
#[verifier::external_body]
pub(crate) fn power(a: U256, exp: u32) -> (r: U256)
    requires
        pow(a@, exp as nat) < two_256(),
    ensures
        r@ == pow(a@, exp as nat),
{
    U256 { limbs: *bnum::types::U256::from_digits(a.limbs).pow(exp).digits() }
}

/// The operator `>=` of bnum's `U256`: the order of the integers.
#[verifier::external_body]
pub(crate) fn at_least(a: U256, b: U256) -> (r: bool)
    ensures
        r == (a@ >= b@),
{
    bnum::types::U256::from_digits(a.limbs) >= bnum::types::U256::from_digits(b.limbs)
}

/// `U256::cmp` of bnum: the order of the integers.
#[verifier::external_body]
pub(crate) fn order(a: U256, b: U256) -> (r: Ordering)
    ensures
        r == (if a@ < b@ {
            Ordering::Less
        } else if a@ == b@ {
            Ordering::Equal
        } else {
            Ordering::Greater
        }),
{
    bnum::types::U256::from_digits(a.limbs).cmp(&bnum::types::U256::from_digits(b.limbs))
}

} // verus!
