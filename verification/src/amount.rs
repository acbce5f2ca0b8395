//! Exact fixed-point amounts.
//!
//! Every price, quantity and balance is a non-negative whole number of units
//! of 10^-8. Sums, differences and products either are exact or are refused.

use rust_decimal::Decimal;
use std::str::FromStr;
use vstd::prelude::*;

verus! {

/// Number of decimal places carried by every amount.
pub const AMOUNT_SCALE: u32 = 8;

/// Units that make up the amount one.
pub const UNITS_PER_ONE: u128 = 100_000_000;

/// Largest number of units an amount may hold: 2^96 - 1, the largest
/// magnitude a 96-bit decimal mantissa can take.
pub const MAX_UNITS: u128 = 79_228_162_514_264_337_593_543_950_335;

/// Prices and quantities of orders are whole multiples of this many units:
/// they have at most four decimal places, so that a price times a quantity
/// is always a whole number of units.
pub const ORDER_STEP: u128 = 10_000;

/// Largest scale of a 96-bit decimal.
pub const MAX_DECIMAL_SCALE: u32 = 28;

/// Why a decimal could not be taken as an amount.
#[derive(Clone, Copy, Debug, PartialEq, Eq, Structural)]
pub enum AmountError {
    /// The text is not a decimal number.
    Malformed,
    /// The number is below zero.
    Negative,
    /// The scale is beyond what a decimal can carry.
    ScaleOutOfRange,
    /// The number has digits beyond the eighth decimal place.
    TooPrecise,
    /// The number is too large.
    Overflow,
}

/// A non-negative fixed-point number with eight decimal places.
#[derive(Clone, Copy, Debug, PartialEq, Eq, Structural)]
pub struct Amount {
    pub units: u128,
}

impl View for Amount {
    type V = nat;

    open spec fn view(&self) -> nat {
        self.units as nat
    }
}

/// Ten to the power `e`.
pub open spec fn pow10(e: nat) -> nat
    decreases e,
{
    if e == 0 {
        1
    } else {
        10 * pow10((e - 1) as nat)
    }
}

pub proof fn lemma_pow10_positive(e: nat)
    ensures
        pow10(e) > 0,
    decreases e,
{
    if e > 0 {
        lemma_pow10_positive((e - 1) as nat);
    }
}

pub proof fn lemma_pow10_monotonic(a: nat, b: nat)
    requires
        a <= b,
    ensures
        pow10(a) <= pow10(b),
    decreases b,
{
    if a < b {
        lemma_pow10_monotonic(a, (b - 1) as nat);
    }
}

pub proof fn lemma_pow10_values()
    ensures
        pow10(0) == 1,
        pow10(8) == 100_000_000,
        pow10(20) == 100_000_000_000_000_000_000,
        pow10(28) == 10_000_000_000_000_000_000_000_000_000,
{
    reveal_with_fuel(pow10, 30);
}

/// The units that stand for `mantissa / 10^scale`, or why there are none.
pub open spec fn units_of_decimal(mantissa: int, scale: nat) -> Result<nat, AmountError> {
    if mantissa < 0 {
        Err(AmountError::Negative)
    } else if scale > MAX_DECIMAL_SCALE {
        Err(AmountError::ScaleOutOfRange)
    } else if scale <= AMOUNT_SCALE {
        let units = mantissa * pow10((AMOUNT_SCALE - scale) as nat);
        if units > MAX_UNITS {
            Err(AmountError::Overflow)
        } else {
            Ok(units as nat)
        }
    } else {
        let step = pow10((scale - AMOUNT_SCALE) as nat);
        if mantissa % (step as int) != 0 {
            Err(AmountError::TooPrecise)
        } else if mantissa / (step as int) > MAX_UNITS {
            Err(AmountError::Overflow)
        } else {
            Ok((mantissa / (step as int)) as nat)
        }
    }
}

/// The product of two amounts in units, where it is a whole number of units
/// within range.
pub open spec fn product_units(a: nat, b: nat) -> Option<nat> {
    if (a * b) % (UNITS_PER_ONE as nat) == 0 && (a * b) / (UNITS_PER_ONE as nat) <= MAX_UNITS {
        Some((a * b) / (UNITS_PER_ONE as nat))
    } else {
        None
    }
}

/// Whether a number of units is a whole multiple of the order step.
pub open spec fn on_step(units: nat) -> bool {
    units % (ORDER_STEP as nat) == 0
}

/// The product of two amounts in units, rounded down to whole units.
pub open spec fn product_floor(a: nat, b: nat) -> nat {
    (a * b) / (UNITS_PER_ONE as nat)
}

/// The product of two multiples of the order step is a whole number of
/// units: the product of the two numbers of steps.
pub proof fn lemma_product_on_step(a: nat, b: nat)
    requires
        on_step(a),
        on_step(b),
    ensures
        (a * b) % (UNITS_PER_ONE as nat) == 0,
        product_floor(a, b) == (a / (ORDER_STEP as nat)) * (b / (ORDER_STEP as nat)),
        product_units(a, b) == (if product_floor(a, b) <= MAX_UNITS {
            Some(product_floor(a, b))
        } else {
            None
        }),
{
    let x = a / (ORDER_STEP as nat);
    let y = b / (ORDER_STEP as nat);
    assert(a == 10_000 * x);
    assert(b == 10_000 * y);
    assert(a * b == 100_000_000 * (x * y)) by (nonlinear_arith)
        requires
            a == 10_000 * x,
            b == 10_000 * y,
    ;
    assert((100_000_000 * (x * y)) % 100_000_000 == 0 && (100_000_000 * (x * y)) / 100_000_000 == x
        * y) by (nonlinear_arith);
}

/// Mantissa of the shortest decimal equal to `mantissa / 10^scale`.
pub open spec fn trimmed_mantissa(mantissa: nat, scale: nat) -> nat
    decreases scale,
{
    if scale > 0 && mantissa % 10 == 0 {
        trimmed_mantissa(mantissa / 10, (scale - 1) as nat)
    } else {
        mantissa
    }
}

/// Scale of the shortest decimal equal to `mantissa / 10^scale`.
pub open spec fn trimmed_scale(mantissa: nat, scale: nat) -> nat
    decreases scale,
{
    if scale > 0 && mantissa % 10 == 0 {
        trimmed_scale(mantissa / 10, (scale - 1) as nat)
    } else {
        scale
    }
}

/// What `Decimal::from_str` makes of a text: the mantissa and the scale of
/// the decimal it returns, or `None` where it returns an error.
pub uninterp spec fn decimal_parse(text: Seq<char>) -> Option<(int, nat)>;

/// The text that `Display` gives for the decimal `mantissa / 10^scale`.
pub uninterp spec fn decimal_text(mantissa: int, scale: nat) -> Seq<char>;

/// The text of an amount of `units` units: that of its shortest decimal.
pub open spec fn amount_text(units: nat) -> Seq<char> {
    decimal_text(
        trimmed_mantissa(units, AMOUNT_SCALE as nat) as int,
        trimmed_scale(units, AMOUNT_SCALE as nat),
    )
}

/// The amount that a text stands for, or why it stands for none.
pub open spec fn amount_of_text(text: Seq<char>) -> Result<nat, AmountError> {
    match decimal_parse(text) {
        None => Err(AmountError::Malformed),
        Some((mantissa, scale)) => units_of_decimal(mantissa, scale),
    }
}

/// The error type of `rust_decimal`, carried from the parser to the caller
/// that turns it into `AmountError::Malformed`. Nothing is read from it.
#[verifier::external_type_specification]
#[verifier::external_body]
pub struct ExDecimalError(rust_decimal::Error);

/// `Decimal::from_str`, with the decimal it returns taken apart by
/// `Decimal::mantissa` and `Decimal::scale`. The contract names the outcome
/// as a function of the text, and adds what the type's documentation gives:
/// the mantissa has at most 96 bits and the scale is at most 28.
#[verifier::external_body]
fn decimal_from_str(text: &str) -> (parts: Result<(i128, u32), rust_decimal::Error>)
    ensures
        match parts {
            Ok((mantissa, scale)) => {
                &&& decimal_parse(text@) == Some((mantissa as int, scale as nat))
                &&& -(MAX_UNITS as int) <= mantissa <= MAX_UNITS as int
                &&& scale <= MAX_DECIMAL_SCALE
            },
            Err(_) => decimal_parse(text@) is None,
        },
{
    match Decimal::from_str(text) {
        Ok(d) => Ok((d.mantissa(), d.scale())),
        Err(e) => Err(e),
    }
}

/// `Display` for the decimal that `Decimal::from_i128_with_scale` builds.
/// The constructor panics on a mantissa beyond 96 bits or a scale beyond 28,
/// which the precondition rules out. The contract only names the text.
#[verifier::external_body]
fn decimal_to_string(mantissa: i128, scale: u32) -> (text: String)
    requires
        -(MAX_UNITS as int) <= mantissa <= MAX_UNITS as int,
        scale <= MAX_DECIMAL_SCALE,
    ensures
        text@ == decimal_text(mantissa as int, scale as nat),
{
    Decimal::from_i128_with_scale(mantissa, scale).to_string()
}

/// Ten to the power `e`, for the exponents a decimal's scale can take.
fn pow10_exec(e: u32) -> (p: u128)
    requires
        e <= MAX_DECIMAL_SCALE,
    ensures
        p == pow10(e as nat),
        1 <= p <= 10_000_000_000_000_000_000_000_000_000,
{
    let mut p: u128 = 1;
    let mut i: u32 = 0;
    proof {
        lemma_pow10_values();
    }
    while i < e
        invariant
            i <= e <= MAX_DECIMAL_SCALE,
            p == pow10(i as nat),
            pow10(28) == 10_000_000_000_000_000_000_000_000_000,
        decreases e - i,
    {
        proof {
            lemma_pow10_monotonic((i + 1) as nat, 28);
        }
        p = p * 10;
        i = i + 1;
    }
    proof {
        lemma_pow10_monotonic(e as nat, 28);
        lemma_pow10_positive(e as nat);
    }
    p
}

impl Amount {
    /// Whether the amount is within range.
    pub open spec fn wf(&self) -> bool {
        self.units <= MAX_UNITS
    }

    /// The amount zero.
    pub fn zero() -> (a: Amount)
        ensures
            a@ == 0,
            a.wf(),
    {
        Amount { units: 0 }
    }

    /// The amount of `units` units, if that is within range.
    pub fn from_units(units: u128) -> (a: Option<Amount>)
        ensures
            a == (if units <= MAX_UNITS {
                Some(Amount { units })
            } else {
                None
            }),
    {
        if units <= MAX_UNITS {
            Some(Amount { units })
        } else {
            None
        }
    }

    /// The amount of `whole` ones.
    pub fn from_whole(whole: u64) -> (a: Amount)
        ensures
            a@ == whole * UNITS_PER_ONE,
            a.wf(),
    {
        let wide: u128 = whole as u128;
        assert(wide * UNITS_PER_ONE <= MAX_UNITS) by (nonlinear_arith)
            requires
                wide <= u64::MAX,
        ;
        Amount { units: wide * UNITS_PER_ONE }
    }

    /// The number of units.
    pub fn units(&self) -> (u: u128)
        ensures
            u == self@,
    {
        self.units
    }

    /// Whether the amount is a whole multiple of the order step.
    pub fn is_on_step(&self) -> (on: bool)
        ensures
            on == on_step(self@),
    {
        self.units % ORDER_STEP == 0
    }

    pub fn is_zero(&self) -> (z: bool)
        ensures
            z == (self@ == 0),
    {
        self.units == 0
    }

    /// The amount equal to the decimal `mantissa / 10^scale`.
    pub fn from_decimal_parts(mantissa: i128, scale: u32) -> (r: Result<Amount, AmountError>)
        ensures
            match r {
                Ok(a) => a.wf() && units_of_decimal(mantissa as int, scale as nat) == Ok::<
                    nat,
                    AmountError,
                >(a@),
                Err(e) => units_of_decimal(mantissa as int, scale as nat) == Err::<
                    nat,
                    AmountError,
                >(e),
            },
    {
        if mantissa < 0 {
            return Err(AmountError::Negative);
        }
        if scale > MAX_DECIMAL_SCALE {
            return Err(AmountError::ScaleOutOfRange);
        }
        let m: u128 = mantissa as u128;
        if scale <= AMOUNT_SCALE {
            let factor = pow10_exec(AMOUNT_SCALE - scale);
            match m.checked_mul(factor) {
                Some(units) => {
                    if units > MAX_UNITS {
                        Err(AmountError::Overflow)
                    } else {
                        Ok(Amount { units })
                    }
                },
                None => Err(AmountError::Overflow),
            }
        } else {
            let step = pow10_exec(scale - AMOUNT_SCALE);
            if m % step != 0 {
                Err(AmountError::TooPrecise)
            } else if m / step > MAX_UNITS {
                Err(AmountError::Overflow)
            } else {
                Ok(Amount { units: m / step })
            }
        }
    }

    /// Reads an amount from decimal text.
    pub fn parse(text: &str) -> (r: Result<Amount, AmountError>)
        ensures
            match r {
                Ok(a) => a.wf() && amount_of_text(text@) == Ok::<nat, AmountError>(a@),
                Err(e) => amount_of_text(text@) == Err::<nat, AmountError>(e),
            },
    {
        match decimal_from_str(text) {
            Ok((mantissa, scale)) => Amount::from_decimal_parts(mantissa, scale),
            Err(_) => Err(AmountError::Malformed),
        }
    }

    /// The amount as its shortest decimal: its mantissa and scale.
    pub fn trimmed_parts(&self) -> (parts: (u128, u32))
        ensures
            parts.0 == trimmed_mantissa(self@, AMOUNT_SCALE as nat),
            parts.1 == trimmed_scale(self@, AMOUNT_SCALE as nat),
            parts.0 <= self@,
            parts.1 <= AMOUNT_SCALE,
    {
        let mut mantissa: u128 = self.units;
        let mut scale: u32 = AMOUNT_SCALE;
        while scale > 0 && mantissa % 10 == 0
            invariant
                scale <= AMOUNT_SCALE,
                mantissa <= self.units,
                trimmed_mantissa(mantissa as nat, scale as nat) == trimmed_mantissa(
                    self@,
                    AMOUNT_SCALE as nat,
                ),
                trimmed_scale(mantissa as nat, scale as nat) == trimmed_scale(
                    self@,
                    AMOUNT_SCALE as nat,
                ),
            decreases scale,
        {
            mantissa = mantissa / 10;
            scale = scale - 1;
        }
        (mantissa, scale)
    }

    /// The amount as decimal text, without trailing zeros.
    pub fn to_string(&self) -> (text: String)
        requires
            self.wf(),
        ensures
            text@ == amount_text(self@),
    {
        let (mantissa, scale) = self.trimmed_parts();
        decimal_to_string(mantissa as i128, scale)
    }

    /// The sum, where it is within range.
    pub fn checked_add(&self, other: Amount) -> (sum: Option<Amount>)
        requires
            self.wf(),
            other.wf(),
        ensures
            sum == (if self@ + other@ <= MAX_UNITS {
                Some(Amount { units: (self@ + other@) as u128 })
            } else {
                None
            }),
    {
        let units = self.units + other.units;
        if units <= MAX_UNITS {
            Some(Amount { units })
        } else {
            None
        }
    }

    /// The difference, where it is not below zero.
    pub fn checked_sub(&self, other: Amount) -> (diff: Option<Amount>)
        ensures
            diff == (if other@ <= self@ {
                Some(Amount { units: (self@ - other@) as u128 })
            } else {
                None
            }),
    {
        if other.units <= self.units {
            Some(Amount { units: self.units - other.units })
        } else {
            None
        }
    }

    /// The product, where it is a whole number of units within range.
    pub fn checked_mul(&self, other: Amount) -> (product: Option<Amount>)
        requires
            self.wf(),
            other.wf(),
        ensures
            match product {
                Some(p) => p.wf() && product_units(self@, other@) == Some(p@),
                None => product_units(self@, other@) is None,
            },
    {
        match self.units.checked_mul(other.units) {
            Some(wide) => {
                if wide % UNITS_PER_ONE == 0 && wide / UNITS_PER_ONE <= MAX_UNITS {
                    Some(Amount { units: wide / UNITS_PER_ONE })
                } else {
                    None
                }
            },
            None => {
                proof {
                    let a = self@;
                    let b = other@;
                    assert((a * b) / (UNITS_PER_ONE as nat) > MAX_UNITS) by (nonlinear_arith)
                        requires
                            a * b > u128::MAX,
                    ;
                }
                None
            },
        }
    }

    /// The smaller of two amounts.
    pub fn min(self, other: Amount) -> (m: Amount)
        ensures
            m == (if self@ <= other@ {
                self
            } else {
                other
            }),
    {
        if self.units <= other.units {
            self
        } else {
            other
        }
    }
}

} // verus!
