use vstd::prelude::*;
use vstd::arithmetic::power2::{lemma2_to64, lemma2_to64_rest, lemma_pow2_adds, lemma_pow2_strictly_increases, lemma_pow2_unfold, pow2};
use crate::error::PayoutError;

verus! {

/// A non-negative fraction: the exact value of a rate or of a reward.
pub struct Ratio {
    pub numerator: nat,
    pub denominator: nat,
}

impl Ratio {
    /// The number that the fraction stands for.
    pub open spec fn value(self) -> real {
        self.numerator as real / self.denominator as real
    }

    /// The fraction taken `factor` times, over the same denominator.
    pub open spec fn times(self, factor: nat) -> Ratio {
        Ratio { numerator: self.numerator * factor, denominator: self.denominator }
    }

    /// Taking a fraction `factor` times multiplies its value.
    pub proof fn lemma_times(self, factor: nat)
        requires
            self.denominator > 0,
        ensures
            self.times(factor).value() == factor as real * self.value(),
    {
        let n = self.numerator;
        let d = self.denominator;
        assert((n * factor) as real / d as real == factor as real * (n as real / d as real))
            by (nonlinear_arith)
            requires
                d > 0,
        ;
    }

    /// Over one denominator the greater numerator is the greater value.
    pub proof fn lemma_same_denominator(self, other: Ratio)
        requires
            self.denominator > 0,
            self.denominator == other.denominator,
        ensures
            self.value() < other.value() <==> self.numerator < other.numerator,
            self.value() == other.value() <==> self.numerator == other.numerator,
    {
        let a = self.numerator;
        let b = other.numerator;
        let d = self.denominator;
        assert((a as real / d as real) < (b as real / d as real) <==> a < b) by (nonlinear_arith)
            requires
                d > 0,
        ;
        assert(a as real / d as real == b as real / d as real <==> a == b) by (nonlinear_arith)
            requires
                d > 0,
        ;
    }
}

/// The least exponent field of a binary64 number that a rate can hold.
pub const MIN_RATE_EXPONENT: u64 = 948;

/// The greatest exponent field of a binary64 number that a rate can hold.
pub const MAX_RATE_EXPONENT: u64 = 1086;

/// The exponent field that stands for a scale of one.
pub const UNIT_EXPONENT: u64 = 1075;

/// The implicit leading bit of a normal binary64 significand, `2^52`.
pub const HIDDEN_BIT: u64 = 0x10_0000_0000_0000;

/// The sign bit of an IEEE 754 binary64 bit pattern: the highest of its 64
/// bits.
pub open spec fn binary64_sign(bits: u64) -> nat {
    (bits as nat) / 0x8000_0000_0000_0000
}

/// The biased exponent field of a binary64 bit pattern: the eleven bits
/// below the sign.
pub open spec fn binary64_exponent(bits: u64) -> nat {
    ((bits as nat) / (HIDDEN_BIT as nat)) % 0x800
}

/// The fraction field of a binary64 bit pattern: the lowest 52 bits.
pub open spec fn binary64_fraction(bits: u64) -> nat {
    (bits as nat) % (HIDDEN_BIT as nat)
}

/// The exact value of a binary64 number as a rate: `None` for what is not
/// positive and finite, and for a number so small or so large that the
/// fraction does not fit. For the others the significand `2^52 + fraction`
/// is scaled by two to the power of `exponent - 1075`.
pub open spec fn binary64_rate(bits: u64) -> Option<Ratio> {
    let exponent = binary64_exponent(bits);
    let significand = HIDDEN_BIT as nat + binary64_fraction(bits);
    if binary64_sign(bits) != 0 || exponent < MIN_RATE_EXPONENT || exponent > MAX_RATE_EXPONENT {
        None
    } else if exponent >= UNIT_EXPONENT {
        Some(
            Ratio {
                numerator: significand * pow2((exponent - UNIT_EXPONENT) as nat),
                denominator: 1,
            },
        )
    } else {
        Some(Ratio { numerator: significand, denominator: pow2((UNIT_EXPONENT - exponent) as nat) })
    }
}

/// A positive number of cookies per ticket, held exactly as a fraction.
#[derive(Debug)]
pub struct Rate {
    numerator: u64,
    denominator: u128,
}

impl View for Rate {
    type V = Ratio;

    closed spec fn view(&self) -> Ratio {
        Ratio { numerator: self.numerator as nat, denominator: self.denominator as nat }
    }
}

impl Rate {
    #[verifier::type_invariant]
    closed spec fn well_formed(&self) -> bool {
        self.numerator > 0 && self.denominator > 0
    }

    /// The rate `numerator / denominator`. Only a positive rate is one:
    /// where either part is zero the answer is `InputValidationError`.
    pub fn new(numerator: u64, denominator: u128) -> (rate: Result<Rate, PayoutError>)
        ensures
            numerator > 0 && denominator > 0 ==> rate is Ok && rate->Ok_0@ == (Ratio {
                numerator: numerator as nat,
                denominator: denominator as nat,
            }),
            numerator == 0 || denominator == 0 ==> rate == Err::<Rate, PayoutError>(
                PayoutError::InputValidationError,
            ),
    {
        if numerator == 0 || denominator == 0 {
            Err(PayoutError::InputValidationError)
        } else {
            Ok(Rate { numerator, denominator })
        }
    }

    /// The numerator of the fraction.
    pub fn numerator(&self) -> (n: u64)
        ensures
            n == self@.numerator,
            n > 0,
    {
        proof {
            use_type_invariant(self);
        }
        self.numerator
    }

    /// The denominator of the fraction.
    pub fn denominator(&self) -> (d: u128)
        ensures
            d == self@.denominator,
            d > 0,
    {
        proof {
            use_type_invariant(self);
        }
        self.denominator
    }

    /// Two to the power of `exponent`.
    fn power_of_two(exponent: u64) -> (power: u128)
        requires
            exponent <= 127,
        ensures
            power == pow2(exponent as nat),
            power > 0,
    {
        let mut power: u128 = 1;
        let mut i: u64 = 0;
        proof {
            lemma2_to64();
        }
        while i < exponent
            invariant
                i <= exponent <= 127,
                power == pow2(i as nat),
                power > 0,
            decreases exponent - i,
        {
            proof {
                lemma_pow2_unfold((i + 1) as nat);
                lemma2_to64_rest();
                lemma_pow2_adds(64, 63);
                if i + 1 < 127 {
                    lemma_pow2_strictly_increases((i + 1) as nat, 127);
                }
            }
            power = power * 2;
            i += 1;
        }
        power
    }

    /// The rate that an IEEE 754 binary64 number stands for, from its bit
    /// pattern. A number that is not positive and finite, or whose exact
    /// value does not fit, is refused with `InputValidationError`.
    pub fn from_binary64(bits: u64) -> (rate: Result<Rate, PayoutError>)
        ensures
            match binary64_rate(bits) {
                Some(value) => rate is Ok && rate->Ok_0@ == value,
                None => rate == Err::<Rate, PayoutError>(PayoutError::InputValidationError),
            },
    {
        let sign: u64 = bits / 0x8000_0000_0000_0000;
        let exponent: u64 = (bits / HIDDEN_BIT) % 0x800;
        let significand: u64 = HIDDEN_BIT + bits % HIDDEN_BIT;
        if sign != 0 || exponent < MIN_RATE_EXPONENT || exponent > MAX_RATE_EXPONENT {
            return Err(PayoutError::InputValidationError);
        }
        if exponent >= UNIT_EXPONENT {
            let scale: u128 = Self::power_of_two(exponent - UNIT_EXPONENT);
            proof {
                lemma2_to64();
                if exponent - UNIT_EXPONENT < 11 {
                    lemma_pow2_strictly_increases((exponent - UNIT_EXPONENT) as nat, 11);
                }
                assert(0 < significand * scale <= 0x1F_FFFF_FFFF_FFFF * 0x800) by (nonlinear_arith)
                    requires
                        0 < significand <= 0x1F_FFFF_FFFF_FFFF,
                        0 < scale <= 0x800,
                ;
            }
            let scaled: u128 = (significand as u128) * scale;
            Ok(Rate { numerator: scaled as u64, denominator: 1 })
        } else {
            let scale: u128 = Self::power_of_two(UNIT_EXPONENT - exponent);
            Ok(Rate { numerator: significand, denominator: scale })
        }
    }
}

/// How the cookies are handed out.
#[derive(Debug)]
pub enum PayoutPolicy {
    /// Every ticket earns the same number of cookies.
    FixedRate { rate: Rate },
    /// A pool of `total` cookies is shared in proportion to the tickets.
    Pool { total: u32 },
}

/// The payout mode as it is given on the command line: a rate, as the bit
/// pattern of a binary64 number, or a pool of whole cookies.
#[derive(Debug)]
pub struct PayoutSpecifierArgs {
    pub cookie_rate: Option<u64>,
    pub cookie_pool: Option<i32>,
}

impl PayoutSpecifierArgs {
    /// The policy that the arguments select, where they select one.
    pub open spec fn selected(&self) -> Option<PayoutPolicyView> {
        match (self.cookie_rate, self.cookie_pool) {
            (Some(bits), None) => match binary64_rate(bits) {
                Some(value) => Some(PayoutPolicyView::FixedRate { rate: value }),
                None => None,
            },
            (None, Some(pool)) => if pool > 0 {
                Some(PayoutPolicyView::Pool { total: pool as nat })
            } else {
                None
            },
            _ => None,
        }
    }

    /// The policy that the arguments select. Exactly one mode has to be
    /// given, with a positive value: everything else is refused with
    /// `InputValidationError`.
    pub fn policy(&self) -> (policy: Result<PayoutPolicy, PayoutError>)
        ensures
            match self.selected() {
                Some(wanted) => policy is Ok && policy->Ok_0@ == wanted,
                None => policy == Err::<PayoutPolicy, PayoutError>(
                    PayoutError::InputValidationError,
                ),
            },
    {
        match (self.cookie_rate, self.cookie_pool) {
            (Some(bits), None) => match Rate::from_binary64(bits) {
                Ok(rate) => Ok(PayoutPolicy::FixedRate { rate }),
                Err(_) => Err(PayoutError::InputValidationError),
            },
            (None, Some(pool)) => if pool > 0 {
                Ok(PayoutPolicy::Pool { total: pool as u32 })
            } else {
                Err(PayoutError::InputValidationError)
            },
            _ => Err(PayoutError::InputValidationError),
        }
    }
}

/// A policy as a plain value.
pub enum PayoutPolicyView {
    FixedRate { rate: Ratio },
    Pool { total: nat },
}

impl View for PayoutPolicy {
    type V = PayoutPolicyView;

    open spec fn view(&self) -> PayoutPolicyView {
        match self {
            PayoutPolicy::FixedRate { rate } => PayoutPolicyView::FixedRate { rate: rate@ },
            PayoutPolicy::Pool { total } => PayoutPolicyView::Pool { total: *total as nat },
        }
    }
}

} // verus!
