use vstd::prelude::*;

verus! {

/// Parameters of a drill.
#[derive(Debug, Clone, Copy)]
pub struct Config {
    /// Fewest digits of a term.
    pub min_digit: u32,
    /// Most digits of a term.
    pub max_digit: u32,
    /// Number of terms.
    pub length: u32,
    /// Number of terms that are subtracted.
    pub subtractions: u32,
    /// Whether the running total may go below zero.
    pub allow_negative: bool,
}

/// The name under which the configuration was first published.
pub type YomiageConfig = Config;

impl Config {
    /// Why the configuration is rejected: the first rule it breaks, if any.
    pub open spec fn rejection(self) -> Option<Seq<char>> {
        if self.min_digit < 1 {
            Some("minimum digit-length must be at least 1"@)
        } else if self.max_digit < self.min_digit {
            Some("maximum digit-length must not be less than minimum"@)
        } else if self.length < 1 {
            Some("length must be at least 1"@)
        } else if !self.allow_negative && self.subtractions > self.length / 2 {
            Some("too many subtractions for a non-negative-answer problem"@)
        } else if self.subtractions >= self.length {
            Some("subtraction count must be less than total term count"@)
        } else {
            None
        }
    }

    pub open spec fn is_valid(self) -> bool {
        self.rejection() is None
    }

    /// The largest term and the sum of all terms fit in an `i128`.
    pub open spec fn fits_i128(self) -> bool {
        &&& self.max_digit <= crate::digits::MAX_DIGITS
        &&& (crate::digits::pow10(self.max_digit as nat) - 1) * self.length <= i128::MAX
    }

    /// Checks the configuration; on failure, says which rule it breaks.
    pub fn check(&self) -> (r: Result<(), String>)
        ensures
            r is Ok <==> self.is_valid(),
            r matches Err(e) ==> self.rejection() == Some(e@),
    {
        if self.min_digit < 1 {
            return Err(String::from_str("minimum digit-length must be at least 1"));
        }
        if self.max_digit < self.min_digit {
            return Err(String::from_str("maximum digit-length must not be less than minimum"));
        }
        if self.length < 1 {
            return Err(String::from_str("length must be at least 1"));
        }
        if !self.allow_negative && self.subtractions > self.length / 2 {
            return Err(
                String::from_str("too many subtractions for a non-negative-answer problem"),
            );
        }
        if self.subtractions >= self.length {
            return Err(String::from_str("subtraction count must be less than total term count"));
        }
        Ok(())
    }

    /// Whether terms of `max_digit` digits, and the sum of `length` of them,
    /// are sure to fit in an `i128`.
    pub fn fits_in_i128(&self) -> (r: bool)
        ensures
            r == self.fits_i128(),
    {
        if self.max_digit > crate::digits::MAX_DIGITS {
            return false;
        }
        let mut p: u128 = 1;
        let mut k: u32 = 0;
        while k < self.max_digit
            invariant
                k <= self.max_digit <= crate::digits::MAX_DIGITS,
                p == crate::digits::pow10(k as nat),
            decreases self.max_digit - k,
        {
            proof {
                crate::digits::lemma_pow10_fits_i128((k + 1) as nat);
            }
            p = p * 10;
            k = k + 1;
        }
        proof {
            crate::digits::lemma_pow10_positive(k as nat);
        }
        match (p - 1).checked_mul(self.length as u128) {
            Some(m) => m <= i128::MAX as u128,
            None => false,
        }
    }
}

/// Each rule of the validator, on its own, rejects a configuration.
pub proof fn lemma_rejected_configs(c: Config)
    ensures
        c.min_digit == 0 ==> !c.is_valid(),
        c.max_digit < c.min_digit ==> !c.is_valid(),
        c.length == 0 ==> !c.is_valid(),
        c.subtractions >= c.length ==> !c.is_valid(),
        !c.allow_negative && c.subtractions > c.length / 2 ==> !c.is_valid(),
{
}

} // verus!
