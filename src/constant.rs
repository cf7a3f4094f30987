use vstd::prelude::*;

use crate::error::GraphError;

verus! {

/// The largest number of decimal places a constant may carry.
pub const MAX_SCALE: u32 = 18;

/// `10^n`.
pub open spec fn pow10(n: nat) -> int
    decreases n,
{
    if n == 0 {
        1
    } else {
        10 * pow10((n - 1) as nat)
    }
}

/// `mantissa / 10^scale` with trailing zeros of the mantissa removed.
pub open spec fn normalize(mantissa: i64, scale: u32) -> Constant
    decreases scale,
{
    if scale > 0 && mantissa % 10 == 0 {
        normalize((mantissa / 10) as i64, (scale - 1) as u32)
    } else {
        Constant { mantissa, scale }
    }
}

/// What `Constant::new` gives for `mantissa / 10^scale`.
pub open spec fn constant_spec(mantissa: i64, scale: u32) -> Result<Constant, GraphError> {
    if scale > MAX_SCALE || mantissa == i64::MIN {
        Err(GraphError::ConstantOutOfRange)
    } else {
        Ok(normalize(mantissa, scale))
    }
}

/// A numeric constant, held exactly as `mantissa / 10^scale`.
///
/// A well-formed constant is normalised (no trailing zero in the mantissa
/// when it has decimal places), so two well-formed constants are equal
/// exactly when they denote the same number.
#[derive(Clone, Copy, Debug, PartialEq, Eq, Structural)]
pub struct Constant {
    pub mantissa: i64,
    pub scale: u32,
}

impl Constant {
    pub open spec fn wf(self) -> bool {
        &&& self.scale <= MAX_SCALE
        &&& self.mantissa > i64::MIN
        &&& (self.scale == 0 || self.mantissa % 10 != 0)
    }

    /// The integer `k` as a constant.
    pub open spec fn int_spec(k: i64) -> Constant {
        Constant { mantissa: k, scale: 0 }
    }

    /// The negated constant.
    pub open spec fn neg_spec(self) -> Constant {
        Constant { mantissa: -self.mantissa as i64, scale: self.scale }
    }

    /// Whether one can be subtracted without leaving the representable range.
    pub open spec fn can_decrement(self) -> bool {
        self.mantissa - pow10(self.scale as nat) > i64::MIN
    }

    /// The constant minus one.
    pub open spec fn decrement_spec(self) -> Constant {
        Constant { mantissa: (self.mantissa - pow10(self.scale as nat)) as i64, scale: self.scale }
    }

    /// Builds `mantissa / 10^scale`, normalised.
    pub fn new(mantissa: i64, scale: u32) -> (r: Result<Constant, GraphError>)
        ensures
            r == constant_spec(mantissa, scale),
            match r {
                Ok(c) => {
                    &&& c.wf()
                    &&& c.scale <= scale
                    &&& c.mantissa * pow10((scale - c.scale) as nat) == mantissa
                    &&& ((Constant { mantissa, scale }).wf() ==> c == (Constant { mantissa, scale }))
                },
                Err(e) => {
                    &&& e == GraphError::ConstantOutOfRange
                    &&& (scale > MAX_SCALE || mantissa == i64::MIN)
                },
            },
    {
        if scale > MAX_SCALE || mantissa == i64::MIN {
            return Err(GraphError::ConstantOutOfRange);
        }
        let mut m: i64 = mantissa;
        let mut s: u32 = scale;
        while s > 0 && m % 10 == 0
            invariant
                s <= scale,
                scale <= MAX_SCALE,
                m > i64::MIN,
                m * pow10((scale - s) as nat) == mantissa,
                (Constant { mantissa, scale }).wf() ==> m == mantissa && s == scale,
                normalize(m, s) == normalize(mantissa, scale),
            decreases s,
        {
            let ghost old_m = m;
            m = m / 10;
            s = s - 1;
            proof {
                assert(old_m == 10 * m);
                assert(pow10((scale - s) as nat) == 10 * pow10((scale - s - 1) as nat));
                assert(m * pow10((scale - s) as nat) == m * (10 * pow10((scale - s - 1) as nat)));
                assert(m * (10 * pow10((scale - s - 1) as nat)) == (10 * m) * pow10((scale - s - 1) as nat))
                    by (nonlinear_arith);
            }
        }
        Ok(Constant { mantissa: m, scale: s })
    }

    /// The integer `k` as a constant.
    pub fn from_int(k: i64) -> (r: Constant)
        requires
            k > i64::MIN,
        ensures
            r == Constant::int_spec(k),
            r.wf(),
    {
        Constant { mantissa: k, scale: 0 }
    }

    /// Whether this constant is the integer `k`.
    pub fn is_int(&self, k: i64) -> (r: bool)
        ensures
            r == (*self == Constant::int_spec(k)),
    {
        self.mantissa == k && self.scale == 0
    }

    /// The negated constant.
    pub fn neg(&self) -> (r: Constant)
        requires
            self.wf(),
        ensures
            r == self.neg_spec(),
            r.wf(),
    {
        Constant { mantissa: -self.mantissa, scale: self.scale }
    }

    /// The constant minus one, when it is representable.
    pub fn decrement(&self) -> (r: Result<Constant, GraphError>)
        requires
            self.wf(),
        ensures
            match r {
                Ok(c) => self.can_decrement() && c == self.decrement_spec() && c.wf(),
                Err(e) => !self.can_decrement() && e == GraphError::ConstantOutOfRange,
            },
    {
        let p = pow10_exec(self.scale);
        if self.mantissa < i64::MIN + 1 + p {
            return Err(GraphError::ConstantOutOfRange);
        }
        let m = self.mantissa - p;
        proof {
            if self.scale > 0 {
                lemma_pow10_multiple_of_ten(self.scale as nat);
                assert((m as int) % 10 == (self.mantissa as int) % 10);
            }
        }
        Ok(Constant { mantissa: m, scale: self.scale })
    }
}

proof fn lemma_pow10_multiple_of_ten(n: nat)
    requires
        n > 0,
    ensures
        pow10(n) % 10 == 0,
        pow10(n) > 0,
{
    lemma_pow10_positive((n - 1) as nat);
}

pub proof fn lemma_pow10_positive(n: nat)
    ensures
        pow10(n) > 0,
    decreases n,
{
    if n > 0 {
        lemma_pow10_positive((n - 1) as nat);
    }
}

/// `10^n` for the scales a constant may carry.
fn pow10_exec(n: u32) -> (r: i64)
    requires
        n <= MAX_SCALE,
    ensures
        r == pow10(n as nat),
        r > 0,
{
    proof {
        lemma_pow10_positive(n as nat);
    }
    let mut r: i64 = 1;
    let mut i: u32 = 0;
    while i < n
        invariant
            i <= n,
            n <= MAX_SCALE,
            r == pow10(i as nat),
        decreases n - i,
    {
        proof {
            lemma_pow10_positive(i as nat);
            lemma_pow10_monotone((i + 1) as nat, MAX_SCALE as nat);
            reveal_with_fuel(pow10, 19);
            assert(pow10(MAX_SCALE as nat) == 1000000000000000000);
        }
        r = r * 10;
        i = i + 1;
    }
    r
}

pub proof fn lemma_pow10_monotone(i: nat, j: nat)
    requires
        i <= j,
    ensures
        pow10(i) <= pow10(j),
    decreases j - i,
{
    if i < j {
        lemma_pow10_monotone(i, (j - 1) as nat);
        lemma_pow10_positive((j - 1) as nat);
    }
}

} // verus!
