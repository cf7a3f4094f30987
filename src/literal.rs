use vstd::prelude::*;

use crate::constant::{Constant, MAX_SCALE, constant_spec, pow10};
use crate::error::GraphError;

verus! {

/// Whether `c` is an ASCII decimal digit.
pub open spec fn is_digit(c: u8) -> bool {
    48 <= c <= 57
}

/// The end of the run of digits of `b` that starts at `i`.
pub open spec fn digits_end(b: Seq<u8>, i: int) -> int
    decreases b.len() - i,
{
    if i < 0 || i >= b.len() || !is_digit(b[i]) {
        i
    } else {
        digits_end(b, i + 1)
    }
}

/// The number that the digits `b[i..j]` write.
pub open spec fn digits_value(b: Seq<u8>, i: int, j: int) -> int
    decreases j - i,
{
    if j <= i {
        0
    } else {
        10 * digits_value(b, i, j - 1) + (b[j - 1] - 48)
    }
}

/// How a decimal literal `digits[.digits][(e|E)[+|-]digits]` is laid out:
/// the end of its integer digits, the bounds of its fraction digits, whether
/// its exponent is negative, and where the exponent digits start (they run
/// to the end).
pub open spec fn literal_layout(b: Seq<u8>) -> Option<(int, int, int, bool, int)> {
    let i = digits_end(b, 0);
    if i == 0 {
        None
    } else {
        let f0 = if i < b.len() && b[i] == 46 {
            i + 1
        } else {
            i
        };
        let f1 = digits_end(b, f0);
        if f1 == b.len() {
            Some((i, f0, f1, false, b.len() as int))
        } else if b[f1] == 101 || b[f1] == 69 {
            let signed = f1 + 1 < b.len() && (b[f1 + 1] == 45 || b[f1 + 1] == 43);
            let negative = f1 + 1 < b.len() && b[f1 + 1] == 45;
            let e0 = if signed {
                f1 + 2
            } else {
                f1 + 1
            };
            if e0 < b.len() && digits_end(b, e0) == b.len() {
                Some((i, f0, f1, negative, e0))
            } else {
                None
            }
        } else {
            None
        }
    }
}

/// The largest number of exponent digits read.
pub const MAX_EXPONENT_DIGITS: usize = 4;

/// The constant that the decimal literal `b` writes.
pub open spec fn decimal_spec(b: Seq<u8>) -> Result<Constant, GraphError> {
    match literal_layout(b) {
        None => Err(GraphError::InvalidLiteral),
        Some(layout) => {
            let (i, f0, f1, negative, e0) = layout;
            if b.len() - e0 > MAX_EXPONENT_DIGITS {
                Err(GraphError::ConstantOutOfRange)
            } else {
                let e = digits_value(b, e0, b.len() as int);
                let exponent = if negative {
                    -e
                } else {
                    e
                };
                let ds = b.subrange(0, i) + b.subrange(f0, f1);
                let m = digits_value(ds, 0, ds.len() as int);
                let scale = (f1 - f0) - exponent;
                if m > i64::MAX {
                    Err(GraphError::ConstantOutOfRange)
                } else if scale < 0 {
                    let m2 = m * pow10((-scale) as nat);
                    if m2 > i64::MAX {
                        Err(GraphError::ConstantOutOfRange)
                    } else {
                        constant_spec(m2 as i64, 0)
                    }
                } else if scale > MAX_SCALE {
                    Err(GraphError::ConstantOutOfRange)
                } else {
                    constant_spec(m as i64, scale as u32)
                }
            }
        },
    }
}

proof fn lemma_digits_value_nonneg(b: Seq<u8>, i: int, j: int)
    requires
        forall|k: int| i <= k < j ==> is_digit(#[trigger] b[k]),
    ensures
        digits_value(b, i, j) >= 0,
    decreases j - i,
{
    if j > i {
        lemma_digits_value_nonneg(b, i, j - 1);
    }
}

proof fn lemma_digits_value_grows(b: Seq<u8>, j: int, k: int)
    requires
        0 <= j <= k <= b.len(),
        forall|q: int| 0 <= q < b.len() ==> is_digit(#[trigger] b[q]),
    ensures
        digits_value(b, 0, j) <= digits_value(b, 0, k),
    decreases k - j,
{
    if j < k {
        lemma_digits_value_grows(b, j, k - 1);
        lemma_digits_value_nonneg(b, 0, k - 1);
    }
}

proof fn lemma_digits_end(b: Seq<u8>, i: int)
    requires
        0 <= i <= b.len(),
    ensures
        i <= digits_end(b, i) <= b.len(),
        forall|k: int| i <= k < digits_end(b, i) ==> is_digit(#[trigger] b[k]),
        digits_end(b, i) < b.len() ==> !is_digit(b[digits_end(b, i)]),
    decreases b.len() - i,
{
    if i < b.len() && is_digit(b[i]) {
        lemma_digits_end(b, i + 1);
    }
}

proof fn lemma_digits_value_shift(a: Seq<u8>, b: Seq<u8>, i: int, j: int, d: int)
    requires
        0 <= i <= j,
        j <= a.len(),
        forall|k: int| i <= k < j ==> a[k] == b[k + d],
    ensures
        digits_value(a, i, j) == digits_value(b, i + d, j + d),
    decreases j - i,
{
    if j > i {
        lemma_digits_value_shift(a, b, i, j - 1, d);
    }
}

/// The end of the run of digits of `b` that starts at `i`.
fn find_digits_end(b: &[u8], i: usize) -> (r: usize)
    requires
        i <= b@.len(),
    ensures
        r == digits_end(b@, i as int),
{
    let mut k = i;
    while k < b.len() && b[k] >= 48 && b[k] <= 57
        invariant
            i <= k <= b@.len(),
            digits_end(b@, i as int) == digits_end(b@, k as int),
        decreases b@.len() - k,
    {
        k = k + 1;
    }
    k
}

impl Constant {
    /// The constant that a decimal literal such as `2.5`, `1e-3` or `31415e-4`
    /// writes, exactly.
    pub fn from_decimal(b: &[u8]) -> (r: Result<Constant, GraphError>)
        ensures
            r == decimal_spec(b@),
    {
        let n = b.len();
        let i = find_digits_end(b, 0);
        if i == 0 {
            return Err(GraphError::InvalidLiteral);
        }
        let f0 = if i < n && b[i] == 46 {
            i + 1
        } else {
            i
        };
        proof {
            lemma_digits_end(b@, 0);
        }
        let f1 = find_digits_end(b, f0);
        proof {
            lemma_digits_end(b@, f0 as int);
        }
        let mut negative = false;
        let mut e0 = n;
        if f1 < n {
            if b[f1] != 101 && b[f1] != 69 {
                return Err(GraphError::InvalidLiteral);
            }
            let signed = f1 + 1 < n && (b[f1 + 1] == 45 || b[f1 + 1] == 43);
            negative = f1 + 1 < n && b[f1 + 1] == 45;
            e0 = if signed {
                f1 + 2
            } else {
                f1 + 1
            };
            if e0 >= n || find_digits_end(b, e0) != n {
                return Err(GraphError::InvalidLiteral);
            }
            proof {
                lemma_digits_end(b@, e0 as int);
            }
        }
        let ghost layout = (i as int, f0 as int, f1 as int, negative, e0 as int);
        assert(literal_layout(b@) == Some(layout));
        if n - e0 > MAX_EXPONENT_DIGITS {
            return Err(GraphError::ConstantOutOfRange);
        }
        // The exponent: at most four digits.
        let mut e: i64 = 0;
        let mut k = e0;
        while k < n
            invariant
                e0 <= k <= n,
                n == b@.len(),
                n - e0 <= MAX_EXPONENT_DIGITS,
                forall|q: int| e0 <= q < n ==> is_digit(#[trigger] b@[q]),
                e == digits_value(b@, e0 as int, k as int),
                0 <= e < pow10((k - e0) as nat),
            decreases n - k,
        {
            proof {
                assert(is_digit(b@[k as int]));
                crate::constant::lemma_pow10_monotone((k - e0) as nat, 3);
                reveal_with_fuel(pow10, 5);
            }
            e = e * 10 + (b[k] - 48) as i64;
            k = k + 1;
        }
        proof {
            crate::constant::lemma_pow10_monotone((n - e0) as nat, 4);
            reveal_with_fuel(pow10, 5);
        }
        assert(e < 10000);
        let exponent: i64 = if negative {
            -e
        } else {
            e
        };
        // The digits of the integer part and of the fraction, as one mantissa.
        let ghost ds = b@.subrange(0, i as int) + b@.subrange(f0 as int, f1 as int);
        proof {
            assert forall|q: int| 0 <= q < ds.len() implies is_digit(#[trigger] ds[q]) by {
                if q < i {
                    assert(ds[q] == b@[q]);
                } else {
                    assert(ds[q] == b@[q - i + f0]);
                }
            }
        }
        let mut m: i64 = 0;
        let mut q: usize = 0;
        let total = i + (f1 - f0);
        while q < total
            invariant
                total == ds.len(),
                ds == b@.subrange(0, i as int) + b@.subrange(f0 as int, f1 as int),
                i <= f0 <= f1 <= b@.len(),
                q <= total,
                forall|p: int| 0 <= p < ds.len() ==> is_digit(#[trigger] ds[p]),
                m == digits_value(ds, 0, q as int),
                m >= 0,
                n == b@.len(),
                literal_layout(b@) == Some((i as int, f0 as int, f1 as int, negative, e0 as int)),
                n - e0 <= MAX_EXPONENT_DIGITS,
            decreases total - q,
        {
            let c = if q < i {
                b[q]
            } else {
                b[f0 + (q - i)]
            };
            assert(c == ds[q as int]);
            assert(is_digit(ds[q as int]));
            let d = (c - 48) as i64;
            if m > (i64::MAX - d) / 10 {
                proof {
                    lemma_digits_value_grows(ds, (q + 1) as int, ds.len() as int);
                    assert(10 * m + d > i64::MAX) by (nonlinear_arith)
                        requires
                            m > (i64::MAX - d) / 10,
                            0 <= d <= 9,
                    ;
                    assert(digits_value(ds, 0, (q + 1) as int) == 10 * m + d);
                }
                return Err(GraphError::ConstantOutOfRange);
            }
            proof {
                assert(10 * m + d <= i64::MAX) by (nonlinear_arith)
                    requires
                        m <= (i64::MAX - d) / 10,
                        0 <= d <= 9,
                ;
            }
            m = m * 10 + d;
            q = q + 1;
        }
        let frac: i128 = (f1 - f0) as i128;
        let scale: i128 = frac - exponent as i128;
        if scale < 0 {
            let mut m2: i64 = m;
            let mut z: i128 = 0;
            while z < -scale
                invariant
                    scale < 0,
                    scale >= -10000,
                    0 <= z <= -scale,
                    m >= 0,
                    m2 == m * pow10(z as nat),
                    n == b@.len(),
                    literal_layout(b@) == Some((i as int, f0 as int, f1 as int, negative, e0 as int)),
                    n - e0 <= MAX_EXPONENT_DIGITS,
                    m == digits_value(ds, 0, ds.len() as int),
                    ds == b@.subrange(0, i as int) + b@.subrange(f0 as int, f1 as int),
                    e == digits_value(b@, e0 as int, n as int),
                    exponent == (if negative { -e } else { e as int }),
                    scale == (f1 - f0) - exponent,
                decreases -scale - z,
            {
                proof {
                    crate::constant::lemma_pow10_positive(z as nat);
                    assert(m * pow10((z + 1) as nat) == (m * pow10(z as nat)) * 10) by (nonlinear_arith)
                        requires
                            pow10((z + 1) as nat) == 10 * pow10(z as nat),
                    ;
                }
                if m2 > i64::MAX / 10 {
                    proof {
                        lemma_scaled_grows(m as int, (z + 1) as nat, (-scale) as nat);
                        assert(m2 * 10 > i64::MAX) by (nonlinear_arith)
                            requires
                                m2 > i64::MAX / 10,
                        ;
                    }
                    return Err(GraphError::ConstantOutOfRange);
                }
                m2 = m2 * 10;
                z = z + 1;
            }
            Constant::new(m2, 0)
        } else if scale > MAX_SCALE as i128 {
            Err(GraphError::ConstantOutOfRange)
        } else {
            Constant::new(m, scale as u32)
        }
    }
}

proof fn lemma_scaled_grows(m: int, a: nat, b: nat)
    requires
        m >= 0,
        a <= b,
    ensures
        m * pow10(a) <= m * pow10(b),
{
    crate::constant::lemma_pow10_monotone(a, b);
    assert(m * pow10(a) <= m * pow10(b)) by (nonlinear_arith)
        requires
            m >= 0,
            pow10(a) <= pow10(b),
    ;
}

} // verus!
