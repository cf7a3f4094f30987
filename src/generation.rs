use vstd::prelude::*;

use crate::constant::Constant;

verus! {

/// A distribution over finitely many outcomes.
#[derive(Debug)]
pub struct Discrete {
    pub outcomes: Vec<Constant>,
    pub probabilities: Vec<Constant>,
}

/// The uniform distribution on `[lower, upper]`.
#[derive(Debug, Clone, Copy)]
pub struct Uniform {
    pub lower: Constant,
    pub upper: Constant,
}

/// The exponential distribution with the given decay, truncated to `[lower, upper]`.
#[derive(Debug, Clone, Copy)]
pub struct Exponential {
    pub decay: Constant,
    pub lower: Constant,
    pub upper: Constant,
}

/// The normal distribution, truncated to `[lower, upper]`.
#[derive(Debug, Clone, Copy)]
pub struct Gaussian {
    pub mean: Constant,
    pub std: Constant,
    pub lower: Constant,
    pub upper: Constant,
}

/// The distributions from which data can be generated.
#[derive(Debug)]
pub enum Distribution {
    Discrete(Discrete),
    Uniform(Uniform),
    Exponential(Exponential),
    Gaussian(Gaussian),
}

} // verus!
