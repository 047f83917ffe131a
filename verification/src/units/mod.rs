pub mod primitives;
pub mod speed;

pub use primitives::MetricU32;

use vstd::prelude::*;

verus! {

/// Values of a metric (a cost of an edge or a path) with a neutral element and bounds.
pub trait Metric: Sized + Copy {
    /// The neutral element.
    spec fn zero_value() -> Self;

    /// The lowest value.
    spec fn neg_inf_value() -> Self;

    /// The highest value.
    spec fn inf_value() -> Self;

    fn zero() -> (r: Self)
        ensures
            r == Self::zero_value(),
    ;

    fn neg_inf() -> (r: Self)
        ensures
            r == Self::neg_inf_value(),
    ;

    fn inf() -> (r: Self)
        ensures
            r == Self::inf_value(),
    ;
}

/// Two metrics, which are compared pareto-wise.
#[derive(Clone, Copy, Debug)]
pub struct Metric2D<M0, M1> {
    m0: M0,
    m1: M1,
}

impl<M0: Metric, M1: Metric> Metric2D<M0, M1> {
    pub closed spec fn first(&self) -> M0 {
        self.m0
    }

    pub closed spec fn second(&self) -> M1 {
        self.m1
    }

    pub fn _new(m0: M0, m1: M1) -> (r: Metric2D<M0, M1>)
        ensures
            r.first() == m0,
            r.second() == m1,
    {
        Metric2D { m0, m1 }
    }
}

impl<M0: Metric, M1: Metric> Metric for Metric2D<M0, M1> {
    /// Both components at their zero.
    closed spec fn zero_value() -> Metric2D<M0, M1> {
        Metric2D { m0: M0::zero_value(), m1: M1::zero_value() }
    }

    /// Like the zero: both components at their zero.
    closed spec fn neg_inf_value() -> Metric2D<M0, M1> {
        Metric2D { m0: M0::zero_value(), m1: M1::zero_value() }
    }

    /// Both components at their highest value.
    closed spec fn inf_value() -> Metric2D<M0, M1> {
        Metric2D { m0: M0::inf_value(), m1: M1::inf_value() }
    }

    fn zero() -> (r: Metric2D<M0, M1>)
        ensures
            r.first() == M0::zero_value(),
            r.second() == M1::zero_value(),
    {
        Metric2D { m0: M0::zero(), m1: M1::zero() }
    }

    /// Like `zero`: both components are set to their zero.
    fn neg_inf() -> (r: Metric2D<M0, M1>)
        ensures
            r.first() == M0::zero_value(),
            r.second() == M1::zero_value(),
    {
        Metric2D { m0: M0::zero(), m1: M1::zero() }
    }

    fn inf() -> (r: Metric2D<M0, M1>)
        ensures
            r.first() == M0::inf_value(),
            r.second() == M1::inf_value(),
    {
        Metric2D { m0: M0::inf(), m1: M1::inf() }
    }
}

/// The sign of `a - b`.
pub open spec fn sign(a: int, b: int) -> int {
    if a < b {
        -1
    } else if a == b {
        0
    } else {
        1
    }
}

/// Pareto-comparison of two 2-dimensional metrics: the sum of the signs of the
/// component-wise comparisons, compared to zero.
pub open spec fn pareto_sign(a0: int, a1: int, b0: int, b1: int) -> int {
    sign(sign(a0, b0) + sign(a1, b1), 0)
}

impl Metric2D<MetricU32, MetricU32> {
    /// Compares pareto-wise: `-1` (less), `0` (pareto-equal) or `1` (greater), from the sum of
    /// the signs of both component-comparisons.
    pub fn pareto_order(&self, other: &Metric2D<MetricU32, MetricU32>) -> (r: i8)
        ensures
            r == pareto_sign(
                self.first().0 as int,
                self.second().0 as int,
                other.first().0 as int,
                other.second().0 as int,
            ),
    {
        let first: i8 = if self.m0.0 < other.m0.0 {
            -1
        } else if self.m0.0 == other.m0.0 {
            0
        } else {
            1
        };
        let second: i8 = if self.m1.0 < other.m1.0 {
            -1
        } else if self.m1.0 == other.m1.0 {
            0
        } else {
            1
        };
        let sum: i8 = first + second;
        if sum < 0 {
            -1
        } else if sum == 0 {
            0
        } else {
            1
        }
    }

    /// Both components are equal.
    pub fn is_equal(&self, other: &Metric2D<MetricU32, MetricU32>) -> (r: bool)
        ensures
            r == (self.first() == other.first() && self.second() == other.second()),
    {
        self.m0.0 == other.m0.0 && self.m1.0 == other.m1.0
    }
}


/// Pareto-comparison is antisymmetric: swapping both metrics negates the order.
pub proof fn lemma_pareto_antisymmetric(a0: int, a1: int, b0: int, b1: int)
    ensures
        pareto_sign(a0, a1, b0, b1) == -pareto_sign(b0, b1, a0, a1),
        pareto_sign(a0, a1, a0, a1) == 0,
{
}

} // verus!
