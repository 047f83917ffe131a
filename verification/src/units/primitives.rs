use super::Metric;
use vstd::prelude::*;
use vstd::std_specs::convert::FromSpecImpl;
use vstd::std_specs::ops::{AddSpecImpl, DivSpecImpl, MulSpecImpl};

verus! {

/// A metric of unsigned 32-bit values.
#[derive(Clone, Copy, Debug, PartialEq, Eq, Structural, PartialOrd, Ord, Hash)]
pub struct MetricU32(pub u32);

impl Metric for MetricU32 {
    open spec fn zero_value() -> MetricU32 {
        MetricU32(0)
    }

    open spec fn neg_inf_value() -> MetricU32 {
        MetricU32(u32::MIN)
    }

    open spec fn inf_value() -> MetricU32 {
        MetricU32(u32::MAX)
    }

    fn zero() -> (r: MetricU32)
        ensures
            r.0 == 0,
    {
        MetricU32(0)
    }

    fn neg_inf() -> (r: MetricU32)
        ensures
            r.0 == u32::MIN,
    {
        MetricU32(u32::MIN)
    }

    fn inf() -> (r: MetricU32)
        ensures
            r.0 == u32::MAX,
    {
        MetricU32(u32::MAX)
    }
}

impl MetricU32 {
    pub fn is_zero(&self) -> (r: bool)
        ensures
            r == (self.0 == 0),
    {
        self.0 == 0
    }

    pub fn is_not_zero(&self) -> (r: bool)
        ensures
            r == (self.0 != 0),
    {
        self.0 != 0
    }
}

impl From<u8> for MetricU32 {
    fn from(value: u8) -> (r: MetricU32) {
        MetricU32(value as u32)
    }
}

impl FromSpecImpl<u8> for MetricU32 {
    open spec fn obeys_from_spec() -> bool {
        true
    }

    open spec fn from_spec(v: u8) -> MetricU32 {
        MetricU32(v as u32)
    }
}

impl From<u16> for MetricU32 {
    fn from(value: u16) -> (r: MetricU32) {
        MetricU32(value as u32)
    }
}

impl FromSpecImpl<u16> for MetricU32 {
    open spec fn obeys_from_spec() -> bool {
        true
    }

    open spec fn from_spec(v: u16) -> MetricU32 {
        MetricU32(v as u32)
    }
}

impl From<u32> for MetricU32 {
    fn from(value: u32) -> (r: MetricU32) {
        MetricU32(value)
    }
}

impl FromSpecImpl<u32> for MetricU32 {
    open spec fn obeys_from_spec() -> bool {
        true
    }

    open spec fn from_spec(v: u32) -> MetricU32 {
        MetricU32(v)
    }
}

//--------------------------------------------------------------------------------------------//
// arithmetic operations

impl std::ops::Add<MetricU32> for MetricU32 {
    type Output = MetricU32;

    fn add(self, other: MetricU32) -> (r: MetricU32) {
        MetricU32(self.0 + other.0)
    }
}

impl AddSpecImpl<MetricU32> for MetricU32 {
    open spec fn obeys_add_spec() -> bool {
        true
    }

    open spec fn add_req(self, rhs: MetricU32) -> bool {
        self.0 + rhs.0 <= u32::MAX
    }

    open spec fn add_spec(self, rhs: MetricU32) -> MetricU32 {
        MetricU32((self.0 + rhs.0) as u32)
    }
}

impl std::ops::Mul<u32> for MetricU32 {
    type Output = MetricU32;

    fn mul(self, scale: u32) -> (r: MetricU32) {
        MetricU32(self.0 * scale)
    }
}

impl MulSpecImpl<u32> for MetricU32 {
    open spec fn obeys_mul_spec() -> bool {
        true
    }

    open spec fn mul_req(self, rhs: u32) -> bool {
        self.0 * rhs <= u32::MAX
    }

    open spec fn mul_spec(self, rhs: u32) -> MetricU32 {
        MetricU32((self.0 * rhs) as u32)
    }
}

impl std::ops::Div<u32> for MetricU32 {
    type Output = MetricU32;

    fn div(self, rhs: u32) -> (r: MetricU32) {
        MetricU32(self.0 / rhs)
    }
}

impl DivSpecImpl<u32> for MetricU32 {
    open spec fn obeys_div_spec() -> bool {
        true
    }

    open spec fn div_req(self, rhs: u32) -> bool {
        rhs != 0
    }

    open spec fn div_spec(self, rhs: u32) -> MetricU32 {
        MetricU32(self.0 / rhs)
    }
}

} // verus!
