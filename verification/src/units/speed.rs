use super::{Metric, MetricU32};
use vstd::prelude::*;
use vstd::std_specs::convert::FromSpecImpl;
use vstd::std_specs::ops::{AddSpecImpl, DivSpecImpl, MulSpecImpl};

verus! {

/// A speed in kilometers per hour.
#[derive(Clone, Copy, Debug, PartialEq, Eq, Structural, PartialOrd, Ord, Hash)]
pub struct KilometersPerHour(pub u32);

impl Metric for KilometersPerHour {
    open spec fn zero_value() -> KilometersPerHour {
        KilometersPerHour(0)
    }

    open spec fn neg_inf_value() -> KilometersPerHour {
        KilometersPerHour(u32::MIN)
    }

    open spec fn inf_value() -> KilometersPerHour {
        KilometersPerHour(u32::MAX)
    }

    fn zero() -> (r: KilometersPerHour)
        ensures
            r.0 == 0,
    {
        KilometersPerHour(0)
    }

    fn neg_inf() -> (r: KilometersPerHour)
        ensures
            r.0 == u32::MIN,
    {
        KilometersPerHour(u32::MIN)
    }

    fn inf() -> (r: KilometersPerHour)
        ensures
            r.0 == u32::MAX,
    {
        KilometersPerHour(u32::MAX)
    }
}

impl KilometersPerHour {
    /// The speed as a metric of the same value.
    pub fn to_metric(self) -> (m: MetricU32)
        ensures
            m.0 == self.0,
    {
        MetricU32(self.0)
    }
}

impl From<u8> for KilometersPerHour {
    fn from(value: u8) -> (r: KilometersPerHour) {
        KilometersPerHour(value as u32)
    }
}

impl FromSpecImpl<u8> for KilometersPerHour {
    open spec fn obeys_from_spec() -> bool {
        true
    }

    open spec fn from_spec(v: u8) -> KilometersPerHour {
        KilometersPerHour(v as u32)
    }
}

impl From<u16> for KilometersPerHour {
    fn from(value: u16) -> (r: KilometersPerHour) {
        KilometersPerHour(value as u32)
    }
}

impl FromSpecImpl<u16> for KilometersPerHour {
    open spec fn obeys_from_spec() -> bool {
        true
    }

    open spec fn from_spec(v: u16) -> KilometersPerHour {
        KilometersPerHour(v as u32)
    }
}

impl From<u32> for KilometersPerHour {
    fn from(value: u32) -> (r: KilometersPerHour) {
        KilometersPerHour(value)
    }
}

impl FromSpecImpl<u32> for KilometersPerHour {
    open spec fn obeys_from_spec() -> bool {
        true
    }

    open spec fn from_spec(v: u32) -> KilometersPerHour {
        KilometersPerHour(v)
    }
}

impl From<MetricU32> for KilometersPerHour {
    fn from(metric: MetricU32) -> (r: KilometersPerHour) {
        KilometersPerHour(metric.0)
    }
}

impl FromSpecImpl<MetricU32> for KilometersPerHour {
    open spec fn obeys_from_spec() -> bool {
        true
    }

    open spec fn from_spec(v: MetricU32) -> KilometersPerHour {
        KilometersPerHour(v.0)
    }
}

//--------------------------------------------------------------------------------------------//
// arithmetic operations

impl std::ops::Add<KilometersPerHour> for KilometersPerHour {
    type Output = KilometersPerHour;

    fn add(self, other: KilometersPerHour) -> (r: KilometersPerHour) {
        KilometersPerHour(self.0 + other.0)
    }
}

impl AddSpecImpl<KilometersPerHour> for KilometersPerHour {
    open spec fn obeys_add_spec() -> bool {
        true
    }

    open spec fn add_req(self, rhs: KilometersPerHour) -> bool {
        self.0 + rhs.0 <= u32::MAX
    }

    open spec fn add_spec(self, rhs: KilometersPerHour) -> KilometersPerHour {
        KilometersPerHour((self.0 + rhs.0) as u32)
    }
}

impl std::ops::Mul<u32> for KilometersPerHour {
    type Output = KilometersPerHour;

    fn mul(self, scale: u32) -> (r: KilometersPerHour) {
        KilometersPerHour(self.0 * scale)
    }
}

impl MulSpecImpl<u32> for KilometersPerHour {
    open spec fn obeys_mul_spec() -> bool {
        true
    }

    open spec fn mul_req(self, rhs: u32) -> bool {
        self.0 * rhs <= u32::MAX
    }

    open spec fn mul_spec(self, rhs: u32) -> KilometersPerHour {
        KilometersPerHour((self.0 * rhs) as u32)
    }
}

impl std::ops::Div<u32> for KilometersPerHour {
    type Output = KilometersPerHour;

    fn div(self, rhs: u32) -> (r: KilometersPerHour) {
        KilometersPerHour(self.0 / rhs)
    }
}

impl DivSpecImpl<u32> for KilometersPerHour {
    open spec fn obeys_div_spec() -> bool {
        true
    }

    open spec fn div_req(self, rhs: u32) -> bool {
        rhs != 0
    }

    open spec fn div_spec(self, rhs: u32) -> KilometersPerHour {
        KilometersPerHour(self.0 / rhs)
    }
}

} // verus!
