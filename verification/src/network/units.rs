use vstd::prelude::*;
use vstd::std_specs::convert::FromSpecImpl;
use vstd::std_specs::ops::AddSpecImpl;

verus! {

/// A quantity that is stored as a plain `u32`.
pub trait Metric: Sized {
    spec fn value_of(&self) -> u32;

    fn get_value(&self) -> (v: u32)
        ensures
            v == self.value_of(),
    ;

    fn with_value(v: u32) -> (m: Self)
        ensures
            m.value_of() == v,
    ;
}

//------------------------------------------------------------------------------------------------//
// meters

/// A length in meters.
#[derive(Copy, Clone, Debug, PartialEq, Eq, Structural, PartialOrd, Ord)]
pub struct Meters {
    value: u32,
}

impl Metric for Meters {
    closed spec fn value_of(&self) -> u32 {
        self.value
    }

    fn get_value(&self) -> (v: u32) {
        self.value
    }

    fn with_value(v: u32) -> (m: Meters) {
        Meters { value: v }
    }
}

impl Default for Meters {
    fn default() -> (m: Meters)
        ensures
            m.value_of() == 0,
    {
        Meters { value: 0 }
    }
}

impl Meters {
    pub fn new() -> (m: Meters)
        ensures
            m.value_of() == 0,
    {
        Meters { value: 0 }
    }

    pub fn min() -> (m: Meters)
        ensures
            m.value_of() == u32::MIN,
    {
        Meters { value: u32::MIN }
    }

    pub fn max() -> (m: Meters)
        ensures
            m.value_of() == u32::MAX,
    {
        Meters { value: u32::MAX }
    }

    pub fn value(&self) -> (v: u32)
        ensures
            v == self.value_of(),
    {
        self.value
    }
}

impl From<u32> for Meters {
    fn from(meters: u32) -> (m: Meters) {
        Meters { value: meters }
    }
}

impl FromSpecImpl<u32> for Meters {
    open spec fn obeys_from_spec() -> bool {
        true
    }

    closed spec fn from_spec(v: u32) -> Meters {
        Meters { value: v }
    }
}

impl From<Meters> for u32 {
    fn from(meters: Meters) -> (v: u32) {
        meters.value
    }
}

impl FromSpecImpl<Meters> for u32 {
    open spec fn obeys_from_spec() -> bool {
        true
    }

    closed spec fn from_spec(v: Meters) -> u32 {
        v.value
    }
}

impl std::ops::Add<Meters> for Meters {
    type Output = Meters;

    fn add(self, other: Meters) -> (m: Meters) {
        Meters { value: self.value + other.value }
    }
}

impl AddSpecImpl<Meters> for Meters {
    open spec fn obeys_add_spec() -> bool {
        true
    }

    closed spec fn add_req(self, rhs: Meters) -> bool {
        self.value + rhs.value <= u32::MAX
    }

    closed spec fn add_spec(self, rhs: Meters) -> Meters {
        Meters { value: (self.value + rhs.value) as u32 }
    }
}

//------------------------------------------------------------------------------------------------//
// quantities

/// A metric counted in thousands: it stores the metric's value divided by 1000.
pub struct Kilo<M> {
    metric: M,
}

impl<M: Metric> Kilo<M> {
    /// The stored value (in thousands of the metric).
    pub closed spec fn kilo_value(&self) -> u32 {
        self.metric.value_of()
    }

    /// Stores `1000 * value`.
    pub fn from_u32(value: u32) -> (k: Kilo<M>)
        requires
            1000 * value <= u32::MAX,
        ensures
            k.kilo_value() == 1000 * value,
    {
        Kilo { metric: M::with_value(1000 * value) }
    }

    /// Stores the metric's value divided by 1000 (rounded down).
    pub fn from_metric(metric: M) -> (k: Kilo<M>)
        ensures
            k.kilo_value() == metric.value_of() / 1000,
    {
        let v = metric.get_value();
        Kilo { metric: M::with_value(v / 1000) }
    }

    /// Multiplies the stored value by 1000 again.
    pub fn into_metric(self) -> (m: M)
        requires
            self.kilo_value() * 1000 <= u32::MAX,
        ensures
            m.value_of() == self.kilo_value() * 1000,
    {
        let v = self.metric.get_value();
        M::with_value(v * 1000)
    }
}

/// Counting in thousands and back rounds a metric down to a multiple of 1000.
pub proof fn lemma_kilo_round_trip(v: u32)
    ensures
        (v / 1000) * 1000 <= v,
        v - (v / 1000) * 1000 < 1000,
        (v / 1000) * 1000 <= u32::MAX,
{
}

} // verus!
