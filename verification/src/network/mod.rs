pub mod building;
pub mod geo;
pub mod graph;
pub mod routes;
pub mod units;

pub use graph::{EdgeIdx, MetricIdx, NodeIdx};

use vstd::prelude::*;

verus! {

/// The categories of streets (the values of a highway-tag), by descending priority.
#[derive(Copy, Clone, Debug, PartialEq, Eq, Structural)]
pub enum StreetCategory {
    Motorway,
    MotorwayLink,
    Trunk,
    TrunkLink,
    Primary,
    PrimaryLink,
    Secondary,
    SecondaryLink,
    Tertiary,
    TertiaryLink,
    Unclassified,
    Residential,
    LivingStreet,
    Service,
    Track,
    Road,
    Cycleway,
    Pedestrian,
    Path,
}

/// The kinds of road-users a route is computed for.
#[derive(Copy, Clone, Debug, PartialEq, Eq, Structural)]
pub enum VehicleCategory {
    Car,
    Bicycle,
    Pedestrian,
}

} // verus!
