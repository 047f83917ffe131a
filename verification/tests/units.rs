use osmgraphing::network::graph::indexing::{EdgeIdxIterator, NodeIdxIterator};
use osmgraphing::network::units::{Kilo, Meters};
use osmgraphing::network::{EdgeIdx, MetricIdx, NodeIdx};
use osmgraphing::units::speed::KilometersPerHour;
use osmgraphing::units::{Metric, Metric2D, MetricU32};

#[test]
fn metric_arithmetic() {
    assert_eq!(MetricU32(3) + MetricU32(4), MetricU32(7));
    assert_eq!(MetricU32(3) * 4, MetricU32(12));
    assert_eq!(MetricU32(13) / 4, MetricU32(3));
    assert_eq!(MetricU32::from(200u8), MetricU32(200));
    assert_eq!(MetricU32::from(60000u16), MetricU32(60000));
    assert!(MetricU32(0).is_zero() && !MetricU32(0).is_not_zero());
    assert!(MetricU32(1).is_not_zero());
    assert_eq!(MetricU32::zero(), MetricU32(0));
    assert_eq!(MetricU32::inf(), MetricU32(u32::MAX));
}

#[test]
fn speeds() {
    assert_eq!(KilometersPerHour(30) + KilometersPerHour(20), KilometersPerHour(50));
    assert_eq!(KilometersPerHour::from(MetricU32(80)), KilometersPerHour(80));
    assert_eq!(KilometersPerHour(70).to_metric(), MetricU32(70));
}

#[test]
fn pareto_order_of_two_metrics() {
    let a = Metric2D::_new(MetricU32(1), MetricU32(5));
    let b = Metric2D::_new(MetricU32(2), MetricU32(5));
    let c = Metric2D::_new(MetricU32(0), MetricU32(9));
    assert_eq!(a.pareto_order(&b), -1);
    assert_eq!(b.pareto_order(&a), 1);
    assert_eq!(a.pareto_order(&c), 0);
    assert_eq!(c.pareto_order(&a), 0);
    assert_eq!(a.pareto_order(&a), 0);
    assert!(a.is_equal(&Metric2D::_new(MetricU32(1), MetricU32(5))));
    assert!(!a.is_equal(&b));
}

#[test]
fn meters_and_kilometers() {
    assert_eq!(Meters::new().value(), 0);
    assert_eq!(Meters::max().value(), u32::MAX);
    assert_eq!((Meters::from(3) + Meters::from(4)).value(), 7);
    assert_eq!(u32::from(Meters::from(9)), 9);
    assert_eq!(Kilo::<Meters>::from_u32(3).into_metric().value(), 3_000_000);
    assert_eq!(Kilo::from_metric(Meters::from(4_999)).into_metric().value(), 4_000);
    assert_eq!(Kilo::from_metric(Meters::from(999)).into_metric().value(), 0);
}

#[test]
fn indices() {
    assert_eq!(NodeIdx::new(4).to_usize(), 4);
    assert_eq!(NodeIdx::zero(), NodeIdx(0));
    assert_eq!(EdgeIdx::new(2).to_usize(), 2);
    assert_eq!(EdgeIdx::zero(), EdgeIdx(0));
    assert_eq!(MetricIdx::new(1).to_usize(), 1);
}

#[test]
fn index_iterators() {
    let mut it = NodeIdxIterator::from_range(2, 5);
    let mut seen = Vec::new();
    while let Some(idx) = it.next() {
        seen.push(idx);
    }
    assert_eq!(seen, vec![NodeIdx(2), NodeIdx(3), NodeIdx(4)]);
    let mut it = EdgeIdxIterator::from_range(3, 1);
    assert_eq!(it.next(), None);
}
