use crate::helpers::parse::{parse_signed, signed_value, ParseNumberError};
use crate::helpers::text::chars_of;
use vstd::prelude::*;

verus! {

/// The value of a text holding an `i64`.
pub open spec fn i64_of(s: Seq<char>) -> Option<i64> {
    match signed_value(s) {
        Some(v) => if i64::MIN <= v <= i64::MAX {
            Some(v as i64)
        } else {
            None
        },
        None => None,
    }
}

/// The id of a node, as given by the map-data.
#[derive(Debug, Copy, Clone, PartialEq, Eq, Structural, PartialOrd, Ord)]
pub struct NodeId(pub i64);

impl NodeId {
    /// Parses a decimal `i64`.
    pub fn parse(s: &str) -> (r: Result<NodeId, ParseNumberError>)
        ensures
            match i64_of(s@) {
                Some(v) => r == Ok::<NodeId, ParseNumberError>(NodeId(v)),
                None => r is Err,
            },
    {
        let chars = chars_of(s);
        match parse_signed(chars.as_slice()) {
            Some(v) => Ok(NodeId(v)),
            None => Err(ParseNumberError),
        }
    }
}

impl std::str::FromStr for NodeId {
    type Err = ParseNumberError;

    fn from_str(s: &str) -> (r: Result<NodeId, ParseNumberError>)
        ensures
            match i64_of(s@) {
                Some(v) => r == Ok::<NodeId, ParseNumberError>(NodeId(v)),
                None => r is Err,
            },
    {
        NodeId::parse(s)
    }
}

/// The id of an edge, as given by the map-data.
#[derive(Debug, Copy, Clone, PartialEq, Eq, Structural, PartialOrd, Ord)]
pub struct EdgeId(pub i64);

impl EdgeId {
    /// Parses a decimal `i64`.
    pub fn parse(s: &str) -> (r: Result<EdgeId, ParseNumberError>)
        ensures
            match i64_of(s@) {
                Some(v) => r == Ok::<EdgeId, ParseNumberError>(EdgeId(v)),
                None => r is Err,
            },
    {
        let chars = chars_of(s);
        match parse_signed(chars.as_slice()) {
            Some(v) => Ok(EdgeId(v)),
            None => Err(ParseNumberError),
        }
    }
}

impl std::str::FromStr for EdgeId {
    type Err = ParseNumberError;

    fn from_str(s: &str) -> (r: Result<EdgeId, ParseNumberError>)
        ensures
            match i64_of(s@) {
                Some(v) => r == Ok::<EdgeId, ParseNumberError>(EdgeId(v)),
                None => r is Err,
            },
    {
        EdgeId::parse(s)
    }
}

} // verus!
