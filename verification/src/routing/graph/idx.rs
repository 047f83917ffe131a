use crate::helpers::parse::{parse_unsigned, unsigned_value, ParseNumberError};
use crate::helpers::text::chars_of;
use vstd::prelude::*;

verus! {

/// The value of a text holding a `usize`.
pub open spec fn usize_of(s: Seq<char>) -> Option<usize> {
    match unsigned_value(s) {
        Some(v) => if v <= usize::MAX {
            Some(v as usize)
        } else {
            None
        },
        None => None,
    }
}

fn parse_usize(s: &str) -> (r: Option<usize>)
    ensures
        r == usize_of(s@),
{
    let chars = chars_of(s);
    match parse_unsigned(chars.as_slice(), usize::MAX as u64) {
        Some(v) => Some(v as usize),
        None => None,
    }
}

/// The index of a node in the graph's node-array.
#[derive(Debug, Copy, Clone, PartialEq, Eq, Structural, PartialOrd, Ord)]
pub struct NodeIdx(pub usize);

impl NodeIdx {
    /// Parses a decimal `usize`.
    pub fn parse(s: &str) -> (r: Result<NodeIdx, ParseNumberError>)
        ensures
            match usize_of(s@) {
                Some(v) => r == Ok::<NodeIdx, ParseNumberError>(NodeIdx(v)),
                None => r is Err,
            },
    {
        match parse_usize(s) {
            Some(v) => Ok(NodeIdx(v)),
            None => Err(ParseNumberError),
        }
    }
}

impl std::str::FromStr for NodeIdx {
    type Err = ParseNumberError;

    fn from_str(s: &str) -> (r: Result<NodeIdx, ParseNumberError>)
        ensures
            match usize_of(s@) {
                Some(v) => r == Ok::<NodeIdx, ParseNumberError>(NodeIdx(v)),
                None => r is Err,
            },
    {
        NodeIdx::parse(s)
    }
}

/// The index of an edge in the graph's edge-array.
#[derive(Debug, Copy, Clone, PartialEq, Eq, Structural, PartialOrd, Ord)]
pub struct EdgeIdx(pub usize);

impl EdgeIdx {
    /// Parses a decimal `usize`.
    pub fn parse(s: &str) -> (r: Result<EdgeIdx, ParseNumberError>)
        ensures
            match usize_of(s@) {
                Some(v) => r == Ok::<EdgeIdx, ParseNumberError>(EdgeIdx(v)),
                None => r is Err,
            },
    {
        match parse_usize(s) {
            Some(v) => Ok(EdgeIdx(v)),
            None => Err(ParseNumberError),
        }
    }
}

impl std::str::FromStr for EdgeIdx {
    type Err = ParseNumberError;

    fn from_str(s: &str) -> (r: Result<EdgeIdx, ParseNumberError>)
        ensures
            match usize_of(s@) {
                Some(v) => r == Ok::<EdgeIdx, ParseNumberError>(EdgeIdx(v)),
                None => r is Err,
            },
    {
        EdgeIdx::parse(s)
    }
}

} // verus!
