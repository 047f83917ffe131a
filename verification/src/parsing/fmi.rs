use crate::helpers::parse::{parse_signed, parse_unsigned, signed_value, unsigned_value};
use crate::helpers::text::{chars_of, split_whitespace_chars, string_from_chars, words};
use crate::units::MetricU32;
use std::ops::Range;
use vstd::prelude::*;

verus! {

/// What a column of an edge-line holds.
#[derive(Copy, Clone, Debug, PartialEq, Eq, Structural)]
pub enum MetricType {
    /// A node-id: the first one is the source, the second one the destination.
    Id,
    /// A length, given in the line if `provided`.
    Length { provided: bool },
    /// A speed-limit, given in the line if `provided`.
    Maxspeed { provided: bool },
    /// A duration, given in the line if `provided`.
    Duration { provided: bool },
    LaneCount,
    Custom,
    /// A column that is skipped.
    Ignore,
}

/// Why an edge-line could not be parsed.
#[derive(Copy, Clone, Debug, PartialEq, Eq, Structural)]
pub enum EdgeLineError {
    /// The line has fewer params than the metric-types ask for.
    TooFewParams,
    /// The param at this position is no `i64` (for the edge's source).
    InvalidSrcId(usize),
    /// The param at this position is no `i64` (for the edge's destination).
    InvalidDstId(usize),
    /// Both src-id and dst-id are already set, but another id should be parsed.
    ThirdId,
    /// The param at this position is no valid value of its metric.
    InvalidValue(usize),
    MissingSrcId,
    MissingDstId,
}

/// An edge of an fmi-file: its node-ids and its metrics (`None` for those to be calculated).
#[derive(Clone, Debug)]
pub struct ProtoEdge {
    pub src_id: i64,
    pub dst_id: i64,
    pub metrics: Vec<Option<MetricU32>>,
}

/// The value of a text holding an `i64`.
pub open spec fn i64_value(s: Seq<char>) -> Option<i64> {
    match signed_value(s) {
        Some(v) => if i64::MIN <= v <= i64::MAX {
            Some(v as i64)
        } else {
            None
        },
        None => None,
    }
}

/// The value of a text holding an unsigned number of at most `max`.
pub open spec fn bounded_value(s: Seq<char>, max: int) -> Option<u32> {
    match unsigned_value(s) {
        Some(v) => if v <= max {
            Some(v as u32)
        } else {
            None
        },
        None => None,
    }
}

/// The state after parsing the params for the given metric-types: the next param's position,
/// the src- and dst-id found so far and the metrics.
pub open spec fn edge_state(params: Seq<Seq<char>>, types: Seq<MetricType>) -> Result<
    (int, Option<i64>, Option<i64>, Seq<Option<MetricU32>>),
    EdgeLineError,
>
    decreases types.len(),
{
    if types.len() == 0 {
        Ok((0, None, None, Seq::empty()))
    } else {
        match edge_state(params, types.drop_last()) {
            Err(e) => Err(e),
            Ok((pi, src, dst, ms)) => if pi >= params.len() {
                Err(EdgeLineError::TooFewParams)
            } else {
                let param = params[pi];
                let value = |max: int|
                    match bounded_value(param, max) {
                        Some(v) => Ok((pi + 1, src, dst, ms.push(Some(MetricU32(v))))),
                        None => Err(EdgeLineError::InvalidValue(pi as usize)),
                    };
                match types.last() {
                    MetricType::Id => if src is None {
                        match i64_value(param) {
                            Some(v) => Ok((pi + 1, Some(v), dst, ms)),
                            None => Err(EdgeLineError::InvalidSrcId(pi as usize)),
                        }
                    } else if dst is None {
                        match i64_value(param) {
                            Some(v) => Ok((pi + 1, src, Some(v), ms)),
                            None => Err(EdgeLineError::InvalidDstId(pi as usize)),
                        }
                    } else {
                        Err(EdgeLineError::ThirdId)
                    },
                    MetricType::Length { provided } => if provided {
                        value(u32::MAX as int)
                    } else {
                        Ok((pi, src, dst, ms.push(None)))
                    },
                    MetricType::Maxspeed { provided } => if provided {
                        value(u16::MAX as int)
                    } else {
                        Ok((pi, src, dst, ms.push(None)))
                    },
                    MetricType::Duration { provided } => if provided {
                        value(u32::MAX as int)
                    } else {
                        Ok((pi, src, dst, ms.push(None)))
                    },
                    MetricType::LaneCount | MetricType::Custom => value(u32::MAX as int),
                    MetricType::Ignore => Ok((pi + 1, src, dst, ms)),
                }
            },
        }
    }
}

/// The edge of a line, split into params, for the given metric-types.
pub open spec fn edge_of(params: Seq<Seq<char>>, types: Seq<MetricType>) -> Result<
    (i64, i64, Seq<Option<MetricU32>>),
    EdgeLineError,
> {
    match edge_state(params, types) {
        Err(e) => Err(e),
        Ok((_, src, dst, ms)) => match src {
            None => Err(EdgeLineError::MissingSrcId),
            Some(s) => match dst {
                None => Err(EdgeLineError::MissingDstId),
                Some(d) => Ok((s, d, ms)),
            },
        },
    }
}

/// Once the params for a prefix of the metric-types fail, those for all metric-types fail alike.
proof fn lemma_error_stays(params: Seq<Seq<char>>, types: Seq<MetricType>, j: int)
    requires
        0 <= j <= types.len(),
        edge_state(params, types.take(j)) is Err,
    ensures
        edge_state(params, types) == edge_state(params, types.take(j)),
    decreases types.len(),
{
    if j < types.len() {
        assert(types.drop_last().take(j) =~= types.take(j));
        lemma_error_stays(params, types.drop_last(), j);
    } else {
        assert(types.take(j) =~= types);
    }
}

impl ProtoEdge {
    /// Parses a line of params into an edge, reading a param for every metric-type but those
    /// metrics that are calculated (not provided); the first id is the edge's source, the second
    /// one its destination.
    pub fn from_str(line: &str, metric_types: &Vec<MetricType>) -> (r: Result<ProtoEdge, EdgeLineError>)
        ensures
            match edge_of(words(line@), metric_types@) {
                Ok((s, d, ms)) => r matches Ok(e) && e.src_id == s && e.dst_id == d && e.metrics@ == ms,
                Err(err) => r == Err::<ProtoEdge, EdgeLineError>(err),
            },
            r matches Ok(e) ==> metrics_read(words(line@), metric_types@, e.metrics@),
    {
        proof {
            lemma_metric_values(words(line@), metric_types@);
        }
        let chars = chars_of(line);
        let params = split_whitespace_chars(chars.as_slice());
        let ghost ps = words(line@);
        proof {
            assert(params@.len() == ps.len());
        }
        let mut metric_values: Vec<Option<MetricU32>> = Vec::new();
        let mut src_id: Option<i64> = None;
        let mut dst_id: Option<i64> = None;
        let mut param_idx: usize = 0;
        let mut k: usize = 0;
        while k < metric_types.len()
            invariant
                ps == words(line@),
                params@.map_values(|w: Vec<char>| w@) == ps,
                k <= metric_types@.len(),
                param_idx <= k,
                edge_state(ps, metric_types@.take(k as int)) == Ok::<
                    (int, Option<i64>, Option<i64>, Seq<Option<MetricU32>>),
                    EdgeLineError,
                >((param_idx as int, src_id, dst_id, metric_values@)),
            decreases metric_types@.len() - k,
        {
            proof {
                assert(metric_types@.take(k + 1).drop_last() =~= metric_types@.take(k as int));
                assert(metric_types@.take(k + 1).last() == metric_types@[k as int]);
            }
            if param_idx >= params.len() {
                proof {
                    lemma_error_stays(ps, metric_types@, k + 1);
                }
                return Err(EdgeLineError::TooFewParams);
            }
            let param = params[param_idx].as_slice();
            proof {
                assert(param@ == ps[param_idx as int]);
            }
            match metric_types[k] {
                MetricType::Id => {
                    if src_id.is_none() {
                        match parse_signed(param) {
                            Some(v) => src_id = Some(v),
                            None => {
                                proof {
                                    lemma_error_stays(ps, metric_types@, k + 1);
                                }
                                return Err(EdgeLineError::InvalidSrcId(param_idx));
                            },
                        }
                    } else if dst_id.is_none() {
                        match parse_signed(param) {
                            Some(v) => dst_id = Some(v),
                            None => {
                                proof {
                                    lemma_error_stays(ps, metric_types@, k + 1);
                                }
                                return Err(EdgeLineError::InvalidDstId(param_idx));
                            },
                        }
                    } else {
                        proof {
                            lemma_error_stays(ps, metric_types@, k + 1);
                        }
                        return Err(EdgeLineError::ThirdId);
                    }
                    param_idx = param_idx + 1;
                },
                MetricType::Length { provided } | MetricType::Duration { provided } => {
                    if provided {
                        match parse_unsigned(param, 0xffff_ffff) {
                            Some(v) => metric_values.push(Some(MetricU32(v as u32))),
                            None => {
                                proof {
                                    lemma_error_stays(ps, metric_types@, k + 1);
                                }
                                return Err(EdgeLineError::InvalidValue(param_idx));
                            },
                        }
                        param_idx = param_idx + 1;
                    } else {
                        metric_values.push(None);
                    }
                },
                MetricType::Maxspeed { provided } => {
                    if provided {
                        match parse_unsigned(param, 0xffff) {
                            Some(v) => metric_values.push(Some(MetricU32(v as u32))),
                            None => {
                                proof {
                                    lemma_error_stays(ps, metric_types@, k + 1);
                                }
                                return Err(EdgeLineError::InvalidValue(param_idx));
                            },
                        }
                        param_idx = param_idx + 1;
                    } else {
                        metric_values.push(None);
                    }
                },
                MetricType::LaneCount | MetricType::Custom => {
                    match parse_unsigned(param, 0xffff_ffff) {
                        Some(v) => metric_values.push(Some(MetricU32(v as u32))),
                        None => {
                                proof {
                                    lemma_error_stays(ps, metric_types@, k + 1);
                                }
                                return Err(EdgeLineError::InvalidValue(param_idx));
                            },
                    }
                    param_idx = param_idx + 1;
                },
                MetricType::Ignore => {
                    param_idx = param_idx + 1;
                },
            }
            k = k + 1;
        }
        proof {
            assert(metric_types@.take(k as int) =~= metric_types@);
        }
        let src_id = match src_id {
            Some(id) => id,
            None => return Err(EdgeLineError::MissingSrcId),
        };
        let dst_id = match dst_id {
            Some(id) => id,
            None => return Err(EdgeLineError::MissingDstId),
        };
        Ok(ProtoEdge { src_id, dst_id, metrics: metric_values })
    }
}


/// Whether a line carries content: it is not empty and no comment (starting with `#`).
pub open spec fn is_functional(line: Seq<char>) -> bool {
    line.len() > 0 && line[0] != '#'
}

/// The views of the given strings.
pub open spec fn texts(lines: Seq<String>) -> Seq<Seq<char>> {
    lines.map_values(|l: String| l@)
}

/// The value of a count-line's only param, where it is a `usize`.
pub open spec fn count_value(param: Seq<char>) -> Option<nat> {
    match unsigned_value(param) {
        Some(v) => if v <= usize::MAX {
            Some(v)
        } else {
            None
        },
        None => None,
    }
}

/// Scanning the lines from position `i` on, where `number` functional lines came before and
/// `taking` tells whether a count-line was seen: the number of functional lines before the first
/// line that follows the count-lines, and the counts found.
///
/// A functional line with one param is a count-line (its count is kept where it is a `usize`);
/// the first functional line with another number of params after a count-line ends the scan.
pub open spec fn counts_from(lines: Seq<Seq<char>>, i: int, number: int, taking: bool) -> (int, Seq<nat>)
    decreases lines.len() - i,
{
    if i < 0 || i >= lines.len() {
        (number, Seq::empty())
    } else if !is_functional(lines[i]) {
        counts_from(lines, i + 1, number, taking)
    } else {
        let params = words(lines[i]);
        if params.len() == 1 {
            let (n, cs) = counts_from(lines, i + 1, number + 1, true);
            match count_value(params[0]) {
                Some(v) => (n, seq![v] + cs),
                None => (n, cs),
            }
        } else if taking {
            (number, Seq::empty())
        } else {
            counts_from(lines, i + 1, number + 1, false)
        }
    }
}

/// The functional lines from position `i` on whose number (counting the functional lines from 0,
/// with `number` of them before `i`) lies in `[start, end)`.
pub open spec fn lines_in_range(lines: Seq<Seq<char>>, i: int, number: int, start: int, end: int) -> Seq<
    Seq<char>,
>
    decreases lines.len() - i,
{
    if i < 0 || i >= lines.len() {
        Seq::empty()
    } else if !is_functional(lines[i]) {
        lines_in_range(lines, i + 1, number, start, end)
    } else if start <= number < end {
        seq![lines[i]] + lines_in_range(lines, i + 1, number + 1, start, end)
    } else {
        lines_in_range(lines, i + 1, number + 1, start, end)
    }
}

/// The edges of the edge-lines from position `j` on, or the error of the first line that fails.
pub open spec fn edges_from(edge_lines: Seq<Seq<char>>, j: int, types: Seq<MetricType>) -> Result<
    Seq<(i64, i64, Seq<Option<MetricU32>>)>,
    EdgeLineError,
>
    decreases edge_lines.len() - j,
{
    if j < 0 || j >= edge_lines.len() {
        Ok(Seq::empty())
    } else {
        match edge_of(words(edge_lines[j]), types) {
            Err(e) => Err(e),
            Ok(edge) => match edges_from(edge_lines, j + 1, types) {
                Err(e) => Err(e),
                Ok(rest) => Ok(seq![edge] + rest),
            },
        }
    }
}

/// The view of an edge: its src-id, its dst-id and its metrics.
pub open spec fn edge_view(e: ProtoEdge) -> (i64, i64, Seq<Option<MetricU32>>) {
    (e.src_id, e.dst_id, e.metrics@)
}

/// The fmi-file has less than two counts (node-count and edge-count).
#[derive(Copy, Clone, Debug, PartialEq, Eq, Structural)]
pub struct MissingCounts;

/// Remembers which functional lines of an fmi-file hold nodes and which hold edges.
pub struct Parser {
    pub node_lines: Range<usize>,
    pub edge_lines: Range<usize>,
}

impl Parser {
    pub fn new() -> (p: Parser)
        ensures
            p.node_lines.start == 1 && p.node_lines.end == 0,
            p.edge_lines.start == 1 && p.edge_lines.end == 0,
    {
        Parser { node_lines: 1..0, edge_lines: 1..0 }
    }

    /// Whether the line carries content (neither empty nor a comment).
    pub fn is_line_functional(line: &str) -> (r: bool)
        ensures
            r == is_functional(line@),
    {
        let chars = chars_of(line);
        chars.len() > 0 && chars[0] != '#'
    }

    /// Scans the lines for their counts: returns the number of functional lines before the first
    /// line after the count-lines, and the counts in the order of the lines.
    pub fn scan_counts(lines: &Vec<String>) -> (r: (usize, Vec<usize>))
        ensures
            r.0 == counts_from(texts(lines@), 0, 0, false).0,
            r.1@.map_values(|c: usize| c as nat) == counts_from(texts(lines@), 0, 0, false).1,
    {
        let ghost ls = texts(lines@);
        let mut number: usize = 0;
        let mut taking = false;
        let mut counts: Vec<usize> = Vec::new();
        let mut i: usize = 0;
        while i < lines.len()
            invariant_except_break
                ls == texts(lines@),
                i <= lines@.len(),
                number <= i,
                ({
                    let (n, cs) = counts_from(ls, i as int, number as int, taking);
                    counts_from(ls, 0, 0, false) == (n, counts@.map_values(|c: usize| c as nat) + cs)
                }),
            ensures
                counts_from(ls, 0, 0, false) == (number as int, counts@.map_values(|c: usize| c as nat)),
            decreases lines@.len() - i,
        {
            let line = chars_of(lines[i].as_str());
            proof {
                assert(line@ == ls[i as int]);
            }
            if line.len() > 0 && line[0] != '#' {
                let params = split_whitespace_chars(line.as_slice());
                if params.len() == 1 {
                    proof {
                        assert(params@[0]@ == words(line@)[0]);
                    }
                    let ghost old_counts = counts@.map_values(|c: usize| c as nat);
                    match parse_unsigned(params[0].as_slice(), usize::MAX as u64) {
                        Some(v) => {
                            counts.push(v as usize);
                            proof {
                                assert(counts@.map_values(|c: usize| c as nat) =~= old_counts.push(v as nat));
                                let (n, cs) = counts_from(ls, i + 1, number + 1, true);
                                assert(old_counts + (seq![v as nat] + cs) =~= old_counts.push(v as nat) + cs);
                            }
                        },
                        None => {},
                    }
                    taking = true;
                } else if taking {
                    proof {
                        let cs = counts@.map_values(|c: usize| c as nat);
                        assert(cs + Seq::<nat>::empty() =~= cs);
                    }
                    break;
                }
                number = number + 1;
            }
            i = i + 1;
        }
        proof {
            if i >= lines.len() {
                let cs = counts@.map_values(|c: usize| c as nat);
                assert(cs + Seq::<nat>::empty() =~= cs);
            }
        }
        (number, counts)
    }

    /// Remembers the ranges of node-lines and edge-lines: the node-lines follow the count-lines,
    /// and the edge-lines follow the node-lines; the last two counts are the node-count and the
    /// edge-count.
    pub fn preprocess(&mut self, lines: &Vec<String>) -> (r: Result<(), MissingCounts>)
        requires
            ({
                let (n, cs) = counts_from(texts(lines@), 0, 0, false);
                cs.len() >= 2 ==> n + cs[cs.len() - 2] + cs[cs.len() - 1] <= usize::MAX
            }),
        ensures
            ({
                let (n, cs) = counts_from(texts(lines@), 0, 0, false);
                if cs.len() < 2 {
                    r is Err && *final(self) == *old(self)
                } else {
                    let nodes = cs[cs.len() - 2];
                    let edges = cs[cs.len() - 1];
                    &&& r is Ok
                    &&& final(self).node_lines.start == n
                    &&& final(self).node_lines.end == n + nodes
                    &&& final(self).edge_lines.start == n + nodes
                    &&& final(self).edge_lines.end == n + nodes + edges
                }
            }),
    {
        let (number, counts) = Self::scan_counts(lines);
        let ghost cs = counts@.map_values(|c: usize| c as nat);
        if counts.len() < 2 {
            return Err(MissingCounts);
        }
        let edge_count = counts[counts.len() - 1];
        let node_count = counts[counts.len() - 2];
        proof {
            assert(cs[cs.len() - 1] == edge_count);
            assert(cs[cs.len() - 2] == node_count);
        }
        let start = number;
        let end = start + node_count;
        self.node_lines = start..end;
        let start = end;
        let end = start + edge_count;
        self.edge_lines = start..end;
        Ok(())
    }

    /// The functional lines whose number (counting the functional lines from 0) lies in the range.
    pub fn lines_in(lines: &Vec<String>, range: &Range<usize>) -> (r: Vec<String>)
        ensures
            texts(r@) == lines_in_range(texts(lines@), 0, 0, range.start as int, range.end as int),
    {
        let ghost ls = texts(lines@);
        let ghost (start, end) = (range.start as int, range.end as int);
        let mut r: Vec<String> = Vec::new();
        let mut number: usize = 0;
        let mut i: usize = 0;
        while i < lines.len()
            invariant
                ls == texts(lines@),
                start == range.start,
                end == range.end,
                i <= lines@.len(),
                number <= i,
                lines_in_range(ls, 0, 0, start, end) == texts(r@) + lines_in_range(
                    ls,
                    i as int,
                    number as int,
                    start,
                    end,
                ),
            decreases lines@.len() - i,
        {
            let line = lines[i].as_str();
            proof {
                assert(line@ == ls[i as int]);
            }
            if Self::is_line_functional(line) {
                if range.start <= number && number < range.end {
                    let ghost old_r = texts(r@);
                    let copy = string_from_chars(chars_of(line).as_slice());
                    r.push(copy);
                    proof {
                        assert(texts(r@) =~= old_r.push(ls[i as int]));
                        let rest = lines_in_range(ls, i + 1, number + 1, start, end);
                        assert(old_r + (seq![ls[i as int]] + rest) =~= old_r.push(ls[i as int]) + rest);
                    }
                }
                number = number + 1;
            }
            i = i + 1;
        }
        proof {
            assert(texts(r@) + Seq::<Seq<char>>::empty() =~= texts(r@));
        }
        r
    }

    /// Parses the edge-lines into edges, stopping at the first line that fails.
    pub fn parse_ways(&self, lines: &Vec<String>, metric_types: &Vec<MetricType>) -> (r: Result<
        Vec<ProtoEdge>,
        EdgeLineError,
    >)
        ensures
            ({
                let edge_lines = lines_in_range(
                    texts(lines@),
                    0,
                    0,
                    self.edge_lines.start as int,
                    self.edge_lines.end as int,
                );
                match edges_from(edge_lines, 0, metric_types@) {
                    Ok(es) => r matches Ok(v) && v@.map_values(|e: ProtoEdge| edge_view(e)) == es,
                    Err(e) => r == Err::<Vec<ProtoEdge>, EdgeLineError>(e),
                }
            }),
    {
        let edge_lines = Self::lines_in(lines, &self.edge_lines);
        let ghost el = texts(edge_lines@);
        let mut edges: Vec<ProtoEdge> = Vec::new();
        let mut j: usize = 0;
        while j < edge_lines.len()
            invariant
                el == texts(edge_lines@),
                el == lines_in_range(
                    texts(lines@),
                    0,
                    0,
                    self.edge_lines.start as int,
                    self.edge_lines.end as int,
                ),
                j <= edge_lines@.len(),
                edges_from(el, 0, metric_types@) == match edges_from(el, j as int, metric_types@) {
                    Ok(rest) => Ok(edges@.map_values(|e: ProtoEdge| edge_view(e)) + rest),
                    Err(e) => Err(e),
                },
            decreases edge_lines@.len() - j,
        {
            proof {
                assert(edge_lines@[j as int]@ == el[j as int]);
            }
            let edge = match ProtoEdge::from_str(edge_lines[j].as_str(), metric_types) {
                Ok(edge) => edge,
                Err(e) => {
                    proof {
                        assert(edges_from(el, j as int, metric_types@) == Err::<
                            Seq<(i64, i64, Seq<Option<MetricU32>>)>,
                            EdgeLineError,
                        >(e));
                    }
                    return Err(e);
                },
            };
            let ghost old_edges = edges@.map_values(|e: ProtoEdge| edge_view(e));
            let ghost ev = edge_view(edge);
            edges.push(edge);
            proof {
                assert(edges@.map_values(|e: ProtoEdge| edge_view(e)) =~= old_edges.push(ev));
                match edges_from(el, j + 1, metric_types@) {
                    Ok(rest) => {
                        assert(old_edges + (seq![ev] + rest) =~= old_edges.push(ev) + rest);
                    },
                    Err(e) => {},
                }
            }
            j = j + 1;
        }
        proof {
            let es = edges@.map_values(|e: ProtoEdge| edge_view(e));
            assert(es + Seq::<(i64, i64, Seq<Option<MetricU32>>)>::empty() =~= es);
        }
        Ok(edges)
    }
}

/// Why a node-line could not be parsed.
#[derive(Copy, Clone, Debug, PartialEq, Eq, Structural)]
pub enum NodeLineError {
    /// The line has less than four params (id, an ignored one, latitude and longitude).
    TooFewParams,
    /// The first param is no `i64`.
    InvalidId,
}

/// Splits a node-line into its id and the texts of its latitude and longitude (its third and
/// fourth param); the second param is ignored.
pub fn node_params(line: &str) -> (r: Result<(i64, String, String), NodeLineError>)
    ensures
        ({
            let ps = words(line@);
            if ps.len() < 4 {
                r == Err::<(i64, String, String), NodeLineError>(NodeLineError::TooFewParams)
            } else {
                match i64_value(ps[0]) {
                    None => r == Err::<(i64, String, String), NodeLineError>(NodeLineError::InvalidId),
                    Some(id) => r matches Ok((i, lat, lon)) && i == id && lat@ == ps[2] && lon@
                        == ps[3],
                }
            }
        }),
{
    let chars = chars_of(line);
    let params = split_whitespace_chars(chars.as_slice());
    let ghost ps = words(line@);
    proof {
        assert(params@.len() == ps.len());
    }
    if params.len() < 4 {
        return Err(NodeLineError::TooFewParams);
    }
    proof {
        assert(params@[0]@ == ps[0]);
        assert(params@[2]@ == ps[2]);
        assert(params@[3]@ == ps[3]);
    }
    let id = match parse_signed(params[0].as_slice()) {
        Some(id) => id,
        None => return Err(NodeLineError::InvalidId),
    };
    let lat = string_from_chars(params[2].as_slice());
    let lon = string_from_chars(params[3].as_slice());
    Ok((id, lat, lon))
}


/// The number of metrics that the given metric-types ask for: all but ids and ignored params.
pub open spec fn metric_count(types: Seq<MetricType>) -> nat
    decreases types.len(),
{
    if types.len() == 0 {
        0
    } else {
        metric_count(types.drop_last()) + match types.last() {
            MetricType::Id | MetricType::Ignore => 0nat,
            _ => 1nat,
        }
    }
}

/// Whether the column of a metric-type is read from the line: every column is, but that of a
/// metric which is not provided (and is calculated later).
pub open spec fn reads_param(t: MetricType) -> bool {
    match t {
        MetricType::Length { provided } => provided,
        MetricType::Maxspeed { provided } => provided,
        MetricType::Duration { provided } => provided,
        _ => true,
    }
}

/// Whether a metric-type stands for a metric of the edge: all but ids and ignored columns.
pub open spec fn gives_metric(t: MetricType) -> bool {
    !(t is Id) && !(t is Ignore)
}

/// The number of params that the given metric-types read.
pub open spec fn param_count(types: Seq<MetricType>) -> nat
    decreases types.len(),
{
    if types.len() == 0 {
        0
    } else {
        param_count(types.drop_last()) + if reads_param(types.last()) {
            1nat
        } else {
            0nat
        }
    }
}

/// Every metric is read from its param: the `k`-th metric-type that stands for a metric gives the
/// `k`-th metric, which is the unsigned value of the param read for it if the metric is read
/// from the line, and none if it is not provided.
pub open spec fn metrics_read(
    params: Seq<Seq<char>>,
    types: Seq<MetricType>,
    ms: Seq<Option<MetricU32>>,
) -> bool {
    forall|k: int|
        0 <= k < types.len() && gives_metric(#[trigger] types[k]) ==> {
            let i = metric_count(types.take(k)) as int;
            &&& 0 <= i < ms.len()
            &&& reads_param(types[k]) ==> (ms[i] matches Some(m) && unsigned_value(
                params[param_count(types.take(k)) as int],
            ) == Some(m.0 as nat))
            &&& !reads_param(types[k]) ==> ms[i] is None
        }
}

/// Parsing the params for metric-types reads one param per column that is read, and every metric
/// from its own param.
pub proof fn lemma_metric_values(params: Seq<Seq<char>>, types: Seq<MetricType>)
    ensures
        edge_state(params, types) matches Ok((pi, _, _, ms)) ==> pi == param_count(types) && ms.len()
            == metric_count(types) && metrics_read(params, types, ms),
        edge_of(params, types) matches Ok((_, _, ms)) ==> metrics_read(params, types, ms),
    decreases types.len(),
{
    if types.len() > 0 {
        let d = types.drop_last();
        lemma_metric_values(params, d);
        if let Ok((pi, _, _, ms)) = edge_state(params, types) {
            let (pi0, _, _, ms0) = edge_state(params, d)->Ok_0;
            assert(edge_state(params, d) is Ok);
            let n = types.len() - 1;
            assert(d =~= types.take(n));
            assert forall|k: int| 0 <= k < types.len() && gives_metric(#[trigger] types[k]) implies {
                let i = metric_count(types.take(k)) as int;
                &&& 0 <= i < ms.len()
                &&& reads_param(types[k]) ==> (ms[i] matches Some(m) && unsigned_value(
                    params[param_count(types.take(k)) as int],
                ) == Some(m.0 as nat))
                &&& !reads_param(types[k]) ==> ms[i] is None
            } by {
                if k < n {
                    assert(types.take(k) =~= d.take(k));
                    assert(d[k] == types[k]);
                    let i = metric_count(d.take(k)) as int;
                    assert(0 <= i < ms0.len());
                    assert(ms[i] == ms0[i]);
                } else {
                    assert(types.take(k) =~= d);
                }
            }
        }
    }
}

/// A parsed edge-line has one metric for every metric-type but ids and ignored params,
/// provided or not.
pub proof fn lemma_metric_count(params: Seq<Seq<char>>, types: Seq<MetricType>)
    ensures
        edge_state(params, types) matches Ok((_, _, _, ms)) ==> ms.len() == metric_count(types),
        edge_of(params, types) matches Ok((_, _, ms)) ==> ms.len() == metric_count(types),
    decreases types.len(),
{
    if types.len() > 0 {
        lemma_metric_count(params, types.drop_last());
    }
}

} // verus!
