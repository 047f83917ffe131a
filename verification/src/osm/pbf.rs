use crate::helpers::parse::{parse_unsigned, unsigned_value};
use crate::helpers::text::{
    ascii_lower, chars_of, concat_chars, first_word, first_word_chars, is_text, string_from_chars,
    is_whitespace, to_ascii_lowercase, trim, trim_chars, trim_end_pos, trim_start_pos,
};
use crate::network::geo::Coordinate;
use crate::routing::graph::{mark_edge_node, set_coord, GraphBuilder, ProtoEdge};
use vstd::prelude::*;

verus! {

/// The tags of a way that the parser reads.
#[derive(Clone, Debug)]
pub struct WayTags {
    pub highway: Option<String>,
    pub maxspeed: Option<String>,
    pub oneway: Option<String>,
}

/// A way of the map-data: its id, its nodes and the tags that the parser reads.
#[derive(Clone, Debug)]
pub struct Way {
    pub id: i64,
    pub nodes: Vec<i64>,
    pub tags: WayTags,
}

/// The type of a street, given by its highway-tag.
#[derive(Copy, Clone, Debug, PartialEq, Eq, Structural)]
pub enum StreetType {
    Motorway,
    MotorwayLink,
    Trunk,
    TrunkLink,
    Primary,
    PrimaryLink,
    Secondary,
    SecondaryLink,
    Tertiary,
    TertiaryLink,
    Unclassified,
    Residential,
    LivingStreet,
    Service,
    Track,
    Road,
    Cycleway,
    Pedestrian,
    Path,
}

/// The street-type that a normalized (trimmed, lowercase) `highway:<value>`-text stands for.
pub open spec fn street_type_of(t: Seq<char>) -> Option<StreetType> {
    if t == "highway:motorway"@ {
        Some(StreetType::Motorway)
    } else if t == "highway:motorway_link"@ {
        Some(StreetType::MotorwayLink)
    } else if t == "highway:trunk"@ {
        Some(StreetType::Trunk)
    } else if t == "highway:trunk_link"@ {
        Some(StreetType::TrunkLink)
    } else if t == "highway:primary"@ {
        Some(StreetType::Primary)
    } else if t == "highway:primary_link"@ {
        Some(StreetType::PrimaryLink)
    } else if t == "highway:secondary"@ {
        Some(StreetType::Secondary)
    } else if t == "highway:secondary_link"@ {
        Some(StreetType::SecondaryLink)
    } else if t == "highway:tertiary"@ {
        Some(StreetType::Tertiary)
    } else if t == "highway:tertiary_link"@ {
        Some(StreetType::TertiaryLink)
    } else if t == "highway:unclassified"@ {
        Some(StreetType::Unclassified)
    } else if t == "highway:residential"@ {
        Some(StreetType::Residential)
    } else if t == "highway:living_street"@ {
        Some(StreetType::LivingStreet)
    } else if t == "highway:service"@ {
        Some(StreetType::Service)
    } else if t == "highway:track"@ {
        Some(StreetType::Track)
    } else if t == "highway:road"@ {
        Some(StreetType::Road)
    } else if t == "highway:cycleway"@ || t == "highway:bridleway"@ {
        Some(StreetType::Cycleway)
    } else if t == "highway:pedestrian"@ || t == "highway:footway"@ || t == "highway:steps"@ {
        Some(StreetType::Pedestrian)
    } else if t == "highway:path"@ {
        Some(StreetType::Path)
    } else {
        None
    }
}

/// The text, trimmed and in ASCII-lowercase.
pub open spec fn normalized(s: Seq<char>) -> Seq<char> {
    trim(s).map_values(|c: char| ascii_lower(c))
}

/// The default speed-limit (km/h) of a street-type.
pub open spec fn default_maxspeed(t: StreetType) -> u16 {
    match t {
        StreetType::Motorway => 130,
        StreetType::MotorwayLink => 50,
        StreetType::Trunk => 100,
        StreetType::TrunkLink => 50,
        StreetType::Primary => 100,
        StreetType::PrimaryLink => 30,
        StreetType::Secondary => 70,
        StreetType::SecondaryLink => 30,
        StreetType::Tertiary => 70,
        StreetType::TertiaryLink => 30,
        StreetType::Unclassified => 50,
        StreetType::Residential => 50,
        StreetType::LivingStreet => 15,
        StreetType::Service => 20,
        StreetType::Track => 30,
        StreetType::Road => 50,
        StreetType::Cycleway => 25,
        StreetType::Pedestrian => 5,
        StreetType::Path => 15,
    }
}

/// The default speed-limits (km/h) of the street-types, as the map-data's defaults give them.
pub proof fn lemma_default_maxspeeds()
    ensures
        default_maxspeed(StreetType::Motorway) == 130,
        default_maxspeed(StreetType::MotorwayLink) == 50,
        default_maxspeed(StreetType::Trunk) == 100,
        default_maxspeed(StreetType::TrunkLink) == 50,
        default_maxspeed(StreetType::Primary) == 100,
        default_maxspeed(StreetType::PrimaryLink) == 30,
        default_maxspeed(StreetType::Secondary) == 70,
        default_maxspeed(StreetType::SecondaryLink) == 30,
        default_maxspeed(StreetType::Tertiary) == 70,
        default_maxspeed(StreetType::TertiaryLink) == 30,
        default_maxspeed(StreetType::Unclassified) == 50,
        default_maxspeed(StreetType::Residential) == 50,
        default_maxspeed(StreetType::LivingStreet) == 15,
        default_maxspeed(StreetType::Service) == 20,
        default_maxspeed(StreetType::Track) == 30,
        default_maxspeed(StreetType::Road) == 50,
        default_maxspeed(StreetType::Cycleway) == 25,
        default_maxspeed(StreetType::Pedestrian) == 5,
        default_maxspeed(StreetType::Path) == 15,
{
}

/// Default speed-limits fall along the hierarchy of roads, and a link-road is never faster than
/// the road it links.
pub proof fn lemma_default_maxspeed_order()
    ensures
        default_maxspeed(StreetType::Motorway) >= default_maxspeed(StreetType::Trunk),
        default_maxspeed(StreetType::Trunk) >= default_maxspeed(StreetType::Primary),
        default_maxspeed(StreetType::Primary) >= default_maxspeed(StreetType::Secondary),
        default_maxspeed(StreetType::Secondary) >= default_maxspeed(StreetType::Tertiary),
        default_maxspeed(StreetType::Tertiary) >= default_maxspeed(StreetType::Unclassified),
        default_maxspeed(StreetType::Unclassified) >= default_maxspeed(StreetType::LivingStreet),
        default_maxspeed(StreetType::Residential) >= default_maxspeed(StreetType::LivingStreet),
        default_maxspeed(StreetType::MotorwayLink) <= default_maxspeed(StreetType::Motorway),
        default_maxspeed(StreetType::TrunkLink) <= default_maxspeed(StreetType::Trunk),
        default_maxspeed(StreetType::PrimaryLink) <= default_maxspeed(StreetType::Primary),
        default_maxspeed(StreetType::SecondaryLink) <= default_maxspeed(StreetType::Secondary),
        default_maxspeed(StreetType::TertiaryLink) <= default_maxspeed(StreetType::Tertiary),
        default_maxspeed(StreetType::Pedestrian) <= default_maxspeed(StreetType::Path),
        default_maxspeed(StreetType::Path) <= default_maxspeed(StreetType::Cycleway),
        forall|t: StreetType| 0 < #[trigger] default_maxspeed(t) <= default_maxspeed(StreetType::Motorway),
{
}

/// The speed-limit (km/h) that a non-numeric maxspeed-text (in ASCII-lowercase) stands for, or
/// `None` for the default of the street.
pub open spec fn named_maxspeed(t: Seq<char>) -> Option<u16> {
    if t == "de:motorway"@ {
        Some(130u16)
    } else if t == "60 mph"@ {
        Some(100u16)
    } else if t == "50 mph"@ {
        Some(80u16)
    } else if t == "40 mph"@ {
        Some(70u16)
    } else if t == "30 mph"@ || t == "maxspeed=50"@ || t == "50b"@ {
        Some(50u16)
    } else if t == "20 mph"@ || t == "de:zone30"@ || t == "30 kph"@ {
        Some(30u16)
    } else if t == "15 mph"@ {
        Some(25u16)
    } else if t == "2ß"@ {
        Some(20u16)
    } else if t == "de:bicycle_road"@ {
        Some(25u16)
    } else if t == "10 mph"@ || t == "5 mph"@ || t == "3 mph"@ || t == "1ß"@ || t == "4-7"@ || t
        == "4-6"@ || t == "Schrittgeschwindigkeit"@ || t == "de:living_street"@ || t == "de:walk"@
        || t == "walk"@ {
        Some(15u16)
    } else {
        None
    }
}

/// The speed-limit of a way of the given type with the given maxspeed-tag.
pub open spec fn maxspeed_of(t: StreetType, tag: Option<Seq<char>>) -> u16 {
    match tag {
        None => default_maxspeed(t),
        Some(snippet) => match unsigned_value(snippet) {
            Some(v) if v <= u16::MAX => v as u16,
            _ => match named_maxspeed(snippet.map_values(|c: char| ascii_lower(c))) {
                Some(kmh) => kmh,
                None => default_maxspeed(t),
            },
        },
    }
}

/// `(is_oneway, is_reverse)` of a oneway-tag, given by its first word.
pub open spec fn oneway_of(tag: Option<Seq<char>>) -> (bool, bool) {
    match tag {
        None => (false, false),
        Some(value) => {
            let w = first_word(value);
            if w == "yes"@ || w == "1"@ || w == "recommended"@ || w == "left;through"@ || w
                == "shelter"@ {
                (true, false)
            } else if w == "-1"@ || w == "-1;no"@ {
                (true, true)
            } else {
                // "no" and the like, and unknown values
                (false, false)
            }
        },
    }
}

/// The view of an optional string.
pub open spec fn opt_view(s: Option<String>) -> Option<Seq<char>> {
    match s {
        Some(s) => Some(s@),
        None => None,
    }
}

impl StreetType {
    /// Parses a (`highway:`-prefixed) highway-tag, ignoring surrounding whitespace and
    /// ASCII-case; an unknown tag is returned as error, normalized.
    pub fn from_str(s: &str) -> (r: Result<StreetType, String>)
        ensures
            match street_type_of(normalized(s@)) {
                Some(t) => r == Ok::<StreetType, String>(t),
                None => r matches Err(e) && e@ == normalized(s@),
            },
    {
        let chars = chars_of(s);
        let trimmed = trim_chars(chars.as_slice());
        let t = to_ascii_lowercase(trimmed.as_slice());
        let n = t.as_slice();
        if is_text(n, "highway:motorway") {
            Ok(StreetType::Motorway)
        } else if is_text(n, "highway:motorway_link") {
            Ok(StreetType::MotorwayLink)
        } else if is_text(n, "highway:trunk") {
            Ok(StreetType::Trunk)
        } else if is_text(n, "highway:trunk_link") {
            Ok(StreetType::TrunkLink)
        } else if is_text(n, "highway:primary") {
            Ok(StreetType::Primary)
        } else if is_text(n, "highway:primary_link") {
            Ok(StreetType::PrimaryLink)
        } else if is_text(n, "highway:secondary") {
            Ok(StreetType::Secondary)
        } else if is_text(n, "highway:secondary_link") {
            Ok(StreetType::SecondaryLink)
        } else if is_text(n, "highway:tertiary") {
            Ok(StreetType::Tertiary)
        } else if is_text(n, "highway:tertiary_link") {
            Ok(StreetType::TertiaryLink)
        } else if is_text(n, "highway:unclassified") {
            Ok(StreetType::Unclassified)
        } else if is_text(n, "highway:residential") {
            Ok(StreetType::Residential)
        } else if is_text(n, "highway:living_street") {
            Ok(StreetType::LivingStreet)
        } else if is_text(n, "highway:service") {
            Ok(StreetType::Service)
        } else if is_text(n, "highway:track") {
            Ok(StreetType::Track)
        } else if is_text(n, "highway:road") {
            Ok(StreetType::Road)
        } else if is_text(n, "highway:cycleway") || is_text(n, "highway:bridleway") {
            Ok(StreetType::Cycleway)
        } else if is_text(n, "highway:pedestrian") || is_text(n, "highway:footway") || is_text(
            n,
            "highway:steps",
        ) {
            Ok(StreetType::Pedestrian)
        } else if is_text(n, "highway:path") {
            Ok(StreetType::Path)
        } else {
            // ignored ("highway:byway" and the like) or unknown
            Err(string_from_chars(n))
        }
    }

    /// The name of the street-type.
    pub fn name(&self) -> (r: &'static str)
        ensures
            r@ == street_name(*self)@,
    {
        match self {
            StreetType::Motorway => "motorway",
            StreetType::MotorwayLink => "motorway_link",
            StreetType::Trunk => "trunk",
            StreetType::TrunkLink => "trunk_link",
            StreetType::Primary => "primary",
            StreetType::PrimaryLink => "primary_link",
            StreetType::Secondary => "secondary",
            StreetType::SecondaryLink => "secondary_link",
            StreetType::Tertiary => "tertiary",
            StreetType::TertiaryLink => "tertiary_link",
            StreetType::Unclassified => "unclassified",
            StreetType::Residential => "residential",
            StreetType::LivingStreet => "living_street",
            StreetType::Service => "service",
            StreetType::Track => "track",
            StreetType::Road => "road",
            StreetType::Cycleway => "cycleway",
            StreetType::Pedestrian => "pedestrian",
            StreetType::Path => "path",
        }
    }

    /// The default speed-limit (km/h) of the street-type.
    pub fn maxspeed(&self) -> (r: u16)
        ensures
            r == default_maxspeed(*self),
    {
        match self {
            StreetType::Motorway => 130,
            StreetType::MotorwayLink => 50,
            StreetType::Trunk => 100,
            StreetType::TrunkLink => 50,
            StreetType::Primary => 100,
            StreetType::PrimaryLink => 30,
            StreetType::Secondary => 70,
            StreetType::SecondaryLink => 30,
            StreetType::Tertiary => 70,
            StreetType::TertiaryLink => 30,
            StreetType::Unclassified => 50,
            StreetType::Residential => 50,
            StreetType::LivingStreet => 15,
            StreetType::Service => 20,
            StreetType::Track => 30,
            StreetType::Road => 50,
            StreetType::Cycleway => 25,
            StreetType::Pedestrian => 5,
            StreetType::Path => 15,
        }
    }

    /// Whether vehicles use the street; uncomfortable streets are excluded if `is_suitable`.
    pub fn _is_for_vehicles(&self, is_suitable: bool) -> (r: bool)
        ensures
            r == match *self {
                StreetType::Service | StreetType::Track | StreetType::Road => !is_suitable,
                StreetType::Cycleway | StreetType::Pedestrian | StreetType::Path => false,
                _ => true,
            },
    {
        match self {
            StreetType::Motorway => true,
            StreetType::MotorwayLink => true,
            StreetType::Trunk => true,
            StreetType::TrunkLink => true,
            StreetType::Primary => true,
            StreetType::PrimaryLink => true,
            StreetType::Secondary => true,
            StreetType::SecondaryLink => true,
            StreetType::Tertiary => true,
            StreetType::TertiaryLink => true,
            StreetType::Unclassified => true,
            StreetType::Residential => true,
            StreetType::LivingStreet => true,
            StreetType::Service => !is_suitable,
            StreetType::Track => !is_suitable,
            StreetType::Road => !is_suitable,
            StreetType::Cycleway => false,
            StreetType::Pedestrian => false,
            StreetType::Path => false,
        }
    }

    /// Whether bicycles use the street; uncomfortable streets are excluded if `is_suitable`.
    pub fn _is_for_bicycles(&self, is_suitable: bool) -> (r: bool)
        ensures
            r == match *self {
                StreetType::Motorway | StreetType::MotorwayLink | StreetType::Trunk
                | StreetType::TrunkLink => false,
                StreetType::Primary | StreetType::PrimaryLink | StreetType::Secondary
                | StreetType::SecondaryLink | StreetType::Track | StreetType::Road
                | StreetType::Pedestrian | StreetType::Path => !is_suitable,
                _ => true,
            },
    {
        match self {
            StreetType::Motorway => false,
            StreetType::MotorwayLink => false,
            StreetType::Trunk => false,
            StreetType::TrunkLink => false,
            StreetType::Primary => !is_suitable,
            StreetType::PrimaryLink => !is_suitable,
            StreetType::Secondary => !is_suitable,
            StreetType::SecondaryLink => !is_suitable,
            StreetType::Tertiary => true,
            StreetType::TertiaryLink => true,
            StreetType::Unclassified => true,
            StreetType::Residential => true,
            StreetType::LivingStreet => true,
            StreetType::Service => true,
            StreetType::Track => !is_suitable,
            StreetType::Road => !is_suitable,
            StreetType::Cycleway => true,
            StreetType::Pedestrian => !is_suitable,
            StreetType::Path => !is_suitable,
        }
    }

    /// Whether pedestrians use the street; uncomfortable streets are excluded if `is_suitable`.
    pub fn _is_for_pedestrians(&self, is_suitable: bool) -> (r: bool)
        ensures
            r == match *self {
                StreetType::Residential | StreetType::LivingStreet | StreetType::Service
                | StreetType::Track | StreetType::Pedestrian | StreetType::Path => true,
                StreetType::Road => !is_suitable,
                _ => false,
            },
    {
        match self {
            StreetType::Motorway => false,
            StreetType::MotorwayLink => false,
            StreetType::Trunk => false,
            StreetType::TrunkLink => false,
            StreetType::Primary => false,
            StreetType::PrimaryLink => false,
            StreetType::Secondary => false,
            StreetType::SecondaryLink => false,
            StreetType::Tertiary => false,
            StreetType::TertiaryLink => false,
            StreetType::Unclassified => false,
            StreetType::Residential => true,
            StreetType::LivingStreet => true,
            StreetType::Service => true,
            StreetType::Track => true,
            StreetType::Road => !is_suitable,
            StreetType::Cycleway => false,
            StreetType::Pedestrian => true,
            StreetType::Path => true,
        }
    }

    /// The street-type of a way, if its highway-tag is known.
    pub fn from(way: &Way) -> (r: Option<StreetType>)
        ensures
            r == match opt_view(way.tags.highway) {
                Some(v) => street_type_of(normalized("highway:"@ + v)),
                None => None,
            },
    {
        match &way.tags.highway {
            Some(value) => {
                let prefix = chars_of("highway:");
                let v = chars_of(value.as_str());
                let tag = concat_chars(prefix.as_slice(), v.as_slice());
                let text = string_from_chars(tag.as_slice());
                match StreetType::from_str(text.as_str()) {
                    Ok(t) => Some(t),
                    Err(_) => None,
                }
            },
            None => None,
        }
    }

    /// The speed-limit of the way: its maxspeed-tag as number, or a known name of a limit, or
    /// the default of the street-type.
    pub fn parse_maxspeed(&self, way: &Way) -> (r: u16)
        ensures
            r == maxspeed_of(*self, opt_view(way.tags.maxspeed)),
    {
        let snippet = match &way.tags.maxspeed {
            Some(snippet) => snippet,
            None => return self.maxspeed(),
        };
        let chars = chars_of(snippet.as_str());
        match parse_unsigned(chars.as_slice(), 65535) {
            Some(v) => v as u16,
            None => {
                let t = to_ascii_lowercase(chars.as_slice());
                let n = t.as_slice();
                if is_text(n, "de:motorway") {
                    StreetType::Motorway.maxspeed()
                } else if is_text(n, "60 mph") {
                    100
                } else if is_text(n, "50 mph") {
                    80
                } else if is_text(n, "40 mph") {
                    70
                } else if is_text(n, "30 mph") || is_text(n, "maxspeed=50") || is_text(n, "50b") {
                    50
                } else if is_text(n, "20 mph") || is_text(n, "de:zone30") || is_text(n, "30 kph") {
                    30
                } else if is_text(n, "15 mph") {
                    25
                } else if is_text(n, "2ß") {
                    20
                } else if is_text(n, "de:bicycle_road") {
                    StreetType::Cycleway.maxspeed()
                } else if is_text(n, "10 mph") || is_text(n, "5 mph") || is_text(n, "3 mph")
                    || is_text(n, "1ß") || is_text(n, "4-7") || is_text(n, "4-6") || is_text(
                    n,
                    "Schrittgeschwindigkeit",
                ) || is_text(n, "de:living_street") || is_text(n, "de:walk") || is_text(
                    n,
                    "walk",
                ) {
                    StreetType::LivingStreet.maxspeed()
                } else {
                    // known defaults ("none" and the like) and unknown values
                    self.maxspeed()
                }
            },
        }
    }

    /// `(is_oneway, is_reverse)` of the way, by the first word of its oneway-tag; unknown
    /// values mean no oneway.
    pub fn parse_oneway(&self, way: &Way) -> (r: (bool, bool))
        requires
            way.tags.oneway matches Some(v) ==> trim_start_pos(v@) < v@.len(),
        ensures
            r == oneway_of(opt_view(way.tags.oneway)),
    {
        match &way.tags.oneway {
            Some(value) => {
                let chars = chars_of(value.as_str());
                let w = match first_word_chars(chars.as_slice()) {
                    Some(w) => w,
                    None => {
                        proof {
                            assert(false);
                        }
                        Vec::new()
                    },
                };
                let n = w.as_slice();
                if is_text(n, "yes") || is_text(n, "1") || is_text(n, "recommended") || is_text(
                    n,
                    "left;through",
                ) || is_text(n, "shelter") {
                    (true, false)
                } else if is_text(n, "-1") || is_text(n, "-1;no") {
                    (true, true)
                } else {
                    (false, false)
                }
            },
            None => (false, false),
        }
    }
}

/// The name of a street-type.
pub open spec fn street_name(t: StreetType) -> &'static str {
    match t {
        StreetType::Motorway => "motorway",
        StreetType::MotorwayLink => "motorway_link",
        StreetType::Trunk => "trunk",
        StreetType::TrunkLink => "trunk_link",
        StreetType::Primary => "primary",
        StreetType::PrimaryLink => "primary_link",
        StreetType::Secondary => "secondary",
        StreetType::SecondaryLink => "secondary_link",
        StreetType::Tertiary => "tertiary",
        StreetType::TertiaryLink => "tertiary_link",
        StreetType::Unclassified => "unclassified",
        StreetType::Residential => "residential",
        StreetType::LivingStreet => "living_street",
        StreetType::Service => "service",
        StreetType::Track => "track",
        StreetType::Road => "road",
        StreetType::Cycleway => "cycleway",
        StreetType::Pedestrian => "pedestrian",
        StreetType::Path => "path",
    }
}

/// A text that neither starts nor ends with whitespace and holds no ASCII-uppercase letter is its
/// own normalization.
proof fn lemma_normalized_plain(s: Seq<char>)
    requires
        s.len() > 0,
        !is_whitespace(s[0]),
        !is_whitespace(s.last()),
        forall|i: int| 0 <= i < s.len() ==> !('A' <= #[trigger] s[i] <= 'Z'),
    ensures
        normalized(s) == s,
{
    assert(trim_start_pos(s) == 0);
    assert(trim_end_pos(s) == s.len());
    assert(trim(s) =~= s);
    assert(normalized(s) =~= s);
}

/// Footways and steps are pedestrian streets, bridleways are cycleways; byways, bus-stops and
/// raceways are no street-types (their ways give no edges).
pub proof fn lemma_highway_aliases()
    ensures
        street_type_of(normalized("highway:footway"@)) == Some(StreetType::Pedestrian),
        street_type_of(normalized("highway:steps"@)) == Some(StreetType::Pedestrian),
        street_type_of(normalized("highway:pedestrian"@)) == Some(StreetType::Pedestrian),
        street_type_of(normalized("highway:bridleway"@)) == Some(StreetType::Cycleway),
        street_type_of(normalized("highway:cycleway"@)) == Some(StreetType::Cycleway),
        street_type_of(normalized("highway:byway"@)) is None,
        street_type_of(normalized("highway:bus_stop"@)) is None,
        street_type_of(normalized("highway:raceway"@)) is None,
{
    reveal_strlit("highway:bridleway");
    reveal_strlit("highway:bus_stop");
    reveal_strlit("highway:byway");
    reveal_strlit("highway:cycleway");
    reveal_strlit("highway:footway");
    reveal_strlit("highway:living_street");
    reveal_strlit("highway:motorway");
    reveal_strlit("highway:motorway_link");
    reveal_strlit("highway:path");
    reveal_strlit("highway:pedestrian");
    reveal_strlit("highway:primary");
    reveal_strlit("highway:primary_link");
    reveal_strlit("highway:raceway");
    reveal_strlit("highway:residential");
    reveal_strlit("highway:road");
    reveal_strlit("highway:secondary");
    reveal_strlit("highway:secondary_link");
    reveal_strlit("highway:service");
    reveal_strlit("highway:steps");
    reveal_strlit("highway:tertiary");
    reveal_strlit("highway:tertiary_link");
    reveal_strlit("highway:track");
    reveal_strlit("highway:trunk");
    reveal_strlit("highway:trunk_link");
    reveal_strlit("highway:unclassified");
    lemma_normalized_plain("highway:footway"@);
    assert("highway:footway"@.len() != "highway:motorway"@.len());
    assert("highway:footway"@.len() != "highway:motorway_link"@.len());
    assert("highway:footway"@.len() != "highway:trunk"@.len());
    assert("highway:footway"@.len() != "highway:trunk_link"@.len());
    assert("highway:footway"@[8] != "highway:primary"@[8]);
    assert("highway:footway"@.len() != "highway:primary_link"@.len());
    assert("highway:footway"@.len() != "highway:secondary"@.len());
    assert("highway:footway"@.len() != "highway:secondary_link"@.len());
    assert("highway:footway"@.len() != "highway:tertiary"@.len());
    assert("highway:footway"@.len() != "highway:tertiary_link"@.len());
    assert("highway:footway"@.len() != "highway:unclassified"@.len());
    assert("highway:footway"@.len() != "highway:residential"@.len());
    assert("highway:footway"@.len() != "highway:living_street"@.len());
    assert("highway:footway"@[8] != "highway:service"@[8]);
    assert("highway:footway"@.len() != "highway:track"@.len());
    assert("highway:footway"@.len() != "highway:road"@.len());
    assert("highway:footway"@.len() != "highway:cycleway"@.len());
    assert("highway:footway"@.len() != "highway:bridleway"@.len());
    assert("highway:footway"@.len() != "highway:pedestrian"@.len());
    lemma_normalized_plain("highway:steps"@);
    assert("highway:steps"@.len() != "highway:motorway"@.len());
    assert("highway:steps"@.len() != "highway:motorway_link"@.len());
    assert("highway:steps"@[8] != "highway:trunk"@[8]);
    assert("highway:steps"@.len() != "highway:trunk_link"@.len());
    assert("highway:steps"@.len() != "highway:primary"@.len());
    assert("highway:steps"@.len() != "highway:primary_link"@.len());
    assert("highway:steps"@.len() != "highway:secondary"@.len());
    assert("highway:steps"@.len() != "highway:secondary_link"@.len());
    assert("highway:steps"@.len() != "highway:tertiary"@.len());
    assert("highway:steps"@.len() != "highway:tertiary_link"@.len());
    assert("highway:steps"@.len() != "highway:unclassified"@.len());
    assert("highway:steps"@.len() != "highway:residential"@.len());
    assert("highway:steps"@.len() != "highway:living_street"@.len());
    assert("highway:steps"@.len() != "highway:service"@.len());
    assert("highway:steps"@[8] != "highway:track"@[8]);
    assert("highway:steps"@.len() != "highway:road"@.len());
    assert("highway:steps"@.len() != "highway:cycleway"@.len());
    assert("highway:steps"@.len() != "highway:bridleway"@.len());
    assert("highway:steps"@.len() != "highway:pedestrian"@.len());
    assert("highway:steps"@.len() != "highway:footway"@.len());
    lemma_normalized_plain("highway:pedestrian"@);
    assert("highway:pedestrian"@.len() != "highway:motorway"@.len());
    assert("highway:pedestrian"@.len() != "highway:motorway_link"@.len());
    assert("highway:pedestrian"@.len() != "highway:trunk"@.len());
    assert("highway:pedestrian"@[8] != "highway:trunk_link"@[8]);
    assert("highway:pedestrian"@.len() != "highway:primary"@.len());
    assert("highway:pedestrian"@.len() != "highway:primary_link"@.len());
    assert("highway:pedestrian"@.len() != "highway:secondary"@.len());
    assert("highway:pedestrian"@.len() != "highway:secondary_link"@.len());
    assert("highway:pedestrian"@.len() != "highway:tertiary"@.len());
    assert("highway:pedestrian"@.len() != "highway:tertiary_link"@.len());
    assert("highway:pedestrian"@.len() != "highway:unclassified"@.len());
    assert("highway:pedestrian"@.len() != "highway:residential"@.len());
    assert("highway:pedestrian"@.len() != "highway:living_street"@.len());
    assert("highway:pedestrian"@.len() != "highway:service"@.len());
    assert("highway:pedestrian"@.len() != "highway:track"@.len());
    assert("highway:pedestrian"@.len() != "highway:road"@.len());
    assert("highway:pedestrian"@.len() != "highway:cycleway"@.len());
    assert("highway:pedestrian"@.len() != "highway:bridleway"@.len());
    lemma_normalized_plain("highway:bridleway"@);
    assert("highway:bridleway"@.len() != "highway:motorway"@.len());
    assert("highway:bridleway"@.len() != "highway:motorway_link"@.len());
    assert("highway:bridleway"@.len() != "highway:trunk"@.len());
    assert("highway:bridleway"@.len() != "highway:trunk_link"@.len());
    assert("highway:bridleway"@.len() != "highway:primary"@.len());
    assert("highway:bridleway"@.len() != "highway:primary_link"@.len());
    assert("highway:bridleway"@[8] != "highway:secondary"@[8]);
    assert("highway:bridleway"@.len() != "highway:secondary_link"@.len());
    assert("highway:bridleway"@.len() != "highway:tertiary"@.len());
    assert("highway:bridleway"@.len() != "highway:tertiary_link"@.len());
    assert("highway:bridleway"@.len() != "highway:unclassified"@.len());
    assert("highway:bridleway"@.len() != "highway:residential"@.len());
    assert("highway:bridleway"@.len() != "highway:living_street"@.len());
    assert("highway:bridleway"@.len() != "highway:service"@.len());
    assert("highway:bridleway"@.len() != "highway:track"@.len());
    assert("highway:bridleway"@.len() != "highway:road"@.len());
    assert("highway:bridleway"@.len() != "highway:cycleway"@.len());
    lemma_normalized_plain("highway:cycleway"@);
    assert("highway:cycleway"@[8] != "highway:motorway"@[8]);
    assert("highway:cycleway"@.len() != "highway:motorway_link"@.len());
    assert("highway:cycleway"@.len() != "highway:trunk"@.len());
    assert("highway:cycleway"@.len() != "highway:trunk_link"@.len());
    assert("highway:cycleway"@.len() != "highway:primary"@.len());
    assert("highway:cycleway"@.len() != "highway:primary_link"@.len());
    assert("highway:cycleway"@.len() != "highway:secondary"@.len());
    assert("highway:cycleway"@.len() != "highway:secondary_link"@.len());
    assert("highway:cycleway"@[8] != "highway:tertiary"@[8]);
    assert("highway:cycleway"@.len() != "highway:tertiary_link"@.len());
    assert("highway:cycleway"@.len() != "highway:unclassified"@.len());
    assert("highway:cycleway"@.len() != "highway:residential"@.len());
    assert("highway:cycleway"@.len() != "highway:living_street"@.len());
    assert("highway:cycleway"@.len() != "highway:service"@.len());
    assert("highway:cycleway"@.len() != "highway:track"@.len());
    assert("highway:cycleway"@.len() != "highway:road"@.len());
    lemma_normalized_plain("highway:byway"@);
    assert("highway:byway"@.len() != "highway:motorway"@.len());
    assert("highway:byway"@.len() != "highway:motorway_link"@.len());
    assert("highway:byway"@[8] != "highway:trunk"@[8]);
    assert("highway:byway"@.len() != "highway:trunk_link"@.len());
    assert("highway:byway"@.len() != "highway:primary"@.len());
    assert("highway:byway"@.len() != "highway:primary_link"@.len());
    assert("highway:byway"@.len() != "highway:secondary"@.len());
    assert("highway:byway"@.len() != "highway:secondary_link"@.len());
    assert("highway:byway"@.len() != "highway:tertiary"@.len());
    assert("highway:byway"@.len() != "highway:tertiary_link"@.len());
    assert("highway:byway"@.len() != "highway:unclassified"@.len());
    assert("highway:byway"@.len() != "highway:residential"@.len());
    assert("highway:byway"@.len() != "highway:living_street"@.len());
    assert("highway:byway"@.len() != "highway:service"@.len());
    assert("highway:byway"@[8] != "highway:track"@[8]);
    assert("highway:byway"@.len() != "highway:road"@.len());
    assert("highway:byway"@.len() != "highway:cycleway"@.len());
    assert("highway:byway"@.len() != "highway:bridleway"@.len());
    assert("highway:byway"@.len() != "highway:pedestrian"@.len());
    assert("highway:byway"@.len() != "highway:footway"@.len());
    assert("highway:byway"@[8] != "highway:steps"@[8]);
    assert("highway:byway"@.len() != "highway:path"@.len());
    lemma_normalized_plain("highway:bus_stop"@);
    assert("highway:bus_stop"@[8] != "highway:motorway"@[8]);
    assert("highway:bus_stop"@.len() != "highway:motorway_link"@.len());
    assert("highway:bus_stop"@.len() != "highway:trunk"@.len());
    assert("highway:bus_stop"@.len() != "highway:trunk_link"@.len());
    assert("highway:bus_stop"@.len() != "highway:primary"@.len());
    assert("highway:bus_stop"@.len() != "highway:primary_link"@.len());
    assert("highway:bus_stop"@.len() != "highway:secondary"@.len());
    assert("highway:bus_stop"@.len() != "highway:secondary_link"@.len());
    assert("highway:bus_stop"@[8] != "highway:tertiary"@[8]);
    assert("highway:bus_stop"@.len() != "highway:tertiary_link"@.len());
    assert("highway:bus_stop"@.len() != "highway:unclassified"@.len());
    assert("highway:bus_stop"@.len() != "highway:residential"@.len());
    assert("highway:bus_stop"@.len() != "highway:living_street"@.len());
    assert("highway:bus_stop"@.len() != "highway:service"@.len());
    assert("highway:bus_stop"@.len() != "highway:track"@.len());
    assert("highway:bus_stop"@.len() != "highway:road"@.len());
    assert("highway:bus_stop"@[8] != "highway:cycleway"@[8]);
    assert("highway:bus_stop"@.len() != "highway:bridleway"@.len());
    assert("highway:bus_stop"@.len() != "highway:pedestrian"@.len());
    assert("highway:bus_stop"@.len() != "highway:footway"@.len());
    assert("highway:bus_stop"@.len() != "highway:steps"@.len());
    assert("highway:bus_stop"@.len() != "highway:path"@.len());
    lemma_normalized_plain("highway:raceway"@);
    assert("highway:raceway"@.len() != "highway:motorway"@.len());
    assert("highway:raceway"@.len() != "highway:motorway_link"@.len());
    assert("highway:raceway"@.len() != "highway:trunk"@.len());
    assert("highway:raceway"@.len() != "highway:trunk_link"@.len());
    assert("highway:raceway"@[8] != "highway:primary"@[8]);
    assert("highway:raceway"@.len() != "highway:primary_link"@.len());
    assert("highway:raceway"@.len() != "highway:secondary"@.len());
    assert("highway:raceway"@.len() != "highway:secondary_link"@.len());
    assert("highway:raceway"@.len() != "highway:tertiary"@.len());
    assert("highway:raceway"@.len() != "highway:tertiary_link"@.len());
    assert("highway:raceway"@.len() != "highway:unclassified"@.len());
    assert("highway:raceway"@.len() != "highway:residential"@.len());
    assert("highway:raceway"@.len() != "highway:living_street"@.len());
    assert("highway:raceway"@[8] != "highway:service"@[8]);
    assert("highway:raceway"@.len() != "highway:track"@.len());
    assert("highway:raceway"@.len() != "highway:road"@.len());
    assert("highway:raceway"@.len() != "highway:cycleway"@.len());
    assert("highway:raceway"@.len() != "highway:bridleway"@.len());
    assert("highway:raceway"@.len() != "highway:pedestrian"@.len());
    assert("highway:raceway"@[8] != "highway:footway"@[8]);
    assert("highway:raceway"@.len() != "highway:steps"@.len());
    assert("highway:raceway"@.len() != "highway:path"@.len());
}

/// The highway-tag of every street-type's name parses back to that street-type.
pub proof fn lemma_street_name_round_trip(t: StreetType)
    ensures
        street_type_of(normalized("highway:"@ + street_name(t)@)) == Some(t),
{
    reveal_strlit("highway:");
    reveal_strlit("highway:bridleway");
    reveal_strlit("highway:cycleway");
    reveal_strlit("highway:footway");
    reveal_strlit("highway:living_street");
    reveal_strlit("highway:motorway");
    reveal_strlit("highway:motorway_link");
    reveal_strlit("highway:path");
    reveal_strlit("highway:pedestrian");
    reveal_strlit("highway:primary");
    reveal_strlit("highway:primary_link");
    reveal_strlit("highway:residential");
    reveal_strlit("highway:road");
    reveal_strlit("highway:secondary");
    reveal_strlit("highway:secondary_link");
    reveal_strlit("highway:service");
    reveal_strlit("highway:steps");
    reveal_strlit("highway:tertiary");
    reveal_strlit("highway:tertiary_link");
    reveal_strlit("highway:track");
    reveal_strlit("highway:trunk");
    reveal_strlit("highway:trunk_link");
    reveal_strlit("highway:unclassified");
    match t {
        StreetType::Motorway => {
            reveal_strlit("motorway");
            lemma_normalized_plain("highway:"@ + "motorway"@);
            assert("highway:"@ + "motorway"@ =~= "highway:motorway"@);

            assert(street_type_of("highway:motorway"@) == Some(t));
        },
        StreetType::MotorwayLink => {
            reveal_strlit("motorway_link");
            lemma_normalized_plain("highway:"@ + "motorway_link"@);
            assert("highway:"@ + "motorway_link"@ =~= "highway:motorway_link"@);
            assert("highway:motorway_link"@.len() != "highway:motorway"@.len());
            assert(street_type_of("highway:motorway_link"@) == Some(t));
        },
        StreetType::Trunk => {
            reveal_strlit("trunk");
            lemma_normalized_plain("highway:"@ + "trunk"@);
            assert("highway:"@ + "trunk"@ =~= "highway:trunk"@);
            assert("highway:trunk"@.len() != "highway:motorway"@.len());
            assert("highway:trunk"@.len() != "highway:motorway_link"@.len());
            assert(street_type_of("highway:trunk"@) == Some(t));
        },
        StreetType::TrunkLink => {
            reveal_strlit("trunk_link");
            lemma_normalized_plain("highway:"@ + "trunk_link"@);
            assert("highway:"@ + "trunk_link"@ =~= "highway:trunk_link"@);
            assert("highway:trunk_link"@.len() != "highway:motorway"@.len());
            assert("highway:trunk_link"@.len() != "highway:motorway_link"@.len());
            assert("highway:trunk_link"@.len() != "highway:trunk"@.len());
            assert(street_type_of("highway:trunk_link"@) == Some(t));
        },
        StreetType::Primary => {
            reveal_strlit("primary");
            lemma_normalized_plain("highway:"@ + "primary"@);
            assert("highway:"@ + "primary"@ =~= "highway:primary"@);
            assert("highway:primary"@.len() != "highway:motorway"@.len());
            assert("highway:primary"@.len() != "highway:motorway_link"@.len());
            assert("highway:primary"@.len() != "highway:trunk"@.len());
            assert("highway:primary"@.len() != "highway:trunk_link"@.len());
            assert(street_type_of("highway:primary"@) == Some(t));
        },
        StreetType::PrimaryLink => {
            reveal_strlit("primary_link");
            lemma_normalized_plain("highway:"@ + "primary_link"@);
            assert("highway:"@ + "primary_link"@ =~= "highway:primary_link"@);
            assert("highway:primary_link"@.len() != "highway:motorway"@.len());
            assert("highway:primary_link"@.len() != "highway:motorway_link"@.len());
            assert("highway:primary_link"@.len() != "highway:trunk"@.len());
            assert("highway:primary_link"@.len() != "highway:trunk_link"@.len());
            assert("highway:primary_link"@.len() != "highway:primary"@.len());
            assert(street_type_of("highway:primary_link"@) == Some(t));
        },
        StreetType::Secondary => {
            reveal_strlit("secondary");
            lemma_normalized_plain("highway:"@ + "secondary"@);
            assert("highway:"@ + "secondary"@ =~= "highway:secondary"@);
            assert("highway:secondary"@.len() != "highway:motorway"@.len());
            assert("highway:secondary"@.len() != "highway:motorway_link"@.len());
            assert("highway:secondary"@.len() != "highway:trunk"@.len());
            assert("highway:secondary"@.len() != "highway:trunk_link"@.len());
            assert("highway:secondary"@.len() != "highway:primary"@.len());
            assert("highway:secondary"@.len() != "highway:primary_link"@.len());
            assert(street_type_of("highway:secondary"@) == Some(t));
        },
        StreetType::SecondaryLink => {
            reveal_strlit("secondary_link");
            lemma_normalized_plain("highway:"@ + "secondary_link"@);
            assert("highway:"@ + "secondary_link"@ =~= "highway:secondary_link"@);
            assert("highway:secondary_link"@.len() != "highway:motorway"@.len());
            assert("highway:secondary_link"@.len() != "highway:motorway_link"@.len());
            assert("highway:secondary_link"@.len() != "highway:trunk"@.len());
            assert("highway:secondary_link"@.len() != "highway:trunk_link"@.len());
            assert("highway:secondary_link"@.len() != "highway:primary"@.len());
            assert("highway:secondary_link"@.len() != "highway:primary_link"@.len());
            assert("highway:secondary_link"@.len() != "highway:secondary"@.len());
            assert(street_type_of("highway:secondary_link"@) == Some(t));
        },
        StreetType::Tertiary => {
            reveal_strlit("tertiary");
            lemma_normalized_plain("highway:"@ + "tertiary"@);
            assert("highway:"@ + "tertiary"@ =~= "highway:tertiary"@);
            assert("highway:tertiary"@[8] != "highway:motorway"@[8]);
            assert("highway:tertiary"@.len() != "highway:motorway_link"@.len());
            assert("highway:tertiary"@.len() != "highway:trunk"@.len());
            assert("highway:tertiary"@.len() != "highway:trunk_link"@.len());
            assert("highway:tertiary"@.len() != "highway:primary"@.len());
            assert("highway:tertiary"@.len() != "highway:primary_link"@.len());
            assert("highway:tertiary"@.len() != "highway:secondary"@.len());
            assert("highway:tertiary"@.len() != "highway:secondary_link"@.len());
            assert(street_type_of("highway:tertiary"@) == Some(t));
        },
        StreetType::TertiaryLink => {
            reveal_strlit("tertiary_link");
            lemma_normalized_plain("highway:"@ + "tertiary_link"@);
            assert("highway:"@ + "tertiary_link"@ =~= "highway:tertiary_link"@);
            assert("highway:tertiary_link"@.len() != "highway:motorway"@.len());
            assert("highway:tertiary_link"@[8] != "highway:motorway_link"@[8]);
            assert("highway:tertiary_link"@.len() != "highway:trunk"@.len());
            assert("highway:tertiary_link"@.len() != "highway:trunk_link"@.len());
            assert("highway:tertiary_link"@.len() != "highway:primary"@.len());
            assert("highway:tertiary_link"@.len() != "highway:primary_link"@.len());
            assert("highway:tertiary_link"@.len() != "highway:secondary"@.len());
            assert("highway:tertiary_link"@.len() != "highway:secondary_link"@.len());
            assert("highway:tertiary_link"@.len() != "highway:tertiary"@.len());
            assert(street_type_of("highway:tertiary_link"@) == Some(t));
        },
        StreetType::Unclassified => {
            reveal_strlit("unclassified");
            lemma_normalized_plain("highway:"@ + "unclassified"@);
            assert("highway:"@ + "unclassified"@ =~= "highway:unclassified"@);
            assert("highway:unclassified"@.len() != "highway:motorway"@.len());
            assert("highway:unclassified"@.len() != "highway:motorway_link"@.len());
            assert("highway:unclassified"@.len() != "highway:trunk"@.len());
            assert("highway:unclassified"@.len() != "highway:trunk_link"@.len());
            assert("highway:unclassified"@.len() != "highway:primary"@.len());
            assert("highway:unclassified"@[8] != "highway:primary_link"@[8]);
            assert("highway:unclassified"@.len() != "highway:secondary"@.len());
            assert("highway:unclassified"@.len() != "highway:secondary_link"@.len());
            assert("highway:unclassified"@.len() != "highway:tertiary"@.len());
            assert("highway:unclassified"@.len() != "highway:tertiary_link"@.len());
            assert(street_type_of("highway:unclassified"@) == Some(t));
        },
        StreetType::Residential => {
            reveal_strlit("residential");
            lemma_normalized_plain("highway:"@ + "residential"@);
            assert("highway:"@ + "residential"@ =~= "highway:residential"@);
            assert("highway:residential"@.len() != "highway:motorway"@.len());
            assert("highway:residential"@.len() != "highway:motorway_link"@.len());
            assert("highway:residential"@.len() != "highway:trunk"@.len());
            assert("highway:residential"@.len() != "highway:trunk_link"@.len());
            assert("highway:residential"@.len() != "highway:primary"@.len());
            assert("highway:residential"@.len() != "highway:primary_link"@.len());
            assert("highway:residential"@.len() != "highway:secondary"@.len());
            assert("highway:residential"@.len() != "highway:secondary_link"@.len());
            assert("highway:residential"@.len() != "highway:tertiary"@.len());
            assert("highway:residential"@.len() != "highway:tertiary_link"@.len());
            assert("highway:residential"@.len() != "highway:unclassified"@.len());
            assert(street_type_of("highway:residential"@) == Some(t));
        },
        StreetType::LivingStreet => {
            reveal_strlit("living_street");
            lemma_normalized_plain("highway:"@ + "living_street"@);
            assert("highway:"@ + "living_street"@ =~= "highway:living_street"@);
            assert("highway:living_street"@.len() != "highway:motorway"@.len());
            assert("highway:living_street"@[8] != "highway:motorway_link"@[8]);
            assert("highway:living_street"@.len() != "highway:trunk"@.len());
            assert("highway:living_street"@.len() != "highway:trunk_link"@.len());
            assert("highway:living_street"@.len() != "highway:primary"@.len());
            assert("highway:living_street"@.len() != "highway:primary_link"@.len());
            assert("highway:living_street"@.len() != "highway:secondary"@.len());
            assert("highway:living_street"@.len() != "highway:secondary_link"@.len());
            assert("highway:living_street"@.len() != "highway:tertiary"@.len());
            assert("highway:living_street"@[8] != "highway:tertiary_link"@[8]);
            assert("highway:living_street"@.len() != "highway:unclassified"@.len());
            assert("highway:living_street"@.len() != "highway:residential"@.len());
            assert(street_type_of("highway:living_street"@) == Some(t));
        },
        StreetType::Service => {
            reveal_strlit("service");
            lemma_normalized_plain("highway:"@ + "service"@);
            assert("highway:"@ + "service"@ =~= "highway:service"@);
            assert("highway:service"@.len() != "highway:motorway"@.len());
            assert("highway:service"@.len() != "highway:motorway_link"@.len());
            assert("highway:service"@.len() != "highway:trunk"@.len());
            assert("highway:service"@.len() != "highway:trunk_link"@.len());
            assert("highway:service"@[8] != "highway:primary"@[8]);
            assert("highway:service"@.len() != "highway:primary_link"@.len());
            assert("highway:service"@.len() != "highway:secondary"@.len());
            assert("highway:service"@.len() != "highway:secondary_link"@.len());
            assert("highway:service"@.len() != "highway:tertiary"@.len());
            assert("highway:service"@.len() != "highway:tertiary_link"@.len());
            assert("highway:service"@.len() != "highway:unclassified"@.len());
            assert("highway:service"@.len() != "highway:residential"@.len());
            assert("highway:service"@.len() != "highway:living_street"@.len());
            assert(street_type_of("highway:service"@) == Some(t));
        },
        StreetType::Track => {
            reveal_strlit("track");
            lemma_normalized_plain("highway:"@ + "track"@);
            assert("highway:"@ + "track"@ =~= "highway:track"@);
            assert("highway:track"@.len() != "highway:motorway"@.len());
            assert("highway:track"@.len() != "highway:motorway_link"@.len());
            assert("highway:track"@[10] != "highway:trunk"@[10]);
            assert("highway:track"@.len() != "highway:trunk_link"@.len());
            assert("highway:track"@.len() != "highway:primary"@.len());
            assert("highway:track"@.len() != "highway:primary_link"@.len());
            assert("highway:track"@.len() != "highway:secondary"@.len());
            assert("highway:track"@.len() != "highway:secondary_link"@.len());
            assert("highway:track"@.len() != "highway:tertiary"@.len());
            assert("highway:track"@.len() != "highway:tertiary_link"@.len());
            assert("highway:track"@.len() != "highway:unclassified"@.len());
            assert("highway:track"@.len() != "highway:residential"@.len());
            assert("highway:track"@.len() != "highway:living_street"@.len());
            assert("highway:track"@.len() != "highway:service"@.len());
            assert(street_type_of("highway:track"@) == Some(t));
        },
        StreetType::Road => {
            reveal_strlit("road");
            lemma_normalized_plain("highway:"@ + "road"@);
            assert("highway:"@ + "road"@ =~= "highway:road"@);
            assert("highway:road"@.len() != "highway:motorway"@.len());
            assert("highway:road"@.len() != "highway:motorway_link"@.len());
            assert("highway:road"@.len() != "highway:trunk"@.len());
            assert("highway:road"@.len() != "highway:trunk_link"@.len());
            assert("highway:road"@.len() != "highway:primary"@.len());
            assert("highway:road"@.len() != "highway:primary_link"@.len());
            assert("highway:road"@.len() != "highway:secondary"@.len());
            assert("highway:road"@.len() != "highway:secondary_link"@.len());
            assert("highway:road"@.len() != "highway:tertiary"@.len());
            assert("highway:road"@.len() != "highway:tertiary_link"@.len());
            assert("highway:road"@.len() != "highway:unclassified"@.len());
            assert("highway:road"@.len() != "highway:residential"@.len());
            assert("highway:road"@.len() != "highway:living_street"@.len());
            assert("highway:road"@.len() != "highway:service"@.len());
            assert("highway:road"@.len() != "highway:track"@.len());
            assert(street_type_of("highway:road"@) == Some(t));
        },
        StreetType::Cycleway => {
            reveal_strlit("cycleway");
            lemma_normalized_plain("highway:"@ + "cycleway"@);
            assert("highway:"@ + "cycleway"@ =~= "highway:cycleway"@);
            assert("highway:cycleway"@[8] != "highway:motorway"@[8]);
            assert("highway:cycleway"@.len() != "highway:motorway_link"@.len());
            assert("highway:cycleway"@.len() != "highway:trunk"@.len());
            assert("highway:cycleway"@.len() != "highway:trunk_link"@.len());
            assert("highway:cycleway"@.len() != "highway:primary"@.len());
            assert("highway:cycleway"@.len() != "highway:primary_link"@.len());
            assert("highway:cycleway"@.len() != "highway:secondary"@.len());
            assert("highway:cycleway"@.len() != "highway:secondary_link"@.len());
            assert("highway:cycleway"@[8] != "highway:tertiary"@[8]);
            assert("highway:cycleway"@.len() != "highway:tertiary_link"@.len());
            assert("highway:cycleway"@.len() != "highway:unclassified"@.len());
            assert("highway:cycleway"@.len() != "highway:residential"@.len());
            assert("highway:cycleway"@.len() != "highway:living_street"@.len());
            assert("highway:cycleway"@.len() != "highway:service"@.len());
            assert("highway:cycleway"@.len() != "highway:track"@.len());
            assert("highway:cycleway"@.len() != "highway:road"@.len());
            assert(street_type_of("highway:cycleway"@) == Some(t));
        },
        StreetType::Pedestrian => {
            reveal_strlit("pedestrian");
            lemma_normalized_plain("highway:"@ + "pedestrian"@);
            assert("highway:"@ + "pedestrian"@ =~= "highway:pedestrian"@);
            assert("highway:pedestrian"@.len() != "highway:motorway"@.len());
            assert("highway:pedestrian"@.len() != "highway:motorway_link"@.len());
            assert("highway:pedestrian"@.len() != "highway:trunk"@.len());
            assert("highway:pedestrian"@[8] != "highway:trunk_link"@[8]);
            assert("highway:pedestrian"@.len() != "highway:primary"@.len());
            assert("highway:pedestrian"@.len() != "highway:primary_link"@.len());
            assert("highway:pedestrian"@.len() != "highway:secondary"@.len());
            assert("highway:pedestrian"@.len() != "highway:secondary_link"@.len());
            assert("highway:pedestrian"@.len() != "highway:tertiary"@.len());
            assert("highway:pedestrian"@.len() != "highway:tertiary_link"@.len());
            assert("highway:pedestrian"@.len() != "highway:unclassified"@.len());
            assert("highway:pedestrian"@.len() != "highway:residential"@.len());
            assert("highway:pedestrian"@.len() != "highway:living_street"@.len());
            assert("highway:pedestrian"@.len() != "highway:service"@.len());
            assert("highway:pedestrian"@.len() != "highway:track"@.len());
            assert("highway:pedestrian"@.len() != "highway:road"@.len());
            assert("highway:pedestrian"@.len() != "highway:cycleway"@.len());
            assert("highway:pedestrian"@.len() != "highway:bridleway"@.len());
            assert(street_type_of("highway:pedestrian"@) == Some(t));
        },
        StreetType::Path => {
            reveal_strlit("path");
            lemma_normalized_plain("highway:"@ + "path"@);
            assert("highway:"@ + "path"@ =~= "highway:path"@);
            assert("highway:path"@.len() != "highway:motorway"@.len());
            assert("highway:path"@.len() != "highway:motorway_link"@.len());
            assert("highway:path"@.len() != "highway:trunk"@.len());
            assert("highway:path"@.len() != "highway:trunk_link"@.len());
            assert("highway:path"@.len() != "highway:primary"@.len());
            assert("highway:path"@.len() != "highway:primary_link"@.len());
            assert("highway:path"@.len() != "highway:secondary"@.len());
            assert("highway:path"@.len() != "highway:secondary_link"@.len());
            assert("highway:path"@.len() != "highway:tertiary"@.len());
            assert("highway:path"@.len() != "highway:tertiary_link"@.len());
            assert("highway:path"@.len() != "highway:unclassified"@.len());
            assert("highway:path"@.len() != "highway:residential"@.len());
            assert("highway:path"@.len() != "highway:living_street"@.len());
            assert("highway:path"@.len() != "highway:service"@.len());
            assert("highway:path"@.len() != "highway:track"@.len());
            assert("highway:path"@[8] != "highway:road"@[8]);
            assert("highway:path"@.len() != "highway:cycleway"@.len());
            assert("highway:path"@.len() != "highway:bridleway"@.len());
            assert("highway:path"@.len() != "highway:pedestrian"@.len());
            assert("highway:path"@.len() != "highway:footway"@.len());
            assert("highway:path"@.len() != "highway:steps"@.len());
            assert(street_type_of("highway:path"@) == Some(t));
        },
    }
}

/// The node-ids along which the way's edges run: forwards (reversed first, if the way is
/// reversed), and backwards again unless the way is oneway.
pub open spec fn way_node_sequence(nodes: Seq<i64>, oneway: (bool, bool)) -> Seq<i64> {
    let ns = if oneway.1 {
        nodes.reverse()
    } else {
        nodes
    };
    if oneway.0 {
        ns
    } else {
        ns + ns.take(ns.len() - 1).reverse()
    }
}

/// The proto-edges between consecutive node-ids.
pub open spec fn edges_along(ids: Seq<i64>, way_id: i64, maxspeed: u16) -> Seq<ProtoEdge> {
    Seq::new(
        (ids.len() - 1) as nat,
        |i: int|
            ProtoEdge {
                way_id: Some(way_id),
                src_id: ids[i],
                dst_id: ids[i + 1],
                meters: None,
                maxspeed,
            },
    )
}

/// The proto-edges that a way creates: none, if it has less than two nodes or an unknown
/// highway-tag.
pub open spec fn way_edges(
    id: i64,
    nodes: Seq<i64>,
    highway: Option<Seq<char>>,
    maxspeed: Option<Seq<char>>,
    oneway: Option<Seq<char>>,
) -> Seq<ProtoEdge> {
    if nodes.len() < 2 {
        Seq::empty()
    } else {
        match highway {
            None => Seq::empty(),
            Some(v) => match street_type_of(normalized("highway:"@ + v)) {
                None => Seq::empty(),
                Some(t) => edges_along(
                    way_node_sequence(nodes, oneway_of(oneway)),
                    id,
                    maxspeed_of(t, maxspeed),
                ),
            },
        }
    }
}

/// The proto-nodes after the nodes of all the edges have been marked, edge by edge.
pub open spec fn mark_edges(m: Map<i64, crate::routing::graph::ProtoNode>, edges: Seq<ProtoEdge>) -> Map<
    i64,
    crate::routing::graph::ProtoNode,
>
    decreases edges.len(),
{
    if edges.len() == 0 {
        m
    } else {
        let e = edges.last();
        mark_edge_node(mark_edge_node(mark_edges(m, edges.drop_last()), e.src_id), e.dst_id)
    }
}

/// Reads ways and nodes into a graph-builder.
pub struct Parser;

impl Parser {
    /// Adds the edges of a way, one per pair of consecutive nodes (and back again, unless the
    /// way is oneway).
    #[verifier::rlimit(30)]
    pub fn add_way(&self, way: Way, graph_builder: &mut GraphBuilder)
        requires
            old(graph_builder).wf(),
            way.tags.oneway matches Some(v) ==> trim_start_pos(v@) < v@.len(),
        ensures
            final(graph_builder).wf(),
            final(graph_builder).edge_seq() == old(graph_builder).edge_seq() + way_edges(
                way.id,
                way.nodes@,
                opt_view(way.tags.highway),
                opt_view(way.tags.maxspeed),
                opt_view(way.tags.oneway),
            ),
            final(graph_builder).node_map() == mark_edges(
                old(graph_builder).node_map(),
                way_edges(
                    way.id,
                    way.nodes@,
                    opt_view(way.tags.highway),
                    opt_view(way.tags.maxspeed),
                    opt_view(way.tags.oneway),
                ),
            ),
    {
        let ghost edges = way_edges(
            way.id,
            way.nodes@,
            opt_view(way.tags.highway),
            opt_view(way.tags.maxspeed),
            opt_view(way.tags.oneway),
        );
        if way.nodes.len() < 2 {
            proof {
                assert(old(graph_builder).edge_seq() + edges =~= old(graph_builder).edge_seq());
            }
            return;
        }
        // collect relevant data from file
        let highway_tag = match StreetType::from(&way) {
            Some(highway_tag) => highway_tag,
            None => {
                proof {
                    assert(old(graph_builder).edge_seq() + edges =~= old(graph_builder).edge_seq());
                }
                return;
            },
        };
        let maxspeed = highway_tag.parse_maxspeed(&way);
        let (is_oneway, is_reverse) = highway_tag.parse_oneway(&way);

        // create (proto-)edges
        let n = way.nodes.len();
        let mut ids: Vec<i64> = Vec::new();
        let mut i: usize = 0;
        let ghost ns = if is_reverse {
            way.nodes@.reverse()
        } else {
            way.nodes@
        };
        while i < n
            invariant
                n == way.nodes@.len(),
                i <= n,
                ns == if is_reverse {
                    way.nodes@.reverse()
                } else {
                    way.nodes@
                },
                ids@ == ns.take(i as int),
            decreases n - i,
        {
            let id = if is_reverse {
                way.nodes[n - 1 - i]
            } else {
                way.nodes[i]
            };
            ids.push(id);
            i = i + 1;
            proof {
                assert(ids@ =~= ns.take(i as int));
            }
        }
        proof {
            assert(ns.take(n as int) =~= ns);
        }
        if !is_oneway {
            // if not oneway -> add node-ids reversed to generate edges forwards and backwards
            let mut k: usize = n - 1;
            while k > 0
                invariant
                    n == ns.len(),
                    n >= 2,
                    k <= n - 1,
                    ids@ == ns + ns.take(n - 1).reverse().take(n - 1 - k),
                decreases k,
            {
                k = k - 1;
                ids.push(ids[k]);
                proof {
                    assert(ids@ =~= ns + ns.take(n - 1).reverse().take(n - 1 - k));
                }
            }
            proof {
                assert(ns.take(n - 1).reverse().take(n - 1) =~= ns.take(n - 1).reverse());
            }
        }
        let ghost seq = ids@;
        proof {
            assert(seq == way_node_sequence(way.nodes@, (is_oneway, is_reverse)));
            assert(edges == edges_along(seq, way.id, maxspeed));
        }
        // add edges, one per pair of consecutive node-ids
        let mut j: usize = 1;
        while j < ids.len()
            invariant
                ids@ == seq,
                seq.len() >= 2,
                1 <= j <= seq.len(),
                edges == edges_along(seq, way.id, maxspeed),
                graph_builder.wf(),
                graph_builder.edge_seq() == old(graph_builder).edge_seq() + edges.take(j - 1),
                graph_builder.node_map() == mark_edges(old(graph_builder).node_map(), edges.take(j - 1)),
            decreases seq.len() - j,
        {
            graph_builder.push_edge(Some(way.id), ids[j - 1], ids[j], None, maxspeed);
            proof {
                assert(edges.take(j as int) =~= edges.take(j - 1).push(edges[j - 1]));
                assert(graph_builder.edge_seq() =~= old(graph_builder).edge_seq() + edges.take(j as int));
                assert(edges.take(j as int).drop_last() =~= edges.take(j - 1));
            }
            j = j + 1;
        }
        proof {
            assert(edges.take(seq.len() - 1) =~= edges);
        }
    }

    /// Adds the coordinate of a node, if it belongs to an edge.
    pub fn add_node(&self, id: i64, decimicro_lat: i32, decimicro_lon: i32, graph_builder: &mut GraphBuilder)
        requires
            old(graph_builder).wf(),
        ensures
            final(graph_builder).wf(),
            final(graph_builder).edge_seq() == old(graph_builder).edge_seq(),
            final(graph_builder).node_map() == if old(graph_builder).node_map().contains_key(id)
                && old(graph_builder).node_map()[id].is_edge_node {
                set_coord(old(graph_builder).node_map(), id, Coordinate { decimicro_lat, decimicro_lon })
            } else {
                old(graph_builder).node_map()
            },
    {
        if graph_builder.is_node_in_edge(id) {
            graph_builder.push_node(id, Coordinate::new(decimicro_lat, decimicro_lon));
        }
    }
}


/// A way that is no oneway can be driven both ways: every edge along it has a reversed twin.
pub proof fn lemma_two_way_edges(nodes: Seq<i64>, i: int)
    requires
        nodes.len() >= 2,
        0 <= i < nodes.len() - 1,
    ensures
        ({
            let s = way_node_sequence(nodes, (false, false));
            let j = 2 * nodes.len() - 3 - i;
            &&& s.len() == 2 * nodes.len() - 1
            &&& s[i] == nodes[i] && s[i + 1] == nodes[i + 1]
            &&& 0 <= j < s.len() - 1
            &&& s[j] == nodes[i + 1] && s[j + 1] == nodes[i]
        }),
{
    let n = nodes.len();
    let r = nodes.take(n - 1).reverse();
    let s = way_node_sequence(nodes, (false, false));
    assert(s == nodes + r);
    let j = 2 * n - 3 - i;
    if j >= n {
        assert(s[j] == r[j - n]);
        assert(r[j - n] == nodes.take(n - 1)[n - 2 - (j - n)]);
    }
    assert(s[j + 1] == r[j + 1 - n]);
    assert(r[j + 1 - n] == nodes.take(n - 1)[n - 2 - (j + 1 - n)]);
}

} // verus!
