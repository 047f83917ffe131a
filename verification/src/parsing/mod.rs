pub mod fmi;

use crate::helpers::text::{ascii_lower, chars_of, is_text, string_from_chars, to_ascii_lowercase};
use vstd::prelude::*;

verus! {

/// The kinds of map-files that can be parsed.
#[derive(Copy, Clone, Debug, PartialEq, Eq, Structural)]
pub enum Type {
    PBF,
    FMI,
}

/// The kind of map-file of an extension, which is compared ignoring ASCII-case.
pub open spec fn type_of(ext: Seq<char>) -> Option<Type> {
    let lower = ext.map_values(|c: char| ascii_lower(c));
    if lower == "pbf"@ {
        Some(Type::PBF)
    } else if lower == "fmi"@ {
        Some(Type::FMI)
    } else {
        None
    }
}

impl Type {
    /// The extensions that are supported.
    pub fn supported_exts() -> (exts: [&'static str; 2])
        ensures
            exts[0]@ == "pbf"@,
            exts[1]@ == "fmi"@,
    {
        ["pbf", "fmi"]
    }

    /// The kind of map-file of the given extension; an unsupported extension is returned as
    /// error, in ASCII-lowercase.
    pub fn from_extension(ext: &str) -> (r: Result<Type, String>)
        ensures
            match type_of(ext@) {
                Some(t) => r == Ok::<Type, String>(t),
                None => r matches Err(e) && e@ == ext@.map_values(|c: char| ascii_lower(c)),
            },
    {
        let chars = chars_of(ext);
        let lower = to_ascii_lowercase(chars.as_slice());
        if is_text(lower.as_slice(), "pbf") {
            Ok(Type::PBF)
        } else if is_text(lower.as_slice(), "fmi") {
            Ok(Type::FMI)
        } else {
            Err(string_from_chars(lower.as_slice()))
        }
    }
}

} // verus!
