pub mod pbf;

use crate::helpers::text::str_eq;
use vstd::prelude::*;

verus! {

/// The supported file-formats.
#[derive(Copy, Clone, Debug, PartialEq, Eq, Structural)]
pub enum Support {
    PBF,
    FMI,
    XML,
}

/// Why a file is not supported.
#[derive(Clone, Debug, PartialEq, Eq)]
pub enum FileError {
    /// The file's extension (possibly empty) is none of the supported ones.
    UnsupportedExtension(String),
    /// The file's path is no valid unicode.
    InvalidUnicode,
}

/// The format that a file-extension stands for.
pub open spec fn support_of(ext: Seq<char>) -> Option<Support> {
    if ext == "pbf"@ {
        Some(Support::PBF)
    } else if ext == "fmi"@ {
        Some(Support::FMI)
    } else if ext == "osm"@ {
        Some(Support::XML)
    } else {
        None
    }
}

impl Support {
    /// The extensions offered to the user.
    pub fn supported_exts() -> (exts: [&'static str; 2])
        ensures
            exts[0]@ == "pbf"@,
            exts[1]@ == "fmi"@,
    {
        proof {
            reveal_strlit("pbf");
            reveal_strlit("fmi");
        }
        ["pbf", "fmi"]
    }

    /// The format of a file with the given extension (empty if the file has none).
    pub fn from_extension(ext: &str) -> (r: Result<Support, FileError>)
        ensures
            match support_of(ext@) {
                Some(s) => r == Ok::<Support, FileError>(s),
                None => r matches Err(FileError::UnsupportedExtension(e)) && e@ == ext@,
            },
    {
        if str_eq(ext, "pbf") {
            Ok(Support::PBF)
        } else if str_eq(ext, "fmi") {
            Ok(Support::FMI)
        } else if str_eq(ext, "osm") {
            Ok(Support::XML)
        } else {
            Err(FileError::UnsupportedExtension(ext.to_owned()))
        }
    }
}

} // verus!
