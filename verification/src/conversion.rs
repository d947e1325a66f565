//! Which conversion a file name asks for, judged by its extensions.

use vstd::prelude::*;
use crate::text::str_eq;

verus! {

/// The conversion that an input file's extension selects.
#[derive(Debug, Clone, Copy, PartialEq, Eq, Structural)]
pub enum Conversion {
    /// `.stb` or `.stm`: a spreadsheet table to CSV.
    StbToCsv,
    /// `.stl`: a localization table to CSV.
    StlToCsv,
    /// `.csv`: back to a binary table.
    CsvToBinary,
    /// Any other extension.
    UnknownExtension,
    /// No extension at all.
    NoExtension,
}

/// The conversion selected by extension `ext`.
pub open spec fn spec_conversion(ext: Option<Seq<char>>) -> Conversion {
    match ext {
        None => Conversion::NoExtension,
        Some(e) => if e == "stb"@ || e == "stm"@ {
            Conversion::StbToCsv
        } else if e == "stl"@ {
            Conversion::StlToCsv
        } else if e == "csv"@ {
            Conversion::CsvToBinary
        } else {
            Conversion::UnknownExtension
        },
    }
}

/// The conversion selected by a file's extension.
pub fn conversion_for_extension(ext: Option<&str>) -> (c: Conversion)
    ensures
        c == spec_conversion(
            match ext {
                Some(e) => Some(e@),
                None => None,
            },
        ),
{
    match ext {
        None => Conversion::NoExtension,
        Some(e) => {
            if str_eq(e, "stb") || str_eq(e, "stm") {
                Conversion::StbToCsv
            } else if str_eq(e, "stl") {
                Conversion::StlToCsv
            } else if str_eq(e, "csv") {
                Conversion::CsvToBinary
            } else {
                Conversion::UnknownExtension
            }
        },
    }
}

/// A CSV file named `<name>.<inner>.csv` becomes an STL table exactly when `inner`
/// is `stl`; any other name becomes an STB table.
pub fn csv_target_is_stl(inner_ext: Option<&str>) -> (r: bool)
    ensures
        r == (inner_ext matches Some(e) && e@ == "stl"@),
{
    match inner_ext {
        Some(e) => str_eq(e, "stl"),
        None => false,
    }
}

/// The name left after dropping `.csv` already ends in a binary table extension
/// (`stb` or `stm`), so it is kept as the output name.
pub fn keeps_binary_extension(inner_ext: Option<&str>) -> (r: bool)
    ensures
        r == (inner_ext matches Some(e) && (e@ == "stb"@ || e@ == "stm"@)),
{
    match inner_ext {
        Some(e) => str_eq(e, "stb") || str_eq(e, "stm"),
        None => false,
    }
}

} // verus!
