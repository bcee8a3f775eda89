//! Naming rules around the workbook: sheets renamed before the changes are
//! applied, and the name of the output file.
use vstd::prelude::*;

use crate::text::text_eq;

verus! {

/// The name a sheet carries in the output: two instrument names are
/// replaced by their short forms, any other name is kept.
pub open spec fn renamed_sheet(name: Seq<char>) -> Seq<char> {
    if name == "甲烷非甲烷分析仪"@ {
        "NMHC监测仪"@
    } else if name == "VOCs在线监测仪"@ {
        "VOCs监测仪"@
    } else {
        name
    }
}

/// The name a sheet carries in the output (see `renamed_sheet`).
pub fn renamed_sheet_name(name: &str) -> (r: String)
    ensures
        r@ == renamed_sheet(name@),
{
    if text_eq(name, "甲烷非甲烷分析仪") {
        String::from_str("NMHC监测仪")
    } else if text_eq(name, "VOCs在线监测仪") {
        String::from_str("VOCs监测仪")
    } else {
        String::from_str(name)
    }
}

/// The output file name: the input's file name behind `processed_`, or
/// `processed_output.xlsx` where the input has no file name.
pub fn processed_output_path(file_name: Option<&str>) -> (r: String)
    ensures
        r@ == "processed_"@ + match file_name {
            Some(n) => n@,
            None => "output.xlsx"@,
        },
{
    let prefix = String::from_str("processed_");
    match file_name {
        Some(n) => prefix.concat(n),
        None => prefix.concat("output.xlsx"),
    }
}

} // verus!
