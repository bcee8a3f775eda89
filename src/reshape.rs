//! The reshape variant: locating the measurement columns by their titles,
//! normalising timestamps, and keeping only valid measurements.
use vstd::prelude::*;

use crate::engine::has_quality_code;
use crate::text::{contains, contains_text, text_eq, trim, trim_text};

verus! {

/// The layout every normalised timestamp is written in.
pub open spec fn canonical_layout() -> Seq<char> {
    "%Y-%m-%d %H:%M:%S"@
}

/// The canonical text of the timestamp `s` read in the chrono layout
/// `layout`, or `None` where `s` does not match the layout.
pub uninterp spec fn reformatted_time(s: Seq<char>, layout: Seq<char>) -> Option<Seq<char>>;

/// Relies on chrono's `NaiveDateTime::parse_from_str`, which reads `s` in the
/// layout `layout`, and on `NaiveDateTime::format` with the canonical layout,
/// which cannot fail there; the text depends on `s` and `layout` alone.
#[verifier::external_body]
fn reformat_time(s: &str, layout: &str, out_layout: &str) -> (r: Option<String>)
    requires
        out_layout@ == canonical_layout(),
    ensures
        r.is_some() == reformatted_time(s@, layout@).is_some(),
        r.is_some() ==> r.unwrap()@ == reformatted_time(s@, layout@).unwrap(),
{
    match chrono::NaiveDateTime::parse_from_str(s, layout) {
        Ok(dt) => Some(dt.format(out_layout).to_string()),
        Err(_) => None,
    }
}

/// Why a timestamp could not be normalised.
#[derive(Debug, Clone, Copy, PartialEq, Eq, Structural)]
pub enum TimeError {
    /// The text holds neither `T` nor a space, so no layout applies.
    UnknownLayout,
    /// The text matches neither layout tried.
    Malformed,
}

/// The two layouts tried for a trimmed timestamp, in order: with a `T`, the
/// ISO forms; otherwise, with a space, the dashed and slashed forms.
pub open spec fn layouts_for(t: Seq<char>) -> Option<(Seq<char>, Seq<char>)> {
    if contains(t, "T"@) {
        Some(("%Y-%m-%dT%H:%M:%S"@, "%Y-%m-%dT%H:%M:%S%.f"@))
    } else if contains(t, " "@) {
        Some(("%Y-%m-%d %H:%M:%S"@, "%Y/%m/%d %H:%M:%S"@))
    } else {
        None
    }
}

/// The layouts to try for a timestamp (see `layouts_for`); the text is
/// trimmed first.
pub fn candidate_layouts(time_str: &str) -> (r: Option<(&'static str, &'static str)>)
    ensures
        r.is_some() == layouts_for(trim(time_str@)).is_some(),
        r.is_some() ==> r.unwrap().0@ == layouts_for(trim(time_str@)).unwrap().0
            && r.unwrap().1@ == layouts_for(trim(time_str@)).unwrap().1,
{
    let t = trim_text(time_str);
    if contains_text(t.as_str(), "T") {
        Some(("%Y-%m-%dT%H:%M:%S", "%Y-%m-%dT%H:%M:%S%.f"))
    } else if contains_text(t.as_str(), " ") {
        Some(("%Y-%m-%d %H:%M:%S", "%Y/%m/%d %H:%M:%S"))
    } else {
        None
    }
}

/// The outcome of normalising a timestamp: its trimmed text read in the
/// first layout that fits, in canonical form.
pub open spec fn normalised_time(s: Seq<char>) -> Result<Seq<char>, TimeError> {
    let t = trim(s);
    match layouts_for(t) {
        None => Err(TimeError::UnknownLayout),
        Some((l1, l2)) => match reformatted_time(t, l1) {
            Some(v) => Ok(v),
            None => match reformatted_time(t, l2) {
                Some(v) => Ok(v),
                None => Err(TimeError::Malformed),
            },
        },
    }
}

/// Normalises a timestamp to the form `YYYY-MM-DD HH:MM:SS`.
pub fn parse_time_to_target_format(time_str: &str) -> (r: Result<String, TimeError>)
    ensures
        match r {
            Ok(v) => normalised_time(time_str@) == Ok::<Seq<char>, TimeError>(v@),
            Err(e) => normalised_time(time_str@) == Err::<Seq<char>, TimeError>(e),
        },
{
    let t = trim_text(time_str);
    proof {
        reveal_strlit("%Y-%m-%d %H:%M:%S");
    }
    match candidate_layouts(time_str) {
        None => Err(TimeError::UnknownLayout),
        Some((l1, l2)) => match reformat_time(t.as_str(), l1, "%Y-%m-%d %H:%M:%S") {
            Some(v) => Ok(v),
            None => match reformat_time(t.as_str(), l2, "%Y-%m-%d %H:%M:%S") {
                Some(v) => Ok(v),
                None => Err(TimeError::Malformed),
            },
        },
    }
}

/// The text written for a timestamp cell: the normalised form where there
/// is one, else the original text unchanged.
pub fn time_cell_text(original: &str, normalised: Result<String, TimeError>) -> (r: String)
    ensures
        r@ == match normalised {
            Ok(v) => v@,
            Err(_) => original@,
        },
{
    match normalised {
        Ok(v) => v,
        Err(_) => String::from_str(original),
    }
}

/// A measurement worth keeping: not empty, free of quality codes, and
/// numeric (`is_number`, decided by the caller on the trimmed text).
pub open spec fn keeps_measurement(v: Seq<char>, is_number: bool) -> bool {
    v.len() > 0 && !(contains(v, "(C)"@) || contains(v, "(RM)"@)) && is_number
}

/// The measurement as written, or `None` where it is not kept.
pub fn measurement_value(value: &str, is_number: bool) -> (r: Option<String>)
    ensures
        r.is_some() == keeps_measurement(value@, is_number),
        r.is_some() ==> r.unwrap()@ == value@,
{
    if value.unicode_len() == 0 || has_quality_code(value) || !is_number {
        None
    } else {
        Some(String::from_str(value))
    }
}

/// A header cell names `title`: it is not empty and, trimmed, equals it.
pub open spec fn header_names(h: Seq<char>, title: Seq<char>) -> bool {
    h.len() > 0 && trim(h) == title
}

/// Some header of `headers` names `title`.
pub open spec fn some_header_names(headers: Seq<String>, title: Seq<char>) -> bool {
    exists|i: int| 0 <= i < headers.len() && header_names((#[trigger] headers[i])@, title)
}

/// The 0-based column whose header names `title`; where several do, the
/// last of them.
pub fn header_column(headers: &Vec<String>, title: &str) -> (r: Option<usize>)
    ensures
        r.is_none() <==> (forall|i: int| 0 <= i < headers@.len() ==> !header_names((#[trigger] headers@[i])@, title@)),
        r.is_some() ==> r.unwrap() < headers@.len() && header_names(headers@[r.unwrap() as int]@, title@)
            && forall|j: int| r.unwrap() < j < headers@.len() ==> !header_names((#[trigger] headers@[j])@, title@),
{
    let mut i: usize = headers.len();
    while i > 0
        invariant
            i <= headers@.len(),
            forall|j: int| i <= j < headers@.len() ==> !header_names((#[trigger] headers@[j])@, title@),
        decreases i,
    {
        let h = &headers[i - 1];
        if h.unicode_len() > 0 {
            let t = trim_text(h.as_str());
            if text_eq(t.as_str(), title) {
                return Some(i - 1);
            }
        }
        i = i - 1;
    }
    None
}

/// Number of columns the reshape reads: the timestamp, then eight ions.
pub const RESHAPE_COLUMNS: usize = 9;

/// The title of the `k`-th column the reshape reads.
pub open spec fn title_of(k: int) -> Seq<char> {
    if k == 0 {
        "时间"@
    } else if k == 1 {
        "NO₃⁻(μg/m³)"@
    } else if k == 2 {
        "SO₄²⁻(μg/m³)"@
    } else if k == 3 {
        "NH₄⁺(μg/m³)"@
    } else if k == 4 {
        "Cl⁻(μg/m³)"@
    } else if k == 5 {
        "K⁺(μg/m³)"@
    } else if k == 6 {
        "Na⁺(μg/m³)"@
    } else if k == 7 {
        "Mg²⁺(μg/m³)"@
    } else {
        "Ca²⁺(μg/m³)"@
    }
}

/// The title of the `k`-th column the reshape reads.
pub fn reshape_title(k: usize) -> (r: &'static str)
    requires
        k < RESHAPE_COLUMNS,
    ensures
        r@ == title_of(k as int),
{
    if k == 0 {
        "时间"
    } else if k == 1 {
        "NO₃⁻(μg/m³)"
    } else if k == 2 {
        "SO₄²⁻(μg/m³)"
    } else if k == 3 {
        "NH₄⁺(μg/m³)"
    } else if k == 4 {
        "Cl⁻(μg/m³)"
    } else if k == 5 {
        "K⁺(μg/m³)"
    } else if k == 6 {
        "Na⁺(μg/m³)"
    } else if k == 7 {
        "Mg²⁺(μg/m³)"
    } else {
        "Ca²⁺(μg/m³)"
    }
}

/// The 0-based columns of every title the reshape reads, in the order of
/// `title_of`; `Err(k)` where title `k` is the first that no header names.
pub fn locate_columns(headers: &Vec<String>) -> (r: Result<Vec<usize>, usize>)
    ensures
        match r {
            Ok(cols) => cols@.len() == RESHAPE_COLUMNS && forall|k: int| 0 <= k < RESHAPE_COLUMNS ==> {
                let c = #[trigger] cols@[k] as int;
                &&& c < headers@.len()
                &&& header_names(headers@[c]@, title_of(k))
                &&& forall|j: int| c < j < headers@.len() ==> !header_names((#[trigger] headers@[j])@, title_of(k))
            },
            Err(missing) => missing < RESHAPE_COLUMNS
                && (forall|i: int| 0 <= i < headers@.len() ==> !header_names((#[trigger] headers@[i])@, title_of(missing as int)))
                && forall|m: int| 0 <= m < missing ==> #[trigger] some_header_names(headers@, title_of(m)),
        },
{
    let mut cols: Vec<usize> = Vec::new();
    let mut k: usize = 0;
    while k < RESHAPE_COLUMNS
        invariant
            k <= RESHAPE_COLUMNS,
            cols@.len() == k,
            forall|m: int| 0 <= m < k ==> {
                let c = #[trigger] cols@[m] as int;
                &&& c < headers@.len()
                &&& header_names(headers@[c]@, title_of(m))
                &&& forall|j: int| c < j < headers@.len() ==> !header_names((#[trigger] headers@[j])@, title_of(m))
            },
        decreases RESHAPE_COLUMNS - k,
    {
        match header_column(headers, reshape_title(k)) {
            Some(c) => {
                cols.push(c);
            },
            None => {
                assert forall|m: int| 0 <= m < k implies #[trigger] some_header_names(headers@, title_of(m)) by {
                    let c = cols@[m] as int;
                    assert(header_names(headers@[c]@, title_of(m)));
                }
                assert(forall|i: int| 0 <= i < headers@.len() ==> !header_names((#[trigger] headers@[i])@, title_of(k as int)));
                return Err(k);
            },
        }
        k = k + 1;
    }
    Ok(cols)
}

} // verus!
