//! The rule engine: for one cell, its new text and whether it is highlighted.
//!
//! The rules run as a fixed pipeline, each seeing what the previous left:
//! term substitutions, the anchor-gated sentinel rewrite, removal of
//! bracketed spans (which highlights the cell), and a final trim.
use vstd::prelude::*;

use crate::text::{contains, contains_text, replace_all, replace_text, trim, trim_end, trim_start, trim_text};

verus! {

/// The pattern of a bracketed span: `(`, anything but `)`, then `)`.
pub open spec fn bracket_pattern() -> Seq<char> {
    "\\([^)]*\\)"@
}

/// The pattern of a quality code in a measurement: `(C)` or `(RM)`.
pub open spec fn quality_pattern() -> Seq<char> {
    "\\((C|RM)\\)"@
}

/// Index of the first `)` in `s`, or its length when there is none.
pub open spec fn close_at(s: Seq<char>) -> nat
    decreases s.len(),
{
    if s.len() == 0 {
        0
    } else if s[0] == ')' {
        0
    } else {
        1 + close_at(s.drop_first())
    }
}

/// Some `(` in `s` is followed, later on, by a `)`.
pub open spec fn has_bracket_span(s: Seq<char>) -> bool {
    exists|i: int, j: int| 0 <= i < j < s.len() && s[i] == '(' && s[j] == ')'
}

/// `s` with its bracketed spans removed, found from the left: a span runs
/// from a `(` to the first `)` after it.
pub open spec fn strip_brackets(s: Seq<char>) -> Seq<char>
    decreases s.len(),
{
    if s.len() == 0 {
        s
    } else if s[0] == '(' && close_at(s.drop_first()) < s.len() - 1 {
        strip_brackets(s.subrange(close_at(s.drop_first()) + 2int, s.len() as int))
    } else {
        seq![s[0]] + strip_brackets(s.drop_first())
    }
}

/// Relies on `regex::Regex::new` to compile one of the two patterns above
/// (both are valid), and on `Regex::is_match` to tell whether the pattern
/// matches somewhere in `s`.
#[verifier::external_body]
fn regex_is_match(pattern: &str, s: &str) -> (r: bool)
    requires
        pattern@ == bracket_pattern() || pattern@ == quality_pattern(),
    ensures
        pattern@ == bracket_pattern() ==> r == has_bracket_span(s@),
        pattern@ == quality_pattern() ==> r == (contains(s@, "(C)"@) || contains(s@, "(RM)"@)),
{
    regex::Regex::new(pattern).unwrap().is_match(s)
}

/// Relies on `regex::Regex::new` to compile the bracket pattern, and on
/// `Regex::replace_all` with an empty replacement, which removes the
/// leftmost-first, non-overlapping matches.
#[verifier::external_body]
fn regex_remove_all(pattern: &str, s: &str) -> (r: String)
    requires
        pattern@ == bracket_pattern(),
    ensures
        r@ == strip_brackets(s@),
{
    regex::Regex::new(pattern).unwrap().replace_all(s, "").to_string()
}

/// Whether `s` carries a quality code, `(C)` or `(RM)`.
pub fn has_quality_code(s: &str) -> (r: bool)
    ensures
        r == (contains(s@, "(C)"@) || contains(s@, "(RM)"@)),
{
    regex_is_match("\\((C|RM)\\)", s)
}

/// Number of entries in the term table.
pub const TERM_COUNT: usize = 5;

/// The `k`-th entry of the term table: the text to find.
pub open spec fn term_find(k: int) -> Seq<char> {
    if k == 0 {
        "甲烷非甲烷分析仪"@
    } else if k == 1 {
        "VOCs在线监测仪"@
    } else if k == 2 {
        "总烃(ppbv)"@
    } else if k == 3 {
        "间、对-二甲苯"@
    } else {
        "邻二甲苯"@
    }
}

/// The `k`-th entry of the term table: the text that replaces it.
pub open spec fn term_replace(k: int) -> Seq<char> {
    if k == 0 {
        "NMHC监测仪"@
    } else if k == 1 {
        "VOCs监测仪"@
    } else if k == 2 {
        "总烃(ppbC)"@
    } else if k == 3 {
        "间/对-二甲苯"@
    } else {
        "邻-二甲苯"@
    }
}

/// `s` after the first `k` entries of the term table, in order.
pub open spec fn substituted_upto(s: Seq<char>, k: nat) -> Seq<char>
    decreases k,
{
    if k == 0 {
        s
    } else {
        replace_all(substituted_upto(s, (k - 1) as nat), term_find(k - 1), term_replace(k - 1))
    }
}

/// `s` after the whole term table.
pub open spec fn substituted(s: Seq<char>) -> Seq<char> {
    substituted_upto(s, TERM_COUNT as nat)
}

fn term(k: usize) -> (r: (&'static str, &'static str))
    requires
        k < TERM_COUNT,
    ensures
        r.0@ == term_find(k as int),
        r.1@ == term_replace(k as int),
        r.0@.len() > 0,
{
    proof {
        reveal_strlit("甲烷非甲烷分析仪");
        reveal_strlit("VOCs在线监测仪");
        reveal_strlit("总烃(ppbv)");
        reveal_strlit("间、对-二甲苯");
        reveal_strlit("邻二甲苯");
    }
    if k == 0 {
        ("甲烷非甲烷分析仪", "NMHC监测仪")
    } else if k == 1 {
        ("VOCs在线监测仪", "VOCs监测仪")
    } else if k == 2 {
        ("总烃(ppbv)", "总烃(ppbC)")
    } else if k == 3 {
        ("间、对-二甲苯", "间/对-二甲苯")
    } else {
        ("邻二甲苯", "邻-二甲苯")
    }
}

/// `s` with every entry of the term table applied, in order.
pub fn substitute_terms(s: &str) -> (r: String)
    ensures
        r@ == substituted(s@),
{
    let mut v = String::from_str(s);
    let mut k: usize = 0;
    while k < TERM_COUNT
        invariant
            k <= TERM_COUNT,
            v@ == substituted_upto(s@, k as nat),
        decreases TERM_COUNT - k,
    {
        let (f, t) = term(k);
        v = replace_text(v.as_str(), f, t);
        k = k + 1;
    }
    v
}

/// The text values of the anchor cells of row 3, read once before any cell
/// is transformed.
pub struct Anchors {
    /// Column 9 (`I3`).
    pub i3: String,
    /// Column 11 (`K3`).
    pub k3: String,
    /// Column 17 (`Q3`).
    pub q3: String,
    /// Column 51 (`AY3`).
    pub ay3: String,
}

/// The anchors as text: `I3`, `K3`, `Q3` and `AY3`.
pub type AnchorView = (Seq<char>, Seq<char>, Seq<char>, Seq<char>);

impl View for Anchors {
    type V = AnchorView;

    open spec fn view(&self) -> AnchorView {
        (self.i3@, self.k3@, self.q3@, self.ay3@)
    }
}

/// The placeholder of a missing measurement.
pub open spec fn sentinel() -> Seq<char> {
    "-999"@
}

/// The sentinel rewrite: from row 4 on, a value holding the sentinel in one
/// of four columns becomes the sentinel tagged with a code, where the anchor
/// of that column holds the station code the rule expects.
pub open spec fn sentinel_rewrite(row: int, col: int, v: Seq<char>, a: AnchorView) -> Seq<char> {
    if row >= 4 && contains(v, sentinel()) {
        if col == 9 && a.0 == "a24514"@ {
            "-999#a24041"@
        } else if col == 11 && a.1 == "a24011"@ {
            "-999#a24537"@
        } else if col == 17 && a.2 == "a24510"@ {
            "-999#a24504"@
        } else if col == 51 && a.3 == "a25014"@ {
            "-999#a25501"@
        } else {
            v
        }
    } else {
        v
    }
}

/// The bracket rule applies: from row 3 on, to a value with a bracketed span.
pub open spec fn bracket_fires(row: int, v: Seq<char>) -> bool {
    row >= 3 && has_bracket_span(v)
}

/// The value before the final trim.
pub open spec fn untrimmed_value(row: int, col: int, original: Seq<char>, a: AnchorView) -> Seq<char> {
    let v = sentinel_rewrite(row, col, substituted(original), a);
    if bracket_fires(row, v) {
        strip_brackets(v)
    } else {
        v
    }
}

/// The value the pipeline gives a cell.
pub open spec fn transformed_value(row: int, col: int, original: Seq<char>, a: AnchorView) -> Seq<char> {
    trim(untrimmed_value(row, col, original, a))
}

/// Whether the pipeline highlights a cell.
pub open spec fn highlighted(row: int, col: int, original: Seq<char>, a: AnchorView) -> bool {
    bracket_fires(row, sentinel_rewrite(row, col, substituted(original), a))
}

/// What the pipeline makes of one cell.
pub struct CellTransform {
    pub value: String,
    /// The new value differs from the original.
    pub changed: bool,
    /// The bracket rule fired.
    pub highlight: bool,
}

fn apply_sentinel(row: usize, col: usize, v: String, a: &Anchors) -> (r: String)
    ensures
        r@ == sentinel_rewrite(row as int, col as int, v@, a@),
{
    if row >= 4 && contains_text(v.as_str(), "-999") {
        if col == 9 && crate::text::text_eq(a.i3.as_str(), "a24514") {
            String::from_str("-999#a24041")
        } else if col == 11 && crate::text::text_eq(a.k3.as_str(), "a24011") {
            String::from_str("-999#a24537")
        } else if col == 17 && crate::text::text_eq(a.q3.as_str(), "a24510") {
            String::from_str("-999#a24504")
        } else if col == 51 && crate::text::text_eq(a.ay3.as_str(), "a25014") {
            String::from_str("-999#a25501")
        } else {
            v
        }
    } else {
        v
    }
}

/// Runs the rule pipeline on the cell at 1-based `row` and `col`.
pub fn transform_cell(row: usize, col: usize, original: &str, anchors: &Anchors) -> (r: CellTransform)
    ensures
        r.value@ == transformed_value(row as int, col as int, original@, anchors@),
        r.highlight == highlighted(row as int, col as int, original@, anchors@),
        r.changed == (r.value@ != original@),
{
    let v = substitute_terms(original);
    let v = apply_sentinel(row, col, v, anchors);
    let mut highlight = false;
    let v = if row >= 3 && regex_is_match("\\([^)]*\\)", v.as_str()) {
        highlight = true;
        regex_remove_all("\\([^)]*\\)", v.as_str())
    } else {
        v
    };
    let value = trim_text(v.as_str());
    let changed = !crate::text::text_eq(value.as_str(), original);
    CellTransform { value, changed, highlight }
}

proof fn lemma_close_at(s: Seq<char>)
    ensures
        close_at(s) <= s.len(),
        forall|k: int| 0 <= k < close_at(s) ==> s[k] != ')',
        close_at(s) < s.len() ==> s[close_at(s) as int] == ')',
    decreases s.len(),
{
    if s.len() > 0 && s[0] != ')' {
        lemma_close_at(s.drop_first());
        assert forall|k: int| 0 <= k < close_at(s) implies s[k] != ')' by {
            if k > 0 {
                assert(s[k] == s.drop_first()[k - 1]);
            }
        }
    }
}

/// Every character of `strip_brackets(s)` is a character of `s`.
proof fn lemma_strip_chars(s: Seq<char>)
    ensures
        forall|k: int| 0 <= k < strip_brackets(s).len() ==> s.contains(#[trigger] strip_brackets(s)[k]),
    decreases s.len(),
{
    if s.len() > 0 {
        let t = s.drop_first();
        if s[0] == '(' && close_at(t) < s.len() - 1 {
            let u = s.subrange(close_at(t) + 2int, s.len() as int);
            lemma_strip_chars(u);
            assert forall|k: int| 0 <= k < strip_brackets(s).len() implies s.contains(
                #[trigger] strip_brackets(s)[k],
            ) by {
                assert(strip_brackets(s) == strip_brackets(u));
                assert(u.contains(strip_brackets(u)[k]));
                let m = choose|m: int| 0 <= m < u.len() && u[m] == strip_brackets(s)[k];
                assert(s[close_at(t) + 2int + m] == u[m]);
            }
        } else {
            lemma_strip_chars(t);
            assert forall|k: int| 0 <= k < strip_brackets(s).len() implies s.contains(
                #[trigger] strip_brackets(s)[k],
            ) by {
                if k > 0 {
                    let m = choose|m: int| 0 <= m < t.len() && t[m] == strip_brackets(t)[k - 1];
                    assert(s[m + 1] == t[m]);
                } else {
                    assert(s[0] == strip_brackets(s)[0]);
                }
            }
        }
    }
}

/// What bracket removal leaves holds no bracketed span.
pub proof fn lemma_strip_leaves_no_span(s: Seq<char>)
    ensures
        !has_bracket_span(strip_brackets(s)),
    decreases s.len(),
{
    if s.len() > 0 {
        let t = s.drop_first();
        lemma_close_at(t);
        if s[0] == '(' && close_at(t) < s.len() - 1 {
            lemma_strip_leaves_no_span(s.subrange(close_at(t) + 2int, s.len() as int));
        } else {
            lemma_strip_leaves_no_span(t);
            lemma_strip_chars(t);
            let x = strip_brackets(t);
            let r = strip_brackets(s);
            assert(r == seq![s[0]] + x);
            if has_bracket_span(r) {
                let (i, j) = choose|i: int, j: int| 0 <= i < j < r.len() && r[i] == '(' && r[j] == ')';
                if i == 0 {
                    assert(x[j - 1] == ')');
                    assert(t.contains(x[j - 1]));
                    let m = choose|m: int| 0 <= m < t.len() && t[m] == x[j - 1];
                    assert(close_at(t) <= m);
                } else {
                    assert(x[i - 1] == '(' && x[j - 1] == ')');
                }
            }
        }
    }
}

/// A value without a bracketed span is left as it is by bracket removal.
pub proof fn lemma_strip_without_span(s: Seq<char>)
    requires
        !has_bracket_span(s),
    ensures
        strip_brackets(s) == s,
    decreases s.len(),
{
    if s.len() > 0 {
        let t = s.drop_first();
        lemma_close_at(t);
        if s[0] == '(' && close_at(t) < s.len() - 1 {
            assert(s[close_at(t) + 1int] == ')');
        } else {
            assert(!has_bracket_span(t)) by {
                if has_bracket_span(t) {
                    let (i, j) = choose|i: int, j: int| 0 <= i < j < t.len() && t[i] == '(' && t[j] == ')';
                    assert(s[i + 1] == '(' && s[j + 1] == ')');
                }
            }
            lemma_strip_without_span(t);
            assert(seq![s[0]] + t =~= s);
        }
    }
}

/// Removing bracketed spans twice is removing them once.
pub proof fn lemma_strip_idempotent(s: Seq<char>)
    ensures
        strip_brackets(strip_brackets(s)) == strip_brackets(s),
{
    lemma_strip_leaves_no_span(s);
    lemma_strip_without_span(strip_brackets(s));
}

proof fn lemma_no_span_trim_start(s: Seq<char>)
    requires
        !has_bracket_span(s),
    ensures
        !has_bracket_span(trim_start(s)),
    decreases s.len(),
{
    if s.len() > 0 && crate::text::is_white_space(s[0]) {
        let t = s.drop_first();
        assert(!has_bracket_span(t)) by {
            if has_bracket_span(t) {
                let (i, j) = choose|i: int, j: int| 0 <= i < j < t.len() && t[i] == '(' && t[j] == ')';
                assert(s[i + 1] == '(' && s[j + 1] == ')');
            }
        }
        lemma_no_span_trim_start(t);
    }
}

proof fn lemma_no_span_trim_end(s: Seq<char>)
    requires
        !has_bracket_span(s),
    ensures
        !has_bracket_span(trim_end(s)),
    decreases s.len(),
{
    if s.len() > 0 && crate::text::is_white_space(s.last()) {
        let t = s.drop_last();
        assert(!has_bracket_span(t)) by {
            if has_bracket_span(t) {
                let (i, j) = choose|i: int, j: int| 0 <= i < j < t.len() && t[i] == '(' && t[j] == ')';
                assert(s[i] == '(' && s[j] == ')');
            }
        }
        lemma_no_span_trim_end(t);
    }
}

/// From row 3 on, the pipeline's output holds no bracketed span: a second
/// pass finds nothing for the bracket rule to remove, and highlights nothing.
pub proof fn lemma_bracket_rule_settles(row: int, col: int, original: Seq<char>, a: AnchorView)
    requires
        row >= 3,
    ensures
        !has_bracket_span(transformed_value(row, col, original, a)),
        strip_brackets(transformed_value(row, col, original, a)) == transformed_value(row, col, original, a),
{
    let v = untrimmed_value(row, col, original, a);
    if bracket_fires(row, sentinel_rewrite(row, col, substituted(original), a)) {
        lemma_strip_leaves_no_span(sentinel_rewrite(row, col, substituted(original), a));
    }
    assert(!has_bracket_span(v));
    lemma_no_span_trim_start(v);
    lemma_no_span_trim_end(trim_start(v));
    lemma_strip_without_span(transformed_value(row, col, original, a));
}

/// Replacing a text that does not occur changes nothing.
pub proof fn lemma_replace_absent(s: Seq<char>, f: Seq<char>, t: Seq<char>)
    requires
        !contains(s, f),
    ensures
        replace_all(s, f, t) == s,
    decreases s.len(),
{
    if f.len() > 0 && s.len() >= f.len() {
        assert(!crate::text::occurs_at(s, f, 0));
        let u = s.drop_first();
        assert(!contains(u, f)) by {
            if contains(u, f) {
                let i = choose|i: int| crate::text::occurs_at(u, f, i);
                assert(s.subrange(i + 1, i + 1 + f.len()) =~= u.subrange(i, i + f.len()));
                assert(crate::text::occurs_at(s, f, i + 1));
            }
        }
        lemma_replace_absent(u, f, t);
        assert(seq![s[0]] + u =~= s);
    }
}

/// A trimmed value that holds no entry of the term table, no bracketed span
/// where the bracket rule applies, and no sentinel where the sentinel rule
/// applies, passes the pipeline unchanged and unhighlighted.
pub proof fn lemma_no_rule_applies(row: int, col: int, v: Seq<char>, a: AnchorView)
    requires
        forall|k: int| 0 <= k < TERM_COUNT ==> !contains(v, #[trigger] term_find(k)),
        row >= 3 ==> !has_bracket_span(v),
        row >= 4 ==> !contains(v, sentinel()),
        trim(v) == v,
    ensures
        transformed_value(row, col, v, a) == v,
        !highlighted(row, col, v, a),
{
    assert forall|k: nat| k <= TERM_COUNT implies substituted_upto(v, k) == v by {
        lemma_substituted_absent(v, k);
    }
    assert(substituted(v) == v);
}

pub(crate) proof fn lemma_substituted_absent(v: Seq<char>, k: nat)
    requires
        k <= TERM_COUNT,
        forall|j: int| 0 <= j < TERM_COUNT ==> !contains(v, #[trigger] term_find(j)),
    ensures
        substituted_upto(v, k) == v,
    decreases k,
{
    if k > 0 {
        lemma_substituted_absent(v, (k - 1) as nat);
        assert(!contains(v, term_find(k - 1)));
        lemma_replace_absent(v, term_find(k - 1), term_replace(k - 1));
    }
}

} // verus!
