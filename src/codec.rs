//! Spreadsheet coordinates: column numbers as letters (1 is `A`, 27 is `AA`)
//! and cell addresses such as `AB4`.
use vstd::prelude::*;

use crate::text::push_char;

verus! {

/// The letter that stands for the base-26 digit `d` (0 is `A`, 25 is `Z`).
pub open spec fn letter(d: nat) -> char {
    ((65 + d) as u32) as char
}

/// The decimal digit character for `d < 10`.
pub open spec fn digit_char(d: nat) -> char {
    ((48 + d) as u32) as char
}

/// The name of column `n`: bijective base 26 with digits `A..Z`, empty for 0.
pub open spec fn col_name(n: nat) -> Seq<char>
    decreases n,
{
    if n == 0 {
        seq![]
    } else {
        col_name(((n - 1) as nat) / 26).push(letter(((n - 1) as nat) % 26))
    }
}

/// The value of an upper-case letter as a digit of a column name (`A` is 1).
pub open spec fn letter_value(c: char) -> int {
    c as int - 64
}

pub open spec fn is_upper(c: char) -> bool {
    'A' <= c && c <= 'Z'
}

/// The column number that a name of upper-case letters stands for.
pub open spec fn col_value(s: Seq<char>) -> int
    decreases s.len(),
{
    if s.len() == 0 {
        0
    } else {
        col_value(s.drop_last()) * 26 + letter_value(s.last())
    }
}

/// Decimal text of a natural number, without leading zeros.
pub open spec fn decimal(n: nat) -> Seq<char>
    decreases n,
{
    if n < 10 {
        seq![digit_char(n)]
    } else {
        decimal(n / 10).push(digit_char(n % 10))
    }
}

/// The address of a cell: column name followed by the decimal row number.
pub open spec fn address(col: nat, row: nat) -> Seq<char> {
    col_name(col) + decimal(row)
}

/// Appends the name of column `n` to `s`.
fn push_col_name(s: &mut String, n: u64)
    ensures
        final(s)@ == old(s)@ + col_name(n as nat),
    decreases n,
{
    if n == 0 {
        assert(old(s)@ + col_name(0) =~= old(s)@);
    } else {
        push_col_name(s, (n - 1) / 26);
        let d = ((n - 1) % 26) as u8;
        push_char(s, (65u8 + d) as char);
        assert(final(s)@ =~= old(s)@ + col_name(n as nat));
    }
}

/// Appends the decimal text of `n` to `s`.
fn push_decimal(s: &mut String, n: u64)
    ensures
        final(s)@ == old(s)@ + decimal(n as nat),
    decreases n,
{
    if n >= 10 {
        push_decimal(s, n / 10);
    }
    let d = (n % 10) as u8;
    push_char(s, (48u8 + d) as char);
    assert(final(s)@ =~= old(s)@ + decimal(n as nat));
}

/// The letters of column `column` (1 is `A`, 26 is `Z`, 27 is `AA`); column 0
/// has no name.
pub fn column_number_to_name(column: u32) -> (r: Option<String>)
    ensures
        column == 0 <==> r.is_none(),
        r.is_some() ==> r.unwrap()@ == col_name(column as nat),
{
    if column == 0 {
        return None;
    }
    let mut name = String::new();
    push_col_name(&mut name, column as u64);
    assert(name@ =~= col_name(column as nat));
    Some(name)
}

/// The address of the cell at a 1-based column and row, such as `AB4`;
/// column 0 has none.
pub fn to_a1(col_1based: u32, row_1based: u32) -> (r: Option<String>)
    ensures
        col_1based == 0 <==> r.is_none(),
        r.is_some() ==> r.unwrap()@ == address(col_1based as nat, row_1based as nat),
{
    if col_1based == 0 {
        return None;
    }
    let mut a = String::new();
    push_col_name(&mut a, col_1based as u64);
    push_decimal(&mut a, row_1based as u64);
    assert(a@ =~= address(col_1based as nat, row_1based as nat));
    Some(a)
}

/// The address of the cell at a 1-based column and row, for positions that
/// the caller knows to be valid.
pub fn cell_ref(col_1_based: usize, row_1_based: usize) -> (r: String)
    requires
        col_1_based >= 1,
    ensures
        r@ == address(col_1_based as nat, row_1_based as nat),
{
    let mut a = String::new();
    push_col_name(&mut a, col_1_based as u64);
    push_decimal(&mut a, row_1_based as u64);
    assert(a@ =~= address(col_1_based as nat, row_1_based as nat));
    a
}

/// Reads a column name back into its number: `None` unless the text is a
/// non-empty run of upper-case letters whose value fits in a `u32`.
pub fn column_name_to_number(name: &str) -> (r: Option<u32>)
    ensures
        r.is_some() <==> (name@.len() > 0 && (forall|i: int| 0 <= i < name@.len() ==> is_upper(#[trigger] name@[i]))
            && col_value(name@) <= u32::MAX),
        r.is_some() ==> r.unwrap() as int == col_value(name@),
{
    let n = name.unicode_len();
    if n == 0 {
        return None;
    }
    let mut acc: u64 = 0;
    let mut i: usize = 0;
    while i < n
        invariant
            n == name@.len(),
            0 <= i <= n,
            forall|k: int| 0 <= k < i ==> is_upper(#[trigger] name@[k]),
            acc as int == col_value(name@.subrange(0, i as int)),
            acc <= u32::MAX,
        decreases n - i,
    {
        let c = name.get_char(i);
        proof {
            assert(name@.subrange(0, i + 1).drop_last() =~= name@.subrange(0, i as int));
        }
        if c < 'A' || c > 'Z' {
            return None;
        }
        let next: u64 = acc * 26 + (c as u64 - 64);
        if next > u32::MAX as u64 {
            proof {
                if forall|k: int| 0 <= k < name@.len() ==> is_upper(#[trigger] name@[k]) {
                    lemma_col_value_monotone(name@, i + 1);
                }
            }
            return None;
        }
        acc = next;
        i = i + 1;
    }
    assert(name@.subrange(0, n as int) =~= name@);
    Some(acc as u32)
}

/// The value of a name of upper-case letters never falls as letters are added.
proof fn lemma_col_value_monotone(s: Seq<char>, k: int)
    requires
        0 <= k <= s.len(),
        forall|i: int| 0 <= i < s.len() ==> is_upper(#[trigger] s[i]),
    ensures
        col_value(s.subrange(0, k)) <= col_value(s),
    decreases s.len() - k,
{
    if k < s.len() {
        lemma_col_value_monotone(s, k + 1);
        assert(s.subrange(0, k + 1).drop_last() =~= s.subrange(0, k));
        let p = col_value(s.subrange(0, k));
        lemma_col_value_nonneg(s.subrange(0, k));
        assert(col_value(s.subrange(0, k + 1)) == p * 26 + letter_value(s[k]));
        assert(p <= p * 26 + letter_value(s[k])) by (nonlinear_arith)
            requires letter_value(s[k]) >= 1, p >= 0;
    } else {
        assert(s.subrange(0, k) =~= s);
    }
}

proof fn lemma_col_value_nonneg(s: Seq<char>)
    requires
        forall|i: int| 0 <= i < s.len() ==> is_upper(#[trigger] s[i]),
    ensures
        col_value(s) >= 0,
    decreases s.len(),
{
    if s.len() > 0 {
        lemma_col_value_nonneg(s.drop_last());
        assert(is_upper(s[s.len() - 1]));
    }
}

/// Decoding the name of a column gives the column back: for every `n >= 1`
/// the name is a non-empty run of upper-case letters whose value is `n`.
pub proof fn lemma_column_name_round_trip(n: nat)
    requires
        n >= 1,
    ensures
        col_name(n).len() > 0,
        forall|i: int| 0 <= i < col_name(n).len() ==> is_upper(#[trigger] col_name(n)[i]),
        col_value(col_name(n)) == n,
    decreases n,
{
    let q = ((n - 1) as nat) / 26;
    let d = ((n - 1) as nat) % 26;
    if q >= 1 {
        lemma_column_name_round_trip(q);
    }
    let s = col_name(n);
    assert(s == col_name(q).push(letter(d)));
    assert(s.drop_last() =~= col_name(q));
    assert(letter_value(letter(d)) == d + 1);
    assert forall|i: int| 0 <= i < s.len() implies is_upper(#[trigger] s[i]) by {
        if i < s.len() - 1 {
            assert(s[i] == col_name(q)[i]);
        }
    }
    assert(col_value(s) == col_value(col_name(q)) * 26 + d + 1);
}

} // verus!
