//! Character-level helpers on strings, stated over `Seq<char>`.
use vstd::prelude::*;

verus! {

/// Relies on `String::push`: the character is appended at the end.
#[verifier::external_body]
pub(crate) fn push_char(s: &mut String, c: char)
    ensures
        final(s)@ == old(s)@.push(c),
{
    s.push(c)
}

} // verus!

verus! {

/// `f` occurs in `s` at position `i`.
pub open spec fn occurs_at(s: Seq<char>, f: Seq<char>, i: int) -> bool {
    0 <= i && i + f.len() <= s.len() && s.subrange(i, i + f.len()) == f
}

/// `f` occurs somewhere in `s`.
pub open spec fn contains(s: Seq<char>, f: Seq<char>) -> bool {
    exists|i: int| occurs_at(s, f, i)
}

/// Every occurrence of the non-empty `f` in `s`, taken from the left without
/// overlap, replaced by `t`.
pub open spec fn replace_all(s: Seq<char>, f: Seq<char>, t: Seq<char>) -> Seq<char>
    decreases s.len(),
{
    if f.len() == 0 || s.len() < f.len() {
        s
    } else if s.subrange(0, f.len() as int) == f {
        t + replace_all(s.subrange(f.len() as int, s.len() as int), f, t)
    } else {
        seq![s[0]] + replace_all(s.drop_first(), f, t)
    }
}

/// The characters with the Unicode `White_Space` property.
pub open spec fn is_white_space(c: char) -> bool {
    ('\t' <= c && c <= '\r') || c == ' ' || c == '\u{85}' || c == '\u{a0}' || c == '\u{1680}'
        || ('\u{2000}' <= c && c <= '\u{200a}') || c == '\u{2028}' || c == '\u{2029}'
        || c == '\u{202f}' || c == '\u{205f}' || c == '\u{3000}'
}

pub open spec fn trim_start(s: Seq<char>) -> Seq<char>
    decreases s.len(),
{
    if s.len() > 0 && is_white_space(s[0]) {
        trim_start(s.drop_first())
    } else {
        s
    }
}

pub open spec fn trim_end(s: Seq<char>) -> Seq<char>
    decreases s.len(),
{
    if s.len() > 0 && is_white_space(s.last()) {
        trim_end(s.drop_last())
    } else {
        s
    }
}

/// `s` without its leading and trailing white space.
pub open spec fn trim(s: Seq<char>) -> Seq<char> {
    trim_end(trim_start(s))
}

fn is_white_space_char(c: char) -> (r: bool)
    ensures
        r == is_white_space(c),
{
    ('\t' <= c && c <= '\r') || c == ' ' || c == '\u{85}' || c == '\u{a0}' || c == '\u{1680}'
        || ('\u{2000}' <= c && c <= '\u{200a}') || c == '\u{2028}' || c == '\u{2029}'
        || c == '\u{202f}' || c == '\u{205f}' || c == '\u{3000}'
}

/// Whether `f` occurs in `s` at position `i`.
pub fn occurs_at_exec(s: &str, f: &str, i: usize) -> (r: bool)
    ensures
        r == occurs_at(s@, f@, i as int),
{
    let n = s.unicode_len();
    let m = f.unicode_len();
    if i > n || m > n - i {
        return false;
    }
    let mut j: usize = 0;
    while j < m
        invariant
            n == s@.len(),
            m == f@.len(),
            i + m <= n,
            j <= m,
            forall|k: int| 0 <= k < j ==> s@[i + k] == f@[k],
        decreases m - j,
    {
        if s.get_char(i + j) != f.get_char(j) {
            assert(s@.subrange(i as int, i + m)[j as int] != f@[j as int]);
            return false;
        }
        j = j + 1;
    }
    assert(s@.subrange(i as int, i + m) =~= f@);
    true
}

/// Whether `f` occurs anywhere in `s`.
pub fn contains_text(s: &str, f: &str) -> (r: bool)
    ensures
        r == contains(s@, f@),
{
    let n = s.unicode_len();
    let m = f.unicode_len();
    if m > n {
        return false;
    }
    let mut i: usize = 0;
    while i <= n - m
        invariant
            n == s@.len(),
            m == f@.len(),
            m <= n,
            i <= n - m + 1,
            forall|k: int| 0 <= k < i ==> !occurs_at(s@, f@, k),
        decreases n - m + 1 - i,
    {
        if occurs_at_exec(s, f, i) {
            return true;
        }
        if i == n - m {
            return false;
        }
        i = i + 1;
    }
    false
}

/// `s` with every occurrence of the non-empty `f`, from the left and without
/// overlap, replaced by `t`.
pub fn replace_text(s: &str, f: &str, t: &str) -> (r: String)
    requires
        f@.len() > 0,
    ensures
        r@ == replace_all(s@, f@, t@),
{
    let n = s.unicode_len();
    let m = f.unicode_len();
    let mut out = String::new();
    let mut i: usize = 0;
    assert(s@.subrange(0, n as int) =~= s@);
    assert(out@ + replace_all(s@, f@, t@) =~= replace_all(s@, f@, t@));
    while i < n
        invariant
            n == s@.len(),
            m == f@.len(),
            m > 0,
            i <= n,
            out@ + replace_all(s@.subrange(i as int, n as int), f@, t@) == replace_all(s@, f@, t@),
        decreases n - i,
    {
        let ghost rest = s@.subrange(i as int, n as int);
        if m <= n - i && occurs_at_exec(s, f, i) {
            assert(rest.subrange(0, m as int) =~= s@.subrange(i as int, i + m));
            assert(rest.subrange(m as int, rest.len() as int) =~= s@.subrange(i + m, n as int));
            out.append(t);
            assert(out@ + replace_all(s@.subrange(i + m, n as int), f@, t@)
                =~= replace_all(s@, f@, t@));
            i = i + m;
        } else {
            let c = s.get_char(i);
            if m <= n - i {
                assert(rest.subrange(0, m as int) =~= s@.subrange(i as int, i + m));
                assert(rest.drop_first() =~= s@.subrange(i + 1, n as int));
            } else {
                assert(replace_all(rest, f@, t@) == rest);
                assert(replace_all(s@.subrange(i + 1, n as int), f@, t@) == s@.subrange(i + 1, n as int));
                assert(rest =~= seq![c] + s@.subrange(i + 1, n as int));
            }
            push_char(&mut out, c);
            assert(out@ + replace_all(s@.subrange(i + 1, n as int), f@, t@)
                =~= replace_all(s@, f@, t@));
            i = i + 1;
        }
    }
    assert(s@.subrange(n as int, n as int) =~= Seq::<char>::empty());
    assert(out@ + Seq::<char>::empty() =~= out@);
    out
}

proof fn lemma_trim_start_skip(s: Seq<char>, a: int)
    requires
        0 <= a <= s.len(),
        forall|k: int| 0 <= k < a ==> is_white_space(#[trigger] s[k]),
    ensures
        trim_start(s) == trim_start(s.subrange(a, s.len() as int)),
    decreases a,
{
    if a > 0 {
        assert(s.drop_first().subrange(a - 1, s.drop_first().len() as int) =~= s.subrange(a, s.len() as int));
        lemma_trim_start_skip(s.drop_first(), a - 1);
    } else {
        assert(s.subrange(0, s.len() as int) =~= s);
    }
}

proof fn lemma_trim_end_skip(s: Seq<char>, b: int)
    requires
        0 <= b <= s.len(),
        forall|k: int| b <= k < s.len() ==> is_white_space(#[trigger] s[k]),
    ensures
        trim_end(s) == trim_end(s.subrange(0, b)),
    decreases s.len() - b,
{
    if b < s.len() {
        assert(s.drop_last().subrange(0, b) =~= s.subrange(0, b));
        lemma_trim_end_skip(s.drop_last(), b);
    } else {
        assert(s.subrange(0, b) =~= s);
    }
}

/// Where `trim_start` cuts `s`: it keeps `s[a..]`, which starts with no
/// white space.
pub proof fn trim_start_at(s: Seq<char>) -> (a: int)
    ensures
        0 <= a <= s.len(),
        trim_start(s) == s.subrange(a, s.len() as int),
        a < s.len() ==> !is_white_space(s[a]),
    decreases s.len(),
{
    if s.len() > 0 && is_white_space(s[0]) {
        let a = trim_start_at(s.drop_first());
        assert(s.drop_first().subrange(a, s.len() - 1) =~= s.subrange(a + 1, s.len() as int));
        a + 1
    } else {
        assert(s.subrange(0, s.len() as int) =~= s);
        0
    }
}

/// Where `trim_end` cuts `s`: it keeps `s[..b]`, which ends with no white
/// space.
pub proof fn trim_end_at(s: Seq<char>) -> (b: int)
    ensures
        0 <= b <= s.len(),
        trim_end(s) == s.subrange(0, b),
        b > 0 ==> !is_white_space(s[b - 1]),
    decreases s.len(),
{
    if s.len() > 0 && is_white_space(s.last()) {
        let b = trim_end_at(s.drop_last());
        assert(s.drop_last().subrange(0, b) =~= s.subrange(0, b));
        b
    } else {
        assert(s.subrange(0, s.len() as int) =~= s);
        s.len() as int
    }
}

/// Trimming is a slice: `trim(s)` is `s[a..b]`.
pub proof fn lemma_trim_slice(s: Seq<char>) -> (ab: (int, int))
    ensures
        0 <= ab.0 <= ab.1 <= s.len(),
        trim(s) == s.subrange(ab.0, ab.1),
{
    let a = trim_start_at(s);
    let x = s.subrange(a, s.len() as int);
    let b = trim_end_at(x);
    assert(x.subrange(0, b) =~= s.subrange(a, a + b));
    (a, a + b)
}

/// Trimming twice is trimming once.
pub proof fn lemma_trim_idempotent(s: Seq<char>)
    ensures
        trim(trim(s)) == trim(s),
{
    let a = trim_start_at(s);
    let x = s.subrange(a, s.len() as int);
    let b = trim_end_at(x);
    let y = trim(s);
    assert(y == x.subrange(0, b));
    if y.len() > 0 {
        assert(y[0] == x[0]);
        assert(y.last() == x[b - 1]);
    }
    assert(trim_start(y) == y);
    assert(trim_end(y) == y);
}

/// A text found in a slice of `s` is found in `s`.
pub proof fn lemma_contains_slice(s: Seq<char>, a: int, b: int, g: Seq<char>)
    requires
        0 <= a <= b <= s.len(),
        contains(s.subrange(a, b), g),
    ensures
        contains(s, g),
{
    let x = s.subrange(a, b);
    let i = choose|i: int| occurs_at(x, g, i);
    assert(s.subrange(a + i, a + i + g.len()) =~= x.subrange(i, i + g.len()));
    assert(occurs_at(s, g, a + i));
}

/// `s` without its leading and trailing white space.
pub fn trim_text(s: &str) -> (r: String)
    ensures
        r@ == trim(s@),
{
    let n = s.unicode_len();
    let mut a: usize = 0;
    while a < n && is_white_space_char(s.get_char(a))
        invariant
            n == s@.len(),
            a <= n,
            forall|k: int| 0 <= k < a ==> is_white_space(#[trigger] s@[k]),
        decreases n - a,
    {
        a = a + 1;
    }
    let mut b: usize = n;
    while b > a && is_white_space_char(s.get_char(b - 1))
        invariant
            n == s@.len(),
            a <= b <= n,
            forall|k: int| b <= k < n ==> is_white_space(#[trigger] s@[k]),
        decreases b,
    {
        b = b - 1;
    }
    proof {
        lemma_trim_start_skip(s@, a as int);
        let u = s@.subrange(a as int, n as int);
        assert(a == n || !is_white_space(u[0]));
        assert(trim_start(u) == u);
        lemma_trim_end_skip(u, (b - a) as int);
        let w = u.subrange(0, (b - a) as int);
        assert(w =~= s@.subrange(a as int, b as int));
        assert(b == a || !is_white_space(w.last()));
        assert(trim_end(w) == w);
    }
    String::from_str(s.substring_char(a, b))
}

/// Whether two strings hold the same characters.
pub fn text_eq(a: &str, b: &str) -> (r: bool)
    ensures
        r == (a@ == b@),
{
    let n = a.unicode_len();
    if n != b.unicode_len() {
        return false;
    }
    let r = occurs_at_exec(a, b, 0);
    proof {
        if r {
            assert(a@.subrange(0, n as int) =~= a@);
        } else {
            assert(!occurs_at(a@, b@, 0));
            if a@ == b@ {
                assert(a@.subrange(0, n as int) =~= a@);
            }
        }
    }
    r
}

} // verus!
