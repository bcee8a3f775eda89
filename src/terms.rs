//! Laws of the term table: substituting its entries a second time changes
//! nothing, because no replacement text can overlap any text searched for.
use vstd::prelude::*;

use crate::engine::{
    has_bracket_span, highlighted, lemma_bracket_rule_settles, sentinel_rewrite, substituted, substituted_upto,
    term_find, term_replace, transformed_value, untrimmed_value, AnchorView, TERM_COUNT,
};
use crate::text::{contains, lemma_contains_slice, lemma_trim_idempotent, lemma_trim_slice, occurs_at, replace_all, trim};

verus! {

/// The first `n` characters of `a` and `b` agree.
pub open spec fn agrees(a: Seq<char>, b: Seq<char>, n: nat) -> bool
    decreases n,
{
    if n == 0 {
        true
    } else {
        a[n - 1] == b[n - 1] && agrees(a, b, (n - 1) as nat)
    }
}

pub open spec fn min(x: int, y: int) -> int {
    if x < y {
        x
    } else {
        y
    }
}

/// No copy of `g` starting at offset `p` or later inside `t` agrees with `t`
/// where the two overlap.
pub open spec fn no_start_inside(t: Seq<char>, g: Seq<char>, p: nat) -> bool
    decreases t.len() - p,
{
    if p >= t.len() {
        true
    } else {
        !agrees(t.subrange(p as int, t.len() as int), g, min(g.len() as int, t.len() - p) as nat)
            && no_start_inside(t, g, p + 1)
    }
}

/// No copy of `t` starting at offset `p` or later inside `g` agrees with `g`
/// where the two overlap.
pub open spec fn no_end_inside(t: Seq<char>, g: Seq<char>, p: nat) -> bool
    decreases g.len() - p,
{
    if p >= g.len() {
        true
    } else {
        !agrees(t, g.subrange(p as int, g.len() as int), min(t.len() as int, g.len() - p) as nat)
            && no_end_inside(t, g, p + 1)
    }
}

/// `t` and `g` cannot be laid over each other with any overlap.
pub open spec fn overlap_free(t: Seq<char>, g: Seq<char>) -> bool {
    no_start_inside(t, g, 0) && no_end_inside(t, g, 1)
}

proof fn lemma_agrees(a: Seq<char>, b: Seq<char>, n: nat)
    requires
        n <= a.len(),
        n <= b.len(),
    ensures
        agrees(a, b, n) <==> forall|i: int| 0 <= i < n ==> a[i] == b[i],
    decreases n,
{
    if n > 0 {
        lemma_agrees(a, b, (n - 1) as nat);
    }
}

proof fn lemma_no_start_inside(t: Seq<char>, g: Seq<char>, p0: nat, p: int)
    requires
        no_start_inside(t, g, p0),
        p0 <= p < t.len(),
    ensures
        !agrees(t.subrange(p, t.len() as int), g, min(g.len() as int, t.len() - p) as nat),
    decreases p - p0,
{
    if p0 < p {
        lemma_no_start_inside(t, g, p0 + 1, p);
    }
}

proof fn lemma_no_end_inside(t: Seq<char>, g: Seq<char>, p0: nat, p: int)
    requires
        no_end_inside(t, g, p0),
        p0 <= p < g.len(),
    ensures
        !agrees(t, g.subrange(p, g.len() as int), min(t.len() as int, g.len() - p) as nat),
    decreases p - p0,
{
    if p0 < p {
        lemma_no_end_inside(t, g, p0 + 1, p);
    }
}

/// The first position below `bound` where `f` occurs in `s`, or `bound`.
proof fn first_occurrence(s: Seq<char>, f: Seq<char>, from: int, bound: int) -> (k: int)
    requires
        0 <= from <= bound,
    ensures
        from <= k <= bound,
        forall|q: int| from <= q < k ==> !occurs_at(s, f, q),
        k < bound ==> occurs_at(s, f, k),
    decreases bound - from,
{
    if from == bound || occurs_at(s, f, from) {
        from
    } else {
        first_occurrence(s, f, from + 1, bound)
    }
}

/// Where `f` starts nowhere before `k`, the first `k` characters pass through.
proof fn lemma_replace_prefix(s: Seq<char>, f: Seq<char>, t: Seq<char>, k: int)
    requires
        f.len() > 0,
        0 <= k <= s.len(),
        forall|q: int| 0 <= q < k ==> !occurs_at(s, f, q),
    ensures
        replace_all(s, f, t) == s.subrange(0, k) + replace_all(s.subrange(k, s.len() as int), f, t),
    decreases k,
{
    if k == 0 {
        assert(s.subrange(0, 0) + replace_all(s.subrange(0, s.len() as int), f, t) =~= replace_all(s, f, t)) by {
            assert(s.subrange(0, s.len() as int) =~= s);
        }
    } else {
        let u = s.drop_first();
        assert forall|q: int| 0 <= q < k - 1 implies !occurs_at(u, f, q) by {
            if occurs_at(u, f, q) {
                assert(s.subrange(q + 1, q + 1 + f.len()) =~= u.subrange(q, q + f.len()));
                assert(occurs_at(s, f, q + 1));
            }
        }
        lemma_replace_prefix(u, f, t, k - 1);
        if s.len() >= f.len() {
            assert(!occurs_at(s, f, 0));
        }
        assert(u.subrange(k - 1, u.len() as int) =~= s.subrange(k, s.len() as int));
        assert(seq![s[0]] + u.subrange(0, k - 1) =~= s.subrange(0, k));
        assert(replace_all(s, f, t) == seq![s[0]] + replace_all(u, f, t));
        assert(seq![s[0]] + (u.subrange(0, k - 1) + replace_all(s.subrange(k, s.len() as int), f, t))
            =~= s.subrange(0, k) + replace_all(s.subrange(k, s.len() as int), f, t));
    }
}

/// Every copy of `g` in the result of replacing `f` by `t` stands on a copy
/// of `g` in `s` that is not also a copy of `f`, where `t` and `g` cannot
/// overlap.
proof fn lemma_replace_occurrence(s: Seq<char>, f: Seq<char>, t: Seq<char>, g: Seq<char>, p: int)
    requires
        f.len() > 0,
        g.len() > 0,
        overlap_free(t, g),
        occurs_at(replace_all(s, f, t), g, p),
    ensures
        exists|q: int| occurs_at(s, g, q) && !occurs_at(s, f, q),
    decreases s.len(),
{
    let r = replace_all(s, f, t);
    let m = f.len() as int;
    if s.len() < f.len() {
        assert(r == s);
        assert(!occurs_at(s, f, p));
    } else if s.subrange(0, m) == f {
        let rest = s.subrange(m, s.len() as int);
        assert(r == t + replace_all(rest, f, t));
        if p < t.len() {
            let n = min(g.len() as int, t.len() - p);
            lemma_no_start_inside(t, g, 0, p);
            lemma_agrees(t.subrange(p, t.len() as int), g, n as nat);
            assert forall|i: int| 0 <= i < n implies t.subrange(p, t.len() as int)[i] == g[i] by {
                assert(r[p + i] == t[p + i]);
                assert(r.subrange(p, p + g.len())[i] == g[i]);
            }
            assert(false);
        } else {
            let x = replace_all(rest, f, t);
            assert(x.subrange(p - t.len(), p - t.len() + g.len()) =~= r.subrange(p, p + g.len()));
            lemma_replace_occurrence(rest, f, t, g, p - t.len());
            let q = choose|q: int| occurs_at(rest, g, q) && !occurs_at(rest, f, q);
            assert(s.subrange(q + m, q + m + g.len()) =~= rest.subrange(q, q + g.len()));
            assert(!occurs_at(s, f, q + m)) by {
                if occurs_at(s, f, q + m) {
                    assert(s.subrange(q + m, q + m + f.len()) =~= rest.subrange(q, q + f.len()));
                }
            }
        }
    } else {
        let u = s.drop_first();
        let x = replace_all(u, f, t);
        assert(r == seq![s[0]] + x);
        if p >= 1 {
            assert(x.subrange(p - 1, p - 1 + g.len()) =~= r.subrange(p, p + g.len()));
            lemma_replace_occurrence(u, f, t, g, p - 1);
            let q = choose|q: int| occurs_at(u, g, q) && !occurs_at(u, f, q);
            assert(s.subrange(q + 1, q + 1 + g.len()) =~= u.subrange(q, q + g.len()));
            assert(!occurs_at(s, f, q + 1)) by {
                if occurs_at(s, f, q + 1) {
                    assert(s.subrange(q + 1, q + 1 + f.len()) =~= u.subrange(q, q + f.len()));
                }
            }
        } else {
            let bound = min(g.len() - 1, u.len() as int);
            let k = first_occurrence(u, f, 0, bound);
            lemma_replace_prefix(u, f, t, k);
            let w = u.subrange(k, u.len() as int);
            if k < bound {
                assert(w.subrange(0, m) =~= u.subrange(k, k + m));
                assert(replace_all(w, f, t) == t + replace_all(w.subrange(m, w.len() as int), f, t));
                let n = min(t.len() as int, g.len() - (k + 1));
                lemma_no_end_inside(t, g, 1, k + 1);
                lemma_agrees(t, g.subrange(k + 1, g.len() as int), n as nat);
                assert forall|i: int| 0 <= i < n implies t[i] == g.subrange(k + 1, g.len() as int)[i] by {
                    assert(r[k + 1 + i] == t[i]);
                    assert(r.subrange(0, g.len() as int)[k + 1 + i] == g[k + 1 + i]);
                }
                assert(false);
            } else if k == g.len() - 1 {
                assert forall|i: int| 0 <= i < g.len() implies s[i] == g[i] by {
                    assert(r.subrange(0, g.len() as int)[i] == g[i]);
                    if i > 0 {
                        assert(r[i] == u.subrange(0, k)[i - 1]);
                    }
                }
                assert(s.subrange(0, g.len() as int) =~= g);
                assert(occurs_at(s, g, 0));
                if occurs_at(s, f, 0) {
                    assert(s.subrange(0, m) == f);
                }
            } else {
                assert(k == u.len());
                assert(w.len() == 0);
                assert(replace_all(w, f, t) == w);
                assert(r.len() == s.len());
                assert(false);
            }
        }
    }
}

/// Replacing `f` by `t` creates no copy of `g` where `t` and `g` cannot
/// overlap.
proof fn lemma_replace_keeps_absent(s: Seq<char>, f: Seq<char>, t: Seq<char>, g: Seq<char>)
    requires
        f.len() > 0,
        g.len() > 0,
        overlap_free(t, g),
        !contains(s, g),
    ensures
        !contains(replace_all(s, f, t), g),
{
    if contains(replace_all(s, f, t), g) {
        let p = choose|p: int| occurs_at(replace_all(s, f, t), g, p);
        lemma_replace_occurrence(s, f, t, g, p);
    }
}

/// Replacing `f` by `t` leaves no copy of `f` where `t` and `f` cannot
/// overlap.
proof fn lemma_replace_clears(s: Seq<char>, f: Seq<char>, t: Seq<char>)
    requires
        f.len() > 0,
        overlap_free(t, f),
    ensures
        !contains(replace_all(s, f, t), f),
{
    if contains(replace_all(s, f, t), f) {
        let p = choose|p: int| occurs_at(replace_all(s, f, t), f, p);
        lemma_replace_occurrence(s, f, t, f, p);
    }
}

proof fn lemma_table_overlap_free(j: int, k: int)
    requires
        0 <= k <= j < TERM_COUNT,
    ensures
        overlap_free(term_replace(j), term_find(k)),
        term_find(k).len() > 0,
{
    reveal_with_fuel(no_start_inside, 12);
    reveal_with_fuel(no_end_inside, 12);
    reveal_with_fuel(agrees, 12);
    reveal_strlit("甲烷非甲烷分析仪");
    reveal_strlit("VOCs在线监测仪");
    reveal_strlit("总烃(ppbv)");
    reveal_strlit("间、对-二甲苯");
    reveal_strlit("邻二甲苯");
    reveal_strlit("NMHC监测仪");
    reveal_strlit("VOCs监测仪");
    reveal_strlit("总烃(ppbC)");
    reveal_strlit("间/对-二甲苯");
    reveal_strlit("邻-二甲苯");
}

proof fn lemma_stage_clears(s: Seq<char>, k: nat)
    requires
        k <= TERM_COUNT,
    ensures
        forall|j: int| 0 <= j < k ==> !contains(substituted_upto(s, k), #[trigger] term_find(j)),
    decreases k,
{
    if k > 0 {
        let k1 = (k - 1) as int;
        lemma_stage_clears(s, (k - 1) as nat);
        assert forall|j: int| 0 <= j < k implies !contains(substituted_upto(s, k), #[trigger] term_find(j)) by {
            lemma_table_overlap_free(k1, j);
            lemma_table_overlap_free(k1, k1);
            if j == k1 {
                lemma_replace_clears(substituted_upto(s, (k - 1) as nat), term_find(k1), term_replace(k1));
            } else {
                lemma_replace_keeps_absent(
                    substituted_upto(s, (k - 1) as nat),
                    term_find(k1),
                    term_replace(k1),
                    term_find(j),
                );
            }
        }
    }
}

/// After the term table has run, none of its search texts is left, so
/// running it again changes nothing.
pub proof fn lemma_substitution_idempotent(s: Seq<char>)
    ensures
        forall|k: int| 0 <= k < TERM_COUNT ==> !contains(substituted(s), #[trigger] term_find(k)),
        substituted(substituted(s)) == substituted(s),
{
    lemma_stage_clears(s, TERM_COUNT as nat);
    crate::engine::lemma_substituted_absent(substituted(s), TERM_COUNT as nat);
}

/// A second pass of the pipeline over its own output changes nothing and
/// highlights nothing, unless the first pass left a search text of the term
/// table behind (bracket removal can join one, from row 3 on) or the
/// sentinel rule would still rewrite the output (from row 4 on).
pub proof fn lemma_second_pass_settles(row: int, col: int, original: Seq<char>, a: AnchorView)
    requires
        row >= 3 ==> forall|k: int| 0 <= k < TERM_COUNT ==> !contains(
            transformed_value(row, col, original, a),
            #[trigger] term_find(k),
        ),
        row >= 4 ==> sentinel_rewrite(row, col, transformed_value(row, col, original, a), a) == transformed_value(
            row,
            col,
            original,
            a,
        ),
    ensures
        transformed_value(row, col, transformed_value(row, col, original, a), a) == transformed_value(row, col, original, a),
        !highlighted(row, col, transformed_value(row, col, original, a), a),
{
    let out = transformed_value(row, col, original, a);
    lemma_substitution_idempotent(original);
    if row < 3 {
        let ab = lemma_trim_slice(untrimmed_value(row, col, original, a));
        assert(untrimmed_value(row, col, original, a) == substituted(original));
        assert forall|k: int| 0 <= k < TERM_COUNT implies !contains(out, #[trigger] term_find(k)) by {
            if contains(out, term_find(k)) {
                lemma_contains_slice(substituted(original), ab.0, ab.1, term_find(k));
            }
        }
    } else {
        lemma_bracket_rule_settles(row, col, original, a);
    }
    crate::engine::lemma_substituted_absent(out, TERM_COUNT as nat);
    assert(substituted(out) == out);
    assert(sentinel_rewrite(row, col, out, a) == out);
    assert(!(row >= 3 && has_bracket_span(out)));
    assert(untrimmed_value(row, col, out, a) == out);
    lemma_trim_idempotent(untrimmed_value(row, col, original, a));
}

} // verus!
