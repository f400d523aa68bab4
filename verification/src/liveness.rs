//! Live-variable analysis for queries.
//!
//! Every identifier that occurs in an expression counts as a read. That
//! over-approximates (field and method names count too), which only keeps a
//! binding alive longer than needed and never drops one that is read.
//!
//! For each middle clause the analysis gives the set of names that are
//! live just after it: read by a later clause (or by `select`) before being
//! bound anew.
use vstd::prelude::*;
use crate::token::{Tok, TokV, tv};
use crate::ast::{Expr, MiddleClause, Query, SelectClause, ex, is_punct};
use crate::names::NameSet;

verus! {

/// The identifiers occurring in a token sequence.
pub open spec fn ident_set(s: Seq<TokV>) -> Set<Seq<char>> {
    Set::new(|w: Seq<char>| exists|i: int| 0 <= i < s.len() && s[i] == TokV::Ident(w))
}

/// Position `i` is not right after `.` or `:`.
pub open spec fn bare_pos(s: Seq<TokV>, i: int) -> bool {
    i == 0 || !(is_punct(s[i - 1], '.') || is_punct(s[i - 1], ':'))
}

/// The identifiers occurring in a token sequence other than right after `.`
/// (field and method names) or `:` (path segments).
pub open spec fn bare_set(s: Seq<TokV>) -> Set<Seq<char>> {
    Set::new(
        |w: Seq<char>| exists|i: int| 0 <= i < s.len() && s[i] == TokV::Ident(w) && bare_pos(s, i),
    )
}

/// The names a clause reads from the incoming row.
///
/// A join's source and inner key are evaluated once against the inner
/// source, and a zip's source is an independent iterator, so none of them
/// reads the row.
pub open spec fn reads(c: MiddleClause) -> Set<Seq<char>> {
    match c {
        MiddleClause::Let { value, .. } => ident_set(ex(value)),
        MiddleClause::Where(cond) => ident_set(ex(cond)),
        MiddleClause::OrderBy { key, .. } => ident_set(ex(key)),
        MiddleClause::Join(j) => ident_set(ex(j.outer_key)),
        MiddleClause::Zip { .. } => Set::empty(),
        MiddleClause::GroupBy { element, key, .. } => ident_set(ex(element)).union(
            ident_set(ex(key)),
        ),
    }
}

/// The names a clause binds.
pub open spec fn defs(c: MiddleClause) -> Set<Seq<char>> {
    match c {
        MiddleClause::Let { name, .. } => set![name@],
        MiddleClause::Join(j) => match j.into_group {
            Some(g) => set![j.name@, g@],
            None => set![j.name@],
        },
        MiddleClause::Zip { name, .. } => set![name@],
        MiddleClause::GroupBy { name, .. } => set![name@],
        _ => Set::empty(),
    }
}

/// The live set before a clause, given the live set after it. A `group by`
/// is a barrier: nothing from before it survives, so only what it reads is
/// live before it.
pub open spec fn step_back(live: Set<Seq<char>>, c: MiddleClause) -> Set<Seq<char>> {
    match c {
        MiddleClause::GroupBy { .. } => reads(c),
        _ => live.difference(defs(c)).union(reads(c)),
    }
}

/// The names live just before clause `k` (`k == ms.len()` stands for
/// `select`, which reads `sel`).
pub open spec fn live_from(ms: Seq<MiddleClause>, sel: Set<Seq<char>>, k: int) -> Set<
    Seq<char>,
>
    decreases ms.len() - k,
{
    if k >= ms.len() {
        sel
    } else {
        step_back(live_from(ms, sel, k + 1), ms[k])
    }
}

/// The names read by the `select` projection.
pub open spec fn select_reads(q: Query) -> Set<Seq<char>> {
    ident_set(ex(q.select.expr))
}

/// The identifiers occurring in `toks`.
pub fn idents_in_tokens(toks: &Vec<Tok>) -> (r: NameSet)
    ensures
        r@ == ident_set(tv(toks@)),
{
    let ghost s = tv(toks@);
    let mut out = NameSet::new();
    let mut i: usize = 0;
    while i < toks.len()
        invariant
            s == tv(toks@),
            i <= toks.len(),
            out@ == ident_set(s.subrange(0, i as int)),
        decreases toks.len() - i,
    {
        match &toks[i] {
            Tok::Ident(n) => {
                out.insert(n.clone());
            },
            _ => {},
        }
        proof {
            let a = s.subrange(0, i as int);
            let b = s.subrange(0, i + 1);
            assert forall|w: Seq<char>| ident_set(b).contains(w) <==> out@.contains(w) by {
                if ident_set(b).contains(w) {
                    let k = choose|k: int| 0 <= k < b.len() && b[k] == TokV::Ident(w);
                    if k < i {
                        assert(a[k] == b[k]);
                    }
                }
                if ident_set(a).contains(w) {
                    let k = choose|k: int| 0 <= k < a.len() && a[k] == TokV::Ident(w);
                    assert(b[k] == a[k]);
                }
                if out@.contains(w) && !ident_set(a).contains(w) {
                    assert(b[i as int] == TokV::Ident(w));
                }
            }
            assert(out@ =~= ident_set(b));
        }
        i += 1;
    }
    assert(s.subrange(0, i as int) =~= s);
    out
}

/// The identifiers occurring in `toks` other than right after `.` or `:`.
///
/// These are the names a closure over the expression may capture from the
/// enclosing scope.
pub fn bare_idents(toks: &Vec<Tok>) -> (r: NameSet)
    ensures
        r@ == bare_set(tv(toks@)),
{
    let ghost s = tv(toks@);
    let mut out = NameSet::new();
    let mut i: usize = 0;
    while i < toks.len()
        invariant
            s == tv(toks@),
            i <= toks.len(),
            out@ == bare_set(s.subrange(0, i as int)),
        decreases toks.len() - i,
    {
        let after_sep = i > 0 && match &toks[i - 1] {
            Tok::Punct(c, _) => *c == '.' || *c == ':',
            _ => false,
        };
        match &toks[i] {
            Tok::Ident(n) => {
                if !after_sep {
                    out.insert(n.clone());
                }
            },
            _ => {},
        }
        proof {
            let a = s.subrange(0, i as int);
            let b = s.subrange(0, i + 1);
            assert(after_sep == !bare_pos(s, i as int));
            assert forall|w: Seq<char>| bare_set(b).contains(w) <==> out@.contains(w) by {
                if bare_set(b).contains(w) {
                    let k = choose|k: int|
                        0 <= k < b.len() && b[k] == TokV::Ident(w) && bare_pos(b, k);
                    if k < i {
                        assert(a[k] == b[k]);
                        if k > 0 {
                            assert(a[k - 1] == b[k - 1]);
                        }
                        assert(bare_pos(a, k));
                    } else {
                        if k > 0 {
                            assert(b[k - 1] == s[k - 1]);
                        }
                    }
                }
                if bare_set(a).contains(w) {
                    let k = choose|k: int|
                        0 <= k < a.len() && a[k] == TokV::Ident(w) && bare_pos(a, k);
                    assert(b[k] == a[k]);
                    if k > 0 {
                        assert(b[k - 1] == a[k - 1]);
                    }
                    assert(bare_pos(b, k));
                }
                if out@.contains(w) && !bare_set(a).contains(w) {
                    assert(b[i as int] == TokV::Ident(w));
                    if i > 0 {
                        assert(b[i - 1] == s[i - 1]);
                    }
                    assert(bare_pos(b, i as int));
                }
            }
            assert(out@ =~= bare_set(b));
        }
        i += 1;
    }
    assert(s.subrange(0, i as int) =~= s);
    out
}

/// The identifiers read by an expression.
pub fn reads_of_expr(expr: &Expr) -> (r: NameSet)
    ensures
        r@ == ident_set(ex(*expr)),
{
    idents_in_tokens(&expr.toks)
}

/// The identifiers read by the `select` projection.
pub fn reads_of_select(select: &SelectClause) -> (r: NameSet)
    ensures
        r@ == ident_set(ex(select.expr)),
{
    idents_in_tokens(&select.expr.toks)
}

/// The names a clause reads.
pub fn clause_reads(c: &MiddleClause) -> (r: NameSet)
    ensures
        r@ == reads(*c),
{
    match c {
        MiddleClause::Let { value, .. } => reads_of_expr(value),
        MiddleClause::Where(cond) => reads_of_expr(cond),
        MiddleClause::OrderBy { key, .. } => reads_of_expr(key),
        MiddleClause::Join(j) => reads_of_expr(&j.outer_key),
        MiddleClause::Zip { .. } => {
            let r = NameSet::new();
            assert(r@ =~= reads(*c));
            r
        },
        MiddleClause::GroupBy { element, key, .. } => {
            let mut r = reads_of_expr(element);
            let k = reads_of_expr(key);
            r.extend(&k);
            r
        },
    }
}

/// Given the live set after a clause, the live set before it.
pub fn step_backwards(live_after: &NameSet, clause: &MiddleClause) -> (r: NameSet)
    ensures
        r@ == step_back(live_after@, *clause),
{
    match clause {
        MiddleClause::GroupBy { .. } => clause_reads(clause),
        _ => {
            let mut out = live_after.copy();
            match clause {
                MiddleClause::Let { name, .. } => {
                    out.remove(name);
                },
                MiddleClause::Join(j) => {
                    out.remove(&j.name);
                    match &j.into_group {
                        Some(g) => {
                            out.remove(g);
                        },
                        None => {},
                    }
                },
                MiddleClause::Zip { name, .. } => {
                    out.remove(name);
                },
                _ => {},
            }
            assert(out@ =~= live_after@.difference(defs(*clause)));
            let reads = clause_reads(clause);
            out.extend(&reads);
            out
        },
    }
}

/// For each index `i` of `query.middle`, the set of names live just after
/// middle clause `i`; one extra, always empty, slot stands for after
/// `select`.
pub fn compute_live_after(query: &Query) -> (r: Vec<NameSet>)
    ensures
        r@.len() == query.middle@.len() + 1,
        forall|i: int|
            0 <= i < query.middle@.len() ==> #[trigger] r@[i]@ == live_from(
                query.middle@,
                select_reads(*query),
                i + 1,
            ),
        r@[query.middle@.len() as int]@ == Set::<Seq<char>>::empty(),
{
    let ghost ms = query.middle@;
    let ghost sel = select_reads(*query);
    let n = query.middle.len();
    let mut live_after: Vec<NameSet> = Vec::new();
    let mut k: usize = 0;
    while k < n
        invariant
            k <= n,
            live_after@.len() == k,
            forall|j: int| 0 <= j < k ==> #[trigger] live_after@[j]@ == Set::<Seq<char>>::empty(),
        decreases n - k,
    {
        live_after.push(NameSet::new());
        k += 1;
    }
    live_after.push(NameSet::new());
    let mut current = reads_of_select(&query.select);
    if n > 0 {
        live_after.set(n - 1, current.copy());
    }
    let mut i = n;
    while i > 0
        invariant
            ms == query.middle@,
            n == ms.len(),
            i <= n,
            live_after@.len() == n + 1,
            current@ == live_from(ms, sel, i as int),
            forall|j: int| 0 <= j < n && i <= j + 1 ==> #[trigger] live_after@[j]@ == live_from(
                ms,
                sel,
                j + 1,
            ),
            live_after@[n as int]@ == Set::<Seq<char>>::empty(),
        decreases i,
    {
        i -= 1;
        current = step_backwards(&current, &query.middle[i]);
        if i > 0 {
            live_after.set(i - 1, current.copy());
        }
    }
    live_after
}

// --- laws ---------------------------------------------------------------------

/// Every name a clause reads is live just before it, and every name
/// `select` reads is live just before `select`.
pub proof fn law_reads_are_live(ms: Seq<MiddleClause>, sel: Set<Seq<char>>, k: int)
    requires
        0 <= k <= ms.len(),
    ensures
        k < ms.len() ==> reads(ms[k]).subset_of(live_from(ms, sel, k)),
        k == ms.len() ==> sel.subset_of(live_from(ms, sel, k)),
{
}

/// `group by` is a barrier: the names live before it are exactly the names
/// it reads, whatever follows it.
pub proof fn law_group_by_barrier(ms: Seq<MiddleClause>, sel: Set<Seq<char>>, k: int)
    requires
        0 <= k < ms.len(),
        ms[k] is GroupBy,
    ensures
        live_from(ms, sel, k) == reads(ms[k]),
{
}

/// A name live after a clause that neither binds it nor is a `group by` is
/// live before that clause too.
pub proof fn law_live_persists(ms: Seq<MiddleClause>, sel: Set<Seq<char>>, k: int, w: Seq<char>)
    requires
        0 <= k < ms.len(),
        !(ms[k] is GroupBy),
        live_from(ms, sel, k + 1).contains(w),
        !defs(ms[k]).contains(w),
    ensures
        live_from(ms, sel, k).contains(w),
{
}

/// A name is live only if some clause from `k` on, or `select`, reads it.
pub proof fn law_live_has_reader(ms: Seq<MiddleClause>, sel: Set<Seq<char>>, k: int, w: Seq<char>)
    requires
        0 <= k <= ms.len(),
        live_from(ms, sel, k).contains(w),
    ensures
        sel.contains(w) || exists|j: int| k <= j < ms.len() && #[trigger] reads(ms[j]).contains(w),
    decreases ms.len() - k,
{
    if k < ms.len() {
        if !reads(ms[k]).contains(w) {
            law_live_has_reader(ms, sel, k + 1, w);
            if !sel.contains(w) {
                let j = choose|j: int| k + 1 <= j < ms.len() && #[trigger] reads(ms[j]).contains(w);
                assert(reads(ms[j]).contains(w));
            }
        }
    }
}

/// Names that stand right after `.` or `:` are not bare, so the bare
/// identifiers are among all identifiers.
pub proof fn law_bare_idents_are_idents(s: Seq<TokV>)
    ensures
        bare_set(s).subset_of(ident_set(s)),
{
}

} // verus!
