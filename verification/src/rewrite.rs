//! Field access on the binding of a `join_left`.
//!
//! After `join_left c in ...` the binding `c` is an `Option` of the inner
//! row, and the fields of the inner row project as `Option`s too: a later
//! `c.name` reads `Some(name)` for a matched row and `None` otherwise. The
//! expansion gets there by rewriting each such field access `c.f` into
//! `(c.as_ref().map(|__oql_v| ::core::clone::Clone::clone(&__oql_v.f)))`.
//!
//! A field access is a name in scope as a left-joined binding, not itself
//! preceded by `.`, followed by `.` and a field name or tuple index that is
//! not called as a method.
use vstd::prelude::*;
use crate::token::{Tok, TokV, Delim, tv, lemma_tv_push};
use crate::ast::{MiddleClause, JoinKind, Query, is_punct};
use crate::names::NameSet;
use crate::lexer::{lex, lex_into};

verus! {

/// Position `i` of `s` starts a field access `c.f` on a name `c` of `opts`.
pub open spec fn opt_field_at(s: Seq<TokV>, opts: Set<Seq<char>>, i: int) -> bool {
    &&& 0 <= i
    &&& i + 2 < s.len()
    &&& s[i] matches TokV::Ident(c) && opts.contains(c)
    &&& s[i + 1] == TokV::Punct('.', false)
    &&& (s[i + 2] is Ident || s[i + 2] is Lit)
    &&& !(i + 3 < s.len() && s[i + 3] == TokV::Open(Delim::Paren))
    &&& (i == 0 || !is_punct(s[i - 1], '.'))
}

/// The tokens that replace the field access `c.f`.
pub open spec fn opt_access(c: TokV, f: TokV) -> Seq<TokV> {
    seq![TokV::Open(Delim::Paren), c] + lex(
        ".as_ref().map(|__oql_v| ::core::clone::Clone::clone(&__oql_v."@,
    ) + seq![f] + lex(")))"@)
}

/// The tokens of `s` from position `i` on, with every field access on a
/// name of `opts` rewritten.
pub open spec fn rw_from(s: Seq<TokV>, opts: Set<Seq<char>>, i: int) -> Seq<TokV>
    decreases s.len() - i,
{
    if i < 0 || i >= s.len() {
        Seq::empty()
    } else if opt_field_at(s, opts, i) {
        opt_access(s[i], s[i + 2]) + rw_from(s, opts, i + 3)
    } else {
        seq![s[i]] + rw_from(s, opts, i + 1)
    }
}

/// `s` with every field access on a name of `opts` rewritten.
pub open spec fn rewrite_opts(s: Seq<TokV>, opts: Set<Seq<char>>) -> Seq<TokV> {
    rw_from(s, opts, 0)
}

/// Left-joined bindings after a clause, given those before it: a
/// `join_left` adds its binding, a clause that binds a name anew removes
/// it, and `group by` starts afresh.
pub open spec fn opt_step(o: Set<Seq<char>>, c: MiddleClause) -> Set<Seq<char>> {
    match c {
        MiddleClause::Let { name, .. } => o.remove(name@),
        MiddleClause::Join(j) => match j.into_group {
            Some(g) => o.remove(g@),
            None => if j.kind == JoinKind::Left {
                o.insert(j.name@)
            } else {
                o.remove(j.name@)
            },
        },
        MiddleClause::Zip { name, .. } => o.remove(name@),
        MiddleClause::GroupBy { .. } => Set::empty(),
        _ => o,
    }
}

/// The names bound by a `join_left` and still in scope just before clause
/// `j` (`j == ms.len()` stands for `select`).
pub open spec fn opt_before(ms: Seq<MiddleClause>, j: int) -> Set<Seq<char>>
    decreases j,
{
    if j <= 0 {
        Set::empty()
    } else {
        opt_step(opt_before(ms, j - 1), ms[j - 1])
    }
}

proof fn lemma_rw_from_plain(s: Seq<TokV>, opts: Set<Seq<char>>, i: int)
    requires
        0 <= i <= s.len(),
        forall|k: int| i <= k < s.len() ==> !opt_field_at(s, opts, k),
    ensures
        rw_from(s, opts, i) == s.subrange(i, s.len() as int),
    decreases s.len() - i,
{
    if i < s.len() {
        lemma_rw_from_plain(s, opts, i + 1);
        assert(seq![s[i]] + s.subrange(i + 1, s.len() as int) =~= s.subrange(i, s.len() as int));
    } else {
        assert(s.subrange(i, s.len() as int) =~= Seq::<TokV>::empty());
    }
}

/// Without a `join_left` in scope, expressions are emitted exactly as
/// written.
pub proof fn law_rewrite_without_left_joins(s: Seq<TokV>)
    ensures
        rewrite_opts(s, Set::empty()) == s,
{
    lemma_rw_from_plain(s, Set::empty(), 0);
    assert(s.subrange(0, s.len() as int) =~= s);
}

/// Only names bound by a `join_left` are rewritten: a sequence with no
/// field access on such a name is emitted unchanged.
pub proof fn law_rewrite_touches_only_left_joined_fields(s: Seq<TokV>, opts: Set<Seq<char>>)
    requires
        forall|k: int| 0 <= k < s.len() ==> !opt_field_at(s, opts, k),
    ensures
        rewrite_opts(s, opts) == s,
{
    lemma_rw_from_plain(s, opts, 0);
    assert(s.subrange(0, s.len() as int) =~= s);
}

/// The names in scope as left-joined bindings before any clause are only
/// ever names that some earlier `join_left` bound.
pub proof fn law_optional_names_come_from_left_joins(ms: Seq<MiddleClause>, j: int, w: Seq<char>)
    requires
        0 <= j <= ms.len(),
        opt_before(ms, j).contains(w),
    ensures
        exists|k: int|
            0 <= k < j && (#[trigger] ms[k] matches MiddleClause::Join(jc) && jc.kind == JoinKind::Left
                && jc.into_group is None && jc.name@ == w),
    decreases j,
{
    if j > 0 {
        let prev = opt_before(ms, j - 1);
        if prev.contains(w) {
            law_optional_names_come_from_left_joins(ms, j - 1, w);
            let k = choose|k: int|
                0 <= k < j - 1 && (#[trigger] ms[k] matches MiddleClause::Join(jc) && jc.kind
                    == JoinKind::Left && jc.into_group is None && jc.name@ == w);
            assert(0 <= k < j);
        } else {
            assert(ms[j - 1] matches MiddleClause::Join(jc) && jc.kind == JoinKind::Left
                && jc.into_group is None && jc.name@ == w);
        }
    }
}

/// What a field access `c.f` on a left-joined binding `c` reads: the
/// field of the matched row as an `Option`,
/// `(c.as_ref().map(|__oql_v| ::core::clone::Clone::clone(&__oql_v.f)))`.
pub open spec fn option_field(c: Seq<char>, f: TokV) -> Seq<TokV> {
    seq![TokV::Open(Delim::Paren), TokV::Ident(c)] + lex(
        ".as_ref().map(|__oql_v| ::core::clone::Clone::clone(&__oql_v."@,
    ) + seq![f] + lex(")))"@)
}

/// The rewrite scans from `k` to `i` when no field access it rewrites
/// reaches across `i`.
proof fn lemma_rw_reaches(s: Seq<TokV>, opts: Set<Seq<char>>, k: int, i: int) -> (pre: Seq<TokV>)
    requires
        0 <= k <= i <= s.len(),
        forall|j: int| k <= j < i && #[trigger] opt_field_at(s, opts, j) ==> j + 3 <= i,
    ensures
        rw_from(s, opts, k) == pre + rw_from(s, opts, i),
    decreases i - k,
{
    if k == i {
        Seq::empty()
    } else if opt_field_at(s, opts, k) {
        let p = lemma_rw_reaches(s, opts, k + 3, i);
        let pre = opt_access(s[k], s[k + 2]) + p;
        assert(rw_from(s, opts, k) =~= pre + rw_from(s, opts, i));
        pre
    } else {
        let p = lemma_rw_reaches(s, opts, k + 1, i);
        let pre = seq![s[k]] + p;
        assert(rw_from(s, opts, k) =~= pre + rw_from(s, opts, i));
        pre
    }
}

/// After a `join_left` binding `c`, every field access `c.f` reads as an
/// `Option`, whether `f` is a named field or a tuple index: wherever `c` is
/// followed by `.` and a member that is not called as a method (and `c` is
/// not itself a member of something), the rewritten tokens hold the
/// projection `(c.as_ref().map(|__oql_v| ... &__oql_v.f ...))` in place of
/// `c.f`, followed by the rewrite of what comes after.
pub proof fn law_left_joined_fields_read_as_options(
    s: Seq<TokV>,
    opts: Set<Seq<char>>,
    i: int,
    c: Seq<char>,
)
    requires
        0 <= i,
        i + 2 < s.len(),
        s[i] == TokV::Ident(c),
        opts.contains(c),
        s[i + 1] == TokV::Punct('.', false),
        s[i + 2] is Ident || s[i + 2] is Lit,
        !(i + 3 < s.len() && s[i + 3] == TokV::Open(Delim::Paren)),
        i == 0 || !(s[i - 1] matches TokV::Punct(d, _) && d == '.'),
    ensures
        exists|pre: Seq<TokV>|
            #[trigger] (pre + option_field(c, s[i + 2])) + rw_from(s, opts, i + 3) == rewrite_opts(
                s,
                opts,
            ),
{
    assert forall|j: int| 0 <= j < i && #[trigger] opt_field_at(s, opts, j) implies j + 3 <= i by {
        if j == i - 1 {
            assert(s[j + 1] == TokV::Punct('.', false));
        } else if j == i - 2 {
            assert(s[j + 1] == TokV::Punct('.', false));
            assert(is_punct(s[i - 1], '.'));
        }
    }
    let pre = lemma_rw_reaches(s, opts, 0, i);
    assert(opt_field_at(s, opts, i));
    assert(opt_access(s[i], s[i + 2]) =~= option_field(c, s[i + 2]));
    assert(rw_from(s, opts, i) == option_field(c, s[i + 2]) + rw_from(s, opts, i + 3));
    assert((pre + option_field(c, s[i + 2])) + rw_from(s, opts, i + 3) =~= rewrite_opts(s, opts));
}

/// Everything else is emitted as written: a name that is no left-joined
/// binding, or is not followed by `.` and a member, or whose member is
/// called as a method, stays the token it was, and the rewrite goes on
/// with the next token.
pub proof fn law_other_names_are_kept(s: Seq<TokV>, opts: Set<Seq<char>>, i: int, c: Seq<char>)
    requires
        0 <= i < s.len(),
        s[i] == TokV::Ident(c),
        i == 0 || !(s[i - 1] matches TokV::Punct(d, _) && d == '.'),
        !opts.contains(c) || i + 2 >= s.len() || s[i + 1] != TokV::Punct('.', false) || !(s[i
            + 2] is Ident || s[i + 2] is Lit) || (i + 3 < s.len() && s[i + 3] == TokV::Open(
            Delim::Paren,
        )),
    ensures
        exists|pre: Seq<TokV>|
            #[trigger] (pre + seq![TokV::Ident(c)]) + rw_from(s, opts, i + 1) == rewrite_opts(s, opts),
{
    assert forall|j: int| 0 <= j < i && #[trigger] opt_field_at(s, opts, j) implies j + 3 <= i by {
        if j == i - 1 {
            assert(s[j + 1] == TokV::Punct('.', false));
        } else if j == i - 2 {
            assert(s[j + 1] == TokV::Punct('.', false));
            assert(is_punct(s[i - 1], '.'));
        }
    }
    let pre = lemma_rw_reaches(s, opts, 0, i);
    assert(!opt_field_at(s, opts, i));
    assert(rw_from(s, opts, i) == seq![TokV::Ident(c)] + rw_from(s, opts, i + 1));
    assert((pre + seq![TokV::Ident(c)]) + rw_from(s, opts, i + 1) =~= rewrite_opts(s, opts));
}

/// Clause `c` binds the name `n` anew, or (`group by`) replaces the row.
pub open spec fn rebinds(c: MiddleClause, n: Seq<char>) -> bool {
    match c {
        MiddleClause::Let { name, .. } => name@ == n,
        MiddleClause::Join(j) => match j.into_group {
            Some(g) => g@ == n,
            None => j.name@ == n,
        },
        MiddleClause::Zip { name, .. } => name@ == n,
        MiddleClause::GroupBy { .. } => true,
        _ => false,
    }
}

/// The binding `n` of a `join_left` (clause `k`) is read as optional in
/// every later clause up to the first one that binds `n` anew or groups
/// the row.
pub proof fn law_left_join_binding_stays_optional(ms: Seq<MiddleClause>, k: int, j: int, n: Seq<char>)
    requires
        0 <= k < j <= ms.len(),
        ms[k] matches MiddleClause::Join(jc) && jc.kind == JoinKind::Left && jc.into_group is None
            && jc.name@ == n,
        forall|m: int| k < m < j ==> !rebinds(#[trigger] ms[m], n),
    ensures
        opt_before(ms, j).contains(n),
    decreases j - k,
{
    if j - 1 > k {
        law_left_join_binding_stays_optional(ms, k, j - 1, n);
        assert(!rebinds(ms[j - 1], n));
    }
}

/// Whether the tokens at `i` are a field access on a name of `opts`.
fn is_opt_field_at(s: &Vec<Tok>, opts: &NameSet, i: usize) -> (r: bool)
    requires
        i < s@.len(),
    ensures
        r == opt_field_at(tv(s@), opts@, i as int),
{
    if s.len() - i <= 2 {
        return false;
    }
    let head = match &s[i] {
        Tok::Ident(c) => opts.contains(c),
        _ => false,
    };
    let dot = match &s[i + 1] {
        Tok::Punct(c, j) => *c == '.' && !*j,
        _ => false,
    };
    let field = match &s[i + 2] {
        Tok::Ident(_) => true,
        Tok::Lit(_) => true,
        _ => false,
    };
    let called = i + 3 < s.len() && match &s[i + 3] {
        Tok::Open(d) => *d == Delim::Paren,
        _ => false,
    };
    let after_dot = i > 0 && match &s[i - 1] {
        Tok::Punct(c, _) => *c == '.',
        _ => false,
    };
    head && dot && field && !called && !after_dot
}

/// Appends `toks` to `out`, with every field access on a name of `opts`
/// rewritten.
pub fn rewrite_into(out: &mut Vec<Tok>, toks: &Vec<Tok>, opts: &NameSet)
    ensures
        tv(final(out)@) == tv(old(out)@) + rewrite_opts(tv(toks@), opts@),
{
    let ghost s = tv(toks@);
    let n = toks.len();
    let mut i: usize = 0;
    assert(tv(out@) + rw_from(s, opts@, 0) == tv(old(out)@) + rewrite_opts(s, opts@));
    while i < n
        invariant
            n == toks@.len(),
            s == tv(toks@),
            i <= n,
            tv(out@) + rw_from(s, opts@, i as int) == tv(old(out)@) + rewrite_opts(s, opts@),
        decreases n - i,
    {
        let ghost before = tv(out@);
        if is_opt_field_at(toks, opts, i) {
            let c = crate::token::copy_tok(&toks[i]);
            let f = crate::token::copy_tok(&toks[i + 2]);
            proof {
                lemma_tv_push(out@, Tok::Open(Delim::Paren));
            }
            out.push(Tok::Open(Delim::Paren));
            proof {
                lemma_tv_push(out@, c);
            }
            out.push(c);
            lex_into(out, ".as_ref().map(|__oql_v| ::core::clone::Clone::clone(&__oql_v.");
            proof {
                lemma_tv_push(out@, f);
            }
            out.push(f);
            lex_into(out, ")))");
            proof {
                assert(tv(out@) =~= before + opt_access(s[i as int], s[i + 2]));
                assert(before + rw_from(s, opts@, i as int) =~= tv(out@) + rw_from(
                    s,
                    opts@,
                    i + 3,
                ));
            }
            i += 3;
        } else {
            let t = crate::token::copy_tok(&toks[i]);
            proof {
                lemma_tv_push(out@, t);
                assert(before + rw_from(s, opts@, i as int) =~= tv(out@.push(t)) + rw_from(
                    s,
                    opts@,
                    i + 1,
                ));
            }
            out.push(t);
            i += 1;
        }
    }
    assert(rw_from(s, opts@, i as int) =~= Seq::<TokV>::empty());
    assert(tv(out@) + Seq::<TokV>::empty() =~= tv(out@));
}

/// For each `j` from 0 to the number of middle clauses, the left-joined
/// names in scope just before clause `j`.
pub fn optional_scopes(q: &Query) -> (r: Vec<NameSet>)
    ensures
        r@.len() == q.middle@.len() + 1,
        forall|j: int| 0 <= j <= q.middle@.len() ==> #[trigger] r@[j]@ == opt_before(q.middle@, j),
{
    let n = q.middle.len();
    let mut r: Vec<NameSet> = Vec::new();
    let mut cur = NameSet::new();
    assert(cur@ =~= opt_before(q.middle@, 0));
    r.push(cur.copy());
    let mut j: usize = 0;
    while j < n
        invariant
            n == q.middle@.len(),
            j <= n,
            r@.len() == j + 1,
            cur@ == opt_before(q.middle@, j as int),
            forall|k: int| 0 <= k <= j ==> #[trigger] r@[k]@ == opt_before(q.middle@, k),
        decreases n - j,
    {
        match &q.middle[j] {
            MiddleClause::Let { name, .. } => {
                cur.remove(name);
            },
            MiddleClause::Join(jc) => match &jc.into_group {
                Some(g) => {
                    cur.remove(g);
                },
                None => {
                    if jc.kind == JoinKind::Left {
                        cur.insert(jc.name.clone());
                    } else {
                        cur.remove(&jc.name);
                    }
                },
            },
            MiddleClause::Zip { name, .. } => {
                cur.remove(name);
            },
            MiddleClause::GroupBy { .. } => {
                cur = NameSet::new();
            },
            _ => {},
        }
        assert(cur@ =~= opt_before(q.middle@, j + 1));
        r.push(cur.copy());
        j += 1;
    }
    r
}

} // verus!
