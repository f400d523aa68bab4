//! Code generation: the iterator chain that a planned query becomes.
//!
//! Every stage becomes one adapter call on the chain. Its closure takes the
//! incoming environment tuple apart, touches the bindings it does not
//! otherwise use (`let _ = &x;`, so that no binding is reported unused),
//! runs the queued `let`s, does the stage's work and builds the outgoing
//! tuple. A single binding travels bare rather than as a 1-tuple.
//!
//! Each function here appends to an output token vector; its contract says
//! which tokens, as a function of the tokens that were there before (the
//! `_acc` spec functions take that prefix as their first argument).
use vstd::prelude::*;
use vstd::string::StringExecFns;
use crate::token::{Tok, TokV, Delim, tv, lemma_tv_push, append_toks};
use crate::ast::{Expr, MiddleClause, Query, ex};
use crate::names::NameSet;
use crate::liveness::{ident_set, reads, reads_of_expr};
use crate::lexer::{lex, lex_into};
use crate::plan::{PendingLet, Stage, StageOp, Plan, sv, plan_ok, stage_ok, is_join_op, op_counter, join_count, counters_ok, same_stage, law_plan_is_unique};
use crate::ast::{JoinClause, JoinKind};
use crate::rewrite::{rewrite_opts, opt_before, rewrite_into};

verus! {

// --- names and tuples ---------------------------------------------------------

/// `ns` separated by commas.
pub open spec fn names_acc(acc: Seq<TokV>, ns: Seq<Seq<char>>) -> Seq<TokV>
    decreases ns.len(),
{
    if ns.len() == 0 {
        acc
    } else if ns.len() == 1 {
        acc.push(TokV::Ident(ns[0]))
    } else {
        names_acc(acc, ns.drop_last()).push(TokV::Punct(',', false)).push(TokV::Ident(ns.last()))
    }
}

/// The tuple of `ns`, as a pattern or as an expression: `()` for none, the
/// bare name for one, `(a, b, ...)` for more.
pub open spec fn tuple_acc(acc: Seq<TokV>, ns: Seq<Seq<char>>) -> Seq<TokV> {
    if ns.len() == 1 {
        acc.push(TokV::Ident(ns[0]))
    } else {
        names_acc(acc.push(TokV::Open(Delim::Paren)), ns).push(TokV::Close(Delim::Paren))
    }
}

/// `let _ = &x;` for each name `x` of `ns` that is not in `used`.
pub open spec fn touch_acc(acc: Seq<TokV>, ns: Seq<Seq<char>>, used: Set<Seq<char>>) -> Seq<TokV>
    decreases ns.len(),
{
    if ns.len() == 0 {
        acc
    } else {
        let a = touch_acc(acc, ns.drop_last(), used);
        if used.contains(ns.last()) {
            a
        } else {
            (a + lex("let _ = &"@)).push(TokV::Ident(ns.last())) + lex(";"@)
        }
    }
}

/// The set of left-joined names before each clause, indexed by clause.
pub open spec fn scopes_ok(q: Query, sc: Seq<NameSet>) -> bool {
    &&& sc.len() == q.middle@.len() + 1
    &&& forall|j: int| 0 <= j <= q.middle@.len() ==> #[trigger] sc[j]@ == opt_before(q.middle@, j)
}

/// Expression `e` of clause `c` (or of `select`, when `c` is the number of
/// middle clauses), with its field accesses on left-joined names rewritten.
pub open spec fn expr_acc(acc: Seq<TokV>, q: Query, e: Expr, c: int) -> Seq<TokV> {
    acc + rewrite_opts(ex(e), opt_before(q.middle@, c))
}

/// `let name = value;` for the queued `let` `l`.
pub open spec fn let_acc(acc: Seq<TokV>, q: Query, l: PendingLet) -> Seq<TokV> {
    match q.middle@[l.clause as int] {
        MiddleClause::Let { name, value, .. } => expr_acc(
            (acc + lex("let"@)).push(TokV::Ident(name@)) + lex("="@),
            q,
            value,
            l.clause as int,
        ) + lex(";"@),
        _ => acc,
    }
}

/// The statements of the queued `let`s, in order.
pub open spec fn lets_acc(acc: Seq<TokV>, q: Query, ls: Seq<PendingLet>) -> Seq<TokV>
    decreases ls.len(),
{
    if ls.len() == 0 {
        acc
    } else {
        let_acc(lets_acc(acc, q, ls.drop_last()), q, ls.last())
    }
}

/// The names the values of the queued `let`s read.
pub open spec fn lets_used(q: Query, ls: Seq<PendingLet>) -> Set<Seq<char>>
    decreases ls.len(),
{
    if ls.len() == 0 {
        Set::empty()
    } else {
        lets_used(q, ls.drop_last()).union(reads(q.middle@[ls.last().clause as int]))
    }
}

/// The start of a stage's closure: `intro`, the incoming tuple, `close`,
/// the touches of the incoming bindings that neither `used` nor the queued
/// `let`s read, and the queued `let`s.
pub open spec fn open_acc(
    acc: Seq<TokV>,
    intro: Seq<char>,
    close: Seq<char>,
    q: Query,
    st: Stage,
    used: Set<Seq<char>>,
) -> Seq<TokV> {
    let inc = sv(st.incoming@);
    lets_acc(
        touch_acc(tuple_acc(acc + lex(intro), inc) + lex(close), inc, used.union(lets_used(q, st.lets@))),
        q,
        st.lets@,
    )
}

/// The queued `let`s of a stage are `let` clauses of the query.
pub open spec fn lets_ok(q: Query, ls: Seq<PendingLet>) -> bool {
    forall|k: int| 0 <= k < ls.len() ==> (#[trigger] ls[k]).clause < q.middle@.len()
}

// --- emitting -----------------------------------------------------------------

/// Appends the identifier `name`.
pub fn push_name(out: &mut Vec<Tok>, name: &String)
    ensures
        tv(final(out)@) == tv(old(out)@).push(TokV::Ident(name@)),
{
    let t = Tok::Ident(name.clone());
    proof {
        lemma_tv_push(out@, t);
    }
    out.push(t);
}

/// Appends one token.
pub fn push_tok(out: &mut Vec<Tok>, t: Tok)
    ensures
        tv(final(out)@) == tv(old(out)@).push(t@),
{
    proof {
        lemma_tv_push(out@, t);
    }
    out.push(t);
}

/// Appends `names`, separated by commas.
fn emit_names(out: &mut Vec<Tok>, names: &Vec<String>)
    ensures
        tv(final(out)@) == names_acc(tv(old(out)@), sv(names@)),
{
    let ghost acc0 = tv(out@);
    let ghost ns = sv(names@);
    let mut k: usize = 0;
    assert(ns.take(0) =~= Seq::<Seq<char>>::empty());
    while k < names.len()
        invariant
            k <= names@.len(),
            ns == sv(names@),
            tv(out@) == names_acc(acc0, ns.take(k as int)),
        decreases names@.len() - k,
    {
        proof {
            assert(ns.take(k + 1).drop_last() =~= ns.take(k as int));
            assert(ns.take(k + 1).last() == names@[k as int]@);
        }
        if k > 0 {
            push_tok(out, Tok::Punct(',', false));
        }
        push_name(out, &names[k]);
        k += 1;
    }
    assert(ns.take(k as int) =~= ns);
}

/// Appends the tuple of `names`.
pub fn emit_tuple(out: &mut Vec<Tok>, names: &Vec<String>)
    ensures
        tv(final(out)@) == tuple_acc(tv(old(out)@), sv(names@)),
{
    if names.len() == 1 {
        push_name(out, &names[0]);
    } else {
        push_tok(out, Tok::Open(Delim::Paren));
        emit_names(out, names);
        push_tok(out, Tok::Close(Delim::Paren));
    }
}

/// Appends `let _ = &x;` for each `x` of `names` not in `used`.
fn emit_touch(out: &mut Vec<Tok>, names: &Vec<String>, used: &NameSet)
    ensures
        tv(final(out)@) == touch_acc(tv(old(out)@), sv(names@), used@),
{
    let ghost acc0 = tv(out@);
    let ghost ns = sv(names@);
    let mut k: usize = 0;
    assert(ns.take(0) =~= Seq::<Seq<char>>::empty());
    while k < names.len()
        invariant
            k <= names@.len(),
            ns == sv(names@),
            tv(out@) == touch_acc(acc0, ns.take(k as int), used@),
        decreases names@.len() - k,
    {
        proof {
            assert(ns.take(k + 1).drop_last() =~= ns.take(k as int));
            assert(ns.take(k + 1).last() == names@[k as int]@);
        }
        if !used.contains(&names[k]) {
            lex_into(out, "let _ = &");
            push_name(out, &names[k]);
            lex_into(out, ";");
        }
        k += 1;
    }
    assert(ns.take(k as int) =~= ns);
}

/// Appends expression `e` of clause `c`, rewritten for the left-joined
/// names in scope there.
pub fn emit_expr(out: &mut Vec<Tok>, q: &Query, scopes: &Vec<NameSet>, e: &Expr, c: usize)
    requires
        scopes_ok(*q, scopes@),
        c <= q.middle@.len(),
    ensures
        tv(final(out)@) == expr_acc(tv(old(out)@), *q, *e, c as int),
{
    rewrite_into(out, &e.toks, &scopes[c]);
}

/// Appends the statements of the queued `let`s.
fn emit_lets(out: &mut Vec<Tok>, q: &Query, scopes: &Vec<NameSet>, lets: &Vec<PendingLet>)
    requires
        scopes_ok(*q, scopes@),
        lets_ok(*q, lets@),
    ensures
        tv(final(out)@) == lets_acc(tv(old(out)@), *q, lets@),
{
    let ghost acc0 = tv(out@);
    let ghost ls = lets@;
    let mut k: usize = 0;
    assert(ls.take(0) =~= Seq::<PendingLet>::empty());
    while k < lets.len()
        invariant
            k <= lets@.len(),
            ls == lets@,
            scopes_ok(*q, scopes@),
            lets_ok(*q, ls),
            tv(out@) == lets_acc(acc0, *q, ls.take(k as int)),
        decreases lets@.len() - k,
    {
        proof {
            assert(ls.take(k + 1).drop_last() =~= ls.take(k as int));
            assert(ls.take(k + 1).last() == ls[k as int]);
        }
        let l = lets[k];
        assert(l.clause < q.middle@.len());
        match &q.middle[l.clause] {
            MiddleClause::Let { name, value, .. } => {
                lex_into(out, "let");
                push_name(out, name);
                lex_into(out, "=");
                emit_expr(out, q, scopes, value, l.clause);
                lex_into(out, ";");
            },
            _ => {},
        }
        k += 1;
    }
    assert(ls.take(k as int) =~= ls);
}

/// The names the values of the queued `let`s read.
fn lets_reads(q: &Query, lets: &Vec<PendingLet>) -> (r: NameSet)
    requires
        lets_ok(*q, lets@),
    ensures
        r@ == lets_used(*q, lets@),
{
    let ghost ls = lets@;
    let mut r = NameSet::new();
    let mut k: usize = 0;
    assert(ls.take(0) =~= Seq::<PendingLet>::empty());
    while k < lets.len()
        invariant
            k <= lets@.len(),
            ls == lets@,
            lets_ok(*q, ls),
            r@ == lets_used(*q, ls.take(k as int)),
        decreases lets@.len() - k,
    {
        proof {
            assert(ls.take(k + 1).drop_last() =~= ls.take(k as int));
            assert(ls.take(k + 1).last() == ls[k as int]);
        }
        let c = lets[k].clause;
        let more = crate::liveness::clause_reads(&q.middle[c]);
        r.extend(&more);
        k += 1;
    }
    assert(ls.take(k as int) =~= ls);
    r
}

/// Appends the start of a stage's closure.
fn emit_open(
    out: &mut Vec<Tok>,
    intro: &str,
    close: &str,
    q: &Query,
    scopes: &Vec<NameSet>,
    st: &Stage,
    used: &NameSet,
)
    requires
        scopes_ok(*q, scopes@),
        lets_ok(*q, st.lets@),
    ensures
        tv(final(out)@) == open_acc(tv(old(out)@), intro@, close@, *q, *st, used@),
{
    lex_into(out, intro);
    emit_tuple(out, &st.incoming);
    lex_into(out, close);
    let mut all = used.copy();
    let lr = lets_reads(q, &st.lets);
    all.extend(&lr);
    emit_touch(out, &st.incoming, &all);
    emit_lets(out, q, scopes, &st.lets);
}

// --- names of the join maps ---------------------------------------------------

pub open spec fn digit_str(d: int) -> Seq<char> {
    if d == 0 {
        "0"@
    } else if d == 1 {
        "1"@
    } else if d == 2 {
        "2"@
    } else if d == 3 {
        "3"@
    } else if d == 4 {
        "4"@
    } else if d == 5 {
        "5"@
    } else if d == 6 {
        "6"@
    } else if d == 7 {
        "7"@
    } else if d == 8 {
        "8"@
    } else {
        "9"@
    }
}

/// The decimal digits of `n`.
pub open spec fn dec(n: nat) -> Seq<char>
    decreases n,
{
    if n < 10 {
        digit_str(n as int)
    } else {
        dec(n / 10) + digit_str((n % 10) as int)
    }
}

/// The name of the hash map that join number `counter` probes.
pub open spec fn map_name(counter: usize, group: bool) -> Seq<char> {
    (if group {
        "__oql_gjoin_map_"@
    } else {
        "__oql_join_map_"@
    }) + dec(counter as nat)
}

fn digit_text(d: usize) -> (r: &'static str)
    requires
        d < 10,
    ensures
        r@ == digit_str(d as int),
{
    if d == 0 {
        "0"
    } else if d == 1 {
        "1"
    } else if d == 2 {
        "2"
    } else if d == 3 {
        "3"
    } else if d == 4 {
        "4"
    } else if d == 5 {
        "5"
    } else if d == 6 {
        "6"
    } else if d == 7 {
        "7"
    } else if d == 8 {
        "8"
    } else {
        "9"
    }
}

fn append_dec(s: &mut String, n: usize)
    ensures
        final(s)@ == old(s)@ + dec(n as nat),
    decreases n,
{
    if n >= 10 {
        append_dec(s, n / 10);
        s.append(digit_text(n % 10));
        assert(final(s)@ =~= old(s)@ + dec(n as nat));
    } else {
        s.append(digit_text(n));
    }
}

/// Appends the name of the hash map of join number `counter`.
fn emit_map_name(out: &mut Vec<Tok>, counter: usize, group: bool)
    ensures
        tv(final(out)@) == tv(old(out)@).push(TokV::Ident(map_name(counter, group))),
{
    let mut s = if group {
        "__oql_gjoin_map_".to_owned()
    } else {
        "__oql_join_map_".to_owned()
    };
    append_dec(&mut s, counter);
    push_tok(out, Tok::Ident(s));
}

proof fn lemma_digits()
    ensures
        forall|d: int| 0 <= d < 10 ==> (#[trigger] digit_str(d)).len() == 1,
        forall|a: int, b: int|
            0 <= a < 10 && 0 <= b < 10 && #[trigger] digit_str(a) == #[trigger] digit_str(b) ==> a == b,
{
    reveal_strlit("0");
    reveal_strlit("1");
    reveal_strlit("2");
    reveal_strlit("3");
    reveal_strlit("4");
    reveal_strlit("5");
    reveal_strlit("6");
    reveal_strlit("7");
    reveal_strlit("8");
    reveal_strlit("9");
    assert forall|a: int, b: int|
        0 <= a < 10 && 0 <= b < 10 && #[trigger] digit_str(a) == #[trigger] digit_str(b) implies a
        == b by {
        assert(digit_str(a)[0] == digit_str(b)[0]);
    }
}

proof fn lemma_dec_len(n: nat)
    ensures
        dec(n).len() >= 1,
        n >= 10 ==> dec(n).len() >= 2,
    decreases n,
{
    lemma_digits();
    if n >= 10 {
        lemma_dec_len(n / 10);
    }
}

/// Different numbers have different decimal digits.
proof fn lemma_dec_injective(a: nat, b: nat)
    requires
        dec(a) == dec(b),
    ensures
        a == b,
    decreases a,
{
    lemma_digits();
    lemma_dec_len(a);
    lemma_dec_len(b);
    if a < 10 && b < 10 {
        assert(digit_str(a as int) == digit_str(b as int));
    } else if a >= 10 && b >= 10 {
        let da = dec(a / 10);
        let db = dec(b / 10);
        let la = digit_str((a % 10) as int);
        let lb = digit_str((b % 10) as int);
        assert(da.len() == db.len());
        assert(da =~= dec(a).subrange(0, da.len() as int));
        assert(db =~= dec(b).subrange(0, db.len() as int));
        lemma_dec_injective(a / 10, b / 10);
        assert(la =~= dec(a).subrange(da.len() as int, dec(a).len() as int));
        assert(lb =~= dec(b).subrange(db.len() as int, dec(b).len() as int));
        assert(la == lb);
    } else if a < 10 {
        assert(dec(a).len() == 1);
    } else {
        assert(dec(b).len() == 1);
    }
}

proof fn lemma_join_count_step(ss: Seq<Stage>, k: int)
    requires
        0 <= k < ss.len(),
    ensures
        join_count(ss.take(k + 1)) == join_count(ss.take(k)) + if is_join_op(ss[k].op) {
            1nat
        } else {
            0nat
        },
{
    assert(ss.take(k + 1).drop_last() =~= ss.take(k));
}

proof fn lemma_join_count_mono(ss: Seq<Stage>, a: int, b: int)
    requires
        0 <= a <= b <= ss.len(),
    ensures
        join_count(ss.take(a)) <= join_count(ss.take(b)),
    decreases b - a,
{
    if a < b {
        lemma_join_count_mono(ss, a, b - 1);
        lemma_join_count_step(ss, b - 1);
    }
}

/// Two join stages of a plan never probe the same hash map: the maps are
/// numbered in order, and plain joins and group-joins name them apart.
pub proof fn law_join_maps_are_distinct(q: Query, p: Plan, k1: int, k2: int)
    requires
        plan_ok(q, p),
        0 <= k1 < k2 < p.stages@.len(),
        is_join_op(p.stages@[k1].op),
        is_join_op(p.stages@[k2].op),
    ensures
        map_name(op_counter(p.stages@[k1].op), p.stages@[k1].op is GroupJoin) != map_name(
            op_counter(p.stages@[k2].op),
            p.stages@[k2].op is GroupJoin,
        ),
{
    let ss = p.stages@;
    assert(counters_ok(ss));
    let c1 = op_counter(ss[k1].op);
    let c2 = op_counter(ss[k2].op);
    lemma_join_count_step(ss, k1);
    lemma_join_count_mono(ss, k1 + 1, k2);
    assert(c1 < c2);
    let g1 = ss[k1].op is GroupJoin;
    let g2 = ss[k2].op is GroupJoin;
    reveal_strlit("__oql_gjoin_map_");
    reveal_strlit("__oql_join_map_");
    let n1 = map_name(c1, g1);
    let n2 = map_name(c2, g2);
    if n1 == n2 {
        if g1 == g2 {
            let pre = if g1 {
                "__oql_gjoin_map_"@
            } else {
                "__oql_join_map_"@
            };
            assert(dec(c1 as nat) =~= n1.subrange(pre.len() as int, n1.len() as int));
            assert(dec(c2 as nat) =~= n2.subrange(pre.len() as int, n2.len() as int));
            lemma_dec_injective(c1 as nat, c2 as nat);
        } else {
            assert(n1[6] == n2[6]);
        }
    }
}

// --- stages -------------------------------------------------------------------

/// `where cond` (clause `c`).
pub open spec fn where_acc(acc: Seq<TokV>, q: Query, st: Stage, cond: Expr, c: int) -> Seq<TokV> {
    let a = open_acc(acc, ".filter_map(|"@, "| {"@, q, st, ident_set(ex(cond)));
    let a = expr_acc(a + lex("if"@), q, cond, c) + lex("{ ::core::option::Option::Some("@);
    tuple_acc(a, sv(st.outgoing@)) + lex(") } else { ::core::option::Option::None } })"@)
}

/// `select e`.
pub open spec fn select_acc(acc: Seq<TokV>, q: Query, st: Stage) -> Seq<TokV> {
    let e = q.select.expr;
    let a = open_acc(acc, ".map(|"@, "| {"@, q, st, ident_set(ex(e)));
    expr_acc(a, q, e, q.middle@.len() as int) + lex("})"@)
}

/// A group-join (clause `c`) into `g`.
pub open spec fn group_join_acc(
    acc: Seq<TokV>,
    q: Query,
    st: Stage,
    j: JoinClause,
    g: Seq<char>,
    c: int,
    counter: usize,
) -> Seq<TokV> {
    let a = open_acc(acc, ".map(move |"@, "| {"@, q, st, ident_set(ex(j.outer_key)));
    let a = expr_acc(a + lex("let __oql_outer_key = (&("@), q, j.outer_key, c) + lex(
        ")).clone(); let"@,
    );
    let a = a.push(TokV::Ident(g)) + lex(": ::std::vec::Vec<_> = match"@);
    let a = a.push(TokV::Ident(map_name(counter, true))) + lex(
        ".get(&__oql_outer_key) { ::core::option::Option::None => ::std::vec::Vec::new(), ::core::option::Option::Some(__m) => ::core::clone::Clone::clone(__m), };"@,
    );
    tuple_acc(a, sv(st.outgoing@)) + lex("})"@)
}

/// `group element by key into name` (clause `c`).
pub open spec fn group_by_acc(
    acc: Seq<TokV>,
    q: Query,
    st: Stage,
    element: Expr,
    key: Expr,
    name: Seq<char>,
    c: int,
) -> Seq<TokV> {
    let a = open_acc(
        acc,
        ".fold(::std::collections::HashMap::<_, ::std::vec::Vec<_>>::new(), |mut __oql_groups,"@,
        "| {"@,
        q,
        st,
        ident_set(ex(element)).union(ident_set(ex(key))),
    );
    let a = expr_acc(a + lex("let __oql_k = (&("@), q, key, c) + lex(
        ")).clone(); let __oql_e ="@,
    );
    let a = expr_acc(a, q, element, c) + lex(
        "; __oql_groups.entry(__oql_k).or_insert_with(::std::vec::Vec::new).push(__oql_e); __oql_groups }, ).into_iter().map(|(__oql_k, __oql_items)| { let"@,
    );
    let a = a.push(TokV::Ident(name)) + lex(
        "= ::oql::runtime::Group { key: __oql_k, items: __oql_items, };"@,
    );
    tuple_acc(a, sv(st.outgoing@)) + lex("})"@)
}

/// `zip name in source` or `zip_must name in source`.
pub open spec fn zip_acc(
    acc: Seq<TokV>,
    q: Query,
    st: Stage,
    name: Seq<char>,
    source: Expr,
    must: bool,
) -> Seq<TokV> {
    let a = if must {
        acc + lex(
            ".map(::core::option::Option::Some).chain(::core::iter::repeat_with(|| ::core::option::Option::None)).zip(::core::iter::Iterator::chain(::core::iter::Iterator::map(::core::iter::IntoIterator::into_iter("@,
        ) + ex(source) + lex(
            "), ::core::option::Option::Some), ::core::iter::repeat_with(|| ::core::option::Option::None))).map_while(|(__oql_l, __oql_r)| match ::oql::runtime::zip_must_step(__oql_l, __oql_r) { ::core::result::Result::Ok(__oql_pair) => __oql_pair, ::core::result::Result::Err(__oql_e) => ::core::panic!(\"{}\", __oql_e.message()), })"@,
        )
    } else {
        acc + lex(".zip(::core::iter::IntoIterator::into_iter("@) + ex(source) + lex("))"@)
    };
    let a = open_acc(a, ".map(|("@, ", __oql_zip_item)| {"@, q, st, Set::empty());
    let a = (a + lex("let"@)).push(TokV::Ident(name)) + lex("= __oql_zip_item;"@);
    tuple_acc(a, sv(st.outgoing@)) + lex("})"@)
}

/// `last_must name in ... on outer == inner` (clause `c`).
pub open spec fn last_must_acc(
    acc: Seq<TokV>,
    q: Query,
    st: Stage,
    j: JoinClause,
    c: int,
    counter: usize,
) -> Seq<TokV> {
    let a = open_acc(acc, ".map(move |"@, "| {"@, q, st, ident_set(ex(j.outer_key)));
    let a = expr_acc(a + lex("let __oql_outer_key = (&("@), q, j.outer_key, c) + lex(
        ")).clone(); let"@,
    );
    let a = a.push(TokV::Ident(j.name@)) + lex("= match"@);
    let a = a.push(TokV::Ident(map_name(counter, false))) + lex(
        ".get(&__oql_outer_key) { ::core::option::Option::None => ::core::panic!(\"oql last_must found no matching inner row\"), ::core::option::Option::Some(__m) => ::core::clone::Clone::clone(__m), };"@,
    );
    tuple_acc(a, sv(st.outgoing@)) + lex("})"@)
}

/// The `where` fused into a join, with its clause index.
pub open spec fn fused_where(q: Query, fused: Option<usize>) -> Option<(Expr, int)> {
    match fused {
        Some(f) => match q.middle@[f as int] {
            MiddleClause::Where(cond) => Some((cond, f as int)),
            _ => None,
        },
        None => None,
    }
}

pub open spec fn fused_used(q: Query, fused: Option<usize>) -> Set<Seq<char>> {
    match fused_where(q, fused) {
        Some((cond, _)) => ident_set(ex(cond)),
        None => Set::empty(),
    }
}

/// One emitted row of a join: `JoinMatches::Once(Some(<outgoing tuple>))`.
pub open spec fn join_once_acc(acc: Seq<TokV>, st: Stage) -> Seq<TokV> {
    tuple_acc(
        acc + lex("::oql::runtime::JoinMatches::Once(::core::option::Option::Some("@),
        sv(st.outgoing@),
    ) + lex("))"@)
}

/// What a join yields for an outer row without matches.
pub open spec fn join_miss_acc(acc: Seq<TokV>, st: Stage, j: JoinClause) -> Seq<TokV> {
    if j.kind == JoinKind::Must {
        acc + lex("::core::panic!(\"oql join_must found no matching inner row\")"@)
    } else if j.kind == JoinKind::Left {
        join_once_acc(
            (acc + lex("{ let"@)).push(TokV::Ident(j.name@)) + lex(
                "= ::core::option::Option::None;"@,
            ),
            st,
        ) + lex("}"@)
    } else {
        acc + lex("::oql::runtime::JoinMatches::Empty"@)
    }
}

/// `let name = <src>;`, with the match wrapped in `Some` for `join_left`.
pub open spec fn join_bind_acc(acc: Seq<TokV>, j: JoinClause, src: Seq<char>) -> Seq<TokV> {
    let a = (acc + lex("let"@)).push(TokV::Ident(j.name@)) + lex("="@);
    (if j.kind == JoinKind::Left {
        a + lex("::core::option::Option::Some("@) + lex(src) + lex(")"@)
    } else {
        a + lex(src)
    }) + lex(";"@)
}

/// `let x = ::core::clone::Clone::clone(&x);` for each `x` of `ns` but
/// `name`.
pub open spec fn clones_acc(acc: Seq<TokV>, ns: Seq<Seq<char>>, name: Seq<char>) -> Seq<TokV>
    decreases ns.len(),
{
    if ns.len() == 0 {
        acc
    } else {
        let a = clones_acc(acc, ns.drop_last(), name);
        if ns.last() == name {
            a
        } else {
            ((a + lex("let"@)).push(TokV::Ident(ns.last())) + lex(
                "= ::core::clone::Clone::clone(&"@,
            )).push(TokV::Ident(ns.last())) + lex(");"@)
        }
    }
}

/// The single-match path of a join.
pub open spec fn join_one_acc(acc: Seq<TokV>, q: Query, st: Stage, j: JoinClause, fused: Option<usize>) -> Seq<TokV> {
    let a = clones_acc(
        join_bind_acc(acc, j, "::core::clone::Clone::clone(&__m[0])"@),
        sv(st.outgoing@),
        j.name@,
    );
    match fused_where(q, fused) {
        Some((cond, f)) => join_once_acc(
            expr_acc(a + lex("if !("@), q, cond, f) + lex(
                ") { ::oql::runtime::JoinMatches::Empty } else {"@,
            ),
            st,
        ) + lex("}"@),
        None => join_once_acc(a, st),
    }
}

/// The body of the loop over several matches of a join.
pub open spec fn join_many_acc(acc: Seq<TokV>, q: Query, st: Stage, j: JoinClause, fused: Option<usize>) -> Seq<TokV> {
    let a = clones_acc(
        join_bind_acc(acc, j, "::core::clone::Clone::clone(__oql_inner)"@),
        sv(st.outgoing@),
        j.name@,
    );
    let a = match fused_where(q, fused) {
        Some((cond, f)) => expr_acc(a + lex("if !("@), q, cond, f) + lex(") { continue; }"@),
        None => a,
    };
    tuple_acc(a + lex("__oql_emit.push("@), sv(st.outgoing@)) + lex(");"@)
}

/// `join`, `join_must` or `join_left` (clause `c`), with an optional fused
/// `where`.
pub open spec fn flat_join_acc(
    acc: Seq<TokV>,
    q: Query,
    st: Stage,
    j: JoinClause,
    c: int,
    counter: usize,
    fused: Option<usize>,
) -> Seq<TokV> {
    let used = ident_set(ex(j.outer_key)).union(fused_used(q, fused));
    let a = open_acc(acc, ".flat_map(move |"@, "| {"@, q, st, used);
    let a = expr_acc(a + lex("let __oql_outer_key = (&("@), q, j.outer_key, c) + lex(
        ")).clone(); let mut __oql_matches = match"@,
    );
    let a = a.push(TokV::Ident(map_name(counter, false))) + lex(
        ".get(&__oql_outer_key) { ::core::option::Option::None =>"@,
    );
    let a = join_miss_acc(a, st, j) + lex(
        ", ::core::option::Option::Some(__m) => if __m.len() == 1 {"@,
    );
    let a = join_one_acc(a, q, st, j, fused) + lex(
        "} else { let mut __oql_emit = ::std::vec::Vec::with_capacity(__m.len()); for __oql_inner in __m.iter() {"@,
    );
    join_many_acc(a, q, st, j, fused) + lex(
        "} ::oql::runtime::JoinMatches::many(__oql_emit) }, }; ::core::iter::from_fn(move || __oql_matches.next()) })"@,
    )
}

/// The hash map that a join probes, built before the chain runs: a vector
/// of the inner rows per key, or (`last`) only the last inner row per key.
pub open spec fn join_map_acc(acc: Seq<TokV>, map: Seq<char>, j: JoinClause, last: bool) -> Seq<TokV> {
    let a = ((acc + lex("let"@)).push(TokV::Ident(map)) + lex("= { let __oql_inner_source ="@))
        + ex(j.source) + lex(
        "; let __oql_inner_iter = ::core::iter::IntoIterator::into_iter(__oql_inner_source); let __oql_hint = ::core::iter::Iterator::size_hint(&__oql_inner_iter).0;"@,
    );
    let a = if last {
        a + lex(
            "let mut __oql_map: ::std::collections::HashMap<_, _> = ::std::collections::HashMap::with_capacity(__oql_hint); for"@,
        )
    } else {
        a + lex(
            "let mut __oql_map: ::std::collections::HashMap<_, ::std::vec::Vec<_>> = ::std::collections::HashMap::with_capacity(__oql_hint); for"@,
        )
    };
    let a = (a.push(TokV::Ident(j.name@)) + lex("in __oql_inner_iter { let __oql_k = (&("@)) + ex(
        j.inner_key,
    ) + lex(")).clone();"@);
    let a = if last {
        a + lex("__oql_map.insert(__oql_k,"@)
    } else {
        a + lex("__oql_map.entry(__oql_k).or_insert_with(::std::vec::Vec::new).push("@)
    };
    a.push(TokV::Ident(j.name@)) + lex("); } __oql_map };"@)
}

// --- emitting stages ----------------------------------------------------------

fn emit_where(out: &mut Vec<Tok>, q: &Query, scopes: &Vec<NameSet>, st: &Stage, cond: &Expr, c: usize)
    requires
        scopes_ok(*q, scopes@),
        lets_ok(*q, st.lets@),
        c < q.middle@.len(),
    ensures
        tv(final(out)@) == where_acc(tv(old(out)@), *q, *st, *cond, c as int),
{
    let used = reads_of_expr(cond);
    emit_open(out, ".filter_map(|", "| {", q, scopes, st, &used);
    lex_into(out, "if");
    emit_expr(out, q, scopes, cond, c);
    lex_into(out, "{ ::core::option::Option::Some(");
    emit_tuple(out, &st.outgoing);
    lex_into(out, ") } else { ::core::option::Option::None } })");
}

fn emit_select(out: &mut Vec<Tok>, q: &Query, scopes: &Vec<NameSet>, st: &Stage)
    requires
        scopes_ok(*q, scopes@),
        lets_ok(*q, st.lets@),
    ensures
        tv(final(out)@) == select_acc(tv(old(out)@), *q, *st),
{
    let e = &q.select.expr;
    let used = reads_of_expr(e);
    emit_open(out, ".map(|", "| {", q, scopes, st, &used);
    emit_expr(out, q, scopes, e, q.middle.len());
    lex_into(out, "})");
}

fn emit_group_join(
    out: &mut Vec<Tok>,
    q: &Query,
    scopes: &Vec<NameSet>,
    st: &Stage,
    j: &JoinClause,
    g: &String,
    c: usize,
    counter: usize,
)
    requires
        scopes_ok(*q, scopes@),
        lets_ok(*q, st.lets@),
        c < q.middle@.len(),
    ensures
        tv(final(out)@) == group_join_acc(tv(old(out)@), *q, *st, *j, g@, c as int, counter),
{
    let used = reads_of_expr(&j.outer_key);
    emit_open(out, ".map(move |", "| {", q, scopes, st, &used);
    lex_into(out, "let __oql_outer_key = (&(");
    emit_expr(out, q, scopes, &j.outer_key, c);
    lex_into(out, ")).clone(); let");
    push_name(out, g);
    lex_into(out, ": ::std::vec::Vec<_> = match");
    emit_map_name(out, counter, true);
    lex_into(
        out,
        ".get(&__oql_outer_key) { ::core::option::Option::None => ::std::vec::Vec::new(), ::core::option::Option::Some(__m) => ::core::clone::Clone::clone(__m), };",
    );
    emit_tuple(out, &st.outgoing);
    lex_into(out, "})");
}

fn emit_group_by(
    out: &mut Vec<Tok>,
    q: &Query,
    scopes: &Vec<NameSet>,
    st: &Stage,
    element: &Expr,
    key: &Expr,
    name: &String,
    c: usize,
)
    requires
        scopes_ok(*q, scopes@),
        lets_ok(*q, st.lets@),
        c < q.middle@.len(),
    ensures
        tv(final(out)@) == group_by_acc(
            tv(old(out)@),
            *q,
            *st,
            *element,
            *key,
            name@,
            c as int,
        ),
{
    let mut used = reads_of_expr(element);
    let ku = reads_of_expr(key);
    used.extend(&ku);
    emit_open(
        out,
        ".fold(::std::collections::HashMap::<_, ::std::vec::Vec<_>>::new(), |mut __oql_groups,",
        "| {",
        q,
        scopes,
        st,
        &used,
    );
    lex_into(out, "let __oql_k = (&(");
    emit_expr(out, q, scopes, key, c);
    lex_into(out, ")).clone(); let __oql_e =");
    emit_expr(out, q, scopes, element, c);
    lex_into(
        out,
        "; __oql_groups.entry(__oql_k).or_insert_with(::std::vec::Vec::new).push(__oql_e); __oql_groups }, ).into_iter().map(|(__oql_k, __oql_items)| { let",
    );
    push_name(out, name);
    lex_into(out, "= ::oql::runtime::Group { key: __oql_k, items: __oql_items, };");
    emit_tuple(out, &st.outgoing);
    lex_into(out, "})");
}

fn emit_zip(
    out: &mut Vec<Tok>,
    q: &Query,
    scopes: &Vec<NameSet>,
    st: &Stage,
    name: &String,
    source: &Expr,
    must: bool,
)
    requires
        scopes_ok(*q, scopes@),
        lets_ok(*q, st.lets@),
    ensures
        tv(final(out)@) == zip_acc(tv(old(out)@), *q, *st, name@, *source, must),
{
    if must {
        lex_into(
            out,
            ".map(::core::option::Option::Some).chain(::core::iter::repeat_with(|| ::core::option::Option::None)).zip(::core::iter::Iterator::chain(::core::iter::Iterator::map(::core::iter::IntoIterator::into_iter(",
        );
        append_toks(out, &source.toks);
        lex_into(
            out,
            "), ::core::option::Option::Some), ::core::iter::repeat_with(|| ::core::option::Option::None))).map_while(|(__oql_l, __oql_r)| match ::oql::runtime::zip_must_step(__oql_l, __oql_r) { ::core::result::Result::Ok(__oql_pair) => __oql_pair, ::core::result::Result::Err(__oql_e) => ::core::panic!(\"{}\", __oql_e.message()), })",
        );
    } else {
        lex_into(out, ".zip(::core::iter::IntoIterator::into_iter(");
        append_toks(out, &source.toks);
        lex_into(out, "))");
    }
    let used = NameSet::new();
    emit_open(out, ".map(|(", ", __oql_zip_item)| {", q, scopes, st, &used);
    lex_into(out, "let");
    push_name(out, name);
    lex_into(out, "= __oql_zip_item;");
    emit_tuple(out, &st.outgoing);
    lex_into(out, "})");
}

fn emit_last_must(
    out: &mut Vec<Tok>,
    q: &Query,
    scopes: &Vec<NameSet>,
    st: &Stage,
    j: &JoinClause,
    c: usize,
    counter: usize,
)
    requires
        scopes_ok(*q, scopes@),
        lets_ok(*q, st.lets@),
        c < q.middle@.len(),
    ensures
        tv(final(out)@) == last_must_acc(tv(old(out)@), *q, *st, *j, c as int, counter),
{
    let used = reads_of_expr(&j.outer_key);
    emit_open(out, ".map(move |", "| {", q, scopes, st, &used);
    lex_into(out, "let __oql_outer_key = (&(");
    emit_expr(out, q, scopes, &j.outer_key, c);
    lex_into(out, ")).clone(); let");
    push_name(out, &j.name);
    lex_into(out, "= match");
    emit_map_name(out, counter, false);
    lex_into(
        out,
        ".get(&__oql_outer_key) { ::core::option::Option::None => ::core::panic!(\"oql last_must found no matching inner row\"), ::core::option::Option::Some(__m) => ::core::clone::Clone::clone(__m), };",
    );
    emit_tuple(out, &st.outgoing);
    lex_into(out, "})");
}

fn emit_join_once(out: &mut Vec<Tok>, st: &Stage)
    ensures
        tv(final(out)@) == join_once_acc(tv(old(out)@), *st),
{
    lex_into(out, "::oql::runtime::JoinMatches::Once(::core::option::Option::Some(");
    emit_tuple(out, &st.outgoing);
    lex_into(out, "))");
}

fn emit_join_miss(out: &mut Vec<Tok>, st: &Stage, j: &JoinClause)
    ensures
        tv(final(out)@) == join_miss_acc(tv(old(out)@), *st, *j),
{
    if j.kind == JoinKind::Must {
        lex_into(out, "::core::panic!(\"oql join_must found no matching inner row\")");
    } else if j.kind == JoinKind::Left {
        lex_into(out, "{ let");
        push_name(out, &j.name);
        lex_into(out, "= ::core::option::Option::None;");
        emit_join_once(out, st);
        lex_into(out, "}");
    } else {
        lex_into(out, "::oql::runtime::JoinMatches::Empty");
    }
}

fn emit_join_bind(out: &mut Vec<Tok>, j: &JoinClause, src: &str)
    ensures
        tv(final(out)@) == join_bind_acc(tv(old(out)@), *j, src@),
{
    lex_into(out, "let");
    push_name(out, &j.name);
    lex_into(out, "=");
    if j.kind == JoinKind::Left {
        lex_into(out, "::core::option::Option::Some(");
        lex_into(out, src);
        lex_into(out, ")");
    } else {
        lex_into(out, src);
    }
    lex_into(out, ";");
}

fn emit_clones(out: &mut Vec<Tok>, names: &Vec<String>, name: &String)
    ensures
        tv(final(out)@) == clones_acc(tv(old(out)@), sv(names@), name@),
{
    let ghost acc0 = tv(out@);
    let ghost ns = sv(names@);
    let mut k: usize = 0;
    assert(ns.take(0) =~= Seq::<Seq<char>>::empty());
    while k < names.len()
        invariant
            k <= names@.len(),
            ns == sv(names@),
            tv(out@) == clones_acc(acc0, ns.take(k as int), name@),
        decreases names@.len() - k,
    {
        proof {
            assert(ns.take(k + 1).drop_last() =~= ns.take(k as int));
            assert(ns.take(k + 1).last() == names@[k as int]@);
        }
        if names[k] != *name {
            lex_into(out, "let");
            push_name(out, &names[k]);
            lex_into(out, "= ::core::clone::Clone::clone(&");
            push_name(out, &names[k]);
            lex_into(out, ");");
        }
        k += 1;
    }
    assert(ns.take(k as int) =~= ns);
}

fn emit_join_one(
    out: &mut Vec<Tok>,
    q: &Query,
    scopes: &Vec<NameSet>,
    st: &Stage,
    j: &JoinClause,
    fused: Option<usize>,
)
    requires
        scopes_ok(*q, scopes@),
        fused matches Some(f) ==> f < q.middle@.len(),
    ensures
        tv(final(out)@) == join_one_acc(tv(old(out)@), *q, *st, *j, fused),
{
    emit_join_bind(out, j, "::core::clone::Clone::clone(&__m[0])");
    emit_clones(out, &st.outgoing, &j.name);
    match fused {
        Some(f) => match &q.middle[f] {
            MiddleClause::Where(cond) => {
                lex_into(out, "if !(");
                emit_expr(out, q, scopes, cond, f);
                lex_into(out, ") { ::oql::runtime::JoinMatches::Empty } else {");
                emit_join_once(out, st);
                lex_into(out, "}");
            },
            _ => {
                emit_join_once(out, st);
            },
        },
        None => {
            emit_join_once(out, st);
        },
    }
}

fn emit_join_many(
    out: &mut Vec<Tok>,
    q: &Query,
    scopes: &Vec<NameSet>,
    st: &Stage,
    j: &JoinClause,
    fused: Option<usize>,
)
    requires
        scopes_ok(*q, scopes@),
        fused matches Some(f) ==> f < q.middle@.len(),
    ensures
        tv(final(out)@) == join_many_acc(tv(old(out)@), *q, *st, *j, fused),
{
    emit_join_bind(out, j, "::core::clone::Clone::clone(__oql_inner)");
    emit_clones(out, &st.outgoing, &j.name);
    match fused {
        Some(f) => match &q.middle[f] {
            MiddleClause::Where(cond) => {
                lex_into(out, "if !(");
                emit_expr(out, q, scopes, cond, f);
                lex_into(out, ") { continue; }");
            },
            _ => {},
        },
        None => {},
    }
    lex_into(out, "__oql_emit.push(");
    emit_tuple(out, &st.outgoing);
    lex_into(out, ");");
}

fn emit_flat_join(
    out: &mut Vec<Tok>,
    q: &Query,
    scopes: &Vec<NameSet>,
    st: &Stage,
    j: &JoinClause,
    c: usize,
    counter: usize,
    fused: Option<usize>,
)
    requires
        scopes_ok(*q, scopes@),
        lets_ok(*q, st.lets@),
        c < q.middle@.len(),
        fused matches Some(f) ==> f < q.middle@.len(),
    ensures
        tv(final(out)@) == flat_join_acc(tv(old(out)@), *q, *st, *j, c as int, counter, fused),
{
    let mut used = reads_of_expr(&j.outer_key);
    match fused {
        Some(f) => match &q.middle[f] {
            MiddleClause::Where(cond) => {
                let fu = reads_of_expr(cond);
                used.extend(&fu);
            },
            _ => {
                assert(used@ =~= used@.union(Set::empty()));
            },
        },
        None => {
            assert(used@ =~= used@.union(Set::empty()));
        },
    }
    emit_open(out, ".flat_map(move |", "| {", q, scopes, st, &used);
    lex_into(out, "let __oql_outer_key = (&(");
    emit_expr(out, q, scopes, &j.outer_key, c);
    lex_into(out, ")).clone(); let mut __oql_matches = match");
    emit_map_name(out, counter, false);
    lex_into(out, ".get(&__oql_outer_key) { ::core::option::Option::None =>");
    emit_join_miss(out, st, j);
    lex_into(out, ", ::core::option::Option::Some(__m) => if __m.len() == 1 {");
    emit_join_one(out, q, scopes, st, j, fused);
    lex_into(
        out,
        "} else { let mut __oql_emit = ::std::vec::Vec::with_capacity(__m.len()); for __oql_inner in __m.iter() {",
    );
    emit_join_many(out, q, scopes, st, j, fused);
    lex_into(
        out,
        "} ::oql::runtime::JoinMatches::many(__oql_emit) }, }; ::core::iter::from_fn(move || __oql_matches.next()) })",
    );
}

fn emit_join_map(out: &mut Vec<Tok>, counter: usize, group: bool, j: &JoinClause, last: bool)
    ensures
        tv(final(out)@) == join_map_acc(tv(old(out)@), map_name(counter, group), *j, last),
{
    lex_into(out, "let");
    emit_map_name(out, counter, group);
    lex_into(out, "= { let __oql_inner_source =");
    append_toks(out, &j.source.toks);
    lex_into(
        out,
        "; let __oql_inner_iter = ::core::iter::IntoIterator::into_iter(__oql_inner_source); let __oql_hint = ::core::iter::Iterator::size_hint(&__oql_inner_iter).0;",
    );
    if last {
        lex_into(
            out,
            "let mut __oql_map: ::std::collections::HashMap<_, _> = ::std::collections::HashMap::with_capacity(__oql_hint); for",
        );
    } else {
        lex_into(
            out,
            "let mut __oql_map: ::std::collections::HashMap<_, ::std::vec::Vec<_>> = ::std::collections::HashMap::with_capacity(__oql_hint); for",
        );
    }
    push_name(out, &j.name);
    lex_into(out, "in __oql_inner_iter { let __oql_k = (&(");
    append_toks(out, &j.inner_key.toks);
    lex_into(out, ")).clone();");
    if last {
        lex_into(out, "__oql_map.insert(__oql_k,");
    } else {
        lex_into(out, "__oql_map.entry(__oql_k).or_insert_with(::std::vec::Vec::new).push(");
    }
    push_name(out, &j.name);
    lex_into(out, "); } __oql_map };");
}

// --- sorting ------------------------------------------------------------------

/// The opening of a descending key part.
pub open spec fn desc_open() -> Seq<char> {
    "::core::cmp::Reverse((&("@
}

fn emit_desc_open(out: &mut Vec<Tok>)
    ensures
        tv(final(out)@) == tv(old(out)@) + lex(desc_open()),
{
    lex_into(out, "::core::cmp::Reverse((&(");
}

/// The key part of `orderby` clause `k`: an owned copy of the key, wrapped
/// to reverse the order for `desc`.
pub open spec fn sort_key_one(acc: Seq<TokV>, q: Query, k: int) -> Seq<TokV> {
    match q.middle@[k] {
        MiddleClause::OrderBy { key, descending, .. } => if descending {
            expr_acc(acc + lex(desc_open()), q, key, k) + lex(")).clone())"@)
        } else {
            expr_acc(acc + lex("(&("@), q, key, k) + lex(")).clone()"@)
        },
        _ => acc,
    }
}

/// The key parts of the `orderby` clauses `keys`, separated by commas.
pub open spec fn sort_keys_list(acc: Seq<TokV>, q: Query, keys: Seq<usize>) -> Seq<TokV>
    decreases keys.len(),
{
    if keys.len() == 0 {
        acc
    } else if keys.len() == 1 {
        sort_key_one(acc, q, keys[0] as int)
    } else {
        sort_key_one(
            sort_keys_list(acc, q, keys.drop_last()).push(TokV::Punct(',', false)),
            q,
            keys.last() as int,
        )
    }
}

/// The sort key: the single key part, or the tuple of all of them, so that
/// the first `orderby` decides first.
pub open spec fn sort_key_acc(acc: Seq<TokV>, q: Query, keys: Seq<usize>) -> Seq<TokV> {
    if keys.len() == 1 {
        sort_key_one(acc, q, keys[0] as int)
    } else {
        sort_keys_list(acc.push(TokV::Open(Delim::Paren)), q, keys).push(
            TokV::Close(Delim::Paren),
        )
    }
}

/// The names the keys of the `orderby` clauses `keys` read.
pub open spec fn keys_used(q: Query, keys: Seq<usize>) -> Set<Seq<char>>
    decreases keys.len(),
{
    if keys.len() == 0 {
        Set::empty()
    } else {
        keys_used(q, keys.drop_last()).union(reads(q.middle@[keys.last() as int]))
    }
}

/// A sort by the keys of the `orderby` clauses `keys`: each row is paired
/// with its key, the pairs are collected and sorted, and the rows come back
/// without the keys.
pub open spec fn sort_acc(acc: Seq<TokV>, q: Query, st: Stage, keys: Seq<usize>) -> Seq<TokV> {
    let a = open_acc(acc, ".map(|"@, "| {"@, q, st, keys_used(q, keys));
    let a = sort_key_acc(a + lex("let __oql_key ="@), q, keys) + lex("; (__oql_key,"@);
    tuple_acc(a, sv(st.outgoing@)) + lex(
        ") }) .collect::<::std::vec::Vec<_>>() .__oql_sort_and_strip() .into_iter()"@,
    )
}

fn emit_sort_key_one(out: &mut Vec<Tok>, q: &Query, scopes: &Vec<NameSet>, k: usize)
    requires
        scopes_ok(*q, scopes@),
        k < q.middle@.len(),
    ensures
        tv(final(out)@) == sort_key_one(tv(old(out)@), *q, k as int),
{
    match &q.middle[k] {
        MiddleClause::OrderBy { key, descending, .. } => {
            if *descending {
                emit_desc_open(out);
                emit_expr(out, q, scopes, key, k);
                lex_into(out, ")).clone())");
            } else {
                lex_into(out, "(&(");
                emit_expr(out, q, scopes, key, k);
                lex_into(out, ")).clone()");
            }
        },
        _ => {},
    }
}

fn emit_sort_keys_list(out: &mut Vec<Tok>, q: &Query, scopes: &Vec<NameSet>, keys: &Vec<usize>)
    requires
        scopes_ok(*q, scopes@),
        forall|k: int| 0 <= k < keys@.len() ==> #[trigger] keys@[k] < q.middle@.len(),
    ensures
        tv(final(out)@) == sort_keys_list(tv(old(out)@), *q, keys@),
{
    let ghost acc0 = tv(out@);
    let ghost ks = keys@;
    let mut i: usize = 0;
    assert(ks.take(0) =~= Seq::<usize>::empty());
    while i < keys.len()
        invariant
            i <= keys@.len(),
            ks == keys@,
            scopes_ok(*q, scopes@),
            forall|k: int| 0 <= k < keys@.len() ==> #[trigger] keys@[k] < q.middle@.len(),
            tv(out@) == sort_keys_list(acc0, *q, ks.take(i as int)),
        decreases keys@.len() - i,
    {
        proof {
            assert(ks.take(i + 1).drop_last() =~= ks.take(i as int));
            assert(ks.take(i + 1).last() == ks[i as int]);
        }
        if i > 0 {
            push_tok(out, Tok::Punct(',', false));
        }
        emit_sort_key_one(out, q, scopes, keys[i]);
        i += 1;
    }
    assert(ks.take(i as int) =~= ks);
}

fn keys_reads(q: &Query, keys: &Vec<usize>) -> (r: NameSet)
    requires
        forall|k: int| 0 <= k < keys@.len() ==> #[trigger] keys@[k] < q.middle@.len(),
    ensures
        r@ == keys_used(*q, keys@),
{
    let ghost ks = keys@;
    let mut r = NameSet::new();
    let mut i: usize = 0;
    assert(ks.take(0) =~= Seq::<usize>::empty());
    while i < keys.len()
        invariant
            i <= keys@.len(),
            ks == keys@,
            forall|k: int| 0 <= k < keys@.len() ==> #[trigger] keys@[k] < q.middle@.len(),
            r@ == keys_used(*q, ks.take(i as int)),
        decreases keys@.len() - i,
    {
        proof {
            assert(ks.take(i + 1).drop_last() =~= ks.take(i as int));
            assert(ks.take(i + 1).last() == ks[i as int]);
        }
        let more = crate::liveness::clause_reads(&q.middle[keys[i]]);
        r.extend(&more);
        i += 1;
    }
    assert(ks.take(i as int) =~= ks);
    r
}

fn emit_sort(out: &mut Vec<Tok>, q: &Query, scopes: &Vec<NameSet>, st: &Stage, keys: &Vec<usize>)
    requires
        scopes_ok(*q, scopes@),
        lets_ok(*q, st.lets@),
        forall|k: int| 0 <= k < keys@.len() ==> #[trigger] keys@[k] < q.middle@.len(),
    ensures
        tv(final(out)@) == sort_acc(tv(old(out)@), *q, *st, keys@),
{
    let used = keys_reads(q, keys);
    emit_open(out, ".map(|", "| {", q, scopes, st, &used);
    lex_into(out, "let __oql_key =");
    if keys.len() == 1 {
        emit_sort_key_one(out, q, scopes, keys[0]);
    } else {
        push_tok(out, Tok::Open(Delim::Paren));
        emit_sort_keys_list(out, q, scopes, keys);
        push_tok(out, Tok::Close(Delim::Paren));
    }
    lex_into(out, "; (__oql_key,");
    emit_tuple(out, &st.outgoing);
    lex_into(out, ") }) .collect::<::std::vec::Vec<_>>() .__oql_sort_and_strip() .into_iter()");
}

// --- the whole chain ----------------------------------------------------------

/// The adapter call of a stage.
pub open spec fn stage_acc(acc: Seq<TokV>, q: Query, st: Stage) -> Seq<TokV> {
    let ms = q.middle@;
    match st.op {
        StageOp::Sort { keys } => sort_acc(acc, q, st, keys@),
        StageOp::Where { clause } => match ms[clause as int] {
            MiddleClause::Where(cond) => where_acc(acc, q, st, cond, clause as int),
            _ => acc,
        },
        StageOp::Join { clause, counter, fused } => match ms[clause as int] {
            MiddleClause::Join(j) => if j.kind == JoinKind::LastMust {
                last_must_acc(acc, q, st, *j, clause as int, counter)
            } else {
                flat_join_acc(acc, q, st, *j, clause as int, counter, fused)
            },
            _ => acc,
        },
        StageOp::GroupJoin { clause, counter } => match ms[clause as int] {
            MiddleClause::Join(j) => match j.into_group {
                Some(g) => group_join_acc(acc, q, st, *j, g@, clause as int, counter),
                None => acc,
            },
            _ => acc,
        },
        StageOp::GroupBy { clause } => match ms[clause as int] {
            MiddleClause::GroupBy { element, key, name } => group_by_acc(
                acc,
                q,
                st,
                element,
                key,
                name@,
                clause as int,
            ),
            _ => acc,
        },
        StageOp::Zip { clause } => match ms[clause as int] {
            MiddleClause::Zip { name, source, must } => zip_acc(acc, q, st, name@, source, must),
            _ => acc,
        },
        StageOp::Select => select_acc(acc, q, st),
    }
}

/// The hash map a join stage builds before the chain runs, if any.
pub open spec fn preamble_acc(acc: Seq<TokV>, q: Query, st: Stage) -> Seq<TokV> {
    let ms = q.middle@;
    match st.op {
        StageOp::Join { clause, counter, .. } => match ms[clause as int] {
            MiddleClause::Join(j) => join_map_acc(
                acc,
                map_name(counter, false),
                *j,
                j.kind == JoinKind::LastMust,
            ),
            _ => acc,
        },
        StageOp::GroupJoin { clause, counter } => match ms[clause as int] {
            MiddleClause::Join(j) => join_map_acc(acc, map_name(counter, true), *j, false),
            _ => acc,
        },
        _ => acc,
    }
}

pub open spec fn stages_acc(acc: Seq<TokV>, q: Query, ss: Seq<Stage>) -> Seq<TokV>
    decreases ss.len(),
{
    if ss.len() == 0 {
        acc
    } else {
        stage_acc(stages_acc(acc, q, ss.drop_last()), q, ss.last())
    }
}

pub open spec fn preambles_acc(acc: Seq<TokV>, q: Query, ss: Seq<Stage>) -> Seq<TokV>
    decreases ss.len(),
{
    if ss.len() == 0 {
        acc
    } else {
        preamble_acc(preambles_acc(acc, q, ss.drop_last()), q, ss.last())
    }
}

/// The code a query expands to under plan `p`: a block that builds the
/// join maps and then evaluates to the iterator chain, starting from the
/// source of `from`.
pub open spec fn expansion(q: Query, p: Plan) -> Seq<TokV> {
    let a = preambles_acc(
        lex("{ #[allow(unused_imports)] use ::oql::runtime::SortAndStrip as _;"@),
        q,
        p.stages@,
    );
    let a = a + lex("::core::iter::IntoIterator::into_iter("@) + ex(q.from.source) + lex(")"@);
    stages_acc(a, q, p.stages@) + lex("}"@)
}

fn emit_stage(out: &mut Vec<Tok>, q: &Query, scopes: &Vec<NameSet>, st: &Stage)
    requires
        scopes_ok(*q, scopes@),
        stage_ok(*q, *st),
    ensures
        tv(final(out)@) == stage_acc(tv(old(out)@), *q, *st),
{
    proof {
        reveal(stage_ok);
    }
    match &st.op {
        StageOp::Sort { keys } => {
            emit_sort(out, q, scopes, st, keys);
        },
        StageOp::Where { clause } => match &q.middle[*clause] {
            MiddleClause::Where(cond) => {
                emit_where(out, q, scopes, st, cond, *clause);
            },
            _ => {},
        },
        StageOp::Join { clause, counter, fused } => match &q.middle[*clause] {
            MiddleClause::Join(j) => {
                if j.kind == JoinKind::LastMust {
                    emit_last_must(out, q, scopes, st, &**j, *clause, *counter);
                } else {
                    emit_flat_join(out, q, scopes, st, &**j, *clause, *counter, *fused);
                }
            },
            _ => {},
        },
        StageOp::GroupJoin { clause, counter } => match &q.middle[*clause] {
            MiddleClause::Join(j) => match &j.into_group {
                Some(g) => {
                    emit_group_join(out, q, scopes, st, &**j, g, *clause, *counter);
                },
                None => {},
            },
            _ => {},
        },
        StageOp::GroupBy { clause } => match &q.middle[*clause] {
            MiddleClause::GroupBy { element, key, name } => {
                emit_group_by(out, q, scopes, st, element, key, name, *clause);
            },
            _ => {},
        },
        StageOp::Zip { clause } => match &q.middle[*clause] {
            MiddleClause::Zip { name, source, must } => {
                emit_zip(out, q, scopes, st, name, source, *must);
            },
            _ => {},
        },
        StageOp::Select => {
            emit_select(out, q, scopes, st);
        },
    }
}

fn emit_preamble(out: &mut Vec<Tok>, q: &Query, st: &Stage)
    requires
        stage_ok(*q, *st),
    ensures
        tv(final(out)@) == preamble_acc(tv(old(out)@), *q, *st),
{
    proof {
        reveal(stage_ok);
    }
    match &st.op {
        StageOp::Join { clause, counter, .. } => match &q.middle[*clause] {
            MiddleClause::Join(j) => {
                emit_join_map(out, *counter, false, &**j, j.kind == JoinKind::LastMust);
            },
            _ => {},
        },
        StageOp::GroupJoin { clause, counter } => match &q.middle[*clause] {
            MiddleClause::Join(j) => {
                emit_join_map(out, *counter, true, &**j, false);
            },
            _ => {},
        },
        _ => {},
    }
}

/// The code that `q` expands to under plan `p`.
pub fn emit_query(q: &Query, p: &Plan) -> (r: Vec<Tok>)
    requires
        plan_ok(*q, *p),
    ensures
        tv(r@) == expansion(*q, *p),
{
    let scopes = crate::rewrite::optional_scopes(q);
    let ghost ss = p.stages@;
    let mut out: Vec<Tok> = Vec::new();
    lex_into(&mut out, "{ #[allow(unused_imports)] use ::oql::runtime::SortAndStrip as _;");
    let ghost a0 = tv(out@);
    let mut k: usize = 0;
    assert(ss.take(0) =~= Seq::<Stage>::empty());
    while k < p.stages.len()
        invariant
            k <= ss.len(),
            ss == p.stages@,
            forall|i: int| 0 <= i < ss.len() ==> stage_ok(*q, #[trigger] ss[i]),
            tv(out@) == preambles_acc(a0, *q, ss.take(k as int)),
        decreases ss.len() - k,
    {
        proof {
            assert(ss.take(k + 1).drop_last() =~= ss.take(k as int));
            assert(ss.take(k + 1).last() == ss[k as int]);
        }
        emit_preamble(&mut out, q, &p.stages[k]);
        k += 1;
    }
    assert(ss.take(k as int) =~= ss);
    lex_into(&mut out, "::core::iter::IntoIterator::into_iter(");
    append_toks(&mut out, &q.from.source.toks);
    lex_into(&mut out, ")");
    let ghost a1 = tv(out@);
    let mut k: usize = 0;
    assert(ss.take(0) =~= Seq::<Stage>::empty());
    while k < p.stages.len()
        invariant
            k <= ss.len(),
            ss == p.stages@,
            scopes_ok(*q, scopes@),
            forall|i: int| 0 <= i < ss.len() ==> stage_ok(*q, #[trigger] ss[i]),
            tv(out@) == stages_acc(a1, *q, ss.take(k as int)),
        decreases ss.len() - k,
    {
        proof {
            assert(ss.take(k + 1).drop_last() =~= ss.take(k as int));
            assert(ss.take(k + 1).last() == ss[k as int]);
        }
        emit_stage(&mut out, q, &scopes, &p.stages[k]);
        k += 1;
    }
    assert(ss.take(k as int) =~= ss);
    lex_into(&mut out, "}");
    out
}

// --- the code of a query is determined ------------------------------------------

proof fn lemma_stage_code_alike(acc: Seq<TokV>, q: Query, st1: Stage, st2: Stage)
    requires
        same_stage(st1, st2),
    ensures
        stage_acc(acc, q, st1) == stage_acc(acc, q, st2),
        preamble_acc(acc, q, st1) == preamble_acc(acc, q, st2),
{
    match (st1.op, st2.op) {
        (StageOp::Sort { keys: k1 }, StageOp::Sort { keys: k2 }) => {
            assert(sort_acc(acc, q, st1, k1@) == sort_acc(acc, q, st2, k2@));
        },
        _ => {},
    }
}

proof fn lemma_stages_code_alike(acc: Seq<TokV>, q: Query, ss1: Seq<Stage>, ss2: Seq<Stage>, k: int)
    requires
        ss1.len() == ss2.len(),
        forall|j: int| 0 <= j < ss1.len() ==> same_stage(#[trigger] ss1[j], ss2[j]),
        0 <= k <= ss1.len(),
    ensures
        stages_acc(acc, q, ss1.take(k)) == stages_acc(acc, q, ss2.take(k)),
        preambles_acc(acc, q, ss1.take(k)) == preambles_acc(acc, q, ss2.take(k)),
    decreases k,
{
    if k > 0 {
        lemma_stages_code_alike(acc, q, ss1, ss2, k - 1);
        assert(ss1.take(k).drop_last() =~= ss1.take(k - 1));
        assert(ss2.take(k).drop_last() =~= ss2.take(k - 1));
        assert(same_stage(ss1[k - 1], ss2[k - 1]));
        lemma_stage_code_alike(stages_acc(acc, q, ss1.take(k - 1)), q, ss1[k - 1], ss2[k - 1]);
        lemma_stage_code_alike(preambles_acc(acc, q, ss1.take(k - 1)), q, ss1[k - 1], ss2[k - 1]);
    } else {
        assert(ss1.take(0) =~= Seq::<Stage>::empty());
        assert(ss2.take(0) =~= Seq::<Stage>::empty());
    }
}

/// The code of a query is determined by the query and the range variable of
/// its `from`: every plan for it expands to the same tokens.
pub proof fn law_expansion_is_determined(q: Query, p1: Plan, p2: Plan)
    requires
        plan_ok(q, p1),
        plan_ok(q, p2),
        sv(p1.initial@) == sv(p2.initial@),
    ensures
        expansion(q, p1) == expansion(q, p2),
{
    law_plan_is_unique(q, p1, p2);
    let ss1 = p1.stages@;
    let ss2 = p2.stages@;
    let n = ss1.len() as int;
    let a0 = lex("{ #[allow(unused_imports)] use ::oql::runtime::SortAndStrip as _;"@);
    lemma_stages_code_alike(a0, q, ss1, ss2, n);
    assert(ss1.take(n) =~= ss1);
    assert(ss2.take(n) =~= ss2);
    let a1 = preambles_acc(a0, q, ss1) + lex("::core::iter::IntoIterator::into_iter("@) + ex(
        q.from.source,
    ) + lex(")"@);
    lemma_stages_code_alike(a1, q, ss1, ss2, n);
}

} // verus!
