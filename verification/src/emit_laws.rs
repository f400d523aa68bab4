//! What the generated code of each stage is made of, stated apart from the
//! functions that build it: the queued `let`s open every stage, every
//! `where` is tested (a fused one on both ways a join yields rows), an
//! unmatched outer row is handled as its join's kind says, and a sort key
//! takes each `orderby` in its own direction.
use vstd::prelude::*;
use crate::token::{TokV, Delim};
use crate::ast::{MiddleClause, Query, JoinKind, ex};
use crate::lexer::lex;
use crate::plan::{PendingLet, Stage, StageOp, sv, op_kinds_ok};
use crate::rewrite::{rewrite_opts, opt_before};
use crate::ast::{JoinClause, Expr};
use crate::liveness::ident_set;
use crate::emit::{
    names_acc, tuple_acc, touch_acc, let_acc, lets_acc, clones_acc, sort_key_one,
    sort_keys_list, sort_key_acc, desc_open, lets_used, keys_used, fused_used, map_name,
    join_once_acc, join_miss_acc, join_bind_acc, join_one_acc, join_many_acc, stage_acc,
    stages_acc, expansion,
};
use crate::plan::{
    Plan, plan_ok, stage_ok, law_fused_where_reads_only_the_row, flat_clauses, stage_clauses,
    let_clauses, op_clauses, range_seq,
};

verus! {

/// `code` starts with `prefix`.
pub open spec fn begins_with(code: Seq<TokV>, prefix: Seq<TokV>) -> bool {
    &&& prefix.len() <= code.len()
    &&& forall|k: int| 0 <= k < prefix.len() ==> #[trigger] code[k] == prefix[k]
}

/// The tokens `part` stand in `code` from position `p` on.
pub open spec fn occurs_at(code: Seq<TokV>, part: Seq<TokV>, p: int) -> bool {
    &&& 0 <= p
    &&& p + part.len() <= code.len()
    &&& code.subrange(p, p + part.len()) == part
}

// --- each piece of code is appended to what came before -----------------------

proof fn lemma_names_lin(acc: Seq<TokV>, ns: Seq<Seq<char>>)
    ensures
        names_acc(acc, ns) == acc + names_acc(Seq::empty(), ns),
    decreases ns.len(),
{
    if ns.len() >= 2 {
        lemma_names_lin(acc, ns.drop_last());
        lemma_names_lin(Seq::empty(), ns.drop_last());
    }
}

proof fn lemma_tuple_lin(acc: Seq<TokV>, ns: Seq<Seq<char>>)
    ensures
        tuple_acc(acc, ns) == acc + tuple_acc(Seq::empty(), ns),
{
    if ns.len() != 1 {
        let o = TokV::Open(Delim::Paren);
        lemma_names_lin(acc.push(o), ns);
        lemma_names_lin(Seq::<TokV>::empty().push(o), ns);
    }
}

proof fn lemma_touch_lin(acc: Seq<TokV>, ns: Seq<Seq<char>>, used: Set<Seq<char>>)
    ensures
        touch_acc(acc, ns, used) == acc + touch_acc(Seq::empty(), ns, used),
    decreases ns.len(),
{
    if ns.len() > 0 {
        lemma_touch_lin(acc, ns.drop_last(), used);
        lemma_touch_lin(Seq::empty(), ns.drop_last(), used);
    }
}

proof fn lemma_let_lin(acc: Seq<TokV>, q: Query, l: PendingLet)
    ensures
        let_acc(acc, q, l) == acc + let_acc(Seq::empty(), q, l),
{
}

proof fn lemma_lets_lin(acc: Seq<TokV>, q: Query, ls: Seq<PendingLet>)
    ensures
        lets_acc(acc, q, ls) == acc + lets_acc(Seq::empty(), q, ls),
    decreases ls.len(),
{
    if ls.len() > 0 {
        lemma_lets_lin(acc, q, ls.drop_last());
        lemma_lets_lin(Seq::empty(), q, ls.drop_last());
        lemma_let_lin(lets_acc(acc, q, ls.drop_last()), q, ls.last());
        lemma_let_lin(lets_acc(Seq::empty(), q, ls.drop_last()), q, ls.last());
    }
}

proof fn lemma_clones_lin(acc: Seq<TokV>, ns: Seq<Seq<char>>, name: Seq<char>)
    ensures
        clones_acc(acc, ns, name) == acc + clones_acc(Seq::empty(), ns, name),
    decreases ns.len(),
{
    if ns.len() > 0 {
        lemma_clones_lin(acc, ns.drop_last(), name);
        lemma_clones_lin(Seq::empty(), ns.drop_last(), name);
    }
}

// --- sort keys ----------------------------------------------------------------

/// The part an `orderby` clause `k` gives a sort key: an owned copy of its
/// key, wrapped in `::core::cmp::Reverse` exactly when the clause says
/// `desc`.
pub open spec fn key_part(q: Query, k: int) -> Seq<TokV> {
    match q.middle@[k] {
        MiddleClause::OrderBy { key, descending, .. } => {
            let r = rewrite_opts(ex(key), opt_before(q.middle@, k));
            if descending {
                lex("::core::cmp::Reverse((&("@) + r + lex(")).clone())"@)
            } else {
                lex("(&("@) + r + lex(")).clone()"@)
            }
        },
        _ => Seq::empty(),
    }
}

/// The key parts of the `orderby` clauses `keys`, in order, separated by
/// commas.
pub open spec fn key_parts(q: Query, keys: Seq<usize>) -> Seq<TokV>
    decreases keys.len(),
{
    if keys.len() == 0 {
        Seq::empty()
    } else if keys.len() == 1 {
        key_part(q, keys[0] as int)
    } else {
        key_parts(q, keys.drop_last()) + seq![TokV::Punct(',', false)] + key_part(
            q,
            keys.last() as int,
        )
    }
}

/// The sort key of a run of `orderby` clauses: the one key part, or the
/// tuple of all of them, first clause first.
pub open spec fn composite_key(q: Query, keys: Seq<usize>) -> Seq<TokV> {
    if keys.len() == 1 {
        key_part(q, keys[0] as int)
    } else {
        seq![TokV::Open(Delim::Paren)] + key_parts(q, keys) + seq![TokV::Close(Delim::Paren)]
    }
}

proof fn lemma_key_one(acc: Seq<TokV>, q: Query, k: int)
    ensures
        sort_key_one(acc, q, k) == acc + key_part(q, k),
{
    assert(desc_open() == "::core::cmp::Reverse((&("@);
}

proof fn lemma_key_list(acc: Seq<TokV>, q: Query, keys: Seq<usize>)
    ensures
        sort_keys_list(acc, q, keys) == acc + key_parts(q, keys),
    decreases keys.len(),
{
    if keys.len() == 1 {
        lemma_key_one(acc, q, keys[0] as int);
    } else if keys.len() > 1 {
        lemma_key_list(acc, q, keys.drop_last());
        let a = sort_keys_list(acc, q, keys.drop_last()).push(TokV::Punct(',', false));
        lemma_key_one(a, q, keys.last() as int);
    }
}

/// Each `orderby` of a sort takes its own direction, wherever it stands in
/// a composite key: the sort key is the tuple of the clauses' key parts in
/// order, and the part of clause `k` is wrapped in `Reverse` exactly when
/// clause `k` says `desc`.
pub proof fn law_sort_key_takes_each_direction(acc: Seq<TokV>, q: Query, keys: Seq<usize>)
    requires
        keys.len() > 0,
    ensures
        sort_key_acc(acc, q, keys) == acc + composite_key(q, keys),
{
    if keys.len() == 1 {
        lemma_key_one(acc, q, keys[0] as int);
    } else {
        lemma_key_list(acc.push(TokV::Open(Delim::Paren)), q, keys);
    }
}

// --- joins ----------------------------------------------------------------------

proof fn lemma_join_once_lin(acc: Seq<TokV>, st: Stage)
    ensures
        join_once_acc(acc, st) == acc + join_once_acc(Seq::empty(), st),
{
    let l = lex("::oql::runtime::JoinMatches::Once(::core::option::Option::Some("@);
    lemma_tuple_lin(acc + l, sv(st.outgoing@));
    lemma_tuple_lin(Seq::empty() + l, sv(st.outgoing@));
}

proof fn lemma_join_miss_lin(acc: Seq<TokV>, st: Stage, j: JoinClause)
    ensures
        join_miss_acc(acc, st, j) == acc + join_miss_acc(Seq::empty(), st, j),
{
    if j.kind == JoinKind::Left && j.kind != JoinKind::Must {
        let l = lex("= ::core::option::Option::None;"@);
        let t = TokV::Ident(j.name@);
        lemma_join_once_lin((acc + lex("{ let"@)).push(t) + l, st);
        lemma_join_once_lin((Seq::empty() + lex("{ let"@)).push(t) + l, st);
    }
}

proof fn lemma_join_bind_lin(acc: Seq<TokV>, j: JoinClause, src: Seq<char>)
    ensures
        join_bind_acc(acc, j, src) == acc + join_bind_acc(Seq::empty(), j, src),
{
}

/// The first part of a join's single-match path: the binding of the match
/// and the clones of the row.
pub open spec fn one_head(acc: Seq<TokV>, st: Stage, j: JoinClause) -> Seq<TokV> {
    clones_acc(
        join_bind_acc(acc, j, "::core::clone::Clone::clone(&__m[0])"@),
        sv(st.outgoing@),
        j.name@,
    )
}

/// The first part of the body of a join's loop over several matches.
pub open spec fn many_head(acc: Seq<TokV>, st: Stage, j: JoinClause) -> Seq<TokV> {
    clones_acc(
        join_bind_acc(acc, j, "::core::clone::Clone::clone(__oql_inner)"@),
        sv(st.outgoing@),
        j.name@,
    )
}

proof fn lemma_one_head_lin(acc: Seq<TokV>, st: Stage, j: JoinClause)
    ensures
        one_head(acc, st, j) == acc + one_head(Seq::empty(), st, j),
{
    let src = "::core::clone::Clone::clone(&__m[0])"@;
    lemma_join_bind_lin(acc, j, src);
    lemma_clones_lin(join_bind_acc(acc, j, src), sv(st.outgoing@), j.name@);
    lemma_clones_lin(join_bind_acc(Seq::empty(), j, src), sv(st.outgoing@), j.name@);
}

proof fn lemma_many_head_lin(acc: Seq<TokV>, st: Stage, j: JoinClause)
    ensures
        many_head(acc, st, j) == acc + many_head(Seq::empty(), st, j),
{
    let src = "::core::clone::Clone::clone(__oql_inner)"@;
    lemma_join_bind_lin(acc, j, src);
    lemma_clones_lin(join_bind_acc(acc, j, src), sv(st.outgoing@), j.name@);
    lemma_clones_lin(join_bind_acc(Seq::empty(), j, src), sv(st.outgoing@), j.name@);
}

proof fn lemma_join_one_begins(acc: Seq<TokV>, q: Query, st: Stage, j: JoinClause, fused: Option<usize>)
    ensures
        begins_with(join_one_acc(acc, q, st, j, fused), one_head(acc, st, j)),
        begins_with(one_head(acc, st, j), acc),
{
    lemma_one_head_lin(acc, st, j);
    let a = one_head(acc, st, j);
    match crate::emit::fused_where(q, fused) {
        Some((cond, f)) => {
            let y = crate::emit::expr_acc(a + lex("if !("@), q, cond, f) + lex(
                ") { ::oql::runtime::JoinMatches::Empty } else {"@,
            );
            lemma_join_once_lin(y, st);
        },
        None => {
            lemma_join_once_lin(a, st);
        },
    }
}

proof fn lemma_join_many_begins(acc: Seq<TokV>, q: Query, st: Stage, j: JoinClause, fused: Option<usize>)
    ensures
        begins_with(join_many_acc(acc, q, st, j, fused), many_head(acc, st, j)),
        begins_with(many_head(acc, st, j), acc),
{
    lemma_many_head_lin(acc, st, j);
    let a = many_head(acc, st, j);
    let a2 = match crate::emit::fused_where(q, fused) {
        Some((cond, f)) => crate::emit::expr_acc(a + lex("if !("@), q, cond, f) + lex(
            ") { continue; }"@,
        ),
        None => a,
    };
    lemma_tuple_lin(a2 + lex("__oql_emit.push("@), sv(st.outgoing@));
}

// --- every stage opens with its queued lets -------------------------------------

/// The opening of a stage's closure: what comes before it (`pre`, the
/// adapter call `intro`), the incoming tuple as the closure's pattern,
/// `close`, the touches of incoming bindings outside `used`, and then the
/// statements of the queued `let`s.
pub open spec fn stage_opening(
    acc: Seq<TokV>,
    q: Query,
    st: Stage,
    pre: Seq<TokV>,
    intro: Seq<char>,
    close: Seq<char>,
    used: Set<Seq<char>>,
) -> Seq<TokV> {
    let inc = sv(st.incoming@);
    lets_acc(touch_acc(tuple_acc(acc + pre + lex(intro), inc) + lex(close), inc, used), q, st.lets@)
}

/// In every stage the queued `let`s run first: the stage's code begins
/// with its closure's pattern and touches and then the `let` statements,
/// so that every expression of the stage's own clause comes after them and
/// can read what they bind. Only a `zip` puts something before its
/// closure: the iterator it zips with.
pub proof fn law_queued_lets_open_every_stage(acc: Seq<TokV>, q: Query, st: Stage)
    requires
        op_kinds_ok(q, st.op),
    ensures
        exists|pre: Seq<TokV>, intro: Seq<char>, close: Seq<char>, used: Set<Seq<char>>|
            #![trigger stage_opening(acc, q, st, pre, intro, close, used)]
            {
                &&& pre.len() == 0 || st.op is Zip
                &&& close == "| {"@ || close == ", __oql_zip_item)| {"@
                &&& begins_with(stage_acc(acc, q, st), stage_opening(acc, q, st, pre, intro, close, used))
            },
{
    let e = Seq::<TokV>::empty();
    let outs = sv(st.outgoing@);
    let lu = lets_used(q, st.lets@);
    let ms = q.middle@;
    assert(acc + e =~= acc);
    match st.op {
        StageOp::Sort { keys } => {
            let a = stage_opening(acc, q, st, e, ".map(|"@, "| {"@, keys_used(q, keys@).union(lu));
            law_sort_key_takes_each_direction(a + lex("let __oql_key ="@), q, keys@);
            let y = sort_key_acc(a + lex("let __oql_key ="@), q, keys@) + lex("; (__oql_key,"@);
            lemma_tuple_lin(y, outs);
            assert(begins_with(stage_acc(acc, q, st), a));
        },
        StageOp::Where { clause } => {
            let cond = ms[clause as int]->Where_0;
            let a = stage_opening(acc, q, st, e, ".filter_map(|"@, "| {"@, ident_set(ex(cond)).union(lu));
            let y = crate::emit::expr_acc(a + lex("if"@), q, cond, clause as int) + lex(
                "{ ::core::option::Option::Some("@,
            );
            lemma_tuple_lin(y, outs);
            assert(begins_with(stage_acc(acc, q, st), a));
        },
        StageOp::Join { clause, counter, fused } => {
            let j = *ms[clause as int]->Join_0;
            if j.kind == JoinKind::LastMust {
                let a = stage_opening(acc, q, st, e, ".map(move |"@, "| {"@, ident_set(ex(j.outer_key)).union(lu));
                let y = crate::emit::expr_acc(a + lex("let __oql_outer_key = (&("@), q, j.outer_key, clause as int) + lex(
                    ")).clone(); let"@,
                );
                let y = y.push(TokV::Ident(j.name@)) + lex("= match"@);
                let y = y.push(TokV::Ident(map_name(counter, false))) + lex(
                    ".get(&__oql_outer_key) { ::core::option::Option::None => ::core::panic!(\"oql last_must found no matching inner row\"), ::core::option::Option::Some(__m) => ::core::clone::Clone::clone(__m), };"@,
                );
                lemma_tuple_lin(y, outs);
                assert(begins_with(stage_acc(acc, q, st), a));
            } else {
                let used = ident_set(ex(j.outer_key)).union(fused_used(q, fused));
                let a = stage_opening(acc, q, st, e, ".flat_map(move |"@, "| {"@, used.union(lu));
                let y = crate::emit::expr_acc(a + lex("let __oql_outer_key = (&("@), q, j.outer_key, clause as int) + lex(
                    ")).clone(); let mut __oql_matches = match"@,
                );
                let y = y.push(TokV::Ident(map_name(counter, false))) + lex(
                    ".get(&__oql_outer_key) { ::core::option::Option::None =>"@,
                );
                lemma_join_miss_lin(y, st, j);
                let y = join_miss_acc(y, st, j) + lex(
                    ", ::core::option::Option::Some(__m) => if __m.len() == 1 {"@,
                );
                lemma_join_one_begins(y, q, st, j, fused);
                let y1 = join_one_acc(y, q, st, j, fused) + lex(
                    "} else { let mut __oql_emit = ::std::vec::Vec::with_capacity(__m.len()); for __oql_inner in __m.iter() {"@,
                );
                lemma_join_many_begins(y1, q, st, j, fused);
                assert(begins_with(stage_acc(acc, q, st), a));
            }
        },
        StageOp::GroupJoin { clause, counter } => {
            let j = *ms[clause as int]->Join_0;
            let g = j.into_group->0;
            let a = stage_opening(acc, q, st, e, ".map(move |"@, "| {"@, ident_set(ex(j.outer_key)).union(lu));
            let y = crate::emit::expr_acc(a + lex("let __oql_outer_key = (&("@), q, j.outer_key, clause as int) + lex(
                ")).clone(); let"@,
            );
            let y = y.push(TokV::Ident(g@)) + lex(": ::std::vec::Vec<_> = match"@);
            let y = y.push(TokV::Ident(map_name(counter, true))) + lex(
                ".get(&__oql_outer_key) { ::core::option::Option::None => ::std::vec::Vec::new(), ::core::option::Option::Some(__m) => ::core::clone::Clone::clone(__m), };"@,
            );
            lemma_tuple_lin(y, outs);
            assert(begins_with(stage_acc(acc, q, st), a));
        },
        StageOp::GroupBy { clause } => {
            let element = ms[clause as int]->GroupBy_element;
            let key = ms[clause as int]->GroupBy_key;
            let name = ms[clause as int]->GroupBy_name;
            let a = stage_opening(
                acc,
                q,
                st,
                e,
                ".fold(::std::collections::HashMap::<_, ::std::vec::Vec<_>>::new(), |mut __oql_groups,"@,
                "| {"@,
                ident_set(ex(element)).union(ident_set(ex(key))).union(lu),
            );
            let y = crate::emit::expr_acc(a + lex("let __oql_k = (&("@), q, key, clause as int) + lex(
                ")).clone(); let __oql_e ="@,
            );
            let y = crate::emit::expr_acc(y, q, element, clause as int) + lex(
                "; __oql_groups.entry(__oql_k).or_insert_with(::std::vec::Vec::new).push(__oql_e); __oql_groups }, ).into_iter().map(|(__oql_k, __oql_items)| { let"@,
            );
            let y = y.push(TokV::Ident(name@)) + lex(
                "= ::oql::runtime::Group { key: __oql_k, items: __oql_items, };"@,
            );
            lemma_tuple_lin(y, outs);
            assert(begins_with(stage_acc(acc, q, st), a));
        },
        StageOp::Zip { clause } => {
            let name = ms[clause as int]->Zip_name;
            let source = ms[clause as int]->Zip_source;
            let must = ms[clause as int]->Zip_must;
            let pl = if must {
                lex(
                    ".map(::core::option::Option::Some).chain(::core::iter::repeat_with(|| ::core::option::Option::None)).zip(::core::iter::Iterator::chain(::core::iter::Iterator::map(::core::iter::IntoIterator::into_iter("@,
                )
            } else {
                lex(".zip(::core::iter::IntoIterator::into_iter("@)
            };
            let pr = if must {
                lex(
                    "), ::core::option::Option::Some), ::core::iter::repeat_with(|| ::core::option::Option::None))).map_while(|(__oql_l, __oql_r)| match ::oql::runtime::zip_must_step(__oql_l, __oql_r) { ::core::result::Result::Ok(__oql_pair) => __oql_pair, ::core::result::Result::Err(__oql_e) => ::core::panic!(\"{}\", __oql_e.message()), })"@,
                )
            } else {
                lex("))"@)
            };
            let pre = pl + ex(source) + pr;
            assert(acc + pre =~= acc + pl + ex(source) + pr);
            let a = stage_opening(acc, q, st, pre, ".map(|("@, ", __oql_zip_item)| {"@, Set::<Seq<char>>::empty().union(lu));
            let y = (a + lex("let"@)).push(TokV::Ident(name@)) + lex("= __oql_zip_item;"@);
            lemma_tuple_lin(y, outs);
            assert(begins_with(stage_acc(acc, q, st), a));
        },
        StageOp::Select => {
            let ex_sel = q.select.expr;
            let a = stage_opening(acc, q, st, e, ".map(|"@, "| {"@, ident_set(ex(ex_sel)).union(lu));
            assert(begins_with(stage_acc(acc, q, st), a));
        },
    }
}

// --- a fused where guards both paths of a join -----------------------------------

proof fn lemma_begins_trans(c: Seq<TokV>, b: Seq<TokV>, a: Seq<TokV>)
    requires
        begins_with(c, b),
        begins_with(b, a),
    ensures
        begins_with(c, a),
{
    assert forall|k: int| 0 <= k < a.len() implies #[trigger] c[k] == a[k] by {
        assert(c[k] == b[k]);
    }
}

proof fn lemma_occurs_in_prefix(code: Seq<TokV>, prefix: Seq<TokV>, part: Seq<TokV>, p: int)
    requires
        begins_with(code, prefix),
        occurs_at(prefix, part, p),
    ensures
        occurs_at(code, part, p),
{
    assert forall|k: int| 0 <= k < part.len() implies #[trigger] code.subrange(p, p + part.len())[k]
        == part[k] by {
        assert(code[p + k] == prefix[p + k]);
        assert(prefix.subrange(p, p + part.len())[k] == prefix[p + k]);
    }
    assert(code.subrange(p, p + part.len()) =~= part);
}

/// The check of a fused `where` (clause `f`) on the single match of an
/// outer row: a failing row yields nothing.
pub open spec fn once_guard(q: Query, cond: Expr, f: int) -> Seq<TokV> {
    lex("if !("@) + rewrite_opts(ex(cond), opt_before(q.middle@, f)) + lex(
        ") { ::oql::runtime::JoinMatches::Empty } else {"@,
    )
}

/// The check of a fused `where` (clause `f`) in the loop over several
/// matches: a failing match is skipped.
pub open spec fn loop_guard(q: Query, cond: Expr, f: int) -> Seq<TokV> {
    lex("if !("@) + rewrite_opts(ex(cond), opt_before(q.middle@, f)) + lex(") { continue; }"@)
}

/// A `where` that the plan fuses into a join is checked on every row the
/// join yields: the stage's code holds the condition in the path for a
/// single match and, after it, in the loop over several matches, whatever
/// the kind of the join.
pub proof fn law_fused_where_guards_both_join_paths(
    acc: Seq<TokV>,
    q: Query,
    st: Stage,
    f: usize,
    cond: Expr,
)
    requires
        op_kinds_ok(q, st.op),
        st.op is Join,
        st.op->Join_fused == Some(f),
        q.middle@[st.op->Join_clause as int]->Join_0.kind != JoinKind::LastMust,
        q.middle@[f as int] == MiddleClause::Where(cond),
    ensures
        exists|p1: int, p2: int|
            #![trigger occurs_at(stage_acc(acc, q, st), once_guard(q, cond, f as int), p1), occurs_at(stage_acc(acc, q, st), loop_guard(q, cond, f as int), p2)]
            {
                &&& occurs_at(stage_acc(acc, q, st), once_guard(q, cond, f as int), p1)
                &&& p1 + once_guard(q, cond, f as int).len() <= p2
                &&& occurs_at(stage_acc(acc, q, st), loop_guard(q, cond, f as int), p2)
            },
{
    let ms = q.middle@;
    let clause = st.op->Join_clause;
    let counter = st.op->Join_counter;
    let fused = st.op->Join_fused;
    let j = *ms[clause as int]->Join_0;
    let code = stage_acc(acc, q, st);
    let g1 = once_guard(q, cond, f as int);
    let g2 = loop_guard(q, cond, f as int);
    let lu = lets_used(q, st.lets@);
    let used = ident_set(ex(j.outer_key)).union(fused_used(q, fused));
    let a = stage_opening(acc, q, st, Seq::empty(), ".flat_map(move |"@, "| {"@, used.union(lu));
    assert(acc + Seq::<TokV>::empty() =~= acc);
    let y = crate::emit::expr_acc(a + lex("let __oql_outer_key = (&("@), q, j.outer_key, clause as int) + lex(
        ")).clone(); let mut __oql_matches = match"@,
    );
    let y = y.push(TokV::Ident(map_name(counter, false))) + lex(
        ".get(&__oql_outer_key) { ::core::option::Option::None =>"@,
    );
    let y = join_miss_acc(y, st, j) + lex(
        ", ::core::option::Option::Some(__m) => if __m.len() == 1 {"@,
    );
    // the single-match path
    let h1 = one_head(y, st, j);
    let w1 = crate::emit::expr_acc(h1 + lex("if !("@), q, cond, f as int) + lex(
        ") { ::oql::runtime::JoinMatches::Empty } else {"@,
    );
    assert(w1 =~= h1 + g1);
    assert(h1 + g1 == w1);
    assert(w1.subrange(h1.len() as int, (h1.len() + g1.len()) as int) =~= g1);
    lemma_join_once_lin(w1, st);
    let one = join_one_acc(y, q, st, j, fused);
    assert(one == join_once_acc(w1, st) + lex("}"@));
    assert(begins_with(one, w1));
    // the loop over several matches
    let y1 = one + lex(
        "} else { let mut __oql_emit = ::std::vec::Vec::with_capacity(__m.len()); for __oql_inner in __m.iter() {"@,
    );
    let h2 = many_head(y1, st, j);
    lemma_many_head_lin(y1, st, j);
    let w2 = crate::emit::expr_acc(h2 + lex("if !("@), q, cond, f as int) + lex(") { continue; }"@);
    assert(w2 =~= h2 + g2);
    assert(w2.subrange(h2.len() as int, (h2.len() + g2.len()) as int) =~= g2);
    lemma_tuple_lin(w2 + lex("__oql_emit.push("@), sv(st.outgoing@));
    let many = join_many_acc(y1, q, st, j, fused);
    assert(begins_with(many, w2));
    assert(code == many + lex(
        "} ::oql::runtime::JoinMatches::many(__oql_emit) }, }; ::core::iter::from_fn(move || __oql_matches.next()) })"@,
    ));
    assert(begins_with(code, many));
    lemma_begins_trans(code, many, w2);
    lemma_occurs_in_prefix(code, w2, g2, h2.len() as int);
    assert(begins_with(w2, h2));
    assert(begins_with(h2, y1));
    assert(begins_with(y1, one));
    lemma_begins_trans(code, w2, h2);
    lemma_begins_trans(code, h2, y1);
    lemma_begins_trans(code, y1, one);
    lemma_begins_trans(code, one, w1);
    lemma_occurs_in_prefix(code, w1, g1, h1.len() as int);
    assert(occurs_at(code, g1, h1.len() as int));
    assert(occurs_at(code, g2, h2.len() as int));
}

// --- in the whole expansion -------------------------------------------------------

proof fn lemma_opening_begins(
    acc: Seq<TokV>,
    q: Query,
    st: Stage,
    pre: Seq<TokV>,
    intro: Seq<char>,
    close: Seq<char>,
    used: Set<Seq<char>>,
)
    ensures
        begins_with(stage_opening(acc, q, st, pre, intro, close, used), acc),
{
    let inc = sv(st.incoming@);
    let t = acc + pre + lex(intro);
    lemma_tuple_lin(t, inc);
    let u = tuple_acc(t, inc) + lex(close);
    lemma_touch_lin(u, inc, used);
    lemma_lets_lin(touch_acc(u, inc, used), q, st.lets@);
}

proof fn lemma_stage_begins(acc: Seq<TokV>, q: Query, st: Stage)
    requires
        op_kinds_ok(q, st.op),
    ensures
        begins_with(stage_acc(acc, q, st), acc),
{
    law_queued_lets_open_every_stage(acc, q, st);
    let (pre, intro, close, used) = choose|pre: Seq<TokV>, intro: Seq<char>, close: Seq<char>, used: Set<Seq<char>>|
        #![trigger stage_opening(acc, q, st, pre, intro, close, used)]
        {
            &&& pre.len() == 0 || st.op is Zip
            &&& close == "| {"@ || close == ", __oql_zip_item)| {"@
            &&& begins_with(stage_acc(acc, q, st), stage_opening(acc, q, st, pre, intro, close, used))
        };
    lemma_opening_begins(acc, q, st, pre, intro, close, used);
    lemma_begins_trans(stage_acc(acc, q, st), stage_opening(acc, q, st, pre, intro, close, used), acc);
}

/// The code of stage `k` stands whole in the code of all the stages.
proof fn lemma_stage_in_chain(acc: Seq<TokV>, q: Query, ss: Seq<Stage>, k: int)
    requires
        0 <= k < ss.len(),
        forall|m: int| 0 <= m < ss.len() ==> op_kinds_ok(q, #[trigger] ss[m].op),
    ensures
        begins_with(stages_acc(acc, q, ss), stage_acc(stages_acc(acc, q, ss.take(k)), q, ss[k])),
    decreases ss.len(),
{
    let d = ss.drop_last();
    if k == ss.len() - 1 {
        assert(ss.take(k) =~= d);
    } else {
        assert(d.take(k) =~= ss.take(k));
        assert(d[k] == ss[k]);
        assert forall|m: int| 0 <= m < d.len() implies op_kinds_ok(q, #[trigger] d[m].op) by {
            assert(d[m] == ss[m]);
        }
        lemma_stage_in_chain(acc, q, d, k);
        assert(op_kinds_ok(q, ss[ss.len() - 1].op));
        lemma_stage_begins(stages_acc(acc, q, d), q, ss.last());
        lemma_begins_trans(
            stages_acc(acc, q, ss),
            stages_acc(acc, q, d),
            stage_acc(stages_acc(acc, q, ss.take(k)), q, ss[k]),
        );
    }
}

/// The code of each stage of a plan stands whole in the expansion.
proof fn lemma_stage_in_expansion(q: Query, p: Plan, k: int) -> (before: Seq<TokV>)
    requires
        plan_ok(q, p),
        0 <= k < p.stages@.len(),
    ensures
        begins_with(expansion(q, p), stage_acc(before, q, p.stages@[k])),
{
    let ss = p.stages@;
    assert forall|m: int| 0 <= m < ss.len() implies op_kinds_ok(q, #[trigger] ss[m].op) by {
        assert(stage_ok(q, ss[m]));
        reveal(stage_ok);
    }
    let a = crate::emit::preambles_acc(
        lex("{ #[allow(unused_imports)] use ::oql::runtime::SortAndStrip as _;"@),
        q,
        ss,
    );
    let a = a + lex("::core::iter::IntoIterator::into_iter("@) + ex(q.from.source) + lex(")"@);
    lemma_stage_in_chain(a, q, ss, k);
    let before = stages_acc(a, q, ss.take(k));
    lemma_begins_trans(expansion(q, p), stages_acc(a, q, ss), stage_acc(before, q, ss[k]));
    before
}

/// A `where` that the plan fuses into a join is checked on every row the
/// join yields: the expanded code holds the condition of that `where` in
/// the join's path for a single match and, after it, in its loop over
/// several matches.
pub proof fn law_fused_where_is_checked_in_expansion(q: Query, p: Plan, k: int, f: usize)
    requires
        plan_ok(q, p),
        0 <= k < p.stages@.len(),
        p.stages@[k].op is Join,
        p.stages@[k].op->Join_fused == Some(f),
    ensures
        q.middle@[f as int] is Where,
        exists|p1: int, p2: int|
            #![trigger occurs_at(expansion(q, p), once_guard(q, q.middle@[f as int]->Where_0, f as int), p1), occurs_at(expansion(q, p), loop_guard(q, q.middle@[f as int]->Where_0, f as int), p2)]
            {
                &&& occurs_at(expansion(q, p), once_guard(q, q.middle@[f as int]->Where_0, f as int), p1)
                &&& p1 + once_guard(q, q.middle@[f as int]->Where_0, f as int).len() <= p2
                &&& occurs_at(expansion(q, p), loop_guard(q, q.middle@[f as int]->Where_0, f as int), p2)
            },
{
    let st = p.stages@[k];
    law_fused_where_reads_only_the_row(q, p, k);
    assert(stage_ok(q, st));
    reveal(stage_ok);
    assert(op_kinds_ok(q, st.op));
    let cond = q.middle@[f as int]->Where_0;
    let before = lemma_stage_in_expansion(q, p, k);
    law_fused_where_guards_both_join_paths(before, q, st, f, cond);
    let code = stage_acc(before, q, st);
    let g1 = once_guard(q, cond, f as int);
    let g2 = loop_guard(q, cond, f as int);
    let (p1, p2) = choose|p1: int, p2: int|
        #![trigger occurs_at(code, g1, p1), occurs_at(code, g2, p2)]
        {
            &&& occurs_at(code, g1, p1)
            &&& p1 + g1.len() <= p2
            &&& occurs_at(code, g2, p2)
        };
    lemma_occurs_in_prefix(expansion(q, p), code, g1, p1);
    lemma_occurs_in_prefix(expansion(q, p), code, g2, p2);
}

/// A sort of a plan sorts by the composite key of its `orderby` clauses:
/// the expanded code binds `__oql_key` to it, each clause's part in that
/// clause's own direction.
pub proof fn law_sort_key_in_expansion(q: Query, p: Plan, k: int)
    requires
        plan_ok(q, p),
        0 <= k < p.stages@.len(),
        p.stages@[k].op is Sort,
    ensures
        exists|p1: int|
            occurs_at(
                expansion(q, p),
                lex("let __oql_key ="@) + composite_key(q, p.stages@[k].op->Sort_keys@),
                p1,
            ),
{
    let st = p.stages@[k];
    let keys = st.op->Sort_keys@;
    assert(stage_ok(q, st));
    reveal(stage_ok);
    let before = lemma_stage_in_expansion(q, p, k);
    let lu = lets_used(q, st.lets@);
    let a = stage_opening(before, q, st, Seq::empty(), ".map(|"@, "| {"@, keys_used(q, keys).union(lu));
    assert(before + Seq::<TokV>::empty() =~= before);
    let l = lex("let __oql_key ="@);
    law_sort_key_takes_each_direction(a + l, q, keys);
    let part = l + composite_key(q, keys);
    let y = sort_key_acc(a + l, q, keys) + lex("; (__oql_key,"@);
    assert(y =~= a + part + lex("; (__oql_key,"@));
    lemma_tuple_lin(y, sv(st.outgoing@));
    let code = stage_acc(before, q, st);
    assert(begins_with(code, a + part));
    assert((a + part).subrange(a.len() as int, (a.len() + part.len()) as int) =~= part);
    lemma_occurs_in_prefix(code, a + part, part, a.len() as int);
    lemma_occurs_in_prefix(expansion(q, p), code, part, a.len() as int);
}

// --- every where is checked ---------------------------------------------------------

/// Each clause the stages run is run by one stage.
proof fn lemma_flat_clause_owner(ss: Seq<Stage>, idx: int) -> (km: (int, int))
    requires
        0 <= idx < flat_clauses(ss).len(),
    ensures
        0 <= km.0 < ss.len(),
        0 <= km.1 < stage_clauses(ss[km.0]).len(),
        stage_clauses(ss[km.0])[km.1] == flat_clauses(ss)[idx],
    decreases ss.len(),
{
    let d = ss.drop_last();
    if idx < flat_clauses(d).len() {
        let km = lemma_flat_clause_owner(d, idx);
        assert(d[km.0] == ss[km.0]);
        km
    } else {
        (ss.len() - 1, idx - flat_clauses(d).len())
    }
}

/// The test by which a stage of its own filters by `where` clause `f`.
pub open spec fn filter_check(q: Query, cond: Expr, f: int) -> Seq<TokV> {
    lex("if"@) + rewrite_opts(ex(cond), opt_before(q.middle@, f)) + lex(
        "{ ::core::option::Option::Some("@,
    )
}

/// Every `where` of a query filters: some stage of the plan runs it, either
/// a filter stage of its own, whose code tests the condition, or a join it
/// is fused into, whose code tests it on every row the join yields.
pub proof fn law_every_where_is_checked(q: Query, p: Plan, f: int)
    requires
        plan_ok(q, p),
        0 <= f < q.middle@.len(),
        q.middle@[f] is Where,
    ensures
        exists|k: int|
            0 <= k < p.stages@.len() && {
                let cond = q.middle@[f]->Where_0;
                ||| #[trigger] p.stages@[k].op == StageOp::Where { clause: f as usize }
                    && exists|p1: int| occurs_at(expansion(q, p), filter_check(q, cond, f), p1)
                ||| p.stages@[k].op is Join && p.stages@[k].op->Join_fused == Some(f as usize)
                    && exists|p1: int, p2: int|
                    #![trigger occurs_at(expansion(q, p), once_guard(q, cond, f), p1), occurs_at(expansion(q, p), loop_guard(q, cond, f), p2)]
                    {
                        &&& occurs_at(expansion(q, p), once_guard(q, cond, f), p1)
                        &&& p1 + once_guard(q, cond, f).len() <= p2
                        &&& occurs_at(expansion(q, p), loop_guard(q, cond, f), p2)
                    }
            },
{
    let ss = p.stages@;
    let ms = q.middle@;
    let cond = ms[f]->Where_0;
    assert(flat_clauses(ss)[f] == range_seq(ms.len() as int)[f]);
    let (k, m) = lemma_flat_clause_owner(ss, f);
    let st = ss[k];
    assert(stage_ok(q, st));
    reveal(stage_ok);
    let lc = let_clauses(st.lets@);
    assert(stage_clauses(st)[m] == f);
    if m < lc.len() {
        assert(lc[m] == st.lets@[m].clause as int);
        assert(ms[st.lets@[m].clause as int] is Let);
        assert(false);
    }
    let oc = op_clauses(st.op);
    assert(oc[m - lc.len()] == f);
    match st.op {
        StageOp::Sort { keys } => {
            assert(ms[keys@[m - lc.len()] as int] is OrderBy);
            assert(false);
        },
        StageOp::Where { clause } => {
            assert(clause == f);
            let before = lemma_stage_in_expansion(q, p, k);
            let lu = crate::emit::lets_used(q, st.lets@);
            let a = stage_opening(before, q, st, Seq::empty(), ".filter_map(|"@, "| {"@, ident_set(ex(cond)).union(lu));
            assert(before + Seq::<TokV>::empty() =~= before);
            let w = a + filter_check(q, cond, f);
            let y = crate::emit::expr_acc(a + lex("if"@), q, cond, f) + lex(
                "{ ::core::option::Option::Some("@,
            );
            assert(y =~= w);
            lemma_tuple_lin(y, sv(st.outgoing@));
            let code = stage_acc(before, q, st);
            assert(begins_with(code, w));
            assert(w.subrange(a.len() as int, (a.len() + filter_check(q, cond, f).len()) as int) =~= filter_check(q, cond, f));
            lemma_occurs_in_prefix(code, w, filter_check(q, cond, f), a.len() as int);
            lemma_occurs_in_prefix(expansion(q, p), code, filter_check(q, cond, f), a.len() as int);
            assert(st.op == StageOp::Where { clause: f as usize });
        },
        StageOp::Join { clause, fused, .. } => {
            if m - lc.len() == 0 {
                assert(ms[clause as int] is Join);
                assert(false);
            }
            assert(fused == Some(f as usize));
            law_fused_where_is_checked_in_expansion(q, p, k, f as usize);
        },
        StageOp::GroupJoin { clause, .. } => {
            assert(false);
        },
        StageOp::GroupBy { clause } => {
            assert(false);
        },
        StageOp::Zip { clause } => {
            assert(false);
        },
        StageOp::Select => {
            assert(false);
        },
    }
}

// --- outer rows without a match ---------------------------------------------------

/// What a join of kind `j.kind` does with an outer row that has no match:
/// `join_must` panics, `join_left` yields the row with its binding `None`,
/// and `join` yields nothing.
pub open spec fn unmatched_arm(st: Stage, j: JoinClause) -> Seq<TokV> {
    if j.kind == JoinKind::Must {
        lex("::core::panic!(\"oql join_must found no matching inner row\")"@)
    } else if j.kind == JoinKind::Left {
        (lex("{ let"@).push(TokV::Ident(j.name@)) + lex("= ::core::option::Option::None;"@)) + lex(
            "::oql::runtime::JoinMatches::Once(::core::option::Option::Some("@,
        ) + tuple_acc(Seq::empty(), sv(st.outgoing@)) + lex("))"@) + lex("}"@)
    } else {
        lex("::oql::runtime::JoinMatches::Empty"@)
    }
}

/// An outer row without a match is handled by the kind of its join: the
/// code of a `join`, `join_must` or `join_left` stage answers a failed
/// lookup of the row's key with the arm that kind calls for.
pub proof fn law_unmatched_rows_follow_the_join_kind(acc: Seq<TokV>, q: Query, st: Stage)
    requires
        op_kinds_ok(q, st.op),
        st.op is Join,
        q.middle@[st.op->Join_clause as int]->Join_0.kind != JoinKind::LastMust,
    ensures
        exists|p: int|
            occurs_at(
                stage_acc(acc, q, st),
                lex(".get(&__oql_outer_key) { ::core::option::Option::None =>"@) + unmatched_arm(
                    st,
                    *q.middle@[st.op->Join_clause as int]->Join_0,
                ),
                p,
            ),
{
    let ms = q.middle@;
    let clause = st.op->Join_clause;
    let counter = st.op->Join_counter;
    let fused = st.op->Join_fused;
    let j = *ms[clause as int]->Join_0;
    let code = stage_acc(acc, q, st);
    let lu = lets_used(q, st.lets@);
    let used = ident_set(ex(j.outer_key)).union(fused_used(q, fused));
    let a = stage_opening(acc, q, st, Seq::empty(), ".flat_map(move |"@, "| {"@, used.union(lu));
    assert(acc + Seq::<TokV>::empty() =~= acc);
    let y = crate::emit::expr_acc(a + lex("let __oql_outer_key = (&("@), q, j.outer_key, clause as int) + lex(
        ")).clone(); let mut __oql_matches = match"@,
    );
    let y = y.push(TokV::Ident(map_name(counter, false)));
    let l = lex(".get(&__oql_outer_key) { ::core::option::Option::None =>"@);
    let part = l + unmatched_arm(st, j);
    let m = join_miss_acc(y + l, st, j);
    if j.kind == JoinKind::Left {
        let z = (y + l + lex("{ let"@)).push(TokV::Ident(j.name@)) + lex("= ::core::option::Option::None;"@);
        lemma_join_once_lin(z, st);
        lemma_tuple_lin(Seq::<TokV>::empty() + lex("::oql::runtime::JoinMatches::Once(::core::option::Option::Some("@), sv(st.outgoing@));
        assert(m =~= y + part);
    } else {
        assert(m =~= y + part);
    }
    let y2 = m + lex(", ::core::option::Option::Some(__m) => if __m.len() == 1 {"@);
    lemma_join_one_begins(y2, q, st, j, fused);
    let y3 = join_one_acc(y2, q, st, j, fused) + lex(
        "} else { let mut __oql_emit = ::std::vec::Vec::with_capacity(__m.len()); for __oql_inner in __m.iter() {"@,
    );
    lemma_join_many_begins(y3, q, st, j, fused);
    let many = join_many_acc(y3, q, st, j, fused);
    lemma_begins_trans(many, many_head(y3, st, j), y3);
    assert(begins_with(code, many));
    lemma_begins_trans(code, many, y3);
    lemma_begins_trans(code, y3, join_one_acc(y2, q, st, j, fused));
    lemma_begins_trans(code, join_one_acc(y2, q, st, j, fused), one_head(y2, st, j));
    lemma_begins_trans(code, one_head(y2, st, j), y2);
    assert(begins_with(y2, m));
    lemma_begins_trans(code, y2, m);
    assert(m.subrange(y.len() as int, (y.len() + part.len()) as int) =~= part);
    lemma_occurs_in_prefix(code, m, part, y.len() as int);
}

} // verus!
