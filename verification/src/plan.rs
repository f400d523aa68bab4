//! Pipeline planning: which iterator stages a query becomes, and which
//! bindings each stage receives and passes on.
//!
//! After `from`, the range variable is visible; each later clause may bind
//! more names. Between stages the visible bindings travel as an
//! *environment tuple*. Liveness analysis drops every binding that no later
//! clause reads, so each stage passes on only what is still needed.
//!
//! Consecutive `let`s are not stages of their own: they are queued and run
//! inside the closure of the next stage. Consecutive `orderby`s are queued
//! and merged into one sort with a composite key, which is emitted when the
//! next clause that needs the sorted order arrives. A `where` right after a
//! plain or `join_must` join is fused into the join when every bare
//! identifier of its condition is a binding of the joined row.
use vstd::prelude::*;
use crate::token::{Tok, TokV, tv, same_name};
use crate::ast::{Expr, JoinKind, JoinClause, MiddleClause, Query, ex};
use crate::names::{NameSet, name_views};
use crate::liveness::{compute_live_after, clause_reads, reads, live_from, select_reads, reads_of_select, bare_idents, bare_set};

verus! {

/// A `let` waiting to run inside the next stage's closure.
#[derive(Clone, Copy, Debug)]
pub struct PendingLet {
    /// Index of the `let` clause in the query's middle clauses.
    pub clause: usize,
    /// Whether a later clause reads the binding.
    pub live: bool,
    /// Whether the name was already a binding of the row when the `let` was
    /// queued.
    pub shadow: bool,
}

/// What a stage does.
pub enum StageOp {
    /// Sort by the keys of the listed `orderby` clauses (first key first).
    Sort { keys: Vec<usize> },
    /// Filter by the `where` clause.
    Where { clause: usize },
    /// A hash join (`join`, `join_must`, `join_left` or `last_must`), with an
    /// optional `where` fused into it.
    Join { clause: usize, counter: usize, fused: Option<usize> },
    /// A group-join (`join ... into g`).
    GroupJoin { clause: usize, counter: usize },
    /// `group ... by ... into ...`.
    GroupBy { clause: usize },
    /// `zip` or `zip_must`.
    Zip { clause: usize },
    /// The final projection.
    Select,
}

/// One stage of the pipeline.
pub struct Stage {
    /// The bindings of the row the stage receives, in tuple order.
    pub incoming: Vec<String>,
    /// The queued `let`s that run first inside the stage.
    pub lets: Vec<PendingLet>,
    pub op: StageOp,
    /// The bindings of the row the stage passes on, in tuple order.
    pub outgoing: Vec<String>,
}

/// The pipeline for a query.
pub struct Plan {
    /// The bindings of the row produced by `from`.
    pub initial: Vec<String>,
    pub stages: Vec<Stage>,
}

// --- specifications -----------------------------------------------------------

pub open spec fn sv(v: Seq<String>) -> Seq<Seq<char>> {
    name_views(v)
}

/// The clause indices `0 .. n`, in order.
pub open spec fn range_seq(n: int) -> Seq<int> {
    Seq::new(n as nat, |k: int| k)
}

pub open spec fn let_clauses(ls: Seq<PendingLet>) -> Seq<int> {
    ls.map_values(|l: PendingLet| l.clause as int)
}

pub open spec fn idx_seq(v: Seq<usize>) -> Seq<int> {
    v.map_values(|k: usize| k as int)
}

/// The clauses a stage executes besides its queued `let`s, in order.
pub open spec fn op_clauses(op: StageOp) -> Seq<int> {
    match op {
        StageOp::Sort { keys } => idx_seq(keys@),
        StageOp::Where { clause } => seq![clause as int],
        StageOp::Join { clause, fused, .. } => match fused {
            Some(f) => seq![clause as int, f as int],
            None => seq![clause as int],
        },
        StageOp::GroupJoin { clause, .. } => seq![clause as int],
        StageOp::GroupBy { clause } => seq![clause as int],
        StageOp::Zip { clause } => seq![clause as int],
        StageOp::Select => Seq::empty(),
    }
}

/// Every clause a stage executes, in order.
pub open spec fn stage_clauses(st: Stage) -> Seq<int> {
    let_clauses(st.lets@) + op_clauses(st.op)
}

/// Every clause the stages execute, in order.
pub open spec fn flat_clauses(ss: Seq<Stage>) -> Seq<int>
    decreases ss.len(),
{
    if ss.len() == 0 {
        Seq::empty()
    } else {
        flat_clauses(ss.drop_last()) + stage_clauses(ss.last())
    }
}

/// The name a clause binds (the group name for a group-join), if any.
pub open spec fn bound_name(c: MiddleClause) -> Seq<char> {
    match c {
        MiddleClause::Let { name, .. } => name@,
        MiddleClause::Join(j) => match j.into_group {
            Some(g) => g@,
            None => j.name@,
        },
        MiddleClause::Zip { name, .. } => name@,
        MiddleClause::GroupBy { name, .. } => name@,
        _ => Seq::empty(),
    }
}

/// The names that the queued `let`s add to the row, in order.
pub open spec fn pushed_seq(q: Query, ls: Seq<PendingLet>) -> Seq<Seq<char>>
    decreases ls.len(),
{
    if ls.len() == 0 {
        Seq::empty()
    } else {
        pushed_seq(q, ls.drop_last()) + if ls.last().live && !ls.last().shadow {
            seq![bound_name(q.middle@[ls.last().clause as int])]
        } else {
            Seq::empty()
        }
    }
}

/// The names of all the queued `let`s.
pub open spec fn let_names(q: Query, ls: Seq<PendingLet>) -> Set<Seq<char>> {
    Set::new(
        |w: Seq<char>|
            exists|k: int| 0 <= k < ls.len() && bound_name(q.middle@[ls[k].clause as int]) == w,
    )
}

/// The name an operation binds, if any.
pub open spec fn op_defs(q: Query, op: StageOp) -> Set<Seq<char>> {
    match op {
        StageOp::Join { clause, .. } => set![bound_name(q.middle@[clause as int])],
        StageOp::GroupJoin { clause, .. } => set![bound_name(q.middle@[clause as int])],
        StageOp::Zip { clause } => set![bound_name(q.middle@[clause as int])],
        StageOp::GroupBy { clause } => set![bound_name(q.middle@[clause as int])],
        _ => Set::empty(),
    }
}

pub open spec fn is_plain_join(c: MiddleClause) -> bool {
    match c {
        MiddleClause::Join(j) => j.into_group is None,
        _ => false,
    }
}

pub open spec fn is_group_join(c: MiddleClause) -> bool {
    match c {
        MiddleClause::Join(j) => j.into_group is Some,
        _ => false,
    }
}

/// The clause kinds an operation refers to are the right ones.
pub open spec fn op_kinds_ok(q: Query, op: StageOp) -> bool {
    let ms = q.middle@;
    match op {
        StageOp::Sort { keys } => keys@.len() > 0 && forall|k: int|
            0 <= k < keys@.len() ==> keys@[k] < ms.len() && ms[keys@[k] as int] is OrderBy,
        StageOp::Where { clause } => clause < ms.len() && ms[clause as int] is Where,
        StageOp::Join { clause, fused, .. } => {
            &&& clause < ms.len()
            &&& is_plain_join(ms[clause as int])
            &&& fused matches Some(f) ==> f < ms.len() && ms[f as int] is Where
        },
        StageOp::GroupJoin { clause, .. } => clause < ms.len() && is_group_join(ms[clause as int]),
        StageOp::GroupBy { clause } => clause < ms.len() && ms[clause as int] is GroupBy,
        StageOp::Zip { clause } => clause < ms.len() && ms[clause as int] is Zip,
        StageOp::Select => true,
    }
}

/// The stage's queued clauses are `let`s, its operation refers to clauses of
/// the right kinds, and it passes on only bindings it can see: what it
/// received, what its `let`s bind and what its operation binds. A
/// `group by` passes on at most its group.
#[verifier::opaque]
pub open spec fn stage_ok(q: Query, st: Stage) -> bool {
    &&& forall|k: int|
        0 <= k < st.lets@.len() ==> st.lets@[k].clause < q.middle@.len()
            && #[trigger] q.middle@[st.lets@[k].clause as int] is Let
    &&& op_kinds_ok(q, st.op)
    &&& match st.op {
        StageOp::GroupBy { clause } => sv(st.outgoing@).to_set().subset_of(
            set![bound_name(q.middle@[clause as int])],
        ),
        StageOp::Select => st.outgoing@.len() == 0,
        _ => sv(st.outgoing@).to_set().subset_of(
            sv(st.incoming@).to_set().union(let_names(q, st.lets@)).union(op_defs(q, st.op)),
        ),
    }
}

/// Each stage receives exactly the tuple that the stage before it passes
/// on; the first receives the row of `from`.
#[verifier::opaque]
pub open spec fn chained(initial: Seq<String>, ss: Seq<Stage>) -> bool {
    &&& ss.len() > 0 ==> sv(ss[0].incoming@) == sv(initial)
    &&& forall|k: int| 0 <= k < ss.len() - 1 ==> sv(#[trigger] ss[k + 1].incoming@) == sv(ss[k].outgoing@)
}

/// A plan for `q`: its stages run every middle clause exactly once, in
/// source order; they chain; each is well scoped; and the last stage, and
/// only it, is the `select`.
pub open spec fn plan_ok(q: Query, p: Plan) -> bool {
    let ss = p.stages@;
    &&& ss.len() > 0
    &&& flat_clauses(ss) == range_seq(q.middle@.len() as int)
    &&& chained(p.initial@, ss)
    &&& forall|k: int| 0 <= k < ss.len() ==> stage_ok(q, #[trigger] ss[k])
    &&& ss.last().op is Select
    &&& forall|k: int| 0 <= k < ss.len() - 1 ==> !(#[trigger] ss[k].op is Select)
    &&& forall|k: int| 0 <= k < ss.len() ==> stage_exact(q, #[trigger] ss[k])
    &&& counters_ok(ss)
}


/// Joins and group-joins build a hash map before the chain runs.
pub open spec fn is_join_op(op: StageOp) -> bool {
    op is Join || op is GroupJoin
}

/// The number of the hash map a join stage probes.
pub open spec fn op_counter(op: StageOp) -> usize {
    match op {
        StageOp::Join { counter, .. } => counter,
        StageOp::GroupJoin { counter, .. } => counter,
        _ => 0,
    }
}

/// The number of join stages among `ss`.
pub open spec fn join_count(ss: Seq<Stage>) -> nat
    decreases ss.len(),
{
    if ss.len() == 0 {
        0
    } else {
        join_count(ss.drop_last()) + if is_join_op(ss.last().op) {
            1nat
        } else {
            0nat
        }
    }
}

/// The join stages number their hash maps 0, 1, 2, ... in order.
pub open spec fn counters_ok(ss: Seq<Stage>) -> bool {
    forall|k: int|
        0 <= k < ss.len() && is_join_op(#[trigger] ss[k].op) ==> op_counter(ss[k].op) == join_count(
            ss.take(k),
        )
}

// --- what each stage passes on -------------------------------------------------

/// The names live just after the last clause a stage executes.
pub open spec fn live_after_stage(q: Query, st: Stage) -> Set<Seq<char>> {
    live_from(q.middle@, select_reads(q), stage_clauses(st).last() + 1)
}

/// The row a stage's operation sees: the tuple it receives followed by the
/// names its queued `let`s add.
pub open spec fn stage_row(q: Query, st: Stage) -> Seq<Seq<char>> {
    sv(st.incoming@) + pushed_seq(q, st.lets@)
}

/// `w` alone when it is in `live`, else nothing.
pub open spec fn keep_if(w: Seq<char>, live: Set<Seq<char>>) -> Seq<Seq<char>> {
    if live.contains(w) {
        seq![w]
    } else {
        Seq::empty()
    }
}

/// The tuple an operation passes on, given the row it sees and the names
/// live after it: the live names of the row, in order, then the name the
/// operation binds if it is live. A `group by` passes on only its group,
/// and `select` passes on nothing.
#[verifier::opaque]
pub open spec fn out_for(q: Query, row: Seq<Seq<char>>, op: StageOp, live: Set<Seq<char>>) -> Seq<
    Seq<char>,
> {
    let kept = row.filter(in_set(live));
    match op {
        StageOp::Select => Seq::empty(),
        StageOp::GroupBy { clause } => keep_if(bound_name(q.middle@[clause as int]), live),
        StageOp::Sort { .. } => kept,
        StageOp::Where { .. } => kept,
        StageOp::Join { clause, .. } => kept + keep_if(bound_name(q.middle@[clause as int]), live),
        StageOp::GroupJoin { clause, .. } => kept + keep_if(
            bound_name(q.middle@[clause as int]),
            live,
        ),
        StageOp::Zip { clause } => kept + keep_if(bound_name(q.middle@[clause as int]), live),
    }
}

/// Clause `c + 1` is a `where` whose bare identifiers are all names of
/// `row` or `name`, so it can run inside the join's `move` closure without
/// capturing anything else.
pub open spec fn fusable_where(ms: Seq<MiddleClause>, c: int, row: Seq<Seq<char>>, name: Seq<char>) -> bool {
    &&& c + 1 < ms.len()
    &&& match ms[c + 1] {
        MiddleClause::Where(cond) => bare_set(ex(cond)).subset_of(row.to_set().insert(name)),
        _ => false,
    }
}

/// A plain `join` or `join_must` takes the `where` that follows it into
/// its own closure exactly when that `where` is fusable; other joins never
/// do.
#[verifier::opaque]
pub open spec fn fusion_ok_at(q: Query, row: Seq<Seq<char>>, op: StageOp) -> bool {
    match op {
        StageOp::Join { clause, fused, .. } => match q.middle@[clause as int] {
            MiddleClause::Join(j) => fused == if (j.kind == JoinKind::Inner || j.kind
                == JoinKind::Must) && fusable_where(q.middle@, clause as int, row, j.name@) {
                Some((clause + 1) as usize)
            } else {
                None
            },
            _ => true,
        },
        _ => true,
    }
}

/// A sort takes every `orderby` of a run: the clause after its last key is
/// no `orderby`.
#[verifier::opaque]
pub open spec fn sort_max(q: Query, op: StageOp) -> bool {
    match op {
        StageOp::Sort { keys } => keys@.last() + 1 >= q.middle@.len() || !(q.middle@[keys@.last()
            + 1] is OrderBy),
        _ => true,
    }
}

/// Each queued `let` knows whether its name is live after it, and whether
/// the name was already in the row (`base` followed by what the earlier
/// queued `let`s add) when it was queued.
#[verifier::opaque]
pub open spec fn lets_exact(q: Query, base: Seq<Seq<char>>, ls: Seq<PendingLet>) -> bool {
    forall|k: int|
        0 <= k < ls.len() ==> {
            let name = bound_name(q.middle@[(#[trigger] ls[k]).clause as int]);
            &&& ls[k].live == live_from(q.middle@, select_reads(q), ls[k].clause + 1).contains(name)
            &&& ls[k].shadow == (base + pushed_seq(q, ls.take(k))).contains(name)
        }
}

/// The stage is exactly what planning makes of its clauses.
#[verifier::opaque]
pub open spec fn stage_exact(q: Query, st: Stage) -> bool {
    &&& lets_exact(q, sv(st.incoming@), st.lets@)
    &&& sv(st.outgoing@) == out_for(q, stage_row(q, st), st.op, live_after_stage(q, st))
    &&& fusion_ok_at(q, stage_row(q, st), st.op)
    &&& sort_max(q, st.op)
}

// --- planning state -----------------------------------------------------------

/// The tuple passed on by the last stage so far.
pub open spec fn last_out(initial: Seq<String>, ss: Seq<Stage>) -> Seq<Seq<char>> {
    if ss.len() == 0 {
        sv(initial)
    } else {
        sv(ss.last().outgoing@)
    }
}

/// What holds between clauses while planning: the stages so far and the
/// queued `let`s and `orderby`s account for clauses `0 .. i` in order; the
/// stages chain and are well formed; and the current row is the last
/// stage's tuple followed by the names the queued `let`s add, none of which
/// was in that tuple.
#[verifier::opaque]
pub open spec fn planning(
    q: Query,
    initial: Seq<String>,
    ss: Seq<Stage>,
    pl: Seq<PendingLet>,
    ps: Seq<usize>,
    env: Seq<String>,
    i: int,
) -> bool {
    let ms = q.middle@;
    &&& 0 <= i <= ms.len()
    &&& flat_clauses(ss) + let_clauses(pl) + idx_seq(ps) == range_seq(i)
    &&& chained(initial, ss)
    &&& forall|k: int| 0 <= k < ss.len() ==> stage_ok(q, #[trigger] ss[k])
    &&& forall|k: int| 0 <= k < ss.len() ==> !(#[trigger] ss[k].op is Select)
    &&& forall|k: int|
        0 <= k < pl.len() ==> (#[trigger] pl[k]).clause < ms.len() && ms[pl[k].clause as int] is Let
    &&& forall|k: int| 0 <= k < ps.len() ==> (#[trigger] ps[k]) < ms.len() && ms[ps[k] as int] is OrderBy
    &&& sv(env) == last_out(initial, ss) + pushed_seq(q, pl)
    &&& forall|w: Seq<char>| pushed_seq(q, pl).contains(w) ==> !last_out(initial, ss).contains(w)
    &&& forall|k: int| 0 <= k < ss.len() ==> stage_exact(q, #[trigger] ss[k])
    &&& lets_exact(q, last_out(initial, ss), pl)
    &&& counters_ok(ss)
}

pub open spec fn in_set(s: Set<Seq<char>>) -> spec_fn(Seq<char>) -> bool {
    |x: Seq<char>| s.contains(x)
}

pub open spec fn not_in_set(s: Set<Seq<char>>) -> spec_fn(Seq<char>) -> bool {
    |x: Seq<char>| !s.contains(x)
}

proof fn lemma_sv_push(v: Seq<String>, x: String)
    ensures
        sv(v.push(x)) == sv(v).push(x@),
{
    assert(sv(v.push(x)) =~= sv(v).push(x@));
}

proof fn lemma_filter_sub(s: Seq<Seq<char>>, p: spec_fn(Seq<char>) -> bool)
    ensures
        s.filter(p).to_set().subset_of(s.to_set()),
        forall|w: Seq<char>| s.filter(p).contains(w) ==> p(w),
{
    assert forall|w: Seq<char>| s.filter(p).to_set().contains(w) implies s.to_set().contains(w) by {
        assert(s.filter(p).contains(w));
        s.lemma_filter_contains_rev(p, w);
    }
    assert forall|w: Seq<char>| s.filter(p).contains(w) implies p(w) by {
        let k = choose|k: int| 0 <= k < s.filter(p).len() && s.filter(p)[k] == w;
        s.lemma_filter_pred(p, k);
    }
}

proof fn lemma_filter_keep_all(s: Seq<Seq<char>>, p: spec_fn(Seq<char>) -> bool)
    requires
        forall|k: int| 0 <= k < s.len() ==> p(#[trigger] s[k]),
    ensures
        s.filter(p) == s,
    decreases s.len(),
{
    reveal(Seq::filter);
    if s.len() > 0 {
        lemma_filter_keep_all(s.drop_last(), p);
        assert(s.drop_last().push(s.last()) =~= s);
    }
}

proof fn lemma_filter_drop_all(s: Seq<Seq<char>>, p: spec_fn(Seq<char>) -> bool)
    requires
        forall|k: int| 0 <= k < s.len() ==> !p(#[trigger] s[k]),
    ensures
        s.filter(p) == Seq::<Seq<char>>::empty(),
    decreases s.len(),
{
    reveal(Seq::filter);
    if s.len() > 0 {
        lemma_filter_drop_all(s.drop_last(), p);
    }
}

proof fn lemma_pushed_are_lets(q: Query, pl: Seq<PendingLet>)
    ensures
        forall|w: Seq<char>| pushed_seq(q, pl).contains(w) ==> let_names(q, pl).contains(w),
    decreases pl.len(),
{
    if pl.len() > 0 {
        lemma_pushed_are_lets(q, pl.drop_last());
        assert forall|w: Seq<char>| pushed_seq(q, pl).contains(w) implies let_names(q, pl).contains(w) by {
            let rest = pushed_seq(q, pl.drop_last());
            let k = choose|k: int| 0 <= k < pushed_seq(q, pl).len() && pushed_seq(q, pl)[k] == w;
            if k < rest.len() {
                assert(rest[k] == w);
                assert(rest.contains(w));
                assert(let_names(q, pl.drop_last()).contains(w));
                let m = choose|m: int|
                    0 <= m < pl.drop_last().len() && bound_name(q.middle@[pl.drop_last()[m].clause as int]) == w;
                assert(pl[m] == pl.drop_last()[m]);
            } else {
                assert(bound_name(q.middle@[pl[pl.len() - 1].clause as int]) == w);
            }
        }
    }
}

proof fn lemma_flat_push(ss: Seq<Stage>, st: Stage)
    ensures
        flat_clauses(ss.push(st)) == flat_clauses(ss) + stage_clauses(st),
{
    assert(ss.push(st).drop_last() =~= ss);
}

proof fn lemma_let_clauses_push(pl: Seq<PendingLet>, l: PendingLet)
    ensures
        let_clauses(pl.push(l)) == let_clauses(pl).push(l.clause as int),
{
    assert(let_clauses(pl.push(l)) =~= let_clauses(pl).push(l.clause as int));
}

proof fn lemma_pushed_push(q: Query, pl: Seq<PendingLet>, l: PendingLet)
    ensures
        pushed_seq(q, pl.push(l)) == pushed_seq(q, pl) + if l.live && !l.shadow {
            seq![bound_name(q.middle@[l.clause as int])]
        } else {
            Seq::empty()
        },
{
    assert(pl.push(l).drop_last() =~= pl);
}

// --- planning helpers ---------------------------------------------------------

/// Whether `n` is one of the names in `v`.
pub fn names_contain(v: &Vec<String>, n: &String) -> (r: bool)
    ensures
        r == sv(v@).contains(n@),
{
    let mut i: usize = 0;
    while i < v.len()
        invariant
            i <= v.len(),
            forall|k: int| 0 <= k < i ==> v@[k]@ != n@,
        decreases v.len() - i,
    {
        if v[i] == *n {
            assert(sv(v@)[i as int] == n@);
            return true;
        }
        i += 1;
    }
    proof {
        if sv(v@).contains(n@) {
            let k = choose|k: int| 0 <= k < sv(v@).len() && sv(v@)[k] == n@;
            assert(v@[k]@ == n@);
        }
    }
    false
}

/// The names of `v` that are (`keep == true`) or are not in `s`, in order.
pub fn filter_names(v: &Vec<String>, s: &NameSet, keep: bool) -> (r: Vec<String>)
    ensures
        keep ==> sv(r@) == sv(v@).filter(in_set(s@)),
        !keep ==> sv(r@) == sv(v@).filter(not_in_set(s@)),
{
    let ghost p = if keep {
        in_set(s@)
    } else {
        not_in_set(s@)
    };
    let mut r: Vec<String> = Vec::new();
    let mut i: usize = 0;
    while i < v.len()
        invariant
            i <= v.len(),
            p == if keep {
                in_set(s@)
            } else {
                not_in_set(s@)
            },
            sv(r@) == sv(v@).subrange(0, i as int).filter(p),
        decreases v.len() - i,
    {
        let inside = s.contains(&v[i]);
        proof {
            assert(sv(v@).subrange(0, i + 1) =~= sv(v@).subrange(0, i as int).push(v@[i as int]@));
            sv(v@).subrange(0, i as int).lemma_filter_push(v@[i as int]@, p);
        }
        if inside == keep {
            proof {
                lemma_sv_push(r@, v@[i as int]);
            }
            r.push(v[i].clone());
        }
        i += 1;
    }
    assert(sv(v@).subrange(0, i as int) =~= sv(v@));
    r
}

/// A copy of a list of names.
pub fn copy_names(v: &Vec<String>) -> (r: Vec<String>)
    ensures
        sv(r@) == sv(v@),
{
    let mut r: Vec<String> = Vec::new();
    let mut i: usize = 0;
    while i < v.len()
        invariant
            i <= v.len(),
            sv(r@) == sv(v@).subrange(0, i as int),
        decreases v.len() - i,
    {
        proof {
            lemma_sv_push(r@, v@[i as int]);
        }
        r.push(v[i].clone());
        i += 1;
        assert(sv(r@) =~= sv(v@).subrange(0, i as int));
    }
    assert(sv(v@).subrange(0, i as int) =~= sv(v@));
    r
}

/// The name a `let`, join, zip or group clause binds.
pub fn clause_bound_name(c: &MiddleClause) -> (r: String)
    ensures
        r@ == bound_name(*c),
{
    match c {
        MiddleClause::Let { name, .. } => name.clone(),
        MiddleClause::Join(j) => match &j.into_group {
            Some(g) => g.clone(),
            None => j.name.clone(),
        },
        MiddleClause::Zip { name, .. } => name.clone(),
        MiddleClause::GroupBy { name, .. } => name.clone(),
        _ => String::new(),
    }
}

/// The names that the queued `let`s add to the row.
fn pushed_names(q: &Query, pl: &Vec<PendingLet>) -> (r: NameSet)
    requires
        forall|k: int| 0 <= k < pl@.len() ==> (#[trigger] pl@[k]).clause < q.middle@.len(),
    ensures
        r@ == pushed_seq(*q, pl@).to_set(),
{
    let mut r = NameSet::new();
    let mut i: usize = 0;
    while i < pl.len()
        invariant
            i <= pl.len(),
            forall|k: int| 0 <= k < pl@.len() ==> (#[trigger] pl@[k]).clause < q.middle@.len(),
            r@ == pushed_seq(*q, pl@.subrange(0, i as int)).to_set(),
        decreases pl.len() - i,
    {
        let l = pl[i];
        proof {
            assert(pl@.subrange(0, i + 1) =~= pl@.subrange(0, i as int).push(l));
            lemma_pushed_push(*q, pl@.subrange(0, i as int), l);
        }
        if l.live && !l.shadow {
            let name = clause_bound_name(&q.middle[l.clause]);
            r.insert(name);
            proof {
                let before = pushed_seq(*q, pl@.subrange(0, i as int));
                before.lemma_push_to_set_commute(name@);
                assert(before + seq![name@] =~= before.push(name@));
            }
        } else {
            proof {
                let before = pushed_seq(*q, pl@.subrange(0, i as int));
                assert(before + Seq::<Seq<char>>::empty() =~= before);
            }
        }
        i += 1;
    }
    assert(pl@.subrange(0, i as int) =~= pl@);
    r
}

proof fn lemma_incoming(lo: Seq<Seq<char>>, pu: Seq<Seq<char>>, pset: Set<Seq<char>>)
    requires
        pset == pu.to_set(),
        forall|w: Seq<char>| pu.contains(w) ==> !lo.contains(w),
    ensures
        (lo + pu).filter(not_in_set(pset)) == lo,
{
    let p = not_in_set(pset);
    Seq::filter_distributes_over_add(lo, pu, p);
    assert forall|k: int| 0 <= k < lo.len() implies #[trigger] p(lo[k]) by {
        if pu.to_set().contains(lo[k]) {
            assert(pu.contains(lo[k]));
            assert(lo.contains(lo[k]));
        }
    }
    lemma_filter_keep_all(lo, p);
    assert forall|k: int| 0 <= k < pu.len() implies !#[trigger] p(pu[k]) by {
        assert(pu.contains(pu[k]));
    }
    lemma_filter_drop_all(pu, p);
    assert((lo + pu).filter(p) =~= lo);
}

/// The outgoing row of a stage only holds names the stage can see.
pub open spec fn outgoing_ok(q: Query, env: Seq<String>, op: StageOp, outgoing: Seq<String>) -> bool {
    match op {
        StageOp::GroupBy { clause } => sv(outgoing).to_set().subset_of(
            set![bound_name(q.middle@[clause as int])],
        ),
        StageOp::Select => outgoing.len() == 0,
        _ => sv(outgoing).to_set().subset_of(sv(env).to_set().union(op_defs(q, op))),
    }
}

#[verifier::rlimit(40)]
proof fn lemma_push_planning(
    q: Query,
    initial: Seq<String>,
    ss: Seq<Stage>,
    pl: Seq<PendingLet>,
    ps: Seq<usize>,
    env: Seq<String>,
    i: int,
    i_new: int,
    st: Stage,
)
    requires
        planning(q, initial, ss, pl, ps, env, i),
        i <= i_new <= q.middle@.len(),
        flat_clauses(ss) + let_clauses(pl) + op_clauses(st.op) == range_seq(i_new),
        sv(st.incoming@) == last_out(initial, ss),
        st.lets@ == pl,
        op_kinds_ok(q, st.op),
        outgoing_ok(q, env, st.op, st.outgoing@),
        stage_exact(q, st),
        is_join_op(st.op) ==> op_counter(st.op) == join_count(ss),
    ensures
        counters_ok(ss.push(st)),
        join_count(ss.push(st)) == join_count(ss) + if is_join_op(st.op) {
            1nat
        } else {
            0nat
        },
        flat_clauses(ss.push(st)) == range_seq(i_new),
        chained(initial, ss.push(st)),
        forall|k: int| 0 <= k < ss.push(st).len() ==> stage_ok(q, #[trigger] ss.push(st)[k]),
        forall|k: int| 0 <= k < ss.push(st).len() ==> stage_exact(q, #[trigger] ss.push(st)[k]),
        forall|k: int| 0 <= k < ss.len() ==> !(#[trigger] ss.push(st)[k].op is Select),
        last_out(initial, ss.push(st)) == sv(st.outgoing@),
{
    reveal(planning);
    reveal(stage_ok);
    reveal(chained);
    let ss2 = ss.push(st);
    let lo = last_out(initial, ss);
    lemma_flat_push(ss, st);
    assert(flat_clauses(ss2) =~= range_seq(i_new));
    lemma_pushed_are_lets(q, pl);
    assert(stage_ok(q, st)) by {
        match st.op {
            StageOp::GroupBy { .. } => {},
            StageOp::Select => {},
            _ => {
                assert forall|w: Seq<char>| sv(st.outgoing@).to_set().contains(w) implies sv(
                    st.incoming@,
                ).to_set().union(let_names(q, st.lets@)).union(op_defs(q, st.op)).contains(w) by {
                    if !op_defs(q, st.op).contains(w) {
                        assert(sv(env).to_set().contains(w));
                        let all = lo + pushed_seq(q, pl);
                        assert(all.contains(w));
                        let k = choose|k: int| 0 <= k < all.len() && all[k] == w;
                        if k < lo.len() {
                            assert(lo.contains(w));
                        } else {
                            assert(pushed_seq(q, pl)[k - lo.len()] == w);
                            assert(pushed_seq(q, pl).contains(w));
                        }
                    }
                }
            },
        }
    }
    assert forall|k: int| 0 <= k < ss2.len() implies stage_ok(q, #[trigger] ss2[k]) by {
        if k < ss.len() {
            assert(ss2[k] == ss[k]);
        }
    }
    assert forall|k: int| 0 <= k < ss2.len() implies stage_exact(q, #[trigger] ss2[k]) by {
        if k < ss.len() {
            assert(ss2[k] == ss[k]);
        }
    }
    assert(ss2.drop_last() =~= ss);
    assert forall|k: int| 0 <= k < ss2.len() && is_join_op(#[trigger] ss2[k].op) implies op_counter(
        ss2[k].op,
    ) == join_count(ss2.take(k)) by {
        if k < ss.len() {
            assert(ss2[k] == ss[k]);
            assert(ss2.take(k) =~= ss.take(k));
        } else {
            assert(ss2.take(k) =~= ss);
        }
    }
    assert forall|k: int| 0 <= k < ss2.len() - 1 implies sv(#[trigger] ss2[k + 1].incoming@) == sv(
        ss2[k].outgoing@,
    ) by {
        if k + 1 < ss.len() {
            assert(ss2[k + 1] == ss[k + 1]);
            assert(ss2[k] == ss[k]);
        } else {
            assert(ss2[k] == ss[k]);
        }
    }
    assert forall|k: int| 0 <= k < ss.len() implies !(#[trigger] ss2[k].op is Select) by {
        assert(ss2[k] == ss[k]);
    }
    if ss.len() == 0 {
        assert(ss2[0] == st);
    } else {
        assert(ss2[0] == ss[0]);
    }
}

proof fn lemma_planning_facts(
    q: Query,
    initial: Seq<String>,
    ss: Seq<Stage>,
    pl: Seq<PendingLet>,
    ps: Seq<usize>,
    env: Seq<String>,
    i: int,
)
    requires
        planning(q, initial, ss, pl, ps, env, i),
    ensures
        0 <= i <= q.middle@.len(),
        flat_clauses(ss) + let_clauses(pl) + idx_seq(ps) == range_seq(i),
        forall|k: int|
            0 <= k < pl.len() ==> (#[trigger] pl[k]).clause < q.middle@.len() && q.middle@[pl[k].clause as int] is Let,
        forall|k: int| 0 <= k < ps.len() ==> (#[trigger] ps[k]) < q.middle@.len() && q.middle@[ps[k] as int] is OrderBy,
        sv(env) == last_out(initial, ss) + pushed_seq(q, pl),
        forall|w: Seq<char>| pushed_seq(q, pl).contains(w) ==> !last_out(initial, ss).contains(w),
        forall|k: int| 0 <= k < ss.len() ==> stage_exact(q, #[trigger] ss[k]),
        lets_exact(q, last_out(initial, ss), pl),
        counters_ok(ss),
        forall|k: int| 0 <= k < ss.len() ==> stage_ok(q, #[trigger] ss[k]),
        forall|k: int| 0 <= k < ss.len() ==> !(#[trigger] ss[k].op is Select),
{
    reveal(planning);
}

proof fn lemma_stage_exact_new(
    q: Query,
    initial: Seq<String>,
    ss: Seq<Stage>,
    pl: Seq<PendingLet>,
    ps: Seq<usize>,
    env: Seq<String>,
    i: int,
    i_new: int,
    st: Stage,
)
    requires
        planning(q, initial, ss, pl, ps, env, i),
        i <= i_new,
        flat_clauses(ss) + let_clauses(pl) + op_clauses(st.op) == range_seq(i_new),
        sv(st.incoming@) == last_out(initial, ss),
        st.lets@ == pl,
        op_kinds_ok(q, st.op),
        sv(st.outgoing@) == out_for(q, sv(env), st.op, live_from(q.middle@, select_reads(q), i_new)),
        fusion_ok_at(q, sv(env), st.op),
        sort_max(q, st.op),
    ensures
        stage_exact(q, st),
{
    lemma_planning_facts(q, initial, ss, pl, ps, env, i);
    reveal(stage_exact);
    assert(stage_row(q, st) == sv(env));
    if st.op is Select {
        reveal(out_for);
    } else {
        let a = flat_clauses(ss) + let_clauses(pl);
        let b = op_clauses(st.op);
        assert(b.len() > 0);
        assert((a + b).last() == b.last());
        assert(range_seq(i_new).len() == i_new);
        assert(i_new > 0);
        assert(range_seq(i_new)[i_new - 1] == i_new - 1);
        assert((let_clauses(pl) + b).last() == b.last());
        assert(stage_clauses(st).last() == i_new - 1);
    }
}

proof fn lemma_planning_fresh(q: Query, initial: Seq<String>, ss: Seq<Stage>, env: Seq<String>, i: int)
    requires
        0 <= i <= q.middle@.len(),
        flat_clauses(ss) == range_seq(i),
        chained(initial, ss),
        forall|k: int| 0 <= k < ss.len() ==> stage_ok(q, #[trigger] ss[k]),
        forall|k: int| 0 <= k < ss.len() ==> !(#[trigger] ss[k].op is Select),
        forall|k: int| 0 <= k < ss.len() ==> stage_exact(q, #[trigger] ss[k]),
        counters_ok(ss),
        sv(env) == last_out(initial, ss),
    ensures
        planning(q, initial, ss, Seq::empty(), Seq::empty(), env, i),
{
    reveal(planning);
    reveal(lets_exact);
    assert(let_clauses(Seq::<PendingLet>::empty()) =~= Seq::<int>::empty());
    assert(idx_seq(Seq::<usize>::empty()) =~= Seq::<int>::empty());
    assert(pushed_seq(q, Seq::<PendingLet>::empty()) =~= Seq::<Seq<char>>::empty());
    assert(flat_clauses(ss) + let_clauses(Seq::<PendingLet>::empty()) + idx_seq(
        Seq::<usize>::empty(),
    ) =~= flat_clauses(ss));
    assert(sv(env) =~= last_out(initial, ss) + pushed_seq(q, Seq::<PendingLet>::empty()));
}

#[verifier::rlimit(30)]
/// Emits a stage that runs the queued `let`s and then `op`, receiving the
/// current row without the names the queued `let`s add, and passing on
/// `outgoing`. The queued `let`s are consumed.
fn push_stage(
    q: &Query,
    initial: &Vec<String>,
    stages: &mut Vec<Stage>,
    env: &Vec<String>,
    pending_lets: &mut Vec<PendingLet>,
    op: StageOp,
    outgoing: Vec<String>,
    Ghost(ps): Ghost<Seq<usize>>,
    Ghost(i): Ghost<int>,
    Ghost(i_new): Ghost<int>,
) -> (new_env: Vec<String>)
    requires
        planning(*q, initial@, old(stages)@, old(pending_lets)@, ps, env@, i),
        i <= i_new <= q.middle@.len(),
        flat_clauses(old(stages)@) + let_clauses(old(pending_lets)@) + op_clauses(op) == range_seq(
            i_new,
        ),
        op_kinds_ok(*q, op),
        outgoing_ok(*q, env@, op, outgoing@),
        op is Select ==> i_new == q.middle@.len(),
        sv(outgoing@) == out_for(*q, sv(env@), op, live_from(q.middle@, select_reads(*q), i_new)),
        fusion_ok_at(*q, sv(env@), op),
        sort_max(*q, op),
        is_join_op(op) ==> op_counter(op) == join_count(old(stages)@),
    ensures
        join_count(final(stages)@) == join_count(old(stages)@) + if is_join_op(op) {
            1nat
        } else {
            0nat
        },
        !(op is Select) ==> planning(
            *q,
            initial@,
            final(stages)@,
            final(pending_lets)@,
            Seq::empty(),
            new_env@,
            i_new,
        ),
        op is Select ==> plan_ok(*q, Plan { initial: *initial, stages: *final(stages) }),
        final(pending_lets)@.len() == 0,
        sv(new_env@) == sv(outgoing@),
{
    let ghost ss = old(stages)@;
    let ghost pl = old(pending_lets)@;
    proof {
        lemma_planning_facts(*q, initial@, ss, pl, ps, env@, i);
    }
    let pushed = pushed_names(q, pending_lets);
    let incoming = filter_names(env, &pushed, false);
    proof {
        lemma_incoming(last_out(initial@, ss), pushed_seq(*q, pl), pushed@);
    }
    let mut lets: Vec<PendingLet> = Vec::new();
    std::mem::swap(&mut lets, pending_lets);
    let new_env = copy_names(&outgoing);
    let st = Stage { incoming, lets, op, outgoing };
    proof {
        lemma_stage_exact_new(*q, initial@, ss, pl, ps, env@, i, i_new, st);
        lemma_push_planning(*q, initial@, ss, pl, ps, env@, i, i_new, st);
    }
    stages.push(st);
    proof {
        assert(stages@ == ss.push(st));
        if !(op is Select) {
            assert forall|k: int| 0 <= k < stages@.len() implies !(#[trigger] stages@[k].op is Select) by {
                if k < ss.len() {
                } else {
                    assert(stages@[k] == st);
                }
            }
            lemma_planning_fresh(*q, initial@, stages@, new_env@, i_new);
        } else {
            assert(stages@.last() == st);
            assert(range_seq(i_new).len() == i_new);
            assert(flat_clauses(stages@).len() == i_new);
        }
    }
    new_env
}

proof fn lemma_range_push(x: Seq<int>, i: int)
    requires
        0 <= i,
        x == range_seq(i),
    ensures
        x + seq![i] == range_seq(i + 1),
        x + seq![i, i + 1] == range_seq(i + 2),
{
    assert(x + seq![i] =~= range_seq(i + 1));
    assert(x + seq![i, i + 1] =~= range_seq(i + 2));
}

proof fn lemma_lets_exact_push(q: Query, base: Seq<Seq<char>>, pl: Seq<PendingLet>, l: PendingLet)
    requires
        lets_exact(q, base, pl),
        l.live == live_from(q.middle@, select_reads(q), l.clause + 1).contains(
            bound_name(q.middle@[l.clause as int]),
        ),
        l.shadow == (base + pushed_seq(q, pl)).contains(bound_name(q.middle@[l.clause as int])),
    ensures
        lets_exact(q, base, pl.push(l)),
{
    reveal(lets_exact);
    let pl2 = pl.push(l);
    assert forall|k: int| 0 <= k < pl2.len() implies {
        let name = bound_name(q.middle@[(#[trigger] pl2[k]).clause as int]);
        &&& pl2[k].live == live_from(q.middle@, select_reads(q), pl2[k].clause + 1).contains(name)
        &&& pl2[k].shadow == (base + pushed_seq(q, pl2.take(k))).contains(name)
    } by {
        if k < pl.len() {
            assert(pl2[k] == pl[k]);
            assert(pl2.take(k) =~= pl.take(k));
        } else {
            assert(pl2[k] == l);
            assert(pl2.take(k) =~= pl);
        }
    }
}

#[verifier::rlimit(40)]
proof fn lemma_queue_let(
    q: Query,
    initial: Seq<String>,
    ss: Seq<Stage>,
    pl: Seq<PendingLet>,
    env: Seq<String>,
    i: int,
    l: PendingLet,
    env2: Seq<String>,
)
    requires
        planning(q, initial, ss, pl, Seq::empty(), env, i),
        i < q.middle@.len(),
        q.middle@[i] is Let,
        l.clause == i,
        l.shadow == sv(env).contains(bound_name(q.middle@[i])),
        l.live == live_from(q.middle@, select_reads(q), i + 1).contains(bound_name(q.middle@[i])),
        sv(env2) == sv(env) + if l.live && !l.shadow {
            seq![bound_name(q.middle@[i])]
        } else {
            Seq::empty()
        },
    ensures
        planning(q, initial, ss, pl.push(l), Seq::empty(), env2, i + 1),
{
    lemma_planning_facts(q, initial, ss, pl, Seq::empty(), env, i);
    lemma_lets_exact_push(q, last_out(initial, ss), pl, l);
    reveal(planning);
    let lo = last_out(initial, ss);
    lemma_let_clauses_push(pl, l);
    lemma_pushed_push(q, pl, l);
    assert(idx_seq(Seq::<usize>::empty()) =~= Seq::<int>::empty());
    assert(flat_clauses(ss) + let_clauses(pl) =~= flat_clauses(ss) + let_clauses(pl) + idx_seq(
        Seq::<usize>::empty(),
    ));
    lemma_range_push(flat_clauses(ss) + let_clauses(pl), i);
    assert(flat_clauses(ss) + let_clauses(pl.push(l)) + idx_seq(Seq::<usize>::empty())
        =~= flat_clauses(ss) + let_clauses(pl) + seq![i]);
    let name = bound_name(q.middle@[i]);
    let extra = if l.live && !l.shadow {
        seq![name]
    } else {
        Seq::<Seq<char>>::empty()
    };
    assert(sv(env2) =~= lo + pushed_seq(q, pl.push(l)));
    assert forall|w: Seq<char>| pushed_seq(q, pl.push(l)).contains(w) implies !lo.contains(w) by {
        let all = pushed_seq(q, pl) + extra;
        let k = choose|k: int| 0 <= k < all.len() && all[k] == w;
        if k < pushed_seq(q, pl).len() {
            assert(pushed_seq(q, pl)[k] == w);
            assert(pushed_seq(q, pl).contains(w));
        } else {
            assert(w == name);
            assert(!sv(env).contains(name));
            if lo.contains(w) {
                let m = choose|m: int| 0 <= m < lo.len() && lo[m] == w;
                assert(sv(env)[m] == w);
            }
        }
    }
    assert forall|k: int| 0 <= k < pl.push(l).len() implies (#[trigger] pl.push(l)[k]).clause
        < q.middle@.len() && q.middle@[pl.push(l)[k].clause as int] is Let by {
        if k < pl.len() {
            assert(pl.push(l)[k] == pl[k]);
        }
    }
}

proof fn lemma_queue_sort(
    q: Query,
    initial: Seq<String>,
    ss: Seq<Stage>,
    pl: Seq<PendingLet>,
    ps: Seq<usize>,
    env: Seq<String>,
    i: usize,
)
    requires
        planning(q, initial, ss, pl, ps, env, i as int),
        i < q.middle@.len(),
        q.middle@[i as int] is OrderBy,
    ensures
        planning(q, initial, ss, pl, ps.push(i), env, i + 1),
{
    reveal(planning);
    assert(idx_seq(ps.push(i)) =~= idx_seq(ps).push(i as int));
    lemma_range_push(flat_clauses(ss) + let_clauses(pl) + idx_seq(ps), i as int);
    assert(flat_clauses(ss) + let_clauses(pl) + idx_seq(ps.push(i)) =~= flat_clauses(ss)
        + let_clauses(pl) + idx_seq(ps) + seq![i as int]);
    assert forall|k: int| 0 <= k < ps.push(i).len() implies (#[trigger] ps.push(i)[k])
        < q.middle@.len() && q.middle@[ps.push(i)[k] as int] is OrderBy by {
        if k < ps.len() {
            assert(ps.push(i)[k] == ps[k]);
        }
    }
}

/// Commits the queued `orderby`s as one sort stage that keeps only the
/// bindings in `live`. Without queued `orderby`s nothing changes.
#[verifier::rlimit(40)]
fn flush_sorts(
    q: &Query,
    initial: &Vec<String>,
    stages: &mut Vec<Stage>,
    env: Vec<String>,
    pending_sorts: &mut Vec<usize>,
    pending_lets: &mut Vec<PendingLet>,
    live: &NameSet,
    Ghost(i): Ghost<int>,
) -> (new_env: Vec<String>)
    requires
        planning(*q, initial@, old(stages)@, old(pending_lets)@, old(pending_sorts)@, env@, i),
        old(pending_sorts)@.len() > 0 ==> live@ == live_from(q.middle@, select_reads(*q), i),
        i >= q.middle@.len() || !(q.middle@[i] is OrderBy),
    ensures
        planning(*q, initial@, final(stages)@, final(pending_lets)@, Seq::empty(), new_env@, i),
        final(pending_sorts)@ == Seq::<usize>::empty(),
        join_count(final(stages)@) == join_count(old(stages)@),
{
    if pending_sorts.len() == 0 {
        assert(old(pending_sorts)@ =~= Seq::<usize>::empty());
        return env;
    }
    proof {
        lemma_planning_facts(*q, initial@, stages@, pending_lets@, pending_sorts@, env@, i);
    }
    let outgoing = filter_names(&env, live, true);
    proof {
        lemma_filter_sub(sv(env@), in_set(live@));
    }
    let mut keys: Vec<usize> = Vec::new();
    std::mem::swap(&mut keys, pending_sorts);
    let op = StageOp::Sort { keys };
    assert(op_clauses(op) == idx_seq(old(pending_sorts)@));
    proof {
        let ps = old(pending_sorts)@;
        let a = flat_clauses(old(stages)@) + let_clauses(old(pending_lets)@);
        assert((a + idx_seq(ps)).last() == idx_seq(ps).last());
        assert(range_seq(i).len() == i);
        assert(range_seq(i)[i - 1] == i - 1);
        assert(ps.last() == i - 1);
        reveal(out_for);
        reveal(sort_max);
        reveal(fusion_ok_at);
    }
    let new_env = push_stage(
        q,
        initial,
        stages,
        &env,
        pending_lets,
        op,
        outgoing,
        Ghost(old(pending_sorts)@),
        Ghost(i),
        Ghost(i),
    );
    assert(pending_sorts@ =~= Seq::<usize>::empty());
    new_env
}

/// The current row without the dead bindings, followed by `bound` when it
/// is live.
fn pass_on(env: &Vec<String>, live: &NameSet, bound: Option<&String>) -> (r: Vec<String>)
    ensures
        sv(r@).to_set().subset_of(
            sv(env@).to_set().union(
                match bound {
                    Some(x) => set![x@],
                    None => Set::empty(),
                },
            ),
        ),
        sv(r@) == sv(env@).filter(in_set(live@)) + match bound {
            Some(x) => keep_if(x@, live@),
            None => Seq::empty(),
        },
{
    let mut r = filter_names(env, live, true);
    proof {
        lemma_filter_sub(sv(env@), in_set(live@));
    }
    let ghost kept = sv(r@);
    match bound {
        Some(x) => {
            if live.contains(x) {
                proof {
                    lemma_sv_push(r@, *x);
                    sv(r@).lemma_push_to_set_commute(x@);
                }
                r.push(x.clone());
                assert(sv(r@) =~= kept + keep_if(x@, live@));
            } else {
                assert(sv(r@) =~= kept + keep_if(x@, live@));
            }
        },
        None => {
            assert(sv(r@) =~= kept + Seq::<Seq<char>>::empty());
        },
    }
    r
}

proof fn lemma_singleton_to_set(x: Seq<char>)
    ensures
        seq![x].to_set() == set![x],
{
    let s = seq![x];
    assert forall|w: Seq<char>| s.to_set().contains(w) <==> set![x].contains(w) by {
        if s.contains(w) {
            let k = choose|k: int| 0 <= k < s.len() && s[k] == w;
            assert(k == 0);
        }
        if w == x {
            assert(s[0] == x);
        }
    }
    assert(s.to_set() =~= set![x]);
}

/// The singleton list holding `name` when it is live, else the empty list.
fn only_if(name: &String, live: &NameSet) -> (r: Vec<String>)
    ensures
        sv(r@).to_set().subset_of(set![name@]),
        sv(r@) == keep_if(name@, live@),
{
    let mut r: Vec<String> = Vec::new();
    if live.contains(name) {
        r.push(name.clone());
        assert(sv(r@) =~= seq![name@]);
        proof {
            lemma_singleton_to_set(name@);
        }
    } else {
        assert(sv(r@) =~= Seq::<Seq<char>>::empty());
        assert(sv(r@).to_set() =~= Set::<Seq<char>>::empty());
    }
    r
}

/// Whether every bare identifier of `cond` is in `env` or is `name`: only
/// then can the condition run inside a `move` closure without capturing
/// anything from the enclosing scope.
fn fusable(cond: &Expr, env: &Vec<String>, name: &String) -> (r: bool)
    ensures
        r == bare_set(ex(*cond)).subset_of(sv(env@).to_set().insert(name@)),
{
    let bare = bare_idents(&cond.toks);
    let n = bare.len();
    let mut k: usize = 0;
    while k < n
        invariant
            n == bare.list().len(),
            bare.list().to_set() == bare@,
            bare@ == bare_set(ex(*cond)),
            k <= n,
            forall|m: int| 0 <= m < k ==> sv(env@).to_set().insert(name@).contains(#[trigger] bare.list()[m]),
        decreases n - k,
    {
        let b = bare.get(k);
        let ok = names_contain(env, b) || same_name(b, name);
        if !ok {
            proof {
                assert(bare.list().contains(b@));
                if sv(env@).to_set().contains(b@) {
                    assert(sv(env@).contains(b@));
                }
            }
            return false;
        }
        k += 1;
    }
    proof {
        assert forall|w: Seq<char>| bare_set(ex(*cond)).contains(w) implies sv(env@).to_set().insert(
            name@,
        ).contains(w) by {
            assert(bare.list().to_set().contains(w));
            assert(bare.list().contains(w));
            let m = choose|m: int| 0 <= m < bare.list().len() && bare.list()[m] == w;
        }
    }
    true
}

/// `t` holds, for each middle clause, the names live just after it.
pub open spec fn live_table(q: Query, t: Seq<NameSet>) -> bool {
    &&& t.len() == q.middle@.len() + 1
    &&& forall|k: int|
        0 <= k < q.middle@.len() ==> #[trigger] t[k]@ == live_from(q.middle@, select_reads(q), k + 1)
}

/// The planning state between clauses.
struct Planner {
    initial: Vec<String>,
    stages: Vec<Stage>,
    env: Vec<String>,
    pending_sorts: Vec<usize>,
    pending_lets: Vec<PendingLet>,
    join_counter: usize,
}

proof fn lemma_join_count_bound(ss: Seq<Stage>)
    ensures
        join_count(ss) <= ss.len(),
    decreases ss.len(),
{
    if ss.len() > 0 {
        lemma_join_count_bound(ss.drop_last());
    }
}

/// Stages that are not `select` each run at least one clause of their own.
proof fn lemma_flat_len(q: Query, ss: Seq<Stage>)
    requires
        forall|k: int| 0 <= k < ss.len() ==> stage_ok(q, #[trigger] ss[k]),
        forall|k: int| 0 <= k < ss.len() ==> !(#[trigger] ss[k].op is Select),
    ensures
        ss.len() <= flat_clauses(ss).len(),
    decreases ss.len(),
{
    if ss.len() > 0 {
        let last = ss.last();
        assert(stage_ok(q, ss[ss.len() - 1]));
        assert(!(ss[ss.len() - 1].op is Select));
        reveal(stage_ok);
        assert(op_clauses(last.op).len() > 0);
        lemma_flat_len(q, ss.drop_last());
    }
}

impl Planner {
    spec fn at(self, q: Query, i: int) -> bool {
        &&& planning(
            q,
            self.initial@,
            self.stages@,
            self.pending_lets@,
            self.pending_sorts@,
            self.env@,
            i,
        )
        &&& self.join_counter == join_count(self.stages@)
    }

    spec fn ready(self, q: Query, i: int) -> bool {
        &&& self.at(q, i)
        &&& self.pending_sorts@ == Seq::<usize>::empty()
    }

    /// The names live before clause `i`.
    fn live_before(q: &Query, live_after: &Vec<NameSet>, i: usize) -> (r: NameSet)
        requires
            live_table(*q, live_after@),
            i < q.middle@.len(),
        ensures
            i > 0 ==> r@ == live_from(q.middle@, select_reads(*q), i as int),
    {
        if i == 0 {
            let mut s = live_after[0].copy();
            let r = clause_reads(&q.middle[0]);
            s.extend(&r);
            s
        } else {
            live_after[i - 1].copy()
        }
    }

    /// Commits the queued `orderby`s before clause `i`, which is no
    /// `orderby`.
    #[verifier::rlimit(30)]
    fn flush_before(&mut self, q: &Query, live_after: &Vec<NameSet>, i: usize)
        requires
            old(self).at(*q, i as int),
            live_table(*q, live_after@),
            i < q.middle@.len(),
            !(q.middle@[i as int] is OrderBy),
        ensures
            final(self).ready(*q, i as int),
            final(self).initial == old(self).initial,
    {
        let live_before = Planner::live_before(q, live_after, i);
        proof {
            lemma_planning_facts(
                *q,
                self.initial@,
                self.stages@,
                self.pending_lets@,
                self.pending_sorts@,
                self.env@,
                i as int,
            );
            if i == 0 {
                assert(self.pending_sorts@.len() == 0) by {
                    assert(range_seq(0).len() == 0);
                }
            }
        }
        let mut env: Vec<String> = Vec::new();
        std::mem::swap(&mut env, &mut self.env);
        self.env = flush_sorts(
            q,
            &self.initial,
            &mut self.stages,
            env,
            &mut self.pending_sorts,
            &mut self.pending_lets,
            &live_before,
            Ghost(i as int),
        );
    }

    /// Queues `let` clause `i`.
    fn plan_let(&mut self, q: &Query, live_after: &Vec<NameSet>, i: usize)
        requires
            old(self).at(*q, i as int),
            live_table(*q, live_after@),
            i < q.middle@.len(),
            q.middle@[i as int] is Let,
        ensures
            final(self).at(*q, i + 1),
            final(self).initial == old(self).initial,
    {
        self.flush_before(q, live_after, i);
        match &q.middle[i] {
            MiddleClause::Let { name, .. } => {
                let is_live = live_after[i].contains(name);
                let is_shadow = names_contain(&self.env, name);
                let l = PendingLet { clause: i, live: is_live, shadow: is_shadow };
                let ghost env0 = self.env@;
                if is_live && !is_shadow {
                    let nm = name.clone();
                    proof {
                        lemma_sv_push(self.env@, nm);
                    }
                    self.env.push(nm);
                    assert(sv(self.env@) =~= sv(env0) + seq![name@]);
                } else {
                    assert(sv(self.env@) =~= sv(env0) + Seq::<Seq<char>>::empty());
                }
                proof {
                    lemma_queue_let(
                        *q,
                        self.initial@,
                        self.stages@,
                        self.pending_lets@,
                        env0,
                        i as int,
                        l,
                        self.env@,
                    );
                }
                self.pending_lets.push(l);
            },
            _ => {},
        }
    }

    /// Queues `orderby` clause `i`.
    fn plan_orderby(&mut self, q: &Query, i: usize)
        requires
            old(self).at(*q, i as int),
            i < q.middle@.len(),
            q.middle@[i as int] is OrderBy,
        ensures
            final(self).at(*q, i + 1),
            final(self).initial == old(self).initial,
    {
        proof {
            lemma_queue_sort(
                *q,
                self.initial@,
                self.stages@,
                self.pending_lets@,
                self.pending_sorts@,
                self.env@,
                i,
            );
        }
        self.pending_sorts.push(i);
    }

    /// Emits a stage for the operation of clause `i` (and `i + 1` when a
    /// `where` is fused), passing on `outgoing`.
    #[verifier::rlimit(40)]
    fn emit(
        &mut self,
        q: &Query,
        op: StageOp,
        outgoing: Vec<String>,
        Ghost(i): Ghost<int>,
        Ghost(i_new): Ghost<int>,
    )
        requires
            old(self).ready(*q, i),
            i < i_new <= q.middle@.len(),
            op_clauses(op) == if i_new == i + 1 {
                seq![i]
            } else {
                seq![i, i + 1]
            },
            i_new <= i + 2,
            op_kinds_ok(*q, op),
            !(op is Select),
            outgoing_ok(*q, old(self).env@, op, outgoing@),
            sv(outgoing@) == out_for(
                *q,
                sv(old(self).env@),
                op,
                live_from(q.middle@, select_reads(*q), i_new),
            ),
            fusion_ok_at(*q, sv(old(self).env@), op),
            sort_max(*q, op),
            is_join_op(op) ==> op_counter(op) == old(self).join_counter,
        ensures
            final(self).at(*q, i_new),
            final(self).initial == old(self).initial,
    {
        proof {
            lemma_planning_facts(
                *q,
                self.initial@,
                self.stages@,
                self.pending_lets@,
                Seq::empty(),
                self.env@,
                i,
            );
            let a = flat_clauses(self.stages@) + let_clauses(self.pending_lets@);
            assert(a =~= a + idx_seq(Seq::<usize>::empty()));
            lemma_range_push(a, i);
        }
        let n_clauses = q.middle.len();
        let joins = match &op {
            StageOp::Join { .. } => true,
            StageOp::GroupJoin { .. } => true,
            _ => false,
        };
        let mut env: Vec<String> = Vec::new();
        std::mem::swap(&mut env, &mut self.env);
        self.env = push_stage(
            q,
            &self.initial,
            &mut self.stages,
            &env,
            &mut self.pending_lets,
            op,
            outgoing,
            Ghost(Seq::empty()),
            Ghost(i),
            Ghost(i_new),
        );
        proof {
            assert(self.pending_sorts@ == Seq::<usize>::empty());
        }
        if joins {
            proof {
                lemma_planning_facts(
                    *q,
                    self.initial@,
                    self.stages@,
                    self.pending_lets@,
                    self.pending_sorts@,
                    self.env@,
                    i_new,
                );
                lemma_flat_len(*q, self.stages@);
                lemma_join_count_bound(self.stages@);
                assert(idx_seq(self.pending_sorts@) =~= Seq::<int>::empty());
                assert(let_clauses(self.pending_lets@) =~= Seq::<int>::empty());
                assert(range_seq(i_new).len() == i_new);
                assert(flat_clauses(self.stages@).len() == i_new);
                assert(i_new <= n_clauses);
                assert(join_count(self.stages@) == self.join_counter + 1);
            }
            self.join_counter = self.join_counter + 1;
        }
    }

    /// Plans `where` clause `i`.
    fn plan_where(&mut self, q: &Query, live_after: &Vec<NameSet>, i: usize)
        requires
            old(self).at(*q, i as int),
            live_table(*q, live_after@),
            i < q.middle@.len(),
            q.middle@[i as int] is Where,
        ensures
            final(self).at(*q, i + 1),
            final(self).initial == old(self).initial,
    {
        self.flush_before(q, live_after, i);
        let outgoing = pass_on(&self.env, &live_after[i], None);
        let op = StageOp::Where { clause: i };
        proof {
            reveal(out_for);
            reveal(fusion_ok_at);
            reveal(sort_max);
            assert(sv(self.env@).filter(in_set(live_after@[i as int]@)) + Seq::<Seq<char>>::empty()
                =~= sv(self.env@).filter(in_set(live_after@[i as int]@)));
        }
        self.emit(q, op, outgoing, Ghost(i as int), Ghost(i + 1));
    }

    /// Plans `zip` clause `i`.
    fn plan_zip(&mut self, q: &Query, live_after: &Vec<NameSet>, i: usize)
        requires
            old(self).at(*q, i as int),
            live_table(*q, live_after@),
            i < q.middle@.len(),
            q.middle@[i as int] is Zip,
        ensures
            final(self).at(*q, i + 1),
            final(self).initial == old(self).initial,
    {
        self.flush_before(q, live_after, i);
        match &q.middle[i] {
            MiddleClause::Zip { name, .. } => {
                let outgoing = pass_on(&self.env, &live_after[i], Some(name));
                let op = StageOp::Zip { clause: i };
                proof {
                    reveal(out_for);
                    reveal(fusion_ok_at);
                    reveal(sort_max);
                }
                self.emit(q, op, outgoing, Ghost(i as int), Ghost(i + 1));
            },
            _ => {},
        }
    }

    /// Plans `group ... by ... into` clause `i`.
    fn plan_group_by(&mut self, q: &Query, live_after: &Vec<NameSet>, i: usize)
        requires
            old(self).at(*q, i as int),
            live_table(*q, live_after@),
            i < q.middle@.len(),
            q.middle@[i as int] is GroupBy,
        ensures
            final(self).at(*q, i + 1),
            final(self).initial == old(self).initial,
    {
        self.flush_before(q, live_after, i);
        match &q.middle[i] {
            MiddleClause::GroupBy { name, .. } => {
                let outgoing = only_if(name, &live_after[i]);
                let op = StageOp::GroupBy { clause: i };
                proof {
                    reveal(out_for);
                    reveal(fusion_ok_at);
                    reveal(sort_max);
                }
                self.emit(q, op, outgoing, Ghost(i as int), Ghost(i + 1));
            },
            _ => {},
        }
    }

    /// Plans join clause `i`; returns how many clauses it took (2 when
    /// the following `where` is fused into it).
    #[verifier::rlimit(40)]
    fn plan_join(&mut self, q: &Query, live_after: &Vec<NameSet>, i: usize) -> (step: usize)
        requires
            old(self).at(*q, i as int),
            live_table(*q, live_after@),
            i < q.middle@.len(),
            q.middle@[i as int] is Join,
        ensures
            1 <= step <= 2,
            i + step <= q.middle@.len(),
            final(self).at(*q, i + step),
            final(self).initial == old(self).initial,
    {
        self.flush_before(q, live_after, i);
        let n = q.middle.len();
        let counter = self.join_counter;
        match &q.middle[i] {
            MiddleClause::Join(j) => match &j.into_group {
                Some(g) => {
                    let outgoing = pass_on(&self.env, &live_after[i], Some(g));
                    let op = StageOp::GroupJoin { clause: i, counter };
                    proof {
                        reveal(out_for);
                        reveal(fusion_ok_at);
                        reveal(sort_max);
                    }
                    self.emit(q, op, outgoing, Ghost(i as int), Ghost(i + 1));
                    1
                },
                None => {
                    let can_fuse = j.kind == JoinKind::Inner || j.kind == JoinKind::Must;
                    let fused: Option<usize> = if can_fuse && i + 1 < n {
                        match &q.middle[i + 1] {
                            MiddleClause::Where(cond) => if fusable(cond, &self.env, &j.name) {
                                Some(i + 1)
                            } else {
                                None
                            },
                            _ => None,
                        }
                    } else {
                        None
                    };
                    let step: usize = if fused.is_some() {
                        2
                    } else {
                        1
                    };
                    let outgoing = pass_on(&self.env, &live_after[i + step - 1], Some(&j.name));
                    let op = StageOp::Join { clause: i, counter, fused };
                    proof {
                        reveal(out_for);
                        reveal(fusion_ok_at);
                        reveal(sort_max);
                        assert(live_after@[i + step - 1]@ == live_from(
                            q.middle@,
                            select_reads(*q),
                            i + step,
                        ));
                    }
                    self.emit(q, op, outgoing, Ghost(i as int), Ghost(i + step));
                    step
                },
            },
            _ => 1,
        }
    }
}

/// The pipeline for `q`, whose `from` binds the single name `from_name`.
#[verifier::rlimit(60)]
pub fn plan_query(q: &Query, from_name: &String) -> (p: Plan)
    ensures
        plan_ok(*q, p),
        sv(p.initial@) == seq![from_name@],
{
    let live_after = compute_live_after(q);
    let n = q.middle.len();
    let mut initial: Vec<String> = Vec::new();
    initial.push(from_name.clone());
    let env = copy_names(&initial);
    let mut pl = Planner {
        initial,
        stages: Vec::new(),
        env,
        pending_sorts: Vec::new(),
        pending_lets: Vec::new(),
        join_counter: 0,
    };
    let mut i: usize = 0;
    proof {
        reveal(planning);
        reveal(chained);
        reveal(lets_exact);
        assert(flat_clauses(pl.stages@) + let_clauses(pl.pending_lets@) + idx_seq(pl.pending_sorts@)
            =~= range_seq(0));
        assert(pushed_seq(*q, pl.pending_lets@) =~= Seq::<Seq<char>>::empty());
        assert(sv(pl.env@) =~= last_out(pl.initial@, pl.stages@) + pushed_seq(*q, pl.pending_lets@));
        assert(sv(pl.initial@) =~= seq![from_name@]);
    }
    while i < n
        invariant
            n == q.middle@.len(),
            live_table(*q, live_after@),
            sv(pl.initial@) == seq![from_name@],
            i <= n,
            pl.at(*q, i as int),
        decreases n - i,
    {
        match &q.middle[i] {
            MiddleClause::Let { .. } => {
                pl.plan_let(q, &live_after, i);
                i += 1;
            },
            MiddleClause::OrderBy { .. } => {
                pl.plan_orderby(q, i);
                i += 1;
            },
            MiddleClause::Where(_) => {
                pl.plan_where(q, &live_after, i);
                i += 1;
            },
            MiddleClause::Join(_) => {
                let step = pl.plan_join(q, &live_after, i);
                i += step;
            },
            MiddleClause::Zip { .. } => {
                pl.plan_zip(q, &live_after, i);
                i += 1;
            },
            MiddleClause::GroupBy { .. } => {
                pl.plan_group_by(q, &live_after, i);
                i += 1;
            },
        }
    }
    let select_live = reads_of_select(&q.select);
    let mut env: Vec<String> = Vec::new();
    std::mem::swap(&mut env, &mut pl.env);
    let env = flush_sorts(
        q,
        &pl.initial,
        &mut pl.stages,
        env,
        &mut pl.pending_sorts,
        &mut pl.pending_lets,
        &select_live,
        Ghost(i as int),
    );
    proof {
        lemma_planning_facts(
            *q,
            pl.initial@,
            pl.stages@,
            pl.pending_lets@,
            Seq::empty(),
            env@,
            i as int,
        );
        assert(flat_clauses(pl.stages@) + let_clauses(pl.pending_lets@) + op_clauses(StageOp::Select)
            =~= flat_clauses(pl.stages@) + let_clauses(pl.pending_lets@) + idx_seq(
            Seq::<usize>::empty(),
        ));
        reveal(out_for);
        reveal(fusion_ok_at);
        reveal(sort_max);
    }
    let none: Vec<String> = Vec::new();
    assert(sv(none@) =~= Seq::<Seq<char>>::empty());
    let _ = push_stage(
        q,
        &pl.initial,
        &mut pl.stages,
        &env,
        &mut pl.pending_lets,
        StageOp::Select,
        none,
        Ghost(Seq::empty()),
        Ghost(i as int),
        Ghost(i as int),
    );
    Plan { initial: pl.initial, stages: pl.stages }
}

proof fn lemma_flat_member(ss: Seq<Stage>, x: int)
    requires
        flat_clauses(ss).contains(x),
    ensures
        exists|k: int| 0 <= k < ss.len() && #[trigger] stage_clauses(ss[k]).contains(x),
    decreases ss.len(),
{
    let f = flat_clauses(ss.drop_last());
    let t = stage_clauses(ss.last());
    let i = choose|i: int| 0 <= i < flat_clauses(ss).len() && flat_clauses(ss)[i] == x;
    if i < f.len() {
        assert(f[i] == x);
        lemma_flat_member(ss.drop_last(), x);
        let k = choose|k: int| 0 <= k < ss.drop_last().len() && #[trigger] stage_clauses(ss.drop_last()[k]).contains(x);
        assert(ss.drop_last()[k] == ss[k]);
    } else {
        assert(t[i - f.len()] == x);
        assert(stage_clauses(ss[ss.len() - 1]).contains(x));
    }
}

/// Every `let` is evaluated, dead or not (its value may have effects): the
/// clause is queued in exactly one stage, whose closure runs its statement.
pub proof fn law_every_let_is_evaluated(q: Query, p: Plan, c: int)
    requires
        plan_ok(q, p),
        0 <= c < q.middle@.len(),
        q.middle@[c] is Let,
    ensures
        exists|k: int, m: int|
            0 <= k < p.stages@.len() && 0 <= m < p.stages@[k].lets@.len()
                && #[trigger] p.stages@[k].lets@[m].clause == c,
{
    let ss = p.stages@;
    assert(flat_clauses(ss)[c] == c);
    lemma_flat_member(ss, c);
    let k = choose|k: int| 0 <= k < ss.len() && #[trigger] stage_clauses(ss[k]).contains(c);
    let st = ss[k];
    assert(stage_ok(q, st));
    reveal(stage_ok);
    let lc = let_clauses(st.lets@);
    let oc = op_clauses(st.op);
    let i = choose|i: int| 0 <= i < (lc + oc).len() && (lc + oc)[i] == c;
    if i < lc.len() {
        assert(st.lets@[i].clause == c);
    } else {
        assert(oc[i - lc.len()] == c);
        match st.op {
            StageOp::Sort { keys } => {
                assert(q.middle@[keys@[i - lc.len()] as int] is OrderBy);
            },
            StageOp::Join { clause, fused, .. } => {
                if i - lc.len() == 1 {
                    assert(fused is Some);
                }
            },
            _ => {},
        }
    }
}

/// Consecutive stages agree on the environment tuple: each stage receives
/// exactly the names, in order, that the stage before it passes on, and
/// the first stage receives the range variable of `from`.
pub proof fn law_stages_hand_on_their_tuples(q: Query, p: Plan, k: int)
    requires
        plan_ok(q, p),
        0 <= k < p.stages@.len(),
    ensures
        k == 0 ==> sv(p.stages@[k].incoming@) == sv(p.initial@),
        k > 0 ==> sv(p.stages@[k].incoming@) == sv(p.stages@[k - 1].outgoing@),
{
    reveal(chained);
    if k > 0 {
        assert(sv(p.stages@[(k - 1) + 1].incoming@) == sv(p.stages@[k - 1].outgoing@));
    }
}

// --- a query has one plan ---------------------------------------------------------

/// Two operations do the same thing.
pub open spec fn same_op(o1: StageOp, o2: StageOp) -> bool {
    match (o1, o2) {
        (StageOp::Sort { keys: k1 }, StageOp::Sort { keys: k2 }) => k1@ == k2@,
        (StageOp::Where { clause: c1 }, StageOp::Where { clause: c2 }) => c1 == c2,
        (
            StageOp::Join { clause: c1, counter: n1, fused: f1 },
            StageOp::Join { clause: c2, counter: n2, fused: f2 },
        ) => c1 == c2 && n1 == n2 && f1 == f2,
        (
            StageOp::GroupJoin { clause: c1, counter: n1 },
            StageOp::GroupJoin { clause: c2, counter: n2 },
        ) => c1 == c2 && n1 == n2,
        (StageOp::GroupBy { clause: c1 }, StageOp::GroupBy { clause: c2 }) => c1 == c2,
        (StageOp::Zip { clause: c1 }, StageOp::Zip { clause: c2 }) => c1 == c2,
        (StageOp::Select, StageOp::Select) => true,
        _ => false,
    }
}

/// Two stages receive, run and pass on the same things.
pub open spec fn same_stage(st1: Stage, st2: Stage) -> bool {
    &&& sv(st1.incoming@) == sv(st2.incoming@)
    &&& st1.lets@ == st2.lets@
    &&& same_op(st1.op, st2.op)
    &&& sv(st1.outgoing@) == sv(st2.outgoing@)
}

proof fn lemma_flat_take(ss: Seq<Stage>, k: int)
    requires
        0 <= k < ss.len(),
    ensures
        flat_clauses(ss.take(k + 1)) == flat_clauses(ss.take(k)) + stage_clauses(ss[k]),
{
    assert(ss.take(k + 1).drop_last() =~= ss.take(k));
}

proof fn lemma_flat_prefix(ss: Seq<Stage>, k: int)
    requires
        0 <= k <= ss.len(),
    ensures
        flat_clauses(ss.take(k)).len() <= flat_clauses(ss).len(),
        flat_clauses(ss).subrange(0, flat_clauses(ss.take(k)).len() as int) == flat_clauses(
            ss.take(k),
        ),
    decreases ss.len() - k,
{
    if k == ss.len() {
        assert(ss.take(k) =~= ss);
        assert(flat_clauses(ss).subrange(0, flat_clauses(ss).len() as int) =~= flat_clauses(ss));
    } else {
        lemma_flat_prefix(ss, k + 1);
        lemma_flat_take(ss, k);
        let big = flat_clauses(ss);
        let a = flat_clauses(ss.take(k));
        let b = flat_clauses(ss.take(k + 1));
        assert(big.subrange(0, a.len() as int) =~= b.subrange(0, a.len() as int));
        assert(b.subrange(0, a.len() as int) =~= a);
    }
}

/// Stage `k` of a plan runs the clauses `f .. f + n` in order, where `f`
/// counts the clauses of the stages before it.
proof fn lemma_stage_segment(q: Query, p: Plan, k: int)
    requires
        plan_ok(q, p),
        0 <= k < p.stages@.len(),
    ensures
        ({
            let ss = p.stages@;
            let f = flat_clauses(ss.take(k)).len() as int;
            let sc = stage_clauses(ss[k]);
            &&& f + sc.len() <= q.middle@.len()
            &&& forall|i: int| 0 <= i < sc.len() ==> #[trigger] sc[i] == f + i
            &&& flat_clauses(ss.take(k + 1)).len() == f + sc.len()
            &&& (k == ss.len() - 1 ==> f + sc.len() == q.middle@.len())
        }),
{
    let ss = p.stages@;
    let n = q.middle@.len() as int;
    let f = flat_clauses(ss.take(k)).len() as int;
    let sc = stage_clauses(ss[k]);
    lemma_flat_take(ss, k);
    lemma_flat_prefix(ss, k + 1);
    let b = flat_clauses(ss.take(k + 1));
    assert(flat_clauses(ss) == range_seq(n));
    assert forall|i: int| 0 <= i < sc.len() implies #[trigger] sc[i] == f + i by {
        assert(b[f + i] == sc[i]);
        assert(flat_clauses(ss).subrange(0, b.len() as int)[f + i] == b[f + i]);
    }
    if k == ss.len() - 1 {
        assert(ss.take(k + 1) =~= ss);
    }
}

/// The join stages among the first `k` stages of two agreeing plans count
/// alike.
proof fn lemma_join_count_alike(ss1: Seq<Stage>, ss2: Seq<Stage>, k: int)
    requires
        0 <= k <= ss1.len(),
        k <= ss2.len(),
        forall|j: int| 0 <= j < k ==> same_stage(#[trigger] ss1[j], ss2[j]),
    ensures
        join_count(ss1.take(k)) == join_count(ss2.take(k)),
        flat_clauses(ss1.take(k)) == flat_clauses(ss2.take(k)),
    decreases k,
{
    if k > 0 {
        lemma_join_count_alike(ss1, ss2, k - 1);
        assert(ss1.take(k).drop_last() =~= ss1.take(k - 1));
        assert(ss2.take(k).drop_last() =~= ss2.take(k - 1));
        assert(same_stage(ss1[k - 1], ss2[k - 1]));
        assert(stage_clauses(ss1[k - 1]) =~= stage_clauses(ss2[k - 1]));
    } else {
        assert(ss1.take(0) =~= Seq::<Stage>::empty());
        assert(ss2.take(0) =~= Seq::<Stage>::empty());
    }
}

/// Queued `let`s on the same clauses, with exact flags over the same row,
/// are the same.
proof fn lemma_lets_alike(q: Query, base: Seq<Seq<char>>, l1: Seq<PendingLet>, l2: Seq<PendingLet>, k: int)
    requires
        lets_exact(q, base, l1),
        lets_exact(q, base, l2),
        l1.len() == l2.len(),
        forall|i: int| 0 <= i < l1.len() ==> (#[trigger] l1[i]).clause == l2[i].clause,
        0 <= k <= l1.len(),
    ensures
        l1.take(k) == l2.take(k),
    decreases k,
{
    if k > 0 {
        lemma_lets_alike(q, base, l1, l2, k - 1);
        reveal(lets_exact);
        assert(l1[k - 1].live == l2[k - 1].live);
        assert(l1[k - 1].shadow == l2[k - 1].shadow);
        assert(l1.take(k) =~= l1.take(k - 1).push(l1[k - 1]));
        assert(l2.take(k) =~= l2.take(k - 1).push(l2[k - 1]));
    } else {
        assert(l1.take(0) =~= l2.take(0));
    }
}

/// Two stages that start at the same clause, over the same row and after
/// the same number of joins, are the same stage.
#[verifier::rlimit(100)]
proof fn lemma_stage_alike(q: Query, st1: Stage, st2: Stage, f: int, jc: nat)
    requires
        stage_ok(q, st1),
        stage_ok(q, st2),
        stage_exact(q, st1),
        stage_exact(q, st2),
        sv(st1.incoming@) == sv(st2.incoming@),
        0 <= f,
        f + stage_clauses(st1).len() <= q.middle@.len(),
        f + stage_clauses(st2).len() <= q.middle@.len(),
        forall|i: int| 0 <= i < stage_clauses(st1).len() ==> #[trigger] stage_clauses(st1)[i] == f + i,
        forall|i: int| 0 <= i < stage_clauses(st2).len() ==> #[trigger] stage_clauses(st2)[i] == f + i,
        st1.op is Select ==> f + stage_clauses(st1).len() == q.middle@.len(),
        st2.op is Select ==> f + stage_clauses(st2).len() == q.middle@.len(),
        is_join_op(st1.op) ==> op_counter(st1.op) == jc,
        is_join_op(st2.op) ==> op_counter(st2.op) == jc,
    ensures
        same_stage(st1, st2),
{
    reveal(stage_ok);
    reveal(stage_exact);
    let ms = q.middle@;
    let n = ms.len() as int;
    let l1 = st1.lets@;
    let l2 = st2.lets@;
    let lc1 = let_clauses(l1);
    let lc2 = let_clauses(l2);
    let oc1 = op_clauses(st1.op);
    let oc2 = op_clauses(st2.op);
    assert(stage_clauses(st1) == lc1 + oc1);
    assert(stage_clauses(st2) == lc2 + oc2);
    assert forall|i: int| 0 <= i < l1.len() implies (#[trigger] l1[i]).clause == f + i by {
        assert((lc1 + oc1)[i] == lc1[i]);
    }
    assert forall|i: int| 0 <= i < l2.len() implies (#[trigger] l2[i]).clause == f + i by {
        assert((lc2 + oc2)[i] == lc2[i]);
    }
    // The queued lets end where the first clause that is no `let` stands.
    if l1.len() < l2.len() {
        let x = f + l1.len();
        assert(l2[l1.len() as int].clause == x);
        assert(ms[x] is Let);
        if oc1.len() > 0 {
            assert((lc1 + oc1)[l1.len() as int] == oc1[0]);
            assert(oc1[0] == x);
            match st1.op {
                StageOp::Sort { keys } => {
                    assert(keys@[0] as int == x);
                },
                _ => {},
            }
        }
    }
    if l2.len() < l1.len() {
        let x = f + l2.len();
        assert(l1[l2.len() as int].clause == x);
        assert(ms[x] is Let);
        if oc2.len() > 0 {
            assert((lc2 + oc2)[l2.len() as int] == oc2[0]);
            assert(oc2[0] == x);
            match st2.op {
                StageOp::Sort { keys } => {
                    assert(keys@[0] as int == x);
                },
                _ => {},
            }
        }
    }
    assert(l1.len() == l2.len());
    let len = l1.len() as int;
    lemma_lets_alike(q, sv(st1.incoming@), l1, l2, len);
    assert(l1.take(len) =~= l1);
    assert(l2.take(len) =~= l2);
    assert(l1 == l2);
    let x = f + len;
    // The operation is the one that the clause at `x` calls for.
    if oc1.len() > 0 {
        assert((lc1 + oc1)[len] == oc1[0]);
    }
    if oc2.len() > 0 {
        assert((lc2 + oc2)[len] == oc2[0]);
    }
    match st1.op {
        StageOp::Sort { keys: k1 } => {
            assert(k1@[0] as int == x);
            match st2.op {
                StageOp::Sort { keys: k2 } => {
                    assert(k2@[0] as int == x);
                    assert forall|i: int| 0 <= i < k1@.len() implies k1@[i] as int == x + i by {
                        assert((lc1 + oc1)[len + i] == oc1[i]);
                    }
                    assert forall|i: int| 0 <= i < k2@.len() implies k2@[i] as int == x + i by {
                        assert((lc2 + oc2)[len + i] == oc2[i]);
                    }
                    reveal(sort_max);
                    if k1@.len() < k2@.len() {
                        assert(k2@[k1@.len() as int] as int == x + k1@.len());
                        assert(k1@.last() as int == x + k1@.len() - 1);
                    }
                    if k2@.len() < k1@.len() {
                        assert(k1@[k2@.len() as int] as int == x + k2@.len());
                        assert(k2@.last() as int == x + k2@.len() - 1);
                    }
                    assert(k1@ =~= k2@);
                },
                StageOp::Select => {},
                _ => {},
            }
        },
        StageOp::Join { .. } => {
            reveal(fusion_ok_at);
        },
        _ => {},
    }
    match st2.op {
        StageOp::Sort { keys: k2 } => {
            assert(k2@[0] as int == x);
        },
        StageOp::Join { .. } => {
            reveal(fusion_ok_at);
        },
        _ => {},
    }
    assert(same_op(st1.op, st2.op));
    assert(stage_clauses(st1) =~= stage_clauses(st2));
    assert(stage_row(q, st1) == stage_row(q, st2));
    reveal(out_for);
}

proof fn lemma_plans_alike_from(q: Query, p1: Plan, p2: Plan, k: int)
    requires
        plan_ok(q, p1),
        plan_ok(q, p2),
        sv(p1.initial@) == sv(p2.initial@),
        0 <= k <= p1.stages@.len(),
        k <= p2.stages@.len(),
        forall|j: int| 0 <= j < k ==> same_stage(#[trigger] p1.stages@[j], p2.stages@[j]),
        k > 0 ==> !(p1.stages@[k - 1].op is Select),
    ensures
        p1.stages@.len() == p2.stages@.len(),
        forall|j: int|
            0 <= j < p1.stages@.len() ==> same_stage(#[trigger] p1.stages@[j], p2.stages@[j]),
    decreases p1.stages@.len() - k,
{
    let ss1 = p1.stages@;
    let ss2 = p2.stages@;
    if k == ss1.len() {
        // The last stage of a plan is its `select`.
        assert(ss1.len() > 0);
        assert(false);
    } else if k == ss2.len() {
        assert(ss2.len() > 0);
        assert(same_stage(ss1[k - 1], ss2[k - 1]));
        assert(ss2[k - 1].op is Select);
        assert(false);
    } else {
        lemma_join_count_alike(ss1, ss2, k);
        lemma_stage_segment(q, p1, k);
        lemma_stage_segment(q, p2, k);
        assert(stage_ok(q, ss1[k]));
        assert(stage_ok(q, ss2[k]));
        assert(stage_exact(q, ss1[k]));
        assert(stage_exact(q, ss2[k]));
        assert(counters_ok(ss1));
        assert(counters_ok(ss2));
        reveal(chained);
        if k == 0 {
            assert(sv(ss1[0].incoming@) == sv(p1.initial@));
            assert(sv(ss2[0].incoming@) == sv(p2.initial@));
        } else {
            assert(sv(ss1[(k - 1) + 1].incoming@) == sv(ss1[k - 1].outgoing@));
            assert(sv(ss2[(k - 1) + 1].incoming@) == sv(ss2[k - 1].outgoing@));
        }
        if ss1[k].op is Select {
            assert(k == ss1.len() - 1);
        }
        if ss2[k].op is Select {
            assert(k == ss2.len() - 1);
        }
        lemma_stage_alike(
            q,
            ss1[k],
            ss2[k],
            flat_clauses(ss1.take(k)).len() as int,
            join_count(ss1.take(k)),
        );
        if ss1[k].op is Select {
            assert(ss2[k].op is Select);
            assert(k == ss2.len() - 1);
        } else {
            lemma_plans_alike_from(q, p1, p2, k + 1);
        }
    }
}

/// A query has one plan: two plans for it that start from the same range
/// variable have the same stages, which receive, run and pass on the same
/// things.
pub proof fn law_plan_is_unique(q: Query, p1: Plan, p2: Plan)
    requires
        plan_ok(q, p1),
        plan_ok(q, p2),
        sv(p1.initial@) == sv(p2.initial@),
    ensures
        p1.stages@.len() == p2.stages@.len(),
        forall|j: int|
            0 <= j < p1.stages@.len() ==> same_stage(#[trigger] p1.stages@[j], p2.stages@[j]),
{
    lemma_plans_alike_from(q, p1, p2, 0);
}

// --- laws -----------------------------------------------------------------------

/// Liveness drops no binding that is still read: every name of the row a
/// stage sees that is live after the stage is passed on to the next stage
/// (`group by` passes on only its group, and `select` ends the chain).
pub proof fn law_live_bindings_are_passed_on(q: Query, p: Plan, k: int, w: Seq<char>)
    requires
        plan_ok(q, p),
        0 <= k < p.stages@.len(),
        !(p.stages@[k].op is Select),
        !(p.stages@[k].op is GroupBy),
        stage_row(q, p.stages@[k]).contains(w),
        live_after_stage(q, p.stages@[k]).contains(w),
    ensures
        sv(p.stages@[k].outgoing@).contains(w),
{
    let st = p.stages@[k];
    assert(stage_exact(q, st));
    reveal(stage_exact);
    reveal(out_for);
    let row = stage_row(q, st);
    let live = live_after_stage(q, st);
    let m = choose|m: int| 0 <= m < row.len() && row[m] == w;
    row.lemma_filter_contains(in_set(live), m);
    let kept = row.filter(in_set(live));
    assert(kept.contains(w));
    let km = choose|km: int| 0 <= km < kept.len() && kept[km] == w;
    match st.op {
        StageOp::Join { clause, .. } => {
            assert((kept + keep_if(bound_name(q.middle@[clause as int]), live))[km] == w);
        },
        StageOp::GroupJoin { clause, .. } => {
            assert((kept + keep_if(bound_name(q.middle@[clause as int]), live))[km] == w);
        },
        StageOp::Zip { clause } => {
            assert((kept + keep_if(bound_name(q.middle@[clause as int]), live))[km] == w);
        },
        _ => {},
    }
}

/// Liveness keeps no binding that is never read again: every name a stage
/// passes on is live after the stage.
pub proof fn law_passed_on_bindings_are_live(q: Query, p: Plan, k: int, w: Seq<char>)
    requires
        plan_ok(q, p),
        0 <= k < p.stages@.len(),
        sv(p.stages@[k].outgoing@).contains(w),
    ensures
        live_after_stage(q, p.stages@[k]).contains(w),
{
    let st = p.stages@[k];
    assert(stage_exact(q, st));
    reveal(stage_exact);
    reveal(out_for);
    let row = stage_row(q, st);
    let live = live_after_stage(q, st);
    let kept = row.filter(in_set(live));
    lemma_filter_sub(row, in_set(live));
    let out = sv(st.outgoing@);
    let m = choose|m: int| 0 <= m < out.len() && out[m] == w;
    match st.op {
        StageOp::Select => {},
        StageOp::GroupBy { clause } => {
            assert(keep_if(bound_name(q.middle@[clause as int]), live)[m] == w);
        },
        StageOp::Sort { .. } => {
            assert(kept.contains(w));
        },
        StageOp::Where { .. } => {
            assert(kept.contains(w));
        },
        StageOp::Join { clause, .. } => {
            let extra = keep_if(bound_name(q.middle@[clause as int]), live);
            if m < kept.len() {
                assert(kept[m] == w);
                assert(kept.contains(w));
            } else {
                assert(extra[m - kept.len()] == w);
            }
        },
        StageOp::GroupJoin { clause, .. } => {
            let extra = keep_if(bound_name(q.middle@[clause as int]), live);
            if m < kept.len() {
                assert(kept[m] == w);
                assert(kept.contains(w));
            } else {
                assert(extra[m - kept.len()] == w);
            }
        },
        StageOp::Zip { clause } => {
            let extra = keep_if(bound_name(q.middle@[clause as int]), live);
            if m < kept.len() {
                assert(kept[m] == w);
                assert(kept.contains(w));
            } else {
                assert(extra[m - kept.len()] == w);
            }
        },
    }
}

/// A `where` fused into a join is the clause right after it, and reads no
/// bare name but those of the joined row; so the join's `move` closure
/// captures nothing from the enclosing scope on its behalf.
pub proof fn law_fused_where_reads_only_the_row(q: Query, p: Plan, k: int)
    requires
        plan_ok(q, p),
        0 <= k < p.stages@.len(),
        p.stages@[k].op matches StageOp::Join { fused, .. } && fused is Some,
    ensures
        match p.stages@[k].op {
            StageOp::Join { clause, fused, .. } => match q.middle@[clause as int] {
                MiddleClause::Join(j) => {
                    &&& fused == Some((clause + 1) as usize)
                    &&& (j.kind == JoinKind::Inner || j.kind == JoinKind::Must)
                    &&& fusable_where(q.middle@, clause as int, stage_row(q, p.stages@[k]), j.name@)
                },
                _ => false,
            },
            _ => false,
        },
{
    let st = p.stages@[k];
    assert(stage_exact(q, st));
    assert(stage_ok(q, st));
    reveal(stage_exact);
    reveal(stage_ok);
    reveal(fusion_ok_at);
}

} // verus!
