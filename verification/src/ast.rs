//! Data structures for a parsed query, and the token text each one stands
//! for.
//!
//! A query is linear: exactly one `from` at the start, exactly one `select`
//! at the end, and zero or more middle clauses in between, applied in the
//! order in which they are written.
use vstd::prelude::*;
use crate::token::{Tok, TokV, tv, depth_at, balanced};

verus! {

/// A Rust expression inside a clause, as written.
pub struct Expr {
    pub toks: Vec<Tok>,
}

/// `from <pat> in <expr>`.
pub struct FromClause {
    /// The pattern binding the range variable.
    pub pat: Vec<Tok>,
    /// The expression producing the source iterable.
    pub source: Expr,
}

/// The flavours of `join`.
#[derive(Clone, Copy, Debug, PartialEq, Eq, Structural)]
pub enum JoinKind {
    /// `join`: inner equi-join.
    Inner,
    /// `join_must`: inner equi-join that panics when an outer row has no match.
    Must,
    /// `join_left`: left equi-join; the joined binding is an `Option`.
    Left,
    /// `last_must`: keeps the last inner row per key; panics when none matches.
    LastMust,
}

/// `join <name> in <source> on <outer_key> == <inner_key> [into <g>]`.
pub struct JoinClause {
    pub kind: JoinKind,
    /// The name of the new binding produced by the join.
    pub name: String,
    /// The inner source expression.
    pub source: Expr,
    /// The outer-side key expression (evaluated against the outer row).
    pub outer_key: Expr,
    /// The inner-side key expression (evaluated against each inner item).
    pub inner_key: Expr,
    /// Whether the second `=` of `==` was joined to the next character.
    pub eq_joint: bool,
    /// `Some(g)` for a group-join.
    pub into_group: Option<String>,
}

/// Every clause permitted between `from` and `select`.
pub enum MiddleClause {
    /// `let <name> = <value>`.
    Let {
        name: String,
        value: Expr,
        /// Whether `=` was joined to the next character.
        eq_joint: bool,
    },
    /// `where <cond>`.
    Where(Expr),
    /// `orderby <key>`, `orderby <key> asc` or `orderby <key> desc`.
    OrderBy {
        key: Expr,
        descending: bool,
        /// Whether the direction was written out.
        spelled: bool,
    },
    /// `join`, `join_must`, `join_left` or `last_must`.
    Join(Box<JoinClause>),
    /// `zip <name> in <source>` or `zip_must <name> in <source>`.
    Zip {
        name: String,
        source: Expr,
        must: bool,
    },
    /// `group <element> by <key> into <name>`.
    GroupBy {
        element: Expr,
        key: Expr,
        name: String,
    },
}

/// `select <expr>`.
pub struct SelectClause {
    pub expr: Expr,
}

/// A complete query: `from ... select ...`.
pub struct Query {
    pub from: FromClause,
    pub middle: Vec<MiddleClause>,
    pub select: SelectClause,
}

// --- the words of the grammar -------------------------------------------------

/// Words at which an expression ends (when they follow a complete operand).
pub open spec fn is_stop_word(w: Seq<char>) -> bool {
    ||| w == "let"@
    ||| w == "where"@
    ||| w == "orderby"@
    ||| w == "join"@
    ||| w == "join_must"@
    ||| w == "join_left"@
    ||| w == "last_must"@
    ||| w == "zip"@
    ||| w == "zip_must"@
    ||| w == "group"@
    ||| w == "select"@
    ||| w == "desc"@
    ||| w == "asc"@
    ||| w == "on"@
    ||| w == "by"@
    ||| w == "into"@
}

/// The token is a stop word.
pub open spec fn is_stop_tok(t: TokV) -> bool {
    t matches TokV::Ident(w) && is_stop_word(w)
}

/// Rust keywords that never end an operand: what follows them belongs to
/// the same expression (`as u8`, `if let`, `match x`, `return x`, ...).
pub open spec fn is_prefix_keyword(w: Seq<char>) -> bool {
    ||| w == "as"@
    ||| w == "async"@
    ||| w == "box"@
    ||| w == "break"@
    ||| w == "const"@
    ||| w == "continue"@
    ||| w == "dyn"@
    ||| w == "else"@
    ||| w == "enum"@
    ||| w == "extern"@
    ||| w == "fn"@
    ||| w == "for"@
    ||| w == "if"@
    ||| w == "impl"@
    ||| w == "in"@
    ||| w == "let"@
    ||| w == "loop"@
    ||| w == "match"@
    ||| w == "mod"@
    ||| w == "move"@
    ||| w == "mut"@
    ||| w == "pub"@
    ||| w == "ref"@
    ||| w == "return"@
    ||| w == "static"@
    ||| w == "struct"@
    ||| w == "trait"@
    ||| w == "type"@
    ||| w == "unsafe"@
    ||| w == "use"@
    ||| w == "where"@
    ||| w == "while"@
    ||| w == "yield"@
}

/// A token that can end an operand: an identifier that is not a keyword
/// listed by `is_prefix_keyword`, a literal, a closing delimiter, or `?`.
pub open spec fn operand_end(t: TokV) -> bool {
    match t {
        TokV::Punct(c, _) => c == '?',
        TokV::Ident(w) => !is_prefix_keyword(w),
        TokV::Open(_) => false,
        _ => true,
    }
}

/// A token that starts a new operand: an identifier that is not a keyword
/// listed by `is_prefix_keyword`, or a literal. In Rust no such token can
/// follow a complete operand inside one expression.
pub open spec fn starts_operand(t: TokV) -> bool {
    match t {
        TokV::Ident(w) => !is_prefix_keyword(w),
        TokV::Lit(_) => true,
        _ => false,
    }
}

/// A token at which an expression ends when it follows a complete operand:
/// a stop word, or the start of another operand.
pub open spec fn ends_expr(t: TokV) -> bool {
    is_stop_tok(t) || starts_operand(t)
}

/// Position `i` of `s` ends the expression that starts at position 0: it is
/// outside any group, right after a complete operand, and holds a stop word
/// or the start of another operand.
pub open spec fn boundary(s: Seq<TokV>, i: int) -> bool {
    &&& 0 < i < s.len()
    &&& depth_at(s, i) == 0
    &&& ends_expr(s[i])
    &&& operand_end(s[i - 1])
}

/// A well-formed clause expression.
pub open spec fn expr_ok(e: Seq<TokV>) -> bool {
    &&& e.len() > 0
    &&& balanced(e)
    &&& operand_end(e.last())
    &&& forall|i: int| 0 < i < e.len() ==> !#[trigger] boundary(e, i)
}

/// A well-formed `from` pattern: everything up to the first `in` outside
/// any group.
pub open spec fn pattern_ok(p: Seq<TokV>) -> bool {
    &&& p.len() > 0
    &&& balanced(p)
    &&& forall|i: int| 0 <= i < p.len() && depth_at(p, i) == 0 ==> #[trigger] p[i] != TokV::Ident("in"@)
}

/// The token is the punctuation character `c`, with either spacing.
pub open spec fn is_punct(t: TokV, c: char) -> bool {
    t matches TokV::Punct(d, _) && d == c
}

/// The token is a punctuation character joined to the next one.
pub open spec fn is_joint_punct(t: TokV) -> bool {
    t matches TokV::Punct(_, j) && j
}

/// `==` outside any group at position `i`.
pub open spec fn eq_at(c: Seq<TokV>, i: int) -> bool {
    &&& 0 <= i
    &&& i + 1 < c.len()
    &&& depth_at(c, i) == 0
    &&& c[i] == TokV::Punct('=', true)
    &&& is_punct(c[i + 1], '=')
    &&& (i == 0 || !is_joint_punct(c[i - 1]))
}

/// `&&` or `||` outside any group at position `i`.
pub open spec fn logic_at(c: Seq<TokV>, i: int) -> bool {
    &&& 0 <= i
    &&& i + 1 < c.len()
    &&& depth_at(c, i) == 0
    &&& ((c[i] == TokV::Punct('&', true) && is_punct(c[i + 1], '&')) || (c[i] == TokV::Punct(
        '|',
        true,
    ) && is_punct(c[i + 1], '|')))
}

/// An operator outside any group that binds more loosely than `==`, or a
/// `=` that belongs to no `==`: a range `..`, an assignment, a compound
/// assignment, `!=`, `<=`, `>=` or `=>`.
pub open spec fn loose_at(c: Seq<TokV>, i: int) -> bool {
    &&& 0 <= i < c.len()
    &&& depth_at(c, i) == 0
    &&& {
        ||| (is_punct(c[i], '=') && !eq_at(c, i) && !eq_at(c, i - 1))
        ||| (c[i] == TokV::Punct('.', true) && i + 1 < c.len() && is_punct(c[i + 1], '.'))
    }
}

/// An expression that runs to the end of the condition starts at position
/// `i` outside any group: a closure (`|`) or a `return` or `break`, in the
/// place of an operand.
pub open spec fn swallow_at(c: Seq<TokV>, i: int) -> bool {
    &&& 0 <= i < c.len()
    &&& depth_at(c, i) == 0
    &&& (i == 0 || !operand_end(c[i - 1]))
    &&& (is_punct(c[i], '|') || c[i] == TokV::Ident("return"@) || c[i] == TokV::Ident("break"@))
}

/// The `on` condition of a join: an expression whose top-level operator is
/// its single `==`, at position `k`. No `&&` or `||`, no looser operator
/// and no other `=` stands outside groups, and no closure, `return` or
/// `break` starts before the `==`.
pub open spec fn join_cond_ok(c: Seq<TokV>, k: int) -> bool {
    &&& expr_ok(c)
    &&& eq_at(c, k)
    &&& 0 < k
    &&& k + 2 < c.len()
    &&& forall|i: int| eq_at(c, i) ==> i == k
    &&& forall|i: int| !#[trigger] logic_at(c, i)
    &&& forall|i: int| !#[trigger] loose_at(c, i)
    &&& forall|i: int| 0 <= i < k ==> !#[trigger] swallow_at(c, i)
}

pub open spec fn join_keyword(k: JoinKind) -> Seq<char> {
    match k {
        JoinKind::Inner => "join"@,
        JoinKind::Must => "join_must"@,
        JoinKind::Left => "join_left"@,
        JoinKind::LastMust => "last_must"@,
    }
}

pub open spec fn ex(e: Expr) -> Seq<TokV> {
    tv(e.toks@)
}

pub open spec fn eq_toks(joint: bool) -> Seq<TokV> {
    seq![TokV::Punct('=', true), TokV::Punct('=', joint)]
}

/// The `on` condition of a join as written.
pub open spec fn join_cond(j: JoinClause) -> Seq<TokV> {
    ex(j.outer_key) + eq_toks(j.eq_joint) + ex(j.inner_key)
}

// --- rendering ----------------------------------------------------------------

pub open spec fn render_from(f: FromClause) -> Seq<TokV> {
    seq![TokV::Ident("from"@)] + tv(f.pat@) + seq![TokV::Ident("in"@)] + ex(f.source)
}

pub open spec fn render_join(j: JoinClause) -> Seq<TokV> {
    seq![TokV::Ident(join_keyword(j.kind)), TokV::Ident(j.name@), TokV::Ident("in"@)] + ex(
        j.source,
    ) + seq![TokV::Ident("on"@)] + join_cond(j) + match j.into_group {
        Some(g) => seq![TokV::Ident("into"@), TokV::Ident(g@)],
        None => Seq::empty(),
    }
}

/// The tokens a middle clause stands for.
pub open spec fn render_clause(c: MiddleClause) -> Seq<TokV> {
    match c {
        MiddleClause::Let { name, value, eq_joint } => seq![
            TokV::Ident("let"@),
            TokV::Ident(name@),
            TokV::Punct('=', eq_joint),
        ] + ex(value),
        MiddleClause::Where(cond) => seq![TokV::Ident("where"@)] + ex(cond),
        MiddleClause::OrderBy { key, descending, spelled } => seq![TokV::Ident("orderby"@)] + ex(
            key,
        ) + if spelled {
            seq![TokV::Ident(if descending { "desc"@ } else { "asc"@ })]
        } else {
            Seq::empty()
        },
        MiddleClause::Join(j) => render_join(*j),
        MiddleClause::Zip { name, source, must } => seq![
            TokV::Ident(if must { "zip_must"@ } else { "zip"@ }),
            TokV::Ident(name@),
            TokV::Ident("in"@),
        ] + ex(source),
        MiddleClause::GroupBy { element, key, name } => seq![TokV::Ident("group"@)] + ex(element)
            + seq![TokV::Ident("by"@)] + ex(key) + seq![TokV::Ident("into"@), TokV::Ident(name@)],
    }
}

/// The tokens of a sequence of middle clauses, in order.
pub open spec fn render_middle(ms: Seq<MiddleClause>) -> Seq<TokV>
    decreases ms.len(),
{
    if ms.len() == 0 {
        Seq::empty()
    } else {
        render_middle(ms.drop_last()) + render_clause(ms.last())
    }
}

/// The tokens a query stands for.
pub open spec fn render_query(q: Query) -> Seq<TokV> {
    render_from(q.from) + render_middle(q.middle@) + seq![TokV::Ident("select"@)] + ex(
        q.select.expr,
    )
}

// --- well-formedness ----------------------------------------------------------

pub open spec fn clause_wf(c: MiddleClause) -> bool {
    match c {
        MiddleClause::Let { value, .. } => expr_ok(ex(value)),
        MiddleClause::Where(cond) => expr_ok(ex(cond)),
        MiddleClause::OrderBy { key, descending, spelled } => expr_ok(ex(key)) && (!spelled
            ==> !descending),
        MiddleClause::Join(j) => {
            &&& expr_ok(ex(j.source))
            &&& join_cond_ok(join_cond(*j), ex(j.outer_key).len() as int)
            &&& (j.into_group is Some ==> j.kind == JoinKind::Inner)
        },
        MiddleClause::Zip { source, .. } => expr_ok(ex(source)),
        MiddleClause::GroupBy { element, key, .. } => expr_ok(ex(element)) && expr_ok(ex(key)),
    }
}

/// A query that the grammar accepts.
pub open spec fn query_wf(q: Query) -> bool {
    &&& pattern_ok(tv(q.from.pat@))
    &&& expr_ok(ex(q.from.source))
    &&& forall|i: int| 0 <= i < q.middle@.len() ==> clause_wf(#[trigger] q.middle@[i])
    &&& expr_ok(ex(q.select.expr))
}

} // verus!
