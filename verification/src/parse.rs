//! Parser for queries.
//!
//! Keywords are contextual: they are identifiers compared by name. Clauses
//! use no separators. An expression inside a clause runs up to the first
//! position outside any group where a complete operand is followed by a
//! stop word (see `is_stop_word`) or by the start of another operand (an
//! identifier that is no prefix keyword, or a literal), which no Rust
//! expression allows. Whether the expression is otherwise valid Rust is left
//! to the compiler that later checks the expansion. Every error carries the
//! index of the token at which the query went wrong.
use vstd::prelude::*;
use crate::token::{Tok, TokV, tv, depth_at, depth_delta, balanced, is_ident, tok_is_ident, lemma_tv_push, extend_toks, lemma_balanced_concat};
use crate::ast::{
    Expr, FromClause, is_stop_tok, JoinClause, JoinKind, MiddleClause, Query, SelectClause, is_stop_word,
    operand_end, boundary, expr_ok, ends_expr, starts_operand, is_prefix_keyword, loose_at, swallow_at, pattern_ok, eq_at, logic_at, join_cond_ok, join_keyword,
    join_cond, eq_toks, ex, is_punct, is_joint_punct, render_from, render_clause, render_middle,
    render_query, clause_wf, query_wf,
};

verus! {

/// Why a token stream is not a query.
#[derive(Clone, Copy, Debug, PartialEq, Eq, Structural)]
pub enum ParseError {
    /// A group is closed that was never opened, or one is left open.
    Unbalanced,
    /// The query does not start with `from`.
    ExpectedFrom,
    /// `in` is missing after the pattern of `from`.
    ExpectedIn,
    /// `in` is missing after the name of a `zip` (`zip == true`) or of a
    /// `join`.
    ExpectedInAfterName { zip: bool },
    /// A binding name is missing.
    ExpectedName,
    /// `=` is missing after the name of a `let`.
    ExpectedEq,
    /// An expression is missing or ends in an operator.
    ExpectedExpression,
    /// `on` is missing after the source of a `join`.
    ExpectedOn,
    /// `by` is missing after the element of a `group`.
    ExpectedBy,
    /// `into` is missing after the key of a `group`.
    ExpectedInto,
    /// A middle clause starts with a word that begins no clause, or the
    /// query ends before `select`.
    ExpectedClause,
    /// The `on` condition of a join is not a single equality `a == b`.
    JoinNotEquality,
    /// Tokens follow the `select` expression.
    TrailingTokens,
}

/// A parse error and where it was found: the index of the token at which
/// the query went wrong, or the number of tokens when the query ended too
/// early.
#[derive(Clone, Copy, Debug, PartialEq, Eq, Structural)]
pub struct ParseFailure {
    pub kind: ParseError,
    pub at: usize,
}

/// Where an expression that starts at `start` and is not well formed is
/// reported: the end of the stream when nothing is left, else its last
/// token, which then ends the stream with an operator.
pub open spec fn expr_fail_at(s: Seq<TokV>, start: int) -> int {
    if start >= s.len() {
        s.len() as int
    } else {
        s.len() - 1
    }
}

/// `i`, or the end of `s` when `i` lies past it.
pub open spec fn at_end(s: Seq<TokV>, i: int) -> int {
    if i < s.len() {
        i
    } else {
        s.len() as int
    }
}

/// The number of tokens of the well-formed expression that starts at
/// `start`, if one does.
pub open spec fn expr_len(s: Seq<TokV>, start: int) -> Option<int> {
    if exists|m: int| #[trigger] expr_fits(s, start, m) {
        Some(choose|m: int| #[trigger] expr_fits(s, start, m))
    } else {
        None
    }
}

/// The error for an expression at `start`, if none is well formed there.
pub open spec fn expr_failure(s: Seq<TokV>, start: int) -> Option<(ParseError, int)> {
    if expr_len(s, start) is None {
        Some((ParseError::ExpectedExpression, expr_fail_at(s, start)))
    } else {
        None
    }
}

/// Position `i` holds an identifier.
pub open spec fn name_at_pos(s: Seq<TokV>, i: int) -> bool {
    0 <= i < s.len() && s[i] is Ident
}

/// The error for the join clause whose word stands at `pos`, if it has
/// one: the first of a missing name, a missing `in`, a missing source, a
/// missing `on`, a missing condition, a condition without a top-level
/// `==`, and a missing group name after `into`.
#[verifier::opaque]
pub open spec fn join_failure(s: Seq<TokV>, pos: int) -> Option<(ParseError, int)> {
    if !name_at_pos(s, pos + 1) {
        Some((ParseError::ExpectedName, at_end(s, pos + 1)))
    } else if !(pos + 2 < s.len() && s[pos + 2] == TokV::Ident("in"@)) {
        Some((ParseError::ExpectedInAfterName { zip: false }, at_end(s, pos + 2)))
    } else {
        match expr_len(s, pos + 3) {
            None => expr_failure(s, pos + 3),
            Some(n1) => {
                let e1 = pos + 3 + n1;
                if !(e1 < s.len() && s[e1] == TokV::Ident("on"@)) {
                    Some((ParseError::ExpectedOn, e1))
                } else {
                    match expr_len(s, e1 + 1) {
                        None => expr_failure(s, e1 + 1),
                        Some(n2) => {
                            let e2 = e1 + 1 + n2;
                            if !(exists|k: int| #[trigger] join_cond_ok(s.subrange(e1 + 1, e2), k)) {
                                Some((ParseError::JoinNotEquality, e1 + 1))
                            } else if s[pos] == TokV::Ident("join"@) && e2 < s.len() && s[e2]
                                == TokV::Ident("into"@) && !name_at_pos(s, e2 + 1) {
                                Some((ParseError::ExpectedName, at_end(s, e2 + 1)))
                            } else {
                                None
                            }
                        },
                    }
                }
            },
        }
    }
}

/// The error for the clause at `pos`, if it has one. A word that begins no
/// clause gives `ExpectedClause`; otherwise each clause fails at the first
/// part that is missing or not well formed.
#[verifier::opaque]
pub open spec fn clause_failure(s: Seq<TokV>, pos: int) -> Option<(ParseError, int)> {
    let w = s[pos];
    if w == TokV::Ident("let"@) {
        if !name_at_pos(s, pos + 1) {
            Some((ParseError::ExpectedName, at_end(s, pos + 1)))
        } else if !(pos + 2 < s.len() && is_punct(s[pos + 2], '=')) {
            Some((ParseError::ExpectedEq, at_end(s, pos + 2)))
        } else {
            expr_failure(s, pos + 3)
        }
    } else if w == TokV::Ident("where"@) || w == TokV::Ident("orderby"@) {
        expr_failure(s, pos + 1)
    } else if is_join_word(w) {
        join_failure(s, pos)
    } else if w == TokV::Ident("zip"@) || w == TokV::Ident("zip_must"@) {
        if !name_at_pos(s, pos + 1) {
            Some((ParseError::ExpectedName, at_end(s, pos + 1)))
        } else if !(pos + 2 < s.len() && s[pos + 2] == TokV::Ident("in"@)) {
            Some((ParseError::ExpectedInAfterName { zip: true }, at_end(s, pos + 2)))
        } else {
            expr_failure(s, pos + 3)
        }
    } else if w == TokV::Ident("group"@) {
        match expr_len(s, pos + 1) {
            None => expr_failure(s, pos + 1),
            Some(n1) => {
                let e1 = pos + 1 + n1;
                if !(e1 < s.len() && s[e1] == TokV::Ident("by"@)) {
                    Some((ParseError::ExpectedBy, e1))
                } else {
                    match expr_len(s, e1 + 1) {
                        None => expr_failure(s, e1 + 1),
                        Some(n2) => {
                            let e2 = e1 + 1 + n2;
                            if !(e2 < s.len() && s[e2] == TokV::Ident("into"@)) {
                                Some((ParseError::ExpectedInto, e2))
                            } else if !name_at_pos(s, e2 + 1) {
                                Some((ParseError::ExpectedName, at_end(s, e2 + 1)))
                            } else {
                                None
                            }
                        },
                    }
                }
            },
        }
    } else {
        Some((ParseError::ExpectedClause, pos))
    }
}

/// The error of a clause lies within the stream.
proof fn lemma_clause_failure_bounds(s: Seq<TokV>, pos: int)
    requires
        0 <= pos < s.len(),
    ensures
        clause_failure(s, pos) matches Some((_, a)) ==> 0 <= a <= s.len(),
{
    reveal(clause_failure);
    reveal(join_failure);
}

/// A stray word begins no clause.
proof fn lemma_stray_failure(s: Seq<TokV>, pos: int)
    requires
        0 <= pos < s.len(),
        is_stray_word(s[pos]),
    ensures
        clause_failure(s, pos) == Some((ParseError::ExpectedClause, pos)),
{
    reveal(clause_failure);
    lemma_words();
}

/// An expression that fits at a position of depth 0 is the one `expr_len`
/// names.
proof fn lemma_expr_len(s: Seq<TokV>, start: int, m: int)
    requires
        depth_at(s, start) == 0,
        expr_fits(s, start, m),
    ensures
        expr_len(s, start) == Some(m),
{
    let m2 = choose|m: int| #[trigger] expr_fits(s, start, m);
    lemma_expr_fits_unique(s, start, m, m2);
}

/// What the parser reports where the middle clauses end at `e`: nothing
/// when `select` follows, `ExpectedClause` at the end of the stream, else
/// the error of the clause at `e`.
pub open spec fn middle_failure(s: Seq<TokV>, e: int) -> Option<(ParseError, int)> {
    if e >= s.len() {
        Some((ParseError::ExpectedClause, s.len() as int))
    } else if s[e] == TokV::Ident("select"@) {
        None
    } else {
        clause_failure(s, e)
    }
}

/// The number of tokens of the well-formed `from` pattern after `from`, if
/// there is one.
pub open spec fn pattern_len(s: Seq<TokV>) -> Option<int> {
    if exists|m: int| #[trigger] pattern_fits(s, 1, m) {
        Some(choose|m: int| #[trigger] pattern_fits(s, 1, m))
    } else {
        None
    }
}

/// The error of the `from` clause of a stream that starts with `from`, if
/// it has one: an empty pattern, no `in` after the pattern, or no
/// well-formed source expression.
#[verifier::opaque]
pub open spec fn from_failure(s: Seq<TokV>) -> Option<(ParseError, int)> {
    if 1 < s.len() && s[1] == TokV::Ident("in"@) {
        Some((ParseError::ExpectedExpression, 1))
    } else {
        match pattern_len(s) {
            None => Some((ParseError::ExpectedIn, s.len() as int)),
            Some(m) => expr_failure(s, 2 + m),
        }
    }
}

/// Errors raised where a keyword was expected; their message also names the
/// identifier found in its place, if there is one.
pub open spec fn names_found_word(k: ParseError) -> bool {
    ||| k == ParseError::ExpectedFrom
    ||| k == ParseError::ExpectedOn
    ||| k == ParseError::ExpectedBy
    ||| k == ParseError::ExpectedInto
}

/// The message of a parse failure in the tokens `s`: the message of its
/// kind, followed, for a missing keyword with an identifier in its place,
/// by ``, found `x` ``.
pub open spec fn failure_text(f: ParseFailure, s: Seq<TokV>) -> Seq<char> {
    if names_found_word(f.kind) && f.at < s.len() {
        match s[f.at as int] {
            TokV::Ident(w) => parse_error_text(f.kind) + ", found `"@ + w + "`"@,
            _ => parse_error_text(f.kind),
        }
    } else {
        parse_error_text(f.kind)
    }
}

impl ParseFailure {
    /// The message shown to the user, for a failure in the tokens `toks`.
    pub fn message(&self, toks: &Vec<Tok>) -> (r: String)
        ensures
            r@ == failure_text(*self, tv(toks@)),
    {
        let mut m = self.kind.message();
        let keyword = match self.kind {
            ParseError::ExpectedFrom | ParseError::ExpectedOn | ParseError::ExpectedBy
            | ParseError::ExpectedInto => true,
            _ => false,
        };
        if keyword && self.at < toks.len() {
            match &toks[self.at] {
                Tok::Ident(w) => {
                    m.append(", found `");
                    m.append(w.as_str());
                    m.append("`");
                },
                _ => {},
            }
        }
        m
    }
}

/// `i`, or `n` when `i` lies past it.
fn at_or_end(i: usize, n: usize) -> (r: usize)
    ensures
        r == if i < n { i } else { n },
{
    if i < n { i } else { n }
}

/// The message of each parse error.
pub open spec fn parse_error_text(e: ParseError) -> Seq<char> {
    match e {
        ParseError::Unbalanced => "unbalanced delimiters in query"@,
        ParseError::ExpectedFrom => "expected `from`"@,
        ParseError::ExpectedIn => "expected `in` after pattern in `from` clause"@,
        ParseError::ExpectedInAfterName { zip } => if zip {
            "expected `in` after name in `zip` clause"@
        } else {
            "expected `in` after name in `join` clause"@
        },
        ParseError::ExpectedName => "expected identifier"@,
        ParseError::ExpectedEq => "expected `=`"@,
        ParseError::ExpectedExpression => "expected an expression"@,
        ParseError::ExpectedOn => "expected `on`"@,
        ParseError::ExpectedBy => "expected `by`"@,
        ParseError::ExpectedInto => "expected `into`"@,
        ParseError::ExpectedClause => "expected `let`, `where`, `orderby`, `join`, `group`, or `select`"@,
        ParseError::JoinNotEquality => "`join` requires an equality condition of the form `on a == b`"@,
        ParseError::TrailingTokens => "unexpected tokens after `select`; `select` must be the last clause"@,
    }
}

impl ParseError {
    /// The message shown to the user.
    pub fn message(&self) -> (r: String)
        ensures
            r@ == parse_error_text(*self),
    {
        match self {
            ParseError::Unbalanced => "unbalanced delimiters in query".to_owned(),
            ParseError::ExpectedFrom => "expected `from`".to_owned(),
            ParseError::ExpectedIn => "expected `in` after pattern in `from` clause".to_owned(),
            ParseError::ExpectedInAfterName { zip } => if *zip {
                "expected `in` after name in `zip` clause".to_owned()
            } else {
                "expected `in` after name in `join` clause".to_owned()
            },
            ParseError::ExpectedName => "expected identifier".to_owned(),
            ParseError::ExpectedEq => "expected `=`".to_owned(),
            ParseError::ExpectedExpression => "expected an expression".to_owned(),
            ParseError::ExpectedOn => "expected `on`".to_owned(),
            ParseError::ExpectedBy => "expected `by`".to_owned(),
            ParseError::ExpectedInto => "expected `into`".to_owned(),
            ParseError::ExpectedClause => "expected `let`, `where`, `orderby`, `join`, `group`, or `select`".to_owned(),
            ParseError::JoinNotEquality => "`join` requires an equality condition of the form `on a == b`".to_owned(),
            ParseError::TrailingTokens => "unexpected tokens after `select`; `select` must be the last clause".to_owned(),
        }
    }
}

// --- what a well-formed query looks like from inside -------------------------------

/// The words that start a middle clause or `select`.
pub open spec fn is_clause_word(w: Seq<char>) -> bool {
    ||| w == "let"@
    ||| w == "where"@
    ||| w == "orderby"@
    ||| w == "join"@
    ||| w == "join_must"@
    ||| w == "join_left"@
    ||| w == "last_must"@
    ||| w == "zip"@
    ||| w == "zip_must"@
    ||| w == "group"@
    ||| w == "select"@
}

pub open spec fn is_clause_start(t: TokV) -> bool {
    t matches TokV::Ident(w) && is_clause_word(w)
}

/// A well-formed expression of `m` tokens starts at `start`, followed by a
/// stop word or the end of the stream.
pub open spec fn expr_fits(s: Seq<TokV>, start: int, m: int) -> bool {
    &&& 0 <= start
    &&& 0 < m
    &&& start + m <= s.len()
    &&& expr_ok(s.subrange(start, start + m))
    &&& (start + m == s.len() || ends_expr(s[start + m]))
}

/// A well-formed `from` pattern of `m` tokens starts at `start`, followed by
/// `in`.
pub open spec fn pattern_fits(s: Seq<TokV>, start: int, m: int) -> bool {
    &&& 0 <= start
    &&& 0 < m
    &&& start + m < s.len()
    &&& pattern_ok(s.subrange(start, start + m))
    &&& s[start + m] == TokV::Ident("in"@)
}

/// A word that starts an operand and is no stop word, such as `limit`: it
/// ends an expression but begins no clause.
pub open spec fn is_stray_word(t: TokV) -> bool {
    starts_operand(t) && !is_stop_tok(t)
}

/// What may follow a clause at `e`: the end of the stream, the first word
/// of a clause or of `select`, or a stray word.
pub open spec fn clause_follower(s: Seq<TokV>, e: int) -> bool {
    e == s.len() || (0 <= e < s.len() && (is_clause_start(s[e]) || is_stray_word(s[e])))
}

/// What may follow the middle clauses at `e`: the end of the stream,
/// `select`, or a stray word.
pub open spec fn middle_end(s: Seq<TokV>, e: int) -> bool {
    e == s.len() || (0 <= e < s.len() && (s[e] == TokV::Ident("select"@) || is_stray_word(s[e])))
}

/// The well-formed clause `c` is written at `pos`, followed by what may
/// follow a clause.
pub open spec fn clause_fits(s: Seq<TokV>, pos: int, c: MiddleClause) -> bool {
    let r = render_clause(c);
    &&& clause_wf(c)
    &&& 0 <= pos
    &&& pos + r.len() <= s.len()
    &&& s.subrange(pos, pos + r.len()) == r
    &&& clause_follower(s, pos + r.len())
}

/// The well-formed clauses `ms` are written at `start`, followed by what
/// may follow a clause.
pub open spec fn clauses_fit(s: Seq<TokV>, start: int, ms: Seq<MiddleClause>) -> bool {
    let r = render_middle(ms);
    &&& forall|i: int| 0 <= i < ms.len() ==> clause_wf(#[trigger] ms[i])
    &&& 0 <= start
    &&& start + r.len() <= s.len()
    &&& s.subrange(start, start + r.len()) == r
    &&& clause_follower(s, start + r.len())
}

/// The well-formed clauses `ms` are written at `start`, followed by
/// `select`, a stray word or the end of the stream.
pub open spec fn middle_fits(s: Seq<TokV>, start: int, ms: Seq<MiddleClause>) -> bool {
    let r = render_middle(ms);
    &&& forall|i: int| 0 <= i < ms.len() ==> clause_wf(#[trigger] ms[i])
    &&& 0 <= start
    &&& start + r.len() <= s.len()
    &&& s.subrange(start, start + r.len()) == r
    &&& middle_end(s, start + r.len())
}

/// The well-formed `from` clause `f` starts the stream, followed by what
/// may follow a clause.
pub open spec fn from_fits(s: Seq<TokV>, f: FromClause) -> bool {
    let r = render_from(f);
    &&& pattern_ok(tv(f.pat@))
    &&& expr_ok(ex(f.source))
    &&& r.len() <= s.len()
    &&& s.subrange(0, r.len() as int) == r
    &&& clause_follower(s, r.len() as int)
}

/// The token is the word of one of the join clauses.
pub open spec fn is_join_word(t: TokV) -> bool {
    ||| t == TokV::Ident("join"@)
    ||| t == TokV::Ident("join_must"@)
    ||| t == TokV::Ident("join_left"@)
    ||| t == TokV::Ident("last_must"@)
}

/// Some well-formed query is written as `s`.
pub open spec fn parsable(s: Seq<TokV>) -> bool {
    exists|q: Query| #[trigger] query_wf(q) && render_query(q) == s
}

/// The lengths and telling letters of the words of the grammar.
proof fn lemma_words()
    ensures
        "let"@.len() == 3,
        "let"@[0] == 'l',
        "where"@.len() == 5,
        "where"@[0] == 'w',
        "orderby"@.len() == 7,
        "orderby"@[0] == 'o',
        "join"@.len() == 4,
        "join"@[0] == 'j',
        "join_must"@.len() == 9,
        "join_must"@[0] == 'j',
        "join_left"@.len() == 9,
        "join_left"@[0] == 'j',
        "last_must"@.len() == 9,
        "last_must"@[0] == 'l',
        "zip"@.len() == 3,
        "zip"@[0] == 'z',
        "zip_must"@.len() == 8,
        "zip_must"@[0] == 'z',
        "group"@.len() == 5,
        "group"@[0] == 'g',
        "select"@.len() == 6,
        "select"@[0] == 's',
        "desc"@.len() == 4,
        "desc"@[0] == 'd',
        "asc"@.len() == 3,
        "asc"@[0] == 'a',
        "on"@.len() == 2,
        "on"@[0] == 'o',
        "by"@.len() == 2,
        "by"@[0] == 'b',
        "into"@.len() == 4,
        "into"@[0] == 'i',
        "in"@.len() == 2,
        "in"@[0] == 'i',
        "from"@.len() == 4,
        "from"@[0] == 'f',
        "join_must"@[5] == 'm',
        "join_left"@[5] == 'l',
{
    reveal_strlit("let");
    reveal_strlit("where");
    reveal_strlit("orderby");
    reveal_strlit("join");
    reveal_strlit("join_must");
    reveal_strlit("join_left");
    reveal_strlit("last_must");
    reveal_strlit("zip");
    reveal_strlit("zip_must");
    reveal_strlit("group");
    reveal_strlit("select");
    reveal_strlit("desc");
    reveal_strlit("asc");
    reveal_strlit("on");
    reveal_strlit("by");
    reveal_strlit("into");
    reveal_strlit("in");
    reveal_strlit("from");
}


proof fn lemma_at(s: Seq<TokV>, pos: int, r: Seq<TokV>, x: int)
    requires
        0 <= pos,
        pos + r.len() <= s.len(),
        s.subrange(pos, pos + r.len()) == r,
        0 <= x < r.len(),
    ensures
        s[pos + x] == r[x],
{
    assert(s.subrange(pos, pos + r.len())[x] == s[pos + x]);
}

proof fn lemma_sub(s: Seq<TokV>, pos: int, r: Seq<TokV>, a: int, b: int)
    requires
        0 <= pos,
        pos + r.len() <= s.len(),
        s.subrange(pos, pos + r.len()) == r,
        0 <= a <= b <= r.len(),
    ensures
        s.subrange(pos + a, pos + b) == r.subrange(a, b),
{
    assert forall|i: int| 0 <= i < b - a implies s.subrange(pos + a, pos + b)[i] == r.subrange(a, b)[i] by {
        lemma_at(s, pos, r, a + i);
    }
    assert(s.subrange(pos + a, pos + b) =~= r.subrange(a, b));
}

/// Where the parts of a well-formed clause written at `pos` lie.
#[verifier::rlimit(80)]
proof fn lemma_clause_layout(s: Seq<TokV>, pos: int, c: MiddleClause)
    requires
        clause_fits(s, pos, c),
    ensures
        match c {
            MiddleClause::Let { name, value, eq_joint } => {
                let v = ex(value).len() as int;
                &&& s[pos] == TokV::Ident("let"@)
                &&& s[pos + 1] == TokV::Ident(name@)
                &&& s[pos + 2] == TokV::Punct('=', eq_joint)
                &&& expr_fits(s, pos + 3, v)
                &&& render_clause(c).len() == 3 + v
            },
            MiddleClause::Where(cond) => {
                &&& s[pos] == TokV::Ident("where"@)
                &&& expr_fits(s, pos + 1, ex(cond).len() as int)
                &&& render_clause(c).len() == 1 + ex(cond).len()
            },
            MiddleClause::OrderBy { key, descending, spelled } => {
                let k = ex(key).len() as int;
                &&& s[pos] == TokV::Ident("orderby"@)
                &&& expr_fits(s, pos + 1, k)
                &&& (spelled ==> s[pos + 1 + k] == TokV::Ident(
                    if descending {
                        "desc"@
                    } else {
                        "asc"@
                    },
                ) && render_clause(c).len() == 2 + k)
                &&& (!spelled ==> clause_follower(s, pos + 1 + k) && render_clause(c).len() == 1 + k)
            },
            MiddleClause::Join(j) => {
                let n1 = ex(j.source).len();
                let n2 = join_cond(*j).len();
                let e2 = pos + 4 + n1 + n2;
                &&& s[pos] == TokV::Ident(join_keyword(j.kind))
                &&& s[pos + 1] == TokV::Ident(j.name@)
                &&& s[pos + 2] == TokV::Ident("in"@)
                &&& expr_fits(s, pos + 3, n1 as int)
                &&& s[pos + 3 + n1] == TokV::Ident("on"@)
                &&& expr_fits(s, pos + 4 + n1, n2 as int)
                &&& join_cond_ok(s.subrange(pos + 4 + n1, e2), ex(j.outer_key).len() as int)
                &&& (j.into_group matches Some(g) ==> s[e2] == TokV::Ident("into"@) && s[e2 + 1]
                    == TokV::Ident(g@) && render_clause(c).len() == 4 + n1 + n2 + 2 && j.kind
                    == JoinKind::Inner)
                &&& (j.into_group is None ==> clause_follower(s, e2) && render_clause(c).len() == 4
                    + n1 + n2)
            },
            MiddleClause::Zip { name, source, must } => {
                let n1 = ex(source).len();
                &&& s[pos] == TokV::Ident(
                    if must {
                        "zip_must"@
                    } else {
                        "zip"@
                    },
                )
                &&& s[pos + 1] == TokV::Ident(name@)
                &&& s[pos + 2] == TokV::Ident("in"@)
                &&& expr_fits(s, pos + 3, n1 as int)
                &&& render_clause(c).len() == 3 + n1
            },
            MiddleClause::GroupBy { element, key, name } => {
                let n1 = ex(element).len();
                let n2 = ex(key).len();
                &&& s[pos] == TokV::Ident("group"@)
                &&& expr_fits(s, pos + 1, n1 as int)
                &&& s[pos + 1 + n1] == TokV::Ident("by"@)
                &&& expr_fits(s, pos + 2 + n1, n2 as int)
                &&& s[pos + 2 + n1 + n2] == TokV::Ident("into"@)
                &&& s[pos + 3 + n1 + n2] == TokV::Ident(name@)
                &&& render_clause(c).len() == 4 + n1 + n2
            },
        },
{
    let r = render_clause(c);
    let e = pos + r.len();
    match c {
        MiddleClause::Let { name, value, eq_joint } => {
            let v = ex(value);
            lemma_at(s, pos, r, 0);
            lemma_at(s, pos, r, 1);
            lemma_at(s, pos, r, 2);
            lemma_sub(s, pos, r, 3, r.len() as int);
            assert(r.subrange(3, r.len() as int) =~= v);
        },
        MiddleClause::Where(cond) => {
            lemma_at(s, pos, r, 0);
            lemma_sub(s, pos, r, 1, r.len() as int);
            assert(r.subrange(1, r.len() as int) =~= ex(cond));
        },
        MiddleClause::OrderBy { key, descending, spelled } => {
            let k = ex(key).len() as int;
            lemma_at(s, pos, r, 0);
            lemma_sub(s, pos, r, 1, 1 + k);
            assert(r.subrange(1, 1 + k) =~= ex(key));
            if spelled {
                lemma_at(s, pos, r, 1 + k);
            }
        },
        MiddleClause::Join(j) => {
            let n1 = ex(j.source).len() as int;
            let n2 = join_cond(*j).len() as int;
            lemma_at(s, pos, r, 0);
            lemma_at(s, pos, r, 1);
            lemma_at(s, pos, r, 2);
            lemma_sub(s, pos, r, 3, 3 + n1);
            assert(r.subrange(3, 3 + n1) =~= ex(j.source));
            lemma_at(s, pos, r, 3 + n1);
            lemma_sub(s, pos, r, 4 + n1, 4 + n1 + n2);
            assert(r.subrange(4 + n1, 4 + n1 + n2) =~= join_cond(*j));
            match j.into_group {
                Some(g) => {
                    lemma_at(s, pos, r, 4 + n1 + n2);
                    lemma_at(s, pos, r, 5 + n1 + n2);
                },
                None => {},
            }
        },
        MiddleClause::Zip { name, source, must } => {
            let n1 = ex(source).len() as int;
            lemma_at(s, pos, r, 0);
            lemma_at(s, pos, r, 1);
            lemma_at(s, pos, r, 2);
            lemma_sub(s, pos, r, 3, 3 + n1);
            assert(r.subrange(3, 3 + n1) =~= ex(source));
        },
        MiddleClause::GroupBy { element, key, name } => {
            let n1 = ex(element).len() as int;
            let n2 = ex(key).len() as int;
            lemma_at(s, pos, r, 0);
            lemma_sub(s, pos, r, 1, 1 + n1);
            assert(r.subrange(1, 1 + n1) =~= ex(element));
            lemma_at(s, pos, r, 1 + n1);
            lemma_sub(s, pos, r, 2 + n1, 2 + n1 + n2);
            assert(r.subrange(2 + n1, 2 + n1 + n2) =~= ex(key));
            lemma_at(s, pos, r, 2 + n1 + n2);
            lemma_at(s, pos, r, 3 + n1 + n2);
        },
    }
}



/// Where the parts of a well-formed `from` clause lie.
proof fn lemma_from_layout(s: Seq<TokV>, f: FromClause)
    requires
        from_fits(s, f),
    ensures
        s[0] == TokV::Ident("from"@),
        pattern_fits(s, 1, tv(f.pat@).len() as int),
        expr_fits(s, 2 + tv(f.pat@).len() as int, ex(f.source).len() as int),
        render_from(f).len() == 2 + tv(f.pat@).len() + ex(f.source).len(),
        tv(f.pat@) == s.subrange(1, 1 + tv(f.pat@).len() as int),
        ex(f.source) == s.subrange(
            2 + tv(f.pat@).len() as int,
            2 + tv(f.pat@).len() + ex(f.source).len() as int,
        ),
{
    let r = render_from(f);
    let m = tv(f.pat@).len() as int;
    let n = ex(f.source).len() as int;
    lemma_at(s, 0, r, 0);
    lemma_sub(s, 0, r, 1, 1 + m);
    assert(r.subrange(1, 1 + m) =~= tv(f.pat@));
    lemma_at(s, 0, r, 1 + m);
    lemma_sub(s, 0, r, 2 + m, 2 + m + n);
    assert(r.subrange(2 + m, 2 + m + n) =~= ex(f.source));
}

// --- balance of written queries ----------------------------------------------------

proof fn lemma_flat_balanced(t: Seq<TokV>)
    requires
        forall|i: int| 0 <= i < t.len() ==> depth_delta(#[trigger] t[i]) == 0,
    ensures
        balanced(t),
{
    assert forall|n: int| 0 <= n <= t.len() implies #[trigger] depth_at(t, n) >= 0 by {
        lemma_depth_flat(t, 0, n);
    }
    lemma_depth_flat(t, 0, t.len() as int);
}

proof fn lemma_clause_balanced(c: MiddleClause)
    requires
        clause_wf(c),
    ensures
        balanced(render_clause(c)),
{
    match c {
        MiddleClause::Let { name, value, eq_joint } => {
            let h = seq![TokV::Ident("let"@), TokV::Ident(name@), TokV::Punct('=', eq_joint)];
            lemma_flat_balanced(h);
            lemma_balanced_concat(h, ex(value));
        },
        MiddleClause::Where(cond) => {
            let h = seq![TokV::Ident("where"@)];
            lemma_flat_balanced(h);
            lemma_balanced_concat(h, ex(cond));
        },
        MiddleClause::OrderBy { key, descending, spelled } => {
            let h = seq![TokV::Ident("orderby"@)];
            lemma_flat_balanced(h);
            lemma_balanced_concat(h, ex(key));
            let t: Seq<TokV> = if spelled {
                seq![TokV::Ident(if descending { "desc"@ } else { "asc"@ })]
            } else {
                Seq::empty()
            };
            lemma_flat_balanced(t);
            lemma_balanced_concat(h + ex(key), t);
        },
        MiddleClause::Join(j) => {
            let h = seq![TokV::Ident(join_keyword(j.kind)), TokV::Ident(j.name@), TokV::Ident("in"@)];
            let on = seq![TokV::Ident("on"@)];
            let t: Seq<TokV> = match j.into_group {
                Some(g) => seq![TokV::Ident("into"@), TokV::Ident(g@)],
                None => Seq::empty(),
            };
            lemma_flat_balanced(h);
            lemma_flat_balanced(on);
            lemma_flat_balanced(t);
            lemma_balanced_concat(h, ex(j.source));
            lemma_balanced_concat(h + ex(j.source), on);
            lemma_balanced_concat(h + ex(j.source) + on, join_cond(*j));
            lemma_balanced_concat(h + ex(j.source) + on + join_cond(*j), t);
        },
        MiddleClause::Zip { name, source, must } => {
            let h = seq![
                TokV::Ident(if must { "zip_must"@ } else { "zip"@ }),
                TokV::Ident(name@),
                TokV::Ident("in"@),
            ];
            lemma_flat_balanced(h);
            lemma_balanced_concat(h, ex(source));
        },
        MiddleClause::GroupBy { element, key, name } => {
            let h = seq![TokV::Ident("group"@)];
            let by = seq![TokV::Ident("by"@)];
            let t = seq![TokV::Ident("into"@), TokV::Ident(name@)];
            lemma_flat_balanced(h);
            lemma_flat_balanced(by);
            lemma_flat_balanced(t);
            lemma_balanced_concat(h, ex(element));
            lemma_balanced_concat(h + ex(element), by);
            lemma_balanced_concat(h + ex(element) + by, ex(key));
            lemma_balanced_concat(h + ex(element) + by + ex(key), t);
        },
    }
}

proof fn lemma_middle_balanced(ms: Seq<MiddleClause>)
    requires
        forall|i: int| 0 <= i < ms.len() ==> clause_wf(#[trigger] ms[i]),
    ensures
        balanced(render_middle(ms)),
    decreases ms.len(),
{
    if ms.len() == 0 {
        lemma_flat_balanced(Seq::<TokV>::empty());
    } else {
        lemma_middle_balanced(ms.drop_last());
        lemma_clause_balanced(ms.last());
        lemma_balanced_concat(render_middle(ms.drop_last()), render_clause(ms.last()));
    }
}

/// A well-formed query is balanced.
proof fn lemma_query_balanced(q: Query)
    requires
        query_wf(q),
    ensures
        balanced(render_query(q)),
{
    let f = seq![TokV::Ident("from"@)];
    let i = seq![TokV::Ident("in"@)];
    let sel = seq![TokV::Ident("select"@)];
    lemma_flat_balanced(f);
    lemma_flat_balanced(i);
    lemma_flat_balanced(sel);
    lemma_balanced_concat(f, tv(q.from.pat@));
    lemma_balanced_concat(f + tv(q.from.pat@), i);
    lemma_balanced_concat(f + tv(q.from.pat@) + i, ex(q.from.source));
    lemma_middle_balanced(q.middle@);
    lemma_balanced_concat(render_from(q.from), render_middle(q.middle@));
    lemma_balanced_concat(render_from(q.from) + render_middle(q.middle@), sel);
    lemma_balanced_concat(render_from(q.from) + render_middle(q.middle@) + sel, ex(q.select.expr));
}

// --- the clauses of a written query ------------------------------------------------

/// A clause is written starting with the word that names it.
proof fn lemma_clause_starts(c: MiddleClause)
    ensures
        render_clause(c).len() > 0,
        is_clause_start(render_clause(c)[0]),
        render_clause(c)[0] != TokV::Ident("select"@),
{
    lemma_words();
}

proof fn lemma_middle_take(ms: Seq<MiddleClause>, j: int)
    requires
        0 <= j < ms.len(),
    ensures
        render_middle(ms.take(j + 1)) == render_middle(ms.take(j)) + render_clause(ms[j]),
{
    assert(ms.take(j + 1).drop_last() =~= ms.take(j));
}

/// The clauses before `j` are written first.
#[verifier::rlimit(30)]
proof fn lemma_middle_prefix(ms: Seq<MiddleClause>, j: int)
    requires
        0 <= j <= ms.len(),
    ensures
        render_middle(ms.take(j)).len() <= render_middle(ms).len(),
        render_middle(ms).subrange(0, render_middle(ms.take(j)).len() as int) == render_middle(
            ms.take(j),
        ),
    decreases ms.len() - j,
{
    if j == ms.len() {
        assert(ms.take(j) =~= ms);
        assert(render_middle(ms).subrange(0, render_middle(ms).len() as int) =~= render_middle(ms));
    } else {
        lemma_middle_prefix(ms, j + 1);
        lemma_middle_take(ms, j);
        let big = render_middle(ms);
        let a = render_middle(ms.take(j));
        let b = render_middle(ms.take(j + 1));
        assert(big.subrange(0, a.len() as int) =~= b.subrange(0, a.len() as int));
        assert(b.subrange(0, a.len() as int) =~= a);
    }
}

// --- the grammar is unambiguous ------------------------------------------------------

proof fn lemma_expr_fits_unique(s: Seq<TokV>, start: int, m1: int, m2: int)
    requires
        expr_fits(s, start, m1),
        expr_fits(s, start, m2),
        depth_at(s, start) == 0,
    ensures
        m1 == m2,
{
    lemma_expr_fits_stop(s, start, m1);
    lemma_expr_fits_stop(s, start, m2);
    if m1 < m2 {
        assert(stop_abs(s, start + m1));
    }
    if m2 < m1 {
        assert(stop_abs(s, start + m2));
    }
}

proof fn lemma_pattern_fits_unique(s: Seq<TokV>, start: int, m1: int, m2: int)
    requires
        pattern_fits(s, start, m1),
        pattern_fits(s, start, m2),
        depth_at(s, start) == 0,
    ensures
        m1 == m2,
{
    if m1 != m2 {
        let (a, b) = if m1 < m2 {
            (m1, m2)
        } else {
            (m2, m1)
        };
        let pa = s.subrange(start, start + a);
        let pb = s.subrange(start, start + b);
        lemma_depth_sub(s, start, start + a, a);
        lemma_depth_sub(s, start, start + b, a);
        assert(pb[a] == s[start + a]);
    }
}

/// Expressions and names that follow each other in a clause start at depth 0.
proof fn lemma_depth_after_expr(s: Seq<TokV>, a: int, m: int)
    requires
        expr_fits(s, a, m),
        depth_at(s, a) == 0,
    ensures
        depth_at(s, a + m) == 0,
{
    lemma_depth_sub(s, a, a + m, m);
}

/// Two well-formed clauses written at the same place are written alike.
#[verifier::rlimit(100)]
proof fn lemma_clause_unique(s: Seq<TokV>, pos: int, c1: MiddleClause, c2: MiddleClause)
    requires
        clause_fits(s, pos, c1),
        clause_fits(s, pos, c2),
        depth_at(s, pos) == 0,
    ensures
        render_clause(c1) == render_clause(c2),
{
    lemma_words();
    lemma_clause_layout(s, pos, c1);
    lemma_clause_layout(s, pos, c2);
    let l1 = render_clause(c1).len() as int;
    let l2 = render_clause(c2).len() as int;
    match c1 {
        MiddleClause::Let { value: v1, .. } => match c2 {
            MiddleClause::Let { value: v2, .. } => {
                lemma_depth_flat(s, pos, pos + 3);
                lemma_expr_fits_unique(s, pos + 3, ex(v1).len() as int, ex(v2).len() as int);
            },
            _ => {},
        },
        MiddleClause::Where(e1) => match c2 {
            MiddleClause::Where(e2) => {
                lemma_depth_flat(s, pos, pos + 1);
                lemma_expr_fits_unique(s, pos + 1, ex(e1).len() as int, ex(e2).len() as int);
            },
            _ => {},
        },
        MiddleClause::OrderBy { key: k1, .. } => match c2 {
            MiddleClause::OrderBy { key: k2, .. } => {
                lemma_depth_flat(s, pos, pos + 1);
                lemma_expr_fits_unique(s, pos + 1, ex(k1).len() as int, ex(k2).len() as int);
            },
            _ => {},
        },
        MiddleClause::Join(j1) => match c2 {
            MiddleClause::Join(j2) => {
                let a1 = ex(j1.source).len() as int;
                let a2 = ex(j2.source).len() as int;
                lemma_depth_flat(s, pos, pos + 3);
                lemma_expr_fits_unique(s, pos + 3, a1, a2);
                lemma_depth_after_expr(s, pos + 3, a1);
                lemma_depth_flat(s, pos + 3 + a1, pos + 4 + a1);
                lemma_expr_fits_unique(
                    s,
                    pos + 4 + a1,
                    join_cond(*j1).len() as int,
                    join_cond(*j2).len() as int,
                );
            },
            _ => {},
        },
        MiddleClause::Zip { source: z1, .. } => match c2 {
            MiddleClause::Zip { source: z2, .. } => {
                lemma_depth_flat(s, pos, pos + 3);
                lemma_expr_fits_unique(s, pos + 3, ex(z1).len() as int, ex(z2).len() as int);
            },
            _ => {},
        },
        MiddleClause::GroupBy { element: e1, key: k1, .. } => match c2 {
            MiddleClause::GroupBy { element: e2, key: k2, .. } => {
                let a1 = ex(e1).len() as int;
                lemma_depth_flat(s, pos, pos + 1);
                lemma_expr_fits_unique(s, pos + 1, a1, ex(e2).len() as int);
                lemma_depth_after_expr(s, pos + 1, a1);
                lemma_depth_flat(s, pos + 1 + a1, pos + 2 + a1);
                lemma_expr_fits_unique(s, pos + 2 + a1, ex(k1).len() as int, ex(k2).len() as int);
            },
            _ => {},
        },
    }
    assert(l1 == l2);
}

/// Clause `j` of well-formed clauses written at `start` is written right
/// after the clauses before it, at depth 0.
proof fn lemma_middle_clause_fits(s: Seq<TokV>, start: int, ms: Seq<MiddleClause>, j: int)
    requires
        clauses_fit(s, start, ms),
        depth_at(s, start) == 0,
        0 <= j < ms.len(),
    ensures
        clause_fits(s, start + render_middle(ms.take(j)).len(), ms[j]),
        depth_at(s, start + render_middle(ms.take(j)).len()) == 0,
{
    let rm = render_middle(ms);
    lemma_middle_prefix(ms, j);
    lemma_middle_take(ms, j);
    lemma_middle_prefix(ms, j + 1);
    let a = render_middle(ms.take(j)).len() as int;
    let c = ms[j];
    let rc = render_clause(c);
    let b = render_middle(ms.take(j + 1));
    lemma_sub(s, start, rm, a, a + rc.len());
    assert(rm.subrange(a, a + rc.len()) =~= rc) by {
        assert(b.subrange(a, a + rc.len()) =~= rc);
        assert forall|x: int| 0 <= x < rc.len() implies rm.subrange(a, a + rc.len())[x] == rc[x] by {
            assert(rm.subrange(0, b.len() as int)[a + x] == b[a + x]);
        }
    }
    if j + 1 < ms.len() {
        lemma_middle_take(ms, j + 1);
        lemma_middle_prefix(ms, j + 2);
        let bb = render_middle(ms.take(j + 2));
        lemma_clause_starts(ms[j + 1]);
        assert(rm[b.len() as int] == bb[b.len() as int]) by {
            assert(rm.subrange(0, bb.len() as int)[b.len() as int] == bb[b.len() as int]);
        }
        lemma_at(s, start, rm, b.len() as int);
    } else {
        assert(ms.take(j + 1) =~= ms);
    }
    assert(ms.take(j) =~= ms.take(j));
    let pre = ms.take(j);
    assert forall|i: int| 0 <= i < pre.len() implies clause_wf(#[trigger] pre[i]) by {
        assert(pre[i] == ms[i]);
    }
    lemma_middle_balanced(pre);
    lemma_sub(s, start, rm, 0, a);
    assert(rm.subrange(0, a) =~= render_middle(pre));
    lemma_depth_sub(s, start, start + a, a);
}

proof fn lemma_middle_unique_from(
    s: Seq<TokV>,
    start: int,
    ms1: Seq<MiddleClause>,
    ms2: Seq<MiddleClause>,
    j: int,
)
    requires
        middle_fits(s, start, ms1),
        middle_fits(s, start, ms2),
        depth_at(s, start) == 0,
        0 <= j <= ms1.len(),
        j <= ms2.len(),
        render_middle(ms1.take(j)) == render_middle(ms2.take(j)),
        forall|i: int| 0 <= i < j ==> render_clause(#[trigger] ms1[i]) == render_clause(ms2[i]),
    ensures
        ms1.len() == ms2.len(),
        forall|i: int| 0 <= i < ms1.len() ==> render_clause(#[trigger] ms1[i]) == render_clause(ms2[i]),
    decreases ms1.len() - j,
{
    lemma_words();
    let pos = start + render_middle(ms1.take(j)).len();
    if j < ms1.len() && j < ms2.len() {
        lemma_middle_clause_fits(s, start, ms1, j);
        lemma_middle_clause_fits(s, start, ms2, j);
        lemma_clause_unique(s, pos, ms1[j], ms2[j]);
        lemma_middle_take(ms1, j);
        lemma_middle_take(ms2, j);
        lemma_middle_unique_from(s, start, ms1, ms2, j + 1);
    } else if j < ms1.len() {
        assert(ms2.take(j) =~= ms2);
        lemma_middle_clause_fits(s, start, ms1, j);
        lemma_clause_starts(ms1[j]);
        lemma_at(s, pos, render_clause(ms1[j]), 0);
    } else if j < ms2.len() {
        assert(ms1.take(j) =~= ms1);
        lemma_middle_clause_fits(s, start, ms2, j);
        lemma_clause_starts(ms2[j]);
        lemma_at(s, pos, render_clause(ms2[j]), 0);
    }
}

/// Two queries have the same parts, written alike.
pub open spec fn same_parts(q1: Query, q2: Query) -> bool {
    &&& tv(q1.from.pat@) == tv(q2.from.pat@)
    &&& ex(q1.from.source) == ex(q2.from.source)
    &&& q1.middle@.len() == q2.middle@.len()
    &&& forall|i: int|
        0 <= i < q1.middle@.len() ==> render_clause(#[trigger] q1.middle@[i]) == render_clause(
            q2.middle@[i],
        )
    &&& ex(q1.select.expr) == ex(q2.select.expr)
}

/// The parts of the well-formed query `q`, written at the start of `s`, lie
/// where the parser looks for them.
spec fn query_fits(s: Seq<TokV>, q: Query) -> bool {
    let f = render_from(q.from).len() as int;
    let b = render_middle(q.middle@).len() as int;
    &&& render_query(q).len() <= s.len()
    &&& s.subrange(0, render_query(q).len() as int) == render_query(q)
    &&& from_fits(s, q.from)
    &&& middle_fits(s, f, q.middle@)
    &&& f + b < s.len()
    &&& s[f + b] == TokV::Ident("select"@)
    &&& expr_fits(s, f + b + 1, ex(q.select.expr).len() as int)
}

/// Two `from` clauses that fit at the start of `s` end at the same place,
/// at depth 0.
proof fn lemma_from_alike(s: Seq<TokV>, f1: FromClause, f2: FromClause)
    requires
        from_fits(s, f1),
        from_fits(s, f2),
    ensures
        render_from(f1).len() == render_from(f2).len(),
        depth_at(s, render_from(f1).len() as int) == 0,
{
    lemma_words();
    lemma_from_layout(s, f1);
    lemma_from_layout(s, f2);
    let m1 = tv(f1.pat@).len() as int;
    let m2 = tv(f2.pat@).len() as int;
    lemma_depth_flat(s, 0, 1);
    lemma_pattern_fits_unique(s, 1, m1, m2);
    lemma_depth_sub(s, 1, 1 + m1, m1);
    lemma_depth_flat(s, 1 + m1, 2 + m1);
    lemma_expr_fits_unique(s, 2 + m1, ex(f1.source).len() as int, ex(f2.source).len() as int);
    lemma_depth_after_expr(s, 2 + m1, ex(f1.source).len() as int);
}

/// A well-formed clause written at a position of depth 0 has no error.
#[verifier::rlimit(80)]
proof fn lemma_fits_no_failure(s: Seq<TokV>, pos: int, c: MiddleClause)
    requires
        clause_fits(s, pos, c),
        depth_at(s, pos) == 0,
    ensures
        pos < s.len(),
        s[pos] != TokV::Ident("select"@),
        clause_failure(s, pos) is None,
{
    reveal(clause_failure);
    reveal(join_failure);
    lemma_words();
    lemma_clause_layout(s, pos, c);
    lemma_clause_starts(c);
    lemma_at(s, pos, render_clause(c), 0);
    match c {
        MiddleClause::Let { value, .. } => {
            lemma_depth_flat(s, pos, pos + 3);
            lemma_expr_len(s, pos + 3, ex(value).len() as int);
        },
        MiddleClause::Where(cond) => {
            lemma_depth_flat(s, pos, pos + 1);
            lemma_expr_len(s, pos + 1, ex(cond).len() as int);
        },
        MiddleClause::OrderBy { key, .. } => {
            lemma_depth_flat(s, pos, pos + 1);
            lemma_expr_len(s, pos + 1, ex(key).len() as int);
        },
        MiddleClause::Join(j) => {
            let n1 = ex(j.source).len() as int;
            let n2 = join_cond(*j).len() as int;
            lemma_depth_flat(s, pos, pos + 3);
            lemma_expr_len(s, pos + 3, n1);
            lemma_depth_after_expr(s, pos + 3, n1);
            lemma_depth_flat(s, pos + 3 + n1, pos + 4 + n1);
            lemma_expr_len(s, pos + 4 + n1, n2);
            assert(join_cond_ok(s.subrange(pos + 4 + n1, pos + 4 + n1 + n2), ex(j.outer_key).len() as int));
        },
        MiddleClause::Zip { source, .. } => {
            lemma_depth_flat(s, pos, pos + 3);
            lemma_expr_len(s, pos + 3, ex(source).len() as int);
        },
        MiddleClause::GroupBy { element, key, .. } => {
            let n1 = ex(element).len() as int;
            lemma_depth_flat(s, pos, pos + 1);
            lemma_expr_len(s, pos + 1, n1);
            lemma_depth_after_expr(s, pos + 1, n1);
            lemma_depth_flat(s, pos + 1 + n1, pos + 2 + n1);
            lemma_expr_len(s, pos + 2 + n1, ex(key).len() as int);
        },
    }
}

/// Where well-formed clauses `ms1` are followed by `select`, a stray word or
/// the end, clauses `ms2` written at the same place either end where `ms1`
/// ends or are followed by a clause without error.
#[verifier::rlimit(80)]
proof fn lemma_no_failure_after(
    s: Seq<TokV>,
    start: int,
    ms1: Seq<MiddleClause>,
    ms2: Seq<MiddleClause>,
    j: int,
)
    requires
        middle_fits(s, start, ms1),
        clauses_fit(s, start, ms2),
        depth_at(s, start) == 0,
        0 <= j <= ms1.len(),
        j <= ms2.len(),
        render_middle(ms1.take(j)) == render_middle(ms2.take(j)),
    ensures
        render_middle(ms1).len() == render_middle(ms2).len() || middle_failure(
            s,
            start + render_middle(ms2).len(),
        ) is None,
    decreases ms1.len() - j,
{
    lemma_words();
    let pos = start + render_middle(ms1.take(j)).len();
    if j < ms1.len() && j < ms2.len() {
        lemma_middle_clause_fits(s, start, ms1, j);
        lemma_middle_clause_fits(s, start, ms2, j);
        lemma_clause_unique(s, pos, ms1[j], ms2[j]);
        lemma_middle_take(ms1, j);
        lemma_middle_take(ms2, j);
        lemma_no_failure_after(s, start, ms1, ms2, j + 1);
    } else if j < ms1.len() {
        assert(ms2.take(j) =~= ms2);
        lemma_middle_clause_fits(s, start, ms1, j);
        lemma_fits_no_failure(s, pos, ms1[j]);
    } else if j < ms2.len() {
        assert(ms1.take(j) =~= ms1);
        lemma_middle_clause_fits(s, start, ms2, j);
        lemma_clause_starts(ms2[j]);
        lemma_at(s, pos, render_clause(ms2[j]), 0);
    } else {
        assert(ms1.take(j) =~= ms1);
        assert(ms2.take(j) =~= ms2);
    }
}

/// Two sequences of clauses written at `start`, each followed by a clause
/// with an error or by the end, end at the same place.
#[verifier::rlimit(80)]
proof fn lemma_failure_ends_alike(
    s: Seq<TokV>,
    start: int,
    ms1: Seq<MiddleClause>,
    ms2: Seq<MiddleClause>,
    j: int,
)
    requires
        clauses_fit(s, start, ms1),
        clauses_fit(s, start, ms2),
        middle_failure(s, start + render_middle(ms1).len()) is Some,
        middle_failure(s, start + render_middle(ms2).len()) is Some,
        depth_at(s, start) == 0,
        0 <= j <= ms1.len(),
        j <= ms2.len(),
        render_middle(ms1.take(j)) == render_middle(ms2.take(j)),
    ensures
        render_middle(ms1).len() == render_middle(ms2).len(),
    decreases ms1.len() - j,
{
    lemma_words();
    let pos = start + render_middle(ms1.take(j)).len();
    if j < ms1.len() && j < ms2.len() {
        lemma_middle_clause_fits(s, start, ms1, j);
        lemma_middle_clause_fits(s, start, ms2, j);
        lemma_clause_unique(s, pos, ms1[j], ms2[j]);
        lemma_middle_take(ms1, j);
        lemma_middle_take(ms2, j);
        lemma_failure_ends_alike(s, start, ms1, ms2, j + 1);
    } else if j < ms1.len() {
        assert(ms2.take(j) =~= ms2);
        lemma_middle_clause_fits(s, start, ms1, j);
        lemma_fits_no_failure(s, pos, ms1[j]);
    } else if j < ms2.len() {
        assert(ms1.take(j) =~= ms1);
        lemma_middle_clause_fits(s, start, ms2, j);
        lemma_fits_no_failure(s, pos, ms2[j]);
    } else {
        assert(ms1.take(j) =~= ms1);
        assert(ms2.take(j) =~= ms2);
    }
}

/// A well-formed `from` clause and well-formed middle clauses are written
/// at the start of `s`, and where they end the parser reports `kind` at
/// `at`: `ExpectedClause` at the end of the stream or at a word that begins
/// no clause, else the error of the clause written there (see
/// `clause_failure`).
pub open spec fn fails_after_clauses(s: Seq<TokV>, kind: ParseError, at: int) -> bool {
    exists|f: FromClause, ms: Seq<MiddleClause>|
        #![trigger from_fits(s, f), clauses_fit(s, render_from(f).len() as int, ms)]
        from_fits(s, f) && clauses_fit(s, render_from(f).len() as int, ms) && middle_failure(
            s,
            (render_from(f).len() + render_middle(ms).len()) as int,
        ) == Some((kind, at))
}

/// The error after the clauses is one error.
proof fn lemma_fails_after_unique(s: Seq<TokV>, k1: ParseError, a1: int, k2: ParseError, a2: int)
    requires
        fails_after_clauses(s, k1, a1),
        fails_after_clauses(s, k2, a2),
    ensures
        k1 == k2 && a1 == a2,
{
    let (f1, ms1) = choose|f: FromClause, ms: Seq<MiddleClause>|
        #![trigger from_fits(s, f), clauses_fit(s, render_from(f).len() as int, ms)]
        from_fits(s, f) && clauses_fit(s, render_from(f).len() as int, ms) && middle_failure(
            s,
            (render_from(f).len() + render_middle(ms).len()) as int,
        ) == Some((k1, a1));
    let (f2, ms2) = choose|f: FromClause, ms: Seq<MiddleClause>|
        #![trigger from_fits(s, f), clauses_fit(s, render_from(f).len() as int, ms)]
        from_fits(s, f) && clauses_fit(s, render_from(f).len() as int, ms) && middle_failure(
            s,
            (render_from(f).len() + render_middle(ms).len()) as int,
        ) == Some((k2, a2));
    lemma_from_alike(s, f1, f2);
    let a = render_from(f1).len() as int;
    assert(ms1.take(0) =~= Seq::<MiddleClause>::empty());
    assert(ms2.take(0) =~= Seq::<MiddleClause>::empty());
    lemma_failure_ends_alike(s, a, ms1, ms2, 0);
}

/// Two `from` clauses and middle clauses, each followed by `select`, a stray
/// word or the end, written at the start of `s` end at the same place.
proof fn lemma_prefix_alike(
    s: Seq<TokV>,
    f1: FromClause,
    ms1: Seq<MiddleClause>,
    f2: FromClause,
    ms2: Seq<MiddleClause>,
)
    requires
        from_fits(s, f1),
        from_fits(s, f2),
        middle_fits(s, render_from(f1).len() as int, ms1),
        middle_fits(s, render_from(f2).len() as int, ms2),
    ensures
        render_from(f1).len() == render_from(f2).len(),
        render_middle(ms1).len() == render_middle(ms2).len(),
{
    lemma_from_alike(s, f1, f2);
    let f = render_from(f1).len() as int;
    assert(ms1.take(0) =~= Seq::<MiddleClause>::empty());
    assert(ms2.take(0) =~= Seq::<MiddleClause>::empty());
    lemma_middle_unique_from(s, f, ms1, ms2, 0);
    assert(ms1.take(ms1.len() as int) =~= ms1);
    assert(ms2.take(ms2.len() as int) =~= ms2);
    let n = ms1.len() as int;
    assert forall|j: int| 0 <= j <= n implies render_middle(ms1.take(j)) == render_middle(ms2.take(j)) by {
        lemma_middle_takes_alike(ms1, ms2, j);
    }
}

/// A well-formed `from` clause and middle clauses are written at the start
/// of `s`, followed by `select` and no well-formed expression; the parser
/// reports `ExpectedExpression` at `at`.
pub open spec fn fails_at_select(s: Seq<TokV>, at: int) -> bool {
    exists|f: FromClause, ms: Seq<MiddleClause>|
        #![trigger from_fits(s, f), middle_fits(s, render_from(f).len() as int, ms)]
        from_fits(s, f) && middle_fits(s, render_from(f).len() as int, ms) && {
            let e = (render_from(f).len() + render_middle(ms).len()) as int;
            &&& e < s.len()
            &&& s[e] == TokV::Ident("select"@)
            &&& expr_len(s, e + 1) is None
            &&& at == expr_fail_at(s, e + 1)
        }
}

/// A missing expression after `select` is reported at one place.
proof fn lemma_select_unique(s: Seq<TokV>, a1: int, a2: int)
    requires
        fails_at_select(s, a1),
        fails_at_select(s, a2),
    ensures
        a1 == a2,
{
    let (f1, ms1) = choose|f: FromClause, ms: Seq<MiddleClause>|
        #![trigger from_fits(s, f), middle_fits(s, render_from(f).len() as int, ms)]
        from_fits(s, f) && middle_fits(s, render_from(f).len() as int, ms) && {
            let e = (render_from(f).len() + render_middle(ms).len()) as int;
            &&& e < s.len()
            &&& s[e] == TokV::Ident("select"@)
            &&& expr_len(s, e + 1) is None
            &&& a1 == expr_fail_at(s, e + 1)
        };
    let (f2, ms2) = choose|f: FromClause, ms: Seq<MiddleClause>|
        #![trigger from_fits(s, f), middle_fits(s, render_from(f).len() as int, ms)]
        from_fits(s, f) && middle_fits(s, render_from(f).len() as int, ms) && {
            let e = (render_from(f).len() + render_middle(ms).len()) as int;
            &&& e < s.len()
            &&& s[e] == TokV::Ident("select"@)
            &&& expr_len(s, e + 1) is None
            &&& a2 == expr_fail_at(s, e + 1)
        };
    lemma_prefix_alike(s, f1, ms1, f2, ms2);
}

/// A stream that starts with a well-formed query does not miss the
/// expression after its `select`.
proof fn lemma_select_not_query(s: Seq<TokV>, q: Query, a: int)
    requires
        query_wf(q),
        query_fits(s, q),
    ensures
        !fails_at_select(s, a),
{
    if fails_at_select(s, a) {
        let (f, ms) = choose|f: FromClause, ms: Seq<MiddleClause>|
        #![trigger from_fits(s, f), middle_fits(s, render_from(f).len() as int, ms)]
        from_fits(s, f) && middle_fits(s, render_from(f).len() as int, ms) && {
            let e = (render_from(f).len() + render_middle(ms).len()) as int;
            &&& e < s.len()
            &&& s[e] == TokV::Ident("select"@)
            &&& expr_len(s, e + 1) is None
            &&& a == expr_fail_at(s, e + 1)
        };
        lemma_prefix_alike(s, q.from, q.middle@, f, ms);
    }
}

/// A stream with an error after its clauses does not reach `select`.
proof fn lemma_select_not_failing(s: Seq<TokV>, k: ParseError, b: int, a: int)
    requires
        fails_after_clauses(s, k, b),
    ensures
        !fails_at_select(s, a),
{
    if fails_at_select(s, a) {
        let (f1, ms1) = choose|f: FromClause, ms: Seq<MiddleClause>|
        #![trigger from_fits(s, f), middle_fits(s, render_from(f).len() as int, ms)]
        from_fits(s, f) && middle_fits(s, render_from(f).len() as int, ms) && {
            let e = (render_from(f).len() + render_middle(ms).len()) as int;
            &&& e < s.len()
            &&& s[e] == TokV::Ident("select"@)
            &&& expr_len(s, e + 1) is None
            &&& a == expr_fail_at(s, e + 1)
        };
        let (f2, ms2) = choose|f: FromClause, ms: Seq<MiddleClause>|
        #![trigger from_fits(s, f), clauses_fit(s, render_from(f).len() as int, ms)]
        from_fits(s, f) && clauses_fit(s, render_from(f).len() as int, ms) && middle_failure(
            s,
            (render_from(f).len() + render_middle(ms).len()) as int,
        ) == Some((k, b));
        lemma_from_alike(s, f1, f2);
        let st = render_from(f1).len() as int;
        assert(ms1.take(0) =~= Seq::<MiddleClause>::empty());
        assert(ms2.take(0) =~= Seq::<MiddleClause>::empty());
        lemma_no_failure_after(s, st, ms1, ms2, 0);
    }
}

/// The error of the `from` clause lies within the stream.
proof fn lemma_from_failure_bounds(s: Seq<TokV>)
    ensures
        from_failure(s) matches Some((_, a)) ==> 0 <= a <= s.len(),
{
    reveal(from_failure);
}

/// A stream that starts with a well-formed query has no error after its
/// clauses.
proof fn lemma_query_not_failing(s: Seq<TokV>, q: Query, k: ParseError, at: int)
    requires
        query_wf(q),
        query_fits(s, q),
    ensures
        !fails_after_clauses(s, k, at),
{
    if fails_after_clauses(s, k, at) {
        let (f, ms) = choose|f: FromClause, ms: Seq<MiddleClause>|
            #![trigger from_fits(s, f), clauses_fit(s, render_from(f).len() as int, ms)]
            from_fits(s, f) && clauses_fit(s, render_from(f).len() as int, ms) && middle_failure(
                s,
                (render_from(f).len() + render_middle(ms).len()) as int,
            ) == Some((k, at));
        lemma_from_alike(s, q.from, f);
        let a = render_from(f).len() as int;
        assert(q.middle@.take(0) =~= Seq::<MiddleClause>::empty());
        assert(ms.take(0) =~= Seq::<MiddleClause>::empty());
        lemma_no_failure_after(s, a, q.middle@, ms, 0);
    }
}

/// Two well-formed queries that both fit at the start of `s` have the same
/// parts and the same length.
#[verifier::rlimit(40)]
proof fn lemma_fits_alike(s: Seq<TokV>, q1: Query, q2: Query)
    requires
        query_wf(q1),
        query_wf(q2),
        query_fits(s, q1),
        query_fits(s, q2),
    ensures
        same_parts(q1, q2),
        render_query(q1).len() == render_query(q2).len(),
{
    lemma_words();
    lemma_from_layout(s, q1.from);
    lemma_from_layout(s, q2.from);
    let m1 = tv(q1.from.pat@).len() as int;
    let m2 = tv(q2.from.pat@).len() as int;
    lemma_depth_flat(s, 0, 1);
    lemma_pattern_fits_unique(s, 1, m1, m2);
    lemma_depth_sub(s, 1, 1 + m1, m1);
    lemma_depth_flat(s, 1 + m1, 2 + m1);
    lemma_expr_fits_unique(
        s,
        2 + m1,
        ex(q1.from.source).len() as int,
        ex(q2.from.source).len() as int,
    );
    let f = render_from(q1.from).len() as int;
    lemma_depth_after_expr(s, 2 + m1, ex(q1.from.source).len() as int);
    assert(q1.middle@.take(0) =~= Seq::<MiddleClause>::empty());
    assert(q2.middle@.take(0) =~= Seq::<MiddleClause>::empty());
    lemma_middle_unique_from(s, f, q1.middle@, q2.middle@, 0);
    assert(q1.middle@.take(q1.middle@.len() as int) =~= q1.middle@);
    assert(q2.middle@.take(q2.middle@.len() as int) =~= q2.middle@);
    assert(render_middle(q1.middle@).len() == render_middle(q2.middle@).len()) by {
        let n = q1.middle@.len() as int;
        assert forall|j: int| 0 <= j <= n implies render_middle(q1.middle@.take(j)) == render_middle(
            q2.middle@.take(j),
        ) by {
            lemma_middle_takes_alike(q1.middle@, q2.middle@, j);
        }
    }
    let b = render_middle(q1.middle@).len() as int;
    lemma_middle_balanced(q1.middle@);
    lemma_depth_sub(s, f, f + b, b);
    lemma_depth_flat(s, f + b, f + b + 1);
    let e1 = ex(q1.select.expr).len() as int;
    let e2 = ex(q2.select.expr).len() as int;
    lemma_expr_fits_unique(s, f + b + 1, e1, e2);
    let r1 = render_query(q1);
    let r2 = render_query(q2);
    assert(r1.subrange(f + b + 1, r1.len() as int) =~= ex(q1.select.expr));
    assert(r2.subrange(f + b + 1, r2.len() as int) =~= ex(q2.select.expr));
    lemma_sub(s, 0, r1, f + b + 1, r1.len() as int);
    lemma_sub(s, 0, r2, f + b + 1, r2.len() as int);
}

/// The grammar is unambiguous: two well-formed queries written with the
/// same tokens have the same pattern, source, clauses and projection.
pub proof fn law_parse_is_unambiguous(q1: Query, q2: Query)
    requires
        query_wf(q1),
        query_wf(q2),
        render_query(q1) == render_query(q2),
    ensures
        same_parts(q1, q2),
{
    let s = render_query(q1);
    lemma_query_complete(s, q1);
    lemma_query_complete(s, q2);
    lemma_fits_alike(s, q1, q2);
}

/// `s` starts with a well-formed query, and what follows that query begins
/// with a word that ends an expression.
pub open spec fn query_then_more(s: Seq<TokV>) -> bool {
    exists|q: Query|
        #[trigger] query_wf(q) && render_query(q).len() < s.len() && s.subrange(
            0,
            render_query(q).len() as int,
        ) == render_query(q) && ends_expr(s[render_query(q).len() as int])
}

/// A well-formed query is written as the first `at` tokens of `s`, and a
/// stop word or another operand follows it.
pub open spec fn more_at(s: Seq<TokV>, at: int) -> bool {
    exists|q: Query|
        #[trigger] query_wf(q) && render_query(q).len() == at && at < s.len() && s.subrange(0, at)
            == render_query(q) && ends_expr(s[at])
}

/// A stream that is a well-formed query does not also start with one that
/// is followed by more words.
proof fn lemma_whole_not_more(s: Seq<TokV>, q1: Query)
    requires
        query_wf(q1),
        render_query(q1) == s,
    ensures
        !query_then_more(s),
{
    if query_then_more(s) {
        let q2 = choose|q: Query|
            #[trigger] query_wf(q) && render_query(q).len() < s.len() && s.subrange(
                0,
                render_query(q).len() as int,
            ) == render_query(q) && ends_expr(s[render_query(q).len() as int]);
        lemma_query_complete(s, q1);
        lemma_query_fits(s, q2);
        lemma_fits_alike(s, q1, q2);
    }
}

proof fn lemma_middle_takes_alike(ms1: Seq<MiddleClause>, ms2: Seq<MiddleClause>, j: int)
    requires
        ms1.len() == ms2.len(),
        forall|i: int| 0 <= i < ms1.len() ==> render_clause(#[trigger] ms1[i]) == render_clause(ms2[i]),
        0 <= j <= ms1.len(),
    ensures
        render_middle(ms1.take(j)) == render_middle(ms2.take(j)),
    decreases j,
{
    if j > 0 {
        lemma_middle_takes_alike(ms1, ms2, j - 1);
        lemma_middle_take(ms1, j - 1);
        lemma_middle_take(ms2, j - 1);
    } else {
        assert(ms1.take(0) =~= Seq::<MiddleClause>::empty());
        assert(ms2.take(0) =~= Seq::<MiddleClause>::empty());
    }
}

/// A well-formed expression ends at the first stop position after its start.
proof fn lemma_expr_fits_stop(s: Seq<TokV>, start: int, m: int)
    requires
        expr_fits(s, start, m),
        depth_at(s, start) == 0,
    ensures
        forall|k: int| start < k < start + m ==> !#[trigger] stop_abs(s, k),
        start + m < s.len() ==> stop_abs(s, start + m),
        operand_end(s[start + m - 1]),
{
    let es = s.subrange(start, start + m);
    assert forall|k: int| start < k < start + m implies !#[trigger] stop_abs(s, k) by {
        let i = k - start;
        lemma_depth_sub(s, start, start + m, i);
        assert(es[i] == s[k]);
        assert(es[i - 1] == s[k - 1]);
        assert(!boundary(es, i));
    }
    lemma_depth_sub(s, start, start + m, m);
    assert(es[m - 1] == s[start + m - 1]);
}

// --- depth facts --------------------------------------------------------------

pub proof fn lemma_depth_bound(s: Seq<TokV>, n: int)
    requires
        0 <= n,
    ensures
        -n <= depth_at(s, n) <= n,
    decreases n,
{
    if n > 0 {
        lemma_depth_bound(s, n - 1);
    }
}

/// Tokens that open or close no group leave the depth unchanged.
pub proof fn lemma_depth_flat(s: Seq<TokV>, a: int, b: int)
    requires
        0 <= a <= b <= s.len(),
        forall|i: int| a <= i < b ==> depth_delta(#[trigger] s[i]) == 0,
    ensures
        depth_at(s, b) == depth_at(s, a),
    decreases b - a,
{
    if b > a {
        lemma_depth_flat(s, a, b - 1);
    }
    if a == 0 {
        assert(depth_at(s, 0) == 0);
    }
}

/// Depth inside a segment, counted from the segment's start.
pub proof fn lemma_depth_sub(s: Seq<TokV>, a: int, b: int, i: int)
    requires
        0 <= a <= b <= s.len(),
        0 <= i <= b - a,
    ensures
        depth_at(s.subrange(a, b), i) == depth_at(s, a + i) - depth_at(s, a),
    decreases i,
{
    if i > 0 {
        lemma_depth_sub(s, a, b, i - 1);
    }
}

/// A segment of a stream whose prefixes never go below depth 0, starting and
/// ending at depth 0, is balanced.
pub proof fn lemma_segment_balanced(s: Seq<TokV>, a: int, b: int)
    requires
        0 <= a <= b <= s.len(),
        forall|n: int| 0 <= n <= s.len() ==> #[trigger] depth_at(s, n) >= 0,
        depth_at(s, a) == 0,
        depth_at(s, b) == 0,
    ensures
        balanced(s.subrange(a, b)),
{
    assert forall|n: int| 0 <= n <= s.subrange(a, b).len() implies #[trigger] depth_at(
        s.subrange(a, b),
        n,
    ) >= 0 by {
        lemma_depth_sub(s, a, b, n);
        assert(depth_at(s, a + n) >= 0);
    }
    lemma_depth_sub(s, a, b, b - a);
}

/// Position `k` of `s` ends an expression that starts at a position of depth 0.
pub open spec fn stop_abs(s: Seq<TokV>, k: int) -> bool {
    &&& 0 < k < s.len()
    &&& depth_at(s, k) == 0
    &&& ends_expr(s[k])
    &&& operand_end(s[k - 1])
}

/// The stream never closes a group it did not open and ends at depth 0.
pub open spec fn stream_ok(s: Seq<TokV>) -> bool {
    balanced(s)
}

/// Where a stream stops being balanced: the first token that closes a group
/// that was never opened, or the end of the stream when a group is left
/// open.
pub open spec fn unbalanced_at(s: Seq<TokV>, at: int) -> bool {
    ||| {
        &&& 0 <= at < s.len()
        &&& depth_at(s, at + 1) < 0
        &&& forall|n: int| 0 <= n <= at ==> #[trigger] depth_at(s, n) >= 0
    }
    ||| {
        &&& at == s.len()
        &&& depth_at(s, at) != 0
        &&& forall|n: int| 0 <= n <= s.len() ==> #[trigger] depth_at(s, n) >= 0
    }
}

/// `None` when the stream is balanced, else where it stops being balanced.
pub fn find_unbalanced(toks: &Vec<Tok>) -> (r: Option<usize>)
    ensures
        r is None <==> balanced(tv(toks@)),
        r matches Some(at) ==> unbalanced_at(tv(toks@), at as int),
{
    let ghost s = tv(toks@);
    let mut d: usize = 0;
    let mut i: usize = 0;
    while i < toks.len()
        invariant
            s == tv(toks@),
            i <= toks.len(),
            d == depth_at(s, i as int),
            forall|n: int| 0 <= n <= i ==> #[trigger] depth_at(s, n) >= 0,
        decreases toks.len() - i,
    {
        proof {
            lemma_depth_bound(s, i as int);
        }
        match &toks[i] {
            Tok::Open(_) => {
                d = d + 1;
            },
            Tok::Close(_) => {
                if d == 0 {
                    assert(depth_at(s, i + 1) < 0);
                    return Some(i);
                }
                d = d - 1;
            },
            _ => {},
        }
        i += 1;
    }
    if d == 0 {
        None
    } else {
        Some(i)
    }
}

fn is_stop_word_tok(t: &Tok) -> (r: bool)
    ensures
        r == is_stop_tok(t@),
{
    tok_is_ident(t, "let") || tok_is_ident(t, "where") || tok_is_ident(t, "orderby")
        || tok_is_ident(t, "join") || tok_is_ident(t, "join_must") || tok_is_ident(t, "join_left")
        || tok_is_ident(t, "last_must") || tok_is_ident(t, "zip") || tok_is_ident(t, "zip_must")
        || tok_is_ident(t, "group") || tok_is_ident(t, "select") || tok_is_ident(t, "desc")
        || tok_is_ident(t, "asc") || tok_is_ident(t, "on") || tok_is_ident(t, "by")
        || tok_is_ident(t, "into")
}

fn word_is(w: &String, kw: &str) -> (r: bool)
    ensures
        r == (w@ == kw@),
{
    let k = kw.to_owned();
    *w == k
}

fn is_prefix_keyword_word(w: &String) -> (r: bool)
    ensures
        r == is_prefix_keyword(w@),
{
    word_is(w, "as")
        || word_is(w, "async")
        || word_is(w, "box")
        || word_is(w, "break")
        || word_is(w, "const")
        || word_is(w, "continue")
        || word_is(w, "dyn")
        || word_is(w, "else")
        || word_is(w, "enum")
        || word_is(w, "extern")
        || word_is(w, "fn")
        || word_is(w, "for")
        || word_is(w, "if")
        || word_is(w, "impl")
        || word_is(w, "in")
        || word_is(w, "let")
        || word_is(w, "loop")
        || word_is(w, "match")
        || word_is(w, "mod")
        || word_is(w, "move")
        || word_is(w, "mut")
        || word_is(w, "pub")
        || word_is(w, "ref")
        || word_is(w, "return")
        || word_is(w, "static")
        || word_is(w, "struct")
        || word_is(w, "trait")
        || word_is(w, "type")
        || word_is(w, "unsafe")
        || word_is(w, "use")
        || word_is(w, "where")
        || word_is(w, "while")
        || word_is(w, "yield")
}

fn operand_end_tok(t: &Tok) -> (r: bool)
    ensures
        r == operand_end(t@),
{
    match t {
        Tok::Punct(c, _) => *c == '?',
        Tok::Ident(w) => !is_prefix_keyword_word(w),
        Tok::Open(_) => false,
        _ => true,
    }
}

fn ends_expr_tok(t: &Tok) -> (r: bool)
    ensures
        r == ends_expr(t@),
{
    let operand = match t {
        Tok::Ident(w) => !is_prefix_keyword_word(w),
        Tok::Lit(_) => true,
        _ => false,
    };
    operand || is_stop_word_tok(t)
}

/// The end of the expression that starts at `start`: the first stop position
/// after it, or the end of the stream.
fn find_expr_end(toks: &Vec<Tok>, start: usize) -> (end: usize)
    requires
        start < toks.len(),
        stream_ok(tv(toks@)),
        depth_at(tv(toks@), start as int) == 0,
    ensures
        start < end <= toks.len(),
        forall|k: int| start < k < end ==> !#[trigger] stop_abs(tv(toks@), k),
        end < toks.len() ==> stop_abs(tv(toks@), end as int),
{
    let ghost s = tv(toks@);
    proof {
        lemma_depth_bound(s, start as int);
    }
    let mut d: usize = match &toks[start] {
        Tok::Open(_) => 1,
        _ => 0,
    };
    let mut j = start + 1;
    assert(depth_at(s, start + 1) >= 0);
    while j < toks.len()
        invariant
            s == tv(toks@),
            stream_ok(s),
            start < j <= toks.len(),
            d == depth_at(s, j as int),
            forall|k: int| start < k < j ==> !#[trigger] stop_abs(s, k),
        decreases toks.len() - j,
    {
        if d == 0 && ends_expr_tok(&toks[j]) && operand_end_tok(&toks[j - 1]) {
            assert(stop_abs(s, j as int));
            return j;
        }
        assert(!stop_abs(s, j as int));
        proof {
            lemma_depth_bound(s, j as int);
            assert(depth_at(s, j + 1) >= 0);
        }
        match &toks[j] {
            Tok::Open(_) => {
                d = d + 1;
            },
            Tok::Close(_) => {
                d = d - 1;
            },
            _ => {},
        }
        j += 1;
    }
    j
}

/// Copies `toks[from..to]` into an expression.
fn take_expr(toks: &Vec<Tok>, from: usize, to: usize) -> (e: Expr)
    requires
        from <= to <= toks.len(),
    ensures
        ex(e) == tv(toks@).subrange(from as int, to as int),
{
    let mut v: Vec<Tok> = Vec::new();
    extend_toks(&mut v, toks, from, to);
    assert(tv(v@) =~= tv(toks@).subrange(from as int, to as int));
    Expr { toks: v }
}

/// Parses the expression that starts at `start`.
#[verifier::rlimit(30)]
fn parse_expr(toks: &Vec<Tok>, start: usize) -> (r: Result<(Expr, usize), ParseFailure>)
    requires
        start <= toks.len(),
        stream_ok(tv(toks@)),
        depth_at(tv(toks@), start as int) == 0,
    ensures
        r matches Err(e) ==> e.kind != ParseError::Unbalanced && e.kind != ParseError::ExpectedFrom && e.kind != ParseError::TrailingTokens && e.at <= toks.len(),
        r matches Ok((e, end)) ==> {
            &&& start < end <= toks.len()
            &&& ex(e) == tv(toks@).subrange(start as int, end as int)
            &&& expr_ok(ex(e))
            &&& depth_at(tv(toks@), end as int) == 0
            &&& (end < toks.len() ==> ends_expr(tv(toks@)[end as int]))
        },
        forall|m: int|
            #[trigger] expr_fits(tv(toks@), start as int, m) ==> (r matches Ok((_, end)) && end
                == start + m),
        r matches Ok((_, end)) ==> expr_fits(tv(toks@), start as int, end - start),
        r matches Err(e) ==> e.kind == ParseError::ExpectedExpression && e.at == expr_fail_at(
            tv(toks@),
            start as int,
        ),
{
    let ghost s = tv(toks@);
    if start >= toks.len() {
        return Err(ParseFailure { kind: ParseError::ExpectedExpression, at: at_or_end(start, toks.len()) });
    }
    let end = find_expr_end(toks, start);
    proof {
        assert forall|m: int| #[trigger] expr_fits(s, start as int, m) implies end == start + m
            && operand_end(s[end - 1]) by {
            lemma_expr_fits_stop(s, start as int, m);
            if end < start + m {
                assert(stop_abs(s, end as int));
            }
            if end > start + m {
                assert(!stop_abs(s, start + m));
            }
        }
    }
    if !operand_end_tok(&toks[end - 1]) {
        assert(end == toks.len()) by {
            if end < toks.len() {
                assert(stop_abs(s, end as int));
            }
        }
        return Err(ParseFailure { kind: ParseError::ExpectedExpression, at: end - 1 });
    }
    let e = take_expr(toks, start, end);
    proof {
        let es = s.subrange(start as int, end as int);
        if end < toks.len() {
            assert(stop_abs(s, end as int));
        } else {
            assert(depth_at(s, end as int) == 0);
        }
        lemma_segment_balanced(s, start as int, end as int);
        assert forall|i: int| 0 < i < es.len() implies !#[trigger] boundary(es, i) by {
            lemma_depth_sub(s, start as int, end as int, i);
            assert(!stop_abs(s, start + i));
            assert(es[i] == s[start + i]);
            assert(es[i - 1] == s[start + i - 1]);
        }
        assert(es.last() == s[end - 1]);
    }
    Ok((e, end))
}

/// Checks that `toks[pos]` is the word `kw`.
fn at_word(toks: &Vec<Tok>, pos: usize, kw: &str) -> (r: bool)
    ensures
        r == (pos < toks.len() && is_ident(tv(toks@)[pos as int], kw@)),
{
    pos < toks.len() && tok_is_ident(&toks[pos], kw)
}

/// The name held by `toks[pos]`.
fn name_at(toks: &Vec<Tok>, pos: usize) -> (r: Option<String>)
    ensures
        r matches Some(n) ==> pos < toks.len() && tv(toks@)[pos as int] == TokV::Ident(n@),
        r is None ==> !(pos < toks.len() && tv(toks@)[pos as int] is Ident),
{
    if pos < toks.len() {
        match &toks[pos] {
            Tok::Ident(n) => Some(n.clone()),
            _ => None,
        }
    } else {
        None
    }
}

/// Parses the `from` pattern that starts at `start`: everything up to the
/// first `in` outside groups. Returns the position of that `in`.
#[verifier::rlimit(30)]
fn find_pattern_end(toks: &Vec<Tok>, start: usize) -> (r: Result<usize, ParseFailure>)
    requires
        start <= toks.len(),
        stream_ok(tv(toks@)),
        depth_at(tv(toks@), start as int) == 0,
    ensures
        r matches Err(e) ==> e.kind != ParseError::Unbalanced && e.kind != ParseError::ExpectedFrom && e.kind != ParseError::TrailingTokens && e.at <= toks.len(),
        r matches Ok(k) ==> {
            &&& start < k < toks.len()
            &&& tv(toks@)[k as int] == TokV::Ident("in"@)
            &&& depth_at(tv(toks@), k as int) == 0
            &&& pattern_ok(tv(toks@).subrange(start as int, k as int))
        },
        forall|m: int| #[trigger] pattern_fits(tv(toks@), start as int, m) ==> r == Ok::<usize, ParseFailure>(
            (start + m) as usize,
        ),
        r matches Err(e) ==> (e.kind == ParseError::ExpectedExpression && e.at == start && start
            < toks.len() && tv(toks@)[start as int] == TokV::Ident("in"@)) || (e.kind
            == ParseError::ExpectedIn && e.at == toks.len() && !(start < toks.len() && tv(
            toks@,
        )[start as int] == TokV::Ident("in"@)) && forall|m: int|
            !#[trigger] pattern_fits(tv(toks@), start as int, m)),
{
    let ghost s = tv(toks@);
    let mut d: usize = 0;
    let mut j = start;
    while j < toks.len()
        invariant
            s == tv(toks@),
            stream_ok(s),
            start <= j <= toks.len(),
            d == depth_at(s, j as int),
            depth_at(s, start as int) == 0,
            forall|k: int| start <= k < j && depth_at(s, k) == 0 ==> s[k] != TokV::Ident("in"@),
            forall|m: int| #[trigger] pattern_fits(s, start as int, m) ==> j <= start + m,
        decreases toks.len() - j,
    {
        if d == 0 && tok_is_ident(&toks[j], "in") {
            proof {
                assert forall|m: int| #[trigger] pattern_fits(s, start as int, m) implies j == start
                    + m by {
                    if j < start + m {
                        let pp = s.subrange(start as int, start + m);
                        lemma_depth_sub(s, start as int, start + m, j - start);
                        assert(pp[j - start] == s[j as int]);
                    }
                }
            }
            if j == start {
                return Err(ParseFailure { kind: ParseError::ExpectedExpression, at: start });
            }
            proof {
                lemma_segment_balanced(s, start as int, j as int);
                let p = s.subrange(start as int, j as int);
                assert forall|i: int| 0 <= i < p.len() && depth_at(p, i) == 0 implies #[trigger] p[i]
                    != TokV::Ident("in"@) by {
                    lemma_depth_sub(s, start as int, j as int, i);
                    assert(p[i] == s[start + i]);
                }
            }
            return Ok(j);
        }
        proof {
            lemma_depth_bound(s, j as int);
            assert(depth_at(s, j + 1) >= 0);
            assert forall|m: int| #[trigger] pattern_fits(s, start as int, m) implies j + 1 <= start
                + m by {
                if j == start + m {
                    lemma_depth_sub(s, start as int, start + m, m);
                }
            }
        }
        match &toks[j] {
            Tok::Open(_) => {
                d = d + 1;
            },
            Tok::Close(_) => {
                d = d - 1;
            },
            _ => {},
        }
        j += 1;
    }
    Err(ParseFailure { kind: ParseError::ExpectedIn, at: toks.len() })
}

/// Finds the single `==` of a join condition `toks[start..end]`, which must
/// be its top-level operator.
#[verifier::rlimit(60)]
fn split_on_eq(toks: &Vec<Tok>, start: usize, end: usize) -> (r: Result<usize, ParseFailure>)
    requires
        start < end <= toks.len(),
        expr_ok(tv(toks@).subrange(start as int, end as int)),
    ensures
        r matches Err(e) ==> e.kind == ParseError::JoinNotEquality && e.at == start,
        r matches Ok(k) ==> join_cond_ok(tv(toks@).subrange(start as int, end as int), k as int),
        forall|k: int|
            #[trigger] join_cond_ok(tv(toks@).subrange(start as int, end as int), k) ==> r == Ok::<
                usize,
                ParseFailure,
            >(k as usize),
{
    let ghost c = tv(toks@).subrange(start as int, end as int);
    let n = end - start;
    let mut found: Option<usize> = None;
    let mut last_eq = false;
    let mut d: usize = 0;
    let mut i: usize = 0;
    while i < n
        invariant
            c == tv(toks@).subrange(start as int, end as int),
            expr_ok(c),
            n == end - start,
            start < end <= toks.len(),
            i <= n,
            d == depth_at(c, i as int),
            last_eq == (i > 0 && eq_at(c, i - 1)),
            found matches Some(k) ==> k < i && eq_at(c, k as int),
            forall|m: int| 0 <= m < i && eq_at(c, m) ==> found == Some(m as usize),
            forall|m: int| 0 <= m < i ==> !#[trigger] logic_at(c, m),
            forall|m: int| 0 <= m < i ==> !#[trigger] loose_at(c, m),
            forall|m: int| 0 <= m < i && (found is None || m < found->0) ==> !#[trigger] swallow_at(c, m),
        decreases n - i,
    {
        let t = &toks[start + i];
        assert(t@ == c[i as int]);
        let next_ok = i + 1 < n;
        let prev_joint = if i == 0 {
            false
        } else {
            match &toks[start + i - 1] {
                Tok::Punct(_, j) => *j,
                _ => false,
            }
        };
        let prev_operand = if i == 0 {
            false
        } else {
            operand_end_tok(&toks[start + i - 1])
        };
        proof {
            if i > 0 {
                assert(toks@[start + i - 1]@ == c[i - 1]);
            }
        }
        let mut here_eq = false;
        if d == 0 && next_ok {
            let t2 = &toks[start + i + 1];
            assert(t2@ == c[i + 1]);
            let is_eq = match (t, t2) {
                (Tok::Punct(a, true), Tok::Punct(b, _)) => *a == '=' && *b == '=',
                _ => false,
            };
            if is_eq && !prev_joint {
                assert(eq_at(c, i as int));
                if found.is_some() {
                    assert forall|k: int| !#[trigger] join_cond_ok(c, k) by {
                        if join_cond_ok(c, k) {
                            let m = found.unwrap();
                            assert(eq_at(c, m as int));
                        }
                    }
                    return Err(ParseFailure { kind: ParseError::JoinNotEquality, at: start });
                }
                found = Some(i);
                here_eq = true;
            } else {
                assert(!eq_at(c, i as int));
            }
            let is_logic = match (t, t2) {
                (Tok::Punct(a, true), Tok::Punct(b, _)) => (*a == '&' && *b == '&') || (*a == '|'
                    && *b == '|'),
                _ => false,
            };
            if is_logic {
                assert(logic_at(c, i as int));
                assert forall|k: int| !#[trigger] join_cond_ok(c, k) by {
                    if join_cond_ok(c, k) {
                        assert(!logic_at(c, i as int));
                    }
                }
                return Err(ParseFailure { kind: ParseError::JoinNotEquality, at: start });
            }
            assert(!logic_at(c, i as int));
        } else {
            assert(!eq_at(c, i as int));
            assert(!logic_at(c, i as int));
        }
        assert(here_eq == eq_at(c, i as int));
        if d == 0 {
            let is_range = next_ok && match (t, &toks[start + i + 1]) {
                (Tok::Punct(a, true), Tok::Punct(b, _)) => *a == '.' && *b == '.',
                _ => false,
            };
            proof {
                if next_ok {
                    assert(toks@[start + i + 1]@ == c[i + 1]);
                }
            }
            let stray_eq = match t {
                Tok::Punct(a, _) => *a == '=' && !here_eq && !last_eq,
                _ => false,
            };
            if is_range || stray_eq {
                assert(loose_at(c, i as int));
                assert forall|k: int| !#[trigger] join_cond_ok(c, k) by {
                    if join_cond_ok(c, k) {
                        assert(!loose_at(c, i as int));
                    }
                }
                return Err(ParseFailure { kind: ParseError::JoinNotEquality, at: start });
            }
            assert(!loose_at(c, i as int));
            let swallows = !prev_operand && match t {
                Tok::Punct(a, _) => *a == '|',
                Tok::Ident(w) => word_is(w, "return") || word_is(w, "break"),
                _ => false,
            };
            if swallows && found.is_none() {
                assert(swallow_at(c, i as int));
                assert forall|k: int| !#[trigger] join_cond_ok(c, k) by {
                    if join_cond_ok(c, k) {
                        if k <= i {
                            assert(eq_at(c, k));
                            assert(k != i);
                        }
                        assert(!swallow_at(c, i as int));
                    }
                }
                return Err(ParseFailure { kind: ParseError::JoinNotEquality, at: start });
            }
        } else {
            assert(!loose_at(c, i as int));
            assert(!swallow_at(c, i as int));
        }
        proof {
            lemma_depth_bound(c, i as int);
            assert(depth_at(c, i + 1) >= 0);
        }
        match t {
            Tok::Open(_) => {
                d = d + 1;
            },
            Tok::Close(_) => {
                d = d - 1;
            },
            _ => {},
        }
        last_eq = here_eq;
        i += 1;
    }
    proof {
        assert forall|k: int| #[trigger] join_cond_ok(c, k) implies found == Some(k as usize) by {
            assert(eq_at(c, k));
        }
    }
    match found {
        Some(k) => {
            if k == 0 || k + 2 >= n {
                return Err(ParseFailure { kind: ParseError::JoinNotEquality, at: start });
            }
            assert forall|m: int| eq_at(c, m) implies m == k by {
                assert(0 <= m < n);
            }
            assert forall|m: int| !#[trigger] logic_at(c, m) by {
                if logic_at(c, m) {
                    assert(0 <= m < n);
                }
            }
            assert forall|m: int| !#[trigger] loose_at(c, m) by {
                if loose_at(c, m) {
                    assert(0 <= m < n);
                }
            }
            assert forall|m: int| 0 <= m < k implies !#[trigger] swallow_at(c, m) by {
                assert(m < n);
            }
            Ok(k)
        },
        None => Err(ParseFailure { kind: ParseError::JoinNotEquality, at: start }),
    }
}

// --- clauses ------------------------------------------------------------------

/// Parses the middle clause that starts at `pos`.
#[verifier::rlimit(80)]
fn parse_clause(toks: &Vec<Tok>, pos: usize, Ghost(w): Ghost<Option<MiddleClause>>) -> (r: Result<(MiddleClause, usize), ParseFailure>)
    requires
        pos < toks.len(),
        stream_ok(tv(toks@)),
        depth_at(tv(toks@), pos as int) == 0,
        w matches Some(c) ==> clause_fits(tv(toks@), pos as int, c),
    ensures
        r matches Err(e) ==> e.kind != ParseError::Unbalanced && e.kind != ParseError::ExpectedFrom && e.kind != ParseError::TrailingTokens && e.at <= toks.len(),
        r matches Ok((c, end)) ==> {
            &&& pos < end <= toks.len()
            &&& clause_wf(c)
            &&& render_clause(c) == tv(toks@).subrange(pos as int, end as int)
            &&& depth_at(tv(toks@), end as int) == 0
        },
        w matches Some(c) ==> r matches Ok((_, end)) && end == pos + render_clause(c).len(),
        r matches Err(f) ==> clause_failure(tv(toks@), pos as int) == Some((f.kind, f.at as int)),
        r is Ok ==> clause_failure(tv(toks@), pos as int) is None,
{
    proof {
        reveal(clause_failure);
        reveal(join_failure);
    }
    let ghost s = tv(toks@);
    proof {
        lemma_words();
        if w is Some {
            lemma_clause_layout(s, pos as int, w->0);
        }
    }
    if at_word(toks, pos, "let") {
        let name = match name_at(toks, pos + 1) {
            Some(n) => n,
            None => return Err(ParseFailure { kind: ParseError::ExpectedName, at: at_or_end(pos + 1, toks.len()) }),
        };
        if pos + 2 >= toks.len() {
            return Err(ParseFailure { kind: ParseError::ExpectedEq, at: at_or_end(pos + 2, toks.len()) });
        }
        let eq_joint = match &toks[pos + 2] {
            Tok::Punct(c, j) => if *c == '=' {
                *j
            } else {
                return Err(ParseFailure { kind: ParseError::ExpectedEq, at: pos + 2 })
            },
            _ => return Err(ParseFailure { kind: ParseError::ExpectedEq, at: pos + 2 }),
        };
        proof {
            lemma_depth_flat(s, pos as int, pos + 3);
        }
        let (value, end) = parse_expr(toks, pos + 3)?;
        let c = MiddleClause::Let { name, value, eq_joint };
        assert(render_clause(c) =~= s.subrange(pos as int, end as int));
        return Ok((c, end));
    }
    if at_word(toks, pos, "where") {
        proof {
            lemma_depth_flat(s, pos as int, pos + 1);
        }
        let (cond, end) = parse_expr(toks, pos + 1)?;
        let c = MiddleClause::Where(cond);
        assert(render_clause(c) =~= s.subrange(pos as int, end as int));
        return Ok((c, end));
    }
    if at_word(toks, pos, "orderby") {
        proof {
            lemma_depth_flat(s, pos as int, pos + 1);
        }
        let (key, e) = parse_expr(toks, pos + 1)?;
        if at_word(toks, e, "desc") {
            proof {
                lemma_depth_flat(s, e as int, e + 1);
            }
            let c = MiddleClause::OrderBy { key, descending: true, spelled: true };
            assert(render_clause(c) =~= s.subrange(pos as int, e + 1));
            return Ok((c, e + 1));
        }
        if at_word(toks, e, "asc") {
            proof {
                lemma_depth_flat(s, e as int, e + 1);
            }
            let c = MiddleClause::OrderBy { key, descending: false, spelled: true };
            assert(render_clause(c) =~= s.subrange(pos as int, e + 1));
            return Ok((c, e + 1));
        }
        let c = MiddleClause::OrderBy { key, descending: false, spelled: false };
        assert(render_clause(c) =~= s.subrange(pos as int, e as int));
        return Ok((c, e));
    }
    let kind = if at_word(toks, pos, "join") {
        Some(JoinKind::Inner)
    } else if at_word(toks, pos, "join_must") {
        Some(JoinKind::Must)
    } else if at_word(toks, pos, "join_left") {
        Some(JoinKind::Left)
    } else if at_word(toks, pos, "last_must") {
        Some(JoinKind::LastMust)
    } else {
        None
    };
    if let Some(kind) = kind {
        assert(s[pos as int] == TokV::Ident(join_keyword(kind)));
        return parse_join(toks, pos, kind, Ghost(w));
    }
    let zip = if at_word(toks, pos, "zip") {
        Some(false)
    } else if at_word(toks, pos, "zip_must") {
        Some(true)
    } else {
        None
    };
    if let Some(must) = zip {
        let name = match name_at(toks, pos + 1) {
            Some(n) => n,
            None => return Err(ParseFailure { kind: ParseError::ExpectedName, at: at_or_end(pos + 1, toks.len()) }),
        };
        if !at_word(toks, pos + 2, "in") {
            return Err(ParseFailure { kind: ParseError::ExpectedInAfterName { zip: true }, at: at_or_end(pos + 2, toks.len()) });
        }
        proof {
            lemma_depth_flat(s, pos as int, pos + 3);
        }
        let (source, end) = parse_expr(toks, pos + 3)?;
        let c = MiddleClause::Zip { name, source, must };
        assert(render_clause(c) =~= s.subrange(pos as int, end as int));
        return Ok((c, end));
    }
    if at_word(toks, pos, "group") {
        proof {
            lemma_depth_flat(s, pos as int, pos + 1);
        }
        let (element, e1) = parse_expr(toks, pos + 1)?;
        proof {
            lemma_expr_len(s, pos + 1, e1 - (pos + 1));
        }
        if !at_word(toks, e1, "by") {
            return Err(ParseFailure { kind: ParseError::ExpectedBy, at: e1 });
        }
        proof {
            lemma_depth_flat(s, e1 as int, e1 + 1);
        }
        let (key, e2) = parse_expr(toks, e1 + 1)?;
        proof {
            lemma_expr_len(s, e1 + 1, e2 - (e1 + 1));
        }
        if !at_word(toks, e2, "into") {
            return Err(ParseFailure { kind: ParseError::ExpectedInto, at: e2 });
        }
        let name = match name_at(toks, e2 + 1) {
            Some(n) => n,
            None => return Err(ParseFailure { kind: ParseError::ExpectedName, at: at_or_end(e2 + 1, toks.len()) }),
        };
        proof {
            lemma_depth_flat(s, e2 as int, e2 + 2);
        }
        let c = MiddleClause::GroupBy { element, key, name };
        assert(render_clause(c) =~= s.subrange(pos as int, e2 + 2));
        return Ok((c, e2 + 2));
    }
    Err(ParseFailure { kind: ParseError::ExpectedClause, at: pos })
}

/// Parses `join <name> in <source> on <a> == <b> [into <g>]` at `pos`,
/// whose first word names the join kind.
#[verifier::rlimit(80)]
fn parse_join(toks: &Vec<Tok>, pos: usize, kind: JoinKind, Ghost(w): Ghost<Option<MiddleClause>>) -> (r: Result<
    (MiddleClause, usize),
    ParseFailure,
>)
    requires
        pos < toks.len(),
        stream_ok(tv(toks@)),
        depth_at(tv(toks@), pos as int) == 0,
        tv(toks@)[pos as int] == TokV::Ident(join_keyword(kind)),
        w matches Some(c) ==> clause_fits(tv(toks@), pos as int, c) && match c {
            MiddleClause::Join(j) => j.kind == kind,
            _ => false,
        },
    ensures
        r matches Err(e) ==> e.kind != ParseError::Unbalanced && e.kind != ParseError::ExpectedFrom && e.kind != ParseError::TrailingTokens && e.at <= toks.len(),
        r matches Ok((c, end)) ==> {
            &&& pos < end <= toks.len()
            &&& clause_wf(c)
            &&& render_clause(c) == tv(toks@).subrange(pos as int, end as int)
            &&& depth_at(tv(toks@), end as int) == 0
        },
        w matches Some(c) ==> r matches Ok((_, end)) && end == pos + render_clause(c).len(),
        r matches Err(f) ==> join_failure(tv(toks@), pos as int) == Some((f.kind, f.at as int)),
        r is Ok ==> join_failure(tv(toks@), pos as int) is None,
{
    proof {
        reveal(join_failure);
    }
    let ghost s = tv(toks@);
    proof {
        lemma_words();
        if w is Some {
            lemma_clause_layout(s, pos as int, w->0);
        }
    }
    let name = match name_at(toks, pos + 1) {
        Some(n) => n,
        None => return Err(ParseFailure { kind: ParseError::ExpectedName, at: at_or_end(pos + 1, toks.len()) }),
    };
    if !at_word(toks, pos + 2, "in") {
        return Err(ParseFailure { kind: ParseError::ExpectedInAfterName { zip: false }, at: at_or_end(pos + 2, toks.len()) });
    }
    proof {
        lemma_depth_flat(s, pos as int, pos + 3);
    }
    let (source, e1) = parse_expr(toks, pos + 3)?;
    proof {
        lemma_expr_len(s, pos + 3, e1 - (pos + 3));
    }
    if !at_word(toks, e1, "on") {
        return Err(ParseFailure { kind: ParseError::ExpectedOn, at: e1 });
    }
    proof {
        lemma_depth_flat(s, e1 as int, e1 + 1);
    }
    let (cond, e2) = parse_expr(toks, e1 + 1)?;
    proof {
        lemma_expr_len(s, e1 + 1, e2 - (e1 + 1));
    }
    proof {
        if w is Some {
            match w->0 {
                MiddleClause::Join(j) => {
                    assert(e2 == pos + 4 + ex(j.source).len() + join_cond(*j).len());
                    assert(join_cond_ok(s.subrange(e1 + 1, e2 as int), ex(j.outer_key).len() as int));
                },
                _ => {},
            }
        }
    }
    let k = split_on_eq(toks, e1 + 1, e2)?;
    let ghost c = s.subrange(e1 + 1, e2 as int);
    let outer_key = take_expr(toks, e1 + 1, e1 + 1 + k);
    let inner_key = take_expr(toks, e1 + 1 + k + 2, e2);
    let eq_joint = match &toks[e1 + 1 + k + 1] {
        Tok::Punct(_, j) => *j,
        _ => false,
    };
    proof {
        assert(c[k as int] == TokV::Punct('=', true));
        assert(is_punct(c[k + 1], '='));
        assert(c[k + 1] == s[e1 + 1 + k + 1]);
        assert(c =~= ex(outer_key) + eq_toks(eq_joint) + ex(inner_key));
    }
    let into_group = if kind == JoinKind::Inner && at_word(toks, e2, "into") {
        match name_at(toks, e2 + 1) {
            Some(g) => Some(g),
            None => return Err(ParseFailure { kind: ParseError::ExpectedName, at: at_or_end(e2 + 1, toks.len()) }),
        }
    } else {
        None
    };
    let end = if into_group.is_some() {
        e2 + 2
    } else {
        e2
    };
    proof {
        lemma_depth_flat(s, e2 as int, end as int);
    }
    let j = JoinClause { kind, name, source, outer_key, inner_key, eq_joint, into_group };
    proof {
        assert(join_cond(j) == c);
    }
    let cl = MiddleClause::Join(Box::new(j));
    assert(render_clause(cl) =~= s.subrange(pos as int, end as int));
    Ok((cl, end))
}

// --- the query ----------------------------------------------------------------

proof fn lemma_render_middle_push(ms: Seq<MiddleClause>, c: MiddleClause)
    ensures
        render_middle(ms.push(c)) == render_middle(ms) + render_clause(c),
{
    assert(ms.push(c).drop_last() =~= ms);
}


proof fn lemma_from_render(s: Seq<TokV>, f: FromClause, k: int, pos: int)
    requires
        1 <= k < pos <= s.len(),
        s[0] == TokV::Ident("from"@),
        tv(f.pat@) == s.subrange(1, k),
        s[k] == TokV::Ident("in"@),
        ex(f.source) == s.subrange(k + 1, pos),
    ensures
        render_from(f) == s.subrange(0, pos),
{
    assert(render_from(f) =~= s.subrange(0, pos));
}

/// Parses `from <pat> in <expr>` at the start of the stream.
#[verifier::rlimit(40)]
fn parse_from(toks: &Vec<Tok>, Ghost(w): Ghost<Option<FromClause>>) -> (r: Result<(FromClause, usize), ParseFailure>)
    requires
        stream_ok(tv(toks@)),
        w matches Some(f) ==> from_fits(tv(toks@), f),
    ensures
        r matches Err(e) ==> e.kind != ParseError::Unbalanced && e.kind != ParseError::TrailingTokens && e.at <= toks.len() && (e.kind == ParseError::ExpectedFrom <==> !(tv(toks@).len() > 0 && tv(toks@)[0] == TokV::Ident("from"@))) && (e.kind == ParseError::ExpectedFrom ==> e.at == 0),
        r matches Ok((f, pos)) ==> {
            &&& pos <= toks.len()
            &&& render_from(f) == tv(toks@).subrange(0, pos as int)
            &&& pattern_ok(tv(f.pat@))
            &&& expr_ok(ex(f.source))
            &&& depth_at(tv(toks@), pos as int) == 0
        },
        w matches Some(f) ==> r matches Ok((_, pos)) && pos == render_from(f).len(),
        tv(toks@).len() > 0 && tv(toks@)[0] == TokV::Ident("from"@) ==> match from_failure(tv(toks@)) {
            Some((k, a)) => r == Err::<(FromClause, usize), ParseFailure>(
                ParseFailure { kind: k, at: a as usize },
            ),
            None => r is Ok,
        },
{
    proof {
        reveal(from_failure);
    }
    let ghost s = tv(toks@);
    let ghost m: int = if w is Some {
        tv(w->0.pat@).len() as int
    } else {
        0
    };
    let ghost n: int = if w is Some {
        ex(w->0.source).len() as int
    } else {
        0
    };
    proof {
        if w is Some {
            lemma_from_layout(s, w->0);
        }
    }
    if !at_word(toks, 0, "from") {
        return Err(ParseFailure { kind: ParseError::ExpectedFrom, at: 0 });
    }
    proof {
        lemma_depth_flat(s, 0, 1);
        if w is Some {
            assert(pattern_fits(s, 1, m));
        }
    }
    let k = find_pattern_end(toks, 1)?;
    proof {
        assert(pattern_fits(s, 1, k - 1));
        let m2 = choose|m: int| #[trigger] pattern_fits(s, 1, m);
        lemma_pattern_fits_unique(s, 1, k - 1, m2);
        assert(pattern_len(s) == Some(k - 1));
        let p = s.subrange(1, k as int);
        assert(p[0] == s[1]);
        assert(depth_at(p, 0) == 0);
        assert(s[1] != TokV::Ident("in"@));
    }
    proof {
        if w is Some {
            assert(k == 1 + m);
            assert(expr_fits(s, k + 1, n));
        }
    }
    let mut pat: Vec<Tok> = Vec::new();
    extend_toks(&mut pat, toks, 1, k);
    proof {
        lemma_depth_flat(s, k as int, k + 1);
    }
    let (source, pos) = parse_expr(toks, k + 1)?;
    let from = FromClause { pat, source };
    proof {
        lemma_from_render(s, from, k as int, pos as int);
    }
    Ok((from, pos))
}

/// Parses middle clauses from `pos` up to `select`; returns the clauses and
/// the position of `select`.
#[verifier::rlimit(60)]
fn parse_middle(toks: &Vec<Tok>, start: usize, Ghost(w): Ghost<Option<Seq<MiddleClause>>>) -> (r: Result<(Vec<MiddleClause>, usize), ParseFailure>)
    requires
        start <= toks.len(),
        stream_ok(tv(toks@)),
        depth_at(tv(toks@), start as int) == 0,
        w matches Some(ms) ==> middle_fits(tv(toks@), start as int, ms) || (clauses_fit(
            tv(toks@),
            start as int,
            ms,
        ) && middle_failure(tv(toks@), start + render_middle(ms).len()) is Some),
    ensures
        r matches Err(e) ==> e.kind != ParseError::Unbalanced && e.kind != ParseError::ExpectedFrom && e.kind != ParseError::TrailingTokens && e.at <= toks.len(),
        w matches Some(ms) ==> match middle_failure(tv(toks@), start + render_middle(ms).len()) {
            Some((k, a)) => r == Err::<(Vec<MiddleClause>, usize), ParseFailure>(
                ParseFailure { kind: k, at: a as usize },
            ),
            None => r matches Ok((_, pos)) && pos == start + render_middle(ms).len(),
        },
        r matches Ok((middle, pos)) ==> {
            &&& start <= pos < toks.len()
            &&& is_ident(tv(toks@)[pos as int], "select"@)
            &&& depth_at(tv(toks@), pos as int) == 0
            &&& render_middle(middle@) == tv(toks@).subrange(start as int, pos as int)
            &&& forall|i: int| 0 <= i < middle@.len() ==> clause_wf(#[trigger] middle@[i])
        },
{
    let ghost s = tv(toks@);
    let mut middle: Vec<MiddleClause> = Vec::new();
    let mut pos = start;
    let ghost mut j: int = 0;
    assert(render_middle(middle@) =~= s.subrange(start as int, pos as int));
    proof {
        if w is Some {
            assert(w->0.take(0) =~= Seq::<MiddleClause>::empty());
        }
    }
    loop
        invariant
            s == tv(toks@),
            stream_ok(s),
            start <= pos <= toks.len(),
            depth_at(s, pos as int) == 0,
            render_middle(middle@) == s.subrange(start as int, pos as int),
            forall|i: int| 0 <= i < middle@.len() ==> clause_wf(#[trigger] middle@[i]),
            w matches Some(ms) ==> clauses_fit(s, start as int, ms),
            w matches Some(ms) ==> middle_fits(s, start as int, ms) || middle_failure(
                s,
                start + render_middle(ms).len(),
            ) is Some,
            depth_at(s, start as int) == 0,
            w matches Some(ms) ==> 0 <= j <= ms.len() && pos == start + render_middle(ms.take(j)).len(),
        ensures
            start <= pos < toks.len(),
            is_ident(s[pos as int], "select"@),
            depth_at(s, pos as int) == 0,
            render_middle(middle@) == s.subrange(start as int, pos as int),
            forall|i: int| 0 <= i < middle@.len() ==> clause_wf(#[trigger] middle@[i]),
            w matches Some(ms) ==> pos == start + render_middle(ms).len(),
        decreases toks.len() - pos,
    {
        let ghost wc: Option<MiddleClause> = None;
        proof {
            if w is Some {
                let ms = w->0;
                if j == ms.len() {
                    assert(ms.take(j) =~= ms);
                    if pos < toks.len() && is_stray_word(s[pos as int]) {
                        lemma_stray_failure(s, pos as int);
                    }
                } else {
                    lemma_middle_clause_fits(s, start as int, ms, j);
                    lemma_clause_starts(ms[j]);
                    lemma_at(s, pos as int, render_clause(ms[j]), 0);
                    wc = Some(ms[j]);
                }
            }
        }
        if pos >= toks.len() {
            return Err(ParseFailure { kind: ParseError::ExpectedClause, at: pos });
        }
        if at_word(toks, pos, "select") {
            break ;
        }
        let (c, end) = parse_clause(toks, pos, Ghost(wc))?;
        proof {
            lemma_render_middle_push(middle@, c);
            assert(s.subrange(start as int, end as int) =~= s.subrange(start as int, pos as int)
                + s.subrange(pos as int, end as int));
            if w is Some {
                lemma_middle_take(w->0, j);
                j = j + 1;
            }
        }
        middle.push(c);
        pos = end;
    }
    Ok((middle, pos))
}

/// Parses a query.
///
/// On success the result is a well-formed query whose tokens are exactly
/// the input.
#[verifier::rlimit(100)]
#[verifier::spinoff_prover]
pub fn parse_query(toks: &Vec<Tok>) -> (r: Result<Query, ParseFailure>)
    ensures
        r matches Err(f) ==> f.at <= toks.len(),
        (r matches Err(f) && f.kind == ParseError::Unbalanced) <==> !balanced(tv(toks@)),
        r matches Err(f) ==> (f.kind == ParseError::Unbalanced ==> unbalanced_at(tv(toks@), f.at as int)),
        (r matches Err(f) && f.kind == ParseError::ExpectedFrom) <==> (balanced(tv(toks@)) && !(tv(toks@).len() > 0 && tv(toks@)[0] == TokV::Ident("from"@))),
        r matches Err(f) ==> (f.kind == ParseError::ExpectedFrom ==> f.at == 0),
        (r matches Err(f) && f.kind == ParseError::TrailingTokens) <==> (balanced(tv(toks@)) && query_then_more(tv(toks@))),
        r matches Err(f) ==> (f.kind == ParseError::TrailingTokens ==> more_at(tv(toks@), f.at as int)),
        forall|k: ParseError, a: int|
            balanced(tv(toks@)) && #[trigger] fails_after_clauses(tv(toks@), k, a) ==> (r matches Err(
                f,
            ) && f.kind == k && f.at == a),
        balanced(tv(toks@)) && tv(toks@).len() > 0 && tv(toks@)[0] == TokV::Ident("from"@) ==> (
        from_failure(tv(toks@)) matches Some((k, a)) ==> (r matches Err(f) && f.kind == k && f.at
            == a)),
        forall|a: int|
            balanced(tv(toks@)) && #[trigger] fails_at_select(tv(toks@), a) ==> (r matches Err(f)
                && f.kind == ParseError::ExpectedExpression && f.at == a),
        r matches Ok(q) ==> query_wf(q) && render_query(q) == tv(toks@),
        r matches Ok(q) ==> forall|q2: Query|
            query_wf(q2) && #[trigger] render_query(q2) == tv(toks@) ==> same_parts(q, q2),
        r is Err <==> !parsable(tv(toks@)),
{
    let ghost s = tv(toks@);
    let ghost wq: Option<Query> = if parsable(s) {
        Some(choose|q: Query| #[trigger] query_wf(q) && render_query(q) == s)
    } else if query_then_more(s) {
        Some(choose|q: Query|
            #[trigger] query_wf(q) && render_query(q).len() < s.len() && s.subrange(
                0,
                render_query(q).len() as int,
            ) == render_query(q) && ends_expr(s[render_query(q).len() as int]))
    } else {
        None
    };
    proof {
        if parsable(s) {
            lemma_query_complete(s, wq->0);
            lemma_whole_not_more(s, wq->0);
        } else if wq is Some {
            lemma_query_fits(s, wq->0);
        }
    }
    let ghost ka = choose|k: ParseError, a: int| #[trigger] fails_after_clauses(s, k, a);
    let ghost wf: Option<(FromClause, Seq<MiddleClause>)> = if wq is None && exists|
        k: ParseError,
        a: int,
    | #[trigger] fails_after_clauses(s, k, a) {
        Some(
            choose|f: FromClause, ms: Seq<MiddleClause>|
                #![trigger from_fits(s, f), clauses_fit(s, render_from(f).len() as int, ms)]
                from_fits(s, f) && clauses_fit(s, render_from(f).len() as int, ms) && middle_failure(
                    s,
                    (render_from(f).len() + render_middle(ms).len()) as int,
                ) == Some(ka),
        )
    } else {
        None
    };
    proof {
        assert forall|k: ParseError, a: int| #[trigger] fails_after_clauses(s, k, a) implies wf is Some
            && k == ka.0 && a == ka.1 by {
            if wq is Some {
                lemma_query_not_failing(s, wq->0, k, a);
            }
            lemma_fails_after_unique(s, k, a, ka.0, ka.1);
        }
        if let Some((f, ms)) = wf {
            let e = (render_from(f).len() + render_middle(ms).len()) as int;
            assert(middle_failure(s, e) == Some(ka));
            if e < s.len() {
                lemma_clause_failure_bounds(s, e);
            }
        }
    }
    let ghost a0 = choose|a: int| #[trigger] fails_at_select(s, a);
    let ghost ws: Option<(FromClause, Seq<MiddleClause>)> = if wq is None && wf is None && exists|
        a: int,
    | #[trigger] fails_at_select(s, a) {
        Some(
            choose|f: FromClause, ms: Seq<MiddleClause>|
                #![trigger from_fits(s, f), middle_fits(s, render_from(f).len() as int, ms)]
                from_fits(s, f) && middle_fits(s, render_from(f).len() as int, ms) && {
                    let e = (render_from(f).len() + render_middle(ms).len()) as int;
                    &&& e < s.len()
                    &&& s[e] == TokV::Ident("select"@)
                    &&& expr_len(s, e + 1) is None
                    &&& a0 == expr_fail_at(s, e + 1)
                },
        )
    } else {
        None
    };
    proof {
        lemma_from_failure_bounds(s);
        assert forall|a: int| #[trigger] fails_at_select(s, a) implies ws is Some && a == a0 by {
            if wq is Some {
                lemma_select_not_query(s, wq->0, a);
            }
            if wf is Some {
                lemma_select_not_failing(s, ka.0, ka.1, a);
            }
            lemma_select_unique(s, a, a0);
        }
    }
    if let Some(at) = find_unbalanced(toks) {
        return Err(ParseFailure { kind: ParseError::Unbalanced, at });
    }
    let (from, start) = parse_from(toks, Ghost(
        match wq {
            Some(q) => Some(q.from),
            None => match wf {
                Some(fm) => Some(fm.0),
                None => match ws {
                    Some(fm) => Some(fm.0),
                    None => None,
                },
            },
        },
    ))?;
    proof {
        assert(render_from(from)[0] == TokV::Ident("from"@));
        assert(render_from(from).len() > 0);
        assert(0 < start <= s.len());
        assert(s.subrange(0, start as int)[0] == s[0]);
    }
    let (middle, pos) = parse_middle(toks, start, Ghost(
        match wq {
            Some(q) => Some(q.middle@),
            None => match wf {
                Some(fm) => Some(fm.1),
                None => match ws {
                    Some(fm) => Some(fm.1),
                    None => None,
                },
            },
        },
    ))?;
    proof {
        lemma_depth_flat(s, pos as int, pos + 1);
    }
    proof {
        if wq is Some {
            let q = wq->0;
            assert(start == render_from(q.from).len());
            assert(pos == start + render_middle(q.middle@).len());
            assert(expr_fits(s, pos + 1, ex(q.select.expr).len() as int));
        }
    }
    let (expr, end) = parse_expr(toks, pos + 1)?;
    let q = Query { from, middle, select: SelectClause { expr } };
    proof {
        assert(s.subrange(0, end as int) =~= s.subrange(0, start as int) + s.subrange(start as int, pos as int) + s.subrange(
            pos as int,
            pos + 1,
        ) + s.subrange(pos + 1, end as int));
        assert(s.subrange(pos as int, pos + 1) =~= seq![TokV::Ident("select"@)]);
        assert(render_query(q) =~= s.subrange(0, end as int));
        assert(query_wf(q));
    }
    if end != toks.len() {
        assert(query_then_more(s));
        assert(more_at(s, end as int));
        return Err(ParseFailure { kind: ParseError::TrailingTokens, at: end });
    }
    assert(render_query(q) =~= s);
    assert(parsable(s));
    assert forall|q2: Query| query_wf(q2) && #[trigger] render_query(q2) == s implies same_parts(
        q,
        q2,
    ) by {
        law_parse_is_unambiguous(q, q2);
    }
    Ok(q)
}

/// The parts of a well-formed query written at the start of `s`, and
/// followed by the end of `s` or by a stop word, as the parser meets them.
#[verifier::rlimit(40)]
proof fn lemma_query_fits(s: Seq<TokV>, q: Query)
    requires
        query_wf(q),
        render_query(q).len() <= s.len(),
        s.subrange(0, render_query(q).len() as int) == render_query(q),
        render_query(q).len() == s.len() || ends_expr(s[render_query(q).len() as int]),
    ensures
        query_fits(s, q),
{
    lemma_words();
    let r = render_query(q);
    let rf = render_from(q.from);
    let rm = render_middle(q.middle@);
    let sel = ex(q.select.expr);
    let a = rf.len() as int;
    let b = rm.len() as int;
    assert(r.subrange(0, a) =~= rf);
    lemma_sub(s, 0, r, 0, a);
    assert(r.subrange(a, a + b) =~= rm);
    lemma_sub(s, 0, r, a, a + b);
    assert(r[a + b] == TokV::Ident("select"@));
    lemma_at(s, 0, r, a + b);
    assert(r.subrange(a + b + 1, r.len() as int) =~= sel);
    lemma_sub(s, 0, r, a + b + 1, r.len() as int);
    if q.middle@.len() > 0 {
        lemma_middle_prefix(q.middle@, 1);
        lemma_middle_take(q.middle@, 0);
        assert(q.middle@.take(0) =~= Seq::<MiddleClause>::empty());
        lemma_clause_starts(q.middle@[0]);
        assert(rm.subrange(0, render_middle(q.middle@.take(1)).len() as int)[0] == rm[0]);
        assert(r[a] == rm[0]);
        lemma_at(s, 0, r, a);
    }
}

/// A well-formed query, as the parser meets it.
proof fn lemma_query_complete(s: Seq<TokV>, q: Query)
    requires
        query_wf(q),
        render_query(q) == s,
    ensures
        balanced(s),
        query_fits(s, q),
{
    lemma_query_balanced(q);
    assert(s.subrange(0, s.len() as int) =~= s);
    lemma_query_fits(s, q);
}

} // verus!
