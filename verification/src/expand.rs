//! From query tokens to the tokens of the iterator chain.
use vstd::prelude::*;
use crate::token::{Tok, TokV, tv, balanced};
use crate::ast::{Query, query_wf, render_query, is_punct};
use crate::parse::{ParseError, ParseFailure, parse_query, parsable, same_parts, query_then_more, unbalanced_at, more_at, fails_after_clauses, from_failure, fails_at_select};
use crate::plan::{Plan, plan_ok, plan_query, sv};
use crate::emit::{expansion, emit_query};

verus! {

/// Why a query could not be expanded.
#[derive(Clone, Copy, Debug, PartialEq, Eq, Structural)]
pub enum ExpandError {
    /// The query text does not follow the grammar, and where.
    Parse(ParseFailure),
    /// The pattern of `from` is not a plain identifier; `at` is the index of
    /// the pattern's first token.
    FromPattern { at: usize },
}

pub open spec fn from_pattern_text() -> Seq<char> {
    "`from` requires a plain identifier pattern. Use `let` inside the query body for destructuring."@
}

impl ExpandError {
    /// The message shown to the user, for an error in the query tokens
    /// `input`.
    pub fn message(&self, input: &Vec<Tok>) -> (r: String)
        ensures
            *self matches ExpandError::Parse(f) ==> r@ == crate::parse::failure_text(f, tv(input@)),
            *self is FromPattern ==> r@ == from_pattern_text(),
    {
        match self {
            ExpandError::Parse(f) => f.message(input),
            ExpandError::FromPattern { .. } => "`from` requires a plain identifier pattern. Use `let` inside the query body for destructuring.".to_owned(),
        }
    }
}


/// The number of leading `ref` / `mut` words of a `from` pattern.
pub open spec fn modifiers(p: Seq<TokV>) -> int {
    if p.len() >= 2 && p[0] == TokV::Ident("ref"@) && p[1] == TokV::Ident("mut"@) {
        2
    } else if p.len() >= 1 && (p[0] == TokV::Ident("ref"@) || p[0] == TokV::Ident("mut"@)) {
        1
    } else {
        0
    }
}

/// The name a `from` pattern binds, when it is an identifier pattern:
/// `x`, `mut x`, `ref x`, `ref mut x`, optionally followed by `@` and a
/// subpattern.
pub open spec fn pattern_binding(p: Seq<TokV>) -> Option<Seq<char>> {
    let k = modifiers(p);
    if k < p.len() && (p[k] matches TokV::Ident(x) && x != "_"@) && (k + 1 == p.len() || is_punct(
        p[k + 1],
        '@',
    )) {
        match p[k] {
            TokV::Ident(x) => Some(x),
            _ => None,
        }
    } else {
        None
    }
}

fn is_word(t: &Tok, w: &str) -> (r: bool)
    ensures
        r == (t@ == TokV::Ident(w@)),
{
    crate::token::tok_is_ident(t, w)
}

/// The name the pattern of `from` binds, if it is an identifier pattern.
pub fn from_binding(pat: &Vec<Tok>) -> (r: Option<String>)
    ensures
        r matches Some(x) ==> pattern_binding(tv(pat@)) == Some(x@),
        r is None ==> pattern_binding(tv(pat@)) is None,
{
    let ghost p = tv(pat@);
    let n = pat.len();
    let k: usize = if n >= 2 && is_word(&pat[0], "ref") && is_word(&pat[1], "mut") {
        2
    } else if n >= 1 && (is_word(&pat[0], "ref") || is_word(&pat[0], "mut")) {
        1
    } else {
        0
    };
    assert(k == modifiers(p));
    if k >= n {
        return None;
    }
    let rest_ok = k + 1 == n || match &pat[k + 1] {
        Tok::Punct(c, _) => *c == '@',
        _ => false,
    };
    match &pat[k] {
        Tok::Ident(x) => {
            let under = "_".to_owned();
            if *x != under && rest_ok {
                Some(x.clone())
            } else {
                None
            }
        },
        _ => None,
    }
}

/// What `expand` produces for `q`: the expansion under a valid plan whose
/// first row binds the name of the `from` pattern.
pub open spec fn expands_to(q: Query, out: Seq<TokV>) -> bool {
    exists|p: Plan|
        #![trigger plan_ok(q, p)]
        pattern_binding(tv(q.from.pat@)) matches Some(x) && plan_ok(q, p) && sv(p.initial@)
            == seq![x] && out == expansion(q, p)
}

/// The code that `query` expands to.
pub fn expand(query: &Query) -> (r: Result<Vec<Tok>, ExpandError>)
    ensures
        r matches Ok(out) ==> expands_to(*query, tv(out@)),
        r is Err <==> pattern_binding(tv(query.from.pat@)) is None,
        r matches Err(e) ==> e == (ExpandError::FromPattern { at: 1 }),
{
    match from_binding(&query.from.pat) {
        None => Err(ExpandError::FromPattern { at: 1 }),
        Some(x) => {
            let p = plan_query(query, &x);
            let out = emit_query(query, &p);
            assert(plan_ok(*query, p));
            Ok(out)
        },
    }
}

/// Parses query tokens and expands the query.
pub fn expand_tokens(input: &Vec<Tok>) -> (r: Result<Vec<Tok>, ExpandError>)
    ensures
        r matches Ok(out) ==> exists|q: Query|
            #![trigger render_query(q)]
            query_wf(q) && render_query(q) == tv(input@) && expands_to(q, tv(out@)),
        r matches Err(ExpandError::FromPattern { at }) ==> at == 1 && exists|q: Query|
            #![trigger render_query(q)]
            query_wf(q) && render_query(q) == tv(input@) && pattern_binding(tv(q.from.pat@)) is None,
        (r matches Err(ExpandError::Parse(_))) <==> !parsable(tv(input@)),
        (r matches Err(ExpandError::FromPattern { .. })) <== exists|q: Query|
            #![trigger render_query(q)]
            query_wf(q) && render_query(q) == tv(input@) && pattern_binding(tv(q.from.pat@)) is None,
        r matches Err(ExpandError::Parse(f)) ==> f.at <= input.len(),
        (r matches Err(ExpandError::Parse(f)) && f.kind == ParseError::Unbalanced) <==> !balanced(tv(input@)),
        r matches Err(ExpandError::Parse(f)) ==> (f.kind == ParseError::Unbalanced ==> unbalanced_at(tv(input@), f.at as int)),
        (r matches Err(ExpandError::Parse(f)) && f.kind == ParseError::ExpectedFrom) <==> (balanced(tv(input@))
            && !(tv(input@).len() > 0 && tv(input@)[0] == TokV::Ident("from"@))),
        r matches Err(ExpandError::Parse(f)) ==> (f.kind == ParseError::ExpectedFrom ==> f.at == 0),
        (r matches Err(ExpandError::Parse(f)) && f.kind == ParseError::TrailingTokens) <==> (balanced(tv(input@))
            && query_then_more(tv(input@))),
        r matches Err(ExpandError::Parse(f)) ==> (f.kind == ParseError::TrailingTokens ==> more_at(tv(input@), f.at as int)),
        forall|k: ParseError, a: int|
            balanced(tv(input@)) && #[trigger] fails_after_clauses(tv(input@), k, a) ==> (r matches Err(
                ExpandError::Parse(f),
            ) && f.kind == k && f.at == a),
        balanced(tv(input@)) && tv(input@).len() > 0 && tv(input@)[0] == TokV::Ident("from"@) ==> (
        from_failure(tv(input@)) matches Some((k, a)) ==> (r matches Err(ExpandError::Parse(f))
            && f.kind == k && f.at == a)),
        forall|a: int|
            balanced(tv(input@)) && #[trigger] fails_at_select(tv(input@), a) ==> (r matches Err(
                ExpandError::Parse(f),
            ) && f.kind == ParseError::ExpectedExpression && f.at == a),
{
    match parse_query(input) {
        Err(e) => Err(ExpandError::Parse(e)),
        Ok(q) => {
            let r = expand(&q);
            assert(render_query(q) == tv(input@));
            proof {
                if exists|q2: Query|
                    #![trigger render_query(q2)]
                    query_wf(q2) && render_query(q2) == tv(input@) && pattern_binding(
                        tv(q2.from.pat@),
                    ) is None {
                    let q2 = choose|q2: Query|
                        #![trigger render_query(q2)]
                        query_wf(q2) && render_query(q2) == tv(input@) && pattern_binding(
                            tv(q2.from.pat@),
                        ) is None;
                    assert(same_parts(q, q2));
                }
            }
            r
        },
    }
}

} // verus!
