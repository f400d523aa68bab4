//! Flat token model of a macro input or output.
//!
//! A token stream is a sequence of leaf tokens in which every delimited
//! group is written as an `Open` token, the group's contents and a matching
//! `Close` token. Identifiers and literals carry their source text.
use vstd::prelude::*;

verus! {

/// The delimiter of a group.
#[derive(Clone, Copy, Debug, PartialEq, Eq, Structural)]
pub enum Delim {
    /// `( ... )`
    Paren,
    /// `[ ... ]`
    Bracket,
    /// `{ ... }`
    Brace,
    /// A group without visible delimiters.
    Invisible,
}

/// One token of a flat token stream.
#[derive(Clone, Debug)]
pub enum Tok {
    /// An identifier or keyword, by its text.
    Ident(String),
    /// A punctuation character; the flag is `true` when the character is
    /// joined to the punctuation character that follows it (as in `==`).
    Punct(char, bool),
    /// A literal, by its source text.
    Lit(String),
    /// The start of a delimited group.
    Open(Delim),
    /// The end of a delimited group.
    Close(Delim),
}

/// The mathematical value of a token.
pub enum TokV {
    Ident(Seq<char>),
    Punct(char, bool),
    Lit(Seq<char>),
    Open(Delim),
    Close(Delim),
}

impl View for Tok {
    type V = TokV;

    open spec fn view(&self) -> TokV {
        match self {
            Tok::Ident(s) => TokV::Ident(s@),
            Tok::Punct(c, j) => TokV::Punct(*c, *j),
            Tok::Lit(s) => TokV::Lit(s@),
            Tok::Open(d) => TokV::Open(*d),
            Tok::Close(d) => TokV::Close(*d),
        }
    }
}

/// The values of a sequence of tokens.
pub open spec fn tv(s: Seq<Tok>) -> Seq<TokV> {
    s.map_values(|t: Tok| t@)
}

pub proof fn lemma_tv_push(s: Seq<Tok>, t: Tok)
    ensures
        tv(s.push(t)) == tv(s).push(t@),
{
    assert(tv(s.push(t)) =~= tv(s).push(t@));
}

/// How much a token changes the nesting depth.
pub open spec fn depth_delta(t: TokV) -> int {
    match t {
        TokV::Open(_) => 1,
        TokV::Close(_) => -1,
        _ => 0,
    }
}

/// The nesting depth after the first `n` tokens of `s`.
pub open spec fn depth_at(s: Seq<TokV>, n: int) -> int
    decreases n,
{
    if n <= 0 {
        0
    } else {
        depth_at(s, n - 1) + depth_delta(s[n - 1])
    }
}

/// Every prefix of `s` closes no more groups than it opened, and `s` closes
/// every group it opens.
pub open spec fn balanced(s: Seq<TokV>) -> bool {
    &&& forall|n: int| 0 <= n <= s.len() ==> #[trigger] depth_at(s, n) >= 0
    &&& depth_at(s, s.len() as int) == 0
}

/// The depth after a prefix depends on that prefix alone.
pub proof fn lemma_depth_prefix(s: Seq<TokV>, u: Seq<TokV>, n: int)
    requires
        0 <= n <= s.len(),
    ensures
        depth_at(s + u, n) == depth_at(s, n),
    decreases n,
{
    if n > 0 {
        lemma_depth_prefix(s, u, n - 1);
    }
}

/// The depth inside a suffix, counted from the suffix's start.
pub proof fn lemma_depth_shift(s: Seq<TokV>, u: Seq<TokV>, n: int)
    requires
        0 <= n <= u.len(),
    ensures
        depth_at(s + u, s.len() + n) == depth_at(s, s.len() as int) + depth_at(u, n),
    decreases n,
{
    if n > 0 {
        lemma_depth_shift(s, u, n - 1);
        assert((s + u)[s.len() + n - 1] == u[n - 1]);
    } else {
        lemma_depth_prefix(s, u, s.len() as int);
    }
}

/// Two balanced streams written one after the other are balanced.
pub proof fn lemma_balanced_concat(a: Seq<TokV>, b: Seq<TokV>)
    requires
        balanced(a),
        balanced(b),
    ensures
        balanced(a + b),
{
    assert forall|n: int| 0 <= n <= (a + b).len() implies #[trigger] depth_at(a + b, n) >= 0 by {
        if n <= a.len() {
            lemma_depth_prefix(a, b, n);
        } else {
            lemma_depth_shift(a, b, n - a.len());
        }
    }
    lemma_depth_shift(a, b, b.len() as int);
}

/// A copy of a token with the same value.
pub fn copy_tok(t: &Tok) -> (r: Tok)
    ensures
        r@ == t@,
{
    match t {
        Tok::Ident(s) => Tok::Ident(s.clone()),
        Tok::Punct(c, j) => Tok::Punct(*c, *j),
        Tok::Lit(s) => Tok::Lit(s.clone()),
        Tok::Open(d) => Tok::Open(*d),
        Tok::Close(d) => Tok::Close(*d),
    }
}

/// Appends copies of `src[from..to]` to `out`.
pub fn extend_toks(out: &mut Vec<Tok>, src: &Vec<Tok>, from: usize, to: usize)
    requires
        from <= to <= src.len(),
    ensures
        tv(final(out)@) == tv(old(out)@) + tv(src@).subrange(from as int, to as int),
{
    let mut i = from;
    while i < to
        invariant
            from <= i <= to <= src.len(),
            tv(out@) == tv(old(out)@) + tv(src@).subrange(from as int, i as int),
        decreases to - i,
    {
        let t = copy_tok(&src[i]);
        proof {
            lemma_tv_push(out@, t);
        }
        out.push(t);
        i += 1;
        assert(tv(out@) =~= tv(old(out)@) + tv(src@).subrange(from as int, i as int));
    }
}

/// Appends copies of all of `src` to `out`.
pub fn append_toks(out: &mut Vec<Tok>, src: &Vec<Tok>)
    ensures
        tv(final(out)@) == tv(old(out)@) + tv(src@),
{
    extend_toks(out, src, 0, src.len());
    assert(tv(src@).subrange(0, src.len() as int) =~= tv(src@));
}

/// `t` is the identifier `kw`.
pub open spec fn is_ident(t: TokV, kw: Seq<char>) -> bool {
    t == TokV::Ident(kw)
}

/// Whether the token is the identifier `kw`.
pub fn tok_is_ident(t: &Tok, kw: &str) -> (r: bool)
    ensures
        r == is_ident(t@, kw@),
{
    match t {
        Tok::Ident(s) => {
            let k = kw.to_owned();
            *s == k
        },
        _ => false,
    }
}

/// Whether two names are equal.
pub fn same_name(a: &String, b: &String) -> (r: bool)
    ensures
        r == (a@ == b@),
{
    *a == *b
}

} // verus!
