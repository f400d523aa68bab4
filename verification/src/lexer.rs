//! A small tokenizer for query text and for the code templates of the
//! expansion.
//!
//! It recognises identifiers, numbers (a digit followed by identifier
//! characters), string literals without escapes, the six delimiter
//! characters and punctuation. A punctuation character is joined to the next
//! one when that next character is punctuation too, as in `::` or `==`.
use vstd::prelude::*;
use crate::token::{Tok, TokV, Delim, tv, lemma_tv_push};

verus! {

pub open spec fn is_space(c: char) -> bool {
    c == ' ' || c == '\n' || c == '\t' || c == '\r'
}

pub open spec fn is_digit(c: char) -> bool {
    '0' <= c && c <= '9'
}

pub open spec fn is_ident_start(c: char) -> bool {
    ('a' <= c && c <= 'z') || ('A' <= c && c <= 'Z') || c == '_'
}

pub open spec fn is_ident_char(c: char) -> bool {
    is_ident_start(c) || is_digit(c)
}

pub open spec fn open_delim(c: char) -> Option<Delim> {
    if c == '(' {
        Some(Delim::Paren)
    } else if c == '[' {
        Some(Delim::Bracket)
    } else if c == '{' {
        Some(Delim::Brace)
    } else {
        None
    }
}

pub open spec fn close_delim(c: char) -> Option<Delim> {
    if c == ')' {
        Some(Delim::Paren)
    } else if c == ']' {
        Some(Delim::Bracket)
    } else if c == '}' {
        Some(Delim::Brace)
    } else {
        None
    }
}

/// Characters that make up punctuation tokens.
pub open spec fn is_punct_char(c: char) -> bool {
    &&& !is_space(c)
    &&& !is_ident_char(c)
    &&& open_delim(c) is None
    &&& close_delim(c) is None
    &&& c != '"'
}

/// The end of the run of identifier characters starting at `i`.
pub open spec fn ident_end(s: Seq<char>, i: int) -> int
    decreases s.len() - i,
{
    if 0 <= i < s.len() && is_ident_char(s[i]) {
        ident_end(s, i + 1)
    } else {
        i
    }
}

/// The position just after the closing quote of a string literal whose
/// contents start at `i`, or the end of the text when it is unterminated.
pub open spec fn str_end(s: Seq<char>, i: int) -> int
    decreases s.len() - i,
{
    if i < 0 || i >= s.len() {
        i
    } else if s[i] == '"' {
        i + 1
    } else {
        str_end(s, i + 1)
    }
}

pub proof fn lemma_ident_end(s: Seq<char>, i: int)
    requires
        0 <= i <= s.len(),
    ensures
        i <= ident_end(s, i) <= s.len(),
    decreases s.len() - i,
{
    if i < s.len() && is_ident_char(s[i]) {
        lemma_ident_end(s, i + 1);
    }
}

pub proof fn lemma_str_end(s: Seq<char>, i: int)
    requires
        0 <= i <= s.len(),
    ensures
        i <= str_end(s, i) <= s.len(),
    decreases s.len() - i,
{
    if i < s.len() && s[i] != '"' {
        lemma_str_end(s, i + 1);
    }
}

/// The tokens of `s` from position `i` on.
pub open spec fn lex_from(s: Seq<char>, i: int) -> Seq<TokV>
    decreases s.len() - i,
{
    if i < 0 || i >= s.len() {
        Seq::empty()
    } else {
        let c = s[i];
        if is_space(c) {
            lex_from(s, i + 1)
        } else if is_ident_start(c) {
            proof {
                lemma_ident_end(s, i + 1);
            }
            let e = ident_end(s, i + 1);
            seq![TokV::Ident(s.subrange(i, e))] + lex_from(s, e)
        } else if is_digit(c) {
            proof {
                lemma_ident_end(s, i + 1);
            }
            let e = ident_end(s, i + 1);
            seq![TokV::Lit(s.subrange(i, e))] + lex_from(s, e)
        } else if c == '"' {
            proof {
                lemma_str_end(s, i + 1);
            }
            let e = str_end(s, i + 1);
            seq![TokV::Lit(s.subrange(i, e))] + lex_from(s, e)
        } else if open_delim(c) is Some {
            seq![TokV::Open(open_delim(c)->0)] + lex_from(s, i + 1)
        } else if close_delim(c) is Some {
            seq![TokV::Close(close_delim(c)->0)] + lex_from(s, i + 1)
        } else {
            seq![TokV::Punct(c, i + 1 < s.len() && is_punct_char(s[i + 1]))] + lex_from(s, i + 1)
        }
    }
}

/// The tokens of the text `s`.
pub open spec fn lex(s: Seq<char>) -> Seq<TokV> {
    lex_from(s, 0)
}

/// Where in the text `s` each token from position `i` on starts.
pub open spec fn token_starts_from(s: Seq<char>, i: int) -> Seq<int>
    decreases s.len() - i,
{
    if i < 0 || i >= s.len() {
        Seq::empty()
    } else {
        let c = s[i];
        if is_space(c) {
            token_starts_from(s, i + 1)
        } else if is_ident_start(c) || is_digit(c) {
            proof {
                lemma_ident_end(s, i + 1);
            }
            seq![i] + token_starts_from(s, ident_end(s, i + 1))
        } else if c == '"' {
            proof {
                lemma_str_end(s, i + 1);
            }
            seq![i] + token_starts_from(s, str_end(s, i + 1))
        } else {
            seq![i] + token_starts_from(s, i + 1)
        }
    }
}

/// Where in the text `s` each of its tokens starts.
pub open spec fn token_starts(s: Seq<char>) -> Seq<int> {
    token_starts_from(s, 0)
}

/// One token of the text: where the next one starts, and the token itself
/// when it is punctuation.
proof fn lemma_lex_step(s: Seq<char>, i: int, c: char) -> (e: int)
    requires
        0 <= i < s.len(),
        c == s[i],
        !is_space(c),
    ensures
        i < e <= s.len(),
        token_starts_from(s, i) == seq![i] + token_starts_from(s, e),
        lex_from(s, i).len() == 1 + lex_from(s, e).len(),
        forall|k: int| 0 < k < lex_from(s, i).len() ==> #[trigger] lex_from(s, i)[k] == lex_from(s, e)[k - 1],
        is_punct_char(c) ==> lex_from(s, i)[0] == TokV::Punct(c, i + 1 < s.len() && is_punct_char(s[i + 1])),
{
    if is_ident_start(c) || is_digit(c) {
        lemma_ident_end(s, i + 1);
        let e = ident_end(s, i + 1);
        let t = if is_ident_start(c) { TokV::Ident(s.subrange(i, e)) } else { TokV::Lit(s.subrange(i, e)) };
        assert(lex_from(s, i) == seq![t] + lex_from(s, e));
        e
    } else if c == '"' {
        lemma_str_end(s, i + 1);
        let e = str_end(s, i + 1);
        assert(lex_from(s, i) == seq![TokV::Lit(s.subrange(i, e))] + lex_from(s, e));
        e
    } else if open_delim(c) is Some {
        assert(lex_from(s, i) == seq![TokV::Open(open_delim(c)->0)] + lex_from(s, i + 1));
        i + 1
    } else if close_delim(c) is Some {
        assert(lex_from(s, i) == seq![TokV::Close(close_delim(c)->0)] + lex_from(s, i + 1));
        i + 1
    } else {
        let t = TokV::Punct(c, i + 1 < s.len() && is_punct_char(s[i + 1]));
        assert(lex_from(s, i) == seq![t] + lex_from(s, i + 1));
        i + 1
    }
}

proof fn lemma_token_starts(s: Seq<char>, i: int)
    requires
        0 <= i <= s.len(),
    ensures
        token_starts_from(s, i).len() == lex_from(s, i).len(),
        forall|k: int|
            0 <= k < token_starts_from(s, i).len() ==> {
                let p = #[trigger] token_starts_from(s, i)[k];
                &&& i <= p < s.len()
                &&& is_punct_char(s[p]) ==> lex_from(s, i)[k] == TokV::Punct(
                    s[p],
                    p + 1 < s.len() && is_punct_char(s[p + 1]),
                )
            },
    decreases s.len() - i,
{
    if i < s.len() {
        if is_space(s[i]) {
            lemma_token_starts(s, i + 1);
        } else {
            let e = lemma_lex_step(s, i, s[i]);
            lemma_token_starts(s, e);
            let ts = token_starts_from(s, i);
            let ls = lex_from(s, i);
            assert forall|k: int| 0 <= k < ts.len() implies {
                let p = #[trigger] ts[k];
                &&& i <= p < s.len()
                &&& is_punct_char(s[p]) ==> ls[k] == TokV::Punct(
                    s[p],
                    p + 1 < s.len() && is_punct_char(s[p + 1]),
                )
            } by {
                if k > 0 {
                    assert(ts[k] == token_starts_from(s, e)[k - 1]);
                    assert(ls[k] == lex_from(s, e)[k - 1]);
                }
            }
        }
    }
}

/// Punctuation joins: in the tokens of any text, the token of a
/// punctuation character is marked joint exactly when the very next
/// character of the text is punctuation too, as in `::`, `==` or `=>`.
pub proof fn law_punct_joint_iff_next_is_punct(s: Seq<char>, k: int)
    requires
        0 <= k < token_starts(s).len(),
        is_punct_char(s[token_starts(s)[k]]),
    ensures
        token_starts(s).len() == lex(s).len(),
        0 <= token_starts(s)[k] < s.len(),
        lex(s)[k] == TokV::Punct(
            s[token_starts(s)[k]],
            token_starts(s)[k] + 1 < s.len() && is_punct_char(s[token_starts(s)[k] + 1]),
        ),
{
    lemma_token_starts(s, 0);
}

fn is_space_exec(c: char) -> (r: bool)
    ensures
        r == is_space(c),
{
    c == ' ' || c == '\n' || c == '\t' || c == '\r'
}

fn is_digit_exec(c: char) -> (r: bool)
    ensures
        r == is_digit(c),
{
    '0' <= c && c <= '9'
}

fn is_ident_start_exec(c: char) -> (r: bool)
    ensures
        r == is_ident_start(c),
{
    ('a' <= c && c <= 'z') || ('A' <= c && c <= 'Z') || c == '_'
}

fn is_ident_char_exec(c: char) -> (r: bool)
    ensures
        r == is_ident_char(c),
{
    is_ident_start_exec(c) || is_digit_exec(c)
}

fn open_delim_exec(c: char) -> (r: Option<Delim>)
    ensures
        r == open_delim(c),
{
    if c == '(' {
        Some(Delim::Paren)
    } else if c == '[' {
        Some(Delim::Bracket)
    } else if c == '{' {
        Some(Delim::Brace)
    } else {
        None
    }
}

fn close_delim_exec(c: char) -> (r: Option<Delim>)
    ensures
        r == close_delim(c),
{
    if c == ')' {
        Some(Delim::Paren)
    } else if c == ']' {
        Some(Delim::Bracket)
    } else if c == '}' {
        Some(Delim::Brace)
    } else {
        None
    }
}

fn is_punct_char_exec(c: char) -> (r: bool)
    ensures
        r == is_punct_char(c),
{
    !is_space_exec(c) && !is_ident_char_exec(c) && open_delim_exec(c).is_none()
        && close_delim_exec(c).is_none() && c != '"'
}

/// Appends the tokens of `text` to `out`.
pub fn lex_into(out: &mut Vec<Tok>, text: &str)
    ensures
        tv(final(out)@) == tv(old(out)@) + lex(text@),
{
    let n = text.unicode_len();
    let ghost s = text@;
    let mut i: usize = 0;
    assert(tv(out@) + lex_from(s, 0) =~= tv(old(out)@) + lex(s));
    while i < n
        invariant
            n == s.len(),
            s == text@,
            i <= n,
            tv(out@) + lex_from(s, i as int) == tv(old(out)@) + lex(s),
        decreases n - i,
    {
        let c = text.get_char(i);
        let ghost before = tv(out@);
        if is_space_exec(c) {
            i += 1;
        } else if is_ident_start_exec(c) || is_digit_exec(c) {
            let mut e = i + 1;
            while e < n && is_ident_char_exec(text.get_char(e))
                invariant
                    n == s.len(),
                    s == text@,
                    i < e <= n,
                    ident_end(s, i + 1) == ident_end(s, e as int),
                decreases n - e,
            {
                e += 1;
            }
            proof {
                lemma_ident_end(s, i + 1);
            }
            let piece = text.substring_char(i, e).to_owned();
            let t = if is_ident_start_exec(c) {
                Tok::Ident(piece)
            } else {
                Tok::Lit(piece)
            };
            proof {
                lemma_tv_push(out@, t);
            }
            out.push(t);
            assert(tv(out@) + lex_from(s, e as int) =~= before + lex_from(s, i as int));
            i = e;
        } else if c == '"' {
            let mut e = i + 1;
            while e < n && text.get_char(e) != '"'
                invariant
                    n == s.len(),
                    s == text@,
                    i < e <= n,
                    str_end(s, i + 1) == str_end(s, e as int),
                decreases n - e,
            {
                e += 1;
            }
            if e < n {
                e += 1;
            }
            proof {
                lemma_str_end(s, i + 1);
            }
            let piece = text.substring_char(i, e).to_owned();
            let t = Tok::Lit(piece);
            proof {
                lemma_tv_push(out@, t);
            }
            out.push(t);
            assert(tv(out@) + lex_from(s, e as int) =~= before + lex_from(s, i as int));
            i = e;
        } else {
            let t = match open_delim_exec(c) {
                Some(d) => Tok::Open(d),
                None => match close_delim_exec(c) {
                    Some(d) => Tok::Close(d),
                    None => {
                        let joint = i + 1 < n && is_punct_char_exec(text.get_char(i + 1));
                        Tok::Punct(c, joint)
                    },
                },
            };
            proof {
                lemma_tv_push(out@, t);
            }
            out.push(t);
            assert(tv(out@) + lex_from(s, i + 1) =~= before + lex_from(s, i as int));
            i += 1;
        }
    }
}

/// The tokens of `text`.
pub fn tokenize(text: &str) -> (r: Vec<Tok>)
    ensures
        tv(r@) == lex(text@),
{
    let mut out: Vec<Tok> = Vec::new();
    lex_into(&mut out, text);
    assert(tv(out@) =~= lex(text@));
    out
}

} // verus!
