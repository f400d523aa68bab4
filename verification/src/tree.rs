//! Token trees: the nested form of a token stream, in which a delimited
//! group holds its contents. `flatten` writes a sequence of trees as flat
//! tokens; `build` reads flat tokens back into trees.
use vstd::prelude::*;
use crate::token::{Tok, TokV, Delim, tv, lemma_tv_push, depth_at, balanced, lemma_balanced_concat, lemma_depth_prefix, lemma_depth_shift};

verus! {

/// A token tree: a leaf token or a delimited group of trees. Each token
/// carries a position: an index that the caller gives it, such as the index
/// of its place in the source in a table of the caller's.
#[derive(Debug)]
pub enum TokTree {
    /// An identifier or keyword, by its text, and its position.
    Ident(String, u32),
    /// A punctuation character, whether it is joined to the next one, and
    /// its position.
    Punct(char, bool, u32),
    /// A literal, by its source text, and its position.
    Lit(String, u32),
    /// A delimited group, the trees inside it, and the positions of its
    /// opening and closing delimiters.
    Group(Delim, Vec<TokTree>, u32, u32),
}

/// The flat tokens of a tree: a group is its opening delimiter, the flat
/// tokens of its contents and its closing delimiter.
pub open spec fn flat_tree(t: TokTree) -> Seq<TokV>
    decreases t,
{
    match t {
        TokTree::Ident(s, _) => seq![TokV::Ident(s@)],
        TokTree::Punct(c, j, _) => seq![TokV::Punct(c, j)],
        TokTree::Lit(s, _) => seq![TokV::Lit(s@)],
        TokTree::Group(d, ts, _, _) => seq![TokV::Open(d)] + flat_forest(ts@) + seq![TokV::Close(d)],
    }
}

/// The flat tokens of a sequence of trees, one tree after the other.
pub open spec fn flat_forest(ts: Seq<TokTree>) -> Seq<TokV>
    decreases ts,
{
    if ts.len() == 0 {
        Seq::empty()
    } else {
        flat_forest(ts.drop_last()) + flat_tree(ts.last())
    }
}

/// The positions of the flat tokens of a tree, token for token.
pub open spec fn tree_positions(t: TokTree) -> Seq<u32>
    decreases t,
{
    match t {
        TokTree::Ident(_, p) => seq![p],
        TokTree::Punct(_, _, p) => seq![p],
        TokTree::Lit(_, p) => seq![p],
        TokTree::Group(_, ts, o, c) => seq![o] + forest_positions(ts@) + seq![c],
    }
}

/// The positions of the flat tokens of a sequence of trees.
pub open spec fn forest_positions(ts: Seq<TokTree>) -> Seq<u32>
    decreases ts,
{
    if ts.len() == 0 {
        Seq::empty()
    } else {
        forest_positions(ts.drop_last()) + tree_positions(ts.last())
    }
}

/// The mathematical value of a token tree.
pub enum TreeV {
    Ident(Seq<char>, u32),
    Punct(char, bool, u32),
    Lit(Seq<char>, u32),
    Group(Delim, Seq<TreeV>, u32, u32),
}

/// The value of a tree.
pub open spec fn tree_view(t: TokTree) -> TreeV
    decreases t,
{
    match t {
        TokTree::Ident(s, p) => TreeV::Ident(s@, p),
        TokTree::Punct(c, j, p) => TreeV::Punct(c, j, p),
        TokTree::Lit(s, p) => TreeV::Lit(s@, p),
        TokTree::Group(d, ts, o, c) => TreeV::Group(d, forest_view(ts@), o, c),
    }
}

/// The values of a sequence of trees.
pub open spec fn forest_view(ts: Seq<TokTree>) -> Seq<TreeV>
    decreases ts,
{
    if ts.len() == 0 {
        Seq::empty()
    } else {
        forest_view(ts.drop_last()).push(tree_view(ts.last()))
    }
}

impl View for TokTree {
    type V = TreeV;

    open spec fn view(&self) -> TreeV {
        tree_view(*self)
    }
}

/// The trees of a non-empty sequence: its first tree, then the others.
proof fn lemma_forest_first(ts: Seq<TokTree>)
    requires
        ts.len() > 0,
    ensures
        flat_forest(ts) == flat_tree(ts[0]) + flat_forest(ts.drop_first()),
        forest_positions(ts) == tree_positions(ts[0]) + forest_positions(ts.drop_first()),
        forest_view(ts) == seq![tree_view(ts[0])] + forest_view(ts.drop_first()),
    decreases ts.len(),
{
    if ts.len() == 1 {
        assert(ts.drop_last() =~= Seq::<TokTree>::empty());
        assert(ts.drop_first() =~= Seq::<TokTree>::empty());
        assert(flat_forest(ts) =~= flat_tree(ts[0]) + flat_forest(ts.drop_first()));
        assert(forest_positions(ts) =~= tree_positions(ts[0]) + forest_positions(ts.drop_first()));
        assert(forest_view(ts) =~= seq![tree_view(ts[0])] + forest_view(ts.drop_first()));
    } else {
        let init = ts.drop_last();
        lemma_forest_first(init);
        assert(init.drop_first() =~= ts.drop_first().drop_last());
        assert(ts.drop_first().last() == ts.last());
        assert(flat_forest(ts) =~= flat_tree(ts[0]) + flat_forest(ts.drop_first()));
        assert(forest_positions(ts) =~= tree_positions(ts[0]) + forest_positions(ts.drop_first()));
        assert(forest_view(ts) =~= seq![tree_view(ts[0])] + forest_view(ts.drop_first()));
    }
}

/// The flat tokens of trees are balanced.
proof fn lemma_tree_balanced(t: TokTree)
    ensures
        balanced(flat_tree(t)),
    decreases t,
{
    match t {
        TokTree::Group(d, ts, _, _) => {
            lemma_forest_balanced(ts@);
            let o = seq![TokV::Open(d)];
            let c = seq![TokV::Close(d)];
            let inner = flat_forest(ts@);
            assert(depth_at(o, 0) == 0);
            assert(depth_at(o, 1) == 1);
            assert(depth_at(c, 0) == 0);
            assert(depth_at(c, 1) == -1);
            assert forall|n: int| 0 <= n <= (o + inner + c).len() implies #[trigger] depth_at(o + inner + c, n) >= 0 by {
                if n == 0 {
                } else if n <= 1 + inner.len() {
                    lemma_depth_prefix(o + inner, c, n);
                    lemma_depth_shift(o, inner, n - 1);
                } else {
                    lemma_depth_shift(o + inner, c, 1);
                    lemma_depth_shift(o, inner, inner.len() as int);
                }
            }
            lemma_depth_shift(o + inner, c, 1);
            lemma_depth_shift(o, inner, inner.len() as int);
        },
        _ => {
            assert(depth_at(flat_tree(t), 0) == 0);
            assert(depth_at(flat_tree(t), 1) == 0);
        },
    }
}

proof fn lemma_forest_balanced(ts: Seq<TokTree>)
    ensures
        balanced(flat_forest(ts)),
    decreases ts,
{
    if ts.len() == 0 {
        assert(depth_at(flat_forest(ts), 0) == 0);
    } else {
        lemma_forest_balanced(ts.drop_last());
        lemma_tree_balanced(ts.last());
        lemma_balanced_concat(flat_forest(ts.drop_last()), flat_tree(ts.last()));
    }
}

proof fn lemma_flat_forest_push(ts: Seq<TokTree>, t: TokTree)
    ensures
        flat_forest(ts.push(t)) == flat_forest(ts) + flat_tree(t),
        forest_positions(ts.push(t)) == forest_positions(ts) + tree_positions(t),
{
    assert(ts.push(t).drop_last() =~= ts);
}

/// A tree has one position per flat token.
proof fn lemma_tree_positions_len(t: TokTree)
    ensures
        tree_positions(t).len() == flat_tree(t).len(),
    decreases t,
{
    if let TokTree::Group(_, ts, _, _) = t {
        lemma_forest_positions_len(ts@);
    }
}

proof fn lemma_forest_positions_len(ts: Seq<TokTree>)
    ensures
        forest_positions(ts).len() == flat_forest(ts).len(),
    decreases ts,
{
    if ts.len() > 0 {
        lemma_forest_positions_len(ts.drop_last());
        lemma_tree_positions_len(ts.last());
    }
}

/// Appends the flat tokens of the trees `ts` to `out` and their positions
/// to `at`.
pub fn flatten_into(ts: &Vec<TokTree>, out: &mut Vec<Tok>, at: &mut Vec<u32>)
    ensures
        tv(final(out)@) == tv(old(out)@) + flat_forest(ts@),
        final(at)@ == old(at)@ + forest_positions(ts@),
    decreases ts,
{
    let mut i: usize = 0;
    assert(ts@.take(0) =~= Seq::<TokTree>::empty());
    assert(tv(out@) =~= tv(old(out)@) + flat_forest(ts@.take(0)));
    assert(at@ =~= old(at)@ + forest_positions(ts@.take(0)));
    while i < ts.len()
        invariant
            i <= ts.len(),
            tv(out@) == tv(old(out)@) + flat_forest(ts@.take(i as int)),
            at@ == old(at)@ + forest_positions(ts@.take(i as int)),
        decreases ts.len() - i,
    {
        let ghost before = tv(out@);
        let ghost before_at = at@;
        match &ts[i] {
            TokTree::Ident(s, p) => {
                let t = Tok::Ident(s.clone());
                proof {
                    lemma_tv_push(out@, t);
                }
                out.push(t);
                at.push(*p);
            },
            TokTree::Punct(c, j, p) => {
                let t = Tok::Punct(*c, *j);
                proof {
                    lemma_tv_push(out@, t);
                }
                out.push(t);
                at.push(*p);
            },
            TokTree::Lit(s, p) => {
                let t = Tok::Lit(s.clone());
                proof {
                    lemma_tv_push(out@, t);
                }
                out.push(t);
                at.push(*p);
            },
            TokTree::Group(d, inner, po, pc) => {
                let o = Tok::Open(*d);
                proof {
                    lemma_tv_push(out@, o);
                }
                out.push(o);
                at.push(*po);
                proof {
                    assert(decreases_to!(ts => ts@[i as int]));
                }
                flatten_into(inner, out, at);
                let c = Tok::Close(*d);
                proof {
                    lemma_tv_push(out@, c);
                }
                out.push(c);
                at.push(*pc);
            },
        }
        proof {
            assert(ts@.take(i + 1) =~= ts@.take(i as int).push(ts@[i as int]));
            lemma_flat_forest_push(ts@.take(i as int), ts@[i as int]);
        }
        assert(tv(out@) =~= tv(old(out)@) + flat_forest(ts@.take(i + 1)));
        assert(at@ =~= old(at)@ + forest_positions(ts@.take(i + 1)));
        i += 1;
    }
    assert(ts@.take(ts.len() as int) =~= ts@);
}

/// The flat tokens of the trees `ts`, and their positions.
pub fn flatten(ts: &Vec<TokTree>) -> (r: (Vec<Tok>, Vec<u32>))
    ensures
        tv(r.0@) == flat_forest(ts@),
        r.1@ == forest_positions(ts@),
        r.1@.len() == r.0@.len(),
{
    let mut out: Vec<Tok> = Vec::new();
    let mut at: Vec<u32> = Vec::new();
    flatten_into(ts, &mut out, &mut at);
    assert(tv(out@) =~= flat_forest(ts@));
    assert(at@ =~= forest_positions(ts@));
    proof {
        lemma_forest_positions_len(ts@);
    }
    (out, at)
}

/// Some sequence of trees has `s` as its flat tokens.
pub open spec fn nested(s: Seq<TokV>) -> bool {
    exists|f: Seq<TokTree>| #[trigger] flat_forest(f) == s
}

/// The trees `f` are written at `start` in `s`, followed by the end of `s`
/// or by a closing delimiter.
spec fn forest_fits(s: Seq<TokV>, start: int, f: Seq<TokTree>) -> bool {
    let n = flat_forest(f).len() as int;
    &&& 0 <= start
    &&& start + n <= s.len()
    &&& s.subrange(start, start + n) == flat_forest(f)
    &&& (start + n == s.len() || s[start + n] is Close)
}

/// A tree is written as at least one token, and its first token is not a
/// closing delimiter.
proof fn lemma_flat_tree_head(t: TokTree)
    ensures
        flat_tree(t).len() > 0,
        !(flat_tree(t)[0] is Close),
        t matches TokTree::Group(d, _, _, _) ==> flat_tree(t)[0] == TokV::Open(d),
        t matches TokTree::Ident(x, _) ==> flat_tree(t) == seq![TokV::Ident(x@)],
        t matches TokTree::Punct(c, j, _) ==> flat_tree(t) == seq![TokV::Punct(c, j)],
        t matches TokTree::Lit(x, _) ==> flat_tree(t) == seq![TokV::Lit(x@)],
{
}

/// The trees before `k` are written first.
proof fn lemma_forest_prefix(f: Seq<TokTree>, k: int)
    requires
        0 <= k <= f.len(),
    ensures
        flat_forest(f.take(k)).len() <= flat_forest(f).len(),
        flat_forest(f).subrange(0, flat_forest(f.take(k)).len() as int) == flat_forest(f.take(k)),
    decreases f.len() - k,
{
    if k == f.len() {
        assert(f.take(k) =~= f);
        assert(flat_forest(f).subrange(0, flat_forest(f).len() as int) =~= flat_forest(f));
    } else {
        lemma_forest_prefix(f, k + 1);
        assert(f.take(k + 1) =~= f.take(k).push(f[k]));
        lemma_flat_forest_push(f.take(k), f[k]);
        let big = flat_forest(f);
        let a = flat_forest(f.take(k));
        let b = flat_forest(f.take(k + 1));
        assert(big.subrange(0, a.len() as int) =~= b.subrange(0, a.len() as int));
        assert(b.subrange(0, a.len() as int) =~= a);
    }
}

/// Where tree `k` of trees written at `start` lies.
proof fn lemma_forest_item(s: Seq<TokV>, start: int, f: Seq<TokTree>, k: int)
    requires
        forest_fits(s, start, f),
        0 <= k < f.len(),
    ensures
        start + flat_forest(f.take(k)).len() + flat_tree(f[k]).len() <= s.len(),
        s.subrange(
            start + flat_forest(f.take(k)).len(),
            start + flat_forest(f.take(k)).len() + flat_tree(f[k]).len(),
        ) == flat_tree(f[k]),
        flat_forest(f.take(k + 1)).len() == flat_forest(f.take(k)).len() + flat_tree(f[k]).len(),
{
    lemma_forest_prefix(f, k + 1);
    assert(f.take(k + 1) =~= f.take(k).push(f[k]));
    lemma_flat_forest_push(f.take(k), f[k]);
    let whole = flat_forest(f);
    let a = flat_forest(f.take(k)).len() as int;
    let b = flat_forest(f.take(k + 1));
    let t = flat_tree(f[k]);
    assert forall|x: int| 0 <= x < t.len() implies s.subrange(start + a, start + a + t.len())[x] == t[x] by {
        assert(b[a + x] == t[x]);
        assert(whole.subrange(0, b.len() as int)[a + x] == b[a + x]);
        assert(s.subrange(start, start + whole.len())[a + x] == whole[a + x]);
    }
    assert(s.subrange(start + a, start + a + t.len()) =~= t);
}


/// Inside a group the depth stays above 0, and it returns to 0 right after
/// the group's closing delimiter, whatever follows.
proof fn lemma_group_depth(t: TokTree, rest: Seq<TokV>)
    requires
        t is Group,
    ensures
        forall|j: int| 0 < j < flat_tree(t).len() ==> #[trigger] depth_at(flat_tree(t) + rest, j) > 0,
        depth_at(flat_tree(t) + rest, flat_tree(t).len() as int) == 0,
{
    let g = flat_tree(t);
    lemma_tree_balanced(t);
    lemma_depth_prefix(g, rest, g.len() as int);
    if let TokTree::Group(d, ts, _, _) = t {
        let o = seq![TokV::Open(d)];
        let c = seq![TokV::Close(d)];
        let inner = flat_forest(ts@);
        lemma_forest_balanced(ts@);
        assert(g == o + inner + c);
        assert(depth_at(o, 0) == 0);
        assert(depth_at(o, 1) == 1);
        assert forall|j: int| 0 < j < g.len() implies #[trigger] depth_at(g + rest, j) > 0 by {
            lemma_depth_prefix(g, rest, j);
            lemma_depth_prefix(o + inner, c, j);
            lemma_depth_shift(o, inner, j - 1);
        }
    }
}

/// Trees with the same flat tokens and the same positions are the same
/// trees.
proof fn lemma_flat_injective(a: Seq<TokTree>, b: Seq<TokTree>)
    requires
        flat_forest(a) == flat_forest(b),
        forest_positions(a) == forest_positions(b),
    ensures
        forest_view(a) == forest_view(b),
    decreases flat_forest(a).len(),
{
    let s = flat_forest(a);
    let ps = forest_positions(a);
    if a.len() == 0 || b.len() == 0 {
        if a.len() > 0 {
            lemma_forest_first(a);
            lemma_flat_tree_head(a[0]);
        }
        if b.len() > 0 {
            lemma_forest_first(b);
            lemma_flat_tree_head(b[0]);
        }
        assert(forest_view(a) =~= forest_view(b));
    } else {
        lemma_forest_first(a);
        lemma_forest_first(b);
        let ta = a[0];
        let tb = b[0];
        let fa = flat_tree(ta);
        let fb = flat_tree(tb);
        let ra = flat_forest(a.drop_first());
        let rb = flat_forest(b.drop_first());
        let qa = tree_positions(ta);
        let qb = tree_positions(tb);
        lemma_tree_positions_len(ta);
        lemma_tree_positions_len(tb);
        lemma_flat_tree_head(ta);
        lemma_flat_tree_head(tb);
        assert(s == fa + ra);
        assert(s == fb + rb);
        assert(ps == qa + forest_positions(a.drop_first()));
        assert(ps == qb + forest_positions(b.drop_first()));
        assert(s[0] == fa[0]);
        assert(s[0] == fb[0]);
        let la = fa.len() as int;
        let lb = fb.len() as int;
        if ta is Group || tb is Group {
            assert(ta is Group && tb is Group);
            lemma_group_depth(ta, ra);
            lemma_group_depth(tb, rb);
            if la < lb {
                assert(depth_at(fb + rb, la) > 0);
            }
            if lb < la {
                assert(depth_at(fa + ra, lb) > 0);
            }
            assert(la == lb);
            assert(fa =~= s.subrange(0, la));
            assert(fb =~= s.subrange(0, lb));
            assert(qa =~= ps.subrange(0, la));
            assert(qb =~= ps.subrange(0, lb));
            if let TokTree::Group(da, va, oa, ca) = ta {
                if let TokTree::Group(db, vb, ob, cb) = tb {
                    assert(fa == seq![TokV::Open(da)] + flat_forest(va@) + seq![TokV::Close(da)]);
                    assert(fb == seq![TokV::Open(db)] + flat_forest(vb@) + seq![TokV::Close(db)]);
                    assert(qa == seq![oa] + forest_positions(va@) + seq![ca]);
                    assert(qb == seq![ob] + forest_positions(vb@) + seq![cb]);
                    assert(flat_forest(va@) =~= fa.subrange(1, la - 1));
                    assert(flat_forest(vb@) =~= fb.subrange(1, lb - 1));
                    assert(forest_positions(va@) =~= qa.subrange(1, la - 1));
                    assert(forest_positions(vb@) =~= qb.subrange(1, lb - 1));
                    assert(qa[0] == oa && qb[0] == ob);
                    assert(qa[la - 1] == ca && qb[lb - 1] == cb);
                    lemma_flat_injective(va@, vb@);
                }
            }
            assert(tree_view(ta) == tree_view(tb));
        } else {
            assert(qa[0] == ps[0] && qb[0] == ps[0]);
            assert(tree_view(ta) == tree_view(tb));
        }
        assert(ra =~= s.subrange(la, s.len() as int));
        assert(rb =~= s.subrange(lb, s.len() as int));
        assert(forest_positions(a.drop_first()) =~= ps.subrange(la, ps.len() as int));
        assert(forest_positions(b.drop_first()) =~= ps.subrange(lb, ps.len() as int));
        lemma_flat_injective(a.drop_first(), b.drop_first());
    }
}

/// Flattening loses nothing: two sequences of trees written with the same
/// flat tokens and the same positions are the same trees. So the trees that
/// `build` reads from the output of `flatten` are the trees that were
/// flattened.
pub proof fn law_flatten_is_injective(a: Seq<TokTree>, b: Seq<TokTree>)
    requires
        flat_forest(a) == flat_forest(b),
        forest_positions(a) == forest_positions(b),
    ensures
        forest_view(a) == forest_view(b),
{
    lemma_flat_injective(a, b);
}

/// Reads trees from `start` up to the end of the tokens or up to a closing
/// delimiter that closes no group opened here; returns the trees and where
/// they end, or `None` when a group is closed by another delimiter than the
/// one that opened it, or is never closed.
#[verifier::rlimit(80)]
fn build_from(toks: &Vec<Tok>, at: &Vec<u32>, start: usize, Ghost(w): Ghost<Option<Seq<TokTree>>>) -> (r: Option<(Vec<TokTree>, usize)>)
    requires
        start <= toks.len(),
        at.len() == toks.len(),
        w matches Some(f) ==> forest_fits(tv(toks@), start as int, f),
    ensures
        r matches Some((f, e)) ==> {
            &&& start <= e <= toks.len()
            &&& flat_forest(f@) == tv(toks@).subrange(start as int, e as int)
            &&& forest_positions(f@) == at@.subrange(start as int, e as int)
            &&& (e == toks.len() || tv(toks@)[e as int] is Close)
        },
        w matches Some(f) ==> r matches Some((_, e)) && e == start + flat_forest(f).len(),
    decreases toks.len() - start,
{
    let ghost s = tv(toks@);
    let mut out: Vec<TokTree> = Vec::new();
    let mut i = start;
    let ghost mut k: int = 0;
    assert(flat_forest(out@) =~= s.subrange(start as int, i as int));
    assert(forest_positions(out@) =~= at@.subrange(start as int, i as int));
    proof {
        if w is Some {
            assert(w->0.take(0) =~= Seq::<TokTree>::empty());
        }
    }
    loop
        invariant
            s == tv(toks@),
            at.len() == toks.len(),
            start <= i <= toks.len(),
            flat_forest(out@) == s.subrange(start as int, i as int),
            forest_positions(out@) == at@.subrange(start as int, i as int),
            w matches Some(f) ==> forest_fits(s, start as int, f),
            w matches Some(f) ==> 0 <= k <= f.len() && i == start + flat_forest(f.take(k)).len(),
        ensures
            start <= i <= toks.len(),
            flat_forest(out@) == s.subrange(start as int, i as int),
            forest_positions(out@) == at@.subrange(start as int, i as int),
            i == toks.len() || s[i as int] is Close,
            w matches Some(f) ==> i == start + flat_forest(f).len(),
        decreases toks.len() - i,
    {
        let ghost item: Option<TokTree> = None;
        proof {
            if w is Some {
                let f = w->0;
                if k == f.len() {
                    assert(f.take(k) =~= f);
                } else {
                    lemma_forest_item(s, start as int, f, k);
                    lemma_flat_tree_head(f[k]);
                    let a = i as int;
                    assert(s[a] == flat_tree(f[k])[0]) by {
                        assert(s.subrange(a, a + flat_tree(f[k]).len())[0] == s[a]);
                    }
                    item = Some(f[k]);
                }
            }
        }
        if i >= toks.len() {
            break;
        }
        let ghost before = out@;
        let ghost i0 = i as int;
        match &toks[i] {
            Tok::Close(_) => {
                break;
            },
            Tok::Ident(x) => {
                out.push(TokTree::Ident(x.clone(), at[i]));
                i += 1;
                assert(flat_tree(out@.last()) =~= s.subrange(i0, i as int));
                assert(tree_positions(out@.last()) =~= at@.subrange(i0, i as int));
            },
            Tok::Punct(c, j) => {
                out.push(TokTree::Punct(*c, *j, at[i]));
                i += 1;
                assert(flat_tree(out@.last()) =~= s.subrange(i0, i as int));
                assert(tree_positions(out@.last()) =~= at@.subrange(i0, i as int));
            },
            Tok::Lit(x) => {
                out.push(TokTree::Lit(x.clone(), at[i]));
                i += 1;
                assert(flat_tree(out@.last()) =~= s.subrange(i0, i as int));
                assert(tree_positions(out@.last()) =~= at@.subrange(i0, i as int));
            },
            Tok::Open(d) => {
                let ghost inner_w: Option<Seq<TokTree>> = match item {
                    Some(TokTree::Group(_, inner, _, _)) => Some(inner@),
                    _ => None,
                };
                proof {
                    if item is Some {
                        let t = item->0;
                        let a = i as int;
                        let n = flat_tree(t).len() as int;
                        if let TokTree::Group(d0, inner, _, _) = t {
                            let fi = flat_forest(inner@);
                            assert(flat_tree(t) == seq![TokV::Open(d0)] + fi + seq![TokV::Close(d0)]);
                            assert(s.subrange(a + 1, a + 1 + fi.len()) =~= fi) by {
                                assert forall|x: int| 0 <= x < fi.len() implies s.subrange(a + 1, a + 1 + fi.len())[x] == fi[x] by {
                                    assert(s.subrange(a, a + n)[1 + x] == flat_tree(t)[1 + x]);
                                }
                            }
                            assert(s[a + 1 + fi.len()] == TokV::Close(d0)) by {
                                assert(s.subrange(a, a + n)[1 + fi.len() as int] == flat_tree(t)[1 + fi.len() as int]);
                            }
                        }
                    }
                }
                let sub = build_from(toks, at, i + 1, Ghost(inner_w));
                match sub {
                    None => {
                        return None;
                    },
                    Some((inner, j)) => {
                        if j >= toks.len() {
                            return None;
                        }
                        let closes = match &toks[j] {
                            Tok::Close(d2) => *d2 == *d,
                            _ => false,
                        };
                        if !closes {
                            return None;
                        }
                        let g = TokTree::Group(*d, inner, at[i], at[j]);
                        proof {
                            let fi = flat_forest(inner@);
                            assert(flat_tree(g) =~= s.subrange(i as int, j + 1)) by {
                                assert(s.subrange(i as int, j + 1) =~= seq![s[i as int]] + s.subrange(i + 1, j as int) + seq![s[j as int]]);
                            }
                            assert(tree_positions(g) =~= at@.subrange(i as int, j + 1)) by {
                                assert(at@.subrange(i as int, j + 1) =~= seq![at@[i as int]] + at@.subrange(i + 1, j as int) + seq![at@[j as int]]);
                            }
                        }
                        out.push(g);
                        i = j + 1;
                    },
                }
            },
        }
        proof {
            lemma_flat_forest_push(before, out@.last());
            assert(out@ =~= before.push(out@.last()));
            assert(flat_tree(out@.last()) == s.subrange(i0, i as int));
            assert(s.subrange(start as int, i as int) =~= s.subrange(start as int, i0) + s.subrange(i0, i as int));
            assert(tree_positions(out@.last()) == at@.subrange(i0, i as int));
            assert(at@.subrange(start as int, i as int) =~= at@.subrange(start as int, i0) + at@.subrange(i0, i as int));
            if w is Some {
                let f = w->0;
                lemma_forest_item(s, start as int, f, k);
                k = k + 1;
            }
        }
    }
    Some((out, i))
}


/// The trees whose flat tokens are `toks`, with the positions `at`, token
/// for token; or `None` when no trees are written as `toks`: a group is
/// closed by another delimiter than the one that opened it, or is closed
/// without being opened, or is never closed.
pub fn build(toks: &Vec<Tok>, at: &Vec<u32>) -> (r: Option<Vec<TokTree>>)
    requires
        at.len() == toks.len(),
    ensures
        r matches Some(f) ==> flat_forest(f@) == tv(toks@) && forest_positions(f@) == at@,
        r matches Some(f) ==> forall|g: Seq<TokTree>|
            #[trigger] flat_forest(g) == tv(toks@) && forest_positions(g) == at@ ==> forest_view(g)
                == forest_view(f@),
        r is Some <==> nested(tv(toks@)),
{
    let ghost s = tv(toks@);
    let ghost w: Option<Seq<TokTree>> = if nested(s) {
        Some(choose|f: Seq<TokTree>| #[trigger] flat_forest(f) == s)
    } else {
        None
    };
    proof {
        if w is Some {
            assert(s.subrange(0, s.len() as int) =~= s);
        }
    }
    match build_from(toks, at, 0, Ghost(w)) {
        Some((f, e)) => {
            if e == toks.len() {
                assert(s.subrange(0, e as int) =~= s);
                assert(at@.subrange(0, e as int) =~= at@);
                assert(nested(s));
                assert forall|g: Seq<TokTree>| #[trigger] flat_forest(g) == s && forest_positions(g) == at@
                    implies forest_view(g) == forest_view(f@) by {
                    lemma_flat_injective(g, f@);
                }
                Some(f)
            } else {
                None
            }
        },
        None => None,
    }
}

} // verus!
