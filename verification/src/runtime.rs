//! Helpers that the expanded code calls at run time.
//!
//! The expansion maps each element of an `orderby` stage to a `(key, row)`
//! pair, collects the pairs and hands them to `SortAndStrip`; a hash join
//! emits its 0, 1 or N matches per outer row through `JoinMatches`; and
//! `group by` yields one `Group` per key.
use vstd::prelude::*;
use vstd::laws_cmp::obeys_cmp;
use crate::order::{stable_order, sort_pairs_by_key};

verus! {

/// Sorts pairs by their first component and keeps the second ones.
pub trait SortAndStrip: Sized {
    /// The kept component.
    type Item;

    /// What sorting needs of the keys.
    spec fn sortable(&self) -> bool;

    /// Sorts by the first tuple component (stably), then yields the second.
    fn __oql_sort_and_strip(self) -> Vec<Self::Item>
        requires
            self.sortable(),
    ;
}

impl<K: Ord, T> SortAndStrip for Vec<(K, T)> {
    type Item = T;

    /// The key type is a total order.
    open spec fn sortable(&self) -> bool {
        obeys_cmp::<K>()
    }

    /// The second components of the pairs, in the order of a stable sort by
    /// the first components.
    fn __oql_sort_and_strip(self) -> (r: Vec<T>)
        ensures
            exists|p: Seq<int>|
                stable_order(self@, p) && r@ == p.map_values(|i: int| self@[i].1),
    {
        let mut v = self;
        sort_pairs_by_key(&mut v);
        let ghost sorted = v@;
        let ghost p = choose|p: Seq<int>|
            stable_order(self@, p) && sorted == p.map_values(|i: int| self@[i]);
        let n = v.len();
        // Pop every pair off the back, keeping the values in reverse order.
        let mut rev: Vec<T> = Vec::new();
        while v.len() > 0
            invariant
                n == sorted.len(),
                v@.len() <= n,
                forall|j: int| 0 <= j < v@.len() ==> #[trigger] v@[j] == sorted[j],
                rev@.len() + v@.len() == n,
                forall|j: int| 0 <= j < rev@.len() ==> #[trigger] rev@[j] == sorted[n - 1 - j].1,
            decreases v@.len(),
        {
            let pair = v.pop().unwrap();
            let (_key, value) = pair;
            rev.push(value);
        }
        // Pop them again to restore the sorted order.
        let mut out: Vec<T> = Vec::new();
        while rev.len() > 0
            invariant
                n == sorted.len(),
                rev@.len() + out@.len() == n,
                forall|j: int| 0 <= j < rev@.len() ==> #[trigger] rev@[j] == sorted[n - 1 - j].1,
                forall|j: int| 0 <= j < out@.len() ==> #[trigger] out@[j] == sorted[j].1,
            decreases rev@.len(),
        {
            let value = rev.pop().unwrap();
            out.push(value);
        }
        assert(out@ =~= p.map_values(|i: int| self@[i].1));
        out
    }
}

/// The matches of one outer row in a hash join: none, exactly one (no
/// allocation), or several.
pub enum JoinMatches<T> {
    /// No match for this outer row.
    Empty,
    /// Exactly one match; holds the element until it is taken.
    Once(Option<T>),
    /// Two or more matches; built by `many`, which keeps them in order.
    Many(Pending<T>),
}

/// Matches that are still to be yielded. They are stored back to front so
/// that the next one is taken from the end; the field is private, so only
/// `JoinMatches::many` builds a value, from the matches in order.
pub struct Pending<T> {
    back_to_front: Vec<T>,
}

impl<T> Pending<T> {
    /// The matches still to be yielded, in order.
    pub closed spec fn items(self) -> Seq<T> {
        self.back_to_front@.reverse()
    }
}

impl<T> JoinMatches<T> {
    /// The matches not yet taken, in order.
    pub open spec fn remaining(self) -> Seq<T> {
        match self {
            JoinMatches::Empty => Seq::empty(),
            JoinMatches::Once(Some(x)) => seq![x],
            JoinMatches::Once(None) => Seq::empty(),
            JoinMatches::Many(p) => p.items(),
        }
    }

    /// Holds the given matches, in order.
    pub fn many(items: Vec<T>) -> (r: JoinMatches<T>)
        ensures
            r.remaining() == items@,
    {
        let ghost s = items@;
        let mut items = items;
        let mut rev: Vec<T> = Vec::new();
        while items.len() > 0
            invariant
                items@ == s.subrange(0, items@.len() as int),
                rev@.len() + items@.len() == s.len(),
                forall|j: int| 0 <= j < rev@.len() ==> #[trigger] rev@[j] == s[s.len() - 1 - j],
            decreases items@.len(),
        {
            let x = items.pop().unwrap();
            rev.push(x);
        }
        let r = JoinMatches::Many(Pending { back_to_front: rev });
        assert(r.remaining() =~= s);
        r
    }

    /// Takes the next match.
    pub fn next(&mut self) -> (r: Option<T>)
        ensures
            old(self).remaining().len() > 0 ==> {
                &&& r == Some(old(self).remaining()[0])
                &&& final(self).remaining() == old(self).remaining().drop_first()
            },
            old(self).remaining().len() == 0 ==> r is None && final(self).remaining()
                == Seq::<T>::empty(),
    {
        match self {
            JoinMatches::Empty => None,
            JoinMatches::Once(slot) => {
                let r = slot.take();
                proof {
                    assert(final(self).remaining() =~= old(self).remaining().drop_first()
                        || old(self).remaining().len() == 0);
                }
                r
            },
            JoinMatches::Many(p) => {
                let ghost before = p.back_to_front@;
                let r = p.back_to_front.pop();
                proof {
                    if before.len() > 0 {
                        assert(before.reverse()[0] == before.last());
                        assert(p.back_to_front@.reverse() =~= before.reverse().drop_first());
                    }
                }
                r
            },
        }
    }

    /// The number of matches left, as exact lower and upper bounds.
    pub fn size_hint(&self) -> (r: (usize, Option<usize>))
        ensures
            r.0 == self.remaining().len(),
            r.1 == Some(self.remaining().len() as usize),
    {
        match self {
            JoinMatches::Empty => (0, Some(0)),
            JoinMatches::Once(Some(_)) => (1, Some(1)),
            JoinMatches::Once(None) => (0, Some(0)),
            JoinMatches::Many(p) => (p.back_to_front.len(), Some(p.back_to_front.len())),
        }
    }
}

/// The output of a `group by` clause: the key shared by all items of the
/// group, and the items themselves, in the order they were encountered.
///
/// Group ordering within the result is unspecified; use `orderby` after
/// `group by` for a deterministic order.
#[derive(Debug, Clone)]
pub struct Group<K, T> {
    /// The value shared by all items in this group.
    pub key: K,
    /// The items of the group, in encounter order.
    pub items: Vec<T>,
}

/// The two sources of a `zip_must` ended at different rows.
#[derive(Clone, Copy, Debug, PartialEq, Eq, Structural)]
pub struct ZipLengthMismatch;

impl ZipLengthMismatch {
    /// The panic message of `zip_must`.
    pub fn message(&self) -> (r: &'static str)
        ensures
            r@ == "oql zip sources have different lengths"@,
    {
        "oql zip sources have different lengths"
    }
}

/// One step of `zip_must`, given the next item of each side: a pair while
/// both sides have items, the end when both end together, and an error when
/// exactly one side has ended.
pub fn zip_must_step<A, B>(left: Option<A>, right: Option<B>) -> (r: Result<
    Option<(A, B)>,
    ZipLengthMismatch,
>)
    ensures
        left is Some && right is Some ==> r == Ok::<Option<(A, B)>, ZipLengthMismatch>(
            Some((left->0, right->0)),
        ),
        left is None && right is None ==> r == Ok::<Option<(A, B)>, ZipLengthMismatch>(None),
        left is Some != right is Some ==> r == Err::<Option<(A, B)>, ZipLengthMismatch>(
            ZipLengthMismatch,
        ),
{
    match (left, right) {
        (Some(a), Some(b)) => Ok(Some((a, b))),
        (None, None) => Ok(None),
        _ => Err(ZipLengthMismatch),
    }
}

} // verus!
