//! Finite sets of binding names.
use vstd::prelude::*;

verus! {

/// The values of a sequence of names.
pub open spec fn name_views(v: Seq<String>) -> Seq<Seq<char>> {
    v.map_values(|s: String| s@)
}

/// A finite set of names, kept as a list without repetitions.
pub struct NameSet {
    names: Vec<String>,
}

impl View for NameSet {
    type V = Set<Seq<char>>;

    closed spec fn view(&self) -> Set<Seq<char>> {
        name_views(self.names@).to_set()
    }
}

impl NameSet {
    #[verifier::type_invariant]
    spec fn distinct(self) -> bool {
        name_views(self.names@).no_duplicates()
    }

    /// The names of the set as a list without repetitions.
    pub closed spec fn list(self) -> Seq<Seq<char>> {
        name_views(self.names@)
    }

    /// The empty set.
    pub fn new() -> (r: NameSet)
        ensures
            r@ == Set::<Seq<char>>::empty(),
    {
        let r = NameSet { names: Vec::new() };
        assert(name_views(r.names@) =~= Seq::<Seq<char>>::empty());
        assert(r@ =~= Set::<Seq<char>>::empty());
        r
    }

    /// Number of names.
    pub fn len(&self) -> (r: usize)
        ensures
            r == self@.len(),
            r == self.list().len(),
            self.list().no_duplicates(),
            self.list().to_set() == self@,
            self@.finite(),
    {
        proof {
            use_type_invariant(self);
            self.list().unique_seq_to_set();
        }
        self.names.len()
    }

    /// The `i`-th name of the list.
    pub fn get(&self, i: usize) -> (r: &String)
        requires
            i < self.list().len(),
        ensures
            r@ == self.list()[i as int],
            self@.contains(r@),
    {
        proof {
            assert(self.list().contains(self.list()[i as int]));
        }
        &self.names[i]
    }

    /// Whether `n` is in the set.
    pub fn contains(&self, n: &String) -> (r: bool)
        ensures
            r == self@.contains(n@),
    {
        let mut i: usize = 0;
        while i < self.names.len()
            invariant
                i <= self.names.len(),
                forall|k: int| 0 <= k < i ==> self.names@[k]@ != n@,
            decreases self.names.len() - i,
        {
            if self.names[i] == *n {
                proof {
                    assert(name_views(self.names@)[i as int] == n@);
                }
                return true;
            }
            i += 1;
        }
        proof {
            if self@.contains(n@) {
                let k = choose|k: int| 0 <= k < name_views(self.names@).len() && name_views(self.names@)[k] == n@;
                assert(self.names@[k]@ == n@);
            }
        }
        false
    }

    /// Adds `n`.
    pub fn insert(&mut self, n: String)
        ensures
            final(self)@ == old(self)@.insert(n@),
    {
        proof {
            use_type_invariant(&*self);
        }
        if self.contains(&n) {
            assert(old(self)@.insert(n@) =~= old(self)@);
            return ;
        }
        let ghost old_names = self.names@;
        let mut names: Vec<String> = Vec::new();
        std::mem::swap(&mut names, &mut self.names);
        assert(names@ == old_names);
        names.push(n);
        proof {
            assert(name_views(names@) =~= name_views(old_names).push(n@));
            assert(!name_views(old_names).contains(n@));
            assert(name_views(names@).no_duplicates());
            name_views(old_names).lemma_push_to_set_commute(n@);
        }
        self.names = names;
    }

    /// Removes `n`.
    pub fn remove(&mut self, n: &String)
        ensures
            final(self)@ == old(self)@.remove(n@),
    {
        proof {
            use_type_invariant(&*self);
        }
        let ghost old_v = name_views(self.names@);
        let mut kept: Vec<String> = Vec::new();
        let mut i: usize = 0;
        while i < self.names.len()
            invariant
                i <= self.names.len(),
                old_v == name_views(self.names@),
                old_v.no_duplicates(),
                name_views(kept@).no_duplicates(),
                forall|k: int| 0 <= k < kept@.len() ==> #[trigger] name_views(kept@)[k] != n@,
                name_views(kept@).to_set() == old_v.subrange(0, i as int).to_set().remove(n@),
            decreases self.names.len() - i,
        {
            let ghost prev = name_views(kept@);
            if self.names[i] != *n {
                kept.push(self.names[i].clone());
                proof {
                    assert(name_views(kept@) =~= prev.push(old_v[i as int]));
                    assert(!prev.contains(old_v[i as int])) by {
                        if prev.contains(old_v[i as int]) {
                            assert(prev.to_set().contains(old_v[i as int]));
                            assert(old_v.subrange(0, i as int).to_set().contains(old_v[i as int]));
                            assert(old_v.subrange(0, i as int).contains(old_v[i as int]));
                            let k = choose|k: int| 0 <= k < i && old_v.subrange(0, i as int)[k] == old_v[i as int];
                            assert(old_v[k] == old_v[i as int]);
                        }
                    }
                    prev.lemma_push_to_set_commute(old_v[i as int]);
                }
            }
            proof {
                assert(old_v.subrange(0, i + 1) =~= old_v.subrange(0, i as int).push(old_v[i as int]));
                old_v.subrange(0, i as int).lemma_push_to_set_commute(old_v[i as int]);
                assert(name_views(kept@).to_set() =~= old_v.subrange(0, i + 1).to_set().remove(n@));
            }
            i += 1;
        }
        assert(old_v.subrange(0, i as int) =~= old_v);
        self.names = kept;
    }

    /// Adds every name of `other`.
    pub fn extend(&mut self, other: &NameSet)
        ensures
            final(self)@ == old(self)@.union(other@),
    {
        let mut i: usize = 0;
        let n = other.len();
        while i < n
            invariant
                n == other.list().len(),
                i <= n,
                self@ == old(self)@.union(other.list().subrange(0, i as int).to_set()),
            decreases n - i,
        {
            let name = other.get(i).clone();
            self.insert(name);
            proof {
                assert(other.list().subrange(0, i + 1) =~= other.list().subrange(0, i as int).push(
                    other.list()[i as int],
                ));
                other.list().subrange(0, i as int).lemma_push_to_set_commute(other.list()[i as int]);
                assert(self@ =~= old(self)@.union(other.list().subrange(0, i + 1).to_set()));
            }
            i += 1;
        }
        assert(other.list().subrange(0, n as int) =~= other.list());
    }

    /// A copy of the set.
    pub fn copy(&self) -> (r: NameSet)
        ensures
            r@ == self@,
    {
        let mut r = NameSet::new();
        r.extend(self);
        assert(r@ =~= self@);
        r
    }
}

} // verus!
