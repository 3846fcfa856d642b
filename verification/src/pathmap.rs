use vstd::prelude::*;

verus! {

/// A finite map from relative path to value that keeps its entries in the
/// order in which their paths first came in. No path occurs twice.
pub struct PathMap<V> {
    paths: Vec<String>,
    values: Vec<V>,
}

impl<V> View for PathMap<V> {
    type V = Map<Seq<char>, V>;

    closed spec fn view(&self) -> Map<Seq<char>, V> {
        Map::new(|p: Seq<char>| self.holds(p), |p: Seq<char>| self.values@[self.slot(p)])
    }
}

impl<V> PathMap<V> {
    /// One value for each path, and no path twice.
    pub closed spec fn wf(&self) -> bool {
        &&& self.paths@.len() == self.values@.len()
        &&& forall|i: int, j: int|
            0 <= i < j < self.paths@.len() ==> self.paths@[i]@ != self.paths@[j]@
    }

    /// The paths, in the order in which the entries are held.
    pub closed spec fn order(&self) -> Seq<Seq<char>> {
        Seq::new(self.paths@.len(), |i: int| self.paths@[i]@)
    }

    spec fn holds(&self, p: Seq<char>) -> bool {
        exists|i: int| 0 <= i < self.paths@.len() && self.paths@[i]@ == p
    }

    spec fn slot(&self, p: Seq<char>) -> int {
        choose|i: int| 0 <= i < self.paths@.len() && self.paths@[i]@ == p
    }

    proof fn lemma_slot(&self, i: int)
        requires
            self.wf(),
            0 <= i < self.paths@.len(),
        ensures
            self.holds(self.paths@[i]@),
            self.slot(self.paths@[i]@) == i,
    {
        let p = self.paths@[i]@;
        let j = self.slot(p);
        assert(0 <= j < self.paths@.len() && self.paths@[j]@ == p);
    }

    /// The order lists each path of the map once, and no other.
    pub proof fn lemma_order(&self)
        requires
            self.wf(),
        ensures
            self.order().no_duplicates(),
            forall|p: Seq<char>| self@.dom().contains(p) <==> self.order().contains(p),
            forall|i: int| 0 <= i < self.order().len() ==> self@.dom().contains(self.order()[i]),
    {
        assert forall|p: Seq<char>| self@.dom().contains(p) <==> self.order().contains(p) by {
            if self@.dom().contains(p) {
                let i = self.slot(p);
                assert(self.order()[i] == p);
            }
            if self.order().contains(p) {
                let i = choose|i: int| 0 <= i < self.order().len() && self.order()[i] == p;
                assert(self.paths@[i]@ == p);
            }
        }
        assert forall|i: int| 0 <= i < self.order().len() implies self@.dom().contains(
            self.order()[i],
        ) by {
            self.lemma_slot(i);
        }
    }

    /// The map without entries.
    pub fn new() -> (m: PathMap<V>)
        ensures
            m.wf(),
            m@ == Map::<Seq<char>, V>::empty(),
            m.order() == Seq::<Seq<char>>::empty(),
    {
        let m = PathMap { paths: Vec::new(), values: Vec::new() };
        assert(m@ =~= Map::<Seq<char>, V>::empty());
        assert(m.order() =~= Seq::<Seq<char>>::empty());
        m
    }

    /// The number of entries.
    pub fn len(&self) -> (n: usize)
        ensures
            n == self.order().len(),
    {
        self.paths.len()
    }

    /// The path of the entry at place `i` of the order.
    pub fn path_at(&self, i: usize) -> (p: &String)
        requires
            self.wf(),
            i < self.order().len(),
        ensures
            p@ == self.order()[i as int],
            self@.dom().contains(p@),
    {
        proof {
            self.lemma_slot(i as int);
        }
        &self.paths[i]
    }

    /// The value of the entry at place `i` of the order.
    pub fn value_at(&self, i: usize) -> (v: &V)
        requires
            self.wf(),
            i < self.order().len(),
        ensures
            self@.dom().contains(self.order()[i as int]),
            *v == self@[self.order()[i as int]],
    {
        proof {
            self.lemma_slot(i as int);
        }
        &self.values[i]
    }

    /// The place of `path` in the order, if the map holds it.
    pub fn find(&self, path: &String) -> (r: Option<usize>)
        requires
            self.wf(),
        ensures
            match r {
                Some(i) => i < self.order().len() && self.order()[i as int] == path@
                    && self@.dom().contains(path@),
                None => !self@.dom().contains(path@),
            },
    {
        let mut i: usize = 0;
        while i < self.paths.len()
            invariant
                self.wf(),
                i <= self.paths@.len(),
                forall|k: int| 0 <= k < i ==> self.paths@[k]@ != path@,
            decreases self.paths@.len() - i,
        {
            if self.paths[i] == *path {
                proof {
                    self.lemma_slot(i as int);
                }
                return Some(i);
            }
            i += 1;
        }
        None
    }

    /// The value that the map holds for `path`, if any.
    pub fn get(&self, path: &String) -> (r: Option<&V>)
        requires
            self.wf(),
        ensures
            match r {
                Some(v) => self@.dom().contains(path@) && *v == self@[path@],
                None => !self@.dom().contains(path@),
            },
    {
        match self.find(path) {
            Some(i) => {
                proof {
                    self.lemma_slot(i as int);
                }
                Some(&self.values[i])
            },
            None => None,
        }
    }

    /// Whether the map holds an entry for `path`.
    pub fn contains_path(&self, path: &String) -> (r: bool)
        requires
            self.wf(),
        ensures
            r == self@.dom().contains(path@),
    {
        self.find(path).is_some()
    }

    /// Sets the value for `path`. A path that the map already holds keeps its
    /// place in the order; a new one goes to the end.
    pub fn insert(&mut self, path: String, value: V)
        requires
            old(self).wf(),
        ensures
            final(self).wf(),
            final(self)@ == old(self)@.insert(path@, value),
            final(self).order() == if old(self)@.dom().contains(path@) {
                old(self).order()
            } else {
                old(self).order().push(path@)
            },
    {
        let ghost before = *self;
        match self.find(&path) {
            Some(i) => {
                self.values.set(i, value);
                proof {
                    assert(self.order() =~= before.order());
                    assert forall|p: Seq<char>| self.holds(p) <==> before.holds(p) by {}
                    assert forall|p: Seq<char>| self.holds(p) implies self.slot(p) == before.slot(p) by {}
                    before.lemma_slot(i as int);
                    assert(self@ =~= before@.insert(path@, value));
                }
            },
            None => {
                self.paths.push(path);
                self.values.push(value);
                proof {
                    let n = before.paths@.len() as int;
                    assert(self.order() =~= before.order().push(path@));
                    assert(self.wf());
                    self.lemma_slot(n);
                    assert forall|p: Seq<char>| before.holds(p) implies self.holds(p)
                        && self.slot(p) == before.slot(p) by {
                        let j = before.slot(p);
                        assert(self.paths@[j]@ == p);
                        self.lemma_slot(j);
                    }
                    assert forall|p: Seq<char>| self.holds(p) implies before.holds(p) || p
                        == path@ by {
                        let j = self.slot(p);
                        if j < n {
                            assert(before.paths@[j]@ == p);
                        }
                    }
                    assert(self@ =~= before@.insert(path@, value));
                }
            },
        }
    }

    /// Takes the entry for `path` out, if the map holds one, and says whether
    /// it did. The other entries keep their order.
    pub fn remove(&mut self, path: &String) -> (r: bool)
        requires
            old(self).wf(),
        ensures
            final(self).wf(),
            r == old(self)@.dom().contains(path@),
            final(self)@ == old(self)@.remove(path@),
            r ==> exists|i: int|
                {
                    &&& 0 <= i < old(self).order().len()
                    &&& old(self).order()[i] == path@
                    &&& final(self).order() == old(self).order().remove(i)
                },
            !r ==> final(self).order() == old(self).order(),
    {
        let ghost before = *self;
        match self.find(path) {
            Some(i) => {
                self.paths.remove(i);
                self.values.remove(i);
                proof {
                    let n = before.paths@.len() as int;
                    assert(self.wf()) by {
                        assert forall|a: int, b: int| 0 <= a < b < self.paths@.len() implies self.paths@[a]@
                            != self.paths@[b]@ by {
                            let a0 = if a < i { a } else { a + 1 };
                            let b0 = if b < i { b } else { b + 1 };
                            assert(self.paths@[a] == before.paths@[a0]);
                            assert(self.paths@[b] == before.paths@[b0]);
                        }
                    }
                    assert forall|p: Seq<char>| self.holds(p) <==> (before.holds(p) && p
                        != path@) by {
                        if self.holds(p) {
                            let j = self.slot(p);
                            let j0 = if j < i { j } else { j + 1 };
                            assert(before.paths@[j0]@ == p);
                        }
                        if before.holds(p) && p != path@ {
                            let j0 = before.slot(p);
                            let j = if j0 < i { j0 } else { j0 - 1 };
                            assert(self.paths@[j]@ == p);
                        }
                    }
                    assert forall|p: Seq<char>| self.holds(p) implies self.values@[self.slot(p)]
                        == before.values@[before.slot(p)] by {
                        let j = self.slot(p);
                        let j0 = if j < i { j } else { j + 1 };
                        assert(before.paths@[j0]@ == p);
                        before.lemma_slot(j0);
                    }
                    assert(self@ =~= before@.remove(path@));
                    assert(before.order()[i as int] == path@);
                    assert(self.order() =~= before.order().remove(i as int));
                }
                true
            },
            None => {
                assert(self@ =~= before@.remove(path@));
                false
            },
        }
    }
}

} // verus!
