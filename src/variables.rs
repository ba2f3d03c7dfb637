//! The per-agent variable store: a schema-less bag of named values. A key
//! must be declared (`own`) before it is read or written.
use vstd::prelude::*;

verus! {

/// Named values of one agent, keys unique, in order of declaration.
pub struct VarStore<V> {
    entries: Vec<(String, V)>,
}

/// Position of `key` among the keys of `es`, if it is there.
pub open spec fn key_pos<V>(es: Seq<(String, V)>, key: Seq<char>) -> Option<int> {
    if exists|i: int| 0 <= i < es.len() && (#[trigger] es[i]).0@ == key {
        Some(choose|i: int| 0 <= i < es.len() && (#[trigger] es[i]).0@ == key)
    } else {
        None
    }
}

impl<V> VarStore<V> {
    pub closed spec fn entries(&self) -> Seq<(String, V)> {
        self.entries@
    }

    /// The store as a map from key to value.
    pub open spec fn vars(&self) -> Map<Seq<char>, V> {
        Map::new(
            |k: Seq<char>| key_pos(self.entries(), k) is Some,
            |k: Seq<char>| self.entries()[key_pos(self.entries(), k)->0].1,
        )
    }

    pub open spec fn wf(&self) -> bool {
        forall|i: int, j: int|
            0 <= i < j < self.entries().len() ==> (#[trigger] self.entries()[i]).0@ != (#[trigger] self.entries()[j]).0@
    }

    /// A store with no keys.
    pub fn new() -> (r: Self)
        ensures
            r.wf(),
            r.vars() == Map::<Seq<char>, V>::empty(),
    {
        let r = VarStore { entries: Vec::new() };
        assert(r.vars() =~= Map::<Seq<char>, V>::empty());
        r
    }

    fn find(&self, key: &str) -> (r: Option<usize>)
        requires
            self.wf(),
        ensures
            r matches Some(i) ==> i < self.entries().len() && self.entries()[i as int].0@ == key@ && key_pos(
                self.entries(),
                key@,
            ) == Some(i as int),
            r is None ==> key_pos(self.entries(), key@) is None,
    {
        let k = key.to_owned();
        let mut i: usize = 0;
        while i < self.entries.len()
            invariant
                i <= self.entries@.len(),
                self.wf(),
                k@ == key@,
                forall|j: int| 0 <= j < i ==> (#[trigger] self.entries@[j]).0@ != key@,
            decreases self.entries@.len() - i,
        {
            if self.entries[i].0 == k {
                proof {
                    let c = choose|c: int| 0 <= c < self.entries().len() && (#[trigger] self.entries()[c]).0@ == key@;
                    if c != i {
                        assert(self.entries()[c].0@ != self.entries()[i as int].0@);
                    }
                }
                return Some(i);
            }
            i = i + 1;
        }
        None
    }

    /// Whether `key` has been declared.
    pub fn has(&self, key: &str) -> (r: bool)
        requires
            self.wf(),
        ensures
            r == self.vars().contains_key(key@),
    {
        self.find(key).is_some()
    }

    /// Declares `key`, setting it to `init` (also when it was declared before).
    pub fn own(&mut self, key: &str, init: V)
        requires
            old(self).wf(),
        ensures
            final(self).wf(),
            final(self).vars() == old(self).vars().insert(key@, init),
    {
        let ghost before = self.vars();
        match self.find(key) {
            Some(i) => {
                let ghost es = self.entries@;
                let k = key.to_owned();
                self.entries.set(i, (k, init));
                proof {
                    assert forall|j: int| 0 <= j < self.entries@.len() && j != i implies self.entries@[j] == es[j] by {}
                    assert forall|q: Seq<char>| #[trigger] key_pos(self.entries(), q) == key_pos(es, q) by {
                        if exists|j: int| 0 <= j < es.len() && (#[trigger] es[j]).0@ == q {
                            let j = choose|j: int| 0 <= j < es.len() && (#[trigger] es[j]).0@ == q;
                            assert(self.entries()[j].0@ == q);
                        }
                        if exists|j: int| 0 <= j < es.len() && (#[trigger] self.entries()[j]).0@ == q {
                            let j = choose|j: int| 0 <= j < es.len() && (#[trigger] self.entries()[j]).0@ == q;
                            assert(es[j].0@ == q);
                        }
                    }
                    assert(self.vars() =~= before.insert(key@, init));
                }
            },
            None => {
                let ghost es = self.entries@;
                let k = key.to_owned();
                self.entries.push((k, init));
                proof {
                    let n = es.len() as int;
                    assert forall|q: Seq<char>| q != key@ implies #[trigger] key_pos(self.entries(), q) == key_pos(es, q) by {
                        if exists|j: int| 0 <= j < es.len() && (#[trigger] es[j]).0@ == q {
                            let j = choose|j: int| 0 <= j < es.len() && (#[trigger] es[j]).0@ == q;
                            assert(self.entries()[j].0@ == q);
                        }
                        if exists|j: int| 0 <= j < self.entries().len() && (#[trigger] self.entries()[j]).0@ == q {
                            let j = choose|j: int| 0 <= j < self.entries().len() && (#[trigger] self.entries()[j]).0@ == q;
                            assert(j != n);
                            assert(es[j].0@ == q);
                        }
                        let a = key_pos(self.entries(), q);
                        let b = key_pos(es, q);
                        if a is Some && b is Some {
                            let x = a->0;
                            let y = b->0;
                            if x != y {
                                assert(self.entries()[y].0@ == q);
                            }
                        }
                    }
                    assert(self.entries()[n].0@ == key@);
                    let p = key_pos(self.entries(), key@);
                    assert(p is Some);
                    if p->0 != n {
                        assert(es[p->0].0@ == key@);
                    }
                    assert(self.vars() =~= before.insert(key@, init));
                }
            },
        }
    }

    /// The value of a declared key.
    pub fn get(&self, key: &str) -> (r: &V)
        requires
            self.wf(),
            self.vars().contains_key(key@),
        ensures
            *r == self.vars()[key@],
    {
        let i = self.find(key).unwrap();
        &self.entries[i].1
    }

    /// Changes the value of a declared key.
    pub fn set(&mut self, key: &str, value: V)
        requires
            old(self).wf(),
            old(self).vars().contains_key(key@),
        ensures
            final(self).wf(),
            final(self).vars() == old(self).vars().insert(key@, value),
    {
        self.own(key, value);
    }
}

impl<V: Clone> VarStore<V> {
    /// A store with the same keys, each holding a clone of its value.
    pub fn duplicate(&self) -> (r: Self)
        requires
            self.wf(),
        ensures
            r.wf(),
            r.vars().dom() == self.vars().dom(),
            forall|k: Seq<char>| #[trigger] self.vars().contains_key(k) ==> cloned(self.vars()[k], r.vars()[k]),
    {
        let mut es: Vec<(String, V)> = Vec::new();
        let mut i: usize = 0;
        while i < self.entries.len()
            invariant
                i <= self.entries@.len(),
                es@.len() == i,
                forall|j: int| 0 <= j < i ==> (#[trigger] es@[j]).0@ == self.entries@[j].0@
                    && cloned(self.entries@[j].1, es@[j].1),
            decreases self.entries@.len() - i,
        {
            let k = self.entries[i].0.clone();
            let v = self.entries[i].1.clone();
            es.push((k, v));
            i = i + 1;
        }
        let r = VarStore { entries: es };
        proof {
            let a = self.entries();
            let b = r.entries();
            assert forall|q: Seq<char>| #[trigger] key_pos(b, q) == key_pos(a, q) by {
                if exists|j: int| 0 <= j < a.len() && (#[trigger] a[j]).0@ == q {
                    let j = choose|j: int| 0 <= j < a.len() && (#[trigger] a[j]).0@ == q;
                    assert(b[j].0@ == q);
                }
                if exists|j: int| 0 <= j < b.len() && (#[trigger] b[j]).0@ == q {
                    let j = choose|j: int| 0 <= j < b.len() && (#[trigger] b[j]).0@ == q;
                    assert(a[j].0@ == q);
                }
                if key_pos(a, q) is Some {
                    let x = key_pos(a, q)->0;
                    let y = key_pos(b, q)->0;
                    assert(a[y].0@ == q);
                    if x != y {
                        if x < y {
                            assert(a[x].0@ != a[y].0@);
                        } else {
                            assert(a[y].0@ != a[x].0@);
                        }
                    }
                }
            }
            assert forall|x: int, y: int| 0 <= x < y < b.len() implies (#[trigger] b[x]).0@ != (#[trigger] b[y]).0@ by {
                assert(a[x].0@ != a[y].0@);
            }
            assert(r.vars().dom() =~= self.vars().dom());
        }
        r
    }
}

} // verus!
