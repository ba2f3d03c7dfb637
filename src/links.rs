//! Variable stores of links. A link is identified by its graph (directed or
//! not) and its ordered pair of endpoint turtles; links with the same
//! identity share one store.
use crate::variables::VarStore;
use vstd::prelude::*;

verus! {

/// The identity of a link.
#[derive(Clone, Copy, Debug, PartialEq, Eq, Structural)]
pub struct LinkId {
    pub directed: bool,
    pub from: usize,
    pub to: usize,
}

/// The stores of the links that have variables declared, one per identity.
pub struct LinkStores<V> {
    recs: Vec<(LinkId, VarStore<V>)>,
}

/// Position of `id` in `recs`, if it is there.
pub open spec fn link_pos<V>(recs: Seq<(LinkId, VarStore<V>)>, id: LinkId) -> Option<int> {
    if exists|i: int| 0 <= i < recs.len() && (#[trigger] recs[i]).0 == id {
        Some(choose|i: int| 0 <= i < recs.len() && (#[trigger] recs[i]).0 == id)
    } else {
        None
    }
}

/// `id` with endpoint `last` renamed to `to`.
pub open spec fn rename_link(id: LinkId, last: usize, to: usize) -> LinkId {
    LinkId {
        directed: id.directed,
        from: if id.from == last { to } else { id.from },
        to: if id.to == last { to } else { id.to },
    }
}

/// The link touches turtle `t`.
pub open spec fn link_touches(id: LinkId, t: usize) -> bool {
    id.from == t || id.to == t
}

/// The stores left once turtle `who` dies and turtle `last` takes its
/// identity: those of links not touching `who`, renamed.
pub open spec fn stores_without<V>(m: Map<LinkId, VarStore<V>>, who: usize, last: usize) -> Map<LinkId, VarStore<V>> {
    Map::new(
        |id: LinkId| exists|o: LinkId| #[trigger] m.contains_key(o) && !link_touches(o, who) && rename_link(o, last, who) == id,
        |id: LinkId| m[choose|o: LinkId| #[trigger] m.contains_key(o) && !link_touches(o, who) && rename_link(o, last, who) == id],
    )
}

impl<V> LinkStores<V> {
    pub closed spec fn recs(&self) -> Seq<(LinkId, VarStore<V>)> {
        self.recs@
    }

    /// The stores, by link identity.
    pub open spec fn stores(&self) -> Map<LinkId, VarStore<V>> {
        Map::new(
            |id: LinkId| link_pos(self.recs(), id) is Some,
            |id: LinkId| self.recs()[link_pos(self.recs(), id)->0].1,
        )
    }

    pub open spec fn wf(&self) -> bool {
        &&& forall|i: int, j: int| 0 <= i < j < self.recs().len() ==> (#[trigger] self.recs()[i]).0 != (#[trigger] self.recs()[j]).0
        &&& forall|i: int| 0 <= i < self.recs().len() ==> (#[trigger] self.recs()[i]).1.wf()
    }

    pub fn new() -> (r: Self)
        ensures
            r.wf(),
            r.stores() == Map::<LinkId, VarStore<V>>::empty(),
    {
        let r = LinkStores { recs: Vec::new() };
        assert(r.stores() =~= Map::<LinkId, VarStore<V>>::empty());
        r
    }

    proof fn lemma_pos(&self, i: int)
        requires
            self.wf(),
            0 <= i < self.recs().len(),
        ensures
            link_pos(self.recs(), self.recs()[i].0) == Some(i),
    {
        let id = self.recs()[i].0;
        let j = link_pos(self.recs(), id)->0;
        if j != i {
            if i < j {
                assert(self.recs()[i].0 != self.recs()[j].0);
            } else {
                assert(self.recs()[j].0 != self.recs()[i].0);
            }
        }
    }

    fn find(&self, id: LinkId) -> (r: Option<usize>)
        requires
            self.wf(),
        ensures
            r matches Some(i) ==> i < self.recs().len() && link_pos(self.recs(), id) == Some(i as int),
            r is None ==> link_pos(self.recs(), id) is None,
    {
        let mut i: usize = 0;
        while i < self.recs.len()
            invariant
                i <= self.recs@.len(),
                self.wf(),
                forall|j: int| 0 <= j < i ==> (#[trigger] self.recs@[j]).0 != id,
            decreases self.recs@.len() - i,
        {
            if self.recs[i].0 == id {
                proof {
                    self.lemma_pos(i as int);
                }
                return Some(i);
            }
            i = i + 1;
        }
        None
    }

    /// Declares `key` on the link `id`, set to `init`; the link gets a store
    /// if it had none.
    pub fn own(&mut self, id: LinkId, key: &str, init: V)
        requires
            old(self).wf(),
        ensures
            final(self).wf(),
            final(self).stores().dom() == old(self).stores().dom().insert(id),
            final(self).stores()[id].vars() == if old(self).stores().contains_key(id) {
                old(self).stores()[id].vars().insert(key@, init)
            } else {
                Map::<Seq<char>, V>::empty().insert(key@, init)
            },
            forall|o: LinkId| o != id && #[trigger] old(self).stores().contains_key(o) ==> final(self).stores()[o] == old(self).stores()[o],
    {
        let ghost before = self.recs@;
        match self.find(id) {
            Some(i) => {
                let mut slot = (id, VarStore::new());
                self.recs.set_and_swap(i, &mut slot);
                slot.1.own(key, init);
                self.recs.set_and_swap(i, &mut slot);
                proof {
                    assert forall|q: LinkId| #[trigger] link_pos(self.recs(), q) == link_pos(before, q) by {
                        if exists|j: int| 0 <= j < before.len() && (#[trigger] before[j]).0 == q {
                            let j = choose|j: int| 0 <= j < before.len() && (#[trigger] before[j]).0 == q;
                            assert(self.recs()[j].0 == q);
                        }
                        if exists|j: int| 0 <= j < self.recs().len() && (#[trigger] self.recs()[j]).0 == q {
                            let j = choose|j: int| 0 <= j < self.recs().len() && (#[trigger] self.recs()[j]).0 == q;
                            assert(before[j].0 == q);
                        }
                    }
                    assert(self.stores().dom() =~= old(self).stores().dom().insert(id));
                }
            },
            None => {
                let mut s = VarStore::new();
                s.own(key, init);
                self.recs.push((id, s));
                proof {
                    let n = before.len() as int;
                    assert forall|q: LinkId| q != id implies #[trigger] link_pos(self.recs(), q) == link_pos(before, q) by {
                        if exists|j: int| 0 <= j < before.len() && (#[trigger] before[j]).0 == q {
                            let j = choose|j: int| 0 <= j < before.len() && (#[trigger] before[j]).0 == q;
                            assert(self.recs()[j].0 == q);
                        }
                        if exists|j: int| 0 <= j < self.recs().len() && (#[trigger] self.recs()[j]).0 == q {
                            let j = choose|j: int| 0 <= j < self.recs().len() && (#[trigger] self.recs()[j]).0 == q;
                            assert(j != n);
                            assert(before[j].0 == q);
                        }
                    }
                    assert(self.recs()[n].0 == id);
                    self.lemma_pos(n);
                    assert(self.stores().dom() =~= old(self).stores().dom().insert(id));
                }
            },
        }
    }

    /// Whether link `id` has a store.
    pub fn has(&self, id: LinkId) -> (r: bool)
        requires
            self.wf(),
        ensures
            r == self.stores().contains_key(id),
    {
        self.find(id).is_some()
    }

    /// The value of `key` on link `id`.
    pub fn get(&self, id: LinkId, key: &str) -> (r: &V)
        requires
            self.wf(),
            self.stores().contains_key(id),
            self.stores()[id].vars().contains_key(key@),
        ensures
            *r == self.stores()[id].vars()[key@],
    {
        let i = self.find(id).unwrap();
        self.recs[i].1.get(key)
    }

    /// Drops every store.
    pub fn clear(&mut self)
        ensures
            final(self).wf(),
            final(self).stores() == Map::<LinkId, VarStore<V>>::empty(),
    {
        self.recs = Vec::new();
        assert(self.stores() =~= Map::<LinkId, VarStore<V>>::empty());
    }

    /// Turtle `who` died and turtle `last` took its identity: the stores of
    /// links touching `who` go, the others follow the renaming.
    pub fn remove_turtle(&mut self, who: usize, last: usize)
        requires
            old(self).wf(),
        ensures
            final(self).wf(),
            final(self).stores() == stores_without(old(self).stores(), who, last),
    {
        let ghost old_recs = self.recs@;
        let ghost m = self.stores();
        let mut kept: Vec<(LinkId, VarStore<V>)> = Vec::new();
        let mut it: Vec<(LinkId, VarStore<V>)> = Vec::new();
        core::mem::swap(&mut self.recs, &mut it);
        assert(it@ == old_recs);
        let ghost total = it@.len();
        let ghost mut src: Seq<int> = Seq::empty();
        while it.len() > 0
            invariant
                it@.len() <= total,
                total == old_recs.len(),
                it@ == old_recs.subrange(0, it@.len() as int),
                forall|i: int, j: int| 0 <= i < j < old_recs.len() ==> (#[trigger] old_recs[i]).0 != (#[trigger] old_recs[j]).0,
                forall|i: int| 0 <= i < old_recs.len() ==> (#[trigger] old_recs[i]).1.wf(),
                src.len() == kept@.len(),
                forall|k: int| 0 <= k < src.len() ==> it@.len() <= #[trigger] src[k] < total
                    && !link_touches(old_recs[src[k]].0, who)
                    && kept@[k].0 == rename_link(old_recs[src[k]].0, last, who)
                    && kept@[k].1 == old_recs[src[k]].1,
                forall|i: int| it@.len() <= i < total && !link_touches(#[trigger] old_recs[i].0, who) ==> exists|k: int|
                    0 <= k < src.len() && src[k] == i,
                forall|a: int, b: int| 0 <= a < b < src.len() ==> src[a] != src[b],
            decreases it@.len(),
        {
            let ghost pre = it@;
            let ghost old_src = src;
            let (id, s) = it.pop().unwrap();
            let ghost idx = it@.len() as int;
            assert(old_recs[idx] == (id, s));
            if !(id.from == who || id.to == who) {
                let nid = LinkId {
                    directed: id.directed,
                    from: if id.from == last { who } else { id.from },
                    to: if id.to == last { who } else { id.to },
                };
                kept.push((nid, s));
                proof {
                    src = src.push(idx);
                }
            }
            proof {
                assert forall|i: int| it@.len() <= i < total && !link_touches(#[trigger] old_recs[i].0, who) implies exists|k: int|
                    0 <= k < src.len() && src[k] == i by {
                    if i == idx {
                        assert(src[src.len() - 1] == i);
                    } else {
                        let k = choose|k: int| 0 <= k < old_src.len() && old_src[k] == i;
                        assert(src[k] == old_src[k]);
                    }
                }
            }
            assert(it@ =~= old_recs.subrange(0, it@.len() as int));
        }
        self.recs = kept;
        proof {
            let r = self.recs();
            assert forall|x: int, y: int| 0 <= x < y < r.len() implies (#[trigger] r[x]).0 != (#[trigger] r[y]).0 by {
                let a = old_recs[src[x]].0;
                let b = old_recs[src[y]].0;
                assert(a != b);
            }
            assert forall|k: int| 0 <= k < r.len() implies (#[trigger] r[k]).1.wf() by {
                assert(old_recs[src[k]].1.wf());
            }
            let t = stores_without(m, who, last);
            assert forall|id: LinkId| self.stores().contains_key(id) <==> t.contains_key(id) by {
                if self.stores().contains_key(id) {
                    let k = link_pos(r, id)->0;
                    let o = old_recs[src[k]].0;
                    self.lemma_old_pos(old_recs, src[k]);
                    assert(m.contains_key(o));
                }
                if t.contains_key(id) {
                    let o = choose|o: LinkId| #[trigger] m.contains_key(o) && !link_touches(o, who) && rename_link(o, last, who) == id;
                    let i = link_pos(old_recs, o)->0;
                    let k = choose|k: int| 0 <= k < src.len() && src[k] == i;
                    assert(r[k].0 == id);
                }
            }
            assert forall|id: LinkId| #[trigger] self.stores().contains_key(id) implies self.stores()[id] == t[id] by {
                let k = link_pos(r, id)->0;
                let o = old_recs[src[k]].0;
                self.lemma_old_pos(old_recs, src[k]);
                assert(m.contains_key(o));
                assert(r[k].0 == id);
                assert(rename_link(o, last, who) == id);
                let o2 = choose|o2: LinkId| #[trigger] m.contains_key(o2) && !link_touches(o2, who) && rename_link(o2, last, who) == id;
                assert(o2.from == o.from && o2.to == o.to && o2.directed == o.directed);
                assert(o2 == o);
            }
            assert(self.stores() =~= t);
        }
    }

    proof fn lemma_old_pos(&self, recs: Seq<(LinkId, VarStore<V>)>, i: int)
        requires
            forall|a: int, b: int| 0 <= a < b < recs.len() ==> (#[trigger] recs[a]).0 != (#[trigger] recs[b]).0,
            0 <= i < recs.len(),
        ensures
            link_pos(recs, recs[i].0) == Some(i),
    {
        let id = recs[i].0;
        let j = link_pos(recs, id)->0;
        if j != i {
            if i < j {
                assert(recs[i].0 != recs[j].0);
            } else {
                assert(recs[j].0 != recs[i].0);
            }
        }
    }
}

} // verus!
