//! Agent sets: ordered, duplicate-free collections of agent identities with
//! the collective queries and selections of the modelling language.
use crate::idset::{
    idset_clone, idset_contains, idset_get, idset_insert, idset_len, idset_new, idset_swap_remove,
    ids_of, IdSet,
};
use crate::random::{
    random_below, shuffle, total_weight, weighted_index, weighted_sample, weights_of,
};
use core::marker::PhantomData;
use vstd::prelude::*;

verus! {

broadcast use vstd::seq_lib::group_to_multiset_ensures, vstd::seq_lib::lemma_seq_contains_after_push,
    vstd::seq::Seq::lemma_push_to_set_commute;

/// Marks a set of turtles, identified by `who` number.
pub struct TurtleKind;

/// Marks a set of patches, identified by row-major lattice index.
pub struct PatchKind;

/// An ordered collection of agent identities, each at most once.
pub struct AgentSet<K> {
    ids: IdSet,
    kind: PhantomData<K>,
}

pub type TurtleSet = AgentSet<TurtleKind>;

pub type PatchSet = AgentSet<PatchKind>;

/// Why a weighted draw could not be made.
#[derive(Clone, Copy, Debug, PartialEq, Eq, Structural)]
pub enum SampleError {
    /// The collection is empty.
    NoItem,
    /// The weights add up past `u64::MAX`.
    WeightOverflow,
    /// Every weight is zero.
    AllWeightsZero,
}

/// What a weighted draw over `ws` fails with, if it fails.
pub open spec fn weight_error(ws: Seq<u64>) -> Option<SampleError> {
    if ws.len() == 0 {
        Some(SampleError::NoItem)
    } else if total_weight(ws) > u64::MAX {
        Some(SampleError::WeightOverflow)
    } else if total_weight(ws) == 0 {
        Some(SampleError::AllWeightsZero)
    } else {
        None
    }
}

/// The sum of the weights, or `None` when it does not fit in `u64`.
fn sum_weights(ws: &Vec<u64>) -> (r: Option<u64>)
    ensures
        r matches Some(t) ==> t == total_weight(ws@),
        r is None ==> total_weight(ws@) > u64::MAX,
{
    let mut t: u64 = 0;
    let mut i: usize = 0;
    while i < ws.len()
        invariant
            i <= ws@.len(),
            t == total_weight(ws@.subrange(0, i as int)),
        decreases ws@.len() - i,
    {
        assert(ws@.subrange(0, i as int + 1).drop_last() =~= ws@.subrange(0, i as int));
        proof {
            lemma_total_weight_prefix(ws@, i as int + 1);
        }
        if t > u64::MAX - ws[i] {
            return None;
        }
        t = t + ws[i];
        i = i + 1;
    }
    assert(ws@.subrange(0, i as int) =~= ws@);
    Some(t)
}

/// The total of a sequence is at least that of any prefix.
proof fn lemma_total_weight_prefix(ws: Seq<u64>, k: int)
    requires
        0 <= k <= ws.len(),
    ensures
        total_weight(ws.subrange(0, k)) <= total_weight(ws),
    decreases ws.len() - k,
{
    if k < ws.len() {
        lemma_total_weight_prefix(ws, k + 1);
        assert(ws.subrange(0, k + 1).drop_last() =~= ws.subrange(0, k));
        assert(total_weight(ws.subrange(0, k + 1)) == total_weight(ws.subrange(0, k)) + ws[k]);
    } else {
        assert(ws.subrange(0, k) =~= ws);
    }
}

impl<K> View for AgentSet<K> {
    type V = Seq<usize>;

    closed spec fn view(&self) -> Seq<usize> {
        ids_of(self.ids)
    }
}

/// `states` are the states met when `action` is applied, from `s0`, to each
/// element of `order` in turn, ending in `r`.
pub open spec fn is_run<S, F: Fn(S, usize) -> S>(action: F, s0: S, order: Seq<usize>, states: Seq<S>, r: S) -> bool {
    &&& states.len() == order.len() + 1
    &&& states[0] == s0
    &&& states.last() == r
    &&& forall|k: int| 0 <= k < order.len() ==> action.ensures((states[k], order[k]), #[trigger] states[k + 1])
}

/// Position `i` comes before position `j` when ordering by key, then by position.
pub open spec fn key_before(ks: Seq<i64>, i: int, j: int) -> bool {
    ks[i] < ks[j] || (ks[i] == ks[j] && i < j)
}

/// `i` precedes `j` in ascending (`up`) or descending (key, position) order.
pub open spec fn ranks_before(ks: Seq<i64>, up: bool, i: int, j: int) -> bool {
    if up {
        key_before(ks, i, j)
    } else {
        key_before(ks, j, i)
    }
}

/// `j` is the position that comes right after `prev` (or first, when `prev`
/// is negative) in the chosen order.
pub open spec fn is_next(ks: Seq<i64>, up: bool, prev: int, j: int) -> bool {
    &&& 0 <= j < ks.len()
    &&& (prev < 0 || ranks_before(ks, up, prev, j))
    &&& forall|k: int|
        0 <= k < ks.len() && (prev < 0 || ranks_before(ks, up, prev, k)) ==> k == j
            || #[trigger] ranks_before(ks, up, j, k)
}

/// The first `m` positions of `ks` in the chosen order (all of them, when
/// there are fewer).
pub open spec fn ranked_positions(ks: Seq<i64>, up: bool, m: nat) -> Seq<int>
    decreases m,
{
    if m == 0 {
        Seq::empty()
    } else {
        let s = ranked_positions(ks, up, (m - 1) as nat);
        let prev = if s.len() == 0 { -1 } else { s.last() };
        if has_next(ks, up, prev) {
            s.push(next_of(ks, up, prev))
        } else {
            s
        }
    }
}

/// Some position comes right after `prev`.
pub open spec fn has_next(ks: Seq<i64>, up: bool, prev: int) -> bool {
    exists|j: int| is_next(ks, up, prev, j)
}

/// The position right after `prev`, where there is one.
pub open spec fn next_of(ks: Seq<i64>, up: bool, prev: int) -> int {
    choose|j: int| is_next(ks, up, prev, j)
}

/// The elements of `s` at the positions `pos`.
pub open spec fn pick(s: Seq<usize>, pos: Seq<int>) -> Seq<usize> {
    pos.map_values(|i: int| s[i])
}

/// The elements of `s` whose flag in `keep` is set, in order.
pub open spec fn select(s: Seq<usize>, keep: Seq<bool>) -> Seq<usize>
    decreases s.len(),
{
    if s.len() == 0 || keep.len() == 0 {
        Seq::empty()
    } else {
        let rest = select(s.drop_last(), keep.drop_last());
        if keep.last() {
            rest.push(s.last())
        } else {
            rest
        }
    }
}

/// Position of the first element with the least (`up`) or greatest key.
pub open spec fn is_first_extreme(ks: Seq<i64>, up: bool, j: int) -> bool {
    &&& 0 <= j < ks.len()
    &&& forall|i: int| 0 <= i < ks.len() ==> if up { ks[j] <= #[trigger] ks[i] } else { ks[i] <= ks[j] }
    &&& forall|i: int| 0 <= i < j ==> if up { ks[j] < #[trigger] ks[i] } else { ks[i] < ks[j] }
}

/// `ks` holds, element by element, values that `key` may return on `s`.
pub open spec fn keys_from<T, F: Fn(usize) -> T>(key: F, s: Seq<usize>, ks: Seq<T>) -> bool {
    ks.len() == s.len() && forall|i: int| 0 <= i < s.len() ==> key.ensures((s[i],), #[trigger] ks[i])
}

/// Evaluates `key` on each element of `s`.
fn eval_keys<T, F: Fn(usize) -> T>(s: &IdSet, key: F) -> (ks: Vec<T>)
    requires
        forall|i: int| 0 <= i < ids_of(*s).len() ==> key.requires((#[trigger] ids_of(*s)[i],)),
    ensures
        keys_from(key, ids_of(*s), ks@),
{
    let n = idset_len(s);
    let mut ks: Vec<T> = Vec::new();
    let mut i: usize = 0;
    while i < n
        invariant
            n == ids_of(*s).len(),
            i <= n,
            ks@.len() == i,
            forall|i: int| 0 <= i < ids_of(*s).len() ==> key.requires((#[trigger] ids_of(*s)[i],)),
            forall|j: int| 0 <= j < i ==> key.ensures((ids_of(*s)[j],), #[trigger] ks@[j]),
        decreases n - i,
    {
        let id = idset_get(s, i);
        let k = key(id);
        ks.push(k);
        i = i + 1;
    }
    ks
}

/// `k` is a position of `ks` ranked after `prev` (any position, when `prev` is negative).
pub open spec fn is_candidate(ks: Seq<i64>, up: bool, prev: int, k: int) -> bool {
    0 <= k < ks.len() && (prev < 0 || ranks_before(ks, up, prev, k))
}

/// `prev` as a position, or `-1` when there is none.
pub open spec fn prev_pos(prev: Option<usize>) -> int {
    match prev {
        Some(p) => p as int,
        None => -1,
    }
}

/// The position right after `prev` in the chosen order, if any remains.
fn next_ranked(ks: &Vec<i64>, up: bool, prev: Option<usize>) -> (r: Option<usize>)
    requires
        prev matches Some(p) ==> p < ks@.len(),
    ensures
        r matches Some(j) ==> is_next(ks@, up, prev_pos(prev), j as int),
        r is None ==> !exists|j: int| is_next(ks@, up, prev_pos(prev), j),
{
    let ghost pp = prev_pos(prev);
    let mut found = false;
    let mut best: usize = 0;
    let mut j: usize = 0;
    while j < ks.len()
        invariant
            j <= ks@.len(),
            prev matches Some(p) ==> p < ks@.len(),
            pp == prev_pos(prev),
            found ==> best < j && (pp < 0 || ranks_before(ks@, up, pp, best as int)),
            forall|k: int|
                #[trigger] is_candidate(ks@, up, pp, k) && k < j ==> found && (k == best
                    || ranks_before(ks@, up, best as int, k)),
        decreases ks@.len() - j,
    {
        let above = match prev {
            None => true,
            Some(p) => if up {
                ks[p] < ks[j] || (ks[p] == ks[j] && p < j)
            } else {
                ks[j] < ks[p] || (ks[j] == ks[p] && j < p)
            },
        };
        assert(above == (pp < 0 || ranks_before(ks@, up, pp, j as int)));
        if above {
            if !found {
                found = true;
                best = j;
            } else {
                let better = if up {
                    ks[j] < ks[best] || (ks[j] == ks[best] && j < best)
                } else {
                    ks[best] < ks[j] || (ks[best] == ks[j] && best < j)
                };
                assert(better == ranks_before(ks@, up, j as int, best as int));
                if better {
                    proof {
                        assert forall|k: int|
                            #[trigger] is_candidate(ks@, up, pp, k) && k < j implies
                            ranks_before(ks@, up, j as int, k) by {
                            if k != best {
                                lemma_ranks_transitive(ks@, up, j as int, best as int, k);
                            }
                        }
                    }
                    best = j;
                } else {
                    assert(ranks_before(ks@, up, best as int, j as int));
                }
            }
        }
        assert(is_candidate(ks@, up, pp, j as int) == above);
        j = j + 1;
    }
    proof {
        if found {
            assert forall|k: int| 0 <= k < ks@.len() && (pp < 0 || ranks_before(ks@, up, pp, k)) implies k
                == best || #[trigger] ranks_before(ks@, up, best as int, k) by {
                assert(is_candidate(ks@, up, pp, k));
            }
        }
        if !found {
            assert forall|k: int| !is_next(ks@, up, pp, k) by {
                if is_next(ks@, up, pp, k) {
                    assert(is_candidate(ks@, up, pp, k));
                }
            }
        }
    }
    if found {
        Some(best)
    } else {
        None
    }
}

proof fn lemma_next_unique(ks: Seq<i64>, up: bool, prev: int, a: int, b: int)
    requires
        is_next(ks, up, prev, a),
        is_next(ks, up, prev, b),
    ensures
        a == b,
{
    if a != b {
        assert(ranks_before(ks, up, a, b));
        assert(ranks_before(ks, up, b, a));
    }
}

/// The first `amount` positions of `ks` in the chosen order.
fn ranked(ks: &Vec<i64>, up: bool, amount: usize) -> (r: Vec<usize>)
    ensures
        r@.map_values(|i: usize| i as int) == ranked_positions(ks@, up, amount as nat),
{
    let mut out: Vec<usize> = Vec::new();
    let mut m: usize = 0;
    while m < amount
        invariant
            m <= amount,
            out@.map_values(|i: usize| i as int) == ranked_positions(ks@, up, m as nat),
            forall|i: int| 0 <= i < out@.len() ==> #[trigger] out@[i] < ks@.len(),
        decreases amount - m,
    {
        let ghost before = ranked_positions(ks@, up, m as nat);
        let prev: Option<usize> = if out.len() == 0 { None } else { Some(out[out.len() - 1]) };
        proof {
            if out@.len() > 0 {
                assert(before[before.len() - 1] == out@[out@.len() - 1] as int);
            }
        }
        let ghost pp = if before.len() == 0 { -1 } else { before.last() };
        assert(prev_pos(prev) == pp);
        match next_ranked(ks, up, prev) {
            Some(j) => {
                proof {
                    assert(is_next(ks@, up, pp, j as int));
                    let c = next_of(ks@, up, pp);
                    lemma_next_unique(ks@, up, pp, c, j as int);
                    assert(has_next(ks@, up, pp));
                    assert(ranked_positions(ks@, up, (m + 1) as nat) == before.push(j as int));
                }
                out.push(j);
                assert(out@.map_values(|i: usize| i as int) =~= before.push(j as int));
            },
            None => {
                assert(ranked_positions(ks@, up, (m + 1) as nat) == before);
            },
        }
        m = m + 1;
    }
    out
}

impl<K> AgentSet<K> {
    pub open spec fn wf(&self) -> bool {
        self@.no_duplicates()
    }

    /// An empty set.
    pub fn new() -> (r: Self)
        ensures
            r.wf(),
            r@ == Seq::<usize>::empty(),
    {
        AgentSet { ids: idset_new(), kind: PhantomData }
    }

    /// The set holding exactly the identities of `ids`, in their order.
    pub(crate) fn from_idset(ids: IdSet) -> (r: Self)
        requires
            ids_of(ids).no_duplicates(),
        ensures
            r.wf(),
            r@ == ids_of(ids),
    {
        AgentSet { ids, kind: PhantomData }
    }

    /// The set of the given identities, first occurrences kept, in order.
    pub fn from_ids(v: &Vec<usize>) -> (r: Self)
        ensures
            r.wf(),
            r@.to_set() == v@.to_set(),
            v@.no_duplicates() ==> r@ == v@,
    {
        let mut r = Self::new();
        let mut i: usize = 0;
        while i < v.len()
            invariant
                i <= v@.len(),
                r.wf(),
                r@.to_set() == v@.subrange(0, i as int).to_set(),
                v@.no_duplicates() ==> r@ == v@.subrange(0, i as int),
            decreases v@.len() - i,
        {
            r.append(v[i]);
            assert(v@.subrange(0, i as int + 1) =~= v@.subrange(0, i as int).push(v@[i as int]));
            proof {
                if v@.no_duplicates() {
                    assert(!v@.subrange(0, i as int).contains(v@[i as int]));
                }
            }
            i = i + 1;
        }
        assert(v@.subrange(0, i as int) =~= v@);
        r
    }

    /// The same members in the same order.
    pub fn duplicate(&self) -> (r: Self)
        requires
            self.wf(),
        ensures
            r.wf(),
            r@ == self@,
    {
        AgentSet { ids: idset_clone(&self.ids), kind: PhantomData }
    }

    /// Number of members.
    pub fn count(&self) -> (r: usize)
        ensures
            r == self@.len(),
    {
        idset_len(&self.ids)
    }

    /// The member at storage position `i`.
    pub fn nth(&self, i: usize) -> (r: usize)
        requires
            i < self@.len(),
        ensures
            r == self@[i as int],
    {
        idset_get(&self.ids, i)
    }

    pub fn contains(&self, id: usize) -> (r: bool)
        ensures
            r == self@.contains(id),
    {
        idset_contains(&self.ids, id)
    }

    /// The members in storage order.
    pub fn to_vec(&self) -> (r: Vec<usize>)
        ensures
            r@ == self@,
    {
        let n = self.count();
        let mut v: Vec<usize> = Vec::new();
        let mut i: usize = 0;
        while i < n
            invariant
                n == self@.len(),
                i <= n,
                v@ == self@.subrange(0, i as int),
            decreases n - i,
        {
            v.push(self.nth(i));
            assert(v@ =~= self@.subrange(0, i as int + 1));
            i = i + 1;
        }
        assert(v@ =~= self@);
        v
    }

    /// Adds `id` at the end unless it is already a member.
    pub fn append(&mut self, id: usize)
        requires
            old(self).wf(),
        ensures
            final(self).wf(),
            old(self)@.contains(id) ==> final(self)@ == old(self)@,
            !old(self)@.contains(id) ==> final(self)@ == old(self)@.push(id),
    {
        idset_insert(&mut self.ids, id);
        proof {
            if !old(self)@.contains(id) {
                assert forall|i: int, j: int| 0 <= i < j < self@.len() implies self@[i] != self@[j] by {
                    if j == self@.len() - 1 {
                        assert(old(self)@[i] == self@[i]);
                    } else {
                        assert(old(self)@[i] == self@[i] && old(self)@[j] == self@[j]);
                    }
                }
            }
        }
    }

    /// A copy with `id` appended, unless it is already a member.
    pub fn concat(&self, id: usize) -> (r: Self)
        requires
            self.wf(),
        ensures
            r.wf(),
            self@.contains(id) ==> r@ == self@,
            !self@.contains(id) ==> r@ == self@.push(id),
    {
        let mut r = self.duplicate();
        r.append(id);
        r
    }

    /// Appends, in order, each member of `other` not already present.
    pub fn extends(&mut self, other: &Self)
        requires
            old(self).wf(),
            other.wf(),
        ensures
            final(self).wf(),
            final(self)@ == old(self)@ + other@.filter(|x: usize| !old(self)@.contains(x)),
            final(self)@.to_set() == old(self)@.to_set() + other@.to_set(),
    {
        let ghost o = self@;
        let ghost keep = |x: usize| !o.contains(x);
        let n = other.count();
        let mut i: usize = 0;
        assert(other@.subrange(0, 0).filter(keep) =~= Seq::<usize>::empty());
        while i < n
            invariant
                n == other@.len(),
                i <= n,
                other.wf(),
                self.wf(),
                keep == (|x: usize| !o.contains(x)),
                self@ == o + other@.subrange(0, i as int).filter(keep),
            decreases n - i,
        {
            let ghost pre = other@.subrange(0, i as int);
            let id = other.nth(i);
            proof {
                assert(other@.subrange(0, i as int + 1) =~= pre.push(id));
                pre.lemma_filter_push(id, keep);
                if !o.contains(id) && self@.contains(id) {
                    let k = choose|k: int| 0 <= k < self@.len() && self@[k] == id;
                    if k < o.len() {
                        assert(o[k] == id);
                    } else {
                        assert(pre.filter(keep)[k - o.len()] == id);
                        assert(pre.filter(keep).contains(id));
                        pre.lemma_filter_contains_rev(keep, id);
                        let j = choose|j: int| 0 <= j < pre.len() && pre[j] == id;
                        assert(other@[j] == other@[i as int]);
                    }
                }
                if o.contains(id) {
                    let k = choose|k: int| 0 <= k < o.len() && o[k] == id;
                    assert(self@[k] == id);
                }
            }
            self.append(id);
            assert(self@ =~= o + other@.subrange(0, i as int + 1).filter(keep));
            i = i + 1;
        }
        assert(other@.subrange(0, i as int) =~= other@);
        proof {
            assert forall|x: usize| self@.to_set().contains(x) <==> (o.to_set() + other@.to_set()).contains(x) by {
                if self@.contains(x) {
                    let k = choose|k: int| 0 <= k < self@.len() && self@[k] == x;
                    if k >= o.len() {
                        assert(other@.filter(keep)[k - o.len()] == x);
                        other@.lemma_filter_contains_rev(keep, x);
                    } else {
                        assert(o[k] == x);
                    }
                }
                if o.contains(x) {
                    let k = choose|k: int| 0 <= k < o.len() && o[k] == x;
                    assert(self@[k] == x);
                }
                if other@.contains(x) && !o.contains(x) {
                    let k = choose|k: int| 0 <= k < other@.len() && other@[k] == x;
                    other@.lemma_filter_contains(keep, k);
                    let m = choose|m: int| 0 <= m < other@.filter(keep).len() && other@.filter(keep)[m] == x;
                    assert(self@[o.len() + m] == x);
                }
            }
            assert(self@.to_set() =~= o.to_set() + other@.to_set());
        }
    }

    /// Removes `id`; the last member takes its place.
    pub fn delete(&mut self, id: usize)
        requires
            old(self).wf(),
        ensures
            final(self).wf(),
            final(self)@.to_set() == old(self)@.to_set().remove(id),
            final(self)@.len() == if old(self)@.contains(id) { old(self)@.len() - 1 } else { old(self)@.len() as int },
    {
        let ghost s = self@;
        idset_swap_remove(&mut self.ids, id);
        proof {
            if s.contains(id) {
                let k = choose|k: int| 0 <= k < s.len() && s[k] == id;
                let t = s.update(k, s.last()).drop_last();
                assert(self@ == t);
                assert forall|i: int, j: int| 0 <= i < j < t.len() implies t[i] != t[j] by {
                    if i == k {
                        assert(t[i] == s[s.len() - 1]);
                    } else if j == k {
                        assert(t[j] == s[s.len() - 1]);
                    }
                }
                assert forall|x: usize| t.contains(x) <==> s.to_set().remove(id).contains(x) by {
                    if s.contains(x) && x != id {
                        let p = choose|p: int| 0 <= p < s.len() && s[p] == x;
                        if p == s.len() - 1 {
                            assert(t[k] == x);
                        } else {
                            assert(t[p] == x);
                        }
                    }
                    if t.contains(x) {
                        let p = choose|p: int| 0 <= p < t.len() && t[p] == x;
                        if p == k {
                            assert(s[s.len() - 1] == x);
                        } else {
                            assert(s[p] == x);
                        }
                    }
                }
                assert(t.to_set() =~= s.to_set().remove(id));
            } else {
                assert(s.to_set().remove(id) =~= s.to_set());
            }
        }
    }

    /// A copy without `id`.
    pub fn other(&self, id: usize) -> (r: Self)
        requires
            self.wf(),
        ensures
            r.wf(),
            r@.to_set() == self@.to_set().remove(id),
    {
        let mut r = self.duplicate();
        r.delete(id);
        r
    }

    /// Whether `f` holds of some member.
    pub fn any<F: Fn(usize) -> bool>(&self, f: F) -> (r: bool)
        requires
            forall|i: int| 0 <= i < self@.len() ==> f.requires((#[trigger] self@[i],)),
        ensures
            r ==> exists|i: int| 0 <= i < self@.len() && f.ensures((#[trigger] self@[i],), true),
            !r ==> forall|i: int| 0 <= i < self@.len() ==> f.ensures((#[trigger] self@[i],), false),
    {
        let n = self.count();
        let mut i: usize = 0;
        while i < n
            invariant
                n == self@.len(),
                i <= n,
                forall|i: int| 0 <= i < self@.len() ==> f.requires((#[trigger] self@[i],)),
                forall|j: int| 0 <= j < i ==> f.ensures((#[trigger] self@[j],), false),
            decreases n - i,
        {
            if f(self.nth(i)) {
                return true;
            }
            i = i + 1;
        }
        false
    }

    /// Whether `f` holds of every member.
    pub fn all<F: Fn(usize) -> bool>(&self, f: F) -> (r: bool)
        requires
            forall|i: int| 0 <= i < self@.len() ==> f.requires((#[trigger] self@[i],)),
        ensures
            r ==> forall|i: int| 0 <= i < self@.len() ==> f.ensures((#[trigger] self@[i],), true),
            !r ==> exists|i: int| 0 <= i < self@.len() && f.ensures((#[trigger] self@[i],), false),
    {
        let n = self.count();
        let mut i: usize = 0;
        while i < n
            invariant
                n == self@.len(),
                i <= n,
                forall|i: int| 0 <= i < self@.len() ==> f.requires((#[trigger] self@[i],)),
                forall|j: int| 0 <= j < i ==> f.ensures((#[trigger] self@[j],), true),
            decreases n - i,
        {
            if !f(self.nth(i)) {
                return false;
            }
            i = i + 1;
        }
        true
    }

    /// Each member paired with what `f` reports of it, in storage order.
    pub fn report<T, F: Fn(usize) -> T>(&self, f: F) -> (r: Vec<(usize, T)>)
        requires
            forall|i: int| 0 <= i < self@.len() ==> f.requires((#[trigger] self@[i],)),
        ensures
            r@.len() == self@.len(),
            forall|i: int| 0 <= i < self@.len() ==> (#[trigger] r@[i]).0 == self@[i] && f.ensures((self@[i],), r@[i].1),
    {
        let n = self.count();
        let mut r: Vec<(usize, T)> = Vec::new();
        let mut i: usize = 0;
        while i < n
            invariant
                n == self@.len(),
                i <= n,
                r@.len() == i,
                forall|i: int| 0 <= i < self@.len() ==> f.requires((#[trigger] self@[i],)),
                forall|j: int| 0 <= j < i ==> (#[trigger] r@[j]).0 == self@[j] && f.ensures((self@[j],), r@[j].1),
            decreases n - i,
        {
            let id = self.nth(i);
            let v = f(id);
            r.push((id, v));
            i = i + 1;
        }
        r
    }

    /// The members of which `f` holds, in storage order.
    pub fn with<F: Fn(usize) -> bool>(&self, f: F) -> (r: Self)
        requires
            self.wf(),
            forall|i: int| 0 <= i < self@.len() ==> f.requires((#[trigger] self@[i],)),
        ensures
            r.wf(),
            exists|keep: Seq<bool>|
                keep.len() == self@.len() && (forall|i: int| 0 <= i < self@.len() ==> f.ensures((self@[i],), #[trigger] keep[i]))
                    && r@ == select(self@, keep),
    {
        let n = self.count();
        let mut r = Self::new();
        let ghost mut keep: Seq<bool> = Seq::empty();
        let mut i: usize = 0;
        while i < n
            invariant
                n == self@.len(),
                i <= n,
                self.wf(),
                r.wf(),
                keep.len() == i,
                forall|i: int| 0 <= i < self@.len() ==> f.requires((#[trigger] self@[i],)),
                forall|j: int| 0 <= j < i ==> f.ensures((self@[j],), #[trigger] keep[j]),
                r@ == select(self@.subrange(0, i as int), keep),
                forall|x: usize| r@.contains(x) ==> self@.subrange(0, i as int).contains(x),
            decreases n - i,
        {
            let id = self.nth(i);
            let b = f(id);
            let ghost sub = self@.subrange(0, i as int + 1);
            assert(sub.drop_last() =~= self@.subrange(0, i as int));
            assert(keep.push(b).drop_last() =~= keep);
            let ghost old_r = r@;
            if b {
                proof {
                    if r@.contains(id) {
                        let p = choose|p: int| 0 <= p < i && self@.subrange(0, i as int)[p] == id;
                        assert(self@[p] == self@[i as int]);
                    }
                }
                r.append(id);
            }
            proof {
                keep = keep.push(b);
                assert forall|x: usize| r@.contains(x) implies sub.contains(x) by {
                    if x == id {
                        assert(sub[i as int] == x);
                    } else {
                        assert(old_r.contains(x));
                        let p = choose|p: int| 0 <= p < i && self@.subrange(0, i as int)[p] == x;
                        assert(sub[p] == x);
                    }
                }
            }
            i = i + 1;
        }
        assert(self@.subrange(0, i as int) =~= self@);
        r
    }

    /// The first member whose key is least.
    pub fn min_one_of<F: Fn(usize) -> i64>(&self, key: F) -> (r: usize)
        requires
            self@.len() > 0,
            forall|i: int| 0 <= i < self@.len() ==> key.requires((#[trigger] self@[i],)),
        ensures
            exists|ks: Seq<i64>, j: int|
                keys_from(key, self@, ks) && is_first_extreme(ks, true, j) && r == self@[j],
    {
        let ks = eval_keys(&self.ids, key);
        let j = first_extreme(&ks, true);
        self.nth(j)
    }

    /// The first member whose key is greatest.
    pub fn max_one_of<F: Fn(usize) -> i64>(&self, key: F) -> (r: usize)
        requires
            self@.len() > 0,
            forall|i: int| 0 <= i < self@.len() ==> key.requires((#[trigger] self@[i],)),
        ensures
            exists|ks: Seq<i64>, j: int|
                keys_from(key, self@, ks) && is_first_extreme(ks, false, j) && r == self@[j],
    {
        let ks = eval_keys(&self.ids, key);
        let j = first_extreme(&ks, false);
        self.nth(j)
    }

    /// The `amount` members with the least keys, in ascending order of key;
    /// equal keys keep their storage order.
    pub fn min_n_of<F: Fn(usize) -> i64>(&self, amount: usize, key: F) -> (r: Self)
        requires
            self.wf(),
            forall|i: int| 0 <= i < self@.len() ==> key.requires((#[trigger] self@[i],)),
        ensures
            r.wf(),
            exists|ks: Seq<i64>|
                keys_from(key, self@, ks) && r@ == pick(self@, ranked_positions(ks, true, amount as nat)),
    {
        let ks = eval_keys(&self.ids, key);
        self.pick_ranked(&ks, true, amount)
    }

    /// The `amount` members with the greatest keys, in descending order of
    /// key; of equal keys the later-stored comes first.
    pub fn max_n_of<F: Fn(usize) -> i64>(&self, amount: usize, key: F) -> (r: Self)
        requires
            self.wf(),
            forall|i: int| 0 <= i < self@.len() ==> key.requires((#[trigger] self@[i],)),
        ensures
            r.wf(),
            exists|ks: Seq<i64>|
                keys_from(key, self@, ks) && r@ == pick(self@, ranked_positions(ks, false, amount as nat)),
    {
        let ks = eval_keys(&self.ids, key);
        self.pick_ranked(&ks, false, amount)
    }

    /// A member drawn uniformly at random.
    pub fn one_of(&self, rng: &fastrand::Rng) -> (r: usize)
        requires
            self@.len() > 0,
        ensures
            self@.contains(r),
    {
        let i = random_below(rng, self.count());
        self.nth(i)
    }

    /// `amount` distinct members, each drawn uniformly from those not yet drawn.
    pub fn n_of(&self, rng: &fastrand::Rng, amount: usize) -> (r: Self)
        requires
            self.wf(),
            amount <= self@.len(),
        ensures
            r.wf(),
            r@.len() == amount,
            forall|x: usize| r@.contains(x) ==> self@.contains(x),
    {
        let mut rest = self.duplicate();
        let mut r = Self::new();
        let mut k: usize = 0;
        while k < amount
            invariant
                k <= amount,
                amount <= self@.len(),
                self.wf(),
                rest.wf(),
                r.wf(),
                r@.len() == k,
                rest@.len() == self@.len() - k,
                forall|x: usize| r@.contains(x) ==> !rest@.contains(x) && self@.contains(x),
                forall|x: usize| rest@.contains(x) ==> self@.contains(x),
            decreases amount - k,
        {
            let id = rest.one_of(rng);
            let ghost before = rest@;
            rest.delete(id);
            proof {
                assert(before.to_set().contains(id));
                assert forall|x: usize| rest@.contains(x) implies self@.contains(x) by {
                    assert(rest@.to_set().contains(x));
                    assert(before.to_set().contains(x));
                }
                assert forall|x: usize| rest@.contains(x) implies x != id by {
                    assert(rest@.to_set().contains(x));
                }
                assert forall|x: usize| r@.contains(x) implies !rest@.contains(x) by {
                    if rest@.contains(x) {
                        assert(rest@.to_set().contains(x));
                        assert(before.to_set().contains(x));
                    }
                }
            }
            r.append(id);
            k = k + 1;
        }
        r
    }

    /// `amount` draws with replacement, each uniform over all members; a
    /// member drawn twice appears once.
    pub fn n_of_with_repeats(&self, rng: &fastrand::Rng, amount: usize) -> (r: Self)
        requires
            self@.len() > 0 || amount == 0,
        ensures
            r.wf(),
            r@.len() <= amount,
            amount > 0 ==> r@.len() >= 1,
            forall|x: usize| r@.contains(x) ==> self@.contains(x),
    {
        let mut r = Self::new();
        let mut k: usize = 0;
        while k < amount
            invariant
                k <= amount,
                self@.len() > 0 || amount == 0,
                r.wf(),
                r@.len() <= k,
                k > 0 ==> r@.len() >= 1,
                forall|x: usize| r@.contains(x) ==> self@.contains(x),
            decreases amount - k,
        {
            let id = self.one_of(rng);
            r.append(id);
            k = k + 1;
        }
        r
    }

    /// `amount` draws with replacement, each member drawn with probability
    /// proportional to its weight under `key`; a member drawn twice appears once.
    ///
    /// An empty set, all-zero weights, or weights whose sum overflows are
    /// caller errors. They are returned as `Err` rather than halted on: the
    /// weights are only known once `key` has run, so no precondition can
    /// exclude them.
    pub fn n_of_weighted_by<F: Fn(usize) -> u64>(&self, amount: usize, key: F) -> (r: Result<Self, SampleError>)
        requires
            forall|i: int| 0 <= i < self@.len() ==> key.requires((#[trigger] self@[i],)),
        ensures
            exists|ws: Seq<u64>|
                keys_from(key, self@, ws) && match r {
                    Err(e) => weight_error(ws) == Some(e),
                    Ok(set) => {
                        &&& weight_error(ws) is None
                        &&& set.wf()
                        &&& set@.len() <= amount
                        &&& amount > 0 ==> set@.len() >= 1
                        &&& forall|x: usize| #[trigger] set@.contains(x) ==> exists|i: int|
                            0 <= i < ws.len() && self@[i] == x && ws[i] > 0
                    },
                },
    {
        assert(forall|i: int| 0 <= i < self@.len() ==> key.requires((#[trigger] self@[i],)));
        assert(self@ == ids_of(self.ids));
        let ws = eval_keys::<u64, F>(&self.ids, key);
        assert(keys_from(key, self@, ws@));
        if ws.len() == 0 {
            assert(weight_error(ws@) == Some(SampleError::NoItem));
            return Err(SampleError::NoItem);
        }
        match sum_weights(&ws) {
            None => {
                assert(weight_error(ws@) == Some(SampleError::WeightOverflow));
                return Err(SampleError::WeightOverflow);
            },
            Some(_) => {},
        }
        let picker = match weighted_index(&ws) {
            Err(_) => {
                assert(weight_error(ws@) == Some(SampleError::AllWeightsZero));
                return Err(SampleError::AllWeightsZero);
            },
            Ok(d) => d,
        };
        let mut r = Self::new();
        let mut k: usize = 0;
        while k < amount
            invariant
                k <= amount,
                weights_of(picker) == ws@,
                ws@.len() == self@.len(),
                r.wf(),
                r@.len() <= k,
                k > 0 ==> r@.len() >= 1,
                forall|x: usize| #[trigger] r@.contains(x) ==> exists|i: int|
                    0 <= i < ws@.len() && self@[i] == x && ws@[i] > 0,
            decreases amount - k,
        {
            let i = weighted_sample(&picker);
            let id = self.nth(i);
            r.append(id);
            k = k + 1;
        }
        Ok(r)
    }

    /// One member, drawn with probability proportional to its weight under `key`.
    /// The caller errors are those of `n_of_weighted_by`, returned as `Err`.
    pub fn one_of_weighted_by<F: Fn(usize) -> u64>(&self, key: F) -> (r: Result<usize, SampleError>)
        requires
            forall|i: int| 0 <= i < self@.len() ==> key.requires((#[trigger] self@[i],)),
        ensures
            exists|ws: Seq<u64>|
                keys_from(key, self@, ws) && match r {
                    Err(e) => weight_error(ws) == Some(e),
                    Ok(x) => weight_error(ws) is None && exists|i: int|
                        0 <= i < ws.len() && self@[i] == x && ws[i] > 0,
                },
    {
        match self.n_of_weighted_by(1, key) {
            Err(e) => Err(e),
            Ok(set) => {
                let x = set.nth(0);
                assert(set@.contains(x));
                Ok(x)
            },
        }
    }

    /// The members in a fresh uniformly random order: the order in which
    /// `ask` visits them.
    pub fn ask_order(&self, rng: &fastrand::Rng) -> (r: Vec<usize>)
        requires
            self.wf(),
        ensures
            r@.to_multiset() == self@.to_multiset(),
            r@.len() == self@.len(),
            r@.no_duplicates(),
            r@.to_set() == self@.to_set(),
    {
        let mut v = self.to_vec();
        shuffle(rng, &mut v);
        proof {
            self@.lemma_multiset_has_no_duplicates();
            v@.lemma_multiset_has_no_duplicates_conv();
            assert forall|x: usize| v@.to_set().contains(x) <==> self@.to_set().contains(x) by {
                assert(v@.contains(x) <==> v@.to_multiset().contains(x));
                assert(self@.contains(x) <==> self@.to_multiset().contains(x));
            }
            assert(v@.to_set() =~= self@.to_set());
        }
        v
    }

    /// Applies `action` to every member once, in a fresh uniformly random
    /// order, threading `state` through the calls; returns the final state.
    pub fn ask<S, F: Fn(S, usize) -> S>(&self, rng: &fastrand::Rng, state: S, action: F) -> (r: S)
        requires
            self.wf(),
            forall|s: S, i: usize| action.requires((s, i)),
        ensures
            exists|order: Seq<usize>, states: Seq<S>|
                order.to_multiset() == self@.to_multiset() && #[trigger] is_run(action, state, order, states, r),
    {
        let order = self.ask_order(rng);
        let mut st = state;
        let ghost mut states: Seq<S> = seq![state];
        let mut k: usize = 0;
        while k < order.len()
            invariant
                k <= order@.len(),
                forall|s: S, i: usize| action.requires((s, i)),
                states.len() == k + 1,
                states[0] == state,
                states.last() == st,
                forall|j: int| 0 <= j < k ==> action.ensures((states[j], order@[j]), #[trigger] states[j + 1]),
            decreases order@.len() - k,
        {
            let ghost before = states;
            st = action(st, order[k]);
            proof {
                states = states.push(st);
                assert forall|j: int| 0 <= j < k + 1 implies action.ensures((states[j], order@[j]), #[trigger] states[j + 1]) by {
                    if j < k {
                        assert(states[j] == before[j] && states[j + 1] == before[j + 1]);
                    }
                }
            }
            k = k + 1;
        }
        assert(is_run(action, state, order@, states, st));
        st
    }

    /// Applies `action` to every member once, in storage order, threading
    /// `state` through the calls; returns the final state.
    pub fn ask_each<S, F: Fn(S, usize) -> S>(&self, state: S, action: F) -> (r: S)
        requires
            forall|s: S, i: usize| action.requires((s, i)),
        ensures
            exists|states: Seq<S>| #[trigger] is_run(action, state, self@, states, r),
    {
        let n = self.count();
        let mut st = state;
        let ghost mut states: Seq<S> = seq![state];
        let mut k: usize = 0;
        while k < n
            invariant
                k <= n,
                n == self@.len(),
                forall|s: S, i: usize| action.requires((s, i)),
                states.len() == k + 1,
                states[0] == state,
                states.last() == st,
                forall|j: int| 0 <= j < k ==> action.ensures((states[j], self@[j]), #[trigger] states[j + 1]),
            decreases n - k,
        {
            let ghost before = states;
            st = action(st, self.nth(k));
            proof {
                states = states.push(st);
                assert forall|j: int| 0 <= j < k + 1 implies action.ensures((states[j], self@[j]), #[trigger] states[j + 1]) by {
                    if j < k {
                        assert(states[j] == before[j] && states[j + 1] == before[j + 1]);
                    }
                }
            }
            k = k + 1;
        }
        assert(is_run(action, state, self@, states, st));
        st
    }

    /// The members at the first `amount` ranked positions of `ks`.
    pub fn pick_ranked(&self, ks: &Vec<i64>, up: bool, amount: usize) -> (r: Self)
        requires
            self.wf(),
            ks@.len() == self@.len(),
        ensures
            r.wf(),
            r@ == pick(self@, ranked_positions(ks@, up, amount as nat)),
    {
        proof {
            lemma_ranked_distinct(ks@, up, amount as nat);
        }
        let pos = ranked(ks, up, amount);
        let ghost rp = ranked_positions(ks@, up, amount as nat);
        let mut r = Self::new();
        let mut i: usize = 0;
        while i < pos.len()
            invariant
                i <= pos@.len(),
                self.wf(),
                r.wf(),
                ks@.len() == self@.len(),
                pos@.map_values(|i: usize| i as int) == rp,
                rp.no_duplicates(),
                forall|k: int| 0 <= k < rp.len() ==> 0 <= #[trigger] rp[k] < ks@.len(),
                r@ == pick(self@, rp.subrange(0, i as int)),
            decreases pos@.len() - i,
        {
            assert(rp[i as int] == pos@[i as int] as int);
            let id = self.nth(pos[i]);
            proof {
                if r@.contains(id) {
                    let p = choose|p: int| 0 <= p < r@.len() && r@[p] == id;
                    assert(self@[rp[p]] == self@[rp[i as int]]);
                    assert(rp[p] == rp[i as int]);
                }
            }
            r.append(id);
            assert(pick(self@, rp.subrange(0, i as int + 1)) =~= pick(self@, rp.subrange(0, i as int)).push(id));
            i = i + 1;
        }
        assert(rp.subrange(0, i as int) =~= rp);
        r
    }
}

/// Position of the first least (`up`) or greatest key.
fn first_extreme(ks: &Vec<i64>, up: bool) -> (j: usize)
    requires
        ks@.len() > 0,
    ensures
        is_first_extreme(ks@, up, j as int),
{
    let mut j: usize = 0;
    let mut i: usize = 1;
    while i < ks.len()
        invariant
            1 <= i <= ks@.len(),
            j < i,
            forall|k: int| 0 <= k < i ==> if up { ks@[j as int] <= #[trigger] ks@[k] } else { ks@[k] <= ks@[j as int] },
            forall|k: int| 0 <= k < j ==> if up { ks@[j as int] < #[trigger] ks@[k] } else { ks@[k] < ks@[j as int] },
        decreases ks@.len() - i,
    {
        if (up && ks[i] < ks[j]) || (!up && ks[i] > ks[j]) {
            j = i;
        }
        i = i + 1;
    }
    j
}

/// Ranked positions are distinct positions of `ks`.
proof fn lemma_ranked_distinct(ks: Seq<i64>, up: bool, m: nat)
    ensures
        ranked_positions(ks, up, m).no_duplicates(),
        forall|k: int| 0 <= k < ranked_positions(ks, up, m).len() ==> 0 <= #[trigger] ranked_positions(ks, up, m)[k] < ks.len(),
        forall|a: int, b: int| 0 <= a < b < ranked_positions(ks, up, m).len() ==>
            ranks_before(ks, up, #[trigger] ranked_positions(ks, up, m)[a], #[trigger] ranked_positions(ks, up, m)[b]),
    decreases m,
{
    if m > 0 {
        lemma_ranked_distinct(ks, up, (m - 1) as nat);
        let s = ranked_positions(ks, up, (m - 1) as nat);
        let prev = if s.len() == 0 { -1 } else { s.last() };
        if has_next(ks, up, prev) {
            let j = next_of(ks, up, prev);
            let t = s.push(j);
            assert forall|a: int, b: int| 0 <= a < b < t.len() implies ranks_before(ks, up, #[trigger] t[a], #[trigger] t[b]) by {
                if b == t.len() - 1 && a < s.len() {
                    assert(t[a] == s[a]);
                    if a < s.len() - 1 {
                        assert(ranks_before(ks, up, s[a], s[s.len() - 1]));
                    }
                    lemma_ranks_transitive(ks, up, t[a], prev, j);
                } else {
                    assert(t[a] == s[a] && t[b] == s[b]);
                }
            }
            assert forall|a: int, b: int| 0 <= a < b < t.len() implies t[a] != t[b] by {
                assert(ranks_before(ks, up, t[a], t[b]));
            }
        }
    }
}

proof fn lemma_ranks_transitive(ks: Seq<i64>, up: bool, a: int, b: int, c: int)
    requires
        a == b || ranks_before(ks, up, a, b),
        b == c || ranks_before(ks, up, b, c),
        a != c || a != b,
        a != c || b != c,
    ensures
        ranks_before(ks, up, a, c),
{
}

/// An element is selected exactly when some position holding it is kept.
pub proof fn lemma_select_contains(s: Seq<usize>, keep: Seq<bool>, x: usize)
    requires
        keep.len() == s.len(),
    ensures
        select(s, keep).contains(x) <==> exists|i: int| 0 <= i < s.len() && s[i] == x && #[trigger] keep[i],
    decreases s.len(),
{
    if s.len() > 0 {
        let s0 = s.drop_last();
        let k0 = keep.drop_last();
        lemma_select_contains(s0, k0, x);
        if select(s, keep).contains(x) {
            if select(s0, k0).contains(x) {
                let i = choose|i: int| 0 <= i < s0.len() && s0[i] == x && #[trigger] k0[i];
                assert(s[i] == x && keep[i]);
            } else {
                assert(s[s.len() - 1] == x && keep[s.len() - 1]);
            }
        }
        if exists|i: int| 0 <= i < s.len() && s[i] == x && #[trigger] keep[i] {
            let i = choose|i: int| 0 <= i < s.len() && s[i] == x && #[trigger] keep[i];
            if i < s.len() - 1 {
                assert(s0[i] == x && k0[i]);
            } else {
                assert(select(s, keep) == select(s0, k0).push(x));
                assert(select(s, keep)[select(s0, k0).len() as int] == x);
            }
        }
    }
}

} // verus!
