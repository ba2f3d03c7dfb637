//! Small collection helpers.
use crate::agentset::AgentSet;
use vstd::prelude::*;

verus! {

/// `amount` values, each produced by a call of `key`.
pub fn n_values<T, F: Fn() -> T>(amount: usize, key: F) -> (v: Vec<T>)
    requires
        key.requires(()),
    ensures
        v@.len() == amount,
        forall|i: int| 0 <= i < amount ==> key.ensures((), #[trigger] v@[i]),
{
    let mut v: Vec<T> = Vec::new();
    let mut i: usize = 0;
    while i < amount
        invariant
            i <= amount,
            v@.len() == i,
            key.requires(()),
            forall|j: int| 0 <= j < i ==> key.ensures((), #[trigger] v@[j]),
        decreases amount - i,
    {
        v.push(key());
        i = i + 1;
    }
    v
}

/// The members of `left`, then those of `right` not in `left`.
pub fn concat<K>(left: &AgentSet<K>, right: &AgentSet<K>) -> (r: AgentSet<K>)
    requires
        left.wf(),
        right.wf(),
    ensures
        r.wf(),
        r@ == left@ + right@.filter(|x: usize| !left@.contains(x)),
        r@.to_set() == left@.to_set() + right@.to_set(),
{
    let mut r = left.duplicate();
    r.extends(right);
    r
}

} // verus!
