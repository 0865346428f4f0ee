//! Counting: flags that are still down, and lists without repeats.

use vstd::prelude::*;

verus! {

/// How many entries are `false`.
pub open spec fn false_count(v: Seq<bool>) -> nat
    decreases v.len(),
{
    if v.len() == 0 {
        0
    } else {
        false_count(v.drop_last()) + if v.last() {
            0nat
        } else {
            1nat
        }
    }
}

/// Setting a `false` entry lowers the count by one.
pub proof fn lemma_false_count_set(v: Seq<bool>, i: int)
    requires
        0 <= i < v.len(),
        !v[i],
    ensures
        false_count(v.update(i, true)) + 1 == false_count(v),
    decreases v.len(),
{
    let upd = v.update(i, true);
    if i == v.len() - 1 {
        assert(upd.drop_last() =~= v.drop_last());
    } else {
        assert(upd.drop_last() =~= v.drop_last().update(i, true));
        lemma_false_count_set(v.drop_last(), i);
    }
}

/// A vector of `n` times `false`.
pub(crate) fn all_false(n: usize) -> (v: Vec<bool>)
    ensures
        v@.len() == n,
        forall|i: int| 0 <= i < n ==> !v@[i],
{
    let mut v: Vec<bool> = Vec::new();
    let mut i: usize = 0;
    while i < n
        invariant
            i <= n,
            v@.len() == i,
            forall|j: int| 0 <= j < i ==> !v@[j],
        decreases n - i,
    {
        v.push(false);
        i += 1;
    }
    v
}

/// There are `n` numbers below `n`.
pub proof fn lemma_below_len(n: nat)
    requires
        n <= u32::MAX,
    ensures
        Set::new(|v: u32| v < n).finite(),
        Set::new(|v: u32| v < n).len() == n,
    decreases n,
{
    let below = Set::new(|v: u32| v < n);
    if n == 0 {
        assert(below =~= Set::<u32>::empty());
    } else {
        let m = (n - 1) as nat;
        lemma_below_len(m);
        let smaller = Set::new(|v: u32| v < m);
        assert(below =~= smaller.insert(m as u32));
    }
}

/// A list without repeats of numbers below `n` has at most `n` entries.
pub proof fn lemma_distinct_bound(list: Seq<u32>, n: nat)
    requires
        list.no_duplicates(),
        forall|i: int| 0 <= i < list.len() ==> (#[trigger] list[i]) < n,
        n <= u32::MAX,
    ensures
        list.len() <= n,
{
    let below = Set::new(|v: u32| v < n);
    lemma_below_len(n);
    assert(list.to_set().subset_of(below)) by {
        assert forall|v: u32| list.to_set().contains(v) implies below.contains(v) by {
            let i = choose|i: int| 0 <= i < list.len() && list[i] == v;
            assert(list[i] < n);
        }
    }
    vstd::set_lib::lemma_len_subset(list.to_set(), below);
    list.unique_seq_to_set();
}

/// A list without repeats that holds exactly the numbers below `n` has
/// length `n`.
pub proof fn lemma_full_order_len(order: Seq<u32>, n: nat)
    requires
        order.no_duplicates(),
        forall|i: int| 0 <= i < order.len() ==> (#[trigger] order[i]) < n,
        forall|v: u32| v < n ==> order.contains(v),
        n <= u32::MAX,
    ensures
        order.len() == n,
{
    let below = Set::new(|v: u32| v < n);
    assert(order.to_set() =~= below);
    order.unique_seq_to_set();
    lemma_below_len(n);
}

} // verus!
