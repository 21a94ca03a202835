//! Helpers shared by several passes.
use std::collections::{BTreeMap, BTreeSet};
use vstd::prelude::*;

verus! {

/// Returns the exponent of a power of two.
#[must_use]
pub fn is_power_of_two(value: i64) -> (r: Option<u8>)
    ensures
        match r {
            Some(e) => e < 63 && value == vstd::arithmetic::power2::pow2(e as nat),
            None => forall|e: nat| value != #[trigger] vstd::arithmetic::power2::pow2(e),
        },
{
    let mut exponent: u8 = 0;
    let mut power: i64 = 1;
    proof {
        vstd::arithmetic::power2::lemma2_to64();
    }
    while exponent < 62
        invariant
            exponent <= 62,
            power == vstd::arithmetic::power2::pow2(exponent as nat),
            1 <= power,
            exponent < 62 ==> power <= 0x2000_0000_0000_0000,
            forall|e: nat| e < exponent ==> value != #[trigger] vstd::arithmetic::power2::pow2(e),
        decreases 62 - exponent,
    {
        if value == power {
            return Some(exponent);
        }
        proof {
            vstd::arithmetic::power2::lemma_pow2_unfold((exponent + 1) as nat);
            vstd::arithmetic::power2::lemma2_to64();
            vstd::arithmetic::power2::lemma2_to64_rest();
            if exponent + 1 < 61 {
                vstd::arithmetic::power2::lemma_pow2_strictly_increases(
                    (exponent + 1) as nat,
                    61,
                );
            }
        }
        exponent = exponent + 1;
        power = power * 2;
    }
    if value == power {
        return Some(exponent);
    }
    proof {
        vstd::arithmetic::power2::lemma2_to64_rest();
        assert forall|e: nat| value != #[trigger] vstd::arithmetic::power2::pow2(e) by {
            if e > 62 {
                if e > 63 {
                    vstd::arithmetic::power2::lemma_pow2_strictly_increases(63, e);
                }
            }
        }
    }
    None
}

/// The value reached from `start` by following `map` `n` times, staying where it leads nowhere.
pub open spec fn walk(map: Map<usize, usize>, start: usize, n: nat) -> usize
    decreases n,
{
    if n == 0 {
        start
    } else {
        let before = walk(map, start, (n - 1) as nat);
        if map.contains_key(before) {
            map[before]
        } else {
            before
        }
    }
}

/// Following `map` from `start` ends after `n` steps: the value reached leads nowhere, or is the
/// first one reached twice.
pub open spec fn ends_at(map: Map<usize, usize>, start: usize, n: nat) -> bool {
    &&& forall|i: nat| i < n ==> map.contains_key(#[trigger] walk(map, start, i))
    &&& forall|i: nat, j: nat|
        i < j < n ==> #[trigger] walk(map, start, i) != #[trigger] walk(map, start, j)
    &&& !map.contains_key(walk(map, start, n)) || exists|i: nat|
        i < n && #[trigger] walk(map, start, i) == walk(map, start, n)
}

/// The value at the end of the chain of `map` that begins at `start`.
pub open spec fn chain_end(map: Map<usize, usize>, start: usize) -> usize {
    walk(map, start, choose|n: nat| ends_at(map, start, n))
}

proof fn lemma_end_unique(map: Map<usize, usize>, start: usize, m: nat, n: nat)
    requires
        ends_at(map, start, m),
        ends_at(map, start, n),
    ensures
        m == n,
{
    if m < n {
        assert(map.contains_key(walk(map, start, m)));
        let i = choose|i: nat| i < m && #[trigger] walk(map, start, i) == walk(map, start, m);
        assert(walk(map, start, i) != walk(map, start, m));
    } else if n < m {
        assert(map.contains_key(walk(map, start, n)));
        let i = choose|i: nat| i < n && #[trigger] walk(map, start, i) == walk(map, start, n);
        assert(walk(map, start, i) != walk(map, start, n));
    }
}

/// The value found where a chain is known to end is the end of the chain.
pub proof fn lemma_chain_end(map: Map<usize, usize>, start: usize, n: nat)
    requires
        ends_at(map, start, n),
    ensures
        chain_end(map, start) == walk(map, start, n),
{
    lemma_end_unique(map, start, n, choose|n: nat| ends_at(map, start, n));
}

/// Follows `map` from `start` to the end of the chain; a chain that runs into a cycle ends where it
/// first repeats itself.
#[must_use]
pub fn resolve_chain(map: &BTreeMap<usize, usize>, start: usize) -> (r: usize)
    ensures
        exists|n: nat| ends_at(map@, start, n) && r == #[trigger] walk(map@, start, n),
        r == chain_end(map@, start),
{
    broadcast use vstd::std_specs::btree::group_btree_axioms;

    let mut current: usize = start;
    let mut visited: BTreeSet<usize> = BTreeSet::new();
    let ghost mut n: nat = 0;
    proof {
        vstd::set_lib::lemma_len_subset(visited@, map@.dom());
    }
    loop
        invariant
            current == walk(map@, start, n),
            visited@.finite(),
            map@.dom().finite(),
            visited@.subset_of(map@.dom()),
            visited@.len() <= map@.dom().len(),
            forall|k: usize|
                visited@.contains(k) <==> exists|i: nat| i < n && k == #[trigger] walk(
                    map@,
                    start,
                    i,
                ),
            forall|i: nat| i < n ==> map@.contains_key(#[trigger] walk(map@, start, i)),
            forall|i: nat, j: nat|
                i < j < n ==> #[trigger] walk(map@, start, i) != #[trigger] walk(map@, start, j),
        decreases map@.dom().len() - visited@.len(),
    {
        match map.get(&current) {
            None => {
                proof {
                    lemma_chain_end(map@, start, n);
                }
                return current;
            },
            Some(next) => {
                let ghost before = visited@;
                if !visited.insert(current) {
                    proof {
                        lemma_chain_end(map@, start, n);
                    }
                    return current;
                }
                proof {
                    assert forall|i: nat, j: nat| i < j < n + 1 implies #[trigger] walk(
                        map@,
                        start,
                        i,
                    ) != #[trigger] walk(map@, start, j) by {
                        if j == n {
                            assert(before.contains(walk(map@, start, i)));
                        }
                    }
                    assert forall|k: usize|
                        visited@.contains(k) <==> exists|i: nat|
                            i < n + 1 && k == #[trigger] walk(map@, start, i) by {
                        if visited@.contains(k) {
                            if k == current {
                                assert(k == walk(map@, start, n));
                            } else {
                                assert(before.contains(k));
                                let i = choose|i: nat|
                                    i < n && k == #[trigger] walk(map@, start, i);
                                assert(i < n + 1 && k == walk(map@, start, i));
                            }
                        }
                        if exists|i: nat| i < n + 1 && k == #[trigger] walk(map@, start, i) {
                            let i = choose|i: nat|
                                i < n + 1 && k == #[trigger] walk(map@, start, i);
                            if i < n {
                                assert(before.contains(k));
                            }
                        }
                    }
                    vstd::set_lib::lemma_len_subset(visited@, map@.dom());
                    n = n + 1;
                }
                current = *next;
            },
        }
    }
}

/// The end of a chain leads nowhere, unless the chain runs into a cycle.
pub proof fn chain_end_leads_nowhere(map: Map<usize, usize>, start: usize, n: nat)
    requires
        ends_at(map, start, n),
        forall|i: nat, j: nat|
            i < j <= n ==> #[trigger] walk(map, start, i) != #[trigger] walk(map, start, j),
    ensures
        !map.contains_key(chain_end(map, start)),
        chain_end(map, chain_end(map, start)) == chain_end(map, start),
{
    lemma_chain_end(map, start, n);
    let e = walk(map, start, n);
    assert(ends_at(map, e, 0));
    lemma_chain_end(map, e, 0);
}

/// A value that leads nowhere is its own end.
pub proof fn chain_of_one(map: Map<usize, usize>, start: usize)
    requires
        !map.contains_key(start),
    ensures
        chain_end(map, start) == start,
{
    assert(ends_at(map, start, 0));
    lemma_chain_end(map, start, 0);
}

/// The numbers are in ascending order, none twice.
pub open spec fn ascending(list: Seq<usize>) -> bool {
    forall|i: int, j: int| 0 <= i < j < list.len() ==> #[trigger] list[i] < #[trigger] list[j]
}

/// Adds a number to a list in ascending order, unless it is there already.
fn insert_ascending(list: &mut Vec<usize>, x: usize)
    requires
        ascending(old(list)@),
    ensures
        ascending(final(list)@),
        forall|k: usize|
            #[trigger] final(list)@.contains(k) <==> old(list)@.contains(k) || k == x,
{
    let mut p: usize = 0;
    while p < list.len() && list[p] < x
        invariant
            p <= list@.len(),
            list@ == old(list)@,
            ascending(list@),
            forall|i: int| 0 <= i < p ==> #[trigger] list@[i] < x,
        decreases list@.len() - p,
    {
        p = p + 1;
    }
    if p < list.len() && list[p] == x {
        assert(list@.contains(list@[p as int]));
        return ;
    }
    let ghost before = list@;
    list.insert(p, x);
    proof {
        assert(list@ =~= before.insert(p as int, x));
        assert forall|k: usize| #[trigger] list@.contains(k) <==> before.contains(k) || k == x by {
            if before.contains(k) {
                let i = choose|i: int| 0 <= i < before.len() && before[i] == k;
                if i < p {
                    assert(list@[i] == k);
                } else {
                    assert(list@[i + 1] == k);
                }
            }
            if k == x {
                assert(list@[p as int] == x);
            }
            if list@.contains(k) {
                let i = choose|i: int| 0 <= i < list@.len() && list@[i] == k;
                if i < p {
                    assert(before[i] == k);
                } else if i > p {
                    assert(before[i - 1] == k);
                }
            }
        }
        assert forall|i: int, j: int| 0 <= i < j < list@.len() implies #[trigger] list@[i]
            < #[trigger] list@[j] by {
            if j < p {
                assert(before[i] < before[j]);
            } else if j == p {
                assert(before[i] < x);
            } else if i < p {
                assert(before[i] < before[j - 1]);
            } else if i == p {
                assert(before[p as int] >= x);
                if j - 1 > p {
                    assert(before[p as int] < before[j - 1]);
                }
            } else {
                assert(before[i - 1] < before[j - 1]);
            }
        }
    }
}

/// A list of the keys of a map in ascending order.
pub open spec fn lists_keys(map: Map<usize, usize>, list: Seq<usize>) -> bool {
    ascending(list) && forall|k: usize| #[trigger] list.contains(k) <==> map.contains_key(k)
}

/// The keys of a map in ascending order.
pub open spec fn keys(map: Map<usize, usize>) -> Seq<usize> {
    choose|list: Seq<usize>| #[trigger] lists_keys(map, list)
}

proof fn lemma_ascending_prefix(a: Seq<usize>, b: Seq<usize>, n: nat)
    requires
        ascending(a),
        ascending(b),
        forall|k: usize| #[trigger] a.contains(k) <==> b.contains(k),
        n <= a.len(),
    ensures
        n <= b.len(),
        a.take(n as int) =~= b.take(n as int),
    decreases n,
{
    if n > 0 {
        let m = n - 1;
        lemma_ascending_prefix(a, b, m as nat);
        assert(a.contains(a[m]));
        let j = choose|j: int| 0 <= j < b.len() && b[j] == a[m];
        if j < m {
            assert(b.take(m)[j] == a.take(m)[j]);
        }
        if j > m {
            assert(b.contains(b[m]));
            assert(a.contains(b[m]));
            let i = choose|i: int| 0 <= i < a.len() && a[i] == b[m];
            assert(b[m] < b[j]);
            if i < m {
                assert(a.take(m)[i] == b.take(m)[i]);
                assert(b[i] < b[m]);
            }
            if i > m {
                assert(a[m] < a[i]);
            }
        }
        if j < m {
            assert(a[j] < a[m]);
        }
        assert(a[m] == b[m]);
        assert(a.take(n as int) =~= a.take(m).push(a[m]));
        assert(b.take(n as int) =~= b.take(m).push(b[m]));
    }
}

/// There is only one list of the keys of a map in ascending order.
pub proof fn lemma_keys(map: Map<usize, usize>, list: Seq<usize>)
    requires
        lists_keys(map, list),
    ensures
        keys(map) == list,
{
    let other = keys(map);
    assert forall|k: usize| #[trigger] list.contains(k) <==> other.contains(k) by {
        assert(list.contains(k) <==> map.contains_key(k));
        assert(other.contains(k) <==> map.contains_key(k));
    }
    lemma_ascending_prefix(list, other, list.len());
    lemma_ascending_prefix(other, list, other.len());
    assert(list.take(list.len() as int) =~= list);
    assert(other.take(other.len() as int) =~= other);
}

/// Returns the keys of a map in ascending order.
#[must_use]
pub fn sorted_keys(map: &BTreeMap<usize, usize>) -> (r: Vec<usize>)
    ensures
        r@ == keys(map@),
        lists_keys(map@, r@),
{
    broadcast use vstd::std_specs::btree::group_btree_axioms;

    let mut r: Vec<usize> = Vec::new();
    let ghost all = vstd::std_specs::iter::IteratorSpec::remaining(
        &vstd::std_specs::btree::spec_keys_iter(map),
    );
    assert(all.unref().take(0) =~= Seq::empty());
    for key in it: map.keys()
        invariant
            it.seq() == all,
            ascending(r@),
            forall|k: usize|
                #[trigger] r@.contains(k) <==> all.unref().take(it.index() as int).contains(k),
    {
        let ghost seen = all.unref().take(it.index() as int);
        insert_ascending(&mut r, *key);
        proof {
            assert(all.unref().take(it.index() as int + 1) =~= seen.push(*key));
            assert forall|k: usize|
                #[trigger] r@.contains(k) <==> all.unref().take(it.index() as int + 1).contains(
                    k,
                ) by {
                crate::analysis::closure::lemma_contains_push(seen, *key, k);
            }
        }
    }
    proof {
        assert(all.unref().take(all.len() as int) =~= all.unref());
        assert forall|k: usize| #[trigger] r@.contains(k) <==> map@.contains_key(k) by {
            assert(all.unref().to_set().contains(k) <==> map@.dom().contains(k));
        }
        lemma_keys(map@, r@);
    }
    r
}

} // verus!
