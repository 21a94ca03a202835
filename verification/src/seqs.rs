//! Sequences built piece by piece.
use vstd::prelude::*;

verus! {

/// The pieces `f(0)`, ..., `f(n - 1)` one after the other.
pub open spec fn flat<A>(f: spec_fn(int) -> Seq<A>, n: nat) -> Seq<A>
    decreases n,
{
    if n == 0 {
        Seq::empty()
    } else {
        flat(f, (n - 1) as nat) + f(n - 1)
    }
}

/// The pieces are empty together exactly where each is empty.
pub proof fn lemma_flat_empty<A>(f: spec_fn(int) -> Seq<A>, n: nat)
    ensures
        flat(f, n).len() == 0 <==> forall|i: int| 0 <= i < n ==> (#[trigger] f(i)).len() == 0,
    decreases n,
{
    if n > 0 {
        lemma_flat_empty(f, (n - 1) as nat);
    }
}

/// What is in one of the pieces is in the whole.
pub proof fn lemma_flat_contains<A>(f: spec_fn(int) -> Seq<A>, n: nat, i: int, x: A)
    requires
        0 <= i < n,
        f(i).contains(x),
    ensures
        flat(f, n).contains(x),
    decreases n,
{
    let before = flat(f, (n - 1) as nat);
    if i == n - 1 {
        let piece = f(i);
        let k = choose|k: int| 0 <= k < piece.len() && piece[k] == x;
        assert((before + piece)[before.len() + k] == x);
    } else {
        lemma_flat_contains(f, (n - 1) as nat, i, x);
        let k = choose|k: int| 0 <= k < before.len() && before[k] == x;
        assert((before + f(n - 1))[k] == x);
    }
}

/// What is in the whole is in one of the pieces.
pub proof fn lemma_flat_source<A>(f: spec_fn(int) -> Seq<A>, n: nat, x: A) -> (i: int)
    requires
        flat(f, n).contains(x),
    ensures
        0 <= i < n,
        f(i).contains(x),
    decreases n,
{
    let before = flat(f, (n - 1) as nat);
    let piece = f(n - 1);
    let whole = before + piece;
    let k = choose|k: int| 0 <= k < whole.len() && whole[k] == x;
    if k < before.len() {
        assert(before[k] == x);
        lemma_flat_source(f, (n - 1) as nat, x)
    } else {
        assert(piece[k - before.len()] == x);
        n - 1
    }
}

/// Those of the first `n` entries that are to be kept.
pub open spec fn picked(list: Seq<usize>, keep: spec_fn(usize) -> bool, n: nat) -> Seq<usize>
    decreases n,
{
    if n == 0 {
        Seq::empty()
    } else if keep(list[n - 1]) {
        picked(list, keep, (n - 1) as nat).push(list[n - 1])
    } else {
        picked(list, keep, (n - 1) as nat)
    }
}

/// What is picked are the entries to be kept, each as often as before at most.
pub proof fn lemma_picked(list: Seq<usize>, keep: spec_fn(usize) -> bool, n: nat)
    requires
        n <= list.len(),
    ensures
        picked(list, keep, n).len() <= n,
        forall|k: int|
            0 <= k < picked(list, keep, n).len() ==> keep(#[trigger] picked(list, keep, n)[k])
                && list.take(n as int).contains(picked(list, keep, n)[k]),
        forall|x: usize|
            #![auto]
            list.take(n as int).contains(x) && keep(x) ==> picked(list, keep, n).contains(x),
        list.no_duplicates() ==> picked(list, keep, n).no_duplicates(),
    decreases n,
{
    if n > 0 {
        let m = (n - 1) as nat;
        lemma_picked(list, keep, m);
        let before = picked(list, keep, m);
        let now = picked(list, keep, n);
        let last = list[n - 1];
        assert(list.take(n as int) =~= list.take(m as int).push(last));
        assert forall|k: int| 0 <= k < now.len() implies keep(#[trigger] now[k]) && list.take(
            n as int,
        ).contains(now[k]) by {
            if k < before.len() {
                assert(now[k] == before[k]);
                let j = choose|j: int|
                    0 <= j < list.take(m as int).len() && list.take(m as int)[j] == before[k];
                assert(list.take(n as int)[j] == before[k]);
            } else {
                assert(list.take(n as int)[n - 1] == last);
            }
        }
        assert forall|x: usize| #![auto] list.take(n as int).contains(x) && keep(x) implies now.contains(
            x,
        ) by {
            if list.take(m as int).contains(x) {
                assert(before.contains(x));
                let j = choose|j: int| 0 <= j < before.len() && before[j] == x;
                assert(now[j] == x);
            } else {
                let j = choose|j: int|
                    0 <= j < list.take(n as int).len() && list.take(n as int)[j] == x;
                if j < m {
                    assert(list.take(m as int)[j] == x);
                }
                assert(x == last);
                assert(now[before.len() as int] == x);
            }
        }
        if list.no_duplicates() && keep(last) {
            assert forall|a: int, b: int| 0 <= a < b < now.len() implies now[a] != now[b] by {
                if b < before.len() {
                    assert(before[a] != before[b]);
                } else {
                    assert(list.take(m as int).contains(before[a]));
                    let j = choose|j: int|
                        0 <= j < list.take(m as int).len() && list.take(m as int)[j] == before[a];
                    assert(list[j] == before[a]);
                    assert(list[j] != list[n - 1]);
                }
            }
        }
    }
}

} // verus!
