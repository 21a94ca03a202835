//! What can be reached along edges.
use vstd::prelude::*;

verus! {

/// A walk along `edges` that begins at one of `roots` and stays below `n`.
pub open spec fn is_walk(
    n: nat,
    roots: Seq<usize>,
    edges: Seq<(usize, usize)>,
    w: Seq<usize>,
) -> bool {
    &&& w.len() > 0
    &&& roots.contains(w[0])
    &&& forall|i: int| 0 <= i < w.len() ==> (#[trigger] w[i]) < n
    &&& forall|i: int, j: int|
        0 <= i < w.len() && j == i + 1 && j < w.len() ==> edges.contains(
            (#[trigger] w[i], #[trigger] w[j]),
        )
}

/// Some walk that begins at one of `roots` leads to `x`.
pub open spec fn reached(
    n: nat,
    roots: Seq<usize>,
    edges: Seq<(usize, usize)>,
    x: usize,
) -> bool {
    exists|w: Seq<usize>| #[trigger] is_walk(n, roots, edges, w) && w.last() == x
}

/// The roots are reached.
pub proof fn roots_are_reached(
    n: nat,
    roots: Seq<usize>,
    edges: Seq<(usize, usize)>,
    x: usize,
)
    requires
        roots.contains(x),
        x < n,
    ensures
        reached(n, roots, edges, x),
{
    let w = seq![x];
    assert(is_walk(n, roots, edges, w));
    assert(w.last() == x);
}

/// What an edge leads to from something reached is reached.
pub proof fn reached_is_closed(
    n: nat,
    roots: Seq<usize>,
    edges: Seq<(usize, usize)>,
    x: usize,
    y: usize,
)
    requires
        reached(n, roots, edges, x),
        edges.contains((x, y)),
        y < n,
    ensures
        reached(n, roots, edges, y),
{
    let w = choose|w: Seq<usize>| #[trigger] is_walk(n, roots, edges, w) && w.last() == x;
    let longer = w.push(y);
    assert forall|i: int, j: int|
        0 <= i < longer.len() && j == i + 1 && j < longer.len() implies edges.contains(
        (#[trigger] longer[i], #[trigger] longer[j]),
    ) by {
        if j < w.len() {
            assert(longer[i] == w[i] && longer[j] == w[j]);
        } else {
            assert(longer[i] == w.last());
        }
    }
    assert(longer[0] == w[0]);
    assert(is_walk(n, roots, edges, longer));
    assert(longer.last() == y);
}

/// Every set that holds the roots and that no edge leaves holds what is reached.
pub proof fn reached_is_least(
    n: nat,
    roots: Seq<usize>,
    edges: Seq<(usize, usize)>,
    within: Set<usize>,
    x: usize,
)
    requires
        reached(n, roots, edges, x),
        forall|r: usize| roots.contains(r) && r < n ==> #[trigger] within.contains(r),
        forall|a: usize, b: usize|
            #![trigger edges.contains((a, b))]
            within.contains(a) && edges.contains((a, b)) && b < n ==> within.contains(b),
    ensures
        within.contains(x),
{
    let w = choose|w: Seq<usize>| #[trigger] is_walk(n, roots, edges, w) && w.last() == x;
    lemma_walk_within(n, roots, edges, within, w, w.len() - 1);
}

proof fn lemma_walk_within(
    n: nat,
    roots: Seq<usize>,
    edges: Seq<(usize, usize)>,
    within: Set<usize>,
    w: Seq<usize>,
    i: int,
)
    requires
        is_walk(n, roots, edges, w),
        0 <= i < w.len(),
        forall|r: usize| roots.contains(r) && r < n ==> #[trigger] within.contains(r),
        forall|a: usize, b: usize|
            #![trigger edges.contains((a, b))]
            within.contains(a) && edges.contains((a, b)) && b < n ==> within.contains(b),
    ensures
        within.contains(w[i]),
    decreases i,
{
    assert(w[0] < n);
    if i > 0 {
        lemma_walk_within(n, roots, edges, within, w, i - 1);
        assert(edges.contains((w[i - 1], w[i])));
        assert(w[i] < n);
    }
}

/// How many of the first `n` are not marked.
pub open spec fn unmarked(marked: Seq<bool>, n: nat) -> nat
    decreases n,
{
    if n == 0 {
        0
    } else {
        unmarked(marked, (n - 1) as nat) + (if marked[n - 1] {
            0nat
        } else {
            1nat
        })
    }
}

/// Marking one more leaves one less unmarked.
pub proof fn lemma_unmarked(marked: Seq<bool>, x: int, n: nat)
    requires
        0 <= x < marked.len(),
        !marked[x],
        n <= marked.len(),
    ensures
        unmarked(marked.update(x, true), n) == (if x < n {
            unmarked(marked, n) - 1
        } else {
            unmarked(marked, n) as int
        }),
    decreases n,
{
    if n > 0 {
        lemma_unmarked(marked, x, (n - 1) as nat);
    }
}

/// Returns, for each below `n`, what the edges from there lead to.
fn list_targets(n: usize, edges: &Vec<(usize, usize)>) -> (r: Vec<Vec<usize>>)
    ensures
        r@.len() == n,
        forall|a: usize, b: usize|
            #![trigger edges@.contains((a, b))]
            a < n ==> (r@[a as int]@.contains(b) <==> edges@.contains((a, b))),
{
    let mut targets: Vec<Vec<usize>> = Vec::new();
    let mut k: usize = 0;
    while k < n
        invariant
            k <= n,
            targets@.len() == k,
            forall|a: int| 0 <= a < k ==> (#[trigger] targets@[a])@.len() == 0,
        decreases n - k,
    {
        targets.push(Vec::new());
        k = k + 1;
    }
    let mut e: usize = 0;
    while e < edges.len()
        invariant
            e <= edges@.len(),
            targets@.len() == n,
            forall|a: usize, b: usize|
                a < n ==> (#[trigger] targets@[a as int]@.contains(b) <==> edges@.take(
                    e as int,
                ).contains((a, b))),
        decreases edges@.len() - e,
    {
        let (from, to) = edges[e];
        let ghost before = targets@;
        assert(edges@[e as int] == (from, to));
        assert(edges@.take((e + 1) as int) =~= edges@.take(e as int).push((from, to)));
        if from < n {
            targets[from].push(to);
        }
        proof {
            assert forall|a: usize, b: usize|
                a < n implies (#[trigger] targets@[a as int]@.contains(b) <==> edges@.take(
                (e + 1) as int,
            ).contains((a, b))) by {
                let seen = edges@.take(e as int);
                assert(before[a as int]@.contains(b) <==> seen.contains((a, b)));
                lemma_contains_push(seen, (from, to), (a, b));
                if a == from {
                    lemma_contains_push(before[a as int]@, to, b);
                }
            }
        }
        e = e + 1;
    }
    assert(edges@.take(e as int) =~= edges@);
    targets
}

/// A sequence with one more element holds that element and what it held before.
pub proof fn lemma_contains_push<A>(s: Seq<A>, x: A, y: A)
    ensures
        s.push(x).contains(y) <==> s.contains(y) || x == y,
{
    if s.contains(y) {
        let i = choose|i: int| 0 <= i < s.len() && s[i] == y;
        assert(s.push(x)[i] == y);
    }
    if x == y {
        assert(s.push(x)[s.len() as int] == y);
    }
    if s.push(x).contains(y) {
        let i = choose|i: int| 0 <= i < s.push(x).len() && s.push(x)[i] == y;
        if i < s.len() {
            assert(s[i] == y);
        }
    }
}

/// Everything marked is reached, and all roots are marked.
spec fn on_the_way(
    n: nat,
    roots: Seq<usize>,
    edges: Seq<(usize, usize)>,
    marked: Seq<bool>,
    pending: Seq<usize>,
) -> bool {
    &&& marked.len() == n
    &&& forall|x: int| 0 <= x < n && #[trigger] marked[x] ==> reached(n, roots, edges, x as usize)
    &&& forall|k: int|
        0 <= k < pending.len() ==> (#[trigger] pending[k]) < n && marked[pending[k] as int]
}

/// No edge leads from something marked and not pending to something unmarked.
spec fn closed_but(
    n: nat,
    edges: Seq<(usize, usize)>,
    marked: Seq<bool>,
    pending: Seq<usize>,
) -> bool {
    forall|a: usize, b: usize|
        #![trigger edges.contains((a, b))]
        a < n && b < n && edges.contains((a, b)) && marked[a as int] && !pending.contains(a)
            ==> marked[b as int]
}

/// Returns, for each below `n`, whether it can be reached from `roots` along `edges`.
#[must_use]
pub fn find_reached(n: usize, roots: &Vec<usize>, edges: &Vec<(usize, usize)>) -> (r: Vec<bool>)
    ensures
        r@.len() == n,
        forall|x: int|
            0 <= x < n ==> #[trigger] r@[x] == reached(n as nat, roots@, edges@, x as usize),
{
    let targets: Vec<Vec<usize>> = list_targets(n, edges);
    let mut marked: Vec<bool> = Vec::new();
    let mut k: usize = 0;
    while k < n
        invariant
            k <= n,
            marked@.len() == k,
            forall|x: int| 0 <= x < k ==> !#[trigger] marked@[x],
        decreases n - k,
    {
        marked.push(false);
        k = k + 1;
    }
    let mut pending: Vec<usize> = Vec::new();
    let mut i: usize = 0;
    while i < roots.len()
        invariant
            i <= roots@.len(),
            on_the_way(n as nat, roots@, edges@, marked@, pending@),
            forall|x: usize|
                x < n && #[trigger] marked@[x as int] ==> pending@.contains(x),
            forall|j: int|
                0 <= j < i && (#[trigger] roots@[j]) < n ==> marked@[roots@[j] as int],
        decreases roots@.len() - i,
    {
        let root: usize = roots[i];
        if root < n && !marked[root] {
            let ghost before = pending@;
            proof {
                assert(roots@.contains(roots@[i as int]));
                roots_are_reached(n as nat, roots@, edges@, root);
            }
            marked.set(root, true);
            pending.push(root);
            proof {
                assert forall|x: usize| x < n && #[trigger] marked@[x as int] implies pending@.contains(
                x) by {
                    lemma_contains_push(before, root, x);
                }
            }
        }
        i = i + 1;
    }
    while pending.len() > 0
        invariant
            targets@.len() == n,
            forall|a: usize, b: usize|
                #![trigger edges@.contains((a, b))]
                a < n ==> (targets@[a as int]@.contains(b) <==> edges@.contains((a, b))),
            on_the_way(n as nat, roots@, edges@, marked@, pending@),
            closed_but(n as nat, edges@, marked@, pending@),
            forall|j: int|
                0 <= j < roots@.len() && (#[trigger] roots@[j]) < n ==> marked@[roots@[j] as int],
        decreases unmarked(marked@, n as nat), pending@.len(),
    {
        let ghost whole = pending@;
        let x: usize = match pending.pop() {
            Some(x) => x,
            None => return marked,
        };
        assert(whole =~= pending@.push(x));
        assert(whole[whole.len() - 1] == x);
        let list: &Vec<usize> = &targets[x];
        let ghost start = pending@.len();
        let ghost left = unmarked(marked@, n as nat);
        let ghost rest = pending@;
        proof {
            assert forall|a: usize, b: usize|
                #![trigger edges@.contains((a, b))]
                a < n && b < n && edges@.contains((a, b)) && marked@[a as int] && a != x
                    && !rest.contains(a) implies marked@[b as int] by {
                lemma_contains_push(rest, x, a);
            }
        }
        let mut j: usize = 0;
        while j < list.len()
            invariant
                j <= list@.len(),
                x < n,
                list@ == targets@[x as int]@,
                targets@.len() == n,
                forall|a: usize, b: usize|
                    #![trigger edges@.contains((a, b))]
                    a < n ==> (targets@[a as int]@.contains(b) <==> edges@.contains((a, b))),
                on_the_way(n as nat, roots@, edges@, marked@, pending@),
                marked@[x as int],
                forall|a: usize, b: usize|
                    #![trigger edges@.contains((a, b))]
                    a < n && b < n && edges@.contains((a, b)) && marked@[a as int] && a != x
                        && !pending@.contains(a) ==> marked@[b as int],
                forall|k: int| 0 <= k < j && (#[trigger] list@[k]) < n ==> marked@[list@[k] as int],
                forall|j: int|
                    0 <= j < roots@.len() && (#[trigger] roots@[j]) < n
                        ==> marked@[roots@[j] as int],
                unmarked(marked@, n as nat) < left || (unmarked(marked@, n as nat) == left
                    && pending@.len() == start),
            decreases list@.len() - j,
        {
            let y: usize = list[j];
            if y < n && !marked[y] {
                proof {
                    assert(list@.contains(list@[j as int]));
                    assert(edges@.contains((x, y)));
                    reached_is_closed(n as nat, roots@, edges@, x, y);
                    lemma_unmarked(marked@, y as int, n as nat);
                }
                let ghost before = pending@;
                let ghost was = marked@;
                marked.set(y, true);
                pending.push(y);
                proof {
                    assert forall|a: usize, b: usize|
                        #![trigger edges@.contains((a, b))]
                        a < n && b < n && edges@.contains((a, b)) && marked@[a as int] && a != x
                            && !pending@.contains(a) implies marked@[b as int] by {
                        lemma_contains_push(before, y, a);
                    }
                }
            }
            j = j + 1;
        }
        proof {
            assert forall|a: usize, b: usize|
                #![trigger edges@.contains((a, b))]
                a < n && b < n && edges@.contains((a, b)) && marked@[a as int]
                    && !pending@.contains(a) implies marked@[b as int] by {
                if a == x {
                    assert(list@.contains(b));
                    let k = choose|k: int| 0 <= k < list@.len() && list@[k] == b;
                    assert(list@[k] < n);
                }
            }
        }
    }
    proof {
        assert forall|x: int| 0 <= x < n implies #[trigger] marked@[x] == reached(
            n as nat,
            roots@,
            edges@,
            x as usize,
        ) by {
            if reached(n as nat, roots@, edges@, x as usize) {
                let within = Set::new(|v: usize| v < n && marked@[v as int]);
                assert forall|r: usize|
                    roots@.contains(r) && r < n implies #[trigger] within.contains(r) by {
                    let j = choose|j: int| 0 <= j < roots@.len() && roots@[j] == r;
                    assert(roots@[j] < n);
                }
                reached_is_least(n as nat, roots@, edges@, within, x as usize);
            }
        }
    }
    marked
}

} // verus!
