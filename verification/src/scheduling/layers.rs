//! Layers: a pass that relies on a milestone runs in a later layer than those that reach it.
use crate::analysis::closure;
use crate::scheduling::pass::{PassProfile, ProfileView};
use crate::target::Target;
use vstd::prelude::*;

verus! {

/// Pass `i` relies on a milestone that the other pass `j` reaches.
pub open spec fn relies_on<T: Target>(profiles: Seq<ProfileView<T>>, i: int, j: int) -> bool {
    i != j && exists|a: int, b: int|
        0 <= a < profiles[i].needs.len() && 0 <= b < profiles[j].provides.len()
            && #[trigger] profiles[i].needs[a] == #[trigger] profiles[j].provides[b]
}

/// `deps` lists for every pass those that it relies on.
pub open spec fn lists_reliance<T: Target>(
    profiles: Seq<ProfileView<T>>,
    deps: Seq<Seq<usize>>,
) -> bool {
    &&& deps.len() == profiles.len()
    &&& in_range(deps)
    &&& forall|i: int, j: usize|
        0 <= i < deps.len() && j < deps.len() ==> (#[trigger] deps[i].contains(j) <==> relies_on(
            profiles,
            i,
            j as int,
        ))
}

/// The lists name positions of passes.
pub open spec fn in_range(deps: Seq<Seq<usize>>) -> bool {
    forall|i: int, k: int|
        0 <= i < deps.len() && 0 <= k < deps[i].len() ==> #[trigger] deps[i][k] < deps.len()
}

/// `layer` keeps every pass at or above its fallback layer, and above all that it relies on.
pub open spec fn is_assignment(
    deps: Seq<Seq<usize>>,
    fallback: Seq<usize>,
    layer: Seq<int>,
) -> bool {
    &&& layer.len() == deps.len()
    &&& forall|i: int| 0 <= i < deps.len() ==> fallback[i] <= #[trigger] layer[i]
    &&& forall|i: int, k: int|
        0 <= i < deps.len() && 0 <= k < deps[i].len() ==> layer[(#[trigger] deps[i][k]) as int]
            < layer[i]
}

/// No assignment puts pass `i` below `bound`.
pub open spec fn at_least(
    deps: Seq<Seq<usize>>,
    fallback: Seq<usize>,
    i: int,
    bound: int,
) -> bool {
    forall|other: Seq<int>| #[trigger] is_assignment(deps, fallback, other) ==> bound <= other[i]
}

/// Layers as integers.
pub open spec fn ints(layer: Seq<usize>) -> Seq<int> {
    layer.map_values(|l: usize| l as int)
}

/// `layer` is the lowest assignment: no other puts any pass lower.
pub open spec fn is_lowest(
    deps: Seq<Seq<usize>>,
    fallback: Seq<usize>,
    layer: Seq<usize>,
) -> bool {
    &&& is_assignment(deps, fallback, ints(layer))
    &&& forall|i: int| 0 <= i < layer.len() ==> at_least(deps, fallback, i, #[trigger] layer[i] as int)
}

/// The position after `k` in a circle of `n`.
pub open spec fn after(k: int, n: nat) -> int {
    if k + 1 < n {
        k + 1
    } else {
        0
    }
}

/// Every pass of the circle relies on the one before it, the first on the last.
pub open spec fn is_circle(deps: Seq<Seq<usize>>, circle: Seq<usize>) -> bool {
    &&& circle.len() > 0
    &&& forall|k: int| 0 <= k < circle.len() ==> #[trigger] circle[k] < deps.len()
    &&& forall|k: int|
        0 <= k < circle.len() ==> deps[circle[after(k, circle.len())] as int].contains(
            #[trigger] circle[k],
        )
}

proof fn lemma_circle_rises(
    deps: Seq<Seq<usize>>,
    fallback: Seq<usize>,
    layer: Seq<int>,
    circle: Seq<usize>,
    k: int,
)
    requires
        is_assignment(deps, fallback, layer),
        is_circle(deps, circle),
        0 <= k < circle.len(),
    ensures
        layer[circle[0] as int] + k <= layer[circle[k] as int],
    decreases k,
{
    if k > 0 {
        lemma_circle_rises(deps, fallback, layer, circle, k - 1);
        assert(after(k - 1, circle.len()) == k);
        assert(deps[circle[k] as int].contains(circle[k - 1]));
        let m = choose|m: int|
            0 <= m < deps[circle[k] as int].len() && deps[circle[k] as int][m] == circle[k - 1];
        assert(layer[deps[circle[k] as int][m] as int] < layer[circle[k] as int]);
    }
}

/// Passes that rely on each other in a circle cannot be put into layers.
pub proof fn circle_has_no_layers(
    deps: Seq<Seq<usize>>,
    fallback: Seq<usize>,
    layer: Seq<int>,
    circle: Seq<usize>,
)
    requires
        is_circle(deps, circle),
    ensures
        !is_assignment(deps, fallback, layer),
{
    if is_assignment(deps, fallback, layer) {
        let last = circle.len() - 1;
        lemma_circle_rises(deps, fallback, layer, circle, last);
        assert(after(last, circle.len()) == 0);
        assert(deps[circle[0] as int].contains(circle[last]));
        let m = choose|m: int|
            0 <= m < deps[circle[0] as int].len() && deps[circle[0] as int][m] == circle[last];
        assert(layer[deps[circle[0] as int][m] as int] < layer[circle[0] as int]);
    }
}

/// There is only one lowest assignment.
pub proof fn lowest_layers_are_unique(
    deps: Seq<Seq<usize>>,
    fallback: Seq<usize>,
    a: Seq<usize>,
    b: Seq<usize>,
)
    requires
        is_lowest(deps, fallback, a),
        is_lowest(deps, fallback, b),
    ensures
        a == b,
{
    assert forall|i: int| 0 <= i < a.len() implies a[i] == b[i] by {
        assert(at_least(deps, fallback, i, a[i] as int));
        assert(at_least(deps, fallback, i, b[i] as int));
        assert(ints(b)[i] == b[i]);
        assert(ints(a)[i] == a[i]);
    }
    assert(a =~= b);
}

/// A pass runs in a strictly later layer than every other pass that reaches a milestone it relies
/// on.
pub proof fn consumers_come_later<T: Target>(
    profiles: Seq<ProfileView<T>>,
    deps: Seq<Seq<usize>>,
    fallback: Seq<usize>,
    layer: Seq<usize>,
    consumer: int,
    provider: int,
)
    requires
        lists_reliance(profiles, deps),
        is_lowest(deps, fallback, layer),
        0 <= consumer < profiles.len(),
        0 <= provider < profiles.len(),
        profiles.len() <= usize::MAX,
        relies_on(profiles, consumer, provider),
    ensures
        layer[provider] < layer[consumer],
{
    assert(deps[consumer].contains(provider as usize));
    let m = choose|m: int|
        0 <= m < deps[consumer].len() && deps[consumer][m] == provider as usize;
    assert(ints(layer)[deps[consumer][m] as int] < ints(layer)[consumer]);
}

/// Without milestones to rely on, every pass runs in its fallback layer.
pub proof fn independent_passes_keep_their_layers(
    deps: Seq<Seq<usize>>,
    fallback: Seq<usize>,
    layer: Seq<usize>,
)
    requires
        is_lowest(deps, fallback, layer),
        fallback.len() == deps.len(),
        forall|i: int| 0 <= i < deps.len() ==> (#[trigger] deps[i]).len() == 0,
    ensures
        layer == fallback,
{
    assert(is_assignment(deps, fallback, ints(fallback)));
    assert forall|i: int| 0 <= i < layer.len() implies layer[i] == fallback[i] by {
        assert(at_least(deps, fallback, i, layer[i] as int));
        assert(ints(layer)[i] == layer[i]);
        assert(ints(fallback)[i] == fallback[i]);
    }
    assert(layer =~= fallback);
}

/// Lists as sequences.
pub open spec fn lists(deps: Seq<Vec<usize>>) -> Seq<Seq<usize>> {
    deps.map_values(|list: Vec<usize>| list@)
}

/// Profiles as mathematical values.
pub open spec fn views<T: Target>(profiles: Seq<PassProfile<T>>) -> Seq<ProfileView<T>> {
    profiles.map_values(|p: PassProfile<T>| p@)
}

/// Returns whether a milestone of `needs` is one of `provides`.
fn meets<T: Target>(needs: &Vec<T::Capability>, provides: &Vec<T::Capability>) -> (r: bool)
    ensures
        r <==> exists|a: int, b: int|
            0 <= a < needs@.len() && 0 <= b < provides@.len() && #[trigger] needs@[a]
                == #[trigger] provides@[b],
{
    let mut a: usize = 0;
    while a < needs.len()
        invariant
            a <= needs@.len(),
            forall|x: int, y: int|
                0 <= x < a && 0 <= y < provides@.len() ==> #[trigger] needs@[x]
                    != #[trigger] provides@[y],
        decreases needs@.len() - a,
    {
        let mut b: usize = 0;
        while b < provides.len()
            invariant
                a < needs@.len(),
                b <= provides@.len(),
                forall|y: int| 0 <= y < b ==> needs@[a as int] != #[trigger] provides@[y],
            decreases provides@.len() - b,
        {
            if T::same_capability(&needs[a], &provides[b]) {
                assert(needs@[a as int] == provides@[b as int]);
                return true;
            }
            b = b + 1;
        }
        a = a + 1;
    }
    false
}

/// Finds for every pass those that it relies on.
pub fn find_reliance<T: Target>(profiles: &Vec<PassProfile<T>>) -> (r: Vec<Vec<usize>>)
    ensures
        lists_reliance(views(profiles@), lists(r@)),
{
    let ghost all = views(profiles@);
    let n: usize = profiles.len();
    let mut r: Vec<Vec<usize>> = Vec::new();
    let mut i: usize = 0;
    while i < n
        invariant
            n == profiles@.len(),
            all == views(profiles@),
            i <= n,
            r@.len() == i,
            forall|x: int, k: int|
                0 <= x < i && 0 <= k < r@[x]@.len() ==> #[trigger] r@[x]@[k] < n,
            forall|x: int, j: usize|
                0 <= x < i && j < n ==> (#[trigger] r@[x]@.contains(j) <==> relies_on(
                    all,
                    x,
                    j as int,
                )),
        decreases n - i,
    {
        let mut list: Vec<usize> = Vec::new();
        let mut j: usize = 0;
        while j < n
            invariant
                n == profiles@.len(),
                all == views(profiles@),
                i < n,
                j <= n,
                forall|k: int| 0 <= k < list@.len() ==> #[trigger] list@[k] < j,
                forall|m: usize|
                    m < j ==> (#[trigger] list@.contains(m) <==> relies_on(
                        all,
                        i as int,
                        m as int,
                    )),
            decreases n - j,
        {
            let ghost before = list@;
            let relies: bool = i != j && meets::<T>(&profiles[i].needs, &profiles[j].provides);
            proof {
                assert(all[i as int].needs == profiles@[i as int].needs@);
                assert(all[j as int].provides == profiles@[j as int].provides@);
                assert(relies == relies_on(all, i as int, j as int));
            }
            if relies {
                list.push(j);
            }
            proof {
                assert forall|m: usize| m < j + 1 implies (#[trigger] list@.contains(m)
                    <==> relies_on(all, i as int, m as int)) by {
                    closure::lemma_contains_push(before, j, m);
                    if m < j {
                        assert(before.contains(m) <==> relies_on(all, i as int, m as int));
                    } else {
                        assert(!before.contains(j));
                    }
                }
            }
            j = j + 1;
        }
        let ghost before = r@;
        r.push(list);
        assert forall|x: int, j: usize| 0 <= x < i + 1 && j < n implies (#[trigger] r@[x]@.contains(
            j,
        ) <==> relies_on(all, x, j as int)) by {
            if x < i {
                assert(r@[x] == before[x]);
                assert(before[x]@.contains(j) <==> relies_on(all, x, j as int));
            }
        }
        i = i + 1;
    }
    proof {
        let deps = lists(r@);
        assert forall|x: int, k: int| 0 <= x < deps.len() && 0 <= k < deps[x].len() implies
            #[trigger] deps[x][k] < deps.len() by {
            assert(r@[x]@[k] < n);
        }
        assert forall|x: int, j: usize| 0 <= x < deps.len() && j < deps.len() implies (
            #[trigger] deps[x].contains(j) <==> relies_on(all, x, j as int)) by {
            assert(r@[x]@.contains(j) <==> relies_on(all, x, j as int));
        }
    }
    r
}

/// Returns the first position in `list` that is not marked.
fn find_unmarked(marks: &Vec<bool>, list: &Vec<usize>) -> (r: Option<usize>)
    requires
        forall|k: int| 0 <= k < list@.len() ==> #[trigger] list@[k] < marks@.len(),
    ensures
        match r {
            Some(x) => list@.contains(x) && x < marks@.len() && !marks@[x as int],
            None => forall|k: int| 0 <= k < list@.len() ==> marks@[(#[trigger] list@[k]) as int],
        },
{
    let mut k: usize = 0;
    while k < list.len()
        invariant
            k <= list@.len(),
            forall|j: int| 0 <= j < list@.len() ==> #[trigger] list@[j] < marks@.len(),
            forall|j: int| 0 <= j < k ==> marks@[(#[trigger] list@[j]) as int],
        decreases list@.len() - k,
    {
        if !marks[list[k]] {
            return Some(list[k]);
        }
        k = k + 1;
    }
    None
}

/// Pass `i` relies on one that is not placed.
spec fn waits(deps: Seq<Seq<usize>>, placed: Seq<bool>, i: int) -> bool {
    exists|k: int| 0 <= k < deps[i].len() && !placed[(#[trigger] deps[i][k]) as int]
}

/// Every pass that is not placed relies on one that is not placed.
spec fn is_stuck(deps: Seq<Seq<usize>>, placed: Seq<bool>) -> bool {
    forall|i: int| 0 <= i < deps.len() && !placed[i] ==> #[trigger] waits(deps, placed, i)
}

/// Finds a circle among the passes that are not placed.
fn find_circle(deps: &Vec<Vec<usize>>, placed: &Vec<bool>, start: usize) -> (r: Vec<usize>)
    requires
        in_range(lists(deps@)),
        placed@.len() == deps@.len(),
        start < deps@.len(),
        !placed@[start as int],
        is_stuck(lists(deps@), placed@),
    ensures
        is_circle(lists(deps@), r@),
{
    let ghost all = lists(deps@);
    let n: usize = deps.len();
    let mut seen: Vec<bool> = Vec::new();
    let mut i: usize = 0;
    while i < n
        invariant
            i <= n,
            seen@.len() == i,
            forall|j: int| 0 <= j < i ==> !#[trigger] seen@[j],
        decreases n - i,
    {
        seen.push(false);
        i = i + 1;
    }
    let mut path: Vec<usize> = Vec::new();
    let ghost blank = seen@;
    path.push(start);
    seen.set(start, true);
    assert forall|x: usize| x < n && #[trigger] seen@[x as int] implies path@.contains(x) by {
        if x != start {
            assert(!blank[x as int]);
        }
        assert(path@[0] == start);
    }
    let mut current: usize = start;
    loop
        invariant
            all == lists(deps@),
            in_range(all),
            n == deps@.len(),
            placed@.len() == n,
            seen@.len() == n,
            is_stuck(all, placed@),
            path@.len() > 0,
            path@.last() == current,
            current < n,
            !placed@[current as int],
            forall|k: int| 0 <= k < path@.len() ==> #[trigger] path@[k] < n,
            forall|k: int, m: int|
                0 <= k && m == k + 1 && m < path@.len() ==> all[path@[k] as int].contains(
                    #[trigger] path@[m],
                ) && #[trigger] path@[k] < n,
            forall|x: usize| x < n && #[trigger] seen@[x as int] ==> path@.contains(x),
        decreases closure::unmarked(seen@, seen@.len()),
    {
        assert(all[current as int] == deps@[current as int]@);
        assert(waits(all, placed@, current as int));
        let next: usize = match find_unmarked(placed, &deps[current]) {
            Some(x) => x,
            None => {
                assert(false);
                current
            },
        };
        assert(all[current as int].contains(next));
        if seen[next] {
            assert(path@.contains(next));
            let mut circle: Vec<usize> = Vec::new();
            let ghost whole = path@;
            let ghost p = choose|p: int| 0 <= p < whole.len() && whole[p] == next;
            let mut done: bool = false;
            while !done
                invariant
                    whole.len() > 0,
                    0 <= p < whole.len(),
                    whole[p] == next,
                    all == lists(deps@),
                    n == deps@.len(),
                    forall|k: int| 0 <= k < whole.len() ==> #[trigger] whole[k] < n,
                    path@ == whole.take(whole.len() - circle@.len()),
                    circle@.len() <= whole.len(),
                    forall|k: int|
                        0 <= k < circle@.len() ==> #[trigger] circle@[k] == whole[whole.len() - 1 - k],
                    !done ==> whole.len() - circle@.len() > p,
                    done ==> circle@.len() > 0 && circle@.last() == next,
                decreases path@.len() + if done {
                    0int
                } else {
                    1int
                },
            {
                let ghost before = circle@;
                if let Some(x) = path.pop() {
                    circle.push(x);
                    assert(x == whole[whole.len() - 1 - before.len()]);
                    assert(path@ =~= whole.take(whole.len() - circle@.len()));
                    if x == next {
                        done = true;
                    } else {
                        assert(whole.len() - 1 - before.len() != p);
                    }
                }
            }
            proof {
                assert forall|k: int| 0 <= k < circle@.len() implies all[circle@[after(
                    k,
                    circle@.len(),
                )] as int].contains(#[trigger] circle@[k]) by {
                    let q = whole.len() - 1 - k;
                    if k + 1 < circle@.len() {
                        assert(circle@[k + 1] == whole[q - 1]);
                        assert(whole[q - 1] < n);
                        assert(all[whole[q - 1] as int].contains(whole[q]));
                    } else {
                        assert(circle@[0] == whole[whole.len() - 1]);
                        assert(circle@[k] == next);
                    }
                }
            }
            return circle;
        }
        let ghost before = path@;
        let ghost marks = seen@;
        proof {
            closure::lemma_unmarked(seen@, next as int, seen@.len());
        }
        path.push(next);
        seen.set(next, true);
        proof {
            assert forall|x: usize| x < n && #[trigger] seen@[x as int] implies path@.contains(x) by {
                closure::lemma_contains_push(before, next, x);
                if x != next {
                    assert(marks[x as int]);
                }
            }
            assert forall|k: int, m: int| 0 <= k && m == k + 1 && m < path@.len() implies all[path@[k] as int].contains(
                #[trigger] path@[m],
            ) && #[trigger] path@[k] < n by {
                assert(path@[k] == before[k]);
                if m < before.len() {
                    assert(path@[m] == before[m]);
                } else {
                    assert(before[k] == current);
                }
            }
        }
        current = next;
    }
}

/// Returns the lowest layer for pass `i` above those that it relies on.
fn find_layer(list: &Vec<usize>, layer: &Vec<usize>, fallback: usize) -> (r: usize)
    requires
        forall|k: int|
            0 <= k < list@.len() ==> #[trigger] list@[k] < layer@.len() && layer@[list@[k] as int]
                < usize::MAX,
    ensures
        fallback <= r,
        forall|k: int| 0 <= k < list@.len() ==> layer@[(#[trigger] list@[k]) as int] < r,
        r == fallback || exists|k: int|
            0 <= k < list@.len() && r == layer@[(#[trigger] list@[k]) as int] + 1,
{
    let mut r: usize = fallback;
    let mut k: usize = 0;
    while k < list.len()
        invariant
            k <= list@.len(),
            forall|j: int|
                0 <= j < list@.len() ==> #[trigger] list@[j] < layer@.len()
                    && layer@[list@[j] as int] < usize::MAX,
            fallback <= r,
            forall|j: int| 0 <= j < k ==> layer@[(#[trigger] list@[j]) as int] < r,
            r == fallback || exists|j: int|
                0 <= j < k && r == layer@[(#[trigger] list@[j]) as int] + 1,
        decreases list@.len() - k,
    {
        let below: usize = layer[list[k]];
        if r <= below {
            r = below + 1;
            assert(r == layer@[list@[k as int] as int] + 1);
        }
        k = k + 1;
    }
    r
}

/// Finds a pass that is not placed and relies only on placed ones.
fn find_ready(deps: &Vec<Vec<usize>>, placed: &Vec<bool>) -> (r: Option<usize>)
    requires
        in_range(lists(deps@)),
        placed@.len() == deps@.len(),
    ensures
        match r {
            Some(i) => i < deps@.len() && !placed@[i as int] && forall|k: int|
                0 <= k < deps@[i as int]@.len() ==> placed@[(
                #[trigger] deps@[i as int]@[k]) as int],
            None => is_stuck(lists(deps@), placed@),
        },
{
    let ghost all = lists(deps@);
    let mut i: usize = 0;
    while i < deps.len()
        invariant
            all == lists(deps@),
            in_range(all),
            placed@.len() == deps@.len(),
            i <= deps@.len(),
            forall|x: int| 0 <= x < i && !placed@[x] ==> #[trigger] waits(all, placed@, x),
        decreases deps@.len() - i,
    {
        assert(all[i as int] == deps@[i as int]@);
        if !placed[i] {
            match find_unmarked(placed, &deps[i]) {
                None => {
                    return Some(i);
                },
                Some(x) => {
                    let ghost k = choose|k: int|
                        0 <= k < all[i as int].len() && all[i as int][k] == x;
                    assert(!placed@[all[i as int][k] as int]);
                    assert(waits(all, placed@, i as int));
                },
            }
        }
        i = i + 1;
    }
    None
}

/// Puts passes into layers, as low as they can be; where some rely on each other in a circle,
/// returns such a circle.
pub fn assign_layers(deps: &Vec<Vec<usize>>, fallback: &Vec<usize>) -> (r: Result<
    Vec<usize>,
    Vec<usize>,
>)
    requires
        in_range(lists(deps@)),
        fallback@.len() == deps@.len(),
        forall|i: int|
            0 <= i < fallback@.len() ==> #[trigger] fallback@[i] + fallback@.len() <= usize::MAX,
    ensures
        match r {
            Ok(layer) => is_lowest(lists(deps@), fallback@, layer@),
            Err(circle) => is_circle(lists(deps@), circle@),
        },
        r is Err <==> exists|circle: Seq<usize>| is_circle(lists(deps@), circle),
{
    let ghost all = lists(deps@);
    let n: usize = deps.len();
    let mut placed: Vec<bool> = Vec::new();
    let mut layer: Vec<usize> = Vec::new();
    let mut i: usize = 0;
    while i < n
        invariant
            i <= n,
            n == fallback@.len(),
            placed@.len() == i,
            layer@.len() == i,
            forall|j: int| 0 <= j < i ==> !#[trigger] placed@[j],
        decreases n - i,
    {
        placed.push(false);
        layer.push(fallback[i]);
        i = i + 1;
    }
    proof {
        lemma_unmarked_bound(placed@, placed@.len());
    }
    loop
        invariant
            all == lists(deps@),
            in_range(all),
            n == deps@.len(),
            n == fallback@.len(),
            placed@.len() == n,
            layer@.len() == n,
            forall|i: int| 0 <= i < n ==> #[trigger] fallback@[i] + n <= usize::MAX,
            closure::unmarked(placed@, n as nat) <= n,
            forall|i: int, k: int|
                0 <= i < n && placed@[i] && 0 <= k < all[i].len() ==> placed@[(
                #[trigger] all[i][k]) as int] && layer@[all[i][k] as int] < layer@[i],
            forall|i: int|
                0 <= i < n && placed@[i] ==> fallback@[i] <= #[trigger] layer@[i] && layer@[i]
                    + closure::unmarked(placed@, n as nat) <= usize::MAX && at_least(
                    all,
                    fallback@,
                    i,
                    layer@[i] as int,
                ),
        decreases closure::unmarked(placed@, n as nat),
    {
        match find_ready(deps, &placed) {
            Some(i) => {
                let ghost left = closure::unmarked(placed@, n as nat);
                let ghost marks = placed@;
                let ghost before = layer@;
                proof {
                    closure::lemma_unmarked(placed@, i as int, n as nat);
                    assert(all[i as int] == deps@[i as int]@);
                    assert forall|k: int| 0 <= k < all[i as int].len() implies (
                    #[trigger] all[i as int][k]) < n && layer@[all[i as int][k] as int]
                        < usize::MAX by {
                        assert(placed@[deps@[i as int]@[k] as int]);
                        let d = all[i as int][k] as int;
                        assert(layer@[d] + left <= usize::MAX);
                    }
                }
                let level: usize = find_layer(&deps[i], &layer, fallback[i]);
                layer.set(i, level);
                placed.set(i, true);
                proof {
                    assert(placed@ == marks.update(i as int, true));
                    assert(level + (left - 1) <= usize::MAX) by {
                        if level != fallback@[i as int] {
                            let k = choose|k: int|
                                0 <= k < deps@[i as int]@.len() && level == before[(
                                #[trigger] deps@[i as int]@[k]) as int] + 1;
                            assert(marks[deps@[i as int]@[k] as int]);
                            assert(before[deps@[i as int]@[k] as int] + left <= usize::MAX);
                        }
                    }
                    assert(at_least(all, fallback@, i as int, level as int)) by {
                        assert forall|other: Seq<int>| #[trigger]
                            is_assignment(all, fallback@, other) implies level <= other[i as int] by {
                            if level != fallback@[i as int] {
                                let k = choose|k: int|
                                    0 <= k < deps@[i as int]@.len() && level == before[(
                                    #[trigger] deps@[i as int]@[k]) as int] + 1;
                                let d = all[i as int][k] as int;
                                assert(marks[d]);
                                assert(at_least(all, fallback@, d, before[d] as int));
                                assert(other[d] < other[i as int]);
                            }
                        }
                    }
                    assert forall|x: int, k: int| 0 <= x < n && placed@[x] && 0 <= k < all[x].len() implies placed@[(
                    #[trigger] all[x][k]) as int] && layer@[all[x][k] as int] < layer@[x] by {
                        if x == i {
                            assert(marks[deps@[i as int]@[k] as int]);
                            assert(before[deps@[i as int]@[k] as int] < level);
                        } else {
                            assert(marks[x]);
                            assert(marks[all[x][k] as int]);
                        }
                    }
                }
            },
            None => {
                let mut i: usize = 0;
                while i < n
                    invariant
                        all == lists(deps@),
                        in_range(all),
                        n == deps@.len(),
                        placed@.len() == n,
                        is_stuck(all, placed@),
                        i <= n,
                        forall|j: int| 0 <= j < i ==> #[trigger] placed@[j],
                    decreases n - i,
                {
                    if !placed[i] {
                        let circle: Vec<usize> = find_circle(deps, &placed, i);
                        assert(is_circle(all, circle@));
                        return Err(circle);
                    }
                    i = i + 1;
                }
                proof {
                    assert forall|x: int, k: int| 0 <= x < all.len() && 0 <= k < all[x].len() implies ints(
                        layer@,
                    )[(#[trigger] all[x][k]) as int] < ints(layer@)[x] by {
                        assert(placed@[x]);
                    }
                    assert forall|x: int| 0 <= x < all.len() implies fallback@[x] <= #[trigger] ints(
                        layer@,
                    )[x] by {
                        assert(placed@[x]);
                        assert(fallback@[x] <= layer@[x]);
                    }
                    assert(is_assignment(all, fallback@, ints(layer@)));
                    assert forall|x: int| 0 <= x < layer@.len() implies at_least(
                        all,
                        fallback@,
                        x,
                        #[trigger] layer@[x] as int,
                    ) by {
                        assert(placed@[x]);
                    }
                    assert forall|circle: Seq<usize>| !is_circle(all, circle) by {
                        if is_circle(all, circle) {
                            circle_has_no_layers(all, fallback@, ints(layer@), circle);
                        }
                    }
                }
                return Ok(layer);
            },
        }
    }
}

proof fn lemma_unmarked_bound(marks: Seq<bool>, n: nat)
    ensures
        closure::unmarked(marks, n) <= n,
    decreases n,
{
    if n > 0 {
        lemma_unmarked_bound(marks, (n - 1) as nat);
    }
}

/// `group` lists the passes of layer `level`, in order.
pub open spec fn is_group(layer: Seq<usize>, group: Seq<usize>, level: usize) -> bool {
    &&& group.len() > 0
    &&& forall|k: int|
        0 <= k < group.len() ==> #[trigger] group[k] < layer.len() && layer[group[k] as int] == level
    &&& forall|k: int, m: int| 0 <= k < m < group.len() ==> #[trigger] group[k] < #[trigger] group[m]
    &&& forall|i: usize| i < layer.len() && #[trigger] layer[i as int] == level ==> group.contains(i)
}

/// One of the groups holds the passes of layer `level`.
pub open spec fn has_group(layer: Seq<usize>, groups: Seq<Seq<usize>>, level: usize) -> bool {
    exists|g: int| 0 <= g < groups.len() && layer[(#[trigger] groups[g])[0] as int] == level
}

/// `groups` lists the passes of every layer that has some, the lowest layer first.
pub open spec fn is_grouping(layer: Seq<usize>, groups: Seq<Seq<usize>>) -> bool {
    &&& forall|g: int|
        0 <= g < groups.len() ==> is_group(layer, #[trigger] groups[g], layer[groups[g][0] as int])
    &&& forall|g: int, h: int|
        0 <= g < h < groups.len() ==> layer[(#[trigger] groups[g])[0] as int] < layer[(
        #[trigger] groups[h])[0] as int]
    &&& forall|i: int| 0 <= i < layer.len() ==> has_group(layer, groups, #[trigger] layer[i])
}

/// Finds the lowest layer that is not below `floor`.
fn find_lowest(layer: &Vec<usize>, floor: usize) -> (r: Option<usize>)
    ensures
        match r {
            Some(level) => floor <= level && layer@.contains(level) && forall|i: int|
                0 <= i < layer@.len() && #[trigger] layer@[i] >= floor ==> level <= layer@[i],
            None => forall|i: int| 0 <= i < layer@.len() ==> #[trigger] layer@[i] < floor,
        },
{
    let mut r: Option<usize> = None;
    let mut i: usize = 0;
    while i < layer.len()
        invariant
            i <= layer@.len(),
            match r {
                Some(level) => floor <= level && layer@.contains(level) && forall|j: int|
                    0 <= j < i && #[trigger] layer@[j] >= floor ==> level <= layer@[j],
                None => forall|j: int| 0 <= j < i ==> #[trigger] layer@[j] < floor,
            },
        decreases layer@.len() - i,
    {
        if layer[i] >= floor {
            match r {
                Some(level) => {
                    if layer[i] < level {
                        r = Some(layer[i]);
                    }
                },
                None => {
                    r = Some(layer[i]);
                },
            }
            assert(layer@.contains(layer@[i as int]));
        }
        i = i + 1;
    }
    r
}

/// Lists the passes of layer `level`.
fn collect_group(layer: &Vec<usize>, level: usize) -> (r: Vec<usize>)
    requires
        layer@.contains(level),
    ensures
        is_group(layer@, r@, level),
{
    let mut r: Vec<usize> = Vec::new();
    let mut i: usize = 0;
    while i < layer.len()
        invariant
            i <= layer@.len(),
            forall|k: int|
                0 <= k < r@.len() ==> #[trigger] r@[k] < i && layer@[r@[k] as int] == level,
            forall|k: int, m: int| 0 <= k < m < r@.len() ==> #[trigger] r@[k] < #[trigger] r@[m],
            forall|j: usize| j < i && #[trigger] layer@[j as int] == level ==> r@.contains(j),
        decreases layer@.len() - i,
    {
        let ghost before = r@;
        if layer[i] == level {
            r.push(i);
            assert forall|j: usize| j < i + 1 && #[trigger] layer@[j as int] == level implies r@.contains(
                j,
            ) by {
                closure::lemma_contains_push(before, i, j);
            }
        }
        i = i + 1;
    }
    proof {
        let k = choose|k: int| 0 <= k < layer@.len() && layer@[k] == level;
        assert(layer@[(k as usize) as int] == level);
        assert(r@.contains(k as usize));
    }
    r
}

/// Lists the passes of every layer that has some, the lowest layer first.
pub fn group_layers(layer: &Vec<usize>) -> (r: Vec<Vec<usize>>)
    ensures
        is_grouping(layer@, lists(r@)),
{
    let mut r: Vec<Vec<usize>> = Vec::new();
    let mut floor: usize = 0;
    let mut rest: bool = true;
    while rest
        invariant
            forall|g: int|
                0 <= g < r@.len() ==> is_group(
                    layer@,
                    (#[trigger] r@[g])@,
                    layer@[r@[g]@[0] as int],
                ) && (rest ==> layer@[r@[g]@[0] as int] < floor),
            forall|g: int, h: int|
                0 <= g < h < r@.len() ==> layer@[(#[trigger] r@[g])@[0] as int] < layer@[(
                #[trigger] r@[h])@[0] as int],
            forall|i: int|
                0 <= i < layer@.len() && (rest ==> layer@[i] < floor) ==> has_group(
                    layer@,
                    lists(r@),
                    #[trigger] layer@[i],
                ),
        decreases (usize::MAX - floor) + if rest {
            1int
        } else {
            0int
        },
    {
        let ghost before = r@;
        match find_lowest(layer, floor) {
            None => {
                rest = false;
            },
            Some(level) => {
                let group: Vec<usize> = collect_group(layer, level);
                assert(layer@[group@[0] as int] == level);
                r.push(group);
                let ghost low = floor;
                if level == usize::MAX {
                    rest = false;
                } else {
                    floor = level + 1;
                }
                proof {
                    assert(r@[before.len() as int]@ == group@);
                    assert forall|i: int| 0 <= i < layer@.len() && (rest ==> layer@[i] < floor) implies has_group(
                        layer@,
                        lists(r@),
                        #[trigger] layer@[i],
                    ) by {
                        if layer@[i] < low {
                            assert(has_group(layer@, lists(before), layer@[i]));
                            let g = choose|g: int|
                                0 <= g < lists(before).len() && layer@[(
                                #[trigger] lists(before)[g])[0] as int] == layer@[i];
                            assert(lists(r@)[g] == lists(before)[g]);
                        } else {
                            assert(lists(r@)[before.len() as int] == group@);
                        }
                    }
                    assert forall|g: int, h: int| 0 <= g < h < r@.len() implies layer@[(
                    #[trigger] r@[g])@[0] as int] < layer@[(#[trigger] r@[h])@[0] as int] by {
                        assert(r@[g] == before[g]);
                        assert(layer@[before[g]@[0] as int] < low);
                    }
                }
            },
        }
    }
    proof {
        let groups = lists(r@);
        assert forall|g: int| 0 <= g < groups.len() implies is_group(
            layer@,
            #[trigger] groups[g],
            layer@[groups[g][0] as int],
        ) by {
            assert(groups[g] == r@[g]@);
        }
        assert forall|g: int, h: int| 0 <= g < h < groups.len() implies layer@[(
        #[trigger] groups[g])[0] as int] < layer@[(#[trigger] groups[h])[0] as int] by {
            assert(groups[g] == r@[g]@);
            assert(groups[h] == r@[h]@);
        }
    }
    r
}

/// Of two passes the one in the lower layer is in the earlier group.
pub proof fn lower_layers_run_first(
    layer: Seq<usize>,
    groups: Seq<Seq<usize>>,
    g: int,
    h: int,
    a: usize,
    b: usize,
)
    requires
        is_grouping(layer, groups),
        0 <= g < groups.len(),
        0 <= h < groups.len(),
        groups[g].contains(a),
        groups[h].contains(b),
        layer[a as int] < layer[b as int],
    ensures
        g < h,
{
    assert(is_group(layer, groups[g], layer[groups[g][0] as int]));
    assert(is_group(layer, groups[h], layer[groups[h][0] as int]));
    let k = choose|k: int| 0 <= k < groups[g].len() && groups[g][k] == a;
    let m = choose|m: int| 0 <= m < groups[h].len() && groups[h][m] == b;
    assert(layer[groups[g][k] as int] == layer[groups[g][0] as int]);
    assert(layer[groups[h][m] as int] == layer[groups[h][0] as int]);
    if h < g {
        assert(layer[groups[h][0] as int] < layer[groups[g][0] as int]);
    }
}

} // verus!
