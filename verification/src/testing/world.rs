//! A small program of methods that call each other.
use crate::scheduling::pass::SsaPassHost;
use crate::testing::mock::MockTarget;
use crate::world::{CallView, World};
use vstd::prelude::*;

verus! {

/// A program of methods known by numbers.
pub struct MockWorld {
    all: Vec<u32>,
    entries: Vec<usize>,
    callees: Vec<Vec<usize>>,
    dead: Vec<bool>,
}

/// The methods that `from` calls, by the first `n` of `edges`.
pub open spec fn called_from(edges: Seq<(u32, u32)>, from: u32, n: nat) -> Seq<u32>
    decreases n,
{
    if n == 0 {
        Seq::empty()
    } else if edges[n - 1].0 == from {
        called_from(edges, from, (n - 1) as nat).push(edges[n - 1].1)
    } else {
        called_from(edges, from, (n - 1) as nat)
    }
}

/// The methods at some positions.
pub open spec fn at_positions(all: Seq<u32>, places: Seq<usize>) -> Seq<u32> {
    places.map_values(|p: usize| all[p as int])
}

/// The positions in a list of `n`, in order.
pub open spec fn in_order(n: nat) -> Seq<usize> {
    Seq::new(n, |i: int| i as usize)
}

/// Finds the position of `x`.
fn find_position(all: &Vec<u32>, x: u32) -> (r: Option<usize>)
    ensures
        r is Some <==> all@.contains(x),
        r matches Some(p) ==> p < all@.len() && all@[p as int] == x,
{
    let mut p: usize = 0;
    while p < all.len()
        invariant
            p <= all@.len(),
            forall|j: int| 0 <= j < p ==> #[trigger] all@[j] != x,
        decreases all@.len() - p,
    {
        if all[p] == x {
            return Some(p);
        }
        p = p + 1;
    }
    None
}

impl MockWorld {
    /// The positions are those of methods, and every method has callees and a mark.
    #[verifier::type_invariant]
    spec fn consistent(&self) -> bool {
        &&& self.all@.no_duplicates()
        &&& self.callees@.len() == self.all@.len()
        &&& self.dead@.len() == self.all@.len()
        &&& self.all@.len() <= usize::MAX
        &&& forall|k: int|
            0 <= k < self.entries@.len() ==> #[trigger] self.entries@[k] < self.all@.len()
        &&& forall|i: int, k: int|
            0 <= i < self.callees@.len() && 0 <= k < self.callees@[i]@.len()
                ==> #[trigger] self.callees@[i]@[k] < self.all@.len()
    }

    /// The program.
    pub closed spec fn calls(&self) -> CallView<MockTarget> {
        CallView {
            methods: self.all@,
            entries: self.entries@,
            callees: self.callees@.map_values(|list: Vec<usize>| list@),
            dead: self.dead@,
            order: in_order(self.all@.len()),
        }
    }

    /// Creates the program of the methods `all`, entered at `entries`, in which each pair of
    /// `edges` is a call.
    #[must_use]
    pub fn new(all: Vec<u32>, entries: Vec<u32>, edges: Vec<(u32, u32)>) -> (r: Self)
        requires
            all@.no_duplicates(),
            forall|k: int| 0 <= k < entries@.len() ==> all@.contains(#[trigger] entries@[k]),
            forall|k: int| 0 <= k < edges@.len() ==> all@.contains((#[trigger] edges@[k]).1),
        ensures
            r.calls().methods == all@,
            r.calls().callees.len() == all@.len(),
            r.calls().dead.len() == all@.len(),
            r.calls().order == in_order(all@.len()),
            at_positions(all@, r.calls().entries) == entries@,
            forall|i: int|
                0 <= i < all@.len() ==> at_positions(all@, #[trigger] r.calls().callees[i])
                    == called_from(edges@, all@[i], edges@.len()),
            forall|i: int| 0 <= i < all@.len() ==> !#[trigger] r.calls().dead[i],
    {
        let mut entered: Vec<usize> = Vec::new();
        let mut k: usize = 0;
        while k < entries.len()
            invariant
                k <= entries@.len(),
                entered@.len() == k,
                forall|j: int| 0 <= j < entries@.len() ==> all@.contains(#[trigger] entries@[j]),
                forall|j: int|
                    0 <= j < k ==> #[trigger] entered@[j] < all@.len() && all@[entered@[j] as int]
                        == entries@[j],
            decreases entries@.len() - k,
        {
            if let Some(p) = find_position(&all, entries[k]) {
                entered.push(p);
            }
            k = k + 1;
        }
        let mut callees: Vec<Vec<usize>> = Vec::new();
        let mut dead: Vec<bool> = Vec::new();
        let mut i: usize = 0;
        while i < all.len()
            invariant
                i <= all@.len(),
                callees@.len() == i,
                dead@.len() == i,
                forall|k: int| 0 <= k < edges@.len() ==> all@.contains((#[trigger] edges@[k]).1),
                forall|j: int| 0 <= j < i ==> !#[trigger] dead@[j],
                forall|j: int|
                    0 <= j < i ==> at_positions(all@, #[trigger] callees@[j]@) == called_from(
                        edges@,
                        all@[j],
                        edges@.len(),
                    ),
                forall|j: int, m: int|
                    0 <= j < i && 0 <= m < callees@[j]@.len() ==> #[trigger] callees@[j]@[m]
                        < all@.len(),
            decreases all@.len() - i,
        {
            let mut list: Vec<usize> = Vec::new();
            let mut e: usize = 0;
            assert(at_positions(all@, list@) =~= called_from(edges@, all@[i as int], 0));
            while e < edges.len()
                invariant
                    e <= edges@.len(),
                    i < all@.len(),
                    forall|k: int|
                        0 <= k < edges@.len() ==> all@.contains((#[trigger] edges@[k]).1),
                    at_positions(all@, list@) == called_from(edges@, all@[i as int], e as nat),
                    forall|m: int| 0 <= m < list@.len() ==> #[trigger] list@[m] < all@.len(),
                decreases edges@.len() - e,
            {
                let ghost before = list@;
                let (from, to) = edges[e];
                assert(edges@[e as int].1 == to);
                if from == all[i] {
                    if let Some(p) = find_position(&all, to) {
                        list.push(p);
                        assert(at_positions(all@, list@) =~= at_positions(all@, before).push(to));
                    }
                }
                e = e + 1;
            }
            callees.push(list);
            dead.push(false);
            i = i + 1;
        }
        assert(at_positions(all@, entered@) =~= entries@);
        let n: usize = all.len();
        assert(n == all@.len());
        MockWorld { all, entries: entered, callees, dead }
    }

    /// Copies the methods at some positions.
    fn methods_at(&self, places: &Vec<usize>) -> (r: Vec<u32>)
        requires
            forall|k: int| 0 <= k < places@.len() ==> #[trigger] places@[k] < self.all@.len(),
        ensures
            r@ == at_positions(self.all@, places@),
    {
        let mut r: Vec<u32> = Vec::new();
        let mut k: usize = 0;
        while k < places.len()
            invariant
                k <= places@.len(),
                r@.len() == k,
                forall|j: int| 0 <= j < places@.len() ==> #[trigger] places@[j] < self.all@.len(),
                forall|j: int| 0 <= j < k ==> #[trigger] r@[j] == self.all@[places@[j] as int],
            decreases places@.len() - k,
        {
            r.push(self.all[places[k]]);
            k = k + 1;
        }
        assert(r@ =~= at_positions(self.all@, places@));
        r
    }

    /// Returns the methods.
    #[must_use]
    pub fn all_methods(&self) -> (r: &Vec<u32>)
        ensures
            r@ == self.calls().methods,
    {
        &self.all
    }

    /// Returns the methods at which the program can be entered.
    #[must_use]
    pub fn entry_methods(&self) -> (r: Vec<u32>)
        ensures
            r@ == at_positions(self.calls().methods, self.calls().entries),
    {
        proof {
            use_type_invariant(self);
        }
        self.methods_at(&self.entries)
    }

    /// Returns the methods that `method` can call; none where the program has no such method.
    #[must_use]
    pub fn callees_of(&self, method: &u32) -> (r: Vec<u32>)
        ensures
            forall|i: int|
                0 <= i < self.calls().methods.len() && #[trigger] self.calls().methods[i] == *method
                    ==> r@ == at_positions(self.calls().methods, self.calls().callees[i]),
            !self.calls().methods.contains(*method) ==> r@.len() == 0,
    {
        proof {
            use_type_invariant(self);
        }
        match find_position(&self.all, *method) {
            Some(p) => self.methods_at(&self.callees[p]),
            None => Vec::new(),
        }
    }

    /// Returns whether `method` is marked as dead.
    #[must_use]
    pub fn is_dead(&self, method: &u32) -> (r: bool)
        ensures
            r <==> exists|i: int|
                0 <= i < self.calls().methods.len() && #[trigger] self.calls().methods[i] == *method
                    && self.calls().dead[i],
    {
        proof {
            use_type_invariant(self);
        }
        match find_position(&self.all, *method) {
            Some(p) => {
                assert(self.calls().methods[p as int] == *method);
                self.dead[p]
            },
            None => false,
        }
    }

    /// Copies the marks, and sets the one at `index`.
    fn marks_with(&self, index: usize) -> (r: Vec<bool>)
        requires
            index < self.dead@.len(),
        ensures
            r@ == self.dead@.update(index as int, true),
    {
        let mut r: Vec<bool> = Vec::new();
        let mut i: usize = 0;
        while i < self.dead.len()
            invariant
                i <= self.dead@.len(),
                r@.len() == i,
                forall|j: int| 0 <= j < i ==> #[trigger] r@[j] == (self.dead@[j] || j == index),
            decreases self.dead@.len() - i,
        {
            r.push(self.dead[i] || i == index);
            i = i + 1;
        }
        assert(r@ =~= self.dead@.update(index as int, true));
        r
    }

    /// Marks `method` as dead where it is one of the program.
    pub fn mark_dead(&mut self, method: &u32)
        ensures
            final(self).calls() == (CallView {
                dead: final(self).calls().dead,
                ..old(self).calls()
            }),
            final(self).calls().dead.len() == old(self).calls().dead.len(),
            forall|i: int|
                0 <= i < old(self).calls().methods.len() ==> #[trigger] final(self).calls().dead[i]
                    == (old(self).calls().dead[i] || old(self).calls().methods[i] == *method),
    {
        proof {
            use_type_invariant(&*self);
        }
        if let Some(p) = find_position(&self.all, *method) {
            let dead: Vec<bool> = self.marks_with(p);
            self.dead = dead;
        }
    }

    /// Returns the methods that are marked as dead, in the order of the program.
    #[must_use]
    pub fn dead_set(&self) -> (r: Vec<u32>)
        ensures
            r@ == marked(self.calls().methods, self.calls().dead, self.calls().methods.len()),
    {
        proof {
            use_type_invariant(self);
        }
        let mut r: Vec<u32> = Vec::new();
        let mut i: usize = 0;
        while i < self.all.len()
            invariant
                self.dead@.len() == self.all@.len(),
                i <= self.all@.len(),
                r@ == marked(self.all@, self.dead@, i as nat),
            decreases self.all@.len() - i,
        {
            if self.dead[i] {
                r.push(self.all[i]);
            }
            i = i + 1;
        }
        r
    }
}

impl World<MockTarget> for MockWorld {
    open spec fn program(&self) -> CallView<MockTarget> {
        self.calls()
    }

    fn method_count(&self) -> (r: usize) {
        proof {
            use_type_invariant(self);
        }
        self.all.len()
    }

    fn method(&self, index: usize) -> (r: u32) {
        self.all[index]
    }

    fn entry_points(&self) -> (r: Vec<usize>) {
        copied(&self.entries)
    }

    fn callees(&self, index: usize) -> (r: Vec<usize>) {
        proof {
            use_type_invariant(self);
        }
        copied(&self.callees[index])
    }

    fn methods_reverse_topological(&self) -> (r: Vec<usize>) {
        let mut r: Vec<usize> = Vec::new();
        let mut i: usize = 0;
        while i < self.all.len()
            invariant
                i <= self.all@.len(),
                r@.len() == i,
                forall|j: int| 0 <= j < i ==> #[trigger] r@[j] == j,
            decreases self.all@.len() - i,
        {
            r.push(i);
            i = i + 1;
        }
        assert(r@ =~= in_order(self.all@.len()));
        r
    }

    fn is_dead_at(&self, index: usize) -> (r: bool) {
        proof {
            use_type_invariant(self);
        }
        self.dead[index]
    }

    fn mark_dead_at(&mut self, index: usize) {
        proof {
            use_type_invariant(&*self);
        }
        let dead: Vec<bool> = self.marks_with(index);
        self.dead = dead;
    }
}

impl SsaPassHost<MockTarget> for MockWorld {

}

/// Copies a list.
fn copied(list: &Vec<usize>) -> (r: Vec<usize>)
    ensures
        r@ == list@,
{
    let mut r: Vec<usize> = Vec::new();
    let mut i: usize = 0;
    while i < list.len()
        invariant
            i <= list@.len(),
            r@ == list@.take(i as int),
        decreases list@.len() - i,
    {
        r.push(list[i]);
        assert(list@.take(i + 1) =~= list@.take(i as int).push(list@[i as int]));
        i = i + 1;
    }
    assert(list@.take(i as int) =~= list@);
    r
}

/// The methods with a mark among the first `n`.
pub open spec fn marked(all: Seq<u32>, marks: Seq<bool>, n: nat) -> Seq<u32>
    decreases n,
{
    if n == 0 {
        Seq::empty()
    } else if marks[n - 1] {
        marked(all, marks, (n - 1) as nat).push(all[n - 1])
    } else {
        marked(all, marks, (n - 1) as nat)
    }
}

} // verus!
