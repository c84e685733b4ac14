//! A directed graph held as a flat arena: node payloads in a vector, with
//! successor and predecessor adjacency lists per index. Stable integer
//! indices serve as node identity; edges form mathematical sets (duplicates
//! collapse).

use vstd::prelude::*;

verus! {

/// Whether the index sequence `s` holds the value `x`.
pub open spec fn seq_has(s: Seq<usize>, x: int) -> bool {
    exists|k: int| 0 <= k < s.len() && s[k] == x
}

/// After pushing `x`, an index sequence holds `y` exactly when it held `y`
/// before or `y` is `x`.
proof fn lemma_push_has(s: Seq<usize>, x: usize)
    ensures
        forall|y: int| seq_has(s.push(x), y) <==> (seq_has(s, y) || y == x),
{
    assert forall|y: int| #[trigger] seq_has(s.push(x), y) implies (seq_has(s, y) || y == x) by {
        let k = choose|k: int| 0 <= k < s.push(x).len() && s.push(x)[k] == y;
        if k < s.len() {
            assert(s[k] == y);
        }
    }
    assert forall|y: int| (seq_has(s, y) || y == x) implies #[trigger] seq_has(s.push(x), y) by {
        if y == x {
            assert(s.push(x)[s.len() as int] == y);
        } else {
            let k = choose|k: int| 0 <= k < s.len() && s[k] == y;
            assert(s.push(x)[k] == y);
        }
    }
}

pub struct DirectedGraph<T> {
    pub nodes: Vec<T>,
    pub succ: Vec<Vec<usize>>,
    pub pred: Vec<Vec<usize>>,
}

impl<T> DirectedGraph<T> {
    /// Adjacency lists exist for exactly the nodes, stay in range, hold no
    /// duplicates, and the predecessor lists mirror the successor lists.
    pub open spec fn wf(&self) -> bool {
        &&& self.succ@.len() == self.nodes@.len()
        &&& self.pred@.len() == self.nodes@.len()
        &&& forall|i: int, k: int|
            0 <= i < self.succ@.len() && 0 <= k < self.succ@[i]@.len()
                ==> (#[trigger] self.succ@[i]@[k]) < self.nodes@.len()
        &&& forall|i: int, k: int|
            0 <= i < self.pred@.len() && 0 <= k < self.pred@[i]@.len()
                ==> (#[trigger] self.pred@[i]@[k]) < self.nodes@.len()
        &&& forall|i: int, k1: int, k2: int|
            0 <= i < self.succ@.len() && 0 <= k1 < self.succ@[i]@.len()
                && 0 <= k2 < self.succ@[i]@.len()
                && #[trigger] self.succ@[i]@[k1] == #[trigger] self.succ@[i]@[k2] ==> k1 == k2
        &&& forall|i: int, k1: int, k2: int|
            0 <= i < self.pred@.len() && 0 <= k1 < self.pred@[i]@.len()
                && 0 <= k2 < self.pred@[i]@.len()
                && #[trigger] self.pred@[i]@[k1] == #[trigger] self.pred@[i]@[k2] ==> k1 == k2
        &&& forall|a: int, b: int|
            #![trigger seq_has(self.succ@[a]@, b)]
            #![trigger seq_has(self.pred@[b]@, a)]
            0 <= a < self.nodes@.len() && 0 <= b < self.nodes@.len()
                ==> (seq_has(self.succ@[a]@, b) <==> seq_has(self.pred@[b]@, a))
    }

    /// There is an edge from `a` to `b`.
    pub open spec fn edge(&self, a: int, b: int) -> bool {
        &&& 0 <= a < self.nodes@.len()
        &&& 0 <= b < self.nodes@.len()
        &&& seq_has(self.succ@[a]@, b)
    }

    pub fn new() -> (g: Self)
        ensures
            g.wf(),
            g.nodes@.len() == 0,
    {
        Self { nodes: Vec::new(), succ: Vec::new(), pred: Vec::new() }
    }

    pub fn with_capacity(capacity: usize) -> (g: Self)
        ensures
            g.wf(),
            g.nodes@.len() == 0,
    {
        Self {
            nodes: Vec::with_capacity(capacity),
            succ: Vec::with_capacity(capacity),
            pred: Vec::with_capacity(capacity),
        }
    }

    pub fn len(&self) -> (n: usize)
        ensures
            n == self.nodes@.len(),
    {
        self.nodes.len()
    }

    /// Appends a node with empty edge sets and returns its index.
    pub fn add(&mut self, value: T) -> (index: usize)
        requires
            old(self).wf(),
        ensures
            final(self).wf(),
            index == old(self).nodes@.len(),
            final(self).nodes@ == old(self).nodes@.push(value),
            final(self).succ@.len() == old(self).succ@.len() + 1,
            final(self).pred@.len() == old(self).pred@.len() + 1,
            forall|i: int|
                0 <= i < old(self).succ@.len()
                    ==> (#[trigger] final(self).succ@[i]) == old(self).succ@[i],
            forall|i: int|
                0 <= i < old(self).pred@.len()
                    ==> (#[trigger] final(self).pred@[i]) == old(self).pred@[i],
            final(self).succ@[old(self).succ@.len() as int]@.len() == 0,
            final(self).pred@[old(self).pred@.len() as int]@.len() == 0,
            forall|a: int, b: int| final(self).edge(a, b) <==> old(self).edge(a, b),
    {
        self.nodes.push(value);
        self.succ.push(Vec::new());
        self.pred.push(Vec::new());
        proof {
            let pre = *old(self);
            let fin = *self;
            let n = pre.nodes@.len() as int;
            assert forall|a: int, b: int| fin.edge(a, b) implies pre.edge(a, b) by {
                if a < n {
                    assert(fin.succ@[a] == pre.succ@[a]);
                    if seq_has(fin.succ@[a]@, b) {
                        let k = choose|k: int|
                            0 <= k < pre.succ@[a]@.len() && pre.succ@[a]@[k] == b;
                        assert(pre.succ@[a]@[k] < n);
                    }
                } else if a == n {
                    assert(fin.succ@[a]@.len() == 0);
                }
            }
            assert forall|a: int, b: int| pre.edge(a, b) implies fin.edge(a, b) by {
                assert(fin.succ@[a] == pre.succ@[a]);
            }
            assert forall|a: int, b: int|
                0 <= a < fin.nodes@.len() && 0 <= b < fin.nodes@.len() implies (seq_has(
                fin.succ@[a]@,
                b,
            ) <==> seq_has(fin.pred@[b]@, a)) by {
                if a == n {
                    assert(fin.succ@[a]@.len() == 0);
                    if b < n {
                        assert(fin.pred@[b] == pre.pred@[b]);
                        if seq_has(fin.pred@[b]@, a) {
                            let k = choose|k: int|
                                0 <= k < pre.pred@[b]@.len() && pre.pred@[b]@[k] == a;
                            assert(pre.pred@[b]@[k] < n);
                        }
                    } else {
                        assert(fin.pred@[b]@.len() == 0);
                    }
                } else if b == n {
                    assert(fin.pred@[b]@.len() == 0);
                    assert(fin.succ@[a] == pre.succ@[a]);
                    if seq_has(fin.succ@[a]@, b) {
                        let k = choose|k: int|
                            0 <= k < pre.succ@[a]@.len() && pre.succ@[a]@[k] == b;
                        assert(pre.succ@[a]@[k] < n);
                    }
                } else {
                    assert(fin.succ@[a] == pre.succ@[a]);
                    assert(fin.pred@[b] == pre.pred@[b]);
                    assert(seq_has(pre.succ@[a]@, b) <==> seq_has(pre.pred@[b]@, a));
                }
            }
        }
        self.nodes.len() - 1
    }

    /// Inserts the edge `from -> to`; inserting an edge twice leaves the
    /// graph unchanged.
    pub fn add_edge(&mut self, from: usize, to: usize)
        requires
            old(self).wf(),
            from < old(self).nodes@.len(),
            to < old(self).nodes@.len(),
        ensures
            final(self).wf(),
            final(self).nodes@ == old(self).nodes@,
            forall|a: int, b: int|
                final(self).edge(a, b) <==> (old(self).edge(a, b) || (a == from && b == to)),
    {
        if !contains_index(&self.succ[from], to) {
            let succ_row: &mut Vec<usize> = &mut self.succ[from];
            succ_row.push(to);
            let pred_row: &mut Vec<usize> = &mut self.pred[to];
            pred_row.push(from);
            proof {
                let pre = *old(self);
                let fin = *self;
                assert(fin.succ@[from as int]@ == pre.succ@[from as int]@.push(to));
                assert(fin.pred@[to as int]@ == pre.pred@[to as int]@.push(from));
                assert forall|i: int|
                    0 <= i < fin.succ@.len() && i != from implies (#[trigger] fin.succ@[i])
                    == pre.succ@[i] by {}
                assert forall|i: int|
                    0 <= i < fin.pred@.len() && i != to implies (#[trigger] fin.pred@[i])
                    == pre.pred@[i] by {}
                lemma_add_edge_wf(pre, fin, from, to);
            }
        } else {
            proof {
                assert(old(self).edge(from as int, to as int));
            }
        }
    }

    /// The successor indices of `index`, each exactly once, in list order.
    pub fn succ_indexes(&self, index: usize) -> (r: &Vec<usize>)
        requires
            index < self.nodes@.len(),
            self.wf(),
        ensures
            r@ == self.succ@[index as int]@,
    {
        &self.succ[index]
    }

    /// The predecessor indices of `index`, each exactly once, in list order.
    pub fn pred_indexes(&self, index: usize) -> (r: &Vec<usize>)
        requires
            index < self.nodes@.len(),
            self.wf(),
        ensures
            r@ == self.pred@[index as int]@,
    {
        &self.pred[index]
    }

    /// The payloads of the successors of `index`.
    pub fn succ(&self, index: usize) -> (r: Vec<&T>)
        requires
            index < self.nodes@.len(),
            self.wf(),
        ensures
            r@.len() == self.succ@[index as int]@.len(),
            forall|k: int|
                0 <= k < r@.len()
                    ==> *(#[trigger] r@[k]) == self.nodes@[self.succ@[index as int]@[k] as int],
    {
        let row = &self.succ[index];
        let mut r: Vec<&T> = Vec::new();
        let mut k: usize = 0;
        while k < row.len()
            invariant
                self.wf(),
                index < self.nodes@.len(),
                row@ == self.succ@[index as int]@,
                k <= row@.len(),
                r@.len() == k,
                forall|j: int|
                    0 <= j < k
                        ==> *(#[trigger] r@[j]) == self.nodes@[self.succ@[index as int]@[j] as int],
            decreases row@.len() - k,
        {
            r.push(&self.nodes[row[k]]);
            k += 1;
        }
        r
    }

    /// The payloads of the predecessors of `index`.
    pub fn pred(&self, index: usize) -> (r: Vec<&T>)
        requires
            index < self.nodes@.len(),
            self.wf(),
        ensures
            r@.len() == self.pred@[index as int]@.len(),
            forall|k: int|
                0 <= k < r@.len()
                    ==> *(#[trigger] r@[k]) == self.nodes@[self.pred@[index as int]@[k] as int],
    {
        let row = &self.pred[index];
        let mut r: Vec<&T> = Vec::new();
        let mut k: usize = 0;
        while k < row.len()
            invariant
                self.wf(),
                index < self.nodes@.len(),
                row@ == self.pred@[index as int]@,
                k <= row@.len(),
                r@.len() == k,
                forall|j: int|
                    0 <= j < k
                        ==> *(#[trigger] r@[j]) == self.nodes@[self.pred@[index as int]@[j] as int],
            decreases row@.len() - k,
        {
            r.push(&self.nodes[row[k]]);
            k += 1;
        }
        r
    }

    /// All successor lists, indexed by source node.
    pub fn edges(&self) -> (r: &Vec<Vec<usize>>)
        ensures
            r@ == self.succ@,
    {
        &self.succ
    }

    pub fn get(&self, index: usize) -> (r: Option<&T>)
        ensures
            index < self.nodes@.len() ==> r == Some(&self.nodes@[index as int]),
            index >= self.nodes@.len() ==> r is None,
    {
        if index < self.nodes.len() {
            Some(&self.nodes[index])
        } else {
            None
        }
    }

    /// The node payloads in index order.
    pub fn iter(&self) -> (r: &Vec<T>)
        ensures
            r@ == self.nodes@,
    {
        &self.nodes
    }

    /// Consumes the graph, handing back the payloads in index order.
    pub fn into_iter(self) -> (r: Vec<T>)
        ensures
            r@ == self.nodes@,
    {
        self.nodes
    }
}

/// Whether `v` holds `x`.
pub fn contains_index(v: &Vec<usize>, x: usize) -> (b: bool)
    ensures
        b == seq_has(v@, x as int),
{
    let mut k: usize = 0;
    while k < v.len()
        invariant
            k <= v@.len(),
            forall|j: int| 0 <= j < k ==> v@[j] != x,
        decreases v@.len() - k,
    {
        if v[k] == x {
            proof {
                assert(v@[k as int] == x);
            }
            return true;
        }
        k += 1;
    }
    false
}

proof fn lemma_add_edge_wf<T>(pre: DirectedGraph<T>, fin: DirectedGraph<T>, from: usize, to: usize)
    requires
        pre.wf(),
        from < pre.nodes@.len(),
        to < pre.nodes@.len(),
        !seq_has(pre.succ@[from as int]@, to as int),
        fin.nodes@ == pre.nodes@,
        fin.succ@.len() == pre.succ@.len(),
        fin.pred@.len() == pre.pred@.len(),
        forall|i: int|
            0 <= i < fin.succ@.len() && i != from ==> (#[trigger] fin.succ@[i]) == pre.succ@[i],
        forall|i: int|
            0 <= i < fin.pred@.len() && i != to ==> (#[trigger] fin.pred@[i]) == pre.pred@[i],
        fin.succ@[from as int]@ == pre.succ@[from as int]@.push(to),
        fin.pred@[to as int]@ == pre.pred@[to as int]@.push(from),
    ensures
        fin.wf(),
        forall|a: int, b: int| fin.edge(a, b) <==> (pre.edge(a, b) || (a == from && b == to)),
{
    let n = pre.nodes@.len() as int;
    assert(!seq_has(pre.pred@[to as int]@, from as int));
    lemma_push_has(pre.succ@[from as int]@, to);
    lemma_push_has(pre.pred@[to as int]@, from);

    // Range and no-duplicate clauses, row by row.
    assert forall|i: int, k: int|
        0 <= i < fin.succ@.len() && 0 <= k < fin.succ@[i]@.len() implies (#[trigger] fin.succ@[i]@[k])
        < fin.nodes@.len() by {
        if i == from && k == fin.succ@[i]@.len() - 1 {
        } else {
            assert(fin.succ@[i]@[k] == pre.succ@[i]@[k]);
        }
    }
    assert forall|i: int, k: int|
        0 <= i < fin.pred@.len() && 0 <= k < fin.pred@[i]@.len() implies (#[trigger] fin.pred@[i]@[k])
        < fin.nodes@.len() by {
        if i == to && k == fin.pred@[i]@.len() - 1 {
        } else {
            assert(fin.pred@[i]@[k] == pre.pred@[i]@[k]);
        }
    }
    assert forall|i: int, k1: int, k2: int|
        0 <= i < fin.succ@.len() && 0 <= k1 < fin.succ@[i]@.len() && 0 <= k2 < fin.succ@[i]@.len()
            && #[trigger] fin.succ@[i]@[k1] == #[trigger] fin.succ@[i]@[k2] implies k1 == k2 by {
        if i == from {
            let last = fin.succ@[i]@.len() - 1;
            if k1 == last && k2 < last {
                assert(pre.succ@[i]@[k2] == to);
                assert(seq_has(pre.succ@[i]@, to as int));
            } else if k2 == last && k1 < last {
                assert(pre.succ@[i]@[k1] == to);
                assert(seq_has(pre.succ@[i]@, to as int));
            }
        }
    }
    assert forall|i: int, k1: int, k2: int|
        0 <= i < fin.pred@.len() && 0 <= k1 < fin.pred@[i]@.len() && 0 <= k2 < fin.pred@[i]@.len()
            && #[trigger] fin.pred@[i]@[k1] == #[trigger] fin.pred@[i]@[k2] implies k1 == k2 by {
        if i == to {
            let last = fin.pred@[i]@.len() - 1;
            if k1 == last && k2 < last {
                assert(pre.pred@[i]@[k2] == from);
                assert(seq_has(pre.pred@[i]@, from as int));
            } else if k2 == last && k1 < last {
                assert(pre.pred@[i]@[k1] == from);
                assert(seq_has(pre.pred@[i]@, from as int));
            }
        }
    }

    // The mirror clause.
    assert forall|a: int, b: int|
        0 <= a < fin.nodes@.len() && 0 <= b < fin.nodes@.len() implies (seq_has(fin.succ@[a]@, b)
        <==> seq_has(fin.pred@[b]@, a)) by {
        if a == from && b == to {
            assert(seq_has(fin.succ@[a]@, b));
            assert(seq_has(fin.pred@[b]@, a));
        } else {
            assert(seq_has(pre.succ@[a]@, b) <==> seq_has(pre.pred@[b]@, a));
            if a == from {
                assert(seq_has(fin.succ@[a]@, b) <==> (seq_has(pre.succ@[a]@, b) || b == to));
            } else {
                assert(fin.succ@[a] == pre.succ@[a]);
            }
            if b == to {
                assert(seq_has(fin.pred@[b]@, a) <==> (seq_has(pre.pred@[b]@, a) || a == from));
            } else {
                assert(fin.pred@[b] == pre.pred@[b]);
            }
        }
    }

    // Edge characterization.
    assert forall|a: int, b: int|
        fin.edge(a, b) <==> (pre.edge(a, b) || (a == from && b == to)) by {
        if 0 <= a < n && 0 <= b < n {
            if a == from {
                assert(seq_has(fin.succ@[a]@, b) <==> (seq_has(pre.succ@[a]@, b) || b == to));
            } else {
                assert(fin.succ@[a] == pre.succ@[a]);
            }
        }
    }
}

} // verus!
