//! An optimizing back-end for a small three-address IR: it builds a
//! control-flow graph over the statement list, solves reaching definitions
//! by fixed-point iteration, and rewrites expressions by constant and copy
//! propagation.

pub mod graph;
pub mod ir;
pub mod vm;

use vstd::prelude::*;

use crate::graph::DirectedGraph;
use crate::graph::seq_has;
use crate::ir::Expr;
use crate::ir::Label;
use crate::ir::Stmt;
use crate::ir::expr_is_const;
use crate::ir::eval_expr;

verus! {

/// Statement `j` of `code` declares label `l`.
pub open spec fn declares(code: Seq<Stmt>, j: int, l: Label) -> bool {
    0 <= j < code.len() && code[j] == Stmt::Label(l)
}

/// A statement list is well formed when every label is declared at most
/// once and every jump names a declared label.
pub open spec fn wf_program(code: Seq<Stmt>) -> bool {
    &&& forall|j1: int, j2: int, l: Label|
        #[trigger] declares(code, j1, l) && #[trigger] declares(code, j2, l) ==> j1 == j2
    &&& forall|i: int|
        0 <= i < code.len() && (#[trigger] code[i]) is Jump ==> exists|j: int|
            declares(code, j, code[i]->Jump_0)
    &&& forall|i: int|
        0 <= i < code.len() && (#[trigger] code[i]) is JumpIfZero ==> exists|j: int|
            declares(code, j, code[i]->JumpIfZero_1)
}

/// The index of the statement declaring label `l`.
pub open spec fn label_index(code: Seq<Stmt>, l: Label) -> int {
    choose|j: int| declares(code, j, l)
}

/// A jump edge of the CFG: from a `Jump` or `JumpIfZero` to the index
/// declaring its target label.
pub open spec fn jump_edge(code: Seq<Stmt>, a: int, b: int) -> bool {
    &&& 0 <= a < code.len()
    &&& 0 <= b < code.len()
    &&& {
        ||| (code[a] is Jump && b == label_index(code, code[a]->Jump_0))
        ||| (code[a] is JumpIfZero && b == label_index(code, code[a]->JumpIfZero_1))
    }
}

/// A fall-through edge of the CFG: into the next statement, except out of
/// an unconditional `Jump`.
pub open spec fn fall_edge(code: Seq<Stmt>, a: int, b: int) -> bool {
    &&& 0 <= a < code.len()
    &&& 0 <= b < code.len()
    &&& b == a + 1
    &&& !(code[a] is Jump)
}

/// The edges the CFG builder produces.
pub open spec fn cfg_edge(code: Seq<Stmt>, a: int, b: int) -> bool {
    jump_edge(code, a, b) || fall_edge(code, a, b)
}

/// Finds the index declaring label `l`.
pub(crate) fn find_label(nodes: &Vec<Stmt>, l: Label) -> (r: usize)
    requires
        exists|j: int| declares(nodes@, j, l),
        forall|j1: int, j2: int, l2: Label|
            #[trigger] declares(nodes@, j1, l2) && #[trigger] declares(nodes@, j2, l2) ==> j1 == j2,
    ensures
        r < nodes@.len(),
        nodes@[r as int] == Stmt::Label(l),
        r == label_index(nodes@, l),
{
    let n = nodes.len();
    let mut j: usize = 0;
    while j < n
        invariant
            n == nodes@.len(),
            j <= n,
            exists|k: int| declares(nodes@, k, l),
            forall|j1: int, j2: int, l2: Label|
                #[trigger] declares(nodes@, j1, l2) && #[trigger] declares(nodes@, j2, l2) ==> j1
                    == j2,
            forall|k: int| 0 <= k < j ==> nodes@[k] != Stmt::Label(l),
        decreases n - j,
    {
        let hit = match &nodes[j] {
            Stmt::Label(l2) => l2.0 == l.0,
            _ => false,
        };
        if hit {
            proof {
                assert(nodes@[j as int] is Label && nodes@[j as int]->Label_0 == l);
                assert(declares(nodes@, j as int, l));
                let c = label_index(nodes@, l);
                assert(declares(nodes@, c, l));
                assert(c == j as int);
            }
            return j;
        }
        j += 1;
    }
    proof {
        let k = choose|k: int| declares(nodes@, k, l);
        assert(nodes@[k] != Stmt::Label(l));
    }
    unreached()
}

/// Converts a statement list into its control-flow graph: every statement
/// becomes a node, and the edges are exactly the jump and fall-through
/// edges of `cfg_edge`.
pub fn code_to_graph(code: Vec<Stmt>) -> (g: DirectedGraph<Stmt>)
    requires
        wf_program(code@),
    ensures
        g.wf(),
        g.nodes@ == code@,
        forall|a: int, b: int| g.edge(a, b) <==> cfg_edge(code@, a, b),
{
    let ghost orig = code@;
    let n = code.len();
    let mut g: DirectedGraph<Stmt> = DirectedGraph::with_capacity(n);

    let mut rest = code;
    let mut k: usize = 0;
    while k < n
        invariant
            n == orig.len(),
            k <= n,
            rest@ == orig.subrange(k as int, n as int),
            g.wf(),
            g.nodes@ == orig.subrange(0, k as int),
            forall|a: int, b: int| !g.edge(a, b),
        decreases n - k,
    {
        let s = rest.remove(0);
        proof {
            assert(s == orig[k as int]);
        }
        g.add(s);
        proof {
            assert(g.nodes@ =~= orig.subrange(0, k as int + 1));
            assert(rest@ =~= orig.subrange(k as int + 1, n as int));
        }
        k += 1;
    }
    proof {
        assert(g.nodes@ =~= orig);
    }

    let mut i: usize = 0;
    while i < n
        invariant
            n == orig.len(),
            i <= n,
            g.wf(),
            g.nodes@ == orig,
            wf_program(orig),
            forall|a: int, b: int|
                g.edge(a, b) <==> ((jump_edge(orig, a, b) && a < i) || (fall_edge(orig, a, b) && b
                    < i)),
        decreases n - i,
    {
        let target: Option<Label> = match &g.nodes[i] {
            Stmt::Jump(l) => Some(*l),
            Stmt::JumpIfZero(_, l) => Some(*l),
            _ => None,
        };
        if let Some(l) = target {
            proof {
                assert(orig[i as int] is Jump ==> orig[i as int]->Jump_0 == l);
                assert(orig[i as int] is JumpIfZero ==> orig[i as int]->JumpIfZero_1 == l);
            }
            let dest = find_label(&g.nodes, l);
            let ghost before = g;
            g.add_edge(i, dest);
            proof {
                assert(jump_edge(orig, i as int, dest as int));
                assert forall|a: int, b: int|
                    g.edge(a, b) <==> ((jump_edge(orig, a, b) && a < i + 1) || (fall_edge(
                        orig,
                        a,
                        b,
                    ) && b < i)) by {
                    if a == i && b == dest {
                    } else if a == i && jump_edge(orig, a, b) {
                        // The only jump edge out of `i` goes to `dest`.
                        assert(b == dest);
                    }
                }
            }
        } else {
            proof {
                assert(!(orig[i as int] is Jump) && !(orig[i as int] is JumpIfZero));
                assert forall|a: int, b: int|
                    g.edge(a, b) <==> ((jump_edge(orig, a, b) && a < i + 1) || (fall_edge(
                        orig,
                        a,
                        b,
                    ) && b < i)) by {
                    if a == i {
                        assert(!jump_edge(orig, a, b));
                    }
                }
            }
        }
        if i > 0 {
            let prev_is_jump = match &g.nodes[i - 1] {
                Stmt::Jump(_) => true,
                _ => false,
            };
            if !prev_is_jump {
                g.add_edge(i - 1, i);
                proof {
                    assert(fall_edge(orig, i as int - 1, i as int));
                    assert forall|a: int, b: int|
                        g.edge(a, b) <==> ((jump_edge(orig, a, b) && a < i + 1) || (fall_edge(
                            orig,
                            a,
                            b,
                        ) && b < i + 1)) by {
                        if fall_edge(orig, a, b) && b == i {
                            assert(a == i - 1);
                        }
                    }
                }
            } else {
                proof {
                    assert forall|a: int, b: int|
                        g.edge(a, b) <==> ((jump_edge(orig, a, b) && a < i + 1) || (fall_edge(
                            orig,
                            a,
                            b,
                        ) && b < i + 1)) by {
                        if fall_edge(orig, a, b) && b == i {
                            assert(a == i - 1);
                            assert(orig[a] is Jump);
                            assert(false);
                        }
                    }
                }
            }
        } else {
            proof {
                assert forall|a: int, b: int|
                    g.edge(a, b) <==> ((jump_edge(orig, a, b) && a < i + 1) || (fall_edge(
                        orig,
                        a,
                        b,
                    ) && b < i + 1)) by {
                    if fall_edge(orig, a, b) && b == i {
                        assert(a == -1);
                        assert(false);
                    }
                }
            }
        }
        i += 1;
    }
    proof {
        assert forall|a: int, b: int| g.edge(a, b) <==> cfg_edge(orig, a, b) by {}
    }
    g
}

// ---------------------------------------------------------------------------
// Reaching definitions.
// ---------------------------------------------------------------------------

/// Statement `d` is a definition (a `Store`) of `slot`.
pub open spec fn is_def(code: Seq<Stmt>, slot: isize, d: int) -> bool {
    0 <= d < code.len() && code[d] is Store && code[d]->Store_0 == slot
}

/// The sequence-of-rows view of a bit matrix.
pub open spec fn grid(rows: Vec<Vec<bool>>) -> Seq<Seq<bool>> {
    Seq::new(rows@.len() as nat, |i: int| rows@[i]@)
}

/// A square bit matrix over the statement indices.
pub open spec fn grid_wf(code: Seq<Stmt>, g: Seq<Seq<bool>>) -> bool {
    &&& g.len() == code.len()
    &&& forall|i: int| 0 <= i < g.len() ==> (#[trigger] g[i]).len() == code.len()
}

pub open spec fn all_false(g: Seq<Seq<bool>>) -> bool {
    forall|i: int, d: int| 0 <= i < g.len() && 0 <= d < g[i].len() ==> !(#[trigger] g[i][d])
}

/// Pointwise inclusion of bit matrices.
pub open spec fn grid_le(a: Seq<Seq<bool>>, b: Seq<Seq<bool>>) -> bool {
    forall|i: int, d: int|
        0 <= i < a.len() && 0 <= d < a[i].len() && (#[trigger] a[i][d]) ==> b[i][d]
}

/// The transfer function's `gen` bit: node `i` newly defines `d` when it is
/// the store at `d` itself.
pub open spec fn gen_bit(code: Seq<Stmt>, i: int, d: int) -> bool {
    d == i && code[i] is Store
}

/// The transfer function's `kill` bit: node `i` overwrites definition `d`
/// when both store the same slot and they differ.
pub open spec fn kill_bit(code: Seq<Stmt>, i: int, d: int) -> bool {
    code[i] is Store && is_def(code, code[i]->Store_0, d) && d != i
}

/// The meet equation at node `i`: `IN[i]` is the union of the
/// predecessors' `OUT` sets.
pub open spec fn in_eq(code: Seq<Stmt>, ind: Seq<Seq<bool>>, outd: Seq<Seq<bool>>, i: int) -> bool {
    forall|d: int|
        0 <= d < code.len() ==> ((#[trigger] ind[i][d]) <==> exists|p: int|
            #[trigger] cfg_edge(code, p, i) && outd[p][d])
}

/// The transfer equation at node `i`: `OUT[i] = gen[i] ∪ (IN[i] \ kill[i])`.
pub open spec fn out_eq(code: Seq<Stmt>, ind: Seq<Seq<bool>>, outd: Seq<Seq<bool>>, i: int) -> bool {
    forall|d: int|
        0 <= d < code.len() ==> ((#[trigger] outd[i][d]) <==> (gen_bit(code, i, d) || (ind[i][d]
            && !kill_bit(code, i, d))))
}

/// `IN`/`OUT` form a fixed point of the dataflow equations.
pub open spec fn is_solution(code: Seq<Stmt>, ind: Seq<Seq<bool>>, outd: Seq<Seq<bool>>) -> bool {
    &&& grid_wf(code, ind)
    &&& grid_wf(code, outd)
    &&& forall|i: int| 0 <= i < code.len() ==> #[trigger] in_eq(code, ind, outd, i)
    &&& forall|i: int| 0 <= i < code.len() ==> #[trigger] out_eq(code, ind, outd, i)
}

/// The least fixed point: a solution below every other solution.
pub open spec fn is_least_solution(
    code: Seq<Stmt>,
    ind: Seq<Seq<bool>>,
    outd: Seq<Seq<bool>>,
) -> bool {
    &&& is_solution(code, ind, outd)
    &&& forall|ind2: Seq<Seq<bool>>, outd2: Seq<Seq<bool>>|
        #[trigger] is_solution(code, ind2, outd2) ==> grid_le(ind, ind2) && grid_le(outd, outd2)
}

/// Two least solutions coincide.
pub proof fn lemma_least_solution_unique(
    code: Seq<Stmt>,
    ind1: Seq<Seq<bool>>,
    outd1: Seq<Seq<bool>>,
    ind2: Seq<Seq<bool>>,
    outd2: Seq<Seq<bool>>,
)
    requires
        is_least_solution(code, ind1, outd1),
        is_least_solution(code, ind2, outd2),
    ensures
        ind1 == ind2,
        outd1 == outd2,
{
    assert forall|i: int| 0 <= i < ind1.len() implies #[trigger] ind1[i] =~= ind2[i] by {
        assert(is_solution(code, ind2, outd2));
        assert(is_solution(code, ind1, outd1));
        assert forall|d: int| 0 <= d < ind1[i].len() implies ind1[i][d] == ind2[i][d] by {
            if ind1[i][d] {
                assert(grid_le(ind1, ind2));
            }
            if ind2[i][d] {
                assert(grid_le(ind2, ind1));
            }
        }
    }
    assert forall|i: int| 0 <= i < outd1.len() implies #[trigger] outd1[i] =~= outd2[i] by {
        assert(is_solution(code, ind2, outd2));
        assert(is_solution(code, ind1, outd1));
        assert forall|d: int| 0 <= d < outd1[i].len() implies outd1[i][d] == outd2[i][d] by {
            if outd1[i][d] {
                assert(grid_le(outd1, outd2));
            }
            if outd2[i][d] {
                assert(grid_le(outd2, outd1));
            }
        }
    }
    assert(ind1 =~= ind2);
    assert(outd1 =~= outd2);
}

/// In any solution, what flows out of `p` flows into its successor `q`:
/// along every CFG edge, `OUT[p] ⊆ IN[q]`.
pub proof fn lemma_out_flows_into_succ(
    code: Seq<Stmt>,
    ind: Seq<Seq<bool>>,
    outd: Seq<Seq<bool>>,
    p: int,
    q: int,
    d: int,
)
    requires
        is_solution(code, ind, outd),
        cfg_edge(code, p, q),
        0 <= d < code.len(),
        outd[p][d],
    ensures
        ind[q][d],
{
    assert(in_eq(code, ind, outd, q));
}

/// In any solution, `IN[i]` is exactly the union of the predecessors'
/// `OUT` sets: a definition reaches `i` precisely when it leaves some
/// CFG predecessor of `i`.
pub proof fn lemma_in_is_pred_union(
    code: Seq<Stmt>,
    ind: Seq<Seq<bool>>,
    outd: Seq<Seq<bool>>,
    i: int,
    d: int,
)
    requires
        is_solution(code, ind, outd),
        0 <= i < code.len(),
        0 <= d < code.len(),
    ensures
        ind[i][d] <==> exists|p: int| #[trigger] cfg_edge(code, p, i) && outd[p][d],
{
    assert(in_eq(code, ind, outd, i));
}

/// In any solution, a store reaches its own exit, and no other store of the
/// same slot does.
pub proof fn lemma_store_out(code: Seq<Stmt>, ind: Seq<Seq<bool>>, outd: Seq<Seq<bool>>, d: int)
    requires
        is_solution(code, ind, outd),
        0 <= d < code.len(),
        code[d] is Store,
    ensures
        outd[d][d],
        forall|d2: int|
            0 <= d2 < code.len() && d2 != d && #[trigger] is_def(code, code[d]->Store_0, d2)
                ==> !outd[d][d2],
{
    assert(out_eq(code, ind, outd, d));
    assert(gen_bit(code, d, d));
    assert forall|d2: int|
        0 <= d2 < code.len() && d2 != d && #[trigger] is_def(code, code[d]->Store_0, d2) implies !outd[d][d2] by {
        assert(kill_bit(code, d, d2));
        assert(!gen_bit(code, d, d2));
    }
}

// ---------------------------------------------------------------------------
// Counting lemmas for the termination bound.
// ---------------------------------------------------------------------------

/// The number of set bits in a row.
pub open spec fn count_row(s: Seq<bool>) -> int
    decreases s.len(),
{
    if s.len() == 0 {
        0
    } else {
        count_row(s.drop_last()) + if s.last() {
            1int
        } else {
            0int
        }
    }
}

/// The number of set bits in a matrix.
pub open spec fn count_grid(g: Seq<Seq<bool>>) -> int
    decreases g.len(),
{
    if g.len() == 0 {
        0
    } else {
        count_grid(g.drop_last()) + count_row(g.last())
    }
}

proof fn lemma_count_row_bounds(s: Seq<bool>)
    ensures
        0 <= count_row(s) <= s.len(),
    decreases s.len(),
{
    if s.len() > 0 {
        lemma_count_row_bounds(s.drop_last());
    }
}

proof fn lemma_count_row_le(a: Seq<bool>, b: Seq<bool>)
    requires
        a.len() == b.len(),
        forall|d: int| 0 <= d < a.len() && (#[trigger] a[d]) ==> b[d],
    ensures
        count_row(a) <= count_row(b),
    decreases a.len(),
{
    if a.len() > 0 {
        assert forall|d: int|
            0 <= d < a.drop_last().len() && (#[trigger] a.drop_last()[d]) implies b.drop_last()[d] by {
            assert(a[d]);
        }
        lemma_count_row_le(a.drop_last(), b.drop_last());
        if a.last() {
            assert(b.last());
        }
    }
}

proof fn lemma_count_row_lt(a: Seq<bool>, b: Seq<bool>, w: int)
    requires
        a.len() == b.len(),
        forall|d: int| 0 <= d < a.len() && (#[trigger] a[d]) ==> b[d],
        0 <= w < a.len(),
        !a[w],
        b[w],
    ensures
        count_row(a) < count_row(b),
    decreases a.len(),
{
    assert forall|d: int|
        0 <= d < a.drop_last().len() && (#[trigger] a.drop_last()[d]) implies b.drop_last()[d] by {
        assert(a[d]);
    }
    if w == a.len() - 1 {
        lemma_count_row_le(a.drop_last(), b.drop_last());
    } else {
        lemma_count_row_lt(a.drop_last(), b.drop_last(), w);
        if a.last() {
            assert(b.last());
        }
    }
}

proof fn lemma_count_grid_bounds(g: Seq<Seq<bool>>, m: int)
    requires
        forall|i: int| 0 <= i < g.len() ==> (#[trigger] g[i]).len() <= m,
        0 <= m,
    ensures
        0 <= count_grid(g) <= g.len() * m,
    decreases g.len(),
{
    if g.len() > 0 {
        lemma_count_grid_bounds(g.drop_last(), m);
        lemma_count_row_bounds(g.last());
        assert((g.len() - 1) * m + m == g.len() * m) by (nonlinear_arith);
    }
}

proof fn lemma_count_grid_le(a: Seq<Seq<bool>>, b: Seq<Seq<bool>>)
    requires
        a.len() == b.len(),
        forall|i: int| 0 <= i < a.len() ==> (#[trigger] a[i]).len() == b[i].len(),
        grid_le(a, b),
    ensures
        count_grid(a) <= count_grid(b),
    decreases a.len(),
{
    if a.len() > 0 {
        assert(grid_le(a.drop_last(), b.drop_last())) by {
            assert forall|i: int, d: int|
                0 <= i < a.drop_last().len() && 0 <= d < a.drop_last()[i].len() && (
                #[trigger] a.drop_last()[i][d]) implies b.drop_last()[i][d] by {
                assert(a[i][d]);
            }
        }
        lemma_count_grid_le(a.drop_last(), b.drop_last());
        assert forall|d: int|
            0 <= d < a.last().len() && (#[trigger] a.last()[d]) implies b.last()[d] by {
            assert(a[a.len() - 1][d]);
        }
        lemma_count_row_le(a.last(), b.last());
    }
}

proof fn lemma_count_grid_lt(a: Seq<Seq<bool>>, b: Seq<Seq<bool>>, wi: int, wd: int)
    requires
        a.len() == b.len(),
        forall|i: int| 0 <= i < a.len() ==> (#[trigger] a[i]).len() == b[i].len(),
        grid_le(a, b),
        0 <= wi < a.len(),
        0 <= wd < a[wi].len(),
        !a[wi][wd],
        b[wi][wd],
    ensures
        count_grid(a) < count_grid(b),
    decreases a.len(),
{
    assert(grid_le(a.drop_last(), b.drop_last())) by {
        assert forall|i: int, d: int|
            0 <= i < a.drop_last().len() && 0 <= d < a.drop_last()[i].len() && (
            #[trigger] a.drop_last()[i][d]) implies b.drop_last()[i][d] by {
            assert(a[i][d]);
        }
    }
    assert forall|d: int|
        0 <= d < a.last().len() && (#[trigger] a.last()[d]) implies b.last()[d] by {
        assert(a[a.len() - 1][d]);
    }
    if wi == a.len() - 1 {
        lemma_count_grid_le(a.drop_last(), b.drop_last());
        lemma_count_row_lt(a.last(), b.last(), wd);
    } else {
        lemma_count_grid_lt(a.drop_last(), b.drop_last(), wi, wd);
        lemma_count_row_le(a.last(), b.last());
    }
}

// ---------------------------------------------------------------------------
// The optimizer.
// ---------------------------------------------------------------------------

/// The reaching-definitions solver and propagation rewriter. `in_defs` and
/// `out_defs` are bit rows over statement indices: bit `d` of row `i` says
/// that the store at `d` may reach `i` (or its exit) along some path.
pub struct Optimizer {
    pub in_defs: Vec<Vec<bool>>,
    pub out_defs: Vec<Vec<bool>>,
    pub code: DirectedGraph<Stmt>,
}

impl Optimizer {
    /// The graph is the CFG of its own statement list, and the bit matrices
    /// are square over the statement indices.
    pub open spec fn wf(&self) -> bool {
        &&& self.code.wf()
        &&& wf_program(self.code.nodes@)
        &&& forall|a: int, b: int| self.code.edge(a, b) <==> cfg_edge(self.code.nodes@, a, b)
        &&& grid_wf(self.code.nodes@, grid(self.in_defs))
        &&& grid_wf(self.code.nodes@, grid(self.out_defs))
    }

    /// Builds the CFG and the empty dataflow state.
    pub fn new(code: Vec<Stmt>) -> (r: Optimizer)
        requires
            wf_program(code@),
        ensures
            r.wf(),
            r.code.nodes@ == code@,
            all_false(grid(r.in_defs)),
            all_false(grid(r.out_defs)),
    {
        let n = code.len();
        let g = code_to_graph(code);
        let in_defs = empty_grid(n);
        let out_defs = empty_grid(n);
        Optimizer { in_defs, out_defs, code: g }
    }

    /// The union of the predecessors' `OUT` rows: the meet at node `i`.
    fn union_pred_row(&self, i: usize) -> (row: Vec<bool>)
        requires
            self.wf(),
            i < self.code.nodes@.len(),
        ensures
            row@.len() == self.code.nodes@.len(),
            forall|d: int|
                0 <= d < row@.len() ==> ((#[trigger] row@[d]) <==> exists|p: int|
                    #[trigger] cfg_edge(self.code.nodes@, p, i as int) && grid(
                        self.out_defs,
                    )[p][d]),
    {
        let ghost c = self.code.nodes@;
        let n = self.code.len();
        let preds = self.code.pred_indexes(i);
        let m = preds.len();
        let mut row: Vec<bool> = Vec::new();
        let mut d: usize = 0;
        while d < n
            invariant
                self.wf(),
                c == self.code.nodes@,
                n == c.len(),
                i < n,
                preds@ == self.code.pred@[i as int]@,
                m == preds@.len(),
                d <= n,
                row@.len() == d,
                forall|dd: int|
                    0 <= dd < d ==> ((#[trigger] row@[dd]) <==> exists|p: int|
                        #[trigger] cfg_edge(c, p, i as int) && grid(self.out_defs)[p][dd]),
            decreases n - d,
        {
            let mut bit = false;
            let mut k: usize = 0;
            while k < m
                invariant
                    self.wf(),
                    c == self.code.nodes@,
                    n == c.len(),
                    i < n,
                    d < n,
                    preds@ == self.code.pred@[i as int]@,
                    m == preds@.len(),
                    k <= m,
                    bit <==> exists|k2: int|
                        0 <= k2 < k && grid(self.out_defs)[#[trigger] preds@[k2] as int][d as int],
                decreases m - k,
            {
                let p = preds[k];
                proof {
                    assert(self.code.pred@[i as int]@[k as int] < c.len());
                    assert(grid(self.out_defs)[p as int].len() == c.len());
                    assert(self.out_defs@[p as int]@.len() == c.len());
                }
                if self.out_defs[p][d] {
                    bit = true;
                    proof {
                        assert(grid(self.out_defs)[preds@[k as int] as int][d as int]);
                    }
                }
                k += 1;
            }
            proof {
                let irow = i as int;
                if bit {
                    let k2 = choose|k2: int|
                        0 <= k2 < m && grid(self.out_defs)[preds@[k2] as int][d as int];
                    let p = preds@[k2] as int;
                    assert(seq_has(self.code.pred@[irow]@, p));
                    assert(seq_has(self.code.succ@[p]@, irow));
                    assert(self.code.edge(p, irow));
                    assert(cfg_edge(c, p, irow) && grid(self.out_defs)[p][d as int]);
                } else {
                    assert forall|p: int|
                        !(#[trigger] cfg_edge(c, p, irow) && grid(self.out_defs)[p][d as int]) by {
                        if cfg_edge(c, p, irow) {
                            assert(self.code.edge(p, irow));
                            assert(seq_has(self.code.succ@[p]@, irow));
                            assert(seq_has(self.code.pred@[irow]@, p));
                            let k2 = choose|k2: int|
                                0 <= k2 < preds@.len() && preds@[k2] == p;
                            assert(!grid(self.out_defs)[preds@[k2] as int][d as int]);
                        }
                    }
                }
            }
            row.push(bit);
            d += 1;
        }
        row
    }

    /// The transfer function at node `i`: `gen[i] ∪ (IN[i] \ kill[i])`.
    fn transfer_row(&self, i: usize) -> (row: Vec<bool>)
        requires
            self.wf(),
            i < self.code.nodes@.len(),
        ensures
            row@.len() == self.code.nodes@.len(),
            forall|d: int|
                0 <= d < row@.len() ==> ((#[trigger] row@[d]) <==> (gen_bit(
                    self.code.nodes@,
                    i as int,
                    d,
                ) || (grid(self.in_defs)[i as int][d] && !kill_bit(
                    self.code.nodes@,
                    i as int,
                    d,
                )))),
    {
        let ghost c = self.code.nodes@;
        let n = self.code.len();
        let slot_opt: Option<isize> = match &self.code.nodes[i] {
            Stmt::Store(s, _) => Some(*s),
            _ => None,
        };
        proof {
            assert(slot_opt is Some <==> c[i as int] is Store);
            assert(slot_opt is Some ==> slot_opt->0 == c[i as int]->Store_0);
        }
        let mut row: Vec<bool> = Vec::new();
        let mut d: usize = 0;
        while d < n
            invariant
                self.wf(),
                c == self.code.nodes@,
                n == c.len(),
                i < n,
                slot_opt is Some <==> c[i as int] is Store,
                slot_opt is Some ==> slot_opt->0 == c[i as int]->Store_0,
                d <= n,
                row@.len() == d,
                forall|dd: int|
                    0 <= dd < d ==> ((#[trigger] row@[dd]) <==> (gen_bit(c, i as int, dd) || (grid(
                        self.in_defs,
                    )[i as int][dd] && !kill_bit(c, i as int, dd)))),
            decreases n - d,
        {
            let gen: bool = match slot_opt {
                Some(_) => d == i,
                None => false,
            };
            let kill: bool = match slot_opt {
                Some(s) => match &self.code.nodes[d] {
                    Stmt::Store(s2, _) => *s2 == s && d != i,
                    _ => false,
                },
                None => false,
            };
            proof {
                assert(grid(self.in_defs)[i as int].len() == c.len());
                assert(self.in_defs@[i as int]@.len() == c.len());
            }
            let in_bit = self.in_defs[i][d];
            proof {
                assert(gen == gen_bit(c, i as int, d as int));
                assert(kill == kill_bit(c, i as int, d as int));
                assert(in_bit == grid(self.in_defs)[i as int][d as int]);
            }
            row.push(gen || (in_bit && !kill));
            d += 1;
        }
        row
    }
}

/// `IN` under-approximates the meet of the current `OUT` rows.
pub open spec fn under_in(code: Seq<Stmt>, ind: Seq<Seq<bool>>, outd: Seq<Seq<bool>>) -> bool {
    forall|i: int, d: int|
        0 <= i < ind.len() && 0 <= d < ind[i].len() && (#[trigger] ind[i][d]) ==> exists|p: int|
            #[trigger] cfg_edge(code, p, i) && outd[p][d]
}

/// `OUT` under-approximates the transfer function of the current `IN` rows.
pub open spec fn under_out(code: Seq<Stmt>, ind: Seq<Seq<bool>>, outd: Seq<Seq<bool>>) -> bool {
    forall|i: int, d: int|
        0 <= i < outd.len() && 0 <= d < outd[i].len() && (#[trigger] outd[i][d]) ==> (gen_bit(
            code,
            i,
            d,
        ) || (ind[i][d] && !kill_bit(code, i, d)))
}

/// Only indices of `Store` statements are ever marked: the sets range
/// over the program's definitions, which bounds how long the iteration
/// can keep adding bits.
pub open spec fn only_stores(code: Seq<Stmt>, g: Seq<Seq<bool>>) -> bool {
    forall|i: int, d: int|
        0 <= i < g.len() && 0 <= d < g[i].len() && (#[trigger] g[i][d]) ==> 0 <= d < code.len()
            && code[d] is Store
}

/// The state lies below every solution of the equations.
pub open spec fn below_all(code: Seq<Stmt>, ind: Seq<Seq<bool>>, outd: Seq<Seq<bool>>) -> bool {
    forall|ind2: Seq<Seq<bool>>, outd2: Seq<Seq<bool>>|
        #[trigger] is_solution(code, ind2, outd2) ==> grid_le(ind, ind2) && grid_le(outd, outd2)
}

impl Optimizer {
    /// Iterates the dataflow equations, sweeping the nodes in index order
    /// until nothing changes, and lands on the least fixed point. Bits are
    /// only ever added, which bounds the number of passes: the `decreases`
    /// measure counts the bits still clear.
    pub fn calc_reaching_definition(&mut self)
        requires
            old(self).wf(),
            all_false(grid(old(self).in_defs)),
            all_false(grid(old(self).out_defs)),
        ensures
            final(self).wf(),
            final(self).code == old(self).code,
            is_least_solution(
                final(self).code.nodes@,
                grid(final(self).in_defs),
                grid(final(self).out_defs),
            ),
            only_stores(final(self).code.nodes@, grid(final(self).in_defs)),
            only_stores(final(self).code.nodes@, grid(final(self).out_defs)),
    {
        let ghost c = self.code.nodes@;
        let n = self.code.len();
        let ghost mut wi: int = 0;
        let ghost mut wd: int = 0;
        let ghost mut wgrid: bool = true;
        proof {
            lemma_count_grid_bounds(grid(self.in_defs), n as int);
            lemma_count_grid_bounds(grid(self.out_defs), n as int);
        }
        loop
            invariant
                self.wf(),
                self.code == old(self).code,
                c == self.code.nodes@,
                n == c.len(),
                under_in(c, grid(self.in_defs), grid(self.out_defs)),
                under_out(c, grid(self.in_defs), grid(self.out_defs)),
                below_all(c, grid(self.in_defs), grid(self.out_defs)),
                only_stores(c, grid(self.in_defs)),
                only_stores(c, grid(self.out_defs)),
                0 <= count_grid(grid(self.in_defs)) <= n * n,
                0 <= count_grid(grid(self.out_defs)) <= n * n,
            ensures
                self.wf(),
                self.code == old(self).code,
                c == self.code.nodes@,
                is_solution(c, grid(self.in_defs), grid(self.out_defs)),
                below_all(c, grid(self.in_defs), grid(self.out_defs)),
                only_stores(c, grid(self.in_defs)),
                only_stores(c, grid(self.out_defs)),
            decreases 2 * n * n - count_grid(grid(self.in_defs)) - count_grid(
                grid(self.out_defs),
            ),
        {
            let ghost start_in = grid(self.in_defs);
            let ghost start_out = grid(self.out_defs);
            let mut changed = false;
            let mut i: usize = 0;
            while i < n
                invariant
                    self.wf(),
                    self.code == old(self).code,
                    c == self.code.nodes@,
                    n == c.len(),
                    i <= n,
                    under_in(c, grid(self.in_defs), grid(self.out_defs)),
                    under_out(c, grid(self.in_defs), grid(self.out_defs)),
                    below_all(c, grid(self.in_defs), grid(self.out_defs)),
                    only_stores(c, grid(self.in_defs)),
                    only_stores(c, grid(self.out_defs)),
                    start_in.len() == n,
                    start_out.len() == n,
                    forall|j: int| 0 <= j < n ==> (#[trigger] start_in[j]).len() == n,
                    forall|j: int| 0 <= j < n ==> (#[trigger] start_out[j]).len() == n,
                    grid_le(start_in, grid(self.in_defs)),
                    grid_le(start_out, grid(self.out_defs)),
                    !changed ==> forall|j: int, d: int|
                        0 <= j < n && 0 <= d < n ==> (#[trigger] grid(self.in_defs)[j][d])
                            == start_in[j][d],
                    !changed ==> forall|j: int, d: int|
                        0 <= j < n && 0 <= d < n ==> (#[trigger] grid(self.out_defs)[j][d])
                            == start_out[j][d],
                    !changed ==> forall|j: int|
                        0 <= j < i ==> #[trigger] in_eq(c, start_in, start_out, j),
                    !changed ==> forall|j: int|
                        0 <= j < i ==> #[trigger] out_eq(c, start_in, start_out, j),
                    changed ==> {
                        &&& 0 <= wi < n
                        &&& 0 <= wd < n
                        &&& (wgrid ==> !start_in[wi][wd] && grid(self.in_defs)[wi][wd])
                        &&& (!wgrid ==> !start_out[wi][wd] && grid(self.out_defs)[wi][wd])
                    },
                decreases n - i,
            {
                // Recompute the IN row of `i` from the predecessors' OUT rows.
                let row = self.union_pred_row(i);
                let ghost prev = *self;
                proof {
                    assert(grid(prev.in_defs)[i as int].len() == n);
                    // The new row only grows: a set bit reaches some
                    // predecessor's OUT row, which is untouched.
                    assert forall|d: int|
                        0 <= d < n && grid(prev.in_defs)[i as int][d] implies row@[d] by {
                        assert(under_in(c, grid(prev.in_defs), grid(prev.out_defs)));
                    }
                }
                let differs = rows_differ(&row, &self.in_defs[i]);
                if differs {
                    changed = true;
                    proof {
                        let dd = choose|d: int|
                            0 <= d < row@.len() && row@[d] != prev.in_defs@[i as int]@[d];
                        assert(!grid(prev.in_defs)[i as int][dd] && row@[dd]);
                        wi = i as int;
                        wd = dd;
                        wgrid = true;
                    }
                }
                self.in_defs.set(i, row);
                proof {
                    let cur_in = grid(self.in_defs);
                    let cur_out = grid(self.out_defs);
                    assert(cur_out == grid(prev.out_defs));
                    assert forall|j: int|
                        0 <= j < n && j != i implies #[trigger] cur_in[j] == grid(
                        prev.in_defs,
                    )[j] by {}
                    assert(cur_in[i as int] == row@);
                    // Well-formed dimensions.
                    assert(grid_wf(c, cur_in));
                    // IN still under-approximates the meet.
                    assert forall|j: int, d: int|
                        0 <= j < n && 0 <= d < cur_in[j].len() && (#[trigger] cur_in[j][d]) implies exists|p: int|
                        #[trigger] cfg_edge(c, p, j) && cur_out[p][d] by {
                        if j != i {
                            assert(grid(prev.in_defs)[j][d]);
                            assert(under_in(c, grid(prev.in_defs), grid(prev.out_defs)));
                        }
                    }
                    // OUT still under-approximates the transfer of the grown IN.
                    assert forall|j: int, d: int|
                        0 <= j < n && 0 <= d < cur_out[j].len() && (#[trigger] cur_out[j][d]) implies (
                    gen_bit(c, j, d) || (cur_in[j][d] && !kill_bit(c, j, d))) by {
                        assert(under_out(c, grid(prev.in_defs), grid(prev.out_defs)));
                        assert(grid(prev.out_defs)[j][d]);
                        if !gen_bit(c, j, d) {
                            assert(grid(prev.in_defs)[j][d] && !kill_bit(c, j, d));
                            if j == i {
                                assert(row@[d]);
                            }
                        }
                    }
                    // The state stays below every solution.
                    assert forall|ind2: Seq<Seq<bool>>, outd2: Seq<Seq<bool>>|
                        #[trigger] is_solution(c, ind2, outd2) implies grid_le(cur_in, ind2)
                        && grid_le(cur_out, outd2) by {
                        assert(below_all(c, grid(prev.in_defs), grid(prev.out_defs)));
                        assert(grid_le(grid(prev.out_defs), outd2));
                        assert(grid_le(grid(prev.in_defs), ind2));
                        assert forall|j: int, d: int|
                            0 <= j < n && 0 <= d < cur_in[j].len() && (#[trigger] cur_in[j][d]) implies ind2[j][d] by {
                            if j == i {
                                let p = choose|p: int|
                                    #[trigger] cfg_edge(c, p, j) && cur_out[p][d];
                                assert(outd2[p][d]);
                                assert(in_eq(c, ind2, outd2, j));
                            } else {
                                assert(grid(prev.in_defs)[j][d]);
                            }
                        }
                    }
                    // Growth relative to the pass start.
                    assert forall|j: int, d: int|
                        0 <= j < n && 0 <= d < n && (#[trigger] start_in[j][d]) implies cur_in[j][d] by {
                        assert(grid(prev.in_defs)[j][d]);
                        if j == i {
                            assert(row@[d]);
                        }
                    }
                    // Bits stay on store indices.
                    assert forall|j: int, d: int|
                        0 <= j < n && 0 <= d < cur_in[j].len() && (#[trigger] cur_in[j][d]) implies 0
                        <= d < c.len() && c[d] is Store by {
                        if j == i {
                            let p = choose|p: int|
                                #[trigger] cfg_edge(c, p, j) && grid(prev.out_defs)[p][d];
                            assert(grid(prev.out_defs)[p][d]);
                        } else {
                            assert(grid(prev.in_defs)[j][d]);
                        }
                    }
                }

                // Recompute the OUT row of `i` by the transfer function.
                let orow = self.transfer_row(i);
                let ghost prev2 = *self;
                proof {
                    assert(grid(prev2.out_defs)[i as int].len() == n);
                    assert forall|d: int|
                        0 <= d < n && grid(prev2.out_defs)[i as int][d] implies orow@[d] by {
                        assert(under_out(c, grid(prev2.in_defs), grid(prev2.out_defs)));
                    }
                }
                let differs2 = rows_differ(&orow, &self.out_defs[i]);
                if differs2 {
                    changed = true;
                    proof {
                        let dd = choose|d: int|
                            0 <= d < orow@.len() && orow@[d] != prev2.out_defs@[i as int]@[d];
                        assert(!grid(prev2.out_defs)[i as int][dd] && orow@[dd]);
                        wi = i as int;
                        wd = dd;
                        wgrid = false;
                    }
                }
                self.out_defs.set(i, orow);
                proof {
                    let cur_in = grid(self.in_defs);
                    let cur_out = grid(self.out_defs);
                    assert(cur_in == grid(prev2.in_defs));
                    assert forall|j: int|
                        0 <= j < n && j != i implies #[trigger] cur_out[j] == grid(
                        prev2.out_defs,
                    )[j] by {}
                    assert(cur_out[i as int] == orow@);
                    assert(grid_wf(c, cur_out));
                    // IN still under-approximates the meet of the grown OUT.
                    assert forall|j: int, d: int|
                        0 <= j < n && 0 <= d < cur_in[j].len() && (#[trigger] cur_in[j][d]) implies exists|p: int|
                        #[trigger] cfg_edge(c, p, j) && cur_out[p][d] by {
                        assert(under_in(c, grid(prev2.in_defs), grid(prev2.out_defs)));
                        assert(grid(prev2.in_defs)[j][d]);
                        let p = choose|p: int|
                            #[trigger] cfg_edge(c, p, j) && grid(prev2.out_defs)[p][d];
                        if p == i {
                            assert(orow@[d]);
                        }
                        assert(cfg_edge(c, p, j) && cur_out[p][d]);
                    }
                    // OUT still under-approximates the transfer.
                    assert forall|j: int, d: int|
                        0 <= j < n && 0 <= d < cur_out[j].len() && (#[trigger] cur_out[j][d]) implies (
                    gen_bit(c, j, d) || (cur_in[j][d] && !kill_bit(c, j, d))) by {
                        if j != i {
                            assert(grid(prev2.out_defs)[j][d]);
                            assert(under_out(c, grid(prev2.in_defs), grid(prev2.out_defs)));
                        }
                    }
                    // Below every solution.
                    assert forall|ind2: Seq<Seq<bool>>, outd2: Seq<Seq<bool>>|
                        #[trigger] is_solution(c, ind2, outd2) implies grid_le(cur_in, ind2)
                        && grid_le(cur_out, outd2) by {
                        assert(below_all(c, grid(prev2.in_defs), grid(prev2.out_defs)));
                        assert(grid_le(grid(prev2.in_defs), ind2));
                        assert(grid_le(grid(prev2.out_defs), outd2));
                        assert forall|j: int, d: int|
                            0 <= j < n && 0 <= d < cur_out[j].len()
                                && (#[trigger] cur_out[j][d]) implies outd2[j][d] by {
                            if j == i {
                                assert(gen_bit(c, j, d) || (cur_in[j][d] && !kill_bit(c, j, d)));
                                if !gen_bit(c, j, d) {
                                    assert(ind2[j][d]);
                                }
                                assert(out_eq(c, ind2, outd2, j));
                            } else {
                                assert(grid(prev2.out_defs)[j][d]);
                            }
                        }
                    }
                    // Growth relative to the pass start.
                    assert forall|j: int, d: int|
                        0 <= j < n && 0 <= d < n && (#[trigger] start_out[j][d]) implies cur_out[j][d] by {
                        assert(grid(prev2.out_defs)[j][d]);
                        if j == i {
                            assert(orow@[d]);
                        }
                    }
                    // Bits stay on store indices.
                    assert forall|j: int, d: int|
                        0 <= j < n && 0 <= d < cur_out[j].len() && (#[trigger] cur_out[j][d]) implies 0
                        <= d < c.len() && c[d] is Store by {
                        if j == i {
                            assert(gen_bit(c, j, d) || (cur_in[j][d] && !kill_bit(c, j, d)));
                        } else {
                            assert(grid(prev2.out_defs)[j][d]);
                        }
                    }
                    // With no change so far, the state is still the pass
                    // start and the equations hold up to `i`.
                    if !changed {
                        assert(grid(prev2.out_defs) == grid(prev.out_defs));
                        assert(grid(prev2.in_defs)[i as int] == row@);
                        assert forall|j: int, d: int|
                            0 <= j < n && 0 <= d < n implies (#[trigger] cur_in[j][d])
                            == start_in[j][d] by {
                            if j == i {
                                assert(row@[d] == grid(prev.in_defs)[i as int][d]);
                            }
                        }
                        assert forall|j: int, d: int|
                            0 <= j < n && 0 <= d < n implies (#[trigger] cur_out[j][d])
                            == start_out[j][d] by {
                            if j == i {
                                assert(orow@[d] == grid(prev2.out_defs)[i as int][d]);
                            }
                        }
                        // The equation at `i` itself, over the pass-start grids.
                        assert forall|d: int|
                            0 <= d < c.len() implies ((#[trigger] start_in[i as int][d])
                            <==> exists|p: int|
                                #[trigger] cfg_edge(c, p, i as int) && start_out[p][d]) by {
                            assert(start_in[i as int][d] == grid(prev.in_defs)[i as int][d]);
                            assert(grid(prev.in_defs)[i as int][d] == row@[d]);
                            if exists|p: int|
                                #[trigger] cfg_edge(c, p, i as int) && grid(prev.out_defs)[p][d] {
                                let p = choose|p: int|
                                    #[trigger] cfg_edge(c, p, i as int) && grid(
                                        prev.out_defs,
                                    )[p][d];
                                assert(cur_out[p][d]);
                                assert(start_out[p][d]);
                            }
                            if exists|p: int|
                                #[trigger] cfg_edge(c, p, i as int) && start_out[p][d] {
                                let p = choose|p: int|
                                    #[trigger] cfg_edge(c, p, i as int) && start_out[p][d];
                                assert(cur_out[p][d]);
                                assert(grid(prev.out_defs)[p][d]);
                            }
                        }
                        assert(in_eq(c, start_in, start_out, i as int));
                        assert forall|d: int|
                            0 <= d < c.len() implies ((#[trigger] start_out[i as int][d]) <==> (
                        gen_bit(c, i as int, d) || (start_in[i as int][d] && !kill_bit(
                            c,
                            i as int,
                            d,
                        )))) by {
                            assert(start_out[i as int][d] == grid(prev.out_defs)[i as int][d]);
                            assert(grid(prev.out_defs)[i as int][d] == grid(
                                prev2.out_defs,
                            )[i as int][d]);
                            assert(grid(prev2.out_defs)[i as int][d] == orow@[d]);
                            assert(grid(prev2.in_defs)[i as int][d] == row@[d]);
                            assert(row@[d] == grid(prev.in_defs)[i as int][d]);
                            assert(grid(prev.in_defs)[i as int][d] == start_in[i as int][d]);
                        }
                        assert(out_eq(c, start_in, start_out, i as int));
                    }
                }
                i += 1;
            }
            proof {
                let cur_in = grid(self.in_defs);
                let cur_out = grid(self.out_defs);
                lemma_count_grid_bounds(cur_in, n as int);
                lemma_count_grid_bounds(cur_out, n as int);
                assert forall|j: int| 0 <= j < n implies (#[trigger] cur_in[j]).len()
                    == start_in[j].len() by {}
                assert forall|j: int| 0 <= j < n implies (#[trigger] cur_out[j]).len()
                    == start_out[j].len() by {}
                if changed {
                    if wgrid {
                        lemma_count_grid_lt(start_in, cur_in, wi, wd);
                        lemma_count_grid_le(start_out, cur_out);
                    } else {
                        lemma_count_grid_le(start_in, cur_in);
                        lemma_count_grid_lt(start_out, cur_out, wi, wd);
                    }
                } else {
                    assert(grid_le(cur_in, start_in));
                    assert(grid_le(cur_out, start_out));
                    lemma_count_grid_le(start_in, cur_in);
                    lemma_count_grid_le(cur_in, start_in);
                    lemma_count_grid_le(start_out, cur_out);
                    lemma_count_grid_le(cur_out, start_out);
                    // Nothing moved, so the equations proved against the
                    // pass-start grids hold of the (pointwise equal) state.
                    assert forall|j: int| 0 <= j < c.len() implies #[trigger] in_eq(
                        c,
                        cur_in,
                        cur_out,
                        j,
                    ) by {
                        assert(in_eq(c, start_in, start_out, j));
                        assert forall|d: int|
                            0 <= d < c.len() implies ((#[trigger] cur_in[j][d]) <==> exists|p: int|
                                #[trigger] cfg_edge(c, p, j) && cur_out[p][d]) by {
                            assert(cur_in[j][d] == start_in[j][d]);
                            if exists|p: int| #[trigger] cfg_edge(c, p, j) && cur_out[p][d] {
                                let p = choose|p: int|
                                    #[trigger] cfg_edge(c, p, j) && cur_out[p][d];
                                assert(start_out[p][d]);
                            }
                            if exists|p: int| #[trigger] cfg_edge(c, p, j) && start_out[p][d] {
                                let p = choose|p: int|
                                    #[trigger] cfg_edge(c, p, j) && start_out[p][d];
                                assert(cur_out[p][d]);
                            }
                        }
                    }
                    assert forall|j: int| 0 <= j < c.len() implies #[trigger] out_eq(
                        c,
                        cur_in,
                        cur_out,
                        j,
                    ) by {
                        assert(out_eq(c, start_in, start_out, j));
                        assert forall|d: int|
                            0 <= d < c.len() implies ((#[trigger] cur_out[j][d]) <==> (gen_bit(
                                c,
                                j,
                                d,
                            ) || (cur_in[j][d] && !kill_bit(c, j, d)))) by {
                            assert(cur_out[j][d] == start_out[j][d]);
                            assert(cur_in[j][d] == start_in[j][d]);
                        }
                    }
                    assert(is_solution(c, cur_in, cur_out));
                }
                if changed {
                    assert(count_grid(cur_in) + count_grid(cur_out) > count_grid(start_in)
                        + count_grid(start_out));
                } else {
                    assert(count_grid(cur_in) == count_grid(start_in));
                    assert(count_grid(cur_out) == count_grid(start_out));
                }
                assert(0 <= count_grid(cur_in) <= n * n);
                assert(0 <= count_grid(cur_out) <= n * n);
                assert(2 * n * n == n * n + n * n) by (nonlinear_arith);
                assert(count_grid(cur_in) + count_grid(cur_out) <= 2 * n * n);
            }
            if !changed {
                break;
            }
        }
    }
}

// ---------------------------------------------------------------------------
// The propagation rewriter.
// ---------------------------------------------------------------------------

/// The store at `d` defines `slot` and reaches the point whose `IN` row is
/// `in_row`.
pub open spec fn reaches(code: Seq<Stmt>, in_row: Seq<bool>, slot: isize, d: int) -> bool {
    0 <= d < code.len() && 0 <= d < in_row.len() && in_row[d] && is_def(code, slot, d)
}

/// Exactly one definition of `slot` reaches the point.
pub open spec fn exactly_one_reaches(code: Seq<Stmt>, in_row: Seq<bool>, slot: isize) -> bool {
    &&& exists|d: int| reaches(code, in_row, slot, d)
    &&& forall|d1: int, d2: int|
        #[trigger] reaches(code, in_row, slot, d1) && #[trigger] reaches(code, in_row, slot, d2)
            ==> d1 == d2
}

/// The unique reaching definition of `slot`.
pub open spec fn the_reaching(code: Seq<Stmt>, in_row: Seq<bool>, slot: isize) -> int {
    choose|d: int| reaches(code, in_row, slot, d)
}

/// Replacing a use of the copy stored at `d` by a use of `slot2` is safe:
/// every definition of `slot2` that reaches the use site already reached
/// the defining site `d`, so `slot2` was not redefined in between.
pub open spec fn copy_safe(
    code: Seq<Stmt>,
    ind: Seq<Seq<bool>>,
    i: int,
    d: int,
    slot2: isize,
) -> bool {
    forall|d2: int|
        #[trigger] reaches(code, ind[i], slot2, d2) ==> reaches(code, ind[d], slot2, d2)
}

/// The bottom-up rewrite of one expression at statement `i`, given the
/// solved `IN` rows: loads with a unique reaching definition become copies
/// or constants, and constant operator nodes fold.
pub open spec fn rewrite_expr(code: Seq<Stmt>, ind: Seq<Seq<bool>>, i: int, e: Expr) -> Expr
    decreases e,
{
    match e {
        Expr::Int(_) => e,
        Expr::Add(l, r) => {
            let e2 = Expr::Add(
                Box::new(rewrite_expr(code, ind, i, *l)),
                Box::new(rewrite_expr(code, ind, i, *r)),
            );
            if expr_is_const(e2) {
                Expr::Int(eval_expr(e2))
            } else {
                e2
            }
        },
        Expr::Mul(l, r) => {
            let e2 = Expr::Mul(
                Box::new(rewrite_expr(code, ind, i, *l)),
                Box::new(rewrite_expr(code, ind, i, *r)),
            );
            if expr_is_const(e2) {
                Expr::Int(eval_expr(e2))
            } else {
                e2
            }
        },
        Expr::LoadCopy(slot) => {
            if exactly_one_reaches(code, ind[i], slot) {
                let d = the_reaching(code, ind[i], slot);
                let ed = code[d]->Store_1;
                if ed is LoadCopy && copy_safe(code, ind, i, d, ed->LoadCopy_0) {
                    Expr::LoadCopy(ed->LoadCopy_0)
                } else if !(ed is LoadCopy) && expr_is_const(ed) {
                    Expr::Int(eval_expr(ed))
                } else {
                    e
                }
            } else {
                e
            }
        },
    }
}

/// The rewrite of one statement: `Store` right-hand sides, bare
/// expressions, jump conditions and `Print` arguments are rewritten;
/// labels, unconditional jumps and store destinations are not.
pub open spec fn rewrite_stmt(code: Seq<Stmt>, ind: Seq<Seq<bool>>, i: int, s: Stmt) -> Stmt {
    match s {
        Stmt::Store(slot, e) => Stmt::Store(slot, rewrite_expr(code, ind, i, e)),
        Stmt::Expr(e) => Stmt::Expr(rewrite_expr(code, ind, i, e)),
        Stmt::JumpIfZero(e, l) => Stmt::JumpIfZero(rewrite_expr(code, ind, i, e), l),
        Stmt::Print(e) => Stmt::Print(rewrite_expr(code, ind, i, e)),
        _ => s,
    }
}

/// The expression reads no variable slot.
pub open spec fn expr_no_loads(e: Expr) -> bool
    decreases e,
{
    match e {
        Expr::Int(_) => true,
        Expr::Add(l, r) => expr_no_loads(*l) && expr_no_loads(*r),
        Expr::Mul(l, r) => expr_no_loads(*l) && expr_no_loads(*r),
        Expr::LoadCopy(_) => false,
    }
}

/// The statement's expressions read no variable slot.
pub open spec fn stmt_no_loads(s: Stmt) -> bool {
    match s {
        Stmt::Store(_, e) => expr_no_loads(e),
        Stmt::Expr(e) => expr_no_loads(e),
        Stmt::JumpIfZero(e, _) => expr_no_loads(e),
        Stmt::Print(e) => expr_no_loads(e),
        Stmt::Label(_) => true,
        Stmt::Jump(_) => true,
    }
}

/// An expression without loads rewrites to its (constant) value, whatever
/// the analysis rows say.
pub proof fn lemma_rewrite_no_loads(code: Seq<Stmt>, ind: Seq<Seq<bool>>, i: int, e: Expr)
    requires
        expr_no_loads(e),
    ensures
        expr_is_const(e),
        rewrite_expr(code, ind, i, e) == Expr::Int(eval_expr(e)),
    decreases e,
{
    match e {
        Expr::Int(n) => {
            assert(rewrite_expr(code, ind, i, e) == e);
            assert(eval_expr(e) == n);
        },
        Expr::Add(l, r) => {
            lemma_rewrite_no_loads(code, ind, i, *l);
            lemma_rewrite_no_loads(code, ind, i, *r);
            let vl = eval_expr(*l);
            let vr = eval_expr(*r);
            let e2 = Expr::Add(Box::new(Expr::Int(vl)), Box::new(Expr::Int(vr)));
            assert(rewrite_expr(code, ind, i, *l) == Expr::Int(vl));
            assert(expr_is_const(Expr::Int(vl)) && expr_is_const(Expr::Int(vr)));
            assert(expr_is_const(e2));
            assert(eval_expr(Expr::Int(vl)) == vl && eval_expr(Expr::Int(vr)) == vr);
            assert(eval_expr(e2) == vstd::wrapping::i64_specs::wrapping_add(vl, vr));
            assert(eval_expr(e) == vstd::wrapping::i64_specs::wrapping_add(vl, vr));
        },
        Expr::Mul(l, r) => {
            lemma_rewrite_no_loads(code, ind, i, *l);
            lemma_rewrite_no_loads(code, ind, i, *r);
            let vl = eval_expr(*l);
            let vr = eval_expr(*r);
            let e2 = Expr::Mul(Box::new(Expr::Int(vl)), Box::new(Expr::Int(vr)));
            assert(rewrite_expr(code, ind, i, *l) == Expr::Int(vl));
            assert(expr_is_const(Expr::Int(vl)) && expr_is_const(Expr::Int(vr)));
            assert(expr_is_const(e2));
            assert(eval_expr(Expr::Int(vl)) == vl && eval_expr(Expr::Int(vr)) == vr);
            assert(eval_expr(e2) == vstd::wrapping::i64_specs::wrapping_mul(vl, vr));
            assert(eval_expr(e) == vstd::wrapping::i64_specs::wrapping_mul(vl, vr));
        },
        Expr::LoadCopy(_) => {},
    }
}

/// Idempotence on load-free statements: a second rewrite, under any
/// analysis of any program, returns the first rewrite unchanged. A load
/// can keep a statement away from this fixed point: a safe copy is
/// installed verbatim, and only a later pass would fold what it now
/// denotes.
pub proof fn lemma_rewrite_stmt_idempotent_no_loads(
    code1: Seq<Stmt>,
    ind1: Seq<Seq<bool>>,
    i1: int,
    code2: Seq<Stmt>,
    ind2: Seq<Seq<bool>>,
    i2: int,
    s: Stmt,
)
    requires
        stmt_no_loads(s),
    ensures
        rewrite_stmt(code2, ind2, i2, rewrite_stmt(code1, ind1, i1, s)) == rewrite_stmt(
            code1,
            ind1,
            i1,
            s,
        ),
{
    match s {
        Stmt::Store(_, e) => {
            lemma_rewrite_no_loads(code1, ind1, i1, e);
        },
        Stmt::Expr(e) => {
            lemma_rewrite_no_loads(code1, ind1, i1, e);
        },
        Stmt::JumpIfZero(e, _) => {
            lemma_rewrite_no_loads(code1, ind1, i1, e);
        },
        Stmt::Print(e) => {
            lemma_rewrite_no_loads(code1, ind1, i1, e);
        },
        Stmt::Label(_) => {},
        Stmt::Jump(_) => {},
    }
}

/// The rewrite touches only expressions: the statement's kind, its label,
/// its jump target and its stored slot all survive.
pub proof fn lemma_rewrite_stmt_shape(code: Seq<Stmt>, ind: Seq<Seq<bool>>, i: int, s: Stmt)
    ensures
        rewrite_stmt(code, ind, i, s) is Label <==> s is Label,
        s is Label ==> rewrite_stmt(code, ind, i, s) == s,
        rewrite_stmt(code, ind, i, s) is Jump <==> s is Jump,
        s is Jump ==> rewrite_stmt(code, ind, i, s) == s,
        rewrite_stmt(code, ind, i, s) is JumpIfZero <==> s is JumpIfZero,
        s is JumpIfZero ==> rewrite_stmt(code, ind, i, s)->JumpIfZero_1 == s->JumpIfZero_1,
        rewrite_stmt(code, ind, i, s) is Store <==> s is Store,
        s is Store ==> rewrite_stmt(code, ind, i, s)->Store_0 == s->Store_0,
{
}

/// Rewriting every statement preserves the program's label structure and
/// its control-flow graph: the optimized program is well formed again and
/// has exactly the edges of the input. Only what the statements compute
/// changes, never where control can go.
pub proof fn lemma_rewrite_preserves_wf_and_cfg(
    code: Seq<Stmt>,
    ind: Seq<Seq<bool>>,
    r: Seq<Stmt>,
)
    requires
        wf_program(code),
        r.len() == code.len(),
        forall|j: int| 0 <= j < r.len() ==> r[j] == rewrite_stmt(code, ind, j, code[j]),
    ensures
        wf_program(r),
        forall|a: int, b: int| cfg_edge(r, a, b) <==> cfg_edge(code, a, b),
{
    assert forall|j: int, l: Label| #[trigger] declares(r, j, l) implies #[trigger] declares(
        code,
        j,
        l,
    ) by {
        lemma_rewrite_stmt_shape(code, ind, j, code[j]);
    }
    assert forall|j: int, l: Label| #[trigger] declares(code, j, l) implies #[trigger] declares(
        r,
        j,
        l,
    ) by {
        lemma_rewrite_stmt_shape(code, ind, j, code[j]);
    }
    assert forall|i: int| 0 <= i < r.len() && (#[trigger] r[i]) is Jump implies exists|j: int|
        declares(r, j, r[i]->Jump_0) by {
        lemma_rewrite_stmt_shape(code, ind, i, code[i]);
        let j = choose|j: int| declares(code, j, code[i]->Jump_0);
        assert(declares(r, j, r[i]->Jump_0));
    }
    assert forall|i: int|
        0 <= i < r.len() && (#[trigger] r[i]) is JumpIfZero implies exists|j: int|
        declares(r, j, r[i]->JumpIfZero_1) by {
        lemma_rewrite_stmt_shape(code, ind, i, code[i]);
        let j = choose|j: int| declares(code, j, code[i]->JumpIfZero_1);
        assert(declares(r, j, r[i]->JumpIfZero_1));
    }
    assert forall|j1: int, j2: int, l: Label|
        #[trigger] declares(r, j1, l) && #[trigger] declares(r, j2, l) implies j1 == j2 by {
        assert(declares(code, j1, l));
        assert(declares(code, j2, l));
    }
    assert(wf_program(r));
    assert forall|l: Label| (exists|j: int| declares(code, j, l)) implies label_index(r, l)
        == label_index(code, l) by {
        let j1 = label_index(code, l);
        assert(declares(code, j1, l));
        assert(declares(r, j1, l));
        let j2 = label_index(r, l);
        assert(declares(r, j2, l));
        assert(declares(code, j2, l));
    }
    assert forall|a: int, b: int| cfg_edge(r, a, b) <==> cfg_edge(code, a, b) by {
        if 0 <= a < code.len() && 0 <= b < code.len() {
            lemma_rewrite_stmt_shape(code, ind, a, code[a]);
            if code[a] is Jump {
                assert(r[a] == code[a]);
                assert(exists|j: int| declares(code, j, code[a]->Jump_0));
            }
            if code[a] is JumpIfZero {
                assert(r[a]->JumpIfZero_1 == code[a]->JumpIfZero_1);
                assert(exists|j: int| declares(code, j, code[a]->JumpIfZero_1));
            }
        }
    }
}

impl Optimizer {
    /// Finds the unique definition of `slot` reaching `i`, if there is
    /// exactly one.
    fn unique_reaching(&self, i: usize, slot: isize) -> (r: Option<usize>)
        requires
            self.wf(),
            i < self.code.nodes@.len(),
        ensures
            match r {
                Some(d) => {
                    &&& exactly_one_reaches(self.code.nodes@, grid(self.in_defs)[i as int], slot)
                    &&& d == the_reaching(self.code.nodes@, grid(self.in_defs)[i as int], slot)
                },
                None => !exactly_one_reaches(self.code.nodes@, grid(self.in_defs)[i as int], slot),
            },
    {
        let ghost c = self.code.nodes@;
        let ghost row = grid(self.in_defs)[i as int];
        let n = self.code.len();
        proof {
            assert(grid(self.in_defs)[i as int].len() == n);
        }
        let mut count: usize = 0;
        let mut d0: usize = 0;
        let mut dd: usize = 0;
        while dd < n
            invariant
                self.wf(),
                c == self.code.nodes@,
                row == grid(self.in_defs)[i as int],
                row.len() == n,
                n == c.len(),
                i < n,
                dd <= n,
                count <= dd,
                count == 0 ==> forall|d: int| 0 <= d < dd ==> !reaches(c, row, slot, d),
                count == 1 ==> d0 < dd && reaches(c, row, slot, d0 as int) && forall|d: int|
                    0 <= d < dd && d != d0 ==> !reaches(c, row, slot, d),
                count >= 2 ==> exists|d1: int, d2: int|
                    0 <= d1 < dd && 0 <= d2 < dd && d1 != d2 && #[trigger] reaches(
                        c,
                        row,
                        slot,
                        d1,
                    ) && #[trigger] reaches(c, row, slot, d2),
            decreases n - dd,
        {
            let hit = self.in_defs[i][dd] && (match &self.code.nodes[dd] {
                Stmt::Store(s2, _) => *s2 == slot,
                _ => false,
            });
            proof {
                assert(hit == reaches(c, row, slot, dd as int));
            }
            if hit {
                if count == 0 {
                    d0 = dd;
                }
                count += 1;
            }
            dd += 1;
        }
        if count == 1 {
            proof {
                assert(exactly_one_reaches(c, row, slot)) by {
                    assert(reaches(c, row, slot, d0 as int));
                    assert forall|d1: int, d2: int|
                        #[trigger] reaches(c, row, slot, d1) && #[trigger] reaches(
                            c,
                            row,
                            slot,
                            d2,
                        ) implies d1 == d2 by {
                        assert(d1 == d0 && d2 == d0);
                    }
                }
                let t = the_reaching(c, row, slot);
                assert(reaches(c, row, slot, t));
                assert(t == d0 as int);
            }
            Some(d0)
        } else {
            proof {
                if count == 0 {
                    assert(!exists|d: int| reaches(c, row, slot, d));
                } else {
                    let (d1, d2) = choose|d1: int, d2: int|
                        0 <= d1 < n && 0 <= d2 < n && d1 != d2 && #[trigger] reaches(
                            c,
                            row,
                            slot,
                            d1,
                        ) && #[trigger] reaches(c, row, slot, d2);
                    assert(!exactly_one_reaches(c, row, slot));
                }
            }
            None
        }
    }

    /// The path-safety test for copy propagation at use site `i` with
    /// defining site `d`.
    fn copy_safe_check(&self, i: usize, d: usize, slot2: isize) -> (r: bool)
        requires
            self.wf(),
            i < self.code.nodes@.len(),
            d < self.code.nodes@.len(),
        ensures
            r == copy_safe(self.code.nodes@, grid(self.in_defs), i as int, d as int, slot2),
    {
        let ghost c = self.code.nodes@;
        let ghost ind = grid(self.in_defs);
        let n = self.code.len();
        proof {
            assert(grid(self.in_defs)[i as int].len() == n);
            assert(grid(self.in_defs)[d as int].len() == n);
        }
        let mut ok = true;
        let mut d2: usize = 0;
        while d2 < n
            invariant
                self.wf(),
                c == self.code.nodes@,
                ind == grid(self.in_defs),
                n == c.len(),
                i < n,
                d < n,
                ind[i as int].len() == n,
                ind[d as int].len() == n,
                d2 <= n,
                ok <==> forall|x: int|
                    0 <= x < d2 && #[trigger] reaches(c, ind[i as int], slot2, x) ==> reaches(
                        c,
                        ind[d as int],
                        slot2,
                        x,
                    ),
            decreases n - d2,
        {
            let use_hit = self.in_defs[i][d2] && (match &self.code.nodes[d2] {
                Stmt::Store(s2, _) => *s2 == slot2,
                _ => false,
            });
            proof {
                assert(use_hit == reaches(c, ind[i as int], slot2, d2 as int));
            }
            if use_hit && !self.in_defs[d][d2] {
                ok = false;
                proof {
                    assert(!reaches(c, ind[d as int], slot2, d2 as int));
                }
            } else {
                proof {
                    if use_hit {
                        assert(reaches(c, ind[d as int], slot2, d2 as int));
                    }
                }
            }
            d2 += 1;
        }
        proof {
            if ok {
                assert forall|x: int|
                    #[trigger] reaches(c, ind[i as int], slot2, x) implies reaches(
                    c,
                    ind[d as int],
                    slot2,
                    x,
                ) by {}
            }
        }
        ok
    }

    /// Rewrites one expression read at statement `i`, as `rewrite_expr`
    /// prescribes.
    pub fn optimize_expr(&self, i: usize, expr: &Expr) -> (r: Expr)
        requires
            self.wf(),
            i < self.code.nodes@.len(),
        ensures
            r == rewrite_expr(self.code.nodes@, grid(self.in_defs), i as int, *expr),
        decreases *expr,
    {
        match expr {
            Expr::Int(v) => Expr::Int(*v),
            Expr::Add(lhs, rhs) => {
                let l2 = self.optimize_expr(i, lhs);
                let r2 = self.optimize_expr(i, rhs);
                let e2 = Expr::Add(Box::new(l2), Box::new(r2));
                if e2.is_const() {
                    Expr::Int(e2.to_value())
                } else {
                    e2
                }
            },
            Expr::Mul(lhs, rhs) => {
                let l2 = self.optimize_expr(i, lhs);
                let r2 = self.optimize_expr(i, rhs);
                let e2 = Expr::Mul(Box::new(l2), Box::new(r2));
                if e2.is_const() {
                    Expr::Int(e2.to_value())
                } else {
                    e2
                }
            },
            Expr::LoadCopy(slot) => {
                let slot = *slot;
                match self.unique_reaching(i, slot) {
                    Some(d0) => {
                        proof {
                            let t = the_reaching(
                                self.code.nodes@,
                                grid(self.in_defs)[i as int],
                                slot,
                            );
                            assert(reaches(
                                self.code.nodes@,
                                grid(self.in_defs)[i as int],
                                slot,
                                t,
                            ));
                        }
                        let ed: &Expr = match &self.code.nodes[d0] {
                            Stmt::Store(_, e) => e,
                            _ => unreached(),
                        };
                        match ed {
                            Expr::LoadCopy(slot2) => {
                                if self.copy_safe_check(i, d0, *slot2) {
                                    Expr::LoadCopy(*slot2)
                                } else {
                                    Expr::LoadCopy(slot)
                                }
                            },
                            _ => {
                                if ed.is_const() {
                                    Expr::Int(ed.to_value())
                                } else {
                                    Expr::LoadCopy(slot)
                                }
                            },
                        }
                    },
                    None => Expr::LoadCopy(slot),
                }
            },
        }
    }

    /// Rewrites one statement, as `rewrite_stmt` prescribes.
    pub fn optimize_stmt(&self, i: usize, stmt: &Stmt) -> (r: Stmt)
        requires
            self.wf(),
            i < self.code.nodes@.len(),
        ensures
            r == rewrite_stmt(self.code.nodes@, grid(self.in_defs), i as int, *stmt),
    {
        match stmt {
            Stmt::Store(slot, e) => Stmt::Store(*slot, self.optimize_expr(i, e)),
            Stmt::Expr(e) => Stmt::Expr(self.optimize_expr(i, e)),
            Stmt::JumpIfZero(e, l) => Stmt::JumpIfZero(self.optimize_expr(i, e), *l),
            Stmt::Print(e) => Stmt::Print(self.optimize_expr(i, e)),
            Stmt::Label(l) => Stmt::Label(*l),
            Stmt::Jump(l) => Stmt::Jump(*l),
        }
    }

    /// Solves reaching definitions and rewrites every statement against
    /// the least solution: the returned program is the input rewritten
    /// statement by statement.
    pub fn optimize(self) -> (r: Vec<Stmt>)
        requires
            self.wf(),
            all_false(grid(self.in_defs)),
            all_false(grid(self.out_defs)),
        ensures
            r@.len() == self.code.nodes@.len(),
            exists|ind: Seq<Seq<bool>>, outd: Seq<Seq<bool>>|
                #[trigger] is_least_solution(self.code.nodes@, ind, outd) && only_stores(
                    self.code.nodes@,
                    ind,
                ) && only_stores(self.code.nodes@, outd) && forall|j: int|
                    0 <= j < r@.len() ==> r@[j] == rewrite_stmt(
                        self.code.nodes@,
                        ind,
                        j,
                        self.code.nodes@[j],
                    ),
    {
        let ghost c = self.code.nodes@;
        let mut me = self;
        me.calc_reaching_definition();
        let ghost ind = grid(me.in_defs);
        let ghost outd = grid(me.out_defs);
        let n = me.code.len();
        let mut out: Vec<Stmt> = Vec::new();
        let mut j: usize = 0;
        while j < n
            invariant
                me.wf(),
                c == me.code.nodes@,
                n == c.len(),
                ind == grid(me.in_defs),
                j <= n,
                out@.len() == j,
                forall|k: int| 0 <= k < j ==> out@[k] == rewrite_stmt(c, ind, k, c[k]),
            decreases n - j,
        {
            let s = me.optimize_stmt(j, &me.code.nodes[j]);
            out.push(s);
            j += 1;
        }
        proof {
            assert(is_least_solution(c, ind, outd));
        }
        out
    }
}

/// An `n`-by-`n` matrix of cleared bits.
fn empty_grid(n: usize) -> (g: Vec<Vec<bool>>)
    ensures
        g@.len() == n,
        forall|i: int| 0 <= i < n ==> (#[trigger] g@[i]@).len() == n,
        all_false(grid(g)),
{
    let mut g: Vec<Vec<bool>> = Vec::new();
    let mut i: usize = 0;
    while i < n
        invariant
            i <= n,
            g@.len() == i,
            forall|j: int| 0 <= j < i ==> (#[trigger] g@[j]@).len() == n,
            forall|j: int, d: int| 0 <= j < i && 0 <= d < n ==> !(#[trigger] g@[j]@[d]),
        decreases n - i,
    {
        g.push(false_row(n));
        i += 1;
    }
    g
}

/// A row of `n` cleared bits.
fn false_row(n: usize) -> (r: Vec<bool>)
    ensures
        r@.len() == n,
        forall|d: int| 0 <= d < n ==> !(#[trigger] r@[d]),
{
    let mut r: Vec<bool> = Vec::new();
    let mut d: usize = 0;
    while d < n
        invariant
            d <= n,
            r@.len() == d,
            forall|j: int| 0 <= j < d ==> !(#[trigger] r@[j]),
        decreases n - d,
    {
        r.push(false);
        d += 1;
    }
    r
}

/// Whether two rows of equal length differ anywhere.
fn rows_differ(a: &Vec<bool>, b: &Vec<bool>) -> (r: bool)
    requires
        a@.len() == b@.len(),
    ensures
        r <==> exists|d: int| 0 <= d < a@.len() && a@[d] != b@[d],
{
    let mut d: usize = 0;
    while d < a.len()
        invariant
            a@.len() == b@.len(),
            d <= a@.len(),
            forall|j: int| 0 <= j < d ==> a@[j] == b@[j],
        decreases a@.len() - d,
    {
        if a[d] != b[d] {
            proof {
                assert(a@[d as int] != b@[d as int]);
            }
            return true;
        }
        d += 1;
    }
    false
}

} // verus!
