//! Lowering from the IR to the stack machine's instruction stream. The
//! machine itself is a downstream collaborator; this module fixes the
//! instruction set and the two-pass lowering (emit, then patch jump
//! targets from label numbers to instruction positions).

use vstd::prelude::*;

use crate::ir::Expr;
use crate::ir::Label;
use crate::ir::Stmt;
use crate::declares;
use crate::label_index;
use crate::wf_program;

verus! {

/// One stack-machine instruction. In `Jump` and `JumpIfZero` the operand
/// is a label number before patching and an instruction position after.
#[derive(Clone, Copy, PartialEq, Eq, Structural, Debug)]
#[non_exhaustive]
pub enum Inst {
    Int(i64),
    Add,
    Mul,
    Store(isize),
    LoadCopy(isize),
    Jump(usize),
    JumpIfZero(usize),
    Call(usize),
}

/// The postfix emission of one expression.
pub open spec fn insts_of_expr(e: Expr) -> Seq<Inst>
    decreases e,
{
    match e {
        Expr::Int(n) => seq![Inst::Int(n)],
        Expr::Add(l, r) => insts_of_expr(*l) + insts_of_expr(*r) + seq![Inst::Add],
        Expr::Mul(l, r) => insts_of_expr(*l) + insts_of_expr(*r) + seq![Inst::Mul],
        Expr::LoadCopy(loc) => seq![Inst::LoadCopy(loc)],
    }
}

/// The unpatched emission of one statement: jumps still carry label
/// numbers, a label emits nothing, and `Print` becomes the machine's
/// call number zero.
pub open spec fn insts_of_stmt(s: Stmt) -> Seq<Inst> {
    match s {
        Stmt::Store(loc, e) => insts_of_expr(e) + seq![Inst::Store(loc)],
        Stmt::Expr(e) => insts_of_expr(e),
        Stmt::Label(_) => Seq::empty(),
        Stmt::Jump(l) => seq![Inst::Jump(l.0)],
        Stmt::JumpIfZero(e, l) => insts_of_expr(e) + seq![Inst::JumpIfZero(l.0)],
        Stmt::Print(e) => insts_of_expr(e) + seq![Inst::Call(0)],
    }
}

/// The unpatched emission of a whole program.
pub open spec fn insts_of_prog(stmts: Seq<Stmt>) -> Seq<Inst>
    decreases stmts.len(),
{
    if stmts.len() == 0 {
        Seq::empty()
    } else {
        insts_of_prog(stmts.drop_last()) + insts_of_stmt(stmts.last())
    }
}

/// The instruction position a label lands on: the number of instructions
/// emitted before its declaring statement.
pub open spec fn label_pos(stmts: Seq<Stmt>, l: Label) -> int {
    insts_of_prog(stmts.subrange(0, label_index(stmts, l))).len() as int
}

/// Patching one instruction: jump operands turn from label numbers into
/// instruction positions.
pub open spec fn patch_inst(stmts: Seq<Stmt>, inst: Inst) -> Inst {
    match inst {
        Inst::Jump(id) => Inst::Jump(label_pos(stmts, Label(id)) as usize),
        Inst::JumpIfZero(id) => Inst::JumpIfZero(label_pos(stmts, Label(id)) as usize),
        _ => inst,
    }
}

/// The fully lowered instruction stream.
pub open spec fn lowered(stmts: Seq<Stmt>) -> Seq<Inst> {
    Seq::new(insts_of_prog(stmts).len(), |t: int| patch_inst(stmts, insts_of_prog(stmts)[t]))
}

/// Emitted expression code holds no jump instructions.
proof fn lemma_expr_insts_no_jumps(e: Expr)
    ensures
        forall|t: int|
            0 <= t < insts_of_expr(e).len() ==> !((#[trigger] insts_of_expr(e)[t]) is Jump)
                && !(insts_of_expr(e)[t] is JumpIfZero),
    decreases e,
{
    match e {
        Expr::Int(_) => {},
        Expr::Add(l, r) => {
            lemma_expr_insts_no_jumps(*l);
            lemma_expr_insts_no_jumps(*r);
        },
        Expr::Mul(l, r) => {
            lemma_expr_insts_no_jumps(*l);
            lemma_expr_insts_no_jumps(*r);
        },
        Expr::LoadCopy(_) => {},
    }
}

/// Every jump instruction in the unpatched stream carries the number of a
/// label that some jump statement targets.
proof fn lemma_prog_insts_jumps(stmts: Seq<Stmt>)
    ensures
        forall|t: int|
            0 <= t < insts_of_prog(stmts).len() && ((#[trigger] insts_of_prog(stmts)[t]) is Jump
                || insts_of_prog(stmts)[t] is JumpIfZero) ==> exists|j: int|
                0 <= j < stmts.len() && jump_operand_of(stmts[j], insts_of_prog(stmts)[t]),
    decreases stmts.len(),
{
    if stmts.len() > 0 {
        lemma_prog_insts_jumps(stmts.drop_last());
        let pre = insts_of_prog(stmts.drop_last());
        let s = stmts.last();
        assert forall|t: int|
            0 <= t < insts_of_prog(stmts).len() && ((#[trigger] insts_of_prog(stmts)[t]) is Jump
                || insts_of_prog(stmts)[t] is JumpIfZero) implies exists|j: int|
            0 <= j < stmts.len() && jump_operand_of(stmts[j], insts_of_prog(stmts)[t]) by {
            let inst = insts_of_prog(stmts)[t];
            if t < pre.len() {
                assert(pre[t] == inst);
                let j = choose|j: int|
                    0 <= j < stmts.drop_last().len() && jump_operand_of(stmts.drop_last()[j], inst);
                assert(stmts[j] == stmts.drop_last()[j]);
                assert(jump_operand_of(stmts[j], inst));
            } else {
                let u = t - pre.len();
                assert(insts_of_stmt(s)[u] == inst);
                match s {
                    Stmt::Store(_, e) => {
                        lemma_expr_insts_no_jumps(e);
                        assert(!(inst is Jump) && !(inst is JumpIfZero));
                    },
                    Stmt::Expr(e) => {
                        lemma_expr_insts_no_jumps(e);
                    },
                    Stmt::Label(_) => {},
                    Stmt::Jump(_) => {
                        assert(jump_operand_of(stmts[stmts.len() - 1], inst));
                    },
                    Stmt::JumpIfZero(e, _) => {
                        lemma_expr_insts_no_jumps(e);
                        if u == insts_of_stmt(s).len() - 1 {
                            assert(jump_operand_of(stmts[stmts.len() - 1], inst));
                        }
                    },
                    Stmt::Print(e) => {
                        lemma_expr_insts_no_jumps(e);
                    },
                }
            }
        }
    }
}

/// The statement is a jump whose target label number is the instruction's
/// operand.
pub open spec fn jump_operand_of(s: Stmt, inst: Inst) -> bool {
    ||| (s is Jump && inst is Jump && s->Jump_0.0 == inst->Jump_0)
    ||| (s is Jump && inst is JumpIfZero && s->Jump_0.0 == inst->JumpIfZero_0)
    ||| (s is JumpIfZero && inst is Jump && s->JumpIfZero_1.0 == inst->Jump_0)
    ||| (s is JumpIfZero && inst is JumpIfZero && s->JumpIfZero_1.0 == inst->JumpIfZero_0)
}

/// Emits the postfix code of one expression.
fn expr_to_insts(insts: &mut Vec<Inst>, expr: &Expr)
    ensures
        final(insts)@ == old(insts)@ + insts_of_expr(*expr),
    decreases *expr,
{
    match expr {
        Expr::Int(n) => {
            insts.push(Inst::Int(*n));
            proof {
                assert(final(insts)@ =~= old(insts)@ + insts_of_expr(*expr));
            }
        },
        Expr::Add(lhs, rhs) => {
            expr_to_insts(insts, lhs);
            expr_to_insts(insts, rhs);
            insts.push(Inst::Add);
            proof {
                assert(final(insts)@ =~= old(insts)@ + insts_of_expr(*expr));
            }
        },
        Expr::Mul(lhs, rhs) => {
            expr_to_insts(insts, lhs);
            expr_to_insts(insts, rhs);
            insts.push(Inst::Mul);
            proof {
                assert(final(insts)@ =~= old(insts)@ + insts_of_expr(*expr));
            }
        },
        Expr::LoadCopy(loc) => {
            insts.push(Inst::LoadCopy(*loc));
            proof {
                assert(final(insts)@ =~= old(insts)@ + insts_of_expr(*expr));
            }
        },
    }
}

/// Emits one statement; a label emits nothing (its position is the
/// current length of the stream).
fn stmt_to_insts(insts: &mut Vec<Inst>, stmt: &Stmt)
    ensures
        final(insts)@ == old(insts)@ + insts_of_stmt(*stmt),
{
    match stmt {
        Stmt::Expr(e) => {
            expr_to_insts(insts, e);
            proof {
                assert(final(insts)@ =~= old(insts)@ + insts_of_stmt(*stmt));
            }
        },
        Stmt::Store(loc, e) => {
            expr_to_insts(insts, e);
            insts.push(Inst::Store(*loc));
            proof {
                assert(final(insts)@ =~= old(insts)@ + insts_of_stmt(*stmt));
            }
        },
        Stmt::Label(_) => {
            proof {
                assert(final(insts)@ =~= old(insts)@ + insts_of_stmt(*stmt));
            }
        },
        Stmt::Jump(l) => {
            insts.push(Inst::Jump(l.0));
            proof {
                assert(final(insts)@ =~= old(insts)@ + insts_of_stmt(*stmt));
            }
        },
        Stmt::JumpIfZero(e, l) => {
            expr_to_insts(insts, e);
            insts.push(Inst::JumpIfZero(l.0));
            proof {
                assert(final(insts)@ =~= old(insts)@ + insts_of_stmt(*stmt));
            }
        },
        Stmt::Print(e) => {
            expr_to_insts(insts, e);
            insts.push(Inst::Call(0));
            proof {
                assert(final(insts)@ =~= old(insts)@ + insts_of_stmt(*stmt));
            }
        },
    }
}

/// Lowers a program to the machine's instructions: emit each statement in
/// order, then patch every jump operand from a label number to the
/// position of the instruction following that label.
#[verifier::rlimit(60)]
pub fn ir_to_insts(stmts: &Vec<Stmt>) -> (r: Vec<Inst>)
    requires
        wf_program(stmts@),
    ensures
        r@ == lowered(stmts@),
{
    let ghost orig = stmts@;
    let n = stmts.len();
    let mut insts: Vec<Inst> = Vec::new();
    // `positions[j]` is where the code of statement `j` begins.
    let mut positions: Vec<usize> = Vec::new();
    let mut k: usize = 0;
    while k < n
        invariant
            n == orig.len(),
            stmts@ == orig,
            k <= n,
            insts@ == insts_of_prog(orig.subrange(0, k as int)),
            positions@.len() == k,
            forall|j: int|
                0 <= j < k ==> (#[trigger] positions@[j]) == insts_of_prog(
                    orig.subrange(0, j),
                ).len(),
        decreases n - k,
    {
        proof {
            assert(orig.subrange(0, k + 1).drop_last() =~= orig.subrange(0, k as int));
            assert(orig.subrange(0, k + 1).last() == orig[k as int]);
        }
        positions.push(insts.len());
        stmt_to_insts(&mut insts, &stmts[k]);
        k += 1;
    }
    proof {
        assert(orig.subrange(0, n as int) =~= orig);
    }

    // Patch pass: rewrite each jump operand.
    let ghost emitted = insts@;
    let total = insts.len();
    let mut idx: usize = 0;
    proof {
        lemma_prog_insts_jumps(orig);
    }
    while idx < total
        invariant
            wf_program(orig),
            stmts@ == orig,
            n == orig.len(),
            emitted == insts_of_prog(orig),
            total == emitted.len(),
            idx <= total,
            insts@.len() == total,
            positions@.len() == n,
            forall|j: int|
                0 <= j < n ==> (#[trigger] positions@[j]) == insts_of_prog(
                    orig.subrange(0, j),
                ).len(),
            forall|t: int| 0 <= t < idx ==> insts@[t] == patch_inst(orig, emitted[t]),
            forall|t: int| idx <= t < total ==> insts@[t] == emitted[t],
            forall|t: int|
                0 <= t < total && ((#[trigger] emitted[t]) is Jump || emitted[t] is JumpIfZero)
                    ==> exists|j: int| 0 <= j < orig.len() && jump_operand_of(orig[j], emitted[t]),
        decreases total - idx,
    {
        let id_opt: Option<usize> = match &insts[idx] {
            Inst::Jump(id) => Some(*id),
            Inst::JumpIfZero(id) => Some(*id),
            _ => None,
        };
        if let Some(id) = id_opt {
            proof {
                // The operand names a declared label.
                let j = choose|j: int|
                    0 <= j < orig.len() && jump_operand_of(orig[j], emitted[idx as int]);
                if orig[j] is Jump {
                    assert(exists|j2: int| declares(orig, j2, orig[j]->Jump_0));
                } else {
                    assert(exists|j2: int| declares(orig, j2, orig[j]->JumpIfZero_1));
                }
                let j2 = choose|j2: int| declares(orig, j2, Label(id));
                assert(declares(orig, j2, Label(id)));
            }
            let dest = crate::find_label(stmts, Label::new(id));
            let pos = positions[dest];
            proof {
                assert(pos == label_pos(orig, Label(id)));
            }
            let newinst = match &insts[idx] {
                Inst::Jump(_) => Inst::Jump(pos),
                _ => Inst::JumpIfZero(pos),
            };
            insts.set(idx, newinst);
        }
        idx += 1;
    }
    proof {
        assert(insts@ =~= lowered(orig));
    }
    insts
}

pub const STACK_SIZE: usize = 500;

pub const MAX_VARIABLES: usize = 50;

/// The stack machine's storage: a fixed bank of variable slots and an
/// operand stack. Running the instruction stream is the collaborator's
/// job, outside this library.
pub struct VM {
    pub variables: Vec<i64>,
    pub stack: Vec<i64>,
}

impl VM {
    pub fn new() -> (vm: VM)
        ensures
            vm.variables@.len() == MAX_VARIABLES,
            vm.stack@.len() == STACK_SIZE,
            forall|i: int| 0 <= i < vm.variables@.len() ==> (#[trigger] vm.variables@[i]) == 0,
            forall|i: int| 0 <= i < vm.stack@.len() ==> (#[trigger] vm.stack@[i]) == 0,
    {
        VM { variables: zero_vec(MAX_VARIABLES), stack: zero_vec(STACK_SIZE) }
    }
}

/// A bank of `n` zeroed cells.
fn zero_vec(n: usize) -> (r: Vec<i64>)
    ensures
        r@.len() == n,
        forall|i: int| 0 <= i < n ==> (#[trigger] r@[i]) == 0,
{
    let mut r: Vec<i64> = Vec::new();
    let mut i: usize = 0;
    while i < n
        invariant
            i <= n,
            r@.len() == i,
            forall|j: int| 0 <= j < i ==> (#[trigger] r@[j]) == 0,
        decreases n - i,
    {
        r.push(0);
        i += 1;
    }
    r
}

} // verus!
