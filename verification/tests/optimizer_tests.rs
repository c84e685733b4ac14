use opt_for_lang2::Optimizer;
use opt_for_lang2::code_to_graph;
use opt_for_lang2::ir::Expr;
use opt_for_lang2::ir::Label;
use opt_for_lang2::ir::Stmt;

fn add(l: Expr, r: Expr) -> Expr {
    Expr::Add(Box::new(l), Box::new(r))
}

fn mul(l: Expr, r: Expr) -> Expr {
    Expr::Mul(Box::new(l), Box::new(r))
}

// A redundant store is overwritten before its only use: the surviving
// store's constant propagates, while the loads of slots fed from the
// pseudo-argument stay loads and the product is not folded.
#[test]
fn redundant_store_dominates() {
    let code = vec![
        Stmt::Store(0, Expr::Int(10)),
        Stmt::Store(0, Expr::Int(40)),
        Stmt::Store(1, Expr::LoadCopy(-1)),
        Stmt::Store(2, Expr::LoadCopy(0)),
        Stmt::Expr(add(Expr::LoadCopy(2), mul(Expr::Int(20), Expr::LoadCopy(1)))),
    ];
    let out = Optimizer::new(code).optimize();
    assert_eq!(out[0], Stmt::Store(0, Expr::Int(10)));
    assert_eq!(out[1], Stmt::Store(0, Expr::Int(40)));
    assert_eq!(out[2], Stmt::Store(1, Expr::LoadCopy(-1)));
    assert_eq!(out[3], Stmt::Store(2, Expr::Int(40)));
    // The loads stay loads (nothing here is constant) and the product is
    // not folded; the copy rule does resolve them one step, to the slots
    // they were copied from.
    assert_eq!(
        out[4],
        Stmt::Expr(add(Expr::LoadCopy(0), mul(Expr::Int(20), Expr::LoadCopy(-1))))
    );
}

// Everything feeding the second store is constant, so stores fold; the
// copy of slot 0 into slot 2 is resolved by the copy rule, and the
// product of constants folds.
#[test]
fn full_constant_fold() {
    let code = vec![
        Stmt::Store(0, Expr::Int(10)),
        Stmt::Store(0, add(Expr::Int(40), Expr::Int(5))),
        Stmt::Store(1, Expr::Int(90)),
        Stmt::Store(2, Expr::LoadCopy(0)),
        Stmt::Expr(add(Expr::LoadCopy(2), mul(Expr::Int(20), Expr::LoadCopy(1)))),
    ];
    let out = Optimizer::new(code).optimize();
    assert_eq!(out[1], Stmt::Store(0, Expr::Int(45)));
    assert_eq!(out[3], Stmt::Store(2, Expr::Int(45)));
    // The unique definition reaching the copy is itself a copy, so the
    // copy rule fires first and stops; the constant product still folds.
    assert_eq!(out[4], Stmt::Expr(add(Expr::LoadCopy(0), Expr::Int(1800))));
}

// A copy across a path on which the source slot is not redefined is
// resolved to the source slot; the constant store propagates.
#[test]
fn copy_propagation_safe_path() {
    let code = vec![
        Stmt::Store(0, Expr::Int(10)),
        Stmt::Store(0, Expr::Int(20)),
        Stmt::Store(1, Expr::LoadCopy(0)),
        Stmt::Store(2, add(Expr::LoadCopy(1), Expr::Int(5))),
    ];
    let out = Optimizer::new(code).optimize();
    assert_eq!(out[2], Stmt::Store(1, Expr::Int(20)));
    // The load of slot 1 sees a unique defining copy from slot 0, and no
    // store of slot 0 lies between them: the copy rule rewrites the load
    // to slot 0 and stops there.
    assert_eq!(out[3], Stmt::Store(2, add(Expr::LoadCopy(0), Expr::Int(5))));
}

// The source slot is redefined between the copy and the use, so the copy
// rule must not fire.
#[test]
fn copy_propagation_blocked() {
    let code = vec![
        Stmt::Store(0, Expr::Int(10)),
        Stmt::Store(1, Expr::LoadCopy(0)),
        Stmt::Store(0, Expr::Int(99)),
        Stmt::Expr(Expr::LoadCopy(1)),
    ];
    let out = Optimizer::new(code).optimize();
    assert_eq!(out[1], Stmt::Store(1, Expr::Int(10)));
    assert_eq!(out[2], Stmt::Store(0, Expr::Int(99)));
    // Not rewritten to a load of slot 0.
    assert_ne!(out[3], Stmt::Expr(Expr::LoadCopy(0)));
    assert_eq!(out[3], Stmt::Expr(Expr::LoadCopy(1)));
}

// A loop's back edge brings a second definition of slot 0 to the label,
// so the load in the loop body does not reduce; the print's slot has one
// constant definition and reduces.
#[test]
fn loop_with_back_edge() {
    let l0 = Label::new(0);
    let l1 = Label::new(1);
    let code = vec![
        Stmt::Store(0, Expr::Int(30)),
        Stmt::Jump(l0),
        Stmt::Label(l1),
        Stmt::Expr(add(Expr::LoadCopy(0), Expr::LoadCopy(1))),
        Stmt::Store(0, Expr::Int(5)),
        Stmt::Label(l0),
        Stmt::Store(1, Expr::Int(50)),
        Stmt::Print(Expr::LoadCopy(1)),
    ];

    // Both stores of slot 0 reach the target label.
    let mut opt = Optimizer::new(code.clone());
    opt.calc_reaching_definition();
    assert!(opt.in_defs[5][0]);
    assert!(opt.in_defs[5][4]);

    let out = Optimizer::new(code).optimize();
    assert_eq!(out[3], Stmt::Expr(add(Expr::LoadCopy(0), Expr::LoadCopy(1))));
    assert_eq!(out[7], Stmt::Print(Expr::Int(50)));
}

// A slot with no stores at all is left alone.
#[test]
fn no_definitions_of_read_slot() {
    let code = vec![Stmt::Store(1, Expr::LoadCopy(-1))];
    let out = Optimizer::new(code).optimize();
    assert_eq!(out, vec![Stmt::Store(1, Expr::LoadCopy(-1))]);
}

// CFG edges: a `Jump` has exactly the edge to its label and no
// fall-through out of it; a `JumpIfZero` keeps both.
#[test]
fn cfg_edges_jump_and_fallthrough() {
    let l0 = Label::new(0);
    let code = vec![
        Stmt::Store(0, Expr::Int(1)),
        Stmt::Jump(l0),
        Stmt::Store(0, Expr::Int(2)),
        Stmt::Label(l0),
    ];
    let g = code_to_graph(code);
    assert_eq!(g.succ_indexes(0).clone(), vec![1]);
    assert_eq!(g.succ_indexes(1).clone(), vec![3]);
    assert_eq!(g.succ_indexes(2).clone(), vec![3]);
    let preds = g.pred_indexes(3).clone();
    assert!(preds.contains(&1) && preds.contains(&2));
    assert_eq!(preds.len(), 2);
}

#[test]
fn cfg_edges_jump_if_zero() {
    let l0 = Label::new(0);
    let code = vec![
        Stmt::Label(l0),
        Stmt::JumpIfZero(Expr::LoadCopy(0), l0),
        Stmt::Print(Expr::Int(1)),
    ];
    let g = code_to_graph(code);
    let succ = g.succ_indexes(1).clone();
    assert!(succ.contains(&0) && succ.contains(&2));
    assert_eq!(succ.len(), 2);
}

// The solved sets obey the transfer function: each store reaches its own
// exit, a later store of the same slot kills the earlier one, and what
// leaves a node arrives at its successor.
#[test]
fn solver_gen_kill_and_flow() {
    let code = vec![
        Stmt::Store(0, Expr::Int(1)),
        Stmt::Store(0, Expr::Int(2)),
        Stmt::Store(1, Expr::Int(3)),
    ];
    let mut opt = Optimizer::new(code);
    opt.calc_reaching_definition();
    assert!(opt.out_defs[0][0]);
    assert!(opt.out_defs[1][1]);
    assert!(!opt.out_defs[1][0]); // killed by the second store
    assert!(opt.out_defs[2][1] && opt.out_defs[2][2]);
    assert!(opt.in_defs[1][0]); // OUT[0] flows into IN[1]
    assert!(opt.in_defs[2][1]);
    assert!(!opt.in_defs[0][0]); // entry sees nothing
}

// A jump condition is rewritten like any other expression.
#[test]
fn jump_condition_rewritten() {
    let l0 = Label::new(0);
    let code = vec![
        Stmt::Store(0, Expr::Int(0)),
        Stmt::JumpIfZero(Expr::LoadCopy(0), l0),
        Stmt::Print(Expr::Int(7)),
        Stmt::Label(l0),
    ];
    let out = Optimizer::new(code).optimize();
    assert_eq!(out[1], Stmt::JumpIfZero(Expr::Int(0), l0));
}

#[test]
fn optimize_empty_program() {
    let out = Optimizer::new(vec![]).optimize();
    assert!(out.is_empty());
}

// Constant folding uses wrapping two's-complement arithmetic.
#[test]
fn folding_wraps_on_overflow() {
    let code = vec![Stmt::Store(0, add(Expr::Int(i64::MAX), Expr::Int(1)))];
    let out = Optimizer::new(code).optimize();
    assert_eq!(out[0], Stmt::Store(0, Expr::Int(i64::MIN)));

    let code = vec![Stmt::Print(mul(Expr::Int(i64::MAX), Expr::Int(2)))];
    let out = Optimizer::new(code).optimize();
    assert_eq!(out[0], Stmt::Print(Expr::Int(-2)));
}

// A conditional jump to the directly following label: the jump edge and
// the fall-through edge coincide, and edges are sets, so one edge remains.
#[test]
fn cfg_edge_sets_collapse() {
    let l0 = Label::new(0);
    let code = vec![Stmt::JumpIfZero(Expr::Int(0), l0), Stmt::Label(l0)];
    let g = code_to_graph(code);
    assert_eq!(g.succ_indexes(0).clone(), vec![1]);
    assert_eq!(g.pred_indexes(1).clone(), vec![0]);
}

// A program without loads is already a fixed point of the rewrite: a
// second optimization changes nothing.
#[test]
fn optimize_twice_no_loads() {
    let code = vec![
        Stmt::Store(0, add(Expr::Int(1), Expr::Int(2))),
        Stmt::Print(mul(Expr::Int(3), Expr::Int(4))),
    ];
    let once = Optimizer::new(code).optimize();
    assert_eq!(once[0], Stmt::Store(0, Expr::Int(3)));
    assert_eq!(once[1], Stmt::Print(Expr::Int(12)));
    let twice = Optimizer::new(once.clone()).optimize();
    assert_eq!(twice, once);
}
