use opt_for_lang2::ir::BasicBlock;
use opt_for_lang2::ir::Expr;
use opt_for_lang2::ir::Label;
use opt_for_lang2::ir::Stmt;
use opt_for_lang2::ir::stmts_to_bbs;

#[test]
fn test_label_identity() {
    let l = Label::new(7);
    assert_eq!(l.as_usize(), 7);
    assert_eq!(Label::new(7), Label::new(7));
    assert_ne!(Label::new(7), Label::new(8));
}

#[test]
fn test_is_const() {
    assert!(Expr::Int(3).is_const());
    assert!(Expr::Add(Box::new(Expr::Int(1)), Box::new(Expr::Int(2))).is_const());
    assert!(!Expr::LoadCopy(0).is_const());
    assert!(!Expr::Mul(Box::new(Expr::Int(1)), Box::new(Expr::LoadCopy(2))).is_const());
}

#[test]
fn test_to_value_exact() {
    let e = Expr::Add(
        Box::new(Expr::Int(40)),
        Box::new(Expr::Mul(Box::new(Expr::Int(2)), Box::new(Expr::Int(3)))),
    );
    assert_eq!(e.to_value(), 46);
}

// The evaluator distributes over `Add` and `Mul` with wrapping semantics.
#[test]
fn test_to_value_wrapping() {
    let a = Expr::Add(Box::new(Expr::Int(i64::MAX)), Box::new(Expr::Int(1)));
    assert_eq!(a.to_value(), i64::MIN);
    assert_eq!(a.to_value(), i64::MAX.wrapping_add(1));

    let m = Expr::Mul(Box::new(Expr::Int(i64::MAX)), Box::new(Expr::Int(2)));
    assert_eq!(m.to_value(), i64::MAX.wrapping_mul(2));
    assert_eq!(m.to_value(), -2);

    let inner = Expr::Add(Box::new(Expr::Int(5)), Box::new(Expr::Int(7)));
    let outer = Expr::Mul(Box::new(inner.clone()), Box::new(Expr::Int(3)));
    assert_eq!(outer.to_value(), inner.to_value().wrapping_mul(3));
}

#[test]
fn test_is_label_is_jump() {
    let l = Label::new(0);
    assert!(Stmt::Label(l).is_label());
    assert!(!Stmt::Jump(l).is_label());
    assert!(Stmt::Jump(l).is_jump());
    assert!(Stmt::JumpIfZero(Expr::Int(0), l).is_jump());
    assert!(!Stmt::Store(0, Expr::Int(1)).is_jump());
    assert!(!Stmt::Print(Expr::Int(1)).is_jump());
}

#[test]
fn test_basic_block_new() {
    let b = BasicBlock::new();
    assert!(b.stmts.is_empty());
}

#[test]
fn test_stmts_to_bbs() {
    let l0 = Label::new(0);
    let l1 = Label::new(1);
    let code = vec![
        Stmt::Store(0, Expr::Int(30)),
        Stmt::Jump(l0),
        Stmt::Label(l1),
        Stmt::Expr(Expr::Add(Box::new(Expr::LoadCopy(0)), Box::new(Expr::LoadCopy(1)))),
        Stmt::Store(0, Expr::Int(5)),
        Stmt::Label(l0),
        Stmt::Store(1, Expr::Int(50)),
        Stmt::Print(Expr::LoadCopy(1)),
    ];
    let bbs = stmts_to_bbs(code);
    assert_eq!(bbs.len(), 3);
    // The first statement is no label, so a fresh one (above every label
    // number in the input) is prepended; the block ends at the jump.
    assert_eq!(
        bbs[0].stmts,
        vec![Stmt::Label(Label::new(2)), Stmt::Store(0, Expr::Int(30)), Stmt::Jump(l0)]
    );
    // The block at `l1` is closed by a synthetic jump to `l0`.
    assert_eq!(
        bbs[1].stmts,
        vec![
            Stmt::Label(l1),
            Stmt::Expr(Expr::Add(Box::new(Expr::LoadCopy(0)), Box::new(Expr::LoadCopy(1)))),
            Stmt::Store(0, Expr::Int(5)),
            Stmt::Jump(l0),
        ]
    );
    assert_eq!(
        bbs[2].stmts,
        vec![Stmt::Label(l0), Stmt::Store(1, Expr::Int(50)), Stmt::Print(Expr::LoadCopy(1))]
    );
}

#[test]
fn test_stmts_to_bbs_starts_with_label() {
    let l0 = Label::new(4);
    let code = vec![Stmt::Label(l0), Stmt::Store(0, Expr::Int(1))];
    let bbs = stmts_to_bbs(code);
    assert_eq!(bbs.len(), 1);
    assert_eq!(bbs[0].stmts, vec![Stmt::Label(l0), Stmt::Store(0, Expr::Int(1))]);
}
