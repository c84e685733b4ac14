use opt_for_lang2::ir::Expr;
use opt_for_lang2::ir::Label;
use opt_for_lang2::ir::Stmt;
use opt_for_lang2::vm::Inst;
use opt_for_lang2::vm::VM;
use opt_for_lang2::vm::ir_to_insts;

#[test]
fn test_lowering_straight_line() {
    let code = vec![
        Stmt::Store(0, Expr::Int(30)),
        Stmt::Expr(Expr::Add(Box::new(Expr::LoadCopy(0)), Box::new(Expr::Int(2)))),
        Stmt::Print(Expr::LoadCopy(0)),
    ];
    let insts = ir_to_insts(&code);
    assert_eq!(
        insts,
        vec![
            Inst::Int(30),
            Inst::Store(0),
            Inst::LoadCopy(0),
            Inst::Int(2),
            Inst::Add,
            Inst::LoadCopy(0),
            Inst::Call(0),
        ]
    );
}

// A jump's operand is patched from the label number to the position of
// the instruction following the label.
#[test]
fn test_lowering_patches_jumps() {
    let l0 = Label::new(9);
    let code = vec![
        Stmt::Store(0, Expr::Int(30)),
        Stmt::Jump(l0),
        Stmt::Label(l0),
        Stmt::Print(Expr::LoadCopy(0)),
    ];
    let insts = ir_to_insts(&code);
    assert_eq!(
        insts,
        vec![Inst::Int(30), Inst::Store(0), Inst::Jump(3), Inst::LoadCopy(0), Inst::Call(0)]
    );
}

#[test]
fn test_lowering_jump_if_zero() {
    let l0 = Label::new(3);
    let code = vec![
        Stmt::Label(l0),
        Stmt::JumpIfZero(Expr::Mul(Box::new(Expr::Int(2)), Box::new(Expr::Int(0))), l0),
    ];
    let insts = ir_to_insts(&code);
    assert_eq!(insts, vec![Inst::Int(2), Inst::Int(0), Inst::Mul, Inst::JumpIfZero(0)]);
}

#[test]
fn test_vm_new() {
    let vm = VM::new();
    assert_eq!(vm.variables.len(), 50);
    assert_eq!(vm.stack.len(), 500);
    assert!(vm.variables.iter().all(|v| *v == 0));
    assert!(vm.stack.iter().all(|v| *v == 0));
}
