//! The intermediate representation: expressions, statements, labels and
//! basic blocks, together with the constant predicate and the wrapping
//! constant evaluator.

use vstd::prelude::*;

verus! {

/// A jump target. Identity is the carried number; callers keep label
/// numbers distinct within a program.
#[derive(Clone, Copy, PartialEq, Eq, Structural, Hash, Debug)]
pub struct Label(pub usize);

impl Label {
    /// Mints the label with the given identity. Consumers rely on identity
    /// equality only, so any scheme that hands out distinct numbers works.
    pub fn new(id: usize) -> (l: Label)
        ensures
            l == Label(id),
    {
        Label(id)
    }

    pub fn as_usize(&self) -> (id: usize)
        ensures
            id == self.0,
    {
        self.0
    }
}

/// An expression tree over 64-bit signed integers.
#[derive(PartialEq, Eq, Debug)]
pub enum Expr {
    Int(i64),
    Add(Box<Expr>, Box<Expr>),
    Mul(Box<Expr>, Box<Expr>),
    LoadCopy(isize),
}

/// An expression is constant when every leaf is a literal.
pub open spec fn expr_is_const(e: Expr) -> bool
    decreases e,
{
    match e {
        Expr::Int(_) => true,
        Expr::Add(l, r) => expr_is_const(*l) && expr_is_const(*r),
        Expr::Mul(l, r) => expr_is_const(*l) && expr_is_const(*r),
        Expr::LoadCopy(_) => false,
    }
}

/// The value of a constant expression, under wrapping two's-complement
/// arithmetic. On a `LoadCopy` leaf (never constant) it is zero.
pub open spec fn eval_expr(e: Expr) -> i64
    decreases e,
{
    match e {
        Expr::Int(n) => n,
        Expr::Add(l, r) => vstd::wrapping::i64_specs::wrapping_add(eval_expr(*l), eval_expr(*r)),
        Expr::Mul(l, r) => vstd::wrapping::i64_specs::wrapping_mul(eval_expr(*l), eval_expr(*r)),
        Expr::LoadCopy(_) => 0,
    }
}

impl Expr {
    pub fn is_const(&self) -> (b: bool)
        ensures
            b == expr_is_const(*self),
        decreases *self,
    {
        match self {
            Expr::Int(_) => true,
            Expr::Add(lhs, rhs) => lhs.is_const() && rhs.is_const(),
            Expr::Mul(lhs, rhs) => lhs.is_const() && rhs.is_const(),
            Expr::LoadCopy(_) => false,
        }
    }

    /// Evaluates a constant expression, wrapping on overflow.
    pub fn to_value(&self) -> (v: i64)
        requires
            expr_is_const(*self),
        ensures
            v == eval_expr(*self),
        decreases *self,
    {
        match self {
            Expr::Int(n) => *n,
            Expr::Add(lhs, rhs) => lhs.to_value().wrapping_add(rhs.to_value()),
            Expr::Mul(lhs, rhs) => lhs.to_value().wrapping_mul(rhs.to_value()),
            Expr::LoadCopy(_) => 0,
        }
    }
}

/// The sum of two constant trees evaluates to the wrapping sum of their
/// values.
pub proof fn lemma_eval_add(a: Expr, b: Expr)
    ensures
        eval_expr(Expr::Add(Box::new(a), Box::new(b)))
            == vstd::wrapping::i64_specs::wrapping_add(eval_expr(a), eval_expr(b)),
{
}

/// The product of two constant trees evaluates to the wrapping product of
/// their values.
pub proof fn lemma_eval_mul(a: Expr, b: Expr)
    ensures
        eval_expr(Expr::Mul(Box::new(a), Box::new(b)))
            == vstd::wrapping::i64_specs::wrapping_mul(eval_expr(a), eval_expr(b)),
{
}

/// Duplicates an expression tree.
pub fn dup_expr(e: &Expr) -> (r: Expr)
    ensures
        r == *e,
    decreases *e,
{
    match e {
        Expr::Int(n) => Expr::Int(*n),
        Expr::Add(lhs, rhs) => Expr::Add(Box::new(dup_expr(lhs)), Box::new(dup_expr(rhs))),
        Expr::Mul(lhs, rhs) => Expr::Mul(Box::new(dup_expr(lhs)), Box::new(dup_expr(rhs))),
        Expr::LoadCopy(loc) => Expr::LoadCopy(*loc),
    }
}

/// A statement of the linear IR. `Store` is the sole definer of a slot.
#[derive(PartialEq, Eq, Debug)]
pub enum Stmt {
    Store(isize, Expr),
    Expr(Expr),
    Label(Label),
    Jump(Label),
    JumpIfZero(Expr, Label),
    Print(Expr),
}

impl Stmt {
    pub fn is_label(&self) -> (b: bool)
        ensures
            b == (*self is Label),
    {
        match self {
            Stmt::Label(_) => true,
            _ => false,
        }
    }

    /// Whether the statement transfers control, conditionally or not.
    pub fn is_jump(&self) -> (b: bool)
        ensures
            b == (*self is Jump || *self is JumpIfZero),
    {
        match self {
            Stmt::Jump(_) => true,
            Stmt::JumpIfZero(_, _) => true,
            _ => false,
        }
    }
}

impl Clone for Expr {
    fn clone(&self) -> (r: Self)
        ensures
            r == *self,
    {
        dup_expr(self)
    }
}

impl Clone for Stmt {
    fn clone(&self) -> (r: Self)
        ensures
            r == *self,
    {
        dup_stmt(self)
    }
}

/// A maximal straight-line run of statements: it begins with a label and,
/// except possibly for the last block, ends with a jump.
pub struct BasicBlock {
    pub stmts: Vec<Stmt>,
}

impl BasicBlock {
    pub fn new() -> (b: BasicBlock)
        ensures
            b.stmts@.len() == 0,
    {
        BasicBlock { stmts: Vec::new() }
    }
}

/// The blocks as sequences of statements.
pub open spec fn bbs_view(bbs: Seq<BasicBlock>) -> Seq<Seq<Stmt>> {
    Seq::new(bbs.len(), |i: int| bbs[i].stmts@)
}

/// A statement transfers control (conditionally or not).
pub open spec fn stmt_is_jump(s: Stmt) -> bool {
    s is Jump || s is JumpIfZero
}

/// The segmentation of `stmts[k..]`, with `curr` the open block (`open`
/// says whether one is open) and `fresh` the next label number to mint.
/// A block opens at a label, or at any other statement with a freshly
/// minted label prepended; it closes at a jump, synthesizing one when the
/// next statement is a label.
pub open spec fn segment_from(
    stmts: Seq<Stmt>,
    k: int,
    curr: Seq<Stmt>,
    open: bool,
    fresh: int,
) -> Seq<Seq<Stmt>>
    decreases stmts.len() - k,
{
    if k < 0 || k >= stmts.len() {
        if open {
            seq![curr]
        } else {
            Seq::empty()
        }
    } else {
        let s = stmts[k];
        if !open {
            if s is Label {
                segment_from(stmts, k + 1, seq![s], true, fresh)
            } else if stmt_is_jump(s) {
                seq![seq![Stmt::Label(Label(fresh as usize)), s]] + segment_from(
                    stmts,
                    k + 1,
                    Seq::empty(),
                    false,
                    fresh + 1,
                )
            } else {
                segment_from(stmts, k + 1, seq![Stmt::Label(Label(fresh as usize)), s], true, fresh + 1)
            }
        } else {
            if s is Label {
                seq![curr.push(Stmt::Jump(s->Label_0))] + segment_from(
                    stmts,
                    k + 1,
                    seq![s],
                    true,
                    fresh,
                )
            } else if stmt_is_jump(s) {
                seq![curr.push(s)] + segment_from(stmts, k + 1, Seq::empty(), false, fresh)
            } else {
                segment_from(stmts, k + 1, curr.push(s), true, fresh)
            }
        }
    }
}

/// The largest label number declared in `stmts`, or zero.
pub open spec fn max_label(stmts: Seq<Stmt>) -> int
    decreases stmts.len(),
{
    if stmts.len() == 0 {
        0
    } else {
        let rest = max_label(stmts.drop_last());
        let s = stmts.last();
        if s is Label && s->Label_0.0 > rest {
            s->Label_0.0 as int
        } else {
            rest
        }
    }
}

/// Splits a statement list into basic blocks. Fresh labels are minted
/// above every label number in the input, so they collide with none of
/// them.
pub fn stmts_to_bbs(stmts: Vec<Stmt>) -> (r: Vec<BasicBlock>)
    requires
        max_label(stmts@) + stmts@.len() + 1 <= usize::MAX,
    ensures
        bbs_view(r@) == segment_from(stmts@, 0, Seq::empty(), false, max_label(stmts@) + 1),
{
    let ghost orig = stmts@;
    let n = stmts.len();
    let base = max_label_exec(&stmts);
    let mut fresh: usize = base + 1;
    let mut bbs: Vec<BasicBlock> = Vec::new();
    let mut curr: Vec<Stmt> = Vec::new();
    let mut open = false;
    let mut stmts = stmts;
    let mut k: usize = 0;
    while k < n
        invariant
            n == orig.len(),
            stmts@ == orig,
            k <= n,
            max_label(orig) + orig.len() + 1 <= usize::MAX,
            fresh <= max_label(orig) + 1 + k,
            bbs_view(bbs@) + segment_from(orig, k as int, curr@, open, fresh as int)
                =~~= segment_from(orig, 0, Seq::empty(), false, max_label(orig) + 1),
            !open ==> curr@.len() == 0,
        decreases n - k,
    {
        let s = dup_stmt(&stmts[k]);
        let ghost pre_bbs = bbs_view(bbs@);
        let ghost pre_curr = curr@;
        let ghost pre_open = open;
        let ghost f = fresh as int;
        let is_label = s.is_label();
        let is_jump = s.is_jump();
        if !open {
            if is_label {
                curr.push(s);
                open = true;
            } else {
                curr.push(Stmt::Label(Label(fresh)));
                curr.push(s);
                fresh += 1;
                if is_jump {
                    bbs.push(BasicBlock { stmts: curr });
                    curr = Vec::new();
                } else {
                    open = true;
                }
            }
        } else {
            if is_label {
                let l = match &s {
                    Stmt::Label(l2) => *l2,
                    _ => unreached(),
                };
                curr.push(Stmt::Jump(l));
                bbs.push(BasicBlock { stmts: curr });
                curr = Vec::new();
                curr.push(s);
            } else {
                curr.push(s);
                if is_jump {
                    bbs.push(BasicBlock { stmts: curr });
                    curr = Vec::new();
                    open = false;
                }
            }
        }
        proof {
            let total = segment_from(orig, 0, Seq::empty(), false, max_label(orig) + 1);
            let sk = orig[k as int];
            let rest = segment_from(orig, k + 1, curr@, open, fresh as int);
            if !pre_open {
                if sk is Label {
                    assert(curr@ =~= seq![sk]);
                    assert(segment_from(orig, k as int, pre_curr, false, f) == segment_from(
                        orig,
                        k + 1,
                        seq![sk],
                        true,
                        f,
                    ));
                    assert(bbs_view(bbs@) + rest =~~= pre_bbs + segment_from(
                        orig,
                        k as int,
                        pre_curr,
                        false,
                        f,
                    ));
                } else {
                    let blk = seq![Stmt::Label(Label(f as usize)), sk];
                    if stmt_is_jump(sk) {
                        assert(bbs@.last().stmts@ =~= blk);
                        assert(bbs_view(bbs@) =~= pre_bbs.push(blk));
                        assert(curr@ =~= Seq::<Stmt>::empty());
                        assert(segment_from(orig, k as int, pre_curr, false, f) == seq![blk]
                            + segment_from(orig, k + 1, Seq::empty(), false, f + 1));
                        assert(pre_bbs.push(blk) + rest =~~= pre_bbs + (seq![blk] + rest));
                        assert(bbs_view(bbs@) + rest =~~= pre_bbs + segment_from(
                            orig,
                            k as int,
                            pre_curr,
                            false,
                            f,
                        ));
                    } else {
                        assert(curr@ =~= blk);
                        assert(segment_from(orig, k as int, pre_curr, false, f) == segment_from(
                            orig,
                            k + 1,
                            blk,
                            true,
                            f + 1,
                        ));
                        assert(bbs_view(bbs@) + rest =~~= pre_bbs + segment_from(
                            orig,
                            k as int,
                            pre_curr,
                            false,
                            f,
                        ));
                    }
                }
            } else {
                if sk is Label {
                    let blk = pre_curr.push(Stmt::Jump(sk->Label_0));
                    assert(bbs@.last().stmts@ =~= blk);
                    assert(bbs_view(bbs@) =~= pre_bbs.push(blk));
                    assert(curr@ =~= seq![sk]);
                    assert(segment_from(orig, k as int, pre_curr, true, f) == seq![blk]
                        + segment_from(orig, k + 1, seq![sk], true, f));
                    assert(pre_bbs.push(blk) + rest =~~= pre_bbs + (seq![blk] + rest));
                    assert(bbs_view(bbs@) + rest =~~= pre_bbs + segment_from(
                        orig,
                        k as int,
                        pre_curr,
                        true,
                        f,
                    ));
                } else if stmt_is_jump(sk) {
                    let blk = pre_curr.push(sk);
                    assert(bbs@.last().stmts@ =~= blk);
                    assert(bbs_view(bbs@) =~= pre_bbs.push(blk));
                    assert(curr@ =~= Seq::<Stmt>::empty());
                    assert(segment_from(orig, k as int, pre_curr, true, f) == seq![blk]
                        + segment_from(orig, k + 1, Seq::empty(), false, f));
                    assert(pre_bbs.push(blk) + rest =~~= pre_bbs + (seq![blk] + rest));
                    assert(bbs_view(bbs@) + rest =~~= pre_bbs + segment_from(
                        orig,
                        k as int,
                        pre_curr,
                        true,
                        f,
                    ));
                } else {
                    assert(curr@ =~= pre_curr.push(sk));
                    assert(segment_from(orig, k as int, pre_curr, true, f) == segment_from(
                        orig,
                        k + 1,
                        pre_curr.push(sk),
                        true,
                        f,
                    ));
                    assert(bbs_view(bbs@) + rest =~~= pre_bbs + segment_from(
                        orig,
                        k as int,
                        pre_curr,
                        true,
                        f,
                    ));
                }
            }
            assert(bbs_view(bbs@) + rest =~~= total);
        }
        k += 1;
    }
    let ghost end_bbs = bbs_view(bbs@);
    let ghost end_curr = curr@;
    if open {
        bbs.push(BasicBlock { stmts: curr });
        proof {
            assert(segment_from(orig, n as int, end_curr, true, fresh as int) == seq![end_curr]);
            assert(bbs_view(bbs@) =~= end_bbs.push(end_curr));
            assert(end_bbs.push(end_curr) =~~= end_bbs + seq![end_curr]);
            assert(bbs_view(bbs@) =~~= segment_from(
                orig,
                0,
                Seq::empty(),
                false,
                max_label(orig) + 1,
            ));
        }
    } else {
        proof {
            assert(segment_from(orig, n as int, end_curr, false, fresh as int)
                =~~= Seq::<Seq<Stmt>>::empty());
            assert(bbs_view(bbs@) =~~= segment_from(
                orig,
                0,
                Seq::empty(),
                false,
                max_label(orig) + 1,
            ));
        }
    }
    bbs
}

/// The largest label number in the list, or zero.
fn max_label_exec(stmts: &Vec<Stmt>) -> (r: usize)
    ensures
        r == max_label(stmts@),
{
    let mut r: usize = 0;
    let mut k: usize = 0;
    while k < stmts.len()
        invariant
            k <= stmts@.len(),
            r == max_label(stmts@.subrange(0, k as int)),
        decreases stmts@.len() - k,
    {
        let cand: Option<usize> = match &stmts[k] {
            Stmt::Label(l) => Some(l.0),
            _ => None,
        };
        proof {
            assert(stmts@.subrange(0, k + 1).drop_last() =~= stmts@.subrange(0, k as int));
            assert(stmts@.subrange(0, k + 1).last() == stmts@[k as int]);
        }
        if let Some(id) = cand {
            if id > r {
                r = id;
            }
        }
        k += 1;
    }
    proof {
        assert(stmts@.subrange(0, stmts@.len() as int) =~= stmts@);
    }
    r
}

/// Duplicates a statement.
pub fn dup_stmt(s: &Stmt) -> (r: Stmt)
    ensures
        r == *s,
{
    match s {
        Stmt::Store(loc, e) => Stmt::Store(*loc, dup_expr(e)),
        Stmt::Expr(e) => Stmt::Expr(dup_expr(e)),
        Stmt::Label(l) => Stmt::Label(*l),
        Stmt::Jump(l) => Stmt::Jump(*l),
        Stmt::JumpIfZero(e, l) => Stmt::JumpIfZero(dup_expr(e), *l),
        Stmt::Print(e) => Stmt::Print(dup_expr(e)),
    }
}

} // verus!
