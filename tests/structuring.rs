use charon::analysis::IrreducibleControlFlow;
use charon::cfim_ast::{Call, DefId, Expression, FunId, Operand, Place, Rvalue, Statement, SwitchTargets};
use charon::graph::{Block, BlockGraph, Terminator};
use charon::structure::structure;
use charon::types::IntegerTy;

fn assign(var: usize) -> Statement {
    Statement::Assign(Place { var_id: var }, Rvalue::Use(Operand::Const(var as u128)))
}

fn cond(var: usize) -> Operand {
    Operand::Copy(Place { var_id: var })
}

fn block(stmts: Vec<Statement>, terminator: Terminator) -> Block {
    Block { statements: stmts, terminator }
}

fn st(s: Statement) -> Expression {
    Expression::Statement(s)
}

fn seq(a: Expression, b: Expression) -> Expression {
    Expression::Sequence(Box::new(a), Box::new(b))
}

fn if_then_else(c: Operand, a: Expression, b: Expression) -> Expression {
    Expression::Switch(c, SwitchTargets::If(Box::new(a), Box::new(b)))
}

fn lp(body: Expression) -> Expression {
    Expression::Loop(Box::new(body))
}

fn diamond() -> BlockGraph {
    BlockGraph {
        entry: 0,
        blocks: vec![
            block(vec![assign(0)], Terminator::Goto(1)),
            block(vec![assign(1)], Terminator::If(cond(9), 2, 3)),
            block(vec![assign(2)], Terminator::Goto(4)),
            block(vec![assign(3)], Terminator::Goto(4)),
            block(vec![], Terminator::Return),
        ],
    }
}

fn simple_loop() -> BlockGraph {
    BlockGraph {
        entry: 0,
        blocks: vec![
            block(vec![], Terminator::Goto(1)),
            block(vec![], Terminator::If(cond(9), 2, 3)),
            block(vec![], Terminator::Goto(1)),
            block(vec![], Terminator::Return),
        ],
    }
}

fn two_entry_cycle() -> BlockGraph {
    BlockGraph {
        entry: 0,
        blocks: vec![
            block(vec![], Terminator::If(cond(9), 1, 2)),
            block(vec![assign(1)], Terminator::Goto(2)),
            block(vec![assign(2)], Terminator::Goto(1)),
        ],
    }
}

fn nested_loops() -> BlockGraph {
    // 0 -> 1 (outer header) -> 2 (inner header)
    // 2: if c7 -> 3 else 4; 3 -> 2 (inner back edge)
    // 4: if c8 -> 1 (outer back edge) else 5; 5: return
    BlockGraph {
        entry: 0,
        blocks: vec![
            block(vec![assign(0)], Terminator::Goto(1)),
            block(vec![assign(1)], Terminator::Goto(2)),
            block(vec![], Terminator::If(cond(7), 3, 4)),
            block(vec![assign(3)], Terminator::Goto(2)),
            block(vec![assign(4)], Terminator::If(cond(8), 1, 5)),
            block(vec![], Terminator::Return),
        ],
    }
}

#[test]
fn diamond_joins_at_common_successor() {
    let r = structure(&diamond()).unwrap();
    let expected = seq(
        st(assign(0)),
        seq(
            st(assign(1)),
            seq(if_then_else(cond(9), st(assign(2)), st(assign(3))), st(Statement::Return)),
        ),
    );
    assert_eq!(r, expected);
}

#[test]
fn loop_with_back_edge_and_exit() {
    let r = structure(&simple_loop()).unwrap();
    let expected = seq(
        lp(if_then_else(cond(9), st(Statement::Continue(0)), st(Statement::Break(0)))),
        st(Statement::Return),
    );
    assert_eq!(r, expected);
}

#[test]
fn two_entry_loop_is_rejected() {
    let r = structure(&two_entry_cycle());
    assert_eq!(r, Err(IrreducibleControlFlow { offending_block: 1 }));
}

#[test]
fn structuring_twice_gives_the_same_tree() {
    let g = nested_loops();
    assert_eq!(structure(&g), structure(&g));
    let g = diamond();
    assert_eq!(structure(&g), structure(&g));
}

#[test]
fn nested_loops_use_outer_depth() {
    let r = structure(&nested_loops()).unwrap();
    let inner = lp(if_then_else(
        cond(7),
        seq(st(assign(3)), st(Statement::Continue(0))),
        st(Statement::Break(0)),
    ));
    let after_inner = seq(
        st(assign(4)),
        if_then_else(cond(8), st(Statement::Continue(0)), st(Statement::Break(0))),
    );
    let outer = lp(seq(st(assign(1)), seq(inner, after_inner)));
    let expected = seq(st(assign(0)), seq(outer, st(Statement::Return)));
    assert_eq!(r, expected);
}

fn two_level_exit() -> BlockGraph {
    // 0 -> 1 (outer header) -> 2 (inner header)
    // 2: if c7 -> 3 else 1; 3: if c8 -> 2 else 4; 4: return
    BlockGraph {
        entry: 0,
        blocks: vec![
            block(vec![], Terminator::Goto(1)),
            block(vec![assign(1)], Terminator::Goto(2)),
            block(vec![assign(2)], Terminator::If(cond(7), 3, 1)),
            block(vec![assign(3)], Terminator::If(cond(8), 2, 4)),
            block(vec![], Terminator::Return),
        ],
    }
}

#[test]
fn exit_of_two_loops_goes_through_both_follows() {
    let r = structure(&two_level_exit()).unwrap();
    let inner = lp(seq(
        st(assign(2)),
        seq(
            if_then_else(cond(7), st(Statement::Nop), st(Statement::Continue(1))),
            seq(st(assign(3)), if_then_else(cond(8), st(Statement::Continue(0)), st(Statement::Break(0)))),
        ),
    ));
    let outer = lp(seq(st(assign(1)), seq(inner, st(Statement::Break(0)))));
    let expected = seq(outer, st(Statement::Return));
    assert_eq!(r, expected);
}

fn depths_ok(e: &Expression, loops: usize) -> bool {
    match e {
        Expression::Statement(Statement::Break(d)) | Expression::Statement(Statement::Continue(d)) => *d < loops,
        Expression::Statement(_) => true,
        Expression::Sequence(a, b) => depths_ok(a, loops) && depths_ok(b, loops),
        Expression::Switch(_, SwitchTargets::If(a, b)) => depths_ok(a, loops) && depths_ok(b, loops),
        Expression::Switch(_, SwitchTargets::SwitchInt(_, cases, o)) => {
            cases.iter().all(|(_, c)| depths_ok(c, loops)) && depths_ok(o, loops)
        }
        Expression::Loop(b) => depths_ok(b, loops + 1),
    }
}

#[test]
fn break_and_continue_depths_are_bounded() {
    for g in [diamond(), simple_loop(), nested_loops(), switch_graph(), multi_exit_loop(), two_level_exit()] {
        let r = structure(&g).unwrap();
        assert!(depths_ok(&r, 0));
    }
}

fn switch_graph() -> BlockGraph {
    BlockGraph {
        entry: 0,
        blocks: vec![
            block(
                vec![assign(0)],
                Terminator::SwitchInt(cond(5), IntegerTy::U8, vec![(3, 2), (1, 1)], 3),
            ),
            block(vec![assign(1)], Terminator::Goto(4)),
            block(vec![assign(2)], Terminator::Goto(4)),
            block(vec![assign(3)], Terminator::Goto(4)),
            block(vec![assign(4)], Terminator::Return),
        ],
    }
}

#[test]
fn switch_keeps_case_order_and_default_last() {
    let r = structure(&switch_graph()).unwrap();
    let sw = Expression::Switch(
        cond(5),
        SwitchTargets::SwitchInt(
            IntegerTy::U8,
            vec![(3, st(assign(2))), (1, st(assign(1)))],
            Box::new(st(assign(3))),
        ),
    );
    let expected = seq(st(assign(0)), seq(sw, seq(st(assign(4)), st(Statement::Return))));
    assert_eq!(r, expected);
}

#[test]
fn call_is_a_statement_then_its_successor() {
    let call = Call {
        func: FunId::Local(DefId { index: 4 }),
        region_params: vec![],
        args: vec![cond(1)],
        dest: Place { var_id: 0 },
    };
    let g = BlockGraph {
        entry: 0,
        blocks: vec![block(vec![], Terminator::Call(call.clone(), 1)), block(vec![], Terminator::Return)],
    };
    let r = structure(&g).unwrap();
    assert_eq!(r, seq(st(Statement::Call(call)), st(Statement::Return)));
}

#[test]
fn abort_branch_is_a_panic_leaf() {
    // 0: if c -> 1 (abort) else 2; 2: return
    let g = BlockGraph {
        entry: 0,
        blocks: vec![
            block(vec![], Terminator::If(cond(9), 1, 2)),
            block(vec![], Terminator::Abort),
            block(vec![assign(2)], Terminator::Return),
        ],
    };
    let r = structure(&g).unwrap();
    let expected = seq(
        if_then_else(cond(9), st(Statement::Panic), st(Statement::Nop)),
        seq(st(assign(2)), st(Statement::Return)),
    );
    assert_eq!(r, expected);
}

fn multi_exit_loop() -> BlockGraph {
    // 0 -> 1 (header); 1: if c1 -> 2 else 4; 2: if c2 -> 3 else 4; 3 -> 1; 4: return
    BlockGraph {
        entry: 0,
        blocks: vec![
            block(vec![], Terminator::Goto(1)),
            block(vec![assign(1)], Terminator::If(cond(1), 2, 4)),
            block(vec![assign(2)], Terminator::If(cond(2), 3, 4)),
            block(vec![assign(3)], Terminator::Goto(1)),
            block(vec![assign(4)], Terminator::Return),
        ],
    }
}

#[test]
fn loop_with_two_exit_edges_breaks_to_its_follow() {
    let r = structure(&multi_exit_loop()).unwrap();
    let body = seq(
        st(assign(1)),
        if_then_else(
            cond(1),
            seq(
                st(assign(2)),
                if_then_else(cond(2), seq(st(assign(3)), st(Statement::Continue(0))), st(Statement::Break(0))),
            ),
            st(Statement::Break(0)),
        ),
    );
    let expected = seq(lp(body), seq(st(assign(4)), st(Statement::Return)));
    assert_eq!(r, expected);
}

#[test]
fn unreachable_cycle_is_ignored() {
    let g = BlockGraph {
        entry: 0,
        blocks: vec![
            block(vec![], Terminator::Return),
            block(vec![], Terminator::Goto(2)),
            block(vec![], Terminator::Goto(1)),
        ],
    };
    assert_eq!(structure(&g), Ok(st(Statement::Return)));
}

// A small interpreter on both sides: each test consumes the next answer of
// an oracle, each statement leaf is recorded.

#[derive(Debug, PartialEq)]
enum Outcome {
    Return,
    Panic,
    Exhausted,
}

struct Oracle {
    answers: Vec<bool>,
    next: usize,
}

impl Oracle {
    fn ask(&mut self) -> Option<bool> {
        let a = self.answers.get(self.next).copied();
        self.next += 1;
        a
    }
}

fn run_graph(g: &BlockGraph, oracle: &mut Oracle) -> (Vec<usize>, Outcome) {
    let mut trace = vec![];
    let mut b = g.entry;
    loop {
        for s in &g.blocks[b].statements {
            if let Statement::Assign(p, _) = s {
                trace.push(p.var_id);
            }
        }
        match &g.blocks[b].terminator {
            Terminator::Goto(t) => b = *t,
            Terminator::If(_, x, y) => match oracle.ask() {
                Some(true) => b = *x,
                Some(false) => b = *y,
                None => return (trace, Outcome::Exhausted),
            },
            Terminator::SwitchInt(..) | Terminator::Call(..) => unreachable!(),
            Terminator::Return => return (trace, Outcome::Return),
            Terminator::Abort => return (trace, Outcome::Panic),
        }
    }
}

enum Flow {
    Normal,
    Break(usize),
    Continue(usize),
    Done(Outcome),
}

fn run_expr(e: &Expression, oracle: &mut Oracle, trace: &mut Vec<usize>) -> Flow {
    match e {
        Expression::Statement(s) => match s {
            Statement::Assign(p, _) => {
                trace.push(p.var_id);
                Flow::Normal
            }
            Statement::Return => Flow::Done(Outcome::Return),
            Statement::Panic => Flow::Done(Outcome::Panic),
            Statement::Break(d) => Flow::Break(*d),
            Statement::Continue(d) => Flow::Continue(*d),
            _ => Flow::Normal,
        },
        Expression::Sequence(a, b) => match run_expr(a, oracle, trace) {
            Flow::Normal => run_expr(b, oracle, trace),
            other => other,
        },
        Expression::Switch(_, SwitchTargets::If(a, b)) => match oracle.ask() {
            Some(true) => run_expr(a, oracle, trace),
            Some(false) => run_expr(b, oracle, trace),
            None => Flow::Done(Outcome::Exhausted),
        },
        Expression::Switch(_, SwitchTargets::SwitchInt(..)) => unreachable!(),
        Expression::Loop(body) => loop {
            match run_expr(body, oracle, trace) {
                Flow::Normal | Flow::Continue(0) => {}
                Flow::Break(0) => return Flow::Normal,
                Flow::Break(d) => return Flow::Break(d - 1),
                Flow::Continue(d) => return Flow::Continue(d - 1),
                Flow::Done(o) => return Flow::Done(o),
            }
        },
    }
}

#[test]
fn structured_tree_runs_like_the_graph() {
    let graphs = [diamond(), simple_loop(), nested_loops(), multi_exit_loop(), two_level_exit()];
    for g in graphs.iter() {
        let e = structure(g).unwrap();
        for seed in 0u32..64 {
            let answers: Vec<bool> = (0..8).map(|i| (seed >> (i % 6)) & 1 == 1).collect();
            let mut o1 = Oracle { answers: answers.clone(), next: 0 };
            let mut o2 = Oracle { answers, next: 0 };
            let (t1, out1) = run_graph(g, &mut o1);
            let mut t2 = vec![];
            let out2 = match run_expr(&e, &mut o2, &mut t2) {
                Flow::Done(o) => o,
                _ => panic!("control left the tree abnormally"),
            };
            assert_eq!(t1, t2);
            assert_eq!(out1, out2);
        }
    }
}
