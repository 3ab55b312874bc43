use charon::cfim_ast::{Assert, DefId, Expression, FunDecl, Operand, Place, Rvalue, Statement, SwitchTargets};
use charon::reconstruct_asserts::{canonicalize, simplify};
use charon::types::IntegerTy;

fn cond(var: usize) -> Operand {
    Operand::Copy(Place { var_id: var })
}

fn assign(var: usize) -> Statement {
    Statement::Assign(Place { var_id: var }, Rvalue::Use(Operand::Const(1)))
}

fn st(s: Statement) -> Expression {
    Expression::Statement(s)
}

fn seq(a: Expression, b: Expression) -> Expression {
    Expression::Sequence(Box::new(a), Box::new(b))
}

fn if_then_else(c: Operand, a: Expression, b: Expression) -> Expression {
    Expression::Switch(c, SwitchTargets::If(Box::new(a), Box::new(b)))
}

fn assert_false(c: Operand) -> Expression {
    st(Statement::Assert(Assert { cond: c, expected: false }))
}

#[test]
fn panic_branch_becomes_assertion() {
    let e = if_then_else(cond(1), st(Statement::Panic), st(Statement::Return));
    assert_eq!(canonicalize(e), seq(assert_false(cond(1)), st(Statement::Return)));
}

#[test]
fn no_ops_before_the_panic_are_dropped() {
    let e = if_then_else(cond(1), seq(st(Statement::Nop), st(Statement::Panic)), st(assign(2)));
    assert_eq!(canonicalize(e), seq(assert_false(cond(1)), st(assign(2))));
}

#[test]
fn panic_in_else_branch_is_kept() {
    let make = || if_then_else(cond(1), st(assign(2)), st(Statement::Panic));
    assert_eq!(canonicalize(make()), make());
}

#[test]
fn then_branch_that_does_more_than_panic_is_kept() {
    let make = || if_then_else(cond(1), seq(st(assign(3)), st(Statement::Panic)), st(Statement::Return));
    assert_eq!(canonicalize(make()), make());
}

fn nested() -> Expression {
    let inner = if_then_else(cond(2), st(Statement::Panic), st(Statement::Break(0)));
    let sw = Expression::Switch(
        cond(5),
        SwitchTargets::SwitchInt(
            IntegerTy::I32,
            vec![(7, if_then_else(cond(3), st(Statement::Panic), st(assign(1)))), (2, st(assign(2)))],
            Box::new(Expression::Loop(Box::new(inner))),
        ),
    );
    seq(if_then_else(cond(1), st(Statement::Panic), sw), st(Statement::Return))
}

fn nested_canonical() -> Expression {
    let inner = seq(assert_false(cond(2)), st(Statement::Break(0)));
    let sw = Expression::Switch(
        cond(5),
        SwitchTargets::SwitchInt(
            IntegerTy::I32,
            vec![(7, seq(assert_false(cond(3)), st(assign(1)))), (2, st(assign(2)))],
            Box::new(Expression::Loop(Box::new(inner))),
        ),
    );
    seq(seq(assert_false(cond(1)), sw), st(Statement::Return))
}

#[test]
fn rewrite_reaches_switch_branches_and_loops() {
    assert_eq!(canonicalize(nested()), nested_canonical());
}

#[test]
fn canonicalizing_twice_is_canonicalizing_once() {
    assert_eq!(canonicalize(canonicalize(nested())), canonicalize(nested()));
    let e = if_then_else(cond(1), st(Statement::Panic), if_then_else(cond(2), st(Statement::Panic), st(Statement::Nop)));
    let once = canonicalize(if_then_else(cond(1), st(Statement::Panic), if_then_else(cond(2), st(Statement::Panic), st(Statement::Nop))));
    assert_eq!(canonicalize(canonicalize(e)), once);
}

#[test]
fn simplify_rewrites_every_body_and_keeps_the_rest() {
    let defs = vec![
        FunDecl { def_id: DefId { index: 0 }, name: vec!["m".to_string(), "f".to_string()], divergent: false, arg_count: 1, body: nested() },
        FunDecl { def_id: DefId { index: 3 }, name: vec!["g".to_string()], divergent: true, arg_count: 0, body: st(Statement::Return) },
    ];
    let out = simplify(defs);
    assert_eq!(out.len(), 2);
    assert_eq!(out[0].def_id, DefId { index: 0 });
    assert_eq!(out[0].name, vec!["m".to_string(), "f".to_string()]);
    assert!(!out[0].divergent);
    assert_eq!(out[0].arg_count, 1);
    assert_eq!(out[0].body, nested_canonical());
    assert_eq!(out[1].def_id, DefId { index: 3 });
    assert!(out[1].divergent);
    assert_eq!(out[1].body, st(Statement::Return));
}
