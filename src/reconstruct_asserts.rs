//! Folds the `if cond { panic } else { rest }` idiom of a structured tree
//! into `assert(cond == false); rest`.
use vstd::prelude::*;
use crate::cfim_ast::{
    cases_view, expr_view, Assert, Expr, Expression, FunDecl, Statement, Stmt, SwitchTargets,
    Targets,
};

verus! {

/// An expression that does nothing but panic, possibly after no-ops.
pub open spec fn panics_only(e: Expr) -> bool
    decreases e,
{
    match e {
        Expr::Stmt(Stmt::Panic) => true,
        Expr::Sequence(a, b) => *a == Expr::Stmt(Stmt::Nop) && panics_only(*b),
        _ => false,
    }
}

/// The canonical form of an expression: every `if` whose `then` branch only
/// panics becomes an assertion that the condition is false, followed by the
/// canonical `else` branch; everything else keeps its shape.
pub open spec fn canon(e: Expr) -> Expr
    decreases e,
{
    match e {
        Expr::Stmt(s) => Expr::Stmt(s),
        Expr::Sequence(a, b) => Expr::Sequence(Box::new(canon(*a)), Box::new(canon(*b))),
        Expr::Switch(op, Targets::If(a, b)) => if panics_only(*a) {
            Expr::Sequence(
                Box::new(Expr::Stmt(Stmt::Assert(Assert { cond: op, expected: false }))),
                Box::new(canon(*b)),
            )
        } else {
            Expr::Switch(op, Targets::If(Box::new(canon(*a)), Box::new(canon(*b))))
        },
        Expr::Switch(op, Targets::SwitchInt(ty, cases, otherwise)) => Expr::Switch(
            op,
            Targets::SwitchInt(ty, canon_cases(cases), Box::new(canon(*otherwise))),
        ),
        Expr::Loop(b) => Expr::Loop(Box::new(canon(*b))),
    }
}

/// `canon` applied to each branch, values and order kept.
pub open spec fn canon_cases(cs: Seq<(u128, Expr)>) -> Seq<(u128, Expr)>
    decreases cs,
{
    if cs.len() == 0 {
        Seq::empty()
    } else {
        canon_cases(cs.drop_last()).push((cs.last().0, canon(cs.last().1)))
    }
}

/// Whether an exec expression is exactly a panic, possibly after no-ops.
fn is_panic_only(e: &Expression) -> (r: bool)
    ensures
        r == panics_only(e@),
    decreases e,
{
    match e {
        Expression::Statement(Statement::Panic) => true,
        Expression::Sequence(a, b) => {
            let first_nop = match &**a {
                Expression::Statement(Statement::Nop) => true,
                _ => false,
            };
            proof {
                if first_nop {
                    assert(expr_view(**a) == Expr::Stmt(Stmt::Nop));
                }
            }
            first_nop && is_panic_only(b)
        },
        _ => false,
    }
}

/// Canonicalises each branch of a value-indexed switch, in order.
fn canonicalize_cases(cases: Vec<(u128, Expression)>) -> (r: Vec<(u128, Expression)>)
    ensures
        cases_view(r@) == canon_cases(cases_view(cases@)),
    decreases cases,
{
    let ghost whole = cases;
    let ghost orig = cases@;
    let n = cases.len();
    let mut rest = cases;
    let mut out: Vec<(u128, Expression)> = Vec::new();
    let mut i: usize = 0;
    while i < n
        invariant
            n == orig.len(),
            whole@ == orig,
            whole == cases,
            i <= n,
            rest@ == orig.subrange(i as int, n as int),
            cases_view(out@) == canon_cases(cases_view(orig.subrange(0, i as int))),
            out@.len() == i,
        decreases n - i,
    {
        let (v, e) = rest.remove(0);
        proof {
            vstd::std_specs::vec::axiom_vec_index_decreases(whole, i as int);
            assert(decreases_to!(whole => orig[i as int]));
            assert(decreases_to!(orig[i as int] => orig[i as int].1));
            assert(decreases_to!(whole => e));
        }
        let ce = canonicalize(e);
        let ghost before = out@;
        out.push((v, ce));
        proof {
            let pre = orig.subrange(0, i as int);
            let pre1 = orig.subrange(0, i as int + 1);
            assert(pre1.drop_last() =~= pre);
            assert(out@.drop_last() =~= before);
            assert(cases_view(pre1) == cases_view(pre).push((orig[i as int].0, expr_view(orig[i as int].1))));
            assert(cases_view(pre1).drop_last() =~= cases_view(pre));
        }
        i = i + 1;
    }
    proof {
        assert(orig.subrange(0, n as int) =~= orig);
    }
    out
}

/// Rewrites every `if cond { panic } else { rest }` of `e` into
/// `assert(cond == false); rest`, bottom-up.
pub fn canonicalize(e: Expression) -> (r: Expression)
    ensures
        r@ == canon(e@),
    decreases e,
{
    match e {
        Expression::Statement(s) => Expression::Statement(s),
        Expression::Sequence(a, b) => {
            let ca = canonicalize(*a);
            let cb = canonicalize(*b);
            Expression::Sequence(Box::new(ca), Box::new(cb))
        },
        Expression::Switch(op, SwitchTargets::If(a, b)) => {
            let cb = canonicalize(*b);
            if is_panic_only(&a) {
                let check = Expression::Statement(Statement::Assert(Assert { cond: op, expected: false }));
                assert(check@ == Expr::Stmt(Stmt::Assert(Assert { cond: op, expected: false })));
                Expression::Sequence(Box::new(check), Box::new(cb))
            } else {
                let ca = canonicalize(*a);
                Expression::Switch(op, SwitchTargets::If(Box::new(ca), Box::new(cb)))
            }
        },
        Expression::Switch(op, SwitchTargets::SwitchInt(ty, cases, otherwise)) => {
            let cc = canonicalize_cases(cases);
            let co = canonicalize(*otherwise);
            Expression::Switch(op, SwitchTargets::SwitchInt(ty, cc, Box::new(co)))
        },
        Expression::Loop(b) => Expression::Loop(Box::new(canonicalize(*b))),
    }
}

proof fn lemma_canon_stmt_inverse(e: Expr)
    ensures
        canon(e) is Stmt ==> canon(e) == e,
{
}

proof fn lemma_panics_only_canon(e: Expr)
    ensures
        panics_only(canon(e)) ==> panics_only(e),
    decreases e,
{
    if let Expr::Sequence(a, b) = e {
        lemma_canon_stmt_inverse(*a);
        lemma_panics_only_canon(*b);
    }
}

/// Canonicalisation is idempotent: canonicalising a canonical expression
/// changes nothing.
pub proof fn lemma_canonicalize_idempotent(e: Expr)
    ensures
        canon(canon(e)) == canon(e),
    decreases e,
{
    match e {
        Expr::Stmt(_) => {},
        Expr::Sequence(a, b) => {
            lemma_canonicalize_idempotent(*a);
            lemma_canonicalize_idempotent(*b);
        },
        Expr::Switch(op, Targets::If(a, b)) => {
            lemma_canonicalize_idempotent(*a);
            lemma_canonicalize_idempotent(*b);
            lemma_panics_only_canon(*a);
            let head = Expr::Stmt(Stmt::Assert(Assert { cond: op, expected: false }));
            assert(canon(head) == head);
        },
        Expr::Switch(op, Targets::SwitchInt(ty, cases, otherwise)) => {
            lemma_canon_cases_idempotent(cases);
            lemma_canonicalize_idempotent(*otherwise);
        },
        Expr::Loop(b) => {
            lemma_canonicalize_idempotent(*b);
        },
    }
}

/// Canonicalising the branches of a switch twice is canonicalising them once.
pub proof fn lemma_canon_cases_idempotent(cs: Seq<(u128, Expr)>)
    ensures
        canon_cases(canon_cases(cs)) == canon_cases(cs),
    decreases cs,
{
    if cs.len() > 0 {
        let c = canon_cases(cs);
        lemma_canon_cases_idempotent(cs.drop_last());
        lemma_canonicalize_idempotent(cs.last().1);
        assert(c.drop_last() =~= canon_cases(cs.drop_last()));
        assert(canon_cases(c) =~= c);
    }
}

/// Canonicalises the body of every declaration, in order.
pub fn simplify(defs: Vec<FunDecl>) -> (r: Vec<FunDecl>)
    ensures
        r@.len() == defs@.len(),
        forall|i: int|
            0 <= i < r@.len() ==> {
                &&& (#[trigger] r@[i]).body@ == canon(defs@[i].body@)
                &&& r@[i].def_id == defs@[i].def_id
                &&& r@[i].name == defs@[i].name
                &&& r@[i].divergent == defs@[i].divergent
                &&& r@[i].arg_count == defs@[i].arg_count
            },
{
    let ghost orig = defs@;
    let n = defs.len();
    let mut rest = defs;
    let mut out: Vec<FunDecl> = Vec::new();
    let mut i: usize = 0;
    while i < n
        invariant
            n == orig.len(),
            i <= n,
            rest@ == orig.subrange(i as int, n as int),
            out@.len() == i,
            forall|k: int|
                0 <= k < i ==> {
                    &&& (#[trigger] out@[k]).body@ == canon(orig[k].body@)
                    &&& out@[k].def_id == orig[k].def_id
                    &&& out@[k].name == orig[k].name
                    &&& out@[k].divergent == orig[k].divergent
                    &&& out@[k].arg_count == orig[k].arg_count
                },
        decreases n - i,
    {
        let def = rest.remove(0);
        let FunDecl { def_id, name, divergent, arg_count, body } = def;
        let body = canonicalize(body);
        out.push(FunDecl { def_id, name, divergent, arg_count, body });
        i = i + 1;
    }
    out
}

} // verus!
