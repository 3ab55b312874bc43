//! The structuring engine: from a block graph to a nested tree of
//! sequences, switches, loops and depth-indexed `break`/`continue`.
use vstd::prelude::*;
use crate::analysis::{analysis_of, analyze, check_reducible, first_from, irreducible, on_forward_cycle, IrreducibleControlFlow, in_body, ipdom, is_header, loop_follow, Analysis};
use crate::cfim_ast::{cases_view, Call, Expr, Expression, Statement, Stmt, SwitchTargets, Targets};
use crate::graph::{block_succs, case_targets, is_simple, num_blocks, well_formed, BlockGraph, Terminator};

verus! {

/// The depth of header `t` among the enclosing loops `scopes` (innermost
/// last), counted innermost first from `d`.
pub open spec fn scope_depth(scopes: Seq<usize>, t: int, d: int) -> Option<usize>
    decreases scopes.len() - d,
{
    if d < 0 || d >= scopes.len() {
        None
    } else if scopes[scopes.len() - 1 - d] == t {
        Some(d as usize)
    } else {
        scope_depth(scopes, t, d + 1)
    }
}

/// The depth of the innermost enclosing loop, from `d` on, after which
/// control goes on at `t`.
pub open spec fn exit_depth(g: BlockGraph, scopes: Seq<usize>, t: int, d: int) -> Option<usize>
    decreases scopes.len() - d,
{
    if d < 0 || d >= scopes.len() {
        None
    } else if loop_follow(g, scopes[scopes.len() - 1 - d] as int) == Some(t as usize) {
        Some(d as usize)
    } else {
        exit_depth(g, scopes, t, d + 1)
    }
}

/// Where the branches of block `b` meet again inside the innermost
/// enclosing loop: its immediate post-dominator, when that lies there.
pub open spec fn join_point(g: BlockGraph, b: int, scopes: Seq<usize>) -> Option<usize> {
    match ipdom(g, b) {
        Some(j) => if scopes.len() == 0 || in_body(g, scopes.last() as int, j as int) {
            Some(j)
        } else {
            None
        },
        None => None,
    }
}

/// `a`, followed by `rest` when there is one.
pub open spec fn then_rest(a: Expr, rest: Option<Expr>) -> Expr {
    match rest {
        Some(r) => Expr::Sequence(Box::new(a), Box::new(r)),
        None => a,
    }
}

/// An expression, or a no-op where there is none.
pub open spec fn or_nop(e: Option<Expr>) -> Expr {
    match e {
        Some(x) => x,
        None => Expr::Stmt(Stmt::Nop),
    }
}

/// The statements `stmts`, in order, before `tail`.
pub open spec fn prefixed(stmts: Seq<Stmt>, tail: Option<Expr>) -> Option<Expr>
    decreases stmts.len(),
{
    if stmts.len() == 0 {
        tail
    } else {
        prefixed(stmts.drop_last(), Some(then_rest(Expr::Stmt(stmts.last()), tail)))
    }
}

/// The models of the statements of block `b`.
pub open spec fn block_stmts(g: BlockGraph, b: int) -> Seq<Stmt> {
    g.blocks@[b].statements@.map_values(|s: crate::cfim_ast::Statement| s@)
}

/// Control goes to block `t`: nothing when `t` is where the caller stops,
/// `continue` to an enclosing loop whose header is `t`, `break` out of an
/// enclosing loop after which control goes on at `t`, and otherwise the
/// structured code of `t` (a loop, where `t` is a header). `fuel` bounds
/// the nesting of blocks inside one another; structuring starts with twice
/// the block count plus one. On a graph without forward cycles each nested
/// step moves along a forward edge or enters the loop of the block it
/// stands at, so that bound is not expected to be reached (this is not
/// proved here); where it is, the branch ends in a panic leaf.
pub open spec fn goto_expr(
    g: BlockGraph,
    t: int,
    stop: Option<usize>,
    scopes: Seq<usize>,
    fuel: nat,
) -> Option<Expr>
    decreases fuel, 0nat, 0nat,
{
    if stop == Some(t as usize) {
        None
    } else if scope_depth(scopes, t, 0) is Some {
        Some(Expr::Stmt(Stmt::Continue(scope_depth(scopes, t, 0)->Some_0)))
    } else if exit_depth(g, scopes, t, 0) is Some {
        Some(Expr::Stmt(Stmt::Break(exit_depth(g, scopes, t, 0)->Some_0)))
    } else if fuel == 0 {
        Some(Expr::Stmt(Stmt::Panic))
    } else if is_header(g, t) {
        let body = or_nop(block_expr(g, t, None, scopes.push(t as usize), (fuel - 1) as nat));
        let after = match loop_follow(g, t) {
            Some(f) => goto_expr(g, f as int, stop, scopes, (fuel - 1) as nat),
            None => None,
        };
        Some(then_rest(Expr::Loop(Box::new(body)), after))
    } else {
        block_expr(g, t, stop, scopes, (fuel - 1) as nat)
    }
}

/// The structured code of block `b`: its statements, then its terminator.
pub open spec fn block_expr(
    g: BlockGraph,
    b: int,
    stop: Option<usize>,
    scopes: Seq<usize>,
    fuel: nat,
) -> Option<Expr>
    decreases fuel, 3nat, 0nat,
{
    prefixed(block_stmts(g, b), term_expr(g, b, stop, scopes, fuel))
}

/// The structured code of the terminator of block `b`: a branch structures
/// each target up to the join point, then goes on from there.
pub open spec fn term_expr(
    g: BlockGraph,
    b: int,
    stop: Option<usize>,
    scopes: Seq<usize>,
    fuel: nat,
) -> Option<Expr>
    decreases fuel, 2nat, 0nat,
{
    let j = join_point(g, b, scopes);
    let inner = if j is Some { j } else { stop };
    let after = match j {
        Some(k) => goto_expr(g, k as int, stop, scopes, fuel),
        None => None,
    };
    match g.blocks@[b].terminator {
        Terminator::Goto(t) => goto_expr(g, t as int, stop, scopes, fuel),
        Terminator::If(op, x, y) => Some(
            then_rest(
                Expr::Switch(
                    op,
                    Targets::If(
                        Box::new(or_nop(goto_expr(g, x as int, inner, scopes, fuel))),
                        Box::new(or_nop(goto_expr(g, y as int, inner, scopes, fuel))),
                    ),
                ),
                after,
            ),
        ),
        Terminator::SwitchInt(op, ty, cases, otherwise) => Some(
            then_rest(
                Expr::Switch(
                    op,
                    Targets::SwitchInt(
                        ty,
                        cases_expr(g, cases@, inner, scopes, fuel),
                        Box::new(or_nop(goto_expr(g, otherwise as int, inner, scopes, fuel))),
                    ),
                ),
                after,
            ),
        ),
        Terminator::Call(c, t) => Some(then_rest(Expr::Stmt(Stmt::Call(c@)), goto_expr(g, t as int, stop, scopes, fuel))),
        Terminator::Return => Some(Expr::Stmt(Stmt::Return)),
        Terminator::Abort => Some(Expr::Stmt(Stmt::Panic)),
    }
}

/// The branches of a value-indexed switch, values and order kept.
pub open spec fn cases_expr(
    g: BlockGraph,
    cases: Seq<(u128, usize)>,
    stop: Option<usize>,
    scopes: Seq<usize>,
    fuel: nat,
) -> Seq<(u128, Expr)>
    decreases fuel, 1nat, cases.len(),
{
    if cases.len() == 0 {
        Seq::empty()
    } else {
        cases_expr(g, cases.drop_last(), stop, scopes, fuel).push(
            (cases.last().0, or_nop(goto_expr(g, cases.last().1 as int, stop, scopes, fuel))),
        )
    }
}

/// The nesting bound of structuring.
pub open spec fn initial_fuel(g: BlockGraph) -> nat {
    (2 * num_blocks(g) + 1) as nat
}

/// The structured form of a graph, from its entry.
pub open spec fn structured(g: BlockGraph) -> Expr {
    or_nop(goto_expr(g, g.entry as int, None, Seq::empty(), initial_fuel(g)))
}

/// The model of an optional expression.
pub open spec fn opt_view(e: Option<Expression>) -> Option<Expr> {
    match e {
        Some(x) => Some(x@),
        None => None,
    }
}

/// Every enclosing header names a block.
pub open spec fn scopes_ok(g: BlockGraph, scopes: Seq<usize>) -> bool {
    forall|i: int| 0 <= i < scopes.len() ==> #[trigger] scopes[i] < num_blocks(g)
}

proof fn lemma_first_from_bound(p: spec_fn(int) -> bool, i: int, n: int)
    requires
        n <= usize::MAX,
    ensures
        first_from(p, i, n) matches Some(v) ==> i <= v < n,
    decreases n - i,
{
    if 0 <= i < n && !p(i) {
        lemma_first_from_bound(p, i + 1, n);
    }
}

proof fn lemma_follow_bound(g: BlockGraph, h: int)
    requires
        well_formed(g),
    ensures
        loop_follow(g, h) matches Some(f) ==> f < num_blocks(g),
{
    lemma_first_from_bound(|d: int| crate::analysis::is_follow(g, h, d), 0, num_blocks(g));
}

proof fn lemma_ipdom_bound(g: BlockGraph, b: int)
    requires
        well_formed(g),
    ensures
        ipdom(g, b) matches Some(j) ==> j < num_blocks(g),
{
    lemma_first_from_bound(|d: int| crate::analysis::is_ipdom(g, b, d), 0, num_blocks(g));
}

proof fn lemma_case_targets(cs: Seq<(u128, usize)>)
    ensures
        case_targets(cs).len() == cs.len(),
        forall|i: int| 0 <= i < cs.len() ==> #[trigger] case_targets(cs)[i] == cs[i].1,
    decreases cs.len(),
{
    if cs.len() > 0 {
        lemma_case_targets(cs.drop_last());
    }
}

fn copy_vec<T: Copy>(v: &Vec<T>) -> (r: Vec<T>)
    ensures
        r@ == v@,
{
    let mut r: Vec<T> = Vec::new();
    let mut i: usize = 0;
    while i < v.len()
        invariant
            i <= v@.len(),
            r@ == v@.subrange(0, i as int),
        decreases v@.len() - i,
    {
        r.push(v[i]);
        i = i + 1;
    }
    assert(r@ =~= v@);
    r
}

fn copy_statement(s: &Statement) -> (r: Statement)
    ensures
        r@ == s@,
{
    match s {
        Statement::Assign(p, rv) => Statement::Assign(*p, *rv),
        Statement::FakeRead(p) => Statement::FakeRead(*p),
        Statement::SetDiscriminant(p, v) => Statement::SetDiscriminant(*p, *v),
        Statement::Drop(p) => Statement::Drop(*p),
        Statement::Assert(a) => Statement::Assert(*a),
        Statement::Call(c) => Statement::Call(copy_call(c)),
        Statement::Panic => Statement::Panic,
        Statement::Return => Statement::Return,
        Statement::Break(i) => Statement::Break(*i),
        Statement::Continue(i) => Statement::Continue(*i),
        Statement::Nop => Statement::Nop,
    }
}

fn copy_call(c: &Call) -> (r: Call)
    ensures
        r@ == c@,
{
    Call {
        func: c.func,
        region_params: copy_vec(&c.region_params),
        args: copy_vec(&c.args),
        dest: c.dest,
    }
}

fn then_rest_exec(a: Expression, rest: Option<Expression>) -> (r: Expression)
    ensures
        r@ == then_rest(a@, opt_view(rest)),
{
    match rest {
        Some(x) => Expression::Sequence(Box::new(a), Box::new(x)),
        None => a,
    }
}

fn or_nop_exec(e: Option<Expression>) -> (r: Expression)
    ensures
        r@ == or_nop(opt_view(e)),
{
    match e {
        Some(x) => x,
        None => {
            let r = Expression::Statement(Statement::Nop);
            assert(r@ == Expr::Stmt(Stmt::Nop));
            r
        },
    }
}

fn find_scope_depth(scopes: &Vec<usize>, t: usize) -> (r: Option<usize>)
    ensures
        r == scope_depth(scopes@, t as int, 0),
        r matches Some(d) ==> d < scopes@.len(),
{
    let n = scopes.len();
    let mut d: usize = 0;
    while d < n
        invariant
            n == scopes@.len(),
            d <= n,
            scope_depth(scopes@, t as int, 0) == scope_depth(scopes@, t as int, d as int),
        decreases n - d,
    {
        if scopes[n - 1 - d] == t {
            return Some(d);
        }
        d = d + 1;
    }
    None
}

fn find_exit_depth(g: &BlockGraph, a: &Analysis, scopes: &Vec<usize>, t: usize) -> (r: Option<usize>)
    requires
        analysis_of(*g, *a),
        scopes_ok(*g, scopes@),
    ensures
        r == exit_depth(*g, scopes@, t as int, 0),
        r matches Some(d) ==> d < scopes@.len(),
{
    let n = scopes.len();
    let mut d: usize = 0;
    while d < n
        invariant
            n == scopes@.len(),
            analysis_of(*g, *a),
            scopes_ok(*g, scopes@),
            d <= n,
            exit_depth(*g, scopes@, t as int, 0) == exit_depth(*g, scopes@, t as int, d as int),
        decreases n - d,
    {
        let h = scopes[n - 1 - d];
        if a.follow[h] == Some(t) {
            return Some(d);
        }
        d = d + 1;
    }
    None
}

fn find_join_point(g: &BlockGraph, a: &Analysis, b: usize, scopes: &Vec<usize>) -> (r: Option<usize>)
    requires
        well_formed(*g),
        analysis_of(*g, *a),
        scopes_ok(*g, scopes@),
        b < num_blocks(*g),
    ensures
        r == join_point(*g, b as int, scopes@),
        r matches Some(j) ==> j < num_blocks(*g),
{
    proof {
        lemma_ipdom_bound(*g, b as int);
    }
    match a.ipdom[b] {
        Some(j) => {
            if scopes.len() == 0 || a.body[scopes[scopes.len() - 1]][j] {
                Some(j)
            } else {
                None
            }
        },
        None => None,
    }
}

/// Every `break` and `continue` of `e` names one of the `loops` loops that
/// enclose `e` or a loop of `e` around it.
pub open spec fn depth_ok(e: Expr, loops: nat) -> bool
    decreases e,
{
    match e {
        Expr::Stmt(Stmt::Break(d)) => d < loops,
        Expr::Stmt(Stmt::Continue(d)) => d < loops,
        Expr::Stmt(_) => true,
        Expr::Sequence(a, b) => depth_ok(*a, loops) && depth_ok(*b, loops),
        Expr::Switch(_, Targets::If(a, b)) => depth_ok(*a, loops) && depth_ok(*b, loops),
        Expr::Switch(_, Targets::SwitchInt(_, cs, o)) => cases_depth_ok(cs, loops) && depth_ok(*o, loops),
        Expr::Loop(b) => depth_ok(*b, loops + 1),
    }
}

/// `depth_ok` for every branch of a value-indexed switch.
pub open spec fn cases_depth_ok(cs: Seq<(u128, Expr)>, loops: nat) -> bool
    decreases cs,
{
    if cs.len() == 0 {
        true
    } else {
        cases_depth_ok(cs.drop_last(), loops) && depth_ok(cs.last().1, loops)
    }
}

proof fn lemma_scope_depth_bound(scopes: Seq<usize>, t: int, d: int)
    ensures
        scope_depth(scopes, t, d) matches Some(k) ==> k < scopes.len(),
    decreases scopes.len() - d,
{
    if 0 <= d < scopes.len() && scopes[scopes.len() - 1 - d] != t {
        lemma_scope_depth_bound(scopes, t, d + 1);
    }
}

proof fn lemma_exit_depth_bound(g: BlockGraph, scopes: Seq<usize>, t: int, d: int)
    ensures
        exit_depth(g, scopes, t, d) matches Some(k) ==> k < scopes.len(),
    decreases scopes.len() - d,
{
    if 0 <= d < scopes.len() && loop_follow(g, scopes[scopes.len() - 1 - d] as int) != Some(t as usize) {
        lemma_exit_depth_bound(g, scopes, t, d + 1);
    }
}

proof fn lemma_prefixed_depth(stmts: Seq<Stmt>, tail: Option<Expr>, loops: nat)
    requires
        forall|i: int| 0 <= i < stmts.len() ==> !(#[trigger] stmts[i] is Break) && !(stmts[i] is Continue),
        tail matches Some(e) ==> depth_ok(e, loops),
    ensures
        prefixed(stmts, tail) matches Some(e) ==> depth_ok(e, loops),
    decreases stmts.len(),
{
    if stmts.len() > 0 {
        let head = Expr::Stmt(stmts.last());
        assert(!(stmts[stmts.len() - 1] is Break));
        assert(depth_ok(head, loops));
        lemma_prefixed_depth(stmts.drop_last(), Some(then_rest(head, tail)), loops);
    }
}

proof fn lemma_then_rest_depth(a: Expr, rest: Option<Expr>, loops: nat)
    requires
        depth_ok(a, loops),
        rest matches Some(e) ==> depth_ok(e, loops),
    ensures
        depth_ok(then_rest(a, rest), loops),
{
}

proof fn lemma_or_nop_depth(e: Option<Expr>, loops: nat)
    requires
        e matches Some(x) ==> depth_ok(x, loops),
    ensures
        depth_ok(or_nop(e), loops),
{
    assert(depth_ok(Expr::Stmt(Stmt::Nop), loops));
}

proof fn lemma_goto_depth(g: BlockGraph, t: int, stop: Option<usize>, scopes: Seq<usize>, fuel: nat)
    requires
        well_formed(g),
        0 <= t < num_blocks(g),
    ensures
        goto_expr(g, t, stop, scopes, fuel) matches Some(e) ==> depth_ok(e, scopes.len()),
    decreases fuel, 0nat, 0nat,
{
    lemma_scope_depth_bound(scopes, t, 0);
    lemma_exit_depth_bound(g, scopes, t, 0);
    if stop == Some(t as usize) {
    } else if scope_depth(scopes, t, 0) is Some {
    } else if exit_depth(g, scopes, t, 0) is Some {
    } else if fuel == 0 {
    } else if is_header(g, t) {
        let inner = scopes.push(t as usize);
        lemma_block_depth(g, t, None, inner, (fuel - 1) as nat);
        let body = or_nop(block_expr(g, t, None, inner, (fuel - 1) as nat));
        lemma_or_nop_depth(block_expr(g, t, None, inner, (fuel - 1) as nat), scopes.len() + 1);
        assert(depth_ok(Expr::Loop(Box::new(body)), scopes.len()));
        lemma_follow_bound(g, t);
        let after = match loop_follow(g, t) {
            Some(f) => goto_expr(g, f as int, stop, scopes, (fuel - 1) as nat),
            None => None,
        };
        if let Some(f) = loop_follow(g, t) {
            lemma_goto_depth(g, f as int, stop, scopes, (fuel - 1) as nat);
        }
        lemma_then_rest_depth(Expr::Loop(Box::new(body)), after, scopes.len());
    } else {
        lemma_block_depth(g, t, stop, scopes, (fuel - 1) as nat);
    }
}

proof fn lemma_block_depth(g: BlockGraph, b: int, stop: Option<usize>, scopes: Seq<usize>, fuel: nat)
    requires
        well_formed(g),
        0 <= b < num_blocks(g),
    ensures
        block_expr(g, b, stop, scopes, fuel) matches Some(e) ==> depth_ok(e, scopes.len()),
    decreases fuel, 3nat, 0nat,
{
    lemma_term_depth(g, b, stop, scopes, fuel);
    let stmts = block_stmts(g, b);
    assert forall|i: int| 0 <= i < stmts.len() implies !(#[trigger] stmts[i] is Break) && !(stmts[i] is Continue) by {
        assert(is_simple(g.blocks@[b].statements@[i]));
    }
    lemma_prefixed_depth(stmts, term_expr(g, b, stop, scopes, fuel), scopes.len());
}

proof fn lemma_term_depth(g: BlockGraph, b: int, stop: Option<usize>, scopes: Seq<usize>, fuel: nat)
    requires
        well_formed(g),
        0 <= b < num_blocks(g),
    ensures
        term_expr(g, b, stop, scopes, fuel) matches Some(e) ==> depth_ok(e, scopes.len()),
    decreases fuel, 2nat, 0nat,
{
    let j = join_point(g, b, scopes);
    let inner = if j is Some { j } else { stop };
    let succ = block_succs(g, b);
    let n = scopes.len();
    lemma_ipdom_bound(g, b);
    let after = match j {
        Some(k) => goto_expr(g, k as int, stop, scopes, fuel),
        None => None,
    };
    if let Some(k) = j {
        lemma_goto_depth(g, k as int, stop, scopes, fuel);
    }
    match g.blocks@[b].terminator {
        Terminator::Goto(t) => {
            assert(succ[0] < num_blocks(g));
            lemma_goto_depth(g, t as int, stop, scopes, fuel);
        },
        Terminator::If(op, x, y) => {
            assert(succ[0] < num_blocks(g));
            assert(succ[1] < num_blocks(g));
            lemma_goto_depth(g, x as int, inner, scopes, fuel);
            lemma_goto_depth(g, y as int, inner, scopes, fuel);
            let xe = goto_expr(g, x as int, inner, scopes, fuel);
            let ye = goto_expr(g, y as int, inner, scopes, fuel);
            lemma_or_nop_depth(xe, n);
            lemma_or_nop_depth(ye, n);
            let sw = Expr::Switch(op, Targets::If(Box::new(or_nop(xe)), Box::new(or_nop(ye))));
            assert(depth_ok(sw, n));
            lemma_then_rest_depth(sw, after, n);
        },
        Terminator::SwitchInt(op, ty, cases, otherwise) => {
            lemma_case_targets(cases@);
            assert(succ == case_targets(cases@).push(otherwise));
            assert(succ[cases@.len() as int] < num_blocks(g));
            assert forall|i: int| 0 <= i < cases@.len() implies #[trigger] cases@[i].1 < num_blocks(g) by {
                assert(succ[i] < num_blocks(g));
            }
            lemma_cases_depth(g, cases@, inner, scopes, fuel);
            lemma_goto_depth(g, otherwise as int, inner, scopes, fuel);
            let oe = goto_expr(g, otherwise as int, inner, scopes, fuel);
            lemma_or_nop_depth(oe, n);
            let sw = Expr::Switch(
                op,
                Targets::SwitchInt(ty, cases_expr(g, cases@, inner, scopes, fuel), Box::new(or_nop(oe))),
            );
            assert(depth_ok(sw, n));
            lemma_then_rest_depth(sw, after, n);
        },
        Terminator::Call(c, t) => {
            assert(succ[0] < num_blocks(g));
            lemma_goto_depth(g, t as int, stop, scopes, fuel);
            let call = Expr::Stmt(Stmt::Call(c@));
            assert(depth_ok(call, n));
            lemma_then_rest_depth(call, goto_expr(g, t as int, stop, scopes, fuel), n);
        },
        Terminator::Return => {},
        Terminator::Abort => {},
    }
}

proof fn lemma_cases_depth(
    g: BlockGraph,
    cases: Seq<(u128, usize)>,
    stop: Option<usize>,
    scopes: Seq<usize>,
    fuel: nat,
)
    requires
        well_formed(g),
        forall|i: int| 0 <= i < cases.len() ==> #[trigger] cases[i].1 < num_blocks(g),
    ensures
        cases_depth_ok(cases_expr(g, cases, stop, scopes, fuel), scopes.len()),
    decreases fuel, 1nat, cases.len(),
{
    if cases.len() > 0 {
        let c = cases_expr(g, cases, stop, scopes, fuel);
        assert(cases[cases.len() - 1].1 < num_blocks(g));
        lemma_cases_depth(g, cases.drop_last(), stop, scopes, fuel);
        lemma_goto_depth(g, cases.last().1 as int, stop, scopes, fuel);
        lemma_or_nop_depth(goto_expr(g, cases.last().1 as int, stop, scopes, fuel), scopes.len());
        assert(c.drop_last() =~= cases_expr(g, cases.drop_last(), stop, scopes, fuel));
    }
}

/// Every `break` and `continue` of the structured form of a well-formed
/// graph names a loop that encloses it.
pub proof fn lemma_structured_depths(g: BlockGraph)
    requires
        well_formed(g),
    ensures
        depth_ok(structured(g), 0),
{
    lemma_goto_depth(g, g.entry as int, None, Seq::empty(), initial_fuel(g));
}

fn leaf(s: Statement) -> (r: Expression)
    ensures
        r@ == Expr::Stmt(s@),
{
    Expression::Statement(s)
}

fn goto_exec(
    g: &BlockGraph,
    a: &Analysis,
    t: usize,
    stop: Option<usize>,
    scopes: &Vec<usize>,
    fuel: usize,
) -> (r: Option<Expression>)
    requires
        well_formed(*g),
        analysis_of(*g, *a),
        t < num_blocks(*g),
        scopes_ok(*g, scopes@),
    ensures
        opt_view(r) == goto_expr(*g, t as int, stop, scopes@, fuel as nat),
    decreases fuel, 0nat, 0nat,
{
    match stop {
        Some(s) => {
            if s == t {
                return None;
            }
        },
        None => {},
    }
    match find_scope_depth(scopes, t) {
        Some(d) => {
            return Some(leaf(Statement::Continue(d)));
        },
        None => {},
    }
    match find_exit_depth(g, a, scopes, t) {
        Some(d) => {
            return Some(leaf(Statement::Break(d)));
        },
        None => {},
    }
    if fuel == 0 {
        return Some(leaf(Statement::Panic));
    }
    if a.header[t] {
        let mut inner = copy_vec(scopes);
        inner.push(t);
        let body = or_nop_exec(block_exec(g, a, t, None, &inner, fuel - 1));
        proof {
            lemma_follow_bound(*g, t as int);
        }
        let after = match a.follow[t] {
            Some(f) => goto_exec(g, a, f, stop, scopes, fuel - 1),
            None => None,
        };
        Some(then_rest_exec(Expression::Loop(Box::new(body)), after))
    } else {
        block_exec(g, a, t, stop, scopes, fuel - 1)
    }
}

fn block_exec(
    g: &BlockGraph,
    a: &Analysis,
    b: usize,
    stop: Option<usize>,
    scopes: &Vec<usize>,
    fuel: usize,
) -> (r: Option<Expression>)
    requires
        well_formed(*g),
        analysis_of(*g, *a),
        b < num_blocks(*g),
        scopes_ok(*g, scopes@),
    ensures
        opt_view(r) == block_expr(*g, b as int, stop, scopes@, fuel as nat),
    decreases fuel, 3nat, 0nat,
{
    let tail = term_exec(g, a, b, stop, scopes, fuel);
    let ghost tv = opt_view(tail);
    let stmts = &g.blocks[b].statements;
    let ghost model = block_stmts(*g, b as int);
    let mut acc = tail;
    let mut i: usize = stmts.len();
    proof {
        assert(model.subrange(0, i as int) =~= model);
    }
    while i > 0
        invariant
            i <= stmts@.len(),
            model == stmts@.map_values(|s: Statement| s@),
            prefixed(model, tv) == prefixed(model.subrange(0, i as int), opt_view(acc)),
        decreases i,
    {
        let s = copy_statement(&stmts[i - 1]);
        let ghost before = opt_view(acc);
        acc = Some(then_rest_exec(leaf(s), acc));
        proof {
            let sub = model.subrange(0, i as int);
            assert(sub.drop_last() =~= model.subrange(0, i as int - 1));
            assert(sub.last() == stmts@[i as int - 1]@);
        }
        i = i - 1;
    }
    proof {
        assert(model.subrange(0, 0) =~= Seq::<Stmt>::empty());
    }
    acc
}

fn term_exec(
    g: &BlockGraph,
    a: &Analysis,
    b: usize,
    stop: Option<usize>,
    scopes: &Vec<usize>,
    fuel: usize,
) -> (r: Option<Expression>)
    requires
        well_formed(*g),
        analysis_of(*g, *a),
        b < num_blocks(*g),
        scopes_ok(*g, scopes@),
    ensures
        opt_view(r) == term_expr(*g, b as int, stop, scopes@, fuel as nat),
    decreases fuel, 2nat, 0nat,
{
    let j = find_join_point(g, a, b, scopes);
    let inner = match j {
        Some(k) => Some(k),
        None => stop,
    };
    let ghost succ = block_succs(*g, b as int);
    match &g.blocks[b].terminator {
        Terminator::Goto(t) => {
            assert(succ[0] < num_blocks(*g));
            goto_exec(g, a, *t, stop, scopes, fuel)
        },
        Terminator::If(op, x, y) => {
            assert(succ[0] < num_blocks(*g));
            assert(succ[1] < num_blocks(*g));
            let te = or_nop_exec(goto_exec(g, a, *x, inner, scopes, fuel));
            let ee = or_nop_exec(goto_exec(g, a, *y, inner, scopes, fuel));
            let after = match j {
                Some(k) => goto_exec(g, a, k, stop, scopes, fuel),
                None => None,
            };
            Some(then_rest_exec(Expression::Switch(*op, SwitchTargets::If(Box::new(te), Box::new(ee))), after))
        },
        Terminator::SwitchInt(op, ty, cases, otherwise) => {
            proof {
                lemma_case_targets(cases@);
                assert(succ == case_targets(cases@).push(*otherwise));
                assert(succ[cases@.len() as int] < num_blocks(*g));
                assert forall|i: int| 0 <= i < cases@.len() implies #[trigger] cases@[i].1 < num_blocks(*g) by {
                    assert(succ[i] < num_blocks(*g));
                }
            }
            let cs = cases_exec(g, a, cases, inner, scopes, fuel);
            let oe = or_nop_exec(goto_exec(g, a, *otherwise, inner, scopes, fuel));
            let after = match j {
                Some(k) => goto_exec(g, a, k, stop, scopes, fuel),
                None => None,
            };
            Some(then_rest_exec(Expression::Switch(*op, SwitchTargets::SwitchInt(*ty, cs, Box::new(oe))), after))
        },
        Terminator::Call(c, t) => {
            assert(succ[0] < num_blocks(*g));
            let call = leaf(Statement::Call(copy_call(c)));
            Some(then_rest_exec(call, goto_exec(g, a, *t, stop, scopes, fuel)))
        },
        Terminator::Return => Some(leaf(Statement::Return)),
        Terminator::Abort => Some(leaf(Statement::Panic)),
    }
}

fn cases_exec(
    g: &BlockGraph,
    a: &Analysis,
    cases: &Vec<(u128, usize)>,
    stop: Option<usize>,
    scopes: &Vec<usize>,
    fuel: usize,
) -> (r: Vec<(u128, Expression)>)
    requires
        well_formed(*g),
        analysis_of(*g, *a),
        forall|i: int| 0 <= i < cases@.len() ==> #[trigger] cases@[i].1 < num_blocks(*g),
        scopes_ok(*g, scopes@),
    ensures
        cases_view(r@) == cases_expr(*g, cases@, stop, scopes@, fuel as nat),
    decreases fuel, 1nat, cases@.len(),
{
    let n = cases.len();
    let mut out: Vec<(u128, Expression)> = Vec::new();
    let mut i: usize = 0;
    while i < n
        invariant
            n == cases@.len(),
            well_formed(*g),
            analysis_of(*g, *a),
            forall|k: int| 0 <= k < cases@.len() ==> #[trigger] cases@[k].1 < num_blocks(*g),
            scopes_ok(*g, scopes@),
            i <= n,
            out@.len() == i,
            cases_view(out@) == cases_expr(*g, cases@.subrange(0, i as int), stop, scopes@, fuel as nat),
        decreases n - i,
    {
        let (v, t) = cases[i];
        let e = or_nop_exec(goto_exec(g, a, t, stop, scopes, fuel));
        let ghost before = out@;
        out.push((v, e));
        proof {
            let sub = cases@.subrange(0, i as int + 1);
            assert(sub.drop_last() =~= cases@.subrange(0, i as int));
            assert(out@.drop_last() =~= before);
        }
        i = i + 1;
    }
    proof {
        assert(cases@.subrange(0, n as int) =~= cases@);
    }
    out
}

/// What `structure` promises of its outcome on `g`.
pub open spec fn structure_outcome(g: BlockGraph, r: Result<Expression, IrreducibleControlFlow>) -> bool {
    &&& (r is Err <==> irreducible(g))
    &&& (r is Ok ==> r->Ok_0@ == structured(g))
}

/// Structuring is deterministic: two runs on the same graph both fail or
/// both give the same tree.
pub proof fn lemma_structure_deterministic(
    g: BlockGraph,
    r1: Result<Expression, IrreducibleControlFlow>,
    r2: Result<Expression, IrreducibleControlFlow>,
)
    requires
        structure_outcome(g, r1),
        structure_outcome(g, r2),
    ensures
        r1 is Ok <==> r2 is Ok,
        r1 is Ok ==> r1->Ok_0@ == r2->Ok_0@,
{
}

/// Rebuilds the nested control flow of `g` from its analysis `a`: `Err`
/// exactly when the graph has a loop with more than one entry, and
/// otherwise the structured form of the graph.
pub fn structure_with_analysis(g: &BlockGraph, a: &Analysis) -> (r: Result<Expression, IrreducibleControlFlow>)
    requires
        well_formed(*g),
        analysis_of(*g, *a),
    ensures
        r is Err <==> irreducible(*g),
        r is Err ==> on_forward_cycle(*g, r->Err_0.offending_block as int),
        r is Ok ==> r->Ok_0@ == structured(*g),
        r is Ok ==> depth_ok(r->Ok_0@, 0),
        structure_outcome(*g, r),
{
    proof {
        lemma_structured_depths(*g);
    }
    match check_reducible(g, a) {
        Err(e) => Err(e),
        Ok(()) => {
            let scopes: Vec<usize> = Vec::new();
            let fuel = 2 * g.blocks.len() + 1;
            proof {
                assert(scopes@ =~= Seq::<usize>::empty());
            }
            Ok(or_nop_exec(goto_exec(g, a, g.entry, None, &scopes, fuel)))
        },
    }
}

/// Analyses `g`, then rebuilds its nested control flow.
pub fn structure(g: &BlockGraph) -> (r: Result<Expression, IrreducibleControlFlow>)
    requires
        well_formed(*g),
    ensures
        r is Err <==> irreducible(*g),
        r is Err ==> on_forward_cycle(*g, r->Err_0.offending_block as int),
        r is Ok ==> r->Ok_0@ == structured(*g),
        r is Ok ==> depth_ok(r->Ok_0@, 0),
        structure_outcome(*g, r),
{
    let a = analyze(g);
    structure_with_analysis(g, &a)
}

} // verus!
