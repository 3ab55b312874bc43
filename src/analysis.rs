//! Reachability, dominance, post-dominance and loops of a block graph.
use vstd::prelude::*;
use crate::graph::{all_successors, edge, is_return, lists, num_blocks, well_formed, BlockGraph, block_succs};

verus! {

/// One step from `y` to `x`, along an edge or against it.
pub open spec fn step(g: BlockGraph, backward: bool, y: int, x: int) -> bool {
    if backward {
        edge(g, x, y)
    } else {
        edge(g, y, x)
    }
}

/// The blocks reached after one more step from the marked ones, through
/// allowed blocks.
pub open spec fn next_layer(g: BlockGraph, cur: Seq<bool>, allowed: Seq<bool>, backward: bool) -> Seq<bool> {
    Seq::new(
        cur.len(),
        |x: int|
            cur[x] || (allowed[x] && exists|y: int|
                0 <= y < num_blocks(g) && cur[y] && #[trigger] step(g, backward, y, x)),
    )
}

/// The blocks reached from a start block in at most `k` steps that only
/// visit allowed blocks.
pub open spec fn layer(g: BlockGraph, start: Seq<bool>, allowed: Seq<bool>, backward: bool, k: nat) -> Seq<bool>
    decreases k,
{
    if k == 0 {
        Seq::new(start.len(), |x: int| start[x] && allowed[x])
    } else {
        next_layer(g, layer(g, start, allowed, backward, (k - 1) as nat), allowed, backward)
    }
}

/// `x` is reached from a start block through allowed blocks (a path that
/// repeats no block suffices, so as many steps as there are blocks).
pub open spec fn reaches(g: BlockGraph, start: Seq<bool>, allowed: Seq<bool>, backward: bool, x: int) -> bool {
    layer(g, start, allowed, backward, num_blocks(g) as nat)[x]
}

/// The successor lists match the graph.
pub open spec fn succ_lists(g: BlockGraph, succ: Seq<Vec<usize>>) -> bool {
    &&& succ.len() == num_blocks(g)
    &&& forall|u: int| 0 <= u < num_blocks(g) ==> (#[trigger] succ[u])@ == block_succs(g, u)
}

/// Whether there is a step from `y` to `x`.
fn has_step(g: &BlockGraph, succ: &Vec<Vec<usize>>, backward: bool, y: usize, x: usize) -> (r: bool)
    requires
        succ_lists(*g, succ@),
        y < num_blocks(*g),
        x < num_blocks(*g),
    ensures
        r == step(*g, backward, y as int, x as int),
{
    if backward {
        lists(&succ[x], y)
    } else {
        lists(&succ[y], x)
    }
}

/// One more step of reachability.
fn reach_round(
    g: &BlockGraph,
    succ: &Vec<Vec<usize>>,
    cur: &Vec<bool>,
    allowed: &Vec<bool>,
    backward: bool,
) -> (next: Vec<bool>)
    requires
        succ_lists(*g, succ@),
        cur@.len() == num_blocks(*g),
        allowed@.len() == num_blocks(*g),
    ensures
        next@ == next_layer(*g, cur@, allowed@, backward),
{
    let n = g.blocks.len();
    let mut next: Vec<bool> = Vec::new();
    let mut x: usize = 0;
    while x < n
        invariant
            n == num_blocks(*g),
            succ_lists(*g, succ@),
            cur@.len() == n,
            allowed@.len() == n,
            x <= n,
            next@.len() == x,
            forall|z: int|
                0 <= z < x ==> #[trigger] next@[z] == (cur@[z] || (allowed@[z] && exists|y: int|
                    0 <= y < n && cur@[y] && #[trigger] step(*g, backward, y, z))),
        decreases n - x,
    {
        let mut found = false;
        let mut y: usize = 0;
        while y < n
            invariant
                n == num_blocks(*g),
                succ_lists(*g, succ@),
                cur@.len() == n,
                x < n,
                y <= n,
                found == exists|w: int| 0 <= w < y && cur@[w] && #[trigger] step(*g, backward, w, x as int),
            decreases n - y,
        {
            if cur[y] && has_step(g, succ, backward, y, x) {
                found = true;
            }
            y = y + 1;
        }
        next.push(cur[x] || (allowed[x] && found));
        x = x + 1;
    }
    assert(next@ =~= next_layer(*g, cur@, allowed@, backward));
    next
}

/// The blocks reached from the start blocks through allowed blocks.
pub fn reach_set(
    g: &BlockGraph,
    succ: &Vec<Vec<usize>>,
    start: &Vec<bool>,
    allowed: &Vec<bool>,
    backward: bool,
) -> (r: Vec<bool>)
    requires
        succ_lists(*g, succ@),
        start@.len() == num_blocks(*g),
        allowed@.len() == num_blocks(*g),
    ensures
        r@.len() == num_blocks(*g),
        forall|x: int| 0 <= x < num_blocks(*g) ==> #[trigger] r@[x] == reaches(*g, start@, allowed@, backward, x),
{
    let n = g.blocks.len();
    let mut cur: Vec<bool> = Vec::new();
    let mut x: usize = 0;
    while x < n
        invariant
            n == num_blocks(*g),
            start@.len() == n,
            allowed@.len() == n,
            x <= n,
            cur@.len() == x,
            forall|z: int| 0 <= z < x ==> #[trigger] cur@[z] == (start@[z] && allowed@[z]),
        decreases n - x,
    {
        cur.push(start[x] && allowed[x]);
        x = x + 1;
    }
    assert(cur@ =~= layer(*g, start@, allowed@, backward, 0));
    let mut k: usize = 0;
    while k < n
        invariant
            n == num_blocks(*g),
            succ_lists(*g, succ@),
            start@.len() == n,
            allowed@.len() == n,
            k <= n,
            cur@ == layer(*g, start@, allowed@, backward, k as nat),
        decreases n - k,
    {
        proof {
            lemma_layer_len(*g, start@, allowed@, backward, k as nat);
        }
        cur = reach_round(g, succ, &cur, allowed, backward);
        k = k + 1;
    }
    proof {
        lemma_layer_len(*g, start@, allowed@, backward, k as nat);
    }
    cur
}

proof fn lemma_layer_len(g: BlockGraph, start: Seq<bool>, allowed: Seq<bool>, backward: bool, k: nat)
    ensures
        layer(g, start, allowed, backward, k).len() == start.len(),
    decreases k,
{
    if k > 0 {
        lemma_layer_len(g, start, allowed, backward, (k - 1) as nat);
    }
}

/// Every block marked.
pub open spec fn all_blocks(n: int) -> Seq<bool> {
    Seq::new(n as nat, |i: int| true)
}

/// Only block `x` marked.
pub open spec fn just(n: int, x: int) -> Seq<bool> {
    Seq::new(n as nat, |i: int| i == x)
}

/// Every block but `x` marked.
pub open spec fn all_but(n: int, x: int) -> Seq<bool> {
    Seq::new(n as nat, |i: int| i != x)
}

/// The blocks that end with a return.
pub open spec fn return_blocks(g: BlockGraph) -> Seq<bool> {
    Seq::new(num_blocks(g) as nat, |i: int| is_return(g, i))
}

/// Block `b` is reached from the entry.
pub open spec fn reachable(g: BlockGraph, b: int) -> bool {
    reaches(g, just(num_blocks(g), g.entry as int), all_blocks(num_blocks(g)), false, b)
}

/// Every path from the entry to `b` passes through `d`.
pub open spec fn dominates(g: BlockGraph, d: int, b: int) -> bool {
    &&& reachable(g, b)
    &&& (d == b || !reaches(g, just(num_blocks(g), g.entry as int), all_but(num_blocks(g), d), false, b))
}

/// Some path from `b` ends with a return.
pub open spec fn can_return(g: BlockGraph, b: int) -> bool {
    reaches(g, return_blocks(g), all_blocks(num_blocks(g)), true, b)
}

/// `b` can return, and every path from `b` to a return passes through `d`.
pub open spec fn post_dominates(g: BlockGraph, d: int, b: int) -> bool {
    &&& can_return(g, b)
    &&& (d == b || !reaches(g, return_blocks(g), all_but(num_blocks(g), d), true, b))
}

pub open spec fn strictly_post_dominates(g: BlockGraph, d: int, b: int) -> bool {
    post_dominates(g, d, b) && d != b
}

/// An edge `u -> h` of a reachable block to a block that dominates it.
pub open spec fn back_edge(g: BlockGraph, u: int, h: int) -> bool {
    reachable(g, u) && edge(g, u, h) && dominates(g, h, u)
}

/// An edge between reachable blocks that is not a back edge.
pub open spec fn forward_edge(g: BlockGraph, u: int, v: int) -> bool {
    reachable(g, u) && reachable(g, v) && edge(g, u, v) && !dominates(g, v, u)
}

/// A loop header: the target of a back edge.
pub open spec fn is_header(g: BlockGraph, h: int) -> bool {
    exists|u: int| 0 <= u < num_blocks(g) && #[trigger] back_edge(g, u, h)
}

/// The sources of the back edges into `h`, other than `h` itself.
pub open spec fn body_seeds(g: BlockGraph, h: int) -> Seq<bool> {
    Seq::new(num_blocks(g) as nat, |x: int| back_edge(g, x, h) && x != h)
}

/// The blocks that `h` strictly dominates.
pub open spec fn body_allowed(g: BlockGraph, h: int) -> Seq<bool> {
    Seq::new(num_blocks(g) as nat, |x: int| dominates(g, h, x) && x != h)
}

/// `b` belongs to the loop of header `h`: it is `h`, or it reaches a back
/// edge into `h` through blocks that `h` dominates.
pub open spec fn in_body(g: BlockGraph, h: int, b: int) -> bool {
    &&& is_header(g, h)
    &&& (b == h || reaches(g, body_seeds(g, h), body_allowed(g, h), true, b))
}

/// `d` is the nearest strict post-dominator of `b`: every other one
/// post-dominates it.
pub open spec fn is_ipdom(g: BlockGraph, b: int, d: int) -> bool {
    &&& strictly_post_dominates(g, d, b)
    &&& forall|e: int| 0 <= e < num_blocks(g) && #[trigger] strictly_post_dominates(g, e, b) ==> post_dominates(g, e, d)
}

/// A strict post-dominator of header `h` outside its loop.
pub open spec fn leaves_to(g: BlockGraph, h: int, d: int) -> bool {
    strictly_post_dominates(g, d, h) && !in_body(g, h, d)
}

/// `d` is the nearest block outside the loop of `h` where every way out of
/// that loop meets.
pub open spec fn is_follow(g: BlockGraph, h: int, d: int) -> bool {
    &&& leaves_to(g, h, d)
    &&& forall|e: int| 0 <= e < num_blocks(g) && #[trigger] leaves_to(g, h, e) ==> post_dominates(g, e, d)
}

/// The first index from `i` below `n` that satisfies `p`.
pub open spec fn first_from(p: spec_fn(int) -> bool, i: int, n: int) -> Option<usize>
    decreases n - i,
{
    if i >= n || i < 0 {
        None
    } else if p(i) {
        Some(i as usize)
    } else {
        first_from(p, i + 1, n)
    }
}

/// The immediate post-dominator of `b` (the lowest-numbered, should several
/// qualify).
pub open spec fn ipdom(g: BlockGraph, b: int) -> Option<usize> {
    first_from(|d: int| is_ipdom(g, b, d), 0, num_blocks(g))
}

/// Where control goes on after the loop of header `h`.
pub open spec fn loop_follow(g: BlockGraph, h: int) -> Option<usize> {
    if is_header(g, h) {
        first_from(|d: int| is_follow(g, h, d), 0, num_blocks(g))
    } else {
        None
    }
}

/// `m` holds `f(i, j)` at row `i`, column `j`, for `i`, `j` below `n`.
pub open spec fn matrix_of(m: Seq<Vec<bool>>, n: int, f: spec_fn(int, int) -> bool) -> bool {
    &&& m.len() == n
    &&& forall|i: int| 0 <= i < n ==> (#[trigger] m[i])@.len() == n
    &&& forall|i: int, j: int| 0 <= i < n && 0 <= j < n ==> #[trigger] m[i]@[j] == f(i, j)
}

/// The facts about a graph that structuring consults.
pub struct Analysis {
    pub succ: Vec<Vec<usize>>,
    pub reachable: Vec<bool>,
    /// `dom[d][b]`: `d` dominates `b`.
    pub dom: Vec<Vec<bool>>,
    /// `pdom[d][b]`: `d` post-dominates `b`.
    pub pdom: Vec<Vec<bool>>,
    pub header: Vec<bool>,
    /// `body[h][b]`: `b` is in the loop of header `h`.
    pub body: Vec<Vec<bool>>,
    pub ipdom: Vec<Option<usize>>,
    pub follow: Vec<Option<usize>>,
}

/// `a` holds the facts of `g`.
pub open spec fn analysis_of(g: BlockGraph, a: Analysis) -> bool {
    let n = num_blocks(g);
    &&& succ_lists(g, a.succ@)
    &&& a.reachable@.len() == n
    &&& forall|b: int| 0 <= b < n ==> #[trigger] a.reachable@[b] == reachable(g, b)
    &&& matrix_of(a.dom@, n, |d: int, b: int| dominates(g, d, b))
    &&& matrix_of(a.pdom@, n, |d: int, b: int| post_dominates(g, d, b))
    &&& a.header@.len() == n
    &&& forall|h: int| 0 <= h < n ==> #[trigger] a.header@[h] == is_header(g, h)
    &&& matrix_of(a.body@, n, |h: int, b: int| in_body(g, h, b))
    &&& a.ipdom@.len() == n
    &&& forall|b: int| 0 <= b < n ==> #[trigger] a.ipdom@[b] == ipdom(g, b)
    &&& a.follow@.len() == n
    &&& forall|h: int| 0 <= h < n ==> #[trigger] a.follow@[h] == loop_follow(g, h)
}

fn marks(n: usize, only: bool, x: usize) -> (r: Vec<bool>)
    ensures
        r@ == (if only { just(n as int, x as int) } else { all_but(n as int, x as int) }),
{
    let mut r: Vec<bool> = Vec::new();
    let mut i: usize = 0;
    while i < n
        invariant
            i <= n,
            r@.len() == i,
            forall|j: int| 0 <= j < i ==> #[trigger] r@[j] == (if only { j == x } else { j != x }),
        decreases n - i,
    {
        r.push(if only { i == x } else { i != x });
        i = i + 1;
    }
    proof {
        if only {
            assert(r@ =~= just(n as int, x as int));
        } else {
            assert(r@ =~= all_but(n as int, x as int));
        }
    }
    r
}

fn all_marked(n: usize) -> (r: Vec<bool>)
    ensures
        r@ == all_blocks(n as int),
{
    let r = vec_of(n, true);
    assert(r@ =~= all_blocks(n as int));
    r
}

fn vec_of(n: usize, v: bool) -> (r: Vec<bool>)
    ensures
        r@.len() == n,
        forall|j: int| 0 <= j < n ==> #[trigger] r@[j] == v,
{
    let mut r: Vec<bool> = Vec::new();
    let mut i: usize = 0;
    while i < n
        invariant
            i <= n,
            r@.len() == i,
            forall|j: int| 0 <= j < i ==> #[trigger] r@[j] == v,
        decreases n - i,
    {
        r.push(v);
        i = i + 1;
    }
    r
}

fn returns_marked(g: &BlockGraph) -> (r: Vec<bool>)
    ensures
        r@ == return_blocks(*g),
{
    let mut r: Vec<bool> = Vec::new();
    let mut i: usize = 0;
    while i < g.blocks.len()
        invariant
            i <= num_blocks(*g),
            r@.len() == i,
            forall|j: int| 0 <= j < i ==> #[trigger] r@[j] == is_return(*g, j),
        decreases num_blocks(*g) - i,
    {
        let ret = match g.blocks[i].terminator {
            crate::graph::Terminator::Return => true,
            _ => false,
        };
        r.push(ret);
        i = i + 1;
    }
    assert(r@ =~= return_blocks(*g));
    r
}

/// `m[d][b]`: `d` dominates `b` (forward, from the entry) or post-dominates
/// it (backward, from the returns).
fn dominance_matrix(
    g: &BlockGraph,
    succ: &Vec<Vec<usize>>,
    start: &Vec<bool>,
    seen: &Vec<bool>,
    backward: bool,
) -> (m: Vec<Vec<bool>>)
    requires
        succ_lists(*g, succ@),
        start@.len() == num_blocks(*g),
        seen@.len() == num_blocks(*g),
        forall|b: int|
            0 <= b < num_blocks(*g) ==> #[trigger] seen@[b] == reaches(
                *g,
                start@,
                all_blocks(num_blocks(*g)),
                backward,
                b,
            ),
    ensures
        matrix_of(
            m@,
            num_blocks(*g),
            |d: int, b: int|
                reaches(*g, start@, all_blocks(num_blocks(*g)), backward, b) && (d == b || !reaches(
                    *g,
                    start@,
                    all_but(num_blocks(*g), d),
                    backward,
                    b,
                )),
        ),
{
    let n = g.blocks.len();
    let mut m: Vec<Vec<bool>> = Vec::new();
    let mut d: usize = 0;
    while d < n
        invariant
            n == num_blocks(*g),
            succ_lists(*g, succ@),
            start@.len() == n,
            seen@.len() == n,
            forall|b: int|
                0 <= b < n ==> #[trigger] seen@[b] == reaches(*g, start@, all_blocks(n as int), backward, b),
            d <= n,
            m@.len() == d,
            forall|i: int| 0 <= i < d ==> (#[trigger] m@[i])@.len() == n,
            forall|i: int, j: int|
                0 <= i < d && 0 <= j < n ==> #[trigger] m@[i]@[j] == (reaches(
                    *g,
                    start@,
                    all_blocks(n as int),
                    backward,
                    j,
                ) && (i == j || !reaches(*g, start@, all_but(n as int, i), backward, j))),
        decreases n - d,
    {
        let allowed = marks(n, false, d);
        let avoid = reach_set(g, succ, start, &allowed, backward);
        let mut row: Vec<bool> = Vec::new();
        let mut b: usize = 0;
        while b < n
            invariant
                n == num_blocks(*g),
                seen@.len() == n,
                avoid@.len() == n,
                b <= n,
                row@.len() == b,
                forall|j: int| 0 <= j < b ==> #[trigger] row@[j] == (seen@[j] && (d == j || !avoid@[j])),
            decreases n - b,
        {
            row.push(seen[b] && (d == b || !avoid[b]));
            b = b + 1;
        }
        m.push(row);
        d = d + 1;
    }
    m
}

/// Whether `h` is the target of a back edge.
fn find_header(g: &BlockGraph, succ: &Vec<Vec<usize>>, reach: &Vec<bool>, dom: &Vec<Vec<bool>>, h: usize) -> (r: bool)
    requires
        succ_lists(*g, succ@),
        reach@.len() == num_blocks(*g),
        forall|b: int| 0 <= b < num_blocks(*g) ==> #[trigger] reach@[b] == reachable(*g, b),
        matrix_of(dom@, num_blocks(*g), |d: int, b: int| dominates(*g, d, b)),
        h < num_blocks(*g),
    ensures
        r == is_header(*g, h as int),
{
    let n = g.blocks.len();
    let mut u: usize = 0;
    while u < n
        invariant
            n == num_blocks(*g),
            succ_lists(*g, succ@),
            reach@.len() == n,
            forall|b: int| 0 <= b < n ==> #[trigger] reach@[b] == reachable(*g, b),
            matrix_of(dom@, n as int, |d: int, b: int| dominates(*g, d, b)),
            h < n,
            u <= n,
            forall|w: int| 0 <= w < u ==> !#[trigger] back_edge(*g, w, h as int),
        decreases n - u,
    {
        if reach[u] && lists(&succ[u], h) && dom[h][u] {
            assert(back_edge(*g, u as int, h as int));
            return true;
        }
        u = u + 1;
    }
    false
}

/// The row of loop membership for `h`.
fn body_row(
    g: &BlockGraph,
    succ: &Vec<Vec<usize>>,
    reach: &Vec<bool>,
    dom: &Vec<Vec<bool>>,
    is_head: bool,
    h: usize,
) -> (row: Vec<bool>)
    requires
        succ_lists(*g, succ@),
        reach@.len() == num_blocks(*g),
        forall|b: int| 0 <= b < num_blocks(*g) ==> #[trigger] reach@[b] == reachable(*g, b),
        matrix_of(dom@, num_blocks(*g), |d: int, b: int| dominates(*g, d, b)),
        h < num_blocks(*g),
        is_head == is_header(*g, h as int),
    ensures
        row@.len() == num_blocks(*g),
        forall|b: int| 0 <= b < num_blocks(*g) ==> #[trigger] row@[b] == in_body(*g, h as int, b),
{
    let n = g.blocks.len();
    if !is_head {
        return vec_of(n, false);
    }
    let mut seeds: Vec<bool> = Vec::new();
    let mut allowed: Vec<bool> = Vec::new();
    let mut x: usize = 0;
    while x < n
        invariant
            n == num_blocks(*g),
            succ_lists(*g, succ@),
            reach@.len() == n,
            forall|b: int| 0 <= b < n ==> #[trigger] reach@[b] == reachable(*g, b),
            matrix_of(dom@, n as int, |d: int, b: int| dominates(*g, d, b)),
            h < n,
            x <= n,
            seeds@.len() == x,
            allowed@.len() == x,
            forall|j: int| 0 <= j < x ==> #[trigger] seeds@[j] == (back_edge(*g, j, h as int) && j != h),
            forall|j: int| 0 <= j < x ==> #[trigger] allowed@[j] == (dominates(*g, h as int, j) && j != h),
        decreases n - x,
    {
        seeds.push(reach[x] && lists(&succ[x], h) && dom[h][x] && x != h);
        allowed.push(dom[h][x] && x != h);
        x = x + 1;
    }
    assert(seeds@ =~= body_seeds(*g, h as int));
    assert(allowed@ =~= body_allowed(*g, h as int));
    let r = reach_set(g, succ, &seeds, &allowed, true);
    let mut row: Vec<bool> = Vec::new();
    let mut b: usize = 0;
    while b < n
        invariant
            n == num_blocks(*g),
            r@.len() == n,
            is_header(*g, h as int),
            forall|j: int| 0 <= j < n ==> #[trigger] r@[j] == reaches(*g, body_seeds(*g, h as int), body_allowed(*g, h as int), true, j),
            b <= n,
            row@.len() == b,
            forall|j: int| 0 <= j < b ==> #[trigger] row@[j] == in_body(*g, h as int, j),
        decreases n - b,
    {
        row.push(b == h || r[b]);
        b = b + 1;
    }
    row
}

/// The nearest strict post-dominator of `b`.
fn find_ipdom(g: &BlockGraph, pdom: &Vec<Vec<bool>>, b: usize) -> (r: Option<usize>)
    requires
        matrix_of(pdom@, num_blocks(*g), |d: int, x: int| post_dominates(*g, d, x)),
        b < num_blocks(*g),
    ensures
        r == ipdom(*g, b as int),
{
    let n = g.blocks.len();
    let ghost p = |d: int| is_ipdom(*g, b as int, d);
    let mut d: usize = 0;
    while d < n
        invariant
            n == num_blocks(*g),
            matrix_of(pdom@, n as int, |d: int, x: int| post_dominates(*g, d, x)),
            b < n,
            d <= n,
            p == (|d: int| is_ipdom(*g, b as int, d)),
            first_from(p, 0, n as int) == first_from(p, d as int, n as int),
        decreases n - d,
    {
        let mut ok = pdom[d][b] && d != b;
        let mut e: usize = 0;
        while e < n && ok
            invariant
                n == num_blocks(*g),
                matrix_of(pdom@, n as int, |d: int, x: int| post_dominates(*g, d, x)),
                b < n,
                d < n,
                e <= n,
                ok ==> strictly_post_dominates(*g, d as int, b as int),
                ok ==> forall|f: int| 0 <= f < e && #[trigger] strictly_post_dominates(*g, f, b as int) ==> post_dominates(*g, f, d as int),
                !ok ==> !is_ipdom(*g, b as int, d as int),
            decreases n - e,
        {
            if pdom[e][b] && e != b && !pdom[e][d] {
                assert(strictly_post_dominates(*g, e as int, b as int));
                ok = false;
            }
            e = e + 1;
        }
        if ok {
            return Some(d);
        }
        d = d + 1;
    }
    None
}

/// Where control goes on after the loop of `h`.
fn find_follow(g: &BlockGraph, pdom: &Vec<Vec<bool>>, body: &Vec<Vec<bool>>, is_head: bool, h: usize) -> (r: Option<usize>)
    requires
        matrix_of(pdom@, num_blocks(*g), |d: int, x: int| post_dominates(*g, d, x)),
        matrix_of(body@, num_blocks(*g), |k: int, x: int| in_body(*g, k, x)),
        h < num_blocks(*g),
        is_head == is_header(*g, h as int),
    ensures
        r == loop_follow(*g, h as int),
{
    if !is_head {
        return None;
    }
    let n = g.blocks.len();
    let ghost p = |d: int| is_follow(*g, h as int, d);
    let mut d: usize = 0;
    while d < n
        invariant
            n == num_blocks(*g),
            matrix_of(pdom@, n as int, |d: int, x: int| post_dominates(*g, d, x)),
            matrix_of(body@, n as int, |k: int, x: int| in_body(*g, k, x)),
            h < n,
            d <= n,
            is_header(*g, h as int),
            p == (|d: int| is_follow(*g, h as int, d)),
            first_from(p, 0, n as int) == first_from(p, d as int, n as int),
        decreases n - d,
    {
        let mut ok = pdom[d][h] && d != h && !body[h][d];
        let mut e: usize = 0;
        while e < n && ok
            invariant
                n == num_blocks(*g),
                matrix_of(pdom@, n as int, |d: int, x: int| post_dominates(*g, d, x)),
                matrix_of(body@, n as int, |k: int, x: int| in_body(*g, k, x)),
                h < n,
                d < n,
                e <= n,
                ok ==> leaves_to(*g, h as int, d as int),
                ok ==> forall|f: int| 0 <= f < e && #[trigger] leaves_to(*g, h as int, f) ==> post_dominates(*g, f, d as int),
                !ok ==> !is_follow(*g, h as int, d as int),
            decreases n - e,
        {
            if pdom[e][h] && e != h && !body[h][e] && !pdom[e][d] {
                assert(leaves_to(*g, h as int, e as int));
                ok = false;
            }
            e = e + 1;
        }
        if ok {
            assert(p(d as int));
            return Some(d);
        }
        d = d + 1;
    }
    None
}

/// Computes reachability, dominance, post-dominance, loops, immediate
/// post-dominators and loop follows of `g`.
pub fn analyze(g: &BlockGraph) -> (a: Analysis)
    requires
        well_formed(*g),
    ensures
        analysis_of(*g, a),
{
    let n = g.blocks.len();
    let succ = all_successors(g);
    let entry = marks(n, true, g.entry);
    let all = all_marked(n);
    let reach = reach_set(g, &succ, &entry, &all, false);
    let dom = dominance_matrix(g, &succ, &entry, &reach, false);
    let rets = returns_marked(g);
    let exits = reach_set(g, &succ, &rets, &all, true);
    let pdom = dominance_matrix(g, &succ, &rets, &exits, true);
    assert(matrix_of(dom@, n as int, |d: int, b: int| dominates(*g, d, b)));
    assert(matrix_of(pdom@, n as int, |d: int, b: int| post_dominates(*g, d, b)));
    let mut header: Vec<bool> = Vec::new();
    let mut body: Vec<Vec<bool>> = Vec::new();
    let mut h: usize = 0;
    while h < n
        invariant
            n == num_blocks(*g),
            succ_lists(*g, succ@),
            reach@.len() == n,
            forall|b: int| 0 <= b < n ==> #[trigger] reach@[b] == reachable(*g, b),
            matrix_of(dom@, n as int, |d: int, b: int| dominates(*g, d, b)),
            h <= n,
            header@.len() == h,
            forall|k: int| 0 <= k < h ==> #[trigger] header@[k] == is_header(*g, k),
            body@.len() == h,
            forall|k: int| 0 <= k < h ==> (#[trigger] body@[k])@.len() == n,
            forall|k: int, b: int| 0 <= k < h && 0 <= b < n ==> #[trigger] body@[k]@[b] == in_body(*g, k, b),
        decreases n - h,
    {
        let is_head = find_header(g, &succ, &reach, &dom, h);
        header.push(is_head);
        body.push(body_row(g, &succ, &reach, &dom, is_head, h));
        h = h + 1;
    }
    assert(matrix_of(body@, n as int, |k: int, b: int| in_body(*g, k, b)));
    let mut ipd: Vec<Option<usize>> = Vec::new();
    let mut follow: Vec<Option<usize>> = Vec::new();
    let mut b: usize = 0;
    while b < n
        invariant
            n == num_blocks(*g),
            matrix_of(pdom@, n as int, |d: int, x: int| post_dominates(*g, d, x)),
            matrix_of(body@, n as int, |k: int, x: int| in_body(*g, k, x)),
            header@.len() == n,
            forall|k: int| 0 <= k < n ==> #[trigger] header@[k] == is_header(*g, k),
            b <= n,
            ipd@.len() == b,
            follow@.len() == b,
            forall|k: int| 0 <= k < b ==> #[trigger] ipd@[k] == ipdom(*g, k),
            forall|k: int| 0 <= k < b ==> #[trigger] follow@[k] == loop_follow(*g, k),
        decreases n - b,
    {
        ipd.push(find_ipdom(g, &pdom, b));
        follow.push(find_follow(g, &pdom, &body, header[b], b));
        b = b + 1;
    }
    Analysis { succ, reachable: reach, dom, pdom, header, body, ipdom: ipd, follow }
}

/// Structuring fails: control flow that no nesting of loops expresses.
#[derive(Debug, Clone, Copy, PartialEq, Eq, Structural)]
pub struct IrreducibleControlFlow {
    pub offending_block: usize,
}

/// A set of blocks, each entered by a forward edge from a block of the
/// set: a cycle that no back edge closes.
#[verifier::opaque]
pub open spec fn forward_cycle_set(g: BlockGraph, s: Set<int>) -> bool {
    forall|x: int|
        #[trigger] s.contains(x) ==> 0 <= x < num_blocks(g) && exists|y: int|
            s.contains(y) && forward_edge(g, y, x)
}

/// The graph has a loop with more than one entry: its forward edges, those
/// that are not back edges, form a cycle.
pub open spec fn irreducible(g: BlockGraph) -> bool {
    exists|s: Set<int>, x: int| forward_cycle_set(g, s) && s.contains(x)
}

/// Block `b` lies in a set of blocks whose forward edges form a cycle.
pub open spec fn on_forward_cycle(g: BlockGraph, b: int) -> bool {
    exists|s: Set<int>| forward_cycle_set(g, s) && #[trigger] s.contains(b)
}

/// The number of marked entries.
pub open spec fn count_marked(s: Seq<bool>) -> nat
    decreases s.len(),
{
    if s.len() == 0 {
        0
    } else {
        count_marked(s.drop_last()) + if s.last() { 1nat } else { 0nat }
    }
}

proof fn lemma_unmark_decreases(s: Seq<bool>, i: int)
    requires
        0 <= i < s.len(),
        s[i],
    ensures
        count_marked(s.update(i, false)) < count_marked(s),
    decreases s.len(),
{
    let t = s.update(i, false);
    if i == s.len() - 1 {
        assert(t.drop_last() =~= s.drop_last());
    } else {
        assert(t.drop_last() =~= s.drop_last().update(i, false));
        lemma_unmark_decreases(s.drop_last(), i);
    }
}

/// Whether a marked block has a forward edge into `x`.
fn entered_from(g: &BlockGraph, a: &Analysis, rem: &Vec<bool>, x: usize) -> (r: bool)
    requires
        analysis_of(*g, *a),
        rem@.len() == num_blocks(*g),
        x < num_blocks(*g),
    ensures
        r == exists|y: int| 0 <= y < num_blocks(*g) && rem@[y] && #[trigger] forward_edge(*g, y, x as int),
{
    let n = g.blocks.len();
    let mut y: usize = 0;
    while y < n
        invariant
            n == num_blocks(*g),
            analysis_of(*g, *a),
            rem@.len() == n,
            x < n,
            y <= n,
            forall|w: int| 0 <= w < y ==> !(rem@[w] && #[trigger] forward_edge(*g, w, x as int)),
        decreases n - y,
    {
        if rem[y] && a.reachable[y] && a.reachable[x] && lists(&a.succ[y], x) && !a.dom[x][y] {
            assert(forward_edge(*g, y as int, x as int));
            return true;
        }
        y = y + 1;
    }
    false
}

/// The first marked block that no marked block enters by a forward edge.
fn find_unentered(g: &BlockGraph, a: &Analysis, rem: &Vec<bool>) -> (found: Option<usize>)
    requires
        analysis_of(*g, *a),
        rem@.len() == num_blocks(*g),
    ensures
        found matches Some(v) ==> v < num_blocks(*g) && rem@[v as int] && !exists|y: int|
            0 <= y < num_blocks(*g) && rem@[y] && #[trigger] forward_edge(*g, y, v as int),
        found is None ==> forall|z: int|
            0 <= z < num_blocks(*g) && #[trigger] rem@[z] ==> exists|y: int|
                0 <= y < num_blocks(*g) && rem@[y] && #[trigger] forward_edge(*g, y, z),
{
    let n = g.blocks.len();
    let mut x: usize = 0;
    while x < n
        invariant
            n == num_blocks(*g),
            analysis_of(*g, *a),
            rem@.len() == n,
            x <= n,
            forall|z: int|
                0 <= z < x && #[trigger] rem@[z] ==> exists|y: int|
                    0 <= y < n && rem@[y] && #[trigger] forward_edge(*g, y, z),
        decreases n - x,
    {
        if rem[x] && !entered_from(g, a, &rem, x) {
            return Some(x);
        }
        x = x + 1;
    }
    None
}

/// The marked blocks, when each is entered by a forward edge from another.
proof fn lemma_stuck_is_cycle(g: BlockGraph, rem: Seq<bool>)
    requires
        rem.len() == num_blocks(g),
        forall|z: int|
            0 <= z < num_blocks(g) && #[trigger] rem[z] ==> exists|y: int|
                0 <= y < num_blocks(g) && rem[y] && #[trigger] forward_edge(g, y, z),
    ensures
        forward_cycle_set(g, Set::new(|z: int| 0 <= z < num_blocks(g) && rem[z])),
{
    let s = Set::new(|z: int| 0 <= z < num_blocks(g) && rem[z]);
    reveal(forward_cycle_set);
    assert forall|z: int| #[trigger] s.contains(z) implies 0 <= z < num_blocks(g) && exists|y: int|
        s.contains(y) && forward_edge(g, y, z) by {
        let y = choose|y: int| 0 <= y < num_blocks(g) && rem[y] && #[trigger] forward_edge(g, y, z);
        assert(s.contains(y));
    }
}

proof fn lemma_cycles_reachable(g: BlockGraph, rem: Seq<bool>)
    requires
        rem.len() == num_blocks(g),
        forall|x: int| 0 <= x < num_blocks(g) ==> #[trigger] rem[x] == reachable(g, x),
    ensures
        forall|s: Set<int>, x: int| forward_cycle_set(g, s) && #[trigger] s.contains(x) ==> rem[x],
{
    reveal(forward_cycle_set);
    assert forall|s: Set<int>, x: int| forward_cycle_set(g, s) && #[trigger] s.contains(x) implies rem[x] by {
        let y = choose|y: int| s.contains(y) && forward_edge(g, y, x);
    }
}

proof fn lemma_unmark_keeps_cycles(g: BlockGraph, rem: Seq<bool>, v: int)
    requires
        rem.len() == num_blocks(g),
        0 <= v < num_blocks(g),
        forall|s: Set<int>, x: int| forward_cycle_set(g, s) && #[trigger] s.contains(x) ==> rem[x],
        !exists|y: int| 0 <= y < num_blocks(g) && rem[y] && #[trigger] forward_edge(g, y, v),
    ensures
        forall|s: Set<int>, x: int| forward_cycle_set(g, s) && #[trigger] s.contains(x) ==> rem.update(v, false)[x],
{
    assert forall|s: Set<int>, x: int| forward_cycle_set(g, s) && #[trigger] s.contains(x) implies rem.update(v, false)[x] by {
        reveal(forward_cycle_set);
        if x == v {
            let y = choose|y: int| s.contains(y) && forward_edge(g, y, x);
            assert(s.contains(y));
            assert(rem[y]);
        }
    }
}

/// The first marked index.
fn first_marked(rem: &Vec<bool>) -> (r: Option<usize>)
    ensures
        r matches Some(k) ==> k < rem@.len() && rem@[k as int],
        r is None ==> forall|z: int| 0 <= z < rem@.len() ==> !#[trigger] rem@[z],
{
    let mut k: usize = 0;
    while k < rem.len()
        invariant
            k <= rem@.len(),
            forall|z: int| 0 <= z < k ==> !#[trigger] rem@[z],
        decreases rem@.len() - k,
    {
        if rem[k] {
            return Some(k);
        }
        k = k + 1;
    }
    None
}

/// Checks that every loop has a single entry: `Err` exactly when the
/// forward edges of the reachable blocks form a cycle, naming a block on it.
#[verifier::rlimit(40)]
pub fn check_reducible(g: &BlockGraph, a: &Analysis) -> (r: Result<(), IrreducibleControlFlow>)
    requires
        well_formed(*g),
        analysis_of(*g, *a),
    ensures
        r is Ok <==> !irreducible(*g),
        r is Err ==> on_forward_cycle(*g, r->Err_0.offending_block as int),
{
    let n = g.blocks.len();
    let mut rem: Vec<bool> = Vec::new();
    let mut i: usize = 0;
    while i < n
        invariant
            n == num_blocks(*g),
            analysis_of(*g, *a),
            i <= n,
            rem@.len() == i,
            forall|x: int| 0 <= x < i ==> #[trigger] rem@[x] == reachable(*g, x),
        decreases n - i,
    {
        rem.push(a.reachable[i]);
        i = i + 1;
    }
    proof {
        lemma_cycles_reachable(*g, rem@);
    }
    loop
        invariant
            n == num_blocks(*g),
            analysis_of(*g, *a),
            rem@.len() == n,
            forall|s: Set<int>, x: int| forward_cycle_set(*g, s) && #[trigger] s.contains(x) ==> rem@[x],
        decreases count_marked(rem@),
    {
        match find_unentered(g, a, &rem) {
            Some(v) => {
                let ghost old_rem = rem@;
                proof {
                    lemma_unmark_decreases(rem@, v as int);
                }
                proof {
                    lemma_unmark_keeps_cycles(*g, rem@, v as int);
                }
                rem.set(v, false);
            },
            None => {
                let ghost s = Set::new(|z: int| 0 <= z < num_blocks(*g) && rem@[z]);
                proof {
                    lemma_stuck_is_cycle(*g, rem@);
                    assert(forward_cycle_set(*g, s));
                }
                match first_marked(&rem) {
                    Some(k) => {
                        assert(forward_cycle_set(*g, s) && s.contains(k as int));
                        assert(irreducible(*g));
                        assert(on_forward_cycle(*g, k as int));
                        let e = IrreducibleControlFlow { offending_block: k };
                        assert(e.offending_block == k);
                        return Err(e);
                    },
                    None => {},
                }
                assert forall|t: Set<int>, z: int| forward_cycle_set(*g, t) implies !#[trigger] t.contains(z) by {
                    reveal(forward_cycle_set);
                    if t.contains(z) {
                        assert(rem@[z]);
                    }
                }
                return Ok(());
            },
        }
    }
}

} // verus!
