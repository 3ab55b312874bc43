//! The block graph: basic blocks of straight-line statements, each ended by
//! a terminator that names its successors.
use vstd::prelude::*;
use crate::cfim_ast::{Call, Operand, Statement};
use crate::types::IntegerTy;

verus! {

/// The control transfer that ends a block.
#[derive(Debug)]
pub enum Terminator {
    Goto(usize),
    /// Test, `then` target, `else` target.
    If(Operand, usize, usize),
    /// Tested value, its integer type, the targets for given values in their
    /// declared order, and the target for every other value.
    SwitchInt(Operand, IntegerTy, Vec<(u128, usize)>, usize),
    /// A call, then the block where execution goes on.
    Call(Call, usize),
    Return,
    /// Panic or unreachable code: no successor.
    Abort,
}

#[derive(Debug)]
pub struct Block {
    pub statements: Vec<Statement>,
    pub terminator: Terminator,
}

/// A function body as blocks, identified by their position.
#[derive(Debug)]
pub struct BlockGraph {
    pub entry: usize,
    pub blocks: Vec<Block>,
}

/// The targets of a value-indexed switch, in order.
pub open spec fn case_targets(cases: Seq<(u128, usize)>) -> Seq<usize>
    decreases cases.len(),
{
    if cases.len() == 0 {
        Seq::empty()
    } else {
        case_targets(cases.drop_last()).push(cases.last().1)
    }
}

/// The successors of a terminator, in order.
pub open spec fn succs(t: Terminator) -> Seq<usize> {
    match t {
        Terminator::Goto(x) => seq![x],
        Terminator::If(_, x, y) => seq![x, y],
        Terminator::SwitchInt(_, _, cases, otherwise) => case_targets(cases@).push(otherwise),
        Terminator::Call(_, x) => seq![x],
        Terminator::Return => Seq::empty(),
        Terminator::Abort => Seq::empty(),
    }
}

pub open spec fn num_blocks(g: BlockGraph) -> int {
    g.blocks@.len() as int
}

/// The successors of block `u`.
pub open spec fn block_succs(g: BlockGraph, u: int) -> Seq<usize> {
    succs(g.blocks@[u].terminator)
}

/// Whether the graph has an edge from block `u` to block `v`.
pub open spec fn edge(g: BlockGraph, u: int, v: int) -> bool {
    &&& 0 <= u < num_blocks(g)
    &&& exists|k: int| 0 <= k < block_succs(g, u).len() && block_succs(g, u)[k] == v
}

/// Whether block `u` ends with a return.
pub open spec fn is_return(g: BlockGraph, u: int) -> bool {
    g.blocks@[u].terminator is Return
}

/// A statement that a block may hold: one with no control effect.
pub open spec fn is_simple(s: Statement) -> bool {
    ||| s is Assign
    ||| s is FakeRead
    ||| s is SetDiscriminant
    ||| s is Drop
    ||| s is Nop
}

/// The entry exists, every target names a block, blocks hold simple
/// statements only, and the block count leaves room for the step bound of
/// structuring.
pub open spec fn well_formed(g: BlockGraph) -> bool {
    &&& 0 <= g.entry < num_blocks(g)
    &&& forall|u: int, i: int|
        0 <= u < num_blocks(g) && 0 <= i < g.blocks@[u].statements@.len() ==> is_simple(
            #[trigger] g.blocks@[u].statements@[i],
        )
    &&& num_blocks(g) < 0x4000_0000
    &&& forall|u: int, k: int|
        0 <= u < num_blocks(g) && 0 <= k < block_succs(g, u).len() ==> #[trigger] block_succs(
            g,
            u,
        )[k] < num_blocks(g)
}

/// The successors of a terminator, as a vector.
pub fn successors(t: &Terminator) -> (r: Vec<usize>)
    ensures
        r@ == succs(*t),
{
    match t {
        Terminator::Goto(x) => vec![*x],
        Terminator::If(_, x, y) => vec![*x, *y],
        Terminator::SwitchInt(_, _, cases, otherwise) => {
            let mut r: Vec<usize> = Vec::new();
            let mut i: usize = 0;
            while i < cases.len()
                invariant
                    i <= cases@.len(),
                    r@ == case_targets(cases@.subrange(0, i as int)),
                decreases cases@.len() - i,
            {
                proof {
                    assert(cases@.subrange(0, i as int + 1).drop_last() =~= cases@.subrange(0, i as int));
                }
                r.push(cases[i].1);
                i = i + 1;
            }
            proof {
                assert(cases@.subrange(0, cases@.len() as int) =~= cases@);
            }
            r.push(*otherwise);
            r
        },
        Terminator::Call(_, x) => vec![*x],
        Terminator::Return => Vec::new(),
        Terminator::Abort => Vec::new(),
    }
}

/// The successor lists of all blocks.
pub fn all_successors(g: &BlockGraph) -> (r: Vec<Vec<usize>>)
    ensures
        r@.len() == num_blocks(*g),
        forall|u: int| 0 <= u < num_blocks(*g) ==> (#[trigger] r@[u])@ == block_succs(*g, u),
{
    let mut r: Vec<Vec<usize>> = Vec::new();
    let mut u: usize = 0;
    while u < g.blocks.len()
        invariant
            u <= g.blocks@.len(),
            r@.len() == u,
            forall|v: int| 0 <= v < u ==> (#[trigger] r@[v])@ == block_succs(*g, v),
        decreases g.blocks@.len() - u,
    {
        r.push(successors(&g.blocks[u].terminator));
        u = u + 1;
    }
    r
}

/// Whether `v` is among the successors listed in `s`.
pub fn lists(s: &Vec<usize>, v: usize) -> (r: bool)
    ensures
        r == exists|k: int| 0 <= k < s@.len() && s@[k] == v,
{
    let mut k: usize = 0;
    while k < s.len()
        invariant
            k <= s@.len(),
            forall|j: int| 0 <= j < k ==> s@[j] != v,
        decreases s@.len() - k,
    {
        if s[k] == v {
            return true;
        }
        k = k + 1;
    }
    false
}

} // verus!
