//! The structured target assembly AST.
//!
//! The target language has no jump instructions at all: control flow exists
//! only as nested `if/else` and `while` nodes, so emitted code cannot contain
//! a branching opcode by construction.

use vstd::prelude::*;

verus! {

broadcast use vstd::std_specs::vec::group_vec_axioms;

/// One instruction of the target assembly.
#[derive(Debug, Clone, Copy, PartialEq, Eq, Structural)]
pub enum MasmInstr {
    Add,
    Sub,
    Mul,
    U32Div,
    U32Mod,
    PushU32(u32),
    Eq,
    Drop,
    Assertz,
    ExecLocal(u16),
    Not,
}

/// A node of the structured target AST: a bare instruction, a two-armed
/// conditional, or a loop that runs while the top of the stack is true.
#[derive(Debug, PartialEq, Eq)]
pub enum MasmNode {
    Instruction(MasmInstr),
    IfElse { true_case: Vec<MasmNode>, false_case: Vec<MasmNode> },
    While { body: Vec<MasmNode> },
}

/// The mathematical shape of a node, with sequences for the nested bodies.
pub enum MasmTree {
    Instruction(MasmInstr),
    IfElse(Seq<MasmTree>, Seq<MasmTree>),
    While(Seq<MasmTree>),
}

/// The shape of a node.
pub open spec fn node_tree(n: MasmNode) -> MasmTree
    decreases n,
{
    match n {
        MasmNode::Instruction(i) => MasmTree::Instruction(i),
        MasmNode::IfElse { true_case, false_case } => MasmTree::IfElse(
            nodes_tree(true_case@),
            nodes_tree(false_case@),
        ),
        MasmNode::While { body } => MasmTree::While(nodes_tree(body@)),
    }
}

/// The shapes of a sequence of nodes.
pub open spec fn nodes_tree(s: Seq<MasmNode>) -> Seq<MasmTree>
    decreases s,
{
    Seq::new(
        s.len(),
        |i: int|
            if 0 <= i < s.len() {
                node_tree(s[i])
            } else {
                arbitrary()
            },
    )
}

/// Shapes distribute over concatenation.
pub proof fn lemma_nodes_tree_concat(a: Seq<MasmNode>, b: Seq<MasmNode>)
    ensures
        nodes_tree(a + b) =~= nodes_tree(a) + nodes_tree(b),
{
    assert forall|i: int| 0 <= i < a.len() + b.len() implies nodes_tree(a + b)[i] == (nodes_tree(a)
        + nodes_tree(b))[i] by {
        if i < a.len() {
            assert((a + b)[i] == a[i]);
        } else {
            assert((a + b)[i] == b[i - a.len()]);
        }
    }
}

/// The shape of one appended node.
pub proof fn lemma_nodes_tree_push(a: Seq<MasmNode>, n: MasmNode)
    ensures
        nodes_tree(a.push(n)) =~= nodes_tree(a).push(node_tree(n)),
{
    assert forall|i: int| 0 <= i < a.len() + 1 implies nodes_tree(a.push(n))[i] == nodes_tree(
        a,
    ).push(node_tree(n))[i] by {
        if i < a.len() {
            assert(a.push(n)[i] == a[i]);
        } else {
            assert(a.push(n)[i] == n);
        }
    }
}

} // verus!
