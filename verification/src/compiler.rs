//! Structured emission: from a control-flow graph to the target AST.
//!
//! The emitter walks the graph from `Entry`, translating each block's
//! opcodes and turning the typed edges into nested `if/else` and `while`
//! nodes.  A `while-false` header is inverted into `while-true` by an extra
//! `Not`; on a loop's back edge the header block is replayed inline so the
//! next iteration's test executes.

use vstd::prelude::*;

use crate::cfg::{cfg_result, Cfg, CfgError, OutgoingEdge};
use crate::instr::Instr;
use crate::label::Label;
use crate::masm::{
    lemma_nodes_tree_concat, lemma_nodes_tree_push, node_tree, nodes_tree, MasmInstr, MasmNode,
    MasmTree,
};
use crate::reach::forward_reaches;

verus! {

/// The faults compilation of a function can be rejected for.
#[derive(Debug, Clone, Copy, PartialEq, Eq, Structural)]
pub enum CompileError {
    /// The control-flow graph could not be built.
    Cfg(CfgError),
    /// An opcode the translator does not handle yet.
    UnsupportedOpcode,
    /// A 64-bit literal beyond the 32-bit range.
    ValueOutOfRange,
    /// A branching opcode reached the opcode translator.
    UnexpectedBranch,
    /// A function handle index outside the module's function table.
    MissingFunctionHandle,
    /// The emitter reached a label with no block.
    MissingBlock,
    /// The emitter reached a non-`Exit` label with no outgoing edge.
    MissingEdge,
    /// A procedure name the target assembler rejects.
    InvalidProcedureName,
    /// The emitter's recursion budget ran out before a structured form
    /// was found.
    RecursionLimit,
    /// More than one function is marked as the entry point.
    MultipleEntryPoints,
    /// No function is marked as the entry point.
    NoEntryPoint,
}

/// A module function, as the compiler needs it: its name.
#[derive(Debug, PartialEq, Eq)]
pub struct Function {
    pub name: String,
}

/// The module context carried through compilation: the function table, in
/// handle order.
#[derive(Debug, PartialEq, Eq)]
pub struct CompilerState {
    pub functions: Vec<Function>,
}

/// One function definition of a module: the index of its handle in the
/// function table, whether it is the module's entry point, and its body
/// (`None` for a native function with no bytecode).
#[derive(Debug, PartialEq, Eq)]
pub struct FunctionDef {
    pub function: u16,
    pub is_entry: bool,
    pub code: Option<Vec<Instr>>,
}

/// A compiled procedure.
#[derive(Debug, PartialEq, Eq)]
pub struct Proc {
    pub name: String,
    pub body: Vec<MasmNode>,
}

/// A compiled program: the entry procedure's body and the local procedures,
/// in definition order.
#[derive(Debug, PartialEq, Eq)]
pub struct Program {
    pub main: Vec<MasmNode>,
    pub local_procs: Vec<Proc>,
}

// ------------------------------------------------------------------
// The opcode translator.
// ------------------------------------------------------------------

/// What one instruction translates to: a short sequence of target
/// instructions, or a fault.  Branching opcodes must never reach this
/// function; the emitter consumes them as edges.
pub open spec fn translate_instr(nfuncs: nat, i: Instr) -> Result<Seq<MasmTree>, CompileError> {
    match i {
        Instr::Add => Ok(seq![MasmTree::Instruction(MasmInstr::Add)]),
        Instr::Sub => Ok(seq![MasmTree::Instruction(MasmInstr::Sub)]),
        Instr::Mul => Ok(seq![MasmTree::Instruction(MasmInstr::Mul)]),
        Instr::Div => Ok(seq![MasmTree::Instruction(MasmInstr::U32Div)]),
        Instr::Mod => Ok(seq![MasmTree::Instruction(MasmInstr::U32Mod)]),
        Instr::LdU32(x) => Ok(seq![MasmTree::Instruction(MasmInstr::PushU32(x))]),
        Instr::LdU64(x) => if x <= u32::MAX as u64 {
            Ok(seq![MasmTree::Instruction(MasmInstr::PushU32(x as u32))])
        } else {
            Err(CompileError::ValueOutOfRange)
        },
        Instr::Eq => Ok(seq![MasmTree::Instruction(MasmInstr::Eq)]),
        Instr::Pop => Ok(seq![MasmTree::Instruction(MasmInstr::Drop)]),
        Instr::MoveLoc(_) => Ok(Seq::empty()),
        Instr::Ret => Ok(Seq::empty()),
        Instr::Abort => Ok(
            seq![
                MasmTree::Instruction(MasmInstr::Drop),
                MasmTree::Instruction(MasmInstr::PushU32(1)),
                MasmTree::Instruction(MasmInstr::Assertz),
            ],
        ),
        Instr::Call(idx) => if (idx as int) < nfuncs {
            Ok(seq![MasmTree::Instruction(MasmInstr::ExecLocal(idx))])
        } else {
            Err(CompileError::MissingFunctionHandle)
        },
        Instr::BrTrue(_) => Err(CompileError::UnexpectedBranch),
        Instr::BrFalse(_) => Err(CompileError::UnexpectedBranch),
        Instr::Branch(_) => Err(CompileError::UnexpectedBranch),
        _ => Err(CompileError::UnsupportedOpcode),
    }
}

/// Translates the instructions of a block from position `k` on, the earlier
/// ones already accumulated; the first fault wins.
pub open spec fn translate_from(
    nfuncs: nat,
    code: Seq<Instr>,
    k: int,
    acc: Seq<MasmTree>,
) -> Result<Seq<MasmTree>, CompileError>
    decreases code.len() - k,
{
    if k < 0 || k >= code.len() {
        Ok(acc)
    } else {
        match translate_instr(nfuncs, code[k]) {
            Err(e) => Err(e),
            Ok(h) => translate_from(nfuncs, code, k + 1, acc + h),
        }
    }
}

/// What a whole block translates to.
pub open spec fn translate_block(nfuncs: nat, code: Seq<Instr>) -> Result<
    Seq<MasmTree>,
    CompileError,
> {
    translate_from(nfuncs, code, 0, Seq::empty())
}

/// The block's first fault sits at position `k`: everything before it
/// translates, and the opcode there yields exactly `e`.
pub open spec fn faulted_at(nfuncs: nat, code: Seq<Instr>, k: int, e: CompileError) -> bool {
    &&& 0 <= k < code.len()
    &&& forall|j: int| 0 <= j < k ==> (#[trigger] translate_instr(nfuncs, code[j])) is Ok
    &&& translate_instr(nfuncs, code[k]) == Err::<Seq<MasmTree>, CompileError>(e)
}

/// The target instructions of the first `k` opcodes of a block, all of
/// which translate successfully.
pub open spec fn oks_before(nfuncs: nat, code: Seq<Instr>, k: int) -> Seq<MasmTree>
    decreases k,
{
    if k <= 0 {
        Seq::empty()
    } else {
        oks_before(nfuncs, code, k - 1) + translate_instr(nfuncs, code[k - 1])->Ok_0
    }
}

/// Translates a block's opcodes, appending the target instructions to
/// `result`.
#[verifier::rlimit(100)]
fn compile_body(bytecode: &Vec<Instr>, state: &CompilerState, result: &mut Vec<MasmNode>) -> (r:
    Result<(), CompileError>)
    ensures
        match r {
            Ok(_) => translate_block(state.functions@.len() as nat, bytecode@) matches Ok(t)
                && nodes_tree(final(result)@) == nodes_tree(old(result)@) + t,
            // on a fault, the translations already appended stay in place:
            // everything before the first failing opcode is kept
            Err(e) => translate_block(state.functions@.len() as nat, bytecode@) == Err::<
                Seq<MasmTree>,
                CompileError,
            >(e) && (exists|k: int|
                #[trigger] faulted_at(state.functions@.len() as nat, bytecode@, k, e)
                    && nodes_tree(final(result)@) == nodes_tree(old(result)@) + oks_before(
                    state.functions@.len() as nat,
                    bytecode@,
                    k,
                )),
        },
{
    let ghost nf = state.functions@.len() as nat;
    let ghost bs = bytecode@;
    let ghost res0 = old(result)@;
    let ghost mut acc: Seq<MasmTree> = Seq::empty();
    proof {
        assert(nodes_tree(result@) =~= nodes_tree(res0) + acc);
    }
    let n = bytecode.len();
    for k in 0..n
        invariant
            bs == bytecode@,
            n == bs.len(),
            nf == state.functions@.len() as nat,
            res0 == old(result)@,
            nodes_tree(result@) == nodes_tree(res0) + acc,
            translate_from(nf, bs, k as int, acc) == translate_block(nf, bs),
            acc == oks_before(nf, bs, k as int),
            forall|j: int| 0 <= j < k ==> (#[trigger] translate_instr(nf, bs[j])) is Ok,
    {
        let ghost acc0 = acc;
        let ghost pre = result@;
        match bytecode[k] {
            Instr::Add => {
                result.push(MasmNode::Instruction(MasmInstr::Add));
                proof {
                    lemma_nodes_tree_push(pre, MasmNode::Instruction(MasmInstr::Add));
                    acc = acc0 + seq![MasmTree::Instruction(MasmInstr::Add)];
                    assert(nodes_tree(result@) =~= nodes_tree(res0) + acc);
                }
            },
            Instr::Sub => {
                result.push(MasmNode::Instruction(MasmInstr::Sub));
                proof {
                    lemma_nodes_tree_push(pre, MasmNode::Instruction(MasmInstr::Sub));
                    acc = acc0 + seq![MasmTree::Instruction(MasmInstr::Sub)];
                    assert(nodes_tree(result@) =~= nodes_tree(res0) + acc);
                }
            },
            Instr::Mul => {
                result.push(MasmNode::Instruction(MasmInstr::Mul));
                proof {
                    lemma_nodes_tree_push(pre, MasmNode::Instruction(MasmInstr::Mul));
                    acc = acc0 + seq![MasmTree::Instruction(MasmInstr::Mul)];
                    assert(nodes_tree(result@) =~= nodes_tree(res0) + acc);
                }
            },
            Instr::Div => {
                result.push(MasmNode::Instruction(MasmInstr::U32Div));
                proof {
                    lemma_nodes_tree_push(pre, MasmNode::Instruction(MasmInstr::U32Div));
                    acc = acc0 + seq![MasmTree::Instruction(MasmInstr::U32Div)];
                    assert(nodes_tree(result@) =~= nodes_tree(res0) + acc);
                }
            },
            Instr::Mod => {
                result.push(MasmNode::Instruction(MasmInstr::U32Mod));
                proof {
                    lemma_nodes_tree_push(pre, MasmNode::Instruction(MasmInstr::U32Mod));
                    acc = acc0 + seq![MasmTree::Instruction(MasmInstr::U32Mod)];
                    assert(nodes_tree(result@) =~= nodes_tree(res0) + acc);
                }
            },
            Instr::LdU32(x) => {
                result.push(MasmNode::Instruction(MasmInstr::PushU32(x)));
                proof {
                    lemma_nodes_tree_push(pre, MasmNode::Instruction(MasmInstr::PushU32(x)));
                    acc = acc0 + seq![MasmTree::Instruction(MasmInstr::PushU32(x))];
                    assert(nodes_tree(result@) =~= nodes_tree(res0) + acc);
                }
            },
            Instr::LdU64(x) => {
                if x <= 0xFFFF_FFFF {
                    result.push(MasmNode::Instruction(MasmInstr::PushU32(x as u32)));
                    proof {
                        lemma_nodes_tree_push(
                            pre,
                            MasmNode::Instruction(MasmInstr::PushU32(x as u32)),
                        );
                        acc = acc0 + seq![MasmTree::Instruction(MasmInstr::PushU32(x as u32))];
                        assert(nodes_tree(result@) =~= nodes_tree(res0) + acc);
                    }
                } else {
                    proof {
                        assert(faulted_at(
                            state.functions@.len() as nat,
                            bytecode@,
                            k as int,
                            CompileError::ValueOutOfRange,
                        ));
                        assert(nodes_tree(result@) == nodes_tree(old(result)@) + oks_before(
                            state.functions@.len() as nat,
                            bytecode@,
                            k as int,
                        ));
                    }
                    return Err(CompileError::ValueOutOfRange);
                }
            },
            Instr::Eq => {
                result.push(MasmNode::Instruction(MasmInstr::Eq));
                proof {
                    lemma_nodes_tree_push(pre, MasmNode::Instruction(MasmInstr::Eq));
                    acc = acc0 + seq![MasmTree::Instruction(MasmInstr::Eq)];
                    assert(nodes_tree(result@) =~= nodes_tree(res0) + acc);
                }
            },
            Instr::Pop => {
                result.push(MasmNode::Instruction(MasmInstr::Drop));
                proof {
                    lemma_nodes_tree_push(pre, MasmNode::Instruction(MasmInstr::Drop));
                    acc = acc0 + seq![MasmTree::Instruction(MasmInstr::Drop)];
                    assert(nodes_tree(result@) =~= nodes_tree(res0) + acc);
                }
            },
            Instr::MoveLoc(_) => {
                proof {
                    assert(acc0 + Seq::<MasmTree>::empty() =~= acc0);
                }
            },
            Instr::Ret => {
                proof {
                    assert(acc0 + Seq::<MasmTree>::empty() =~= acc0);
                }
            },
            Instr::Abort => {
                result.push(MasmNode::Instruction(MasmInstr::Drop));
                result.push(MasmNode::Instruction(MasmInstr::PushU32(1)));
                result.push(MasmNode::Instruction(MasmInstr::Assertz));
                proof {
                    lemma_nodes_tree_push(pre, MasmNode::Instruction(MasmInstr::Drop));
                    lemma_nodes_tree_push(
                        pre.push(MasmNode::Instruction(MasmInstr::Drop)),
                        MasmNode::Instruction(MasmInstr::PushU32(1)),
                    );
                    lemma_nodes_tree_push(
                        pre.push(MasmNode::Instruction(MasmInstr::Drop)).push(
                            MasmNode::Instruction(MasmInstr::PushU32(1)),
                        ),
                        MasmNode::Instruction(MasmInstr::Assertz),
                    );
                    acc = acc0
                        + seq![
                            MasmTree::Instruction(MasmInstr::Drop),
                            MasmTree::Instruction(MasmInstr::PushU32(1)),
                            MasmTree::Instruction(MasmInstr::Assertz),
                        ];
                    assert(nodes_tree(result@) =~= nodes_tree(res0) + acc);
                }
            },
            Instr::Call(idx) => {
                if (idx as usize) < state.functions.len() {
                    result.push(MasmNode::Instruction(MasmInstr::ExecLocal(idx)));
                    proof {
                        lemma_nodes_tree_push(
                            pre,
                            MasmNode::Instruction(MasmInstr::ExecLocal(idx)),
                        );
                        acc = acc0 + seq![MasmTree::Instruction(MasmInstr::ExecLocal(idx))];
                        assert(nodes_tree(result@) =~= nodes_tree(res0) + acc);
                    }
                } else {
                    proof {
                        assert(faulted_at(
                            state.functions@.len() as nat,
                            bytecode@,
                            k as int,
                            CompileError::MissingFunctionHandle,
                        ));
                        assert(nodes_tree(result@) == nodes_tree(old(result)@) + oks_before(
                            state.functions@.len() as nat,
                            bytecode@,
                            k as int,
                        ));
                    }
                    return Err(CompileError::MissingFunctionHandle);
                }
            },
            Instr::BrTrue(_) => {
                // Control flow is handled by the graph; a branch here is a fault.
                proof {
                    assert(faulted_at(
                        state.functions@.len() as nat,
                        bytecode@,
                        k as int,
                        CompileError::UnexpectedBranch,
                    ));
                    assert(nodes_tree(result@) == nodes_tree(old(result)@) + oks_before(
                        state.functions@.len() as nat,
                        bytecode@,
                        k as int,
                    ));
                }
                return Err(CompileError::UnexpectedBranch);
            },
            Instr::BrFalse(_) => {
                proof {
                    assert(faulted_at(
                        state.functions@.len() as nat,
                        bytecode@,
                        k as int,
                        CompileError::UnexpectedBranch,
                    ));
                    assert(nodes_tree(result@) == nodes_tree(old(result)@) + oks_before(
                        state.functions@.len() as nat,
                        bytecode@,
                        k as int,
                    ));
                }
                return Err(CompileError::UnexpectedBranch);
            },
            Instr::Branch(_) => {
                proof {
                    assert(faulted_at(
                        state.functions@.len() as nat,
                        bytecode@,
                        k as int,
                        CompileError::UnexpectedBranch,
                    ));
                    assert(nodes_tree(result@) == nodes_tree(old(result)@) + oks_before(
                        state.functions@.len() as nat,
                        bytecode@,
                        k as int,
                    ));
                }
                return Err(CompileError::UnexpectedBranch);
            },
            _ => {
                proof {
                    assert(faulted_at(
                        state.functions@.len() as nat,
                        bytecode@,
                        k as int,
                        CompileError::UnsupportedOpcode,
                    ));
                    assert(nodes_tree(result@) == nodes_tree(old(result)@) + oks_before(
                        state.functions@.len() as nat,
                        bytecode@,
                        k as int,
                    ));
                }
                return Err(CompileError::UnsupportedOpcode);
            },
        }
        proof {
            assert(translate_from(nf, bs, k + 1, acc) == translate_from(nf, bs, k as int, acc0));
            assert(acc =~= oks_before(nf, bs, k + 1));
        }
    }
    Ok(())
}

// ------------------------------------------------------------------
// The structured emitter.
// ------------------------------------------------------------------

/// Whether `l` is the nearest label both `a` and `b` reach in the forward
/// flow: forward-reachable from both, and no common label lies before it
/// in the label order.
pub open spec fn is_join(m: Map<Label, OutgoingEdge>, a: Label, b: Label, l: Label) -> bool {
    forward_reaches(m, a, l) && forward_reaches(m, b, l) && (forall|l2: Label|
        forward_reaches(m, a, l2) && #[trigger] forward_reaches(m, b, l2) ==> !l2.before(l))
}

/// The join point of an `if/else`: the first label, in label order, that
/// both sides reach in the forward flow; `Exit` if they reach no common
/// label (one side leaves the function or the loop, and there is nothing
/// to continue with).
pub open spec fn join_of(m: Map<Label, OutgoingEdge>, a: Label, b: Label) -> Label {
    if exists|l: Label| is_join(m, a, b, l) {
        choose|l: Label| is_join(m, a, b, l)
    } else {
        Label::Exit
    }
}

/// The contract of the join search pins `join_of` down.
pub proof fn lemma_join_of_is(m: Map<Label, OutgoingEdge>, a: Label, b: Label, r: Label)
    requires
        (forward_reaches(m, a, r) && forward_reaches(m, b, r) && (forall|l: Label|
            forward_reaches(m, a, l) && #[trigger] forward_reaches(m, b, l) ==> !l.before(r)))
            || (r == Label::Exit && (forall|l: Label|
            !(forward_reaches(m, a, l) && #[trigger] forward_reaches(m, b, l)))),
    ensures
        join_of(m, a, b) == r,
{
    if forward_reaches(m, a, r) && forward_reaches(m, b, r) {
        assert(is_join(m, a, b, r));
        let l = choose|l: Label| is_join(m, a, b, l);
        assert(is_join(m, a, b, l));
        assert(!l.before(r));
        assert(!r.before(l));
        crate::label::lemma_label_order_total(l, r);
    } else {
        if exists|l: Label| is_join(m, a, b, l) {
            let l = choose|l: Label| is_join(m, a, b, l);
            assert(forward_reaches(m, a, l) && forward_reaches(m, b, l));
        }
    }
}

/// The structured emission from `current` up to, but not including, `stop`:
/// the translated block, then its edge rendered as recursion, an `IfElse`
/// node joining at the two sides' forward reconvergence point, or a `While`
/// node whose body stops at the loop header.  On a `LoopBack` the header
/// block is replayed (with `Not` for a `while-false` header) so the next
/// iteration's test executes; the recursion bottoms out there.  Emission
/// continues after an `IfElse` only when the join lies strictly ahead; when
/// the arms instead run out at a back edge or leave the function, they have
/// absorbed everything and nothing follows the node.  The fuel bounds the
/// recursion depth.
pub open spec fn emit_from(
    blocks: Map<Label, Seq<Instr>>,
    edges: Map<Label, OutgoingEdge>,
    nfuncs: nat,
    current: Label,
    stop: Label,
    fuel: nat,
) -> Result<Seq<MasmTree>, CompileError>
    decreases fuel,
{
    if current == stop {
        Ok(Seq::empty())
    } else if fuel == 0 {
        Err(CompileError::RecursionLimit)
    } else if !blocks.dom().contains(current) {
        Err(CompileError::MissingBlock)
    } else {
        match translate_block(nfuncs, blocks[current]) {
            Err(e) => Err(e),
            Ok(body) => if !edges.dom().contains(current) {
                Err(CompileError::MissingEdge)
            } else {
                match edges[current] {
                    OutgoingEdge::Pass { next } => match emit_from(
                        blocks,
                        edges,
                        nfuncs,
                        next,
                        stop,
                        (fuel - 1) as nat,
                    ) {
                        Err(e) => Err(e),
                        Ok(rest) => Ok(body + rest),
                    },
                    OutgoingEdge::If { true_case, false_case } => {
                        let join = join_of(edges, true_case, false_case);
                        match emit_from(blocks, edges, nfuncs, true_case, join, (fuel - 1) as nat) {
                            Err(e) => Err(e),
                            Ok(tb) => match emit_from(
                                blocks,
                                edges,
                                nfuncs,
                                false_case,
                                join,
                                (fuel - 1) as nat,
                            ) {
                                Err(e) => Err(e),
                                Ok(fb) => if current.before(join) && join != Label::Exit {
                                    // the arms reconverge ahead: continue
                                    // from there
                                    match emit_from(
                                        blocks,
                                        edges,
                                        nfuncs,
                                        join,
                                        stop,
                                        (fuel - 1) as nat,
                                    ) {
                                        Err(e) => Err(e),
                                        Ok(rest) => Ok(
                                            body + seq![MasmTree::IfElse(tb, fb)] + rest,
                                        ),
                                    }
                                } else {
                                    // the arms end at a back edge or leave
                                    // the function: nothing follows the node
                                    Ok(body + seq![MasmTree::IfElse(tb, fb)])
                                },
                            },
                        }
                    },
                    OutgoingEdge::LoopBack { header } => {
                        if !blocks.dom().contains(header) {
                            Err(CompileError::MissingBlock)
                        } else {
                            match translate_block(nfuncs, blocks[header]) {
                                Err(e) => Err(e),
                                Ok(replay) => if !edges.dom().contains(header) {
                                    Err(CompileError::MissingEdge)
                                } else if edges[header] is WhileFalse {
                                    Ok(
                                        body + replay + seq![
                                            MasmTree::Instruction(MasmInstr::Not),
                                        ],
                                    )
                                } else {
                                    Ok(body + replay)
                                },
                            }
                        }
                    },
                    OutgoingEdge::WhileTrue { body_start, after } => {
                        match emit_from(
                            blocks,
                            edges,
                            nfuncs,
                            body_start,
                            current,
                            (fuel - 1) as nat,
                        ) {
                            Err(e) => Err(e),
                            Ok(lb) => match emit_from(
                                blocks,
                                edges,
                                nfuncs,
                                after,
                                stop,
                                (fuel - 1) as nat,
                            ) {
                                Err(e) => Err(e),
                                Ok(rest) => Ok(body + seq![MasmTree::While(lb)] + rest),
                            },
                        }
                    },
                    OutgoingEdge::WhileFalse { body_start, after } => {
                        match emit_from(
                            blocks,
                            edges,
                            nfuncs,
                            body_start,
                            current,
                            (fuel - 1) as nat,
                        ) {
                            Err(e) => Err(e),
                            Ok(lb) => match emit_from(
                                blocks,
                                edges,
                                nfuncs,
                                after,
                                stop,
                                (fuel - 1) as nat,
                            ) {
                                Err(e) => Err(e),
                                Ok(rest) => Ok(
                                    body + seq![
                                        MasmTree::Instruction(MasmInstr::Not),
                                        MasmTree::While(lb),
                                    ] + rest,
                                ),
                            },
                        }
                    },
                }
            },
        }
    }
}

/// Emits the structured code for the graph region between two labels.
#[verifier::rlimit(100)]
fn compile_with_cfg(
    cfg: &Cfg,
    state: &CompilerState,
    current_label: Label,
    target_label: Label,
    fuel: u64,
) -> (r: Result<Vec<MasmNode>, CompileError>)
    requires
        cfg.wf_rep(),
    ensures
        match r {
            Ok(v) => emit_from(
                cfg.blocks_view(),
                cfg.edges_view(),
                state.functions@.len() as nat,
                current_label,
                target_label,
                fuel as nat,
            ) == Ok::<Seq<MasmTree>, CompileError>(nodes_tree(v@)),
            Err(e) => emit_from(
                cfg.blocks_view(),
                cfg.edges_view(),
                state.functions@.len() as nat,
                current_label,
                target_label,
                fuel as nat,
            ) == Err::<Seq<MasmTree>, CompileError>(e),
        },
    decreases fuel,
{
    let ghost bm = cfg.blocks_view();
    let ghost em = cfg.edges_view();
    let ghost nf = state.functions@.len() as nat;
    let mut nodes: Vec<MasmNode> = Vec::new();
    proof {
        assert(nodes_tree(nodes@) =~= Seq::<MasmTree>::empty());
    }
    if current_label == target_label {
        return Ok(nodes);
    }
    if fuel == 0 {
        return Err(CompileError::RecursionLimit);
    }
    let block = match cfg.block(&current_label) {
        Some(b) => b,
        None => {
            return Err(CompileError::MissingBlock);
        },
    };
    match compile_body(&block.code, state, &mut nodes) {
        Ok(_u) => {},
        Err(e) => {
            return Err(e);
        },
    }
    let ghost body = nodes_tree(nodes@);
    proof {
        assert(translate_block(nf, bm[current_label]) == Ok::<Seq<MasmTree>, CompileError>(body));
    }
    let edge = match cfg.edge(&current_label) {
        Some(e) => *e,
        None => {
            return Err(CompileError::MissingEdge);
        },
    };
    match edge {
        OutgoingEdge::Pass { next } => {
            let mut rest = match compile_with_cfg(cfg, state, next, target_label, fuel - 1) {
                Ok(v) => v,
                Err(e) => {
                    return Err(e);
                },
            };
            proof {
                lemma_nodes_tree_concat(nodes@, rest@);
            }
            nodes.append(&mut rest);
        },
        OutgoingEdge::If { true_case, false_case } => {
            let new_target = crate::reach::first_common_ancestor(
                cfg.edges(),
                &true_case,
                &false_case,
            );
            proof {
                lemma_join_of_is(em, true_case, false_case, new_target);
            }
            let t_nodes = match compile_with_cfg(cfg, state, true_case, new_target, fuel - 1) {
                Ok(v) => v,
                Err(e) => {
                    return Err(e);
                },
            };
            let f_nodes = match compile_with_cfg(cfg, state, false_case, new_target, fuel - 1) {
                Ok(v) => v,
                Err(e) => {
                    return Err(e);
                },
            };
            let ghost tb = nodes_tree(t_nodes@);
            let ghost fb = nodes_tree(f_nodes@);
            let ghost pre = nodes@;
            let if_node = MasmNode::IfElse { true_case: t_nodes, false_case: f_nodes };
            proof {
                assert(node_tree(if_node) == MasmTree::IfElse(tb, fb));
                lemma_nodes_tree_push(pre, if_node);
            }
            nodes.push(if_node);
            let join_is_ahead = matches!(
                current_label.cmp_inner(&new_target),
                core::cmp::Ordering::Less
            );
            if join_is_ahead && new_target != Label::Exit {
                // the arms reconverge ahead: continue from there
                let mut rest = match compile_with_cfg(
                    cfg,
                    state,
                    new_target,
                    target_label,
                    fuel - 1,
                ) {
                    Ok(v) => v,
                    Err(e) => {
                        return Err(e);
                    },
                };
                let ghost restv = rest@;
                proof {
                    lemma_nodes_tree_concat(nodes@, rest@);
                    assert(nodes_tree(nodes@) =~= body + seq![MasmTree::IfElse(tb, fb)]);
                }
                nodes.append(&mut rest);
                proof {
                    assert(nodes_tree(nodes@) =~= (body + seq![MasmTree::IfElse(tb, fb)])
                        + nodes_tree(restv));
                }
            } else {
                // the arms end at a back edge or leave the function:
                // nothing follows the node
                proof {
                    assert(nodes_tree(nodes@) =~= body + seq![MasmTree::IfElse(tb, fb)]);
                }
            }
        },
        OutgoingEdge::LoopBack { header } => {
            let header_block = match cfg.block(&header) {
                Some(b) => b,
                None => {
                    return Err(CompileError::MissingBlock);
                },
            };
            let ghost pre = nodes@;
            match compile_body(&header_block.code, state, &mut nodes) {
                Ok(_u) => {},
                Err(e) => {
                    return Err(e);
                },
            }
            let ghost replay = translate_block(nf, bm[header])->Ok_0;
            proof {
                assert(nodes_tree(nodes@) =~= body + replay);
            }
            let header_edge = match cfg.edge(&header) {
                Some(e) => *e,
                None => {
                    return Err(CompileError::MissingEdge);
                },
            };
            if matches!(header_edge, OutgoingEdge::WhileFalse { .. }) {
                proof {
                    lemma_nodes_tree_push(nodes@, MasmNode::Instruction(MasmInstr::Not));
                }
                nodes.push(MasmNode::Instruction(MasmInstr::Not));
                proof {
                    assert(nodes_tree(nodes@) =~= body + replay + seq![
                        MasmTree::Instruction(MasmInstr::Not),
                    ]);
                }
            }
        },
        OutgoingEdge::WhileTrue { body_start, after } => {
            let body_nodes = match compile_with_cfg(cfg, state, body_start, current_label, fuel - 1)
                {
                Ok(v) => v,
                Err(e) => {
                    return Err(e);
                },
            };
            let ghost lb = nodes_tree(body_nodes@);
            let ghost pre = nodes@;
            let while_node = MasmNode::While { body: body_nodes };
            proof {
                assert(node_tree(while_node) == MasmTree::While(lb));
                lemma_nodes_tree_push(pre, while_node);
            }
            nodes.push(while_node);
            let mut rest = match compile_with_cfg(cfg, state, after, target_label, fuel - 1) {
                Ok(v) => v,
                Err(e) => {
                    return Err(e);
                },
            };
            let ghost restv = rest@;
            proof {
                lemma_nodes_tree_concat(nodes@, rest@);
                assert(nodes_tree(nodes@) =~= body + seq![MasmTree::While(lb)]);
            }
            nodes.append(&mut rest);
            proof {
                assert(nodes_tree(nodes@) =~= (body + seq![MasmTree::While(lb)]) + nodes_tree(
                    restv,
                ));
            }
        },
        OutgoingEdge::WhileFalse { body_start, after } => {
            proof {
                lemma_nodes_tree_push(nodes@, MasmNode::Instruction(MasmInstr::Not));
            }
            nodes.push(MasmNode::Instruction(MasmInstr::Not));
            let body_nodes = match compile_with_cfg(cfg, state, body_start, current_label, fuel - 1)
                {
                Ok(v) => v,
                Err(e) => {
                    return Err(e);
                },
            };
            let ghost lb = nodes_tree(body_nodes@);
            let ghost pre = nodes@;
            let while_node = MasmNode::While { body: body_nodes };
            proof {
                assert(node_tree(while_node) == MasmTree::While(lb));
                lemma_nodes_tree_push(pre, while_node);
            }
            nodes.push(while_node);
            let mut rest = match compile_with_cfg(cfg, state, after, target_label, fuel - 1) {
                Ok(v) => v,
                Err(e) => {
                    return Err(e);
                },
            };
            let ghost restv = rest@;
            proof {
                lemma_nodes_tree_concat(nodes@, rest@);
                assert(nodes_tree(nodes@) =~= body + seq![
                    MasmTree::Instruction(MasmInstr::Not),
                    MasmTree::While(lb),
                ]);
            }
            nodes.append(&mut rest);
            proof {
                assert(nodes_tree(nodes@) =~= (body + seq![
                    MasmTree::Instruction(MasmInstr::Not),
                    MasmTree::While(lb),
                ]) + nodes_tree(restv));
            }
        },
    }
    Ok(nodes)
}

// ------------------------------------------------------------------
// Compilation of functions and modules.
// ------------------------------------------------------------------

/// Whether the target assembler accepts a string as a procedure name.
pub uninterp spec fn proc_name_ok(name: Seq<char>) -> bool;

/// Relies on `miden_assembly::ast::ProcedureName::new`: whether a string
/// is accepted as a procedure identifier depends on its characters alone.
#[verifier::external_body]
fn check_proc_name(name: &String) -> (r: bool)
    ensures
        r == proc_name_ok(name@),
{
    miden_assembly::ast::ProcedureName::new(name.as_str()).is_ok()
}

/// The mathematical shape of a compiled procedure.
pub struct ProcModel {
    pub name: Seq<char>,
    pub body: Seq<MasmTree>,
}

/// The mathematical shape of a compiled program.
pub struct ProgramModel {
    pub main: Seq<MasmTree>,
    pub local_procs: Seq<ProcModel>,
}

/// The shape of a procedure value.
pub open spec fn proc_model(p: Proc) -> ProcModel {
    ProcModel { name: p.name@, body: nodes_tree(p.body@) }
}

/// The shapes of a sequence of procedures.
pub open spec fn procs_model(s: Seq<Proc>) -> Seq<ProcModel> {
    Seq::new(s.len(), |i: int| proc_model(s[i]))
}

/// The shape of a program value.
pub open spec fn program_model(p: Program) -> ProgramModel {
    ProgramModel { main: nodes_tree(p.main@), local_procs: procs_model(p.local_procs@) }
}

/// The shape of the optional entry procedure.
pub open spec fn opt_proc_model(o: Option<Proc>) -> Option<ProcModel> {
    match o {
        Some(p) => Some(proc_model(p)),
        None => None,
    }
}

/// The emitter's recursion budget for a function of `len` instructions:
/// generous for the graphs a structured front end emits, whose emission
/// makes forward progress in every frame.
pub open spec fn emit_fuel(len: nat) -> nat {
    if len < 1000000000000 {
        2 * len + 16
    } else {
        u64::MAX as nat
    }
}

fn make_fuel(len: usize) -> (r: u64)
    ensures
        r as nat == emit_fuel(len as nat),
{
    if (len as u64) < 1000000000000 {
        (len as u64) * 2 + 16
    } else {
        u64::MAX
    }
}

/// What compiling one function definition yields: the procedure's name and
/// emitted body, or the fault that stops it.  A definition without code
/// compiles to an empty procedure.
pub open spec fn compile_function_spec(fd: FunctionDef, state: CompilerState) -> Result<
    ProcModel,
    CompileError,
> {
    if fd.function as int >= state.functions@.len() {
        Err(CompileError::MissingFunctionHandle)
    } else {
        let name = state.functions@[fd.function as int].name@;
        match fd.code {
            None => if proc_name_ok(name) {
                Ok(ProcModel { name, body: Seq::empty() })
            } else {
                Err(CompileError::InvalidProcedureName)
            },
            Some(code) => match cfg_result(code@) {
                Err(e) => Err(CompileError::Cfg(e)),
                Ok(p) => match emit_from(
                    p.0,
                    p.1,
                    state.functions@.len() as nat,
                    Label::Entry,
                    Label::Exit,
                    emit_fuel(code@.len() as nat),
                ) {
                    Err(e) => Err(e),
                    Ok(body) => if proc_name_ok(name) {
                        Ok(ProcModel { name, body })
                    } else {
                        Err(CompileError::InvalidProcedureName)
                    },
                },
            },
        }
    }
}

/// An empty procedure under a given (validated) name.
fn empty_proc(name: String) -> (r: Result<Proc, CompileError>)
    ensures
        match r {
            Ok(p) => proc_name_ok(name@) && p.name@ == name@ && p.body@ == Seq::<
                MasmNode,
            >::empty(),
            Err(e) => e == CompileError::InvalidProcedureName && !proc_name_ok(name@),
        },
{
    if !check_proc_name(&name) {
        return Err(CompileError::InvalidProcedureName);
    }
    Ok(Proc { name, body: Vec::new() })
}

/// Compiles one function definition against the module context.
pub fn compile_function(func_def: &FunctionDef, state: &CompilerState) -> (r: Result<
    Proc,
    CompileError,
>)
    ensures
        match r {
            Ok(p) => compile_function_spec(*func_def, *state) == Ok::<ProcModel, CompileError>(
                proc_model(p),
            ),
            Err(e) => compile_function_spec(*func_def, *state) == Err::<ProcModel, CompileError>(
                e,
            ),
        },
{
    let idx = func_def.function as usize;
    if idx >= state.functions.len() {
        return Err(CompileError::MissingFunctionHandle);
    }
    let function = &state.functions[idx];
    match &func_def.code {
        None => {
            let r = empty_proc(function.name.clone());
            proof {
                if r is Ok {
                    assert(nodes_tree(r->Ok_0.body@) =~= Seq::<MasmTree>::empty());
                }
            }
            r
        },
        Some(code) => {
            let cfg = match Cfg::new(code) {
                Ok(c) => c,
                Err(e) => {
                    return Err(CompileError::Cfg(e));
                },
            };
            let fuel = make_fuel(code.len());
            let body = match compile_with_cfg(&cfg, state, Label::Entry, Label::Exit, fuel) {
                Ok(b) => b,
                Err(e) => {
                    return Err(e);
                },
            };
            if check_proc_name(&function.name) {
                Ok(Proc { name: function.name.clone(), body })
            } else {
                Err(CompileError::InvalidProcedureName)
            }
        },
    }
}

/// What compiling a whole module yields, scanning the definitions from
/// position `k` with the entry procedure and local procedures collected so
/// far: exactly one definition must be the entry point; its slot among the
/// local procedures is filled by a placeholder so that the numerical
/// indices used by `Call` stay stable.
pub open spec fn compile_from_spec(
    state: CompilerState,
    defs: Seq<FunctionDef>,
    k: int,
    main: Option<ProcModel>,
    locals: Seq<ProcModel>,
) -> Result<ProgramModel, CompileError>
    decreases defs.len() - k,
{
    if k < 0 || k >= defs.len() {
        match main {
            Some(mp) => Ok(ProgramModel { main: mp.body, local_procs: locals }),
            None => Err(CompileError::NoEntryPoint),
        }
    } else {
        match compile_function_spec(defs[k], state) {
            Err(e) => Err(e),
            Ok(p) => if defs[k].is_entry {
                if main is Some {
                    Err(CompileError::MultipleEntryPoints)
                } else if !proc_name_ok("dummy_name_in_place_of_main"@) {
                    Err(CompileError::InvalidProcedureName)
                } else {
                    compile_from_spec(
                        state,
                        defs,
                        k + 1,
                        Some(p),
                        locals.push(
                            (ProcModel {
                                name: "dummy_name_in_place_of_main"@,
                                body: Seq::empty(),
                            }),
                        ),
                    )
                }
            } else {
                compile_from_spec(state, defs, k + 1, main, locals.push(p))
            },
        }
    }
}

/// What compiling a whole module yields.
pub open spec fn compile_spec(state: CompilerState, defs: Seq<FunctionDef>) -> Result<
    ProgramModel,
    CompileError,
> {
    compile_from_spec(state, defs, 0, None, Seq::empty())
}

/// Compiles a module: every function definition in order, with the unique
/// entry point's body as the program's `main` and a placeholder keeping the
/// local procedure indices stable.
pub fn compile(state: &CompilerState, function_defs: &Vec<FunctionDef>) -> (r: Result<
    Program,
    CompileError,
>)
    ensures
        match r {
            Ok(prog) => compile_spec(*state, function_defs@) == Ok::<ProgramModel, CompileError>(
                program_model(prog),
            ),
            Err(e) => compile_spec(*state, function_defs@) == Err::<ProgramModel, CompileError>(e),
        },
{
    let ghost defs = function_defs@;
    let mut local_procs: Vec<Proc> = Vec::new();
    let mut main_proc: Option<Proc> = None;
    proof {
        assert(procs_model(local_procs@) =~= Seq::<ProcModel>::empty());
    }
    let n = function_defs.len();
    for k in 0..n
        invariant
            defs == function_defs@,
            n == defs.len(),
            compile_from_spec(
                *state,
                defs,
                k as int,
                opt_proc_model(main_proc),
                procs_model(local_procs@),
            ) == compile_spec(*state, defs),
    {
        let ghost main0 = opt_proc_model(main_proc);
        let ghost locals0 = procs_model(local_procs@);
        let func_def = &function_defs[k];
        let proc = match compile_function(func_def, state) {
            Ok(p) => p,
            Err(e) => {
                return Err(e);
            },
        };
        if func_def.is_entry {
            if main_proc.is_some() {
                return Err(CompileError::MultipleEntryPoints);
            }
            let ghost pm = proc_model(proc);
            main_proc = Some(proc);
            // A placeholder takes main's slot, so the local procedure
            // indices used by `Call` do not shift.
            let placeholder = match empty_proc(String::from_str("dummy_name_in_place_of_main")) {
                Ok(p) => p,
                Err(e) => {
                    return Err(e);
                },
            };
            let ghost lp = local_procs@;
            local_procs.push(placeholder);
            proof {
                assert(nodes_tree(placeholder.body@) =~= Seq::<MasmTree>::empty());
                assert(procs_model(local_procs@) =~= locals0.push(
                    (ProcModel { name: "dummy_name_in_place_of_main"@, body: Seq::empty() }),
                ));
                assert(compile_from_spec(
                    *state,
                    defs,
                    k + 1,
                    opt_proc_model(main_proc),
                    procs_model(local_procs@),
                ) == compile_from_spec(*state, defs, k as int, main0, locals0));
            }
        } else {
            let ghost pm = proc_model(proc);
            let ghost lp = local_procs@;
            local_procs.push(proc);
            proof {
                assert(procs_model(local_procs@) =~= locals0.push(pm));
                assert(compile_from_spec(
                    *state,
                    defs,
                    k + 1,
                    opt_proc_model(main_proc),
                    procs_model(local_procs@),
                ) == compile_from_spec(*state, defs, k as int, main0, locals0));
            }
        }
    }
    let main_proc = match main_proc {
        Some(p) => p,
        None => {
            return Err(CompileError::NoEntryPoint);
        },
    };
    Ok(Program { main: main_proc.body, local_procs })
}

// ------------------------------------------------------------------
// Laws of the emission.
// ------------------------------------------------------------------

/// The translator rejects every branching opcode: control flow reaches the
/// output only as `IfElse` and `While` structure, and the target
/// instruction set has no jump form at all, so no emission can contain a
/// branching opcode.
pub proof fn lemma_translator_rejects_branches(nfuncs: nat, i: Instr)
    requires
        crate::instr::is_jump(i),
    ensures
        translate_instr(nfuncs, i) == Err::<Seq<MasmTree>, CompileError>(
            CompileError::UnexpectedBranch,
        ),
{
}

/// The shape of a `while-true` header's emission: the condition code, the
/// loop node whose body stops at the header, then the code after the loop.
pub proof fn lemma_emit_while_true_shape(
    blocks: Map<Label, Seq<Instr>>,
    edges: Map<Label, OutgoingEdge>,
    nfuncs: nat,
    h: Label,
    stop: Label,
    fuel: nat,
    b: Label,
    a: Label,
)
    requires
        h != stop,
        fuel > 0,
        blocks.dom().contains(h),
        edges.dom().contains(h),
        edges[h] == (OutgoingEdge::WhileTrue { body_start: b, after: a }),
        translate_block(nfuncs, blocks[h]) is Ok,
    ensures
        emit_from(blocks, edges, nfuncs, h, stop, fuel) == (match emit_from(
            blocks,
            edges,
            nfuncs,
            b,
            h,
            (fuel - 1) as nat,
        ) {
            Err(e) => Err::<Seq<MasmTree>, CompileError>(e),
            Ok(lb) => match emit_from(blocks, edges, nfuncs, a, stop, (fuel - 1) as nat) {
                Err(e) => Err(e),
                Ok(rest) => Ok(
                    translate_block(nfuncs, blocks[h])->Ok_0 + seq![MasmTree::While(lb)] + rest,
                ),
            },
        }),
{
}

/// The shape of a `while-false` header's emission: identical to the
/// `while-true` shape except that the condition code is extended by one
/// `Not`, which inverts the test the loop node sees.
pub proof fn lemma_emit_while_false_shape(
    blocks: Map<Label, Seq<Instr>>,
    edges: Map<Label, OutgoingEdge>,
    nfuncs: nat,
    h: Label,
    stop: Label,
    fuel: nat,
    b: Label,
    a: Label,
)
    requires
        h != stop,
        fuel > 0,
        blocks.dom().contains(h),
        edges.dom().contains(h),
        edges[h] == (OutgoingEdge::WhileFalse { body_start: b, after: a }),
        translate_block(nfuncs, blocks[h]) is Ok,
    ensures
        emit_from(blocks, edges, nfuncs, h, stop, fuel) == (match emit_from(
            blocks,
            edges,
            nfuncs,
            b,
            h,
            (fuel - 1) as nat,
        ) {
            Err(e) => Err::<Seq<MasmTree>, CompileError>(e),
            Ok(lb) => match emit_from(blocks, edges, nfuncs, a, stop, (fuel - 1) as nat) {
                Err(e) => Err(e),
                Ok(rest) => Ok(
                    (translate_block(nfuncs, blocks[h])->Ok_0 + seq![
                        MasmTree::Instruction(MasmInstr::Not),
                    ]) + seq![MasmTree::While(lb)] + rest,
                ),
            },
        }),
{
    let c = translate_block(nfuncs, blocks[h])->Ok_0;
    match emit_from(blocks, edges, nfuncs, b, h, (fuel - 1) as nat) {
        Err(_e) => {},
        Ok(lb) => {
            match emit_from(blocks, edges, nfuncs, a, stop, (fuel - 1) as nat) {
                Err(_e) => {},
                Ok(rest) => {
                    assert(c + seq![
                        MasmTree::Instruction(MasmInstr::Not),
                        MasmTree::While(lb),
                    ] + rest =~= (c + seq![MasmTree::Instruction(MasmInstr::Not)]) + seq![
                        MasmTree::While(lb),
                    ] + rest);
                },
            }
        },
    }
}

/// The shape of a back edge's emission: the latch block's code, then the
/// header block replayed so the next iteration's test executes — with the
/// same extra `Not` as at the loop entry when the header is `while-false`.
/// Together with the two shapes above this exhibits the symmetry of the
/// two loop forms: extending the condition code by `Not`, at the entry and
/// at the back edge, turns the `while-false` emission into the
/// `while-true` one.
pub proof fn lemma_emit_loop_back_shape(
    blocks: Map<Label, Seq<Instr>>,
    edges: Map<Label, OutgoingEdge>,
    nfuncs: nat,
    latch: Label,
    h: Label,
    stop: Label,
    fuel: nat,
)
    requires
        latch != stop,
        fuel > 0,
        blocks.dom().contains(latch),
        edges.dom().contains(latch),
        edges[latch] == (OutgoingEdge::LoopBack { header: h }),
        blocks.dom().contains(h),
        edges.dom().contains(h),
        translate_block(nfuncs, blocks[latch]) is Ok,
        translate_block(nfuncs, blocks[h]) is Ok,
    ensures
        emit_from(blocks, edges, nfuncs, latch, stop, fuel) == Ok::<Seq<MasmTree>, CompileError>(
            translate_block(nfuncs, blocks[latch])->Ok_0 + (translate_block(
                nfuncs,
                blocks[h],
            )->Ok_0 + (if edges[h] is WhileFalse {
                seq![MasmTree::Instruction(MasmInstr::Not)]
            } else {
                Seq::empty()
            })),
    ),
{
    let body = translate_block(nfuncs, blocks[latch])->Ok_0;
    let replay = translate_block(nfuncs, blocks[h])->Ok_0;
    if edges[h] is WhileFalse {
        assert(body + replay + seq![MasmTree::Instruction(MasmInstr::Not)] =~= body + (replay
            + seq![MasmTree::Instruction(MasmInstr::Not)]));
    } else {
        assert(body + replay =~= body + (replay + Seq::<MasmTree>::empty()));
    }
}

/// Translation of branch-free code never faults on a branch.
proof fn lemma_translate_no_branch_fault(
    nfuncs: nat,
    code: Seq<Instr>,
    k: int,
    acc: Seq<MasmTree>,
)
    requires
        forall|j: int| 0 <= j < code.len() ==> !crate::instr::is_jump(#[trigger] code[j]),
    ensures
        translate_from(nfuncs, code, k, acc) != Err::<Seq<MasmTree>, CompileError>(
            CompileError::UnexpectedBranch,
        ),
    decreases code.len() - k,
{
    if 0 <= k < code.len() {
        assert(!crate::instr::is_jump(code[k]));
        match translate_instr(nfuncs, code[k]) {
            Err(_e) => {},
            Ok(h) => {
                lemma_translate_no_branch_fault(nfuncs, code, k + 1, acc + h);
            },
        }
    }
}

/// Emission over branch-free blocks never faults on a branch, at any
/// nesting depth: every block the recursion translates is one of the given
/// map's, and the translator is the only source of that fault.
proof fn lemma_emit_no_branch_fault(
    blocks: Map<Label, Seq<Instr>>,
    edges: Map<Label, OutgoingEdge>,
    nfuncs: nat,
    current: Label,
    stop: Label,
    fuel: nat,
)
    requires
        forall|l: Label, j: int|
            blocks.dom().contains(l) && 0 <= j < blocks[l].len() ==> !crate::instr::is_jump(
                #[trigger] blocks[l][j],
            ),
    ensures
        emit_from(blocks, edges, nfuncs, current, stop, fuel) != Err::<
            Seq<MasmTree>,
            CompileError,
        >(CompileError::UnexpectedBranch),
    decreases fuel,
{
    if current != stop && fuel > 0 && blocks.dom().contains(current) {
        lemma_translate_no_branch_fault(nfuncs, blocks[current], 0, Seq::empty());
        match translate_block(nfuncs, blocks[current]) {
            Err(_e) => {},
            Ok(_body) => {
                if edges.dom().contains(current) {
                    match edges[current] {
                        OutgoingEdge::Pass { next } => {
                            lemma_emit_no_branch_fault(
                                blocks,
                                edges,
                                nfuncs,
                                next,
                                stop,
                                (fuel - 1) as nat,
                            );
                        },
                        OutgoingEdge::If { true_case, false_case } => {
                            let join = join_of(edges, true_case, false_case);
                            lemma_emit_no_branch_fault(
                                blocks,
                                edges,
                                nfuncs,
                                true_case,
                                join,
                                (fuel - 1) as nat,
                            );
                            lemma_emit_no_branch_fault(
                                blocks,
                                edges,
                                nfuncs,
                                false_case,
                                join,
                                (fuel - 1) as nat,
                            );
                            lemma_emit_no_branch_fault(
                                blocks,
                                edges,
                                nfuncs,
                                join,
                                stop,
                                (fuel - 1) as nat,
                            );
                        },
                        OutgoingEdge::LoopBack { header } => {
                            if blocks.dom().contains(header) {
                                lemma_translate_no_branch_fault(
                                    nfuncs,
                                    blocks[header],
                                    0,
                                    Seq::empty(),
                                );
                            }
                        },
                        OutgoingEdge::WhileTrue { body_start, after } => {
                            lemma_emit_no_branch_fault(
                                blocks,
                                edges,
                                nfuncs,
                                body_start,
                                current,
                                (fuel - 1) as nat,
                            );
                            lemma_emit_no_branch_fault(
                                blocks,
                                edges,
                                nfuncs,
                                after,
                                stop,
                                (fuel - 1) as nat,
                            );
                        },
                        OutgoingEdge::WhileFalse { body_start, after } => {
                            lemma_emit_no_branch_fault(
                                blocks,
                                edges,
                                nfuncs,
                                body_start,
                                current,
                                (fuel - 1) as nat,
                            );
                            lemma_emit_no_branch_fault(
                                blocks,
                                edges,
                                nfuncs,
                                after,
                                stop,
                                (fuel - 1) as nat,
                            );
                        },
                    }
                }
            },
        }
    }
}

/// Branch opcodes are consumed by the graph and never reach the opcode
/// translator: emission over any graph the builder accepts, between any
/// two labels and with any budget, cannot fault on a branch — and since
/// the target instruction set has no jump form at all, no emission can
/// contain one either.  Control flow survives only as `IfElse` and
/// `While` structure.
pub proof fn lemma_emission_never_meets_a_branch(
    bs: Seq<Instr>,
    nfuncs: nat,
    current: Label,
    stop: Label,
    fuel: nat,
)
    requires
        bs.len() <= usize::MAX,
        cfg_result(bs) is Ok,
    ensures
        emit_from(
            cfg_result(bs)->Ok_0.0,
            cfg_result(bs)->Ok_0.1,
            nfuncs,
            current,
            stop,
            fuel,
        ) != Err::<Seq<MasmTree>, CompileError>(CompileError::UnexpectedBranch),
{
    let blocks = cfg_result(bs)->Ok_0.0;
    assert(blocks == crate::cfg::blocks_spec(bs));
    assert forall|l: Label, j: int|
        blocks.dom().contains(l) && 0 <= j < blocks[l].len() implies !crate::instr::is_jump(
        #[trigger] blocks[l][j],
    ) by {
        crate::cfg_laws::lemma_blocks_hold_no_branches(bs, l);
    }
    lemma_emit_no_branch_fault(blocks, cfg_result(bs)->Ok_0.1, nfuncs, current, stop, fuel);
}

} // verus!
