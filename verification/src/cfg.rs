//! Construction of control-flow graphs for bytecode functions.
//!
//! A function's instruction buffer is partitioned into basic blocks (no
//! block contains a branch), and every block except `Exit` is given exactly
//! one typed outgoing edge.  `Branch` instructions that jump backwards
//! identify loops; the `if/else` edge previously recorded for the loop
//! header is then promoted in place to a `while` header.

use vstd::prelude::*;

use crate::instr::{is_cond, is_jump, jump_target, Instr};
use crate::label::{lab_of, Label};
use crate::label_map::LabelMap;
use crate::reach::{has_path, reaches};

verus! {

/// A block of bytecode without any control flow
/// (no `BrTrue`, `BrFalse`, `Branch`).
/// A block of bytecode is a node in the control flow graph.
#[derive(Debug, Clone, PartialEq, Eq, Default)]
pub struct Block {
    pub code: Vec<Instr>,
}

impl View for Block {
    type V = Seq<Instr>;

    open spec fn view(&self) -> Seq<Instr> {
        self.code@
    }
}

impl Block {
    pub fn new(code: Vec<Instr>) -> (r: Self)
        ensures
            r@ == code@,
    {
        Self { code }
    }
}

/// The single typed outgoing edge of a block.
#[derive(Debug, Clone, Copy, PartialEq, Eq, Structural)]
pub enum OutgoingEdge {
    If { true_case: Label, false_case: Label },
    Pass { next: Label },
    LoopBack { header: Label },
    WhileTrue { body_start: Label, after: Label },
    // The target has no while-false form, but it arises from the source's
    // less restrictive loop structure.  Emission converts it to
    // `WhileTrue` by adding an extra `Not` instruction.
    WhileFalse { body_start: Label, after: Label },
}

/// The structural faults a bytecode function can be rejected for.
#[derive(Debug, Clone, Copy, PartialEq, Eq, Structural)]
pub enum CfgError {
    // BrTrue, BrFalse and Branch are not allowed to jump to another such instruction.
    BranchToBranch,
    // BrTrue and BrFalse are not allowed to jump to an earlier index in the bytecode.
    ConditionalJumpBack,
    // BrTrue, BrFalse and Branch must branch to a value in [0, bytecode.len() - 1].
    BranchOutOfBounds,
    // BrTrue, BrFalse and Branch cannot target itself as the jump point.
    SelfBranch,
    // It is not allowed to have multiple BrTrue/BrFalse in a row.
    RepeatConditionalBranch,
    // A branch would end a block while none is open: the buffer's first
    // instruction is itself a branch.
    UnexpectedBlockEnd,
    // Loop headers are expected to have two branch options: loop body or post-loop code
    InvalidLoopHeader,
}

// ------------------------------------------------------------------
// The mathematical description of the block partition.
// ------------------------------------------------------------------

/// Whether `d` is a branch destination contributed by the first `n`
/// instructions: offset 0 and the end of the buffer always are; every branch
/// target is; and the fall-through successor of every conditional is.
pub open spec fn is_dest_upto(bs: Seq<Instr>, d: int, n: int) -> bool {
    ||| d == 0
    ||| d == bs.len()
    ||| exists|i: int| 0 <= i < n && is_jump(#[trigger] bs[i]) && jump_target(bs[i]) == d
    ||| exists|i: int| 0 <= i < n && is_cond(#[trigger] bs[i]) && d == i + 1
}

/// Whether `d` is a branch destination of the function.
pub open spec fn is_dest(bs: Seq<Instr>, d: int) -> bool {
    is_dest_upto(bs, d, bs.len() as int)
}

/// Whether a branch instruction sits at offset `i`.
pub open spec fn is_origin(bs: Seq<Instr>, i: int) -> bool {
    0 <= i < bs.len() && is_jump(bs[i])
}

/// Whether offset `i` separates two blocks.
pub open spec fn is_point(bs: Seq<Instr>, i: int) -> bool {
    is_dest(bs, i) || is_origin(bs, i)
}

/// Whether a basic block starts at offset `s`.  A branch instruction is the
/// terminator of a block, never its head, so origins are excluded.
pub open spec fn is_block_start(bs: Seq<Instr>, s: int) -> bool {
    0 <= s < bs.len() && is_dest(bs, s) && !is_origin(bs, s)
}

/// The first point at or after `j` (the buffer's end counts as a point).
pub open spec fn next_point(bs: Seq<Instr>, j: int) -> int
    recommends
        0 <= j <= bs.len(),
    decreases bs.len() - j,
{
    if j < 0 || j >= bs.len() {
        bs.len() as int
    } else if is_point(bs, j) {
        j
    } else {
        next_point(bs, j + 1)
    }
}

/// Where the block starting at `s` ends (exclusive).
pub open spec fn block_end(bs: Seq<Instr>, s: int) -> int {
    next_point(bs, s + 1)
}

/// The block partition of the buffer: every block start is mapped to the
/// instructions up to the next point, and `Exit` to the empty block.  The
/// empty buffer keeps an empty `Entry` block, so that `Entry` and `Exit`
/// are present in every accepted graph.
pub open spec fn blocks_spec(bs: Seq<Instr>) -> Map<Label, Seq<Instr>> {
    Map::new(
        |l: Label|
            l == Label::Exit || (l == Label::Entry && bs.len() == 0) || (exists|s: int|
                is_block_start(bs, s) && l == lab_of(s)),
        |l: Label|
            match l {
                Label::Exit => Seq::empty(),
                Label::Entry => bs.subrange(0, block_end(bs, 0)),
                Label::Point(s) => bs.subrange(s as int, block_end(bs, s as int)),
            },
    )
}


// ------------------------------------------------------------------
// The mathematical description of the edge classification.
// ------------------------------------------------------------------

/// The block a conditional at `i` falls through to when the branch is not
/// taken: the next instruction, except that an immediately following
/// unconditional `Branch` stands for its own destination.
pub open spec fn cond_fallthrough(bs: Seq<Instr>, i: int) -> Label {
    if i + 1 < bs.len() && bs[i + 1] is Branch {
        lab_of(jump_target(bs[i + 1]))
    } else {
        lab_of(i + 1)
    }
}

/// The classification scan from offset `i` on, with `cur` the still-open
/// block (if any) and `m` the edges recorded so far.  Mirrors one forward
/// pass: a block head closes the open block with a fall-through edge; a
/// branch, `Ret` or `Abort` closes it with its own edge; a backward
/// `Branch` additionally promotes its destination's `If` edge to a `while`
/// header, oriented by which side already reaches the back edge.
pub open spec fn classify_from(
    bs: Seq<Instr>,
    i: int,
    cur: Option<Label>,
    m: Map<Label, OutgoingEdge>,
) -> Result<Map<Label, OutgoingEdge>, CfgError>
    decreases bs.len() - i, 1int,
{
    if i < 0 || i >= bs.len() {
        match cur {
            Some(l) => Ok(m.insert(l, OutgoingEdge::Pass { next: Label::Exit })),
            None => Ok(m),
        }
    } else {
        let at_head = is_block_start(bs, i);
        let m1 = if at_head && cur is Some {
            m.insert(cur->0, OutgoingEdge::Pass { next: lab_of(i) })
        } else {
            m
        };
        let cur1 = if at_head {
            Some(lab_of(i))
        } else {
            cur
        };
        match cur1 {
            None => classify_from(bs, i + 1, None, m1),
            Some(l) => match bs[i] {
                Instr::BrTrue(x) => classify_from(
                    bs,
                    i + 1,
                    None,
                    m1.insert(
                        l,
                        OutgoingEdge::If {
                            true_case: lab_of(x as int),
                            false_case: cond_fallthrough(bs, i),
                        },
                    ),
                ),
                Instr::BrFalse(x) => classify_from(
                    bs,
                    i + 1,
                    None,
                    m1.insert(
                        l,
                        OutgoingEdge::If {
                            true_case: cond_fallthrough(bs, i),
                            false_case: lab_of(x as int),
                        },
                    ),
                ),
                Instr::Branch(x) => {
                    if x < i {
                        promote_header(bs, i, x as int, l, m1)
                    } else {
                        classify_from(
                            bs,
                            i + 1,
                            None,
                            m1.insert(l, OutgoingEdge::Pass { next: lab_of(x as int) }),
                        )
                    }
                },
                Instr::Ret | Instr::Abort => classify_from(
                    bs,
                    i + 1,
                    None,
                    m1.insert(l, OutgoingEdge::Pass { next: Label::Exit }),
                ),
                _ => classify_from(bs, i + 1, cur1, m1),
            },
        }
    }
}

/// The promotion of a loop header: the destination of a backward `Branch`
/// must carry an `If` edge, and exactly one of its two successors must
/// already lead back to the branch.  That side becomes the loop body.
pub open spec fn promote_header(
    bs: Seq<Instr>,
    i: int,
    x: int,
    l: Label,
    m1: Map<Label, OutgoingEdge>,
) -> Result<Map<Label, OutgoingEdge>, CfgError>
    decreases bs.len() - i, 0int,
    when i < bs.len()
{
    let dl = lab_of(x);
    if m1.dom().contains(dl) && m1[dl] is If {
        let t = m1[dl]->If_true_case;
        let f = m1[dl]->If_false_case;
        let m2 = m1.remove(dl);
        let pt = reaches(m2, t, l);
        let pf = reaches(m2, f, l);
        if pt == pf {
            Err(CfgError::InvalidLoopHeader)
        } else {
            let m3 = if pt {
                m2.insert(dl, OutgoingEdge::WhileTrue { body_start: t, after: f })
            } else {
                m2.insert(dl, OutgoingEdge::WhileFalse { body_start: f, after: t })
            };
            classify_from(bs, i + 1, None, m3.insert(l, OutgoingEdge::LoopBack { header: dl }))
        }
    } else {
        Err(CfgError::InvalidLoopHeader)
    }
}

/// The finished edge map of a buffer that passed validation.  The empty
/// buffer's entry block is open from the start, so it falls through to
/// `Exit`.
pub open spec fn edges_spec(bs: Seq<Instr>) -> Result<Map<Label, OutgoingEdge>, CfgError> {
    if bs.len() == 0 {
        classify_from(bs, 0, Some(Label::Entry), Map::empty())
    } else {
        classify_from(bs, 0, None, Map::empty())
    }
}

/// What building a graph from `bs` yields: the first validation fault, or
/// a buffer that begins with a branch (which would end the entry block
/// before it opens), or the classifier's fault, or the finished block and
/// edge maps.
pub open spec fn cfg_result(bs: Seq<Instr>) -> Result<
    (Map<Label, Seq<Instr>>, Map<Label, OutgoingEdge>),
    CfgError,
> {
    match scan_error(bs) {
        Some(e) => Err(e),
        None => if bs.len() > 0 && is_jump(bs[0]) {
            Err(CfgError::UnexpectedBlockEnd)
        } else {
            match edges_spec(bs) {
                Ok(m) => Ok((blocks_spec(bs), m)),
                Err(e) => Err(e),
            }
        },
    }
}

// ------------------------------------------------------------------
// Validation of branch instructions.
// ------------------------------------------------------------------

/// The fault, if any, of an unconditional jump from `i` to `d`.
pub open spec fn uncond_error(bs: Seq<Instr>, i: int, d: int) -> Option<CfgError> {
    if d == i {
        Some(CfgError::SelfBranch)
    } else if d >= bs.len() {
        Some(CfgError::BranchOutOfBounds)
    } else if is_jump(bs[d]) {
        Some(CfgError::BranchToBranch)
    } else {
        None
    }
}

/// The fault, if any, of a conditional jump from `i` to `d`.
pub open spec fn cond_error(bs: Seq<Instr>, i: int, d: int) -> Option<CfgError> {
    if d < i {
        Some(CfgError::ConditionalJumpBack)
    } else if i + 1 < bs.len() && is_cond(bs[i + 1]) {
        Some(CfgError::RepeatConditionalBranch)
    } else {
        uncond_error(bs, i, d)
    }
}

/// The fault, if any, of the instruction at offset `i`.
pub open spec fn jump_error(bs: Seq<Instr>, i: int) -> Option<CfgError>
    recommends
        0 <= i < bs.len(),
{
    if is_cond(bs[i]) {
        cond_error(bs, i, jump_target(bs[i]))
    } else if bs[i] is Branch {
        uncond_error(bs, i, jump_target(bs[i]))
    } else {
        None
    }
}

/// The first fault at or after offset `i`, scanning forward.
pub open spec fn scan_error_from(bs: Seq<Instr>, i: int) -> Option<CfgError>
    decreases bs.len() - i,
{
    if i < 0 || i >= bs.len() {
        None
    } else {
        match jump_error(bs, i) {
            Some(e) => Some(e),
            None => scan_error_from(bs, i + 1),
        }
    }
}

/// The first fault of the whole buffer.
pub open spec fn scan_error(bs: Seq<Instr>) -> Option<CfgError> {
    scan_error_from(bs, 0)
}


/// A clean scan has no fault at any position.
pub proof fn lemma_scan_from_none(bs: Seq<Instr>, j: int, i: int)
    requires
        0 <= j <= i,
        scan_error_from(bs, j) is None,
    ensures
        i < bs.len() ==> jump_error(bs, i) is None,
    decreases i - j,
{
    if j < bs.len() && j < i {
        lemma_scan_from_none(bs, j + 1, i);
    }
}

/// Lifts a detected fault into a `Result`.
pub open spec fn opt_err(o: Option<CfgError>) -> Result<(), CfgError> {
    match o {
        Some(e) => Err(e),
        None => Ok(()),
    }
}

fn validate_unconditional_jump(dest: usize, index: usize, bytecode: &Vec<Instr>) -> (r: Result<
    (),
    CfgError,
>)
    ensures
        r == opt_err(uncond_error(bytecode@, index as int, dest as int)),
{
    if dest == index {
        return Err(CfgError::SelfBranch);
    }
    if dest >= bytecode.len() {
        return Err(CfgError::BranchOutOfBounds);
    }
    if bytecode[dest].classify_jump() {
        return Err(CfgError::BranchToBranch);
    }
    Ok(())
}

fn validate_conditional_jump(dest: usize, index: usize, bytecode: &Vec<Instr>) -> (r: Result<
    (),
    CfgError,
>)
    requires
        index < bytecode@.len(),
    ensures
        r == opt_err(cond_error(bytecode@, index as int, dest as int)),
{
    if dest < index {
        return Err(CfgError::ConditionalJumpBack);
    }
    let n = bytecode.len();
    if index + 1 < n && bytecode[index + 1].classify_cond() {
        return Err(CfgError::RepeatConditionalBranch);
    }
    validate_unconditional_jump(dest, index, bytecode)
}

// ------------------------------------------------------------------
// Helpers for the construction.
// ------------------------------------------------------------------

/// Copies the instruction range `[a, b)` out of the buffer.
fn copy_range(v: &Vec<Instr>, a: usize, b: usize) -> (r: Vec<Instr>)
    requires
        a <= b <= v@.len(),
    ensures
        r@ == v@.subrange(a as int, b as int),
{
    let mut r: Vec<Instr> = Vec::new();
    for i in a..b
        invariant
            a <= i <= b <= v@.len(),
            r@ == v@.subrange(a as int, i as int),
    {
        r.push(v[i]);
        proof {
            assert(r@ =~= v@.subrange(a as int, i + 1 as int));
        }
    }
    r
}

/// `next_point` is pinned down by emptiness of the gap before a point.
proof fn lemma_next_point_unique(bs: Seq<Instr>, j: int, e: int)
    requires
        0 <= j <= e <= bs.len(),
        forall|p: int| j <= p < e ==> !is_point(bs, p),
        e == bs.len() || is_point(bs, e),
    ensures
        next_point(bs, j) == e,
    decreases e - j,
{
    if j < e {
        lemma_next_point_unique(bs, j + 1, e);
    }
}

/// Destinations gain exactly the contributions of instruction `i` when the
/// scan advances past it.
proof fn lemma_dest_upto_step(bs: Seq<Instr>, d: int, i: int)
    requires
        0 <= i < bs.len(),
    ensures
        is_dest_upto(bs, d, i + 1) <==> (is_dest_upto(bs, d, i) || (is_jump(bs[i])
            && jump_target(bs[i]) == d) || (is_cond(bs[i]) && d == i + 1)),
{
    if is_dest_upto(bs, d, i + 1) {
        if !is_dest_upto(bs, d, i) {
            if exists|j: int| 0 <= j < i + 1 && is_jump(#[trigger] bs[j]) && jump_target(bs[j])
                == d {
                let j = choose|j: int|
                    0 <= j < i + 1 && is_jump(#[trigger] bs[j]) && jump_target(bs[j]) == d;
                assert(j == i);
            } else {
                let j = choose|j: int| 0 <= j < i + 1 && is_cond(#[trigger] bs[j]) && d == j + 1;
                assert(j == i);
            }
        }
    }
    if is_dest_upto(bs, d, i) {
        if d != 0 && d != bs.len() {
            if exists|j: int| 0 <= j < i && is_jump(#[trigger] bs[j]) && jump_target(bs[j]) == d {
                let j = choose|j: int|
                    0 <= j < i && is_jump(#[trigger] bs[j]) && jump_target(bs[j]) == d;
                assert(0 <= j < i + 1 && is_jump(bs[j]) && jump_target(bs[j]) == d);
            } else {
                let j = choose|j: int| 0 <= j < i && is_cond(#[trigger] bs[j]) && d == j + 1;
                assert(0 <= j < i + 1 && is_cond(bs[j]) && d == j + 1);
            }
        }
    }
    if is_jump(bs[i]) && jump_target(bs[i]) == d {
        assert(0 <= i < i + 1 && is_jump(bs[i]) && jump_target(bs[i]) == d);
    }
    if is_cond(bs[i]) && d == i + 1 {
        assert(0 <= i < i + 1 && is_cond(bs[i]) && d == i + 1);
    }
}


/// Distinct offsets give distinct labels.
pub proof fn lemma_lab_of_injective(t: int, u: int)
    requires
        0 <= t <= usize::MAX,
        0 <= u <= usize::MAX,
        lab_of(t) == lab_of(u),
    ensures
        t == u,
{
}

/// A control-flow graph: the block partition and the typed outgoing edge
/// of every block but `Exit`.  Both maps iterate in label order.
#[derive(Debug, Clone, PartialEq, Eq)]
pub struct Cfg {
    pub blocks: LabelMap<Block>,
    // Edges are directed as start -> end.
    pub edges: LabelMap<OutgoingEdge>,
}

impl Cfg {
    /// The block partition, as a map from labels to instruction sequences.
    pub open spec fn blocks_view(self) -> Map<Label, Seq<Instr>> {
        Map::new(
            |l: Label| self.blocks@.dom().contains(l),
            |l: Label| self.blocks@[l]@,
        )
    }

    /// The edge map.
    pub open spec fn edges_view(self) -> Map<Label, OutgoingEdge> {
        self.edges@
    }

    /// Both maps are sorted soundly.
    pub open spec fn wf_rep(self) -> bool {
        self.blocks.wf() && self.edges.wf()
    }

    /// The block of a label.
    pub fn block(&self, l: &Label) -> (r: Option<&Block>)
        requires
            self.wf_rep(),
        ensures
            match r {
                Some(b) => self.blocks_view().dom().contains(*l) && b@ == self.blocks_view()[*l],
                None => !self.blocks_view().dom().contains(*l),
            },
    {
        self.blocks.get(l)
    }

    /// The outgoing edge of a label.
    pub fn edge(&self, l: &Label) -> (r: Option<&OutgoingEdge>)
        requires
            self.wf_rep(),
        ensures
            match r {
                Some(e) => self.edges_view().dom().contains(*l) && *e == self.edges_view()[*l],
                None => !self.edges_view().dom().contains(*l),
            },
    {
        self.edges.get(l)
    }

    /// The edge map, for reachability queries.
    pub fn edges(&self) -> (r: &LabelMap<OutgoingEdge>)
        ensures
            *r == self.edges,
    {
        &self.edges
    }

    /// Builds the control-flow graph of a bytecode function: validates every
    /// branch, splits the buffer into blocks, and classifies each block's
    /// single outgoing edge.
    #[verifier::rlimit(100)]
    pub fn new(bytecode: &Vec<Instr>) -> (r: Result<Cfg, CfgError>)
        ensures
            match r {
                Ok(cfg) => cfg.wf_rep() && (cfg_result(bytecode@) matches Ok(p)
                    && cfg.blocks_view() == p.0 && cfg.edges_view() == p.1),
                Err(e) => cfg_result(bytecode@) == Err::<
                    (Map<Label, Seq<Instr>>, Map<Label, OutgoingEdge>),
                    CfgError,
                >(e),
            },
    {
        let ghost bs = bytecode@;
        let n = bytecode.len();

        // Marks for branch destinations (offset 0 is the entry point; the
        // end of the buffer always counts as one and needs no mark) and for
        // locations where branch instructions are.
        let mut dest_mark: Vec<bool> = Vec::new();
        let mut orig_mark: Vec<bool> = Vec::new();
        for q in 0..n
            invariant
                dest_mark@.len() == q,
                orig_mark@.len() == q,
                forall|d: int| 0 <= d < q ==> dest_mark@[d] == (d == 0),
                forall|d: int| 0 <= d < q ==> orig_mark@[d] == false,
        {
            dest_mark.push(q == 0);
            orig_mark.push(false);
        }

        // First scan: validate every branch, record origins and destinations.
        for i in 0..n
            invariant
                bs == bytecode@,
                n == bs.len(),
                dest_mark@.len() == n,
                orig_mark@.len() == n,
                forall|d: int| 0 <= d < n ==> dest_mark@[d] == is_dest_upto(bs, d, i as int),
                forall|j: int| 0 <= j < n ==> orig_mark@[j] == (j < i && is_jump(bs[j])),
                scan_error_from(bs, i as int) == scan_error(bs),
        {
            match bytecode[i] {
                Instr::BrTrue(x) | Instr::BrFalse(x) => {
                    match validate_conditional_jump(x, i, bytecode) {
                        Err(e) => {
                            proof {
                                assert(jump_error(bs, i as int) == Some(e));
                                assert(scan_error(bs) == Some(e));
                            }
                            return Err(e);
                        },
                        Ok(_u) => {},
                    }
                    proof {
                        assert(cond_error(bs, i as int, x as int) is None);
                        assert(uncond_error(bs, i as int, x as int) is None);
                        assert(i < x && (x as int) < bs.len());
                    }
                    orig_mark.set(i, true);
                    dest_mark.set(x, true);
                    dest_mark.set(i + 1, true);
                    proof {
                        assert forall|d: int|
                            0 <= d < n implies dest_mark@[d] == is_dest_upto(bs, d, i + 1) by {
                            lemma_dest_upto_step(bs, d, i as int);
                        }
                    }
                },
                Instr::Branch(x) => {
                    match validate_unconditional_jump(x, i, bytecode) {
                        Err(e) => {
                            proof {
                                assert(jump_error(bs, i as int) == Some(e));
                                assert(scan_error(bs) == Some(e));
                            }
                            return Err(e);
                        },
                        Ok(_u) => {},
                    }
                    proof {
                        assert(uncond_error(bs, i as int, x as int) is None);
                        assert((x as int) < bs.len());
                    }
                    orig_mark.set(i, true);
                    dest_mark.set(x, true);
                    proof {
                        assert forall|d: int|
                            0 <= d < n implies dest_mark@[d] == is_dest_upto(bs, d, i + 1) by {
                            lemma_dest_upto_step(bs, d, i as int);
                        }
                    }
                },
                _ => {
                    proof {
                        assert forall|d: int|
                            0 <= d < n implies dest_mark@[d] == is_dest_upto(bs, d, i + 1) by {
                            lemma_dest_upto_step(bs, d, i as int);
                        }
                    }
                },
            }
        }

        // A branch at offset 0 would end the entry block before it opens.
        if n > 0 && bytecode[0].classify_jump() {
            return Err(CfgError::UnexpectedBlockEnd);
        }

        // Second scan: cut the buffer into blocks at the collected points.
        let mut blocks: LabelMap<Block> = LabelMap::new();
        for start in 0..n
            invariant
                bs == bytecode@,
                n == bs.len(),
                dest_mark@.len() == n,
                orig_mark@.len() == n,
                forall|d: int| 0 <= d < n ==> dest_mark@[d] == is_dest(bs, d),
                forall|j: int| 0 <= j < n ==> orig_mark@[j] == is_jump(bs[j]),
                blocks.wf(),
                forall|l: Label|
                    blocks@.dom().contains(l) <==> (exists|t: int|
                        0 <= t < start && is_block_start(bs, t) && l == lab_of(t)),
                forall|t: int|
                    0 <= t < start && is_block_start(bs, t) ==> blocks@[lab_of(t)]@ == bs.subrange(
                        t,
                        block_end(bs, t),
                    ),
                scan_error(bs) is None,
        {
            if dest_mark[start] && !orig_mark[start] {
                proof {
                    assert(is_block_start(bs, start as int));
                }
                let mut e = start + 1;
                while e < n && !dest_mark[e] && !orig_mark[e]
                    invariant
                        bs == bytecode@,
                        n == bs.len(),
                        dest_mark@.len() == n,
                        orig_mark@.len() == n,
                        forall|d: int| 0 <= d < n ==> dest_mark@[d] == is_dest(bs, d),
                        forall|j: int| 0 <= j < n ==> orig_mark@[j] == is_jump(bs[j]),
                        start < e <= n,
                        forall|p: int| start < p < e ==> !is_point(bs, p),
                    decreases n - e,
                {
                    proof {
                        assert(!is_point(bs, e as int));
                    }
                    e = e + 1;
                }
                proof {
                    assert(e == n || is_point(bs, e as int));
                    lemma_next_point_unique(bs, start + 1, e as int);
                    assert(block_end(bs, start as int) == e);
                }
                let ghost pre = blocks@;
                let code = copy_range(bytecode, start, e);
                blocks.insert(Label::new(start), Block::new(code));
                proof {
                    assert forall|l: Label|
                        blocks@.dom().contains(l) <==> (exists|t: int|
                            0 <= t < start + 1 && is_block_start(bs, t) && l == lab_of(t)) by {
                        if l == lab_of(start as int) {
                            assert(is_block_start(bs, start as int) && l == lab_of(start as int));
                        } else {
                            if exists|t: int|
                                0 <= t < start + 1 && is_block_start(bs, t) && l == lab_of(t) {
                                let t = choose|t: int|
                                    0 <= t < start + 1 && is_block_start(bs, t) && l == lab_of(t);
                                assert(t < start);
                            }
                        }
                    }
                    assert forall|t: int|
                        0 <= t < start + 1 && is_block_start(bs, t) implies blocks@[lab_of(t)]@
                        == bs.subrange(t, block_end(bs, t)) by {
                        if t == start {
                        } else {
                            if lab_of(t) == lab_of(start as int) {
                                lemma_lab_of_injective(t, start as int);
                            }
                            assert(lab_of(t) != lab_of(start as int));
                            assert(pre[lab_of(t)]@ == bs.subrange(t, block_end(bs, t)));
                        }
                    }
                }
            } else {
                proof {
                    assert(!is_block_start(bs, start as int));
                    assert forall|l: Label|
                        blocks@.dom().contains(l) <==> (exists|t: int|
                            0 <= t < start + 1 && is_block_start(bs, t) && l == lab_of(t)) by {
                        if exists|t: int|
                            0 <= t < start + 1 && is_block_start(bs, t) && l == lab_of(t) {
                            let t = choose|t: int|
                                0 <= t < start + 1 && is_block_start(bs, t) && l == lab_of(t);
                            assert(t < start);
                        }
                    }
                }
            }
        }
        let ghost pre_exit = blocks@;
        let empty_block = Block::new(Vec::new());
        proof {
            assert(empty_block@ =~= Seq::<Instr>::empty());
        }
        blocks.insert(Label::Exit, empty_block);
        if n == 0 {
            // the empty function still has its (empty) entry block
            let entry_block = Block::new(Vec::new());
            proof {
                assert(entry_block@ =~= Seq::<Instr>::empty());
            }
            blocks.insert(Label::Entry, entry_block);
        }

        // Third scan: give every block its single outgoing edge.  For the
        // empty buffer the entry block is open from the start.
        let mut edges: LabelMap<OutgoingEdge> = LabelMap::new();
        let mut current_label: Option<Label> = if n == 0 {
            Some(Label::Entry)
        } else {
            None
        };
        for i in 0..n
            invariant
                bs == bytecode@,
                n == bs.len(),
                blocks.wf(),
                edges.wf(),
                forall|l: Label|
                    blocks@.dom().contains(l) <==> (l == Label::Exit || (l == Label::Entry && n
                        == 0) || (exists|t: int| is_block_start(bs, t) && l == lab_of(t))),
                scan_error(bs) is None,
                n > 0 ==> !is_jump(bs[0]),
                classify_from(bs, i as int, current_label, edges@) == edges_spec(bs),
        {
            let ghost cur0 = current_label;
            let ghost m0 = edges@;
            let maybe_label = Label::new(i);
            if blocks.contains_key(&maybe_label) {
                proof {
                    let t = choose|t: int| is_block_start(bs, t) && maybe_label == lab_of(t);
                    lemma_lab_of_injective(t, i as int);
                    assert(is_block_start(bs, i as int));
                }
                // We have entered a new block.  If we were already in a block
                // then that block transitions to the new one.
                if let Some(l) = current_label {
                    edges.insert(l, OutgoingEdge::Pass { next: maybe_label });
                }
                current_label = Some(maybe_label);
            } else {
                proof {
                    assert(!is_block_start(bs, i as int));
                }
            }
            let ghost cur1 = current_label;
            let ghost m1 = edges@;
            if current_label.is_none() {
                proof {
                    assert(classify_from(bs, i + 1, cur1, m1) == classify_from(
                        bs,
                        i as int,
                        cur0,
                        m0,
                    ));
                }
            } else {
                let l = current_label.unwrap();
                match bytecode[i] {
                    Instr::BrTrue(x) => {
                        let false_case = fallthrough_label(bytecode, i);
                        edges.insert(
                            l,
                            OutgoingEdge::If { true_case: Label::new(x), false_case },
                        );
                        current_label = None;
                        proof {
                            assert(edges@ == m1.insert(
                                l,
                                (OutgoingEdge::If {
                                    true_case: lab_of(x as int),
                                    false_case: cond_fallthrough(bs, i as int),
                                }),
                            ));
                        }
                    },
                    Instr::BrFalse(x) => {
                        let true_case = fallthrough_label(bytecode, i);
                        edges.insert(
                            l,
                            OutgoingEdge::If { true_case, false_case: Label::new(x) },
                        );
                        current_label = None;
                        proof {
                            assert(edges@ == m1.insert(
                                l,
                                (OutgoingEdge::If {
                                    true_case: cond_fallthrough(bs, i as int),
                                    false_case: lab_of(x as int),
                                }),
                            ));
                        }
                    },
                    Instr::Branch(x) => {
                        if x < i {
                            // In the loop-back case the if-else at the
                            // destination becomes a while loop.
                            let dl = Label::new(x);
                            if !promote_loop_header(&mut edges, dl, l) {
                                proof {
                                    assert(classify_from(bs, i as int, cur0, m0)
                                        == promote_header(bs, i as int, x as int, l, m1));
                                    assert(promote_header(bs, i as int, x as int, l, m1) == Err::<
                                        Map<Label, OutgoingEdge>,
                                        CfgError,
                                    >(CfgError::InvalidLoopHeader));
                                }
                                return Err(CfgError::InvalidLoopHeader);
                            }
                            current_label = None;
                            proof {
                                assert(classify_from(bs, i as int, cur0, m0)
                                    == promote_header(bs, i as int, x as int, l, m1));
                                assert(promote_header(bs, i as int, x as int, l, m1)
                                    == classify_from(bs, i + 1, None, edges@));
                            }
                        } else {
                            edges.insert(l, OutgoingEdge::Pass { next: Label::new(x) });
                            current_label = None;
                        }
                    },
                    Instr::Ret | Instr::Abort => {
                        // Abort and Ret signify the end of the function.
                        edges.insert(l, OutgoingEdge::Pass { next: Label::Exit });
                        current_label = None;
                    },
                    _ => {},
                }
                proof {
                    assert(classify_from(bs, i + 1, current_label, edges@) == classify_from(
                        bs,
                        i as int,
                        cur0,
                        m0,
                    ));
                }
            }
        }
        // The last block exits the function.
        if let Some(l) = current_label {
            edges.insert(l, OutgoingEdge::Pass { next: Label::Exit });
        }
        proof {
            assert(edges_spec(bs) == Ok::<Map<Label, OutgoingEdge>, CfgError>(edges@));
        }

        let cfg = Cfg { blocks, edges };
        proof {
            assert(cfg.blocks_view() =~= blocks_spec(bs)) by {
                assert(block_end(bs, 0) == next_point(bs, 1));
                assert forall|l: Label| cfg.blocks_view().dom().contains(l) implies
                    blocks_spec(bs).dom().contains(l) && cfg.blocks_view()[l] == blocks_spec(
                    bs,
                )[l] by {
                    if l == Label::Exit {
                    } else if n == 0 {
                        // only the empty entry block remains
                        assert(l == Label::Entry);
                        assert(bs.subrange(0, block_end(bs, 0)) =~= Seq::<Instr>::empty());
                    } else {
                        let t = choose|t: int| is_block_start(bs, t) && l == lab_of(t);
                        assert(pre_exit[lab_of(t)]@ == bs.subrange(t, block_end(bs, t)));
                        if t == 0 {
                            assert(l == Label::Entry);
                        } else {
                            assert(l == Label::Point(t as usize));
                        }
                    }
                }
                assert forall|l: Label| blocks_spec(bs).dom().contains(l) implies
                    cfg.blocks_view().dom().contains(l) by {}
            }
        }
        Ok(cfg)
    }
}

/// Resolves the label a conditional at `i` falls through to.
fn fallthrough_label(bytecode: &Vec<Instr>, i: usize) -> (r: Label)
    requires
        i < bytecode@.len(),
    ensures
        r == cond_fallthrough(bytecode@, i as int),
{
    let n = bytecode.len();
    if i + 1 < n {
        match bytecode[i + 1] {
            Instr::Branch(y) => Label::new(y),
            _ => Label::new(i + 1),
        }
    } else {
        Label::new(i + 1)
    }
}

/// Rewrites the `If` edge of a loop header in place to a `while` header,
/// oriented by which side of the conditional reaches the back edge at `l`.
fn promote_loop_header(edges: &mut LabelMap<OutgoingEdge>, dl: Label, l: Label) -> (ok: bool)
    requires
        old(edges).wf(),
    ensures
        final(edges).wf(),
        ({
            let m1 = old(edges)@;
            if m1.dom().contains(dl) && m1[dl] is If {
                let t = m1[dl]->If_true_case;
                let f = m1[dl]->If_false_case;
                let m2 = m1.remove(dl);
                let pt = reaches(m2, t, l);
                let pf = reaches(m2, f, l);
                if pt == pf {
                    !ok
                } else {
                    ok && final(edges)@ == (if pt {
                        m2.insert(dl, (OutgoingEdge::WhileTrue { body_start: t, after: f }))
                    } else {
                        m2.insert(dl, (OutgoingEdge::WhileFalse { body_start: f, after: t }))
                    }).insert(l, (OutgoingEdge::LoopBack { header: dl }))
                }
            } else {
                !ok
            }
        }),
{
    let header_edge: Option<(Label, Label)> = match edges.get(&dl) {
        Some(OutgoingEdge::If { true_case, false_case }) => Some((*true_case, *false_case)),
        _ => None,
    };
    match header_edge {
        None => false,
        Some((t, f)) => {
            edges.remove(&dl);
            // The body is the side which leads back to the current label,
            // since that one branches back up to the header.
            let pt = has_path(edges, &t, &l);
            let pf = has_path(edges, &f, &l);
            if pt == pf {
                // Exactly one path should get here; none or both is a fault.
                false
            } else {
                if pt {
                    edges.insert(dl, OutgoingEdge::WhileTrue { body_start: t, after: f });
                } else {
                    edges.insert(dl, OutgoingEdge::WhileFalse { body_start: f, after: t });
                }
                edges.insert(l, OutgoingEdge::LoopBack { header: dl });
                true
            }
        },
    }
}


/// The next point lies between the position and the buffer's end.
pub proof fn lemma_next_point_bounds(bs: Seq<Instr>, j: int)
    requires
        0 <= j <= bs.len(),
    ensures
        j <= next_point(bs, j) <= bs.len(),
    decreases bs.len() - j,
{
    if j < bs.len() && !is_point(bs, j) {
        lemma_next_point_bounds(bs, j + 1);
    }
}

/// Nothing between a position and the next point is itself a point.
pub proof fn lemma_next_point_gap(bs: Seq<Instr>, j: int, p: int)
    requires
        0 <= j <= p,
        p < next_point(bs, j),
    ensures
        !is_point(bs, p),
    decreases p - j,
{
    if j < bs.len() && !is_point(bs, j) && p > j {
        lemma_next_point_gap(bs, j + 1, p);
    }
}

} // verus!
