//! The structural laws of a finished control-flow graph.
//!
//! Every graph the builder accepts satisfies them: `Entry` and `Exit` are
//! always among the blocks; each edge's successors are blocks of the
//! graph; every block except `Exit` carries exactly one outgoing edge and
//! `Exit` none; and every `while` header's body side leads back to the
//! header through the loop's back edge.

use vstd::prelude::*;

use crate::cfg::{
    blocks_spec, cfg_result, classify_from, is_block_start, lemma_lab_of_injective, scan_error,
    Cfg, OutgoingEdge,
};
use crate::instr::Instr;
use crate::label::{lab_of, Label};
use crate::reach::{
    edge_succs, lemma_reaches_extend, lemma_reaches_monotone, reaches, step,
};

verus! {

/// Every successor named by an edge is a key of `bdom`.
pub open spec fn edges_closed(m: Map<Label, OutgoingEdge>, bdom: Set<Label>) -> bool {
    forall|k: Label| #[trigger] m.dom().contains(k) ==> edge_succs(m[k]).subset_of(bdom)
}

/// Every `while` header's body start reaches the header again.
pub open spec fn loop_bodies_reach_headers(m: Map<Label, OutgoingEdge>) -> bool {
    forall|k: Label| #[trigger] m.dom().contains(k) ==> match m[k] {
        OutgoingEdge::WhileTrue { body_start, after } => reaches(m, body_start, k),
        OutgoingEdge::WhileFalse { body_start, after } => reaches(m, body_start, k),
        _ => true,
    }
}

/// Every key of the edge map is the label of a block start.
pub open spec fn edge_keys_are_starts(bs: Seq<Instr>, m: Map<Label, OutgoingEdge>) -> bool {
    forall|k: Label| #[trigger] m.dom().contains(k) ==> exists|t: int|
        is_block_start(bs, t) && k == lab_of(t)
}

/// Inserting a fresh key whose value is no `while` header cannot break any
/// loop path: the graph only grows.
proof fn lemma_loop_inv_insert_fresh(m: Map<Label, OutgoingEdge>, k: Label, e: OutgoingEdge)
    requires
        !m.dom().contains(k),
        loop_bodies_reach_headers(m),
        !(e is WhileTrue),
        !(e is WhileFalse),
    ensures
        loop_bodies_reach_headers(m.insert(k, e)),
{
    let m2 = m.insert(k, e);
    assert forall|x: Label, y: Label| step(m, x, y) implies #[trigger] step(m2, x, y) by {
        assert(m2[x] == m[x]);
    }
    assert forall|h: Label| #[trigger] m2.dom().contains(h) implies match m2[h] {
        OutgoingEdge::WhileTrue { body_start, after } => reaches(m2, body_start, h),
        OutgoingEdge::WhileFalse { body_start, after } => reaches(m2, body_start, h),
        _ => true,
    } by {
        if h != k {
            assert(m.dom().contains(h));
            assert(m2[h] == m[h]);
            match m[h] {
                OutgoingEdge::WhileTrue { body_start, after } => {
                    lemma_reaches_monotone(m, m2, body_start, h);
                },
                OutgoingEdge::WhileFalse { body_start, after } => {
                    lemma_reaches_monotone(m, m2, body_start, h);
                },
                _ => {},
            }
        }
    }
}

/// The classifier's invariants ride the scan to the end: on success, the
/// edge keys are exactly the block starts, every successor is a block, and
/// every `while` header's body leads back to it.
#[verifier::rlimit(100)]
proof fn lemma_classify_from_invariants(
    bs: Seq<Instr>,
    i: int,
    cur: Option<Label>,
    m: Map<Label, OutgoingEdge>,
)
    requires
        bs.len() <= usize::MAX,
        scan_error(bs) is None,
        0 <= i <= bs.len(),
        forall|k: Label| #[trigger] m.dom().contains(k) ==> exists|t: int|
            is_block_start(bs, t) && t < i && k == lab_of(t),
        forall|t: int|
            0 <= t < i && is_block_start(bs, t) ==> m.dom().contains(lab_of(t)) || cur == Some(
                lab_of(t),
            ),
        cur matches Some(l) ==> (exists|t: int| is_block_start(bs, t) && t < i && l == lab_of(t))
            && !m.dom().contains(l),
        edges_closed(m, blocks_spec(bs).dom()),
        loop_bodies_reach_headers(m),
    ensures
        classify_from(bs, i, cur, m) matches Ok(mf) ==> edge_keys_are_starts(bs, mf) && (forall|
            t: int,
        |
            is_block_start(bs, t) ==> mf.dom().contains(lab_of(t))) && edges_closed(
            mf,
            blocks_spec(bs).dom(),
        ) && loop_bodies_reach_headers(mf),
    decreases bs.len() - i, 1int,
{
    crate::cfg::lemma_scan_from_none(bs, 0, i);
    if i >= bs.len() {
        match cur {
            Some(l) => {
                let t = choose|t: int| is_block_start(bs, t) && t < i && l == lab_of(t);
                let mf = m.insert(l, OutgoingEdge::Pass { next: Label::Exit });
                lemma_loop_inv_insert_fresh(m, l, OutgoingEdge::Pass { next: Label::Exit });
                assert(blocks_spec(bs).dom().contains(Label::Exit));
                assert(edge_succs(OutgoingEdge::Pass { next: Label::Exit }) =~= set![Label::Exit]);
            },
            None => {},
        }
    } else {
        let at_head = is_block_start(bs, i);
        let m1 = if at_head && cur is Some {
            m.insert(cur->0, OutgoingEdge::Pass { next: lab_of(i) })
        } else {
            m
        };
        let cur1: Option<Label> = if at_head {
            Some(lab_of(i))
        } else {
            cur
        };
        // the state after the (possible) head transition still satisfies
        // the invariants, now up to position i + 1
        if at_head && cur is Some {
            let l0 = cur->0;
            assert(blocks_spec(bs).dom().contains(lab_of(i)));
            assert(edge_succs(OutgoingEdge::Pass { next: lab_of(i) }) =~= set![lab_of(i)]);
            lemma_loop_inv_insert_fresh(m, l0, OutgoingEdge::Pass { next: lab_of(i) });
        }
        assert(cur1 matches Some(l) ==> !m1.dom().contains(l)) by {
            if cur1 is Some {
                let l = cur1->0;
                if at_head {
                    if m1.dom().contains(l) {
                        if m.dom().contains(l) {
                            let t = choose|t: int|
                                is_block_start(bs, t) && t < i && l == lab_of(t);
                            lemma_lab_of_injective(t, i);
                        } else {
                            let t0 = choose|t: int|
                                is_block_start(bs, t) && t < i && cur->0 == lab_of(t);
                            lemma_lab_of_injective(t0, i);
                        }
                    }
                }
            }
        }
        match cur1 {
            None => {
                lemma_classify_from_invariants(bs, i + 1, None, m1);
            },
            Some(l) => {
                match bs[i] {
                    Instr::BrTrue(x) => {
                        let e = OutgoingEdge::If {
                            true_case: lab_of(x as int),
                            false_case: crate::cfg::cond_fallthrough(bs, i),
                        };
                        lemma_if_edge_targets_are_starts(bs, i);
                        lemma_loop_inv_insert_fresh(m1, l, e);
                        lemma_classify_from_invariants(bs, i + 1, None, m1.insert(l, e));
                    },
                    Instr::BrFalse(x) => {
                        let e = OutgoingEdge::If {
                            true_case: crate::cfg::cond_fallthrough(bs, i),
                            false_case: lab_of(x as int),
                        };
                        lemma_if_edge_targets_are_starts(bs, i);
                        lemma_loop_inv_insert_fresh(m1, l, e);
                        lemma_classify_from_invariants(bs, i + 1, None, m1.insert(l, e));
                    },
                    Instr::Branch(x) => {
                        if x < i {
                            lemma_promote_header_invariants(bs, i, x as int, l, m1);
                        } else {
                            let e = OutgoingEdge::Pass { next: lab_of(x as int) };
                            lemma_branch_target_is_start(bs, i);
                            assert(edge_succs(e) =~= set![lab_of(x as int)]);
                            lemma_loop_inv_insert_fresh(m1, l, e);
                            lemma_classify_from_invariants(bs, i + 1, None, m1.insert(l, e));
                        }
                    },
                    Instr::Ret => {
                        let e = OutgoingEdge::Pass { next: Label::Exit };
                        assert(blocks_spec(bs).dom().contains(Label::Exit));
                        assert(edge_succs(e) =~= set![Label::Exit]);
                        lemma_loop_inv_insert_fresh(m1, l, e);
                        lemma_classify_from_invariants(bs, i + 1, None, m1.insert(l, e));
                    },
                    Instr::Abort => {
                        let e = OutgoingEdge::Pass { next: Label::Exit };
                        assert(blocks_spec(bs).dom().contains(Label::Exit));
                        assert(edge_succs(e) =~= set![Label::Exit]);
                        lemma_loop_inv_insert_fresh(m1, l, e);
                        lemma_classify_from_invariants(bs, i + 1, None, m1.insert(l, e));
                    },
                    _ => {
                        lemma_classify_from_invariants(bs, i + 1, cur1, m1);
                    },
                }
            },
        }
    }
}

/// A validated branch's destination starts a block.
proof fn lemma_branch_target_is_start(bs: Seq<Instr>, i: int)
    requires
        0 <= i < bs.len(),
        bs[i] is Branch,
        crate::cfg::jump_error(bs, i) is None,
    ensures
        is_block_start(bs, crate::instr::jump_target(bs[i])),
        blocks_spec(bs).dom().contains(lab_of(crate::instr::jump_target(bs[i]))),
{
    let d = crate::instr::jump_target(bs[i]);
    assert(crate::cfg::is_dest_upto(bs, d, bs.len() as int)) by {
        assert(0 <= i < bs.len() && crate::instr::is_jump(bs[i]) && crate::instr::jump_target(
            bs[i],
        ) == d);
    }
}

/// Both targets of a validated conditional start blocks.
proof fn lemma_if_edge_targets_are_starts(bs: Seq<Instr>, i: int)
    requires
        0 <= i < bs.len(),
        crate::instr::is_cond(bs[i]),
        scan_error(bs) is None,
    ensures
        is_block_start(bs, crate::instr::jump_target(bs[i])),
        blocks_spec(bs).dom().contains(lab_of(crate::instr::jump_target(bs[i]))),
        blocks_spec(bs).dom().contains(crate::cfg::cond_fallthrough(bs, i)),
        edge_succs(
            OutgoingEdge::If {
                true_case: lab_of(crate::instr::jump_target(bs[i])),
                false_case: crate::cfg::cond_fallthrough(bs, i),
            },
        ).subset_of(blocks_spec(bs).dom()),
        edge_succs(
            OutgoingEdge::If {
                true_case: crate::cfg::cond_fallthrough(bs, i),
                false_case: lab_of(crate::instr::jump_target(bs[i])),
            },
        ).subset_of(blocks_spec(bs).dom()),
{
    crate::cfg::lemma_scan_from_none(bs, 0, i);
    let d = crate::instr::jump_target(bs[i]);
    assert(crate::cfg::cond_error(bs, i, d) is None);
    assert(i < d && d < bs.len() && !crate::instr::is_jump(bs[d]));
    assert(crate::cfg::is_dest_upto(bs, d, bs.len() as int)) by {
        assert(0 <= i < bs.len() && crate::instr::is_jump(bs[i]) && crate::instr::jump_target(
            bs[i],
        ) == d);
    }
    assert(is_block_start(bs, d));
    // the fall-through side
    if i + 1 < bs.len() && bs[i + 1] is Branch {
        crate::cfg::lemma_scan_from_none(bs, 0, i + 1);
        let y = crate::instr::jump_target(bs[i + 1]);
        assert(crate::cfg::uncond_error(bs, i + 1, y) is None);
        assert(crate::cfg::is_dest_upto(bs, y, bs.len() as int)) by {
            assert(0 <= i + 1 < bs.len() && crate::instr::is_jump(bs[i + 1])
                && crate::instr::jump_target(bs[i + 1]) == y);
        }
        assert(is_block_start(bs, y));
    } else {
        assert(i + 1 < bs.len());
        assert(!crate::instr::is_cond(bs[i + 1]));
        assert(!crate::instr::is_jump(bs[i + 1]));
        assert(crate::cfg::is_dest_upto(bs, i + 1, bs.len() as int)) by {
            assert(0 <= i < bs.len() && crate::instr::is_cond(bs[i]));
        }
        assert(is_block_start(bs, i + 1));
    }
}

/// Promoting a loop header keeps all classifier invariants: the header's
/// successors are unchanged, the back edge points at a block, and the new
/// `while` header's body start reaches it through the back edge.
#[verifier::rlimit(100)]
proof fn lemma_promote_header_invariants(
    bs: Seq<Instr>,
    i: int,
    x: int,
    l: Label,
    m1: Map<Label, OutgoingEdge>,
)
    requires
        bs.len() <= usize::MAX,
        scan_error(bs) is None,
        0 <= i < bs.len(),
        bs[i] is Branch,
        x == crate::instr::jump_target(bs[i]),
        x < i,
        forall|k: Label| #[trigger] m1.dom().contains(k) ==> exists|t: int|
            is_block_start(bs, t) && t < i + 1 && k == lab_of(t),
        forall|t: int|
            0 <= t < i + 1 && is_block_start(bs, t) ==> m1.dom().contains(lab_of(t)) || l
                == lab_of(t),
        (exists|t: int| is_block_start(bs, t) && t < i + 1 && l == lab_of(t)) && !m1.dom().contains(
            l,
        ),
        edges_closed(m1, blocks_spec(bs).dom()),
        loop_bodies_reach_headers(m1),
    ensures
        crate::cfg::promote_header(bs, i, x, l, m1) matches Ok(mf) ==> edge_keys_are_starts(
            bs,
            mf,
        ) && (forall|t: int| is_block_start(bs, t) ==> mf.dom().contains(lab_of(t)))
            && edges_closed(mf, blocks_spec(bs).dom()) && loop_bodies_reach_headers(mf),
    decreases bs.len() - i, 0int,
{
    let dl = lab_of(x);
    if m1.dom().contains(dl) && m1[dl] is If {
        let t = m1[dl]->If_true_case;
        let f = m1[dl]->If_false_case;
        let m2 = m1.remove(dl);
        let pt = reaches(m2, t, l);
        let pf = reaches(m2, f, l);
        if pt != pf {
            let promoted = if pt {
                OutgoingEdge::WhileTrue { body_start: t, after: f }
            } else {
                OutgoingEdge::WhileFalse { body_start: f, after: t }
            };
            let body_start = if pt {
                t
            } else {
                f
            };
            let m3 = m2.insert(dl, promoted);
            let m4 = m3.insert(l, OutgoingEdge::LoopBack { header: dl });
            // successors at every old key are unchanged, so old paths live on
            assert forall|p: Label, q: Label| step(m1, p, q) implies #[trigger] step(m4, p, q) by {
                if p == dl {
                    assert(m4[dl] == promoted);
                    assert(edge_succs(m1[dl]) =~= edge_succs(promoted));
                } else {
                    assert(m4[p] == m1[p]);
                }
            }
            assert forall|p: Label, q: Label| step(m2, p, q) implies #[trigger] step(m4, p, q) by {
                assert(m4[p] == m2[p]);
            }
            // the new while header's body reaches it through the back edge
            lemma_reaches_monotone(m2, m4, body_start, l);
            assert(edge_succs(OutgoingEdge::LoopBack { header: dl }).contains(dl));
            assert(step(m4, l, dl));
            lemma_reaches_extend(m4, body_start, l, dl);
            // every invariant holds of the updated map
            assert(edges_closed(m4, blocks_spec(bs).dom())) by {
                assert forall|k: Label| #[trigger] m4.dom().contains(k) implies edge_succs(
                    m4[k],
                ).subset_of(blocks_spec(bs).dom()) by {
                    if k == l {
                        assert(edge_succs(OutgoingEdge::LoopBack { header: dl }) =~= set![dl]);
                    } else if k == dl {
                        assert(edge_succs(promoted) =~= edge_succs(m1[dl]));
                    } else {
                        assert(m4[k] == m1[k]);
                    }
                }
            }
            assert(loop_bodies_reach_headers(m4)) by {
                assert forall|h: Label| #[trigger] m4.dom().contains(h) implies match m4[h] {
                    OutgoingEdge::WhileTrue { body_start: b, after } => reaches(m4, b, h),
                    OutgoingEdge::WhileFalse { body_start: b, after } => reaches(m4, b, h),
                    _ => true,
                } by {
                    if h == l {
                    } else if h == dl {
                        assert(reaches(m4, body_start, dl));
                    } else {
                        assert(m4[h] == m1[h]);
                        assert(m1.dom().contains(h));
                        match m1[h] {
                            OutgoingEdge::WhileTrue { body_start: b, after } => {
                                lemma_reaches_monotone(m1, m4, b, h);
                            },
                            OutgoingEdge::WhileFalse { body_start: b, after } => {
                                lemma_reaches_monotone(m1, m4, b, h);
                            },
                            _ => {},
                        }
                    }
                }
            }
            lemma_classify_from_invariants(bs, i + 1, None, m4);
        }
    }
}

// ------------------------------------------------------------------
// The public laws.
// ------------------------------------------------------------------

/// In every graph the builder accepts, each label a successor position
/// names is a key of the block map.
pub proof fn lemma_cfg_successors_closed(bs: Seq<Instr>)
    requires
        bs.len() <= usize::MAX,
        cfg_result(bs) is Ok,
    ensures
        edges_closed(cfg_result(bs)->Ok_0.1, cfg_result(bs)->Ok_0.0.dom()),
{
    lemma_classify_from_invariants(bs, 0, None, Map::empty());
}

/// In every graph the builder accepts, each non-`Exit` block has exactly
/// one outgoing edge and `Exit` has none: the edge keys are exactly the
/// block keys other than `Exit`.
pub proof fn lemma_cfg_edge_totality(bs: Seq<Instr>)
    requires
        bs.len() <= usize::MAX,
        cfg_result(bs) is Ok,
    ensures
        forall|l: Label|
            #[trigger] cfg_result(bs)->Ok_0.1.dom().contains(l) <==> (cfg_result(
                bs,
            )->Ok_0.0.dom().contains(l) && l != Label::Exit),
{
    let mf = cfg_result(bs)->Ok_0.1;
    if bs.len() == 0 {
        assert(mf == Map::<Label, OutgoingEdge>::empty().insert(
            Label::Entry,
            (OutgoingEdge::Pass { next: Label::Exit }),
        ));
        assert forall|l: Label|
            #[trigger] mf.dom().contains(l) <==> (cfg_result(bs)->Ok_0.0.dom().contains(l) && l
                != Label::Exit) by {
            assert(blocks_spec(bs).dom().contains(Label::Entry));
        }
    } else {
        lemma_classify_from_invariants(bs, 0, None, Map::empty());
        assert forall|l: Label|
            #[trigger] mf.dom().contains(l) <==> (cfg_result(bs)->Ok_0.0.dom().contains(l) && l
                != Label::Exit) by {
            if mf.dom().contains(l) {
                let t = choose|t: int| is_block_start(bs, t) && l == lab_of(t);
                assert(lab_of(t) != Label::Exit);
                assert(blocks_spec(bs).dom().contains(l));
            }
            if cfg_result(bs)->Ok_0.0.dom().contains(l) && l != Label::Exit {
                let t = choose|t: int| is_block_start(bs, t) && l == lab_of(t);
                assert(mf.dom().contains(lab_of(t)));
            }
        }
    }
}

/// In every graph the builder accepts, the body side of each `while`
/// header leads back to the header (through the loop's back edge).
pub proof fn lemma_cfg_loop_bodies_reach_headers(bs: Seq<Instr>)
    requires
        bs.len() <= usize::MAX,
        cfg_result(bs) is Ok,
    ensures
        loop_bodies_reach_headers(cfg_result(bs)->Ok_0.1),
{
    lemma_classify_from_invariants(bs, 0, None, Map::empty());
}

/// Iterating a finished graph's maps visits the keys strictly ascending in
/// the label order: traversal order is a function of the contents alone,
/// the same in every run.
pub proof fn lemma_cfg_iteration_in_label_order(cfg: Cfg)
    requires
        cfg.wf_rep(),
    ensures
        forall|i: int, j: int|
            0 <= i < j < cfg.blocks.entries_seq().len() ==> (
            #[trigger] cfg.blocks.entries_seq()[i]).0.before(
                (#[trigger] cfg.blocks.entries_seq()[j]).0,
            ),
        forall|i: int, j: int|
            0 <= i < j < cfg.edges.entries_seq().len() ==> (
            #[trigger] cfg.edges.entries_seq()[i]).0.before(
                (#[trigger] cfg.edges.entries_seq()[j]).0,
            ),
{
}

// ------------------------------------------------------------------
// The orientation of promoted loop headers.
// ------------------------------------------------------------------

/// The part of the edge map that existed when the back edge at `latch` was
/// classified: the edges of labels before the latch, without the header's
/// own edge (the classifier removes it before asking for paths).
pub open spec fn edges_before_latch(
    m: Map<Label, OutgoingEdge>,
    latch: Label,
    header: Label,
) -> Map<Label, OutgoingEdge> {
    Map::new(
        |k: Label| m.dom().contains(k) && k.before(latch) && k != header,
        |k: Label| m[k],
    )
}

/// Every back edge's `while` header is correctly oriented: over the part
/// of the graph that existed when the back edge was found, the body side
/// of the header's conditional reaches the back edge and the after side
/// does not.  (Over the whole finished graph the after side of a nested
/// loop can reach the header again, through the enclosing loop's back
/// edge, so the negative half is stated on this restriction.)
pub open spec fn promotion_orientation(m: Map<Label, OutgoingEdge>) -> bool {
    forall|latch: Label| #[trigger] m.dom().contains(latch) ==> match m[latch] {
        OutgoingEdge::LoopBack { header } => {
            &&& m.dom().contains(header)
            &&& match m[header] {
                OutgoingEdge::WhileTrue { body_start, after } => reaches(
                    edges_before_latch(m, latch, header),
                    body_start,
                    latch,
                ) && !reaches(edges_before_latch(m, latch, header), after, latch),
                OutgoingEdge::WhileFalse { body_start, after } => reaches(
                    edges_before_latch(m, latch, header),
                    body_start,
                    latch,
                ) && !reaches(edges_before_latch(m, latch, header), after, latch),
                _ => false,
            }
        },
        _ => true,
    }
}

/// Inserting an edge at a key past every present key changes no latch's
/// restricted graph, so the orientation facts survive.
proof fn lemma_orientation_insert_late(m: Map<Label, OutgoingEdge>, k: Label, e: OutgoingEdge)
    requires
        !m.dom().contains(k),
        forall|x: Label| #[trigger] m.dom().contains(x) ==> x.before(k),
        !(e is LoopBack),
        promotion_orientation(m),
    ensures
        promotion_orientation(m.insert(k, e)),
{
    let m2 = m.insert(k, e);
    assert forall|latch: Label| #[trigger] m2.dom().contains(latch) implies match m2[latch] {
        OutgoingEdge::LoopBack { header } => {
            &&& m2.dom().contains(header)
            &&& match m2[header] {
                OutgoingEdge::WhileTrue { body_start, after } => reaches(
                    edges_before_latch(m2, latch, header),
                    body_start,
                    latch,
                ) && !reaches(edges_before_latch(m2, latch, header), after, latch),
                OutgoingEdge::WhileFalse { body_start, after } => reaches(
                    edges_before_latch(m2, latch, header),
                    body_start,
                    latch,
                ) && !reaches(edges_before_latch(m2, latch, header), after, latch),
                _ => false,
            }
        },
        _ => true,
    } by {
        if latch != k && m2[latch] is LoopBack {
            let header = m2[latch]->LoopBack_header;
            assert(m.dom().contains(latch));
            assert(m2[latch] == m[latch]);
            assert(m.dom().contains(header));
            assert(header != k);
            assert(m2[header] == m[header]);
            assert(latch.before(k));
            assert(edges_before_latch(m2, latch, header) =~= edges_before_latch(
                m,
                latch,
                header,
            ));
        }
    }
}

/// The classifier orients every header it promotes, and later work never
/// touches the restricted graph the decision was made on.
#[verifier::rlimit(100)]
proof fn lemma_classify_orientation(
    bs: Seq<Instr>,
    i: int,
    cur: Option<Label>,
    m: Map<Label, OutgoingEdge>,
)
    requires
        bs.len() <= usize::MAX,
        0 <= i <= bs.len(),
        forall|k: Label| #[trigger] m.dom().contains(k) ==> exists|t: int|
            is_block_start(bs, t) && t < i && k == lab_of(t),
        cur matches Some(l) ==> exists|s: int|
            is_block_start(bs, s) && s < i && l == lab_of(s) && !m.dom().contains(l) && (forall|
                t: int,
            |
                s < t < i ==> !is_block_start(bs, t)) && (forall|k: Label|
                #[trigger] m.dom().contains(k) ==> k.before(l)),
        cur is None ==> forall|k: Label, t: int|
            #![trigger m.dom().contains(k), is_block_start(bs, t)]
            m.dom().contains(k) && i <= t < bs.len() && is_block_start(bs, t) ==> k.before(
                lab_of(t),
            ),
        promotion_orientation(m),
    ensures
        classify_from(bs, i, cur, m) matches Ok(mf) ==> promotion_orientation(mf),
    decreases bs.len() - i, 1int,
{
    if i >= bs.len() {
        match cur {
            Some(l) => {
                lemma_orientation_insert_late(m, l, OutgoingEdge::Pass { next: Label::Exit });
            },
            None => {},
        }
    } else {
        let at_head = is_block_start(bs, i);
        let m1 = if at_head && cur is Some {
            m.insert(cur->0, OutgoingEdge::Pass { next: lab_of(i) })
        } else {
            m
        };
        let cur1: Option<Label> = if at_head {
            Some(lab_of(i))
        } else {
            cur
        };
        if at_head && cur is Some {
            let l0 = cur->0;
            lemma_orientation_insert_late(m, l0, OutgoingEdge::Pass { next: lab_of(i) });
        }
        // the new open block, if any, lies past every settled key
        assert(cur1 matches Some(l) ==> exists|s: int|
            is_block_start(bs, s) && s < i + 1 && l == lab_of(s) && !m1.dom().contains(l) && (
            forall|t: int| s < t < i + 1 ==> !is_block_start(bs, t)) && (forall|k: Label|
                #[trigger] m1.dom().contains(k) ==> k.before(l))) by {
            if cur1 is Some {
                let l = cur1->0;
                if at_head {
                    assert(is_block_start(bs, i) && i < i + 1 && l == lab_of(i));
                    assert forall|k: Label| #[trigger] m1.dom().contains(k) implies k.before(
                        l,
                    ) by {
                        if cur is Some && k == cur->0 {
                            let s0 = choose|s: int|
                                is_block_start(bs, s) && s < i && cur->0 == lab_of(s);
                            lab_before_of_offsets(s0, i);
                        } else {
                            assert(m.dom().contains(k));
                            if cur is Some {
                                let s0 = choose|s: int|
                                    is_block_start(bs, s) && s < i && cur->0 == lab_of(s);
                                assert(k.before(cur->0));
                                let t0 = choose|t: int|
                                    is_block_start(bs, t) && t < i && k == lab_of(t);
                                lab_before_of_offsets(t0, i);
                            } else {
                                assert(k.before(lab_of(i)));
                            }
                        }
                    }
                    assert(!m1.dom().contains(l)) by {
                        if m1.dom().contains(l) {
                            assert(l.before(l));
                        }
                    }
                } else {
                    let s = choose|s: int|
                        is_block_start(bs, s) && s < i && l == lab_of(s) && !m.dom().contains(l)
                            && (forall|t: int| s < t < i ==> !is_block_start(bs, t)) && (forall|
                            k: Label,
                        |
                            #[trigger] m.dom().contains(k) ==> k.before(l));
                    assert(!is_block_start(bs, i));
                    assert(is_block_start(bs, s) && s < i + 1 && l == lab_of(s));
                    assert(forall|t: int| s < t < i + 1 ==> !is_block_start(bs, t));
                }
            }
        }
        match cur1 {
            None => {
                lemma_classify_orientation(bs, i + 1, None, m1);
            },
            Some(l) => {
                match bs[i] {
                    Instr::BrTrue(x) => {
                        let e = OutgoingEdge::If {
                            true_case: lab_of(x as int),
                            false_case: crate::cfg::cond_fallthrough(bs, i),
                        };
                        lemma_orientation_insert_late(m1, l, e);
                        lemma_after_insert_is_none_case(bs, i, l, m1.insert(l, e));
                        lemma_classify_orientation(bs, i + 1, None, m1.insert(l, e));
                    },
                    Instr::BrFalse(x) => {
                        let e = OutgoingEdge::If {
                            true_case: crate::cfg::cond_fallthrough(bs, i),
                            false_case: lab_of(x as int),
                        };
                        lemma_orientation_insert_late(m1, l, e);
                        lemma_after_insert_is_none_case(bs, i, l, m1.insert(l, e));
                        lemma_classify_orientation(bs, i + 1, None, m1.insert(l, e));
                    },
                    Instr::Branch(x) => {
                        if x < i {
                            lemma_promote_orientation(bs, i, x as int, l, m1);
                        } else {
                            let e = OutgoingEdge::Pass { next: lab_of(x as int) };
                            lemma_orientation_insert_late(m1, l, e);
                            lemma_after_insert_is_none_case(bs, i, l, m1.insert(l, e));
                            lemma_classify_orientation(bs, i + 1, None, m1.insert(l, e));
                        }
                    },
                    Instr::Ret => {
                        let e = OutgoingEdge::Pass { next: Label::Exit };
                        lemma_orientation_insert_late(m1, l, e);
                        lemma_after_insert_is_none_case(bs, i, l, m1.insert(l, e));
                        lemma_classify_orientation(bs, i + 1, None, m1.insert(l, e));
                    },
                    Instr::Abort => {
                        let e = OutgoingEdge::Pass { next: Label::Exit };
                        lemma_orientation_insert_late(m1, l, e);
                        lemma_after_insert_is_none_case(bs, i, l, m1.insert(l, e));
                        lemma_classify_orientation(bs, i + 1, None, m1.insert(l, e));
                    },
                    _ => {
                        lemma_classify_orientation(bs, i + 1, cur1, m1);
                    },
                }
            },
        }
    }
}

/// Offsets order labels as they order themselves.
proof fn lab_before_of_offsets(s: int, t: int)
    requires
        0 <= s < t <= usize::MAX,
    ensures
        lab_of(s).before(lab_of(t)),
{
}

/// After the open block's edge settles at `l`, every key (including `l`)
/// lies before any block start yet to come.
proof fn lemma_after_insert_is_none_case(
    bs: Seq<Instr>,
    i: int,
    l: Label,
    m2: Map<Label, OutgoingEdge>,
)
    requires
        bs.len() <= usize::MAX,
        0 <= i < bs.len(),
        forall|k: Label| #[trigger] m2.dom().contains(k) ==> exists|t: int|
            is_block_start(bs, t) && t < i + 1 && k == lab_of(t),
    ensures
        forall|k: Label, t: int|
            #![trigger m2.dom().contains(k), is_block_start(bs, t)]
            m2.dom().contains(k) && i + 1 <= t < bs.len() && is_block_start(bs, t) ==> k.before(
                lab_of(t),
            ),
{
    assert forall|k: Label, t: int|
        #![trigger m2.dom().contains(k), is_block_start(bs, t)]
        m2.dom().contains(k) && i + 1 <= t < bs.len() && is_block_start(
            bs,
            t,
        ) implies k.before(lab_of(t)) by {
        let u = choose|u: int| is_block_start(bs, u) && u < i + 1 && k == lab_of(u);
        lab_before_of_offsets(u, t);
    }
}

/// Promotion both establishes the new header's orientation, on exactly the
/// restricted graph the path queries ran on, and leaves every earlier
/// header's restricted graph untouched.
#[verifier::rlimit(100)]
proof fn lemma_promote_orientation(
    bs: Seq<Instr>,
    i: int,
    x: int,
    l: Label,
    m1: Map<Label, OutgoingEdge>,
)
    requires
        bs.len() <= usize::MAX,
        0 <= i < bs.len(),
        bs[i] is Branch,
        x == crate::instr::jump_target(bs[i]),
        x < i,
        forall|k: Label| #[trigger] m1.dom().contains(k) ==> exists|t: int|
            is_block_start(bs, t) && t < i + 1 && k == lab_of(t),
        exists|s: int|
            is_block_start(bs, s) && s < i + 1 && l == lab_of(s) && !m1.dom().contains(l) && (
            forall|t: int| s < t < i + 1 ==> !is_block_start(bs, t)),
        forall|k: Label| #[trigger] m1.dom().contains(k) ==> k.before(l),
        promotion_orientation(m1),
    ensures
        crate::cfg::promote_header(bs, i, x, l, m1) matches Ok(mf) ==> promotion_orientation(mf),
    decreases bs.len() - i, 0int,
{
    let dl = lab_of(x);
    if m1.dom().contains(dl) && m1[dl] is If {
        let t = m1[dl]->If_true_case;
        let f = m1[dl]->If_false_case;
        let m2 = m1.remove(dl);
        let pt = reaches(m2, t, l);
        let pf = reaches(m2, f, l);
        if pt != pf {
            let promoted = if pt {
                OutgoingEdge::WhileTrue { body_start: t, after: f }
            } else {
                OutgoingEdge::WhileFalse { body_start: f, after: t }
            };
            let m4 = m2.insert(dl, promoted).insert(l, OutgoingEdge::LoopBack { header: dl });
            // the restricted graph of the new pair is the queried one
            assert(edges_before_latch(m4, l, dl) =~= m2) by {
                assert forall|k: Label| #[trigger] m2.dom().contains(k) implies k.before(l) && k
                    != dl && m4[k] == m2[k] by {
                    assert(m1.dom().contains(k));
                }
            }
            // orientation of every pair of the updated map
            assert forall|latch: Label| #[trigger] m4.dom().contains(latch) implies match m4[latch] {
                OutgoingEdge::LoopBack { header } => {
                    &&& m4.dom().contains(header)
                    &&& match m4[header] {
                        OutgoingEdge::WhileTrue { body_start, after } => reaches(
                            edges_before_latch(m4, latch, header),
                            body_start,
                            latch,
                        ) && !reaches(edges_before_latch(m4, latch, header), after, latch),
                        OutgoingEdge::WhileFalse { body_start, after } => reaches(
                            edges_before_latch(m4, latch, header),
                            body_start,
                            latch,
                        ) && !reaches(edges_before_latch(m4, latch, header), after, latch),
                        _ => false,
                    }
                },
                _ => true,
            } by {
                if latch == l {
                    assert(m4[l] == (OutgoingEdge::LoopBack { header: dl }));
                    assert(m4.dom().contains(dl) && m4[dl] == promoted);
                } else if latch == dl {
                    assert(!(m4[dl] is LoopBack));
                } else if m4[latch] is LoopBack {
                    // an earlier pair: its restricted graph keeps its keys,
                    // and the one rewritten value keeps its successors, so
                    // both path facts survive
                    let header = m4[latch]->LoopBack_header;
                    assert(m1.dom().contains(latch));
                    assert(m4[latch] == m1[latch]);
                    assert(m1.dom().contains(header));
                    assert(header != dl);
                    assert(header != l);
                    assert(m4[header] == m1[header]);
                    assert(latch.before(l));
                    let r1 = edges_before_latch(m1, latch, header);
                    let r4 = edges_before_latch(m4, latch, header);
                    assert forall|p: Label, q: Label| step(r1, p, q) implies #[trigger] step(
                        r4,
                        p,
                        q,
                    ) by {
                        assert(m1.dom().contains(p));
                        assert(m4.dom().contains(p));
                        assert(r4.dom().contains(p));
                        if p == dl {
                            assert(edge_succs(r4[p]) =~= edge_succs(r1[p]));
                        } else {
                            assert(r4[p] == r1[p]);
                        }
                    }
                    assert forall|p: Label, q: Label| step(r4, p, q) implies #[trigger] step(
                        r1,
                        p,
                        q,
                    ) by {
                        assert(m4.dom().contains(p) && p.before(latch));
                        assert(p != l) by {
                            if p == l {
                                crate::label::lemma_label_order_total(l, latch);
                            }
                        }
                        assert(m1.dom().contains(p));
                        assert(r1.dom().contains(p));
                        if p == dl {
                            assert(edge_succs(r1[p]) =~= edge_succs(r4[p]));
                        } else {
                            assert(r1[p] == r4[p]);
                        }
                    }
                    match m1[header] {
                        OutgoingEdge::WhileTrue { body_start, after } => {
                            lemma_reaches_monotone(r1, r4, body_start, latch);
                            if reaches(r4, after, latch) {
                                lemma_reaches_monotone(r4, r1, after, latch);
                            }
                        },
                        OutgoingEdge::WhileFalse { body_start, after } => {
                            lemma_reaches_monotone(r1, r4, body_start, latch);
                            if reaches(r4, after, latch) {
                                lemma_reaches_monotone(r4, r1, after, latch);
                            }
                        },
                        _ => {},
                    }
                }
            }
            lemma_after_insert_is_none_case(bs, i, l, m4);
            lemma_classify_orientation(bs, i + 1, None, m4);
        }
    }
}

/// P3, as the construction guarantees it: in every graph the builder
/// accepts, each promoted `while` header is oriented by reachability over
/// the graph as it stood at its back edge — the body side reaches the
/// back edge there and the after side does not.  Over the whole finished
/// graph the body side still reaches the header
/// ([`lemma_cfg_loop_bodies_reach_headers`]); the after side can, for a
/// loop nested in another, so the negative half holds on the restriction.
pub proof fn lemma_cfg_loop_orientation(bs: Seq<Instr>)
    requires
        bs.len() <= usize::MAX,
        cfg_result(bs) is Ok,
    ensures
        promotion_orientation(cfg_result(bs)->Ok_0.1),
{
    lemma_classify_orientation(bs, 0, None, Map::empty());
}

/// A basic block contains no control flow: no instruction of any block of
/// an accepted graph is a branch.  A branch either ends the block just
/// before it (its own offset is a point) or is rejected outright, so the
/// opcode translator can never meet one in a block the builder produced.
pub proof fn lemma_blocks_hold_no_branches(bs: Seq<Instr>, l: Label)
    requires
        bs.len() <= usize::MAX,
        blocks_spec(bs).dom().contains(l),
    ensures
        forall|j: int|
            0 <= j < blocks_spec(bs)[l].len() ==> !crate::instr::is_jump(
                #[trigger] blocks_spec(bs)[l][j],
            ),
{
    if l != Label::Exit && bs.len() > 0 {
        let s = choose|s: int| is_block_start(bs, s) && l == lab_of(s);
        let e = crate::cfg::block_end(bs, s);
        crate::cfg::lemma_next_point_bounds(bs, s + 1);
        assert(s + 1 <= e <= bs.len());
        assert forall|j: int|
            0 <= j < blocks_spec(bs)[l].len() implies !crate::instr::is_jump(
            #[trigger] blocks_spec(bs)[l][j],
        ) by {
            if l == Label::Entry {
                assert(s == 0);
            } else {
                assert(l == Label::Point(s as usize));
                assert((s as usize) as int == s);
            }
            assert(blocks_spec(bs)[l] == bs.subrange(s, e));
            assert(blocks_spec(bs)[l][j] == bs[s + j]);
            if j == 0 {
                assert(!crate::cfg::is_origin(bs, s));
            } else {
                crate::cfg::lemma_next_point_gap(bs, s + 1, s + j);
                assert(!crate::cfg::is_origin(bs, s + j));
            }
        }
    } else if l != Label::Exit {
        // the empty buffer's entry block holds nothing at all
        assert(blocks_spec(bs)[l] =~= bs.subrange(0, crate::cfg::block_end(bs, 0)));
        assert(blocks_spec(bs)[l].len() == 0);
    }
}

/// `Entry` and `Exit` are present in the block map of every graph the
/// builder accepts: a buffer whose first instruction is a branch is
/// rejected outright, and the empty buffer keeps an empty entry block.
pub proof fn lemma_entry_and_exit_present(bs: Seq<Instr>)
    requires
        cfg_result(bs) is Ok,
    ensures
        cfg_result(bs)->Ok_0.0.dom().contains(Label::Entry),
        cfg_result(bs)->Ok_0.0.dom().contains(Label::Exit),
{
    if bs.len() > 0 {
        assert(!crate::instr::is_jump(bs[0]));
        assert(crate::cfg::is_dest(bs, 0));
        assert(is_block_start(bs, 0));
        assert(blocks_spec(bs).dom().contains(lab_of(0)));
    }
}

} // verus!
