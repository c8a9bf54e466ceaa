use move_to_miden::cfg::{Block, Cfg, CfgError, OutgoingEdge};
use move_to_miden::reach::{first_common_ancestor, has_path};
use std::cmp::Ordering;
use move_to_miden::instr::Instr;
use move_to_miden::label::Label;
use move_to_miden::label_map::LabelMap;

fn build_expected_cfg(blocks: Vec<(Label, Vec<Instr>)>, edges: Vec<(Label, OutgoingEdge)>) -> Cfg {
    let mut expected_blocks: LabelMap<Block> = LabelMap::new();
    for (l, code) in blocks {
        expected_blocks.insert(l, Block::new(code));
    }
    let mut expected_edges: LabelMap<OutgoingEdge> = LabelMap::new();
    for (l, e) in edges {
        expected_edges.insert(l, e);
    }
    Cfg { blocks: expected_blocks, edges: expected_edges }
}

#[test]
fn test_trivial_cfg() {
    let bytecode = vec![
        Instr::LdU32(0),
        Instr::LdU32(1),
        Instr::LdU32(2),
        Instr::LdU32(3),
        Instr::LdU32(4),
        Instr::LdU32(5),
    ];
    let cfg = Cfg::new(&bytecode).unwrap();
    let expected = build_expected_cfg(
        vec![(Label::Entry, bytecode.clone()), (Label::Exit, vec![])],
        vec![(Label::Entry, OutgoingEdge::Pass { next: Label::Exit })],
    );
    assert_eq!(cfg, expected);
}

#[test]
fn test_simple_cfg() {
    let bytecode = vec![
        Instr::LdU32(0),
        Instr::LdU32(0),
        Instr::LdU32(0),
        Instr::LdU32(0),
        Instr::LdU32(0),
        Instr::BrFalse(7),
        Instr::Branch(9),
        Instr::LdU32(0),
        Instr::Abort,
        Instr::Ret,
    ];
    let cfg = Cfg::new(&bytecode).unwrap();
    let expected = build_expected_cfg(
        vec![
            (Label::Entry, bytecode[0..5].to_vec()),
            (Label::Point(7), bytecode[7..9].to_vec()),
            (Label::Point(9), bytecode[9..].to_vec()),
            (Label::Exit, vec![]),
        ],
        vec![
            (
                Label::Entry,
                OutgoingEdge::If { true_case: Label::Point(9), false_case: Label::Point(7) },
            ),
            (Label::Point(7), OutgoingEdge::Pass { next: Label::Exit }),
            (Label::Point(9), OutgoingEdge::Pass { next: Label::Exit }),
        ],
    );
    assert_eq!(cfg, expected);
}

#[test]
fn test_while_loop_cfg() {
    let bytecode = vec![
        Instr::LdU32(1),
        Instr::StLoc(1),
        Instr::LdU32(0),
        Instr::StLoc(2),
        Instr::CopyLoc(1),
        Instr::CopyLoc(0),
        Instr::Le,
        Instr::BrFalse(18),
        Instr::Branch(9),
        Instr::MoveLoc(2),
        Instr::CopyLoc(1),
        Instr::Add,
        Instr::StLoc(2),
        Instr::MoveLoc(1),
        Instr::LdU32(1),
        Instr::Add,
        Instr::StLoc(1),
        Instr::Branch(4),
        Instr::MoveLoc(2),
        Instr::Ret,
    ];
    let cfg = Cfg::new(&bytecode).unwrap();
    let expected = build_expected_cfg(
        vec![
            (Label::Entry, bytecode[0..4].to_vec()),
            (Label::Point(4), bytecode[4..7].to_vec()),
            (Label::Point(9), bytecode[9..17].to_vec()),
            (Label::Point(18), bytecode[18..20].to_vec()),
            (Label::Exit, vec![]),
        ],
        vec![
            (Label::Entry, OutgoingEdge::Pass { next: Label::Point(4) }),
            (
                Label::Point(4),
                OutgoingEdge::WhileTrue {
                    body_start: Label::Point(9),
                    after: Label::Point(18),
                },
            ),
            (Label::Point(9), OutgoingEdge::LoopBack { header: Label::Point(4) }),
            (Label::Point(18), OutgoingEdge::Pass { next: Label::Exit }),
        ],
    );
    assert_eq!(cfg, expected);
}

#[test]
fn test_break_loop() {
    let bytecode = vec![
        Instr::LdU32(0), // Label::Entry
        Instr::StLoc(1),
        Instr::LdU32(1),
        Instr::StLoc(2),
        Instr::CopyLoc(0),
        Instr::LdU32(0),
        Instr::Eq,
        Instr::BrFalse(10), // Label::Point(7)
        Instr::MoveLoc(1),
        Instr::Ret,
        Instr::CopyLoc(0), // Label::Point(10)
        Instr::LdU32(1),
        Instr::Eq,
        Instr::BrFalse(16), // Label::Point(13)
        Instr::MoveLoc(2),
        Instr::Ret,
        Instr::MoveLoc(1), // Label::Point(16)
        Instr::CopyLoc(2),
        Instr::Add,
        Instr::StLoc(3),
        Instr::MoveLoc(2),
        Instr::StLoc(1),
        Instr::MoveLoc(3),
        Instr::StLoc(2),
        Instr::CopyLoc(0),
        Instr::LdU32(1),
        Instr::Eq,
        Instr::BrFalse(29), // Label::Point(27)
        Instr::Branch(34),
        Instr::MoveLoc(0), // Label::Point(29)
        Instr::LdU32(1),
        Instr::Sub,
        Instr::StLoc(0),
        Instr::Branch(16), // Label::Point(33)
        Instr::MoveLoc(2), // Label::Point(34)
        Instr::Ret,
    ];
    let cfg = Cfg::new(&bytecode).unwrap();
    let expected = build_expected_cfg(
        vec![
            (Label::Entry, bytecode[0..7].to_vec()),
            (Label::Point(8), bytecode[8..10].to_vec()),
            (Label::Point(10), bytecode[10..13].to_vec()),
            (Label::Point(14), bytecode[14..16].to_vec()),
            (Label::Point(16), bytecode[16..27].to_vec()),
            (Label::Point(29), bytecode[29..33].to_vec()),
            (Label::Point(34), bytecode[34..36].to_vec()),
            (Label::Exit, vec![]),
        ],
        vec![
            (
                Label::Entry,
                OutgoingEdge::If { true_case: Label::Point(8), false_case: Label::Point(10) },
            ),
            (Label::Point(8), OutgoingEdge::Pass { next: Label::Exit }),
            (
                Label::Point(10),
                OutgoingEdge::If { true_case: Label::Point(14), false_case: Label::Point(16) },
            ),
            (Label::Point(14), OutgoingEdge::Pass { next: Label::Exit }),
            (
                Label::Point(16),
                OutgoingEdge::WhileFalse {
                    body_start: Label::Point(29),
                    after: Label::Point(34),
                },
            ),
            (Label::Point(29), OutgoingEdge::LoopBack { header: Label::Point(16) }),
            (Label::Point(34), OutgoingEdge::Pass { next: Label::Exit }),
        ],
    );
    assert_eq!(cfg, expected);
}

#[test]
fn test_while_loop_with_if_in_body() {
    let bytecode = vec![
        Instr::LdU32(0), // Label::Entry
        Instr::StLoc(1),
        Instr::CopyLoc(0), // Label::Point(2)
        Instr::LdU32(1),
        Instr::Neq,
        Instr::BrFalse(29), // Label::Point(5)
        Instr::Branch(7),
        Instr::CopyLoc(0), // Label::Point(7)
        Instr::LdU32(2),
        Instr::Mod,
        Instr::LdU32(0),
        Instr::Eq,
        Instr::BrFalse(18), // Label::Point(12)
        Instr::MoveLoc(0),
        Instr::LdU32(2),
        Instr::Div,
        Instr::StLoc(0),
        Instr::Branch(24), // Label::Point(17)
        Instr::LdU32(3),
        Instr::MoveLoc(0),
        Instr::Mul,
        Instr::LdU32(1),
        Instr::Add,
        Instr::StLoc(0),
        Instr::MoveLoc(1), // Label::Point(24)
        Instr::LdU32(1),
        Instr::Add,
        Instr::StLoc(1),
        Instr::Branch(2), // Label::Point(28)
        Instr::MoveLoc(1),
        Instr::Ret,
    ];
    let cfg = Cfg::new(&bytecode).unwrap();
    let expected = build_expected_cfg(
        vec![
            (Label::Entry, bytecode[0..2].to_vec()),
            (Label::Point(2), bytecode[2..5].to_vec()),
            (Label::Point(7), bytecode[7..12].to_vec()),
            (Label::Point(13), bytecode[13..17].to_vec()),
            (Label::Point(18), bytecode[18..24].to_vec()),
            (Label::Point(24), bytecode[24..28].to_vec()),
            (Label::Point(29), bytecode[29..31].to_vec()),
            (Label::Exit, vec![]),
        ],
        vec![
            (Label::Entry, OutgoingEdge::Pass { next: Label::Point(2) }),
            (
                Label::Point(2),
                OutgoingEdge::WhileTrue {
                    body_start: Label::Point(7),
                    after: Label::Point(29),
                },
            ),
            (
                Label::Point(7),
                OutgoingEdge::If { true_case: Label::Point(13), false_case: Label::Point(18) },
            ),
            (Label::Point(13), OutgoingEdge::Pass { next: Label::Point(24) }),
            (Label::Point(18), OutgoingEdge::Pass { next: Label::Point(24) }),
            (Label::Point(24), OutgoingEdge::LoopBack { header: Label::Point(2) }),
            (Label::Point(29), OutgoingEdge::Pass { next: Label::Exit }),
        ],
    );
    assert_eq!(cfg, expected);
}

#[test]
fn test_branch_to_branch_rejected() {
    let bytecode = vec![Instr::LdU32(0), Instr::Branch(2), Instr::Branch(0)];
    assert_eq!(Cfg::new(&bytecode).unwrap_err(), CfgError::BranchToBranch);
}

#[test]
fn test_conditional_back_jump_rejected() {
    let bytecode = vec![Instr::LdU32(0), Instr::LdU32(0), Instr::BrFalse(0)];
    assert_eq!(Cfg::new(&bytecode).unwrap_err(), CfgError::ConditionalJumpBack);
}

#[test]
fn test_self_branch_rejected() {
    let bytecode = vec![Instr::LdU32(0), Instr::Branch(1)];
    assert_eq!(Cfg::new(&bytecode).unwrap_err(), CfgError::SelfBranch);
}

#[test]
fn test_branch_out_of_bounds_rejected() {
    let bytecode = vec![Instr::LdU32(0), Instr::Branch(5)];
    assert_eq!(Cfg::new(&bytecode).unwrap_err(), CfgError::BranchOutOfBounds);
}

#[test]
fn test_repeat_conditional_rejected() {
    let bytecode = vec![Instr::BrTrue(2), Instr::BrFalse(2), Instr::LdU32(0)];
    assert_eq!(Cfg::new(&bytecode).unwrap_err(), CfgError::RepeatConditionalBranch);
}

#[test]
fn test_back_jump_to_plain_block_rejected() {
    // the back edge's destination never got an if/else edge
    let bytecode = vec![Instr::LdU32(0), Instr::LdU32(0), Instr::Branch(0)];
    assert_eq!(Cfg::new(&bytecode).unwrap_err(), CfgError::InvalidLoopHeader);
}

#[test]
fn test_empty_function_falls_through() {
    // Entry and Exit are present even for an empty buffer
    let bytecode: Vec<Instr> = vec![];
    let cfg = Cfg::new(&bytecode).unwrap();
    let expected = build_expected_cfg(
        vec![(Label::Entry, vec![]), (Label::Exit, vec![])],
        vec![(Label::Entry, OutgoingEdge::Pass { next: Label::Exit })],
    );
    assert_eq!(cfg, expected);
}

#[test]
fn test_branch_at_entry_rejected() {
    // a branch at offset 0 would end the entry block before it opens
    let bytecode = vec![Instr::BrTrue(2), Instr::LdU32(0), Instr::LdU32(0)];
    assert_eq!(Cfg::new(&bytecode).unwrap_err(), CfgError::UnexpectedBlockEnd);
    let bytecode = vec![Instr::Branch(1), Instr::LdU32(0)];
    assert_eq!(Cfg::new(&bytecode).unwrap_err(), CfgError::UnexpectedBlockEnd);
    // a fault of the branch itself is found first
    let bytecode = vec![Instr::Branch(0)];
    assert_eq!(Cfg::new(&bytecode).unwrap_err(), CfgError::SelfBranch);
}

#[test]
fn test_label_order() {
    assert_eq!(Label::cmp_inner(&Label::Entry, &Label::Point(0)), Ordering::Less);
    assert_eq!(Label::cmp_inner(&Label::Point(3), &Label::Point(7)), Ordering::Less);
    assert_eq!(Label::cmp_inner(&Label::Point(7), &Label::Point(3)), Ordering::Greater);
    assert_eq!(Label::cmp_inner(&Label::Point(7), &Label::Exit), Ordering::Less);
    assert_eq!(Label::cmp_inner(&Label::Exit, &Label::Exit), Ordering::Equal);
    assert_eq!(Label::new(0), Label::Entry);
    assert_eq!(Label::new(9), Label::Point(9));
}

#[test]
fn test_label_map_iterates_in_label_order() {
    let mut m: LabelMap<u32> = LabelMap::new();
    m.insert(Label::Exit, 3);
    m.insert(Label::Point(5), 2);
    m.insert(Label::Entry, 1);
    m.insert(Label::Point(5), 4); // replaces, keeps the position
    assert_eq!(m.len(), 3);
    assert_eq!(*m.entry_at(0), (Label::Entry, 1));
    assert_eq!(*m.entry_at(1), (Label::Point(5), 4));
    assert_eq!(*m.entry_at(2), (Label::Exit, 3));
    assert_eq!(m.get(&Label::Point(5)), Some(&4));
    assert_eq!(m.get(&Label::Point(6)), None);
    m.remove(&Label::Point(5));
    assert_eq!(m.len(), 2);
    assert_eq!(*m.entry_at(1), (Label::Exit, 3));
}

#[test]
fn test_has_path_follows_edges() {
    let mut edges: LabelMap<OutgoingEdge> = LabelMap::new();
    edges.insert(
        Label::Entry,
        OutgoingEdge::If { true_case: Label::Point(3), false_case: Label::Point(5) },
    );
    edges.insert(Label::Point(3), OutgoingEdge::Pass { next: Label::Point(7) });
    edges.insert(Label::Point(5), OutgoingEdge::Pass { next: Label::Point(7) });
    edges.insert(Label::Point(7), OutgoingEdge::Pass { next: Label::Exit });
    assert!(has_path(&edges, &Label::Entry, &Label::Point(7)));
    assert!(has_path(&edges, &Label::Entry, &Label::Exit));
    assert!(has_path(&edges, &Label::Point(3), &Label::Point(3)));
    assert!(!has_path(&edges, &Label::Point(5), &Label::Point(3)));
    assert_eq!(
        first_common_ancestor(&edges, &Label::Point(3), &Label::Point(5)),
        Label::Point(7),
    );
    // two sides that never meet fall back to Exit
    let mut disjoint: LabelMap<OutgoingEdge> = LabelMap::new();
    disjoint.insert(Label::Entry, OutgoingEdge::Pass { next: Label::Point(1) });
    assert_eq!(
        first_common_ancestor(&disjoint, &Label::Point(1), &Label::Point(2)),
        Label::Exit,
    );
}

fn successors(e: &OutgoingEdge) -> Vec<Label> {
    match e {
        OutgoingEdge::If { true_case, false_case } => vec![*true_case, *false_case],
        OutgoingEdge::Pass { next } => vec![*next],
        OutgoingEdge::LoopBack { header } => vec![*header],
        OutgoingEdge::WhileTrue { body_start, after } => vec![*body_start, *after],
        OutgoingEdge::WhileFalse { body_start, after } => vec![*body_start, *after],
    }
}

#[test]
fn test_structural_invariants_on_concrete_graph() {
    // the while-loop program: check the graph's structural laws on it
    let bytecode = vec![
        Instr::LdU32(1),
        Instr::StLoc(1),
        Instr::LdU32(0),
        Instr::StLoc(2),
        Instr::CopyLoc(1),
        Instr::CopyLoc(0),
        Instr::Le,
        Instr::BrFalse(18),
        Instr::Branch(9),
        Instr::MoveLoc(2),
        Instr::CopyLoc(1),
        Instr::Add,
        Instr::StLoc(2),
        Instr::MoveLoc(1),
        Instr::LdU32(1),
        Instr::Add,
        Instr::StLoc(1),
        Instr::Branch(4),
        Instr::MoveLoc(2),
        Instr::Ret,
    ];
    let cfg = Cfg::new(&bytecode).unwrap();
    // every label a successor position names is a key of the block map
    for i in 0..cfg.edges.len() {
        let (_, edge) = cfg.edges.entry_at(i);
        for succ in successors(edge) {
            assert!(cfg.blocks.get(&succ).is_some());
        }
    }
    // every non-Exit block has exactly one outgoing edge; Exit has none
    assert_eq!(cfg.edges.len() + 1, cfg.blocks.len());
    assert!(cfg.edges.get(&Label::Exit).is_none());
    for i in 0..cfg.blocks.len() {
        let (label, _) = *cfg.blocks.entry_at(i);
        assert_eq!(cfg.edges.get(&label).is_some(), label != Label::Exit);
    }
    // the while header's body side leads back to it; the after side does not
    assert!(has_path(&cfg.edges, &Label::Point(9), &Label::Point(4)));
    assert!(!has_path(&cfg.edges, &Label::Point(18), &Label::Point(4)));
    // both maps iterate strictly ascending in the label order
    for i in 1..cfg.blocks.len() {
        assert_eq!(
            cfg.blocks.entry_at(i - 1).0.cmp_inner(&cfg.blocks.entry_at(i).0),
            Ordering::Less,
        );
    }
    for i in 1..cfg.edges.len() {
        assert_eq!(
            cfg.edges.entry_at(i - 1).0.cmp_inner(&cfg.edges.entry_at(i).0),
            Ordering::Less,
        );
    }
}
