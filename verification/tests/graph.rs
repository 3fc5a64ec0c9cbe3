use instrument_coverage::graph::{chain_predecessors, reachable_blocks, CoverageGraph};
use instrument_coverage::mir::{BasicBlockData, Body, SourceInfo, Terminator, TerminatorKind};
use instrument_coverage::span::Span;

fn block(kind: TerminatorKind) -> BasicBlockData {
    BasicBlockData {
        statements: vec![],
        terminator: Terminator { source_info: SourceInfo { span: Span { lo: 0, hi: 0, ctxt: 0 } }, kind },
        is_cleanup: false,
    }
}

fn body(kinds: Vec<TerminatorKind>) -> Body {
    Body { basic_blocks: kinds.into_iter().map(block).collect(), function_coverage_info: None }
}

fn goto(target: usize) -> TerminatorKind {
    TerminatorKind::Goto { target }
}

fn switch(targets: Vec<usize>) -> TerminatorKind {
    TerminatorKind::SwitchInt { targets }
}

fn chains(graph: &CoverageGraph) -> Vec<Vec<usize>> {
    graph.bcbs.iter().map(|bcb| bcb.basic_blocks.clone()).collect()
}

#[test]
fn diamond_keeps_its_four_blocks_apart() {
    let b = body(vec![switch(vec![1, 2]), goto(3), goto(3), TerminatorKind::Return]);
    assert!(b.is_well_formed());
    let g = CoverageGraph::from_mir(&b);
    assert_eq!(chains(&g), vec![vec![0], vec![1], vec![2], vec![3]]);
    assert_eq!(g.bb_to_bcb, vec![Some(0), Some(1), Some(2), Some(3)]);
    assert_eq!(g.successors, vec![vec![1, 2], vec![3], vec![3], vec![]]);
    assert_eq!(g.predecessors, vec![vec![], vec![0], vec![0], vec![1, 2]]);
    assert_eq!(g.num_nodes(), 4);
}

#[test]
fn straight_line_becomes_one_node() {
    let b = body(vec![goto(1), TerminatorKind::Call { target: Some(2) }, goto(3), TerminatorKind::Return]);
    let g = CoverageGraph::from_mir(&b);
    assert_eq!(chains(&g), vec![vec![0, 1, 2, 3]]);
    assert_eq!(g.bb_to_bcb, vec![Some(0), Some(0), Some(0), Some(0)]);
    assert_eq!(g.successors, vec![Vec::<usize>::new()]);
    assert_eq!(g.predecessors, vec![Vec::<usize>::new()]);
    assert_eq!(g.bcbs[0].leader_bb(), 0);
    assert_eq!(g.bcbs[0].last_bb(), 3);
}

#[test]
fn chains_follow_the_edges_not_the_block_numbers() {
    // 0 -> 3 -> 1 -> 2, where 2 branches to 4 and 5.
    let b = body(vec![
        goto(3),
        goto(2),
        switch(vec![5, 4]),
        goto(1),
        TerminatorKind::Return,
        TerminatorKind::Return,
    ]);
    let g = CoverageGraph::from_mir(&b);
    assert_eq!(chains(&g), vec![vec![0, 3, 1, 2], vec![4], vec![5]]);
    assert_eq!(g.bb_to_bcb, vec![Some(0), Some(0), Some(0), Some(0), Some(1), Some(2)]);
    assert_eq!(g.successors, vec![vec![2, 1], vec![], vec![]]);
    assert_eq!(g.predecessors, vec![vec![], vec![0], vec![0]]);
}

#[test]
fn unreachable_blocks_have_no_node_but_still_split_chains() {
    let b = body(vec![goto(2), goto(2), TerminatorKind::Return]);
    assert_eq!(reachable_blocks(&b), vec![true, false, true]);
    let g = CoverageGraph::from_mir(&b);
    assert_eq!(chains(&g), vec![vec![0], vec![2]]);
    assert_eq!(g.bb_to_bcb, vec![Some(0), None, Some(1)]);
    assert_eq!(g.successors, vec![vec![1], vec![]]);
    assert_eq!(g.predecessors, vec![vec![], vec![0]]);
}

#[test]
fn loop_head_starts_a_node() {
    let b = body(vec![goto(1), switch(vec![2, 3]), goto(1), TerminatorKind::Return]);
    let g = CoverageGraph::from_mir(&b);
    assert_eq!(chains(&g), vec![vec![0], vec![1], vec![2], vec![3]]);
    assert_eq!(g.successors, vec![vec![1], vec![2, 3], vec![1], vec![]]);
    assert_eq!(g.predecessors, vec![vec![], vec![0, 2], vec![1], vec![1]]);
}

#[test]
fn two_slots_to_one_block_make_one_edge() {
    let b = body(vec![switch(vec![1, 1]), TerminatorKind::Return]);
    assert_eq!(chain_predecessors(&b), vec![None, None]);
    let g = CoverageGraph::from_mir(&b);
    assert_eq!(chains(&g), vec![vec![0], vec![1]]);
    assert_eq!(g.successors, vec![vec![1], vec![]]);
    assert_eq!(g.predecessors, vec![vec![], vec![0]]);
}

#[test]
fn the_start_block_always_begins_a_node() {
    let alone = body(vec![goto(0)]);
    let g = CoverageGraph::from_mir(&alone);
    assert_eq!(chains(&g), vec![vec![0]]);
    assert_eq!(g.successors, vec![vec![0]]);
    assert_eq!(g.predecessors, vec![vec![0]]);

    let ring = body(vec![goto(1), goto(0)]);
    assert_eq!(chain_predecessors(&ring), vec![None, Some(0)]);
    let g = CoverageGraph::from_mir(&ring);
    assert_eq!(chains(&g), vec![vec![0, 1]]);
    assert_eq!(g.successors, vec![vec![0]]);
    assert_eq!(g.predecessors, vec![vec![0]]);
}

#[test]
fn every_edge_is_inside_a_chain_or_one_edge_of_the_graph() {
    let b = body(vec![
        goto(1),
        switch(vec![2, 4]),
        goto(3),
        goto(1),
        TerminatorKind::Call { target: Some(5) },
        TerminatorKind::Return,
        goto(5),
    ]);
    let g = CoverageGraph::from_mir(&b);
    let reach = reachable_blocks(&b);
    for a in 0..b.basic_blocks.len() {
        if !reach[a] {
            assert_eq!(g.bb_to_bcb[a], None);
            continue;
        }
        let ka = g.bb_to_bcb[a].unwrap();
        let kind = &b.basic_blocks[a].terminator.kind;
        for slot in 0..kind.num_successors() {
            let t = kind.successor(slot);
            let kb = g.bb_to_bcb[t].unwrap();
            let chain = &g.bcbs[ka].basic_blocks;
            let at = chain.iter().position(|&x| x == a).unwrap();
            let internal = ka == kb && at + 1 < chain.len() && chain[at + 1] == t;
            let crossing = g.bcbs[ka].last_bb() == a
                && g.bcbs[kb].leader_bb() == t
                && g.successors[ka].iter().filter(|&&k| k == kb).count() == 1;
            assert!(internal != crossing);
        }
    }
}

#[test]
fn bodies_that_are_not_well_formed_are_told_apart() {
    assert!(!body(vec![]).is_well_formed());
    assert!(!body(vec![goto(1)]).is_well_formed());
    assert!(!body(vec![switch(vec![0, 2]), TerminatorKind::Return]).is_well_formed());
    assert!(body(vec![TerminatorKind::Call { target: None }]).is_well_formed());
    assert!(body(vec![TerminatorKind::Unreachable]).is_well_formed());
}
