//! The two changes that instrumentation makes to the blocks of a body: a
//! coverage statement at the head of a block, and a new block on an edge.
//! Neither changes where control passes.

use crate::mir::{
    cfg_of, cfg_well_formed, BasicBlockData, BlockView, Body, CoverageKind, SourceInfo, Statement,
    StatementKind, Terminator, TerminatorKind, TerminatorKindView,
};
use vstd::prelude::*;

verus! {

/// The coverage statement that is put into a block whose terminator comes
/// from `source_info`.
pub open spec fn coverage_statement(source_info: SourceInfo, kind: CoverageKind) -> Statement {
    Statement { source_info, kind: StatementKind::Coverage(kind) }
}

/// The blocks with a coverage statement put before the statements of block
/// `bb`.
pub open spec fn with_statement(blocks: Seq<BlockView>, kind: CoverageKind, bb: usize) -> Seq<
    BlockView,
> {
    blocks.update(
        bb as int,
        BlockView {
            statements: blocks[bb as int].statements.insert(
                0,
                coverage_statement(blocks[bb as int].source_info, kind),
            ),
            ..blocks[bb as int]
        },
    )
}

/// Whether `slot` is the first of `successors` that leads to `to`.
pub open spec fn is_first_slot_to(successors: Seq<usize>, to: usize, slot: int) -> bool {
    &&& 0 <= slot < successors.len()
    &&& successors[slot] == to
    &&& forall|j: int| 0 <= j < slot ==> successors[j] != to
}

/// The first slot of `successors` that leads to `to`.
pub open spec fn first_slot_to(successors: Seq<usize>, to: usize) -> Option<int> {
    if exists|slot: int| is_first_slot_to(successors, to, slot) {
        Some(choose|slot: int| is_first_slot_to(successors, to, slot))
    } else {
        None
    }
}

/// A slot that leads to `to` is the first such slot, or comes after it.
pub(crate) proof fn lemma_first_slot_exists(successors: Seq<usize>, to: usize, at: int)
    requires
        0 <= at < successors.len(),
        successors[at] == to,
    ensures
        first_slot_to(successors, to) is Some,
    decreases at,
{
    if exists|j: int| 0 <= j < at && successors[j] == to {
        let j = choose|j: int| 0 <= j < at && successors[j] == to;
        lemma_first_slot_exists(successors, to, j);
    } else {
        assert(is_first_slot_to(successors, to, at));
    }
}

/// The block that is put on an edge: it holds no statement and jumps to
/// `to_bb`, at the place where the terminator of the edge's source ends.
pub open spec fn edge_block(source: BlockView, to_bb: usize) -> BlockView {
    BlockView {
        statements: Seq::empty(),
        source_info: SourceInfo { span: source.source_info.span.shrink_to_hi() },
        kind: TerminatorKindView::Goto { target: to_bb },
        is_cleanup: false,
    }
}

/// The blocks with a new block put on the edge from `from_bb` to `to_bb`:
/// the first slot of `from_bb` that led to `to_bb` leads to the new block,
/// which is the last of the blocks and jumps to `to_bb`.
pub open spec fn with_edge_block(blocks: Seq<BlockView>, from_bb: usize, to_bb: usize) -> Seq<
    BlockView,
> {
    let source = blocks[from_bb as int];
    let slot = first_slot_to(source.kind.successors(), to_bb)->0;
    blocks.update(
        from_bb as int,
        BlockView { kind: source.kind.redirect(slot, blocks.len() as usize), ..source },
    ).push(edge_block(source, to_bb))
}

/// What `redirect` does to the successors of a terminator.
pub(crate) proof fn lemma_redirect(kind: TerminatorKindView, slot: int, to: usize)
    requires
        0 <= slot < kind.successors().len(),
    ensures
        kind.redirect(slot, to).successors() == kind.successors().update(slot, to),
{
    assert(kind.redirect(slot, to).successors() =~= kind.successors().update(slot, to));
}

/// The first slot of `kind` that leads to `to_bb`.
pub fn first_successor_slot(kind: &TerminatorKind, to_bb: usize) -> (r: Option<usize>)
    ensures
        match r {
            Some(slot) => first_slot_to(kind@.successors(), to_bb) == Some(slot as int)
                && is_first_slot_to(kind@.successors(), to_bb, slot as int),
            None => first_slot_to(kind@.successors(), to_bb) is None,
        },
{
    let count = kind.num_successors();
    let mut slot: usize = 0;
    while slot < count
        invariant
            count == kind@.successors().len(),
            slot <= count,
            forall|j: int| 0 <= j < slot ==> kind@.successors()[j] != to_bb,
        decreases count - slot,
    {
        if kind.successor(slot) == to_bb {
            proof {
                assert(is_first_slot_to(kind@.successors(), to_bb, slot as int));
                let chosen = choose|s: int| is_first_slot_to(kind@.successors(), to_bb, s);
                assert(chosen == slot);
            }
            return Some(slot);
        }
        slot = slot + 1;
    }
    None
}

/// Puts a coverage statement before the statements of block `bb`. It takes
/// the source information of the block's terminator.
pub fn inject_statement(mir_body: &mut Body, counter_kind: CoverageKind, bb: usize)
    requires
        bb < old(mir_body).basic_blocks@.len(),
    ensures
        final(mir_body)@.blocks == with_statement(old(mir_body)@.blocks, counter_kind, bb),
        final(mir_body)@.function_coverage_info == old(mir_body)@.function_coverage_info,
        preserves_control_flow(old(mir_body)@.blocks, final(mir_body)@.blocks),
{
    let source_info = mir_body.basic_blocks[bb].terminator.source_info;
    let statement = Statement { source_info, kind: StatementKind::Coverage(counter_kind) };
    mir_body.basic_blocks[bb].statements.insert(0, statement);
    proof {
        lemma_statement_preserves(
            old(mir_body)@.blocks,
            old(mir_body)@.blocks,
            counter_kind,
            bb,
        );
        let after = with_statement(old(mir_body)@.blocks, counter_kind, bb);
        assert forall|b: int| 0 <= b < after.len() implies #[trigger] mir_body@.blocks[b]
            == after[b] by {}
        assert(mir_body@.blocks =~= after);
    }
}

/// Puts a new block on the edge from `from_bb` to `to_bb` and returns it.
///
/// The new block jumps to `to_bb`, and the first successor slot of `from_bb`
/// that led to `to_bb` leads to the new block. No other edge changes.
pub fn inject_edge_counter_basic_block(mir_body: &mut Body, from_bb: usize, to_bb: usize) -> (new_bb:
    usize)
    requires
        from_bb < old(mir_body).basic_blocks@.len(),
        old(mir_body)@.blocks[from_bb as int].kind.successors().contains(to_bb),
    ensures
        new_bb == old(mir_body).basic_blocks@.len(),
        final(mir_body)@.blocks == with_edge_block(old(mir_body)@.blocks, from_bb, to_bb),
        final(mir_body)@.function_coverage_info == old(mir_body)@.function_coverage_info,
        to_bb < old(mir_body).basic_blocks@.len() ==> preserves_control_flow(
            old(mir_body)@.blocks,
            final(mir_body)@.blocks,
        ),
{
    let ghost before = mir_body@.blocks;
    let ghost source = before[from_bb as int];
    let span = mir_body.basic_blocks[from_bb].terminator.source_info.span.shrink_to_hi();
    let new_bb = mir_body.basic_blocks.len();
    let slot = match first_successor_slot(&mir_body.basic_blocks[from_bb].terminator.kind, to_bb) {
        Some(slot) => slot,
        None => {
            proof {
                let succs = source.kind.successors();
                let at = choose|at: int| 0 <= at < succs.len() && succs[at] == to_bb;
                lemma_first_slot_exists(succs, to_bb, at);
            }
            0
        },
    };
    mir_body.basic_blocks.push(
        BasicBlockData {
            statements: Vec::new(),
            terminator: Terminator {
                source_info: SourceInfo { span },
                kind: TerminatorKind::Goto { target: to_bb },
            },
            is_cleanup: false,
        },
    );
    match &mut mir_body.basic_blocks[from_bb].terminator.kind {
        TerminatorKind::Goto { target } => {
            *target = new_bb;
        },
        TerminatorKind::SwitchInt { targets } => {
            targets[slot] = new_bb;
        },
        TerminatorKind::Call { target } => {
            *target = Some(new_bb);
        },
        TerminatorKind::Return => {},
        TerminatorKind::Unreachable => {},
    }
    proof {
        let after = with_edge_block(before, from_bb, to_bb);
        assert forall|b: int| 0 <= b < after.len() implies #[trigger] mir_body@.blocks[b]
            == after[b] by {}
        assert(mir_body@.blocks =~= after);
        if to_bb < before.len() {
            let succs = source.kind.successors();
            let at = choose|at: int| 0 <= at < succs.len() && succs[at] == to_bb;
            lemma_first_slot_exists(succs, to_bb, at);
            lemma_edge_block_preserves(before, before, from_bb, to_bb);
        }
    }
    new_bb
}

/// A coverage statement changes no edge.
pub(crate) proof fn lemma_with_statement_cfg(blocks: Seq<BlockView>, kind: CoverageKind, bb: usize)
    requires
        bb < blocks.len(),
    ensures
        cfg_of(with_statement(blocks, kind, bb)) == cfg_of(blocks),
        with_statement(blocks, kind, bb).len() == blocks.len(),
{
    assert(cfg_of(with_statement(blocks, kind, bb)) =~= cfg_of(blocks));
}

/// A block on an edge leaves the graph well formed.
pub(crate) proof fn lemma_with_edge_block_cfg(blocks: Seq<BlockView>, from_bb: usize, to_bb: usize)
    requires
        cfg_well_formed(cfg_of(blocks)),
        from_bb < blocks.len(),
        blocks.len() <= usize::MAX,
        first_slot_to(blocks[from_bb as int].kind.successors(), to_bb) is Some,
    ensures
        cfg_well_formed(cfg_of(with_edge_block(blocks, from_bb, to_bb))),
        with_edge_block(blocks, from_bb, to_bb).len() == blocks.len() + 1,
{
    let after = with_edge_block(blocks, from_bb, to_bb);
    let cfg = cfg_of(blocks);
    let succs = blocks[from_bb as int].kind.successors();
    let slot = first_slot_to(succs, to_bb)->0;
    assert(is_first_slot_to(succs, to_bb, slot));
    assert(cfg[from_bb as int][slot] == to_bb);
    assert forall|a: int, s: int|
        0 <= a < cfg_of(after).len() && 0 <= s < cfg_of(after)[a].len() implies #[trigger] cfg_of(
        after,
    )[a][s] < cfg_of(after).len() by {
        if a == blocks.len() {
        } else if a == from_bb {
            if s != slot {
                assert(cfg[a][s] < cfg.len());
            }
        } else {
            assert(cfg_of(after)[a] == cfg[a]);
            assert(cfg[a][s] < cfg.len());
        }
    }
}

/// Whether `statements` is `original` with nothing but coverage statements
/// put before it.
pub open spec fn adds_markers_only(original: Seq<Statement>, statements: Seq<Statement>) -> bool {
    let added = statements.len() - original.len();
    &&& added >= 0
    &&& forall|i: int| 0 <= i < added ==> (#[trigger] statements[i]).kind is Coverage
    &&& forall|i: int| 0 <= i < original.len() ==> #[trigger] original[i] == statements[added + i]
}

/// Whether a successor slot that led to block `was` among the first `n`
/// blocks still leads there: it leads to `was` itself, or to a later block
/// that does nothing but jump to `was`.
pub open spec fn leads_to(blocks: Seq<BlockView>, n: int, now: usize, was: usize) -> bool {
    now == was || (n <= now < blocks.len() && blocks[now as int].kind == (
    TerminatorKindView::Goto { target: was }))
}

/// Whether two terminators are of the same kind, with as many successors.
pub open spec fn same_shape(before: TerminatorKindView, after: TerminatorKindView) -> bool {
    &&& before.successors().len() == after.successors().len()
    &&& before is Goto <==> after is Goto
    &&& before is SwitchInt <==> after is SwitchInt
    &&& before is Call <==> after is Call
    &&& before is Return <==> after is Return
    &&& before is Unreachable <==> after is Unreachable
}

/// Whether control passes through the blocks `after` as it passes through
/// the blocks `before`.
///
/// The blocks of `before` are all there, with their statements in their
/// order behind the coverage statements that were added, and with
/// terminators of the same kind. Every successor slot leads where it led, if
/// need be through a block that was added. The blocks that were added hold
/// coverage statements only and jump to a block of `before`.
pub open spec fn preserves_control_flow(before: Seq<BlockView>, after: Seq<BlockView>) -> bool {
    &&& after.len() >= before.len()
    &&& forall|b: int|
        0 <= b < before.len() ==> {
            &&& adds_markers_only(before[b].statements, (#[trigger] after[b]).statements)
            &&& after[b].source_info == before[b].source_info
            &&& after[b].is_cleanup == before[b].is_cleanup
            &&& same_shape(before[b].kind, after[b].kind)
        }
    &&& forall|b: int, s: int|
        0 <= b < before.len() && 0 <= s < before[b].kind.successors().len() ==> leads_to(
            after,
            before.len() as int,
            #[trigger] after[b].kind.successors()[s],
            before[b].kind.successors()[s],
        )
    &&& forall|b: int|
        before.len() <= b < after.len() ==> {
            &&& adds_markers_only(seq![], (#[trigger] after[b]).statements)
            &&& after[b].kind is Goto
            &&& after[b].kind.successors()[0] < before.len()
        }
}

/// A coverage statement leaves the control flow as it is.
pub(crate) proof fn lemma_statement_preserves(
    start: Seq<BlockView>,
    blocks: Seq<BlockView>,
    kind: CoverageKind,
    bb: usize,
)
    requires
        preserves_control_flow(start, blocks),
        bb < blocks.len(),
    ensures
        preserves_control_flow(start, with_statement(blocks, kind, bb)),
{
    let after = with_statement(blocks, kind, bb);
    let prior = blocks[bb as int].statements;
    let fresh = after[bb as int].statements;
    assert forall|i: int| 0 <= i < prior.len() implies #[trigger] fresh[i + 1] == prior[i] by {}
    assert forall|b: int| 0 <= b < start.len() implies adds_markers_only(
        start[b].statements,
        (#[trigger] after[b]).statements,
    ) by {
        assert(adds_markers_only(start[b].statements, blocks[b].statements));
        if b == bb {
            let added = prior.len() - start[b].statements.len();
            assert forall|i: int| 0 <= i < added + 1 implies (#[trigger] fresh[i]).kind is Coverage by {
                if i > 0 {
                    assert(fresh[i] == prior[i - 1]);
                }
            }
            assert forall|i: int| 0 <= i < start[b].statements.len() implies #[trigger] start[b].statements[i]
                == fresh[added + 1 + i] by {
                assert(fresh[added + i + 1] == prior[added + i]);
            }
        }
    }
    assert forall|b: int, s: int|
        0 <= b < start.len() && 0 <= s < start[b].kind.successors().len() implies leads_to(
        after,
        start.len() as int,
        #[trigger] after[b].kind.successors()[s],
        start[b].kind.successors()[s],
    ) by {
        assert(after[b].kind == blocks[b].kind);
        let now = blocks[b].kind.successors()[s];
        assert(leads_to(blocks, start.len() as int, now, start[b].kind.successors()[s]));
        if now != start[b].kind.successors()[s] {
            assert(after[now as int].kind == blocks[now as int].kind);
        }
    }
    assert forall|b: int| start.len() <= b < after.len() implies adds_markers_only(
        seq![],
        (#[trigger] after[b]).statements,
    ) by {
        assert(adds_markers_only(seq![], blocks[b].statements));
        if b == bb {
            assert forall|i: int| 0 <= i < fresh.len() implies (#[trigger] fresh[i]).kind is Coverage by {
                if i > 0 {
                    assert(fresh[i] == prior[i - 1]);
                }
            }
        }
    }
}

/// A block put on an edge leaves the control flow as it is.
pub(crate) proof fn lemma_edge_block_preserves(
    start: Seq<BlockView>,
    blocks: Seq<BlockView>,
    from_bb: usize,
    to_bb: usize,
)
    requires
        preserves_control_flow(start, blocks),
        from_bb < start.len(),
        to_bb < start.len(),
        blocks.len() <= usize::MAX,
        first_slot_to(blocks[from_bb as int].kind.successors(), to_bb) is Some,
    ensures
        preserves_control_flow(start, with_edge_block(blocks, from_bb, to_bb)),
{
    let after = with_edge_block(blocks, from_bb, to_bb);
    let succs = blocks[from_bb as int].kind.successors();
    let slot = first_slot_to(succs, to_bb)->0;
    let new_bb = blocks.len() as usize;
    assert(is_first_slot_to(succs, to_bb, slot));
    lemma_redirect(blocks[from_bb as int].kind, slot, new_bb);
    assert(leads_to(blocks, start.len() as int, succs[slot], start[from_bb as int].kind.successors()[slot]));
    assert forall|b: int| 0 <= b < start.len() implies {
        &&& adds_markers_only(start[b].statements, (#[trigger] after[b]).statements)
        &&& after[b].source_info == start[b].source_info
        &&& after[b].is_cleanup == start[b].is_cleanup
        &&& same_shape(start[b].kind, after[b].kind)
    } by {
        assert(adds_markers_only(start[b].statements, blocks[b].statements));
        assert(same_shape(start[b].kind, blocks[b].kind));
    }
    assert forall|b: int, s: int|
        0 <= b < start.len() && 0 <= s < start[b].kind.successors().len() implies leads_to(
        after,
        start.len() as int,
        #[trigger] after[b].kind.successors()[s],
        start[b].kind.successors()[s],
    ) by {
        let was = start[b].kind.successors()[s];
        let now = blocks[b].kind.successors()[s];
        assert(same_shape(start[b].kind, blocks[b].kind));
        assert(leads_to(blocks, start.len() as int, now, was));
        if b == from_bb && s == slot {
            assert(after[new_bb as int].kind == (TerminatorKindView::Goto { target: to_bb }));
        } else {
            assert(after[b].kind.successors()[s] == now);
            if now != was {
                assert(after[now as int].kind == blocks[now as int].kind);
            }
        }
    }
    assert forall|b: int| start.len() <= b < after.len() implies {
        &&& adds_markers_only(seq![], (#[trigger] after[b]).statements)
        &&& after[b].kind is Goto
        &&& after[b].kind.successors()[0] < start.len()
    } by {
        if b < blocks.len() {
            assert(adds_markers_only(seq![], blocks[b].statements));
            assert(after[b] == blocks[b]);
        }
    }
}

} // verus!
