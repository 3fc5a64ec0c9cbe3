//! The instrumentation pass: decides where counters go, writes them into the
//! body, and leaves the coverage information of the function with it.

use crate::counters::{
    counters_upto, term_defined, BcbCounter, CounterSite, CountersView, CoverageCounters, Edges,
};
use crate::graph::{
    condensation, is_maximal_chain, is_path, lemma_chain_distinct, lemma_successor_bcbs, reachable,
    successor_bcbs, CoverageGraph, GraphView,
};
use crate::hir::{
    extract_hir_info, extracted_info, is_eligible_for_coverage, ExtractedHirInfo, FnItem, ItemInfo,
};
use crate::inject::{
    first_slot_to, inject_edge_counter_basic_block, inject_statement, is_first_slot_to,
    lemma_edge_block_preserves, lemma_first_slot_exists, lemma_redirect,
    lemma_statement_preserves, lemma_with_edge_block_cfg, lemma_with_statement_cfg,
    preserves_control_flow, with_edge_block, with_statement,
};
use crate::mir::{
    cfg_of, cfg_well_formed, BlockView, Body, BodyView, CoverageKind, FunctionCoverageInfo,
    FunctionCoverageInfoView, Mapping, MappingKind, TerminatorKind,
};
use crate::region::{code_region_of, make_code_region};
use crate::source_map::{file_index_at, SourceMap};
use crate::span::Span;
use crate::spans::{refined_mappings, BcbMapping, CoverageSpans};
use vstd::prelude::*;

verus! {

/// Why a function was left without coverage information.
#[derive(Clone, Copy, Debug, PartialEq, Eq, Structural)]
pub enum SkipReason {
    /// The item is not instrumented, or its start block is never executed.
    NotEligible,
    /// No span of the function is reported.
    NoSpans,
    /// No reported span could be turned into a region.
    NoMappings,
}

/// The pass that instruments one function at a time.
#[derive(Clone, Copy, Debug, PartialEq, Eq, Structural)]
pub struct InstrumentCoverage {
    /// How many derivations of one count from others may be chained before
    /// a count is measured by a counter of its own.
    pub max_derivation_depth: usize,
}

/// The state of the instrumentation of one function.
#[derive(Clone, Debug, PartialEq, Eq)]
pub struct Instrumentor {
    pub hir_info: ExtractedHirInfo,
    pub basic_coverage_blocks: CoverageGraph,
}

/// The mappings of the first `upto` of `spans`: for each span whose node has
/// a term and which has a region, that region with that term.
pub open spec fn region_mappings(
    source_map: SourceMap,
    file_name: String,
    body_span: Span,
    spans: Seq<BcbMapping>,
    node_terms: Seq<Option<BcbCounter>>,
    upto: nat,
) -> Seq<Mapping>
    decreases upto,
{
    if upto == 0 {
        seq![]
    } else {
        let before = region_mappings(
            source_map,
            file_name,
            body_span,
            spans,
            node_terms,
            (upto - 1) as nat,
        );
        let bcb = spans[upto - 1].bcb();
        let region = code_region_of(source_map, file_name, spans[upto - 1].span, body_span);
        if bcb < node_terms.len() && node_terms[bcb as int] is Some && region is Some {
            before.push(
                Mapping {
                    kind: MappingKind::Code(node_terms[bcb as int]->0.as_term()),
                    code_region: region->0,
                },
            )
        } else {
            before
        }
    }
}

/// The mappings of a function: those of its reported spans, under the name
/// of the file that holds the start of its body.
pub open spec fn created_mappings(
    source_map: SourceMap,
    body_span: Span,
    spans: Seq<BcbMapping>,
    node_terms: Seq<Option<BcbCounter>>,
) -> Seq<Mapping> {
    match file_index_at(source_map.files@, body_span.lo as int) {
        Some(i) => region_mappings(
            source_map,
            source_map.files@[i].name,
            body_span,
            spans,
            node_terms,
            spans.len(),
        ),
        None => seq![],
    }
}

/// Whether a mapping of kind `kind` is counted by the term of a node.
pub open spec fn is_term_of_node(kind: MappingKind, node_terms: Seq<Option<BcbCounter>>) -> bool {
    exists|bcb: int|
        0 <= bcb < node_terms.len() && #[trigger] node_terms[bcb] is Some && kind
            == MappingKind::Code(node_terms[bcb]->0.as_term())
}

/// For each node, whether one of `mappings` names it.
pub open spec fn node_flags(mappings: Seq<BcbMapping>, nodes: nat) -> Seq<bool> {
    Seq::new(
        nodes,
        |bcb: int| exists|i: int| 0 <= i < mappings.len() && (#[trigger] mappings[i]).bcb() == bcb,
    )
}

impl FunctionCoverageInfoView {
    /// The information is complete in itself: every expression has its place
    /// in the list as its id and is over counters that exist and expressions
    /// that come before it, every mapping is counted by a term that exists,
    /// and every region is well formed.
    pub open spec fn well_formed(self) -> bool {
        &&& forall|i: int|
            0 <= i < self.expressions.len() ==> (#[trigger] self.expressions[i]).id == i
                && term_defined(self.expressions[i].lhs, self.num_counters as nat, i as nat)
                && term_defined(self.expressions[i].rhs, self.num_counters as nat, i as nat)
        &&& forall|i: int|
            0 <= i < self.mappings.len() ==> (#[trigger] self.mappings[i]).code_region.well_formed()
                && (self.mappings[i].kind matches MappingKind::Code(term) && term_defined(
                term,
                self.num_counters as nat,
                self.expressions.len(),
            ))
    }
}

/// The body of a function after its instrumentation, and how that ended.
///
/// The function is skipped, and its body left as it is, where none of its
/// spans is reported or none of them has a region. Otherwise its blocks get
/// the markers of its counters, and the body gets the coverage information.
pub open spec fn instrumented(
    body: BodyView,
    source_map: SourceMap,
    info: ExtractedHirInfo,
    max_depth: nat,
) -> (BodyView, Result<(), SkipReason>) {
    let graph = condensation(cfg_of(body.blocks));
    let spans = refined_mappings(body.blocks, graph.chains, info);
    if spans.len() == 0 {
        (body, Err(SkipReason::NoSpans))
    } else {
        let has_spans = node_flags(spans, graph.chains.len());
        let counters = counters_upto(
            Edges { successors: graph.successors, predecessors: graph.predecessors },
            has_spans,
            graph.chains.len(),
            max_depth,
        );
        let mappings = created_mappings(source_map, info.body_span, spans, counters.node_terms);
        if mappings.len() == 0 {
            (body, Err(SkipReason::NoMappings))
        } else {
            (
                BodyView {
                    blocks: injected_blocks(body.blocks, graph, has_spans, counters),
                    function_coverage_info: Some(
                        FunctionCoverageInfoView {
                            function_source_hash: info.function_source_hash,
                            num_counters: counters.sites.len() as usize,
                            expressions: counters.expressions,
                            mappings,
                        },
                    ),
                },
                Ok(()),
            )
        }
    }
}

/// The body of a function after the pass, and how the pass ended.
///
/// An item that is not eligible, or whose start block is never executed, is
/// left as it is. Any other is instrumented.
pub open spec fn pass_result(
    body: BodyView,
    item: ItemInfo,
    fn_item: FnItem,
    source_map: SourceMap,
    max_depth: nat,
) -> (BodyView, Result<(), SkipReason>) {
    if !(item.def_kind.is_fn_like() && !item.automatically_derived && !item.no_coverage)
        || body.blocks[0].kind is Unreachable {
        (body, Err(SkipReason::NotEligible))
    } else {
        instrumented(body, source_map, extracted_info(source_map, fn_item), max_depth)
    }
}

/// The pass is a function of what it is given: on the same body, item,
/// source and depth, two runs leave the same body, with the same counter
/// ids, expressions and mappings, and end the same way.
pub proof fn lemma_pass_is_deterministic(
    body: BodyView,
    item: ItemInfo,
    fn_item: FnItem,
    source_map: SourceMap,
    max_depth: nat,
    first: (BodyView, Result<(), SkipReason>),
    second: (BodyView, Result<(), SkipReason>),
)
    requires
        first == pass_result(body, item, fn_item, source_map, max_depth),
        second == pass_result(body, item, fn_item, source_map, max_depth),
    ensures
        first == second,
{
}

/// The marker that a node with the term `term` gets: a counter is always
/// incremented, an expression is marked only where a span is reported for
/// the node.
pub open spec fn node_marker(term: BcbCounter, has_span: bool) -> Option<CoverageKind> {
    match term {
        BcbCounter::Counter { id } => Some(CoverageKind::CounterIncrement { id }),
        BcbCounter::Expression { id } => if has_span {
            Some(CoverageKind::ExpressionUsed { id })
        } else {
            None
        },
    }
}

/// The blocks after the first `upto` nodes have got their markers, each in
/// the first block of the node.
pub open spec fn with_node_markers(
    blocks: Seq<BlockView>,
    chains: Seq<Seq<usize>>,
    node_terms: Seq<Option<BcbCounter>>,
    has_spans: Seq<bool>,
    upto: nat,
) -> Seq<BlockView>
    decreases upto,
{
    if upto == 0 {
        blocks
    } else {
        let before = with_node_markers(blocks, chains, node_terms, has_spans, (upto - 1) as nat);
        match node_terms[upto - 1] {
            Some(term) => match node_marker(term, has_spans[upto - 1]) {
                Some(kind) => with_statement(before, kind, chains[upto - 1][0]),
                None => before,
            },
            None => before,
        }
    }
}

/// The blocks after the first `upto` physical counters that count edges have
/// been placed, each in a new block on its edge.
pub open spec fn with_edge_counters(
    blocks: Seq<BlockView>,
    graph: GraphView,
    sites: Seq<CounterSite>,
    upto: nat,
) -> Seq<BlockView>
    decreases upto,
{
    if upto == 0 {
        blocks
    } else {
        let before = with_edge_counters(blocks, graph, sites, (upto - 1) as nat);
        match sites[upto - 1] {
            CounterSite::Edge { from_bcb, successor } => {
                let from_bb = graph.chains[from_bcb as int].last();
                let to_bb = graph.chains[graph.successors[from_bcb as int][successor as int] as int][0];
                with_statement(
                    with_edge_block(before, from_bb, to_bb),
                    CoverageKind::CounterIncrement { id: (upto - 1) as usize },
                    before.len() as usize,
                )
            },
            CounterSite::Node { .. } => before,
        }
    }
}

/// Whether none of the first `upto` physical counters counts the edge from
/// node `k` to its successor at position `i`.
pub open spec fn is_plain_edge(sites: Seq<CounterSite>, upto: nat, k: int, i: int) -> bool {
    forall|c: int|
        0 <= c < upto ==> #[trigger] sites[c] != (CounterSite::Edge {
            from_bcb: k as usize,
            successor: i as usize,
        })
}

/// Every edge of the coverage graph that none of the first `upto` physical
/// counters counts is an edge of the blocks as it was: the last block of its
/// source leads to the first block of its target.
pub open spec fn keeps_plain_edges(
    blocks: Seq<BlockView>,
    graph: GraphView,
    sites: Seq<CounterSite>,
    upto: nat,
) -> bool {
    forall|k: int, i: int|
        #![trigger graph.successors[k][i]]
        0 <= k < graph.chains.len() && 0 <= i < graph.successors[k].len() && is_plain_edge(
            sites,
            upto,
            k,
            i,
        ) ==> blocks[graph.chains[k].last() as int].kind.successors().contains(
            graph.chains[graph.successors[k][i] as int][0],
        )
}

/// The blocks of an instrumented function.
pub open spec fn injected_blocks(
    blocks: Seq<BlockView>,
    graph: GraphView,
    has_spans: Seq<bool>,
    counters: CountersView,
) -> Seq<BlockView> {
    with_edge_counters(
        with_node_markers(
            blocks,
            graph.chains,
            counters.node_terms,
            has_spans,
            graph.chains.len(),
        ),
        graph,
        counters.sites,
        counters.sites.len(),
    )
}

/// Along every edge of the coverage graph, the last block of the source
/// leads to the first block of the target.
proof fn lemma_plain_edges_at_start(
    graph: &CoverageGraph,
    blocks: Seq<BlockView>,
    sites: Seq<CounterSite>,
)
    requires
        cfg_well_formed(cfg_of(blocks)),
        graph.condenses(cfg_of(blocks)),
        graph.bcbs@.len() <= usize::MAX,
    ensures
        keeps_plain_edges(blocks, graph@, sites, 0),
{
    let cfg = cfg_of(blocks);
    let view = graph@;
    assert forall|k: int, i: int|
        #![trigger view.successors[k][i]]
        0 <= k < view.chains.len() && 0 <= i < view.successors[k].len() implies blocks[view.chains[k].last() as int].kind.successors().contains(
        view.chains[view.successors[k][i] as int][0],
    ) by {
        let chain = view.chains[k];
        assert(is_maximal_chain(cfg, chain));
        let last = chain.last();
        assert(chain[chain.len() - 1] < cfg.len());
        assert(view.bb_to_bcb[chain[chain.len() - 1] as int] == Some(k as usize));
        let targets = cfg[last as int];
        let to_bcb = view.successors[k][i];
        lemma_successor_bcbs(targets, view.bb_to_bcb);
        assert(successor_bcbs(targets, view.bb_to_bcb).contains(to_bcb));
        let slot = choose|slot: int|
            0 <= slot < targets.len() && #[trigger] view.bb_to_bcb[targets[slot] as int] == Some(
                to_bcb,
            );
        graph.lemma_condensation_is_quotient(cfg, last, slot);
        let b = targets[slot];
        if graph.edge_is_internal(last, b) {
            let own = graph.chains()[graph.bb_to_bcb@[last as int]->0 as int];
            assert(own == chain);
            let x = choose|x: int|
                0 <= x < own.len() - 1 && #[trigger] own[x] == last && own[x + 1] == b;
            lemma_chain_distinct(cfg, chain, x, chain.len() - 1);
        }
        assert(graph.edge_crosses(last, b));
        assert(blocks[last as int].kind.successors() == targets);
        assert(targets[slot] == view.chains[to_bcb as int][0]);
    }
}

/// A block on the edge of one counter leaves the edges that no counter
/// counts as they were.
proof fn lemma_edge_block_keeps_plain_edges(
    graph: &CoverageGraph,
    cfg: Seq<Seq<usize>>,
    blocks: Seq<BlockView>,
    sites: Seq<CounterSite>,
    id: nat,
    from_bcb: usize,
    successor: usize,
)
    requires
        cfg_well_formed(cfg),
        graph.condenses(cfg),
        graph.well_formed(),
        graph.bcbs@.len() <= usize::MAX,
        blocks.len() >= cfg.len(),
        blocks.len() <= usize::MAX,
        id < sites.len(),
        id <= usize::MAX,
        sites[id as int] == (CounterSite::Edge { from_bcb, successor }),
        from_bcb < graph@.chains.len(),
        successor < graph@.successors[from_bcb as int].len(),
        is_plain_edge(sites, id, from_bcb as int, successor as int),
        keeps_plain_edges(blocks, graph@, sites, id),
    ensures
        keeps_plain_edges(
            with_statement(
                with_edge_block(
                    blocks,
                    graph@.chains[from_bcb as int].last(),
                    graph@.chains[graph@.successors[from_bcb as int][successor as int] as int][0],
                ),
                CoverageKind::CounterIncrement { id: id as usize },
                blocks.len() as usize,
            ),
            graph@,
            sites,
            id + 1,
        ),
{
    let view = graph@;
    let from_bb = view.chains[from_bcb as int].last();
    let to_bcb = view.successors[from_bcb as int][successor as int];
    let to_bb = view.chains[to_bcb as int][0];
    let after = with_statement(
        with_edge_block(blocks, from_bb, to_bb),
        CoverageKind::CounterIncrement { id: id as usize },
        blocks.len() as usize,
    );
    let succs = blocks[from_bb as int].kind.successors();
    assert(succs.contains(to_bb));
    let at = choose|at: int| 0 <= at < succs.len() && succs[at] == to_bb;
    lemma_first_slot_exists(succs, to_bb, at);
    let slot = first_slot_to(succs, to_bb)->0;
    assert(is_first_slot_to(succs, to_bb, slot));
    lemma_redirect(blocks[from_bb as int].kind, slot, blocks.len() as usize);
    assert(view.successors[from_bcb as int] == graph.successors@[from_bcb as int]@);
    assert(to_bcb < view.chains.len());
    assert(is_maximal_chain(cfg, view.chains[from_bcb as int]));
    assert(is_maximal_chain(cfg, view.chains[to_bcb as int]));
    assert(view.chains[from_bcb as int][view.chains[from_bcb as int].len() - 1] < cfg.len());
    assert(view.bb_to_bcb[view.chains[from_bcb as int][view.chains[from_bcb as int].len()
        - 1] as int] == Some(from_bcb));
    assert(view.bb_to_bcb[view.chains[to_bcb as int][0] as int] == Some(to_bcb));
    assert forall|k: int, i: int|
        #![trigger view.successors[k][i]]
        0 <= k < view.chains.len() && 0 <= i < view.successors[k].len() && is_plain_edge(
            sites,
            id + 1,
            k,
            i,
        ) implies after[view.chains[k].last() as int].kind.successors().contains(
        view.chains[view.successors[k][i] as int][0],
    ) by {
        assert(sites[id as int] != (CounterSite::Edge {
            from_bcb: k as usize,
            successor: i as usize,
        }));
        assert(is_plain_edge(sites, id, k, i));
        let chain = view.chains[k];
        assert(is_maximal_chain(cfg, chain));
        let last = chain.last();
        assert(chain[chain.len() - 1] < cfg.len());
        assert(view.bb_to_bcb[chain[chain.len() - 1] as int] == Some(k as usize));
        assert(view.successors[k] == graph.successors@[k]@);
        let other_bcb = view.successors[k][i];
        let other_bb = view.chains[other_bcb as int][0];
        assert(is_maximal_chain(cfg, view.chains[other_bcb as int]));
        assert(view.bb_to_bcb[view.chains[other_bcb as int][0] as int] == Some(other_bcb));
        let prior = blocks[last as int].kind.successors();
        assert(prior.contains(other_bb));
        if last == from_bb {
            assert(k == from_bcb);
            assert(i != successor);
            assert(other_bcb != to_bcb);
            let q = choose|q: int| 0 <= q < prior.len() && prior[q] == other_bb;
            assert(prior.update(slot, blocks.len() as usize)[q] == other_bb);
        } else {
            assert(after[last as int].kind == blocks[last as int].kind);
        }
    }
}

/// A counter that counts a node leaves the edges that no counter counts as
/// they were.
proof fn lemma_node_site_keeps_plain_edges(
    blocks: Seq<BlockView>,
    graph: GraphView,
    sites: Seq<CounterSite>,
    id: nat,
)
    requires
        id < sites.len(),
        sites[id as int] is Node,
        keeps_plain_edges(blocks, graph, sites, id),
    ensures
        keeps_plain_edges(blocks, graph, sites, id + 1),
{
    assert forall|k: int, i: int|
        #![trigger graph.successors[k][i]]
        0 <= k < graph.chains.len() && 0 <= i < graph.successors[k].len() && is_plain_edge(
            sites,
            id + 1,
            k,
            i,
        ) implies blocks[graph.chains[k].last() as int].kind.successors().contains(
        graph.chains[graph.successors[k][i] as int][0],
    ) by {
        assert(is_plain_edge(sites, id, k, i));
    }
}

impl Instrumentor {
    /// Starts the instrumentation of `fn_item`, whose body is `mir_body`.
    pub fn new(source_map: &SourceMap, fn_item: &FnItem, mir_body: &Body) -> (this: Instrumentor)
        requires
            mir_body.well_formed(),
        ensures
            this.hir_info == extracted_info(*source_map, *fn_item),
            this.basic_coverage_blocks@ == condensation(mir_body.cfg()),
            this.basic_coverage_blocks.condenses(mir_body.cfg()),
            this.basic_coverage_blocks.well_formed(),
    {
        let hir_info = extract_hir_info(source_map, fn_item);
        let basic_coverage_blocks = CoverageGraph::from_mir(mir_body);
        Instrumentor { hir_info, basic_coverage_blocks }
    }

    /// The marker for a node or edge with the term `counter_kind`.
    #[verifier::allow_in_spec]
    pub fn make_mir_coverage_kind(&self, counter_kind: &BcbCounter) -> CoverageKind
        returns
            (match *counter_kind {
                BcbCounter::Counter { id } => CoverageKind::CounterIncrement { id },
                BcbCounter::Expression { id } => CoverageKind::ExpressionUsed { id },
            }),
    {
        match *counter_kind {
            BcbCounter::Counter { id } => CoverageKind::CounterIncrement { id },
            BcbCounter::Expression { id } => CoverageKind::ExpressionUsed { id },
        }
    }

    /// Turns every reported span into a mapping: its region, with the term
    /// of its node. A span without a region is left out.
    pub fn create_mappings(
        &self,
        source_map: &SourceMap,
        coverage_spans: &CoverageSpans,
        coverage_counters: &CoverageCounters,
    ) -> (mappings: Vec<Mapping>)
        ensures
            mappings@ == created_mappings(
                *source_map,
                self.hir_info.body_span,
                coverage_spans.mappings@,
                coverage_counters@.node_terms,
            ),
            forall|i: int|
                0 <= i < mappings@.len() ==> (#[trigger] mappings@[i]).code_region.well_formed()
                    && is_term_of_node(mappings@[i].kind, coverage_counters@.node_terms),
    {
        let body_span = self.hir_info.body_span;
        let mut mappings: Vec<Mapping> = Vec::new();
        let file_idx = match source_map.lookup_source_file_idx(body_span.lo) {
            Some(i) => i,
            None => {
                return mappings;
            },
        };
        let file_name = &source_map.files[file_idx].name;
        let spans = coverage_spans.all_bcb_mappings();
        let mut i: usize = 0;
        while i < spans.len()
            invariant
                i <= spans@.len(),
                spans@ == coverage_spans.mappings@,
                *file_name == source_map.files@[file_idx as int].name,
                mappings@ == region_mappings(
                    *source_map,
                    *file_name,
                    body_span,
                    spans@,
                    coverage_counters@.node_terms,
                    i as nat,
                ),
                forall|j: int|
                    0 <= j < mappings@.len() ==> (#[trigger] mappings@[j]).code_region.well_formed()
                        && is_term_of_node(mappings@[j].kind, coverage_counters@.node_terms),
            decreases spans@.len() - i,
        {
            let mapping = spans[i];
            let bcb = mapping.bcb();
            if bcb < coverage_counters.bcb_counters.len() {
                match coverage_counters.bcb_counter(bcb) {
                    Some(term) => {
                        match make_code_region(source_map, file_name.clone(), mapping.span, body_span) {
                            Some(code_region) => {
                                mappings.push(
                                    Mapping { kind: MappingKind::Code(term.as_term()), code_region },
                                );
                            },
                            None => {},
                        }
                    },
                    None => {},
                }
            }
            i = i + 1;
        }
        mappings
    }

    /// Writes the markers of all nodes and edges into `mir_body`.
    ///
    /// Every node with a physical counter gets the increment of that counter
    /// in its first block, and every node with a reported span that is
    /// counted by an expression gets the marker of that expression. Every
    /// edge with a physical counter gets a new block that holds the
    /// increment.
    pub fn inject_coverage_statements(
        &self,
        mir_body: &mut Body,
        coverage_spans: &CoverageSpans,
        coverage_counters: &CoverageCounters,
    )
        requires
            old(mir_body).well_formed(),
            self.basic_coverage_blocks.condenses(old(mir_body).cfg()),
            self.basic_coverage_blocks.well_formed(),
            coverage_counters@.well_formed(self.basic_coverage_blocks.successor_lists()),
            coverage_spans.bcb_has_mappings@.len() == self.basic_coverage_blocks.bcbs@.len(),
        ensures
            final(mir_body)@.blocks == injected_blocks(
                old(mir_body)@.blocks,
                self.basic_coverage_blocks@,
                coverage_spans.bcb_has_mappings@,
                coverage_counters@,
            ),
            final(mir_body)@.function_coverage_info == old(mir_body)@.function_coverage_info,
            final(mir_body).well_formed(),
            preserves_control_flow(old(mir_body)@.blocks, final(mir_body)@.blocks),
    {
        let graph = &self.basic_coverage_blocks;
        let ghost start = mir_body@.blocks;
        let ghost info = mir_body@.function_coverage_info;
        let ghost cfg = cfg_of(start);
        let ghost chains = graph@.chains;
        let m = graph.num_nodes();
        let n = mir_body.basic_blocks.len();
        let mut bcb: usize = 0;
        while bcb < m
            invariant
                m == graph.bcbs@.len(),
                bcb <= m,
                n == start.len(),
                chains == graph@.chains,
                cfg == cfg_of(start),
                cfg_well_formed(cfg),
                graph.condenses(cfg),
                graph.well_formed(),
                coverage_counters@.well_formed(graph.successor_lists()),
                coverage_spans.bcb_has_mappings@.len() == m,
                mir_body@.function_coverage_info == info,
                cfg_of(mir_body@.blocks) == cfg,
                mir_body@.blocks.len() == n,
                preserves_control_flow(start, mir_body@.blocks),
                mir_body@.blocks == with_node_markers(
                    start,
                    chains,
                    coverage_counters@.node_terms,
                    coverage_spans.bcb_has_mappings@,
                    bcb as nat,
                ),
            decreases m - bcb,
        {
            match coverage_counters.bcb_counter(bcb) {
                Some(counter_kind) => {
                    let do_inject = match counter_kind {
                        BcbCounter::Counter { .. } => true,
                        BcbCounter::Expression { .. } => coverage_spans.bcb_has_coverage_spans(
                            bcb,
                        ),
                    };
                    if do_inject {
                        proof {
                            assert(chains[bcb as int] == graph.bcbs@[bcb as int].basic_blocks@);
                            assert(chains[bcb as int][0] < cfg.len());
                            lemma_with_statement_cfg(
                                mir_body@.blocks,
                                self.make_mir_coverage_kind(&counter_kind),
                                chains[bcb as int][0],
                            );
                            lemma_statement_preserves(
                                start,
                                mir_body@.blocks,
                                self.make_mir_coverage_kind(&counter_kind),
                                chains[bcb as int][0],
                            );
                        }
                        let kind = self.make_mir_coverage_kind(&counter_kind);
                        let leader = graph.bcbs[bcb].leader_bb();
                        inject_statement(mir_body, kind, leader);
                    }
                },
                None => {},
            }
            bcb = bcb + 1;
        }
        let ghost marked = mir_body@.blocks;
        proof {
            lemma_plain_edges_at_start(graph, marked, coverage_counters@.sites);
        }
        let count = coverage_counters.num_counters();
        let mut id: usize = 0;
        while id < count
            invariant
                m == graph.bcbs@.len(),
                count == coverage_counters@.sites.len(),
                id <= count,
                n == start.len(),
                chains == graph@.chains,
                cfg == cfg_of(start),
                cfg_well_formed(cfg),
                graph.condenses(cfg),
                graph.well_formed(),
                coverage_counters@.well_formed(graph.successor_lists()),
                mir_body@.function_coverage_info == info,
                cfg_well_formed(cfg_of(mir_body@.blocks)),
                mir_body@.blocks.len() >= n,
                preserves_control_flow(start, mir_body@.blocks),
                keeps_plain_edges(mir_body@.blocks, graph@, coverage_counters@.sites, id as nat),
                mir_body@.blocks == with_edge_counters(
                    marked,
                    graph@,
                    coverage_counters@.sites,
                    id as nat,
                ),
            decreases count - id,
        {
            match coverage_counters.counter_sites[id] {
                CounterSite::Edge { from_bcb, successor } => {
                    proof {
                        assert(coverage_counters@.sites[id as int] == (CounterSite::Edge {
                            from_bcb,
                            successor,
                        }));
                        assert(coverage_counters@.edge_terms[from_bcb as int].len()
                            == graph.successor_lists()[from_bcb as int].len());
                        assert(graph.successor_lists()[from_bcb as int]
                            == graph.successors@[from_bcb as int]@);
                    }
                    let to_bcb = graph.successors[from_bcb][successor];
                    proof {
                        assert(chains[from_bcb as int] == graph.bcbs@[from_bcb as int].basic_blocks@);
                        assert(chains[to_bcb as int] == graph.bcbs@[to_bcb as int].basic_blocks@);
                        assert(chains[from_bcb as int][chains[from_bcb as int].len() - 1]
                            < cfg.len());
                        assert(chains[to_bcb as int][0] < cfg.len());
                    }
                    let from_bb = graph.bcbs[from_bcb].last_bb();
                    let to_bb = graph.bcbs[to_bcb].leader_bb();
                    let ghost before = mir_body@.blocks;
                    proof {
                        let sites = coverage_counters@.sites;
                        assert forall|c: int| 0 <= c < id implies #[trigger] sites[c]
                            != (CounterSite::Edge { from_bcb, successor }) by {
                            // Each physical counter stands at its own site.
                            assert(coverage_counters@.edge_terms[from_bcb as int][successor as int]
                                == Some(BcbCounter::Counter { id }));
                        }
                        assert(is_plain_edge(sites, id as nat, from_bcb as int, successor as int));
                        assert(graph@.successors[from_bcb as int][successor as int] == to_bcb);
                        assert(before[from_bb as int] == mir_body.basic_blocks@[from_bb as int]@);
                        let succs = before[from_bb as int].kind.successors();
                        assert(succs.contains(to_bb));
                        let at = choose|at: int| 0 <= at < succs.len() && succs[at] == to_bb;
                        lemma_first_slot_exists(succs, to_bb, at);
                    }
                    let new_bb = inject_edge_counter_basic_block(mir_body, from_bb, to_bb);
                    proof {
                        lemma_with_edge_block_cfg(before, from_bb, to_bb);
                        lemma_with_statement_cfg(
                            with_edge_block(before, from_bb, to_bb),
                            CoverageKind::CounterIncrement { id },
                            new_bb,
                        );
                        lemma_edge_block_preserves(start, before, from_bb, to_bb);
                        lemma_statement_preserves(
                            start,
                            with_edge_block(before, from_bb, to_bb),
                            CoverageKind::CounterIncrement { id },
                            new_bb,
                        );
                        lemma_edge_block_keeps_plain_edges(
                            graph,
                            cfg,
                            before,
                            coverage_counters@.sites,
                            id as nat,
                            from_bcb,
                            successor,
                        );
                    }
                    inject_statement(mir_body, CoverageKind::CounterIncrement { id }, new_bb);
                },
                CounterSite::Node { .. } => {
                    proof {
                        lemma_node_site_keeps_plain_edges(
                            mir_body@.blocks,
                            graph@,
                            coverage_counters@.sites,
                            id as nat,
                        );
                    }
                },
            }
            id = id + 1;
        }
    }
}

impl Instrumentor {
    /// Instruments `mir_body`: chooses the spans to report, assigns the
    /// counting terms, turns the spans into mappings, and writes the markers
    /// and the coverage information into the body.
    ///
    /// Leaves the body as it is where no span is reported or none of the
    /// reported spans has a region.
    pub fn inject_counters(
        &self,
        source_map: &SourceMap,
        mir_body: &mut Body,
        max_depth: usize,
    ) -> (res: Result<(), SkipReason>)
        requires
            old(mir_body).well_formed(),
            self.basic_coverage_blocks@ == condensation(old(mir_body).cfg()),
            self.basic_coverage_blocks.condenses(old(mir_body).cfg()),
            self.basic_coverage_blocks.well_formed(),
        ensures
            (final(mir_body)@, res) == instrumented(
                old(mir_body)@,
                *source_map,
                self.hir_info,
                max_depth as nat,
            ),
            final(mir_body).well_formed(),
            preserves_control_flow(old(mir_body)@.blocks, final(mir_body)@.blocks),
            res is Err ==> final(mir_body)@ == old(mir_body)@,
            res is Ok ==> final(mir_body)@.function_coverage_info is Some,
            res is Ok ==> final(mir_body)@.function_coverage_info->0.well_formed(),
    {
        let graph = &self.basic_coverage_blocks;
        let ghost start = mir_body@;
        proof {
            assert(is_maximal_chain(mir_body.cfg(), graph@.chains[0])) by {
                assert(graph.bcbs@.len() > 0) by {
                    lemma_start_has_node(graph@, mir_body.cfg());
                }
            }
        }
        let coverage_spans = match CoverageSpans::generate_coverage_spans(
            mir_body,
            &self.hir_info,
            graph,
        ) {
            Some(spans) => spans,
            None => {
                return Err(SkipReason::NoSpans);
            },
        };
        let ghost has_spans = node_flags(coverage_spans.mappings@, graph@.chains.len());
        assert(coverage_spans.bcb_has_mappings@ =~= has_spans);
        let coverage_counters = CoverageCounters::make_bcb_counters(
            graph,
            &coverage_spans.bcb_has_mappings,
            max_depth,
        );
        let mappings = self.create_mappings(source_map, &coverage_spans, &coverage_counters);
        if mappings.len() == 0 {
            return Err(SkipReason::NoMappings);
        }
        self.inject_coverage_statements(mir_body, &coverage_spans, &coverage_counters);
        let ghost counters = coverage_counters@;
        let num_counters = coverage_counters.num_counters();
        let info = FunctionCoverageInfo {
            function_source_hash: self.hir_info.function_source_hash,
            num_counters,
            expressions: coverage_counters.into_expressions(),
            mappings,
        };
        proof {
            assert forall|i: int| 0 <= i < info@.mappings.len() implies (
            #[trigger] info@.mappings[i]).code_region.well_formed() && (info@.mappings[i].kind matches MappingKind::Code(
                term,
            ) && term_defined(term, info@.num_counters as nat, info@.expressions.len())) by {
                let kind = info@.mappings[i].kind;
                let bcb = choose|bcb: int|
                    0 <= bcb < counters.node_terms.len() && #[trigger] counters.node_terms[bcb] is Some
                        && kind == MappingKind::Code(counters.node_terms[bcb]->0.as_term());
                assert(counters.defines(counters.node_terms[bcb]->0));
            }
            assert(info@.well_formed());
        }
        mir_body.function_coverage_info = Some(info);
        Ok(())
    }
}

/// The start block has a node, so a condensation has at least one node.
proof fn lemma_start_has_node(graph: GraphView, cfg: Seq<Seq<usize>>)
    requires
        cfg_well_formed(cfg),
        graph.condenses(cfg),
    ensures
        graph.chains.len() > 0,
{
    let path = seq![0usize];
    assert(is_path(cfg, path));
    assert(path.last() == 0);
    assert(reachable(cfg, 0));
    assert(graph.bb_to_bcb[0] is Some);
}

impl InstrumentCoverage {
    /// Whether the pass runs at all.
    pub fn is_enabled(&self, instrument_coverage: bool) -> (r: bool)
        ensures
            r == instrument_coverage,
    {
        instrument_coverage
    }

    /// Instruments the function `fn_item` with the body `mir_body`, unless
    /// the item is not eligible or its start block is never executed.
    pub fn run_pass(
        &self,
        item: &ItemInfo,
        fn_item: &FnItem,
        source_map: &SourceMap,
        mir_body: &mut Body,
    ) -> (res: Result<(), SkipReason>)
        requires
            old(mir_body).well_formed(),
        ensures
            (final(mir_body)@, res) == pass_result(
                old(mir_body)@,
                *item,
                *fn_item,
                *source_map,
                self.max_derivation_depth as nat,
            ),
            final(mir_body).well_formed(),
            preserves_control_flow(old(mir_body)@.blocks, final(mir_body)@.blocks),
            res is Err ==> final(mir_body)@ == old(mir_body)@,
            res is Ok ==> final(mir_body)@.function_coverage_info is Some,
            res is Ok ==> final(mir_body)@.function_coverage_info->0.well_formed(),
    {
        if !is_eligible_for_coverage(item) {
            return Err(SkipReason::NotEligible);
        }
        match mir_body.basic_blocks[0].terminator.kind {
            TerminatorKind::Unreachable => {
                return Err(SkipReason::NotEligible);
            },
            _ => {},
        }
        let instrumentor = Instrumentor::new(source_map, fn_item, mir_body);
        instrumentor.inject_counters(source_map, mir_body, self.max_derivation_depth)
    }
}

} // verus!
