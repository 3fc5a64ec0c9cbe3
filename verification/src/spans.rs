//! The source spans that are reported for each node of a coverage graph.

use crate::graph::CoverageGraph;
use crate::hir::ExtractedHirInfo;
use crate::mir::{
    BasicBlockData, BlockView, Body, SourceInfo, Statement, StatementKind, TerminatorKind,
    TerminatorKindView,
};
use crate::span::Span;
use vstd::prelude::*;

verus! {

/// What a span is reported for.
#[derive(Clone, Copy, Debug, PartialEq, Eq, Structural)]
pub enum BcbMappingKind {
    /// The code of a node.
    Code(usize),
}

/// A span together with the node whose count is reported for it.
#[derive(Clone, Copy, Debug, PartialEq, Eq, Structural)]
pub struct BcbMapping {
    pub kind: BcbMappingKind,
    pub span: Span,
}

impl BcbMapping {
    /// The node of the mapping.
    #[verifier::allow_in_spec]
    pub fn bcb(&self) -> usize
        returns
            (match self.kind {
                BcbMappingKind::Code(bcb) => bcb,
            }),
    {
        match self.kind {
            BcbMappingKind::Code(bcb) => bcb,
        }
    }
}

/// Whether a span can be shown as part of the body: it lies within the body
/// and was written in the same context.
pub open spec fn is_usable(span: Span, body_span: Span) -> bool {
    body_span.contains(span) && span.eq_ctxt(body_span)
}

/// The span that a statement contributes: that of user code inside the body.
pub open spec fn statement_span(statement: Statement, body_span: Span) -> Option<Span> {
    if statement.kind is Assign && is_usable(statement.source_info.span, body_span) {
        Some(statement.source_info.span)
    } else {
        None
    }
}

/// The span that a terminator contributes: that of a call or a return inside
/// the body. Jumps and branches have no source text of their own.
pub open spec fn terminator_span(
    source_info: SourceInfo,
    kind: TerminatorKindView,
    body_span: Span,
) -> Option<Span> {
    if (kind is Call || kind is Return) && is_usable(source_info.span, body_span) {
        Some(source_info.span)
    } else {
        None
    }
}

/// The mapping of `span` to node `bcb`.
pub open spec fn code_mapping(bcb: usize, span: Span) -> BcbMapping {
    BcbMapping { kind: BcbMappingKind::Code(bcb), span }
}

/// The mappings of a run of statements of node `bcb`, in their order.
pub open spec fn statement_mappings(
    statements: Seq<Statement>,
    bcb: usize,
    body_span: Span,
) -> Seq<BcbMapping>
    decreases statements.len(),
{
    if statements.len() == 0 {
        seq![]
    } else {
        let before = statement_mappings(statements.drop_last(), bcb, body_span);
        match statement_span(statements.last(), body_span) {
            Some(span) => before.push(code_mapping(bcb, span)),
            None => before,
        }
    }
}

/// The mappings of one block of node `bcb`: those of its statements, then
/// that of its terminator.
pub open spec fn block_mappings(block: BlockView, bcb: usize, body_span: Span) -> Seq<BcbMapping> {
    let of_statements = statement_mappings(block.statements, bcb, body_span);
    match terminator_span(block.source_info, block.kind, body_span) {
        Some(span) => of_statements.push(code_mapping(bcb, span)),
        None => of_statements,
    }
}

/// The mappings of the blocks `chain` of node `bcb`, in their order.
pub open spec fn chain_mappings(
    blocks: Seq<BlockView>,
    chain: Seq<usize>,
    bcb: usize,
    body_span: Span,
) -> Seq<BcbMapping>
    decreases chain.len(),
{
    if chain.len() == 0 {
        seq![]
    } else {
        chain_mappings(blocks, chain.drop_last(), bcb, body_span) + block_mappings(
            blocks[chain.last() as int],
            bcb,
            body_span,
        )
    }
}

/// The mappings of all nodes, in the order of the nodes.
pub open spec fn graph_mappings(
    blocks: Seq<BlockView>,
    chains: Seq<Seq<usize>>,
    body_span: Span,
) -> Seq<BcbMapping>
    decreases chains.len(),
{
    if chains.len() == 0 {
        seq![]
    } else {
        graph_mappings(blocks, chains.drop_last(), body_span) + chain_mappings(
            blocks,
            chains.last(),
            (chains.len() - 1) as usize,
            body_span,
        )
    }
}

/// The mappings from which the reported ones are chosen.
///
/// Of an async function only the signature is reported, for its body runs
/// elsewhere. Of any other function the spans of its body are, and with them
/// the signature if the body has a span at all. The signature counts as part
/// of the entry node.
pub open spec fn candidate_mappings(
    blocks: Seq<BlockView>,
    chains: Seq<Seq<usize>>,
    info: ExtractedHirInfo,
) -> Seq<BcbMapping> {
    if info.is_async_fn {
        seq![code_mapping(0, info.fn_sig_span)]
    } else {
        let of_body = graph_mappings(blocks, chains, info.body_span);
        if of_body.len() == 0 {
            of_body
        } else {
            of_body.push(code_mapping(0, info.fn_sig_span))
        }
    }
}

/// Whether `inner` is the more specific of two mappings: it belongs to
/// another node than `outer`, its span lies within that of `outer`, and where
/// both spans cover the same bytes it belongs to the later node.
pub open spec fn shadows(inner: BcbMapping, outer: BcbMapping) -> bool {
    &&& inner.bcb() != outer.bcb()
    &&& outer.span.contains(inner.span)
    &&& (inner.span.lo != outer.span.lo || inner.span.hi != outer.span.hi || inner.bcb()
        > outer.bcb())
}

/// Whether one of `all` is more specific than `mapping`.
pub open spec fn is_shadowed(mapping: BcbMapping, all: Seq<BcbMapping>) -> bool {
    exists|j: int| 0 <= j < all.len() && shadows(#[trigger] all[j], mapping)
}

/// The mappings that are reported among the first `upto` of `all`: each one
/// that none of `all` is more specific than, once, in the order of `all`.
pub open spec fn refined_upto(all: Seq<BcbMapping>, upto: nat) -> Seq<BcbMapping>
    decreases upto,
{
    if upto == 0 {
        seq![]
    } else {
        let before = refined_upto(all, (upto - 1) as nat);
        let mapping = all[upto - 1];
        if is_shadowed(mapping, all) || before.contains(mapping) {
            before
        } else {
            before.push(mapping)
        }
    }
}

/// The mappings that are reported for a function.
pub open spec fn refined_mappings(
    blocks: Seq<BlockView>,
    chains: Seq<Seq<usize>>,
    info: ExtractedHirInfo,
) -> Seq<BcbMapping> {
    let all = candidate_mappings(blocks, chains, info);
    refined_upto(all, all.len())
}

/// What holds of the reported mappings: none occurs twice, each is a
/// candidate, and none of the candidates is more specific than it.
pub proof fn lemma_refined_upto(all: Seq<BcbMapping>, upto: nat)
    requires
        upto <= all.len(),
    ensures
        refined_upto(all, upto).no_duplicates(),
        forall|i: int|
            0 <= i < refined_upto(all, upto).len() ==> !is_shadowed(
                #[trigger] refined_upto(all, upto)[i],
                all,
            ) && exists|j: int| 0 <= j < upto && all[j] == refined_upto(all, upto)[i],
        forall|j: int|
            0 <= j < upto && !is_shadowed(all[j], all) ==> refined_upto(all, upto).contains(
                #[trigger] all[j],
            ),
    decreases upto,
{
    if upto > 0 {
        let before = refined_upto(all, (upto - 1) as nat);
        let after = refined_upto(all, upto);
        lemma_refined_upto(all, (upto - 1) as nat);
        assert forall|i: int| 0 <= i < after.len() implies !is_shadowed(#[trigger] after[i], all)
            && exists|j: int| 0 <= j < upto && all[j] == after[i] by {
            if i < before.len() {
                let j = choose|j: int| 0 <= j < upto - 1 && all[j] == before[i];
                assert(all[j] == after[i]);
            } else {
                assert(all[upto - 1] == after[i]);
            }
        }
        assert forall|j: int| 0 <= j < upto && !is_shadowed(all[j], all) implies after.contains(
            #[trigger] all[j],
        ) by {
            if j < upto - 1 {
                assert(before.contains(all[j]));
                let i = choose|i: int| 0 <= i < before.len() && before[i] == all[j];
                assert(after[i] == all[j]);
            } else if !before.contains(all[j]) {
                assert(after[after.len() - 1] == all[j]);
            } else {
                let i = choose|i: int| 0 <= i < before.len() && before[i] == all[j];
                assert(after[i] == all[j]);
            }
        }
    }
}

/// The spans of a function that are reported, each with its node.
#[derive(Clone, Debug, PartialEq, Eq)]
pub struct CoverageSpans {
    pub bcb_has_mappings: Vec<bool>,
    pub mappings: Vec<BcbMapping>,
}

fn usable(span: Span, body_span: Span) -> (r: bool)
    ensures
        r == is_usable(span, body_span),
{
    body_span.contains(span) && span.eq_ctxt(body_span)
}

fn push_block_mappings(
    out: &mut Vec<BcbMapping>,
    block: &BasicBlockData,
    bcb: usize,
    body_span: Span,
)
    ensures
        final(out)@ == old(out)@ + block_mappings(block@, bcb, body_span),
{
    let ghost start = out@;
    let n = block.statements.len();
    let mut i: usize = 0;
    assert(block.statements@.take(0) =~= Seq::<Statement>::empty());
    while i < n
        invariant
            n == block.statements@.len(),
            i <= n,
            out@ == start + statement_mappings(block.statements@.take(i as int), bcb, body_span),
        decreases n - i,
    {
        let statement = block.statements[i];
        proof {
            assert(block.statements@.take(i + 1).drop_last() =~= block.statements@.take(i as int));
            assert(block.statements@.take(i + 1).last() == statement);
        }
        let keeps = match statement.kind {
            StatementKind::Assign => true,
            _ => false,
        };
        if keeps && usable(statement.source_info.span, body_span) {
            out.push(
                BcbMapping { kind: BcbMappingKind::Code(bcb), span: statement.source_info.span },
            );
        }
        i = i + 1;
    }
    assert(block.statements@.take(n as int) =~= block.statements@);
    let keeps = match block.terminator.kind {
        TerminatorKind::Call { .. } => true,
        TerminatorKind::Return => true,
        _ => false,
    };
    if keeps && usable(block.terminator.source_info.span, body_span) {
        out.push(
            BcbMapping { kind: BcbMappingKind::Code(bcb), span: block.terminator.source_info.span },
        );
    }
}

/// Whether `inner` is more specific than `outer`.
fn is_more_specific(inner: &BcbMapping, outer: &BcbMapping) -> (r: bool)
    ensures
        r == shadows(*inner, *outer),
{
    inner.bcb() != outer.bcb() && outer.span.contains(inner.span) && (inner.span.lo
        != outer.span.lo || inner.span.hi != outer.span.hi || inner.bcb() > outer.bcb())
}

fn same_mapping(a: &BcbMapping, b: &BcbMapping) -> (r: bool)
    ensures
        r == (*a == *b),
{
    a.bcb() == b.bcb() && a.span.lo == b.span.lo && a.span.hi == b.span.hi && a.span.ctxt
        == b.span.ctxt
}

fn any_more_specific(all: &Vec<BcbMapping>, mapping: &BcbMapping) -> (r: bool)
    ensures
        r == is_shadowed(*mapping, all@),
{
    let mut j: usize = 0;
    while j < all.len()
        invariant
            j <= all@.len(),
            forall|k: int| 0 <= k < j ==> !shadows(#[trigger] all@[k], *mapping),
        decreases all@.len() - j,
    {
        if is_more_specific(&all[j], mapping) {
            return true;
        }
        j = j + 1;
    }
    false
}

fn holds_mapping(list: &Vec<BcbMapping>, mapping: &BcbMapping) -> (r: bool)
    ensures
        r == list@.contains(*mapping),
{
    let mut j: usize = 0;
    while j < list.len()
        invariant
            j <= list@.len(),
            forall|k: int| 0 <= k < j ==> list@[k] != *mapping,
        decreases list@.len() - j,
    {
        if same_mapping(&list[j], mapping) {
            return true;
        }
        j = j + 1;
    }
    false
}

impl CoverageSpans {
    /// Every reported mapping names a node, and `bcb_has_mappings` marks
    /// exactly the nodes that are named.
    pub open spec fn well_formed(&self) -> bool {
        &&& forall|i: int|
            0 <= i < self.mappings@.len() ==> (#[trigger] self.mappings@[i]).bcb()
                < self.bcb_has_mappings@.len()
        &&& forall|bcb: int|
            0 <= bcb < self.bcb_has_mappings@.len() ==> (#[trigger] self.bcb_has_mappings@[bcb]
                <==> exists|i: int|
                0 <= i < self.mappings@.len() && (#[trigger] self.mappings@[i]).bcb() == bcb)
    }

    /// No span is reported twice, be it for one node or for two.
    pub open spec fn reports_each_span_once(&self) -> bool {
        forall|i: int, j: int|
            0 <= i < j < self.mappings@.len() ==> (#[trigger] self.mappings@[i]).span != (
            #[trigger] self.mappings@[j]).span
    }

    /// Chooses the spans of `body` that are reported, each with its node.
    ///
    /// Gives nothing where no span is left to report.
    pub fn generate_coverage_spans(
        body: &Body,
        hir_info: &ExtractedHirInfo,
        graph: &CoverageGraph,
    ) -> (res: Option<CoverageSpans>)
        requires
            body.well_formed(),
            graph.partitions(body.cfg()),
            graph.bcbs@.len() > 0,
        ensures
            match res {
                Some(spans) => spans.mappings@ == refined_mappings(body@.blocks, graph.chains(), *hir_info)
                    && spans.mappings@.len() > 0 && spans.bcb_has_mappings@.len()
                    == graph.bcbs@.len() && spans.well_formed() && spans.reports_each_span_once()
                    && forall|i: int|
                    0 <= i < spans.mappings@.len() ==> !is_shadowed(
                        #[trigger] spans.mappings@[i],
                        candidate_mappings(body@.blocks, graph.chains(), *hir_info),
                    ),
                None => refined_mappings(body@.blocks, graph.chains(), *hir_info).len() == 0,
            },
    {
        let ghost chains = graph.chains();
        let m = graph.bcbs.len();
        let body_span = hir_info.body_span;
        let mut all: Vec<BcbMapping> = Vec::new();
        if hir_info.is_async_fn {
            all.push(BcbMapping { kind: BcbMappingKind::Code(0), span: hir_info.fn_sig_span });
            assert(all@ =~= candidate_mappings(body@.blocks, chains, *hir_info));
        } else {
            let mut k: usize = 0;
            assert(chains.take(0) =~= Seq::<Seq<usize>>::empty());
            while k < m
                invariant
                    m == graph.bcbs@.len(),
                    k <= m,
                    chains == graph.chains(),
                    body.well_formed(),
                    graph.partitions(body.cfg()),
                    all@ == graph_mappings(body@.blocks, chains.take(k as int), body_span),
                    forall|i: int| 0 <= i < all@.len() ==> (#[trigger] all@[i]).bcb() < k,
                decreases m - k,
            {
                let chain = &graph.bcbs[k].basic_blocks;
                let ghost before = all@;
                let mut i: usize = 0;
                assert(chains[k as int] == chain@);
                assert(chain@.take(0) =~= Seq::<usize>::empty());
                while i < chain.len()
                    invariant
                        i <= chain@.len(),
                        k < m,
                        chains[k as int] == chain@,
                        chains == graph.chains(),
                        m == graph.bcbs@.len(),
                        graph.partitions(body.cfg()),
                        all@ == before + chain_mappings(body@.blocks, chain@.take(i as int), k, body_span),
                        forall|j: int| 0 <= j < all@.len() ==> (#[trigger] all@[j]).bcb() <= k,
                    decreases chain@.len() - i,
                {
                    proof {
                        assert(chain@.take(i + 1).drop_last() =~= chain@.take(i as int));
                        assert(chain@.take(i + 1).last() == chain@[i as int]);
                        assert(chains[k as int][i as int] < body.cfg().len());
                    }
                    let ghost sofar = all@;
                    push_block_mappings(&mut all, &body.basic_blocks[chain[i]], k, body_span);
                    proof {
                        let block = body@.blocks[chain@[i as int] as int];
                        assert(block == body.basic_blocks@[chain@[i as int] as int]@);
                        let added = block_mappings(block, k, body_span);
                        lemma_block_mappings_bcb(block, k, body_span);
                        assert(all@ =~= before + (chain_mappings(
                            body@.blocks,
                            chain@.take(i as int),
                            k,
                            body_span,
                        ) + added));
                    }
                    i = i + 1;
                }
                proof {
                    assert(chain@.take(chain@.len() as int) =~= chain@);
                    assert(chains.take(k + 1).drop_last() =~= chains.take(k as int));
                    assert(chains.take(k + 1).last() == chain@);
                }
                k = k + 1;
            }
            assert(chains.take(m as int) =~= chains);
            if all.len() > 0 {
                all.push(BcbMapping { kind: BcbMappingKind::Code(0), span: hir_info.fn_sig_span });
            }
        }
        assert(all@ == candidate_mappings(body@.blocks, chains, *hir_info));
        assert(forall|i: int| 0 <= i < all@.len() ==> (#[trigger] all@[i]).bcb() < m);
        let mut mappings: Vec<BcbMapping> = Vec::new();
        let mut i: usize = 0;
        while i < all.len()
            invariant
                i <= all@.len(),
                mappings@ == refined_upto(all@, i as nat),
                forall|j: int| 0 <= j < all@.len() ==> (#[trigger] all@[j]).bcb() < m,
                forall|j: int| 0 <= j < mappings@.len() ==> (#[trigger] mappings@[j]).bcb() < m,
            decreases all@.len() - i,
        {
            let mapping = all[i];
            if !any_more_specific(&all, &mapping) && !holds_mapping(&mappings, &mapping) {
                mappings.push(mapping);
            }
            i = i + 1;
        }
        proof {
            lemma_refined_upto(all@, all@.len());
            assert forall|i: int, j: int| 0 <= i < j < mappings@.len() implies (
            #[trigger] mappings@[i]).span != (#[trigger] mappings@[j]).span by {
                let a = mappings@[i];
                let b = mappings@[j];
                if a.span == b.span {
                    // Of two candidates with one span, the earlier node
                    // gives way to the later.
                    let x = choose|x: int| 0 <= x < all@.len() && all@[x] == a;
                    let y = choose|y: int| 0 <= y < all@.len() && all@[y] == b;
                    if a.bcb() < b.bcb() {
                        assert(shadows(all@[y], a));
                    } else if b.bcb() < a.bcb() {
                        assert(shadows(all@[x], b));
                    } else {
                        assert(a == b);
                    }
                }
            }
        }
        if mappings.len() == 0 {
            return None;
        }
        let mut bcb_has_mappings: Vec<bool> = vec![false; m];
        let mut i: usize = 0;
        while i < mappings.len()
            invariant
                i <= mappings@.len(),
                bcb_has_mappings@.len() == m,
                forall|j: int| 0 <= j < mappings@.len() ==> (#[trigger] mappings@[j]).bcb() < m,
                forall|bcb: int|
                    0 <= bcb < m ==> (#[trigger] bcb_has_mappings@[bcb] <==> exists|j: int|
                        0 <= j < i && (#[trigger] mappings@[j]).bcb() == bcb),
            decreases mappings@.len() - i,
        {
            let bcb = mappings[i].bcb();
            let ghost before = bcb_has_mappings@;
            bcb_has_mappings.set(bcb, true);
            proof {
                assert forall|b: int| 0 <= b < m implies (#[trigger] bcb_has_mappings@[b]
                    <==> exists|j: int| 0 <= j < i + 1 && (#[trigger] mappings@[j]).bcb() == b) by {
                    if b == bcb {
                        assert(mappings@[i as int].bcb() == b);
                    } else {
                        if before[b] {
                            let j = choose|j: int|
                                0 <= j < i && (#[trigger] mappings@[j]).bcb() == b;
                            assert(mappings@[j].bcb() == b);
                        }
                    }
                }
            }
            i = i + 1;
        }
        Some(CoverageSpans { bcb_has_mappings, mappings })
    }

    /// Whether a span is reported for node `bcb`.
    pub fn bcb_has_coverage_spans(&self, bcb: usize) -> (r: bool)
        requires
            bcb < self.bcb_has_mappings@.len(),
        ensures
            r == self.bcb_has_mappings@[bcb as int],
    {
        self.bcb_has_mappings[bcb]
    }

    /// The reported mappings, in their order.
    pub fn all_bcb_mappings(&self) -> (r: &Vec<BcbMapping>)
        ensures
            r@ == self.mappings@,
    {
        &self.mappings
    }
}

/// Every mapping of a block of node `bcb` names that node.
proof fn lemma_block_mappings_bcb(block: BlockView, bcb: usize, body_span: Span)
    ensures
        forall|i: int|
            0 <= i < block_mappings(block, bcb, body_span).len() ==> (#[trigger] block_mappings(
                block,
                bcb,
                body_span,
            )[i]).bcb() == bcb,
{
    lemma_statement_mappings_bcb(block.statements, bcb, body_span);
}

proof fn lemma_statement_mappings_bcb(statements: Seq<Statement>, bcb: usize, body_span: Span)
    ensures
        forall|i: int|
            0 <= i < statement_mappings(statements, bcb, body_span).len() ==> (
            #[trigger] statement_mappings(statements, bcb, body_span)[i]).bcb() == bcb,
    decreases statements.len(),
{
    if statements.len() > 0 {
        let before = statement_mappings(statements.drop_last(), bcb, body_span);
        let all = statement_mappings(statements, bcb, body_span);
        lemma_statement_mappings_bcb(statements.drop_last(), bcb, body_span);
        assert forall|i: int| 0 <= i < all.len() implies (#[trigger] all[i]).bcb() == bcb by {
            if i < before.len() {
                assert(all[i] == before[i]);
            }
        }
    }
}

} // verus!
