use instrument_coverage::graph::CoverageGraph;
use instrument_coverage::hir::ExtractedHirInfo;
use instrument_coverage::mir::{
    BasicBlockData, Body, SourceInfo, Statement, StatementKind, Terminator, TerminatorKind,
};
use instrument_coverage::span::Span;
use instrument_coverage::spans::{BcbMapping, BcbMappingKind, CoverageSpans};

fn span(lo: u32, hi: u32) -> Span {
    Span { lo, hi, ctxt: 0 }
}

fn assign(lo: u32, hi: u32) -> Statement {
    Statement { source_info: SourceInfo { span: span(lo, hi) }, kind: StatementKind::Assign }
}

fn block(statements: Vec<Statement>, kind: TerminatorKind, at: Span) -> BasicBlockData {
    BasicBlockData { statements, terminator: Terminator { source_info: SourceInfo { span: at }, kind }, is_cleanup: false }
}

fn info(body_span: Span, fn_sig_span: Span) -> ExtractedHirInfo {
    ExtractedHirInfo { function_source_hash: 7, is_async_fn: false, fn_sig_span, body_span }
}

fn mapping(bcb: usize, lo: u32, hi: u32) -> BcbMapping {
    BcbMapping { kind: BcbMappingKind::Code(bcb), span: span(lo, hi) }
}

fn diamond(first: Vec<Statement>, then: Vec<Statement>, other: Vec<Statement>) -> Body {
    Body {
        basic_blocks: vec![
            block(first, TerminatorKind::SwitchInt { targets: vec![1, 2] }, span(10, 15)),
            block(then, TerminatorKind::Goto { target: 3 }, span(20, 25)),
            block(other, TerminatorKind::Goto { target: 3 }, span(30, 35)),
            block(vec![], TerminatorKind::Return, span(40, 41)),
        ],
        function_coverage_info: None,
    }
}

fn spans_of(body: &Body, hir: &ExtractedHirInfo) -> Option<CoverageSpans> {
    assert!(body.is_well_formed());
    let graph = CoverageGraph::from_mir(body);
    CoverageSpans::generate_coverage_spans(body, hir, &graph)
}

#[test]
fn every_node_reports_its_own_spans() {
    let body = diamond(vec![assign(10, 15)], vec![assign(20, 25)], vec![assign(30, 35)]);
    let spans = spans_of(&body, &info(span(5, 41), span(0, 5))).unwrap();
    assert_eq!(
        spans.mappings,
        vec![mapping(0, 10, 15), mapping(1, 20, 25), mapping(2, 30, 35), mapping(3, 40, 41), mapping(0, 0, 5)]
    );
    assert_eq!(spans.bcb_has_mappings, vec![true, true, true, true]);
    assert!(spans.bcb_has_coverage_spans(2));
    assert_eq!(spans.all_bcb_mappings().len(), 5);
    assert_eq!(mapping(3, 40, 41).bcb(), 3);
}

#[test]
fn statements_of_a_chain_belong_to_one_node() {
    let body = Body {
        basic_blocks: vec![
            block(vec![assign(1, 2), assign(3, 4)], TerminatorKind::Call { target: Some(1) }, span(5, 9)),
            block(vec![assign(10, 12)], TerminatorKind::Return, span(13, 14)),
        ],
        function_coverage_info: None,
    };
    let spans = spans_of(&body, &info(span(0, 14), span(0, 0))).unwrap();
    assert_eq!(
        spans.mappings,
        vec![
            mapping(0, 1, 2),
            mapping(0, 3, 4),
            mapping(0, 5, 9),
            mapping(0, 10, 12),
            mapping(0, 13, 14),
            mapping(0, 0, 0),
        ]
    );
    assert_eq!(spans.bcb_has_mappings, vec![true]);
}

#[test]
fn outer_span_gives_way_to_an_inner_span_of_another_node() {
    let body = diamond(vec![assign(10, 38)], vec![assign(20, 25)], vec![assign(30, 35)]);
    let spans = spans_of(&body, &info(span(5, 41), span(0, 5))).unwrap();
    assert_eq!(
        spans.mappings,
        vec![mapping(1, 20, 25), mapping(2, 30, 35), mapping(3, 40, 41), mapping(0, 0, 5)]
    );
    assert_eq!(spans.bcb_has_mappings, vec![true, true, true, true]);
}

#[test]
fn nested_spans_of_one_node_are_both_reported() {
    let body = diamond(vec![assign(10, 18), assign(12, 14)], vec![], vec![]);
    let spans = spans_of(&body, &info(span(5, 41), span(0, 5))).unwrap();
    assert_eq!(
        spans.mappings,
        vec![mapping(0, 10, 18), mapping(0, 12, 14), mapping(3, 40, 41), mapping(0, 0, 5)]
    );
    assert_eq!(spans.bcb_has_mappings, vec![true, false, false, true]);
}

#[test]
fn of_equal_spans_the_later_node_is_reported() {
    let body = diamond(vec![], vec![assign(20, 25)], vec![assign(20, 25)]);
    let spans = spans_of(&body, &info(span(5, 41), span(0, 5))).unwrap();
    assert_eq!(spans.mappings, vec![mapping(2, 20, 25), mapping(3, 40, 41), mapping(0, 0, 5)]);
    assert_eq!(spans.bcb_has_mappings, vec![true, false, true, true]);
}

#[test]
fn a_mapping_is_reported_once() {
    let body = diamond(vec![assign(10, 15), assign(10, 15)], vec![assign(20, 25)], vec![]);
    let spans = spans_of(&body, &info(span(5, 41), span(0, 5))).unwrap();
    assert_eq!(
        spans.mappings,
        vec![mapping(0, 10, 15), mapping(1, 20, 25), mapping(3, 40, 41), mapping(0, 0, 5)]
    );
}

#[test]
fn spans_that_are_not_user_code_of_the_body_are_left_out() {
    let live = Statement { source_info: SourceInfo { span: span(10, 15) }, kind: StatementKind::StorageLive };
    let dead = Statement { source_info: SourceInfo { span: span(10, 15) }, kind: StatementKind::StorageDead };
    let nop = Statement { source_info: SourceInfo { span: span(10, 15) }, kind: StatementKind::Nop };
    let expanded = Statement {
        source_info: SourceInfo { span: Span { lo: 20, hi: 25, ctxt: 9 } },
        kind: StatementKind::Assign,
    };
    let outside = assign(2, 8);
    let body = diamond(vec![live, dead, nop], vec![expanded], vec![outside, assign(30, 35)]);
    let spans = spans_of(&body, &info(span(5, 41), span(0, 5))).unwrap();
    assert_eq!(spans.mappings, vec![mapping(2, 30, 35), mapping(3, 40, 41), mapping(0, 0, 5)]);
    assert_eq!(spans.bcb_has_mappings, vec![true, false, true, true]);
}

#[test]
fn function_without_usable_spans_reports_nothing() {
    let live = Statement { source_info: SourceInfo { span: span(10, 15) }, kind: StatementKind::StorageLive };
    let body = Body {
        basic_blocks: vec![
            block(vec![live], TerminatorKind::Goto { target: 1 }, span(10, 15)),
            block(vec![], TerminatorKind::Unreachable, span(16, 17)),
        ],
        function_coverage_info: None,
    };
    assert!(spans_of(&body, &info(span(5, 41), span(0, 5))).is_none());
}

#[test]
fn async_function_reports_its_signature_only() {
    let body = diamond(vec![assign(10, 15)], vec![assign(20, 25)], vec![assign(30, 35)]);
    let mut hir = info(span(5, 41), span(0, 5));
    hir.is_async_fn = true;
    let spans = spans_of(&body, &hir).unwrap();
    assert_eq!(spans.mappings, vec![mapping(0, 0, 5)]);
    assert_eq!(spans.bcb_has_mappings, vec![true, false, false, false]);
}
