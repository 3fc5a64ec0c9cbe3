use instrument_coverage::counters::{BcbCounter, CoverageCounters};
use instrument_coverage::graph::CoverageGraph;
use instrument_coverage::hir::{
    extract_hir_info, get_body_span, is_eligible_for_coverage, DefKind, ExtractedHirInfo, FnItem, FnSig,
    ItemInfo,
};
use instrument_coverage::inject::{
    first_successor_slot, inject_edge_counter_basic_block, inject_statement,
};
use instrument_coverage::instrument::{InstrumentCoverage, Instrumentor, SkipReason};
use instrument_coverage::mir::{
    BasicBlockData, Body, CovTerm, CoverageKind, Expression, Mapping, MappingKind, Op, SourceInfo,
    Statement, StatementKind, Terminator, TerminatorKind, START_BLOCK,
};
use instrument_coverage::region::CodeRegion;
use instrument_coverage::source_map::{SourceFile, SourceMap};
use instrument_coverage::span::Span;
use instrument_coverage::spans::CoverageSpans;

fn span(lo: u32, hi: u32) -> Span {
    Span { lo, hi, ctxt: 0 }
}

fn assign(lo: u32, hi: u32) -> Statement {
    Statement { source_info: SourceInfo { span: span(lo, hi) }, kind: StatementKind::Assign }
}

fn block(statements: Vec<Statement>, kind: TerminatorKind, at: Span) -> BasicBlockData {
    BasicBlockData { statements, terminator: Terminator { source_info: SourceInfo { span: at }, kind }, is_cleanup: false }
}

fn marker(at: Span, kind: CoverageKind) -> Statement {
    Statement { source_info: SourceInfo { span: at }, kind: StatementKind::Coverage(kind) }
}

fn source_map() -> SourceMap {
    SourceMap {
        files: vec![SourceFile {
            name: "main.rs".to_string(),
            doctest_offset: None,
            src: Some("x".repeat(50)),
            start_pos: 0,
            end_pos: 50,
            lines: vec![0],
        }],
    }
}

fn function() -> ItemInfo {
    ItemInfo { def_kind: DefKind::Fn, automatically_derived: false, no_coverage: false }
}

fn item() -> FnItem {
    FnItem {
        fn_sig: Some(FnSig { span: span(0, 4), is_async: false }),
        body_span: span(5, 41),
        body_callsite: span(5, 41),
        is_closure_or_coroutine: false,
        source_hash: 0xfeed,
    }
}

fn pass() -> InstrumentCoverage {
    InstrumentCoverage { max_derivation_depth: 8 }
}

/// `if c { .. } else { .. }`, then a return.
fn diamond() -> Body {
    Body {
        basic_blocks: vec![
            block(vec![assign(10, 15)], TerminatorKind::SwitchInt { targets: vec![1, 2] }, span(10, 15)),
            block(vec![assign(20, 25)], TerminatorKind::Goto { target: 3 }, span(25, 26)),
            block(vec![assign(30, 35)], TerminatorKind::Goto { target: 3 }, span(35, 36)),
            block(vec![], TerminatorKind::Return, span(40, 41)),
        ],
        function_coverage_info: None,
    }
}

fn region(start_col: u32, end_col: u32) -> CodeRegion {
    CodeRegion { file_name: "main.rs".to_string(), start_line: 1, start_col, end_line: 1, end_col }
}

fn code(term: CovTerm, start_col: u32, end_col: u32) -> Mapping {
    Mapping { kind: MappingKind::Code(term), code_region: region(start_col, end_col) }
}

#[test]
fn simple_branch_is_instrumented() {
    let mut body = diamond();
    let res = pass().run_pass(&function(), &item(), &source_map(), &mut body);
    assert_eq!(res, Ok(()));
    let info = body.function_coverage_info.clone().unwrap();
    assert_eq!(info.function_source_hash, 0xfeed);
    assert_eq!(info.num_counters, 2);
    assert_eq!(
        info.expressions,
        vec![
            Expression { id: 0, lhs: CovTerm::Counter(0), op: Op::Subtract, rhs: CovTerm::Counter(1) },
            Expression { id: 1, lhs: CovTerm::Counter(1), op: Op::Add, rhs: CovTerm::Expression(0) },
        ]
    );
    assert_eq!(
        info.mappings,
        vec![
            code(CovTerm::Counter(0), 11, 16),
            code(CovTerm::Counter(1), 21, 26),
            code(CovTerm::Expression(0), 31, 36),
            code(CovTerm::Expression(1), 41, 42),
            code(CovTerm::Counter(0), 1, 6),
        ]
    );
    // Every node got its marker in its first block, before the statements.
    let expected = Body {
        basic_blocks: vec![
            block(
                vec![marker(span(10, 15), CoverageKind::CounterIncrement { id: 0 }), assign(10, 15)],
                TerminatorKind::SwitchInt { targets: vec![1, 2] },
                span(10, 15),
            ),
            block(
                vec![marker(span(25, 26), CoverageKind::CounterIncrement { id: 1 }), assign(20, 25)],
                TerminatorKind::Goto { target: 3 },
                span(25, 26),
            ),
            block(
                vec![marker(span(35, 36), CoverageKind::ExpressionUsed { id: 0 }), assign(30, 35)],
                TerminatorKind::Goto { target: 3 },
                span(35, 36),
            ),
            block(
                vec![marker(span(40, 41), CoverageKind::ExpressionUsed { id: 1 })],
                TerminatorKind::Return,
                span(40, 41),
            ),
        ],
        function_coverage_info: Some(info),
    };
    assert_eq!(body, expected);
    assert!(body.is_well_formed());
}

#[test]
fn emitted_information_is_complete_and_regions_are_well_formed() {
    let mut body = diamond();
    assert_eq!(pass().run_pass(&function(), &item(), &source_map(), &mut body), Ok(()));
    let info = body.function_coverage_info.unwrap();
    let defined = |term: CovTerm, limit: usize| match term {
        CovTerm::Counter(id) => id < info.num_counters,
        CovTerm::Expression(id) => id < limit,
    };
    for (i, e) in info.expressions.iter().enumerate() {
        assert!(e.id == i && defined(e.lhs, i) && defined(e.rhs, i));
    }
    assert!(!info.mappings.is_empty());
    for m in &info.mappings {
        let MappingKind::Code(term) = m.kind;
        assert!(defined(term, info.expressions.len()));
        let r = &m.code_region;
        assert!(r.start_line != 0 && r.start_col != 0 && r.end_line != 0 && r.end_col != 0);
        assert!(r.end_col & (1 << 31) == 0);
        assert!((r.start_line, r.start_col) <= (r.end_line, r.end_col));
    }
}

#[test]
fn two_runs_on_one_body_agree() {
    let mut first = diamond();
    let mut second = diamond();
    let a = pass().run_pass(&function(), &item(), &source_map(), &mut first);
    let b = pass().run_pass(&function(), &item(), &source_map(), &mut second);
    assert_eq!(a, b);
    assert_eq!(first, second);
    assert!(first.function_coverage_info.is_some());
}

#[test]
fn unreachable_entry_is_not_instrumented() {
    let mut body = Body {
        basic_blocks: vec![block(vec![assign(10, 15)], TerminatorKind::Unreachable, span(10, 15))],
        function_coverage_info: None,
    };
    let before = body.clone();
    let res = pass().run_pass(&function(), &item(), &source_map(), &mut body);
    assert_eq!(res, Err(SkipReason::NotEligible));
    assert!(body.function_coverage_info.is_none());
    assert_eq!(body, before);
}

#[test]
fn items_that_are_not_eligible_are_not_instrumented() {
    for info in [
        ItemInfo { def_kind: DefKind::Const, automatically_derived: false, no_coverage: false },
        ItemInfo { def_kind: DefKind::Static, automatically_derived: false, no_coverage: false },
        ItemInfo { def_kind: DefKind::AssocConst, automatically_derived: false, no_coverage: false },
        ItemInfo { def_kind: DefKind::AnonConst, automatically_derived: false, no_coverage: false },
        ItemInfo { def_kind: DefKind::AssocFn, automatically_derived: true, no_coverage: false },
        ItemInfo { def_kind: DefKind::Fn, automatically_derived: false, no_coverage: true },
    ] {
        assert!(!is_eligible_for_coverage(&info));
        let mut body = diamond();
        assert_eq!(pass().run_pass(&info, &item(), &source_map(), &mut body), Err(SkipReason::NotEligible));
        assert_eq!(body, diamond());
    }
    for kind in [DefKind::Fn, DefKind::AssocFn, DefKind::Closure] {
        assert!(kind.is_fn_like());
        assert!(is_eligible_for_coverage(&ItemInfo {
            def_kind: kind,
            automatically_derived: false,
            no_coverage: false
        }));
    }
    assert!(pass().is_enabled(true));
    assert!(!pass().is_enabled(false));
}

#[test]
fn function_without_usable_spans_is_skipped() {
    let live = Statement { source_info: SourceInfo { span: span(10, 15) }, kind: StatementKind::StorageLive };
    let dead = Statement { source_info: SourceInfo { span: span(10, 15) }, kind: StatementKind::StorageDead };
    let mut body = Body {
        basic_blocks: vec![
            block(vec![live], TerminatorKind::Goto { target: 1 }, span(45, 46)),
            block(vec![dead], TerminatorKind::Call { target: None }, span(47, 48)),
        ],
        function_coverage_info: None,
    };
    let before = body.clone();
    let res = pass().run_pass(&function(), &item(), &source_map(), &mut body);
    assert_eq!(res, Err(SkipReason::NoSpans));
    assert_eq!(body, before);
}

#[test]
fn function_whose_spans_have_no_region_is_skipped() {
    let mut body = diamond();
    let nowhere = SourceMap { files: vec![] };
    let res = pass().run_pass(&function(), &item(), &nowhere, &mut body);
    assert_eq!(res, Err(SkipReason::NoMappings));
    assert_eq!(body, diamond());
}

#[test]
fn span_without_a_region_drops_one_mapping_only() {
    // The second file begins in the middle of the span of the else arm.
    let mut files = source_map();
    files.files[0].end_pos = 32;
    files.files.push(SourceFile {
        name: "other.rs".to_string(),
        doctest_offset: None,
        src: None,
        start_pos: 33,
        end_pos: 50,
        lines: vec![0],
    });
    let mut body = diamond();
    assert_eq!(pass().run_pass(&function(), &item(), &files, &mut body), Ok(()));
    let info = body.function_coverage_info.unwrap();
    assert_eq!(
        info.mappings,
        vec![
            code(CovTerm::Counter(0), 11, 16),
            code(CovTerm::Counter(1), 21, 26),
            code(CovTerm::Expression(1), 8, 9),
            code(CovTerm::Counter(0), 1, 6),
        ]
    );
}

#[test]
fn statement_goes_before_the_others_with_the_span_of_the_terminator() {
    let mut body = diamond();
    inject_statement(&mut body, CoverageKind::ExpressionUsed { id: 4 }, 1);
    inject_statement(&mut body, CoverageKind::CounterIncrement { id: 9 }, 1);
    assert_eq!(
        body.basic_blocks[1].statements,
        vec![
            marker(span(25, 26), CoverageKind::CounterIncrement { id: 9 }),
            marker(span(25, 26), CoverageKind::ExpressionUsed { id: 4 }),
            assign(20, 25),
        ]
    );
    let mut expected = diamond();
    expected.basic_blocks[1].statements = body.basic_blocks[1].statements.clone();
    assert_eq!(body, expected);
}

#[test]
fn edge_block_takes_over_the_first_slot_to_the_target() {
    let mut body = Body {
        basic_blocks: vec![
            block(vec![assign(1, 2)], TerminatorKind::SwitchInt { targets: vec![1, 2, 2] }, span(3, 8)),
            block(vec![], TerminatorKind::Call { target: Some(2) }, span(9, 12)),
            block(vec![], TerminatorKind::Return, span(13, 14)),
        ],
        function_coverage_info: None,
    };
    assert_eq!(first_successor_slot(&body.basic_blocks[0].terminator.kind, 2), Some(1));
    assert_eq!(first_successor_slot(&body.basic_blocks[0].terminator.kind, 0), None);
    let new_bb = inject_edge_counter_basic_block(&mut body, 0, 2);
    assert_eq!(new_bb, 3);
    let call_bb = inject_edge_counter_basic_block(&mut body, 1, 2);
    assert_eq!(call_bb, 4);
    assert_eq!(
        body.basic_blocks,
        vec![
            block(vec![assign(1, 2)], TerminatorKind::SwitchInt { targets: vec![1, 3, 2] }, span(3, 8)),
            block(vec![], TerminatorKind::Call { target: Some(4) }, span(9, 12)),
            block(vec![], TerminatorKind::Return, span(13, 14)),
            block(vec![], TerminatorKind::Goto { target: 2 }, span(8, 8)),
            block(vec![], TerminatorKind::Goto { target: 2 }, span(12, 12)),
        ]
    );
    assert!(body.is_well_formed());
}

#[test]
fn edge_counters_get_blocks_of_their_own() {
    // 0 branches to 1 and 2, and each of them branches to 3 and 4.
    let mut body = Body {
        basic_blocks: vec![
            block(vec![assign(6, 7)], TerminatorKind::SwitchInt { targets: vec![1, 2] }, span(7, 8)),
            block(vec![assign(10, 11)], TerminatorKind::SwitchInt { targets: vec![3, 4] }, span(11, 12)),
            block(vec![assign(14, 15)], TerminatorKind::SwitchInt { targets: vec![3, 4] }, span(15, 16)),
            block(vec![assign(20, 21)], TerminatorKind::Return, span(22, 23)),
            block(vec![assign(30, 31)], TerminatorKind::Return, span(32, 33)),
        ],
        function_coverage_info: None,
    };
    assert_eq!(pass().run_pass(&function(), &item(), &source_map(), &mut body), Ok(()));
    let info = body.function_coverage_info.clone().unwrap();
    assert_eq!(info.num_counters, 4);
    assert_eq!(info.expressions.len(), 5);
    assert_eq!(body.basic_blocks.len(), 7);
    assert_eq!(body.basic_blocks[1].terminator.kind, TerminatorKind::SwitchInt { targets: vec![5, 4] });
    assert_eq!(body.basic_blocks[2].terminator.kind, TerminatorKind::SwitchInt { targets: vec![6, 4] });
    assert_eq!(
        body.basic_blocks[5],
        block(
            vec![marker(span(12, 12), CoverageKind::CounterIncrement { id: 2 })],
            TerminatorKind::Goto { target: 3 },
            span(12, 12)
        )
    );
    assert_eq!(
        body.basic_blocks[6],
        block(
            vec![marker(span(16, 16), CoverageKind::CounterIncrement { id: 3 })],
            TerminatorKind::Goto { target: 3 },
            span(16, 16)
        )
    );
    assert_eq!(
        body.basic_blocks[3].statements,
        vec![marker(span(22, 23), CoverageKind::ExpressionUsed { id: 3 }), assign(20, 21)]
    );
    assert!(body.is_well_formed());
}

#[test]
fn expression_without_a_span_gets_no_marker() {
    // The arms have no spans of their own; the merge point makes them
    // counted all the same.
    let mut body = diamond();
    body.basic_blocks[0].statements.clear();
    body.basic_blocks[2].statements.clear();
    body.basic_blocks[1].statements.clear();
    let graph = CoverageGraph::from_mir(&body);
    let hir = ExtractedHirInfo { function_source_hash: 1, is_async_fn: true, fn_sig_span: span(0, 4), body_span: span(5, 41) };
    let spans = CoverageSpans::generate_coverage_spans(&body, &hir, &graph).unwrap();
    assert_eq!(spans.bcb_has_mappings, vec![true, false, false, false]);
    let counters = CoverageCounters::make_bcb_counters(&graph, &vec![true, false, true, false], 8);
    assert_eq!(counters.bcb_counter(2), Some(BcbCounter::Expression { id: 0 }));
    let instrumentor = Instrumentor { hir_info: hir, basic_coverage_blocks: graph };
    instrumentor.inject_coverage_statements(&mut body, &spans, &counters);
    assert_eq!(
        body.basic_blocks[0].statements,
        vec![marker(span(10, 15), CoverageKind::CounterIncrement { id: 0 })]
    );
    assert_eq!(
        body.basic_blocks[1].statements,
        vec![marker(span(25, 26), CoverageKind::CounterIncrement { id: 1 })]
    );
    assert!(body.basic_blocks[2].statements.is_empty());
    assert_eq!(
        instrumentor.make_mir_coverage_kind(&BcbCounter::Expression { id: 3 }),
        CoverageKind::ExpressionUsed { id: 3 }
    );
    assert_eq!(
        instrumentor.make_mir_coverage_kind(&BcbCounter::Counter { id: 2 }),
        CoverageKind::CounterIncrement { id: 2 }
    );
}

#[test]
fn signature_span_runs_up_to_the_body() {
    let map = source_map();
    let info = extract_hir_info(&map, &item());
    assert_eq!(
        info,
        ExtractedHirInfo { function_source_hash: 0xfeed, is_async_fn: false, fn_sig_span: span(0, 5), body_span: span(5, 41) }
    );
    // A signature that ends after the start of the body is not used.
    let mut late = item();
    late.fn_sig = Some(FnSig { span: span(0, 9), is_async: true });
    let info = extract_hir_info(&map, &late);
    assert_eq!(info.fn_sig_span, span(5, 5));
    assert!(info.is_async_fn);
    // Nor is one from another expansion, or from another file.
    let mut expanded = item();
    expanded.fn_sig = Some(FnSig { span: Span { lo: 0, hi: 4, ctxt: 3 }, is_async: false });
    assert_eq!(extract_hir_info(&map, &expanded).fn_sig_span, span(5, 5));
    let mut two_files = source_map();
    two_files.files[0].end_pos = 2;
    two_files.files.push(SourceFile {
        name: "other.rs".to_string(),
        doctest_offset: None,
        src: None,
        start_pos: 3,
        end_pos: 50,
        lines: vec![0],
    });
    assert_eq!(extract_hir_info(&two_files, &item()).fn_sig_span, span(5, 5));
    // A closure has no signature, and its body is where it was written.
    let closure = FnItem {
        fn_sig: None,
        body_span: Span { lo: 20, hi: 30, ctxt: 5 },
        body_callsite: span(21, 29),
        is_closure_or_coroutine: true,
        source_hash: 3,
    };
    assert_eq!(get_body_span(&closure), span(21, 29));
    assert_eq!(
        extract_hir_info(&map, &closure),
        ExtractedHirInfo { function_source_hash: 3, is_async_fn: false, fn_sig_span: span(21, 21), body_span: span(21, 29) }
    );
    assert_eq!(START_BLOCK, 0);
}

#[test]
fn stages_can_be_run_one_by_one() {
    let mut body = diamond();
    let map = source_map();
    let instrumentor = Instrumentor::new(&map, &item(), &body);
    assert_eq!(instrumentor.hir_info, extract_hir_info(&map, &item()));
    assert_eq!(instrumentor.basic_coverage_blocks, CoverageGraph::from_mir(&body));
    let spans =
        CoverageSpans::generate_coverage_spans(&body, &instrumentor.hir_info, &instrumentor.basic_coverage_blocks)
            .unwrap();
    let counters =
        CoverageCounters::make_bcb_counters(&instrumentor.basic_coverage_blocks, &spans.bcb_has_mappings, 8);
    let mappings = instrumentor.create_mappings(&map, &spans, &counters);
    assert_eq!(
        mappings,
        vec![
            code(CovTerm::Counter(0), 11, 16),
            code(CovTerm::Counter(1), 21, 26),
            code(CovTerm::Expression(0), 31, 36),
            code(CovTerm::Expression(1), 41, 42),
            code(CovTerm::Counter(0), 1, 6),
        ]
    );
    assert_eq!(instrumentor.inject_counters(&map, &mut body, 8), Ok(()));
    let mut whole = diamond();
    assert_eq!(pass().run_pass(&function(), &item(), &map, &mut whole), Ok(()));
    assert_eq!(body, whole);
}

#[test]
fn depth_of_derivation_is_a_setting_of_the_pass() {
    let looping = || Body {
        basic_blocks: vec![
            block(vec![assign(6, 7)], TerminatorKind::Goto { target: 1 }, span(7, 8)),
            block(vec![assign(10, 11)], TerminatorKind::SwitchInt { targets: vec![2, 3] }, span(11, 12)),
            block(vec![assign(14, 15)], TerminatorKind::Goto { target: 1 }, span(15, 16)),
            block(vec![assign(20, 21)], TerminatorKind::Return, span(22, 23)),
        ],
        function_coverage_info: None,
    };
    let mut derived = looping();
    assert_eq!(pass().run_pass(&function(), &item(), &source_map(), &mut derived), Ok(()));
    assert_eq!(derived.function_coverage_info.unwrap().num_counters, 2);
    let mut measured = looping();
    let shallow = InstrumentCoverage { max_derivation_depth: 0 };
    assert_eq!(shallow.run_pass(&function(), &item(), &source_map(), &mut measured), Ok(()));
    assert_eq!(measured.function_coverage_info.unwrap().num_counters, 3);
}
