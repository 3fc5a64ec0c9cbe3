use instrument_coverage::counters::{BcbCounter, CounterSite, CoverageCounters};
use instrument_coverage::graph::CoverageGraph;
use instrument_coverage::mir::{
    BasicBlockData, Body, CovTerm, Expression, Op, SourceInfo, Terminator, TerminatorKind,
};
use instrument_coverage::span::Span;

fn block(kind: TerminatorKind) -> BasicBlockData {
    BasicBlockData {
        statements: vec![],
        terminator: Terminator { source_info: SourceInfo { span: Span { lo: 0, hi: 0, ctxt: 0 } }, kind },
        is_cleanup: false,
    }
}

fn graph_of(kinds: Vec<TerminatorKind>) -> CoverageGraph {
    let body = Body { basic_blocks: kinds.into_iter().map(block).collect(), function_coverage_info: None };
    assert!(body.is_well_formed());
    CoverageGraph::from_mir(&body)
}

fn goto(target: usize) -> TerminatorKind {
    TerminatorKind::Goto { target }
}

fn switch(targets: Vec<usize>) -> TerminatorKind {
    TerminatorKind::SwitchInt { targets }
}

fn counter(id: usize) -> Option<BcbCounter> {
    Some(BcbCounter::Counter { id })
}

fn expression(id: usize) -> Option<BcbCounter> {
    Some(BcbCounter::Expression { id })
}

fn expr(id: usize, lhs: CovTerm, op: Op, rhs: CovTerm) -> Expression {
    Expression { id, lhs, op, rhs }
}

fn no_edge_terms(counters: &CoverageCounters) -> bool {
    counters.bcb_edge_counters.iter().all(|row| row.iter().all(|term| term.is_none()))
}

fn diamond() -> CoverageGraph {
    graph_of(vec![switch(vec![1, 2]), goto(3), goto(3), TerminatorKind::Return])
}

/// Every operand of every expression is a counter that exists or an
/// expression that comes earlier, and so is every assigned term.
fn terms_are_defined(counters: &CoverageCounters) -> bool {
    let defined = |term: CovTerm, limit: usize| match term {
        CovTerm::Counter(id) => id < counters.counter_sites.len(),
        CovTerm::Expression(id) => id < limit,
    };
    let all = counters.expressions.len();
    counters.expressions.iter().enumerate().all(|(i, e)| e.id == i && defined(e.lhs, i) && defined(e.rhs, i))
        && counters.bcb_counters.iter().flatten().all(|term| defined(term.as_term(), all))
        && counters.bcb_edge_counters.iter().flatten().flatten().all(|term| defined(term.as_term(), all))
}

#[test]
fn simple_branch_counts_the_entry_and_one_arm() {
    // if/else without a loop; the entry and both arms carry spans.
    let g = diamond();
    let counters = CoverageCounters::make_bcb_counters(&g, &vec![true, true, true, false], 8);
    assert_eq!(counters.bcb_counters, vec![counter(0), counter(1), expression(0), None]);
    assert_eq!(
        counters.counter_sites,
        vec![CounterSite::Node { bcb: 0 }, CounterSite::Node { bcb: 1 }]
    );
    // The other arm is the entry count less the count of the first arm.
    assert_eq!(
        counters.expressions,
        vec![expr(0, CovTerm::Counter(0), Op::Subtract, CovTerm::Counter(1))]
    );
    assert!(no_edge_terms(&counters));
    assert_eq!(counters.num_counters(), 2);
    assert_eq!(counters.bcb_counter(2), expression(0));
    assert!(terms_are_defined(&counters));
}

#[test]
fn merge_point_is_the_sum_of_its_arms() {
    let g = diamond();
    let counters = CoverageCounters::make_bcb_counters(&g, &vec![true, true, true, true], 8);
    assert_eq!(counters.bcb_counters, vec![counter(0), counter(1), expression(0), expression(1)]);
    assert_eq!(
        counters.expressions,
        vec![
            expr(0, CovTerm::Counter(0), Op::Subtract, CovTerm::Counter(1)),
            expr(1, CovTerm::Counter(1), Op::Add, CovTerm::Expression(0)),
        ]
    );
    assert_eq!(counters.num_counters(), 2);
    assert!(no_edge_terms(&counters));
    assert_eq!(counters.into_expressions().len(), 2);
}

#[test]
fn only_nodes_with_spans_and_what_they_need_get_terms() {
    let g = diamond();
    let counters = CoverageCounters::make_bcb_counters(&g, &vec![false, false, false, true], 8);
    // The merge point is the sum of its arms, each counted by a counter.
    assert_eq!(counters.bcb_counters, vec![None, counter(0), counter(1), expression(0)]);
    assert_eq!(
        counters.expressions,
        vec![expr(0, CovTerm::Counter(0), Op::Add, CovTerm::Counter(1))]
    );
    let none = CoverageCounters::make_bcb_counters(&g, &vec![false, false, false, false], 8);
    assert_eq!(none.bcb_counters, vec![None, None, None, None]);
    assert_eq!(none.num_counters(), 0);
    assert!(none.expressions.is_empty());
}

#[test]
fn loop_head_is_the_sum_of_entry_and_back_edge() {
    let g = graph_of(vec![goto(1), switch(vec![2, 3]), goto(1), TerminatorKind::Return]);
    let counters = CoverageCounters::make_bcb_counters(&g, &vec![true, true, true, true], 8);
    assert_eq!(
        counters.counter_sites,
        vec![CounterSite::Node { bcb: 0 }, CounterSite::Node { bcb: 2 }]
    );
    assert_eq!(counters.bcb_counters, vec![counter(0), expression(0), counter(1), expression(1)]);
    assert_eq!(
        counters.expressions,
        vec![
            expr(0, CovTerm::Counter(0), Op::Add, CovTerm::Counter(1)),
            expr(1, CovTerm::Expression(0), Op::Subtract, CovTerm::Counter(1)),
        ]
    );
    assert!(no_edge_terms(&counters));
    assert!(terms_are_defined(&counters));
}

#[test]
fn depth_zero_measures_instead_of_deriving() {
    let g = graph_of(vec![goto(1), switch(vec![2, 3]), goto(1), TerminatorKind::Return]);
    let counters = CoverageCounters::make_bcb_counters(&g, &vec![true, true, true, true], 0);
    assert_eq!(
        counters.counter_sites,
        vec![CounterSite::Node { bcb: 0 }, CounterSite::Node { bcb: 1 }, CounterSite::Node { bcb: 2 }]
    );
    assert_eq!(counters.bcb_counters, vec![counter(0), counter(1), counter(2), expression(0)]);
    assert_eq!(
        counters.expressions,
        vec![expr(0, CovTerm::Counter(1), Op::Subtract, CovTerm::Counter(2))]
    );
}

#[test]
fn branch_past_a_block_gets_an_expression_on_its_edge() {
    // if without else: 0 -> 1 -> 2 and 0 -> 2.
    let g = graph_of(vec![switch(vec![1, 2]), goto(2), TerminatorKind::Return]);
    assert_eq!(g.successors, vec![vec![1, 2], vec![2], vec![]]);
    let counters = CoverageCounters::make_bcb_counters(&g, &vec![true, true, true], 8);
    assert_eq!(counters.bcb_counters, vec![counter(0), counter(1), expression(1)]);
    assert_eq!(
        counters.bcb_edge_counters,
        vec![vec![None, expression(0)], vec![None], vec![]]
    );
    assert_eq!(
        counters.expressions,
        vec![
            expr(0, CovTerm::Counter(0), Op::Subtract, CovTerm::Counter(1)),
            expr(1, CovTerm::Expression(0), Op::Add, CovTerm::Counter(1)),
        ]
    );
    assert_eq!(counters.num_counters(), 2);
}

#[test]
fn edges_between_branches_and_merges_get_counters_of_their_own() {
    // 0 branches to 1 and 2, and each of them branches to 3 and 4.
    let g = graph_of(vec![
        switch(vec![1, 2]),
        switch(vec![3, 4]),
        switch(vec![3, 4]),
        TerminatorKind::Return,
        TerminatorKind::Return,
    ]);
    let counters = CoverageCounters::make_bcb_counters(&g, &vec![true; 5], 8);
    assert_eq!(
        counters.counter_sites,
        vec![
            CounterSite::Node { bcb: 0 },
            CounterSite::Node { bcb: 1 },
            CounterSite::Edge { from_bcb: 1, successor: 0 },
            CounterSite::Edge { from_bcb: 2, successor: 0 },
        ]
    );
    assert_eq!(
        counters.bcb_counters,
        vec![counter(0), counter(1), expression(0), expression(3), expression(4)]
    );
    assert_eq!(
        counters.bcb_edge_counters,
        vec![
            vec![None, None],
            vec![counter(2), expression(1)],
            vec![counter(3), expression(2)],
            vec![],
            vec![],
        ]
    );
    assert_eq!(
        counters.expressions,
        vec![
            expr(0, CovTerm::Counter(0), Op::Subtract, CovTerm::Counter(1)),
            expr(1, CovTerm::Counter(1), Op::Subtract, CovTerm::Counter(2)),
            expr(2, CovTerm::Expression(0), Op::Subtract, CovTerm::Counter(3)),
            expr(3, CovTerm::Counter(2), Op::Add, CovTerm::Counter(3)),
            expr(4, CovTerm::Expression(1), Op::Add, CovTerm::Expression(2)),
        ]
    );
    assert!(terms_are_defined(&counters));
}

#[test]
fn node_that_is_its_own_predecessor_is_measured() {
    let g = graph_of(vec![goto(1), switch(vec![1, 2]), TerminatorKind::Return]);
    assert_eq!(g.predecessors, vec![vec![], vec![0, 1], vec![1]]);
    let counters = CoverageCounters::make_bcb_counters(&g, &vec![false, true, false], 8);
    assert_eq!(counters.bcb_counters[1], counter(0));
    assert_eq!(counters.counter_sites[0], CounterSite::Node { bcb: 1 });
}

#[test]
fn derivation_that_comes_back_to_its_start_falls_back_to_a_counter() {
    // Two nodes that are each other's only way on, each entered from
    // outside as well: 0 branches to 1 and 2, 1 goes to 2, 2 goes to 1.
    let g = graph_of(vec![switch(vec![1, 2]), goto(2), goto(1)]);
    assert_eq!(g.predecessors, vec![vec![], vec![0, 2], vec![0, 1]]);
    let counters = CoverageCounters::make_bcb_counters(&g, &vec![false, true, false], 8);
    assert!(counters.bcb_counters[1].is_some());
    assert!(counters.bcb_counters[2].is_some());
    assert!(terms_are_defined(&counters));
    // Each physical counter stands at the site that the list names for it.
    for (id, site) in counters.counter_sites.iter().enumerate() {
        match *site {
            CounterSite::Node { bcb } => assert_eq!(counters.bcb_counters[bcb], counter(id)),
            CounterSite::Edge { from_bcb, successor } => {
                assert_eq!(counters.bcb_edge_counters[from_bcb][successor], counter(id))
            }
        }
    }
    let again = CoverageCounters::make_bcb_counters(&g, &vec![false, true, false], 8);
    assert_eq!(again, counters);
}

#[test]
fn terms_as_they_stand_in_expressions() {
    assert_eq!(BcbCounter::Counter { id: 3 }.as_term(), CovTerm::Counter(3));
    assert_eq!(BcbCounter::Expression { id: 5 }.as_term(), CovTerm::Expression(5));
}

/// The value of a term under given readings of the physical counters.
fn value(counters: &CoverageCounters, readings: &[i64], term: CovTerm) -> i64 {
    match term {
        CovTerm::Counter(id) => readings[id],
        CovTerm::Expression(id) => {
            let e = counters.expressions[id];
            let lhs = value(counters, readings, e.lhs);
            let rhs = value(counters, readings, e.rhs);
            match e.op {
                Op::Add => lhs + rhs,
                Op::Subtract => lhs - rhs,
            }
        }
    }
}

/// Checks that under the given counts of nodes and edges every assigned
/// term has the count of its node or edge as its value, where a physical
/// counter reads the count of its site.
fn recovers(counters: &CoverageCounters, nodes: &[i64], edges: &[Vec<i64>]) {
    let readings: Vec<i64> = counters
        .counter_sites
        .iter()
        .map(|site| match *site {
            CounterSite::Node { bcb } => nodes[bcb],
            CounterSite::Edge { from_bcb, successor } => edges[from_bcb][successor],
        })
        .collect();
    for (bcb, term) in counters.bcb_counters.iter().enumerate() {
        if let Some(term) = term {
            assert_eq!(value(counters, &readings, term.as_term()), nodes[bcb]);
        }
    }
    for (from, row) in counters.bcb_edge_counters.iter().enumerate() {
        for (i, term) in row.iter().enumerate() {
            if let Some(term) = term {
                assert_eq!(value(counters, &readings, term.as_term()), edges[from][i]);
            }
        }
    }
}

#[test]
fn counts_are_recovered_from_the_counters() {
    let g = diamond();
    let counters = CoverageCounters::make_bcb_counters(&g, &vec![true; 4], 8);
    recovers(&counters, &[5, 3, 2, 5], &[vec![3, 2], vec![3], vec![2], vec![]]);

    let g = graph_of(vec![goto(1), switch(vec![2, 3]), goto(1), TerminatorKind::Return]);
    for depth in [0, 1, 8] {
        let counters = CoverageCounters::make_bcb_counters(&g, &vec![true; 4], depth);
        // One entry, three rounds of the loop.
        recovers(&counters, &[1, 4, 3, 1], &[vec![1], vec![3, 1], vec![3], vec![]]);
    }

    let g = graph_of(vec![
        switch(vec![1, 2]),
        switch(vec![3, 4]),
        switch(vec![3, 4]),
        TerminatorKind::Return,
        TerminatorKind::Return,
    ]);
    let counters = CoverageCounters::make_bcb_counters(&g, &vec![true; 5], 8);
    recovers(&counters, &[10, 6, 4, 4, 6], &[vec![6, 4], vec![1, 5], vec![3, 1], vec![], vec![]]);

    // Two nodes that lead to each other and nowhere else: what goes round
    // between them never came from the entry node.
    let g = graph_of(vec![switch(vec![1, 2]), goto(2), goto(1)]);
    for spans in [vec![false, true, false], vec![true, true, true], vec![false, false, true]] {
        let counters = CoverageCounters::make_bcb_counters(&g, &spans, 8);
        recovers(&counters, &[0, 7, 7], &[vec![0, 0], vec![7], vec![7]]);
    }
}
