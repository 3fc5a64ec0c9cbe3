//! The assignment of counting terms to the nodes and edges of a coverage
//! graph: a physical counter where a count has to be measured, an expression
//! over other terms where it follows from them.

use crate::flow::{
    counts_edge, counts_incoming, counts_node, counts_other_branches, counts_slot, edge_count,
    incoming, is_flow, is_sound, lemma_index_of, lemma_only_way_in, lemma_only_way_out,
    lemma_outgoing_split, lemma_sound_with_edge_counter, lemma_sound_with_edge_term,
    lemma_sound_with_expression, lemma_sound_with_node_counter, lemma_sound_with_node_term,
    lemma_value_stable, outgoing, outgoing_except, value, Profile,
};
use crate::graph::{vec_contains, CoverageGraph};
use crate::mir::{CovTerm, Expression, Op};
use vstd::prelude::*;

verus! {

/// The term that counts a node or an edge.
#[derive(Clone, Copy, Debug, PartialEq, Eq, Structural)]
pub enum BcbCounter {
    Counter { id: usize },
    Expression { id: usize },
}

/// The place at which a physical counter is incremented: a node, or the edge
/// from a node to the successor at a position of its successor list.
#[derive(Clone, Copy, Debug, PartialEq, Eq, Structural)]
pub enum CounterSite {
    Node { bcb: usize },
    Edge { from_bcb: usize, successor: usize },
}

impl BcbCounter {
    /// The term as it stands in expressions and mappings.
    #[verifier::allow_in_spec]
    pub fn as_term(&self) -> CovTerm
        returns
            (match self {
                BcbCounter::Counter { id } => CovTerm::Counter(*id),
                BcbCounter::Expression { id } => CovTerm::Expression(*id),
            }),
    {
        match self {
            BcbCounter::Counter { id } => CovTerm::Counter(*id),
            BcbCounter::Expression { id } => CovTerm::Expression(*id),
        }
    }
}

/// Whether `term` names one of the first `counters` counters or one of the
/// first `expressions` expressions.
pub open spec fn term_defined(term: CovTerm, counters: nat, expressions: nat) -> bool {
    match term {
        CovTerm::Counter(id) => id < counters,
        CovTerm::Expression(id) => id < expressions,
    }
}

/// The edges of a coverage graph.
pub struct Edges {
    pub successors: Seq<Seq<usize>>,
    pub predecessors: Seq<Seq<usize>>,
}

/// The terms assigned so far, as plain values.
pub struct CountersView {
    /// Where each physical counter is incremented.
    pub sites: Seq<CounterSite>,
    /// The term of each node that has one.
    pub node_terms: Seq<Option<BcbCounter>>,
    /// For each node, the term of the edge to each of its successors.
    pub edge_terms: Seq<Seq<Option<BcbCounter>>>,
    /// The expressions, each over terms that come before it.
    pub expressions: Seq<Expression>,
}

impl CountersView {
    /// Nothing assigned yet, for a graph with the successor lists `successors`.
    pub open spec fn empty(successors: Seq<Seq<usize>>) -> CountersView {
        CountersView {
            sites: Seq::empty(),
            node_terms: Seq::new(successors.len(), |k: int| None),
            edge_terms: Seq::new(
                successors.len(),
                |k: int| Seq::new(successors[k].len(), |i: int| None),
            ),
            expressions: Seq::empty(),
        }
    }

    /// The term that the next physical counter gets.
    pub open spec fn next_counter(self) -> BcbCounter {
        BcbCounter::Counter { id: self.sites.len() as usize }
    }

    /// The term that the next expression gets.
    pub open spec fn next_expression(self) -> BcbCounter {
        BcbCounter::Expression { id: self.expressions.len() as usize }
    }

    /// A new physical counter on node `bcb`.
    pub open spec fn with_node_counter(self, bcb: usize) -> CountersView {
        CountersView {
            sites: self.sites.push(CounterSite::Node { bcb }),
            node_terms: self.node_terms.update(bcb as int, Some(self.next_counter())),
            ..self
        }
    }

    /// A new physical counter on the edge from `from_bcb` to its successor
    /// at position `successor`.
    pub open spec fn with_edge_counter(self, from_bcb: usize, successor: usize) -> CountersView {
        CountersView {
            sites: self.sites.push(CounterSite::Edge { from_bcb, successor }),
            edge_terms: self.edge_terms.update(
                from_bcb as int,
                self.edge_terms[from_bcb as int].update(
                    successor as int,
                    Some(self.next_counter()),
                ),
            ),
            ..self
        }
    }

    /// A new expression.
    pub open spec fn with_expression(self, lhs: BcbCounter, op: Op, rhs: BcbCounter) -> CountersView {
        CountersView {
            expressions: self.expressions.push(
                Expression {
                    id: self.expressions.len() as usize,
                    lhs: lhs.as_term(),
                    op,
                    rhs: rhs.as_term(),
                },
            ),
            ..self
        }
    }

    /// Node `bcb` counted by `term`.
    pub open spec fn with_node_term(self, bcb: usize, term: BcbCounter) -> CountersView {
        CountersView { node_terms: self.node_terms.update(bcb as int, Some(term)), ..self }
    }

    /// The edge from `from_bcb` to its successor at position `successor`
    /// counted by `term`.
    pub open spec fn with_edge_term(
        self,
        from_bcb: usize,
        successor: usize,
        term: BcbCounter,
    ) -> CountersView {
        CountersView {
            edge_terms: self.edge_terms.update(
                from_bcb as int,
                self.edge_terms[from_bcb as int].update(successor as int, Some(term)),
            ),
            ..self
        }
    }

    /// Whether `term` names a counter or an expression that exists.
    pub open spec fn defines(self, term: BcbCounter) -> bool {
        term_defined(term.as_term(), self.sites.len(), self.expressions.len())
    }

    /// There is a place for the term of every node and of every edge.
    pub open spec fn shaped_like(self, successors: Seq<Seq<usize>>) -> bool {
        &&& self.node_terms.len() == successors.len()
        &&& self.edge_terms.len() == successors.len()
        &&& forall|k: int|
            0 <= k < successors.len() ==> (#[trigger] self.edge_terms[k]).len()
                == successors[k].len()
    }

    /// Every assigned term exists.
    pub open spec fn terms_defined(self) -> bool {
        &&& forall|k: int|
            0 <= k < self.node_terms.len() ==> (#[trigger] self.node_terms[k] matches Some(term)
                ==> self.defines(term))
        &&& forall|k: int, i: int|
            0 <= k < self.edge_terms.len() && 0 <= i < self.edge_terms[k].len() ==> (
            #[trigger] self.edge_terms[k][i] matches Some(term) ==> self.defines(term))
    }

    /// Every expression has its place in the list as its id, and is over
    /// counters that exist and expressions that come before it.
    pub open spec fn expressions_ordered(self) -> bool {
        forall|i: int|
            0 <= i < self.expressions.len() ==> (#[trigger] self.expressions[i]).id == i
                && term_defined(self.expressions[i].lhs, self.sites.len(), i as nat)
                && term_defined(self.expressions[i].rhs, self.sites.len(), i as nat)
    }

    /// Every physical counter counts exactly the node or edge of its site.
    pub open spec fn sites_match(self) -> bool {
        &&& forall|c: int|
            0 <= c < self.sites.len() ==> match #[trigger] self.sites[c] {
                CounterSite::Node { bcb } => bcb < self.node_terms.len()
                    && self.node_terms[bcb as int] == Some(BcbCounter::Counter { id: c as usize }),
                CounterSite::Edge { from_bcb, successor } => from_bcb < self.edge_terms.len()
                    && successor < self.edge_terms[from_bcb as int].len()
                    && self.edge_terms[from_bcb as int][successor as int] == Some(
                    BcbCounter::Counter { id: c as usize },
                ),
            }
        &&& forall|k: int|
            0 <= k < self.node_terms.len() ==> (#[trigger] self.node_terms[k] matches Some(
                BcbCounter::Counter { id },
            ) ==> id < self.sites.len() && self.sites[id as int] == CounterSite::Node {
                bcb: k as usize,
            })
        &&& forall|k: int, i: int|
            0 <= k < self.edge_terms.len() && 0 <= i < self.edge_terms[k].len() ==> (
            #[trigger] self.edge_terms[k][i] matches Some(BcbCounter::Counter { id }) ==> id
                < self.sites.len() && self.sites[id as int] == CounterSite::Edge {
                from_bcb: k as usize,
                successor: i as usize,
            })
    }

    /// The assignment fits the graph and itself.
    pub open spec fn well_formed(self, successors: Seq<Seq<usize>>) -> bool {
        &&& self.shaped_like(successors)
        &&& self.terms_defined()
        &&& self.expressions_ordered()
        &&& self.sites_match()
    }

    /// Everything that `before` holds is still there, unchanged.
    pub open spec fn extends(self, before: CountersView) -> bool {
        &&& before.sites.is_prefix_of(self.sites)
        &&& before.expressions.is_prefix_of(self.expressions)
        &&& self.node_terms.len() == before.node_terms.len()
        &&& self.edge_terms.len() == before.edge_terms.len()
        &&& forall|k: int|
            0 <= k < before.node_terms.len() && (#[trigger] before.node_terms[k]) is Some
                ==> self.node_terms[k] == before.node_terms[k]
        &&& forall|k: int|
            0 <= k < before.edge_terms.len() ==> (#[trigger] self.edge_terms[k]).len()
                == before.edge_terms[k].len()
        &&& forall|k: int, i: int|
            0 <= k < before.edge_terms.len() && 0 <= i < before.edge_terms[k].len() && (
            #[trigger] before.edge_terms[k][i]) is Some ==> self.edge_terms[k][i]
                == before.edge_terms[k][i]
    }
}

/// Extending is transitive, and a term that exists keeps existing.
pub(crate) proof fn lemma_extends_trans(a: CountersView, b: CountersView, c: CountersView)
    requires
        b.extends(a),
        c.extends(b),
    ensures
        c.extends(a),
        forall|term: BcbCounter| a.defines(term) ==> #[trigger] b.defines(term),
{
}

pub(crate) proof fn lemma_with_node_counter(st: CountersView, successors: Seq<Seq<usize>>, bcb: usize)
    requires
        st.well_formed(successors),
        st.sites.len() <= usize::MAX,
        bcb < st.node_terms.len(),
        st.node_terms[bcb as int] is None,
    ensures
        st.with_node_counter(bcb).well_formed(successors),
        st.with_node_counter(bcb).extends(st),
        st.with_node_counter(bcb).defines(st.next_counter()),
{
    let after = st.with_node_counter(bcb);
    assert forall|k: int, i: int|
        0 <= k < after.edge_terms.len() && 0 <= i < after.edge_terms[k].len() implies (
    #[trigger] after.edge_terms[k][i] matches Some(term) ==> after.defines(term)) by {
        if st.edge_terms[k][i] is Some {
            assert(st.defines(st.edge_terms[k][i]->0));
        }
    }
}

pub(crate) proof fn lemma_with_edge_counter(
    st: CountersView,
    successors: Seq<Seq<usize>>,
    from_bcb: usize,
    successor: usize,
)
    requires
        st.well_formed(successors),
        st.sites.len() <= usize::MAX,
        from_bcb < st.edge_terms.len(),
        successor < st.edge_terms[from_bcb as int].len(),
        st.edge_terms[from_bcb as int][successor as int] is None,
    ensures
        st.with_edge_counter(from_bcb, successor).well_formed(successors),
        st.with_edge_counter(from_bcb, successor).extends(st),
        st.with_edge_counter(from_bcb, successor).defines(st.next_counter()),
{
    let after = st.with_edge_counter(from_bcb, successor);
    assert forall|k: int, i: int|
        0 <= k < after.edge_terms.len() && 0 <= i < after.edge_terms[k].len() implies (
    #[trigger] after.edge_terms[k][i] matches Some(term) ==> after.defines(term)) by {
        if !(k == from_bcb && i == successor) {
            assert(after.edge_terms[k][i] == st.edge_terms[k][i]);
            if st.edge_terms[k][i] is Some {
                assert(st.defines(st.edge_terms[k][i]->0));
            }
        }
    }
    assert forall|k: int, i: int|
        0 <= k < after.edge_terms.len() && 0 <= i < after.edge_terms[k].len() implies (
    #[trigger] after.edge_terms[k][i] matches Some(BcbCounter::Counter { id }) ==> id
        < after.sites.len() && after.sites[id as int] == CounterSite::Edge {
        from_bcb: k as usize,
        successor: i as usize,
    }) by {
        if !(k == from_bcb && i == successor) {
            assert(after.edge_terms[k][i] == st.edge_terms[k][i]);
        }
    }
    assert forall|c: int| 0 <= c < after.sites.len() implies match #[trigger] after.sites[c] {
        CounterSite::Node { bcb } => bcb < after.node_terms.len() && after.node_terms[bcb as int]
            == Some(BcbCounter::Counter { id: c as usize }),
        CounterSite::Edge { from_bcb, successor } => from_bcb < after.edge_terms.len()
            && successor < after.edge_terms[from_bcb as int].len()
            && after.edge_terms[from_bcb as int][successor as int] == Some(
            BcbCounter::Counter { id: c as usize },
        ),
    } by {
        if c < st.sites.len() {
            assert(after.sites[c] == st.sites[c]);
        }
    }
    assert forall|k: int|
        0 <= k < st.edge_terms.len() implies (#[trigger] after.edge_terms[k]).len()
        == st.edge_terms[k].len() by {}
}

pub(crate) proof fn lemma_with_expression(
    st: CountersView,
    successors: Seq<Seq<usize>>,
    lhs: BcbCounter,
    op: Op,
    rhs: BcbCounter,
)
    requires
        st.well_formed(successors),
        st.expressions.len() <= usize::MAX,
        st.defines(lhs),
        st.defines(rhs),
    ensures
        st.with_expression(lhs, op, rhs).well_formed(successors),
        st.with_expression(lhs, op, rhs).extends(st),
        st.with_expression(lhs, op, rhs).defines(st.next_expression()),
{
    let after = st.with_expression(lhs, op, rhs);
    assert forall|k: int, i: int|
        0 <= k < after.edge_terms.len() && 0 <= i < after.edge_terms[k].len() implies (
    #[trigger] after.edge_terms[k][i] matches Some(term) ==> after.defines(term)) by {
        if st.edge_terms[k][i] is Some {
            assert(st.defines(st.edge_terms[k][i]->0));
        }
    }
    assert forall|i: int| 0 <= i < after.expressions.len() implies (
    #[trigger] after.expressions[i]).id == i && term_defined(
        after.expressions[i].lhs,
        after.sites.len(),
        i as nat,
    ) && term_defined(after.expressions[i].rhs, after.sites.len(), i as nat) by {
        if i < st.expressions.len() {
            assert(after.expressions[i] == st.expressions[i]);
        }
    }
}

pub(crate) proof fn lemma_with_node_term(
    st: CountersView,
    successors: Seq<Seq<usize>>,
    bcb: usize,
    term: BcbCounter,
)
    requires
        st.well_formed(successors),
        bcb < st.node_terms.len(),
        st.node_terms[bcb as int] is None,
        term is Expression,
        st.defines(term),
    ensures
        st.with_node_term(bcb, term).well_formed(successors),
        st.with_node_term(bcb, term).extends(st),
{
    let after = st.with_node_term(bcb, term);
    assert forall|c: int| 0 <= c < after.sites.len() implies match #[trigger] after.sites[c] {
        CounterSite::Node { bcb } => bcb < after.node_terms.len() && after.node_terms[bcb as int]
            == Some(BcbCounter::Counter { id: c as usize }),
        CounterSite::Edge { from_bcb, successor } => from_bcb < after.edge_terms.len()
            && successor < after.edge_terms[from_bcb as int].len()
            && after.edge_terms[from_bcb as int][successor as int] == Some(
            BcbCounter::Counter { id: c as usize },
        ),
    } by {
        assert(after.sites[c] == st.sites[c]);
    }
}

pub(crate) proof fn lemma_with_edge_term(
    st: CountersView,
    successors: Seq<Seq<usize>>,
    from_bcb: usize,
    successor: usize,
    term: BcbCounter,
)
    requires
        st.well_formed(successors),
        from_bcb < st.edge_terms.len(),
        successor < st.edge_terms[from_bcb as int].len(),
        st.edge_terms[from_bcb as int][successor as int] is None,
        term is Expression,
        st.defines(term),
    ensures
        st.with_edge_term(from_bcb, successor, term).well_formed(successors),
        st.with_edge_term(from_bcb, successor, term).extends(st),
{
    let after = st.with_edge_term(from_bcb, successor, term);
    assert forall|k: int, i: int|
        0 <= k < after.edge_terms.len() && 0 <= i < after.edge_terms[k].len() implies (
    #[trigger] after.edge_terms[k][i] matches Some(t) ==> after.defines(t)) by {
        if !(k == from_bcb && i == successor) {
            assert(after.edge_terms[k][i] == st.edge_terms[k][i]);
            if st.edge_terms[k][i] is Some {
                assert(st.defines(st.edge_terms[k][i]->0));
            }
        }
    }
    assert forall|k: int, i: int|
        0 <= k < after.edge_terms.len() && 0 <= i < after.edge_terms[k].len() implies (
    #[trigger] after.edge_terms[k][i] matches Some(BcbCounter::Counter { id }) ==> id
        < after.sites.len() && after.sites[id as int] == CounterSite::Edge {
        from_bcb: k as usize,
        successor: i as usize,
    }) by {
        if !(k == from_bcb && i == successor) {
            assert(after.edge_terms[k][i] == st.edge_terms[k][i]);
        }
    }
    assert forall|c: int| 0 <= c < after.sites.len() implies match #[trigger] after.sites[c] {
        CounterSite::Node { bcb } => bcb < after.node_terms.len() && after.node_terms[bcb as int]
            == Some(BcbCounter::Counter { id: c as usize }),
        CounterSite::Edge { from_bcb, successor } => from_bcb < after.edge_terms.len()
            && successor < after.edge_terms[from_bcb as int].len()
            && after.edge_terms[from_bcb as int][successor as int] == Some(
            BcbCounter::Counter { id: c as usize },
        ),
    } by {
        assert(after.sites[c] == st.sites[c]);
    }
    assert forall|k: int|
        0 <= k < st.edge_terms.len() implies (#[trigger] after.edge_terms[k]).len()
        == st.edge_terms[k].len() by {}
}

/// Whether the edge into `to_bcb` is the only way into it, so that the
/// node and the edge are executed equally often. The entry node is entered
/// from outside as well.
pub open spec fn is_only_path_to(e: Edges, to_bcb: usize) -> bool {
    to_bcb != 0 && e.predecessors[to_bcb as int].len() <= 1
}

/// Whether the count of node `bcb` has to be measured: it is the entry node,
/// it has at most one predecessor, it is its own predecessor, its count is
/// being worked out already, or the chain of derivations has grown too long.
pub open spec fn needs_physical_counter(
    e: Edges,
    visiting: Seq<bool>,
    bcb: usize,
    depth: nat,
) -> bool {
    bcb == 0 || e.predecessors[bcb as int].len() <= 1 || e.predecessors[bcb as int].contains(bcb)
        || visiting[bcb as int] || depth == 0
}

/// The assignment after node `bcb` has been given a term, and that term.
///
/// A node that has a term keeps it. One whose count has to be measured gets
/// a physical counter. Any other node gets the sum of the terms of its
/// incoming edges, unless working out those terms gave the node a counter.
pub open spec fn node_operand(
    e: Edges,
    st: CountersView,
    visiting: Seq<bool>,
    bcb: usize,
    depth: nat,
) -> (CountersView, BcbCounter)
    decreases depth, 0int, 0nat,
{
    match st.node_terms[bcb as int] {
        Some(term) => (st, term),
        None => {
            if needs_physical_counter(e, visiting, bcb, depth) {
                (st.with_node_counter(bcb), st.next_counter())
            } else {
                let (summed, sum) = sum_of_incoming_edges(
                    e,
                    st,
                    visiting.update(bcb as int, true),
                    bcb,
                    e.predecessors[bcb as int].len(),
                    (depth - 1) as nat,
                );
                match summed.node_terms[bcb as int] {
                    Some(term) => (summed, term),
                    None => (summed.with_node_term(bcb, sum), sum),
                }
            }
        },
    }
}

/// The assignment after the first `upto` incoming edges of `bcb` have been
/// given terms, and a term for the sum of their counts.
pub open spec fn sum_of_incoming_edges(
    e: Edges,
    st: CountersView,
    visiting: Seq<bool>,
    bcb: usize,
    upto: nat,
    depth: nat,
) -> (CountersView, BcbCounter)
    decreases depth, 2int, upto,
{
    let predecessors = e.predecessors[bcb as int];
    if upto <= 1 {
        edge_operand(e, st, visiting, predecessors[0], bcb, depth)
    } else {
        let (before, sum) = sum_of_incoming_edges(e, st, visiting, bcb, (upto - 1) as nat, depth);
        let (with_edge, term) = edge_operand(
            e,
            before,
            visiting,
            predecessors[upto - 1],
            bcb,
            depth,
        );
        (with_edge.with_expression(sum, Op::Add, term), with_edge.next_expression())
    }
}

/// The assignment after the edge from `from_bcb` to `to_bcb` has been given
/// a term, and that term.
///
/// An edge that is the only way into its target is counted by the target,
/// an edge that is the only way out of its source by the source. Any other
/// edge keeps the term it has, or gets a physical counter.
pub open spec fn edge_operand(
    e: Edges,
    st: CountersView,
    visiting: Seq<bool>,
    from_bcb: usize,
    to_bcb: usize,
    depth: nat,
) -> (CountersView, BcbCounter)
    decreases depth, 1int, 0nat,
{
    if is_only_path_to(e, to_bcb) {
        node_operand(e, st, visiting, to_bcb, depth)
    } else if e.successors[from_bcb as int].len() == 1 {
        node_operand(e, st, visiting, from_bcb, depth)
    } else {
        let successor = e.successors[from_bcb as int].index_of(to_bcb) as usize;
        match st.edge_terms[from_bcb as int][successor as int] {
            Some(term) => (st, term),
            None => (st.with_edge_counter(from_bcb, successor), st.next_counter()),
        }
    }
}

/// Whether the branch from `branching` to its successor at position `i` has
/// no term yet.
pub open spec fn branch_lacks_term(e: Edges, st: CountersView, branching: usize, i: int) -> bool {
    let target = e.successors[branching as int][i];
    if is_only_path_to(e, target) {
        st.node_terms[target as int] is None
    } else {
        st.edge_terms[branching as int][i] is None
    }
}

/// The last of the first `upto` branches of `branching` that has no term.
pub open spec fn last_branch_without_term(
    e: Edges,
    st: CountersView,
    branching: usize,
    upto: nat,
) -> Option<int>
    decreases upto,
{
    if upto == 0 {
        None
    } else if branch_lacks_term(e, st, branching, upto - 1) {
        Some(upto - 1)
    } else {
        last_branch_without_term(e, st, branching, (upto - 1) as nat)
    }
}

/// The assignment after the first `upto` branches of `branching`, but for
/// the one at position `skip`, have been given terms, and a term for the sum
/// of their counts if there is any such branch.
pub open spec fn sum_of_other_branches(
    e: Edges,
    st: CountersView,
    visiting: Seq<bool>,
    branching: usize,
    skip: int,
    upto: nat,
    depth: nat,
) -> (CountersView, Option<BcbCounter>)
    decreases depth, 2int, upto,
{
    if upto == 0 {
        (st, None)
    } else {
        let (before, sum) = sum_of_other_branches(
            e,
            st,
            visiting,
            branching,
            skip,
            (upto - 1) as nat,
            depth,
        );
        if upto - 1 == skip {
            (before, sum)
        } else {
            let (with_edge, term) = edge_operand(
                e,
                before,
                visiting,
                branching,
                e.successors[branching as int][upto - 1],
                depth,
            );
            match sum {
                None => (with_edge, Some(term)),
                Some(total) => (
                    with_edge.with_expression(total, Op::Add, term),
                    Some(with_edge.next_expression()),
                ),
            }
        }
    }
}

/// The assignment after the branches of `branching`, whose own term is
/// `operand`, have been given terms.
///
/// The last branch without a term is counted by what is left of the count of
/// `branching` when the counts of the other branches are taken away; those
/// get terms of their own first. Nothing changes where every branch has a
/// term already, or where there is only one.
pub open spec fn with_branch_counters(
    e: Edges,
    st: CountersView,
    visiting: Seq<bool>,
    branching: usize,
    operand: BcbCounter,
    depth: nat,
) -> CountersView {
    let count = e.successors[branching as int].len();
    match last_branch_without_term(e, st, branching, count) {
        None => st,
        Some(skip) => {
            let (summed, sum) = sum_of_other_branches(
                e,
                st,
                visiting,
                branching,
                skip,
                count,
                depth,
            );
            match sum {
                None => summed,
                Some(total) => {
                    if branch_lacks_term(e, summed, branching, skip) {
                        let rest = summed.next_expression();
                        let with_rest = summed.with_expression(operand, Op::Subtract, total);
                        let target = e.successors[branching as int][skip];
                        if is_only_path_to(e, target) {
                            with_rest.with_node_term(target, rest)
                        } else {
                            with_rest.with_edge_term(branching, skip as usize, rest)
                        }
                    } else {
                        summed
                    }
                },
            }
        },
    }
}

/// No node is being worked on.
pub open spec fn no_visits(nodes: nat) -> Seq<bool> {
    Seq::new(nodes, |k: int| false)
}

/// The assignment after the first `upto` nodes have been looked at: every
/// one of them that has a span has a term, and so have its branches.
pub open spec fn counters_upto(e: Edges, has_spans: Seq<bool>, upto: nat, max_depth: nat) -> CountersView
    decreases upto,
{
    if upto == 0 {
        CountersView::empty(e.successors)
    } else {
        let before = counters_upto(e, has_spans, (upto - 1) as nat, max_depth);
        let bcb = (upto - 1) as usize;
        if has_spans[bcb as int] {
            let idle = no_visits(e.successors.len());
            let (with_node, operand) = node_operand(e, before, idle, bcb, max_depth);
            if e.successors[bcb as int].len() > 1 {
                with_branch_counters(e, with_node, idle, bcb, operand, max_depth)
            } else {
                with_node
            }
        } else {
            before
        }
    }
}

/// The terms assigned to the nodes and edges of one coverage graph.
#[derive(Clone, Debug, PartialEq, Eq)]
pub struct CoverageCounters {
    pub counter_sites: Vec<CounterSite>,
    pub bcb_counters: Vec<Option<BcbCounter>>,
    pub bcb_edge_counters: Vec<Vec<Option<BcbCounter>>>,
    pub expressions: Vec<Expression>,
}

impl View for CoverageCounters {
    type V = CountersView;

    open spec fn view(&self) -> CountersView {
        CountersView {
            sites: self.counter_sites@,
            node_terms: self.bcb_counters@,
            edge_terms: Seq::new(
                self.bcb_edge_counters@.len(),
                |k: int| self.bcb_edge_counters@[k]@,
            ),
            expressions: self.expressions@,
        }
    }
}

impl CoverageGraph {
    /// The edges of the graph.
    pub open spec fn edges(&self) -> Edges {
        Edges { successors: self.successor_lists(), predecessors: self.predecessor_lists() }
    }

    /// The edges of a well-formed graph fit together.
    pub proof fn lemma_edges_well_formed(&self)
        requires
            self.well_formed(),
        ensures
            self.edges().well_formed(),
            self.edges().successors.len() == self.bcbs@.len(),
    {
        let e = self.edges();
        let m = self.bcbs@.len();
        assert forall|k: int| 0 <= k < m implies (#[trigger] e.successors[k]).no_duplicates() by {
            assert(e.successors[k] == self.successors@[k]@);
        }
        assert forall|k: int| 0 <= k < m implies (#[trigger] e.predecessors[k]).no_duplicates() by {
            assert(e.predecessors[k] == self.predecessors@[k]@);
        }
        assert forall|k: int, i: int|
            0 <= k < m && 0 <= i < e.successors[k].len() implies (#[trigger] e.successors[k][i])
            < m by {
            assert(e.successors[k][i] == self.successors@[k]@[i]);
        }
        assert forall|k: int, i: int|
            0 <= k < m && 0 <= i < e.predecessors[k].len() implies (#[trigger] e.predecessors[k][i])
            < m by {
            assert(e.predecessors[k][i] == self.predecessors@[k]@[i]);
        }
        assert forall|j: usize, k: usize| j < m && k < m implies (
        #[trigger] e.predecessors[k as int].contains(j) <==> #[trigger] e.successors[j as int].contains(
            k,
        )) by {
            assert(e.predecessors[k as int] == self.predecessors@[k as int]@);
            assert(e.successors[j as int] == self.successors@[j as int]@);
        }
    }

    /// Whether the edge into `to_bcb` is the only way into it.
    pub fn bcb_is_only_path_to(&self, to_bcb: usize) -> (r: bool)
        requires
            to_bcb < self.predecessors@.len(),
        ensures
            r == is_only_path_to(self.edges(), to_bcb),
    {
        to_bcb != 0 && self.predecessors[to_bcb].len() <= 1
    }
}

/// The first position of `x` in `list`.
pub(crate) fn position(list: &Vec<usize>, x: usize) -> (r: Option<usize>)
    ensures
        match r {
            Some(i) => i < list@.len() && list@[i as int] == x && forall|j: int|
                0 <= j < i ==> list@[j] != x,
            None => !list@.contains(x),
        },
{
    let mut i: usize = 0;
    while i < list.len()
        invariant
            i <= list@.len(),
            forall|j: int| 0 <= j < i ==> list@[j] != x,
        decreases list@.len() - i,
    {
        if list[i] == x {
            return Some(i);
        }
        i = i + 1;
    }
    None
}

impl CoverageCounters {
    /// An assignment without any term, for the nodes and edges of `graph`.
    pub fn new(graph: &CoverageGraph) -> (this: CoverageCounters)
        requires
            graph.well_formed(),
        ensures
            this@ == CountersView::empty(graph.successor_lists()),
            this@.well_formed(graph.successor_lists()),
            is_sound(this@, graph.edges()),
    {
        let m = graph.successors.len();
        let mut rows: Vec<Vec<Option<BcbCounter>>> = Vec::new();
        let mut k: usize = 0;
        while k < m
            invariant
                m == graph.successors@.len(),
                k <= m,
                rows@.len() == k,
                forall|j: int|
                    0 <= j < k ==> (#[trigger] rows@[j])@ =~= Seq::new(
                        graph.successors@[j]@.len(),
                        |i: int| None,
                    ),
            decreases m - k,
        {
            let row: Vec<Option<BcbCounter>> = vec![None; graph.successors[k].len()];
            rows.push(row);
            k = k + 1;
        }
        let node_terms: Vec<Option<BcbCounter>> = vec![None; m];
        let this = CoverageCounters {
            counter_sites: Vec::new(),
            bcb_counters: node_terms,
            bcb_edge_counters: rows,
            expressions: Vec::new(),
        };
        proof {
            let empty = CountersView::empty(graph.successor_lists());
            assert(this@.edge_terms =~= empty.edge_terms) by {
                assert forall|j: int| 0 <= j < m implies #[trigger] this@.edge_terms[j]
                    =~= empty.edge_terms[j] by {}
            }
            assert(this@.node_terms =~= empty.node_terms);
            assert(this@.sites =~= empty.sites);
            assert(this@.expressions =~= empty.expressions);
        }
        this
    }

    /// The number of physical counters.
    pub fn num_counters(&self) -> (n: usize)
        ensures
            n == self@.sites.len(),
    {
        self.counter_sites.len()
    }

    /// The term of node `bcb`, if it has one.
    pub fn bcb_counter(&self, bcb: usize) -> (r: Option<BcbCounter>)
        requires
            bcb < self@.node_terms.len(),
        ensures
            r == self@.node_terms[bcb as int],
    {
        self.bcb_counters[bcb]
    }

    /// The expressions, in the order of their ids.
    pub fn into_expressions(self) -> (r: Vec<Expression>)
        ensures
            r@ == self@.expressions,
    {
        self.expressions
    }

    fn make_node_counter(&mut self, bcb: usize) -> (term: BcbCounter)
        requires
            bcb < old(self)@.node_terms.len(),
        ensures
            final(self)@ == old(self)@.with_node_counter(bcb),
            term == old(self)@.next_counter(),
            old(self)@.sites.len() <= usize::MAX,
    {
        let term = BcbCounter::Counter { id: self.counter_sites.len() };
        self.counter_sites.push(CounterSite::Node { bcb });
        self.bcb_counters[bcb] = Some(term);
        proof {
            assert(self@.edge_terms =~= old(self)@.edge_terms);
            assert(self@ =~= old(self)@.with_node_counter(bcb));
        }
        term
    }

    fn make_edge_counter(&mut self, from_bcb: usize, successor: usize) -> (term: BcbCounter)
        requires
            from_bcb < old(self)@.edge_terms.len(),
            successor < old(self)@.edge_terms[from_bcb as int].len(),
        ensures
            final(self)@ == old(self)@.with_edge_counter(from_bcb, successor),
            term == old(self)@.next_counter(),
            old(self)@.sites.len() <= usize::MAX,
    {
        let term = BcbCounter::Counter { id: self.counter_sites.len() };
        self.counter_sites.push(CounterSite::Edge { from_bcb, successor });
        self.bcb_edge_counters[from_bcb][successor] = Some(term);
        proof {
            let after = old(self)@.with_edge_counter(from_bcb, successor);
            assert forall|k: int| 0 <= k < self@.edge_terms.len() implies #[trigger] self@.edge_terms[k]
                =~= after.edge_terms[k] by {}
            assert(self@.edge_terms =~= after.edge_terms);
            assert(self@ =~= after);
        }
        term
    }

    fn make_expression(&mut self, lhs: BcbCounter, op: Op, rhs: BcbCounter) -> (term: BcbCounter)
        ensures
            final(self)@ == old(self)@.with_expression(lhs, op, rhs),
            term == old(self)@.next_expression(),
            old(self)@.expressions.len() <= usize::MAX,
    {
        let term = BcbCounter::Expression { id: self.expressions.len() };
        self.expressions.push(
            Expression {
                id: self.expressions.len(),
                lhs: lhs.as_term(),
                op,
                rhs: rhs.as_term(),
            },
        );
        proof {
            assert(self@.edge_terms =~= old(self)@.edge_terms);
            assert(self@ =~= old(self)@.with_expression(lhs, op, rhs));
        }
        term
    }

    fn set_bcb_counter(&mut self, bcb: usize, term: BcbCounter)
        requires
            bcb < old(self)@.node_terms.len(),
        ensures
            final(self)@ == old(self)@.with_node_term(bcb, term),
    {
        self.bcb_counters[bcb] = Some(term);
        proof {
            assert(self@.edge_terms =~= old(self)@.edge_terms);
            assert(self@ =~= old(self)@.with_node_term(bcb, term));
        }
    }

    fn set_bcb_edge_counter(&mut self, from_bcb: usize, successor: usize, term: BcbCounter)
        requires
            from_bcb < old(self)@.edge_terms.len(),
            successor < old(self)@.edge_terms[from_bcb as int].len(),
        ensures
            final(self)@ == old(self)@.with_edge_term(from_bcb, successor, term),
    {
        self.bcb_edge_counters[from_bcb][successor] = Some(term);
        proof {
            let after = old(self)@.with_edge_term(from_bcb, successor, term);
            assert forall|k: int| 0 <= k < self@.edge_terms.len() implies #[trigger] self@.edge_terms[k]
                =~= after.edge_terms[k] by {}
            assert(self@.edge_terms =~= after.edge_terms);
            assert(self@ =~= after);
        }
    }
}

impl CoverageCounters {
    /// Gives node `bcb` a term, unless it has one, and returns its term.
    ///
    /// `visiting` marks the nodes whose terms are being worked out, and
    /// `depth` is the number of further derivations that may be chained.
    fn get_or_make_counter_operand(
        &mut self,
        graph: &CoverageGraph,
        visiting: &mut Vec<bool>,
        bcb: usize,
        depth: usize,
    ) -> (term: BcbCounter)
        requires
            graph.well_formed(),
            old(self)@.well_formed(graph.successor_lists()),
            old(visiting)@.len() == graph.bcbs@.len(),
            bcb < graph.bcbs@.len(),
            is_sound(old(self)@, graph.edges()),
        ensures
            is_sound(final(self)@, graph.edges()),
            counts_node(final(self)@, graph.edges(), term, bcb),
            (final(self)@, term) == node_operand(
                graph.edges(),
                old(self)@,
                old(visiting)@,
                bcb,
                depth as nat,
            ),
            final(visiting)@ == old(visiting)@,
            final(self)@.well_formed(graph.successor_lists()),
            final(self)@.extends(old(self)@),
            final(self)@.defines(term),
            final(self)@.node_terms[bcb as int] == Some(term),
        decreases depth, 0int, 0nat,
    {
        let ghost e = graph.edges();
        let ghost succ = graph.successor_lists();
        let ghost start = self@;
        let ghost idle = visiting@;
        proof {
            graph.lemma_edges_well_formed();
        }
        match self.bcb_counters[bcb] {
            Some(term) => {
                assert forall|p: Profile| #[trigger] is_flow(e, p) implies value(self@, p, term)
                    == p.nodes[bcb as int] by {
                    assert(self@.node_terms[bcb as int] is Some);
                }
                return term;
            },
            None => {},
        }
        let preds_len = graph.predecessors[bcb].len();
        assert(e.predecessors[bcb as int] == graph.predecessors@[bcb as int]@);
        if bcb == 0 || preds_len <= 1 || vec_contains(&graph.predecessors[bcb], bcb)
            || visiting[bcb] || depth == 0 {
            let term = self.make_node_counter(bcb);
            proof {
                lemma_with_node_counter(start, succ, bcb);
                lemma_sound_with_node_counter(start, e, bcb);
            }
            return term;
        }
        visiting.set(bcb, true);
        let ghost busy = visiting@;
        let first = graph.predecessors[bcb][0];
        assert(graph.predecessors@[bcb as int]@.contains(first));
        let mut sum = self.get_or_make_edge_counter_operand(graph, visiting, first, bcb, depth - 1);
        let mut i: usize = 1;
        proof {
            assert forall|p: Profile| #[trigger] is_flow(e, p) implies value(self@, p, sum)
                == incoming(e, p, bcb, 1) by {
                assert(incoming(e, p, bcb, 0) == 0);
                assert(e.predecessors[bcb as int][0] == first);
            }
        }
        while i < preds_len
            invariant
                graph.well_formed(),
                e.well_formed(),
                is_sound(self@, e),
                counts_incoming(self@, e, sum, bcb, i as nat),
                e.predecessors[bcb as int] == graph.predecessors@[bcb as int]@,
                bcb < graph.bcbs@.len(),
                depth > 0,
                e == graph.edges(),
                succ == graph.successor_lists(),
                preds_len == graph.predecessors@[bcb as int]@.len(),
                1 <= i <= preds_len,
                visiting@ == busy,
                busy.len() == graph.bcbs@.len(),
                self@.well_formed(succ),
                self@.extends(start),
                self@.defines(sum),
                i >= 2 ==> sum is Expression,
                (self@, sum) == sum_of_incoming_edges(
                    e,
                    start,
                    busy,
                    bcb,
                    i as nat,
                    (depth - 1) as nat,
                ),
            decreases preds_len - i,
        {
            let from_bcb = graph.predecessors[bcb][i];
            assert(graph.predecessors@[bcb as int]@.contains(from_bcb));
            let ghost before = self@;
            let term = self.get_or_make_edge_counter_operand(
                graph,
                visiting,
                from_bcb,
                bcb,
                depth - 1,
            );
            let ghost with_edge = self@;
            let ghost partial = sum;
            proof {
                lemma_extends_trans(start, before, with_edge);
                lemma_extends_trans(before, before, with_edge);
            }
            sum = self.make_expression(sum, Op::Add, term);
            proof {
                lemma_with_expression(with_edge, succ, partial, Op::Add, term);
                lemma_sound_with_expression(with_edge, e, partial, Op::Add, term);
                lemma_extends_trans(start, with_edge, self@);
                assert forall|p: Profile| #[trigger] is_flow(e, p) implies value(self@, p, sum)
                    == incoming(e, p, bcb, (i + 1) as nat) by {
                    lemma_value_stable(before, with_edge, p, partial);
                    assert(value(with_edge, p, term) == edge_count(e, p, from_bcb, bcb));
                    assert(value(before, p, partial) == incoming(e, p, bcb, i as nat));
                    assert(value(self@, p, sum) == value(with_edge, p, partial) + value(
                        with_edge,
                        p,
                        term,
                    ));
                }
            }
            i = i + 1;
        }
        visiting.set(bcb, false);
        assert(visiting@ =~= idle);
        assert(busy =~= idle.update(bcb as int, true));
        match self.bcb_counters[bcb] {
            Some(term) => {
                assert forall|p: Profile| #[trigger] is_flow(e, p) implies value(self@, p, term)
                    == p.nodes[bcb as int] by {
                    assert(self@.node_terms[bcb as int] is Some);
                }
                term
            },
            None => {
                let ghost summed = self@;
                proof {
                    lemma_with_node_term(summed, succ, bcb, sum);
                    assert forall|p: Profile| #[trigger] is_flow(e, p) implies value(
                        summed,
                        p,
                        sum,
                    ) == p.nodes[bcb as int] by {
                        assert(p.nodes[bcb as int] == incoming(
                            e,
                            p,
                            bcb,
                            e.predecessors[bcb as int].len(),
                        ));
                    }
                    lemma_sound_with_node_term(summed, e, bcb, sum);
                }
                self.set_bcb_counter(bcb, sum);
                proof {
                    lemma_extends_trans(start, summed, self@);
                    assert forall|p: Profile| #[trigger] is_flow(e, p) implies value(
                        self@,
                        p,
                        sum,
                    ) == p.nodes[bcb as int] by {
                        lemma_value_stable(summed, self@, p, sum);
                    }
                }
                sum
            },
        }
    }

    /// Gives the edge from `from_bcb` to `to_bcb` a term, unless it has one,
    /// and returns its term.
    fn get_or_make_edge_counter_operand(
        &mut self,
        graph: &CoverageGraph,
        visiting: &mut Vec<bool>,
        from_bcb: usize,
        to_bcb: usize,
        depth: usize,
    ) -> (term: BcbCounter)
        requires
            graph.well_formed(),
            old(self)@.well_formed(graph.successor_lists()),
            old(visiting)@.len() == graph.bcbs@.len(),
            from_bcb < graph.bcbs@.len(),
            to_bcb < graph.bcbs@.len(),
            graph.successors@[from_bcb as int]@.contains(to_bcb),
            is_sound(old(self)@, graph.edges()),
        ensures
            is_sound(final(self)@, graph.edges()),
            counts_edge(final(self)@, graph.edges(), term, from_bcb, to_bcb),
            (final(self)@, term) == edge_operand(
                graph.edges(),
                old(self)@,
                old(visiting)@,
                from_bcb,
                to_bcb,
                depth as nat,
            ),
            final(visiting)@ == old(visiting)@,
            final(self)@.well_formed(graph.successor_lists()),
            final(self)@.extends(old(self)@),
            final(self)@.defines(term),
        decreases depth, 1int, 0nat,
    {
        let ghost start = self@;
        let ghost e = graph.edges();
        proof {
            graph.lemma_edges_well_formed();
        }
        assert(e.successors[from_bcb as int] == graph.successors@[from_bcb as int]@);
        assert(e.predecessors[to_bcb as int] == graph.predecessors@[to_bcb as int]@);
        if graph.bcb_is_only_path_to(to_bcb) {
            let term = self.get_or_make_counter_operand(graph, visiting, to_bcb, depth);
            proof {
                assert forall|p: Profile| #[trigger] is_flow(e, p) implies value(self@, p, term)
                    == edge_count(e, p, from_bcb, to_bcb) by {
                    lemma_only_way_in(e, p, from_bcb, to_bcb);
                }
            }
            return term;
        }
        if graph.successors[from_bcb].len() == 1 {
            let term = self.get_or_make_counter_operand(graph, visiting, from_bcb, depth);
            proof {
                assert forall|p: Profile| #[trigger] is_flow(e, p) implies value(self@, p, term)
                    == edge_count(e, p, from_bcb, to_bcb) by {
                    lemma_only_way_out(e, p, from_bcb, to_bcb);
                }
            }
            return term;
        }
        let successor = match position(&graph.successors[from_bcb], to_bcb) {
            Some(i) => i,
            None => 0,
        };
        assert(graph.successors@[from_bcb as int]@.index_of(to_bcb) == successor);
        assert(self@.edge_terms[from_bcb as int] == self.bcb_edge_counters@[from_bcb as int]@);
        match self.bcb_edge_counters[from_bcb][successor] {
            Some(term) => {
                assert forall|p: Profile| #[trigger] is_flow(e, p) implies value(self@, p, term)
                    == edge_count(e, p, from_bcb, to_bcb) by {
                    assert(self@.edge_terms[from_bcb as int][successor as int] is Some);
                }
                term
            },
            None => {
                let term = self.make_edge_counter(from_bcb, successor);
                proof {
                    lemma_with_edge_counter(start, graph.successor_lists(), from_bcb, successor);
                    lemma_sound_with_edge_counter(start, e, from_bcb, successor);
                }
                term
            },
        }
    }

    /// Whether the branch from `branching` to its successor at position `i`
    /// has no term yet.
    fn branch_has_no_counter(&self, graph: &CoverageGraph, branching: usize, i: usize) -> (r:
        bool)
        requires
            graph.well_formed(),
            self@.well_formed(graph.successor_lists()),
            branching < graph.bcbs@.len(),
            i < graph.successors@[branching as int]@.len(),
        ensures
            r == branch_lacks_term(graph.edges(), self@, branching, i as int),
    {
        assert(graph.edges().successors[branching as int] == graph.successors@[branching as int]@);
        assert(self@.edge_terms[branching as int] == self.bcb_edge_counters@[branching as int]@);
        let target = graph.successors[branching][i];
        if graph.bcb_is_only_path_to(target) {
            self.bcb_counters[target].is_none()
        } else {
            self.bcb_edge_counters[branching][i].is_none()
        }
    }

    /// Gives every branch of `branching`, whose own term is `operand`, a
    /// term: the last branch without one an expression, the others what
    /// [`Self::get_or_make_edge_counter_operand`] gives them.
    fn make_branch_counters(
        &mut self,
        graph: &CoverageGraph,
        visiting: &mut Vec<bool>,
        branching: usize,
        operand: BcbCounter,
        depth: usize,
    )
        requires
            graph.well_formed(),
            old(self)@.well_formed(graph.successor_lists()),
            old(visiting)@.len() == graph.bcbs@.len(),
            branching < graph.bcbs@.len(),
            old(self)@.defines(operand),
            is_sound(old(self)@, graph.edges()),
            counts_node(old(self)@, graph.edges(), operand, branching),
        ensures
            is_sound(final(self)@, graph.edges()),
            final(self)@ == with_branch_counters(
                graph.edges(),
                old(self)@,
                old(visiting)@,
                branching,
                operand,
                depth as nat,
            ),
            final(visiting)@ == old(visiting)@,
            final(self)@.well_formed(graph.successor_lists()),
            final(self)@.extends(old(self)@),
    {
        let ghost e = graph.edges();
        let ghost succ = graph.successor_lists();
        let ghost start = self@;
        let ghost idle = visiting@;
        let count = graph.successors[branching].len();
        assert(e.successors[branching as int] == graph.successors@[branching as int]@);
        proof {
            graph.lemma_edges_well_formed();
        }
        let mut found: Option<usize> = None;
        let mut i: usize = 0;
        while i < count
            invariant
                graph.well_formed(),
                branching < graph.bcbs@.len(),
                e == graph.edges(),
                succ == graph.successor_lists(),
                count == graph.successors@[branching as int]@.len(),
                i <= count,
                self@ == start,
                start.well_formed(succ),
                match found {
                    Some(at) => at < i && last_branch_without_term(e, start, branching, i as nat)
                        == Some(at as int),
                    None => last_branch_without_term(e, start, branching, i as nat) is None,
                },
            decreases count - i,
        {
            if self.branch_has_no_counter(graph, branching, i) {
                found = Some(i);
            }
            i = i + 1;
        }
        let skip = match found {
            Some(at) => at,
            None => {
                return ;
            },
        };
        let mut sum: Option<BcbCounter> = None;
        let mut i: usize = 0;
        while i < count
            invariant
                graph.well_formed(),
                e.well_formed(),
                is_sound(self@, e),
                counts_other_branches(self@, e, sum, branching, skip as int, i as nat),
                e.successors[branching as int] == graph.successors@[branching as int]@,
                branching < graph.bcbs@.len(),
                e == graph.edges(),
                succ == graph.successor_lists(),
                count == graph.successors@[branching as int]@.len(),
                i <= count,
                skip < count,
                visiting@ == idle,
                idle.len() == graph.bcbs@.len(),
                self@.well_formed(succ),
                self@.extends(start),
                sum matches Some(total) ==> self@.defines(total),
                (self@, sum) == sum_of_other_branches(
                    e,
                    start,
                    idle,
                    branching,
                    skip as int,
                    i as nat,
                    depth as nat,
                ),
            decreases count - i,
        {
            if i != skip {
                let to_bcb = graph.successors[branching][i];
                assert(graph.successors@[branching as int]@.contains(to_bcb));
                let ghost before = self@;
                let term = self.get_or_make_edge_counter_operand(
                    graph,
                    visiting,
                    branching,
                    to_bcb,
                    depth,
                );
                let ghost with_edge = self@;
                proof {
                    lemma_extends_trans(start, before, with_edge);
                    lemma_extends_trans(before, before, with_edge);
                    lemma_index_of(e.successors[branching as int], i as int);
                }
                match sum {
                    None => {
                        sum = Some(term);
                        proof {
                            assert forall|p: Profile| #[trigger] is_flow(e, p) implies outgoing_except(
                                p,
                                branching,
                                skip as int,
                                (i + 1) as nat,
                            ) == value(self@, p, term) by {
                                assert(outgoing_except(p, branching, skip as int, i as nat) == 0);
                                assert(value(self@, p, term) == edge_count(
                                    e,
                                    p,
                                    branching,
                                    to_bcb,
                                ));
                            }
                        }
                    },
                    Some(total) => {
                        let added = self.make_expression(total, Op::Add, term);
                        sum = Some(added);
                        proof {
                            lemma_with_expression(with_edge, succ, total, Op::Add, term);
                            lemma_sound_with_expression(with_edge, e, total, Op::Add, term);
                            lemma_extends_trans(start, with_edge, self@);
                            assert forall|p: Profile| #[trigger] is_flow(e, p) implies outgoing_except(
                                p,
                                branching,
                                skip as int,
                                (i + 1) as nat,
                            ) == value(self@, p, added) by {
                                lemma_value_stable(before, with_edge, p, total);
                                assert(value(with_edge, p, term) == edge_count(
                                    e,
                                    p,
                                    branching,
                                    to_bcb,
                                ));
                                assert(value(before, p, total) == outgoing_except(
                                    p,
                                    branching,
                                    skip as int,
                                    i as nat,
                                ));
                                assert(value(self@, p, added) == value(with_edge, p, total) + value(
                                    with_edge,
                                    p,
                                    term,
                                ));
                            }
                        }
                    },
                }
            }
            i = i + 1;
        }
        match sum {
            None => {},
            Some(total) => {
                if self.branch_has_no_counter(graph, branching, skip) {
                    let ghost summed = self@;
                    let rest = self.make_expression(operand, Op::Subtract, total);
                    let ghost with_rest = self@;
                    proof {
                        lemma_extends_trans(start, start, summed);
                        lemma_with_expression(summed, succ, operand, Op::Subtract, total);
                        lemma_sound_with_expression(summed, e, operand, Op::Subtract, total);
                    }
                    let target = graph.successors[branching][skip];
                    proof {
                        lemma_index_of(e.successors[branching as int], skip as int);
                        assert(e.predecessors[target as int] == graph.predecessors@[target as int]@);
                        assert forall|p: Profile| #[trigger] is_flow(e, p) implies value(
                            with_rest,
                            p,
                            rest,
                        ) == p.edges[branching as int][skip as int] by {
                            lemma_value_stable(start, summed, p, operand);
                            lemma_outgoing_split(p, branching, skip as int, count as nat);
                            assert(value(start, p, operand) == p.nodes[branching as int]);
                            assert(p.nodes[branching as int] == outgoing(
                                p,
                                branching,
                                e.successors[branching as int].len(),
                            ));
                            assert(value(summed, p, total) == outgoing_except(
                                p,
                                branching,
                                skip as int,
                                count as nat,
                            ));
                            assert(value(with_rest, p, rest) == value(summed, p, operand) - value(
                                summed,
                                p,
                                total,
                            ));
                        }
                    }
                    if graph.bcb_is_only_path_to(target) {
                        proof {
                            lemma_with_node_term(with_rest, succ, target, rest);
                            assert forall|p: Profile| #[trigger] is_flow(e, p) implies value(
                                with_rest,
                                p,
                                rest,
                            ) == p.nodes[target as int] by {
                                lemma_only_way_in(e, p, branching, target);
                            }
                            lemma_sound_with_node_term(with_rest, e, target, rest);
                        }
                        self.set_bcb_counter(target, rest);
                    } else {
                        proof {
                            lemma_with_edge_term(with_rest, succ, branching, skip, rest);
                            lemma_sound_with_edge_term(with_rest, e, branching, skip, rest);
                        }
                        self.set_bcb_edge_counter(branching, skip, rest);
                    }
                    proof {
                        lemma_extends_trans(summed, with_rest, self@);
                        lemma_extends_trans(start, summed, self@);
                    }
                }
            },
        }
    }

    /// Assigns terms to the nodes and edges of `graph`.
    ///
    /// Every node that has a span gets a term, and so does whatever its term
    /// is derived from. `max_depth` bounds the number of derivations that are
    /// chained before a count is measured instead. Whatever the depth, every
    /// term that is assigned is worth the count of its node or edge under
    /// every flow through the graph.
    pub fn make_bcb_counters(
        graph: &CoverageGraph,
        bcb_has_coverage_spans: &Vec<bool>,
        max_depth: usize,
    ) -> (this: CoverageCounters)
        requires
            graph.well_formed(),
            bcb_has_coverage_spans@.len() == graph.bcbs@.len(),
        ensures
            this@ == counters_upto(
                graph.edges(),
                bcb_has_coverage_spans@,
                graph.bcbs@.len(),
                max_depth as nat,
            ),
            this@.well_formed(graph.successor_lists()),
            is_sound(this@, graph.edges()),
            forall|bcb: int|
                0 <= bcb < graph.bcbs@.len() && bcb_has_coverage_spans@[bcb]
                    ==> #[trigger] this@.node_terms[bcb] is Some,
    {
        let ghost e = graph.edges();
        let ghost succ = graph.successor_lists();
        let m = graph.num_nodes();
        let mut this = CoverageCounters::new(graph);
        let mut visiting: Vec<bool> = vec![false; m];
        let ghost idle = no_visits(e.successors.len());
        assert(visiting@ =~= idle);
        let mut bcb: usize = 0;
        while bcb < m
            invariant
                graph.well_formed(),
                m == graph.bcbs@.len(),
                bcb_has_coverage_spans@.len() == m,
                e == graph.edges(),
                succ == graph.successor_lists(),
                bcb <= m,
                visiting@ == idle,
                idle == no_visits(e.successors.len()),
                idle.len() == m,
                this@.well_formed(succ),
                is_sound(this@, e),
                this@ == counters_upto(e, bcb_has_coverage_spans@, bcb as nat, max_depth as nat),
                forall|k: int|
                    0 <= k < bcb && bcb_has_coverage_spans@[k] ==> #[trigger] this@.node_terms[k] is Some,
            decreases m - bcb,
        {
            if bcb_has_coverage_spans[bcb] {
                let ghost before = this@;
                let operand = this.get_or_make_counter_operand(
                    graph,
                    &mut visiting,
                    bcb,
                    max_depth,
                );
                let ghost with_node = this@;
                assert(e.successors[bcb as int] == graph.successors@[bcb as int]@);
                proof {
                    let pair = node_operand(e, before, idle, bcb, max_depth as nat);
                    assert(pair.0 == with_node && pair.1 == operand);
                }
                if graph.successors[bcb].len() > 1 {
                    this.make_branch_counters(graph, &mut visiting, bcb, operand, max_depth);
                }
                proof {
                    lemma_extends_trans(before, with_node, this@);
                    assert forall|k: int|
                        0 <= k < bcb + 1 && bcb_has_coverage_spans@[k] implies #[trigger] this@.node_terms[k] is Some by {
                        if k < bcb {
                            assert(before.node_terms[k] is Some);
                        } else {
                            assert(with_node.node_terms[k] is Some);
                        }
                    }
                }
            }
            bcb = bcb + 1;
        }
        this
    }
}

} // verus!
