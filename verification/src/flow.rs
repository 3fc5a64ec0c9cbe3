//! What the counting terms are for: from the readings of the physical
//! counters, the count of every node and edge that has a term can be worked
//! out.
//!
//! A profile gives every node and every edge of a coverage graph a count. It
//! is a flow where every execution of a node goes on along exactly one of
//! its edges, if it has any, and every execution of a node but the entry
//! node comes from exactly one of the edges into it.

use crate::counters::{
    lemma_with_edge_counter, lemma_with_edge_term, lemma_with_expression, lemma_with_node_counter,
    lemma_with_node_term, term_defined, BcbCounter, CounterSite, CountersView, Edges,
};
use crate::mir::{CovTerm, Op};
use vstd::prelude::*;

verus! {

/// How often every node and every edge was executed. `edges[k][i]` is the
/// count of the edge from node `k` to its successor at position `i`.
pub struct Profile {
    pub nodes: Seq<int>,
    pub edges: Seq<Seq<int>>,
}

impl Edges {
    /// The lists fit together: every node has both lists, no list names a
    /// node twice or a node that is not there, and one node is a predecessor
    /// of another exactly when that one is among its successors.
    pub open spec fn well_formed(self) -> bool {
        let m = self.successors.len();
        &&& self.predecessors.len() == m
        &&& forall|k: int| 0 <= k < m ==> (#[trigger] self.successors[k]).no_duplicates()
        &&& forall|k: int| 0 <= k < m ==> (#[trigger] self.predecessors[k]).no_duplicates()
        &&& forall|k: int, i: int|
            0 <= k < m && 0 <= i < self.successors[k].len() ==> (#[trigger] self.successors[k][i])
                < m
        &&& forall|k: int, i: int|
            0 <= k < m && 0 <= i < self.predecessors[k].len() ==> (
            #[trigger] self.predecessors[k][i]) < m
        &&& forall|j: usize, k: usize|
            j < m && k < m ==> (#[trigger] self.predecessors[k as int].contains(j)
                <==> #[trigger] self.successors[j as int].contains(k))
    }
}

/// The count of the edge from `from_bcb` to `to_bcb`.
pub open spec fn edge_count(e: Edges, p: Profile, from_bcb: usize, to_bcb: usize) -> int {
    p.edges[from_bcb as int][e.successors[from_bcb as int].index_of(to_bcb)]
}

/// The sum of the counts of the edges into `bcb` from its first `upto`
/// predecessors.
pub open spec fn incoming(e: Edges, p: Profile, bcb: usize, upto: nat) -> int
    decreases upto,
{
    if upto == 0 {
        0
    } else {
        incoming(e, p, bcb, (upto - 1) as nat) + edge_count(
            e,
            p,
            e.predecessors[bcb as int][upto - 1],
            bcb,
        )
    }
}

/// The sum of the counts of the first `upto` edges out of `bcb`, but for the
/// one at position `skip`.
pub open spec fn outgoing_except(p: Profile, bcb: usize, skip: int, upto: nat) -> int
    decreases upto,
{
    if upto == 0 {
        0
    } else {
        outgoing_except(p, bcb, skip, (upto - 1) as nat) + if upto - 1 == skip {
            0
        } else {
            p.edges[bcb as int][upto - 1]
        }
    }
}

/// The sum of the counts of the first `upto` edges out of `bcb`.
pub open spec fn outgoing(p: Profile, bcb: usize, upto: nat) -> int {
    outgoing_except(p, bcb, -1, upto)
}

/// Whether `p` is a flow through the graph with the edges `e`.
pub open spec fn is_flow(e: Edges, p: Profile) -> bool {
    let m = e.successors.len();
    &&& p.nodes.len() == m
    &&& p.edges.len() == m
    &&& forall|k: int| 0 <= k < m ==> (#[trigger] p.edges[k]).len() == e.successors[k].len()
    &&& forall|k: int|
        0 <= k < m && e.successors[k].len() > 0 ==> #[trigger] p.nodes[k] == outgoing(
            p,
            k as usize,
            e.successors[k].len(),
        )
    &&& forall|k: int|
        0 < k < m ==> #[trigger] p.nodes[k] == incoming(
            e,
            p,
            k as usize,
            e.predecessors[k].len(),
        )
}

/// The profile of a function that was never called.
pub open spec fn idle_profile(e: Edges) -> Profile {
    Profile {
        nodes: Seq::new(e.successors.len(), |k: int| 0int),
        edges: Seq::new(
            e.successors.len(),
            |k: int| Seq::new(e.successors[k].len(), |i: int| 0int),
        ),
    }
}

/// There are flows through every graph: that of a function that was never
/// called is one.
pub proof fn lemma_idle_profile_is_a_flow(e: Edges)
    requires
        e.well_formed(),
        e.successors.len() <= usize::MAX,
    ensures
        is_flow(e, idle_profile(e)),
{
    let p = idle_profile(e);
    let m = e.successors.len();
    assert forall|k: int| 0 <= k < m && e.successors[k].len() > 0 implies #[trigger] p.nodes[k]
        == outgoing(p, k as usize, e.successors[k].len()) by {
        lemma_idle_outgoing(e, k as usize, e.successors[k].len());
    }
    assert forall|k: int| 0 < k < m implies #[trigger] p.nodes[k] == incoming(
        e,
        p,
        k as usize,
        e.predecessors[k].len(),
    ) by {
        lemma_idle_incoming(e, k as usize, e.predecessors[k].len());
    }
}

proof fn lemma_idle_outgoing(e: Edges, k: usize, upto: nat)
    requires
        k < e.successors.len(),
        upto <= e.successors[k as int].len(),
    ensures
        outgoing_except(idle_profile(e), k, -1, upto) == 0,
    decreases upto,
{
    if upto > 0 {
        lemma_idle_outgoing(e, k, (upto - 1) as nat);
    }
}

proof fn lemma_idle_incoming(e: Edges, k: usize, upto: nat)
    requires
        e.well_formed(),
        k < e.successors.len(),
        upto <= e.predecessors[k as int].len(),
    ensures
        incoming(e, idle_profile(e), k, upto) == 0,
    decreases upto,
{
    if upto > 0 {
        lemma_idle_incoming(e, k, (upto - 1) as nat);
        let from = e.predecessors[k as int][upto - 1];
        assert(e.predecessors[k as int].contains(from));
        assert(e.successors[from as int].contains(k));
        let at = e.successors[from as int].index_of(k);
        assert(0 <= at < e.successors[from as int].len());
    }
}

/// What the physical counter `id` reads after a run with the profile `p`:
/// the count of the node or edge at which it is incremented.
pub open spec fn counter_value(st: CountersView, p: Profile, id: int) -> int {
    match st.sites[id] {
        CounterSite::Node { bcb } => p.nodes[bcb as int],
        CounterSite::Edge { from_bcb, successor } => p.edges[from_bcb as int][successor as int],
    }
}

/// The value of `term` after a run with the profile `p`, where `term` is a
/// counter or one of the first `limit` expressions.
pub open spec fn term_value(st: CountersView, p: Profile, term: CovTerm, limit: nat) -> int
    decreases limit,
{
    match term {
        CovTerm::Counter(id) => counter_value(st, p, id as int),
        CovTerm::Expression(id) => {
            if id < limit {
                let expression = st.expressions[id as int];
                let lhs = term_value(st, p, expression.lhs, id as nat);
                let rhs = term_value(st, p, expression.rhs, id as nat);
                match expression.op {
                    Op::Add => lhs + rhs,
                    Op::Subtract => lhs - rhs,
                }
            } else {
                0
            }
        },
    }
}

/// The value of an assigned term after a run with the profile `p`.
pub open spec fn value(st: CountersView, p: Profile, term: BcbCounter) -> int {
    term_value(st, p, term.as_term(), st.expressions.len())
}

/// Under the profile `p`, every assigned term has the count of its node or
/// edge as its value.
pub open spec fn counts_correctly(st: CountersView, p: Profile) -> bool {
    &&& forall|k: int|
        0 <= k < st.node_terms.len() && (#[trigger] st.node_terms[k]) is Some ==> value(
            st,
            p,
            st.node_terms[k]->0,
        ) == p.nodes[k]
    &&& forall|k: int, i: int|
        0 <= k < st.edge_terms.len() && 0 <= i < st.edge_terms[k].len() && (
        #[trigger] st.edge_terms[k][i]) is Some ==> value(st, p, st.edge_terms[k][i]->0)
            == p.edges[k][i]
}

/// Under every flow through the graph, every assigned term has the count of
/// its node or edge as its value.
pub open spec fn is_sound(st: CountersView, e: Edges) -> bool {
    forall|p: Profile| #[trigger] is_flow(e, p) ==> counts_correctly(st, p)
}

/// Under every flow through the graph, `term` has the count of node `bcb`
/// as its value.
pub open spec fn counts_node(st: CountersView, e: Edges, term: BcbCounter, bcb: usize) -> bool {
    forall|p: Profile| #[trigger] is_flow(e, p) ==> value(st, p, term) == p.nodes[bcb as int]
}

/// Under every flow through the graph, `term` has the count of the edge from
/// `from_bcb` to `to_bcb` as its value.
pub open spec fn counts_edge(
    st: CountersView,
    e: Edges,
    term: BcbCounter,
    from_bcb: usize,
    to_bcb: usize,
) -> bool {
    forall|p: Profile| #[trigger]
        is_flow(e, p) ==> value(st, p, term) == edge_count(e, p, from_bcb, to_bcb)
}

/// The value of a term depends only on the counters and expressions that
/// were there when it was defined.
pub(crate) proof fn lemma_term_value_stable(
    a: CountersView,
    b: CountersView,
    p: Profile,
    term: CovTerm,
    limit_a: nat,
    limit_b: nat,
)
    requires
        a.sites.is_prefix_of(b.sites),
        a.expressions.is_prefix_of(b.expressions),
        a.expressions_ordered(),
        term_defined(term, a.sites.len(), limit_a),
        limit_a <= a.expressions.len(),
        limit_a <= limit_b,
    ensures
        term_value(a, p, term, limit_a) == term_value(b, p, term, limit_b),
    decreases limit_a,
{
    match term {
        CovTerm::Counter(id) => {
            assert(a.sites[id as int] == b.sites[id as int]);
        },
        CovTerm::Expression(id) => {
            let expression = a.expressions[id as int];
            assert(expression == b.expressions[id as int]);
            lemma_term_value_stable(a, b, p, expression.lhs, id as nat, id as nat);
            lemma_term_value_stable(a, b, p, expression.rhs, id as nat, id as nat);
        },
    }
}

/// A term keeps its value when the assignment is extended.
pub(crate) proof fn lemma_value_stable(a: CountersView, b: CountersView, p: Profile, term: BcbCounter)
    requires
        b.extends(a),
        a.expressions_ordered(),
        a.defines(term),
    ensures
        value(b, p, term) == value(a, p, term),
{
    lemma_term_value_stable(a, b, p, term.as_term(), a.expressions.len(), b.expressions.len());
}

/// An extension that assigns nothing new counts as correctly as before.
pub(crate) proof fn lemma_counts_stable(a: CountersView, b: CountersView, p: Profile)
    requires
        b.extends(a),
        a.expressions_ordered(),
        a.terms_defined(),
        counts_correctly(a, p),
        b.node_terms == a.node_terms,
        b.edge_terms == a.edge_terms,
    ensures
        counts_correctly(b, p),
{
    assert forall|k: int|
        0 <= k < b.node_terms.len() && (#[trigger] b.node_terms[k]) is Some implies value(
        b,
        p,
        b.node_terms[k]->0,
    ) == p.nodes[k] by {
        assert(a.node_terms[k] is Some);
        lemma_value_stable(a, b, p, a.node_terms[k]->0);
    }
    assert forall|k: int, i: int|
        0 <= k < b.edge_terms.len() && 0 <= i < b.edge_terms[k].len() && (
        #[trigger] b.edge_terms[k][i]) is Some implies value(b, p, b.edge_terms[k][i]->0)
        == p.edges[k][i] by {
        assert(a.edge_terms[k][i] is Some);
        lemma_value_stable(a, b, p, a.edge_terms[k][i]->0);
    }
}

/// Under every flow through the graph, `term` has the count of the edge from
/// `from_bcb` to its successor at position `successor` as its value.
pub open spec fn counts_slot(
    st: CountersView,
    e: Edges,
    term: BcbCounter,
    from_bcb: usize,
    successor: usize,
) -> bool {
    forall|p: Profile| #[trigger]
        is_flow(e, p) ==> value(st, p, term) == p.edges[from_bcb as int][successor as int]
}

/// Under every flow through the graph, `sum` has as its value the sum of the
/// counts of the edges into `bcb` from its first `upto` predecessors.
pub open spec fn counts_incoming(
    st: CountersView,
    e: Edges,
    sum: BcbCounter,
    bcb: usize,
    upto: nat,
) -> bool {
    forall|p: Profile| #[trigger] is_flow(e, p) ==> value(st, p, sum) == incoming(e, p, bcb, upto)
}

/// Under every flow through the graph, `sum` has as its value the sum of the
/// counts of the first `upto` edges out of `bcb`, but for the one at
/// position `skip`; that sum is 0 where there is no term yet.
pub open spec fn counts_other_branches(
    st: CountersView,
    e: Edges,
    sum: Option<BcbCounter>,
    bcb: usize,
    skip: int,
    upto: nat,
) -> bool {
    forall|p: Profile| #[trigger]
        is_flow(e, p) ==> outgoing_except(p, bcb, skip, upto) == match sum {
            Some(total) => value(st, p, total),
            None => 0,
        }
}

/// A new counter on a node counts the node.
pub(crate) proof fn lemma_sound_with_node_counter(st: CountersView, e: Edges, bcb: usize)
    requires
        st.well_formed(e.successors),
        is_sound(st, e),
        st.sites.len() <= usize::MAX,
        bcb < st.node_terms.len(),
        st.node_terms[bcb as int] is None,
    ensures
        is_sound(st.with_node_counter(bcb), e),
        counts_node(st.with_node_counter(bcb), e, st.next_counter(), bcb),
{
    let after = st.with_node_counter(bcb);
    lemma_with_node_counter(st, e.successors, bcb);
    assert forall|p: Profile| #[trigger] is_flow(e, p) implies counts_correctly(after, p) && value(
        after,
        p,
        st.next_counter(),
    ) == p.nodes[bcb as int] by {
        assert(counts_correctly(st, p));
        assert forall|k: int|
            0 <= k < after.node_terms.len() && (#[trigger] after.node_terms[k]) is Some implies value(
            after,
            p,
            after.node_terms[k]->0,
        ) == p.nodes[k] by {
            if k != bcb {
                assert(st.node_terms[k] is Some);
                lemma_value_stable(st, after, p, st.node_terms[k]->0);
            }
        }
        assert forall|k: int, i: int|
            0 <= k < after.edge_terms.len() && 0 <= i < after.edge_terms[k].len() && (
            #[trigger] after.edge_terms[k][i]) is Some implies value(
            after,
            p,
            after.edge_terms[k][i]->0,
        ) == p.edges[k][i] by {
            assert(st.edge_terms[k][i] is Some);
            lemma_value_stable(st, after, p, st.edge_terms[k][i]->0);
        }
    }
}

/// A new counter on an edge counts the edge.
pub(crate) proof fn lemma_sound_with_edge_counter(
    st: CountersView,
    e: Edges,
    from_bcb: usize,
    successor: usize,
)
    requires
        st.well_formed(e.successors),
        is_sound(st, e),
        st.sites.len() <= usize::MAX,
        from_bcb < st.edge_terms.len(),
        successor < st.edge_terms[from_bcb as int].len(),
        st.edge_terms[from_bcb as int][successor as int] is None,
    ensures
        is_sound(st.with_edge_counter(from_bcb, successor), e),
        counts_slot(
            st.with_edge_counter(from_bcb, successor),
            e,
            st.next_counter(),
            from_bcb,
            successor,
        ),
{
    let after = st.with_edge_counter(from_bcb, successor);
    lemma_with_edge_counter(st, e.successors, from_bcb, successor);
    assert forall|p: Profile| #[trigger] is_flow(e, p) implies counts_correctly(after, p) && value(
        after,
        p,
        st.next_counter(),
    ) == p.edges[from_bcb as int][successor as int] by {
        assert(counts_correctly(st, p));
        assert forall|k: int|
            0 <= k < after.node_terms.len() && (#[trigger] after.node_terms[k]) is Some implies value(
            after,
            p,
            after.node_terms[k]->0,
        ) == p.nodes[k] by {
            assert(st.node_terms[k] is Some);
            lemma_value_stable(st, after, p, st.node_terms[k]->0);
        }
        assert forall|k: int, i: int|
            0 <= k < after.edge_terms.len() && 0 <= i < after.edge_terms[k].len() && (
            #[trigger] after.edge_terms[k][i]) is Some implies value(
            after,
            p,
            after.edge_terms[k][i]->0,
        ) == p.edges[k][i] by {
            if !(k == from_bcb && i == successor) {
                assert(after.edge_terms[k][i] == st.edge_terms[k][i]);
                assert(st.edge_terms[k][i] is Some);
                lemma_value_stable(st, after, p, st.edge_terms[k][i]->0);
            }
        }
    }
}

/// What `op` makes of two values.
pub open spec fn combine(lhs: int, op: Op, rhs: int) -> int {
    match op {
        Op::Add => lhs + rhs,
        Op::Subtract => lhs - rhs,
    }
}

/// A new expression has the value that its operator makes of the values of
/// its operands, and changes no other value.
pub(crate) proof fn lemma_sound_with_expression(
    st: CountersView,
    e: Edges,
    lhs: BcbCounter,
    op: Op,
    rhs: BcbCounter,
)
    requires
        st.well_formed(e.successors),
        is_sound(st, e),
        st.expressions.len() <= usize::MAX,
        st.defines(lhs),
        st.defines(rhs),
    ensures
        is_sound(st.with_expression(lhs, op, rhs), e),
        forall|p: Profile| #[trigger]
            value(st.with_expression(lhs, op, rhs), p, st.next_expression()) == combine(
                value(st, p, lhs),
                op,
                value(st, p, rhs),
            ),
{
    let after = st.with_expression(lhs, op, rhs);
    lemma_with_expression(st, e.successors, lhs, op, rhs);
    assert forall|p: Profile| #[trigger]
        value(after, p, st.next_expression()) == combine(
            value(st, p, lhs),
            op,
            value(st, p, rhs),
        ) by {
        let n = st.expressions.len();
        lemma_term_value_stable(st, after, p, lhs.as_term(), n, n);
        lemma_term_value_stable(st, after, p, rhs.as_term(), n, n);
    }
    assert forall|p: Profile| #[trigger] is_flow(e, p) implies counts_correctly(after, p) by {
        assert(counts_correctly(st, p));
        lemma_counts_stable(st, after, p);
    }
}

/// A node may be counted by a term that counts it.
pub(crate) proof fn lemma_sound_with_node_term(st: CountersView, e: Edges, bcb: usize, term: BcbCounter)
    requires
        st.well_formed(e.successors),
        is_sound(st, e),
        bcb < st.node_terms.len(),
        st.node_terms[bcb as int] is None,
        term is Expression,
        st.defines(term),
        counts_node(st, e, term, bcb),
    ensures
        is_sound(st.with_node_term(bcb, term), e),
{
    let after = st.with_node_term(bcb, term);
    lemma_with_node_term(st, e.successors, bcb, term);
    assert forall|p: Profile| #[trigger] is_flow(e, p) implies counts_correctly(after, p) by {
        assert(counts_correctly(st, p));
        assert forall|k: int|
            0 <= k < after.node_terms.len() && (#[trigger] after.node_terms[k]) is Some implies value(
            after,
            p,
            after.node_terms[k]->0,
        ) == p.nodes[k] by {
            if k != bcb {
                assert(st.node_terms[k] is Some);
                lemma_value_stable(st, after, p, st.node_terms[k]->0);
            } else {
                lemma_value_stable(st, after, p, term);
            }
        }
        assert forall|k: int, i: int|
            0 <= k < after.edge_terms.len() && 0 <= i < after.edge_terms[k].len() && (
            #[trigger] after.edge_terms[k][i]) is Some implies value(
            after,
            p,
            after.edge_terms[k][i]->0,
        ) == p.edges[k][i] by {
            assert(st.edge_terms[k][i] is Some);
            lemma_value_stable(st, after, p, st.edge_terms[k][i]->0);
        }
    }
}

/// An edge may be counted by a term that counts it.
pub(crate) proof fn lemma_sound_with_edge_term(
    st: CountersView,
    e: Edges,
    from_bcb: usize,
    successor: usize,
    term: BcbCounter,
)
    requires
        st.well_formed(e.successors),
        is_sound(st, e),
        from_bcb < st.edge_terms.len(),
        successor < st.edge_terms[from_bcb as int].len(),
        st.edge_terms[from_bcb as int][successor as int] is None,
        term is Expression,
        st.defines(term),
        counts_slot(st, e, term, from_bcb, successor),
    ensures
        is_sound(st.with_edge_term(from_bcb, successor, term), e),
{
    let after = st.with_edge_term(from_bcb, successor, term);
    lemma_with_edge_term(st, e.successors, from_bcb, successor, term);
    assert forall|p: Profile| #[trigger] is_flow(e, p) implies counts_correctly(after, p) by {
        assert(counts_correctly(st, p));
        assert forall|k: int, i: int|
            0 <= k < after.edge_terms.len() && 0 <= i < after.edge_terms[k].len() && (
            #[trigger] after.edge_terms[k][i]) is Some implies value(
            after,
            p,
            after.edge_terms[k][i]->0,
        ) == p.edges[k][i] by {
            if !(k == from_bcb && i == successor) {
                assert(after.edge_terms[k][i] == st.edge_terms[k][i]);
                assert(st.edge_terms[k][i] is Some);
                lemma_value_stable(st, after, p, st.edge_terms[k][i]->0);
            } else {
                lemma_value_stable(st, after, p, term);
            }
        }
        assert forall|k: int|
            0 <= k < after.node_terms.len() && (#[trigger] after.node_terms[k]) is Some implies value(
            after,
            p,
            after.node_terms[k]->0,
        ) == p.nodes[k] by {
            assert(st.node_terms[k] is Some);
            lemma_value_stable(st, after, p, st.node_terms[k]->0);
        }
    }
}

/// In a list without repetition, a member is found where it stands.
pub(crate) proof fn lemma_index_of(list: Seq<usize>, i: int)
    requires
        list.no_duplicates(),
        0 <= i < list.len(),
    ensures
        list.index_of(list[i]) == i,
{
    let found = list.index_of(list[i]);
    assert(0 <= found < list.len() && list[found] == list[i]);
}

/// A node that is entered along one edge only is executed as often as that
/// edge.
pub proof fn lemma_only_way_in(e: Edges, p: Profile, from_bcb: usize, to_bcb: usize)
    requires
        e.well_formed(),
        is_flow(e, p),
        from_bcb < e.successors.len(),
        to_bcb < e.successors.len(),
        e.successors[from_bcb as int].contains(to_bcb),
        to_bcb != 0,
        e.predecessors[to_bcb as int].len() <= 1,
    ensures
        p.nodes[to_bcb as int] == edge_count(e, p, from_bcb, to_bcb),
{
    let list = e.predecessors[to_bcb as int];
    assert(list.contains(from_bcb));
    assert(list[0] == from_bcb);
    assert(incoming(e, p, to_bcb, 0) == 0);
    assert(incoming(e, p, to_bcb, 1) == incoming(e, p, to_bcb, 0) + edge_count(
        e,
        p,
        list[0],
        to_bcb,
    ));
}

/// A node that is left along one edge only is executed as often as that
/// edge.
pub proof fn lemma_only_way_out(e: Edges, p: Profile, from_bcb: usize, to_bcb: usize)
    requires
        e.well_formed(),
        is_flow(e, p),
        from_bcb < e.successors.len(),
        e.successors[from_bcb as int].len() == 1,
        e.successors[from_bcb as int].contains(to_bcb),
    ensures
        p.nodes[from_bcb as int] == edge_count(e, p, from_bcb, to_bcb),
{
    let list = e.successors[from_bcb as int];
    assert(list[0] == to_bcb);
    lemma_index_of(list, 0);
    assert(outgoing_except(p, from_bcb, -1, 0) == 0);
    assert(outgoing_except(p, from_bcb, -1, 1) == outgoing_except(p, from_bcb, -1, 0)
        + p.edges[from_bcb as int][0]);
}

/// The edges out of a node are the one at position `skip` and the others.
pub(crate) proof fn lemma_outgoing_split(p: Profile, bcb: usize, skip: int, upto: nat)
    requires
        0 <= skip,
    ensures
        outgoing(p, bcb, upto) == outgoing_except(p, bcb, skip, upto) + if skip < upto {
            p.edges[bcb as int][skip]
        } else {
            0
        },
    decreases upto,
{
    if upto > 0 {
        lemma_outgoing_split(p, bcb, skip, (upto - 1) as nat);
    }
}

} // verus!
