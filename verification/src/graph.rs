//! The coverage graph: the control-flow graph of a function with every
//! branch-free chain of blocks drawn together into one node.

use crate::mir::{cfg_well_formed, Body};
use vstd::prelude::*;

verus! {

/// Whether `path[i + 1]` is a successor of `path[i]`.
pub open spec fn is_step(cfg: Seq<Seq<usize>>, path: Seq<usize>, i: int) -> bool {
    cfg[path[i] as int].contains(path[i + 1])
}

/// A walk through the graph that begins at the start block.
pub open spec fn is_path(cfg: Seq<Seq<usize>>, path: Seq<usize>) -> bool {
    &&& path.len() > 0
    &&& path[0] == 0
    &&& forall|i: int| 0 <= i < path.len() ==> #[trigger] path[i] < cfg.len()
    &&& forall|i: int| 0 <= i < path.len() - 1 ==> #[trigger] is_step(cfg, path, i)
}

/// Whether some walk from the start block ends at `b`.
pub open spec fn reachable(cfg: Seq<Seq<usize>>, b: usize) -> bool {
    exists|path: Seq<usize>| #[trigger] is_path(cfg, path) && path.last() == b
}

proof fn lemma_start_reachable(cfg: Seq<Seq<usize>>)
    requires
        cfg.len() > 0,
    ensures
        reachable(cfg, 0),
{
    let path = seq![0usize];
    assert(is_path(cfg, path));
    assert(path.last() == 0);
}

proof fn lemma_step_reachable(cfg: Seq<Seq<usize>>, a: usize, s: int)
    requires
        cfg_well_formed(cfg),
        reachable(cfg, a),
        a < cfg.len(),
        0 <= s < cfg[a as int].len(),
    ensures
        reachable(cfg, cfg[a as int][s]),
{
    let path = choose|path: Seq<usize>| #[trigger] is_path(cfg, path) && path.last() == a;
    let t = cfg[a as int][s];
    let longer = path.push(t);
    assert forall|i: int| 0 <= i < longer.len() - 1 implies #[trigger] is_step(cfg, longer, i) by {
        if i < path.len() - 1 {
            assert(is_step(cfg, path, i));
        }
    }
    assert(is_path(cfg, longer));
    assert(longer.last() == t);
}

/// A set of blocks that holds the start block and every successor of its
/// members holds every block that a path ends at.
proof fn lemma_closed_holds_path(cfg: Seq<Seq<usize>>, visited: Seq<bool>, path: Seq<usize>)
    requires
        visited.len() == cfg.len(),
        cfg.len() > 0,
        visited[0],
        forall|a: int, s: int|
            0 <= a < cfg.len() && 0 <= s < cfg[a].len() && visited[a] ==> visited[#[trigger] cfg[a][s] as int],
        is_path(cfg, path),
    ensures
        visited[path.last() as int],
    decreases path.len(),
{
    if path.len() > 1 {
        let shorter = path.drop_last();
        assert forall|i: int| 0 <= i < shorter.len() - 1 implies #[trigger] is_step(
            cfg,
            shorter,
            i,
        ) by {
            assert(is_step(cfg, path, i));
        }
        assert(is_path(cfg, shorter));
        lemma_closed_holds_path(cfg, visited, shorter);
        let a = path[path.len() - 2];
        assert(shorter.last() == a);
        assert(is_step(cfg, path, path.len() - 2));
        let s = choose|s: int| 0 <= s < cfg[a as int].len() && cfg[a as int][s] == path.last();
        assert(visited[cfg[a as int][s] as int]);
    }
}

/// The number of entries of `v` that are `false`.
pub open spec fn count_false(v: Seq<bool>) -> nat
    decreases v.len(),
{
    if v.len() == 0 {
        0
    } else {
        count_false(v.drop_last()) + if v.last() {
            0nat
        } else {
            1nat
        }
    }
}

proof fn lemma_count_false_update(v: Seq<bool>, i: int)
    requires
        0 <= i < v.len(),
        !v[i],
    ensures
        count_false(v.update(i, true)) + 1 == count_false(v),
    decreases v.len(),
{
    if i == v.len() - 1 {
        assert(v.update(i, true).drop_last() =~= v.drop_last());
    } else {
        assert(v.update(i, true).drop_last() =~= v.drop_last().update(i, true));
        lemma_count_false_update(v.drop_last(), i);
    }
}

/// Marks the blocks that can be reached from the start block.
pub fn reachable_blocks(body: &Body) -> (visited: Vec<bool>)
    requires
        body.well_formed(),
    ensures
        visited@.len() == body.basic_blocks@.len(),
        forall|b: int|
            0 <= b < visited@.len() ==> #[trigger] visited@[b] == reachable(body.cfg(), b as usize),
{
    let n = body.basic_blocks.len();
    let ghost cfg = body.cfg();
    let mut visited: Vec<bool> = vec![false; n];
    let mut stack: Vec<usize> = Vec::new();
    visited.set(0, true);
    stack.push(0);
    proof {
        lemma_start_reachable(cfg);
        assert(stack@[0] == 0);
    }
    while stack.len() > 0
        invariant
            n == body.basic_blocks@.len(),
            cfg == body.cfg(),
            cfg_well_formed(cfg),
            visited@.len() == n,
            visited@[0],
            forall|i: int|
                0 <= i < stack@.len() ==> #[trigger] stack@[i] < n && visited@[stack@[i] as int],
            forall|b: int| 0 <= b < n && #[trigger] visited@[b] ==> reachable(cfg, b as usize),
            forall|a: int, s: int|
                0 <= a < n && 0 <= s < cfg[a].len() && visited@[a] && !stack@.contains(a as usize)
                    ==> visited@[#[trigger] cfg[a][s] as int],
        decreases count_false(visited@), stack@.len(),
    {
        let ghost stack_before = stack@;
        let ghost visited_before = visited@;
        let b = stack.pop().unwrap();
        let kind = &body.basic_blocks[b].terminator.kind;
        let count = kind.num_successors();
        let mut s: usize = 0;
        let ghost popped = stack@;
        assert forall|a: usize| a != b && !(#[trigger] popped.contains(a)) implies
            !stack_before.contains(a) by {
            if stack_before.contains(a) {
                let i = choose|i: int| 0 <= i < stack_before.len() && stack_before[i] == a;
                assert(popped[i] == a);
            }
        }
        while s < count
            invariant
                n == body.basic_blocks@.len(),
                cfg == body.cfg(),
                cfg_well_formed(cfg),
                visited@.len() == n,
                visited@[0],
                b < n,
                visited@[b as int],
                s <= count,
                count == cfg[b as int].len(),
                kind.successor_seq() == cfg[b as int],
                forall|i: int|
                    0 <= i < stack@.len() ==> #[trigger] stack@[i] < n && visited@[stack@[i] as int],
                forall|b: int| 0 <= b < n && #[trigger] visited@[b] ==> reachable(cfg, b as usize),
                forall|t: int| 0 <= t < s ==> visited@[#[trigger] cfg[b as int][t] as int],
                forall|a: int, s: int|
                    0 <= a < n && a != b && 0 <= s < cfg[a].len() && visited@[a] && !stack@.contains(
                        a as usize,
                    ) ==> visited@[#[trigger] cfg[a][s] as int],
                count_false(visited@) <= count_false(visited_before),
                count_false(visited@) == count_false(visited_before) ==> stack@ == popped,
            decreases count - s,
        {
            let t = kind.successor(s);
            if !visited[t] {
                proof {
                    lemma_count_false_update(visited@, t as int);
                    lemma_step_reachable(cfg, b, s as int);
                }
                let ghost stack_old = stack@;
                visited.set(t, true);
                stack.push(t);
                proof {
                    assert(stack@[stack@.len() - 1] == t);
                    assert(stack@.contains(t));
                    assert forall|a: usize| !(#[trigger] stack@.contains(a)) implies
                        !stack_old.contains(a) by {
                        if stack_old.contains(a) {
                            let i = choose|i: int| 0 <= i < stack_old.len() && stack_old[i] == a;
                            assert(stack@[i] == a);
                        }
                    }
                }
            }
            s = s + 1;
        }
    }
    proof {
        assert forall|b: int| 0 <= b < visited@.len() implies #[trigger] visited@[b] == reachable(
            cfg,
            b as usize,
        ) by {
            if reachable(cfg, b as usize) {
                let path = choose|path: Seq<usize>| #[trigger]
                    is_path(cfg, path) && path.last() == b as usize;
                assert forall|a: int, s: int|
                    0 <= a < cfg.len() && 0 <= s < cfg[a].len() && visited@[a] implies visited@[#[trigger] cfg[a][s] as int] by {
                    assert(!stack@.contains(a as usize));
                }
                lemma_closed_holds_path(cfg, visited@, path);
            }
        }
    }
    visited
}

/// Slot `s` of block `a` leads to block `t`.
pub open spec fn targets(cfg: Seq<Seq<usize>>, a: int, s: int, t: usize) -> bool {
    0 <= a < cfg.len() && 0 <= s < cfg[a].len() && cfg[a][s] == t
}

/// `b` continues the chain that `p` ends: `b` is the only successor of `p`,
/// no slot of another block leads to `b`, and `b` is not the start block.
pub open spec fn is_link(cfg: Seq<Seq<usize>>, p: int, b: usize) -> bool {
    &&& 0 <= p < cfg.len()
    &&& b != 0
    &&& cfg[p].len() == 1
    &&& cfg[p][0] == b
    &&& forall|a: int, s: int| #[trigger] targets(cfg, a, s, b) ==> a == p
}

/// Whether some block is linked to `b`.
pub open spec fn has_link_into(cfg: Seq<Seq<usize>>, b: usize) -> bool {
    exists|p: int| #[trigger] is_link(cfg, p, b)
}

/// Whether `a` is linked to some block.
pub open spec fn has_link_out_of(cfg: Seq<Seq<usize>>, a: int) -> bool {
    exists|b: usize| #[trigger] is_link(cfg, a, b)
}

/// Slot `(a, s)` comes before slot `(row, col)` in the order of blocks and,
/// within a block, of slots.
spec fn slot_before(a: int, s: int, row: int, col: int) -> bool {
    a < row || (a == row && s < col)
}

/// For every block, the block that it continues the chain of, if any.
pub fn chain_predecessors(body: &Body) -> (link: Vec<Option<usize>>)
    requires
        body.well_formed(),
    ensures
        link@.len() == body.basic_blocks@.len(),
        forall|b: int|
            0 <= b < link@.len() ==> match #[trigger] link@[b] {
                Some(p) => is_link(body.cfg(), p as int, b as usize),
                None => !has_link_into(body.cfg(), b as usize),
            },
{
    let n = body.basic_blocks.len();
    let ghost cfg = body.cfg();
    let mut first: Vec<Option<usize>> = vec![None; n];
    let mut multi: Vec<bool> = vec![false; n];
    let ghost mut w1: Seq<(int, int)> = Seq::new(n as nat, |t: int| (0int, 0int));
    let ghost mut w2: Seq<(int, int)> = Seq::new(n as nat, |t: int| (0int, 0int));
    let mut a: usize = 0;
    while a < n
        invariant
            n == body.basic_blocks@.len(),
            cfg == body.cfg(),
            cfg_well_formed(cfg),
            a <= n,
            first@.len() == n,
            multi@.len() == n,
            w1.len() == n,
            w2.len() == n,
            forall|t: int, x: int, y: int|
                0 <= t < n && first@[t] is None && slot_before(x, y, a as int, 0) ==> !#[trigger] targets(
                    cfg,
                    x,
                    y,
                    t as usize,
                ),
            forall|t: int|
                0 <= t < n && #[trigger] first@[t] is Some ==> first@[t]->0 == w1[t].0 && slot_before(
                    w1[t].0,
                    w1[t].1,
                    a as int,
                    0,
                ) && targets(cfg, w1[t].0, w1[t].1, t as usize),
            forall|t: int, x: int, y: int|
                0 <= t < n && !multi@[t] && first@[t] is Some && slot_before(x, y, a as int, 0)
                    && #[trigger] targets(cfg, x, y, t as usize) ==> (x, y) == w1[t],
            forall|t: int|
                0 <= t < n && #[trigger] multi@[t] ==> first@[t] is Some && w2[t] != w1[t]
                    && targets(cfg, w2[t].0, w2[t].1, t as usize),
        decreases n - a,
    {
        let kind = &body.basic_blocks[a].terminator.kind;
        let count = kind.num_successors();
        let mut s: usize = 0;
        while s < count
            invariant
                n == body.basic_blocks@.len(),
                cfg == body.cfg(),
                cfg_well_formed(cfg),
                a < n,
                s <= count,
                count == cfg[a as int].len(),
                kind.successor_seq() == cfg[a as int],
                first@.len() == n,
                multi@.len() == n,
                w1.len() == n,
                w2.len() == n,
                forall|t: int, x: int, y: int|
                    0 <= t < n && first@[t] is None && slot_before(x, y, a as int, s as int)
                        ==> !#[trigger] targets(cfg, x, y, t as usize),
                forall|t: int|
                    0 <= t < n && #[trigger] first@[t] is Some ==> first@[t]->0 == w1[t].0
                        && slot_before(w1[t].0, w1[t].1, a as int, s as int) && targets(
                        cfg,
                        w1[t].0,
                        w1[t].1,
                        t as usize,
                    ),
                forall|t: int, x: int, y: int|
                    0 <= t < n && !multi@[t] && first@[t] is Some && slot_before(
                        x,
                        y,
                        a as int,
                        s as int,
                    ) && #[trigger] targets(cfg, x, y, t as usize) ==> (x, y) == w1[t],
                forall|t: int|
                    0 <= t < n && #[trigger] multi@[t] ==> first@[t] is Some && w2[t] != w1[t]
                        && targets(cfg, w2[t].0, w2[t].1, t as usize),
            decreases count - s,
        {
            let t = kind.successor(s);
            assert(targets(cfg, a as int, s as int, t));
            match first[t] {
                None => {
                    first.set(t, Some(a));
                    proof {
                        w1 = w1.update(t as int, (a as int, s as int));
                    }
                },
                Some(_) => {
                    multi.set(t, true);
                    proof {
                        w2 = w2.update(t as int, (a as int, s as int));
                    }
                },
            }
            s = s + 1;
        }
        a = a + 1;
    }
    let mut link: Vec<Option<usize>> = Vec::new();
    let mut b: usize = 0;
    while b < n
        invariant
            n == body.basic_blocks@.len(),
            cfg == body.cfg(),
            cfg_well_formed(cfg),
            b <= n,
            link@.len() == b,
            first@.len() == n,
            multi@.len() == n,
            w1.len() == n,
            w2.len() == n,
            forall|t: int, x: int, y: int|
                0 <= t < n && first@[t] is None ==> !#[trigger] targets(cfg, x, y, t as usize),
            forall|t: int|
                0 <= t < n && #[trigger] first@[t] is Some ==> first@[t]->0 == w1[t].0 && targets(
                    cfg,
                    w1[t].0,
                    w1[t].1,
                    t as usize,
                ),
            forall|t: int, x: int, y: int|
                0 <= t < n && !multi@[t] && first@[t] is Some && #[trigger] targets(
                    cfg,
                    x,
                    y,
                    t as usize,
                ) ==> (x, y) == w1[t],
            forall|t: int|
                0 <= t < n && #[trigger] multi@[t] ==> first@[t] is Some && w2[t] != w1[t]
                    && targets(cfg, w2[t].0, w2[t].1, t as usize),
            forall|c: int|
                0 <= c < b ==> match #[trigger] link@[c] {
                    Some(p) => is_link(cfg, p as int, c as usize),
                    None => !has_link_into(cfg, c as usize),
                },
        decreases n - b,
    {
        let mut entry: Option<usize> = None;
        if b != 0 && !multi[b] {
            match first[b] {
                Some(p) => {
                    if body.basic_blocks[p].terminator.kind.num_successors() == 1 {
                        entry = Some(p);
                    }
                },
                None => {},
            }
        }
        proof {
            match entry {
                Some(p) => {
                    assert(targets(cfg, w1[b as int].0, w1[b as int].1, b));
                    assert(is_link(cfg, p as int, b));
                },
                None => {
                    assert forall|q: int| !#[trigger] is_link(cfg, q, b) by {
                        if is_link(cfg, q, b) {
                            assert(targets(cfg, q, 0, b));
                            assert(targets(cfg, w1[b as int].0, w1[b as int].1, b));
                            if multi@[b as int] {
                                assert(targets(cfg, w2[b as int].0, w2[b as int].1, b));
                            }
                        }
                    }
                },
            }
        }
        link.push(entry);
        b = b + 1;
    }
    link
}

/// Whether `s[i + 1]` continues the chain at `s[i]`.
pub open spec fn is_chain_step(cfg: Seq<Seq<usize>>, s: Seq<usize>, i: int) -> bool {
    is_link(cfg, s[i] as int, s[i + 1])
}

/// A run of blocks, each linked to the next.
pub open spec fn is_chain(cfg: Seq<Seq<usize>>, s: Seq<usize>) -> bool {
    &&& s.len() > 0
    &&& s[0] < cfg.len()
    &&& forall|i: int| 0 <= i < s.len() - 1 ==> #[trigger] is_chain_step(cfg, s, i)
}

/// A block at which a chain begins: one that can be reached and that
/// continues no other block's chain.
pub open spec fn is_leader(cfg: Seq<Seq<usize>>, b: usize) -> bool {
    b < cfg.len() && reachable(cfg, b) && !has_link_into(cfg, b)
}

/// A chain that cannot be made longer at either end: it begins at a leader,
/// and its last block is linked to no block.
pub open spec fn is_maximal_chain(cfg: Seq<Seq<usize>>, s: Seq<usize>) -> bool {
    is_chain(cfg, s) && is_leader(cfg, s[0]) && !has_link_out_of(cfg, s.last() as int)
}

proof fn lemma_chain_reachable(cfg: Seq<Seq<usize>>, s: Seq<usize>, i: int)
    requires
        cfg_well_formed(cfg),
        is_chain(cfg, s),
        reachable(cfg, s[0]),
        0 <= i < s.len(),
    ensures
        reachable(cfg, s[i]),
    decreases i,
{
    if i > 0 {
        lemma_chain_reachable(cfg, s, i - 1);
        assert(is_chain_step(cfg, s, i - 1));
        lemma_step_reachable(cfg, s[i - 1], 0);
    }
}

/// Two positions of a chain that begins at a block without a link into it
/// hold different blocks.
pub(crate) proof fn lemma_chain_distinct(cfg: Seq<Seq<usize>>, s: Seq<usize>, i: int, j: int)
    requires
        is_maximal_chain(cfg, s),
        0 <= i < j < s.len(),
    ensures
        s[i] != s[j],
{
    lemma_chain_no_repeat(cfg, s, i, j);
}

proof fn lemma_chain_no_repeat(cfg: Seq<Seq<usize>>, s: Seq<usize>, i: int, j: int)
    requires
        is_chain(cfg, s),
        !has_link_into(cfg, s[0]),
        0 <= i < j < s.len(),
    ensures
        s[i] != s[j],
    decreases i,
{
    assert(is_chain_step(cfg, s, j - 1));
    if s[i] == s[j] {
        if i == 0 {
            assert(is_link(cfg, s[j - 1] as int, s[0]));
        } else {
            assert(is_chain_step(cfg, s, i - 1));
            assert(targets(cfg, s[j - 1] as int, 0, s[j]));
            assert(targets(cfg, s[i - 1] as int, 0, s[i]));
            lemma_chain_no_repeat(cfg, s, i - 1, j - 1);
        }
    }
}

/// No more than `n` different numbers lie below `n`.
proof fn lemma_distinct_bounded(s: Seq<usize>, n: nat)
    requires
        forall|i: int, j: int| 0 <= i < j < s.len() ==> s[i] != s[j],
        forall|i: int| 0 <= i < s.len() ==> s[i] < n,
    ensures
        s.len() <= n,
    decreases n,
{
    if n == 0 {
        if s.len() > 0 {
            assert(s[0] < n);
        }
    } else {
        let top = (n - 1) as usize;
        if exists|j: int| 0 <= j < s.len() && s[j] == top {
            let j = choose|j: int| 0 <= j < s.len() && s[j] == top;
            let rest = s.remove(j);
            assert forall|x: int, y: int| 0 <= x < y < rest.len() implies rest[x] != rest[y] by {
                let x0 = if x < j { x } else { x + 1 };
                let y0 = if y < j { y } else { y + 1 };
                assert(rest[x] == s[x0] && rest[y] == s[y0]);
            }
            assert forall|x: int| 0 <= x < rest.len() implies rest[x] < (n - 1) as nat by {
                let x0 = if x < j { x } else { x + 1 };
                assert(rest[x] == s[x0]);
                if x0 < j {
                    assert(s[x0] != s[j]);
                } else {
                    assert(s[j] != s[x0]);
                }
            }
            lemma_distinct_bounded(rest, (n - 1) as nat);
        } else {
            lemma_distinct_bounded(s, (n - 1) as nat);
        }
    }
}

/// Every path ends on a chain that begins at a leader.
proof fn lemma_path_ends_on_chain(cfg: Seq<Seq<usize>>, path: Seq<usize>) -> (s: Seq<usize>)
    requires
        cfg_well_formed(cfg),
        is_path(cfg, path),
    ensures
        is_chain(cfg, s),
        is_leader(cfg, s[0]),
        s.last() == path.last(),
    decreases path.len(),
{
    let b = path.last();
    assert(reachable(cfg, b));
    if !has_link_into(cfg, b) {
        seq![b]
    } else {
        let p = choose|p: int| #[trigger] is_link(cfg, p, b);
        let a = path[path.len() - 2];
        assert(is_step(cfg, path, path.len() - 2));
        let slot = choose|slot: int| 0 <= slot < cfg[a as int].len() && cfg[a as int][slot] == b;
        assert(targets(cfg, a as int, slot, b));
        let shorter = path.drop_last();
        assert forall|i: int| 0 <= i < shorter.len() - 1 implies #[trigger] is_step(
            cfg,
            shorter,
            i,
        ) by {
            assert(is_step(cfg, path, i));
        }
        let head = lemma_path_ends_on_chain(cfg, shorter);
        let s = head.push(b);
        assert forall|i: int| 0 <= i < s.len() - 1 implies #[trigger] is_chain_step(cfg, s, i) by {
            if i < head.len() - 1 {
                assert(is_chain_step(cfg, head, i));
            }
        }
        s
    }
}

/// A chain runs along the maximal chain that begins at the same block.
proof fn lemma_chain_prefix(cfg: Seq<Seq<usize>>, s: Seq<usize>, t: Seq<usize>, i: int)
    requires
        is_chain(cfg, s),
        is_chain(cfg, t),
        s[0] == t[0],
        !has_link_out_of(cfg, t.last() as int),
        0 <= i < s.len(),
    ensures
        i < t.len(),
        s[i] == t[i],
    decreases i,
{
    if i > 0 {
        lemma_chain_prefix(cfg, s, t, i - 1);
        assert(is_chain_step(cfg, s, i - 1));
        if i >= t.len() {
            assert(is_link(cfg, t.last() as int, s[i]));
        } else {
            assert(is_chain_step(cfg, t, i - 1));
        }
    }
}

/// The nodes that the slots `targets` lead to, each once, in the order in
/// which the slots first name them.
pub open spec fn successor_bcbs(targets: Seq<usize>, bb_to_bcb: Seq<Option<usize>>) -> Seq<usize>
    decreases targets.len(),
{
    if targets.len() == 0 {
        seq![]
    } else {
        let before = successor_bcbs(targets.drop_last(), bb_to_bcb);
        match bb_to_bcb[targets.last() as int] {
            Some(k) => if before.contains(k) {
                before
            } else {
                before.push(k)
            },
            None => before,
        }
    }
}

/// The nodes below `upto` that have `k` among their successors, in rising
/// order.
pub open spec fn predecessor_bcbs(successors: Seq<Seq<usize>>, k: usize, upto: int) -> Seq<usize>
    decreases upto,
{
    if upto <= 0 {
        seq![]
    } else {
        let before = predecessor_bcbs(successors, k, upto - 1);
        if successors[upto - 1].contains(k) {
            before.push((upto - 1) as usize)
        } else {
            before
        }
    }
}

/// Every chain holds blocks of the graph, and `bb_to_bcb` names the chain of
/// each of them.
pub open spec fn chains_indexed(
    cfg: Seq<Seq<usize>>,
    chains: Seq<Seq<usize>>,
    bb_to_bcb: Seq<Option<usize>>,
) -> bool {
    forall|k: int, i: int|
        0 <= k < chains.len() && 0 <= i < chains[k].len() ==> (#[trigger] chains[k][i]) < cfg.len()
            && bb_to_bcb[chains[k][i] as int] == Some(k as usize)
}

/// Every block that `bb_to_bcb` gives a chain can be reached and stands in
/// that chain.
pub open spec fn index_sound(
    cfg: Seq<Seq<usize>>,
    chains: Seq<Seq<usize>>,
    bb_to_bcb: Seq<Option<usize>>,
) -> bool {
    forall|b: int|
        0 <= b < cfg.len() ==> (#[trigger] bb_to_bcb[b] matches Some(k) ==> k < chains.len()
            && chains[k as int].contains(b as usize) && reachable(cfg, b as usize))
}

/// The chains come in the order of their first blocks.
pub open spec fn leaders_rise(chains: Seq<Seq<usize>>) -> bool {
    forall|j: int, k: int|
        0 <= j < k < chains.len() ==> (#[trigger] chains[j])[0] < (#[trigger] chains[k])[0]
}

/// `chains` are the maximal chains of `cfg`, in the order of their first
/// blocks, and `bb_to_bcb` gives every reachable block its chain and no
/// other block any.
pub open spec fn is_partition(
    cfg: Seq<Seq<usize>>,
    chains: Seq<Seq<usize>>,
    bb_to_bcb: Seq<Option<usize>>,
) -> bool {
    &&& bb_to_bcb.len() == cfg.len()
    &&& forall|k: int| 0 <= k < chains.len() ==> is_maximal_chain(cfg, #[trigger] chains[k])
    &&& chains_indexed(cfg, chains, bb_to_bcb)
    &&& index_sound(cfg, chains, bb_to_bcb)
    &&& forall|b: int|
        0 <= b < cfg.len() && reachable(cfg, b as usize) ==> #[trigger] bb_to_bcb[b] is Some
    &&& leaders_rise(chains)
}

/// The edges between chains are those of `cfg` between the last block of one
/// chain and the first block of another.
pub open spec fn is_connected(
    cfg: Seq<Seq<usize>>,
    chains: Seq<Seq<usize>>,
    bb_to_bcb: Seq<Option<usize>>,
    successors: Seq<Seq<usize>>,
    predecessors: Seq<Seq<usize>>,
) -> bool {
    &&& successors.len() == chains.len()
    &&& predecessors.len() == chains.len()
    &&& forall|k: int|
        0 <= k < chains.len() ==> #[trigger] successors[k] == successor_bcbs(
            cfg[chains[k].last() as int],
            bb_to_bcb,
        )
    &&& forall|k: int|
        0 <= k < chains.len() ==> #[trigger] predecessors[k] == predecessor_bcbs(
            successors,
            k as usize,
            chains.len() as int,
        )
}

/// A coverage graph as a plain value.
pub struct GraphView {
    pub chains: Seq<Seq<usize>>,
    pub bb_to_bcb: Seq<Option<usize>>,
    pub successors: Seq<Seq<usize>>,
    pub predecessors: Seq<Seq<usize>>,
}

impl GraphView {
    /// The graph is the condensation of `cfg`.
    pub open spec fn condenses(self, cfg: Seq<Seq<usize>>) -> bool {
        is_partition(cfg, self.chains, self.bb_to_bcb) && is_connected(
            cfg,
            self.chains,
            self.bb_to_bcb,
            self.successors,
            self.predecessors,
        )
    }
}

/// The condensation of `cfg`.
pub open spec fn condensation(cfg: Seq<Seq<usize>>) -> GraphView {
    choose|graph: GraphView| graph.condenses(cfg)
}

/// Two rising sequences with the same members are equal.
proof fn lemma_rising_equal(x: Seq<usize>, y: Seq<usize>)
    requires
        forall|i: int, j: int| 0 <= i < j < x.len() ==> x[i] < x[j],
        forall|i: int, j: int| 0 <= i < j < y.len() ==> y[i] < y[j],
        forall|i: int| 0 <= i < x.len() ==> y.contains(#[trigger] x[i]),
        forall|j: int| 0 <= j < y.len() ==> x.contains(#[trigger] y[j]),
    ensures
        x == y,
    decreases x.len(),
{
    if x.len() == 0 {
        if y.len() > 0 {
            assert(x.contains(y[0]));
        }
        assert(x =~= y);
    } else {
        assert(y.contains(x[0]));
        let top_x = x.last();
        let top_y = y.last();
        assert(y.contains(top_x));
        assert(x.contains(top_y));
        let at_y = choose|j: int| 0 <= j < y.len() && y[j] == top_x;
        let at_x = choose|i: int| 0 <= i < x.len() && x[i] == top_y;
        assert(top_x == top_y);
        let front_x = x.drop_last();
        let front_y = y.drop_last();
        assert forall|i: int| 0 <= i < front_x.len() implies front_y.contains(
            #[trigger] front_x[i],
        ) by {
            assert(y.contains(x[i]));
            let j = choose|j: int| 0 <= j < y.len() && y[j] == x[i];
            assert(front_y[j] == x[i]);
        }
        assert forall|j: int| 0 <= j < front_y.len() implies front_x.contains(
            #[trigger] front_y[j],
        ) by {
            assert(x.contains(y[j]));
            let i = choose|i: int| 0 <= i < x.len() && x[i] == y[j];
            assert(front_x[i] == y[j]);
        }
        lemma_rising_equal(front_x, front_y);
        assert(x =~= front_x.push(top_x));
        assert(y =~= front_y.push(top_y));
    }
}

/// Every chain of one condensation begins where a chain of another does.
proof fn lemma_leader_shared(cfg: Seq<Seq<usize>>, a: GraphView, b: GraphView, k: int)
    requires
        cfg_well_formed(cfg),
        a.condenses(cfg),
        b.condenses(cfg),
        0 <= k < a.chains.len(),
    ensures
        exists|j: int| 0 <= j < b.chains.len() && #[trigger] b.chains[j][0] == a.chains[k][0],
{
    let head = a.chains[k][0];
    assert(is_maximal_chain(cfg, a.chains[k]));
    assert(b.bb_to_bcb[head as int] is Some);
    let j = b.bb_to_bcb[head as int]->0 as int;
    let chain = b.chains[j];
    let i = choose|i: int| 0 <= i < chain.len() && chain[i] == head;
    assert(is_maximal_chain(cfg, chain));
    if i > 0 {
        assert(is_chain_step(cfg, chain, i - 1));
    }
    assert(b.chains[j][0] == head);
}

/// A graph has one condensation only.
pub proof fn lemma_condensation_unique(cfg: Seq<Seq<usize>>, a: GraphView, b: GraphView)
    requires
        cfg_well_formed(cfg),
        a.condenses(cfg),
        b.condenses(cfg),
    ensures
        a == b,
{
    let heads_a = Seq::new(a.chains.len(), |k: int| a.chains[k][0]);
    let heads_b = Seq::new(b.chains.len(), |k: int| b.chains[k][0]);
    assert forall|i: int| 0 <= i < heads_a.len() implies heads_b.contains(#[trigger] heads_a[i]) by {
        lemma_leader_shared(cfg, a, b, i);
        let j = choose|j: int| 0 <= j < b.chains.len() && #[trigger] b.chains[j][0] == a.chains[i][0];
        assert(heads_b[j] == heads_a[i]);
    }
    assert forall|j: int| 0 <= j < heads_b.len() implies heads_a.contains(#[trigger] heads_b[j]) by {
        lemma_leader_shared(cfg, b, a, j);
        let i = choose|i: int| 0 <= i < a.chains.len() && #[trigger] a.chains[i][0] == b.chains[j][0];
        assert(heads_a[i] == heads_b[j]);
    }
    assert forall|i: int, j: int| 0 <= i < j < heads_a.len() implies heads_a[i] < heads_a[j] by {
        assert(a.chains[i][0] < a.chains[j][0]);
    }
    assert forall|i: int, j: int| 0 <= i < j < heads_b.len() implies heads_b[i] < heads_b[j] by {
        assert(b.chains[i][0] < b.chains[j][0]);
    }
    lemma_rising_equal(heads_a, heads_b);
    assert(a.chains.len() == b.chains.len());
    assert forall|k: int| 0 <= k < a.chains.len() implies #[trigger] a.chains[k] == b.chains[k] by {
        let s = a.chains[k];
        let t = b.chains[k];
        assert(heads_a[k] == heads_b[k]);
        assert(is_maximal_chain(cfg, s));
        assert(is_maximal_chain(cfg, t));
        lemma_chain_prefix(cfg, s, t, s.len() - 1);
        lemma_chain_prefix(cfg, t, s, t.len() - 1);
        assert forall|i: int| 0 <= i < s.len() implies s[i] == t[i] by {
            lemma_chain_prefix(cfg, s, t, i);
        }
        assert(s =~= t);
    }
    assert(a.chains =~= b.chains);
    assert forall|x: int| 0 <= x < cfg.len() implies #[trigger] a.bb_to_bcb[x] == b.bb_to_bcb[x] by {
        if a.bb_to_bcb[x] is Some {
            let k = a.bb_to_bcb[x]->0 as int;
            let i = choose|i: int| 0 <= i < a.chains[k].len() && a.chains[k][i] == x as usize;
            assert(b.chains[k][i] == x as usize);
        } else if b.bb_to_bcb[x] is Some {
            let k = b.bb_to_bcb[x]->0 as int;
            let i = choose|i: int| 0 <= i < b.chains[k].len() && b.chains[k][i] == x as usize;
            assert(a.chains[k][i] == x as usize);
        }
    }
    assert(a.bb_to_bcb =~= b.bb_to_bcb);
    assert forall|k: int| 0 <= k < a.chains.len() implies #[trigger] a.successors[k]
        == b.successors[k] by {}
    assert(a.successors =~= b.successors);
    assert forall|k: int| 0 <= k < a.chains.len() implies #[trigger] a.predecessors[k]
        == b.predecessors[k] by {}
    assert(a.predecessors =~= b.predecessors);
}

/// The chains of a list of nodes.
pub open spec fn chains_of(bcbs: Seq<BasicCoverageBlockData>) -> Seq<Seq<usize>> {
    Seq::new(bcbs.len(), |k: int| bcbs[k].basic_blocks@)
}

/// One node of the coverage graph: a chain of blocks that are always
/// executed together.
#[derive(Clone, Debug, PartialEq, Eq)]
pub struct BasicCoverageBlockData {
    pub basic_blocks: Vec<usize>,
}

/// The index of a node in a [`CoverageGraph`].
pub type BasicCoverageBlock = usize;

/// The condensed control-flow graph of one function.
///
/// `bb_to_bcb` gives the node of every block that can be reached, and
/// `successors` and `predecessors` give the edges between nodes.
#[derive(Clone, Debug, PartialEq, Eq)]
pub struct CoverageGraph {
    pub bcbs: Vec<BasicCoverageBlockData>,
    pub bb_to_bcb: Vec<Option<usize>>,
    pub successors: Vec<Vec<usize>>,
    pub predecessors: Vec<Vec<usize>>,
}

impl BasicCoverageBlockData {
    /// The first block of the chain.
    pub fn leader_bb(&self) -> (b: usize)
        requires
            self.basic_blocks@.len() > 0,
        ensures
            b == self.basic_blocks@[0],
    {
        self.basic_blocks[0]
    }

    /// The last block of the chain.
    pub fn last_bb(&self) -> (b: usize)
        requires
            self.basic_blocks@.len() > 0,
        ensures
            b == self.basic_blocks@.last(),
    {
        self.basic_blocks[self.basic_blocks.len() - 1]
    }
}

impl CoverageGraph {
    /// The chain of blocks of every node.
    pub open spec fn chains(&self) -> Seq<Seq<usize>> {
        chains_of(self.bcbs@)
    }

    /// The successors of every node.
    pub open spec fn successor_lists(&self) -> Seq<Seq<usize>> {
        Seq::new(self.successors@.len(), |k: int| self.successors@[k]@)
    }

    /// The predecessors of every node.
    pub open spec fn predecessor_lists(&self) -> Seq<Seq<usize>> {
        Seq::new(self.predecessors@.len(), |k: int| self.predecessors@[k]@)
    }

    /// The nodes are the maximal chains of `cfg`, in the order of their first
    /// blocks, and `bb_to_bcb` gives every reachable block its chain.
    pub open spec fn partitions(&self, cfg: Seq<Seq<usize>>) -> bool {
        is_partition(cfg, self.chains(), self.bb_to_bcb@)
    }

    /// The graph is the condensation of `cfg`.
    pub open spec fn condenses(&self, cfg: Seq<Seq<usize>>) -> bool {
        self@.condenses(cfg)
    }
}

impl View for CoverageGraph {
    type V = GraphView;

    open spec fn view(&self) -> GraphView {
        GraphView {
            chains: self.chains(),
            bb_to_bcb: self.bb_to_bcb@,
            successors: self.successor_lists(),
            predecessors: self.predecessor_lists(),
        }
    }
}

/// Draws the reachable blocks of `body` together into maximal chains.
///
/// Returns the chains, in the order of their first blocks, and for every
/// block the index of its chain.
pub fn compute_basic_coverage_blocks(body: &Body) -> (res: (
    Vec<BasicCoverageBlockData>,
    Vec<Option<usize>>,
))
    requires
        body.well_formed(),
    ensures
        is_partition(body.cfg(), chains_of(res.0@), res.1@),
{
    let n = body.basic_blocks.len();
    let ghost cfg = body.cfg();
    let reach = reachable_blocks(body);
    let link = chain_predecessors(body);
    let mut bcbs: Vec<BasicCoverageBlockData> = Vec::new();
    let mut bb_to_bcb: Vec<Option<usize>> = vec![None; n];
    let mut leader: usize = 0;
    while leader < n
        invariant
            n == body.basic_blocks@.len(),
            cfg == body.cfg(),
            cfg_well_formed(cfg),
            leader <= n,
            reach@.len() == n,
            link@.len() == n,
            bb_to_bcb@.len() == n,
            forall|b: int| 0 <= b < n ==> #[trigger] reach@[b] == reachable(cfg, b as usize),
            forall|b: int|
                0 <= b < n ==> match #[trigger] link@[b] {
                    Some(p) => is_link(cfg, p as int, b as usize),
                    None => !has_link_into(cfg, b as usize),
                },
            forall|k: int|
                0 <= k < bcbs@.len() ==> is_maximal_chain(cfg, #[trigger] chains_of(bcbs@)[k]),
            chains_indexed(cfg, chains_of(bcbs@), bb_to_bcb@),
            index_sound(cfg, chains_of(bcbs@), bb_to_bcb@),
            leaders_rise(chains_of(bcbs@)),
            forall|k: int| 0 <= k < bcbs@.len() ==> (#[trigger] chains_of(bcbs@)[k])[0] < leader,
            forall|b: int|
                0 <= b < leader && is_leader(cfg, b as usize) ==> #[trigger] bb_to_bcb@[b] is Some,
        decreases n - leader,
    {
        let is_head = reach[leader] && link[leader].is_none();
        if is_head {
            let k = bcbs.len();
            let ghost done_chains = chains_of(bcbs@);
            proof {
                assert(is_leader(cfg, leader));
                if bb_to_bcb@[leader as int] is Some {
                    let kk = bb_to_bcb@[leader as int]->0 as int;
                    let i = choose|i: int|
                        0 <= i < done_chains[kk].len() && done_chains[kk][i] == leader;
                    if i > 0 {
                        assert(is_chain_step(cfg, done_chains[kk], i - 1));
                    }
                }
                assert(bb_to_bcb@[leader as int] is None);
            }
            let mut blocks: Vec<usize> = Vec::new();
            blocks.push(leader);
            bb_to_bcb.set(leader, Some(k));
            let mut cur: usize = leader;
            let mut done = false;
            proof {
                assert(blocks@.contains(leader)) by {
                    assert(blocks@[0] == leader);
                }
                lemma_distinct_bounded(blocks@, n as nat);
            }
            while !done
                invariant
                    n == body.basic_blocks@.len(),
                    cfg == body.cfg(),
                    cfg_well_formed(cfg),
                    leader < n,
                    link@.len() == n,
                    bb_to_bcb@.len() == n,
                    k == bcbs@.len(),
                    done_chains == chains_of(bcbs@),
                    forall|b: int|
                        0 <= b < n ==> match #[trigger] link@[b] {
                            Some(p) => is_link(cfg, p as int, b as usize),
                            None => !has_link_into(cfg, b as usize),
                        },
                    forall|kk: int|
                        0 <= kk < done_chains.len() ==> is_maximal_chain(
                            cfg,
                            #[trigger] done_chains[kk],
                        ),
                    chains_indexed(cfg, done_chains, bb_to_bcb@),
                    is_leader(cfg, leader),
                    is_chain(cfg, blocks@),
                    blocks@[0] == leader,
                    blocks@.last() == cur,
                    cur < n,
                    blocks@.len() <= n,
                    forall|i: int|
                        0 <= i < blocks@.len() ==> (#[trigger] blocks@[i]) < n && bb_to_bcb@[blocks@[i] as int]
                            == Some(k),
                    forall|b: int|
                        0 <= b < n ==> (#[trigger] bb_to_bcb@[b] matches Some(kk) ==> reachable(
                            cfg,
                            b as usize,
                        ) && if kk == k {
                            blocks@.contains(b as usize)
                        } else {
                            kk < k && done_chains[kk as int].contains(b as usize)
                        }),
                    forall|b: int|
                        0 <= b < leader && is_leader(cfg, b as usize) ==> #[trigger] bb_to_bcb@[b] is Some,
                    done ==> !has_link_out_of(cfg, cur as int),
                decreases
                        n - blocks@.len(),
                        if done {
                            0int
                        } else {
                            1int
                        },
            {
                let kind = &body.basic_blocks[cur].terminator.kind;
                let mut extended = false;
                if kind.num_successors() == 1 {
                    let next = kind.successor(0);
                    assert(targets(cfg, cur as int, 0, next));
                    let continues = match link[next] {
                        Some(p) => p == cur,
                        None => false,
                    };
                    if continues {
                        proof {
                            assert(is_link(cfg, cur as int, next));
                            let longer = blocks@.push(next);
                            assert forall|i: int| 0 <= i < longer.len() - 1 implies #[trigger] is_chain_step(
                                cfg,
                                longer,
                                i,
                            ) by {
                                if i < blocks@.len() - 1 {
                                    assert(is_chain_step(cfg, blocks@, i));
                                }
                            }
                            assert(is_chain(cfg, longer));
                            assert forall|i: int, j: int| 0 <= i < j < longer.len() implies longer[i]
                                != longer[j] by {
                                lemma_chain_no_repeat(cfg, longer, i, j);
                            }
                            lemma_distinct_bounded(longer, n as nat);
                            if bb_to_bcb@[next as int] is Some {
                                let kk = bb_to_bcb@[next as int]->0;
                                if kk == k {
                                    let i = choose|i: int|
                                        0 <= i < blocks@.len() && blocks@[i] == next;
                                    assert(longer[i] == longer[blocks@.len() as int]);
                                } else {
                                    let chain = done_chains[kk as int];
                                    let j = choose|j: int| 0 <= j < chain.len() && chain[j] == next;
                                    if j == 0 {
                                        assert(is_maximal_chain(cfg, chain));
                                    } else {
                                        assert(is_chain_step(cfg, chain, j - 1));
                                        assert(chain[j - 1] == cur);
                                        assert(bb_to_bcb@[chain[j - 1] as int] == Some(kk));
                                    }
                                }
                            }
                            assert(bb_to_bcb@[next as int] is None);
                            lemma_chain_reachable(cfg, longer, longer.len() - 1);
                        }
                        let ghost before = blocks@;
                        blocks.push(next);
                        bb_to_bcb.set(next, Some(k));
                        cur = next;
                        extended = true;
                        proof {
                            assert(blocks@[blocks@.len() - 1] == next);
                            assert forall|b: usize| before.contains(b) implies blocks@.contains(
                                b,
                            ) by {
                                let i = choose|i: int| 0 <= i < before.len() && before[i] == b;
                                assert(blocks@[i] == b);
                            }
                        }
                    } else {
                        proof {
                            assert forall|x: usize| !#[trigger] is_link(cfg, cur as int, x) by {
                                if is_link(cfg, cur as int, x) {
                                    assert(x == next);
                                    if link@[next as int] is Some {
                                        assert(targets(cfg, cur as int, 0, next));
                                    }
                                }
                            }
                        }
                    }
                }
                if !extended {
                    done = true;
                }
            }
            proof {
                lemma_chain_reachable(cfg, blocks@, 0);
            }
            let ghost chain = blocks@;
            bcbs.push(BasicCoverageBlockData { basic_blocks: blocks });
            proof {
                let chains = chains_of(bcbs@);
                assert(chains[k as int] == chain);
                assert forall|kk: int| 0 <= kk < k implies #[trigger] chains[kk] == done_chains[kk] by {}
                assert(is_maximal_chain(cfg, chain));
                assert forall|kk: int| 0 <= kk < chains.len() implies is_maximal_chain(
                    cfg,
                    #[trigger] chains[kk],
                ) by {
                    if kk < k {
                        assert(is_maximal_chain(cfg, done_chains[kk]));
                    }
                }
                assert forall|kk: int, i: int|
                    0 <= kk < chains.len() && 0 <= i < chains[kk].len() implies (#[trigger] chains[kk][i])
                    < cfg.len() && bb_to_bcb@[chains[kk][i] as int] == Some(kk as usize) by {
                    if kk < k {
                        assert(done_chains[kk][i] < cfg.len());
                    }
                }
                assert forall|j: int, kk: int| 0 <= j < kk < chains.len() implies (#[trigger] chains[j])[0]
                    < (#[trigger] chains[kk])[0] by {
                    if kk < k {
                        assert(done_chains[j][0] < done_chains[kk][0]);
                    } else {
                        assert(done_chains[j][0] < leader);
                    }
                }
                assert forall|kk: int| 0 <= kk < chains.len() implies (#[trigger] chains[kk])[0]
                    < leader + 1 by {
                    if kk < k {
                        assert(done_chains[kk][0] < leader);
                    }
                }
            }
        }
        leader = leader + 1;
    }
    proof {
        let chains = chains_of(bcbs@);
        assert forall|b: int| 0 <= b < cfg.len() && reachable(cfg, b as usize) implies #[trigger] bb_to_bcb@[b] is Some by {
            let path = choose|path: Seq<usize>| #[trigger]
                is_path(cfg, path) && path.last() == b as usize;
            let s = lemma_path_ends_on_chain(cfg, path);
            let head = s[0];
            assert(bb_to_bcb@[head as int] is Some);
            let k = bb_to_bcb@[head as int]->0 as int;
            let t = chains[k];
            let i = choose|i: int| 0 <= i < t.len() && t[i] == head;
            if i > 0 {
                assert(is_chain_step(cfg, t, i - 1));
            }
            assert(is_maximal_chain(cfg, t));
            lemma_chain_prefix(cfg, s, t, s.len() - 1);
            assert(t[s.len() - 1] == b as usize);
        }
    }
    (bcbs, bb_to_bcb)
}

/// Whether `v` holds `x`.
pub(crate) fn vec_contains(v: &Vec<usize>, x: usize) -> (r: bool)
    ensures
        r == v@.contains(x),
{
    let mut i: usize = 0;
    while i < v.len()
        invariant
            i <= v@.len(),
            forall|j: int| 0 <= j < i ==> v@[j] != x,
        decreases v@.len() - i,
    {
        if v[i] == x {
            return true;
        }
        i = i + 1;
    }
    false
}

/// What `successor_bcbs` holds: the nodes of the targets, each once.
pub proof fn lemma_successor_bcbs(targets: Seq<usize>, bb_to_bcb: Seq<Option<usize>>)
    ensures
        successor_bcbs(targets, bb_to_bcb).no_duplicates(),
        forall|k: usize| #[trigger]
            successor_bcbs(targets, bb_to_bcb).contains(k) <==> exists|s: int|
                0 <= s < targets.len() && #[trigger] bb_to_bcb[targets[s] as int] == Some(k),
    decreases targets.len(),
{
    let all = successor_bcbs(targets, bb_to_bcb);
    if targets.len() > 0 {
        let front = targets.drop_last();
        let before = successor_bcbs(front, bb_to_bcb);
        lemma_successor_bcbs(front, bb_to_bcb);
        assert forall|k: usize| #[trigger] all.contains(k) <==> exists|s: int|
            0 <= s < targets.len() && #[trigger] bb_to_bcb[targets[s] as int] == Some(k) by {
            if all.contains(k) {
                if before.contains(k) {
                    let s = choose|s: int|
                        0 <= s < front.len() && #[trigger] bb_to_bcb[front[s] as int] == Some(k);
                    assert(bb_to_bcb[targets[s] as int] == Some(k));
                } else {
                    let i = choose|i: int| 0 <= i < all.len() && all[i] == k;
                    assert(bb_to_bcb[targets[targets.len() - 1] as int] == Some(k));
                }
            }
            if exists|s: int|
                0 <= s < targets.len() && #[trigger] bb_to_bcb[targets[s] as int] == Some(k) {
                let s = choose|s: int|
                    0 <= s < targets.len() && #[trigger] bb_to_bcb[targets[s] as int] == Some(k);
                if s < front.len() {
                    assert(bb_to_bcb[front[s] as int] == Some(k));
                    assert(before.contains(k));
                    let i = choose|i: int| 0 <= i < before.len() && before[i] == k;
                    assert(all[i] == k);
                } else {
                    if !before.contains(k) {
                        assert(all[all.len() - 1] == k);
                    }
                }
            }
        }
    }
}

/// What `predecessor_bcbs` holds: in rising order, the nodes below `upto`
/// that have `k` among their successors.
pub proof fn lemma_predecessor_bcbs(successors: Seq<Seq<usize>>, k: usize, upto: int)
    requires
        0 <= upto <= successors.len(),
        upto <= usize::MAX,
    ensures
        forall|i: int, j: int|
            0 <= i < j < predecessor_bcbs(successors, k, upto).len() ==> predecessor_bcbs(
                successors,
                k,
                upto,
            )[i] < predecessor_bcbs(successors, k, upto)[j],
        forall|j: usize| #[trigger]
            predecessor_bcbs(successors, k, upto).contains(j) <==> j < upto && successors[j as int].contains(
                k,
            ),
    decreases upto,
{
    let all = predecessor_bcbs(successors, k, upto);
    if upto > 0 {
        let before = predecessor_bcbs(successors, k, upto - 1);
        lemma_predecessor_bcbs(successors, k, upto - 1);
        assert forall|i: int| 0 <= i < before.len() implies before[i] < upto - 1 by {
            assert(before.contains(before[i]));
        }
        assert forall|j: usize| #[trigger] all.contains(j) <==> j < upto && successors[j as int].contains(
            k,
        ) by {
            if all.contains(j) {
                let i = choose|i: int| 0 <= i < all.len() && all[i] == j;
                if i < before.len() {
                    assert(before.contains(j));
                }
            }
            if j < upto && successors[j as int].contains(k) {
                if j < upto - 1 {
                    assert(before.contains(j));
                    let i = choose|i: int| 0 <= i < before.len() && before[i] == j;
                    assert(all[i] == j);
                } else {
                    assert(all[all.len() - 1] == j);
                }
            }
        }
    }
}

impl CoverageGraph {
    /// The lists of the graph fit together: every node has a chain, a list of
    /// successors and a list of predecessors, no list names a node twice or
    /// a node that is not there, and one node is a predecessor of another
    /// exactly when that one is among its successors.
    pub open spec fn well_formed(&self) -> bool {
        let m = self.bcbs@.len();
        &&& self.successors@.len() == m
        &&& self.predecessors@.len() == m
        &&& forall|k: int| 0 <= k < m ==> (#[trigger] self.bcbs@[k]).basic_blocks@.len() > 0
        &&& forall|k: int| 0 <= k < m ==> (#[trigger] self.successors@[k])@.no_duplicates()
        &&& forall|k: int| 0 <= k < m ==> (#[trigger] self.predecessors@[k])@.no_duplicates()
        &&& forall|k: int, i: int|
            0 <= k < m && 0 <= i < self.successors@[k]@.len() ==> (#[trigger] self.successors@[k]@[i])
                < m
        &&& forall|k: int, i: int|
            0 <= k < m && 0 <= i < self.predecessors@[k]@.len() ==> (#[trigger] self.predecessors@[k]@[i])
                < m
        &&& forall|j: usize, k: usize|
            j < m && k < m ==> (#[trigger] self.predecessors@[k as int]@.contains(j)
                <==> #[trigger] self.successors@[j as int]@.contains(k))
    }

    /// The number of nodes.
    pub fn num_nodes(&self) -> (m: usize)
        ensures
            m == self.bcbs@.len(),
    {
        self.bcbs.len()
    }

    /// The condensation of a graph is well formed.
    pub proof fn lemma_condensed_well_formed(&self, cfg: Seq<Seq<usize>>)
        requires
            cfg_well_formed(cfg),
            self.condenses(cfg),
            self.bcbs@.len() <= usize::MAX,
        ensures
            self.well_formed(),
    {
        let m = self.bcbs@.len() as int;
        let chains = self.chains();
        let lists = self.successor_lists();
        assert forall|k: int| 0 <= k < m implies (#[trigger] self.bcbs@[k]).basic_blocks@.len()
            > 0 by {
            assert(is_maximal_chain(cfg, chains[k]));
        }
        assert forall|k: int| 0 <= k < m implies (#[trigger] self.successors@[k])@.no_duplicates()
            && forall|i: int|
            0 <= i < self.successors@[k]@.len() ==> (#[trigger] self.successors@[k]@[i]) < m by {
            let targets = cfg[chains[k].last() as int];
            lemma_successor_bcbs(targets, self.bb_to_bcb@);
            assert(self@.successors[k] == self.successors@[k]@);
            assert forall|i: int| 0 <= i < self.successors@[k]@.len() implies (#[trigger] self.successors@[k]@[i])
                < m by {
                let j = self.successors@[k]@[i];
                assert(successor_bcbs(targets, self.bb_to_bcb@).contains(j));
                let s = choose|s: int|
                    0 <= s < targets.len() && #[trigger] self.bb_to_bcb@[targets[s] as int] == Some(
                        j,
                    );
                assert(chains[k][chains[k].len() - 1] < cfg.len());
                assert(targets[s] < cfg.len());
            }
        }
        assert forall|k: int| 0 <= k < m implies (#[trigger] self.predecessors@[k])@.no_duplicates()
            && (forall|i: int|
            0 <= i < self.predecessors@[k]@.len() ==> (#[trigger] self.predecessors@[k]@[i]) < m)
            && (forall|j: usize|
            j < m ==> (#[trigger] self.predecessors@[k]@.contains(j) <==> self.successors@[j as int]@.contains(
                k as usize,
            ))) by {
            lemma_predecessor_bcbs(lists, k as usize, m);
            let list = self.predecessors@[k]@;
            assert(self@.predecessors[k] == list);
            assert forall|i: int| 0 <= i < list.len() implies (#[trigger] list[i]) < m by {
                assert(list.contains(list[i]));
            }
            assert forall|j: usize| j < m implies (#[trigger] list.contains(j)
                <==> self.successors@[j as int]@.contains(k as usize)) by {
                assert(lists[j as int] == self.successors@[j as int]@);
            }
        }
    }

    /// Builds the coverage graph of `body`.
    pub fn from_mir(body: &Body) -> (graph: CoverageGraph)
        requires
            body.well_formed(),
        ensures
            graph@ == condensation(body.cfg()),
            graph.condenses(body.cfg()),
            graph.well_formed(),
    {
        let ghost cfg = body.cfg();
        let (bcbs, bb_to_bcb) = compute_basic_coverage_blocks(body);
        let m = bcbs.len();
        let ghost chains = chains_of(bcbs@);
        let mut successors: Vec<Vec<usize>> = Vec::new();
        let mut k: usize = 0;
        while k < m
            invariant
                m == bcbs@.len(),
                k <= m,
                cfg == body.cfg(),
                cfg_well_formed(cfg),
                chains == chains_of(bcbs@),
                is_partition(cfg, chains, bb_to_bcb@),
                successors@.len() == k,
                forall|j: int|
                    0 <= j < k ==> (#[trigger] successors@[j])@ == successor_bcbs(
                        cfg[chains[j].last() as int],
                        bb_to_bcb@,
                    ),
            decreases m - k,
        {
            proof {
                assert(is_maximal_chain(cfg, chains[k as int]));
                assert(chains[k as int][chains[k as int].len() - 1] < cfg.len());
            }
            let last = bcbs[k].last_bb();
            let kind = &body.basic_blocks[last].terminator.kind;
            let count = kind.num_successors();
            let ghost targets = cfg[last as int];
            let mut list: Vec<usize> = Vec::new();
            let mut s: usize = 0;
            proof {
                assert(targets.take(0) =~= Seq::<usize>::empty());
            }
            while s < count
                invariant
                    s <= count,
                    count == targets.len(),
                    targets == cfg[last as int],
                    last < cfg.len(),
                    cfg_well_formed(cfg),
                    bb_to_bcb@.len() == cfg.len(),
                    kind.successor_seq() == targets,
                    list@ == successor_bcbs(targets.take(s as int), bb_to_bcb@),
                decreases count - s,
            {
                let t = kind.successor(s);
                proof {
                    assert(targets.take(s + 1).drop_last() =~= targets.take(s as int));
                    assert(targets.take(s + 1).last() == t);
                    assert(t < cfg.len());
                }
                match bb_to_bcb[t] {
                    Some(j) => {
                        if !vec_contains(&list, j) {
                            list.push(j);
                        }
                    },
                    None => {},
                }
                s = s + 1;
            }
            proof {
                assert(targets.take(count as int) =~= targets);
            }
            successors.push(list);
            k = k + 1;
        }
        let ghost lists = Seq::new(m as nat, |j: int| successors@[j]@);
        let mut predecessors: Vec<Vec<usize>> = Vec::new();
        let mut k: usize = 0;
        while k < m
            invariant
                m == bcbs@.len(),
                k <= m,
                successors@.len() == m,
                lists == Seq::new(m as nat, |j: int| successors@[j]@),
                predecessors@.len() == k,
                forall|j: int|
                    0 <= j < k ==> (#[trigger] predecessors@[j])@ == predecessor_bcbs(
                        lists,
                        j as usize,
                        m as int,
                    ),
            decreases m - k,
        {
            let mut list: Vec<usize> = Vec::new();
            let mut j: usize = 0;
            while j < m
                invariant
                    j <= m,
                    k < m,
                    successors@.len() == m,
                    lists == Seq::new(m as nat, |j: int| successors@[j]@),
                    list@ == predecessor_bcbs(lists, k, j as int),
                decreases m - j,
            {
                assert(lists[j as int] == successors@[j as int]@);
                if vec_contains(&successors[j], k) {
                    list.push(j);
                }
                j = j + 1;
            }
            predecessors.push(list);
            k = k + 1;
        }
        let graph = CoverageGraph { bcbs, bb_to_bcb, successors, predecessors };
        proof {
            assert(graph.successor_lists() =~= lists);
            assert(graph.chains() == chains);
            assert forall|k: int| 0 <= k < chains.len() implies #[trigger] graph@.successors[k]
                == successor_bcbs(cfg[chains[k].last() as int], graph@.bb_to_bcb) by {
                assert(graph@.successors[k] == successors@[k]@);
            }
            assert forall|k: int| 0 <= k < chains.len() implies #[trigger] graph@.predecessors[k]
                == predecessor_bcbs(graph@.successors, k as usize, chains.len() as int) by {
                assert(graph@.predecessors[k] == predecessors@[k]@);
            }
            assert(graph@.condenses(cfg));
            graph.lemma_condensed_well_formed(cfg);
            lemma_condensation_unique(cfg, graph@, condensation(cfg));
        }
        graph
    }
}

impl CoverageGraph {
    /// The edge from block `a` to block `b` runs inside one chain: `b` is the
    /// block that follows `a` in the chain of both.
    pub open spec fn edge_is_internal(&self, a: usize, b: usize) -> bool {
        let chain = self.chains()[self.bb_to_bcb@[a as int]->0 as int];
        &&& self.bb_to_bcb@[a as int] == self.bb_to_bcb@[b as int]
        &&& exists|i: int| 0 <= i < chain.len() - 1 && #[trigger] chain[i] == a && chain[i + 1] == b
    }

    /// The edge from block `a` to block `b` is an edge of the coverage graph:
    /// `a` ends its chain, `b` begins its chain, and the node of `b` stands
    /// exactly once among the successors of the node of `a`.
    pub open spec fn edge_crosses(&self, a: usize, b: usize) -> bool {
        let ka = self.bb_to_bcb@[a as int]->0;
        let kb = self.bb_to_bcb@[b as int]->0;
        let list = self.successors@[ka as int]@;
        &&& self.chains()[ka as int].last() == a
        &&& self.chains()[kb as int][0] == b
        &&& exists|i: int|
            0 <= i < list.len() && #[trigger] list[i] == kb && forall|j: int|
                0 <= j < list.len() && list[j] == kb ==> j == i
    }

    /// Condensation keeps the structure of the graph: every edge that leaves
    /// a reachable block either runs inside one chain or is exactly one edge
    /// of the coverage graph, and never both.
    pub proof fn lemma_condensation_is_quotient(&self, cfg: Seq<Seq<usize>>, a: usize, slot: int)
        requires
            cfg_well_formed(cfg),
            self.condenses(cfg),
            a < cfg.len(),
            reachable(cfg, a),
            0 <= slot < cfg[a as int].len(),
        ensures
            self.bb_to_bcb@[a as int] is Some,
            self.bb_to_bcb@[cfg[a as int][slot] as int] is Some,
            self.edge_is_internal(a, cfg[a as int][slot]) != self.edge_crosses(
                a,
                cfg[a as int][slot],
            ),
    {
        let b = cfg[a as int][slot];
        let chains = self.chains();
        assert(targets(cfg, a as int, slot, b));
        lemma_step_reachable(cfg, a, slot);
        let ka = self.bb_to_bcb@[a as int]->0;
        let kb = self.bb_to_bcb@[b as int]->0;
        let ca = chains[ka as int];
        let cb = chains[kb as int];
        assert(is_maximal_chain(cfg, ca));
        assert(is_maximal_chain(cfg, cb));
        let i = choose|i: int| 0 <= i < ca.len() && ca[i] == a;
        let j = choose|j: int| 0 <= j < cb.len() && cb[j] == b;
        if i < ca.len() - 1 {
            // `a` is linked to the next block of its chain, its only successor.
            assert(is_chain_step(cfg, ca, i));
            assert(ca[i + 1] == b);
            assert(self.bb_to_bcb@[ca[i + 1] as int] == Some(ka));
            assert(self.edge_is_internal(a, b));
            lemma_chain_no_repeat(cfg, ca, i, ca.len() - 1);
            assert(!self.edge_crosses(a, b));
        } else {
            if j > 0 {
                // The only edge into a block inside a chain comes from the
                // block before it, which does not end the chain.
                assert(is_chain_step(cfg, cb, j - 1));
                assert(cb[j - 1] == a);
                assert(self.bb_to_bcb@[cb[j - 1] as int] == Some(kb));
                lemma_chain_no_repeat(cfg, cb, j - 1, cb.len() - 1);
            }
            assert(j == 0);
            let list = self.successors@[ka as int]@;
            assert(self@.successors[ka as int] == list);
            lemma_successor_bcbs(cfg[a as int], self.bb_to_bcb@);
            assert(self.bb_to_bcb@[cfg[a as int][slot] as int] == Some(kb));
            assert(list.contains(kb));
            let at = choose|at: int| 0 <= at < list.len() && list[at] == kb;
            assert(self.edge_crosses(a, b));
            if self.edge_is_internal(a, b) {
                let x = choose|x: int| 0 <= x < ca.len() - 1 && #[trigger] ca[x] == a && ca[x + 1] == b;
                lemma_chain_no_repeat(cfg, ca, x, ca.len() - 1);
            }
        }
    }
}

} // verus!
