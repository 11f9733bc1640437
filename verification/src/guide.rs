//! The guide: a shortest key sequence that takes the automaton from its current states to a
//! terminal state, found by breadth-first search.
use vstd::prelude::*;

use crate::engine::{any_terminal, step, Node, NodeView};
use crate::seqs::view_seq;
use crate::text::chars_to_string;

verus! {

/// The states reached from `states` by typing the keys of `w` one after another.
pub open spec fn run(nodes: Seq<NodeView>, states: Set<usize>, w: Seq<char>) -> Set<usize>
    decreases w.len(),
{
    if w.len() == 0 {
        states
    } else {
        run(nodes, step(nodes, states, w[0]), w.drop_first())
    }
}

/// Whether typing `w` from `states` reaches a terminal state.
pub open spec fn completes(nodes: Seq<NodeView>, states: Set<usize>, w: Seq<char>) -> bool {
    any_terminal(nodes, run(nodes, states, w))
}

/// `g` is a shortest key sequence that completes from `states`; when no key sequence
/// completes, `g` is empty.
pub open spec fn is_shortest_completion(
    nodes: Seq<NodeView>,
    states: Set<usize>,
    g: Seq<char>,
) -> bool {
    if exists|w: Seq<char>| completes(nodes, states, w) {
        &&& completes(nodes, states, g)
        &&& forall|w: Seq<char>| completes(nodes, states, w) ==> g.len() <= w.len()
    } else {
        g.len() == 0
    }
}

/// Every transition leads to a state of the automaton.
pub open spec fn edges_in_range(nodes: Seq<NodeView>) -> bool {
    forall|u: int, k: int|
        0 <= u < nodes.len() && 0 <= k < nodes[u].transitions.len() ==> (
        #[trigger] nodes[u].transitions[k]).1 < nodes.len()
}

proof fn lemma_step_mono(nodes: Seq<NodeView>, a: Set<usize>, b: Set<usize>, c: char)
    requires
        a.subset_of(b),
    ensures
        step(nodes, a, c).subset_of(step(nodes, b, c)),
{
    assert forall|v: usize| step(nodes, a, c).contains(v) implies step(nodes, b, c).contains(v) by {
        let (u, k) = choose|u: usize, k: int|
            a.contains(u) && u < nodes.len() && 0 <= k < nodes[u as int].transitions.len()
                && #[trigger] nodes[u as int].transitions[k] == (c, v);
        assert(b.contains(u));
    }
}

/// Typing from more states reaches at least the same states.
pub proof fn lemma_run_mono(nodes: Seq<NodeView>, a: Set<usize>, b: Set<usize>, w: Seq<char>)
    requires
        a.subset_of(b),
    ensures
        run(nodes, a, w).subset_of(run(nodes, b, w)),
    decreases w.len(),
{
    if w.len() > 0 {
        lemma_step_mono(nodes, a, b, w[0]);
        lemma_run_mono(nodes, step(nodes, a, w[0]), step(nodes, b, w[0]), w.drop_first());
    }
}

/// Typing `w` then `x` is typing `w + x`.
pub proof fn lemma_run_concat(nodes: Seq<NodeView>, states: Set<usize>, w: Seq<char>, x: Seq<char>)
    ensures
        run(nodes, states, w + x) == run(nodes, run(nodes, states, w), x),
    decreases w.len(),
{
    if w.len() > 0 {
        assert((w + x)[0] == w[0]);
        assert((w + x).drop_first() =~= w.drop_first() + x);
        lemma_run_concat(nodes, step(nodes, states, w[0]), w.drop_first(), x);
    } else {
        assert(w + x =~= x);
    }
}

/// From no state, typing reaches no state.
pub proof fn lemma_run_none(nodes: Seq<NodeView>, w: Seq<char>)
    ensures
        run(nodes, Set::<usize>::empty(), w) == Set::<usize>::empty(),
    decreases w.len(),
{
    if w.len() > 0 {
        assert(step(nodes, Set::<usize>::empty(), w[0]) =~= Set::<usize>::empty());
        lemma_run_none(nodes, w.drop_first());
    }
}

proof fn lemma_run_prepend(nodes: Seq<NodeView>, u: usize, k: int, w: Seq<char>, g: usize)
    requires
        u < nodes.len(),
        0 <= k < nodes[u as int].transitions.len(),
        run(nodes, set![nodes[u as int].transitions[k].1], w).contains(g),
    ensures
        run(nodes, set![u], seq![nodes[u as int].transitions[k].0] + w).contains(g),
{
    let (c, v) = nodes[u as int].transitions[k];
    let cw = seq![c] + w;
    assert(cw.drop_first() =~= w);
    assert(cw[0] == c);
    assert(step(nodes, set![u], c).contains(v)) by {
        assert(set![u].contains(u));
        assert(nodes[u as int].transitions[k] == (c, v));
    }
    assert(set![v].subset_of(step(nodes, set![u], c)));
    lemma_run_mono(nodes, set![v], step(nodes, set![u], c), w);
}

/// The state `u` has been taken from the queue: it is not terminal, and each of its
/// successors is visited, at most one step further.
spec fn expanded(nodes: Seq<NodeView>, visited: Seq<bool>, dist: Seq<nat>, u: usize) -> bool {
    &&& !nodes[u as int].is_terminal
    &&& forall|k: int|
        0 <= k < nodes[u as int].transitions.len() ==> visited[(
        #[trigger] nodes[u as int].transitions[k]).1 as int] && dist[nodes[u as int].transitions[k].1 as int]
            <= dist[u as int] + 1
}

/// Every visited state nearer than `bound` has been expanded.
spec fn closed_below(nodes: Seq<NodeView>, visited: Seq<bool>, dist: Seq<nat>, bound: int) -> bool {
    forall|u: usize|
        u < nodes.len() && visited[u as int] && dist[u as int] < bound ==> #[trigger] expanded(
            nodes,
            visited,
            dist,
            u,
        )
}

/// How a visited state was reached: from the state and key in its parent link, one step
/// further than that state, or, without a link, as a start state.
spec fn parent_ok(
    nodes: Seq<NodeView>,
    s: Set<usize>,
    visited: Seq<bool>,
    parents: Seq<Option<(usize, char)>>,
    dist: Seq<nat>,
    v: int,
) -> bool {
    match parents[v] {
        Some((u, c)) => {
            &&& u < nodes.len()
            &&& visited[u as int]
            &&& dist[v] == dist[u as int] + 1
            &&& exists|k: int|
                0 <= k < nodes[u as int].transitions.len() && #[trigger] nodes[u as int].transitions[k]
                    == (c, v as usize)
        },
        None => s.contains(v as usize) && dist[v] == 0,
    }
}

proof fn lemma_run_within(
    nodes: Seq<NodeView>,
    s: Set<usize>,
    visited: Seq<bool>,
    dist: Seq<nat>,
    bound: int,
    d0: nat,
    w: Seq<char>,
)
    requires
        edges_in_range(nodes),
        visited.len() == nodes.len(),
        dist.len() == nodes.len(),
        closed_below(nodes, visited, dist, bound),
        forall|u: usize|
            #[trigger] s.contains(u) ==> u < nodes.len() && visited[u as int] && dist[u as int] <= d0,
        d0 + w.len() < bound,
    ensures
        forall|v: usize|
            #[trigger] run(nodes, s, w).contains(v) ==> v < nodes.len() && visited[v as int] && dist[v as int]
                <= d0 + w.len(),
    decreases w.len(),
{
    if w.len() > 0 {
        let s2 = step(nodes, s, w[0]);
        assert forall|v: usize| #[trigger] s2.contains(v) implies v < nodes.len() && visited[v as int]
            && dist[v as int] <= d0 + 1 by {
            let (u, k) = choose|u: usize, k: int|
                s.contains(u) && u < nodes.len() && 0 <= k < nodes[u as int].transitions.len()
                    && #[trigger] nodes[u as int].transitions[k] == (w[0], v);
            assert(expanded(nodes, visited, dist, u));
            assert(nodes[u as int].transitions[k].1 == v);
        }
        lemma_run_within(nodes, s2, visited, dist, bound, d0 + 1, w.drop_first());
        assert(run(nodes, s, w) == run(nodes, s2, w.drop_first()));
    }
}

proof fn lemma_no_shorter(
    nodes: Seq<NodeView>,
    s: Set<usize>,
    visited: Seq<bool>,
    dist: Seq<nat>,
    bound: int,
    w: Seq<char>,
)
    requires
        edges_in_range(nodes),
        visited.len() == nodes.len(),
        dist.len() == nodes.len(),
        closed_below(nodes, visited, dist, bound),
        forall|u: usize|
            #[trigger] s.contains(u) ==> u < nodes.len() && visited[u as int] && dist[u as int] == 0,
        completes(nodes, s, w),
    ensures
        w.len() >= bound,
{
    if w.len() < bound {
        lemma_run_within(nodes, s, visited, dist, bound, 0, w);
        let t = choose|t: usize|
            run(nodes, s, w).contains(t) && t < nodes.len() && #[trigger] nodes[t as int].is_terminal;
        assert(run(nodes, s, w).contains(t));
        assert(expanded(nodes, visited, dist, t));
    }
}

/// The facts that breadth-first search keeps: the queue holds each visited state once, in
/// order of distance, with distances spanning at most one step from `head` on; every start
/// state is visited at distance 0; every visited state has a valid parent link.
spec fn search_inv(
    nodes: Seq<NodeView>,
    s: Set<usize>,
    visited: Seq<bool>,
    parents: Seq<Option<(usize, char)>>,
    dist: Seq<nat>,
    queue: Seq<usize>,
    head: int,
) -> bool {
    let n = nodes.len();
    &&& visited.len() == n
    &&& parents.len() == n
    &&& dist.len() == n
    &&& 0 <= head <= queue.len() <= n
    &&& forall|q: int| 0 <= q < queue.len() ==> #[trigger] queue[q] < n && visited[queue[q] as int]
    &&& forall|a: int, b: int| 0 <= a < b < queue.len() ==> #[trigger] queue[a] != #[trigger] queue[b]
    &&& forall|v: int| 0 <= v < n && #[trigger] visited[v] ==> queue.contains(v as usize)
    &&& forall|a: int, b: int|
        #![trigger queue[a], queue[b]]
        0 <= a <= b < queue.len() ==> dist[queue[a] as int] <= dist[queue[b] as int]
    &&& head < queue.len() ==> forall|q: int|
        0 <= q < queue.len() ==> dist[#[trigger] queue[q] as int] <= dist[queue[head] as int] + 1
    &&& forall|u: usize| #[trigger] s.contains(u) ==> u < n && visited[u as int] && dist[u as int] == 0
    &&& forall|v: int| 0 <= v < n && #[trigger] visited[v] ==> parent_ok(nodes, s, visited, parents, dist, v)
    &&& forall|v: int| 0 <= v < n && !visited[v] ==> #[trigger] parents[v] is None
}

/// Breadth-first search from `starts`, taken in order. Returns the first terminal state taken
/// from the queue (if any), the parent links, and, as ghost values, the visited marks and the
/// distances.
fn search(nodes: &Vec<Node>, starts: &Vec<usize>) -> (r: (
    Option<usize>,
    Vec<Option<(usize, char)>>,
    Ghost<Seq<bool>>,
    Ghost<Seq<nat>>,
    Ghost<Seq<Seq<int>>>,
))
    requires
        edges_in_range(view_seq(nodes@)),
        forall|i: int| 0 <= i < starts@.len() ==> #[trigger] starts@[i] < nodes@.len(),
    ensures
        ({
            let nv = view_seq(nodes@);
            let s = starts@.to_set();
            let visited = r.2@;
            let dist = r.3@;
            let codes = r.4@;
            &&& visited.len() == nv.len()
            &&& dist.len() == nv.len()
            &&& codes.len() == nv.len()
            &&& r.1@.len() == nv.len()
            &&& forall|u: usize| #[trigger] s.contains(u) ==> u < nv.len() && visited[u as int] && dist[u as int] == 0
            &&& forall|v: int| 0 <= v < nv.len() && #[trigger] visited[v] ==> parent_ok(nv, s, visited, r.1@, dist, v)
            &&& forall|v: int| 0 <= v < nv.len() && #[trigger] visited[v] ==> code_ok(nv, starts@, r.1@, codes, v)
            &&& forall|i: int|
                0 <= i < starts@.len() ==> #[trigger] starts@[i] < nv.len() && visited[starts@[i] as int] && code_le(
                    codes[starts@[i] as int],
                    seq![i],
                )
            &&& match r.0 {
                Some(g) => {
                    &&& g < nv.len()
                    &&& visited[g as int]
                    &&& nv[g as int].is_terminal
                    &&& closed_below(nv, visited, dist, dist[g as int] as int)
                    &&& closed_codes_below(nv, visited, dist, codes, codes[g as int])
                },
                None => {
                    &&& forall|b: int| #[trigger] closed_below(nv, visited, dist, b)
                    &&& forall|b: Seq<int>| #[trigger] closed_codes_below(nv, visited, dist, codes, b)
                },
            }
        }),
{
    let ghost nv = view_seq(nodes@);
    let ghost s = starts@.to_set();
    let n = nodes.len();
    let mut visited: Vec<bool> = Vec::new();
    let mut parents: Vec<Option<(usize, char)>> = Vec::new();
    let mut x: usize = 0;
    while x < n
        invariant
            n == nv.len(),
            0 <= x <= n,
            visited@.len() == x,
            parents@.len() == x,
            forall|v: int| 0 <= v < x ==> !visited@[v] && parents@[v] is None,
        decreases n - x,
    {
        visited.push(false);
        parents.push(None);
        x += 1;
        assert forall|v: int| 0 <= v < x implies !visited@[v] && parents@[v] is None by {
            if v < x - 1 {
                assert(visited@[v] == visited@.drop_last()[v]);
                assert(parents@[v] == parents@.drop_last()[v]);
            }
        }
    }
    assert forall|v: int| 0 <= v < n implies #[trigger] parents@[v] is None && !visited@[v] by {
        assert(!visited@[v] && parents@[v] is None);
    }
    let ghost dist: Seq<nat> = Seq::new(n as nat, |v: int| 0nat);
    let ghost mut codes: Seq<Seq<int>> = Seq::new(n as nat, |v: int| Seq::<int>::empty());
    let mut queue: Vec<usize> = Vec::new();
    let mut i: usize = 0;
    while i < starts.len()
        invariant
            n == nv.len(),
            s == starts@.to_set(),
            forall|j: int| 0 <= j < starts@.len() ==> #[trigger] starts@[j] < n,
            visited@.len() == n,
            parents@.len() == n,
            dist == Seq::new(n as nat, |v: int| 0nat),
            codes.len() == n,
            0 <= i <= starts@.len(),
            queue@.len() <= n,
            forall|v: int| 0 <= v < n ==> #[trigger] parents@[v] is None,
            forall|q: int| 0 <= q < queue@.len() ==> #[trigger] queue@[q] < n && visited@[queue@[q] as int],
            forall|a: int, b: int| 0 <= a < b < queue@.len() ==> #[trigger] queue@[a] != #[trigger] queue@[b],
            forall|v: int| 0 <= v < n && #[trigger] visited@[v] ==> queue@.contains(v as usize) && s.contains(v as usize),
            forall|j: int| 0 <= j < i ==> visited@[#[trigger] starts@[j] as int] && codes[starts@[j] as int][0] <= j,
            forall|v: int|
                0 <= v < n && #[trigger] visited@[v] ==> codes[v].len() == 1 && 0 <= codes[v][0] < i && starts@[codes[v][0]]
                    == v,
            forall|a: int, b: int|
                #![trigger queue@[a], queue@[b]]
                0 <= a < b < queue@.len() ==> codes[queue@[a] as int][0] < codes[queue@[b] as int][0],
        decreases starts@.len() - i,
    {
        let start = starts[i];
        if !visited[start] {
            proof {
                lemma_unique_queue_bound(queue@, n as nat, visited@);
            }
            let ghost before = queue@;
            let ghost vis0 = visited@;
            let ghost codes0 = codes;
            visited.set(start, true);
            queue.push(start);
            proof {
                codes = codes.update(start as int, seq![i as int]);
            }
            assert forall|v: int| 0 <= v < n && #[trigger] visited@[v] implies queue@.contains(v as usize)
                && s.contains(v as usize) by {
                if v == start {
                    assert(queue@[queue@.len() - 1] == start);
                    assert(starts@[i as int] == start);
                } else {
                    let q = choose|q: int| 0 <= q < before.len() && before[q] == v as usize;
                    assert(queue@[q] == v as usize);
                }
            }
            assert forall|a: int, b: int|
                #![trigger queue@[a], queue@[b]]
                0 <= a < b < queue@.len() implies codes[queue@[a] as int][0] < codes[queue@[b] as int][0] by {
                assert(queue@[a] == before[a]);
                assert(vis0[before[a] as int]);
                if b < before.len() {
                    assert(queue@[b] == before[b]);
                    assert(vis0[before[b] as int]);
                }
            }
            assert forall|j: int| 0 <= j < i + 1 implies visited@[#[trigger] starts@[j] as int] && codes[starts@[j] as int][0]
                <= j by {
                if j < i {
                    assert(vis0[starts@[j] as int]);
                }
            }
        } else {
            assert(codes[start as int][0] < i);
        }
        i += 1;
    }
    assert(search_inv(nv, s, visited@, parents@, dist, queue@, 0)) by {
        assert forall|u: usize| #[trigger] s.contains(u) implies u < n && visited@[u as int] && dist[u as int] == 0 by {
            let j = choose|j: int| 0 <= j < starts@.len() && starts@[j] == u;
            assert(visited@[starts@[j] as int]);
        }
    }
    assert(code_inv(nv, starts@, visited@, parents@, codes, queue@, 0)) by {
        assert forall|v: int| 0 <= v < n && #[trigger] visited@[v] implies code_ok(nv, starts@, parents@, codes, v) by {
            assert(parents@[v] is None);
        }
        assert forall|a: int, b: int|
            #![trigger queue@[a], queue@[b]]
            0 <= a < b < queue@.len() implies code_lt(codes[queue@[a] as int], codes[queue@[b] as int]) by {
            assert(visited@[queue@[a] as int] && visited@[queue@[b] as int]);
        }
        if 0 < queue@.len() {
            assert forall|q: int| 0 <= q < queue@.len() implies code_lt(codes[#[trigger] queue@[q] as int], codes[queue@[0] as int].push(0)) by {
                assert(visited@[queue@[q] as int] && visited@[queue@[0] as int]);
            }
        }
        assert forall|j: int| 0 <= j < starts@.len() implies #[trigger] starts@[j] < n && visited@[starts@[j] as int]
            && code_le(codes[starts@[j] as int], seq![j]) by {
            let c = codes[starts@[j] as int];
            assert(visited@[starts@[j] as int]);
            if c[0] == j {
                assert(c =~= seq![j]);
            }
        }
    }
    let mut head: usize = 0;
    let mut goal: Option<usize> = None;
    while head < queue.len() && goal.is_none()
        invariant
            edges_in_range(nv),
            nv == view_seq(nodes@),
            n == nv.len(),
            search_inv(nv, s, visited@, parents@, dist, queue@, head as int),
            code_inv(nv, starts@, visited@, parents@, codes, queue@, head as int),
            match goal {
                None => forall|q: int|
                    0 <= q < head ==> #[trigger] expanded(nv, visited@, dist, queue@[q]) && expanded_codes(
                        nv,
                        visited@,
                        codes,
                        queue@[q],
                    ),
                Some(g) => {
                    &&& head >= 1
                    &&& queue@[head - 1] == g
                    &&& nv[g as int].is_terminal
                    &&& forall|q: int|
                        0 <= q < head - 1 ==> #[trigger] expanded(nv, visited@, dist, queue@[q]) && expanded_codes(
                            nv,
                            visited@,
                            codes,
                            queue@[q],
                        )
                },
            },
        decreases n - head, (if goal is None { 1int } else { 0int }),
    {
        let u = queue[head];
        assert(nv[u as int] == nodes@[u as int]@);
        proof {
            lemma_advance_codes(nv, starts@, visited@, parents@, codes, queue@, head as int);
        }
        head += 1;
        if nodes[u].is_terminal {
            goal = Some(u);
        } else {
            let mut k: usize = 0;
            while k < nodes[u].transitions.len()
                invariant
                    edges_in_range(nv),
                    nv == view_seq(nodes@),
                    n == nv.len(),
                    1 <= head,
                    u == queue@[head - 1],
                    u < n,
                    nv[u as int] == nodes@[u as int]@,
                    !nv[u as int].is_terminal,
                    search_inv(nv, s, visited@, parents@, dist, queue@, head as int),
                    code_inv(nv, starts@, visited@, parents@, codes, queue@, head as int),
                    forall|q: int| 0 <= q < queue@.len() ==> dist[#[trigger] queue@[q] as int] <= dist[u as int] + 1,
                    forall|q: int|
                        0 <= q < queue@.len() ==> code_lt(codes[#[trigger] queue@[q] as int], codes[u as int].push(k as int)),
                    forall|q: int|
                        0 <= q < head - 1 ==> #[trigger] expanded(nv, visited@, dist, queue@[q]) && expanded_codes(
                            nv,
                            visited@,
                            codes,
                            queue@[q],
                        ),
                    0 <= k <= nv[u as int].transitions.len(),
                    forall|kk: int|
                        0 <= kk < k ==> visited@[(#[trigger] nv[u as int].transitions[kk]).1 as int]
                            && dist[nv[u as int].transitions[kk].1 as int] <= dist[u as int] + 1 && code_le(
                            codes[nv[u as int].transitions[kk].1 as int],
                            codes[u as int].push(kk),
                        ),
                decreases nv[u as int].transitions.len() - k,
            {
                let (c, v) = nodes[u].transitions[k];
                assert(nv[u as int].transitions[k as int] == (c, v));
                assert(v < n);
                if !visited[v] {
                    let ghost before = queue@;
                    let ghost vis0 = visited@;
                    let ghost par0 = parents@;
                    let ghost dist0 = dist;
                    let ghost codes0 = codes;
                    proof {
                        assert forall|w: int| 0 <= w < n && #[trigger] vis0[w] && par0[w] is Some implies vis0[par0[w]->Some_0.0 as int] by {
                            assert(parent_ok(nv, s, vis0, par0, dist0, w));
                        }
                        assert forall|q: int| 0 <= q < head - 1 implies #[trigger] expanded_codes(nv, vis0, codes0, before[q]) by {
                            assert(expanded(nv, vis0, dist0, before[q]));
                        }
                        lemma_visit_codes(nv, starts@, vis0, par0, codes0, before, head as int, u, k as int, v);
                    }
                    visited.set(v, true);
                    parents.set(v, Some((u, c)));
                    proof {
                        dist = dist.update(v as int, dist[u as int] + 1);
                        codes = codes.update(v as int, codes[u as int].push(k as int));
                    }
                    queue.push(v);
                    proof {
                        lemma_visit_step(nv, s, vis0, par0, dist0, before, head as int, u, k as int, v);
                        assert forall|q: int| 0 <= q < head - 1 implies #[trigger] expanded(nv, visited@, dist, queue@[q])
                            && expanded_codes(nv, visited@, codes, queue@[q]) by {
                            assert(expanded(nv, visited@, dist, queue@[q]));
                            assert(expanded_codes(nv, visited@, codes, queue@[q]));
                        }
                        assert forall|kk: int| 0 <= kk < k + 1 implies visited@[(#[trigger] nv[u as int].transitions[kk]).1 as int]
                            && dist[nv[u as int].transitions[kk].1 as int] <= dist[u as int] + 1 && code_le(
                            codes[nv[u as int].transitions[kk].1 as int],
                            codes[u as int].push(kk),
                        ) by {
                            assert(visited@[(nv[u as int].transitions[kk]).1 as int]
                                && dist[nv[u as int].transitions[kk].1 as int] <= dist[u as int] + 1);
                        }
                    }
                } else {
                    proof {
                        let q = choose|q: int| 0 <= q < queue@.len() && queue@[q] == v;
                        assert(dist[queue@[q] as int] <= dist[u as int] + 1);
                        assert(code_lt(codes[queue@[q] as int], codes[u as int].push(k as int)));
                        lemma_code_push(codes[u as int], codes[u as int], k as int, k as int + 1);
                        assert forall|q2: int| 0 <= q2 < queue@.len() implies code_lt(
                            codes[#[trigger] queue@[q2] as int],
                            codes[u as int].push(k as int + 1),
                        ) by {
                            lemma_code_order(
                                codes[queue@[q2] as int],
                                codes[u as int].push(k as int),
                                codes[u as int].push(k as int + 1),
                            );
                        }
                    }
                }
                k += 1;
            }
            assert(expanded(nv, visited@, dist, u));
            assert(expanded_codes(nv, visited@, codes, u));
        }
    }
    proof {
        match goal {
            Some(g) => {
                assert forall|w: usize| w < n && visited@[w as int] && dist[w as int] < dist[g as int] implies #[trigger] expanded(
                    nv,
                    visited@,
                    dist,
                    w,
                ) by {
                    let q = choose|q: int| 0 <= q < queue@.len() && queue@[q] == w;
                    if q >= head - 1 {
                        assert(dist[queue@[head - 1] as int] <= dist[queue@[q] as int]);
                    }
                }
                assert forall|w: usize| w < n && visited@[w as int] && code_lt(codes[w as int], codes[g as int]) implies #[trigger] expanded(
                    nv,
                    visited@,
                    dist,
                    w,
                ) && expanded_codes(nv, visited@, codes, w) by {
                    let q = choose|q: int| 0 <= q < queue@.len() && queue@[q] == w;
                    if q > head - 1 {
                        assert(code_lt(codes[queue@[head - 1] as int], codes[queue@[q] as int]));
                        lemma_code_order(codes[w as int], codes[g as int], codes[w as int]);
                    } else if q == head - 1 {
                        lemma_code_order(codes[w as int], codes[w as int], codes[w as int]);
                    }
                }
            },
            None => {
                assert forall|b: int| #[trigger] closed_below(nv, visited@, dist, b) by {
                    assert forall|w: usize| w < n && visited@[w as int] && dist[w as int] < b implies #[trigger] expanded(
                        nv,
                        visited@,
                        dist,
                        w,
                    ) by {
                        let q = choose|q: int| 0 <= q < queue@.len() && queue@[q] == w;
                    }
                }
                assert forall|b: Seq<int>| #[trigger] closed_codes_below(nv, visited@, dist, codes, b) by {
                    assert forall|w: usize| w < n && visited@[w as int] && code_lt(codes[w as int], b) implies #[trigger] expanded(
                        nv,
                        visited@,
                        dist,
                        w,
                    ) && expanded_codes(nv, visited@, codes, w) by {
                        let q = choose|q: int| 0 <= q < queue@.len() && queue@[q] == w;
                    }
                }
            },
        }
    }
    (goal, parents, Ghost(visited@), Ghost(dist), Ghost(codes))
}

/// Taking the next state from the queue keeps the paths of the search; every path in the queue
/// comes before what that state can add.
proof fn lemma_advance_codes(
    nodes: Seq<NodeView>,
    starts: Seq<usize>,
    visited: Seq<bool>,
    parents: Seq<Option<(usize, char)>>,
    codes: Seq<Seq<int>>,
    queue: Seq<usize>,
    head: int,
)
    requires
        code_inv(nodes, starts, visited, parents, codes, queue, head),
        0 <= head < queue.len(),
    ensures
        code_inv(nodes, starts, visited, parents, codes, queue, head + 1),
        forall|q: int| 0 <= q < queue.len() ==> code_lt(codes[#[trigger] queue[q] as int], codes[queue[head] as int].push(0)),
{
    if head + 1 < queue.len() {
        let h0 = codes[queue[head] as int];
        let h1 = codes[queue[head + 1] as int];
        assert(code_lt(h0, h1));
        lemma_code_push(h0, h1, 0, 0);
        assert forall|q: int| 0 <= q < queue.len() implies code_lt(codes[#[trigger] queue[q] as int], h1.push(0)) by {
            lemma_code_order(codes[queue[q] as int], h0.push(0), h1.push(0));
        }
    }
}

/// Visiting the successor `v` of `u` (the state being expanded) keeps the facts of the search.
proof fn lemma_visit_step(
    nodes: Seq<NodeView>,
    s: Set<usize>,
    visited: Seq<bool>,
    parents: Seq<Option<(usize, char)>>,
    dist: Seq<nat>,
    queue: Seq<usize>,
    head: int,
    u: usize,
    k: int,
    v: usize,
)
    requires
        edges_in_range(nodes),
        search_inv(nodes, s, visited, parents, dist, queue, head),
        1 <= head,
        u == queue[head - 1],
        !nodes[u as int].is_terminal,
        forall|q: int| 0 <= q < queue.len() ==> dist[#[trigger] queue[q] as int] <= dist[u as int] + 1,
        forall|q: int| 0 <= q < head - 1 ==> #[trigger] expanded(nodes, visited, dist, queue[q]),
        0 <= k < nodes[u as int].transitions.len(),
        nodes[u as int].transitions[k].1 == v,
        !visited[v as int],
        forall|kk: int|
            0 <= kk < k ==> visited[(#[trigger] nodes[u as int].transitions[kk]).1 as int]
                && dist[nodes[u as int].transitions[kk].1 as int] <= dist[u as int] + 1,
        exists|w: int| 0 <= w < nodes.len() && !visited[w],
    ensures
        ({
            let visited1 = visited.update(v as int, true);
            let parents1 = parents.update(v as int, Some((u, nodes[u as int].transitions[k].0)));
            let dist1 = dist.update(v as int, dist[u as int] + 1);
            let queue1 = queue.push(v);
            &&& search_inv(nodes, s, visited1, parents1, dist1, queue1, head)
            &&& forall|q: int| 0 <= q < queue1.len() ==> dist1[#[trigger] queue1[q] as int] <= dist1[u as int] + 1
            &&& forall|q: int| 0 <= q < head - 1 ==> #[trigger] expanded(nodes, visited1, dist1, queue1[q])
            &&& forall|kk: int|
                0 <= kk <= k ==> visited1[(#[trigger] nodes[u as int].transitions[kk]).1 as int]
                    && dist1[nodes[u as int].transitions[kk].1 as int] <= dist1[u as int] + 1
        }),
{
    let n = nodes.len();
    let c = nodes[u as int].transitions[k].0;
    let visited1 = visited.update(v as int, true);
    let parents1 = parents.update(v as int, Some((u, c)));
    let dist1 = dist.update(v as int, dist[u as int] + 1);
    let queue1 = queue.push(v);
    assert(v < n);
    assert(queue[head - 1] < n && visited[queue[head - 1] as int]);
    assert(u != v);
    assert(dist1[u as int] == dist[u as int]);
    lemma_unique_queue_bound(queue, n, visited);
    // the queue
    assert forall|q: int| 0 <= q < queue1.len() implies #[trigger] queue1[q] < n && visited1[queue1[q] as int] by {
        if q < queue.len() {
            assert(queue1[q] == queue[q]);
        }
    }
    assert forall|a: int, b: int| 0 <= a < b < queue1.len() implies #[trigger] queue1[a] != #[trigger] queue1[b] by {
        if b < queue.len() {
            assert(queue1[a] == queue[a] && queue1[b] == queue[b]);
        } else {
            assert(queue1[a] == queue[a]);
            assert(visited[queue[a] as int]);
        }
    }
    assert forall|w: int| 0 <= w < n && #[trigger] visited1[w] implies queue1.contains(w as usize) by {
        if w == v {
            assert(queue1[queue1.len() - 1] == v);
        } else {
            assert(visited[w]);
            let q = choose|q: int| 0 <= q < queue.len() && queue[q] == w as usize;
            assert(queue1[q] == w as usize);
        }
    }
    // distances along the queue
    assert forall|q: int| 0 <= q < queue.len() implies dist1[#[trigger] queue[q] as int] == dist[queue[q] as int] by {
        assert(visited[queue[q] as int]);
    }
    assert forall|a: int, b: int|
        #![trigger queue1[a], queue1[b]]
        0 <= a <= b < queue1.len() implies dist1[queue1[a] as int] <= dist1[queue1[b] as int] by {
        assert(queue1[a] == queue[a] || a == queue.len());
        if b < queue.len() {
            assert(queue1[a] == queue[a] && queue1[b] == queue[b]);
            assert(dist1[queue[a] as int] == dist[queue[a] as int]);
            assert(dist1[queue[b] as int] == dist[queue[b] as int]);
        } else if a < queue.len() {
            assert(queue1[a] == queue[a]);
            assert(dist1[queue[a] as int] == dist[queue[a] as int]);
            assert(dist[queue[a] as int] <= dist[u as int] + 1);
        }
    }
    assert forall|q: int| 0 <= q < queue1.len() implies dist1[#[trigger] queue1[q] as int] <= dist1[u as int] + 1 by {
        if q < queue.len() {
            assert(queue1[q] == queue[q]);
            assert(dist1[queue[q] as int] == dist[queue[q] as int]);
        }
    }
    if head < queue1.len() {
        assert forall|q: int| 0 <= q < queue1.len() implies dist1[#[trigger] queue1[q] as int] <= dist1[queue1[head] as int] + 1 by {
            assert(dist1[queue1[head - 1] as int] <= dist1[queue1[head] as int]);
            assert(queue1[head - 1] == u);
        }
    }
    // the start states
    assert forall|w: usize| #[trigger] s.contains(w) implies w < n && visited1[w as int] && dist1[w as int] == 0 by {
        assert(visited[w as int]);
    }
    // parent links
    assert forall|w: int| 0 <= w < n && #[trigger] visited1[w] implies parent_ok(nodes, s, visited1, parents1, dist1, w) by {
        if w == v {
            assert(nodes[u as int].transitions[k] == (c, v));
        } else {
            assert(visited[w]);
            assert(parent_ok(nodes, s, visited, parents, dist, w));
            assert(parents1[w] == parents[w]);
            match parents[w] {
                Some((p, pc)) => {
                    assert(visited[p as int]);
                    let kk = choose|kk: int|
                        0 <= kk < nodes[p as int].transitions.len() && #[trigger] nodes[p as int].transitions[kk]
                            == (pc, w as usize);
                    assert(nodes[p as int].transitions[kk] == (pc, w as usize));
                },
                None => {},
            }
        }
    }
    assert forall|w: int| 0 <= w < n && !visited1[w] implies #[trigger] parents1[w] is None by {
        assert(!visited[w]);
    }
    // the expanded states stay expanded
    assert forall|q: int| 0 <= q < head - 1 implies #[trigger] expanded(nodes, visited1, dist1, queue1[q]) by {
        assert(queue1[q] == queue[q]);
        assert(expanded(nodes, visited, dist, queue[q]));
        let x = queue[q];
        assert(visited[x as int]);
        assert forall|j: int| 0 <= j < nodes[x as int].transitions.len() implies visited1[(
        #[trigger] nodes[x as int].transitions[j]).1 as int] && dist1[nodes[x as int].transitions[j].1 as int]
            <= dist1[x as int] + 1 by {
            assert(visited[nodes[x as int].transitions[j].1 as int]);
        }
    }
    assert forall|kk: int| 0 <= kk <= k implies visited1[(#[trigger] nodes[u as int].transitions[kk]).1 as int]
        && dist1[nodes[u as int].transitions[kk].1 as int] <= dist1[u as int] + 1 by {
        if kk < k {
            assert(visited[nodes[u as int].transitions[kk].1 as int]);
        }
    }
}

/// A queue of distinct visited states is shorter than the number of states when some state
/// is not visited yet.
proof fn lemma_unique_queue_bound(queue: Seq<usize>, n: nat, visited: Seq<bool>)
    requires
        visited.len() == n,
        forall|q: int| 0 <= q < queue.len() ==> #[trigger] queue[q] < n && visited[queue[q] as int],
        forall|a: int, b: int| 0 <= a < b < queue.len() ==> #[trigger] queue[a] != #[trigger] queue[b],
        exists|v: int| 0 <= v < n && !visited[v],
    ensures
        queue.len() < n,
{
    let v = choose|v: int| 0 <= v < n && !visited[v];
    let qi = queue.map_values(|x: usize| x as int);
    assert(qi.no_duplicates()) by {
        assert forall|a: int, b: int| 0 <= a < qi.len() && 0 <= b < qi.len() && a != b implies qi[a] != qi[b] by {
            if a < b {
                assert(queue[a] != queue[b]);
            } else {
                assert(queue[b] != queue[a]);
            }
        }
    }
    qi.unique_seq_to_set();
    let all = vstd::set_lib::set_int_range(0, n as int).remove(v);
    vstd::set_lib::lemma_int_range(0, n as int);
    assert(qi.to_set().subset_of(all)) by {
        assert forall|x: int| qi.to_set().contains(x) implies all.contains(x) by {
            let q = choose|q: int| 0 <= q < qi.len() && qi[q] == x;
            assert(queue[q] < n && visited[queue[q] as int]);
        }
    }
    vstd::set_lib::lemma_len_subset(qi.to_set(), all);
}

/// Follows the parent links back from `goal` to a start state, and returns the keys along
/// the way in typing order.
fn trace_back(
    nodes: &Vec<Node>,
    parents: &Vec<Option<(usize, char)>>,
    goal: usize,
    Ghost(s): Ghost<Set<usize>>,
    Ghost(starts): Ghost<Seq<usize>>,
    Ghost(visited): Ghost<Seq<bool>>,
    Ghost(dist): Ghost<Seq<nat>>,
    Ghost(codes): Ghost<Seq<Seq<int>>>,
) -> (w: Vec<char>)
    requires
        parents@.len() == nodes@.len(),
        visited.len() == nodes@.len(),
        dist.len() == nodes@.len(),
        codes.len() == nodes@.len(),
        goal < nodes@.len(),
        visited[goal as int],
        forall|v: int|
            0 <= v < nodes@.len() && #[trigger] visited[v] ==> parent_ok(view_seq(nodes@), s, visited, parents@, dist, v),
        forall|v: int|
            0 <= v < nodes@.len() && #[trigger] visited[v] ==> code_ok(view_seq(nodes@), starts, parents@, codes, v),
    ensures
        run(view_seq(nodes@), s, w@).contains(goal),
        w@.len() == dist[goal as int],
        path_keys(view_seq(nodes@), starts, codes[goal as int]) == w@,
{
    let ghost nv = view_seq(nodes@);
    let mut node_idx = goal;
    let mut back: Vec<char> = Vec::new();
    let ghost mut path: Seq<char> = Seq::empty();
    assert(run(nv, set![goal], path) == set![goal]);
    assert(set![goal].contains(goal));
    while parents[node_idx].is_some()
        invariant
            nv == view_seq(nodes@),
            parents@.len() == nv.len(),
            visited.len() == nv.len(),
            dist.len() == nv.len(),
            node_idx < nv.len(),
            visited[node_idx as int],
            forall|v: int| 0 <= v < nv.len() && #[trigger] visited[v] ==> parent_ok(nv, s, visited, parents@, dist, v),
            forall|v: int| 0 <= v < nv.len() && #[trigger] visited[v] ==> code_ok(nv, starts, parents@, codes, v),
            codes.len() == nv.len(),
            path_keys(nv, starts, codes[goal as int]) == path_keys(nv, starts, codes[node_idx as int]) + path,
            run(nv, set![node_idx], path).contains(goal),
            back@.len() == path.len(),
            forall|j: int| 0 <= j < path.len() ==> #[trigger] back@[j] == path[path.len() - 1 - j],
            dist[node_idx as int] + path.len() == dist[goal as int],
        decreases dist[node_idx as int],
    {
        let (prev_idx, c) = parents[node_idx].unwrap();
        proof {
            assert(parent_ok(nv, s, visited, parents@, dist, node_idx as int));
            let k = choose|k: int|
                0 <= k < nv[prev_idx as int].transitions.len() && #[trigger] nv[prev_idx as int].transitions[k]
                    == (c, node_idx);
            lemma_run_prepend(nv, prev_idx, k, path, goal);
            assert(code_ok(nv, starts, parents@, codes, node_idx as int));
            assert(code_ok(nv, starts, parents@, codes, prev_idx as int));
            let cn = codes[node_idx as int];
            assert(path_keys(nv, starts, cn) == path_keys(nv, starts, codes[prev_idx as int]).push(c));
            assert(path_keys(nv, starts, codes[prev_idx as int]).push(c) + path =~= path_keys(
                nv,
                starts,
                codes[prev_idx as int],
            ) + (seq![c] + path));
        }
        let ghost old_back = back@;
        let ghost old_path = path;
        back.push(c);
        proof {
            path = seq![c] + path;
            assert forall|j: int| 0 <= j < path.len() implies #[trigger] back@[j] == path[path.len() - 1 - j] by {
                if j < old_back.len() {
                    assert(back@[j] == old_back[j]);
                    assert(path[path.len() - 1 - j] == old_path[old_path.len() - 1 - j]);
                }
            }
        }
        node_idx = prev_idx;
    }
    proof {
        assert(parent_ok(nv, s, visited, parents@, dist, node_idx as int));
        assert(code_ok(nv, starts, parents@, codes, node_idx as int));
        assert(path_keys(nv, starts, codes[node_idx as int]) + path =~= path);
        assert(set![node_idx].subset_of(s));
        lemma_run_mono(nv, set![node_idx], s, path);
    }
    let mut w: Vec<char> = Vec::new();
    let mut q: usize = back.len();
    while q > 0
        invariant
            q <= back@.len(),
            back@.len() == path.len(),
            forall|j: int| 0 <= j < path.len() ==> #[trigger] back@[j] == path[path.len() - 1 - j],
            w@ == path.take(path.len() - q),
        decreases q,
    {
        w.push(back[q - 1]);
        q -= 1;
        assert(w@ =~= path.take(path.len() - q));
    }
    assert(path.take(path.len() as int) =~= path);
    w
}

/// A shortest key sequence from the states `starts` to a terminal state of the automaton,
/// found by breadth-first search from the start states taken in order; empty when no
/// terminal state can be reached. Among the shortest, it is the one of the first path in the
/// order [`code_lt`]: from the earliest start state, taking the earliest transitions.
pub fn shortest_completion(nodes: &Vec<Node>, starts: &Vec<usize>) -> (g: String)
    requires
        edges_in_range(view_seq(nodes@)),
        forall|i: int| 0 <= i < starts@.len() ==> #[trigger] starts@[i] < nodes@.len(),
    ensures
        is_shortest_completion(view_seq(nodes@), starts@.to_set(), g@),
        is_first_completion(view_seq(nodes@), starts@, g@),
{
    let ghost nv = view_seq(nodes@);
    let ghost s = starts@.to_set();
    let (goal, parents, Ghost(visited), Ghost(dist), Ghost(codes)) = search(nodes, starts);
    match goal {
        None => {
            proof {
                assert forall|w: Seq<char>| !completes(nv, s, w) by {
                    if completes(nv, s, w) {
                        assert(closed_below(nv, visited, dist, (w.len() + 1) as int));
                        lemma_no_shorter(nv, s, visited, dist, (w.len() + 1) as int, w);
                    }
                }
                assert forall|code2: Seq<int>| !#[trigger] terminal_path(nv, starts@, code2) by {
                    if terminal_path(nv, starts@, code2) {
                        let b = code2.push(0);
                        assert(closed_codes_below(nv, visited, dist, codes, b));
                        lemma_least_code(nv, starts@, visited, dist, codes, b, code2);
                    }
                }
            }
            String::new()
        },
        Some(g) => {
            let w = trace_back(nodes, &parents, g, Ghost(s), Ghost(starts@), Ghost(visited), Ghost(dist), Ghost(codes));
            proof {
                let code = codes[g as int];
                assert(code_ok(nv, starts@, parents@, codes, g as int));
                assert(terminal_path(nv, starts@, code));
                assert forall|code2: Seq<int>| #[trigger] terminal_path(nv, starts@, code2) implies !code_lt(code2, code) by {
                    lemma_least_code(nv, starts@, visited, dist, codes, code, code2);
                }
                assert(completes(nv, s, w@)) by {
                    assert(run(nv, s, w@).contains(g) && g < nv.len() && nv[g as int].is_terminal);
                }
                assert forall|w2: Seq<char>| completes(nv, s, w2) implies w@.len() <= w2.len() by {
                    lemma_no_shorter(nv, s, visited, dist, dist[g as int] as int, w2);
                }
            }
            chars_to_string(&w)
        },
    }
}

/// The state at the end of the path given by `code`: `code[0]` picks a start state, each
/// further entry the index of the transition taken; none when the code names no path.
pub open spec fn path_end(nodes: Seq<NodeView>, starts: Seq<usize>, code: Seq<int>) -> Option<usize>
    decreases code.len(),
{
    if code.len() == 0 {
        None
    } else if code.len() == 1 {
        if 0 <= code[0] < starts.len() {
            Some(starts[code[0]])
        } else {
            None
        }
    } else {
        match path_end(nodes, starts, code.drop_last()) {
            Some(u) => if u < nodes.len() && 0 <= code.last() < nodes[u as int].transitions.len() {
                Some(nodes[u as int].transitions[code.last()].1)
            } else {
                None
            },
            None => None,
        }
    }
}

/// The keys along the path given by `code`.
pub open spec fn path_keys(nodes: Seq<NodeView>, starts: Seq<usize>, code: Seq<int>) -> Seq<char>
    decreases code.len(),
{
    if code.len() <= 1 {
        Seq::empty()
    } else {
        match path_end(nodes, starts, code.drop_last()) {
            Some(u) => path_keys(nodes, starts, code.drop_last()).push(
                nodes[u as int].transitions[code.last()].0,
            ),
            None => Seq::empty(),
        }
    }
}

/// The code names a path that ends at a terminal state.
pub open spec fn terminal_path(nodes: Seq<NodeView>, starts: Seq<usize>, code: Seq<int>) -> bool {
    &&& path_end(nodes, starts, code) is Some
    &&& path_end(nodes, starts, code)->Some_0 < nodes.len()
    &&& nodes[path_end(nodes, starts, code)->Some_0 as int].is_terminal
}

/// `a` comes before `b` in dictionary order.
pub open spec fn lex_lt(a: Seq<int>, b: Seq<int>) -> bool
    decreases a.len(),
{
    if a.len() == 0 || b.len() == 0 {
        false
    } else if a[0] < b[0] {
        true
    } else if a[0] > b[0] {
        false
    } else {
        lex_lt(a.drop_first(), b.drop_first())
    }
}

/// The order of paths: shorter first, then by start state and transitions taken.
pub open spec fn code_lt(a: Seq<int>, b: Seq<int>) -> bool {
    a.len() < b.len() || (a.len() == b.len() && lex_lt(a, b))
}

/// `a` is `b` or comes before it.
pub open spec fn code_le(a: Seq<int>, b: Seq<int>) -> bool {
    a == b || code_lt(a, b)
}

/// `g` is the keys of the first path (in the order [`code_lt`]) from a start state to a
/// terminal state, when there is one: among the shortest, the one from the earliest start
/// state that takes the earliest transitions.
pub open spec fn is_first_completion(nodes: Seq<NodeView>, starts: Seq<usize>, g: Seq<char>) -> bool {
    (exists|code: Seq<int>| #[trigger] terminal_path(nodes, starts, code)) ==> exists|code: Seq<int>|
        #[trigger] terminal_path(nodes, starts, code) && path_keys(nodes, starts, code) == g && forall|
            code2: Seq<int>,
        | #[trigger] terminal_path(nodes, starts, code2) ==> !code_lt(code2, code)
}

proof fn lemma_lex_irrefl(a: Seq<int>)
    ensures
        !lex_lt(a, a),
    decreases a.len(),
{
    if a.len() > 0 {
        lemma_lex_irrefl(a.drop_first());
    }
}

proof fn lemma_lex_trans(a: Seq<int>, b: Seq<int>, c: Seq<int>)
    requires
        lex_lt(a, b),
        lex_lt(b, c),
    ensures
        lex_lt(a, c),
    decreases a.len(),
{
    if a.len() > 0 && b.len() > 0 && c.len() > 0 && a[0] == b[0] && b[0] == c[0] {
        lemma_lex_trans(a.drop_first(), b.drop_first(), c.drop_first());
    }
}

proof fn lemma_lex_push(a: Seq<int>, b: Seq<int>, x: int, y: int)
    requires
        lex_lt(a, b),
    ensures
        lex_lt(a.push(x), b.push(y)),
    decreases a.len(),
{
    assert(a.push(x)[0] == a[0] && b.push(y)[0] == b[0]);
    if a[0] == b[0] {
        assert(a.push(x).drop_first() =~= a.drop_first().push(x));
        assert(b.push(y).drop_first() =~= b.drop_first().push(y));
        lemma_lex_push(a.drop_first(), b.drop_first(), x, y);
    }
}

proof fn lemma_lex_push_last(a: Seq<int>, x: int, y: int)
    requires
        x < y,
    ensures
        lex_lt(a.push(x), a.push(y)),
    decreases a.len(),
{
    if a.len() > 0 {
        assert(a.push(x).drop_first() =~= a.drop_first().push(x));
        assert(a.push(y).drop_first() =~= a.drop_first().push(y));
        lemma_lex_push_last(a.drop_first(), x, y);
    }
}

/// The order of paths is a strict order.
proof fn lemma_code_order(a: Seq<int>, b: Seq<int>, c: Seq<int>)
    ensures
        !code_lt(a, a),
        code_lt(a, b) && code_lt(b, c) ==> code_lt(a, c),
        code_le(a, b) && code_lt(b, c) ==> code_lt(a, c),
        code_lt(a, b) && code_le(b, c) ==> code_lt(a, c),
        code_le(a, b) && code_le(b, c) ==> code_le(a, c),
        code_lt(a, b) ==> !code_lt(b, a),
{
    lemma_lex_irrefl(a);
    lemma_lex_irrefl(b);
    if lex_lt(a, b) && lex_lt(b, c) {
        lemma_lex_trans(a, b, c);
    }
    if lex_lt(a, b) && lex_lt(b, a) {
        lemma_lex_trans(a, b, a);
    }
}

/// Taking one more transition keeps the order of paths.
proof fn lemma_code_push(a: Seq<int>, b: Seq<int>, x: int, y: int)
    ensures
        code_lt(a, b) ==> code_lt(a.push(x), b.push(y)),
        code_le(a, b) && x <= y ==> code_le(a.push(x), b.push(y)),
        x < y ==> code_lt(a.push(x), a.push(y)),
{
    if code_lt(a, b) && a.len() == b.len() {
        lemma_lex_push(a, b, x, y);
    }
    if x < y {
        lemma_lex_push_last(a, x, y);
    }
    if a == b && x < y {
        lemma_lex_push_last(a, x, y);
    }
}

/// The path of `codes[v]` ends at `v`, and `v`'s parent link is its last step (a state without
/// a link is a start state, with a one-entry code).
spec fn code_ok(
    nodes: Seq<NodeView>,
    starts: Seq<usize>,
    parents: Seq<Option<(usize, char)>>,
    codes: Seq<Seq<int>>,
    v: int,
) -> bool {
    &&& path_end(nodes, starts, codes[v]) == Some(v as usize)
    &&& match parents[v] {
        Some((u, c)) => {
            &&& codes[v].len() >= 2
            &&& codes[v].drop_last() == codes[u as int]
            &&& u < nodes.len()
            &&& 0 <= codes[v].last() < nodes[u as int].transitions.len()
            &&& nodes[u as int].transitions[codes[v].last()] == (c, v as usize)
        },
        None => codes[v].len() == 1,
    }
}

/// Every successor of the expanded state `u` has a path no later than the one through `u`.
spec fn expanded_codes(nodes: Seq<NodeView>, visited: Seq<bool>, codes: Seq<Seq<int>>, u: usize) -> bool {
    forall|k: int|
        0 <= k < nodes[u as int].transitions.len() ==> visited[(
        #[trigger] nodes[u as int].transitions[k]).1 as int] && code_le(
            codes[nodes[u as int].transitions[k].1 as int],
            codes[u as int].push(k),
        )
}

/// The paths that breadth-first search keeps: each visited state's first path, the queue in
/// the order of paths, every path in the queue before what the next state can add, and the
/// start states' one-entry paths.
spec fn code_inv(
    nodes: Seq<NodeView>,
    starts: Seq<usize>,
    visited: Seq<bool>,
    parents: Seq<Option<(usize, char)>>,
    codes: Seq<Seq<int>>,
    queue: Seq<usize>,
    head: int,
) -> bool {
    &&& codes.len() == nodes.len()
    &&& forall|v: int| 0 <= v < nodes.len() && #[trigger] visited[v] ==> code_ok(nodes, starts, parents, codes, v)
    &&& forall|a: int, b: int|
        #![trigger queue[a], queue[b]]
        0 <= a < b < queue.len() ==> code_lt(codes[queue[a] as int], codes[queue[b] as int])
    &&& head < queue.len() ==> forall|q: int|
        0 <= q < queue.len() ==> code_lt(codes[#[trigger] queue[q] as int], codes[queue[head] as int].push(0))
    &&& forall|i: int|
        0 <= i < starts.len() ==> #[trigger] starts[i] < nodes.len() && visited[starts[i] as int] && code_le(
            codes[starts[i] as int],
            seq![i],
        )
}

/// Visiting the successor `v` of `u` by its `k`-th transition keeps the paths of the search.
proof fn lemma_visit_codes(
    nodes: Seq<NodeView>,
    starts: Seq<usize>,
    visited: Seq<bool>,
    parents: Seq<Option<(usize, char)>>,
    codes: Seq<Seq<int>>,
    queue: Seq<usize>,
    head: int,
    u: usize,
    k: int,
    v: usize,
)
    requires
        edges_in_range(nodes),
        visited.len() == nodes.len(),
        parents.len() == nodes.len(),
        code_inv(nodes, starts, visited, parents, codes, queue, head),
        forall|q: int| 0 <= q < queue.len() ==> #[trigger] queue[q] < nodes.len() && visited[queue[q] as int],
        forall|w: int|
            0 <= w < nodes.len() && #[trigger] visited[w] && parents[w] is Some ==> visited[parents[w]->Some_0.0 as int],
        1 <= head <= queue.len(),
        u == queue[head - 1],
        forall|q: int| 0 <= q < queue.len() ==> code_lt(codes[#[trigger] queue[q] as int], codes[u as int].push(k)),
        forall|q: int| 0 <= q < head - 1 ==> #[trigger] expanded_codes(nodes, visited, codes, queue[q]),
        0 <= k < nodes[u as int].transitions.len(),
        nodes[u as int].transitions[k].1 == v,
        !visited[v as int],
        forall|kk: int|
            0 <= kk < k ==> visited[(#[trigger] nodes[u as int].transitions[kk]).1 as int] && code_le(
                codes[nodes[u as int].transitions[kk].1 as int],
                codes[u as int].push(kk),
            ),
    ensures
        ({
            let visited1 = visited.update(v as int, true);
            let parents1 = parents.update(v as int, Some((u, nodes[u as int].transitions[k].0)));
            let codes1 = codes.update(v as int, codes[u as int].push(k));
            let queue1 = queue.push(v);
            &&& code_inv(nodes, starts, visited1, parents1, codes1, queue1, head)
            &&& forall|q: int|
                0 <= q < queue1.len() ==> code_lt(codes1[#[trigger] queue1[q] as int], codes1[u as int].push(k + 1))
            &&& forall|q: int| 0 <= q < head - 1 ==> #[trigger] expanded_codes(nodes, visited1, codes1, queue1[q])
            &&& forall|kk: int|
                0 <= kk <= k ==> visited1[(#[trigger] nodes[u as int].transitions[kk]).1 as int] && code_le(
                    codes1[nodes[u as int].transitions[kk].1 as int],
                    codes1[u as int].push(kk),
                )
        }),
{
    let n = nodes.len();
    let c = nodes[u as int].transitions[k].0;
    let visited1 = visited.update(v as int, true);
    let parents1 = parents.update(v as int, Some((u, c)));
    let cv = codes[u as int].push(k);
    let codes1 = codes.update(v as int, cv);
    let queue1 = queue.push(v);
    assert(v < n);
    assert(u < n && visited[u as int]);
    assert(u != v);
    assert(codes1[u as int] == codes[u as int]);
    assert(code_ok(nodes, starts, parents, codes, u as int));
    assert(codes[u as int].len() >= 1);
    assert forall|w: int| 0 <= w < n && visited[w] implies codes1[w] == codes[w] by {}
    // the new state's path
    assert(cv.drop_last() =~= codes[u as int]);
    assert(path_end(nodes, starts, cv) == Some(v));
    assert(code_ok(nodes, starts, parents1, codes1, v as int));
    assert forall|w: int| 0 <= w < n && #[trigger] visited1[w] implies code_ok(nodes, starts, parents1, codes1, w) by {
        if w != v {
            assert(visited[w]);
            assert(code_ok(nodes, starts, parents, codes, w));
            assert(parents1[w] == parents[w]);
            match parents[w] {
                Some((p, pc)) => {
                    assert(p < n);
                    assert(path_end(nodes, starts, codes[p as int]) is Some);
                    assert(visited[p as int]);
                },
                None => {},
            }
        }
    }
    // the order of the queue
    assert forall|a: int, b: int|
        #![trigger queue1[a], queue1[b]]
        0 <= a < b < queue1.len() implies code_lt(codes1[queue1[a] as int], codes1[queue1[b] as int]) by {
        assert(queue1[a] == queue[a]);
        assert(codes1[queue[a] as int] == codes[queue[a] as int]);
        if b < queue.len() {
            assert(queue1[b] == queue[b]);
            assert(codes1[queue[b] as int] == codes[queue[b] as int]);
        } else {
            assert(code_lt(codes[queue[a] as int], cv));
        }
    }
    assert forall|q: int| 0 <= q < queue1.len() implies code_lt(codes1[#[trigger] queue1[q] as int], codes1[u as int].push(k + 1)) by {
        lemma_code_push(codes[u as int], codes[u as int], k, k + 1);
        if q < queue.len() {
            assert(queue1[q] == queue[q]);
            assert(codes1[queue[q] as int] == codes[queue[q] as int]);
            lemma_code_order(codes[queue[q] as int], cv, codes[u as int].push(k + 1));
        }
    }
    // what comes before the next state to expand
    if head < queue1.len() {
        assert forall|q: int| 0 <= q < queue1.len() implies code_lt(codes1[#[trigger] queue1[q] as int], codes1[queue1[head] as int].push(0)) by {
            if head < queue.len() {
                let h = queue[head];
                assert(queue1[head] == h);
                assert(codes1[h as int] == codes[h as int]);
                if q < queue.len() {
                    assert(queue1[q] == queue[q]);
                    assert(codes1[queue[q] as int] == codes[queue[q] as int]);
                } else {
                    assert(code_lt(codes[u as int], codes[h as int]));
                    lemma_code_push(codes[u as int], codes[h as int], k, 0);
                }
            } else {
                assert(queue1[head] == v);
                if q < queue.len() {
                    assert(queue1[q] == queue[q]);
                    assert(codes1[queue[q] as int] == codes[queue[q] as int]);
                    assert(code_lt(codes[queue[q] as int], cv));
                }
            }
        }
    }
    assert forall|i: int| 0 <= i < starts.len() implies #[trigger] starts[i] < n && visited1[starts[i] as int]
        && code_le(codes1[starts[i] as int], seq![i]) by {
        assert(visited[starts[i] as int]);
    }
    // the expanded states stay expanded
    assert forall|q: int| 0 <= q < head - 1 implies #[trigger] expanded_codes(nodes, visited1, codes1, queue1[q]) by {
        let x = queue[q];
        assert(queue1[q] == x);
        assert(expanded_codes(nodes, visited, codes, x));
        assert(visited[x as int]);
        assert forall|j: int| 0 <= j < nodes[x as int].transitions.len() implies visited1[(
        #[trigger] nodes[x as int].transitions[j]).1 as int] && code_le(
            codes1[nodes[x as int].transitions[j].1 as int],
            codes1[x as int].push(j),
        ) by {
            assert(visited[nodes[x as int].transitions[j].1 as int]);
        }
    }
    assert forall|kk: int| 0 <= kk <= k implies visited1[(#[trigger] nodes[u as int].transitions[kk]).1 as int]
        && code_le(codes1[nodes[u as int].transitions[kk].1 as int], codes1[u as int].push(kk)) by {
        if kk < k {
            assert(visited[nodes[u as int].transitions[kk].1 as int]);
        }
    }
}

/// Every visited state before `bound` in the order of paths has been expanded.
spec fn closed_codes_below(
    nodes: Seq<NodeView>,
    visited: Seq<bool>,
    dist: Seq<nat>,
    codes: Seq<Seq<int>>,
    bound: Seq<int>,
) -> bool {
    forall|p: usize|
        p < nodes.len() && visited[p as int] && code_lt(codes[p as int], bound) ==> #[trigger] expanded(
            nodes,
            visited,
            dist,
            p,
        ) && expanded_codes(nodes, visited, codes, p)
}

/// A path that follows `code` up to its `j`-th entry.
proof fn lemma_path_prefix(nodes: Seq<NodeView>, starts: Seq<usize>, code: Seq<int>, j: int)
    requires
        path_end(nodes, starts, code) is Some,
        1 <= j <= code.len(),
    ensures
        path_end(nodes, starts, code.take(j)) is Some,
    decreases code.len() - j,
{
    if j < code.len() {
        lemma_path_prefix(nodes, starts, code, j + 1);
        assert(code.take(j + 1).drop_last() =~= code.take(j));
    } else {
        assert(code.take(j) =~= code);
    }
}

/// Along a path to a terminal state before `bound`, every state is visited, with a path no
/// later than the one followed.
proof fn lemma_prefix_visited(
    nodes: Seq<NodeView>,
    starts: Seq<usize>,
    visited: Seq<bool>,
    dist: Seq<nat>,
    codes: Seq<Seq<int>>,
    bound: Seq<int>,
    code2: Seq<int>,
    j: int,
)
    requires
        edges_in_range(nodes),
        visited.len() == nodes.len(),
        codes.len() == nodes.len(),
        forall|i: int|
            0 <= i < starts.len() ==> #[trigger] starts[i] < nodes.len() && visited[starts[i] as int] && code_le(
                codes[starts[i] as int],
                seq![i],
            ),
        closed_codes_below(nodes, visited, dist, codes, bound),
        path_end(nodes, starts, code2) is Some,
        code_lt(code2, bound),
        1 <= j <= code2.len(),
    ensures
        path_end(nodes, starts, code2.take(j)) is Some,
        path_end(nodes, starts, code2.take(j))->Some_0 < nodes.len(),
        visited[path_end(nodes, starts, code2.take(j))->Some_0 as int],
        code_le(codes[path_end(nodes, starts, code2.take(j))->Some_0 as int], code2.take(j)),
    decreases j,
{
    lemma_path_prefix(nodes, starts, code2, j);
    if j == 1 {
        assert(code2.take(1) =~= seq![code2[0]]);
        assert(path_end(nodes, starts, code2.take(1)) == Some(starts[code2[0]]));
    } else {
        lemma_prefix_visited(nodes, starts, visited, dist, codes, bound, code2, j - 1);
        let p = path_end(nodes, starts, code2.take(j - 1))->Some_0;
        assert(code2.take(j).drop_last() =~= code2.take(j - 1));
        assert(code2.take(j).last() == code2[j - 1]);
        assert(code_lt(code2.take(j - 1), code2));
        lemma_code_order(codes[p as int], code2.take(j - 1), code2);
        lemma_code_order(codes[p as int], code2, bound);
        assert(expanded(nodes, visited, dist, p));
        assert(expanded_codes(nodes, visited, codes, p));
        let k = code2[j - 1];
        assert(0 <= k < nodes[p as int].transitions.len());
        let t = nodes[p as int].transitions[k].1;
        assert(path_end(nodes, starts, code2.take(j)) == Some(t));
        assert(visited[t as int] && code_le(codes[t as int], codes[p as int].push(k)));
        lemma_code_push(codes[p as int], code2.take(j - 1), k, k);
        assert(code2.take(j - 1).push(k) =~= code2.take(j));
        lemma_code_order(codes[t as int], codes[p as int].push(k), code2.take(j));
    }
}

/// No path to a terminal state comes before `bound` when every visited state before it has
/// been expanded.
proof fn lemma_least_code(
    nodes: Seq<NodeView>,
    starts: Seq<usize>,
    visited: Seq<bool>,
    dist: Seq<nat>,
    codes: Seq<Seq<int>>,
    bound: Seq<int>,
    code2: Seq<int>,
)
    requires
        edges_in_range(nodes),
        visited.len() == nodes.len(),
        codes.len() == nodes.len(),
        forall|i: int|
            0 <= i < starts.len() ==> #[trigger] starts[i] < nodes.len() && visited[starts[i] as int] && code_le(
                codes[starts[i] as int],
                seq![i],
            ),
        closed_codes_below(nodes, visited, dist, codes, bound),
        terminal_path(nodes, starts, code2),
    ensures
        !code_lt(code2, bound),
{
    if code_lt(code2, bound) {
        let m = code2.len() as int;
        lemma_prefix_visited(nodes, starts, visited, dist, codes, bound, code2, m);
        assert(code2.take(m) =~= code2);
        let t = path_end(nodes, starts, code2)->Some_0;
        lemma_code_order(codes[t as int], code2, bound);
        assert(expanded(nodes, visited, dist, t));
    }
}

} // verus!
