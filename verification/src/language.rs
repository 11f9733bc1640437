//! Which key sequences the automaton accepts: the automaton is a chain of groups, each a trie
//! of the group's spellings from the group's start state to the next group's start state, so
//! that it accepts exactly the concatenations of one spelling per group.
use vstd::prelude::*;

use crate::engine::{any_terminal, step, NodeView};
use crate::guide::{completes, lemma_run_mono, run};

verus! {

/// Where a state stands: the group it belongs to, the keys typed since that group's start,
/// and whether it lies inside the group (a start state lies between two groups).
pub struct Place {
    pub group: int,
    pub label: Seq<char>,
    pub inner: bool,
}

/// Whether `l` is a proper prefix of one of the spellings `opts`.
pub open spec fn proper_prefix(opts: Set<Seq<char>>, l: Seq<char>) -> bool {
    exists|o: Seq<char>| #[trigger] opts.contains(o) && l.len() < o.len() && o.take(l.len() as int) == l
}

/// The transition `(c, v)` of the state `u` is one of the trie: it ends a spelling of `u`'s
/// group at the next start state, or continues one to an inner state one key further.
pub open spec fn edge_sound(
    opts: Seq<Set<Seq<char>>>,
    starts: Seq<int>,
    place: Seq<Place>,
    u: int,
    c: char,
    v: usize,
) -> bool {
    let g = place[u].group;
    let l = place[u].label.push(c);
    ||| (v == starts[g + 1] && opts[g].contains(l))
    ||| (place[v as int].inner && place[v as int].group == g && place[v as int].label == l
        && proper_prefix(opts[g], l))
}

/// The state `u` has the transition that the spelling `o` of its group needs next, when `u`'s
/// keys begin `o`.
pub open spec fn edge_complete(
    nodes: Seq<NodeView>,
    starts: Seq<int>,
    place: Seq<Place>,
    u: int,
    o: Seq<char>,
) -> bool {
    let g = place[u].group;
    let l = place[u].label;
    (l.len() < o.len() && o.take(l.len() as int) == l) ==> if o.len() == l.len() + 1 {
        exists|k: int|
            0 <= k < nodes[u].transitions.len() && #[trigger] nodes[u].transitions[k] == (
                o[l.len() as int],
                starts[g + 1] as usize,
            )
    } else {
        exists|k: int|
            0 <= k < nodes[u].transitions.len() && (#[trigger] nodes[u].transitions[k]).0 == o[l.len() as int]
                && place[nodes[u].transitions[k].1 as int].inner && place[nodes[u].transitions[k].1 as int].group
                == g && place[nodes[u].transitions[k].1 as int].label == l.push(o[l.len() as int])
    }
}

/// The sound part of [`layered`]: the start states and places are consistent, and every
/// transition is one of a group trie.
pub open spec fn layered_sound(
    nodes: Seq<NodeView>,
    opts: Seq<Set<Seq<char>>>,
    starts: Seq<int>,
    place: Seq<Place>,
) -> bool {
    let n = nodes.len();
    let gc = opts.len();
    &&& n <= usize::MAX
    &&& place.len() == n
    &&& starts.len() == gc + 1
    &&& forall|j: int|
        0 <= j <= gc ==> 0 <= #[trigger] starts[j] < n && place[starts[j]].group == j
            && place[starts[j]].label.len() == 0 && !place[starts[j]].inner
    &&& forall|u: int|
        0 <= u < n ==> 0 <= (#[trigger] place[u]).group <= gc && (!place[u].inner ==> starts[place[u].group]
            == u) && (place[u].inner ==> place[u].group < gc && place[u].label.len() > 0 && proper_prefix(
            opts[place[u].group],
            place[u].label,
        ))
    &&& forall|u: int, k: int|
        0 <= u < n && 0 <= k < nodes[u].transitions.len() ==> (#[trigger] nodes[u].transitions[k]).1 < n
            && place[u].group < gc && edge_sound(
            opts,
            starts,
            place,
            u,
            nodes[u].transitions[k].0,
            nodes[u].transitions[k].1,
        )
}

/// The automaton is the chain of group tries for the spellings `opts` (one set per group),
/// with start states `starts` (the last one ends the chain) and places `place`: every
/// transition is one of a group trie, and every spelling has its transitions.
pub open spec fn layered(
    nodes: Seq<NodeView>,
    opts: Seq<Set<Seq<char>>>,
    starts: Seq<int>,
    place: Seq<Place>,
) -> bool {
    &&& layered_sound(nodes, opts, starts, place)
    &&& forall|u: int, o: Seq<char>|
        0 <= u < nodes.len() && place[u].group < opts.len() && #[trigger] opts[place[u].group].contains(o)
            ==> edge_complete(nodes, starts, place, u, o)
}

/// Inner states of a group have distinct keys.
pub open spec fn unique_labels(place: Seq<Place>) -> bool {
    forall|u: int, v: int|
        0 <= u < place.len() && 0 <= v < place.len() && (#[trigger] place[u]).inner && (#[trigger] place[v]).inner
            && place[u].group == place[v].group && place[u].label == place[v].label ==> u == v
}

/// The automaton with the transition `(c, to)` added to the state `from`.
pub open spec fn with_edge(nodes: Seq<NodeView>, from: int, c: char, to: usize) -> Seq<NodeView> {
    nodes.update(
        from,
        NodeView { transitions: nodes[from].transitions.push((c, to)), is_terminal: nodes[from].is_terminal },
    )
}

/// Adding a transition of the trie keeps the automaton sound and keeps every transition a
/// spelling had.
pub proof fn lemma_add_edge(
    nodes: Seq<NodeView>,
    opts: Seq<Set<Seq<char>>>,
    starts: Seq<int>,
    place: Seq<Place>,
    from: int,
    c: char,
    to: usize,
)
    requires
        layered_sound(nodes, opts, starts, place),
        0 <= from < nodes.len(),
        to < nodes.len(),
        place[from].group < opts.len(),
        edge_sound(opts, starts, place, from, c, to),
    ensures
        layered_sound(with_edge(nodes, from, c, to), opts, starts, place),
        forall|u: int, o: Seq<char>|
            0 <= u < nodes.len() && #[trigger] edge_complete(nodes, starts, place, u, o) ==> edge_complete(
                with_edge(nodes, from, c, to),
                starts,
                place,
                u,
                o,
            ),
{
    let nodes2 = with_edge(nodes, from, c, to);
    assert forall|u: int, k: int| 0 <= u < nodes2.len() && 0 <= k < nodes2[u].transitions.len() implies (
    #[trigger] nodes2[u].transitions[k]).1 < nodes2.len() && place[u].group < opts.len() && edge_sound(
        opts,
        starts,
        place,
        u,
        nodes2[u].transitions[k].0,
        nodes2[u].transitions[k].1,
    ) by {
        if u != from || k < nodes[u].transitions.len() {
            assert(nodes2[u].transitions[k] == nodes[u].transitions[k]);
        }
    }
    assert forall|u: int, o: Seq<char>|
        0 <= u < nodes.len() && #[trigger] edge_complete(nodes, starts, place, u, o) implies edge_complete(
        nodes2,
        starts,
        place,
        u,
        o,
    ) by {
        let g = place[u].group;
        let l = place[u].label;
        if l.len() < o.len() && o.take(l.len() as int) == l {
            if o.len() == l.len() + 1 {
                let k = choose|k: int|
                    0 <= k < nodes[u].transitions.len() && #[trigger] nodes[u].transitions[k] == (
                        o[l.len() as int],
                        starts[g + 1] as usize,
                    );
                assert(nodes2[u].transitions[k] == nodes[u].transitions[k]);
            } else {
                let k = choose|k: int|
                    0 <= k < nodes[u].transitions.len() && (#[trigger] nodes[u].transitions[k]).0 == o[l.len() as int]
                        && place[nodes[u].transitions[k].1 as int].inner
                        && place[nodes[u].transitions[k].1 as int].group == g
                        && place[nodes[u].transitions[k].1 as int].label == l.push(o[l.len() as int]);
                assert(nodes2[u].transitions[k] == nodes[u].transitions[k]);
            }
        }
    }
}

/// The empty state.
pub open spec fn empty_node() -> NodeView {
    NodeView { transitions: Seq::empty(), is_terminal: false }
}

/// Adding an inner state (without transitions yet) keeps the automaton sound and keeps every
/// transition a spelling had.
pub proof fn lemma_add_node(
    nodes: Seq<NodeView>,
    opts: Seq<Set<Seq<char>>>,
    starts: Seq<int>,
    place: Seq<Place>,
    p: Place,
)
    requires
        layered_sound(nodes, opts, starts, place),
        nodes.len() < usize::MAX,
        p.inner,
        0 <= p.group < opts.len(),
        p.label.len() > 0,
        proper_prefix(opts[p.group], p.label),
    ensures
        layered_sound(nodes.push(empty_node()), opts, starts, place.push(p)),
        forall|u: int, o: Seq<char>|
            0 <= u < nodes.len() && #[trigger] edge_complete(nodes, starts, place, u, o) ==> edge_complete(
                nodes.push(empty_node()),
                starts,
                place.push(p),
                u,
                o,
            ),
{
    let nodes2 = nodes.push(empty_node());
    let place2 = place.push(p);
    assert forall|j: int| 0 <= j <= opts.len() implies 0 <= #[trigger] starts[j] < nodes2.len()
        && place2[starts[j]].group == j && place2[starts[j]].label.len() == 0 && !place2[starts[j]].inner by {
        assert(place2[starts[j]] == place[starts[j]]);
    }
    assert forall|u: int| 0 <= u < nodes2.len() implies 0 <= (#[trigger] place2[u]).group <= opts.len() && (
    !place2[u].inner ==> starts[place2[u].group] == u) && (place2[u].inner ==> place2[u].group < opts.len()
        && place2[u].label.len() > 0 && proper_prefix(opts[place2[u].group], place2[u].label)) by {
        if u < nodes.len() {
            assert(place2[u] == place[u]);
        }
    }
    assert forall|u: int, k: int| 0 <= u < nodes2.len() && 0 <= k < nodes2[u].transitions.len() implies (
    #[trigger] nodes2[u].transitions[k]).1 < nodes2.len() && place2[u].group < opts.len() && edge_sound(
        opts,
        starts,
        place2,
        u,
        nodes2[u].transitions[k].0,
        nodes2[u].transitions[k].1,
    ) by {
        assert(u < nodes.len());
        assert(nodes2[u] == nodes[u]);
        assert(place2[u] == place[u]);
        let v = nodes[u].transitions[k].1;
        assert(place2[v as int] == place[v as int]);
    }
    assert forall|u: int, o: Seq<char>|
        0 <= u < nodes.len() && #[trigger] edge_complete(nodes, starts, place, u, o) implies edge_complete(
        nodes2,
        starts,
        place2,
        u,
        o,
    ) by {
        assert(nodes2[u] == nodes[u]);
        assert(place2[u] == place[u]);
        let g = place[u].group;
        let l = place[u].label;
        if l.len() < o.len() && o.take(l.len() as int) == l && o.len() != l.len() + 1 {
            let k = choose|k: int|
                0 <= k < nodes[u].transitions.len() && (#[trigger] nodes[u].transitions[k]).0 == o[l.len() as int]
                    && place[nodes[u].transitions[k].1 as int].inner && place[nodes[u].transitions[k].1 as int].group
                    == g && place[nodes[u].transitions[k].1 as int].label == l.push(o[l.len() as int]);
            assert(nodes[u].transitions[k].1 < nodes.len());
            assert(place2[nodes[u].transitions[k].1 as int] == place[nodes[u].transitions[k].1 as int]);
            assert(nodes2[u].transitions[k] == nodes[u].transitions[k]);
        }
    }
}

/// More spellings keep the automaton sound.
pub proof fn lemma_sound_grow(
    nodes: Seq<NodeView>,
    opts: Seq<Set<Seq<char>>>,
    opts2: Seq<Set<Seq<char>>>,
    starts: Seq<int>,
    place: Seq<Place>,
)
    requires
        layered_sound(nodes, opts, starts, place),
        opts2.len() == opts.len(),
        forall|g: int| 0 <= g < opts.len() ==> #[trigger] opts[g].subset_of(opts2[g]),
    ensures
        layered_sound(nodes, opts2, starts, place),
{
    assert forall|g: int, l: Seq<char>| 0 <= g < opts.len() && proper_prefix(opts[g], l) implies proper_prefix(
        opts2[g],
        l,
    ) by {
        let o = choose|o: Seq<char>| #[trigger] opts[g].contains(o) && l.len() < o.len() && o.take(l.len() as int) == l;
        assert(opts[g].subset_of(opts2[g]));
        assert(opts2[g].contains(o));
    }
    assert forall|u: int| 0 <= u < nodes.len() implies 0 <= (#[trigger] place[u]).group <= opts2.len() && (
    !place[u].inner ==> starts[place[u].group] == u) && (place[u].inner ==> place[u].group < opts2.len()
        && place[u].label.len() > 0 && proper_prefix(opts2[place[u].group], place[u].label)) by {
        if place[u].inner {
            assert(proper_prefix(opts[place[u].group], place[u].label));
        }
    }
    assert forall|u: int, k: int| 0 <= u < nodes.len() && 0 <= k < nodes[u].transitions.len() implies (
    #[trigger] nodes[u].transitions[k]).1 < nodes.len() && place[u].group < opts2.len() && edge_sound(
        opts2,
        starts,
        place,
        u,
        nodes[u].transitions[k].0,
        nodes[u].transitions[k].1,
    ) by {
        let g = place[u].group;
        assert(edge_sound(opts, starts, place, u, nodes[u].transitions[k].0, nodes[u].transitions[k].1));
        assert(opts[g].subset_of(opts2[g]));
        let l = place[u].label.push(nodes[u].transitions[k].0);
        if opts[g].contains(l) {
            assert(opts2[g].contains(l));
        }
        if proper_prefix(opts[g], l) {
            assert(proper_prefix(opts2[g], l));
        }
    }
}

/// `w` spells the groups from `j` on: one spelling of each group after the other.
pub open spec fn spells_from(opts: Seq<Set<Seq<char>>>, j: int, w: Seq<char>) -> bool
    decreases opts.len() - j, w.len(),
{
    if j < 0 || j >= opts.len() {
        w.len() == 0
    } else {
        exists|k: int| 0 < k <= w.len() && #[trigger] opts[j].contains(w.take(k)) && spells_from(opts, j + 1, w.skip(k))
    }
}

/// Having typed `l` of group `j`, `w` finishes a spelling of that group that begins with `l`
/// and then spells the following groups.
pub open spec fn finishes(opts: Seq<Set<Seq<char>>>, j: int, l: Seq<char>, w: Seq<char>) -> bool {
    exists|o: Seq<char>|
        #[trigger] opts[j].contains(o) && l.len() < o.len() && o.take(l.len() as int) == l && o.len() - l.len()
            <= w.len() && w.take(o.len() - l.len()) == o.skip(l.len() as int) && spells_from(
            opts,
            j + 1,
            w.skip(o.len() - l.len()),
        )
}

/// A run from a set reaches a state exactly when a run from one of its states does.
proof fn lemma_run_from_one(nodes: Seq<NodeView>, s: Set<usize>, w: Seq<char>, x: usize)
    requires
        run(nodes, s, w).contains(x),
    ensures
        exists|v: usize| s.contains(v) && #[trigger] run(nodes, set![v], w).contains(x),
    decreases w.len(),
{
    if w.len() == 0 {
        assert(run(nodes, set![x], w).contains(x));
    } else {
        let s2 = step(nodes, s, w[0]);
        lemma_run_from_one(nodes, s2, w.drop_first(), x);
        let v2 = choose|v: usize| s2.contains(v) && #[trigger] run(nodes, set![v], w.drop_first()).contains(x);
        let (u, k) = choose|u: usize, k: int|
            s.contains(u) && u < nodes.len() && 0 <= k < nodes[u as int].transitions.len()
                && #[trigger] nodes[u as int].transitions[k] == (w[0], v2);
        assert(set![u].contains(u));
        assert(step(nodes, set![u], w[0]).contains(v2));
        assert(set![v2].subset_of(step(nodes, set![u], w[0])));
        lemma_run_mono(nodes, set![v2], step(nodes, set![u], w[0]), w.drop_first());
        assert(run(nodes, set![u], w).contains(x));
    }
}

/// A state reached from `u` by one key is the target of one of `u`'s transitions.
proof fn lemma_step_one(nodes: Seq<NodeView>, u: usize, c: char, v: usize)
    requires
        step(nodes, set![u], c).contains(v),
    ensures
        exists|k: int| 0 <= k < nodes[u as int].transitions.len() && #[trigger] nodes[u as int].transitions[k] == (c, v),
{
    let (u1, k) = choose|u1: usize, k: int|
        set![u].contains(u1) && u1 < nodes.len() && 0 <= k < nodes[u1 as int].transitions.len()
            && #[trigger] nodes[u1 as int].transitions[k] == (c, v);
    assert(u1 == u);
}

/// The target of a transition of `u` is reached from `u` by its key.
proof fn lemma_step_edge(nodes: Seq<NodeView>, u: usize, k: int)
    requires
        u < nodes.len(),
        0 <= k < nodes[u as int].transitions.len(),
    ensures
        step(nodes, set![u], nodes[u as int].transitions[k].0).contains(nodes[u as int].transitions[k].1),
{
    assert(set![u].contains(u));
}

/// At the start of the group after `g`, spelling the rest is what reaching the end needs.
proof fn lemma_next_start(opts: Seq<Set<Seq<char>>>, starts: Seq<int>, place: Seq<Place>, g: int, w: Seq<char>)
    requires
        0 <= g < opts.len(),
        place[starts[g + 1]].group == g + 1,
        place[starts[g + 1]].label.len() == 0,
    ensures
        (if place[starts[g + 1]].group == opts.len() {
            w.len() == 0
        } else {
            finishes(opts, place[starts[g + 1]].group, place[starts[g + 1]].label, w)
        }) <==> spells_from(opts, g + 1, w),
{
    if g + 1 < opts.len() {
        assert(place[starts[g + 1]].label =~= Seq::<char>::empty());
        lemma_finishes_start(opts, g + 1, w);
    }
}

/// What a run from the state `u` to the end of the chain spells: the rest of what `u`
/// began (or nothing, from the end itself).
#[verifier::rlimit(40)]
#[verifier::spinoff_prover]
pub proof fn lemma_reach_finishes(
    nodes: Seq<NodeView>,
    opts: Seq<Set<Seq<char>>>,
    starts: Seq<int>,
    place: Seq<Place>,
    u: int,
    w: Seq<char>,
)
    requires
        layered(nodes, opts, starts, place),
        0 <= u < nodes.len(),
        run(nodes, set![u as usize], w).contains(starts[opts.len() as int] as usize),
    ensures
        if place[u].group == opts.len() {
            w.len() == 0
        } else {
            finishes(opts, place[u].group, place[u].label, w)
        },
    decreases w.len(),
{
    let gc = opts.len() as int;
    let t = starts[gc];
    let g = place[u].group;
    let l = place[u].label;
    assert(0 <= t < nodes.len() && place[t].group == gc);
    if w.len() == 0 {
        assert(run(nodes, set![u as usize], w) == set![u as usize]);
        assert(u == t);
    } else {
        let c = w[0];
        let w2 = w.drop_first();
        let s2 = step(nodes, set![u as usize], c);
        assert(run(nodes, set![u as usize], w) == run(nodes, s2, w2));
        lemma_run_from_one(nodes, s2, w2, t as usize);
        let v = choose|v: usize| s2.contains(v) && #[trigger] run(nodes, set![v], w2).contains(t as usize);
        lemma_step_one(nodes, u as usize, c, v);
        let k = choose|k: int| 0 <= k < nodes[u].transitions.len() && #[trigger] nodes[u].transitions[k] == (c, v);
        assert(nodes[u].transitions[k].1 < nodes.len() && place[u].group < gc);
        assert(edge_sound(opts, starts, place, u, c, v));
        lemma_reach_finishes(nodes, opts, starts, place, v as int, w2);
        if v == starts[g + 1] && opts[g].contains(l.push(c)) {
            let o = l.push(c);
            lemma_next_start(opts, starts, place, g, w2);
            assert(o.take(l.len() as int) =~= l);
            assert(w.take(1) =~= o.skip(l.len() as int));
            assert(w.skip(1) =~= w2);
            assert(finishes(opts, g, l, w));
        } else {
            let l2 = l.push(c);
            assert(place[v as int].inner && place[v as int].group == g && place[v as int].label == l2);
            let o = choose|o: Seq<char>|
                #[trigger] opts[g].contains(o) && l2.len() < o.len() && o.take(l2.len() as int) == l2 && o.len()
                    - l2.len() <= w2.len() && w2.take(o.len() - l2.len()) == o.skip(l2.len() as int)
                    && spells_from(opts, g + 1, w2.skip(o.len() - l2.len()));
            let m = o.len() - l.len();
            assert(o.take(l.len() as int) =~= l) by {
                assert forall|i: int| 0 <= i < l.len() implies o.take(l.len() as int)[i] == l[i] by {
                    assert(o.take(l2.len() as int)[i] == l2[i]);
                }
            }
            assert(w.take(m) =~= o.skip(l.len() as int)) by {
                assert forall|i: int| 0 <= i < m implies w.take(m)[i] == o.skip(l.len() as int)[i] by {
                    if i == 0 {
                        assert(o.take(l2.len() as int)[l.len() as int] == l2[l.len() as int]);
                    } else {
                        assert(w2.take(m - 1)[i - 1] == o.skip(l2.len() as int)[i - 1]);
                    }
                }
            }
            assert(w.skip(m) =~= w2.skip(m - 1));
            assert(finishes(opts, g, l, w));
        }
    }
}

/// A spelling of the rest of what the state `u` began is a run from `u` to the end of the
/// chain.
#[verifier::rlimit(40)]
#[verifier::spinoff_prover]
pub proof fn lemma_finishes_reach(
    nodes: Seq<NodeView>,
    opts: Seq<Set<Seq<char>>>,
    starts: Seq<int>,
    place: Seq<Place>,
    u: int,
    w: Seq<char>,
)
    requires
        layered(nodes, opts, starts, place),
        0 <= u < nodes.len(),
        if place[u].group == opts.len() {
            w.len() == 0
        } else {
            finishes(opts, place[u].group, place[u].label, w)
        },
    ensures
        run(nodes, set![u as usize], w).contains(starts[opts.len() as int] as usize),
    decreases w.len(),
{
    let gc = opts.len() as int;
    let t = starts[gc];
    let g = place[u].group;
    let l = place[u].label;
    assert(0 <= t < nodes.len() && place[t].group == gc);
    if g == gc {
        assert(u == t);
        assert(run(nodes, set![u as usize], w) == set![u as usize]);
    } else {
        let o = choose|o: Seq<char>|
            #[trigger] opts[g].contains(o) && l.len() < o.len() && o.take(l.len() as int) == l && o.len() - l.len()
                <= w.len() && w.take(o.len() - l.len()) == o.skip(l.len() as int) && spells_from(
                opts,
                g + 1,
                w.skip(o.len() - l.len()),
            );
        let m = o.len() - l.len();
        let c = w[0];
        let w2 = w.drop_first();
        let s2 = step(nodes, set![u as usize], c);
        assert(run(nodes, set![u as usize], w) == run(nodes, s2, w2));
        assert(o[l.len() as int] == c) by {
            assert(w.take(m)[0] == o.skip(l.len() as int)[0]);
        }
        assert(edge_complete(nodes, starts, place, u, o));
        if o.len() == l.len() + 1 {
            let k = choose|k: int|
                0 <= k < nodes[u].transitions.len() && #[trigger] nodes[u].transitions[k] == (
                    o[l.len() as int],
                    starts[g + 1] as usize,
                );
            let v = starts[g + 1];
            lemma_step_edge(nodes, u as usize, k);
            assert(w.skip(1) =~= w2);
            lemma_next_start(opts, starts, place, g, w2);
            lemma_finishes_reach(nodes, opts, starts, place, v, w2);
            assert(set![v as usize].subset_of(s2));
            lemma_run_mono(nodes, set![v as usize], s2, w2);
        } else {
            let k = choose|k: int|
                0 <= k < nodes[u].transitions.len() && (#[trigger] nodes[u].transitions[k]).0 == o[l.len() as int]
                    && place[nodes[u].transitions[k].1 as int].inner && place[nodes[u].transitions[k].1 as int].group
                    == g && place[nodes[u].transitions[k].1 as int].label == l.push(o[l.len() as int]);
            let v = nodes[u].transitions[k].1;
            let l2 = l.push(c);
            lemma_step_edge(nodes, u as usize, k);
            assert(o.take(l2.len() as int) =~= l2) by {
                assert forall|i: int| 0 <= i < l2.len() implies o.take(l2.len() as int)[i] == l2[i] by {
                    if i < l.len() {
                        assert(o.take(l.len() as int)[i] == l[i]);
                    }
                }
            }
            assert(w2.take(m - 1) =~= o.skip(l2.len() as int)) by {
                assert forall|i: int| 0 <= i < m - 1 implies w2.take(m - 1)[i] == o.skip(l2.len() as int)[i] by {
                    assert(w.take(m)[i + 1] == o.skip(l.len() as int)[i + 1]);
                }
            }
            assert(w2.skip(m - 1) =~= w.skip(m));
            assert(finishes(opts, g, l2, w2));
            assert(nodes[u].transitions[k].1 < nodes.len());
            lemma_finishes_reach(nodes, opts, starts, place, v as int, w2);
            assert(set![v].subset_of(s2));
            lemma_run_mono(nodes, set![v], s2, w2);
        }
    }
}

/// At a group's start, finishing is spelling the groups from there.
proof fn lemma_finishes_start(opts: Seq<Set<Seq<char>>>, j: int, w: Seq<char>)
    requires
        0 <= j < opts.len(),
    ensures
        finishes(opts, j, Seq::empty(), w) <==> spells_from(opts, j, w),
{
    let e = Seq::<char>::empty();
    if finishes(opts, j, e, w) {
        let o = choose|o: Seq<char>|
            #[trigger] opts[j].contains(o) && e.len() < o.len() && o.take(e.len() as int) == e && o.len()
                - e.len() <= w.len() && w.take(o.len() - e.len()) == o.skip(e.len() as int) && spells_from(
                opts,
                j + 1,
                w.skip(o.len() - e.len()),
            );
        assert(o.skip(0) =~= o);
        assert(opts[j].contains(w.take(o.len() as int)));
    }
    if spells_from(opts, j, w) {
        let k = choose|k: int| 0 < k <= w.len() && #[trigger] opts[j].contains(w.take(k)) && spells_from(opts, j + 1, w.skip(k));
        let o = w.take(k);
        assert(o.take(0) =~= e);
        assert(o.skip(0) =~= o);
        assert(w.take(o.len() - e.len()) =~= o);
        assert(finishes(opts, j, e, w));
    }
}

/// The chain accepts exactly the spellings of its groups: from its first start state, a run
/// over `w` reaches the end of the chain exactly when `w` spells every group in turn.
pub proof fn lemma_chain_language(
    nodes: Seq<NodeView>,
    opts: Seq<Set<Seq<char>>>,
    starts: Seq<int>,
    place: Seq<Place>,
    w: Seq<char>,
)
    requires
        layered(nodes, opts, starts, place),
    ensures
        run(nodes, set![starts[0] as usize], w).contains(starts[opts.len() as int] as usize) <==> spells_from(
            opts,
            0,
            w,
        ),
{
    let s0 = starts[0];
    assert(place[s0].group == 0);
    if opts.len() > 0 {
        assert(place[s0].label =~= Seq::<char>::empty());
        lemma_finishes_start(opts, 0, w);
    }
    if run(nodes, set![s0 as usize], w).contains(starts[opts.len() as int] as usize) {
        lemma_reach_finishes(nodes, opts, starts, place, s0, w);
    }
    if spells_from(opts, 0, w) {
        lemma_finishes_reach(nodes, opts, starts, place, s0, w);
    }
}

/// Appending a new start state, the start of a group with no spelling yet, keeps the chain.
pub proof fn lemma_add_start(
    nodes: Seq<NodeView>,
    opts: Seq<Set<Seq<char>>>,
    starts: Seq<int>,
    place: Seq<Place>,
)
    requires
        layered(nodes, opts, starts, place),
        nodes.len() < usize::MAX,
    ensures
        layered(
            nodes.push(empty_node()),
            opts.push(Set::empty()),
            starts.push(nodes.len() as int),
            place.push(Place { group: (opts.len() + 1) as int, label: Seq::empty(), inner: false }),
        ),
{
    let n = nodes.len() as int;
    let gc = opts.len() as int;
    let nodes2 = nodes.push(empty_node());
    let opts2 = opts.push(Set::<Seq<char>>::empty());
    let starts2 = starts.push(n);
    let place2 = place.push(Place { group: gc + 1, label: Seq::empty(), inner: false });
    assert forall|j: int| 0 <= j <= gc + 1 implies 0 <= #[trigger] starts2[j] < nodes2.len() && place2[starts2[j]].group
        == j && place2[starts2[j]].label.len() == 0 && !place2[starts2[j]].inner by {
        if j <= gc {
            assert(starts2[j] == starts[j]);
            assert(place2[starts[j]] == place[starts[j]]);
        }
    }
    assert forall|u: int| 0 <= u < nodes2.len() implies 0 <= (#[trigger] place2[u]).group <= opts2.len() && (
    !place2[u].inner ==> starts2[place2[u].group] == u) && (place2[u].inner ==> place2[u].group < opts2.len()
        && place2[u].label.len() > 0 && proper_prefix(opts2[place2[u].group], place2[u].label)) by {
        if u < n {
            assert(place2[u] == place[u]);
            if place[u].inner {
                assert(opts2[place[u].group] == opts[place[u].group]);
            }
        }
    }
    assert forall|u: int, k: int| 0 <= u < nodes2.len() && 0 <= k < nodes2[u].transitions.len() implies (
    #[trigger] nodes2[u].transitions[k]).1 < nodes2.len() && place2[u].group < opts2.len() && edge_sound(
        opts2,
        starts2,
        place2,
        u,
        nodes2[u].transitions[k].0,
        nodes2[u].transitions[k].1,
    ) by {
        assert(u < n);
        assert(nodes2[u] == nodes[u]);
        assert(place2[u] == place[u]);
        let g = place[u].group;
        let v = nodes[u].transitions[k].1;
        assert(edge_sound(opts, starts, place, u, nodes[u].transitions[k].0, v));
        assert(place2[v as int] == place[v as int]);
        assert(starts2[g + 1] == starts[g + 1]);
        assert(opts2[g] == opts[g]);
    }
    assert forall|u: int, o: Seq<char>|
        0 <= u < nodes2.len() && place2[u].group < opts2.len() && #[trigger] opts2[place2[u].group].contains(o) implies edge_complete(
        nodes2,
        starts2,
        place2,
        u,
        o,
    ) by {
        assert(u < n);
        assert(place2[u] == place[u]);
        let g = place[u].group;
        if g < gc {
            assert(opts2[g] == opts[g]);
            assert(edge_complete(nodes, starts, place, u, o));
            assert(nodes2[u] == nodes[u]);
            assert(starts2[g + 1] == starts[g + 1]);
            let l = place[u].label;
            if l.len() < o.len() && o.take(l.len() as int) == l && o.len() != l.len() + 1 {
                let k = choose|k: int|
                    0 <= k < nodes[u].transitions.len() && (#[trigger] nodes[u].transitions[k]).0 == o[l.len() as int]
                        && place[nodes[u].transitions[k].1 as int].inner && place[nodes[u].transitions[k].1 as int].group
                        == g && place[nodes[u].transitions[k].1 as int].label == l.push(o[l.len() as int]);
                assert(place2[nodes[u].transitions[k].1 as int] == place[nodes[u].transitions[k].1 as int]);
            }
        }
    }
}

/// Only the transitions matter to the chain.
pub proof fn lemma_layered_same_edges(
    nodes: Seq<NodeView>,
    nodes2: Seq<NodeView>,
    opts: Seq<Set<Seq<char>>>,
    starts: Seq<int>,
    place: Seq<Place>,
)
    requires
        layered(nodes, opts, starts, place),
        nodes2.len() == nodes.len(),
        forall|u: int| 0 <= u < nodes.len() ==> #[trigger] nodes2[u].transitions == nodes[u].transitions,
    ensures
        layered(nodes2, opts, starts, place),
{
    assert forall|u: int, k: int| 0 <= u < nodes2.len() && 0 <= k < nodes2[u].transitions.len() implies (
    #[trigger] nodes2[u].transitions[k]).1 < nodes2.len() && place[u].group < opts.len() && edge_sound(
        opts,
        starts,
        place,
        u,
        nodes2[u].transitions[k].0,
        nodes2[u].transitions[k].1,
    ) by {
        assert(nodes2[u].transitions == nodes[u].transitions);
        assert(nodes[u].transitions[k] == nodes2[u].transitions[k]);
    }
    assert forall|u: int, o: Seq<char>|
        0 <= u < nodes2.len() && place[u].group < opts.len() && #[trigger] opts[place[u].group].contains(o) implies edge_complete(
        nodes2,
        starts,
        place,
        u,
        o,
    ) by {
        assert(nodes2[u].transitions == nodes[u].transitions);
        assert(edge_complete(nodes, starts, place, u, o));
        let g = place[u].group;
        let l = place[u].label;
        if l.len() < o.len() && o.take(l.len() as int) == l {
            if o.len() == l.len() + 1 {
                let k = choose|k: int|
                    0 <= k < nodes[u].transitions.len() && #[trigger] nodes[u].transitions[k] == (
                        o[l.len() as int],
                        starts[g + 1] as usize,
                    );
                assert(nodes2[u].transitions[k] == nodes[u].transitions[k]);
            } else {
                let k = choose|k: int|
                    0 <= k < nodes[u].transitions.len() && (#[trigger] nodes[u].transitions[k]).0 == o[l.len() as int]
                        && place[nodes[u].transitions[k].1 as int].inner && place[nodes[u].transitions[k].1 as int].group
                        == g && place[nodes[u].transitions[k].1 as int].label == l.push(o[l.len() as int]);
                assert(nodes2[u].transitions[k] == nodes[u].transitions[k]);
            }
        }
    }
}

/// An automaton that is such a chain, whose only terminal state ends it, accepts from its
/// first state exactly the spellings of its groups.
pub proof fn lemma_engine_language(
    nodes: Seq<NodeView>,
    opts: Seq<Set<Seq<char>>>,
    starts: Seq<int>,
    place: Seq<Place>,
)
    requires
        layered(nodes, opts, starts, place),
        starts[0] == 0,
        forall|u: int| 0 <= u < nodes.len() ==> #[trigger] nodes[u].is_terminal == (u == starts[opts.len() as int]),
    ensures
        forall|w: Seq<char>| completes(nodes, set![0usize], w) <==> spells_from(opts, 0, w),
{
    let t = starts[opts.len() as int];
    assert(0 <= t < nodes.len());
    assert forall|w: Seq<char>| completes(nodes, set![0usize], w) <==> spells_from(opts, 0, w) by {
        lemma_chain_language(nodes, opts, starts, place, w);
        let r = run(nodes, set![0usize], w);
        if any_terminal(nodes, r) {
            let u = choose|u: usize| r.contains(u) && u < nodes.len() && #[trigger] nodes[u as int].is_terminal;
            assert(u == t);
        }
        if r.contains(t as usize) {
            assert(nodes[t].is_terminal);
            assert(r.contains(t as usize) && (t as usize) < nodes.len() && nodes[(t as usize) as int].is_terminal);
        }
    }
}

/// Some keys lead from the state `u` to a terminal state.
pub open spec fn can_finish(nodes: Seq<NodeView>, u: usize) -> bool {
    exists|x: Seq<char>| #[trigger] completes(nodes, set![u], x)
}

/// Group `j` has a non-empty spelling.
pub open spec fn has_spelling(opts: Seq<Set<Seq<char>>>, j: int) -> bool {
    exists|o: Seq<char>| #[trigger] opts[j].contains(o) && o.len() > 0
}

/// A non-empty spelling of group `j`.
pub open spec fn some_spelling(opts: Seq<Set<Seq<char>>>, j: int) -> Seq<char> {
    choose|o: Seq<char>| #[trigger] opts[j].contains(o) && o.len() > 0
}

/// One spelling of each group from `j` on, one after the other.
pub open spec fn spell_rest(opts: Seq<Set<Seq<char>>>, j: nat) -> Seq<char>
    decreases opts.len() - j,
{
    if j >= opts.len() {
        Seq::empty()
    } else {
        some_spelling(opts, j as int) + spell_rest(opts, j + 1)
    }
}

proof fn lemma_spell_rest(opts: Seq<Set<Seq<char>>>, j: nat)
    requires
        forall|g: int| 0 <= g < opts.len() ==> #[trigger] has_spelling(opts, g),
    ensures
        spells_from(opts, j as int, spell_rest(opts, j)),
    decreases opts.len() - j,
{
    if j < opts.len() {
        lemma_spell_rest(opts, j + 1);
        let o = some_spelling(opts, j as int);
        assert(has_spelling(opts, j as int));
        let w = spell_rest(opts, j);
        assert(w == o + spell_rest(opts, j + 1));
        assert(w.take(o.len() as int) =~= o);
        assert(w.skip(o.len() as int) =~= spell_rest(opts, j + 1));
        assert(opts[j as int].contains(w.take(o.len() as int)));
    }
}

/// In such a chain, whose groups each have a non-empty spelling and whose only terminal state
/// ends it, some keys lead from every state to a terminal state: there is no dead end.
pub proof fn lemma_chain_live(
    nodes: Seq<NodeView>,
    opts: Seq<Set<Seq<char>>>,
    starts: Seq<int>,
    place: Seq<Place>,
)
    requires
        layered(nodes, opts, starts, place),
        forall|u: int| 0 <= u < nodes.len() ==> #[trigger] nodes[u].is_terminal == (u == starts[opts.len() as int]),
        forall|g: int| 0 <= g < opts.len() ==> #[trigger] has_spelling(opts, g),
    ensures
        forall|u: usize| u < nodes.len() ==> #[trigger] can_finish(nodes, u),
{
    let gc = opts.len() as int;
    let t = starts[gc];
    assert(0 <= t < nodes.len() && nodes[t].is_terminal);
    assert forall|u: usize| u < nodes.len() implies #[trigger] can_finish(nodes, u) by {
        let g = place[u as int].group;
        let l = place[u as int].label;
        let w: Seq<char> = if g == gc {
            Seq::empty()
        } else {
            let o = if place[u as int].inner {
                choose|o: Seq<char>| #[trigger] opts[g].contains(o) && l.len() < o.len() && o.take(l.len() as int) == l
            } else {
                some_spelling(opts, g)
            };
            o.skip(l.len() as int) + spell_rest(opts, (g + 1) as nat)
        };
        if g != gc {
            assert(0 <= g < gc);
            let o = if place[u as int].inner {
                choose|o: Seq<char>| #[trigger] opts[g].contains(o) && l.len() < o.len() && o.take(l.len() as int) == l
            } else {
                some_spelling(opts, g)
            };
            if !place[u as int].inner {
                assert(starts[g] == u);
                assert(l.len() == 0);
                assert(has_spelling(opts, g));
                assert(o.take(0) =~= l);
            }
            lemma_spell_rest(opts, (g + 1) as nat);
            let m = o.len() - l.len();
            assert(w.take(m) =~= o.skip(l.len() as int));
            assert(w.skip(m) =~= spell_rest(opts, (g + 1) as nat));
            assert(finishes(opts, g, l, w));
        }
        lemma_finishes_reach(nodes, opts, starts, place, u as int, w);
        let r = run(nodes, set![u], w);
        assert(r.contains(t as usize) && (t as usize) < nodes.len() && nodes[(t as usize) as int].is_terminal);
        assert(completes(nodes, set![u], w));
    }
}

} // verus!
