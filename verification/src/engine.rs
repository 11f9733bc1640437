//! The typing engine: a reading is turned into an automaton over the keys a player may type,
//! whose runs are the spellings of the reading; the engine follows every run at once.
use vstd::prelude::*;

use crate::options::{
    lemma_resolve_markers, lemma_sokuon_markers, marker_ok, markers_bounded, resolve_build_options,
    resolve_build_spec, sokuon_options_spec, sokuon_options_with_markers, BuildOption, BuildSpec,
};
use crate::result::EngineInputResult;
use crate::guide::{
    completes, edges_in_range, is_first_completion, is_shortest_completion, lemma_run_concat, lemma_run_mono, lemma_run_none, run,
    shortest_completion,
};
use crate::language::{
    can_finish, edge_complete, edge_sound, empty_node, has_spelling, layered, layered_sound, lemma_add_edge,
    lemma_add_node, lemma_add_start, lemma_chain_live, lemma_engine_language, lemma_layered_same_edges, lemma_sound_grow, proper_prefix,
    spells_from, unique_labels, with_edge, Place,
};
use crate::romaji_table::{romaji_table, romaji_table_get};
use crate::seqs::view_seq;
use crate::spellings::{lemma_resolve_spelled, lemma_sokuon_spelled, spelled_builds};
use crate::text::{char_prefix, char_prefix_of, chars_to_string, str_chars, string_append, string_push};

verus! {

/// A state of the automaton: its outgoing transitions (key, target), and whether the whole
/// reading has been typed on reaching it.
pub struct Node {
    pub transitions: Vec<(char, usize)>,
    pub is_terminal: bool,
}

impl Node {
    fn empty() -> (n: Node)
        ensures
            n.transitions@ == Seq::<(char, usize)>::empty(),
            !n.is_terminal,
    {
        Node { transitions: Vec::new(), is_terminal: false }
    }
}

/// The geminating small `っ`.
pub open spec fn sokuon() -> Seq<char> {
    seq!['っ']
}

/// The units of a reading, left to right: two characters where the pair is a key of the
/// romaji table, one character otherwise.
pub open spec fn tokenize_spec(s: Seq<char>) -> Seq<Seq<char>>
    decreases s.len(),
{
    if s.len() == 0 {
        Seq::empty()
    } else if s.len() >= 2 && romaji_table(s.take(2)) is Some {
        seq![s.take(2)] + tokenize_spec(s.skip(2))
    } else {
        seq![s.take(1)] + tokenize_spec(s.skip(1))
    }
}

/// The characters of a sequence of units, in order.
pub open spec fn concat_all(ts: Seq<Seq<char>>) -> Seq<char>
    decreases ts.len(),
{
    if ts.len() == 0 {
        Seq::empty()
    } else {
        ts[0] + concat_all(ts.drop_first())
    }
}

/// How many units equal to `token` follow each other from `start` on.
pub open spec fn count_run(tokens: Seq<Seq<char>>, start: int, token: Seq<char>) -> nat
    decreases tokens.len() - start,
{
    if 0 <= start < tokens.len() && tokens[start] == token {
        1 + count_run(tokens, start + 1, token)
    } else {
        0
    }
}

/// The unit at `i`, if there is one.
pub open spec fn token_at(tokens: Seq<Seq<char>>, i: int) -> Option<Seq<char>> {
    if 0 <= i < tokens.len() {
        Some(tokens[i])
    } else {
        None
    }
}

/// The number of characters of the units `i..j`.
pub open spec fn chars_between(tokens: Seq<Seq<char>>, i: int, j: int) -> nat {
    concat_all(tokens.subrange(i, j)).len()
}

/// One step of the automaton's construction: the spellings of a group of units, and how many
/// characters of the reading the group covers.
pub struct GroupSpec {
    pub options: Seq<BuildSpec>,
    pub chars: nat,
}

/// The message for a run of `っ` that cannot be spelled.
pub open spec fn sokuon_message() -> Seq<char> {
    "\"っ\" cannot be expanded without a following kana"@
}

pub open spec fn prepend_groups(done: Seq<GroupSpec>, rest: Result<Seq<GroupSpec>, Seq<char>>) -> Result<
    Seq<GroupSpec>,
    Seq<char>,
> {
    match rest {
        Ok(r) => Ok(done + r),
        Err(e) => Err(e),
    }
}

/// The groups of the units from `i` on: a run of `っ` together with the unit that follows it,
/// or a single unit; or the message of the first group that cannot be spelled.
#[verifier::opaque]
pub open spec fn groups_from(tokens: Seq<Seq<char>>, i: int) -> Result<Seq<GroupSpec>, Seq<char>>
    decreases tokens.len() - i,
{
    if i < 0 || i >= tokens.len() {
        Ok(Seq::empty())
    } else if tokens[i] == sokuon() {
        let c = count_run(tokens, i, sokuon());
        let next = token_at(tokens, i + c);
        match sokuon_options_spec(c, next) {
            None => Err(sokuon_message()),
            Some(o) => {
                let consumed = c + if next is Some {
                    1int
                } else {
                    0int
                };
                proof {
                    lemma_count_run_bound(tokens, i, sokuon());
                }
                prepend_groups(
                    seq![GroupSpec { options: o, chars: chars_between(tokens, i, i + consumed) }],
                    groups_from(tokens, i + consumed),
                )
            },
        }
    } else {
        match resolve_build_spec(tokens[i], token_at(tokens, i + 1)) {
            Err(e) => Err(e),
            Ok(o) => prepend_groups(
                seq![GroupSpec { options: o, chars: tokens[i].len() }],
                groups_from(tokens, i + 1),
            ),
        }
    }
}

/// A run starting at `start` ends within the units.
pub proof fn lemma_count_run_bound(tokens: Seq<Seq<char>>, start: int, token: Seq<char>)
    requires
        0 <= start,
    ensures
        count_run(tokens, start, token) <= if start <= tokens.len() {
            tokens.len() - start
        } else {
            0
        },
        0 <= start < tokens.len() && tokens[start] == token ==> count_run(tokens, start, token) >= 1,
        forall|k: int| start <= k < start + count_run(tokens, start, token) ==> tokens[k] == token,
    decreases tokens.len() - start,
{
    if 0 <= start < tokens.len() && tokens[start] == token {
        lemma_count_run_bound(tokens, start + 1, token);
    }
}

/// Every group of units that can be spelled has a non-empty list of non-empty spellings.
pub proof fn lemma_groups_spelled(tokens: Seq<Seq<char>>, i: int)
    requires
        0 <= i,
    ensures
        groups_from(tokens, i) matches Ok(gs) ==> forall|j: int|
            0 <= j < gs.len() ==> spelled_builds(#[trigger] gs[j].options),
    decreases tokens.len() - i,
{
    reveal(groups_from);
    if i < tokens.len() {
        if tokens[i] == sokuon() {
            let c = count_run(tokens, i, sokuon());
            lemma_count_run_bound(tokens, i, sokuon());
            let next = token_at(tokens, i + c);
            lemma_sokuon_spelled(c, next);
            let consumed = c + if next is Some {
                1int
            } else {
                0int
            };
            lemma_groups_spelled(tokens, i + consumed);
            if groups_from(tokens, i) is Ok {
                let gs = groups_from(tokens, i)->Ok_0;
                let o = sokuon_options_spec(c, next)->Some_0;
                let rest = groups_from(tokens, i + consumed)->Ok_0;
                assert(gs == seq![GroupSpec { options: o, chars: chars_between(tokens, i, i + consumed) }] + rest);
                assert forall|j: int| 0 <= j < gs.len() implies spelled_builds(#[trigger] gs[j].options) by {
                    if j > 0 {
                        assert(gs[j] == rest[j - 1]);
                    }
                }
            }
        } else {
            lemma_resolve_spelled(tokens[i], token_at(tokens, i + 1));
            lemma_groups_spelled(tokens, i + 1);
            if groups_from(tokens, i) is Ok {
                let gs = groups_from(tokens, i)->Ok_0;
                let o = resolve_build_spec(tokens[i], token_at(tokens, i + 1))->Ok_0;
                let rest = groups_from(tokens, i + 1)->Ok_0;
                assert(gs == seq![GroupSpec { options: o, chars: tokens[i].len() }] + rest);
                assert forall|j: int| 0 <= j < gs.len() implies spelled_builds(#[trigger] gs[j].options) by {
                    if j > 0 {
                        assert(gs[j] == rest[j - 1]);
                    }
                }
            }
        }
    }
}

/// The groups of a reading.
pub open spec fn reading_groups(reading: Seq<char>) -> Result<Seq<GroupSpec>, Seq<char>> {
    groups_from(tokenize_spec(reading), 0)
}

proof fn lemma_tokenize(s: Seq<char>)
    ensures
        concat_all(tokenize_spec(s)) == s,
        forall|i: int|
            0 <= i < tokenize_spec(s).len() ==> 1 <= (#[trigger] tokenize_spec(s)[i]).len() <= 2,
    decreases s.len(),
{
    if s.len() > 0 {
        let t = tokenize_spec(s);
        if s.len() >= 2 && romaji_table(s.take(2)) is Some {
            lemma_tokenize(s.skip(2));
            assert(t.drop_first() =~= tokenize_spec(s.skip(2)));
            assert(s.take(2) + s.skip(2) =~= s);
            assert forall|i: int| 0 <= i < t.len() implies 1 <= (#[trigger] t[i]).len() <= 2 by {
                if i > 0 {
                    assert(t[i] == tokenize_spec(s.skip(2))[i - 1]);
                }
            }
        } else {
            lemma_tokenize(s.skip(1));
            assert(t.drop_first() =~= tokenize_spec(s.skip(1)));
            assert(s.take(1) + s.skip(1) =~= s);
            assert forall|i: int| 0 <= i < t.len() implies 1 <= (#[trigger] t[i]).len() <= 2 by {
                if i > 0 {
                    assert(t[i] == tokenize_spec(s.skip(1))[i - 1]);
                }
            }
        }
    }
}

proof fn lemma_concat_all_add(a: Seq<Seq<char>>, b: Seq<Seq<char>>)
    ensures
        concat_all(a + b) == concat_all(a) + concat_all(b),
    decreases a.len(),
{
    if a.len() == 0 {
        assert(a + b =~= b);
        assert(concat_all(a) + concat_all(b) =~= concat_all(b));
    } else {
        lemma_concat_all_add(a.drop_first(), b);
        assert((a + b).drop_first() =~= a.drop_first() + b);
        assert(concat_all(a + b) =~= concat_all(a) + concat_all(b));
    }
}

proof fn lemma_concat_all_one(t: Seq<char>)
    ensures
        concat_all(seq![t]) == t,
{
    assert(seq![t].drop_first() =~= Seq::<Seq<char>>::empty());
    assert(concat_all(Seq::<Seq<char>>::empty()) == Seq::<char>::empty());
    assert(concat_all(seq![t]) =~= t);
}

/// The characters of the units `i..j` plus those of `j..k` are those of `i..k`.
proof fn lemma_chars_between_split(tokens: Seq<Seq<char>>, i: int, j: int, k: int)
    requires
        0 <= i <= j <= k <= tokens.len(),
    ensures
        chars_between(tokens, i, k) == chars_between(tokens, i, j) + chars_between(tokens, j, k),
{
    assert(tokens.subrange(i, k) =~= tokens.subrange(i, j) + tokens.subrange(j, k));
    lemma_concat_all_add(tokens.subrange(i, j), tokens.subrange(j, k));
}

/// Splits a reading into units (see [`tokenize_spec`]).
pub fn tokenize(input: &Vec<char>) -> (tokens: Vec<Vec<char>>)
    ensures
        view_seq(tokens@) == tokenize_spec(input@),
{
    let ghost s = input@;
    let mut tokens: Vec<Vec<char>> = Vec::new();
    let mut i: usize = 0;
    assert(s.skip(0) =~= s);
    assert(view_seq(tokens@) + tokenize_spec(s) =~= tokenize_spec(s));
    while i < input.len()
        invariant
            s == input@,
            0 <= i <= input.len(),
            view_seq(tokens@) + tokenize_spec(s.skip(i as int)) == tokenize_spec(s),
        decreases input.len() - i,
    {
        let ghost rest = s.skip(i as int);
        let ghost before = view_seq(tokens@);
        if i + 1 < input.len() {
            let mut two: Vec<char> = Vec::new();
            two.push(input[i]);
            two.push(input[i + 1]);
            assert(two@ =~= rest.take(2));
            if romaji_table_get(&two).is_some() {
                tokens.push(two);
                assert(rest.skip(2) =~= s.skip(i + 2));
                assert(view_seq(tokens@) =~= before.push(rest.take(2)));
                assert(view_seq(tokens@) + tokenize_spec(s.skip(i + 2)) =~= before + tokenize_spec(rest));
                i += 2;
                continue;
            }
        }
        let mut one: Vec<char> = Vec::new();
        one.push(input[i]);
        assert(one@ =~= rest.take(1));
        tokens.push(one);
        assert(rest.skip(1) =~= s.skip(i + 1));
        assert(view_seq(tokens@) =~= before.push(rest.take(1)));
        assert(view_seq(tokens@) + tokenize_spec(s.skip(i + 1)) =~= before + tokenize_spec(rest));
        i += 1;
    }
    assert(tokenize_spec(s.skip(i as int)) =~= Seq::<Seq<char>>::empty());
    assert(view_seq(tokens@) + Seq::<Seq<char>>::empty() =~= view_seq(tokens@));
    tokens
}

/// How many units equal to `token` follow each other from `start_idx` on.
pub fn count_consecutive_token(tokens: &Vec<Vec<char>>, start_idx: usize, token: &Vec<char>) -> (r: usize)
    requires
        start_idx <= tokens.len(),
    ensures
        r == count_run(view_seq(tokens@), start_idx as int, token@),
        start_idx + r <= tokens.len(),
{
    let ghost tv = view_seq(tokens@);
    let mut count: usize = 0;
    while start_idx + count < tokens.len() && crate::seqs::chars_eq(&tokens[start_idx + count], token)
        invariant
            tv == view_seq(tokens@),
            start_idx + count <= tokens.len(),
            count_run(tv, start_idx as int, token@) == count + count_run(tv, start_idx + count, token@),
        decreases tokens.len() - start_idx - count,
    {
        assert(tv[start_idx + count] == tokens@[start_idx + count]@);
        count += 1;
    }
    if start_idx + count < tokens.len() {
        assert(tv[start_idx + count] == tokens@[start_idx + count]@);
    }
    count
}

/// The automaton is well formed: as many progress counts as states, at least one state, and
/// every transition leads to a state.
pub open spec fn graph_wf(nodes: Seq<Node>, completed: Seq<usize>) -> bool {
    &&& nodes.len() > 0
    &&& completed.len() == nodes.len()
    &&& forall|u: int, k: int|
        0 <= u < nodes.len() && 0 <= k < nodes[u].transitions@.len() ==> (
        #[trigger] nodes[u].transitions@[k]).1 < nodes.len()
}

/// The transitions of the states of the group being built (`parent`, and the states after
/// `merge`) stay inside the group: they lead to `merge` or to a state after it.
pub open spec fn group_closed(nodes: Seq<Node>, parent: int, merge: int) -> bool {
    forall|u: int, k: int|
        (u == parent || merge < u) && 0 <= u < nodes.len() && 0 <= k < nodes[u].transitions@.len()
            ==> (#[trigger] nodes[u].transitions@[k]).1 >= merge
}

/// Every progress count is at most `bound`.
pub open spec fn completed_within(completed: Seq<usize>, bound: nat) -> bool {
    forall|x: int| 0 <= x < completed.len() ==> #[trigger] completed[x] <= bound
}

fn push_node(nodes: &mut Vec<Node>, completed: &mut Vec<usize>, value: usize)
    requires
        graph_wf(old(nodes)@, old(completed)@),
    ensures
        graph_wf(final(nodes)@, final(completed)@),
        final(nodes)@ == old(nodes)@.push(final(nodes)@.last()),
        final(nodes)@.last().transitions@ == Seq::<(char, usize)>::empty(),
        !final(nodes)@.last().is_terminal,
        final(completed)@ == old(completed)@.push(value),
{
    nodes.push(Node::empty());
    completed.push(value);
    assert forall|u: int, k: int|
        0 <= u < nodes@.len() && 0 <= k < nodes@[u].transitions@.len() implies (
        #[trigger] nodes@[u].transitions@[k]).1 < nodes@.len() by {
        if u < nodes@.len() - 1 {
            assert(nodes@[u] == old(nodes)@[u]);
        }
    }
}

fn push_transition(nodes: &mut Vec<Node>, from: usize, c: char, to: usize)
    requires
        from < old(nodes)@.len(),
        to < old(nodes)@.len(),
        forall|u: int, k: int|
            0 <= u < old(nodes)@.len() && 0 <= k < old(nodes)@[u].transitions@.len() ==> (
            #[trigger] old(nodes)@[u].transitions@[k]).1 < old(nodes)@.len(),
    ensures
        final(nodes)@.len() == old(nodes)@.len(),
        final(nodes)@[from as int].transitions@ == old(nodes)@[from as int].transitions@.push((c, to)),
        final(nodes)@[from as int].is_terminal == old(nodes)@[from as int].is_terminal,
        forall|u: int| 0 <= u < old(nodes)@.len() && u != from ==> final(nodes)@[u] == old(nodes)@[u],
        forall|u: int, k: int|
            0 <= u < final(nodes)@.len() && 0 <= k < final(nodes)@[u].transitions@.len() ==> (
            #[trigger] final(nodes)@[u].transitions@[k]).1 < final(nodes)@.len(),
{
    nodes[from].transitions.push((c, to));
    assert forall|u: int, k: int|
        0 <= u < nodes@.len() && 0 <= k < nodes@[u].transitions@.len() implies (
        #[trigger] nodes@[u].transitions@[k]).1 < nodes@.len() by {
        if u != from {
            assert(nodes@[u] == old(nodes)@[u]);
        } else if k < old(nodes)@[u].transitions@.len() {
            assert(nodes@[u].transitions@[k] == old(nodes)@[u].transitions@[k]);
        }
    }
}

/// The count `start`, raised in turn by each marker of `markers` that marks `consumed` keys
/// to `base` plus its count, where that is more.
pub open spec fn raised_count(markers: Seq<(usize, usize)>, consumed: usize, base: nat, start: nat) -> nat
    decreases markers.len(),
{
    if markers.len() == 0 {
        start
    } else {
        let prev = raised_count(markers.drop_last(), consumed, base, start);
        let m = markers.last();
        if m.0 == consumed && base + m.1 > prev {
            (base + m.1) as nat
        } else {
            prev
        }
    }
}

/// Raising never lowers the count.
proof fn lemma_raised_at_least(markers: Seq<(usize, usize)>, consumed: usize, base: nat, start: nat)
    ensures
        raised_count(markers, consumed, base, start) >= start,
    decreases markers.len(),
{
    if markers.len() > 0 {
        lemma_raised_at_least(markers.drop_last(), consumed, base, start);
    }
}

/// Raises the progress count of `curr` for the progress markers of `opt` that mark
/// `consumed_input_chars` keys: to `base` plus the marked count, where that is more.
fn apply_markers(
    completed: &mut Vec<usize>,
    curr: usize,
    parent: usize,
    merge: usize,
    base: usize,
    opt: &BuildOption,
    consumed_input_chars: usize,
)
    requires
        parent < merge < curr < old(completed)@.len(),
        base == old(completed)@[parent as int],
        base <= old(completed)@[merge as int],
        marker_ok(opt@, (old(completed)@[merge as int] - base) as nat),
        completed_within(old(completed)@, old(completed)@[merge as int] as nat),
    ensures
        final(completed)@.len() == old(completed)@.len(),
        final(completed)@[parent as int] == base,
        final(completed)@[merge as int] == old(completed)@[merge as int],
        completed_within(final(completed)@, old(completed)@[merge as int] as nat),
        final(completed)@ == old(completed)@.update(
            curr as int,
            raised_count(opt@.markers, consumed_input_chars, base as nat, old(completed)@[curr as int] as nat) as usize,
        ),
        final(completed)@[curr as int] == raised_count(
            opt@.markers,
            consumed_input_chars,
            base as nat,
            old(completed)@[curr as int] as nat,
        ),
{
    let ghost bound = completed@[merge as int] as nat;
    let mut m: usize = 0;
    while m < opt.progress_markers.len()
        invariant
            parent < merge < curr < completed@.len(),
            completed@.len() == old(completed)@.len(),
            base == completed@[parent as int],
            bound == completed@[merge as int],
            base <= bound,
            marker_ok(opt@, (bound - base) as nat),
            completed_within(completed@, bound),
            0 <= m <= opt.progress_markers.len(),
            completed@ == old(completed)@.update(
                curr as int,
                raised_count(
                    opt@.markers.take(m as int),
                    consumed_input_chars,
                    base as nat,
                    old(completed)@[curr as int] as nat,
                ) as usize,
            ),
            raised_count(
                opt@.markers.take(m as int),
                consumed_input_chars,
                base as nat,
                old(completed)@[curr as int] as nat,
            ) == completed@[curr as int],
        decreases opt.progress_markers.len() - m,
    {
        let (marker_input_chars, marker_completed_chars) = opt.progress_markers[m];
        assert(opt@.markers[m as int].1 <= bound - base);
        assert(opt@.markers.take(m + 1).drop_last() =~= opt@.markers.take(m as int));
        assert(opt@.markers.take(m + 1).last() == opt@.markers[m as int]);
        if marker_input_chars == consumed_input_chars {
            let raised = base + marker_completed_chars;
            if raised > completed[curr] {
                completed.set(curr, raised);
            }
        }
        m += 1;
    }
    assert(opt@.markers.take(m as int) =~= opt@.markers);
}

/// The first transition of `from` by `c` that leads elsewhere than `merge`.
fn find_shared(nodes: &Vec<Node>, from: usize, c: char, merge: usize) -> (r: Option<usize>)
    requires
        from < nodes@.len(),
    ensures
        match r {
            Some(k) => k < nodes@[from as int].transitions@.len() && nodes@[from as int].transitions@[k as int].0
                == c && nodes@[from as int].transitions@[k as int].1 != merge,
            None => forall|k: int|
                0 <= k < nodes@[from as int].transitions@.len() ==> !(
                #[trigger] nodes@[from as int].transitions@[k].0 == c && nodes@[from as int].transitions@[k].1
                    != merge),
        },
{
    let mut k: usize = 0;
    while k < nodes[from].transitions.len()
        invariant
            from < nodes@.len(),
            0 <= k <= nodes@[from as int].transitions@.len(),
            forall|q: int|
                0 <= q < k ==> !(#[trigger] nodes@[from as int].transitions@[q].0 == c
                    && nodes@[from as int].transitions@[q].1 != merge),
        decreases nodes@[from as int].transitions@.len() - k,
    {
        let (ch, next) = nodes[from].transitions[k];
        if ch == c && next != merge {
            return Some(k);
        }
        k += 1;
    }
    None
}

/// Whether `from` has the transition `(c, to)`.
fn has_transition(nodes: &Vec<Node>, from: usize, c: char, to: usize) -> (r: bool)
    requires
        from < nodes@.len(),
    ensures
        r == exists|k: int|
            0 <= k < nodes@[from as int].transitions@.len() && #[trigger] nodes@[from as int].transitions@[k]
                == (c, to),
{
    let mut k: usize = 0;
    while k < nodes[from].transitions.len()
        invariant
            from < nodes@.len(),
            0 <= k <= nodes@[from as int].transitions@.len(),
            forall|q: int| 0 <= q < k ==> #[trigger] nodes@[from as int].transitions@[q] != (c, to),
        decreases nodes@[from as int].transitions@.len() - k,
    {
        let (ch, next) = nodes[from].transitions[k];
        if ch == c && next == to {
            return true;
        }
        k += 1;
    }
    false
}

/// Adds the spelling of one option to the automaton: a path of fresh or shared states from
/// `parent` whose last key leads to `merge`; progress markers raise the counts of the states
/// they mark. The group trie then holds the option's spelling too.
#[verifier::rlimit(50)]
fn insert_option(
    nodes: &mut Vec<Node>,
    completed: &mut Vec<usize>,
    parent: usize,
    merge: usize,
    opt: &BuildOption,
    Ghost(opts): Ghost<Seq<Set<Seq<char>>>>,
    Ghost(starts): Ghost<Seq<int>>,
    Ghost(place): Ghost<Seq<Place>>,
) -> (r: Ghost<Seq<Place>>)
    requires
        graph_wf(old(nodes)@, old(completed)@),
        parent < merge < old(nodes)@.len(),
        old(completed)@[parent as int] <= old(completed)@[merge as int],
        marker_ok(opt@, (old(completed)@[merge as int] - old(completed)@[parent as int]) as nat),
        completed_within(old(completed)@, old(completed)@[merge as int] as nat),
        group_closed(old(nodes)@, parent as int, merge as int),
        forall|x: int| 0 <= x < old(nodes)@.len() ==> !(#[trigger] old(nodes)@[x]).is_terminal,
        layered(view_seq(old(nodes)@), opts, starts, place),
        unique_labels(place),
        opts.len() >= 1,
        starts[opts.len() - 1] == parent,
        starts[opts.len() as int] == merge,
        forall|x: int| merge < x < old(nodes)@.len() ==> old(completed)@[parent as int] <= #[trigger] old(completed)@[x],
    ensures
        graph_wf(final(nodes)@, final(completed)@),
        forall|x: int| 0 <= x < final(nodes)@.len() ==> !(#[trigger] final(nodes)@[x]).is_terminal,
        group_closed(final(nodes)@, parent as int, merge as int),
        forall|x: int| 0 <= x <= merge ==> #[trigger] final(completed)@[x] == old(completed)@[x],
        forall|x: int|
            merge < x < final(nodes)@.len() ==> old(completed)@[parent as int] <= #[trigger] final(completed)@[x],
        forall|x: int| 0 <= x < old(nodes)@.len() ==> #[trigger] r@[x] == place[x],
        forall|x: int|
            old(nodes)@.len() <= x < final(nodes)@.len() ==> (#[trigger] r@[x]).group == opts.len() - 1
                && r@[x].inner,
        final(nodes)@.len() >= old(nodes)@.len(),
        final(completed)@[parent as int] == old(completed)@[parent as int],
        final(completed)@[merge as int] == old(completed)@[merge as int],
        final(nodes)@[merge as int] == old(nodes)@[merge as int],
        completed_within(final(completed)@, old(completed)@[merge as int] as nat),
        layered(
            view_seq(final(nodes)@),
            opts.update(opts.len() - 1, opts[opts.len() - 1].insert(opt@.romaji)),
            starts,
            r@,
        ),
        unique_labels(r@),
{
    let ghost gj = opts.len() - 1;
    let ghost o = opt@.romaji;
    let ghost opts2 = opts.update(gj, opts[gj].insert(o));
    proof {
        assert forall|g: int| 0 <= g < opts.len() implies #[trigger] opts[g].subset_of(opts2[g]) by {}
        lemma_sound_grow(view_seq(nodes@), opts, opts2, starts, place);
    }
    let chars = &opt.romaji;
    if chars.len() == 0 {
        proof {
            assert forall|u: int, o2: Seq<char>|
                0 <= u < view_seq(nodes@).len() && place[u].group < opts2.len() && #[trigger] opts2[place[u].group].contains(
                    o2,
                ) implies edge_complete(view_seq(nodes@), starts, place, u, o2) by {
                if !opts[place[u].group].contains(o2) {
                    assert(o2 == o);
                }
            }
        }
        return Ghost(place);
    }
    let ghost bound = completed@[merge as int] as nat;
    let base = completed[parent];
    let mut curr = parent;
    let ghost mut pl = place;
    let mut j: usize = 0;
    assert(o.take(0) =~= Seq::<char>::empty());
    while j < chars.len()
        invariant
            graph_wf(nodes@, completed@),
            parent < merge < nodes@.len(),
            nodes@.len() >= old(nodes)@.len(),
            nodes@[merge as int] == old(nodes)@[merge as int],
            group_closed(nodes@, parent as int, merge as int),
            forall|x: int| 0 <= x < nodes@.len() ==> !(#[trigger] nodes@[x]).is_terminal,
            curr < nodes@.len(),
            curr == parent || merge < curr,
            0 <= j <= chars.len(),
            chars@ == o,
            o.len() > 0,
            base == completed@[parent as int],
            bound == completed@[merge as int],
            base <= bound,
            marker_ok(opt@, (bound - base) as nat),
            completed_within(completed@, bound),
            gj == opts.len() - 1,
            opts2 == opts.update(gj, opts[gj].insert(o)),
            starts[gj] == parent,
            starts[gj + 1] == merge,
            layered_sound(view_seq(nodes@), opts2, starts, pl),
            unique_labels(pl),
            forall|u: int, o2: Seq<char>|
                0 <= u < nodes@.len() && pl[u].group < opts.len() && #[trigger] opts[pl[u].group].contains(o2)
                    ==> edge_complete(view_seq(nodes@), starts, pl, u, o2),
            forall|u: int|
                0 <= u < nodes@.len() && pl[u].group == gj && pl[u].label.len() < j && o.take(
                    pl[u].label.len() as int,
                ) == pl[u].label ==> #[trigger] edge_complete(view_seq(nodes@), starts, pl, u, o),
            forall|u: int|
                0 <= u < nodes@.len() && (#[trigger] pl[u]).inner && pl[u].group == gj && pl[u].label.len() > j
                    ==> proper_prefix(opts[gj], pl[u].label),
            j < chars.len() ==> pl[curr as int].group == gj && pl[curr as int].label == o.take(j as int),
            forall|x: int| 0 <= x <= merge ==> #[trigger] completed@[x] == old(completed)@[x],
            forall|x: int| merge < x < nodes@.len() ==> base <= #[trigger] completed@[x],
            forall|x: int| 0 <= x < old(nodes)@.len() ==> #[trigger] pl[x] == place[x],
            forall|x: int| old(nodes)@.len() <= x < nodes@.len() ==> (#[trigger] pl[x]).group == gj && pl[x].inner,
        decreases chars.len() - j,
    {
        let c = chars[j];
        let ghost nv = view_seq(nodes@);
        let ghost l = o.take(j as int);
        assert(nv[curr as int] == nodes@[curr as int]@);
        assert(l.push(c) =~= o.take(j + 1));
        proof {
            // the state `curr` is the only one of the group with the keys `l`
            assert forall|u: int|
                0 <= u < nodes@.len() && pl[u].group == gj && pl[u].label == l implies u == curr by {
                if j == 0 {
                    assert(!pl[u].inner && !pl[curr as int].inner);
                } else {
                    assert(pl[u].inner && pl[curr as int].inner);
                }
            }
        }
        if j == chars.len() - 1 {
            assert(o.take(j + 1) =~= o);
            if !has_transition(nodes, curr, c, merge) {
                proof {
                    lemma_add_edge(nv, opts2, starts, pl, curr as int, c, merge);
                }
                let ghost before = nodes@[curr as int].transitions@;
                push_transition(nodes, curr, c, merge);
                assert(view_seq(nodes@) =~= with_edge(nv, curr as int, c, merge));
                assert(nodes@[curr as int].transitions@[before.len() as int] == (c, merge));
            }
            proof {
                let nv2 = view_seq(nodes@);
                assert(nv2[curr as int] == nodes@[curr as int]@);
                let k = choose|k: int|
                    0 <= k < nodes@[curr as int].transitions@.len() && #[trigger] nodes@[curr as int].transitions@[k]
                        == (c, merge);
                assert(nv2[curr as int].transitions[k] == (c, merge));
                assert(edge_complete(nv2, starts, pl, curr as int, o));
                assert forall|u: int|
                    0 <= u < nodes@.len() && pl[u].group == gj && pl[u].label.len() < j + 1 && o.take(
                        pl[u].label.len() as int,
                    ) == pl[u].label implies #[trigger] edge_complete(nv2, starts, pl, u, o) by {
                    if pl[u].label.len() == j {
                        assert(pl[u].label =~= l);
                    } else {
                        assert(edge_complete(nv, starts, pl, u, o));
                    }
                }
                assert forall|u: int, o2: Seq<char>|
                    0 <= u < nodes@.len() && pl[u].group < opts.len() && #[trigger] opts[pl[u].group].contains(o2)
                        implies edge_complete(nv2, starts, pl, u, o2) by {
                    assert(edge_complete(nv, starts, pl, u, o2));
                }
            }
            j += 1;
        } else {
            let found = find_shared(nodes, curr, c, merge);
            let next = match found {
                Some(k) => {
                    let n = nodes[curr].transitions[k].1;
                    proof {
                        assert(nv[curr as int].transitions[k as int] == (c, n));
                        assert(edge_sound(opts2, starts, pl, curr as int, c, n));
                        assert(pl[n as int].inner && pl[n as int].label == o.take(j + 1));
                        assert(edge_complete(nv, starts, pl, curr as int, o));
                        assert forall|u: int|
                            0 <= u < nodes@.len() && pl[u].group == gj && pl[u].label.len() < j + 1 && o.take(
                                pl[u].label.len() as int,
                            ) == pl[u].label implies #[trigger] edge_complete(nv, starts, pl, u, o) by {
                            if pl[u].label.len() == j {
                                assert(pl[u].label =~= l);
                            }
                        }
                    }
                    n
                },
                None => {
                    let new_idx = nodes.len();
                    let ghost p = Place { group: gj, label: o.take(j + 1), inner: true };
                    proof {
                        assert(o.take(j + 1).len() < o.len() && o.take(j + 1).take(j + 1) == o.take(j + 1));
                        assert(opts2[gj].contains(o));
                        assert(proper_prefix(opts2[gj], o.take(j + 1)));
                        // no spelling given earlier continues `l` with `c` beyond one more key
                        assert forall|o2: Seq<char>| #[trigger] opts[gj].contains(o2) implies !(o.take(j + 1).len()
                            < o2.len() && o2.take(j + 1) == o.take(j + 1)) by {
                            if o.take(j + 1).len() < o2.len() && o2.take(j + 1) == o.take(j + 1) {
                                assert(o2.take(j as int) =~= l);
                                assert(o2[j as int] == c);
                                assert(edge_complete(nv, starts, pl, curr as int, o2));
                                let k = choose|k: int|
                                    0 <= k < nv[curr as int].transitions.len() && (
                                    #[trigger] nv[curr as int].transitions[k]).0 == o2[l.len() as int]
                                        && pl[nv[curr as int].transitions[k].1 as int].inner
                                        && pl[nv[curr as int].transitions[k].1 as int].group == gj
                                        && pl[nv[curr as int].transitions[k].1 as int].label == l.push(
                                        o2[l.len() as int],
                                    );
                                assert(nodes@[curr as int].transitions@[k] == nv[curr as int].transitions[k]);
                                assert(!pl[merge as int].inner);
                            }
                        }
                    }
                    let inherited = completed[curr];
                    assert(base <= inherited);
                    let ghost before_push = completed@;
                    push_node(nodes, completed, inherited);
                    assert forall|x: int| merge < x < nodes@.len() implies base <= #[trigger] completed@[x] by {
                        if x < before_push.len() {
                            assert(completed@[x] == before_push[x]);
                        }
                    }
                    assert forall|x: int| 0 <= x <= merge implies #[trigger] completed@[x] == old(completed)@[x] by {
                        assert(completed@[x] == before_push[x]);
                    }
                    proof {
                        assert(nodes@.len() == nodes.len());
                        lemma_add_node(nv, opts2, starts, pl, p);
                    }
                    let ghost pl2 = pl.push(p);
                    let ghost nv1 = nv.push(empty_node());
                    assert(view_seq(nodes@) =~= nv1) by {
                        assert(nodes@.last()@ == empty_node());
                    }
                    proof {
                        assert(edge_sound(opts2, starts, pl2, curr as int, c, new_idx)) by {
                            assert(pl2[curr as int] == pl[curr as int]);
                            assert(pl2[new_idx as int] == p);
                        }
                        assert(pl2[curr as int].group < opts2.len());
                        lemma_add_edge(nv1, opts2, starts, pl2, curr as int, c, new_idx);
                    }
                    push_transition(nodes, curr, c, new_idx);
                    assert(view_seq(nodes@) =~= with_edge(nv1, curr as int, c, new_idx));
                    proof {
                        let nv2 = view_seq(nodes@);
                        // the new state's keys are new to the group
                        assert forall|u: int, v: int|
                            0 <= u < pl2.len() && 0 <= v < pl2.len() && (#[trigger] pl2[u]).inner && (
                            #[trigger] pl2[v]).inner && pl2[u].group == pl2[v].group && pl2[u].label
                                == pl2[v].label implies u == v by {
                            if u != v && (u == new_idx || v == new_idx) {
                                let w = if u == new_idx {
                                    v
                                } else {
                                    u
                                };
                                assert(pl2[w] == pl[w]);
                                assert(pl[w].label.len() == j + 1);
                                assert(proper_prefix(opts[gj], pl[w].label));
                                let o2 = choose|o2: Seq<char>|
                                    #[trigger] opts[gj].contains(o2) && pl[w].label.len() < o2.len() && o2.take(
                                        pl[w].label.len() as int,
                                    ) == pl[w].label;
                            } else if u != v {
                                assert(pl2[u] == pl[u] && pl2[v] == pl[v]);
                            }
                        }
                        // spellings given earlier still have their transitions at the new state
                        assert forall|o2: Seq<char>| #[trigger] opts[gj].contains(o2) implies edge_complete(
                            nv2,
                            starts,
                            pl2,
                            new_idx as int,
                            o2,
                        ) by {}
                        assert(nv2[curr as int].transitions[nv[curr as int].transitions.len() as int] == (
                            c,
                            new_idx,
                        ));
                        assert(edge_complete(nv2, starts, pl2, curr as int, o));
                        assert forall|u: int| 0 <= u < nodes@.len() && (#[trigger] pl2[u]).inner && pl2[u].group
                            == gj && pl2[u].label.len() > j + 1 implies proper_prefix(opts[gj], pl2[u].label) by {
                            assert(u != new_idx);
                            assert(pl2[u] == pl[u]);
                        }
                        assert forall|u: int|
                            0 <= u < nodes@.len() && pl2[u].group == gj && pl2[u].label.len() < j + 1 && o.take(
                                pl2[u].label.len() as int,
                            ) == pl2[u].label implies #[trigger] edge_complete(nv2, starts, pl2, u, o) by {
                            assert(u != new_idx);
                            assert(pl2[u] == pl[u]);
                            if pl[u].label.len() == j {
                                assert(pl[u].label =~= l);
                            } else {
                                assert(edge_complete(nv, starts, pl, u, o));
                                assert(edge_complete(nv1, starts, pl2, u, o));
                            }
                        }
                        assert forall|u: int, o2: Seq<char>|
                            0 <= u < nodes@.len() && pl2[u].group < opts.len() && #[trigger] opts[pl2[u].group].contains(
                                o2,
                            ) implies edge_complete(nv2, starts, pl2, u, o2) by {
                            if u < nv.len() {
                                assert(pl2[u] == pl[u]);
                                assert(edge_complete(nv, starts, pl, u, o2));
                                assert(edge_complete(nv1, starts, pl2, u, o2));
                            } else {
                                assert(u == new_idx);
                                if pl2[u].group == gj {
                                    assert(edge_complete(nv2, starts, pl2, new_idx as int, o2));
                                }
                            }
                        }
                        pl = pl2;
                    }
                    new_idx
                },
            };
            proof {
                assert(forall|u: int|
                    0 <= u < nodes@.len() && pl[u].group == gj && pl[u].label == l ==> u == curr);
            }
            curr = next;
            let consumed_input_chars = j + 1;
            let ghost before_markers = completed@;
            apply_markers(completed, curr, parent, merge, base, opt, consumed_input_chars);
            proof {
                lemma_raised_at_least(opt@.markers, consumed_input_chars, base as nat, before_markers[curr as int] as nat);
                assert forall|x: int| merge < x < nodes@.len() implies base <= #[trigger] completed@[x] by {
                    if x != curr {
                        assert(completed@[x] == before_markers[x]);
                    }
                }
            }
            j += 1;
        }
    }
    proof {
        let nv = view_seq(nodes@);
        assert forall|u: int, o2: Seq<char>|
            0 <= u < nv.len() && pl[u].group < opts2.len() && #[trigger] opts2[pl[u].group].contains(o2) implies edge_complete(
            nv,
            starts,
            pl,
            u,
            o2,
        ) by {
            if !opts[pl[u].group].contains(o2) {
                assert(o2 == o && pl[u].group == gj);
                let l = pl[u].label;
                if l.len() < o.len() && o.take(l.len() as int) == l {
                    assert(edge_complete(nv, starts, pl, u, o));
                }
            }
        }
    }
    Ghost(pl)
}


/// The options and the number of units of the group that starts at unit `i`.
fn next_group(tokens: &Vec<Vec<char>>, i: usize, sokuon_token: &Vec<char>) -> (r: Result<
    (Vec<BuildOption>, usize),
    String,
>)
    requires
        i < tokens.len(),
        sokuon_token@ == sokuon(),
    ensures
        match r {
            Ok((options, consumed)) => {
                &&& 1 <= consumed
                &&& i + consumed <= tokens.len()
                &&& groups_from(view_seq(tokens@), i as int) == prepend_groups(
                    seq![
                        GroupSpec {
                            options: view_seq(options@),
                            chars: chars_between(view_seq(tokens@), i as int, i + consumed),
                        },
                    ],
                    groups_from(view_seq(tokens@), i + consumed),
                )
                &&& markers_bounded(
                    view_seq(options@),
                    chars_between(view_seq(tokens@), i as int, i + consumed),
                )
            },
            Err(e) => groups_from(view_seq(tokens@), i as int) == Err::<Seq<GroupSpec>, Seq<char>>(e@),
        },
{
    reveal(groups_from);
    let ghost tv = view_seq(tokens@);
    let is_sokuon = tokens[i].len() == 1 && tokens[i][0] == 'っ';
    assert(is_sokuon == (tv[i as int] == sokuon())) by {
        assert(tv[i as int] == tokens@[i as int]@);
        if tv[i as int] == sokuon() {
            assert(tv[i as int].len() == 1);
        }
        if is_sokuon {
            assert(tv[i as int] =~= sokuon());
        }
    }
    if is_sokuon {
        let count = count_consecutive_token(tokens, i, sokuon_token);
        proof {
            lemma_count_run_bound(tv, i as int, sokuon());
        }
        let next: Option<&Vec<char>> = if i + count < tokens.len() {
            Some(&tokens[i + count])
        } else {
            None
        };
        assert(match next {
            Some(t) => Some(t@),
            None => None,
        } == token_at(tv, i + count));
        let options = match sokuon_options_with_markers(count, next) {
            None => {
                let mut msg = String::new();
                string_append(&mut msg, "\"っ\" cannot be expanded without a following kana");
                return Err(msg);
            },
            Some(o) => o,
        };
        let consumed = if next.is_some() {
            count + 1
        } else {
            count
        };
        proof {
            lemma_sokuon_markers(count as nat, token_at(tv, i + count));
            if next.is_none() {
                lemma_count_run_bound(tv, i + count, sokuon());
            }
        }
        assert(markers_bounded(view_seq(options@), chars_between(tv, i as int, i + consumed))) by {
            lemma_chars_run(tv, i as int, count as nat);
            lemma_chars_between_split(tv, i as int, i + count, i + consumed);
            lemma_markers_bounded_mono(
                view_seq(options@),
                count as nat,
                chars_between(tv, i as int, i + consumed),
            );
        }
        Ok((options, consumed))
    } else {
        let next: Option<&Vec<char>> = if i + 1 < tokens.len() {
            Some(&tokens[i + 1])
        } else {
            None
        };
        assert(match next {
            Some(t) => Some(t@),
            None => None,
        } == token_at(tv, i + 1));
        assert(tokens@[i as int]@ == tv[i as int]);
        let options = match resolve_build_options(&tokens[i], next) {
            Err(e) => return Err(e),
            Ok(o) => o,
        };
        proof {
            lemma_resolve_markers(tv[i as int], token_at(tv, i + 1));
            assert(tv.subrange(i as int, i + 1) =~= seq![tv[i as int]]);
            lemma_concat_all_one(tv[i as int]);
        }
        Ok((options, 1))
    }
}

proof fn lemma_markers_bounded_mono(opts: Seq<BuildSpec>, a: nat, b: nat)
    requires
        markers_bounded(opts, a),
        a <= b,
    ensures
        markers_bounded(opts, b),
{
    assert forall|i: int| 0 <= i < opts.len() implies #[trigger] marker_ok(opts[i], b) by {
        assert(marker_ok(opts[i], a));
    }
}

/// A run of `count` `っ` units covers `count` characters.
proof fn lemma_chars_run(tokens: Seq<Seq<char>>, start: int, count: nat)
    requires
        0 <= start,
        start + count <= tokens.len(),
        forall|k: int| start <= k < start + count ==> tokens[k] == sokuon(),
    ensures
        chars_between(tokens, start, start + count) == count,
    decreases count,
{
    if count == 0 {
        assert(tokens.subrange(start, start) =~= Seq::<Seq<char>>::empty());
    } else {
        lemma_chars_run(tokens, start, (count - 1) as nat);
        lemma_chars_between_split(tokens, start, start + count - 1, start + count);
        assert(tokens.subrange(start + count - 1, start + count) =~= seq![sokuon()]);
        lemma_concat_all_one(sokuon());
    }
}

proof fn lemma_chars_step(tokens: Seq<Seq<char>>, i: int, k: int)
    requires
        0 <= i <= k < tokens.len(),
    ensures
        chars_between(tokens, i, k + 1) == chars_between(tokens, i, k) + tokens[k].len(),
        chars_between(tokens, i, k + 1) <= chars_between(tokens, 0, tokens.len() as int),
{
    lemma_chars_between_split(tokens, i, k, k + 1);
    lemma_chars_between_split(tokens, 0, i, k + 1);
    lemma_chars_between_split(tokens, 0, k + 1, tokens.len() as int);
    assert(tokens.subrange(k, k + 1) =~= seq![tokens[k]]);
    lemma_concat_all_one(tokens[k]);
}

/// The number of characters of the units `i..j`.
fn count_chars(tokens: &Vec<Vec<char>>, i: usize, j: usize) -> (n: usize)
    requires
        i <= j <= tokens.len(),
        chars_between(view_seq(tokens@), 0, tokens@.len() as int) <= usize::MAX,
    ensures
        n == chars_between(view_seq(tokens@), i as int, j as int),
{
    let ghost tv = view_seq(tokens@);
    proof {
        assert(tv.subrange(i as int, i as int) =~= Seq::<Seq<char>>::empty());
    }
    let mut n: usize = 0;
    let mut k: usize = i;
    while k < j
        invariant
            tv == view_seq(tokens@),
            i <= k <= j <= tv.len(),
            chars_between(tv, 0, tv.len() as int) <= usize::MAX,
            n == chars_between(tv, i as int, k as int),
        decreases j - k,
    {
        proof {
            lemma_chars_step(tv, i as int, k as int);
            assert(tv[k as int] == tokens@[k as int]@);
        }
        n = n + tokens[k].len();
        k += 1;
    }
    n
}

/// The number of reading characters that the first `j` groups cover.
pub open spec fn groups_chars(groups: Seq<GroupSpec>, j: int) -> nat
    decreases j,
{
    if j <= 0 {
        0
    } else {
        groups_chars(groups, j - 1) + groups[j - 1].chars
    }
}

proof fn lemma_groups_chars_push(groups: Seq<GroupSpec>, g: GroupSpec, j: int)
    requires
        j <= groups.len(),
    ensures
        groups_chars(groups + seq![g], j) == groups_chars(groups, j),
    decreases j,
{
    if j > 0 {
        lemma_groups_chars_push(groups, g, j - 1);
        assert((groups + seq![g])[j - 1] == groups[j - 1]);
    }
}

/// The spellings of a list of options.
pub open spec fn option_set(opts: Seq<BuildSpec>) -> Set<Seq<char>> {
    Set::new(|s: Seq<char>| exists|i: int| 0 <= i < opts.len() && #[trigger] opts[i].romaji == s)
}

/// The spellings of each group.
pub open spec fn group_options(groups: Seq<GroupSpec>) -> Seq<Set<Seq<char>>> {
    groups.map_values(|g: GroupSpec| option_set(g.options))
}

/// The engine's automaton is the chain of group tries of `groups`, with start states `starts`
/// and places `place` (see [`layered`]), whose only terminal state ends the chain. Each
/// group's start state counts as typed the reading characters of the groups before it; a
/// state inside a group counts at least those and at most those of its own group too (its
/// progress marker).
pub open spec fn built_from(v: EngineView, groups: Seq<GroupSpec>, starts: Seq<int>, place: Seq<Place>) -> bool {
    let n = v.nodes.len();
    &&& layered(v.nodes, group_options(groups), starts, place)
    &&& starts[0] == 0
    &&& forall|u: int| 0 <= u < n ==> #[trigger] v.nodes[u].is_terminal == (u == starts[groups.len() as int])
    &&& forall|j: int| 0 <= j <= groups.len() ==> v.completed[#[trigger] starts[j]] == groups_chars(groups, j)
    &&& forall|u: int|
        0 <= u < n && (#[trigger] place[u]).inner ==> groups_chars(groups, place[u].group) <= v.completed[u]
            <= groups_chars(groups, place[u].group + 1)
}

/// Adds the states of one group: a fresh merge state (reached with `merge_value` characters
/// typed) and the spelling paths of `options` from `parent` to it. The chain then has one
/// more group, whose spellings are those of `options`.
fn add_group(
    nodes: &mut Vec<Node>,
    completed: &mut Vec<usize>,
    parent: usize,
    options: &Vec<BuildOption>,
    merge_value: usize,
    Ghost(opts): Ghost<Seq<Set<Seq<char>>>>,
    Ghost(starts): Ghost<Seq<int>>,
    Ghost(place): Ghost<Seq<Place>>,
) -> (r: (usize, Ghost<Seq<Place>>))
    requires
        graph_wf(old(nodes)@, old(completed)@),
        parent < old(nodes)@.len(),
        old(nodes)@[parent as int].transitions@.len() == 0,
        forall|x: int| 0 <= x < old(nodes)@.len() ==> !(#[trigger] old(nodes)@[x]).is_terminal,
        old(completed)@[parent as int] <= merge_value,
        completed_within(old(completed)@, old(completed)@[parent as int] as nat),
        markers_bounded(view_seq(options@), (merge_value - old(completed)@[parent as int]) as nat),
        layered(view_seq(old(nodes)@), opts, starts, place),
        unique_labels(place),
        starts[opts.len() as int] == parent,
    ensures
        graph_wf(final(nodes)@, final(completed)@),
        r.0 == old(nodes)@.len(),
        r.0 < final(nodes)@.len(),
        final(nodes)@[r.0 as int].transitions@.len() == 0,
        forall|x: int| 0 <= x < final(nodes)@.len() ==> !(#[trigger] final(nodes)@[x]).is_terminal,
        final(completed)@[r.0 as int] == merge_value,
        completed_within(final(completed)@, merge_value as nat),
        layered(
            view_seq(final(nodes)@),
            opts.push(option_set(view_seq(options@))),
            starts.push(r.0 as int),
            r.1@,
        ),
        unique_labels(r.1@),
        forall|x: int| 0 <= x < old(nodes)@.len() ==> #[trigger] final(completed)@[x] == old(completed)@[x],
        forall|x: int| 0 <= x < old(nodes)@.len() ==> #[trigger] r.1@[x] == place[x],
        forall|x: int| r.0 < x < final(nodes)@.len() ==> (#[trigger] r.1@[x]).group == opts.len() && r.1@[x].inner,
        forall|x: int| r.0 < x < final(nodes)@.len() ==> old(completed)@[parent as int] <= #[trigger] final(completed)@[x],
{
    let merge = nodes.len();
    let ghost nv0 = view_seq(nodes@);
    push_node(nodes, completed, merge_value);
    proof {
        assert(nodes@.len() == nodes.len());
        lemma_add_start(nv0, opts, starts, place);
    }
    let ghost gstarts = starts.push(merge as int);
    let ghost mut gopts = opts.push(Set::<Seq<char>>::empty());
    let ghost mut pl = place.push(Place { group: (opts.len() + 1) as int, label: Seq::empty(), inner: false });
    assert(view_seq(nodes@) =~= nv0.push(empty_node())) by {
        assert(nodes@.last()@ == empty_node());
    }
    assert(unique_labels(pl)) by {
        assert forall|u: int, v: int|
            0 <= u < pl.len() && 0 <= v < pl.len() && (#[trigger] pl[u]).inner && (#[trigger] pl[v]).inner
                && pl[u].group == pl[v].group && pl[u].label == pl[v].label implies u == v by {
            assert(u < place.len() && v < place.len());
            assert(pl[u] == place[u] && pl[v] == place[v]);
        }
    }
    let ghost base = completed@[parent as int];
    assert(nodes@[parent as int].transitions@.len() == 0);
    assert(option_set(view_seq(options@).take(0)) =~= Set::<Seq<char>>::empty());
    let mut o: usize = 0;
    while o < options.len()
        invariant
            graph_wf(nodes@, completed@),
            parent < merge < nodes@.len(),
            merge == old(nodes)@.len(),
            completed@[parent as int] == base,
            completed@[merge as int] == merge_value,
            base <= merge_value,
            markers_bounded(view_seq(options@), (merge_value - base) as nat),
            completed_within(completed@, merge_value as nat),
            group_closed(nodes@, parent as int, merge as int),
            nodes@[merge as int].transitions@.len() == 0,
            forall|x: int| 0 <= x < nodes@.len() ==> !(#[trigger] nodes@[x]).is_terminal,
            0 <= o <= options.len(),
            gstarts == starts.push(merge as int),
            starts[opts.len() as int] == parent,
            gopts == opts.push(option_set(view_seq(options@).take(o as int))),
            layered(view_seq(nodes@), gopts, gstarts, pl),
            unique_labels(pl),
            forall|x: int|
                0 <= x < old(nodes)@.len() ==> #[trigger] completed@[x] == old(completed)@[x],
            forall|x: int| 0 <= x < old(nodes)@.len() ==> #[trigger] pl[x] == place[x],
            forall|x: int| merge < x < nodes@.len() ==> (#[trigger] pl[x]).group == opts.len() && pl[x].inner,
            forall|x: int| merge < x < nodes@.len() ==> base <= #[trigger] completed@[x],
        decreases options.len() - o,
    {
        assert(marker_ok(options@[o as int]@, (merge_value - base) as nat)) by {
            assert(view_seq(options@)[o as int] == options@[o as int]@);
        }
        let Ghost(pl2) = insert_option(
            nodes,
            completed,
            parent,
            merge,
            &options[o],
            Ghost(gopts),
            Ghost(gstarts),
            Ghost(pl),
        );
        proof {
            let vs = view_seq(options@);
            let next = opts.push(option_set(vs.take(o + 1)));
            assert(option_set(vs.take(o + 1)) =~= option_set(vs.take(o as int)).insert(options@[o as int]@.romaji)) by {
                assert(vs[o as int] == options@[o as int]@);
                assert forall|s: Seq<char>| option_set(vs.take(o + 1)).contains(s) implies option_set(
                    vs.take(o as int),
                ).insert(options@[o as int]@.romaji).contains(s) by {
                    let i = choose|i: int| 0 <= i < vs.take(o + 1).len() && #[trigger] vs.take(o + 1)[i].romaji == s;
                    if i < o {
                        assert(vs.take(o as int)[i] == vs.take(o + 1)[i]);
                    }
                }
                assert forall|s: Seq<char>| option_set(vs.take(o as int)).insert(options@[o as int]@.romaji).contains(
                    s,
                ) implies option_set(vs.take(o + 1)).contains(s) by {
                    if s == options@[o as int]@.romaji {
                        assert(vs.take(o + 1)[o as int].romaji == s);
                    } else {
                        let i = choose|i: int| 0 <= i < vs.take(o as int).len() && #[trigger] vs.take(o as int)[i].romaji == s;
                        assert(vs.take(o + 1)[i] == vs.take(o as int)[i]);
                    }
                }
            }
            assert(gopts.update(opts.len() as int, gopts[opts.len() as int].insert(options@[o as int]@.romaji)) =~= next);
            gopts = next;
            pl = pl2;
        }
        o += 1;
    }
    assert(view_seq(options@).take(options.len() as int) =~= view_seq(options@));
    (merge, Ghost(pl))
}


/// The value of a state: its transitions and whether it is terminal.
pub struct NodeView {
    pub transitions: Seq<(char, usize)>,
    pub is_terminal: bool,
}

impl View for Node {
    type V = NodeView;

    open spec fn view(&self) -> NodeView {
        NodeView { transitions: self.transitions@, is_terminal: self.is_terminal }
    }
}

/// The value of a [`TypingEngine`]: the automaton, the reading characters typed at each state,
/// the current states (in increasing order), the cached guide, and the reading.
pub struct EngineView {
    pub nodes: Seq<NodeView>,
    pub completed: Seq<usize>,
    pub states: Seq<usize>,
    pub guide: Seq<char>,
    pub reading: Seq<char>,
}

/// The current states are distinct states of the automaton, in increasing order, and there is
/// at least one.
pub open spec fn states_wf(states: Seq<usize>, n: nat) -> bool {
    &&& states.len() > 0
    &&& forall|i: int| 0 <= i < states.len() ==> #[trigger] states[i] < n
    &&& forall|i: int, j: int| 0 <= i < j < states.len() ==> #[trigger] states[i] < #[trigger] states[j]
}

/// The engine's value is consistent: a well-formed automaton and valid current states.
pub open spec fn engine_wf(v: EngineView) -> bool {
    &&& v.nodes.len() > 0
    &&& v.completed.len() == v.nodes.len()
    &&& forall|u: int, k: int|
        0 <= u < v.nodes.len() && 0 <= k < v.nodes[u].transitions.len() ==> (
        #[trigger] v.nodes[u].transitions[k]).1 < v.nodes.len()
    &&& states_wf(v.states, v.nodes.len())
}

/// The automaton has no dead end: from every state some keys still reach a terminal state.
pub open spec fn no_dead_ends(nodes: Seq<NodeView>) -> bool {
    forall|u: usize| u < nodes.len() ==> #[trigger] can_finish(nodes, u)
}

/// Whether one of the given states is terminal.
pub open spec fn any_terminal(nodes: Seq<NodeView>, states: Set<usize>) -> bool {
    exists|u: usize| states.contains(u) && u < nodes.len() && #[trigger] nodes[u as int].is_terminal
}

/// The states reached from `states` by the key `c`.
pub open spec fn step(nodes: Seq<NodeView>, states: Set<usize>, c: char) -> Set<usize> {
    Set::new(
        |v: usize|
            exists|u: usize, k: int|
                states.contains(u) && u < nodes.len() && 0 <= k < nodes[u as int].transitions.len()
                    && #[trigger] nodes[u as int].transitions[k] == (c, v),
    )
}

/// The answer to the key `c` in the states `s`: `AlreadyCompleted` when one of them is
/// terminal, `Rejected` when none has a transition for `c`, `Completed` when one of the states
/// reached is terminal, `Accepted` otherwise.
pub open spec fn answer_on(nodes: Seq<NodeView>, s: Set<usize>, c: char) -> EngineInputResult {
    if any_terminal(nodes, s) {
        EngineInputResult::AlreadyCompleted
    } else if step(nodes, s, c).is_empty() {
        EngineInputResult::Rejected
    } else if any_terminal(nodes, step(nodes, s, c)) {
        EngineInputResult::Completed
    } else {
        EngineInputResult::Accepted
    }
}

/// The reading can be spelled, and from the first state the automaton accepts exactly its
/// spellings.
#[verifier::opaque]
pub open spec fn accepts_spellings(nodes: Seq<NodeView>, reading: Seq<char>) -> bool {
    &&& reading_groups(reading) is Ok
    &&& forall|w: Seq<char>|
        completes(nodes, set![0usize], w) <==> spells_from(group_options(reading_groups(reading)->Ok_0), 0, w)
}

/// The answer to the key `c` after the keys `typed` by the spellings of `reading` alone:
/// `AlreadyCompleted` when `typed` spells the reading, `Completed` when `typed` and `c` do,
/// `Accepted` when they begin a spelling, `Rejected` otherwise.
pub open spec fn spelling_answer(reading: Seq<char>, typed: Seq<char>, c: char) -> EngineInputResult {
    let opts = group_options(reading_groups(reading)->Ok_0);
    if spells_from(opts, 0, typed) {
        EngineInputResult::AlreadyCompleted
    } else if spells_from(opts, 0, typed.push(c)) {
        EngineInputResult::Completed
    } else if exists|x: Seq<char>| spells_from(opts, 0, typed.push(c) + x) {
        EngineInputResult::Accepted
    } else {
        EngineInputResult::Rejected
    }
}

/// The engine for one reading.
pub struct TypingEngine {
    nodes: Vec<Node>,
    node_completed_chars: Vec<usize>,
    current_states: Vec<usize>,
    prev_states: Vec<usize>,
    cached_guide: String,
    reading_text: String,
}

impl View for TypingEngine {
    type V = EngineView;

    closed spec fn view(&self) -> EngineView {
        EngineView {
            nodes: view_seq(self.nodes@),
            completed: self.node_completed_chars@,
            states: self.current_states@,
            guide: self.cached_guide@,
            reading: self.reading_text@,
        }
    }
}

proof fn lemma_graph_view(nodes: Seq<Node>, completed: Seq<usize>)
    requires
        graph_wf(nodes, completed),
    ensures
        forall|u: int, k: int|
            0 <= u < view_seq(nodes).len() && 0 <= k < view_seq(nodes)[u].transitions.len() ==> (
            #[trigger] view_seq(nodes)[u].transitions[k]).1 < view_seq(nodes).len(),
{
    assert forall|u: int, k: int|
        0 <= u < view_seq(nodes).len() && 0 <= k < view_seq(nodes)[u].transitions.len() implies (
        #[trigger] view_seq(nodes)[u].transitions[k]).1 < view_seq(nodes).len() by {
        assert(view_seq(nodes)[u] == nodes[u]@);
        assert(nodes[u].transitions@[k] == view_seq(nodes)[u].transitions[k]);
    }
}

impl TypingEngine {
    /// The engine's invariant.
    pub closed spec fn wf(&self) -> bool {
        &&& engine_wf(self@)
        &&& is_shortest_completion(self@.nodes, Self::state_set(self@), self@.guide)
        &&& is_first_completion(self@.nodes, self@.states, self@.guide)
        &&& completed_within(self@.completed, self@.reading.len())
        &&& forall|u: int|
            0 <= u < self@.nodes.len() && (#[trigger] self@.nodes[u]).is_terminal ==> self@.completed[u]
                == self@.reading.len()
        &&& no_dead_ends(self@.nodes)
        &&& accepts_spellings(self@.nodes, self@.reading)
        &&& self.prev_states@ == self.current_states@
        &&& self.nodes@.len() == self.node_completed_chars@.len()
    }

    /// Builds the automaton of `input`. Fails with the message of the first group of units
    /// that cannot be spelled (see [`reading_groups`]).
    #[verifier::rlimit(50)]
    pub fn new(input: &str) -> (r: Result<Self, String>)
        ensures
            match r {
                Ok(engine) => {
                    &&& reading_groups(input@) is Ok
                    &&& engine.wf()
                    &&& engine@.states == seq![0usize]
                    &&& engine@.reading == input@
                    &&& exists|starts: Seq<int>, place: Seq<Place>|
                        #[trigger] built_from(engine@, reading_groups(input@)->Ok_0, starts, place)
                    &&& progress_range(engine@) == (0usize, 0usize)
                    &&& no_dead_ends(engine@.nodes)
                    &&& forall|w: Seq<char>|
                        !run(engine@.nodes, Self::state_set(engine@), w).is_empty() <==> exists|x: Seq<char>|
                            spells_from(group_options(reading_groups(input@)->Ok_0), 0, w + x)
                    &&& forall|w: Seq<char>|
                        completes(engine@.nodes, Self::state_set(engine@), w) <==> spells_from(
                            group_options(reading_groups(input@)->Ok_0),
                            0,
                            w,
                        )
                },
                Err(msg) => reading_groups(input@) == Err::<Seq<GroupSpec>, Seq<char>>(msg@),
            },
    {
        let chars = str_chars(input);
        let tokens = tokenize(&chars);
        let ghost tv = view_seq(tokens@);
        assert(chars@.len() == chars.len());
        assert(tv.len() == tokens@.len());
        proof {
            lemma_tokenize(input@);
            assert(tv.subrange(0, tv.len() as int) =~= tv);
            assert(tv.subrange(0, 0) =~= Seq::<Seq<char>>::empty());
        }
        let mut sokuon_token: Vec<char> = Vec::new();
        sokuon_token.push('っ');
        assert(sokuon_token@ =~= sokuon());
        let mut nodes: Vec<Node> = Vec::new();
        nodes.push(Node::empty());
        let mut completed: Vec<usize> = Vec::new();
        completed.push(0);
        let mut parent: usize = 0;
        let ghost mut done: Seq<GroupSpec> = Seq::empty();
        let ghost mut gopts: Seq<Set<Seq<char>>> = Seq::empty();
        let ghost mut gstarts: Seq<int> = seq![0int];
        let ghost mut gplace: Seq<Place> = seq![Place { group: 0, label: Seq::empty(), inner: false }];
        assert(view_seq(nodes@) =~= seq![empty_node()]) by {
            assert(nodes@[0]@ == empty_node());
        }
        assert(layered(view_seq(nodes@), gopts, gstarts, gplace));
        assert(group_options(done) =~= gopts);
        let mut i: usize = 0;
        assert(groups_from(tv, 0) == prepend_groups(done, groups_from(tv, 0))) by {
            match groups_from(tv, 0) {
                Ok(r) => assert(done + r =~= r),
                Err(e) => {},
            }
        }
        while i < tokens.len()
            invariant
                tv == view_seq(tokens@),
                tv == tokenize_spec(input@),
                chars_between(tv, 0, tv.len() as int) == input@.len(),
                input@.len() == chars@.len(),
                chars@.len() <= usize::MAX,
                tv.len() == tokens@.len(),
                sokuon_token@ == sokuon(),
                0 <= i <= tv.len(),
                graph_wf(nodes@, completed@),
                parent < nodes@.len(),
                nodes@[parent as int].transitions@.len() == 0,
                forall|x: int| 0 <= x < nodes@.len() ==> !(#[trigger] nodes@[x]).is_terminal,
                completed@[parent as int] == chars_between(tv, 0, i as int),
                completed_within(completed@, chars_between(tv, 0, i as int)),
                groups_from(tv, 0) == prepend_groups(done, groups_from(tv, i as int)),
                layered(view_seq(nodes@), gopts, gstarts, gplace),
                unique_labels(gplace),
                gopts == group_options(done),
                gstarts[0] == 0,
                gstarts[gopts.len() as int] == parent,
                forall|j: int| 0 <= j <= done.len() ==> completed@[#[trigger] gstarts[j]] == groups_chars(done, j),
                forall|u: int|
                    0 <= u < nodes@.len() && (#[trigger] gplace[u]).inner ==> groups_chars(done, gplace[u].group)
                        <= completed@[u] <= groups_chars(done, gplace[u].group + 1),
            decreases tv.len() - i,
        {
            let (options, consumed) = match next_group(&tokens, i, &sokuon_token) {
                Ok(g) => g,
                Err(e) => return Err(e),
            };
            let ghost group = GroupSpec {
                options: view_seq(options@),
                chars: chars_between(tv, i as int, i + consumed),
            };
            let consumed_chars = count_chars(&tokens, i, i + consumed);
            proof {
                lemma_chars_between_split(tv, 0, i as int, i + consumed);
                lemma_chars_between_split(tv, 0, i + consumed, tv.len() as int);
            }
            let merge_value = completed[parent] + consumed_chars;
            let ghost old_completed = completed@;
            let ghost old_len = nodes@.len();
            let (merge, Ghost(pl2)) = add_group(
                &mut nodes,
                &mut completed,
                parent,
                &options,
                merge_value,
                Ghost(gopts),
                Ghost(gstarts),
                Ghost(gplace),
            );
            proof {
                let old_done = done;
                let k = old_done.len() as int;
                assert(gopts.len() == k);
                done = done + seq![group];
                assert(groups_chars(done, k + 1) == groups_chars(old_done, k) + group.chars) by {
                    lemma_groups_chars_push(old_done, group, k);
                    assert(done[k] == group);
                }
                assert(completed@[merge as int] == groups_chars(done, k + 1));
                assert forall|j: int| 0 <= j <= done.len() implies completed@[#[trigger] gstarts.push(
                    merge as int,
                )[j]] == groups_chars(done, j) by {
                    if j <= k {
                        lemma_groups_chars_push(old_done, group, j);
                        assert(gstarts.push(merge as int)[j] == gstarts[j]);
                        assert(0 <= gstarts[j] < old_len);
                    }
                }
                assert forall|u: int|
                    0 <= u < nodes@.len() && (#[trigger] pl2[u]).inner implies groups_chars(done, pl2[u].group)
                        <= completed@[u] <= groups_chars(done, pl2[u].group + 1) by {
                    if u < old_len {
                        assert(pl2[u] == gplace[u]);
                        assert(completed@[u] == old_completed[u]);
                        let g = gplace[u].group;
                        assert(g < k);
                        lemma_groups_chars_push(old_done, group, g);
                        lemma_groups_chars_push(old_done, group, g + 1);
                    } else if u == merge {
                        assert(gstarts.push(merge as int)[k + 1] == merge);
                    } else {
                        assert(pl2[u].group == k);
                        lemma_groups_chars_push(old_done, group, k);
                        assert(completed@[u] <= merge_value);
                    }
                }
                assert(group_options(done) =~= gopts.push(option_set(view_seq(options@))));
                gopts = gopts.push(option_set(view_seq(options@)));
                gstarts = gstarts.push(merge as int);
                gplace = pl2;
                match groups_from(tv, i + consumed) {
                    Ok(r) => {
                        assert(done + r =~= old_done + (seq![group] + r));
                    },
                    Err(e) => {},
                }
            }
            parent = merge;
            i = i + consumed;
        }
        assert(completed_within(completed@, input@.len()));
        proof {
            reveal(groups_from);
            assert(groups_from(tv, i as int) == Ok::<Seq<GroupSpec>, Seq<char>>(Seq::empty()));
            assert(done + Seq::<GroupSpec>::empty() =~= done);
        }
        let ghost nodes_open = nodes@;
        nodes[parent].is_terminal = true;
        proof {
            lemma_graph_view(nodes@, completed@);
            let nv = view_seq(nodes@);
            let nv_open = view_seq(nodes_open);
            assert forall|u: int| 0 <= u < nv_open.len() implies #[trigger] nv[u].transitions == nv_open[u].transitions by {
                assert(nv[u] == nodes@[u]@);
                assert(nv_open[u] == nodes_open[u]@);
            }
            lemma_layered_same_edges(nv_open, nv, gopts, gstarts, gplace);
            assert forall|u: int| 0 <= u < nv.len() implies #[trigger] nv[u].is_terminal == (u == parent) by {
                assert(nv[u] == nodes@[u]@);
                if u != parent {
                    assert(nodes@[u] == nodes_open[u]);
                }
            }
            lemma_engine_language(nv, gopts, gstarts, gplace);
            assert(done == reading_groups(input@)->Ok_0);
            assert(completed@[parent as int] == input@.len());
            lemma_groups_spelled(tv, 0);
            assert forall|g: int| 0 <= g < gopts.len() implies #[trigger] has_spelling(gopts, g) by {
                let og = done[g].options;
                assert(spelled_builds(og));
                assert(gopts[g] == option_set(og));
                assert(option_set(og).contains(og[0].romaji));
            }
            lemma_chain_live(nv, gopts, gstarts, gplace);
        }
        let mut states: Vec<usize> = Vec::new();
        states.push(0);
        let mut prev: Vec<usize> = Vec::new();
        prev.push(0);
        let reading_text = input.to_owned();
        let mut engine = TypingEngine {
            nodes,
            node_completed_chars: completed,
            current_states: states,
            prev_states: prev,
            cached_guide: String::new(),
            reading_text,
        };
        engine.cached_guide = engine.compute_guide();
        proof {
            let nv = view_seq(engine.nodes@);
            assert(nv == engine@.nodes);
            assert(engine@.completed == completed@);
            assert(layered(engine@.nodes, group_options(done), gstarts, gplace));
            assert(forall|u: int| 0 <= u < engine@.nodes.len() ==> #[trigger] engine@.nodes[u].is_terminal == (u == gstarts[done.len() as int]));
            assert(forall|j: int| 0 <= j <= done.len() ==> engine@.completed[#[trigger] gstarts[j]] == groups_chars(done, j));
            assert(built_from(engine@, done, gstarts, gplace));
            assert(no_dead_ends(engine@.nodes));
            lemma_graph_view(engine.nodes@, engine.node_completed_chars@);
            assert forall|w: Seq<char>|
                !run(engine@.nodes, set![0usize], w).is_empty() <==> exists|x: Seq<char>| spells_from(
                    group_options(done),
                    0,
                    w + x,
                ) by {
                lemma_live_run(engine@.nodes, set![0usize], w);
                if exists|x: Seq<char>| completes(engine@.nodes, set![0usize], w + x) {
                    let x = choose|x: Seq<char>| completes(engine@.nodes, set![0usize], w + x);
                    assert(spells_from(group_options(done), 0, w + x));
                }
                if exists|x: Seq<char>| spells_from(group_options(done), 0, w + x) {
                    let x = choose|x: Seq<char>| spells_from(group_options(done), 0, w + x);
                    assert(completes(engine@.nodes, set![0usize], w + x));
                }
            }
            assert(engine@.completed[0] == 0) by {
                assert(gstarts[0] == 0);
                assert(engine@.completed[gstarts[0]] == groups_chars(done, 0));
            }
            assert(engine@.states.drop_last() =~= Seq::<usize>::empty());
            assert(engine@.states.last() == 0);
            assert(progress_min(engine@.completed, engine@.states) == 0);
            assert(progress_max(engine@.completed, engine@.states) == 0) by {
                reveal_with_fuel(progress_max, 2);
            }
            assert forall|u: int| 0 <= u < engine@.nodes.len() && (#[trigger] engine@.nodes[u]).is_terminal implies engine@.completed[u]
                == engine@.reading.len() by {
                assert(nv[u].is_terminal == (u == parent));
            }
        }
        assert(Self::state_set(engine@) =~= set![0usize]) by {
            assert(engine@.states == seq![0usize]);
            assert(seq![0usize][0] == 0);
        }
        assert(accepts_spellings(engine@.nodes, engine@.reading)) by {
            reveal(accepts_spellings);
        }
        Ok(engine)
    }

    /// The states that the engine is in, as a set.
    pub open spec fn state_set(v: EngineView) -> Set<usize> {
        v.states.to_set()
    }

    /// The answer to the key `c` in the state `v` (see [`TypingEngine::input`]).
    pub open spec fn answer(v: EngineView, c: char) -> EngineInputResult {
        answer_on(v.nodes, Self::state_set(v), c)
    }

    /// Follows the key `c` from every current state. The answer is `AlreadyCompleted` when a
    /// current state is terminal, `Rejected` when no current state has a transition for `c`
    /// (the engine is then unchanged); otherwise the current states become those reached, and
    /// the answer is `Completed` when one of them is terminal, `Accepted` when none is.
    #[verifier::rlimit(60)]
    #[verifier::spinoff_prover]
    pub fn input(&mut self, c: char) -> (r: EngineInputResult)
        requires
            old(self).wf(),
        ensures
            final(self).wf(),
            final(self)@.nodes == old(self)@.nodes,
            final(self)@.completed == old(self)@.completed,
            final(self)@.reading == old(self)@.reading,
            r == Self::answer(old(self)@, c),
            r == EngineInputResult::Completed && final(self)@.reading.len() < usize::MAX ==> progress_range(
                final(self)@,
            ).1 == final(self)@.reading.len(),
            any_terminal(old(self)@.nodes, Self::state_set(old(self)@)) ==> r
                == EngineInputResult::AlreadyCompleted && final(self)@ == old(self)@,
            !any_terminal(old(self)@.nodes, Self::state_set(old(self)@)) && step(
                old(self)@.nodes,
                Self::state_set(old(self)@),
                c,
            ).is_empty() ==> r == EngineInputResult::Rejected && final(self)@ == old(self)@,
            !any_terminal(old(self)@.nodes, Self::state_set(old(self)@)) && !step(
                old(self)@.nodes,
                Self::state_set(old(self)@),
                c,
            ).is_empty() ==> {
                &&& Self::state_set(final(self)@) == step(
                    old(self)@.nodes,
                    Self::state_set(old(self)@),
                    c,
                )
                &&& (r == EngineInputResult::Completed) == any_terminal(
                    old(self)@.nodes,
                    Self::state_set(final(self)@),
                )
                &&& (r == EngineInputResult::Accepted) == !any_terminal(
                    old(self)@.nodes,
                    Self::state_set(final(self)@),
                )
            },
    {
        let ghost nv = self@.nodes;
        let ghost s = Self::state_set(self@);
        if self.any_current_terminal() {
            return EngineInputResult::AlreadyCompleted;
        }
        let next_states = self.step_states(c);
        if next_states.len() == 0 {
            assert(step(nv, s, c).is_empty()) by {
                if !step(nv, s, c).is_empty() {
                    let v = step(nv, s, c).choose();
                    assert(step(nv, s, c).contains(v));
                    assert(next_states@.to_set().contains(v));
                    assert(next_states@.contains(v));
                }
            }
            return EngineInputResult::Rejected;
        }
        assert(!step(nv, s, c).is_empty()) by {
            assert(next_states@.to_set().contains(next_states@[0]));
        }
        let same = states_equal(&next_states, &self.prev_states);
        self.current_states = next_states;
        if !same {
            self.cached_guide = self.compute_guide();
            self.prev_states = copy_states(&self.current_states);
        } else {
            assert(self.prev_states@ =~= self.current_states@);
        }
        if self.any_current_terminal() {
            proof {
                if self@.reading.len() < usize::MAX {
                    lemma_complete_progress(*self);
                }
            }
            EngineInputResult::Completed
        } else {
            EngineInputResult::Accepted
        }
    }

    /// Whether one of the current states is terminal.
    fn any_current_terminal(&self) -> (r: bool)
        requires
            self.wf(),
        ensures
            r == any_terminal(self@.nodes, Self::state_set(self@)),
    {
        let ghost nv = self@.nodes;
        let ghost s = Self::state_set(self@);
        let mut i: usize = 0;
        while i < self.current_states.len()
            invariant
                self.wf(),
                nv == self@.nodes,
                s == Self::state_set(self@),
                0 <= i <= self.current_states@.len(),
                forall|j: int| 0 <= j < i ==> !nv[#[trigger] self.current_states@[j] as int].is_terminal,
            decreases self.current_states@.len() - i,
        {
            let u = self.current_states[i];
            assert(u < self.nodes@.len());
            assert(nv[u as int] == self.nodes@[u as int]@);
            if self.nodes[u].is_terminal {
                assert(self.current_states@[i as int] == u);
                assert(self.current_states@.contains(u));
                assert(s.contains(u));
                assert(nv[u as int].is_terminal);
                return true;
            }
            i += 1;
        }
        assert(!any_terminal(nv, s)) by {
            if any_terminal(nv, s) {
                let u = choose|u: usize| s.contains(u) && u < nv.len() && #[trigger] nv[u as int].is_terminal;
                let j = choose|j: int| 0 <= j < self.current_states@.len() && self.current_states@[j] == u;
                assert(!nv[self.current_states@[j] as int].is_terminal);
            }
        }
        false
    }

    /// The states reached from the current states by the key `c`, in increasing order.
    fn step_states(&self, c: char) -> (r: Vec<usize>)
        requires
            self.wf(),
        ensures
            r@.to_set() == step(self@.nodes, Self::state_set(self@), c),
            forall|i: int| 0 <= i < r@.len() ==> #[trigger] r@[i] < self@.nodes.len(),
            forall|i: int, j: int| 0 <= i < j < r@.len() ==> #[trigger] r@[i] < #[trigger] r@[j],
    {
        let ghost nv = self@.nodes;
        let ghost s = Self::state_set(self@);
        let n = self.nodes.len();
        let mut marks: Vec<bool> = Vec::new();
        let mut x: usize = 0;
        while x < n
            invariant
                n == self.nodes@.len(),
                0 <= x <= n,
                marks@.len() == x,
                forall|v: int| 0 <= v < x ==> !marks@[v],
            decreases n - x,
        {
            marks.push(false);
            x += 1;
        }
        let mut i: usize = 0;
        while i < self.current_states.len()
            invariant
                self.wf(),
                nv == self@.nodes,
                s == Self::state_set(self@),
                n == nv.len(),
                marks@.len() == n,
                0 <= i <= self.current_states@.len(),
                forall|v: int|
                    0 <= v < n ==> (#[trigger] marks@[v] <==> exists|j: int, k: int|
                        0 <= j < i && 0 <= k < nv[self.current_states@[j] as int].transitions.len()
                            && nv[self.current_states@[j] as int].transitions[k] == (c, v as usize)),
            decreases self.current_states@.len() - i,
        {
            let u = self.current_states[i];
            assert(nv[u as int] == self.nodes@[u as int]@);
            let mut k: usize = 0;
            while k < self.nodes[u].transitions.len()
                invariant
                    self.wf(),
                    nv == self@.nodes,
                    n == nv.len(),
                    marks@.len() == n,
                    0 <= i < self.current_states@.len(),
                    u == self.current_states@[i as int],
                    u < n,
                    nv[u as int] == self.nodes@[u as int]@,
                    0 <= k <= nv[u as int].transitions.len(),
                    forall|v: int|
                        0 <= v < n ==> (#[trigger] marks@[v] <==> (exists|j: int, q: int|
                            0 <= j < i && 0 <= q < nv[self.current_states@[j] as int].transitions.len()
                                && nv[self.current_states@[j] as int].transitions[q] == (c, v as usize))
                            || (exists|q: int|
                            0 <= q < k && nv[u as int].transitions[q] == (c, v as usize))),
                decreases nv[u as int].transitions.len() - k,
            {
                let (ch, target) = self.nodes[u].transitions[k];
                assert(nv[u as int].transitions[k as int] == (ch, target));
                assert(target < n);
                if ch == c {
                    marks.set(target, true);
                }
                k += 1;
            }
            i += 1;
        }
        let mut r: Vec<usize> = Vec::new();
        let mut v: usize = 0;
        while v < n
            invariant
                n == nv.len(),
                marks@.len() == n,
                0 <= v <= n,
                forall|q: int| 0 <= q < r@.len() ==> #[trigger] r@[q] < v,
                forall|a: int, b: int| 0 <= a < b < r@.len() ==> #[trigger] r@[a] < #[trigger] r@[b],
                forall|w: int| 0 <= w < v ==> (marks@[w] <==> r@.contains(w as usize)),
            decreases n - v,
        {
            let ghost before = r@;
            if marks[v] {
                r.push(v);
                assert forall|w: int| 0 <= w < v + 1 implies (marks@[w] <==> r@.contains(w as usize)) by {
                    if w < v {
                        if before.contains(w as usize) {
                            let q = choose|q: int| 0 <= q < before.len() && before[q] == w as usize;
                            assert(r@[q] == w as usize);
                        }
                        if r@.contains(w as usize) {
                            let q = choose|q: int| 0 <= q < r@.len() && r@[q] == w as usize;
                            if q < before.len() {
                                assert(before[q] == w as usize);
                            }
                        }
                    } else {
                        assert(r@[r@.len() - 1] == v);
                    }
                }
            } else {
                assert forall|w: int| 0 <= w < v + 1 implies (marks@[w] <==> r@.contains(w as usize)) by {
                    if w == v {
                        if r@.contains(w as usize) {
                            let q = choose|q: int| 0 <= q < r@.len() && r@[q] == w as usize;
                            assert(r@[q] < v);
                        }
                    }
                }
            }
            v += 1;
        }
        assert(r@.to_set() =~= step(nv, s, c)) by {
            assert forall|w: usize| r@.to_set().contains(w) implies step(nv, s, c).contains(w) by {
                assert(r@.contains(w));
                let q = choose|q: int| 0 <= q < r@.len() && r@[q] == w;
                assert(r@[q] < n);
                assert(marks@[w as int]);
                let (j, kk) = choose|j: int, kk: int|
                    0 <= j < self.current_states@.len() && 0 <= kk < nv[self.current_states@[j] as int].transitions.len()
                        && nv[self.current_states@[j] as int].transitions[kk] == (c, w);
                let u = self.current_states@[j];
                assert(s.contains(u));
                assert(nv[u as int].transitions[kk] == (c, w));
            }
            assert forall|w: usize| step(nv, s, c).contains(w) implies r@.to_set().contains(w) by {
                let (u, kk) = choose|u: usize, kk: int|
                    s.contains(u) && u < nv.len() && 0 <= kk < nv[u as int].transitions.len()
                        && #[trigger] nv[u as int].transitions[kk] == (c, w);
                let j = choose|j: int| 0 <= j < self.current_states@.len() && self.current_states@[j] == u;
                assert(w < n);
                assert(marks@[w as int]);
            }
        }
        r
    }


    /// The guide: the keys still to type along a shortest way to the end of the reading; among
    /// the shortest, the one through the earliest current state and the earliest transitions.
    pub fn guide(&self) -> (r: &str)
        requires
            self.wf(),
        ensures
            r@ == self@.guide,
            is_shortest_completion(self@.nodes, Self::state_set(self@), r@),
            is_first_completion(self@.nodes, self@.states, r@),
    {
        self.cached_guide.as_str()
    }

    /// The number of reading characters typed for certain: the least count over the current
    /// states.
    pub fn completed_char_count(&self) -> (r: usize)
        requires
            self.wf(),
        ensures
            r == progress_range(self@).0,
    {
        self.completed_char_range().0
    }

    /// The number of reading characters typed at best: the greatest count over the current
    /// states.
    pub fn furthest_completed_char_count(&self) -> (r: usize)
        requires
            self.wf(),
        ensures
            r == progress_range(self@).1,
    {
        self.completed_char_range().1
    }

    /// The least and the greatest number of reading characters typed over the current states.
    pub fn completed_char_range(&self) -> (r: (usize, usize))
        requires
            self.wf(),
        ensures
            r == progress_range(self@),
            r.0 <= r.1 <= self@.reading.len(),
    {
        proof {
            lemma_progress_range_bounds(*self);
        }
        let ghost v = self@;
        let mut min = usize::MAX;
        let mut max: usize = 0;
        let mut i: usize = 0;
        while i < self.current_states.len()
            invariant
                self.wf(),
                v == self@,
                0 <= i <= v.states.len(),
                min == progress_min(v.completed, v.states.take(i as int)),
                max == progress_max(v.completed, v.states.take(i as int)),
            decreases v.states.len() - i,
        {
            let state = self.current_states[i];
            assert(state < v.completed.len());
            let completed = self.node_completed_chars[state];
            assert(v.states.take(i + 1).drop_last() =~= v.states.take(i as int));
            assert(v.states.take(i + 1).last() == state);
            if completed < min {
                min = completed;
            }
            if completed > max {
                max = completed;
            }
            i += 1;
        }
        assert(v.states.take(i as int) =~= v.states);
        if min == usize::MAX {
            (0, 0)
        } else {
            (min, max)
        }
    }

    /// The part of the reading typed for certain.
    pub fn completed_reading(&self) -> (r: &str)
        requires
            self.wf(),
        ensures
            r@ == char_prefix(self@.reading, progress_range(self@).0 as nat),
    {
        let completed = self.completed_char_count();
        char_prefix_of(self.reading_text.as_str(), completed)
    }

    /// The part of the reading typed at best.
    pub fn furthest_completed_reading(&self) -> (r: &str)
        requires
            self.wf(),
        ensures
            r@ == char_prefix(self@.reading, progress_range(self@).1 as nat),
    {
        let completed = self.furthest_completed_char_count();
        char_prefix_of(self.reading_text.as_str(), completed)
    }
    /// The guide from the current states.
    fn compute_guide(&self) -> (g: String)
        requires
            engine_wf(self@),
        ensures
            is_shortest_completion(self@.nodes, Self::state_set(self@), g@),
            is_first_completion(self@.nodes, self@.states, g@),
    {
        shortest_completion(&self.nodes, &self.current_states)
    }
}

/// The least count is at most the greatest, and both are at most `bound` when every count is.
pub proof fn lemma_progress_bounds(completed: Seq<usize>, states: Seq<usize>, bound: nat)
    requires
        states.len() > 0,
        forall|i: int| 0 <= i < states.len() ==> #[trigger] states[i] < completed.len(),
        completed_within(completed, bound),
    ensures
        progress_min(completed, states) <= progress_max(completed, states) <= bound,
    decreases states.len(),
{
    let last = states.last();
    assert(completed[last as int] <= bound);
    if states.len() == 1 {
        assert(states.drop_last().len() == 0);
        assert(progress_min(completed, states.drop_last()) == usize::MAX);
        assert(progress_max(completed, states.drop_last()) == 0);
    } else {
        let rest = states.drop_last();
        assert forall|i: int| 0 <= i < rest.len() implies #[trigger] rest[i] < completed.len() by {
            assert(rest[i] == states[i]);
        }
        lemma_progress_bounds(completed, rest, bound);
    }
}

/// The typed part of the reading: at least as much is typed at best as for certain, and never
/// more than the whole reading.
pub proof fn lemma_progress_range_bounds(engine: TypingEngine)
    requires
        engine.wf(),
    ensures
        progress_range(engine@).0 <= progress_range(engine@).1 <= engine@.reading.len(),
{
    let v = engine@;
    lemma_progress_bounds(v.completed, v.states, v.reading.len());
    assert(v.completed[v.states.last() as int] <= v.reading.len());
}

/// Typing from states of the automaton reaches states of the automaton.
proof fn lemma_run_in_range(nodes: Seq<NodeView>, states: Set<usize>, w: Seq<char>)
    requires
        edges_in_range(nodes),
        forall|u: usize| #[trigger] states.contains(u) ==> u < nodes.len(),
    ensures
        forall|v: usize| #[trigger] run(nodes, states, w).contains(v) ==> v < nodes.len(),
    decreases w.len(),
{
    if w.len() > 0 {
        let s2 = step(nodes, states, w[0]);
        assert forall|v: usize| #[trigger] s2.contains(v) implies v < nodes.len() by {
            let (u, k) = choose|u: usize, k: int|
                states.contains(u) && u < nodes.len() && 0 <= k < nodes[u as int].transitions.len()
                    && #[trigger] nodes[u as int].transitions[k] == (w[0], v);
            assert(nodes[u as int].transitions[k].1 == v);
        }
        lemma_run_in_range(nodes, s2, w.drop_first());
        assert(run(nodes, states, w) == run(nodes, s2, w.drop_first()));
    } else {
        assert(run(nodes, states, w) == states);
    }
}

/// Without dead ends, keys reach some state exactly when some further keys complete them.
pub proof fn lemma_live_run(nodes: Seq<NodeView>, states: Set<usize>, w: Seq<char>)
    requires
        no_dead_ends(nodes),
        edges_in_range(nodes),
        forall|u: usize| #[trigger] states.contains(u) ==> u < nodes.len(),
    ensures
        !run(nodes, states, w).is_empty() <==> exists|x: Seq<char>| completes(nodes, states, w + x),
{
    lemma_run_in_range(nodes, states, w);
    let r = run(nodes, states, w);
    if !r.is_empty() {
        let v = choose|v: usize| r.contains(v);
        assert(r.contains(v)) by {
            if !(exists|v: usize| r.contains(v)) {
                assert(r =~= Set::<usize>::empty());
            }
        }
        assert(can_finish(nodes, v));
        let x = choose|x: Seq<char>| #[trigger] completes(nodes, set![v], x);
        lemma_run_concat(nodes, states, w, x);
        assert(set![v].subset_of(r));
        lemma_run_mono(nodes, set![v], r, x);
        let t = choose|t: usize|
            run(nodes, set![v], x).contains(t) && t < nodes.len() && #[trigger] nodes[t as int].is_terminal;
        assert(run(nodes, states, w + x).contains(t));
        assert(completes(nodes, states, w + x));
    } else {
        assert forall|x: Seq<char>| !completes(nodes, states, w + x) by {
            lemma_run_concat(nodes, states, w, x);
            lemma_run_none(nodes, x);
            assert(r == Set::<usize>::empty());
        }
    }
}

/// A key is refused exactly when the reading is not complete yet and no keys that begin with
/// it lead on to the end of the reading.
pub proof fn lemma_rejected_iff_dead_end(engine: TypingEngine, c: char)
    requires
        engine.wf(),
    ensures
        (TypingEngine::answer(engine@, c) == EngineInputResult::Rejected) <==> (!any_terminal(
            engine@.nodes,
            TypingEngine::state_set(engine@),
        ) && forall|x: Seq<char>| !completes(engine@.nodes, TypingEngine::state_set(engine@), seq![c] + x)),
{
    let v = engine@;
    let s = TypingEngine::state_set(v);
    assert forall|u: usize| #[trigger] s.contains(u) implies u < v.nodes.len() by {
        let i = choose|i: int| 0 <= i < v.states.len() && v.states[i] == u;
    }
    lemma_live_run(v.nodes, s, seq![c]);
    assert(seq![c].drop_first() =~= Seq::<char>::empty());
    assert(run(v.nodes, s, seq![c]) == step(v.nodes, s, c)) by {
        reveal_with_fuel(run, 2);
    }
}

/// The guide is empty exactly when the reading is complete.
pub proof fn lemma_guide_empty_iff_complete(engine: TypingEngine)
    requires
        engine.wf(),
    ensures
        (engine@.guide.len() == 0) <==> any_terminal(engine@.nodes, TypingEngine::state_set(engine@)),
{
    let v = engine@;
    let s = TypingEngine::state_set(v);
    assert forall|u: usize| #[trigger] s.contains(u) implies u < v.nodes.len() by {
        let i = choose|i: int| 0 <= i < v.states.len() && v.states[i] == u;
    }
    assert(run(v.nodes, s, Seq::<char>::empty()) == s);
    let u0 = v.states[0];
    assert(s.contains(u0));
    assert(can_finish(v.nodes, u0));
    let x = choose|x: Seq<char>| #[trigger] completes(v.nodes, set![u0], x);
    assert(set![u0].subset_of(s));
    lemma_run_mono(v.nodes, set![u0], s, x);
    let t = choose|t: usize| run(v.nodes, set![u0], x).contains(t) && t < v.nodes.len() && #[trigger] v.nodes[t as int].is_terminal;
    assert(completes(v.nodes, s, x));
    if any_terminal(v.nodes, s) {
        assert(completes(v.nodes, s, Seq::<char>::empty()));
    }
}

/// Typing `typed` then `c` reaches the states that `c` reaches from those `typed` reaches.
pub proof fn lemma_run_push(nodes: Seq<NodeView>, s: Set<usize>, typed: Seq<char>, c: char)
    ensures
        run(nodes, s, typed.push(c)) == step(nodes, run(nodes, s, typed), c),
{
    lemma_run_concat(nodes, s, typed, seq![c]);
    assert(typed + seq![c] =~= typed.push(c));
    assert(seq![c].drop_first() =~= Seq::<char>::empty());
    assert(run(nodes, run(nodes, s, typed), seq![c]) == step(nodes, run(nodes, s, typed), c)) by {
        reveal_with_fuel(run, 2);
    }
}

/// The engine answers by the reading's spellings alone: when its states are those that the
/// keys `typed` reach from the first state (as for a new engine with no key typed, and after
/// every key accepted, see [`lemma_run_push`]), the answer to `c` is `AlreadyCompleted` when
/// `typed` spells the reading, `Completed` when `typed` and `c` do, `Accepted` when they begin a
/// spelling, and `Rejected` otherwise.
pub proof fn lemma_answer_by_spellings(engine: TypingEngine, typed: Seq<char>, c: char)
    requires
        engine.wf(),
        TypingEngine::state_set(engine@) == run(engine@.nodes, set![0usize], typed),
    ensures
        TypingEngine::answer(engine@, c) == spelling_answer(engine@.reading, typed, c),
{
    reveal(accepts_spellings);
    let v = engine@;
    let nodes = v.nodes;
    let s0 = set![0usize];
    let s = TypingEngine::state_set(v);
    let opts = group_options(reading_groups(v.reading)->Ok_0);
    let tc = typed.push(c);
    assert forall|u: usize| #[trigger] s0.contains(u) implies u < nodes.len() by {}
    assert(completes(nodes, s0, typed) == spells_from(opts, 0, typed));
    assert(completes(nodes, s0, tc) == spells_from(opts, 0, tc));
    lemma_run_push(nodes, s0, typed, c);
    assert(step(nodes, s, c) == run(nodes, s0, tc));
    lemma_live_run(nodes, s0, tc);
    if exists|x: Seq<char>| completes(nodes, s0, tc + x) {
        let x = choose|x: Seq<char>| completes(nodes, s0, tc + x);
        assert(spells_from(opts, 0, tc + x));
    }
    if exists|x: Seq<char>| spells_from(opts, 0, tc + x) {
        let x = choose|x: Seq<char>| spells_from(opts, 0, tc + x);
        assert(completes(nodes, s0, tc + x));
    }
}

/// Typing the guide's keys one after another: every key but the last is accepted, and the last
/// completes the reading.
pub proof fn lemma_guide_feeds(engine: TypingEngine)
    requires
        engine.wf(),
        !any_terminal(engine@.nodes, TypingEngine::state_set(engine@)),
    ensures
        engine@.guide.len() > 0,
        forall|i: int|
            0 <= i < engine@.guide.len() ==> #[trigger] answer_on(
                engine@.nodes,
                run(engine@.nodes, TypingEngine::state_set(engine@), engine@.guide.take(i)),
                engine@.guide[i],
            ) == if i + 1 == engine@.guide.len() {
                EngineInputResult::Completed
            } else {
                EngineInputResult::Accepted
            },
{
    let v = engine@;
    let nodes = v.nodes;
    let s = TypingEngine::state_set(v);
    let g = v.guide;
    lemma_guide_empty_iff_complete(engine);
    let u0 = v.states[0];
    assert(s.contains(u0));
    assert(can_finish(nodes, u0));
    let x0 = choose|x: Seq<char>| #[trigger] completes(nodes, set![u0], x);
    assert(set![u0].subset_of(s));
    lemma_run_mono(nodes, set![u0], s, x0);
    let t0 = choose|t: usize| run(nodes, set![u0], x0).contains(t) && t < nodes.len() && #[trigger] nodes[t as int].is_terminal;
    assert(completes(nodes, s, x0));
    assert(completes(nodes, s, g));
    assert forall|i: int| 0 <= i < g.len() implies #[trigger] answer_on(nodes, run(nodes, s, g.take(i)), g[i]) == if i + 1 == g.len() {
        EngineInputResult::Completed
    } else {
        EngineInputResult::Accepted
    } by {
        let p = g.take(i);
        let p1 = g.take(i + 1);
        assert(p.push(g[i]) =~= p1);
        lemma_run_push(nodes, s, p, g[i]);
        if any_terminal(nodes, run(nodes, s, p)) {
            assert(completes(nodes, s, p));
            assert(false);
        }
        lemma_run_concat(nodes, s, p1, g.skip(i + 1));
        assert(p1 + g.skip(i + 1) =~= g);
        if run(nodes, s, p1).is_empty() {
            lemma_run_none(nodes, g.skip(i + 1));
            assert(run(nodes, s, p1) == Set::<usize>::empty());
            assert(run(nodes, s, g) == Set::<usize>::empty());
            assert(false);
        }
        if i + 1 == g.len() {
            assert(p1 =~= g);
        } else if any_terminal(nodes, run(nodes, s, p1)) {
            assert(completes(nodes, s, p1));
            assert(false);
        }
    }
}

/// Once the reading is complete, the whole reading counts as typed at best.
pub proof fn lemma_complete_progress(engine: TypingEngine)
    requires
        engine.wf(),
        any_terminal(engine@.nodes, TypingEngine::state_set(engine@)),
        engine@.reading.len() < usize::MAX,
    ensures
        progress_range(engine@).1 == engine@.reading.len(),
{
    let v = engine@;
    let s = TypingEngine::state_set(v);
    let t = choose|t: usize| s.contains(t) && t < v.nodes.len() && #[trigger] v.nodes[t as int].is_terminal;
    let i = choose|i: int| 0 <= i < v.states.len() && v.states[i] == t;
    assert(v.completed[t as int] == v.reading.len());
    lemma_progress_range_bounds(engine);
    lemma_progress_extremes(v.completed, v.states, i);
}

/// The least count is at most, and the greatest at least, the count of each state.
proof fn lemma_progress_extremes(completed: Seq<usize>, states: Seq<usize>, i: int)
    requires
        0 <= i < states.len(),
    ensures
        progress_min(completed, states) <= completed[states[i] as int] <= progress_max(completed, states),
    decreases states.len(),
{
    if i < states.len() - 1 {
        lemma_progress_extremes(completed, states.drop_last(), i);
        assert(states.drop_last()[i] == states[i]);
    }
}

/// The least count over the given states (`usize::MAX` for none).
pub open spec fn progress_min(completed: Seq<usize>, states: Seq<usize>) -> usize
    decreases states.len(),
{
    if states.len() == 0 {
        usize::MAX
    } else {
        let m = progress_min(completed, states.drop_last());
        let c = completed[states.last() as int];
        if c < m {
            c
        } else {
            m
        }
    }
}

/// The greatest count over the given states (0 for none).
pub open spec fn progress_max(completed: Seq<usize>, states: Seq<usize>) -> usize
    decreases states.len(),
{
    if states.len() == 0 {
        0
    } else {
        let m = progress_max(completed, states.drop_last());
        let c = completed[states.last() as int];
        if c > m {
            c
        } else {
            m
        }
    }
}

/// The least and the greatest number of reading characters typed over the current states;
/// `(0, 0)` when the least count is `usize::MAX`.
pub open spec fn progress_range(v: EngineView) -> (usize, usize) {
    let lo = progress_min(v.completed, v.states);
    if lo == usize::MAX {
        (0, 0)
    } else {
        (lo, progress_max(v.completed, v.states))
    }
}

/// Whether two increasing state lists are equal.
fn states_equal(a: &Vec<usize>, b: &Vec<usize>) -> (r: bool)
    ensures
        r == (a@ == b@),
{
    if a.len() != b.len() {
        return false;
    }
    let mut i: usize = 0;
    while i < a.len()
        invariant
            a.len() == b.len(),
            0 <= i <= a.len(),
            forall|j: int| 0 <= j < i ==> a@[j] == b@[j],
        decreases a.len() - i,
    {
        if a[i] != b[i] {
            return false;
        }
        i += 1;
    }
    assert(a@ =~= b@);
    true
}

/// A copy of a state list.
fn copy_states(a: &Vec<usize>) -> (r: Vec<usize>)
    ensures
        r@ == a@,
{
    let r = a.clone();
    assert(r@ =~= a@);
    r
}

} // verus!
