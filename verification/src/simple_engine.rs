//! The first typing engine: each character of the reading is typed with its preferred romaji
//! only, so the reading has exactly one spelling, followed key by key.
use vstd::prelude::*;

use crate::engine::Node;
use crate::options::sort_options;
use crate::result::EngineInputResult;
use crate::romaji_table::{romaji_table, romaji_table_get, RomajiOption};
use crate::seqs::{stable_sort, view_seq};

verus! {

/// Whether every character of `reading` is a single kana of the romaji table with at least
/// one spelling.
pub open spec fn spellable(reading: Seq<char>) -> bool {
    forall|i: int|
        0 <= i < reading.len() ==> #[trigger] romaji_table(seq![reading[i]]) is Some
            && romaji_table(seq![reading[i]])->Some_0.len() > 0
}

/// The preferred spelling of the kana `c`: the first of its options by priority (the earlier
/// one in the table among equal priorities).
pub open spec fn preferred_spelling(c: char) -> Seq<char> {
    sort_options(romaji_table(seq![c])->Some_0)[0].romaji
}

/// The one spelling of a reading: the preferred spellings of its characters, in order.
pub open spec fn single_spelling(reading: Seq<char>) -> Seq<char>
    decreases reading.len(),
{
    if reading.len() == 0 {
        Seq::empty()
    } else {
        single_spelling(reading.drop_last()) + preferred_spelling(reading.last())
    }
}

/// The value of the engine: the spelling to type and how many of its keys are typed.
pub struct SimpleView {
    pub spelling: Seq<char>,
    pub position: nat,
}

/// The position after typing `key`: one further when `key` is the next key of the spelling.
pub open spec fn next_position(v: SimpleView, key: char) -> nat {
    if v.position < v.spelling.len() && key == v.spelling[v.position as int] {
        v.position + 1
    } else {
        v.position
    }
}

/// The answer to `key`: `AlreadyCompleted` once the spelling is typed, `Rejected` for a key
/// that is not the next one, `Completed` for the last key, `Accepted` for another.
pub open spec fn input_answer(v: SimpleView, key: char) -> EngineInputResult {
    if v.position >= v.spelling.len() {
        EngineInputResult::AlreadyCompleted
    } else if key != v.spelling[v.position as int] {
        EngineInputResult::Rejected
    } else if v.position + 1 == v.spelling.len() {
        EngineInputResult::Completed
    } else {
        EngineInputResult::Accepted
    }
}

/// An engine that follows one fixed spelling.
pub struct TypingEngine {
    nodes: Vec<Node>,
    current_node: usize,
}

/// The states form a chain: state `j` leads to `j + 1` by the `j`-th key, and only the last
/// state is terminal.
spec fn chain(nodes: Seq<Node>) -> bool {
    &&& nodes.len() >= 1
    &&& forall|j: int|
        0 <= j < nodes.len() - 1 ==> (#[trigger] nodes[j]).transitions@.len() == 1
            && nodes[j].transitions@[0].1 == j + 1 && !nodes[j].is_terminal
    &&& nodes.last().transitions@.len() == 0
}

impl View for TypingEngine {
    type V = SimpleView;

    closed spec fn view(&self) -> SimpleView {
        SimpleView {
            spelling: Seq::new(
                (self.nodes@.len() - 1) as nat,
                |j: int| self.nodes@[j].transitions@[0].0,
            ),
            position: self.current_node as nat,
        }
    }
}

impl TypingEngine {
    /// The engine's invariant.
    pub closed spec fn wf(&self) -> bool {
        &&& chain(self.nodes@)
        &&& self.nodes@.last().is_terminal
        &&& self.current_node < self.nodes@.len()
    }

    /// The engine for `reading`, at the start of its single spelling. Every character of the
    /// reading must be a single kana of the romaji table.
    pub fn new(reading: &str) -> (r: TypingEngine)
        requires
            spellable(reading@),
        ensures
            r.wf(),
            r@.spelling == single_spelling(reading@),
            r@.position == 0,
    {
        let chars = crate::text::str_chars(reading);
        let ghost rv = reading@;
        let mut nodes: Vec<Node> = Vec::new();
        nodes.push(Node { transitions: Vec::new(), is_terminal: false });
        let mut prev: usize = 0;
        let mut i: usize = 0;
        while i < chars.len()
            invariant
                chars@ == rv,
                spellable(rv),
                0 <= i <= rv.len(),
                chain(nodes@),
                !nodes@.last().is_terminal,
                prev == nodes@.len() - 1,
                Seq::new((nodes@.len() - 1) as nat, |j: int| nodes@[j].transitions@[0].0) == single_spelling(
                    rv.take(i as int),
                ),
            decreases rv.len() - i,
        {
            let mut key: Vec<char> = Vec::new();
            key.push(chars[i]);
            assert(key@ =~= seq![rv[i as int]]);
            let options = match romaji_table_get(&key) {
                Some(o) => o,
                None => {
                    proof {
                        assert(romaji_table(seq![rv[i as int]]) is Some);
                    }
                    Vec::new()
                },
            };
            let sorted = stable_sort(&options);
            assert(sorted@.len() > 0);
            let romaji = &sorted[0].romaji;
            assert(romaji@ == preferred_spelling(rv[i as int])) by {
                assert(view_seq(sorted@)[0] == sorted@[0]@);
            }
            let ghost before = Seq::new((nodes@.len() - 1) as nat, |j: int| nodes@[j].transitions@[0].0);
            let mut k: usize = 0;
            while k < romaji.len()
                invariant
                    chain(nodes@),
                    !nodes@.last().is_terminal,
                    prev == nodes@.len() - 1,
                    0 <= k <= romaji@.len(),
                    Seq::new((nodes@.len() - 1) as nat, |j: int| nodes@[j].transitions@[0].0) == before
                        + romaji@.take(k as int),
                decreases romaji@.len() - k,
            {
                let next = nodes.len();
                let ghost old_nodes = nodes@;
                let ghost old_sp = Seq::new((old_nodes.len() - 1) as nat, |j: int| old_nodes[j].transitions@[0].0);
                nodes.push(Node { transitions: Vec::new(), is_terminal: false });
                nodes[prev].transitions.push((romaji[k], next));
                assert forall|j: int| 0 <= j < nodes@.len() - 1 implies (#[trigger] nodes@[j]).transitions@.len()
                    == 1 && nodes@[j].transitions@[0].1 == j + 1 && !nodes@[j].is_terminal by {
                    if j < prev {
                        assert(nodes@[j] == old_nodes[j]);
                    }
                }
                let ghost new_sp = Seq::new((nodes@.len() - 1) as nat, |j: int| nodes@[j].transitions@[0].0);
                assert(old_sp.len() == before.len() + k);
                assert(new_sp.len() == before.len() + k + 1);
                assert(new_sp =~= before + romaji@.take(k + 1)) by {
                    assert forall|j: int| 0 <= j < new_sp.len() implies new_sp[j] == (before + romaji@.take(
                        k + 1,
                    ))[j] by {
                        assert(old_sp == before + romaji@.take(k as int));
                        assert(old_sp.len() == before.len() + k);
                        if j < prev {
                            assert(nodes@[j] == old_nodes[j]);
                            assert(new_sp[j] == old_sp[j]);
                            assert(old_sp[j] == (before + romaji@.take(k as int))[j]);
                            if j >= before.len() {
                                assert(romaji@.take(k + 1)[j - before.len()] == romaji@.take(k as int)[j - before.len()]);
                            }
                        } else {
                            assert(nodes@[j].transitions@[0] == (romaji@[k as int], next));
                        }
                    }
                }
                prev = next;
                k += 1;
            }
            i += 1;
            assert(rv.take(i as int).drop_last() =~= rv.take(i - 1));
            assert(romaji@.take(romaji@.len() as int) =~= romaji@);
        }
        assert(rv.take(i as int) =~= rv);
        nodes[prev].is_terminal = true;
        let r = TypingEngine { nodes, current_node: 0 };
        assert(r@.spelling =~= single_spelling(rv));
        r
    }

    /// Types `key`: when it is the next key of the spelling the engine moves on and answers
    /// `Completed` after the last key, `Accepted` before; another key is `Rejected`; once the
    /// spelling is typed every key is `AlreadyCompleted`. Only an accepted key moves the engine.
    pub fn input(&mut self, key: char) -> (r: EngineInputResult)
        requires
            old(self).wf(),
        ensures
            final(self).wf(),
            final(self)@.spelling == old(self)@.spelling,
            final(self)@.position == next_position(old(self)@, key),
            r == input_answer(old(self)@, key),
    {
        let ghost n = self.nodes@.len();
        let ghost sp = self@.spelling;
        let cur = self.current_node;
        assert(cur < n - 1 ==> sp[cur as int] == self.nodes@[cur as int].transitions@[0].0);
        assert(cur < n - 1 ==> self.nodes@[cur as int].transitions@.len() == 1);
        let mut t: usize = 0;
        while t < self.nodes[cur].transitions.len()
            invariant
                self.wf(),
                cur == self.current_node,
                n == self.nodes@.len(),
                0 <= t <= self.nodes@[cur as int].transitions@.len(),
                forall|u: int| 0 <= u < t ==> self.nodes@[cur as int].transitions@[u].0 != key,
                sp == self@.spelling,
                sp == old(self)@.spelling,
                cur as nat == old(self)@.position,
                self.nodes@ == old(self).nodes@,
            decreases self.nodes@[cur as int].transitions@.len() - t,
        {
            let (input, target) = self.nodes[cur].transitions[t];
            if input == key {
                assert(t == 0);
                self.current_node = target;
                assert(self@.spelling =~= sp);
                if self.nodes[target].is_terminal {
                    return EngineInputResult::Completed;
                }
                return EngineInputResult::Accepted;
            }
            t += 1;
        }
        assert(self@.spelling =~= sp);
        if self.nodes[cur].is_terminal {
            EngineInputResult::AlreadyCompleted
        } else {
            EngineInputResult::Rejected
        }
    }
}

} // verus!
