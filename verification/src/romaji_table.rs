//! The romaji table: for each kana (or kana pair) the spellings a player may type.
use vstd::prelude::*;

use crate::seqs::{view_seq, Ranked};

verus! {

/// One way of typing a kana unit: the keys to press, and a priority (lower is preferred).
pub struct RomajiOption {
    pub romaji: Vec<char>,
    pub priority: u8,
}

/// The mathematical value of a [`RomajiOption`].
pub struct OptionSpec {
    pub romaji: Seq<char>,
    pub priority: u8,
}

pub open spec fn option_spec(romaji: Seq<char>, priority: u8) -> OptionSpec {
    OptionSpec { romaji, priority }
}

impl View for RomajiOption {
    type V = OptionSpec;

    open spec fn view(&self) -> OptionSpec {
        option_spec(self.romaji@, self.priority)
    }
}

/// The values of a sequence of options.
pub open spec fn options_view(v: Seq<RomajiOption>) -> Seq<OptionSpec> {
    view_seq(v)
}

/// The value of an optional list of options.
pub open spec fn options_opt_view(r: Option<Vec<RomajiOption>>) -> Option<Seq<OptionSpec>> {
    match r {
        Some(v) => Some(options_view(v@)),
        None => None,
    }
}

impl RomajiOption {
    /// An option whose keys are the characters of `romaji`.
    pub fn new(romaji: &str, priority: u8) -> (r: Self)
        ensures
            r@ == option_spec(romaji@, priority),
    {
        RomajiOption { romaji: crate::text::str_chars(romaji), priority }
    }

    /// An option whose keys are the characters of the owned string `romaji`.
    pub fn from_string(romaji: String, priority: u8) -> (r: Self)
        ensures
            r@ == option_spec(romaji@, priority),
    {
        RomajiOption { romaji: crate::text::str_chars(romaji.as_str()), priority }
    }
}

impl Ranked for RomajiOption {
    open spec fn rank(v: OptionSpec) -> u8 {
        v.priority
    }

    open spec fn spelling(v: OptionSpec) -> Seq<char> {
        v.romaji
    }

    fn priority_of(&self) -> (p: u8) {
        self.priority
    }

    fn spelling_of(&self) -> (s: &Vec<char>) {
        &self.romaji
    }

    fn duplicate(&self) -> (r: Self) {
        let romaji = self.romaji.clone();
        assert(romaji@ =~= self.romaji@);
        RomajiOption { romaji, priority: self.priority }
    }
}

/// The keys of the romaji table: single kana and kana pairs.
pub open spec fn romaji_table(key: Seq<char>) -> Option<Seq<OptionSpec>> {
    if key.len() == 1 {
        kana_table_single(key[0])
    } else if key.len() == 2 {
        kana_table_pair(key[0], key[1])
    } else {
        None
    }
}

/// The keys of the symbol table: single full-width symbols.
pub open spec fn symbol_table(key: Seq<char>) -> Option<Seq<OptionSpec>> {
    if key.len() == 1 {
        symbol_table_single(key[0])
    } else {
        None
    }
}

/// Looks `key` up in the romaji table.
pub fn romaji_table_get(key: &Vec<char>) -> (r: Option<Vec<RomajiOption>>)
    ensures
        options_opt_view(r) == romaji_table(key@),
{
    if key.len() == 1 {
        kana_table_single_lookup(key[0])
    } else if key.len() == 2 {
        kana_table_pair_lookup(key[0], key[1])
    } else {
        None
    }
}

/// Looks `key` up in the symbol table.
pub fn symbol_table_get(key: &Vec<char>) -> (r: Option<Vec<RomajiOption>>)
    ensures
        options_opt_view(r) == symbol_table(key@),
{
    if key.len() == 1 {
        symbol_table_single_lookup(key[0])
    } else {
        None
    }
}

fn option_of(romaji: Vec<char>, priority: u8) -> (o: RomajiOption)
    ensures
        o@ == option_spec(romaji@, priority),
{
    RomajiOption { romaji, priority }
}

fn chars1(a: char) -> (v: Vec<char>)
    ensures
        v@ == seq![a],
{
    let mut v = Vec::new();
    v.push(a);
    v
}

fn chars2(a: char, b: char) -> (v: Vec<char>)
    ensures
        v@ == seq![a, b],
{
    let mut v = Vec::new();
    v.push(a);
    v.push(b);
    v
}

fn chars3(a: char, b: char, c: char) -> (v: Vec<char>)
    ensures
        v@ == seq![a, b, c],
{
    let mut v = Vec::new();
    v.push(a);
    v.push(b);
    v.push(c);
    v
}

fn chars4(a: char, b: char, c: char, d: char) -> (v: Vec<char>)
    ensures
        v@ == seq![a, b, c, d],
{
    let mut v = Vec::new();
    v.push(a);
    v.push(b);
    v.push(c);
    v.push(d);
    v
}

fn list1(a: RomajiOption) -> (v: Vec<RomajiOption>)
    ensures
        options_view(v@) == seq![a@],
{
    let mut v = Vec::new();
    v.push(a);
    assert(options_view(v@) =~= seq![a@]);
    v
}

fn list2(a: RomajiOption, b: RomajiOption) -> (v: Vec<RomajiOption>)
    ensures
        options_view(v@) == seq![a@, b@],
{
    let mut v = Vec::new();
    v.push(a);
    v.push(b);
    assert(options_view(v@) =~= seq![a@, b@]);
    v
}

fn list3(a: RomajiOption, b: RomajiOption, c: RomajiOption) -> (v: Vec<RomajiOption>)
    ensures
        options_view(v@) == seq![a@, b@, c@],
{
    let mut v = Vec::new();
    v.push(a);
    v.push(b);
    v.push(c);
    assert(options_view(v@) =~= seq![a@, b@, c@]);
    v
}

fn list4(a: RomajiOption, b: RomajiOption, c: RomajiOption, d: RomajiOption) -> (v: Vec<RomajiOption>)
    ensures
        options_view(v@) == seq![a@, b@, c@, d@],
{
    let mut v = Vec::new();
    v.push(a);
    v.push(b);
    v.push(c);
    v.push(d);
    assert(options_view(v@) =~= seq![a@, b@, c@, d@]);
    v
}

/// The romaji spellings of the single kana in the romaji table, with their priorities (lower is preferred).
pub open spec fn kana_table_single(c: char) -> Option<Seq<OptionSpec>> {
    match c {
        'あ' => Some(seq![option_spec(seq!['a'], 0)]),
        'い' => Some(seq![option_spec(seq!['i'], 0)]),
        'う' => Some(seq![option_spec(seq!['u'], 0), option_spec(seq!['w', 'u'], 1), option_spec(seq!['w', 'h', 'u'], 2)]),
        'え' => Some(seq![option_spec(seq!['e'], 0)]),
        'お' => Some(seq![option_spec(seq!['o'], 0)]),
        'か' => Some(seq![option_spec(seq!['k', 'a'], 0), option_spec(seq!['c', 'a'], 1)]),
        'き' => Some(seq![option_spec(seq!['k', 'i'], 0)]),
        'く' => Some(seq![option_spec(seq!['k', 'u'], 0), option_spec(seq!['c', 'u'], 1), option_spec(seq!['q', 'u'], 2)]),
        'け' => Some(seq![option_spec(seq!['k', 'e'], 0)]),
        'こ' => Some(seq![option_spec(seq!['k', 'o'], 0), option_spec(seq!['c', 'o'], 1)]),
        'さ' => Some(seq![option_spec(seq!['s', 'a'], 0)]),
        'し' => Some(seq![option_spec(seq!['s', 'i'], 0), option_spec(seq!['s', 'h', 'i'], 1), option_spec(seq!['c', 'i'], 2)]),
        'す' => Some(seq![option_spec(seq!['s', 'u'], 0)]),
        'せ' => Some(seq![option_spec(seq!['s', 'e'], 0), option_spec(seq!['c', 'e'], 1)]),
        'そ' => Some(seq![option_spec(seq!['s', 'o'], 0)]),
        'た' => Some(seq![option_spec(seq!['t', 'a'], 0)]),
        'ち' => Some(seq![option_spec(seq!['t', 'i'], 0), option_spec(seq!['c', 'h', 'i'], 1)]),
        'つ' => Some(seq![option_spec(seq!['t', 'u'], 0), option_spec(seq!['t', 's', 'u'], 1)]),
        'て' => Some(seq![option_spec(seq!['t', 'e'], 0)]),
        'と' => Some(seq![option_spec(seq!['t', 'o'], 0)]),
        'な' => Some(seq![option_spec(seq!['n', 'a'], 0)]),
        'に' => Some(seq![option_spec(seq!['n', 'i'], 0)]),
        'ぬ' => Some(seq![option_spec(seq!['n', 'u'], 0)]),
        'ね' => Some(seq![option_spec(seq!['n', 'e'], 0)]),
        'の' => Some(seq![option_spec(seq!['n', 'o'], 0)]),
        'は' => Some(seq![option_spec(seq!['h', 'a'], 0)]),
        'ひ' => Some(seq![option_spec(seq!['h', 'i'], 0)]),
        'ふ' => Some(seq![option_spec(seq!['h', 'u'], 0), option_spec(seq!['f', 'u'], 1)]),
        'へ' => Some(seq![option_spec(seq!['h', 'e'], 0)]),
        'ほ' => Some(seq![option_spec(seq!['h', 'o'], 0)]),
        'ま' => Some(seq![option_spec(seq!['m', 'a'], 0)]),
        'み' => Some(seq![option_spec(seq!['m', 'i'], 0)]),
        'む' => Some(seq![option_spec(seq!['m', 'u'], 0)]),
        'め' => Some(seq![option_spec(seq!['m', 'e'], 0)]),
        'も' => Some(seq![option_spec(seq!['m', 'o'], 0)]),
        'や' => Some(seq![option_spec(seq!['y', 'a'], 0)]),
        'ゆ' => Some(seq![option_spec(seq!['y', 'u'], 0)]),
        'よ' => Some(seq![option_spec(seq!['y', 'o'], 0)]),
        'ら' => Some(seq![option_spec(seq!['r', 'a'], 0)]),
        'り' => Some(seq![option_spec(seq!['r', 'i'], 0)]),
        'る' => Some(seq![option_spec(seq!['r', 'u'], 0)]),
        'れ' => Some(seq![option_spec(seq!['r', 'e'], 0)]),
        'ろ' => Some(seq![option_spec(seq!['r', 'o'], 0)]),
        'わ' => Some(seq![option_spec(seq!['w', 'a'], 0)]),
        'ゐ' => Some(seq![option_spec(seq!['w', 'y', 'i'], 0)]),
        'ゑ' => Some(seq![option_spec(seq!['w', 'y', 'e'], 0)]),
        'を' => Some(seq![option_spec(seq!['w', 'o'], 0)]),
        'ん' => Some(seq![option_spec(seq!['n', 'n'], 1), option_spec(seq!['x', 'n'], 2), option_spec(seq!['n', '\''], 3)]),
        'が' => Some(seq![option_spec(seq!['g', 'a'], 0)]),
        'ぎ' => Some(seq![option_spec(seq!['g', 'i'], 0)]),
        'ぐ' => Some(seq![option_spec(seq!['g', 'u'], 0)]),
        'げ' => Some(seq![option_spec(seq!['g', 'e'], 0)]),
        'ご' => Some(seq![option_spec(seq!['g', 'o'], 0)]),
        'ざ' => Some(seq![option_spec(seq!['z', 'a'], 0)]),
        'じ' => Some(seq![option_spec(seq!['z', 'i'], 0), option_spec(seq!['j', 'i'], 1)]),
        'ず' => Some(seq![option_spec(seq!['z', 'u'], 0)]),
        'ぜ' => Some(seq![option_spec(seq!['z', 'e'], 0)]),
        'ぞ' => Some(seq![option_spec(seq!['z', 'o'], 0)]),
        'だ' => Some(seq![option_spec(seq!['d', 'a'], 0)]),
        'ぢ' => Some(seq![option_spec(seq!['d', 'i'], 0)]),
        'づ' => Some(seq![option_spec(seq!['d', 'u'], 0)]),
        'で' => Some(seq![option_spec(seq!['d', 'e'], 0)]),
        'ど' => Some(seq![option_spec(seq!['d', 'o'], 0)]),
        'ば' => Some(seq![option_spec(seq!['b', 'a'], 0)]),
        'び' => Some(seq![option_spec(seq!['b', 'i'], 0)]),
        'ぶ' => Some(seq![option_spec(seq!['b', 'u'], 0)]),
        'べ' => Some(seq![option_spec(seq!['b', 'e'], 0)]),
        'ぼ' => Some(seq![option_spec(seq!['b', 'o'], 0)]),
        'ぱ' => Some(seq![option_spec(seq!['p', 'a'], 0)]),
        'ぴ' => Some(seq![option_spec(seq!['p', 'i'], 0)]),
        'ぷ' => Some(seq![option_spec(seq!['p', 'u'], 0)]),
        'ぺ' => Some(seq![option_spec(seq!['p', 'e'], 0)]),
        'ぽ' => Some(seq![option_spec(seq!['p', 'o'], 0)]),
        'ぁ' => Some(seq![option_spec(seq!['x', 'a'], 0), option_spec(seq!['l', 'a'], 1)]),
        'ぃ' => Some(seq![option_spec(seq!['x', 'i'], 0), option_spec(seq!['l', 'i'], 1), option_spec(seq!['x', 'y', 'i'], 2), option_spec(seq!['l', 'y', 'i'], 3)]),
        'ぅ' => Some(seq![option_spec(seq!['x', 'u'], 0), option_spec(seq!['l', 'u'], 1)]),
        'ぇ' => Some(seq![option_spec(seq!['x', 'e'], 0), option_spec(seq!['l', 'e'], 1), option_spec(seq!['x', 'y', 'e'], 2), option_spec(seq!['l', 'y', 'e'], 3)]),
        'ぉ' => Some(seq![option_spec(seq!['x', 'o'], 0), option_spec(seq!['l', 'o'], 1)]),
        'ゃ' => Some(seq![option_spec(seq!['x', 'y', 'a'], 0), option_spec(seq!['l', 'y', 'a'], 1)]),
        'ゅ' => Some(seq![option_spec(seq!['x', 'y', 'u'], 0), option_spec(seq!['l', 'y', 'u'], 1)]),
        'ょ' => Some(seq![option_spec(seq!['x', 'y', 'o'], 0), option_spec(seq!['l', 'y', 'o'], 1)]),
        'ゎ' => Some(seq![option_spec(seq!['x', 'w', 'a'], 0), option_spec(seq!['l', 'w', 'a'], 1)]),
        'っ' => Some(seq![option_spec(seq!['x', 't', 'u'], 10), option_spec(seq!['l', 't', 'u'], 11), option_spec(seq!['x', 't', 's', 'u'], 12), option_spec(seq!['l', 't', 's', 'u'], 13)]),
        'ゔ' => Some(seq![option_spec(seq!['v', 'u'], 0)]),
        _ => None,
    }
}

/// Executable lookup in [`kana_table_single`].
fn kana_table_single_lookup(c: char) -> (r: Option<Vec<RomajiOption>>)
    ensures
        options_opt_view(r) == kana_table_single(c),
{
    match c {
        'あ' => Some(list1(option_of(chars1('a'), 0))),
        'い' => Some(list1(option_of(chars1('i'), 0))),
        'う' => Some(list3(option_of(chars1('u'), 0), option_of(chars2('w', 'u'), 1), option_of(chars3('w', 'h', 'u'), 2))),
        'え' => Some(list1(option_of(chars1('e'), 0))),
        'お' => Some(list1(option_of(chars1('o'), 0))),
        'か' => Some(list2(option_of(chars2('k', 'a'), 0), option_of(chars2('c', 'a'), 1))),
        'き' => Some(list1(option_of(chars2('k', 'i'), 0))),
        'く' => Some(list3(option_of(chars2('k', 'u'), 0), option_of(chars2('c', 'u'), 1), option_of(chars2('q', 'u'), 2))),
        'け' => Some(list1(option_of(chars2('k', 'e'), 0))),
        'こ' => Some(list2(option_of(chars2('k', 'o'), 0), option_of(chars2('c', 'o'), 1))),
        'さ' => Some(list1(option_of(chars2('s', 'a'), 0))),
        'し' => Some(list3(option_of(chars2('s', 'i'), 0), option_of(chars3('s', 'h', 'i'), 1), option_of(chars2('c', 'i'), 2))),
        'す' => Some(list1(option_of(chars2('s', 'u'), 0))),
        'せ' => Some(list2(option_of(chars2('s', 'e'), 0), option_of(chars2('c', 'e'), 1))),
        'そ' => Some(list1(option_of(chars2('s', 'o'), 0))),
        'た' => Some(list1(option_of(chars2('t', 'a'), 0))),
        'ち' => Some(list2(option_of(chars2('t', 'i'), 0), option_of(chars3('c', 'h', 'i'), 1))),
        'つ' => Some(list2(option_of(chars2('t', 'u'), 0), option_of(chars3('t', 's', 'u'), 1))),
        'て' => Some(list1(option_of(chars2('t', 'e'), 0))),
        'と' => Some(list1(option_of(chars2('t', 'o'), 0))),
        'な' => Some(list1(option_of(chars2('n', 'a'), 0))),
        'に' => Some(list1(option_of(chars2('n', 'i'), 0))),
        'ぬ' => Some(list1(option_of(chars2('n', 'u'), 0))),
        'ね' => Some(list1(option_of(chars2('n', 'e'), 0))),
        'の' => Some(list1(option_of(chars2('n', 'o'), 0))),
        'は' => Some(list1(option_of(chars2('h', 'a'), 0))),
        'ひ' => Some(list1(option_of(chars2('h', 'i'), 0))),
        'ふ' => Some(list2(option_of(chars2('h', 'u'), 0), option_of(chars2('f', 'u'), 1))),
        'へ' => Some(list1(option_of(chars2('h', 'e'), 0))),
        'ほ' => Some(list1(option_of(chars2('h', 'o'), 0))),
        'ま' => Some(list1(option_of(chars2('m', 'a'), 0))),
        'み' => Some(list1(option_of(chars2('m', 'i'), 0))),
        'む' => Some(list1(option_of(chars2('m', 'u'), 0))),
        'め' => Some(list1(option_of(chars2('m', 'e'), 0))),
        'も' => Some(list1(option_of(chars2('m', 'o'), 0))),
        'や' => Some(list1(option_of(chars2('y', 'a'), 0))),
        'ゆ' => Some(list1(option_of(chars2('y', 'u'), 0))),
        'よ' => Some(list1(option_of(chars2('y', 'o'), 0))),
        'ら' => Some(list1(option_of(chars2('r', 'a'), 0))),
        'り' => Some(list1(option_of(chars2('r', 'i'), 0))),
        'る' => Some(list1(option_of(chars2('r', 'u'), 0))),
        'れ' => Some(list1(option_of(chars2('r', 'e'), 0))),
        'ろ' => Some(list1(option_of(chars2('r', 'o'), 0))),
        'わ' => Some(list1(option_of(chars2('w', 'a'), 0))),
        'ゐ' => Some(list1(option_of(chars3('w', 'y', 'i'), 0))),
        'ゑ' => Some(list1(option_of(chars3('w', 'y', 'e'), 0))),
        'を' => Some(list1(option_of(chars2('w', 'o'), 0))),
        'ん' => Some(list3(option_of(chars2('n', 'n'), 1), option_of(chars2('x', 'n'), 2), option_of(chars2('n', '\''), 3))),
        'が' => Some(list1(option_of(chars2('g', 'a'), 0))),
        'ぎ' => Some(list1(option_of(chars2('g', 'i'), 0))),
        'ぐ' => Some(list1(option_of(chars2('g', 'u'), 0))),
        'げ' => Some(list1(option_of(chars2('g', 'e'), 0))),
        'ご' => Some(list1(option_of(chars2('g', 'o'), 0))),
        'ざ' => Some(list1(option_of(chars2('z', 'a'), 0))),
        'じ' => Some(list2(option_of(chars2('z', 'i'), 0), option_of(chars2('j', 'i'), 1))),
        'ず' => Some(list1(option_of(chars2('z', 'u'), 0))),
        'ぜ' => Some(list1(option_of(chars2('z', 'e'), 0))),
        'ぞ' => Some(list1(option_of(chars2('z', 'o'), 0))),
        'だ' => Some(list1(option_of(chars2('d', 'a'), 0))),
        'ぢ' => Some(list1(option_of(chars2('d', 'i'), 0))),
        'づ' => Some(list1(option_of(chars2('d', 'u'), 0))),
        'で' => Some(list1(option_of(chars2('d', 'e'), 0))),
        'ど' => Some(list1(option_of(chars2('d', 'o'), 0))),
        'ば' => Some(list1(option_of(chars2('b', 'a'), 0))),
        'び' => Some(list1(option_of(chars2('b', 'i'), 0))),
        'ぶ' => Some(list1(option_of(chars2('b', 'u'), 0))),
        'べ' => Some(list1(option_of(chars2('b', 'e'), 0))),
        'ぼ' => Some(list1(option_of(chars2('b', 'o'), 0))),
        'ぱ' => Some(list1(option_of(chars2('p', 'a'), 0))),
        'ぴ' => Some(list1(option_of(chars2('p', 'i'), 0))),
        'ぷ' => Some(list1(option_of(chars2('p', 'u'), 0))),
        'ぺ' => Some(list1(option_of(chars2('p', 'e'), 0))),
        'ぽ' => Some(list1(option_of(chars2('p', 'o'), 0))),
        'ぁ' => Some(list2(option_of(chars2('x', 'a'), 0), option_of(chars2('l', 'a'), 1))),
        'ぃ' => Some(list4(option_of(chars2('x', 'i'), 0), option_of(chars2('l', 'i'), 1), option_of(chars3('x', 'y', 'i'), 2), option_of(chars3('l', 'y', 'i'), 3))),
        'ぅ' => Some(list2(option_of(chars2('x', 'u'), 0), option_of(chars2('l', 'u'), 1))),
        'ぇ' => Some(list4(option_of(chars2('x', 'e'), 0), option_of(chars2('l', 'e'), 1), option_of(chars3('x', 'y', 'e'), 2), option_of(chars3('l', 'y', 'e'), 3))),
        'ぉ' => Some(list2(option_of(chars2('x', 'o'), 0), option_of(chars2('l', 'o'), 1))),
        'ゃ' => Some(list2(option_of(chars3('x', 'y', 'a'), 0), option_of(chars3('l', 'y', 'a'), 1))),
        'ゅ' => Some(list2(option_of(chars3('x', 'y', 'u'), 0), option_of(chars3('l', 'y', 'u'), 1))),
        'ょ' => Some(list2(option_of(chars3('x', 'y', 'o'), 0), option_of(chars3('l', 'y', 'o'), 1))),
        'ゎ' => Some(list2(option_of(chars3('x', 'w', 'a'), 0), option_of(chars3('l', 'w', 'a'), 1))),
        'っ' => Some(list4(option_of(chars3('x', 't', 'u'), 10), option_of(chars3('l', 't', 'u'), 11), option_of(chars4('x', 't', 's', 'u'), 12), option_of(chars4('l', 't', 's', 'u'), 13))),
        'ゔ' => Some(list1(option_of(chars2('v', 'u'), 0))),
        _ => None,
    }
}

/// The romaji spellings of the two-kana units (a kana followed by a small kana) in the romaji table.
pub open spec fn kana_table_pair(c0: char, c1: char) -> Option<Seq<OptionSpec>> {
    match (c0, c1) {
        ('き', 'ゃ') => Some(seq![option_spec(seq!['k', 'y', 'a'], 0)]),
        ('き', 'ぃ') => Some(seq![option_spec(seq!['k', 'y', 'i'], 0)]),
        ('き', 'ゅ') => Some(seq![option_spec(seq!['k', 'y', 'u'], 0)]),
        ('き', 'ぇ') => Some(seq![option_spec(seq!['k', 'y', 'e'], 0)]),
        ('き', 'ょ') => Some(seq![option_spec(seq!['k', 'y', 'o'], 0)]),
        ('ぎ', 'ゃ') => Some(seq![option_spec(seq!['g', 'y', 'a'], 0)]),
        ('ぎ', 'ぃ') => Some(seq![option_spec(seq!['g', 'y', 'i'], 0)]),
        ('ぎ', 'ゅ') => Some(seq![option_spec(seq!['g', 'y', 'u'], 0)]),
        ('ぎ', 'ぇ') => Some(seq![option_spec(seq!['g', 'y', 'e'], 0)]),
        ('ぎ', 'ょ') => Some(seq![option_spec(seq!['g', 'y', 'o'], 0)]),
        ('し', 'ゃ') => Some(seq![option_spec(seq!['s', 'y', 'a'], 0), option_spec(seq!['s', 'h', 'a'], 1)]),
        ('し', 'ぃ') => Some(seq![option_spec(seq!['s', 'y', 'i'], 0)]),
        ('し', 'ゅ') => Some(seq![option_spec(seq!['s', 'y', 'u'], 0), option_spec(seq!['s', 'h', 'u'], 1)]),
        ('し', 'ぇ') => Some(seq![option_spec(seq!['s', 'y', 'e'], 0), option_spec(seq!['s', 'h', 'e'], 1)]),
        ('し', 'ょ') => Some(seq![option_spec(seq!['s', 'y', 'o'], 0), option_spec(seq!['s', 'h', 'o'], 1)]),
        ('じ', 'ゃ') => Some(seq![option_spec(seq!['z', 'y', 'a'], 0), option_spec(seq!['j', 'a'], 1), option_spec(seq!['j', 'y', 'a'], 2)]),
        ('じ', 'ぃ') => Some(seq![option_spec(seq!['z', 'y', 'i'], 0), option_spec(seq!['j', 'y', 'i'], 1)]),
        ('じ', 'ゅ') => Some(seq![option_spec(seq!['z', 'y', 'u'], 0), option_spec(seq!['j', 'u'], 1), option_spec(seq!['j', 'y', 'u'], 2)]),
        ('じ', 'ぇ') => Some(seq![option_spec(seq!['z', 'y', 'e'], 0), option_spec(seq!['j', 'e'], 1), option_spec(seq!['j', 'y', 'e'], 2)]),
        ('じ', 'ょ') => Some(seq![option_spec(seq!['z', 'y', 'o'], 0), option_spec(seq!['j', 'o'], 1), option_spec(seq!['j', 'y', 'o'], 2)]),
        ('ち', 'ゃ') => Some(seq![option_spec(seq!['t', 'y', 'a'], 0), option_spec(seq!['c', 'y', 'a'], 1), option_spec(seq!['c', 'h', 'a'], 2)]),
        ('ち', 'ぃ') => Some(seq![option_spec(seq!['t', 'y', 'i'], 0), option_spec(seq!['c', 'y', 'i'], 1)]),
        ('ち', 'ゅ') => Some(seq![option_spec(seq!['t', 'y', 'u'], 0), option_spec(seq!['c', 'y', 'u'], 1), option_spec(seq!['c', 'h', 'u'], 2)]),
        ('ち', 'ぇ') => Some(seq![option_spec(seq!['t', 'y', 'e'], 0), option_spec(seq!['c', 'y', 'e'], 1), option_spec(seq!['c', 'h', 'e'], 2)]),
        ('ち', 'ょ') => Some(seq![option_spec(seq!['t', 'y', 'o'], 0), option_spec(seq!['c', 'y', 'o'], 1), option_spec(seq!['c', 'h', 'o'], 2)]),
        ('ぢ', 'ゃ') => Some(seq![option_spec(seq!['d', 'y', 'a'], 0)]),
        ('ぢ', 'ぃ') => Some(seq![option_spec(seq!['d', 'y', 'i'], 0)]),
        ('ぢ', 'ゅ') => Some(seq![option_spec(seq!['d', 'y', 'u'], 0)]),
        ('ぢ', 'ぇ') => Some(seq![option_spec(seq!['d', 'y', 'e'], 0)]),
        ('ぢ', 'ょ') => Some(seq![option_spec(seq!['d', 'y', 'o'], 0)]),
        ('つ', 'ぁ') => Some(seq![option_spec(seq!['t', 's', 'a'], 0)]),
        ('つ', 'ぃ') => Some(seq![option_spec(seq!['t', 's', 'i'], 0)]),
        ('つ', 'ぇ') => Some(seq![option_spec(seq!['t', 's', 'e'], 0)]),
        ('つ', 'ぉ') => Some(seq![option_spec(seq!['t', 's', 'o'], 0)]),
        ('て', 'ゃ') => Some(seq![option_spec(seq!['t', 'h', 'a'], 0)]),
        ('て', 'ぃ') => Some(seq![option_spec(seq!['t', 'h', 'i'], 0), option_spec(seq!['t', '\'', 'i'], 1)]),
        ('て', 'ゅ') => Some(seq![option_spec(seq!['t', 'h', 'u'], 0), option_spec(seq!['t', '\'', 'y', 'u'], 1)]),
        ('て', 'ぇ') => Some(seq![option_spec(seq!['t', 'h', 'e'], 0)]),
        ('て', 'ょ') => Some(seq![option_spec(seq!['t', 'h', 'o'], 0)]),
        ('で', 'ゃ') => Some(seq![option_spec(seq!['d', 'h', 'a'], 0)]),
        ('で', 'ぃ') => Some(seq![option_spec(seq!['d', 'h', 'i'], 0), option_spec(seq!['d', '\'', 'i'], 1)]),
        ('で', 'ゅ') => Some(seq![option_spec(seq!['d', 'h', 'u'], 0), option_spec(seq!['d', '\'', 'y', 'u'], 1)]),
        ('で', 'ぇ') => Some(seq![option_spec(seq!['d', 'h', 'e'], 0)]),
        ('で', 'ょ') => Some(seq![option_spec(seq!['d', 'h', 'o'], 0)]),
        ('と', 'ぁ') => Some(seq![option_spec(seq!['t', 'w', 'a'], 0)]),
        ('と', 'ぃ') => Some(seq![option_spec(seq!['t', 'w', 'i'], 0)]),
        ('と', 'ぅ') => Some(seq![option_spec(seq!['t', 'w', 'u'], 0), option_spec(seq!['t', '\'', 'u'], 1)]),
        ('と', 'ぇ') => Some(seq![option_spec(seq!['t', 'w', 'e'], 0)]),
        ('と', 'ぉ') => Some(seq![option_spec(seq!['t', 'w', 'o'], 0)]),
        ('ど', 'ぁ') => Some(seq![option_spec(seq!['d', 'w', 'a'], 0)]),
        ('ど', 'ぃ') => Some(seq![option_spec(seq!['d', 'w', 'i'], 0)]),
        ('ど', 'ぅ') => Some(seq![option_spec(seq!['d', 'w', 'u'], 0), option_spec(seq!['d', '\'', 'u'], 1)]),
        ('ど', 'ぇ') => Some(seq![option_spec(seq!['d', 'w', 'e'], 0)]),
        ('ど', 'ぉ') => Some(seq![option_spec(seq!['d', 'w', 'o'], 0)]),
        ('に', 'ゃ') => Some(seq![option_spec(seq!['n', 'y', 'a'], 0)]),
        ('に', 'ぃ') => Some(seq![option_spec(seq!['n', 'y', 'i'], 0)]),
        ('に', 'ゅ') => Some(seq![option_spec(seq!['n', 'y', 'u'], 0)]),
        ('に', 'ぇ') => Some(seq![option_spec(seq!['n', 'y', 'e'], 0)]),
        ('に', 'ょ') => Some(seq![option_spec(seq!['n', 'y', 'o'], 0)]),
        ('ひ', 'ゃ') => Some(seq![option_spec(seq!['h', 'y', 'a'], 0)]),
        ('ひ', 'ぃ') => Some(seq![option_spec(seq!['h', 'y', 'i'], 0)]),
        ('ひ', 'ゅ') => Some(seq![option_spec(seq!['h', 'y', 'u'], 0)]),
        ('ひ', 'ぇ') => Some(seq![option_spec(seq!['h', 'y', 'e'], 0)]),
        ('ひ', 'ょ') => Some(seq![option_spec(seq!['h', 'y', 'o'], 0)]),
        ('び', 'ゃ') => Some(seq![option_spec(seq!['b', 'y', 'a'], 0)]),
        ('び', 'ぃ') => Some(seq![option_spec(seq!['b', 'y', 'i'], 0)]),
        ('び', 'ゅ') => Some(seq![option_spec(seq!['b', 'y', 'u'], 0)]),
        ('び', 'ぇ') => Some(seq![option_spec(seq!['b', 'y', 'e'], 0)]),
        ('び', 'ょ') => Some(seq![option_spec(seq!['b', 'y', 'o'], 0)]),
        ('ぴ', 'ゃ') => Some(seq![option_spec(seq!['p', 'y', 'a'], 0)]),
        ('ぴ', 'ぃ') => Some(seq![option_spec(seq!['p', 'y', 'i'], 0)]),
        ('ぴ', 'ゅ') => Some(seq![option_spec(seq!['p', 'y', 'u'], 0)]),
        ('ぴ', 'ぇ') => Some(seq![option_spec(seq!['p', 'y', 'e'], 0)]),
        ('ぴ', 'ょ') => Some(seq![option_spec(seq!['p', 'y', 'o'], 0)]),
        ('ふ', 'ぁ') => Some(seq![option_spec(seq!['f', 'a'], 0), option_spec(seq!['h', 'w', 'a'], 1)]),
        ('ふ', 'ぃ') => Some(seq![option_spec(seq!['f', 'i'], 0), option_spec(seq!['h', 'w', 'i'], 1)]),
        ('ふ', 'ぇ') => Some(seq![option_spec(seq!['f', 'e'], 0), option_spec(seq!['h', 'w', 'e'], 1)]),
        ('ふ', 'ぉ') => Some(seq![option_spec(seq!['f', 'o'], 0), option_spec(seq!['h', 'w', 'o'], 1)]),
        ('ふ', 'ゃ') => Some(seq![option_spec(seq!['f', 'y', 'a'], 0)]),
        ('ふ', 'ゅ') => Some(seq![option_spec(seq!['f', 'y', 'u'], 0), option_spec(seq!['h', 'w', 'y', 'u'], 1)]),
        ('ふ', 'ょ') => Some(seq![option_spec(seq!['f', 'y', 'o'], 0)]),
        ('み', 'ゃ') => Some(seq![option_spec(seq!['m', 'y', 'a'], 0)]),
        ('み', 'ぃ') => Some(seq![option_spec(seq!['m', 'y', 'i'], 0)]),
        ('み', 'ゅ') => Some(seq![option_spec(seq!['m', 'y', 'u'], 0)]),
        ('み', 'ぇ') => Some(seq![option_spec(seq!['m', 'y', 'e'], 0)]),
        ('み', 'ょ') => Some(seq![option_spec(seq!['m', 'y', 'o'], 0)]),
        ('り', 'ゃ') => Some(seq![option_spec(seq!['r', 'y', 'a'], 0)]),
        ('り', 'ぃ') => Some(seq![option_spec(seq!['r', 'y', 'i'], 0)]),
        ('り', 'ゅ') => Some(seq![option_spec(seq!['r', 'y', 'u'], 0)]),
        ('り', 'ぇ') => Some(seq![option_spec(seq!['r', 'y', 'e'], 0)]),
        ('り', 'ょ') => Some(seq![option_spec(seq!['r', 'y', 'o'], 0)]),
        ('い', 'ぇ') => Some(seq![option_spec(seq!['y', 'e'], 0)]),
        ('く', 'ぁ') => Some(seq![option_spec(seq!['k', 'w', 'a'], 0), option_spec(seq!['q', 'a'], 1)]),
        ('く', 'ぃ') => Some(seq![option_spec(seq!['k', 'w', 'i'], 0), option_spec(seq!['q', 'i'], 1)]),
        ('く', 'ぅ') => Some(seq![option_spec(seq!['k', 'w', 'u'], 0)]),
        ('く', 'ぇ') => Some(seq![option_spec(seq!['k', 'w', 'e'], 0), option_spec(seq!['q', 'e'], 1)]),
        ('く', 'ぉ') => Some(seq![option_spec(seq!['k', 'w', 'o'], 0), option_spec(seq!['q', 'o'], 1)]),
        ('ぐ', 'ぁ') => Some(seq![option_spec(seq!['g', 'w', 'a'], 0)]),
        ('ぐ', 'ぃ') => Some(seq![option_spec(seq!['g', 'w', 'i'], 0)]),
        ('ぐ', 'ぅ') => Some(seq![option_spec(seq!['g', 'w', 'u'], 0)]),
        ('ぐ', 'ぇ') => Some(seq![option_spec(seq!['g', 'w', 'e'], 0)]),
        ('ぐ', 'ぉ') => Some(seq![option_spec(seq!['g', 'w', 'o'], 0)]),
        ('ゔ', 'ぁ') => Some(seq![option_spec(seq!['v', 'a'], 0)]),
        ('ゔ', 'ぃ') => Some(seq![option_spec(seq!['v', 'i'], 0), option_spec(seq!['v', 'y', 'i'], 1)]),
        ('ゔ', 'ぇ') => Some(seq![option_spec(seq!['v', 'e'], 0), option_spec(seq!['v', 'y', 'e'], 1)]),
        ('ゔ', 'ぉ') => Some(seq![option_spec(seq!['v', 'o'], 0)]),
        ('す', 'ぁ') => Some(seq![option_spec(seq!['s', 'w', 'a'], 0)]),
        ('す', 'ぃ') => Some(seq![option_spec(seq!['s', 'w', 'i'], 0)]),
        ('す', 'ぅ') => Some(seq![option_spec(seq!['s', 'w', 'u'], 0)]),
        ('す', 'ぇ') => Some(seq![option_spec(seq!['s', 'w', 'e'], 0)]),
        ('す', 'ぉ') => Some(seq![option_spec(seq!['s', 'w', 'o'], 0)]),
        ('ず', 'ぁ') => Some(seq![option_spec(seq!['z', 'w', 'a'], 0)]),
        ('ず', 'ぃ') => Some(seq![option_spec(seq!['z', 'w', 'i'], 0)]),
        ('ず', 'ぅ') => Some(seq![option_spec(seq!['z', 'w', 'u'], 0)]),
        ('ず', 'ぇ') => Some(seq![option_spec(seq!['z', 'w', 'e'], 0)]),
        ('ず', 'ぉ') => Some(seq![option_spec(seq!['z', 'w', 'o'], 0)]),
        ('ゔ', 'ゃ') => Some(seq![option_spec(seq!['v', 'y', 'a'], 0)]),
        ('ゔ', 'ゅ') => Some(seq![option_spec(seq!['v', 'y', 'u'], 0)]),
        ('ゔ', 'ょ') => Some(seq![option_spec(seq!['v', 'y', 'o'], 0)]),
        ('う', 'ぁ') => Some(seq![option_spec(seq!['w', 'h', 'a'], 0)]),
        ('う', 'ぃ') => Some(seq![option_spec(seq!['w', 'i'], 0), option_spec(seq!['w', 'h', 'i'], 1)]),
        ('う', 'ぇ') => Some(seq![option_spec(seq!['w', 'e'], 0), option_spec(seq!['w', 'h', 'e'], 1)]),
        ('う', 'ぉ') => Some(seq![option_spec(seq!['w', 'h', 'o'], 0)]),
        _ => None,
    }
}

/// Executable lookup in [`kana_table_pair`].
fn kana_table_pair_lookup(c0: char, c1: char) -> (r: Option<Vec<RomajiOption>>)
    ensures
        options_opt_view(r) == kana_table_pair(c0, c1),
{
    match (c0, c1) {
        ('き', 'ゃ') => Some(list1(option_of(chars3('k', 'y', 'a'), 0))),
        ('き', 'ぃ') => Some(list1(option_of(chars3('k', 'y', 'i'), 0))),
        ('き', 'ゅ') => Some(list1(option_of(chars3('k', 'y', 'u'), 0))),
        ('き', 'ぇ') => Some(list1(option_of(chars3('k', 'y', 'e'), 0))),
        ('き', 'ょ') => Some(list1(option_of(chars3('k', 'y', 'o'), 0))),
        ('ぎ', 'ゃ') => Some(list1(option_of(chars3('g', 'y', 'a'), 0))),
        ('ぎ', 'ぃ') => Some(list1(option_of(chars3('g', 'y', 'i'), 0))),
        ('ぎ', 'ゅ') => Some(list1(option_of(chars3('g', 'y', 'u'), 0))),
        ('ぎ', 'ぇ') => Some(list1(option_of(chars3('g', 'y', 'e'), 0))),
        ('ぎ', 'ょ') => Some(list1(option_of(chars3('g', 'y', 'o'), 0))),
        ('し', 'ゃ') => Some(list2(option_of(chars3('s', 'y', 'a'), 0), option_of(chars3('s', 'h', 'a'), 1))),
        ('し', 'ぃ') => Some(list1(option_of(chars3('s', 'y', 'i'), 0))),
        ('し', 'ゅ') => Some(list2(option_of(chars3('s', 'y', 'u'), 0), option_of(chars3('s', 'h', 'u'), 1))),
        ('し', 'ぇ') => Some(list2(option_of(chars3('s', 'y', 'e'), 0), option_of(chars3('s', 'h', 'e'), 1))),
        ('し', 'ょ') => Some(list2(option_of(chars3('s', 'y', 'o'), 0), option_of(chars3('s', 'h', 'o'), 1))),
        ('じ', 'ゃ') => Some(list3(option_of(chars3('z', 'y', 'a'), 0), option_of(chars2('j', 'a'), 1), option_of(chars3('j', 'y', 'a'), 2))),
        ('じ', 'ぃ') => Some(list2(option_of(chars3('z', 'y', 'i'), 0), option_of(chars3('j', 'y', 'i'), 1))),
        ('じ', 'ゅ') => Some(list3(option_of(chars3('z', 'y', 'u'), 0), option_of(chars2('j', 'u'), 1), option_of(chars3('j', 'y', 'u'), 2))),
        ('じ', 'ぇ') => Some(list3(option_of(chars3('z', 'y', 'e'), 0), option_of(chars2('j', 'e'), 1), option_of(chars3('j', 'y', 'e'), 2))),
        ('じ', 'ょ') => Some(list3(option_of(chars3('z', 'y', 'o'), 0), option_of(chars2('j', 'o'), 1), option_of(chars3('j', 'y', 'o'), 2))),
        ('ち', 'ゃ') => Some(list3(option_of(chars3('t', 'y', 'a'), 0), option_of(chars3('c', 'y', 'a'), 1), option_of(chars3('c', 'h', 'a'), 2))),
        ('ち', 'ぃ') => Some(list2(option_of(chars3('t', 'y', 'i'), 0), option_of(chars3('c', 'y', 'i'), 1))),
        ('ち', 'ゅ') => Some(list3(option_of(chars3('t', 'y', 'u'), 0), option_of(chars3('c', 'y', 'u'), 1), option_of(chars3('c', 'h', 'u'), 2))),
        ('ち', 'ぇ') => Some(list3(option_of(chars3('t', 'y', 'e'), 0), option_of(chars3('c', 'y', 'e'), 1), option_of(chars3('c', 'h', 'e'), 2))),
        ('ち', 'ょ') => Some(list3(option_of(chars3('t', 'y', 'o'), 0), option_of(chars3('c', 'y', 'o'), 1), option_of(chars3('c', 'h', 'o'), 2))),
        ('ぢ', 'ゃ') => Some(list1(option_of(chars3('d', 'y', 'a'), 0))),
        ('ぢ', 'ぃ') => Some(list1(option_of(chars3('d', 'y', 'i'), 0))),
        ('ぢ', 'ゅ') => Some(list1(option_of(chars3('d', 'y', 'u'), 0))),
        ('ぢ', 'ぇ') => Some(list1(option_of(chars3('d', 'y', 'e'), 0))),
        ('ぢ', 'ょ') => Some(list1(option_of(chars3('d', 'y', 'o'), 0))),
        ('つ', 'ぁ') => Some(list1(option_of(chars3('t', 's', 'a'), 0))),
        ('つ', 'ぃ') => Some(list1(option_of(chars3('t', 's', 'i'), 0))),
        ('つ', 'ぇ') => Some(list1(option_of(chars3('t', 's', 'e'), 0))),
        ('つ', 'ぉ') => Some(list1(option_of(chars3('t', 's', 'o'), 0))),
        ('て', 'ゃ') => Some(list1(option_of(chars3('t', 'h', 'a'), 0))),
        ('て', 'ぃ') => Some(list2(option_of(chars3('t', 'h', 'i'), 0), option_of(chars3('t', '\'', 'i'), 1))),
        ('て', 'ゅ') => Some(list2(option_of(chars3('t', 'h', 'u'), 0), option_of(chars4('t', '\'', 'y', 'u'), 1))),
        ('て', 'ぇ') => Some(list1(option_of(chars3('t', 'h', 'e'), 0))),
        ('て', 'ょ') => Some(list1(option_of(chars3('t', 'h', 'o'), 0))),
        ('で', 'ゃ') => Some(list1(option_of(chars3('d', 'h', 'a'), 0))),
        ('で', 'ぃ') => Some(list2(option_of(chars3('d', 'h', 'i'), 0), option_of(chars3('d', '\'', 'i'), 1))),
        ('で', 'ゅ') => Some(list2(option_of(chars3('d', 'h', 'u'), 0), option_of(chars4('d', '\'', 'y', 'u'), 1))),
        ('で', 'ぇ') => Some(list1(option_of(chars3('d', 'h', 'e'), 0))),
        ('で', 'ょ') => Some(list1(option_of(chars3('d', 'h', 'o'), 0))),
        ('と', 'ぁ') => Some(list1(option_of(chars3('t', 'w', 'a'), 0))),
        ('と', 'ぃ') => Some(list1(option_of(chars3('t', 'w', 'i'), 0))),
        ('と', 'ぅ') => Some(list2(option_of(chars3('t', 'w', 'u'), 0), option_of(chars3('t', '\'', 'u'), 1))),
        ('と', 'ぇ') => Some(list1(option_of(chars3('t', 'w', 'e'), 0))),
        ('と', 'ぉ') => Some(list1(option_of(chars3('t', 'w', 'o'), 0))),
        ('ど', 'ぁ') => Some(list1(option_of(chars3('d', 'w', 'a'), 0))),
        ('ど', 'ぃ') => Some(list1(option_of(chars3('d', 'w', 'i'), 0))),
        ('ど', 'ぅ') => Some(list2(option_of(chars3('d', 'w', 'u'), 0), option_of(chars3('d', '\'', 'u'), 1))),
        ('ど', 'ぇ') => Some(list1(option_of(chars3('d', 'w', 'e'), 0))),
        ('ど', 'ぉ') => Some(list1(option_of(chars3('d', 'w', 'o'), 0))),
        ('に', 'ゃ') => Some(list1(option_of(chars3('n', 'y', 'a'), 0))),
        ('に', 'ぃ') => Some(list1(option_of(chars3('n', 'y', 'i'), 0))),
        ('に', 'ゅ') => Some(list1(option_of(chars3('n', 'y', 'u'), 0))),
        ('に', 'ぇ') => Some(list1(option_of(chars3('n', 'y', 'e'), 0))),
        ('に', 'ょ') => Some(list1(option_of(chars3('n', 'y', 'o'), 0))),
        ('ひ', 'ゃ') => Some(list1(option_of(chars3('h', 'y', 'a'), 0))),
        ('ひ', 'ぃ') => Some(list1(option_of(chars3('h', 'y', 'i'), 0))),
        ('ひ', 'ゅ') => Some(list1(option_of(chars3('h', 'y', 'u'), 0))),
        ('ひ', 'ぇ') => Some(list1(option_of(chars3('h', 'y', 'e'), 0))),
        ('ひ', 'ょ') => Some(list1(option_of(chars3('h', 'y', 'o'), 0))),
        ('び', 'ゃ') => Some(list1(option_of(chars3('b', 'y', 'a'), 0))),
        ('び', 'ぃ') => Some(list1(option_of(chars3('b', 'y', 'i'), 0))),
        ('び', 'ゅ') => Some(list1(option_of(chars3('b', 'y', 'u'), 0))),
        ('び', 'ぇ') => Some(list1(option_of(chars3('b', 'y', 'e'), 0))),
        ('び', 'ょ') => Some(list1(option_of(chars3('b', 'y', 'o'), 0))),
        ('ぴ', 'ゃ') => Some(list1(option_of(chars3('p', 'y', 'a'), 0))),
        ('ぴ', 'ぃ') => Some(list1(option_of(chars3('p', 'y', 'i'), 0))),
        ('ぴ', 'ゅ') => Some(list1(option_of(chars3('p', 'y', 'u'), 0))),
        ('ぴ', 'ぇ') => Some(list1(option_of(chars3('p', 'y', 'e'), 0))),
        ('ぴ', 'ょ') => Some(list1(option_of(chars3('p', 'y', 'o'), 0))),
        ('ふ', 'ぁ') => Some(list2(option_of(chars2('f', 'a'), 0), option_of(chars3('h', 'w', 'a'), 1))),
        ('ふ', 'ぃ') => Some(list2(option_of(chars2('f', 'i'), 0), option_of(chars3('h', 'w', 'i'), 1))),
        ('ふ', 'ぇ') => Some(list2(option_of(chars2('f', 'e'), 0), option_of(chars3('h', 'w', 'e'), 1))),
        ('ふ', 'ぉ') => Some(list2(option_of(chars2('f', 'o'), 0), option_of(chars3('h', 'w', 'o'), 1))),
        ('ふ', 'ゃ') => Some(list1(option_of(chars3('f', 'y', 'a'), 0))),
        ('ふ', 'ゅ') => Some(list2(option_of(chars3('f', 'y', 'u'), 0), option_of(chars4('h', 'w', 'y', 'u'), 1))),
        ('ふ', 'ょ') => Some(list1(option_of(chars3('f', 'y', 'o'), 0))),
        ('み', 'ゃ') => Some(list1(option_of(chars3('m', 'y', 'a'), 0))),
        ('み', 'ぃ') => Some(list1(option_of(chars3('m', 'y', 'i'), 0))),
        ('み', 'ゅ') => Some(list1(option_of(chars3('m', 'y', 'u'), 0))),
        ('み', 'ぇ') => Some(list1(option_of(chars3('m', 'y', 'e'), 0))),
        ('み', 'ょ') => Some(list1(option_of(chars3('m', 'y', 'o'), 0))),
        ('り', 'ゃ') => Some(list1(option_of(chars3('r', 'y', 'a'), 0))),
        ('り', 'ぃ') => Some(list1(option_of(chars3('r', 'y', 'i'), 0))),
        ('り', 'ゅ') => Some(list1(option_of(chars3('r', 'y', 'u'), 0))),
        ('り', 'ぇ') => Some(list1(option_of(chars3('r', 'y', 'e'), 0))),
        ('り', 'ょ') => Some(list1(option_of(chars3('r', 'y', 'o'), 0))),
        ('い', 'ぇ') => Some(list1(option_of(chars2('y', 'e'), 0))),
        ('く', 'ぁ') => Some(list2(option_of(chars3('k', 'w', 'a'), 0), option_of(chars2('q', 'a'), 1))),
        ('く', 'ぃ') => Some(list2(option_of(chars3('k', 'w', 'i'), 0), option_of(chars2('q', 'i'), 1))),
        ('く', 'ぅ') => Some(list1(option_of(chars3('k', 'w', 'u'), 0))),
        ('く', 'ぇ') => Some(list2(option_of(chars3('k', 'w', 'e'), 0), option_of(chars2('q', 'e'), 1))),
        ('く', 'ぉ') => Some(list2(option_of(chars3('k', 'w', 'o'), 0), option_of(chars2('q', 'o'), 1))),
        ('ぐ', 'ぁ') => Some(list1(option_of(chars3('g', 'w', 'a'), 0))),
        ('ぐ', 'ぃ') => Some(list1(option_of(chars3('g', 'w', 'i'), 0))),
        ('ぐ', 'ぅ') => Some(list1(option_of(chars3('g', 'w', 'u'), 0))),
        ('ぐ', 'ぇ') => Some(list1(option_of(chars3('g', 'w', 'e'), 0))),
        ('ぐ', 'ぉ') => Some(list1(option_of(chars3('g', 'w', 'o'), 0))),
        ('ゔ', 'ぁ') => Some(list1(option_of(chars2('v', 'a'), 0))),
        ('ゔ', 'ぃ') => Some(list2(option_of(chars2('v', 'i'), 0), option_of(chars3('v', 'y', 'i'), 1))),
        ('ゔ', 'ぇ') => Some(list2(option_of(chars2('v', 'e'), 0), option_of(chars3('v', 'y', 'e'), 1))),
        ('ゔ', 'ぉ') => Some(list1(option_of(chars2('v', 'o'), 0))),
        ('す', 'ぁ') => Some(list1(option_of(chars3('s', 'w', 'a'), 0))),
        ('す', 'ぃ') => Some(list1(option_of(chars3('s', 'w', 'i'), 0))),
        ('す', 'ぅ') => Some(list1(option_of(chars3('s', 'w', 'u'), 0))),
        ('す', 'ぇ') => Some(list1(option_of(chars3('s', 'w', 'e'), 0))),
        ('す', 'ぉ') => Some(list1(option_of(chars3('s', 'w', 'o'), 0))),
        ('ず', 'ぁ') => Some(list1(option_of(chars3('z', 'w', 'a'), 0))),
        ('ず', 'ぃ') => Some(list1(option_of(chars3('z', 'w', 'i'), 0))),
        ('ず', 'ぅ') => Some(list1(option_of(chars3('z', 'w', 'u'), 0))),
        ('ず', 'ぇ') => Some(list1(option_of(chars3('z', 'w', 'e'), 0))),
        ('ず', 'ぉ') => Some(list1(option_of(chars3('z', 'w', 'o'), 0))),
        ('ゔ', 'ゃ') => Some(list1(option_of(chars3('v', 'y', 'a'), 0))),
        ('ゔ', 'ゅ') => Some(list1(option_of(chars3('v', 'y', 'u'), 0))),
        ('ゔ', 'ょ') => Some(list1(option_of(chars3('v', 'y', 'o'), 0))),
        ('う', 'ぁ') => Some(list1(option_of(chars3('w', 'h', 'a'), 0))),
        ('う', 'ぃ') => Some(list2(option_of(chars2('w', 'i'), 0), option_of(chars3('w', 'h', 'i'), 1))),
        ('う', 'ぇ') => Some(list2(option_of(chars2('w', 'e'), 0), option_of(chars3('w', 'h', 'e'), 1))),
        ('う', 'ぉ') => Some(list1(option_of(chars3('w', 'h', 'o'), 0))),
        _ => None,
    }
}

/// The keys typed for the full-width symbols that a reading may contain.
pub open spec fn symbol_table_single(c: char) -> Option<Seq<OptionSpec>> {
    match c {
        'ー' => Some(seq![option_spec(seq!['-'], 0)]),
        '、' => Some(seq![option_spec(seq![','], 0)]),
        '。' => Some(seq![option_spec(seq!['.'], 0)]),
        '！' => Some(seq![option_spec(seq!['!'], 0)]),
        '？' => Some(seq![option_spec(seq!['?'], 0)]),
        '：' => Some(seq![option_spec(seq![':'], 0)]),
        '；' => Some(seq![option_spec(seq![';'], 0)]),
        '・' => Some(seq![option_spec(seq!['/'], 0)]),
        '〜' => Some(seq![option_spec(seq!['~'], 0)]),
        '～' => Some(seq![option_spec(seq!['~'], 0)]),
        '（' => Some(seq![option_spec(seq!['('], 0)]),
        '）' => Some(seq![option_spec(seq![')'], 0)]),
        '「' => Some(seq![option_spec(seq!['['], 0)]),
        '」' => Some(seq![option_spec(seq![']'], 0)]),
        '　' => Some(seq![option_spec(seq![' '], 0)]),
        _ => None,
    }
}

/// Executable lookup in [`symbol_table_single`].
fn symbol_table_single_lookup(c: char) -> (r: Option<Vec<RomajiOption>>)
    ensures
        options_opt_view(r) == symbol_table_single(c),
{
    match c {
        'ー' => Some(list1(option_of(chars1('-'), 0))),
        '、' => Some(list1(option_of(chars1(','), 0))),
        '。' => Some(list1(option_of(chars1('.'), 0))),
        '！' => Some(list1(option_of(chars1('!'), 0))),
        '？' => Some(list1(option_of(chars1('?'), 0))),
        '：' => Some(list1(option_of(chars1(':'), 0))),
        '；' => Some(list1(option_of(chars1(';'), 0))),
        '・' => Some(list1(option_of(chars1('/'), 0))),
        '〜' => Some(list1(option_of(chars1('~'), 0))),
        '～' => Some(list1(option_of(chars1('~'), 0))),
        '（' => Some(list1(option_of(chars1('('), 0))),
        '）' => Some(list1(option_of(chars1(')'), 0))),
        '「' => Some(list1(option_of(chars1('['), 0))),
        '」' => Some(list1(option_of(chars1(']'), 0))),
        '　' => Some(list1(option_of(chars1(' '), 0))),
        _ => None,
    }
}

/// A list of spellings that is not empty and holds no empty spelling.
pub open spec fn spelled(s: Seq<OptionSpec>) -> bool {
    &&& s.len() > 0
    &&& forall|i: int| 0 <= i < s.len() ==> (#[trigger] s[i]).romaji.len() > 0
}

/// Every entry of the single-kana table is a list of non-empty spellings.
#[verifier::rlimit(100)]
pub proof fn lemma_single_spelled(c: char)
    ensures
        kana_table_single(c) matches Some(l) ==> spelled(l),
{
}

/// Every entry of the kana-pair table is a list of non-empty spellings.
#[verifier::rlimit(100)]
pub proof fn lemma_pair_spelled(c0: char, c1: char)
    ensures
        kana_table_pair(c0, c1) matches Some(l) ==> spelled(l),
{
}

/// Every entry of the symbol table is a list of non-empty spellings.
#[verifier::rlimit(100)]
pub proof fn lemma_symbol_spelled(c: char)
    ensures
        symbol_table_single(c) matches Some(l) ==> spelled(l),
{
}

} // verus!
