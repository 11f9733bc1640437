//! The romaji spellings of each unit of a reading: plain kana, kana followed by a small kana,
//! the syllabic `ん`, runs of the geminating `っ`, and symbols.
use vstd::prelude::*;

use crate::romaji_table::{
    option_spec, options_opt_view, romaji_table, romaji_table_get, symbol_table, symbol_table_get,
    OptionSpec, RomajiOption,
};
use crate::seqs::{
    chars_eq, dedup_by_name, lemma_dedup_keeps, lemma_sort_keeps, dedup_spellings, rank_key, sort_by_key, spelling_key, stable_sort, view_seq, Ranked,
};
use crate::text::{concat_chars, copy_chars, string_append, string_push};

verus! {

broadcast use vstd::seq_lib::group_seq_properties;

/// The bias added to the priority of a spelling composed from a kana and a small kana, so
/// that the table's own spellings of the pair come first.
pub const COMPOSED_OPTION_PRIORITY_BIAS: u8 = 32;

/// The most prefix combinations kept while expanding a run of `っ`.
pub const MAX_COMBINATIONS: usize = 32;

/// An option while the automaton is built: a spelling, its priority, and progress markers.
/// A marker `(n, k)` says that after the first `n` keys of the spelling, `k` characters of
/// the unit count as typed.
pub struct BuildOption {
    pub romaji: Vec<char>,
    pub priority: u8,
    pub progress_markers: Vec<(usize, usize)>,
}

/// The value of a [`BuildOption`].
pub struct BuildSpec {
    pub romaji: Seq<char>,
    pub priority: u8,
    pub markers: Seq<(usize, usize)>,
}

impl View for BuildOption {
    type V = BuildSpec;

    open spec fn view(&self) -> BuildSpec {
        BuildSpec { romaji: self.romaji@, priority: self.priority, markers: self.progress_markers@ }
    }
}

impl Ranked for BuildOption {
    open spec fn rank(v: BuildSpec) -> u8 {
        v.priority
    }

    open spec fn spelling(v: BuildSpec) -> Seq<char> {
        v.romaji
    }

    fn priority_of(&self) -> (p: u8) {
        self.priority
    }

    fn spelling_of(&self) -> (s: &Vec<char>) {
        &self.romaji
    }

    fn duplicate(&self) -> (r: Self) {
        let mut markers: Vec<(usize, usize)> = Vec::new();
        let mut i: usize = 0;
        while i < self.progress_markers.len()
            invariant
                0 <= i <= self.progress_markers.len(),
                markers@ == self.progress_markers@.take(i as int),
            decreases self.progress_markers.len() - i,
        {
            markers.push(self.progress_markers[i]);
            i += 1;
            assert(markers@ =~= self.progress_markers@.take(i as int));
        }
        assert(self.progress_markers@.take(i as int) =~= self.progress_markers@);
        BuildOption { romaji: copy_chars(&self.romaji), priority: self.priority, progress_markers: markers }
    }
}

impl BuildOption {
    /// The build option of a plain option: same spelling and priority, no markers.
    pub fn from_romaji_option(option: RomajiOption) -> (r: Self)
        ensures
            r@ == plain_build(option@),
    {
        let r = BuildOption { romaji: option.romaji, priority: option.priority, progress_markers: Vec::new() };
        assert(r.progress_markers@ =~= Seq::<(usize, usize)>::empty());
        r
    }
}

pub open spec fn plain_build(o: OptionSpec) -> BuildSpec {
    BuildSpec { romaji: o.romaji, priority: o.priority, markers: Seq::empty() }
}

/// Option lists sorted by priority (stable).
pub open spec fn sort_options(s: Seq<OptionSpec>) -> Seq<OptionSpec> {
    sort_by_key(s, rank_key::<RomajiOption>())
}

/// Option lists without repeated spellings (the first occurrence wins).
pub open spec fn dedup_options(s: Seq<OptionSpec>) -> Seq<OptionSpec> {
    dedup_by_name(s, spelling_key::<RomajiOption>())
}

pub open spec fn sort_builds(s: Seq<BuildSpec>) -> Seq<BuildSpec> {
    sort_by_key(s, rank_key::<BuildOption>())
}

pub open spec fn dedup_builds(s: Seq<BuildSpec>) -> Seq<BuildSpec> {
    dedup_by_name(s, spelling_key::<BuildOption>())
}

/// Addition of priorities that stops at 255.
pub open spec fn sat_add(a: u8, b: u8) -> u8 {
    if a + b > 255 {
        255
    } else {
        (a + b) as u8
    }
}

/// A spelling followed by another one; the priorities add up.
pub open spec fn join_option(b: OptionSpec, s: OptionSpec) -> OptionSpec {
    option_spec(b.romaji + s.romaji, sat_add(b.priority, s.priority))
}

/// Every `b` of `bs` followed by every `s` of `ss`, in that order.
pub open spec fn cross_options(bs: Seq<OptionSpec>, ss: Seq<OptionSpec>) -> Seq<OptionSpec>
    decreases bs.len(),
{
    if bs.len() == 0 {
        Seq::empty()
    } else {
        cross_options(bs.drop_last(), ss) + ss.map_values(|s: OptionSpec| join_option(bs.last(), s))
    }
}

/// The small kana that may follow another kana.
pub open spec fn is_small_kana(c: char) -> bool {
    c == 'ぁ' || c == 'ぃ' || c == 'ぅ' || c == 'ぇ' || c == 'ぉ' || c == 'ゃ' || c == 'ゅ' || c == 'ょ'
        || c == 'ゎ'
}

/// A unit that ends in a small kana, split into what precedes it and the small kana.
pub open spec fn split_small_kana(token: Seq<char>) -> Option<(Seq<char>, Seq<char>)> {
    if token.len() >= 2 && is_small_kana(token.last()) {
        Some((token.drop_last(), seq![token.last()]))
    } else {
        None
    }
}

/// Spellings that type a small kana on its own (beginning with `x` or `l`).
pub open spec fn starts_x_or_l(o: OptionSpec) -> bool {
    o.romaji.len() > 0 && (o.romaji[0] == 'x' || o.romaji[0] == 'l')
}

/// The spellings of a kana followed by a small kana, typed as the kana then the small kana on
/// its own: every spelling of the kana followed by every `x`/`l` spelling of the small kana.
pub open spec fn small_kana_composed(token: Seq<char>) -> Option<Seq<OptionSpec>> {
    match split_small_kana(token) {
        None => None,
        Some((base, small)) => match (romaji_table(base), romaji_table(small)) {
            (Some(b), Some(s)) => {
                let opts = dedup_options(
                    cross_options(sort_options(b), sort_options(s).filter(|o: OptionSpec| starts_x_or_l(o))),
                );
                if opts.len() == 0 {
                    None
                } else {
                    Some(opts)
                }
            },
            _ => None,
        },
    }
}

/// Raises every priority by the composition bias.
pub open spec fn biased(s: Seq<OptionSpec>) -> Seq<OptionSpec> {
    s.map_values(|o: OptionSpec| option_spec(o.romaji, sat_add(o.priority, COMPOSED_OPTION_PRIORITY_BIAS)))
}

/// The spellings of a kana unit: the table's own, then the composed ones (biased), sorted by
/// priority, each spelling once.
pub open spec fn kana_options_spec(token: Seq<char>) -> Option<Seq<OptionSpec>> {
    let all = (match romaji_table(token) {
        Some(t) => t,
        None => Seq::empty(),
    }) + (match small_kana_composed(token) {
        Some(c) => biased(c),
        None => Seq::empty(),
    });
    if all.len() == 0 {
        None
    } else {
        Some(dedup_options(sort_options(all)))
    }
}

/// A spelling that begins with a vowel, `y` or `n`.
pub open spec fn starts_vowel_y_n(r: Seq<char>) -> bool {
    r.len() > 0 && (r[0] == 'a' || r[0] == 'i' || r[0] == 'u' || r[0] == 'e' || r[0] == 'o' || r[0]
        == 'y' || r[0] == 'n')
}

/// Whether `ん` may be typed as a single `n` before the unit `next`: before a symbol or an
/// unknown unit, or before a kana none of whose spellings begins with a vowel, `y` or `n`.
pub open spec fn allows_single_n(next: Seq<char>) -> bool {
    symbol_table(next) is Some || match kana_options_spec(next) {
        None => true,
        Some(o) => !(exists|i: int| 0 <= i < o.len() && starts_vowel_y_n(#[trigger] o[i].romaji)),
    }
}

/// The spellings of `ん` before `next`: `n` where allowed, then `nn`, `xn`, `n'`.
pub open spec fn hatsuon_options_spec(next: Option<Seq<char>>) -> Seq<OptionSpec> {
    let single = match next {
        Some(t) => if allows_single_n(t) {
            seq![option_spec(seq!['n'], 0)]
        } else {
            Seq::empty()
        },
        None => Seq::empty(),
    };
    single + seq![
        option_spec(seq!['n', 'n'], 1),
        option_spec(seq!['x', 'n'], 2),
        option_spec(seq!['n', '\''], 3),
    ]
}

/// The message for a unit that neither table knows.
pub open spec fn unknown_unit_message(token: Seq<char>) -> Seq<char> {
    seq!['"'] + token + "\" is not in ROMAJI_TABLE/SYMBOL_TABLE"@
}

/// The spellings of one unit of the reading, `next` being the unit after it.
pub open spec fn resolve_options_spec(token: Seq<char>, next: Option<Seq<char>>) -> Result<
    Seq<OptionSpec>,
    Seq<char>,
> {
    if token == seq!['ん'] {
        Ok(hatsuon_options_spec(next))
    } else if symbol_table(token) is Some {
        Ok(symbol_table(token)->0)
    } else {
        match kana_options_spec(token) {
            Some(o) => Ok(o),
            None => Err(unknown_unit_message(token)),
        }
    }
}

/// Every option of `bs` followed by every option of `ss`.
fn cross(bs: &Vec<RomajiOption>, ss: &Vec<RomajiOption>) -> (r: Vec<RomajiOption>)
    ensures
        view_seq(r@) == cross_options(view_seq(bs@), view_seq(ss@)),
{
    let ghost bv = view_seq(bs@);
    let ghost sv = view_seq(ss@);
    let mut r: Vec<RomajiOption> = Vec::new();
    let mut i: usize = 0;
    while i < bs.len()
        invariant
            bv == view_seq(bs@),
            sv == view_seq(ss@),
            0 <= i <= bs.len(),
            view_seq(r@) == cross_options(bv.take(i as int), sv),
        decreases bs.len() - i,
    {
        let ghost b = bv[i as int];
        let mut j: usize = 0;
        while j < ss.len()
            invariant
                bv == view_seq(bs@),
                sv == view_seq(ss@),
                0 <= i < bs.len(),
                b == bv[i as int],
                0 <= j <= ss.len(),
                view_seq(r@) == cross_options(bv.take(i as int), sv) + sv.take(j as int).map_values(
                    |s: OptionSpec| join_option(b, s),
                ),
            decreases ss.len() - j,
        {
            let ghost before = view_seq(r@);
            let romaji = concat_chars(&bs[i].romaji, &ss[j].romaji);
            let priority = bs[i].priority.saturating_add(ss[j].priority);
            r.push(RomajiOption { romaji, priority });
            j += 1;
            assert(view_seq(r@) =~= before.push(join_option(b, sv[j - 1])));
            assert(sv.take(j as int).map_values(|s: OptionSpec| join_option(b, s)) =~= sv.take(
                (j - 1) as int,
            ).map_values(|s: OptionSpec| join_option(b, s)).push(join_option(b, sv[j - 1])));
        }
        assert(sv.take(ss.len() as int) =~= sv);
        assert(bv.take(i + 1).drop_last() =~= bv.take(i as int));
        i += 1;
    }
    assert(bv.take(bs.len() as int) =~= bv);
    r
}

/// The options whose spelling begins with `x` or `l`.
fn keep_x_or_l(v: &Vec<RomajiOption>) -> (r: Vec<RomajiOption>)
    ensures
        view_seq(r@) == view_seq(v@).filter(|o: OptionSpec| starts_x_or_l(o)),
{
    let ghost vs = view_seq(v@);
    let mut r: Vec<RomajiOption> = Vec::new();
    let mut i: usize = 0;
    while i < v.len()
        invariant
            vs == view_seq(v@),
            0 <= i <= v.len(),
            view_seq(r@) == vs.take(i as int).filter(|o: OptionSpec| starts_x_or_l(o)),
        decreases v.len() - i,
    {
        let ghost before = view_seq(r@);
        proof {
            vs.take(i as int).lemma_filter_push(vs[i as int], |o: OptionSpec| starts_x_or_l(o));
            assert(vs.take(i + 1) =~= vs.take(i as int).push(vs[i as int]));
        }
        let romaji = &v[i].romaji;
        if romaji.len() > 0 && (romaji[0] == 'x' || romaji[0] == 'l') {
            r.push(v[i].duplicate());
            assert(view_seq(r@) =~= before.push(vs[i as int]));
        }
        i += 1;
    }
    assert(vs.take(v.len() as int) =~= vs);
    r
}

/// Whether `c` is one of the small kana.
pub fn is_small_kana_char(c: char) -> (r: bool)
    ensures
        r == is_small_kana(c),
{
    c == 'ぁ' || c == 'ぃ' || c == 'ぅ' || c == 'ぇ' || c == 'ぉ' || c == 'ゃ' || c == 'ゅ' || c == 'ょ' || c
        == 'ゎ'
}

/// Splits a unit that ends in a small kana into the part before it and the small kana.
pub fn split_small_kana_token(token: &Vec<char>) -> (r: Option<(Vec<char>, Vec<char>)>)
    ensures
        match r {
            Some((base, small)) => split_small_kana(token@) == Some((base@, small@)),
            None => split_small_kana(token@) is None,
        },
{
    if token.len() < 2 || !is_small_kana_char(token[token.len() - 1]) {
        return None;
    }
    let mut base: Vec<char> = Vec::new();
    let mut i: usize = 0;
    while i + 1 < token.len()
        invariant
            token.len() >= 2,
            0 <= i <= token.len() - 1,
            base@ == token@.take(i as int),
        decreases token.len() - i,
    {
        base.push(token[i]);
        i += 1;
        assert(base@ =~= token@.take(i as int));
    }
    let mut small: Vec<char> = Vec::new();
    small.push(token[token.len() - 1]);
    assert(base@ =~= token@.drop_last());
    assert(small@ =~= seq![token@.last()]);
    Some((base, small))
}

/// The spellings of a kana followed by a small kana typed as two parts.
pub fn small_kana_composed_options(token: &Vec<char>) -> (r: Option<Vec<RomajiOption>>)
    ensures
        options_opt_view(r) == small_kana_composed(token@),
{
    let (base, small) = match split_small_kana_token(token) {
        Some(parts) => parts,
        None => return None,
    };
    let base_options = match romaji_table_get(&base) {
        Some(o) => o,
        None => return None,
    };
    let small_options = match romaji_table_get(&small) {
        Some(o) => o,
        None => return None,
    };
    let base_sorted = stable_sort(&base_options);
    let small_sorted = stable_sort(&small_options);
    let small_kept = keep_x_or_l(&small_sorted);
    let combined = cross(&base_sorted, &small_kept);
    let options = dedup_spellings(&combined);
    if options.len() == 0 {
        None
    } else {
        Some(options)
    }
}

/// Raises every priority by the composition bias.
fn bias_all(v: &Vec<RomajiOption>) -> (r: Vec<RomajiOption>)
    ensures
        view_seq(r@) == biased(view_seq(v@)),
{
    let ghost vs = view_seq(v@);
    let mut r: Vec<RomajiOption> = Vec::new();
    let mut i: usize = 0;
    while i < v.len()
        invariant
            vs == view_seq(v@),
            0 <= i <= v.len(),
            view_seq(r@) == biased(vs.take(i as int)),
        decreases v.len() - i,
    {
        let romaji = copy_chars(&v[i].romaji);
        let priority = v[i].priority.saturating_add(COMPOSED_OPTION_PRIORITY_BIAS);
        let ghost before = view_seq(r@);
        r.push(RomajiOption { romaji, priority });
        i += 1;
        let ghost item = option_spec(vs[i - 1].romaji, sat_add(vs[i - 1].priority, COMPOSED_OPTION_PRIORITY_BIAS));
        assert(view_seq(r@) =~= before.push(item));
        assert(biased(vs.take(i as int)) =~= biased(vs.take((i - 1) as int)).push(item));
    }
    assert(vs.take(v.len() as int) =~= vs);
    r
}

/// The spellings of a kana unit (see [`kana_options_spec`]).
pub fn kana_options(token: &Vec<char>) -> (r: Option<Vec<RomajiOption>>)
    ensures
        options_opt_view(r) == kana_options_spec(token@),
{
    let mut options: Vec<RomajiOption> = match romaji_table_get(token) {
        Some(t) => t,
        None => Vec::new(),
    };
    let ghost table_part = view_seq(options@);
    match small_kana_composed_options(token) {
        Some(composed) => {
            let mut b = bias_all(&composed);
            let ghost bv = view_seq(b@);
            options.append(&mut b);
            assert(view_seq(options@) =~= table_part + bv);
        },
        None => {
            assert(view_seq(options@) =~= table_part + Seq::<OptionSpec>::empty());
        },
    }
    if options.len() == 0 {
        return None;
    }
    let sorted = stable_sort(&options);
    Some(dedup_spellings(&sorted))
}

/// The keys typed for a symbol unit.
pub fn symbol_options(token: &Vec<char>) -> (r: Option<Vec<RomajiOption>>)
    ensures
        options_opt_view(r) == symbol_table(token@),
{
    symbol_table_get(token)
}

/// Whether `ん` may be typed as a single `n` before the unit `next_token`.
#[verifier::spinoff_prover]
#[verifier::rlimit(40)]
pub fn allows_single_n_before_token(next_token: &Vec<char>) -> (r: bool)
    ensures
        r == allows_single_n(next_token@),
{
    if symbol_options(next_token).is_some() {
        return true;
    }
    assert(symbol_table(next_token@) is None);
    let options = match kana_options(next_token) {
        Some(o) => o,
        None => return true,
    };
    let ghost ov = view_seq(options@);
    assert(kana_options_spec(next_token@) == Some(ov));
    let mut i: usize = 0;
    while i < options.len()
        invariant
            ov == view_seq(options@),
            symbol_table(next_token@) is None,
            kana_options_spec(next_token@) == Some(ov),
            0 <= i <= options.len(),
            forall|j: int| 0 <= j < i ==> !starts_vowel_y_n(#[trigger] ov[j].romaji),
        decreases options.len() - i,
    {
        let r = &options[i].romaji;
        assert(r@ == ov[i as int].romaji);
        if r.len() > 0 && (r[0] == 'a' || r[0] == 'i' || r[0] == 'u' || r[0] == 'e' || r[0] == 'o'
            || r[0] == 'y' || r[0] == 'n') {
            assert(starts_vowel_y_n(ov[i as int].romaji));
            assert(exists|j: int| 0 <= j < ov.len() && starts_vowel_y_n(#[trigger] ov[j].romaji));
            let ghost kv = kana_options_spec(next_token@);
            assert(kv is Some);
            assert(kv->0 == ov);
            assert(!allows_single_n(next_token@));
            return false;
        }
        i += 1;
    }
    true
}

/// The spellings of `ん`, `next_token` being the unit after it.
pub fn hatsuon_options(next_token: Option<&Vec<char>>) -> (r: Vec<RomajiOption>)
    ensures
        view_seq(r@) == hatsuon_options_spec(
            match next_token {
                Some(t) => Some(t@),
                None => None,
            },
        ),
{
    proof {
        reveal_strlit("n");
        reveal_strlit("nn");
        reveal_strlit("xn");
        reveal_strlit("n'");
        assert("n"@ =~= seq!['n']);
        assert("nn"@ =~= seq!['n', 'n']);
        assert("xn"@ =~= seq!['x', 'n']);
        assert("n'"@ =~= seq!['n', '\'']);
    }
    let mut options: Vec<RomajiOption> = Vec::new();
    let single = match next_token {
        Some(t) => allows_single_n_before_token(t),
        None => false,
    };
    if single {
        options.push(RomajiOption::new("n", 0));
    }
    options.push(RomajiOption::new("nn", 1));
    options.push(RomajiOption::new("xn", 2));
    options.push(RomajiOption::new("n'", 3));
    assert(view_seq(options@) =~= hatsuon_options_spec(
        match next_token {
            Some(t) => Some(t@),
            None => None,
        },
    ));
    options
}

/// The message for a unit that neither table knows.
fn unknown_unit_error(token: &Vec<char>) -> (s: String)
    ensures
        s@ == unknown_unit_message(token@),
{
    let mut s = String::new();
    string_push(&mut s, '"');
    let mut i: usize = 0;
    while i < token.len()
        invariant
            0 <= i <= token.len(),
            s@ == seq!['"'] + token@.take(i as int),
        decreases token.len() - i,
    {
        string_push(&mut s, token[i]);
        i += 1;
        assert(s@ =~= seq!['"'] + token@.take(i as int));
    }
    assert(token@.take(token.len() as int) =~= token@);
    string_append(&mut s, "\" is not in ROMAJI_TABLE/SYMBOL_TABLE");
    s
}

/// The spellings of one unit of the reading, `next_token` being the unit after it.
pub fn resolve_options(token: &Vec<char>, next_token: Option<&Vec<char>>) -> (r: Result<
    Vec<RomajiOption>,
    String,
>)
    ensures
        match r {
            Ok(v) => resolve_options_spec(
                token@,
                match next_token {
                    Some(t) => Some(t@),
                    None => None,
                },
            ) == Ok::<Seq<OptionSpec>, Seq<char>>(view_seq(v@)),
            Err(e) => resolve_options_spec(
                token@,
                match next_token {
                    Some(t) => Some(t@),
                    None => None,
                },
            ) == Err::<Seq<OptionSpec>, Seq<char>>(e@),
        },
{
    if token.len() == 1 && token[0] == 'ん' {
        assert(token@ =~= seq!['ん']);
        return Ok(hatsuon_options(next_token));
    }
    assert(token@ != seq!['ん']) by {
        if token@ == seq!['ん'] {
            assert(token@.len() == 1 && token@[0] == 'ん');
        }
    }
    if let Some(symbols) = symbol_options(token) {
        return Ok(symbols);
    }
    match kana_options(token) {
        Some(o) => Ok(o),
        None => Err(unknown_unit_error(token)),
    }
}

/// A spelling of a kana-plus-small-kana unit typed in two parts, with its progress marker: after
/// the keys of the kana, the kana counts as typed.
pub struct MarkerEntry {
    pub romaji: Vec<char>,
    pub input_chars: usize,
    pub completed_chars: usize,
}

pub struct MarkerSpec {
    pub romaji: Seq<char>,
    pub marker: (usize, usize),
}

impl View for MarkerEntry {
    type V = MarkerSpec;

    open spec fn view(&self) -> MarkerSpec {
        MarkerSpec { romaji: self.romaji@, marker: (self.input_chars, self.completed_chars) }
    }
}

/// The marker entries of every spelling of `bs` followed by every spelling of `ss`: after the
/// keys of the first part, `base_len` characters count as typed.
pub open spec fn marker_entries(bs: Seq<OptionSpec>, ss: Seq<OptionSpec>, base_len: nat) -> Seq<
    MarkerSpec,
>
    decreases bs.len(),
{
    if bs.len() == 0 {
        Seq::empty()
    } else {
        marker_entries(bs.drop_last(), ss, base_len) + ss.map_values(
            |s: OptionSpec|
                MarkerSpec {
                    romaji: bs.last().romaji + s.romaji,
                    marker: (bs.last().romaji.len() as usize, base_len as usize),
                },
        )
    }
}

/// The progress markers of a unit ending in a small kana, in table order.
pub open spec fn progress_markers_spec(token: Seq<char>) -> Seq<MarkerSpec> {
    match split_small_kana(token) {
        None => Seq::empty(),
        Some((base, small)) => match (romaji_table(base), romaji_table(small)) {
            (Some(b), Some(s)) => marker_entries(
                b,
                s.filter(|o: OptionSpec| starts_x_or_l(o)),
                base.len(),
            ),
            _ => Seq::empty(),
        },
    }
}

/// The marker recorded last for `romaji`, if any.
pub open spec fn marker_lookup(entries: Seq<MarkerSpec>, romaji: Seq<char>) -> Option<(usize, usize)>
    decreases entries.len(),
{
    if entries.len() == 0 {
        None
    } else if entries.last().romaji == romaji {
        Some(entries.last().marker)
    } else {
        marker_lookup(entries.drop_last(), romaji)
    }
}

/// An option with the marker recorded for its spelling, if any.
pub open spec fn with_markers(o: OptionSpec, entries: Seq<MarkerSpec>) -> BuildSpec {
    BuildSpec {
        romaji: o.romaji,
        priority: o.priority,
        markers: match marker_lookup(entries, o.romaji) {
            Some(m) => seq![m],
            None => Seq::empty(),
        },
    }
}

/// The build options of one unit: its spellings with their progress markers.
pub open spec fn resolve_build_spec(token: Seq<char>, next: Option<Seq<char>>) -> Result<
    Seq<BuildSpec>,
    Seq<char>,
> {
    match resolve_options_spec(token, next) {
        Err(e) => Err(e),
        Ok(opts) => Ok(
            opts.map_values(|o: OptionSpec| with_markers(o, progress_markers_spec(token))),
        ),
    }
}

/// The progress markers of a unit ending in a small kana (see [`progress_markers_spec`]).
pub fn small_kana_progress_markers(token: &Vec<char>) -> (r: Vec<MarkerEntry>)
    ensures
        view_seq(r@) == progress_markers_spec(token@),
{
    let (base, small) = match split_small_kana_token(token) {
        Some(parts) => parts,
        None => return Vec::new(),
    };
    let base_options = match romaji_table_get(&base) {
        Some(o) => o,
        None => return Vec::new(),
    };
    let small_options = match romaji_table_get(&small) {
        Some(o) => o,
        None => return Vec::new(),
    };
    let small_kept = keep_x_or_l(&small_options);
    let ghost bv = view_seq(base_options@);
    let ghost sv = view_seq(small_kept@);
    let base_len = base.len();
    let mut markers: Vec<MarkerEntry> = Vec::new();
    let mut i: usize = 0;
    while i < base_options.len()
        invariant
            bv == view_seq(base_options@),
            sv == view_seq(small_kept@),
            base_len == base@.len(),
            0 <= i <= base_options.len(),
            view_seq(markers@) == marker_entries(bv.take(i as int), sv, base_len as nat),
        decreases base_options.len() - i,
    {
        let ghost b = bv[i as int];
        let ghost f = |s: OptionSpec|
            MarkerSpec { romaji: b.romaji + s.romaji, marker: (b.romaji.len() as usize, base_len) };
        let mut j: usize = 0;
        while j < small_kept.len()
            invariant
                bv == view_seq(base_options@),
                sv == view_seq(small_kept@),
                0 <= i < base_options.len(),
                b == bv[i as int],
                f == (|s: OptionSpec|
                    MarkerSpec { romaji: b.romaji + s.romaji, marker: (b.romaji.len() as usize, base_len) }),
                0 <= j <= small_kept.len(),
                view_seq(markers@) == marker_entries(bv.take(i as int), sv, base_len as nat) + sv.take(
                    j as int,
                ).map_values(f),
            decreases small_kept.len() - j,
        {
            let ghost before = view_seq(markers@);
            let romaji = concat_chars(&base_options[i].romaji, &small_kept[j].romaji);
            markers.push(
                MarkerEntry { romaji, input_chars: base_options[i].romaji.len(), completed_chars: base_len },
            );
            j += 1;
            assert(view_seq(markers@) =~= before.push(f(sv[j - 1])));
            assert(sv.take(j as int).map_values(f) =~= sv.take((j - 1) as int).map_values(f).push(
                f(sv[j - 1]),
            ));
        }
        assert(sv.take(small_kept.len() as int) =~= sv);
        assert(bv.take(i + 1).drop_last() =~= bv.take(i as int));
        assert(sv.map_values(f) =~= sv.map_values(
            |s: OptionSpec|
                MarkerSpec {
                    romaji: bv.take(i + 1).last().romaji + s.romaji,
                    marker: (bv.take(i + 1).last().romaji.len() as usize, base_len as nat as usize),
                },
        ));
        i += 1;
    }
    assert(bv.take(base_options.len() as int) =~= bv);
    markers
}

/// The marker recorded last for `romaji` in `entries`.
fn lookup_marker(entries: &Vec<MarkerEntry>, romaji: &Vec<char>) -> (r: Option<(usize, usize)>)
    ensures
        r == marker_lookup(view_seq(entries@), romaji@),
{
    let ghost ev = view_seq(entries@);
    let mut i: usize = entries.len();
    while i > 0
        invariant
            ev == view_seq(entries@),
            0 <= i <= entries.len(),
            marker_lookup(ev, romaji@) == marker_lookup(ev.take(i as int), romaji@),
        decreases i,
    {
        assert(ev.take(i as int).drop_last() =~= ev.take(i - 1));
        if chars_eq(&entries[i - 1].romaji, romaji) {
            return Some((entries[i - 1].input_chars, entries[i - 1].completed_chars));
        }
        i -= 1;
    }
    None
}

/// The build options of one unit: its spellings with their progress markers.
pub fn resolve_build_options(token: &Vec<char>, next_token: Option<&Vec<char>>) -> (r: Result<
    Vec<BuildOption>,
    String,
>)
    ensures
        match r {
            Ok(v) => resolve_build_spec(
                token@,
                match next_token {
                    Some(t) => Some(t@),
                    None => None,
                },
            ) == Ok::<Seq<BuildSpec>, Seq<char>>(view_seq(v@)),
            Err(e) => resolve_build_spec(
                token@,
                match next_token {
                    Some(t) => Some(t@),
                    None => None,
                },
            ) == Err::<Seq<BuildSpec>, Seq<char>>(e@),
        },
{
    let options = match resolve_options(token, next_token) {
        Ok(o) => o,
        Err(e) => return Err(e),
    };
    let markers = small_kana_progress_markers(token);
    let ghost ov = view_seq(options@);
    let ghost mv = view_seq(markers@);
    let mut result: Vec<BuildOption> = Vec::new();
    let mut i: usize = 0;
    while i < options.len()
        invariant
            ov == view_seq(options@),
            mv == view_seq(markers@),
            mv == progress_markers_spec(token@),
            0 <= i <= options.len(),
            view_seq(result@) == ov.take(i as int).map_values(|o: OptionSpec| with_markers(o, mv)),
        decreases options.len() - i,
    {
        let ghost before = view_seq(result@);
        let mut progress_markers: Vec<(usize, usize)> = Vec::new();
        match lookup_marker(&markers, &options[i].romaji) {
            Some(m) => progress_markers.push(m),
            None => {},
        }
        assert(progress_markers@ =~= with_markers(ov[i as int], mv).markers);
        result.push(
            BuildOption {
                romaji: copy_chars(&options[i].romaji),
                priority: options[i].priority,
                progress_markers,
            },
        );
        i += 1;
        assert(view_seq(result@) =~= before.push(with_markers(ov[i - 1], mv)));
        assert(ov.take(i as int).map_values(|o: OptionSpec| with_markers(o, mv)) =~= ov.take(
            (i - 1) as int,
        ).map_values(|o: OptionSpec| with_markers(o, mv)).push(with_markers(ov[i - 1], mv)));
    }
    assert(ov.take(options.len() as int) =~= ov);
    Ok(result)
}

/// A consonant that may be doubled to type `っ`: a lowercase ASCII letter other than a vowel
/// or `n`.
pub open spec fn sokuon_repeatable(c: char) -> bool {
    'a' <= c <= 'z' && !(c == 'a' || c == 'i' || c == 'u' || c == 'e' || c == 'o' || c == 'n')
}

/// The ways of typing one `っ` before a kana spelled `next_romaji`, before ordering: its first
/// consonant doubled, `t` before `ch`, then `ltu`, `xtu`, `ltsu`, `xtsu`.
pub open spec fn sokuon_prefix_list(next_romaji: Seq<char>) -> Seq<OptionSpec> {
    (if next_romaji.len() > 0 && sokuon_repeatable(next_romaji[0]) {
        seq![option_spec(seq![next_romaji[0]], 0)]
    } else {
        Seq::empty()
    }) + (if next_romaji.len() >= 2 && next_romaji[0] == 'c' && next_romaji[1] == 'h' {
        seq![option_spec(seq!['t'], 1)]
    } else {
        Seq::empty()
    }) + seq![
        option_spec(seq!['l', 't', 'u'], 10),
        option_spec(seq!['x', 't', 'u'], 11),
        option_spec(seq!['l', 't', 's', 'u'], 12),
        option_spec(seq!['x', 't', 's', 'u'], 13),
    ]
}

/// The ways of typing one `っ` before a kana spelled `next_romaji`, each once, by priority.
pub open spec fn sokuon_prefix_spec(next_romaji: Seq<char>) -> Seq<OptionSpec> {
    sort_options(dedup_options(sokuon_prefix_list(next_romaji)))
}

/// The ways of typing `count` consecutive `っ`: every combination of `count` prefixes; after
/// each step, only the 32 best (by stable priority order) are kept when there are more.
pub open spec fn expand_prefixes_spec(prefixes: Seq<OptionSpec>, count: nat) -> Seq<OptionSpec>
    decreases count,
{
    if count == 0 {
        seq![option_spec(Seq::empty(), 0)]
    } else {
        let next = cross_options(expand_prefixes_spec(prefixes, (count - 1) as nat), prefixes);
        if next.len() > MAX_COMBINATIONS {
            sort_options(next).take(MAX_COMBINATIONS as int)
        } else {
            next
        }
    }
}

/// A run of `っ` typed as `p`, then the following kana typed as `n`; after the keys of `p`
/// the whole run counts as typed.
pub open spec fn sokuon_join(p: OptionSpec, n: OptionSpec, count: nat) -> BuildSpec {
    BuildSpec {
        romaji: p.romaji + n.romaji,
        priority: sat_add(n.priority, p.priority),
        markers: seq![(p.romaji.len() as usize, count as usize)],
    }
}

/// For each spelling `n` of the following kana in turn, every way of typing the run before it.
pub open spec fn sokuon_candidates(nexts: Seq<OptionSpec>, count: nat) -> Seq<BuildSpec>
    decreases nexts.len(),
{
    if nexts.len() == 0 {
        Seq::empty()
    } else {
        sokuon_candidates(nexts.drop_last(), count) + expand_prefixes_spec(
            sokuon_prefix_spec(nexts.last().romaji),
            count,
        ).map_values(|p: OptionSpec| sokuon_join(p, nexts.last(), count))
    }
}

/// The spellings of a run of `count` `っ` together with the kana unit `next` that follows it
/// (or of the run alone at the end of the reading).
pub open spec fn sokuon_options_spec(count: nat, next: Option<Seq<char>>) -> Option<Seq<BuildSpec>> {
    if count == 0 {
        None
    } else {
        match next {
            None => Some(
                sort_options(expand_prefixes_spec(sokuon_prefix_spec(Seq::empty()), count)).map_values(
                    |o: OptionSpec| plain_build(o),
                ),
            ),
            Some(t) => match kana_options_spec(t) {
                None => None,
                Some(k) => {
                    let opts = dedup_builds(sokuon_candidates(sort_options(k), count));
                    if opts.len() == 0 {
                        None
                    } else {
                        Some(sort_builds(opts))
                    }
                },
            },
        }
    }
}

/// Whether `c` may be doubled to type `っ`.
pub fn is_sokuon_repeatable(c: char) -> (r: bool)
    ensures
        r == sokuon_repeatable(c),
{
    ('a' <= c && c <= 'z') && !(c == 'a' || c == 'i' || c == 'u' || c == 'e' || c == 'o' || c == 'n')
}

/// The ways of typing one `っ` before a kana spelled `next_romaji`.
pub fn sokuon_prefix_options(next_romaji: &Vec<char>) -> (r: Vec<RomajiOption>)
    ensures
        view_seq(r@) == sokuon_prefix_spec(next_romaji@),
{
    proof {
        reveal_strlit("t");
        reveal_strlit("ltu");
        reveal_strlit("xtu");
        reveal_strlit("ltsu");
        reveal_strlit("xtsu");
        assert("t"@ =~= seq!['t']);
        assert("ltu"@ =~= seq!['l', 't', 'u']);
        assert("xtu"@ =~= seq!['x', 't', 'u']);
        assert("ltsu"@ =~= seq!['l', 't', 's', 'u']);
        assert("xtsu"@ =~= seq!['x', 't', 's', 'u']);
    }
    let mut options: Vec<RomajiOption> = Vec::new();
    if next_romaji.len() > 0 && is_sokuon_repeatable(next_romaji[0]) {
        let mut head: Vec<char> = Vec::new();
        head.push(next_romaji[0]);
        options.push(RomajiOption { romaji: head, priority: 0 });
    }
    if next_romaji.len() >= 2 && next_romaji[0] == 'c' && next_romaji[1] == 'h' {
        options.push(RomajiOption::new("t", 1));
    }
    options.push(RomajiOption::new("ltu", 10));
    options.push(RomajiOption::new("xtu", 11));
    options.push(RomajiOption::new("ltsu", 12));
    options.push(RomajiOption::new("xtsu", 13));
    assert(view_seq(options@) =~= sokuon_prefix_list(next_romaji@));
    let unique = dedup_spellings(&options);
    stable_sort(&unique)
}

/// The ways of typing `sokuon_count` consecutive `っ` from the one-`っ` prefixes.
pub fn expand_sokuon_prefixes(prefix_options: &Vec<RomajiOption>, sokuon_count: usize) -> (r: Vec<
    RomajiOption,
>)
    ensures
        view_seq(r@) == expand_prefixes_spec(view_seq(prefix_options@), sokuon_count as nat),
{
    let ghost pv = view_seq(prefix_options@);
    let mut combinations: Vec<RomajiOption> = Vec::new();
    combinations.push(RomajiOption { romaji: Vec::new(), priority: 0 });
    assert(view_seq(combinations@) =~= expand_prefixes_spec(pv, 0));
    let mut k: usize = 0;
    while k < sokuon_count
        invariant
            pv == view_seq(prefix_options@),
            0 <= k <= sokuon_count,
            view_seq(combinations@) == expand_prefixes_spec(pv, k as nat),
        decreases sokuon_count - k,
    {
        let next = cross(&combinations, prefix_options);
        if next.len() > MAX_COMBINATIONS {
            let mut sorted = stable_sort(&next);
            let ghost sv = view_seq(sorted@);
            sorted.truncate(MAX_COMBINATIONS);
            assert(view_seq(sorted@) =~= sv.take(MAX_COMBINATIONS as int));
            combinations = sorted;
        } else {
            combinations = next;
        }
        k += 1;
    }
    combinations
}

/// The spellings of a run of `sokuon_count` `っ` followed by the unit `next_token`.
#[verifier::spinoff_prover]
#[verifier::rlimit(40)]
pub fn sokuon_options_with_markers(sokuon_count: usize, next_token: Option<&Vec<char>>) -> (r: Option<
    Vec<BuildOption>,
>)
    ensures
        match r {
            Some(v) => sokuon_options_spec(
                sokuon_count as nat,
                match next_token {
                    Some(t) => Some(t@),
                    None => None,
                },
            ) == Some(view_seq(v@)),
            None => sokuon_options_spec(
                sokuon_count as nat,
                match next_token {
                    Some(t) => Some(t@),
                    None => None,
                },
            ) is None,
        },
{
    if sokuon_count == 0 {
        return None;
    }
    let next_token = match next_token {
        None => {
            let empty: Vec<char> = Vec::new();
            assert(empty@ =~= Seq::<char>::empty());
            let prefixes = sokuon_prefix_options(&empty);
            let expanded = expand_sokuon_prefixes(&prefixes, sokuon_count);
            let sorted = stable_sort(&expanded);
            let ghost sv = view_seq(sorted@);
            let mut result: Vec<BuildOption> = Vec::new();
            let mut i: usize = 0;
            while i < sorted.len()
                invariant
                    sv == view_seq(sorted@),
                    0 <= i <= sorted.len(),
                    view_seq(result@) == sv.take(i as int).map_values(|o: OptionSpec| plain_build(o)),
                decreases sorted.len() - i,
            {
                let ghost before = view_seq(result@);
                result.push(BuildOption::from_romaji_option(sorted[i].duplicate()));
                i += 1;
                assert(view_seq(result@) =~= before.push(plain_build(sv[i - 1])));
                assert(sv.take(i as int).map_values(|o: OptionSpec| plain_build(o)) =~= sv.take(
                    (i - 1) as int,
                ).map_values(|o: OptionSpec| plain_build(o)).push(plain_build(sv[i - 1])));
            }
            assert(sv.take(sorted.len() as int) =~= sv);
            return Some(result);
        },
        Some(t) => t,
    };
    let next_options = match kana_options(next_token) {
        Some(o) => o,
        None => return None,
    };
    let nexts = stable_sort(&next_options);
    let ghost nv = view_seq(nexts@);
    let ghost count = sokuon_count as nat;
    let mut candidates: Vec<BuildOption> = Vec::new();
    let mut i: usize = 0;
    while i < nexts.len()
        invariant
            nv == view_seq(nexts@),
            count == sokuon_count as nat,
            0 <= i <= nexts.len(),
            view_seq(candidates@) == sokuon_candidates(nv.take(i as int), count),
        decreases nexts.len() - i,
    {
        let prefixes = sokuon_prefix_options(&nexts[i].romaji);
        let combos = expand_sokuon_prefixes(&prefixes, sokuon_count);
        let ghost cv = view_seq(combos@);
        let ghost n = nv[i as int];
        let ghost f = |p: OptionSpec| sokuon_join(p, n, count);
        let mut j: usize = 0;
        while j < combos.len()
            invariant
                nv == view_seq(nexts@),
                cv == view_seq(combos@),
                count == sokuon_count as nat,
                0 <= i < nexts.len(),
                n == nv[i as int],
                f == (|p: OptionSpec| sokuon_join(p, n, count)),
                0 <= j <= combos.len(),
                view_seq(candidates@) == sokuon_candidates(nv.take(i as int), count) + cv.take(
                    j as int,
                ).map_values(f),
            decreases combos.len() - j,
        {
            let ghost before = view_seq(candidates@);
            let romaji = concat_chars(&combos[j].romaji, &nexts[i].romaji);
            let mut markers: Vec<(usize, usize)> = Vec::new();
            markers.push((combos[j].romaji.len(), sokuon_count));
            candidates.push(
                BuildOption {
                    romaji,
                    priority: nexts[i].priority.saturating_add(combos[j].priority),
                    progress_markers: markers,
                },
            );
            j += 1;
            assert(view_seq(candidates@) =~= before.push(f(cv[j - 1])));
            assert(cv.take(j as int).map_values(f) =~= cv.take((j - 1) as int).map_values(f).push(
                f(cv[j - 1]),
            ));
        }
        assert(cv.take(combos.len() as int) =~= cv);
        assert(nv.take(i + 1).drop_last() =~= nv.take(i as int));
        assert(cv.map_values(f) =~= expand_prefixes_spec(
            sokuon_prefix_spec(nv.take(i + 1).last().romaji),
            count,
        ).map_values(|p: OptionSpec| sokuon_join(p, nv.take(i + 1).last(), count)));
        i += 1;
    }
    assert(nv.take(nexts.len() as int) =~= nv);
    let unique = dedup_spellings(&candidates);
    if unique.len() == 0 {
        None
    } else {
        Some(stable_sort(&unique))
    }
}

/// Every progress marker of `o` counts at most `bound` characters as typed.
pub open spec fn marker_ok(o: BuildSpec, bound: nat) -> bool {
    forall|j: int| 0 <= j < o.markers.len() ==> (#[trigger] o.markers[j]).1 <= bound
}

/// Every progress marker of every option counts at most `bound` characters as typed.
pub open spec fn markers_bounded(opts: Seq<BuildSpec>, bound: nat) -> bool {
    forall|i: int| 0 <= i < opts.len() ==> #[trigger] marker_ok(opts[i], bound)
}

proof fn lemma_marker_entries(bs: Seq<OptionSpec>, ss: Seq<OptionSpec>, base_len: nat)
    ensures
        forall|i: int|
            0 <= i < marker_entries(bs, ss, base_len).len() ==> (#[trigger] marker_entries(
                bs,
                ss,
                base_len,
            )[i]).marker.1 == base_len as usize,
    decreases bs.len(),
{
    if bs.len() > 0 {
        lemma_marker_entries(bs.drop_last(), ss, base_len);
        let a = marker_entries(bs.drop_last(), ss, base_len);
        assert forall|i: int| 0 <= i < marker_entries(bs, ss, base_len).len() implies (
        #[trigger] marker_entries(bs, ss, base_len)[i]).marker.1 == base_len as usize by {
            if i < a.len() {
                assert(marker_entries(bs, ss, base_len)[i] == a[i]);
            }
        }
    }
}

proof fn lemma_marker_lookup(entries: Seq<MarkerSpec>, romaji: Seq<char>)
    ensures
        marker_lookup(entries, romaji) matches Some(m) ==> exists|i: int|
            0 <= i < entries.len() && (#[trigger] entries[i]).marker == m,
    decreases entries.len(),
{
    if entries.len() > 0 && entries.last().romaji != romaji {
        lemma_marker_lookup(entries.drop_last(), romaji);
        if let Some(m) = marker_lookup(entries, romaji) {
            let i = choose|i: int| 0 <= i < entries.drop_last().len() && (#[trigger] entries.drop_last()[i]).marker == m;
            assert(entries[i] == entries.drop_last()[i]);
        }
    }
}

/// The markers of a unit's options count at most the unit's characters as typed.
pub proof fn lemma_resolve_markers(token: Seq<char>, next: Option<Seq<char>>)
    ensures
        resolve_build_spec(token, next) matches Ok(o) ==> markers_bounded(o, token.len()),
{
    if let Ok(o) = resolve_build_spec(token, next) {
        let entries = progress_markers_spec(token);
        assert forall|i: int| 0 <= i < entries.len() implies (#[trigger] entries[i]).marker.1 <= token.len() by {
            if let Some((base, small)) = split_small_kana(token) {
                if let (Some(b), Some(s)) = (romaji_table(base), romaji_table(small)) {
                    lemma_marker_entries(b, s.filter(|o: OptionSpec| starts_x_or_l(o)), base.len());
                }
            }
        }
        assert forall|i: int| 0 <= i < o.len() implies #[trigger] marker_ok(o[i], token.len()) by {
            lemma_marker_lookup(entries, o[i].romaji);
        }
    }
}

proof fn lemma_candidates_markers(nexts: Seq<OptionSpec>, count: nat)
    ensures
        markers_bounded(sokuon_candidates(nexts, count), count),
    decreases nexts.len(),
{
    if nexts.len() > 0 {
        lemma_candidates_markers(nexts.drop_last(), count);
        let a = sokuon_candidates(nexts.drop_last(), count);
        let c = sokuon_candidates(nexts, count);
        assert forall|i: int| 0 <= i < c.len() implies #[trigger] marker_ok(c[i], count) by {
            if i < a.len() {
                assert(c[i] == a[i]);
            }
        }
    }
}

/// The markers of a run of `っ` count at most the run's length as typed.
pub proof fn lemma_sokuon_markers(count: nat, next: Option<Seq<char>>)
    ensures
        sokuon_options_spec(count, next) matches Some(o) ==> markers_bounded(o, count),
{
    if let Some(o) = sokuon_options_spec(count, next) {
        match next {
            None => {},
            Some(t) => {
                let k = kana_options_spec(t)->0;
                let cands = sokuon_candidates(sort_options(k), count);
                lemma_candidates_markers(sort_options(k), count);
                let p = |b: BuildSpec| marker_ok(b, count);
                lemma_dedup_keeps(cands, spelling_key::<BuildOption>(), p);
                lemma_sort_keeps(dedup_builds(cands), rank_key::<BuildOption>(), p);
                assert forall|i: int| 0 <= i < o.len() implies #[trigger] marker_ok(o[i], count) by {
                    assert(p(o[i]));
                }
            },
        }
    }
}

/// Whether a spelling begins with a key that, typed right after a single `n`, would be read
/// with it as another kana: a vowel (`na`, `ni`, …), `y` (`nya`, …) or `n` (`nn`).
pub open spec fn joins_with_n(r: Seq<char>) -> bool {
    r.len() > 0 && (r[0] == 'a' || r[0] == 'i' || r[0] == 'u' || r[0] == 'e' || r[0] == 'o' || r[0] == 'y'
        || r[0] == 'n')
}

/// `ん` may be typed as a single `n` before the unit `next` exactly when no spelling of `next`
/// would be read together with that `n`: `next` is a symbol, a unit the tables do not know, or a
/// kana none of whose spellings begins with a vowel, `y` or `n`. So before や (`ya`) a single
/// `n` is never offered: `konya` does not spell こんや. The other spellings `nn`, `xn`, `n'` are
/// always offered.
pub proof fn lemma_single_n_rule(next: Seq<char>)
    ensures
        (exists|j: int|
            0 <= j < hatsuon_options_spec(Some(next)).len() && #[trigger] hatsuon_options_spec(
                Some(next),
            )[j].romaji == seq!['n']) <==> (symbol_table(next) is Some || match kana_options_spec(next) {
            None => true,
            Some(o) => forall|i: int| 0 <= i < o.len() ==> !joins_with_n(#[trigger] o[i].romaji),
        }),
        exists|j: int|
            0 <= j < hatsuon_options_spec(Some(next)).len() && #[trigger] hatsuon_options_spec(Some(next))[j].romaji
                == seq!['n', 'n'],
        exists|j: int|
            0 <= j < hatsuon_options_spec(Some(next)).len() && #[trigger] hatsuon_options_spec(Some(next))[j].romaji
                == seq!['x', 'n'],
        exists|j: int|
            0 <= j < hatsuon_options_spec(Some(next)).len() && #[trigger] hatsuon_options_spec(Some(next))[j].romaji
                == seq!['n', '\''],
{
    let h = hatsuon_options_spec(Some(next));
    let single = if allows_single_n(next) {
        seq![option_spec(seq!['n'], 0)]
    } else {
        Seq::<OptionSpec>::empty()
    };
    let rest = seq![option_spec(seq!['n', 'n'], 1), option_spec(seq!['x', 'n'], 2), option_spec(seq!['n', '\''], 3)];
    assert(h == single + rest);
    assert forall|j: int| 0 <= j < rest.len() implies #[trigger] rest[j].romaji != seq!['n'] by {
        assert(rest[j].romaji.len() == 2);
    }
    if exists|j: int| 0 <= j < h.len() && #[trigger] h[j].romaji == seq!['n'] {
        let j = choose|j: int| 0 <= j < h.len() && #[trigger] h[j].romaji == seq!['n'];
        if j >= single.len() {
            assert(h[j] == rest[j - single.len()]);
        }
    }
    if allows_single_n(next) {
        assert(h[0].romaji == seq!['n']);
    }
    match kana_options_spec(next) {
        None => {},
        Some(o) => {
            assert((exists|i: int| 0 <= i < o.len() && starts_vowel_y_n(#[trigger] o[i].romaji)) <==> !(forall|
                i: int,
            | 0 <= i < o.len() ==> !joins_with_n(#[trigger] o[i].romaji))) by {
                assert forall|i: int| 0 <= i < o.len() implies starts_vowel_y_n(#[trigger] o[i].romaji)
                    == joins_with_n(o[i].romaji) by {}
            }
        },
    }
    let k0 = single.len() as int;
    assert(h[k0] == rest[0]);
    assert(h[k0 + 1] == rest[1]);
    assert(h[k0 + 2] == rest[2]);
    assert(h[k0].romaji == seq!['n', 'n']);
    assert(h[k0 + 1].romaji == seq!['x', 'n']);
    assert(h[k0 + 2].romaji == seq!['n', '\'']);
}

} // verus!
