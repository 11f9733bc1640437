//! Every unit of a reading that can be spelled has a spelling, and no spelling is empty.
use vstd::prelude::*;

use crate::options::{
    biased, cross_options, dedup_builds, dedup_options, expand_prefixes_spec, join_option,
    kana_options_spec, plain_build, resolve_build_spec, resolve_options_spec, small_kana_composed,
    sokuon_candidates, sokuon_join, sokuon_options_spec, sokuon_prefix_list, sokuon_prefix_spec,
    sort_builds, sort_options, split_small_kana, starts_x_or_l, BuildOption, BuildSpec,
    MAX_COMBINATIONS,
};
use crate::romaji_table::{
    lemma_pair_spelled, lemma_single_spelled, lemma_symbol_spelled, romaji_table, spelled,
    symbol_table, OptionSpec, RomajiOption,
};
use crate::seqs::{
    dedup_by_name, lemma_dedup_keeps, lemma_sort_by_key_len, lemma_sort_keeps, rank_key,
    spelling_key,
};

verus! {

/// A list of build options that is not empty and holds no empty spelling.
pub open spec fn spelled_builds(s: Seq<BuildSpec>) -> bool {
    &&& s.len() > 0
    &&& forall|i: int| 0 <= i < s.len() ==> (#[trigger] s[i]).romaji.len() > 0
}

/// De-duplication keeps at least one element of a list that has one.
pub proof fn lemma_dedup_nonempty<A>(s: Seq<A>, name: spec_fn(A) -> Seq<char>)
    requires
        s.len() > 0,
    ensures
        dedup_by_name(s, name).len() > 0,
    decreases s.len(),
{
    if s.len() > 1 {
        lemma_dedup_nonempty(s.drop_last(), name);
    }
}

/// The table entry of a unit is a list of non-empty spellings.
proof fn lemma_table_spelled(key: Seq<char>)
    ensures
        romaji_table(key) matches Some(l) ==> spelled(l),
        symbol_table(key) matches Some(l) ==> spelled(l),
{
    if key.len() == 1 {
        lemma_single_spelled(key[0]);
        lemma_symbol_spelled(key[0]);
    } else if key.len() == 2 {
        lemma_pair_spelled(key[0], key[1]);
    }
}

/// Sorting and de-duplicating keep a list of non-empty spellings so.
proof fn lemma_sort_dedup_spelled(s: Seq<OptionSpec>)
    requires
        spelled(s),
    ensures
        spelled(sort_options(s)),
        spelled(dedup_options(s)),
        spelled(dedup_options(sort_options(s))),
        spelled(sort_options(dedup_options(s))),
{
    let p = |o: OptionSpec| o.romaji.len() > 0;
    assert forall|i: int| 0 <= i < s.len() implies p(#[trigger] s[i]) by {}
    lemma_sort_by_key_len(s, rank_key::<RomajiOption>());
    lemma_sort_keeps(s, rank_key::<RomajiOption>(), p);
    let so = sort_options(s);
    assert forall|i: int| 0 <= i < so.len() implies (#[trigger] so[i]).romaji.len() > 0 by {
        assert(p(so[i]));
    }
    lemma_dedup_nonempty(s, spelling_key::<RomajiOption>());
    lemma_dedup_keeps(s, spelling_key::<RomajiOption>(), p);
    let d = dedup_options(s);
    assert forall|i: int| 0 <= i < d.len() implies (#[trigger] d[i]).romaji.len() > 0 by {
        assert(p(d[i]));
    }
    assert forall|i: int| 0 <= i < so.len() implies p(#[trigger] so[i]) by {}
    lemma_dedup_nonempty(so, spelling_key::<RomajiOption>());
    lemma_dedup_keeps(so, spelling_key::<RomajiOption>(), p);
    let ds = dedup_options(so);
    assert forall|i: int| 0 <= i < ds.len() implies (#[trigger] ds[i]).romaji.len() > 0 by {
        assert(p(ds[i]));
    }
    assert forall|i: int| 0 <= i < d.len() implies p(#[trigger] d[i]) by {}
    lemma_sort_by_key_len(d, rank_key::<RomajiOption>());
    lemma_sort_keeps(d, rank_key::<RomajiOption>(), p);
    let sd = sort_options(d);
    assert forall|i: int| 0 <= i < sd.len() implies (#[trigger] sd[i]).romaji.len() > 0 by {
        assert(p(sd[i]));
    }
}

/// Every spelling of `bs` followed by one of `ss` is non-empty when those of `ss` are; there
/// is one when both lists have one.
proof fn lemma_cross_spelled(bs: Seq<OptionSpec>, ss: Seq<OptionSpec>)
    requires
        forall|i: int| 0 <= i < ss.len() ==> (#[trigger] ss[i]).romaji.len() > 0,
    ensures
        forall|i: int|
            0 <= i < cross_options(bs, ss).len() ==> (#[trigger] cross_options(bs, ss)[i]).romaji.len() > 0,
        bs.len() > 0 && ss.len() > 0 ==> cross_options(bs, ss).len() > 0,
    decreases bs.len(),
{
    if bs.len() > 0 {
        lemma_cross_spelled(bs.drop_last(), ss);
        let a = cross_options(bs.drop_last(), ss);
        let m = ss.map_values(|s: OptionSpec| join_option(bs.last(), s));
        assert(cross_options(bs, ss) == a + m);
        assert forall|i: int| 0 <= i < cross_options(bs, ss).len() implies (#[trigger] cross_options(
            bs,
            ss,
        )[i]).romaji.len() > 0 by {
            if i < a.len() {
                assert(cross_options(bs, ss)[i] == a[i]);
            } else {
                let k = i - a.len();
                assert(cross_options(bs, ss)[i] == m[k]);
                assert(m[k] == join_option(bs.last(), ss[k]));
                assert(ss[k].romaji.len() > 0);
            }
        }
    }
}

/// The spellings of a kana unit, when it has any, are a list of non-empty spellings.
pub proof fn lemma_kana_spelled(token: Seq<char>)
    ensures
        kana_options_spec(token) matches Some(o) ==> spelled(o),
{
    lemma_table_spelled(token);
    let t = match romaji_table(token) {
        Some(t) => t,
        None => Seq::empty(),
    };
    let b = match small_kana_composed(token) {
        Some(c) => biased(c),
        None => Seq::empty(),
    };
    assert forall|i: int| 0 <= i < b.len() implies (#[trigger] b[i]).romaji.len() > 0 by {
        let c = small_kana_composed(token)->Some_0;
        let (base, small) = split_small_kana(token)->Some_0;
        let bl = romaji_table(base)->Some_0;
        let sl = romaji_table(small)->Some_0;
        let f = sort_options(sl).filter(|o: OptionSpec| starts_x_or_l(o));
        broadcast use vstd::seq_lib::group_filter_ensures;
        assert forall|j: int| 0 <= j < f.len() implies (#[trigger] f[j]).romaji.len() > 0 by {
            assert(starts_x_or_l(f[j]));
        }
        let x = cross_options(sort_options(bl), f);
        lemma_cross_spelled(sort_options(bl), f);
        let p = |o: OptionSpec| o.romaji.len() > 0;
        assert forall|j: int| 0 <= j < x.len() implies p(#[trigger] x[j]) by {}
        lemma_dedup_keeps(x, spelling_key::<RomajiOption>(), p);
        assert(c == dedup_options(x));
        assert(b[i].romaji == c[i].romaji);
        assert(p(c[i]));
    }
    let all = t + b;
    if all.len() > 0 {
        assert forall|i: int| 0 <= i < all.len() implies (#[trigger] all[i]).romaji.len() > 0 by {
            if i < t.len() {
                assert(all[i] == t[i]);
            } else {
                assert(all[i] == b[i - t.len()]);
            }
        }
        lemma_sort_dedup_spelled(all);
    }
}

/// The spellings of a unit, when it can be spelled, are a list of non-empty spellings.
pub proof fn lemma_resolve_spelled(token: Seq<char>, next: Option<Seq<char>>)
    ensures
        resolve_options_spec(token, next) matches Ok(o) ==> spelled(o),
        resolve_build_spec(token, next) matches Ok(o) ==> spelled_builds(o),
{
    lemma_table_spelled(token);
    lemma_kana_spelled(token);
    if resolve_options_spec(token, next) is Ok {
        let o = resolve_options_spec(token, next)->Ok_0;
        if token == seq!['ん'] {
            let single = match next {
                Some(t) => if crate::options::allows_single_n(t) {
                    seq![crate::romaji_table::option_spec(seq!['n'], 0)]
                } else {
                    Seq::empty()
                },
                None => Seq::empty(),
            };
            assert forall|i: int| 0 <= i < o.len() implies (#[trigger] o[i]).romaji.len() > 0 by {
                if i < single.len() {
                    assert(o[i] == single[i]);
                } else {
                    assert(o[i] == seq![
                        crate::romaji_table::option_spec(seq!['n', 'n'], 1),
                        crate::romaji_table::option_spec(seq!['x', 'n'], 2),
                        crate::romaji_table::option_spec(seq!['n', '\''], 3),
                    ][i - single.len()]);
                }
            }
        }
        assert(spelled(o));
        let bo = resolve_build_spec(token, next)->Ok_0;
        assert forall|i: int| 0 <= i < bo.len() implies (#[trigger] bo[i]).romaji.len() > 0 by {
            assert(bo[i].romaji == o[i].romaji);
        }
    }
}

/// The ways of typing one `っ` are a list of non-empty spellings.
proof fn lemma_prefix_spelled(next_romaji: Seq<char>)
    ensures
        spelled(sokuon_prefix_spec(next_romaji)),
{
    let a: Seq<OptionSpec> = if next_romaji.len() > 0 && crate::options::sokuon_repeatable(next_romaji[0]) {
        seq![crate::romaji_table::option_spec(seq![next_romaji[0]], 0)]
    } else {
        Seq::empty()
    };
    let b: Seq<OptionSpec> = if next_romaji.len() >= 2 && next_romaji[0] == 'c' && next_romaji[1] == 'h' {
        seq![crate::romaji_table::option_spec(seq!['t'], 1)]
    } else {
        Seq::empty()
    };
    let c = seq![
        crate::romaji_table::option_spec(seq!['l', 't', 'u'], 10),
        crate::romaji_table::option_spec(seq!['x', 't', 'u'], 11),
        crate::romaji_table::option_spec(seq!['l', 't', 's', 'u'], 12),
        crate::romaji_table::option_spec(seq!['x', 't', 's', 'u'], 13),
    ];
    let l = sokuon_prefix_list(next_romaji);
    assert(l == a + b + c);
    assert forall|i: int| 0 <= i < l.len() implies (#[trigger] l[i]).romaji.len() > 0 by {
        if i < a.len() {
            assert(l[i] == a[i]);
        } else if i < a.len() + b.len() {
            assert(l[i] == b[i - a.len()]);
        } else {
            assert(l[i] == c[i - a.len() - b.len()]);
        }
    }
    lemma_sort_dedup_spelled(l);
}

/// Typing one or more `っ` from non-empty prefixes gives a list of non-empty spellings.
proof fn lemma_expand_spelled(prefixes: Seq<OptionSpec>, count: nat)
    requires
        spelled(prefixes),
        count >= 1,
    ensures
        spelled(expand_prefixes_spec(prefixes, count)),
    decreases count,
{
    let prev = expand_prefixes_spec(prefixes, (count - 1) as nat);
    if count > 1 {
        lemma_expand_spelled(prefixes, (count - 1) as nat);
    }
    assert(prev.len() > 0);
    let next = cross_options(prev, prefixes);
    lemma_cross_spelled(prev, prefixes);
    assert(spelled(next));
    if next.len() > MAX_COMBINATIONS {
        lemma_sort_dedup_spelled(next);
        let so = sort_options(next);
        lemma_sort_by_key_len(next, rank_key::<RomajiOption>());
        let tk = so.take(MAX_COMBINATIONS as int);
        assert forall|i: int| 0 <= i < tk.len() implies (#[trigger] tk[i]).romaji.len() > 0 by {
            assert(tk[i] == so[i]);
        }
    }
}

/// The spellings of a run of `っ` before each spelling of the following kana are non-empty,
/// and there is one when the kana has one.
proof fn lemma_candidates_spelled(nexts: Seq<OptionSpec>, count: nat)
    requires
        count >= 1,
    ensures
        forall|i: int|
            0 <= i < sokuon_candidates(nexts, count).len() ==> (#[trigger] sokuon_candidates(nexts, count)[i]).romaji.len()
                > 0,
        nexts.len() > 0 ==> sokuon_candidates(nexts, count).len() > 0,
    decreases nexts.len(),
{
    if nexts.len() > 0 {
        lemma_candidates_spelled(nexts.drop_last(), count);
        let a = sokuon_candidates(nexts.drop_last(), count);
        let n = nexts.last();
        lemma_prefix_spelled(n.romaji);
        let e = expand_prefixes_spec(sokuon_prefix_spec(n.romaji), count);
        lemma_expand_spelled(sokuon_prefix_spec(n.romaji), count);
        let m = e.map_values(|p: OptionSpec| sokuon_join(p, n, count));
        assert(sokuon_candidates(nexts, count) == a + m);
        assert forall|i: int| 0 <= i < sokuon_candidates(nexts, count).len() implies (
        #[trigger] sokuon_candidates(nexts, count)[i]).romaji.len() > 0 by {
            if i < a.len() {
                assert(sokuon_candidates(nexts, count)[i] == a[i]);
            } else {
                let k = i - a.len();
                assert(sokuon_candidates(nexts, count)[i] == m[k]);
                assert(e[k].romaji.len() > 0);
            }
        }
    }
}

/// The spellings of a run of `っ` with what follows it, when it can be spelled, are a list of
/// non-empty spellings.
pub proof fn lemma_sokuon_spelled(count: nat, next: Option<Seq<char>>)
    ensures
        sokuon_options_spec(count, next) matches Some(o) ==> spelled_builds(o),
{
    if sokuon_options_spec(count, next) is Some {
        let o = sokuon_options_spec(count, next)->Some_0;
        match next {
            None => {
                lemma_prefix_spelled(Seq::empty());
                lemma_expand_spelled(sokuon_prefix_spec(Seq::empty()), count);
                let e = expand_prefixes_spec(sokuon_prefix_spec(Seq::empty()), count);
                lemma_sort_dedup_spelled(e);
                let so = sort_options(e);
                assert forall|i: int| 0 <= i < o.len() implies (#[trigger] o[i]).romaji.len() > 0 by {
                    assert(o[i] == plain_build(so[i]));
                }
            },
            Some(t) => {
                let k = kana_options_spec(t)->Some_0;
                lemma_kana_spelled(t);
                lemma_sort_dedup_spelled(k);
                let sk = sort_options(k);
                let c = sokuon_candidates(sk, count);
                lemma_candidates_spelled(sk, count);
                let p = |b: BuildSpec| b.romaji.len() > 0;
                assert forall|i: int| 0 <= i < c.len() implies p(#[trigger] c[i]) by {}
                lemma_dedup_keeps(c, spelling_key::<BuildOption>(), p);
                let d = dedup_builds(c);
                assert forall|i: int| 0 <= i < d.len() implies p(#[trigger] d[i]) by {}
                lemma_sort_by_key_len(d, rank_key::<BuildOption>());
                lemma_sort_keeps(d, rank_key::<BuildOption>(), p);
                assert(o == sort_builds(d));
                assert forall|i: int| 0 <= i < o.len() implies (#[trigger] o[i]).romaji.len() > 0 by {
                    assert(p(o[i]));
                }
            },
        }
    }
}

/// A stable sort keeps every element.
pub proof fn lemma_sort_contains<A>(s: Seq<A>, key: spec_fn(A) -> u8, x: A)
    requires
        s.contains(x),
    ensures
        crate::seqs::sort_by_key(s, key).contains(x),
{
    lemma_sort_below_contains(s, key, x, 256);
}

proof fn lemma_sort_below_contains<A>(s: Seq<A>, key: spec_fn(A) -> u8, x: A, k: int)
    requires
        s.contains(x),
        key(x) < k,
    ensures
        crate::seqs::sort_below(s, key, k).contains(x),
    decreases k,
{
    broadcast use vstd::seq_lib::group_filter_ensures;
    let a = crate::seqs::sort_below(s, key, k - 1);
    let f = s.filter(|y: A| key(y) == k - 1);
    assert(crate::seqs::sort_below(s, key, k) == a + f);
    if key(x) == k - 1 {
        let i = choose|i: int| 0 <= i < s.len() && s[i] == x;
        assert(f.contains(s[i]));
        let j = choose|j: int| 0 <= j < f.len() && f[j] == x;
        assert((a + f)[a.len() + j] == x);
    } else {
        lemma_sort_below_contains(s, key, x, k - 1);
        let j = choose|j: int| 0 <= j < a.len() && a[j] == x;
        assert((a + f)[j] == x);
    }
}

/// De-duplication keeps the first element.
pub proof fn lemma_dedup_first<A>(s: Seq<A>, name: spec_fn(A) -> Seq<char>)
    requires
        s.len() > 0,
    ensures
        dedup_by_name(s, name).len() > 0,
        dedup_by_name(s, name)[0] == s[0],
    decreases s.len(),
{
    lemma_dedup_nonempty(s, name);
    let kept = dedup_by_name(s.drop_last(), name);
    if s.len() > 1 {
        lemma_dedup_first(s.drop_last(), name);
        assert(s.drop_last()[0] == s[0]);
        assert(dedup_by_name(s, name)[0] == kept[0]);
    } else {
        assert(kept.len() == 0);
        assert(!crate::seqs::has_name(kept, name, name(s.last())));
        assert(dedup_by_name(s, name) == kept.push(s.last()));
    }
}

/// De-duplication keeps an element of every name.
pub proof fn lemma_dedup_names<A>(s: Seq<A>, name: spec_fn(A) -> Seq<char>, i: int)
    requires
        0 <= i < s.len(),
    ensures
        exists|j: int|
            0 <= j < dedup_by_name(s, name).len() && name(#[trigger] dedup_by_name(s, name)[j]) == name(s[i]),
    decreases s.len(),
{
    let kept = dedup_by_name(s.drop_last(), name);
    if i < s.len() - 1 {
        lemma_dedup_names(s.drop_last(), name, i);
        assert(s.drop_last()[i] == s[i]);
        let j = choose|j: int| 0 <= j < kept.len() && name(#[trigger] kept[j]) == name(s[i]);
        assert(dedup_by_name(s, name)[j] == kept[j]);
    } else {
        if crate::seqs::has_name(kept, name, name(s.last())) {
            let j = choose|j: int| 0 <= j < kept.len() && name(#[trigger] kept[j]) == name(s.last());
            assert(dedup_by_name(s, name)[j] == kept[j]);
        } else {
            assert(dedup_by_name(s, name)[kept.len() as int] == s.last());
        }
    }
}

/// Some option of `ps` is spelled `r`.
pub open spec fn offers(ps: Seq<OptionSpec>, r: Seq<char>) -> bool {
    exists|i: int| 0 <= i < ps.len() && (#[trigger] ps[i]).romaji == r
}

/// The ways of typing one `っ` before a kana spelled `next_romaji`: doubling its first
/// consonant when that is a lowercase letter other than a vowel or `n` (`p` before `pa`), `t`
/// before a spelling that begins with `ch`, and `ltu`, `xtu`, `ltsu`, `xtsu` always; no other.
pub proof fn lemma_sokuon_prefixes(next_romaji: Seq<char>)
    ensures
        ({
            let ps = sokuon_prefix_spec(next_romaji);
            let doubles = next_romaji.len() > 0 && 'a' <= next_romaji[0] <= 'z' && next_romaji[0] != 'a'
                && next_romaji[0] != 'i' && next_romaji[0] != 'u' && next_romaji[0] != 'e' && next_romaji[0]
                != 'o' && next_romaji[0] != 'n';
            let before_ch = next_romaji.len() >= 2 && next_romaji[0] == 'c' && next_romaji[1] == 'h';
            &&& doubles ==> offers(ps, seq![next_romaji[0]])
            &&& before_ch ==> offers(ps, seq!['t'])
            &&& offers(ps, seq!['l', 't', 'u'])
            &&& offers(ps, seq!['x', 't', 'u'])
            &&& offers(ps, seq!['l', 't', 's', 'u'])
            &&& offers(ps, seq!['x', 't', 's', 'u'])
            &&& forall|i: int|
                0 <= i < ps.len() ==> {
                    let r = (#[trigger] ps[i]).romaji;
                    ||| doubles && r == seq![next_romaji[0]]
                    ||| before_ch && r == seq!['t']
                    ||| r == seq!['l', 't', 'u']
                    ||| r == seq!['x', 't', 'u']
                    ||| r == seq!['l', 't', 's', 'u']
                    ||| r == seq!['x', 't', 's', 'u']
                }
        }),
{
    let l = sokuon_prefix_list(next_romaji);
    let d = dedup_options(l);
    let ps = sort_options(d);
    let doubles = next_romaji.len() > 0 && 'a' <= next_romaji[0] <= 'z' && next_romaji[0] != 'a'
        && next_romaji[0] != 'i' && next_romaji[0] != 'u' && next_romaji[0] != 'e' && next_romaji[0] != 'o'
        && next_romaji[0] != 'n';
    let before_ch = next_romaji.len() >= 2 && next_romaji[0] == 'c' && next_romaji[1] == 'h';
    let a: Seq<OptionSpec> = if next_romaji.len() > 0 && crate::options::sokuon_repeatable(next_romaji[0]) {
        seq![crate::romaji_table::option_spec(seq![next_romaji[0]], 0)]
    } else {
        Seq::empty()
    };
    let b: Seq<OptionSpec> = if before_ch {
        seq![crate::romaji_table::option_spec(seq!['t'], 1)]
    } else {
        Seq::empty()
    };
    let c = seq![
        crate::romaji_table::option_spec(seq!['l', 't', 'u'], 10),
        crate::romaji_table::option_spec(seq!['x', 't', 'u'], 11),
        crate::romaji_table::option_spec(seq!['l', 't', 's', 'u'], 12),
        crate::romaji_table::option_spec(seq!['x', 't', 's', 'u'], 13),
    ];
    assert(l == a + b + c);
    // every spelling of the list is one of those named
    let allowed = |o: OptionSpec|
        {
            let r = o.romaji;
            ||| doubles && r == seq![next_romaji[0]]
            ||| before_ch && r == seq!['t']
            ||| r == seq!['l', 't', 'u']
            ||| r == seq!['x', 't', 'u']
            ||| r == seq!['l', 't', 's', 'u']
            ||| r == seq!['x', 't', 's', 'u']
        };
    assert forall|i: int| 0 <= i < l.len() implies allowed(#[trigger] l[i]) by {
        if i < a.len() {
            assert(l[i] == a[i]);
        } else if i < a.len() + b.len() {
            assert(l[i] == b[i - a.len()]);
        } else {
            assert(l[i] == c[i - a.len() - b.len()]);
        }
    }
    lemma_dedup_keeps(l, spelling_key::<RomajiOption>(), allowed);
    assert forall|i: int| 0 <= i < d.len() implies allowed(#[trigger] d[i]) by {}
    lemma_sort_keeps(d, rank_key::<RomajiOption>(), allowed);
    assert forall|i: int| 0 <= i < ps.len() implies allowed(#[trigger] ps[i]) by {}
    // every named spelling is kept
    assert forall|k: int| 0 <= k < l.len() implies offers(ps, #[trigger] l[k].romaji) by {
        lemma_dedup_names(l, spelling_key::<RomajiOption>(), k);
        let j = choose|j: int|
            0 <= j < d.len() && spelling_key::<RomajiOption>()(#[trigger] d[j]) == spelling_key::<RomajiOption>()(
                l[k],
            );
        assert(d.contains(d[j]));
        lemma_sort_contains(d, rank_key::<RomajiOption>(), d[j]);
        let i = choose|i: int| 0 <= i < ps.len() && ps[i] == d[j];
        assert(ps[i].romaji == l[k].romaji);
    }
    let n: int = (a.len() + b.len()) as int;
    assert(l[n].romaji == seq!['l', 't', 'u']);
    assert(l[n + 1].romaji == seq!['x', 't', 'u']);
    assert(l[n + 2].romaji == seq!['l', 't', 's', 'u']);
    assert(l[n + 3].romaji == seq!['x', 't', 's', 'u']);
    if doubles {
        assert(crate::options::sokuon_repeatable(next_romaji[0]));
        assert(l[0].romaji == seq![next_romaji[0]]);
    }
    if before_ch {
        assert(l[a.len() as int].romaji == seq!['t']);
    }
    assert(ps == sokuon_prefix_spec(next_romaji));
}

/// The names of the elements of `s`.
pub open spec fn names<A>(s: Seq<A>, name: spec_fn(A) -> Seq<char>) -> Set<Seq<char>> {
    Set::new(|r: Seq<char>| exists|i: int| 0 <= i < s.len() && name(#[trigger] s[i]) == r)
}

/// De-duplication keeps the names and drops nothing else.
pub proof fn lemma_dedup_names_set<A>(s: Seq<A>, name: spec_fn(A) -> Seq<char>)
    ensures
        names(dedup_by_name(s, name), name) == names(s, name),
{
    let d = dedup_by_name(s, name);
    let p = |x: A| s.contains(x);
    assert forall|i: int| 0 <= i < s.len() implies p(#[trigger] s[i]) by {
        assert(s.contains(s[i]));
    }
    lemma_dedup_keeps(s, name, p);
    assert forall|r: Seq<char>| names(d, name).contains(r) <==> names(s, name).contains(r) by {
        if names(d, name).contains(r) {
            let i = choose|i: int| 0 <= i < d.len() && name(#[trigger] d[i]) == r;
            assert(p(d[i]));
            let k = choose|k: int| 0 <= k < s.len() && s[k] == d[i];
            assert(name(s[k]) == r);
        }
        if names(s, name).contains(r) {
            let k = choose|k: int| 0 <= k < s.len() && name(#[trigger] s[k]) == r;
            lemma_dedup_names(s, name, k);
        }
    }
    assert(names(d, name) =~= names(s, name));
}

/// A stable sort keeps the names and adds none.
pub proof fn lemma_sort_names_set<A>(s: Seq<A>, key: spec_fn(A) -> u8, name: spec_fn(A) -> Seq<char>)
    ensures
        names(crate::seqs::sort_by_key(s, key), name) == names(s, name),
{
    let so = crate::seqs::sort_by_key(s, key);
    let p = |x: A| s.contains(x);
    assert forall|i: int| 0 <= i < s.len() implies p(#[trigger] s[i]) by {
        assert(s.contains(s[i]));
    }
    lemma_sort_keeps(s, key, p);
    assert forall|r: Seq<char>| names(so, name).contains(r) <==> names(s, name).contains(r) by {
        if names(so, name).contains(r) {
            let i = choose|i: int| 0 <= i < so.len() && name(#[trigger] so[i]) == r;
            assert(p(so[i]));
            let k = choose|k: int| 0 <= k < s.len() && s[k] == so[i];
            assert(name(s[k]) == r);
        }
        if names(s, name).contains(r) {
            let k = choose|k: int| 0 <= k < s.len() && name(#[trigger] s[k]) == r;
            assert(s.contains(s[k]));
            lemma_sort_contains(s, key, s[k]);
            let i = choose|i: int| 0 <= i < so.len() && so[i] == s[k];
            assert(name(so[i]) == r);
        }
    }
    assert(names(so, name) =~= names(s, name));
}

/// De-duplication never lengthens a list.
proof fn lemma_dedup_len<A>(s: Seq<A>, name: spec_fn(A) -> Seq<char>)
    ensures
        dedup_by_name(s, name).len() <= s.len(),
    decreases s.len(),
{
    if s.len() > 0 {
        lemma_dedup_len(s.drop_last(), name);
    }
}

/// There are at most six ways of typing one `っ`.
proof fn lemma_prefix_count(next_romaji: Seq<char>)
    ensures
        sokuon_prefix_spec(next_romaji).len() <= 6,
{
    let l = sokuon_prefix_list(next_romaji);
    assert(l.len() <= 6);
    lemma_dedup_len(l, spelling_key::<RomajiOption>());
    lemma_sort_by_key_len(dedup_options(l), rank_key::<RomajiOption>());
}

/// Typing one `っ` in any of the given ways: the ways themselves, each spelled as before.
proof fn lemma_expand_one(prefixes: Seq<OptionSpec>)
    requires
        prefixes.len() <= MAX_COMBINATIONS,
    ensures
        expand_prefixes_spec(prefixes, 1).len() == prefixes.len(),
        forall|i: int|
            0 <= i < prefixes.len() ==> (#[trigger] expand_prefixes_spec(prefixes, 1)[i]).romaji == prefixes[i].romaji,
{
    let e = crate::romaji_table::option_spec(Seq::empty(), 0);
    let z = expand_prefixes_spec(prefixes, 0);
    assert(z == seq![e]);
    let next = cross_options(z, prefixes);
    assert(z.drop_last() =~= Seq::<OptionSpec>::empty());
    assert(cross_options(z.drop_last(), prefixes) =~= Seq::<OptionSpec>::empty());
    assert(next =~= prefixes.map_values(|q: OptionSpec| join_option(e, q)));
    assert forall|i: int| 0 <= i < prefixes.len() implies (#[trigger] next[i]).romaji == prefixes[i].romaji by {
        assert(next[i] == join_option(e, prefixes[i]));
        assert(Seq::<char>::empty() + prefixes[i].romaji =~= prefixes[i].romaji);
    }
    assert(expand_prefixes_spec(prefixes, 1) == next);
}

/// Whether `r` types one `っ` and then the kana `t`: one of its spellings, after one of the
/// ways of typing `っ` before that spelling.
pub open spec fn one_sokuon_spelling(t: Seq<char>, r: Seq<char>) -> bool {
    exists|i: int, j: int|
        0 <= i < kana_options_spec(t)->Some_0.len() && 0 <= j < sokuon_prefix_spec(
            kana_options_spec(t)->Some_0[i].romaji,
        ).len() && r == #[trigger] sokuon_prefix_spec(kana_options_spec(t)->Some_0[i].romaji)[j].romaji
            + kana_options_spec(t)->Some_0[i].romaji
}

/// The spellings of the runs of one `っ` before each of `nexts`.
proof fn lemma_candidates_names(nexts: Seq<OptionSpec>, r: Seq<char>)
    ensures
        names(sokuon_candidates(nexts, 1), |b: BuildSpec| b.romaji).contains(r) <==> exists|i: int, j: int|
            0 <= i < nexts.len() && 0 <= j < sokuon_prefix_spec(nexts[i].romaji).len() && r
                == #[trigger] sokuon_prefix_spec(nexts[i].romaji)[j].romaji + nexts[i].romaji,
    decreases nexts.len(),
{
    let nm = |b: BuildSpec| b.romaji;
    if nexts.len() > 0 {
        lemma_candidates_names(nexts.drop_last(), r);
        let a = sokuon_candidates(nexts.drop_last(), 1);
        let n = nexts.last();
        let ps = sokuon_prefix_spec(n.romaji);
        lemma_prefix_count(n.romaji);
        lemma_expand_one(ps);
        let e = expand_prefixes_spec(ps, 1);
        let m = e.map_values(|p: OptionSpec| sokuon_join(p, n, 1));
        let c = sokuon_candidates(nexts, 1);
        assert(c == a + m);
        if names(c, nm).contains(r) {
            let k = choose|k: int| 0 <= k < c.len() && nm(#[trigger] c[k]) == r;
            if k < a.len() {
                assert(c[k] == a[k]);
                assert(names(a, nm).contains(r));
                let (i, j) = choose|i: int, j: int|
                    0 <= i < nexts.drop_last().len() && 0 <= j < sokuon_prefix_spec(nexts.drop_last()[i].romaji).len()
                        && r == #[trigger] sokuon_prefix_spec(nexts.drop_last()[i].romaji)[j].romaji
                        + nexts.drop_last()[i].romaji;
                assert(nexts.drop_last()[i] == nexts[i]);
                assert(r == sokuon_prefix_spec(nexts[i].romaji)[j].romaji + nexts[i].romaji);
            } else {
                let j = k - a.len();
                assert(c[k] == m[j]);
                assert(m[j].romaji == e[j].romaji + n.romaji);
                assert(e[j].romaji == ps[j].romaji);
                assert(nexts[nexts.len() - 1] == n);
                assert(r == sokuon_prefix_spec(nexts[nexts.len() - 1].romaji)[j].romaji + nexts[nexts.len() - 1].romaji);
            }
        }
        if exists|i: int, j: int|
            0 <= i < nexts.len() && 0 <= j < sokuon_prefix_spec(nexts[i].romaji).len() && r
                == #[trigger] sokuon_prefix_spec(nexts[i].romaji)[j].romaji + nexts[i].romaji {
            let (i, j) = choose|i: int, j: int|
                0 <= i < nexts.len() && 0 <= j < sokuon_prefix_spec(nexts[i].romaji).len() && r
                    == #[trigger] sokuon_prefix_spec(nexts[i].romaji)[j].romaji + nexts[i].romaji;
            if i < nexts.len() - 1 {
                assert(nexts.drop_last()[i] == nexts[i]);
                assert(r == sokuon_prefix_spec(nexts.drop_last()[i].romaji)[j].romaji + nexts.drop_last()[i].romaji);
                let k = choose|k: int| 0 <= k < a.len() && nm(#[trigger] a[k]) == r;
                assert(c[k] == a[k]);
                assert(nm(c[k]) == r);
            } else {
                assert(nexts[i] == n);
                assert(m[j].romaji == e[j].romaji + n.romaji);
                assert(c[a.len() + j] == m[j]);
                assert(nm(c[a.len() + j]) == r);
            }
        }
    } else {
        assert(sokuon_candidates(nexts, 1).len() == 0);
    }
}

/// One `っ` before a kana `t` that can be spelled is spelled exactly as one of the ways of
/// typing `っ` before one of `t`'s spellings, followed by that spelling: before ぱ (`pa`), `ppa`,
/// `ltupa`, `xtupa`, `ltsupa` and `xtsupa` (see [`lemma_sokuon_prefixes`]).
pub proof fn lemma_one_sokuon_spellings(t: Seq<char>)
    requires
        kana_options_spec(t) is Some,
    ensures
        sokuon_options_spec(1, Some(t)) is Some,
        forall|r: Seq<char>|
            names(sokuon_options_spec(1, Some(t))->Some_0, |b: BuildSpec| b.romaji).contains(r)
                <==> #[trigger] one_sokuon_spelling(t, r),
{
    let nm = |b: BuildSpec| b.romaji;
    let onm = |o: OptionSpec| o.romaji;
    let k = kana_options_spec(t)->Some_0;
    lemma_kana_spelled(t);
    let sk = sort_options(k);
    lemma_sort_by_key_len(k, rank_key::<RomajiOption>());
    let c = sokuon_candidates(sk, 1);
    lemma_candidates_spelled(sk, 1);
    lemma_dedup_nonempty(c, spelling_key::<BuildOption>());
    let d = dedup_builds(c);
    assert(sokuon_options_spec(1, Some(t)) == Some(sort_builds(d)));
    lemma_sort_names_set(d, rank_key::<BuildOption>(), spelling_key::<BuildOption>());
    lemma_dedup_names_set(c, spelling_key::<BuildOption>());
    assert(spelling_key::<BuildOption>() =~= nm);
    lemma_sort_names_set(k, rank_key::<RomajiOption>(), onm);
    assert forall|r: Seq<char>|
        names(sokuon_options_spec(1, Some(t))->Some_0, nm).contains(r) <==> #[trigger] one_sokuon_spelling(t, r) by {
        lemma_candidates_names(sk, r);
        if one_sokuon_spelling(t, r) {
            let (i, j) = choose|i: int, j: int|
                0 <= i < k.len() && 0 <= j < sokuon_prefix_spec(k[i].romaji).len() && r
                    == #[trigger] sokuon_prefix_spec(k[i].romaji)[j].romaji + k[i].romaji;
            assert(names(k, onm).contains(k[i].romaji));
            assert(names(sk, onm).contains(k[i].romaji));
            let i2 = choose|i2: int| 0 <= i2 < sk.len() && onm(#[trigger] sk[i2]) == k[i].romaji;
            assert(r == sokuon_prefix_spec(sk[i2].romaji)[j].romaji + sk[i2].romaji);
        }
        if names(c, nm).contains(r) {
            let (i2, j) = choose|i2: int, j: int|
                0 <= i2 < sk.len() && 0 <= j < sokuon_prefix_spec(sk[i2].romaji).len() && r
                    == #[trigger] sokuon_prefix_spec(sk[i2].romaji)[j].romaji + sk[i2].romaji;
            assert(names(sk, onm).contains(sk[i2].romaji));
            let i = choose|i: int| 0 <= i < k.len() && onm(#[trigger] k[i]) == sk[i2].romaji;
            assert(r == sokuon_prefix_spec(k[i].romaji)[j].romaji + k[i].romaji);
        }
    }
}

} // verus!
