//! Ordering and de-duplication of option lists: the stable sort by priority and the
//! "first spelling wins" de-duplication that every option list goes through.
use vstd::prelude::*;

verus! {

broadcast use vstd::seq_lib::group_seq_properties;

/// The values of a sequence of executable items.
pub open spec fn view_seq<T: View>(s: Seq<T>) -> Seq<T::V> {
    s.map_values(|x: T| x@)
}

/// The elements of `s` whose key is below `k`, grouped by key in increasing order, each
/// group in the order of `s`.
pub open spec fn sort_below<A>(s: Seq<A>, key: spec_fn(A) -> u8, k: int) -> Seq<A>
    decreases k,
{
    if k <= 0 {
        Seq::empty()
    } else {
        sort_below(s, key, k - 1) + s.filter(|x: A| key(x) == k - 1)
    }
}

/// The stable sort of `s` by a `u8` key: all elements of key 0 in the order of `s`, then
/// those of key 1, and so on.
pub open spec fn sort_by_key<A>(s: Seq<A>, key: spec_fn(A) -> u8) -> Seq<A> {
    sort_below(s, key, 256)
}

/// `s` without every element whose name already occurred earlier in `s` (the first
/// occurrence of each name is kept).
pub open spec fn dedup_by_name<A>(s: Seq<A>, name: spec_fn(A) -> Seq<char>) -> Seq<A>
    decreases s.len(),
{
    if s.len() == 0 {
        Seq::empty()
    } else {
        let kept = dedup_by_name(s.drop_last(), name);
        if has_name(kept, name, name(s.last())) {
            kept
        } else {
            kept.push(s.last())
        }
    }
}

/// Whether some element of `s` is named `n`.
pub open spec fn has_name<A>(s: Seq<A>, name: spec_fn(A) -> Seq<char>, n: Seq<char>) -> bool {
    exists|i: int| 0 <= i < s.len() && name(#[trigger] s[i]) == n
}

/// Items that carry a priority and a spelling, and can be copied.
pub trait Ranked: View + Sized {
    spec fn rank(v: Self::V) -> u8;

    spec fn spelling(v: Self::V) -> Seq<char>;

    fn priority_of(&self) -> (p: u8)
        ensures
            p == Self::rank(self@),
    ;

    fn spelling_of(&self) -> (s: &Vec<char>)
        ensures
            s@ == Self::spelling(self@),
    ;

    fn duplicate(&self) -> (r: Self)
        ensures
            r@ == self@,
    ;
}

pub open spec fn rank_key<T: Ranked>() -> spec_fn(T::V) -> u8 {
    |v: T::V| T::rank(v)
}

pub open spec fn spelling_key<T: Ranked>() -> spec_fn(T::V) -> Seq<char> {
    |v: T::V| T::spelling(v)
}

/// Whether two character vectors hold the same characters.
pub fn chars_eq(a: &Vec<char>, b: &Vec<char>) -> (r: bool)
    ensures
        r == (a@ == b@),
{
    if a.len() != b.len() {
        return false;
    }
    let mut i: usize = 0;
    while i < a.len()
        invariant
            a.len() == b.len(),
            0 <= i <= a.len(),
            forall|j: int| 0 <= j < i ==> a@[j] == b@[j],
        decreases a.len() - i,
    {
        if a[i] != b[i] {
            return false;
        }
        i += 1;
    }
    assert(a@ =~= b@);
    true
}

proof fn lemma_filter_none<A>(s: Seq<A>, p: spec_fn(A) -> bool)
    requires
        forall|i: int| 0 <= i < s.len() ==> !p(s[i]),
    ensures
        s.filter(p) == Seq::<A>::empty(),
    decreases s.len(),
{
    reveal(Seq::filter);
    if s.len() > 0 {
        lemma_filter_none(s.drop_last(), p);
    }
    assert(s.filter(p) =~= Seq::<A>::empty());
}

proof fn lemma_sort_below_stable<A>(s: Seq<A>, key: spec_fn(A) -> u8, m: int, k: int)
    requires
        0 <= m <= k,
        forall|i: int| 0 <= i < s.len() ==> key(s[i]) < m,
    ensures
        sort_below(s, key, k) == sort_below(s, key, m),
    decreases k - m,
{
    if k > m {
        lemma_sort_below_stable(s, key, m, k - 1);
        lemma_filter_none(s, |x: A| key(x) == k - 1);
        assert(sort_below(s, key, k) =~= sort_below(s, key, k - 1));
    }
}


proof fn lemma_filter_all<A>(s: Seq<A>, p: spec_fn(A) -> bool)
    requires
        forall|i: int| 0 <= i < s.len() ==> p(s[i]),
    ensures
        s.filter(p) == s,
    decreases s.len(),
{
    reveal(Seq::filter);
    if s.len() > 0 {
        lemma_filter_all(s.drop_last(), p);
    }
    assert(s.filter(p) =~= s);
}

proof fn lemma_filter_split_len<A>(s: Seq<A>, key: spec_fn(A) -> u8, k: int)
    ensures
        s.filter(|x: A| key(x) < k + 1).len() == s.filter(|x: A| key(x) < k).len() + s.filter(
            |x: A| key(x) == k,
        ).len(),
    decreases s.len(),
{
    reveal(Seq::filter);
    if s.len() > 0 {
        lemma_filter_split_len(s.drop_last(), key, k);
    }
}

/// Sorting keeps the number of elements.
pub proof fn lemma_sort_len<A>(s: Seq<A>, key: spec_fn(A) -> u8, k: int)
    requires
        0 <= k,
    ensures
        sort_below(s, key, k).len() == s.filter(|x: A| key(x) < k).len(),
    decreases k,
{
    if k == 0 {
        lemma_filter_none(s, |x: A| key(x) < 0);
    } else {
        lemma_sort_len(s, key, k - 1);
        lemma_filter_split_len(s, key, k - 1);
    }
}

/// A stable sort has as many elements as its input.
pub proof fn lemma_sort_by_key_len<A>(s: Seq<A>, key: spec_fn(A) -> u8)
    ensures
        sort_by_key(s, key).len() == s.len(),
{
    lemma_sort_len(s, key, 256);
    lemma_filter_all(s, |x: A| key(x) < 256);
}


proof fn lemma_filter_keeps<A>(s: Seq<A>, pred: spec_fn(A) -> bool, p: spec_fn(A) -> bool)
    requires
        forall|i: int| 0 <= i < s.len() ==> p(#[trigger] s[i]),
    ensures
        forall|i: int| 0 <= i < s.filter(pred).len() ==> p(#[trigger] s.filter(pred)[i]),
    decreases s.len(),
{
    reveal(Seq::filter);
    if s.len() > 0 {
        lemma_filter_keeps(s.drop_last(), pred, p);
        let sub = s.drop_last().filter(pred);
        assert forall|i: int| 0 <= i < s.filter(pred).len() implies p(#[trigger] s.filter(pred)[i]) by {
            if i < sub.len() {
                assert(s.filter(pred)[i] == sub[i]);
            }
        }
    }
}

proof fn lemma_sort_below_keeps<A>(s: Seq<A>, key: spec_fn(A) -> u8, k: int, p: spec_fn(A) -> bool)
    requires
        forall|i: int| 0 <= i < s.len() ==> p(#[trigger] s[i]),
    ensures
        forall|i: int| 0 <= i < sort_below(s, key, k).len() ==> p(#[trigger] sort_below(s, key, k)[i]),
    decreases k,
{
    if k > 0 {
        lemma_sort_below_keeps(s, key, k - 1, p);
        let f = |x: A| key(x) == k - 1;
        lemma_filter_keeps(s, f, p);
        let a = sort_below(s, key, k - 1);
        let b = s.filter(f);
        assert forall|i: int| 0 <= i < sort_below(s, key, k).len() implies p(#[trigger] sort_below(s, key, k)[i]) by {
            if i < a.len() {
                assert(sort_below(s, key, k)[i] == a[i]);
            } else {
                assert(sort_below(s, key, k)[i] == b[i - a.len()]);
            }
        }
    }
}

/// Every element of a stable sort satisfies what every element of its input satisfies.
pub proof fn lemma_sort_keeps<A>(s: Seq<A>, key: spec_fn(A) -> u8, p: spec_fn(A) -> bool)
    requires
        forall|i: int| 0 <= i < s.len() ==> p(#[trigger] s[i]),
    ensures
        forall|i: int| 0 <= i < sort_by_key(s, key).len() ==> p(#[trigger] sort_by_key(s, key)[i]),
{
    lemma_sort_below_keeps(s, key, 256, p);
}

/// Every element kept by de-duplication satisfies what every element of its input satisfies.
pub proof fn lemma_dedup_keeps<A>(s: Seq<A>, name: spec_fn(A) -> Seq<char>, p: spec_fn(A) -> bool)
    requires
        forall|i: int| 0 <= i < s.len() ==> p(#[trigger] s[i]),
    ensures
        forall|i: int| 0 <= i < dedup_by_name(s, name).len() ==> p(#[trigger] dedup_by_name(s, name)[i]),
    decreases s.len(),
{
    if s.len() > 0 {
        lemma_dedup_keeps(s.drop_last(), name, p);
        let kept = dedup_by_name(s.drop_last(), name);
        assert forall|i: int| 0 <= i < dedup_by_name(s, name).len() implies p(#[trigger] dedup_by_name(s, name)[i]) by {
            if i < kept.len() {
                assert(dedup_by_name(s, name)[i] == kept[i]);
            }
        }
    }
}

/// Sorts by priority, keeping equal priorities in the order they come.
pub fn stable_sort<T: Ranked>(v: &Vec<T>) -> (r: Vec<T>)
    ensures
        view_seq(r@) == sort_by_key(view_seq(v@), rank_key::<T>()),
        r@.len() == v@.len(),
{
    let ghost vs = view_seq(v@);
    let ghost key = rank_key::<T>();
    let mut top: u16 = 0;
    let mut i: usize = 0;
    while i < v.len()
        invariant
            0 <= i <= v.len(),
            top <= 256,
            forall|j: int| 0 <= j < i ==> T::rank(#[trigger] v@[j]@) < top,
        decreases v.len() - i,
    {
        let p = v[i].priority_of();
        if p as u16 >= top {
            top = p as u16 + 1;
        }
        i += 1;
    }
    assert forall|j: int| 0 <= j < vs.len() implies key(vs[j]) < top by {
        assert(vs[j] == v@[j]@);
    }
    let mut r: Vec<T> = Vec::new();
    let mut k: u16 = 0;
    while k < top
        invariant
            vs == view_seq(v@),
            key == rank_key::<T>(),
            0 <= k <= top <= 256,
            view_seq(r@) == sort_below(vs, key, k as int),
        decreases top - k,
    {
        let mut i: usize = 0;
        while i < v.len()
            invariant
                vs == view_seq(v@),
                key == rank_key::<T>(),
                0 <= k < top <= 256,
                0 <= i <= v.len(),
                view_seq(r@) == sort_below(vs, key, k as int) + vs.take(i as int).filter(
                    |x: T::V| key(x) == k as int,
                ),
            decreases v.len() - i,
        {
            let ghost before = r@;
            assert(vs.take(i + 1) == vs.take(i as int).push(vs[i as int]));
            proof {
                vs.take(i as int).lemma_filter_push(vs[i as int], |x: T::V| key(x) == k as int);
            }
            if v[i].priority_of() as u16 == k {
                r.push(v[i].duplicate());
                assert(view_seq(r@) =~= view_seq(before).push(v@[i as int]@));
            }
            i += 1;
        }
        assert(vs.take(v.len() as int) =~= vs);
        k += 1;
    }
    proof {
        lemma_sort_below_stable(vs, key, top as int, 256);
        lemma_sort_by_key_len(vs, key);
        assert(view_seq(r@).len() == r@.len());
    }
    r
}

/// Keeps the first item of each spelling.
pub fn dedup_spellings<T: Ranked>(v: &Vec<T>) -> (r: Vec<T>)
    ensures
        view_seq(r@) == dedup_by_name(view_seq(v@), spelling_key::<T>()),
{
    let ghost vs = view_seq(v@);
    let ghost name = spelling_key::<T>();
    let mut r: Vec<T> = Vec::new();
    let mut i: usize = 0;
    while i < v.len()
        invariant
            vs == view_seq(v@),
            name == spelling_key::<T>(),
            0 <= i <= v.len(),
            view_seq(r@) == dedup_by_name(vs.take(i as int), name),
        decreases v.len() - i,
    {
        let cand = v[i].spelling_of();
        let mut found = false;
        let mut j: usize = 0;
        while j < r.len()
            invariant
                0 <= j <= r.len(),
                cand@ == T::spelling(v@[i as int]@),
                found == exists|q: int| 0 <= q < j && T::spelling(#[trigger] r@[q]@) == cand@,
            decreases r.len() - j,
        {
            if chars_eq(r[j].spelling_of(), cand) {
                found = true;
            }
            j += 1;
        }
        let ghost before = r@;
        assert(vs.take(i + 1).drop_last() =~= vs.take(i as int));
        assert(vs.take(i + 1).last() == v@[i as int]@);
        assert(found == has_name(view_seq(r@), name, name(v@[i as int]@))) by {
            if found {
                let q = choose|q: int| 0 <= q < r.len() && T::spelling(#[trigger] r@[q]@) == cand@;
                assert(view_seq(r@)[q] == r@[q]@);
            }
            if has_name(view_seq(r@), name, name(v@[i as int]@)) {
                let q = choose|q: int|
                    0 <= q < view_seq(r@).len() && name(#[trigger] view_seq(r@)[q]) == name(
                        v@[i as int]@,
                    );
                assert(view_seq(r@)[q] == r@[q]@);
            }
        }
        if !found {
            r.push(v[i].duplicate());
            assert(view_seq(r@) =~= view_seq(before).push(v@[i as int]@));
        }
        i += 1;
    }
    assert(vs.take(v.len() as int) =~= vs);
    r
}

} // verus!
