//! Character-level helpers shared by the engine and the ruby parser.
use vstd::prelude::*;
use vstd::string::{StrSliceExecFns, StringSliceAdditionalSpecFns};
use vstd::utf8::{
    char_is_scalar, decode_utf8, encode_scalar, encode_utf8, encode_utf8_decode_utf8,
    encode_utf8_first_scalar, encode_utf8_valid_utf8, is_char_boundary, pop_first_scalar,
};

verus! {

broadcast use vstd::string::group_string_axioms;

/// Appends one character to a `String` (`String::push`).
#[verifier::external_body]
pub(crate) fn string_push(s: &mut String, c: char)
    ensures
        final(s)@ == old(s)@.push(c),
{
    s.push(c);
}

/// Appends a string slice to a `String` (`String::push_str`).
#[verifier::external_body]
pub(crate) fn string_append(s: &mut String, t: &str)
    ensures
        final(s)@ == old(s)@ + t@,
{
    s.push_str(t);
}

/// Concatenates two character vectors.
pub fn concat_chars(a: &Vec<char>, b: &Vec<char>) -> (r: Vec<char>)
    ensures
        r@ == a@ + b@,
{
    let mut r: Vec<char> = Vec::new();
    let mut i: usize = 0;
    while i < a.len()
        invariant
            0 <= i <= a.len(),
            r@ == a@.take(i as int),
        decreases a.len() - i,
    {
        r.push(a[i]);
        i += 1;
        assert(r@ =~= a@.take(i as int));
    }
    let mut j: usize = 0;
    while j < b.len()
        invariant
            0 <= j <= b.len(),
            r@ == a@ + b@.take(j as int),
        decreases b.len() - j,
    {
        r.push(b[j]);
        j += 1;
        assert(r@ =~= a@ + b@.take(j as int));
    }
    assert(b@.take(b.len() as int) =~= b@);
    r
}

/// The characters of `v` from `from` up to (not including) `to`.
pub fn sub_chars(v: &Vec<char>, from: usize, to: usize) -> (r: Vec<char>)
    requires
        from <= to <= v.len(),
    ensures
        r@ == v@.subrange(from as int, to as int),
{
    let mut r: Vec<char> = Vec::new();
    let mut i: usize = from;
    while i < to
        invariant
            from <= i <= to <= v.len(),
            r@ == v@.subrange(from as int, i as int),
        decreases to - i,
    {
        r.push(v[i]);
        i += 1;
        assert(r@ =~= v@.subrange(from as int, i as int));
    }
    r
}

/// A copy of a character vector.
pub fn copy_chars(a: &Vec<char>) -> (r: Vec<char>)
    ensures
        r@ == a@,
{
    let r = a.clone();
    assert(r@ =~= a@);
    r
}

/// Collects the characters of a string slice into a vector.
pub fn str_chars(s: &str) -> (v: Vec<char>)
    ensures
        v@ == s@,
{
    let mut v: Vec<char> = Vec::new();
    for c in it: s.chars()
        invariant
            v@ == it.seq().take(it.index() as int),
    {
        v.push(c);
    }
    v
}

/// The number of characters of a string slice.
pub fn char_count(s: &str) -> (n: usize)
    ensures
        n == s@.len(),
{
    s.unicode_len()
}

/// Builds a `String` whose characters are exactly those of `chars`.
pub fn chars_to_string(chars: &Vec<char>) -> (s: String)
    ensures
        s@ == chars@,
{
    let mut s = String::new();
    let mut i: usize = 0;
    while i < chars.len()
        invariant
            0 <= i <= chars.len(),
            s@ == chars@.take(i as int),
        decreases chars.len() - i,
    {
        string_push(&mut s, chars[i]);
        i += 1;
        assert(chars@.take(i as int) == chars@.take((i - 1) as int).push(chars@[i - 1]));
    }
    assert(chars@.take(chars.len() as int) == chars@);
    s
}

/// The characters of `s` up to `k` of them (all of them when `s` is shorter).
pub open spec fn char_prefix(s: Seq<char>, k: nat) -> Seq<char> {
    if k < s.len() {
        s.take(k as int)
    } else {
        s
    }
}

/// The number of UTF-8 bytes of a character.
pub fn utf8_width(c: char) -> (w: usize)
    ensures
        w == encode_scalar(c as u32).len(),
{
    proof {
        char_is_scalar(c);
    }
    let v = c as u32;
    if v < 0x80 {
        1
    } else if v < 0x800 {
        2
    } else if v < 0x10000 {
        3
    } else {
        4
    }
}

proof fn lemma_encode_add(a: Seq<char>, b: Seq<char>)
    ensures
        encode_utf8(a + b) == encode_utf8(a) + encode_utf8(b),
    decreases a.len(),
{
    if a.len() == 0 {
        assert(a + b =~= b);
        assert(encode_utf8(a) + encode_utf8(b) =~= encode_utf8(b));
    } else {
        lemma_encode_add(a.drop_first(), b);
        assert((a + b).drop_first() =~= a.drop_first() + b);
        assert((a + b)[0] == a[0]);
        assert(encode_utf8(a + b) =~= encode_utf8(a) + encode_utf8(b));
    }
}

proof fn lemma_prefix_boundary(s: Seq<char>, k: int)
    requires
        0 <= k <= s.len(),
    ensures
        is_char_boundary(encode_utf8(s), encode_utf8(s.take(k)).len() as int),
    decreases s.len(),
{
    broadcast use encode_utf8_valid_utf8;

    if k > 0 {
        let bytes = encode_utf8(s);
        encode_utf8_first_scalar(s);
        assert(pop_first_scalar(bytes) =~= encode_utf8(s.drop_first()));
        lemma_prefix_boundary(s.drop_first(), k - 1);
        assert(s.take(k).drop_first() =~= s.drop_first().take(k - 1));
        assert(s.take(k)[0] == s[0]);
        lemma_encode_add(s.take(k), s.skip(k));
        assert(s.take(k) + s.skip(k) =~= s);
    }
}

/// The number of bytes of the first `char_count` characters of `text` (all of its bytes when
/// it is shorter).
pub fn byte_index_at_char_count(text: &str, char_count: usize) -> (r: usize)
    ensures
        r == encode_utf8(char_prefix(text@, char_count as nat)).len(),
        r <= text.spec_bytes().len(),
        is_char_boundary(text.spec_bytes(), r as int),
{
    proof {
        lemma_prefix_boundary(text@, char_prefix(text@, char_count as nat).len() as int);
        lemma_encode_add(char_prefix(text@, char_count as nat), text@.skip(char_prefix(text@, char_count as nat).len() as int));
        assert(char_prefix(text@, char_count as nat) + text@.skip(char_prefix(text@, char_count as nat).len() as int) =~= text@);
        assert(text@.take(char_prefix(text@, char_count as nat).len() as int) =~= char_prefix(text@, char_count as nat));
    }
    if char_count == 0 {
        assert(char_prefix(text@, 0) =~= Seq::<char>::empty());
        return 0;
    }
    let bytes = text.as_bytes();
    let total = bytes.len();
    assert(total == text.spec_bytes().len());
    let chars = str_chars(text);
    let ghost bound = encode_utf8(char_prefix(text@, char_count as nat)).len();
    let mut index: usize = 0;
    let mut seen: usize = 0;
    assert(text@.take(0) =~= Seq::<char>::empty());
    while seen < chars.len()
        invariant
            chars@ == text@,
            seen <= chars.len(),
            seen <= char_count,
            index == encode_utf8(text@.take(seen as int)).len(),
            total == encode_utf8(text@).len(),
            is_char_boundary(text.spec_bytes(), bound as int),
            bound == encode_utf8(char_prefix(text@, char_count as nat)).len(),
            bound <= encode_utf8(text@).len(),
        decreases chars.len() - seen,
    {
        if seen == char_count {
            assert(char_prefix(text@, char_count as nat) == text@.take(seen as int));
            return index;
        }
        let c = chars[seen];
        proof {
            lemma_encode_add(text@.take(seen as int), seq![c]);
            assert(text@.take(seen + 1) =~= text@.take(seen as int) + seq![c]);
            assert(seq![c].drop_first() =~= Seq::<char>::empty());
            assert(seq![c][0] == c);
            assert(encode_utf8(Seq::<char>::empty()) =~= Seq::<u8>::empty());
            assert(encode_utf8(seq![c]) =~= encode_scalar(c as u32));
            lemma_encode_add(text@.take(seen + 1), text@.skip(seen + 1));
            assert(text@.take(seen + 1) + text@.skip(seen + 1) =~= text@);
        }
        index = index + utf8_width(c);
        seen += 1;
    }
    assert(text@.take(seen as int) =~= text@);
    assert(char_prefix(text@, char_count as nat) =~= text@);
    index
}

/// The first `char_count` characters of `text` (all of it when it is shorter).
pub fn char_prefix_of(text: &str, char_count: usize) -> (r: &str)
    ensures
        r@ == char_prefix(text@, char_count as nat),
{
    let end = byte_index_at_char_count(text, char_count);
    let (head, _tail) = text.split_at(end);
    proof {
        broadcast use encode_utf8_decode_utf8;
        lemma_encode_add(char_prefix(text@, char_count as nat), text@.skip(char_prefix(text@, char_count as nat).len() as int));
        assert(char_prefix(text@, char_count as nat) + text@.skip(char_prefix(text@, char_count as nat).len() as int) =~= text@);
        assert(head.spec_bytes() =~= encode_utf8(char_prefix(text@, char_count as nat)));
        assert(decode_utf8(encode_utf8(head@)) == head@);
    }
    head
}

} // verus!
