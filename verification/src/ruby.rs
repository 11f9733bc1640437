//! Ruby notation: a question is written as plain kana with `[display|reading]` groups for the
//! words whose display differs from what is typed, e.g. `[青|あお]い[空|そら]`.
use vstd::prelude::*;

use crate::romaji_table::{kana_table_pair, kana_table_single, symbol_table_single};
use crate::seqs::view_seq;
use crate::text::{char_count, chars_to_string, str_chars, string_append, string_push, sub_chars};

verus! {

broadcast use vstd::seq_lib::group_seq_properties;

/// A piece of a question: what is shown, what is typed, and whether it was written as a
/// ruby group.
#[derive(Debug, PartialEq, Eq)]
pub struct RubySegment {
    pub display: String,
    pub reading: String,
    pub is_ruby: bool,
}

/// The value of a [`RubySegment`].
pub struct SegmentView {
    pub display: Seq<char>,
    pub reading: Seq<char>,
    pub is_ruby: bool,
}

impl View for RubySegment {
    type V = SegmentView;

    open spec fn view(&self) -> SegmentView {
        SegmentView { display: self.display@, reading: self.reading@, is_ruby: self.is_ruby }
    }
}

impl Clone for RubySegment {
    /// A segment with the same display, reading and kind.
    fn clone(&self) -> (r: RubySegment)
        ensures
            r@ == self@,
    {
        RubySegment {
            display: self.display.clone(),
            reading: self.reading.clone(),
            is_ruby: self.is_ruby,
        }
    }
}

impl RubySegment {
    /// A segment that shows `display` and is typed as `reading`.
    pub fn new(display: &str, reading: &str, is_ruby: bool) -> (r: RubySegment)
        ensures
            r@ == (SegmentView { display: display@, reading: reading@, is_ruby }),
    {
        RubySegment { display: display.to_owned(), reading: reading.to_owned(), is_ruby }
    }
}

/// Why a text in ruby notation was refused.
#[derive(Debug, Clone, PartialEq, Eq)]
pub enum RubyParseError {
    /// A `[` without a following `]`; holds the whole text.
    UnclosedBracket(String),
    /// A ruby group without `|`; holds the group's content.
    MissingDelimiter(String),
    /// A ruby group whose display or reading is empty; holds the group's content.
    EmptyContent(String),
    /// A character that cannot be typed (such as a kanji outside a ruby group); holds it and
    /// the whole text.
    InvalidReadingChar(char, String),
}

/// The value of a [`RubyParseError`].
pub enum ParseErrorView {
    UnclosedBracket(Seq<char>),
    MissingDelimiter(Seq<char>),
    EmptyContent(Seq<char>),
    InvalidReadingChar(char, Seq<char>),
}

impl View for RubyParseError {
    type V = ParseErrorView;

    open spec fn view(&self) -> ParseErrorView {
        match self {
            RubyParseError::UnclosedBracket(s) => ParseErrorView::UnclosedBracket(s@),
            RubyParseError::MissingDelimiter(s) => ParseErrorView::MissingDelimiter(s@),
            RubyParseError::EmptyContent(s) => ParseErrorView::EmptyContent(s@),
            RubyParseError::InvalidReadingChar(c, s) => ParseErrorView::InvalidReadingChar(*c, s@),
        }
    }
}

/// The message that describes an error.
pub open spec fn error_message(e: ParseErrorView) -> Seq<char> {
    match e {
        ParseErrorView::UnclosedBracket(s) => "閉じ括弧 ']' が見つかりません: "@ + s,
        ParseErrorView::MissingDelimiter(s) => "ルビの区切り文字 '|' がありません: ["@ + s + "]"@,
        ParseErrorView::EmptyContent(s) => "表示用テキストまたは読みが空です: ["@ + s + "]"@,
        ParseErrorView::InvalidReadingChar(c, s) => "読み（reading）に漢字や無効な文字が含まれています: '"@
            + seq![c] + "' (文: \""@ + s + "\")"@,
    }
}

impl RubyParseError {
    /// The message that describes this error.
    pub fn message(&self) -> (r: String)
        ensures
            r@ == error_message(self@),
    {
        let mut m = String::new();
        match self {
            RubyParseError::UnclosedBracket(s) => {
                string_append(&mut m, "閉じ括弧 ']' が見つかりません: ");
                string_append(&mut m, s.as_str());
            },
            RubyParseError::MissingDelimiter(s) => {
                string_append(&mut m, "ルビの区切り文字 '|' がありません: [");
                string_append(&mut m, s.as_str());
                string_append(&mut m, "]");
            },
            RubyParseError::EmptyContent(s) => {
                string_append(&mut m, "表示用テキストまたは読みが空です: [");
                string_append(&mut m, s.as_str());
                string_append(&mut m, "]");
            },
            RubyParseError::InvalidReadingChar(c, s) => {
                string_append(&mut m, "読み（reading）に漢字や無効な文字が含まれています: '");
                string_push(&mut m, *c);
                string_append(&mut m, "' (文: \"");
                string_append(&mut m, s.as_str());
                string_append(&mut m, "\")");
            },
        }
        m
    }
}

/// The character typed for `c`: a katakana from `ァ` to `ヶ` becomes its hiragana, any other
/// character stays.
pub open spec fn hiragana_of(c: char) -> char {
    if '\u{30A1}' <= c <= '\u{30F6}' {
        ((c as u32) - 0x60) as char
    } else {
        c
    }
}

/// `s` with every katakana turned into hiragana.
pub open spec fn hiragana_seq(s: Seq<char>) -> Seq<char> {
    s.map_values(|c: char| hiragana_of(c))
}

/// Whether `c` may be typed: kana, printable ASCII, and a few Japanese punctuation marks.
pub open spec fn valid_reading_char(c: char) -> bool {
    ||| '\u{3040}' <= c <= '\u{309F}'
    ||| '\u{30A0}' <= c <= '\u{30FF}'
    ||| '\u{0020}' <= c <= '\u{007E}'
    ||| c == '、' || c == '。' || c == '！' || c == '？' || c == '〜' || c == '～' || c == '「'
        || c == '」' || c == '　'
}

/// The first character of `s` that may not be typed.
pub open spec fn first_invalid(s: Seq<char>) -> Option<char>
    decreases s.len(),
{
    if s.len() == 0 {
        None
    } else if !valid_reading_char(s[0]) {
        Some(s[0])
    } else {
        first_invalid(s.drop_first())
    }
}

/// The index of the first `c` in `s`.
pub open spec fn find_char(s: Seq<char>, c: char) -> Option<int>
    decreases s.len(),
{
    if s.len() == 0 {
        None
    } else if s[0] == c {
        Some(0)
    } else {
        match find_char(s.drop_first(), c) {
            Some(i) => Some(i + 1),
            None => None,
        }
    }
}

/// What [`find_char`] finds.
pub proof fn lemma_find_char(s: Seq<char>, c: char)
    ensures
        match find_char(s, c) {
            Some(i) => 0 <= i < s.len() && s[i] == c && forall|j: int| 0 <= j < i ==> s[j] != c,
            None => forall|j: int| 0 <= j < s.len() ==> s[j] != c,
        },
    decreases s.len(),
{
    if s.len() > 0 && s[0] != c {
        lemma_find_char(s.drop_first(), c);
        match find_char(s.drop_first(), c) {
            Some(i) => {
                assert forall|j: int| 0 <= j < i + 1 implies s[j] != c by {
                    if j > 0 {
                        assert(s[j] == s.drop_first()[j - 1]);
                    }
                }
            },
            None => {
                assert forall|j: int| 0 <= j < s.len() implies s[j] != c by {
                    if j > 0 {
                        assert(s[j] == s.drop_first()[j - 1]);
                    }
                }
            },
        }
    }
}

/// A characterization of [`find_char`] by its index.
proof fn lemma_find_char_at(s: Seq<char>, c: char, i: int)
    requires
        0 <= i < s.len(),
        s[i] == c,
        forall|j: int| 0 <= j < i ==> s[j] != c,
    ensures
        find_char(s, c) == Some(i),
{
    lemma_find_char(s, c);
    match find_char(s, c) {
        Some(k) => {
            if k < i {
                assert(s[k] != c);
            }
            if k > i {
                assert(s[i] != c);
            }
        },
        None => {
            assert(s[i] != c);
        },
    }
}

/// The plain text `plain` (without ruby) as a segment typed as its hiragana; none when it is
/// empty; the first character that cannot be typed as an error.
pub open spec fn plain_result(plain: Seq<char>, input: Seq<char>) -> Result<
    Seq<SegmentView>,
    ParseErrorView,
> {
    if plain.len() == 0 {
        Ok(Seq::empty())
    } else {
        match first_invalid(plain) {
            Some(c) => Err(ParseErrorView::InvalidReadingChar(c, input)),
            None => Ok(
                seq![SegmentView { display: plain, reading: hiragana_seq(plain), is_ruby: false }],
            ),
        }
    }
}

/// The content `inner` of a ruby group: the display before the first `|` and the reading
/// (as hiragana) after it.
pub open spec fn ruby_result(inner: Seq<char>, input: Seq<char>) -> Result<SegmentView, ParseErrorView> {
    match find_char(inner, '|') {
        None => Err(ParseErrorView::MissingDelimiter(inner)),
        Some(p) => {
            let display = inner.take(p);
            let reading = inner.skip(p + 1);
            if display.len() == 0 || reading.len() == 0 {
                Err(ParseErrorView::EmptyContent(inner))
            } else {
                match first_invalid(hiragana_seq(reading)) {
                    Some(c) => Err(ParseErrorView::InvalidReadingChar(c, input)),
                    None => Ok(SegmentView { display, reading: hiragana_seq(reading), is_ruby: true }),
                }
            }
        },
    }
}

/// `done` followed by the segments of `rest`, or the error of `rest`.
pub open spec fn prepend_segments(
    done: Seq<SegmentView>,
    rest: Result<Seq<SegmentView>, ParseErrorView>,
) -> Result<Seq<SegmentView>, ParseErrorView> {
    match rest {
        Ok(r) => Ok(done + r),
        Err(e) => Err(e),
    }
}

/// The ruby group that starts right after a `[`: its segment and the number of characters it
/// takes up to and including the closing `]`.
pub open spec fn group_result(after: Seq<char>, input: Seq<char>) -> Result<(SegmentView, int), ParseErrorView> {
    match find_char(after, ']') {
        None => Err(ParseErrorView::UnclosedBracket(input)),
        Some(e) => match ruby_result(after.take(e), input) {
            Err(err) => Err(err),
            Ok(seg) => Ok((seg, e + 1)),
        },
    }
}

/// The segments of `s`, a suffix of `input`: the plain text up to the first `[`, then the ruby
/// group up to the following `]`, then the segments of what follows.
#[verifier::opaque]
pub open spec fn parse_rest(s: Seq<char>, input: Seq<char>) -> Result<Seq<SegmentView>, ParseErrorView>
    decreases s.len(),
{
    match find_char(s, '[') {
        None => plain_result(s, input),
        Some(b) => match plain_result(s.take(b), input) {
            Err(e) => Err(e),
            Ok(front) => match group_result(s.skip(b + 1), input) {
                Err(err) => Err(err),
                Ok((seg, used)) => {
                    proof {
                        lemma_find_char(s, '[');
                        lemma_find_char(s.skip(b + 1), ']');
                    }
                    prepend_segments(front.push(seg), parse_rest(s.skip(b + 1 + used), input))
                },
            },
        },
    }
}

/// [`parse_rest`] on a text with a `[` at `b`, unfolded once.
proof fn lemma_parse_rest_bracket(rest: Seq<char>, input: Seq<char>, b: int)
    requires
        find_char(rest, '[') == Some(b),
    ensures
        parse_rest(rest, input) == match plain_result(rest.take(b), input) {
            Err(e) => Err(e),
            Ok(front) => match group_result(rest.skip(b + 1), input) {
                Err(err) => Err(err),
                Ok((seg, used)) => prepend_segments(
                    front.push(seg),
                    parse_rest(rest.skip(b + 1 + used), input),
                ),
            },
        },
{
    reveal(parse_rest);
}

/// [`parse_rest`] on a text without `[`.
proof fn lemma_parse_rest_plain(rest: Seq<char>, input: Seq<char>)
    requires
        find_char(rest, '[') is None,
    ensures
        parse_rest(rest, input) == plain_result(rest, input),
{
    reveal(parse_rest);
}

/// The segments of a text in ruby notation, or why it is refused.
pub open spec fn parse_ruby_spec(input: Seq<char>) -> Result<Seq<SegmentView>, ParseErrorView> {
    parse_rest(input, input)
}

/// The katakana-to-hiragana code point shift (`char::from_u32`).
#[verifier::external_body]
fn char_from_u32(n: u32) -> (r: Option<char>)
    ensures
        match r {
            Some(c) => c == n as char,
            None => !(n < 0xD800 || (0xDFFF < n && n <= 0x10FFFF)),
        },
        (n < 0xD800 || (0xDFFF < n && n <= 0x10FFFF)) ==> r is Some,
{
    char::from_u32(n)
}

/// The character typed for `c`: katakana becomes hiragana.
pub fn katakana_to_hiragana(c: char) -> (r: char)
    ensures
        r == hiragana_of(c),
{
    if '\u{30A1}' <= c && c <= '\u{30F6}' {
        match char_from_u32(c as u32 - 0x60) {
            Some(h) => h,
            None => c,
        }
    } else {
        c
    }
}

/// `text` with every katakana turned into hiragana.
pub fn to_hiragana_string(text: &Vec<char>) -> (r: Vec<char>)
    ensures
        r@ == hiragana_seq(text@),
{
    let mut r: Vec<char> = Vec::new();
    let mut i: usize = 0;
    while i < text.len()
        invariant
            0 <= i <= text.len(),
            r@ == hiragana_seq(text@.take(i as int)),
        decreases text.len() - i,
    {
        let h = katakana_to_hiragana(text[i]);
        r.push(h);
        i += 1;
        assert(r@ =~= hiragana_seq(text@.take(i as int)));
    }
    assert(text@.take(text.len() as int) =~= text@);
    r
}

/// Whether `c` may be typed.
fn is_valid_reading_char(c: char) -> (r: bool)
    ensures
        r == valid_reading_char(c),
{
    ('\u{3040}' <= c && c <= '\u{309F}') || ('\u{30A0}' <= c && c <= '\u{30FF}') || ('\u{0020}' <= c
        && c <= '\u{007E}') || c == '、' || c == '。' || c == '！' || c == '？' || c == '〜' || c == '～'
        || c == '「' || c == '」' || c == '　'
}

/// The first character of `text` that may not be typed, as an error about `full_input`.
fn first_invalid_error(text: &Vec<char>, full_input: &str) -> (r: Result<(), RubyParseError>)
    ensures
        match first_invalid(text@) {
            None => r is Ok,
            Some(c) => r is Err && r->Err_0@ == ParseErrorView::InvalidReadingChar(c, full_input@),
        },
{
    let mut i: usize = 0;
    while i < text.len()
        invariant
            0 <= i <= text.len(),
            first_invalid(text@) == first_invalid(text@.skip(i as int)),
        decreases text.len() - i,
    {
        let c = text[i];
        assert(text@.skip(i as int)[0] == c);
        if !is_valid_reading_char(c) {
            return Err(RubyParseError::InvalidReadingChar(c, full_input.to_owned()));
        }
        assert(text@.skip(i as int).drop_first() =~= text@.skip(i + 1));
        i += 1;
    }
    assert(text@.skip(i as int).len() == 0);
    Ok(())
}

/// Checks plain text (outside ruby groups): every character must be typeable, so a kanji
/// without a reading is refused.
fn validate_plain_text(plain: &Vec<char>, full_input: &str) -> (r: Result<(), RubyParseError>)
    ensures
        match first_invalid(plain@) {
            None => r is Ok,
            Some(c) => r is Err && r->Err_0@ == ParseErrorView::InvalidReadingChar(c, full_input@),
        },
{
    first_invalid_error(plain, full_input)
}

/// Checks the reading of a ruby group: every character must be typeable.
fn validate_reading_text(reading: &Vec<char>, full_input: &str) -> (r: Result<(), RubyParseError>)
    ensures
        match first_invalid(reading@) {
            None => r is Ok,
            Some(c) => r is Err && r->Err_0@ == ParseErrorView::InvalidReadingChar(c, full_input@),
        },
{
    first_invalid_error(reading, full_input)
}

/// `prepend_segments` twice is `prepend_segments` of the concatenation.
proof fn lemma_prepend_twice(
    a: Seq<SegmentView>,
    b: Seq<SegmentView>,
    rest: Result<Seq<SegmentView>, ParseErrorView>,
)
    ensures
        prepend_segments(a, prepend_segments(b, rest)) == prepend_segments(a + b, rest),
{
    match rest {
        Ok(r) => assert(a + (b + r) =~= (a + b) + r),
        Err(e) => {},
    }
}

/// Adds the segment of the plain text `plain` (if it is not empty), or fails as
/// [`plain_result`] says.
fn push_plain(segments: &mut Vec<RubySegment>, plain: &Vec<char>, input: &str) -> (r: Result<
    (),
    RubyParseError,
>)
    ensures
        match plain_result(plain@, input@) {
            Ok(front) => r is Ok && view_seq(final(segments)@) == view_seq(old(segments)@) + front,
            Err(e) => r is Err && r->Err_0@ == e,
        },
{
    let ghost old_segs = view_seq(segments@);
    if plain.len() > 0 {
        match validate_plain_text(plain, input) {
            Err(e) => {
                return Err(e);
            },
            Ok(()) => {},
        }
        let reading = to_hiragana_string(plain);
        segments.push(RubySegment {
            display: chars_to_string(plain),
            reading: chars_to_string(&reading),
            is_ruby: false,
        });
    }
    assert(view_seq(segments@) =~= old_segs + plain_result(plain@, input@)->Ok_0);
    Ok(())
}

/// Reads the ruby group that starts at `start` (right after a `[`), as [`group_result`] says.
fn parse_group(chars: &Vec<char>, start: usize, input: &str) -> (r: Result<
    (RubySegment, usize),
    RubyParseError,
>)
    requires
        start <= chars@.len(),
    ensures
        match r {
            Ok((seg, used)) => group_result(chars@.skip(start as int), input@) == Ok::<
                (SegmentView, int),
                ParseErrorView,
            >((seg@, used as int)) && start + used <= chars@.len(),
            Err(e) => group_result(chars@.skip(start as int), input@) == Err::<
                (SegmentView, int),
                ParseErrorView,
            >(e@),
        },
{
    let ghost s = chars@;
    let ghost after = s.skip(start as int);
    let mut i = start;
    let mut inner: Vec<char> = Vec::new();
    while i < chars.len() && chars[i] != ']'
        invariant
            s == chars@,
            start <= i <= s.len(),
            inner@ == s.subrange(start as int, i as int),
            forall|j: int| start <= j < i ==> s[j] != ']',
        decreases s.len() - i,
    {
        inner.push(chars[i]);
        i += 1;
        assert(inner@ =~= s.subrange(start as int, i as int));
    }
    if i == chars.len() {
        proof {
            lemma_find_char(after, ']');
            if find_char(after, ']') is Some {
                let e = find_char(after, ']')->Some_0;
                assert(after[e] == s[start + e]);
            }
        }
        return Err(RubyParseError::UnclosedBracket(input.to_owned()));
    }
    proof {
        lemma_find_char_at(after, ']', i - start);
        assert(after.take(i - start) =~= inner@);
    }
    let mut p: usize = 0;
    while p < inner.len() && inner[p] != '|'
        invariant
            p <= inner@.len(),
            forall|j: int| 0 <= j < p ==> inner@[j] != '|',
        decreases inner@.len() - p,
    {
        p += 1;
    }
    if p == inner.len() {
        proof {
            lemma_find_char(inner@, '|');
        }
        return Err(RubyParseError::MissingDelimiter(chars_to_string(&inner)));
    }
    proof {
        lemma_find_char_at(inner@, '|', p as int);
    }
    let display = sub_chars(&inner, 0, p);
    let reading = sub_chars(&inner, p + 1, inner.len());
    assert(display@ =~= inner@.take(p as int));
    assert(reading@ =~= inner@.skip(p + 1));
    if display.len() == 0 || reading.len() == 0 {
        return Err(RubyParseError::EmptyContent(chars_to_string(&inner)));
    }
    let reading_hira = to_hiragana_string(&reading);
    match validate_reading_text(&reading_hira, input) {
        Err(err) => {
            return Err(err);
        },
        Ok(()) => {},
    }
    let seg = RubySegment {
        display: chars_to_string(&display),
        reading: chars_to_string(&reading_hira),
        is_ruby: true,
    };
    Ok((seg, i - start + 1))
}

/// Parses a text in ruby notation into its segments: plain text (which must be typeable, and
/// is typed as its hiragana) and `[display|reading]` groups (whose reading must be typeable,
/// and is typed as its hiragana).
pub fn parse_ruby(input: &str) -> (r: Result<Vec<RubySegment>, RubyParseError>)
    ensures
        match r {
            Ok(segs) => parse_ruby_spec(input@) == Ok::<Seq<SegmentView>, ParseErrorView>(view_seq(segs@)),
            Err(e) => parse_ruby_spec(input@) == Err::<Seq<SegmentView>, ParseErrorView>(e@),
        },
{
    let chars = str_chars(input);
    let ghost s = chars@;
    let mut segments: Vec<RubySegment> = Vec::new();
    let mut plain_buf: Vec<char> = Vec::new();
    let ghost mut plain_start: int = 0;
    let mut i: usize = 0;
    assert(s.skip(0) =~= s);
    assert(parse_rest(s, s) == prepend_segments(view_seq(segments@), parse_rest(s.skip(0), s))) by {
        match parse_rest(s, s) {
            Ok(r) => assert(Seq::<SegmentView>::empty() + r =~= r),
            Err(e) => {},
        }
    }
    while i < chars.len()
        invariant
            s == chars@,
            s == input@,
            0 <= plain_start <= i <= s.len(),
            plain_buf@ == s.subrange(plain_start, i as int),
            forall|j: int| plain_start <= j < i ==> s[j] != '[',
            parse_rest(s, s) == prepend_segments(view_seq(segments@), parse_rest(s.skip(plain_start), s)),
        decreases s.len() - i,
    {
        let c = chars[i];
        if c == '[' {
            let ghost rest = s.skip(plain_start);
            let ghost b = i - plain_start;
            proof {
                lemma_find_char_at(rest, '[', b);
                lemma_parse_rest_bracket(rest, s, b);
                assert(rest.take(b) =~= plain_buf@);
                assert(rest.skip(b + 1) =~= s.skip(i + 1));
            }
            let ghost old_segs = view_seq(segments@);
            match push_plain(&mut segments, &plain_buf, input) {
                Err(e) => {
                    return Err(e);
                },
                Ok(()) => {},
            }
            plain_buf = Vec::new();
            let ghost front = plain_result(rest.take(b), s)->Ok_0;
            let (seg, used) = match parse_group(&chars, i + 1, input) {
                Err(e) => {
                    return Err(e);
                },
                Ok(g) => g,
            };
            let ghost mid = view_seq(segments@);
            segments.push(seg);
            i = i + 1 + used;
            proof {
                assert(rest.skip(b + 1 + used) =~= s.skip(i as int));
                assert(view_seq(segments@) =~= mid.push(seg@));
                lemma_prepend_twice(old_segs, front.push(seg@), parse_rest(s.skip(i as int), s));
                assert(old_segs + front.push(seg@) =~= view_seq(segments@));
                plain_start = i as int;
                assert(plain_buf@ =~= s.subrange(plain_start, i as int));
            }
        } else {
            plain_buf.push(c);
            i += 1;
            assert(plain_buf@ =~= s.subrange(plain_start, i as int));
        }
    }
    let ghost rest = s.skip(plain_start);
    proof {
        lemma_find_char(rest, '[');
        if find_char(rest, '[') is Some {
            let b = find_char(rest, '[')->Some_0;
            assert(rest[b] == s[plain_start + b]);
        }
        assert(rest =~= plain_buf@);
        lemma_parse_rest_plain(rest, s);
    }
    match push_plain(&mut segments, &plain_buf, input) {
        Err(e) => {
            return Err(e);
        },
        Ok(()) => {},
    }
    Ok(segments)
}

/// The number of display characters done once `rem` reading characters are typed: each
/// segment whose reading is fully typed counts whole; in the first one that is not, a plain
/// segment whose display is as long as its reading advances one display character per typed
/// reading character, and any other (such as a kanji group) counts nothing until complete.
pub open spec fn display_progress(segs: Seq<SegmentView>, rem: int) -> int
    decreases segs.len(),
{
    if segs.len() == 0 {
        0
    } else {
        let rl = segs[0].reading.len() as int;
        let dl = segs[0].display.len() as int;
        if rem >= rl {
            dl + display_progress(segs.drop_first(), rem - rl)
        } else if !segs[0].is_ruby && dl == rl {
            rem
        } else {
            0
        }
    }
}

/// The number of display characters of all segments.
pub open spec fn total_display(segs: Seq<SegmentView>) -> nat
    decreases segs.len(),
{
    if segs.len() == 0 {
        0
    } else {
        segs[0].display.len() + total_display(segs.drop_first())
    }
}

/// The number of reading characters of all segments.
pub open spec fn total_reading(segs: Seq<SegmentView>) -> nat
    decreases segs.len(),
{
    if segs.len() == 0 {
        0
    } else {
        segs[0].reading.len() + total_reading(segs.drop_first())
    }
}

/// The number of display characters done once `reading_completed` characters of the reading
/// are typed (see [`display_progress`]).
pub fn calculate_display_progress(segments: &Vec<RubySegment>, reading_completed: usize) -> (r: usize)
    requires
        total_display(view_seq(segments@)) <= usize::MAX,
    ensures
        r == display_progress(view_seq(segments@), reading_completed as int),
{
    let ghost all = view_seq(segments@);
    let mut rem_reading = reading_completed;
    let mut display_completed: usize = 0;
    let mut k: usize = 0;
    while k < segments.len()
        invariant
            all == view_seq(segments@),
            total_display(all) <= usize::MAX,
            0 <= k <= all.len(),
            display_progress(all, reading_completed as int) == display_completed + display_progress(
                all.skip(k as int),
                rem_reading as int,
            ),
            display_completed + total_display(all.skip(k as int)) == total_display(all),
        decreases all.len() - k,
    {
        let seg = &segments[k];
        let seg_reading_len = char_count(seg.reading.as_str());
        let seg_display_len = char_count(seg.display.as_str());
        proof {
            assert(all.skip(k as int)[0] == seg@);
            assert(all.skip(k as int).drop_first() =~= all.skip(k + 1));
        }
        if rem_reading >= seg_reading_len {
            rem_reading -= seg_reading_len;
            display_completed += seg_display_len;
        } else {
            if !seg.is_ruby && seg_display_len == seg_reading_len {
                display_completed += rem_reading;
            }
            return display_completed;
        }
        k += 1;
    }
    display_completed
}

/// Typing more of the reading never takes display progress back.
pub proof fn lemma_display_progress_monotone(segs: Seq<SegmentView>, a: int, b: int)
    requires
        0 <= a <= b,
    ensures
        display_progress(segs, a) <= display_progress(segs, b),
    decreases segs.len(),
{
    if segs.len() > 0 {
        let rl = segs[0].reading.len() as int;
        if a >= rl {
            lemma_display_progress_monotone(segs.drop_first(), a - rl, b - rl);
        } else if b >= rl {
            lemma_display_progress_bounds(segs.drop_first(), b - rl);
        }
    }
}

/// Display progress is never negative and never more than the whole display.
pub proof fn lemma_display_progress_bounds(segs: Seq<SegmentView>, a: int)
    requires
        0 <= a,
    ensures
        0 <= display_progress(segs, a) <= total_display(segs),
    decreases segs.len(),
{
    if segs.len() > 0 {
        let rl = segs[0].reading.len() as int;
        if a >= rl {
            lemma_display_progress_bounds(segs.drop_first(), a - rl);
        }
    }
}

/// Once the whole reading is typed, the whole display is done.
pub proof fn lemma_display_progress_complete(segs: Seq<SegmentView>, a: int)
    requires
        a >= total_reading(segs),
    ensures
        display_progress(segs, a) == total_display(segs),
    decreases segs.len(),
{
    if segs.len() > 0 {
        lemma_display_progress_complete(segs.drop_first(), a - segs[0].reading.len());
    }
}

/// Turning katakana into hiragana twice changes nothing more than once.
pub proof fn lemma_hiragana_idempotent(s: Seq<char>)
    ensures
        hiragana_seq(hiragana_seq(s)) == hiragana_seq(s),
{
    assert forall|i: int| 0 <= i < s.len() implies #[trigger] hiragana_of(hiragana_of(s[i])) == hiragana_of(s[i]) by {
        let c = s[i];
        if '\u{30A1}' <= c <= '\u{30F6}' {
            let h = ((c as u32) - 0x60) as char;
            assert(h as u32 == (c as u32) - 0x60);
            assert(!('\u{30A1}' <= h <= '\u{30F6}'));
        }
    }
    assert(hiragana_seq(hiragana_seq(s)) =~= hiragana_seq(s));
}

/// The reading characters of all segments, counted from the last segment.
pub proof fn lemma_totals_last(segs: Seq<SegmentView>)
    requires
        segs.len() > 0,
    ensures
        total_reading(segs) == total_reading(segs.drop_last()) + segs.last().reading.len(),
        total_display(segs) == total_display(segs.drop_last()) + segs.last().display.len(),
    decreases segs.len(),
{
    if segs.len() > 1 {
        let df = segs.drop_first();
        lemma_totals_last(df);
        assert(df.drop_last() =~= segs.drop_last().drop_first());
        assert(df.last() == segs.last());
        assert(segs.drop_last()[0] == segs[0]);
    } else {
        assert(segs.drop_first().len() == 0);
        assert(segs.drop_last().len() == 0);
    }
}

/// The ruby markup of a segment: `[display|reading]` for a ruby segment, the display itself for
/// plain text.
pub open spec fn segment_markup(s: SegmentView) -> Seq<char> {
    if s.is_ruby {
        seq!['['] + s.display + seq!['|'] + s.reading + seq![']']
    } else {
        s.display
    }
}

/// The ruby markup of segments, one after another.
pub open spec fn ruby_markup(segs: Seq<SegmentView>) -> Seq<char>
    decreases segs.len(),
{
    if segs.len() == 0 {
        Seq::empty()
    } else {
        segment_markup(segs[0]) + ruby_markup(segs.drop_first())
    }
}

/// A plain segment as the parser gives it: non-empty text without `[`, all of it typeable, read
/// as its hiragana.
pub open spec fn plain_ok(s: SegmentView) -> bool {
    &&& !s.is_ruby
    &&& s.display.len() > 0
    &&& find_char(s.display, '[') is None
    &&& first_invalid(s.display) is None
    &&& s.reading == hiragana_seq(s.display)
}

/// A ruby segment as the parser gives it: a non-empty display without `|` or `]`, and a
/// non-empty typeable hiragana reading without `]`.
pub open spec fn ruby_ok(s: SegmentView) -> bool {
    &&& s.is_ruby
    &&& s.display.len() > 0
    &&& find_char(s.display, '|') is None
    &&& find_char(s.display, ']') is None
    &&& s.reading.len() > 0
    &&& find_char(s.reading, ']') is None
    &&& first_invalid(s.reading) is None
    &&& hiragana_seq(s.reading) == s.reading
}

/// Segments as the parser gives them: each plain or ruby as above, and no two plain segments
/// one after the other.
pub open spec fn canonical_segments(segs: Seq<SegmentView>) -> bool
    decreases segs.len(),
{
    if segs.len() == 0 {
        true
    } else {
        &&& if segs[0].is_ruby {
            ruby_ok(segs[0])
        } else {
            plain_ok(segs[0]) && (segs.len() > 1 ==> segs[1].is_ruby)
        }
        &&& canonical_segments(segs.drop_first())
    }
}

proof fn lemma_find_none(s: Seq<char>, c: char)
    requires
        forall|j: int| 0 <= j < s.len() ==> s[j] != c,
    ensures
        find_char(s, c) is None,
{
    lemma_find_char(s, c);
}

/// A ruby group in markup, followed by `tail`, parses back to its segment.
#[verifier::rlimit(50)]
#[verifier::spinoff_prover]
proof fn lemma_group_parses(seg: SegmentView, tail: Seq<char>, input: Seq<char>)
    requires
        ruby_ok(seg),
    ensures
        group_result(seg.display + seq!['|'] + seg.reading + seq![']'] + tail, input) == Ok::<
            (SegmentView, int),
            ParseErrorView,
        >((seg, (seg.display.len() + seg.reading.len() + 2) as int)),
        (seg.display + seq!['|'] + seg.reading + seq![']'] + tail).skip(
            (seg.display.len() + seg.reading.len() + 2) as int,
        ) == tail,
{
    let d = seg.display;
    let r = seg.reading;
    let after = d + seq!['|'] + r + seq![']'] + tail;
    lemma_find_char(d, '|');
    lemma_find_char(d, ']');
    lemma_find_char(r, ']');
    let e: int = (d.len() + 1 + r.len()) as int;
    assert(after[e] == ']');
    assert forall|j: int| 0 <= j < e implies after[j] != ']' by {
        if j < d.len() {
            assert(after[j] == d[j]);
        } else if j == d.len() {
            assert(after[j] == '|');
        } else {
            assert(after[j] == r[j - d.len() - 1]);
        }
    }
    lemma_find_char_at(after, ']', e);
    let inner = after.take(e);
    assert(inner =~= d + seq!['|'] + r);
    assert(inner[d.len() as int] == '|');
    assert forall|j: int| 0 <= j < d.len() implies inner[j] != '|' by {
        assert(inner[j] == d[j]);
    }
    lemma_find_char_at(inner, '|', d.len() as int);
    assert(inner.take(d.len() as int) =~= d);
    assert(inner.skip((d.len() + 1) as int) =~= r);
    assert(ruby_result(inner, input) == Ok::<SegmentView, ParseErrorView>(seg));
    assert(after.skip(e + 1) =~= tail);
}

/// Segments as the parser gives them parse back from their markup.
#[verifier::rlimit(50)]
#[verifier::spinoff_prover]
proof fn lemma_markup_parses(segs: Seq<SegmentView>, input: Seq<char>)
    requires
        canonical_segments(segs),
    ensures
        parse_rest(ruby_markup(segs), input) == Ok::<Seq<SegmentView>, ParseErrorView>(segs),
    decreases segs.len(),
{
    let m = ruby_markup(segs);
    if segs.len() == 0 {
        lemma_find_none(m, '[');
        lemma_parse_rest_plain(m, input);
        assert(segs =~= Seq::<SegmentView>::empty());
    } else {
        let s = segs[0];
        let rest = segs.drop_first();
        if s.is_ruby {
            let tail = ruby_markup(rest);
            let after = s.display + seq!['|'] + s.reading + seq![']'] + tail;
            assert(m =~= seq!['['] + after);
            lemma_find_char_at(m, '[', 0);
            lemma_parse_rest_bracket(m, input, 0);
            assert(m.take(0) =~= Seq::<char>::empty());
            assert(m.skip(1) =~= after);
            lemma_group_parses(s, tail, input);
            let used: int = (s.display.len() + s.reading.len() + 2) as int;
            assert(m.skip(1 + used) =~= tail);
            lemma_markup_parses(rest, input);
            assert(Seq::<SegmentView>::empty().push(s) + rest =~= segs);
        } else {
            let d = s.display;
            lemma_find_char(d, '[');
            if segs.len() == 1 {
                assert(rest.len() == 0);
                assert(m =~= d);
                lemma_parse_rest_plain(m, input);
                assert(seq![SegmentView { display: d, reading: hiragana_seq(d), is_ruby: false }] =~= segs);
            } else {
                let s1 = segs[1];
                let rest2 = rest.drop_first();
                assert(rest[0] == s1);
                assert(canonical_segments(rest));
                assert(ruby_ok(s1));
                let tail = ruby_markup(rest2);
                let after = s1.display + seq!['|'] + s1.reading + seq![']'] + tail;
                assert(ruby_markup(rest) == segment_markup(s1) + tail);
                assert(m =~= d + (seq!['['] + after));
                assert(m[d.len() as int] == '[');
                assert forall|j: int| 0 <= j < d.len() implies m[j] != '[' by {
                    assert(m[j] == d[j]);
                }
                lemma_find_char_at(m, '[', d.len() as int);
                lemma_parse_rest_bracket(m, input, d.len() as int);
                assert(m.take(d.len() as int) =~= d);
                assert(m.skip((d.len() + 1) as int) =~= after);
                lemma_group_parses(s1, tail, input);
                let used: int = (s1.display.len() + s1.reading.len() + 2) as int;
                assert(m.skip(d.len() + 1 + used) =~= tail);
                lemma_markup_parses(rest2, input);
                assert(seq![s].push(s1) + rest2 =~= segs);
                assert(seq![SegmentView { display: d, reading: hiragana_seq(d), is_ruby: false }] =~= seq![s]);
            }
        }
    }
}

/// A character that is not `]` does not become `]` as hiragana.
proof fn lemma_hiragana_not_bracket(c: char)
    requires
        c != ']',
    ensures
        hiragana_of(c) != ']',
{
    if '\u{30A1}' <= c <= '\u{30F6}' {
        let h = ((c as u32) - 0x60) as char;
        assert(h as u32 == (c as u32) - 0x60);
    }
}

/// What the parser gives is as [`canonical_segments`] describes.
#[verifier::rlimit(50)]
#[verifier::spinoff_prover]
proof fn lemma_parse_canonical(s: Seq<char>, input: Seq<char>)
    requires
        parse_rest(s, input) is Ok,
    ensures
        canonical_segments(parse_rest(s, input)->Ok_0),
    decreases s.len(),
{
    lemma_find_char(s, '[');
    match find_char(s, '[') {
        None => {
            lemma_parse_rest_plain(s, input);
            if s.len() > 0 {
                let segs = parse_rest(s, input)->Ok_0;
                assert(segs.drop_first() =~= Seq::<SegmentView>::empty());
                assert(canonical_segments(segs.drop_first()));
                assert(plain_ok(segs[0]));
            }
        },
        Some(b) => {
            lemma_parse_rest_bracket(s, input, b);
            let front = plain_result(s.take(b), input)->Ok_0;
            let after = s.skip(b + 1);
            lemma_find_char(after, ']');
            let e = find_char(after, ']')->Some_0;
            let inner = after.take(e);
            let seg = ruby_result(inner, input)->Ok_0;
            let used = e + 1;
            lemma_parse_canonical(s.skip(b + 1 + used), input);
            let r = parse_rest(s.skip(b + 1 + used), input)->Ok_0;
            let segs = parse_rest(s, input)->Ok_0;
            assert(segs == front.push(seg) + r);
            // the plain text before `[`
            assert forall|j: int| 0 <= j < s.take(b).len() implies s.take(b)[j] != '[' by {}
            lemma_find_none(s.take(b), '[');
            // the ruby group
            lemma_find_char(inner, '|');
            let p = find_char(inner, '|')->Some_0;
            let d = inner.take(p);
            let raw = inner.skip(p + 1);
            assert(seg.display == d && seg.reading == hiragana_seq(raw) && seg.is_ruby);
            assert forall|j: int| 0 <= j < d.len() implies d[j] != '|' by {}
            lemma_find_none(d, '|');
            assert forall|j: int| 0 <= j < d.len() implies d[j] != ']' by {
                assert(d[j] == after[j]);
            }
            lemma_find_none(d, ']');
            assert forall|j: int| 0 <= j < seg.reading.len() implies seg.reading[j] != ']' by {
                assert(raw[j] == after[p + 1 + j]);
                lemma_hiragana_not_bracket(raw[j]);
            }
            lemma_find_none(seg.reading, ']');
            lemma_hiragana_idempotent(raw);
            assert(ruby_ok(seg));
            let sr = seq![seg] + r;
            assert(sr[0] == seg);
            assert(sr.drop_first() =~= r);
            assert(canonical_segments(sr));
            if front.len() == 0 {
                assert(segs =~= sr);
            } else {
                let pseg = front[0];
                assert(front =~= seq![pseg]);
                assert(plain_ok(pseg));
                assert(segs =~= seq![pseg] + sr);
                assert(segs[0] == pseg && segs[1] == seg);
                assert(segs.drop_first() =~= sr);
            }
        },
    }
}

/// Parsing the ruby markup of a parse result gives that result back.
pub proof fn lemma_markup_round_trip(input: Seq<char>)
    requires
        parse_ruby_spec(input) is Ok,
    ensures
        parse_ruby_spec(ruby_markup(parse_ruby_spec(input)->Ok_0)) == parse_ruby_spec(input),
{
    lemma_parse_canonical(input, input);
    let segs = parse_ruby_spec(input)->Ok_0;
    lemma_markup_parses(segs, ruby_markup(segs));
}

/// The kana of the romaji table, and the symbols of the symbol table other than the full-width
/// colon, semicolon and parentheses, are characters that plain text may hold.
#[verifier::rlimit(100)]
pub proof fn lemma_table_chars_valid(c: char, d: char)
    ensures
        kana_table_single(c) is Some ==> valid_reading_char(c),
        kana_table_pair(c, d) is Some ==> valid_reading_char(c) && valid_reading_char(d),
        symbol_table_single(c) is Some && c != '：' && c != '；' && c != '（' && c != '）' ==> valid_reading_char(c),
{
}

/// A unit that plain text may hold: a kana of the romaji table (or its katakana), a symbol of
/// the symbol table other than the full-width colon, semicolon and parentheses, or a printable
/// ASCII character other than `[`.
pub open spec fn plain_table_char(c: char) -> bool {
    ||| kana_table_single(hiragana_of(c)) is Some
    ||| (symbol_table_single(c) is Some && c != '：' && c != '；' && c != '（' && c != '）')
    ||| (' ' <= c <= '~' && c != '[')
}

proof fn lemma_first_invalid_none(s: Seq<char>)
    requires
        forall|i: int| 0 <= i < s.len() ==> valid_reading_char(#[trigger] s[i]),
    ensures
        first_invalid(s) is None,
    decreases s.len(),
{
    if s.len() > 0 {
        assert(valid_reading_char(s[0]));
        assert forall|i: int| 0 <= i < s.drop_first().len() implies valid_reading_char(#[trigger] s.drop_first()[i]) by {
            assert(s.drop_first()[i] == s[i + 1]);
        }
        lemma_first_invalid_none(s.drop_first());
    }
}

/// Text made of kana and punctuation that the tables spell, such as `は、いい` or `。`, parses
/// without error into one plain segment read as its hiragana.
pub proof fn lemma_plain_text_parses(p: Seq<char>)
    requires
        p.len() > 0,
        forall|i: int| 0 <= i < p.len() ==> plain_table_char(#[trigger] p[i]),
    ensures
        parse_ruby_spec(p) == Ok::<Seq<SegmentView>, ParseErrorView>(
            seq![SegmentView { display: p, reading: hiragana_seq(p), is_ruby: false }],
        ),
{
    assert forall|i: int| 0 <= i < p.len() implies valid_reading_char(#[trigger] p[i]) by {
        let c = p[i];
        lemma_table_chars_valid(c, c);
        lemma_table_chars_valid(hiragana_of(c), c);
        if '\u{30A1}' <= c <= '\u{30F6}' {
            assert(valid_reading_char(c));
        }
    }
    assert forall|i: int| 0 <= i < p.len() implies p[i] != '[' by {
        assert(plain_table_char(p[i]));
        assert(kana_table_single('[') is None);
        assert(symbol_table_single('[') is None);
        assert(hiragana_of('[') == '[');
    }
    lemma_first_invalid_none(p);
    lemma_find_char(p, '[');
    lemma_parse_rest_plain(p, p);
}

} // verus!
