//! A question: a text in ruby notation, with what is shown and what is typed.
use vstd::prelude::*;

use crate::ruby::{
    calculate_display_progress, display_progress, lemma_display_progress_complete, lemma_totals_last, parse_ruby,
    parse_ruby_spec, total_display, total_reading, RubySegment, SegmentView,
};
use crate::seqs::view_seq;
use crate::text::string_append;

verus! {

/// A question of the game.
#[derive(Debug)]
pub struct Question {
    pub id: String,
    pub display: String,
    pub reading: String,
    pub segments: Vec<RubySegment>,
    pub category: String,
    pub difficulty: u8,
}

/// The value of a [`Question`].
pub struct QuestionView {
    pub id: Seq<char>,
    pub display: Seq<char>,
    pub reading: Seq<char>,
    pub segments: Seq<SegmentView>,
    pub category: Seq<char>,
    pub difficulty: u8,
}

impl View for Question {
    type V = QuestionView;

    open spec fn view(&self) -> QuestionView {
        QuestionView {
            id: self.id@,
            display: self.display@,
            reading: self.reading@,
            segments: view_seq(self.segments@),
            category: self.category@,
            difficulty: self.difficulty,
        }
    }
}

impl Clone for Question {
    /// The same question.
    fn clone(&self) -> (r: Question)
        ensures
            r@ == self@,
    {
        let segments = self.segments.clone();
        assert(view_seq(segments@) =~= view_seq(self.segments@)) by {
            assert forall|i: int| 0 <= i < segments@.len() implies segments@[i]@ == self.segments@[i]@ by {
                assert(vstd::pervasive::cloned(self.segments@[i], segments@[i]));
            }
        }
        Question {
            id: self.id.clone(),
            display: self.display.clone(),
            reading: self.reading.clone(),
            segments,
            category: self.category.clone(),
            difficulty: self.difficulty,
        }
    }
}

/// The displays of the segments, one after another.
pub open spec fn joined_display(segs: Seq<SegmentView>) -> Seq<char>
    decreases segs.len(),
{
    if segs.len() == 0 {
        Seq::empty()
    } else {
        joined_display(segs.drop_last()) + segs.last().display
    }
}

/// The readings of the segments, one after another.
pub open spec fn joined_reading(segs: Seq<SegmentView>) -> Seq<char>
    decreases segs.len(),
{
    if segs.len() == 0 {
        Seq::empty()
    } else {
        joined_reading(segs.drop_last()) + segs.last().reading
    }
}

/// The text form of a version 4 UUID: 32 lowercase hexadecimal digits in groups of 8, 4, 4,
/// 4 and 12 separated by `-`, with the version digit `4` and a variant digit from `8` to `b`.
pub open spec fn is_uuid_v4_text(s: Seq<char>) -> bool {
    &&& s.len() == 36
    &&& forall|i: int|
        0 <= i < 36 ==> if i == 8 || i == 13 || i == 18 || i == 23 {
            #[trigger] s[i] == '-'
        } else {
            ('0' <= s[i] <= '9') || ('a' <= s[i] <= 'f')
        }
    &&& s[14] == '4'
    &&& (s[19] == '8' || s[19] == '9' || s[19] == 'a' || s[19] == 'b')
}

/// A fresh random identifier: `uuid::Uuid::new_v4()` in its text form (hyphenated lowercase
/// hexadecimal). Its digits are random; only the form is stated. It fails only when the
/// operating system gives no random bytes.
#[verifier::external_body]
fn new_question_id() -> (id: String)
    ensures
        is_uuid_v4_text(id@),
{
    uuid::Uuid::new_v4().to_string()
}

impl Question {
    /// The question written as `reading` in ruby notation (see [`Question::from_ruby`]).
    pub fn new(reading: &str) -> (q: Question)
        requires
            parse_ruby_spec(reading@) is Ok,
        ensures
            view_seq(q.segments@) == parse_ruby_spec(reading@)->Ok_0,
            q.display@ == joined_display(view_seq(q.segments@)),
            q.reading@ == joined_reading(view_seq(q.segments@)),
            is_uuid_v4_text(q.id@),
            q.category@ == Seq::<char>::empty(),
            q.difficulty == 0,
    {
        Self::from_ruby(reading)
    }

    /// The question written as `text` in ruby notation: its segments, the display and the
    /// reading they spell, a fresh identifier, no category and difficulty 0. The text must be
    /// valid ruby notation.
    pub fn from_ruby(text: &str) -> (q: Question)
        requires
            parse_ruby_spec(text@) is Ok,
        ensures
            view_seq(q.segments@) == parse_ruby_spec(text@)->Ok_0,
            q.display@ == joined_display(view_seq(q.segments@)),
            q.reading@ == joined_reading(view_seq(q.segments@)),
            is_uuid_v4_text(q.id@),
            q.category@ == Seq::<char>::empty(),
            q.difficulty == 0,
    {
        let segments = match parse_ruby(text) {
            Ok(s) => s,
            Err(_) => {
                proof {
                    assert(false);
                }
                Vec::new()
            },
        };
        let ghost segs = view_seq(segments@);
        let mut display = String::new();
        let mut reading = String::new();
        let mut i: usize = 0;
        while i < segments.len()
            invariant
                segs == view_seq(segments@),
                0 <= i <= segs.len(),
                display@ == joined_display(segs.take(i as int)),
                reading@ == joined_reading(segs.take(i as int)),
            decreases segs.len() - i,
        {
            string_append(&mut display, segments[i].display.as_str());
            string_append(&mut reading, segments[i].reading.as_str());
            i += 1;
            assert(segs.take(i as int).drop_last() =~= segs.take(i - 1));
            assert(segs.take(i as int).last() == segments@[i - 1]@);
        }
        assert(segs.take(i as int) =~= segs);
        Question {
            id: new_question_id(),
            display,
            reading,
            segments,
            category: String::new(),
            difficulty: 0,
        }
    }

    /// The number of display characters done once `reading_completed` characters of the
    /// reading are typed.
    pub fn display_completed_chars(&self, reading_completed: usize) -> (r: usize)
        requires
            total_display(view_seq(self.segments@)) <= usize::MAX,
        ensures
            r == display_progress(view_seq(self.segments@), reading_completed as int),
    {
        calculate_display_progress(&self.segments, reading_completed)
    }
}

/// The joined reading and display are as long as the segments' readings and displays together.
proof fn lemma_joined_lengths(segs: Seq<SegmentView>)
    ensures
        joined_reading(segs).len() == total_reading(segs),
        joined_display(segs).len() == total_display(segs),
    decreases segs.len(),
{
    if segs.len() > 0 {
        lemma_joined_lengths(segs.drop_last());
        lemma_totals_last(segs);
    }
}

/// Once a question's whole reading is typed, its whole display is done.
pub proof fn lemma_whole_reading_whole_display(q: QuestionView)
    requires
        q.reading == joined_reading(q.segments),
        q.display == joined_display(q.segments),
    ensures
        display_progress(q.segments, q.reading.len() as int) == q.display.len(),
{
    lemma_joined_lengths(q.segments);
    lemma_display_progress_complete(q.segments, q.reading.len() as int);
}

} // verus!
