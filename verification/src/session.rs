//! A game: the questions of a mode typed one after another with the engine, the keys counted,
//! and, in time attack, a time limit.
use vstd::prelude::*;

use crate::engine::{progress_range, reading_groups, step, EngineView, TypingEngine};
use crate::mode::{lemma_cloned_views, mode_questions, GameMode};
use crate::progress::Progress;
use crate::question::Question;
use crate::result::EngineInputResult;
use crate::score::PlayMode;
use crate::stats::{duration_since, instant_gap, instant_now, Stats};
use crate::status::Status;
use crate::question::QuestionView;
use crate::seqs::view_seq;
use crate::text::{str_chars, string_push};
use rand::seq::SliceRandom;
use std::time::{Duration, Instant};

verus! {

/// The random number generator of the current thread (`rand::rngs::ThreadRng`), carried
/// through opaquely.
#[verifier::external_type_specification]
#[verifier::external_body]
pub struct ExThreadRng(rand::rngs::ThreadRng);

/// The generator of the current thread (`rand::rng`).
#[verifier::external_body]
fn thread_rng() -> rand::rngs::ThreadRng {
    rand::rng()
}

/// Shuffles the questions in place (`SliceRandom::shuffle`): the same questions in an order
/// chosen at random. Which order is not stated.
#[verifier::external_body]
fn shuffle_questions(questions: &mut Vec<Question>, rng: &mut rand::rngs::ThreadRng)
    ensures
        view_seq(final(questions)@).to_multiset() == view_seq(old(questions)@).to_multiset(),
{
    questions.shuffle(rng);
}

/// The time since `start` (`Instant::elapsed`, which std computes as `Instant::now() - start`,
/// that is `Instant::now().duration_since(start)`): the gap from `start` to a reading of the
/// clock. Which reading is not stated: it is the clock's.
#[verifier::external_body]
fn elapsed_since(start: Instant) -> (r: Duration)
    ensures
        exists|now: Instant| r == instant_gap(now, start),
{
    start.elapsed()
}

/// Whether `a` is at least `b`, as `Duration`'s `>=` decides.
pub uninterp spec fn duration_ge(a: Duration, b: Duration) -> bool;

/// `a - b`, or none when `b` is longer, as `Duration::checked_sub` gives it.
pub uninterp spec fn duration_checked_difference(a: Duration, b: Duration) -> Option<Duration>;

/// Whether `a` is at least `b` (`Duration`'s `>=`): the value named by [`duration_ge`].
#[verifier::external_body]
fn duration_at_least(a: Duration, b: Duration) -> (r: bool)
    ensures
        r == duration_ge(a, b),
{
    a >= b
}

/// `a - b`, or none when `b` is longer (`Duration::checked_sub`): the value named by
/// [`duration_checked_difference`].
#[verifier::external_body]
fn duration_checked_sub(a: Duration, b: Duration) -> (r: Option<Duration>)
    ensures
        r == duration_checked_difference(a, b),
{
    a.checked_sub(b)
}

/// The keys counted for one finished question, and the time it took.
#[derive(Debug, Clone, Copy)]
pub struct QuestionRecord {
    pub correct_count: usize,
    pub incorrect_count: usize,
    pub elapsed_time: Duration,
}

/// The answer of the game to one key.
#[derive(Debug, Clone)]
pub enum InputResult {
    /// The key was accepted; the question goes on.
    Accepted { progress: Progress },
    /// The key was refused; `expected` is the next key of the guide (empty when there is none).
    Rejected { expected: String },
    /// The key finished the question (or the question was already typed).
    Completed { stats: QuestionRecord },
    /// The game is not being played.
    AlreadyCompleted,
    /// The time limit has passed.
    TimeUp,
}

/// The totals of a finished game.
#[derive(Debug, Clone, Copy)]
pub struct GameTotals {
    pub total_correct: usize,
    pub total_incorrect: usize,
    pub total_time: Duration,
    pub questions_completed: usize,
}

/// Whether the engine can spell the question's reading.
pub open spec fn loadable(q: QuestionView) -> bool {
    reading_groups(q.reading) is Ok
}

/// The first question from `i` on that the engine can spell (the number of questions when
/// none can).
pub open spec fn first_loadable(qs: Seq<QuestionView>, i: int) -> int
    decreases qs.len() - i,
{
    if i >= qs.len() {
        qs.len() as int
    } else if loadable(qs[i]) {
        i
    } else {
        first_loadable(qs, i + 1)
    }
}

proof fn lemma_first_loadable(qs: Seq<QuestionView>, i: int)
    requires
        0 <= i <= qs.len(),
    ensures
        i <= first_loadable(qs, i) <= qs.len(),
        first_loadable(qs, i) < qs.len() ==> loadable(qs[first_loadable(qs, i)]),
    decreases qs.len() - i,
{
    if i < qs.len() && !loadable(qs[i]) {
        lemma_first_loadable(qs, i + 1);
    }
}


/// The key counts of the finished questions, one after the other.
pub open spec fn record_counts(records: Seq<QuestionRecord>) -> Seq<(nat, nat)> {
    records.map_values(|r: QuestionRecord| (r.correct_count as nat, r.incorrect_count as nat))
}

/// The sum of the correct counts.
pub open spec fn sum_correct(counts: Seq<(nat, nat)>) -> nat
    decreases counts.len(),
{
    if counts.len() == 0 {
        0
    } else {
        sum_correct(counts.drop_last()) + counts.last().0
    }
}

/// The sum of the incorrect counts.
pub open spec fn sum_incorrect(counts: Seq<(nat, nat)>) -> nat
    decreases counts.len(),
{
    if counts.len() == 0 {
        0
    } else {
        sum_incorrect(counts.drop_last()) + counts.last().1
    }
}

/// The first key of a guide (none when it is empty).
pub open spec fn first_key(guide: Seq<char>) -> Seq<char> {
    if guide.len() == 0 {
        Seq::empty()
    } else {
        seq![guide[0]]
    }
}

/// The value of a game: its mode, questions and position, the engine of the current question,
/// the keys counted for it, the counts of the finished questions, the phase, and the keys
/// typed for the current question.
pub struct SessionView {
    pub time_limit: Option<Duration>,
    pub mode_questions: Seq<QuestionView>,
    pub questions: Seq<QuestionView>,
    pub index: nat,
    pub engine: Option<EngineView>,
    pub correct: nat,
    pub incorrect: nat,
    pub records: Seq<(nat, nat)>,
    pub status: Status,
    pub typed: Seq<char>,
    pub started: bool,
}

/// A game.
pub struct Session {
    mode: GameMode,
    questions: Vec<Question>,
    current_question_idx: usize,
    active_engine: Option<TypingEngine>,
    pub stats: Stats,
    question_stats: Vec<QuestionRecord>,
    pub status: Status,
    start_time: Option<Instant>,
    end_time: Option<Instant>,
    question_start_time: Option<Instant>,
    typed_romaji_count: usize,
    typed_romaji: String,
}

/// The time limit of a game in `mode`: none in a normal game.
pub open spec fn mode_limit(mode: GameMode) -> Option<Duration> {
    match mode {
        GameMode::TimeAttack { time_limit, pool: _ } => Some(time_limit),
        GameMode::Normal { questions: _ } => None,
    }
}

/// The engine's value, if there is an engine.
pub open spec fn engine_view(e: Option<TypingEngine>) -> Option<EngineView> {
    match e {
        Some(engine) => Some(engine@),
        None => None,
    }
}

impl View for Session {
    type V = SessionView;

    closed spec fn view(&self) -> SessionView {
        SessionView {
            time_limit: mode_limit(self.mode),
            mode_questions: mode_questions(self.mode),
            questions: view_seq(self.questions@),
            index: self.current_question_idx as nat,
            engine: engine_view(self.active_engine),
            correct: self.stats.correct_count as nat,
            incorrect: self.stats.incorrect_count as nat,
            records: record_counts(self.question_stats@),
            status: self.status,
            typed: self.typed_romaji@,
            started: self.start_time is Some,
        }
    }
}

/// The engine is fresh for question `k`: built from its reading, at the start.
pub open spec fn fresh_for(v: SessionView, k: int) -> bool {
    &&& v.engine matches Some(e) && e.reading == v.questions[k].reading && e.states == seq![0usize]
    &&& v.typed.len() == 0
}

/// After loading from question `i` on: the first question that the engine can spell is the
/// current one, with a fresh engine; when there is none, the game is over.
pub open spec fn loaded_from(v: SessionView, i: int, status_before: Status) -> bool {
    let k = first_loadable(v.questions, i);
    if k < v.questions.len() {
        &&& v.index == k
        &&& fresh_for(v, k)
        &&& v.status == status_before
    } else {
        &&& v.index == v.questions.len()
        &&& v.engine is None
        &&& (v.status == Status::Completed || v.status == Status::TimeUp)
    }
}

impl Session {
    /// The game's invariant.
    pub closed spec fn wf(&self) -> bool {
        &&& self.current_question_idx <= self.questions@.len()
        &&& self.typed_romaji_count == self.typed_romaji@.len()
        &&& match self.active_engine {
            Some(e) => e.wf() && self.current_question_idx < self.questions@.len() && e@.reading
                == self.questions@[self.current_question_idx as int]@.reading,
            None => true,
        }
        &&& self.status == Status::Playing ==> self.active_engine is Some
        &&& self.status == Status::Ready ==> self.active_engine is None
    }

    /// A game in `mode`, not started: the questions of a normal game in their order, those of
    /// a time attack shuffled.
    pub fn new(mode: GameMode) -> (s: Session)
        ensures
            s.wf(),
            s@.time_limit == mode_limit(mode),
            s@.mode_questions == mode_questions(mode),
            mode is Normal ==> s@.questions == view_seq(mode->questions@),
            mode is TimeAttack ==> s@.questions.to_multiset() == view_seq(mode->pool@).to_multiset(),
            s@.index == 0,
            s@.engine is None,
            s@.correct == 0,
            s@.incorrect == 0,
            s@.records.len() == 0,
            s@.status == Status::Ready,
            s@.typed.len() == 0,
            !s@.started,
    {
        let questions = match &mode {
            GameMode::Normal { questions } => {
                let copy = questions.clone();
                proof {
                    lemma_cloned_views(questions@, copy@);
                }
                copy
            },
            GameMode::TimeAttack { time_limit: _, pool } => {
                let mut questions = pool.clone();
                proof {
                    lemma_cloned_views(pool@, questions@);
                }
                let mut rng = thread_rng();
                shuffle_questions(&mut questions, &mut rng);
                questions
            },
        };

        let s = Session {
            mode,
            questions,
            current_question_idx: 0,
            active_engine: None,
            stats: Stats::new(),
            question_stats: Vec::new(),
            status: Status::Ready,
            start_time: None,
            end_time: None,
            question_start_time: None,
            typed_romaji_count: 0,
            typed_romaji: String::new(),
        };
        assert(s@.records =~= Seq::<(nat, nat)>::empty());
        s
    }
}

/// The engine `e2` is `e` after the key `c` was accepted: the same automaton and reading, and
/// the states reached by `c`.
pub open spec fn after_key(e: EngineView, e2: EngineView, c: char) -> bool {
    &&& e2.nodes == e.nodes
    &&& e2.completed == e.completed
    &&& e2.reading == e.reading
    &&& TypingEngine::state_set(e2) == step(e.nodes, TypingEngine::state_set(e), c)
}

/// `p` reports the engine `e` with the keys `typed`: the characters typed for certain, the
/// greater of that and the characters typed at best, the guide, and the keys.
pub open spec fn progress_matches(p: Progress, e: EngineView, typed: Seq<char>) -> bool {
    let (lo, hi) = progress_range(e);
    &&& p.completed_chars == lo
    &&& p.total_chars == (if hi >= lo {
        hi
    } else {
        lo
    })
    &&& p.guide@ == e.guide
    &&& p.typed_romaji@ == typed
    &&& p.typed_romaji_count == typed.len()
}

/// Whether the game is out of time after `elapsed` since its start: only in a started time
/// attack, when `elapsed` is at least the limit.
pub open spec fn time_up_at(v: SessionView, elapsed: Duration) -> bool {
    v.time_limit is Some && v.started && duration_ge(elapsed, v.time_limit->Some_0)
}

/// After the question before `i` is finished, `time_up` telling whether the time has run out:
/// then the game is over at question `i`; otherwise the first question from `i` on that the
/// engine can spell is loaded, fresh, with the game still played, or, when there is none, the
/// game is completed.
pub open spec fn moved_on(v: SessionView, i: int, time_up: bool) -> bool {
    if time_up {
        &&& v.engine is None
        &&& v.index == i
        &&& v.status == Status::TimeUp
    } else {
        &&& loaded_from(v, i, Status::Playing)
        &&& v.engine is None ==> v.status == Status::Completed
    }
}

/// What a key `input` typed while the game is played and in time does: the engine answers; an
/// accepted key is counted and kept; a refused one is counted, with the next key of the guide
/// as the expected one; a key that completes the question (or a question already typed)
/// finishes it and moves on.
pub open spec fn key_outcome(old: SessionView, new: SessionView, input: char, r: InputResult) -> bool {
    let e = old.engine->Some_0;
    let a = TypingEngine::answer(e, input);
    &&& old.engine is Some
    &&& a == EngineInputResult::Rejected ==> r is Rejected && r->expected@ == first_key(e.guide) && new == (
    SessionView { incorrect: old.incorrect + 1, ..old })
    &&& a == EngineInputResult::Accepted ==> r is Accepted && new.engine is Some && after_key(
        e,
        new.engine->Some_0,
        input,
    ) && progress_matches(r->progress, new.engine->Some_0, old.typed.push(input)) && new == (SessionView {
        engine: new.engine,
        correct: old.correct + 1,
        typed: old.typed.push(input),
        ..old
    })
    &&& (a == EngineInputResult::Completed || a == EngineInputResult::AlreadyCompleted) ==> {
        let correct: nat = if a == EngineInputResult::Completed {
            old.correct + 1
        } else {
            old.correct
        };
        &&& r is Completed
        &&& r->stats.correct_count == correct
        &&& r->stats.incorrect_count == old.incorrect
        &&& new.records == old.records.push((correct, old.incorrect))
        &&& new.correct == 0
        &&& new.incorrect == 0
        &&& new.questions == old.questions
        &&& new.time_limit == old.time_limit
        &&& new.mode_questions == old.mode_questions
        &&& new.started == old.started
        &&& moved_on(new, old.index + 1int, false)
    }
}

/// What typing `input` does when `elapsed` has passed since the start: outside play the answer
/// is `AlreadyCompleted` and nothing changes; out of time, the game is out of time and nothing
/// else changes; otherwise see [`key_outcome`].
pub open spec fn submit_outcome(
    old: SessionView,
    new: SessionView,
    input: char,
    r: InputResult,
    elapsed: Duration,
) -> bool {
    &&& old.status != Status::Playing ==> r is AlreadyCompleted && new == old
    &&& old.status == Status::Playing && time_up_at(old, elapsed) ==> r is TimeUp && new == (SessionView {
        status: Status::TimeUp,
        ..old
    })
    &&& old.status == Status::Playing && !time_up_at(old, elapsed) ==> key_outcome(old, new, input, r)
}

/// What the periodic check does when `elapsed` has passed since the start: a game being played
/// and out of time ends out of time, its engine dropped; otherwise nothing changes.
pub open spec fn update_outcome(old: SessionView, new: SessionView, elapsed: Duration) -> bool {
    if old.status == Status::Playing && time_up_at(old, elapsed) {
        new == (SessionView { engine: None, status: Status::TimeUp, ..old })
    } else {
        new == old
    }
}

impl Session {
    /// The parts of the invariant that hold while a question is being loaded.
    closed spec fn core_wf(&self) -> bool {
        &&& self.current_question_idx <= self.questions@.len()
        &&& self.typed_romaji_count == self.typed_romaji@.len()
        &&& match self.active_engine {
            Some(e) => e.wf() && self.current_question_idx < self.questions@.len() && e@.reading
                == self.questions@[self.current_question_idx as int]@.reading,
            None => true,
        }
    }

    /// When the game was started, if it was.
    pub closed spec fn start_instant(&self) -> Option<Instant> {
        self.start_time
    }

    /// When the current question was loaded, if one was.
    pub closed spec fn question_start_instant(&self) -> Option<Instant> {
        self.question_start_time
    }

    /// When the game ended, if it did.
    pub closed spec fn end_instant(&self) -> Option<Instant> {
        self.end_time
    }

    /// The mode of the game.
    pub fn mode(&self) -> (r: &GameMode)
        ensures
            self@.time_limit == mode_limit(*r),
            self@.mode_questions == mode_questions(*r),
    {
        &self.mode
    }

    /// The time since the start, as the clock reads it now: the gap from the start instant to a
    /// reading of the clock; zero before the start.
    fn elapsed_now(&self) -> (r: Duration)
        ensures
            !self@.started ==> r == duration_of_secs(0),
            self.start_instant() is Some ==> exists|now: Instant|
                r == instant_gap(now, self.start_instant()->Some_0),
    {
        match self.start_time {
            Some(s) => elapsed_since(s),
            None => seconds(0),
        }
    }

    /// Whether the game is out of time when `elapsed` has passed since its start: only in a
    /// started time attack, when `elapsed` is at least the limit.
    pub fn time_up_after(&self, elapsed: Duration) -> (r: bool)
        ensures
            r == time_up_at(self@, elapsed),
    {
        match &self.mode {
            GameMode::TimeAttack { time_limit, pool: _ } => match self.start_time {
                Some(_) => duration_at_least(elapsed, *time_limit),
                None => false,
            },
            GameMode::Normal { questions: _ } => false,
        }
    }

    /// Ends the game: out of time when the time limit has passed, completed otherwise.
    fn finish_game(&mut self, elapsed: Duration)
        requires
            old(self).current_question_idx <= old(self).questions@.len(),
            old(self).typed_romaji_count == old(self).typed_romaji@.len(),
        ensures
            final(self).core_wf(),
            final(self)@ == (SessionView {
                engine: None,
                status: final(self)@.status,
                ..old(self)@
            }),
            final(self)@.status == (if time_up_at(old(self)@, elapsed) {
                Status::TimeUp
            } else {
                Status::Completed
            }),
    {
        let ghost before = self@;
        self.status = if self.time_up_after(elapsed) {
            Status::TimeUp
        } else {
            Status::Completed
        };
        self.end_time = Some(instant_now());
        self.active_engine = None;
        self.stats.end();
        assert(self@.records =~= before.records);
    }

    /// Loads the first question from the current one on that the engine can spell, skipping
    /// the others; ends the game when there is none.
    fn load_current_question(&mut self, elapsed: Duration)
        requires
            old(self).current_question_idx <= old(self).questions@.len(),
            old(self).typed_romaji_count == old(self).typed_romaji@.len(),
            old(self).status == Status::Playing,
        ensures
            final(self).wf(),
            loaded_from(final(self)@, old(self)@.index as int, Status::Playing),
            final(self)@.questions == old(self)@.questions,
            final(self)@.correct == old(self)@.correct,
            final(self)@.incorrect == old(self)@.incorrect,
            final(self)@.records == old(self)@.records,
            final(self)@.time_limit == old(self)@.time_limit,
            final(self)@.mode_questions == old(self)@.mode_questions,
            final(self)@.started == old(self)@.started,
            final(self)@.engine is None ==> final(self)@.status == (if time_up_at(old(self)@, elapsed) {
                Status::TimeUp
            } else {
                Status::Completed
            }),
    {
        let ghost before = self@;
        let ghost qs = before.questions;
        proof {
            lemma_first_loadable(qs, before.index as int);
        }
        while self.current_question_idx < self.questions.len()
            invariant
                self.current_question_idx <= self.questions@.len(),
                self.typed_romaji_count == self.typed_romaji@.len(),
                self.status == Status::Playing,
                before == old(self)@,
                qs == before.questions,
                self@.questions == qs,
                before.index <= self@.index <= qs.len(),
                first_loadable(qs, self@.index as int) == first_loadable(qs, before.index as int),
                self@.correct == before.correct,
                self@.incorrect == before.incorrect,
                self@.records == before.records,
                self@.time_limit == before.time_limit,
                self@.mode_questions == before.mode_questions,
                self@.started == before.started,
            decreases qs.len() - self@.index,
        {
            let idx = self.current_question_idx;
            assert(self.questions@[idx as int]@ == qs[idx as int]);
            match TypingEngine::new(self.questions[idx].reading.as_str()) {
                Ok(engine) => {
                    assert(loadable(qs[idx as int]));
                    assert(first_loadable(qs, idx as int) == idx);
                    self.active_engine = Some(engine);
                    self.question_start_time = Some(instant_now());
                    self.stats.start();
                    self.typed_romaji_count = 0;
                    self.typed_romaji = String::new();
                    assert(self@.records =~= before.records);
                    return;
                },
                Err(_) => {
                    assert(!loadable(qs[idx as int]));
                    assert(first_loadable(qs, idx as int) == first_loadable(qs, idx + 1));
                    self.current_question_idx = idx + 1;
                },
            }
        }
        assert(first_loadable(qs, self@.index as int) == qs.len());
        self.finish_game(elapsed);
    }

    /// Starts the game: the clock starts and the first question the engine can spell is loaded.
    pub fn start(&mut self)
        requires
            old(self).wf(),
        ensures
            final(self).wf(),
            final(self)@.started,
            loaded_from(final(self)@, old(self)@.index as int, Status::Playing),
            final(self)@.questions == old(self)@.questions,
            final(self)@.correct == old(self)@.correct,
            final(self)@.incorrect == old(self)@.incorrect,
            final(self)@.records == old(self)@.records,
    {
        self.status = Status::Playing;
        self.start_time = Some(instant_now());
        let elapsed = self.elapsed_now();
        self.load_current_question(elapsed);
    }

    /// The progress reported for `engine`.
    fn build_progress(&self, engine: &TypingEngine) -> (p: Progress)
        requires
            engine.wf(),
            self.typed_romaji_count == self.typed_romaji@.len(),
        ensures
            progress_matches(p, engine@, self@.typed),
    {
        let completed = engine.completed_char_count();
        let furthest = engine.furthest_completed_char_count();
        Progress {
            completed_chars: completed,
            total_chars: if furthest >= completed {
                furthest
            } else {
                completed
            },
            guide: engine.guide().to_owned(),
            typed_romaji: self.typed_romaji.clone(),
            typed_romaji_count: self.typed_romaji_count,
        }
    }
}

impl Session {
    /// Finishes the current question: its counts and time are recorded and returned, the
    /// counts start again, and the game moves on to the next question the engine can spell,
    /// or ends (no question left, or out of time).
    fn finish_question(&mut self, elapsed: Duration) -> (r: QuestionRecord)
        requires
            old(self).wf(),
            old(self).status == Status::Playing,
        ensures
            final(self).wf(),
            r.correct_count == old(self)@.correct,
            r.incorrect_count == old(self)@.incorrect,
            final(self)@.records == old(self)@.records.push((old(self)@.correct, old(self)@.incorrect)),
            final(self)@.correct == 0,
            final(self)@.incorrect == 0,
            final(self)@.questions == old(self)@.questions,
            final(self)@.time_limit == old(self)@.time_limit,
            final(self)@.mode_questions == old(self)@.mode_questions,
            final(self)@.started == old(self)@.started,
            moved_on(final(self)@, old(self)@.index + 1int, time_up_at(old(self)@, elapsed)),
            old(self).question_start_instant() is Some ==> exists|now: Instant|
                r.elapsed_time == instant_gap(now, old(self).question_start_instant()->Some_0),
            old(self).question_start_instant() is None ==> r.elapsed_time == duration_of_secs(0),
    {
        let ghost before = self@;
        let question_time = match self.question_start_time {
            Some(s) => elapsed_since(s),
            None => seconds(0),
        };
        let q_stats = QuestionRecord {
            correct_count: self.stats.correct_count,
            incorrect_count: self.stats.incorrect_count,
            elapsed_time: question_time,
        };
        let ghost old_records = self.question_stats@;
        self.question_stats.push(q_stats);
        assert(record_counts(self.question_stats@) =~= record_counts(old_records).push(
            (q_stats.correct_count as nat, q_stats.incorrect_count as nat),
        ));
        assert(self.questions@.len() == self.questions.len());
        self.current_question_idx += 1;
        self.stats = Stats::new();
        proof {
            lemma_first_loadable(before.questions, before.index + 1int);
        }
        if self.current_question_idx >= self.questions.len() || self.time_up_after(elapsed) {
            self.finish_game(elapsed);
        } else {
            self.load_current_question(elapsed);
        }
        q_stats
    }

    /// Types one key, the clock being read once for it. Outside play the answer is
    /// `AlreadyCompleted` and nothing changes; once the time limit has passed the game is out of
    /// time; otherwise the engine answers (see [`Session::submit_input_at`]).
    pub fn submit_input(&mut self, input: char) -> (r: InputResult)
        requires
            old(self).wf(),
            old(self)@.correct < usize::MAX,
            old(self)@.incorrect < usize::MAX,
            old(self)@.typed.len() < usize::MAX,
        ensures
            final(self).wf(),
            exists|elapsed: Duration| submit_outcome(old(self)@, final(self)@, input, r, elapsed),
            old(self).start_instant() is Some ==> exists|now: Instant|
                submit_outcome(
                    old(self)@,
                    final(self)@,
                    input,
                    r,
                    instant_gap(now, old(self).start_instant()->Some_0),
                ),
            !old(self)@.started ==> submit_outcome(old(self)@, final(self)@, input, r, duration_of_secs(0)),
            old(self)@.time_limit is None ==> submit_outcome(
                old(self)@,
                final(self)@,
                input,
                r,
                duration_of_secs(0),
            ),
    {
        let elapsed = self.elapsed_now();
        let r = self.submit_input_at(input, elapsed);
        proof {
            if old(self)@.time_limit is None || !old(self)@.started {
                assert(time_up_at(old(self)@, elapsed) == time_up_at(old(self)@, duration_of_secs(0)));
            }
        }
        r
    }

    /// Types one key when `elapsed` has passed since the start (see [`submit_outcome`]).
    pub fn submit_input_at(&mut self, input: char, elapsed: Duration) -> (r: InputResult)
        requires
            old(self).wf(),
            old(self)@.correct < usize::MAX,
            old(self)@.incorrect < usize::MAX,
            old(self)@.typed.len() < usize::MAX,
        ensures
            final(self).wf(),
            submit_outcome(old(self)@, final(self)@, input, r, elapsed),
            r is Completed && old(self).question_start_instant() is Some ==> exists|now: Instant|
                r->stats.elapsed_time == instant_gap(now, old(self).question_start_instant()->Some_0),
            r is Completed && old(self).question_start_instant() is None ==> r->stats.elapsed_time
                == duration_of_secs(0),
    {
        if self.status != Status::Playing {
            return InputResult::AlreadyCompleted;
        }
        if self.time_up_after(elapsed) {
            self.status = Status::TimeUp;
            return InputResult::TimeUp;
        }
        let ghost before = self@;
        let mut engine = match self.active_engine.take() {
            Some(e) => e,
            None => {
                proof {
                    assert(false);
                }
                return InputResult::AlreadyCompleted;
            },
        };
        let ghost e0 = engine@;
        let result = engine.input(input);
        let mut progress = self.build_progress(&engine);
        let guide_keys = str_chars(engine.guide());
        let mut expected = String::new();
        if guide_keys.len() > 0 {
            string_push(&mut expected, guide_keys[0]);
        }
        assert(result == EngineInputResult::Rejected ==> expected@ =~= first_key(e0.guide)) by {
            if result == EngineInputResult::Rejected {
                assert(engine@ == e0);
                if guide_keys.len() > 0 {
                    assert(expected@ =~= seq![e0.guide[0]]);
                }
            }
        }
        self.active_engine = Some(engine);
        match result {
            EngineInputResult::Accepted => {
                self.stats.correct_count += 1;
                self.typed_romaji_count += 1;
                string_push(&mut self.typed_romaji, input);
                string_push(&mut progress.typed_romaji, input);
                progress.typed_romaji_count += 1;
                InputResult::Accepted { progress }
            },
            EngineInputResult::Rejected => {
                self.stats.incorrect_count += 1;
                InputResult::Rejected { expected }
            },
            EngineInputResult::Completed => {
                self.stats.correct_count += 1;
                self.typed_romaji_count += 1;
                string_push(&mut self.typed_romaji, input);
                string_push(&mut progress.typed_romaji, input);
                progress.typed_romaji_count += 1;
                let stats = self.finish_question(elapsed);
                InputResult::Completed { stats }
            },
            EngineInputResult::AlreadyCompleted => {
                let stats = self.finish_question(elapsed);
                InputResult::Completed { stats }
            },
        }
    }

    /// The question being typed, if any.
    pub fn current_question(&self) -> (r: Option<&Question>)
        ensures
            self@.index < self@.questions.len() ==> r is Some && r->Some_0@ == self@.questions[self@.index as int],
            self@.index >= self@.questions.len() ==> r is None,
    {
        if self.current_question_idx < self.questions.len() {
            Some(&self.questions[self.current_question_idx])
        } else {
            None
        }
    }

    /// The engine of the question being typed, if one is loaded.
    pub fn active_engine(&self) -> (r: Option<&TypingEngine>)
        ensures
            match r {
                Some(e) => self@.engine == Some(e@),
                None => self@.engine is None,
            },
    {
        self.active_engine.as_ref()
    }

    /// The position of the current question.
    pub fn current_question_index(&self) -> (r: usize)
        ensures
            r == self@.index,
    {
        self.current_question_idx
    }

    /// The number of questions.
    pub fn total_questions(&self) -> (r: usize)
        ensures
            r == self@.questions.len(),
    {
        self.questions.len()
    }

    /// The progress on the current question, while one is loaded.
    pub fn current_progress(&self) -> (r: Option<Progress>)
        requires
            self.wf(),
        ensures
            match self@.engine {
                Some(e) => r is Some && progress_matches(r->Some_0, e, self@.typed),
                None => r is None,
            },
    {
        match &self.active_engine {
            Some(engine) => Some(self.build_progress(engine)),
            None => None,
        }
    }

    /// The time left in time attack: the limit less the time since the start (the clock's
    /// reading), or less nothing before the start; none once the limit has passed, and none
    /// in a normal game.
    pub fn remaining_time(&self) -> (r: Option<Duration>)
        ensures
            self@.time_limit is None ==> r is None,
            self@.time_limit is Some && !self@.started ==> r == duration_checked_difference(
                self@.time_limit->Some_0,
                duration_of_secs(0),
            ),
            self@.time_limit is Some && self@.started ==> exists|elapsed: Duration|
                r == duration_checked_difference(self@.time_limit->Some_0, elapsed),
            self@.time_limit is Some && self.start_instant() is Some ==> exists|now: Instant|
                r == duration_checked_difference(
                    self@.time_limit->Some_0,
                    instant_gap(now, self.start_instant()->Some_0),
                ),
    {
        match &self.mode {
            GameMode::TimeAttack { time_limit, pool: _ } => {
                let elapsed = self.elapsed_now();
                duration_checked_sub(*time_limit, elapsed)
            },
            GameMode::Normal { questions: _ } => None,
        }
    }

    /// Whether the game is over.
    pub fn is_finished(&self) -> (r: bool)
        ensures
            r == (self@.status == Status::Completed || self@.status == Status::TimeUp),
    {
        match self.status {
            Status::Completed | Status::TimeUp => true,
            _ => false,
        }
    }

    /// Ends the game when it is being played and the time limit has passed, the clock being
    /// read once (see [`Session::update_at`]).
    pub fn update(&mut self)
        requires
            old(self).wf(),
        ensures
            final(self).wf(),
            exists|elapsed: Duration| update_outcome(old(self)@, final(self)@, elapsed),
            old(self).start_instant() is Some ==> exists|now: Instant|
                update_outcome(old(self)@, final(self)@, instant_gap(now, old(self).start_instant()->Some_0)),
            !old(self)@.started || old(self)@.time_limit is None ==> final(self)@ == old(self)@,
    {
        let elapsed = self.elapsed_now();
        self.update_at(elapsed);
    }

    /// Ends the game when it is being played and `elapsed` since its start is at least the
    /// time limit (see [`update_outcome`]).
    pub fn update_at(&mut self, elapsed: Duration)
        requires
            old(self).wf(),
        ensures
            final(self).wf(),
            update_outcome(old(self)@, final(self)@, elapsed),
    {
        if self.status == Status::Playing && self.time_up_after(elapsed) {
            self.finish_game(elapsed);
        }
    }

    /// The totals of a finished game: the keys counted over its finished questions, its time
    /// (from start to end by the clock, zero when it never started) and the number of
    /// questions finished; none while it is not over.
    pub fn game_result(&self) -> (r: Option<GameTotals>)
        requires
            sum_correct(self@.records) <= usize::MAX,
            sum_incorrect(self@.records) <= usize::MAX,
        ensures
            !(self@.status == Status::Completed || self@.status == Status::TimeUp) ==> r is None,
            (self@.status == Status::Completed || self@.status == Status::TimeUp) ==> r is Some
                && r->Some_0.total_correct == sum_correct(self@.records) && r->Some_0.total_incorrect
                == sum_incorrect(self@.records) && r->Some_0.questions_completed == self@.records.len(),
            r is Some && !self@.started ==> r->Some_0.total_time == duration_of_secs(0),
            r is Some ==> r->Some_0.total_time == match (self.start_instant(), self.end_instant()) {
                (Some(s), Some(e)) => instant_gap(e, s),
                _ => duration_of_secs(0),
            },
    {
        if !self.is_finished() {
            return None;
        }
        let total_time = match (self.start_time, self.end_time) {
            (Some(s), Some(e)) => duration_since(e, s),
            _ => seconds(0),
        };
        let ghost counts = self@.records;
        let mut total_correct: usize = 0;
        let mut total_incorrect: usize = 0;
        let mut i: usize = 0;
        while i < self.question_stats.len()
            invariant
                counts == record_counts(self.question_stats@),
                sum_correct(counts) <= usize::MAX,
                sum_incorrect(counts) <= usize::MAX,
                0 <= i <= counts.len(),
                total_correct == sum_correct(counts.take(i as int)),
                total_incorrect == sum_incorrect(counts.take(i as int)),
            decreases counts.len() - i,
        {
            proof {
                assert(counts.take(i + 1).drop_last() =~= counts.take(i as int));
                lemma_sums_prefix(counts, i + 1);
            }
            total_correct += self.question_stats[i].correct_count;
            total_incorrect += self.question_stats[i].incorrect_count;
            i += 1;
        }
        assert(counts.take(i as int) =~= counts);
        Some(GameTotals {
            total_correct,
            total_incorrect,
            total_time,
            questions_completed: self.question_stats.len(),
        })
    }
}

/// The sums over a prefix are at most the sums over the whole.
proof fn lemma_sums_prefix(counts: Seq<(nat, nat)>, k: int)
    requires
        0 <= k <= counts.len(),
    ensures
        sum_correct(counts.take(k)) <= sum_correct(counts),
        sum_incorrect(counts.take(k)) <= sum_incorrect(counts),
    decreases counts.len() - k,
{
    if k < counts.len() {
        lemma_sums_prefix(counts, k + 1);
        assert(counts.take(k + 1).drop_last() =~= counts.take(k));
    } else {
        assert(counts.take(k) =~= counts);
    }
}

/// The duration of `secs` whole seconds, as `Duration::from_secs` makes it.
pub uninterp spec fn duration_of_secs(secs: u64) -> Duration;

/// A duration of whole seconds (`Duration::from_secs`): the value named by
/// [`duration_of_secs`].
#[verifier::external_body]
fn seconds(secs: u64) -> (d: Duration)
    ensures
        d == duration_of_secs(secs),
{
    Duration::from_secs(secs)
}

/// The number of questions of a normal game.
pub const NORMAL_QUESTION_COUNT: usize = 10;

/// The time limit of a time attack, in seconds.
pub const TIME_ATTACK_SECONDS: u64 = 60;

/// The mode of a game chosen on the menus, over the questions of the chosen difficulty: the
/// pool is shuffled; a normal game takes its first ten questions, a time attack all of them
/// within sixty seconds.
pub fn build_mode(play: PlayMode, pool: Vec<Question>) -> (m: GameMode)
    ensures
        exists|shuffled: Seq<QuestionView>|
            #[trigger] shuffled.to_multiset() == view_seq(pool@).to_multiset() && match m {
                GameMode::Normal { questions } => play == PlayMode::Normal && view_seq(questions@) == shuffled.take(
                    if shuffled.len() < NORMAL_QUESTION_COUNT {
                        shuffled.len() as int
                    } else {
                        NORMAL_QUESTION_COUNT as int
                    },
                ),
                GameMode::TimeAttack { time_limit, pool: p } => play == PlayMode::TimeAttack && view_seq(p@)
                    == shuffled && time_limit == duration_of_secs(TIME_ATTACK_SECONDS),
            },
{
    let mut all_problems = pool;
    let ghost before = view_seq(all_problems@);
    let mut rng = thread_rng();
    shuffle_questions(&mut all_problems, &mut rng);
    let ghost shuffled = view_seq(all_problems@);
    assert(shuffled.to_multiset() == before.to_multiset());
    match play {
        PlayMode::Normal => {
            let count = if all_problems.len() < NORMAL_QUESTION_COUNT {
                all_problems.len()
            } else {
                NORMAL_QUESTION_COUNT
            };
            all_problems.truncate(count);
            assert(view_seq(all_problems@) =~= shuffled.take(count as int));
            GameMode::Normal { questions: all_problems }
        },
        PlayMode::TimeAttack => GameMode::TimeAttack {
            time_limit: seconds(TIME_ATTACK_SECONDS),
            pool: all_problems,
        },
    }
}

impl Session {
    /// The counts and times of the finished questions.
    pub fn question_records(&self) -> (r: &Vec<QuestionRecord>)
        ensures
            record_counts(r@) == self@.records,
    {
        &self.question_stats
    }
}

} // verus!
