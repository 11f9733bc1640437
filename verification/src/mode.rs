//! How a game is played.
use vstd::prelude::*;

use crate::question::{Question, QuestionView};
use crate::seqs::view_seq;
use std::time::Duration;

verus! {

/// A fixed list of questions in order, or as many questions of a pool (shuffled) as can be
/// typed within a time limit.
#[derive(Debug)]
pub enum GameMode {
    Normal { questions: Vec<Question> },
    TimeAttack { time_limit: Duration, pool: Vec<Question> },
}

/// The questions of a mode: those of a normal game, or the pool of a time attack.
pub open spec fn mode_questions(m: GameMode) -> Seq<QuestionView> {
    match m {
        GameMode::Normal { questions } => view_seq(questions@),
        GameMode::TimeAttack { time_limit: _, pool } => view_seq(pool@),
    }
}

/// Copies of questions have the same values.
pub proof fn lemma_cloned_views(a: Seq<Question>, b: Seq<Question>)
    requires
        a.len() == b.len(),
        forall|i: int| 0 <= i < a.len() ==> vstd::pervasive::cloned(a[i], b[i]),
    ensures
        view_seq(b) == view_seq(a),
{
    assert forall|i: int| 0 <= i < a.len() implies view_seq(b)[i] == view_seq(a)[i] by {
        assert(vstd::pervasive::cloned(a[i], b[i]));
    }
    assert(view_seq(b) =~= view_seq(a));
}

impl Clone for GameMode {
    /// The same mode, with the same time limit and copies of the questions.
    fn clone(&self) -> (r: GameMode)
        ensures
            (r is Normal) == (self is Normal),
            r is TimeAttack ==> self is TimeAttack && r->time_limit == self->time_limit,
            mode_questions(r) == mode_questions(*self),
    {
        match self {
            GameMode::Normal { questions } => {
                let copy = questions.clone();
                proof {
                    lemma_cloned_views(questions@, copy@);
                }
                GameMode::Normal { questions: copy }
            },
            GameMode::TimeAttack { time_limit, pool } => {
                let copy = pool.clone();
                proof {
                    lemma_cloned_views(pool@, copy@);
                }
                GameMode::TimeAttack { time_limit: *time_limit, pool: copy }
            },
        }
    }
}

} // verus!
