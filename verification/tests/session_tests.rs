use rapid_type::mode::GameMode;
use rapid_type::question::Question;
use rapid_type::score::PlayMode;
use rapid_type::session::{build_mode, InputResult, Session};
use rapid_type::status::Status;

use std::time::Duration;

#[test]
fn test_session_loads_first_question() {
    let problems = vec![Question::new("かんかんにおこる")];
    let mode = GameMode::Normal {
        questions: problems,
    };
    let mut session = Session::new(mode);
    session.start();

    assert_eq!(session.status, Status::Playing);
    assert!(session.current_question().is_some());
    assert!(session.active_engine().is_some());
    println!(
        "First question guide: {}",
        session.current_progress().unwrap().guide
    );
}

fn normal(readings: &[&str]) -> Session {
    let questions = readings.iter().map(|r| Question::new(r)).collect();
    Session::new(GameMode::Normal { questions })
}

#[test]
fn session_before_start_answers_already_completed() {
    let mut session = normal(&["か"]);
    assert_eq!(session.status, Status::Ready);
    assert!(session.current_progress().is_none());
    assert!(matches!(session.submit_input('k'), InputResult::AlreadyCompleted));
    assert!(!session.is_finished());
    assert!(session.game_result().is_none());
}

#[test]
fn session_counts_keys_and_moves_on() {
    let mut session = normal(&["か", "き"]);
    session.start();
    assert_eq!(session.total_questions(), 2);
    assert_eq!(session.current_question_index(), 0);

    match session.submit_input('z') {
        InputResult::Rejected { expected } => assert_eq!(expected, "k"),
        other => panic!("unexpected {other:?}"),
    }
    match session.submit_input('k') {
        InputResult::Accepted { progress } => {
            assert_eq!(progress.typed_romaji, "k");
            assert_eq!(progress.typed_romaji_count, 1);
            assert_eq!(progress.guide, "a");
            assert_eq!(progress.completed_chars, 0);
        }
        other => panic!("unexpected {other:?}"),
    }
    match session.submit_input('a') {
        InputResult::Completed { stats } => {
            assert_eq!(stats.correct_count, 2);
            assert_eq!(stats.incorrect_count, 1);
        }
        other => panic!("unexpected {other:?}"),
    }
    assert_eq!(session.current_question_index(), 1);
    assert_eq!(session.stats.correct_count, 0);
    assert_eq!(session.current_progress().unwrap().typed_romaji, "");

    assert!(matches!(session.submit_input('k'), InputResult::Accepted { .. }));
    assert!(matches!(session.submit_input('i'), InputResult::Completed { .. }));
    assert!(session.is_finished());
    assert_eq!(session.status, Status::Completed);
    assert!(session.active_engine().is_none());
    assert!(matches!(session.submit_input('k'), InputResult::AlreadyCompleted));

    let totals = session.game_result().unwrap();
    assert_eq!(totals.total_correct, 4);
    assert_eq!(totals.total_incorrect, 1);
    assert_eq!(totals.questions_completed, 2);
}

#[test]
fn session_skips_questions_the_engine_cannot_spell() {
    let mut session = normal(&["[A|X]", "か"]);
    session.start();
    assert_eq!(session.current_question_index(), 1);
    assert_eq!(session.status, Status::Playing);
    assert_eq!(session.current_question().unwrap().reading, "か");
}

#[test]
fn session_without_spellable_questions_ends_at_start() {
    let mut session = normal(&["[A|X]"]);
    session.start();
    assert_eq!(session.status, Status::Completed);
    assert!(session.is_finished());
    assert_eq!(session.current_question_index(), 1);
    assert!(session.current_question().is_none());
    let totals = session.game_result().unwrap();
    assert_eq!(totals.questions_completed, 0);
}

#[test]
fn time_attack_keeps_its_questions_and_time() {
    let pool: Vec<Question> = ["あ", "い", "う", "え", "お"].iter().map(|r| Question::new(r)).collect();
    let mut session = Session::new(GameMode::TimeAttack {
        time_limit: Duration::from_secs(600),
        pool,
    });
    let mut readings: Vec<String> = Vec::new();
    assert_eq!(session.total_questions(), 5);
    session.start();
    while let Some(q) = session.current_question() {
        readings.push(q.reading.clone());
        let guide = session.current_progress().unwrap().guide;
        for c in guide.chars() {
            session.submit_input(c);
        }
    }
    readings.sort();
    assert_eq!(readings, vec!["あ", "い", "う", "え", "お"]);
    assert!(session.remaining_time().is_some());
    assert_eq!(session.status, Status::Completed);
    session.update();
    assert_eq!(session.status, Status::Completed);
}

#[test]
fn time_attack_with_no_time_is_time_up() {
    let pool: Vec<Question> = vec![Question::new("か")];
    let mut session = Session::new(GameMode::TimeAttack { time_limit: Duration::ZERO, pool });
    session.start();
    assert_eq!(session.status, Status::Playing);
    assert!(matches!(session.submit_input('k'), InputResult::TimeUp));
    assert_eq!(session.status, Status::TimeUp);
    assert!(session.is_finished());
    assert!(matches!(session.submit_input('k'), InputResult::AlreadyCompleted));
}

#[test]
fn normal_game_has_no_time_limit() {
    let mut session = normal(&["か"]);
    session.start();
    assert!(session.remaining_time().is_none());
    session.update();
    assert_eq!(session.status, Status::Playing);
    assert!(matches!(session.mode(), GameMode::Normal { .. }));
}

#[test]
fn time_attack_before_start_has_its_whole_limit_left() {
    let pool: Vec<Question> = vec![Question::new("か")];
    let session = Session::new(GameMode::TimeAttack { time_limit: Duration::from_secs(90), pool });
    assert_eq!(session.remaining_time(), Some(Duration::from_secs(90)));
}

#[test]
fn time_attack_built_from_the_menu_lasts_sixty_seconds() {
    let pool: Vec<Question> = ["あ", "い", "う"].iter().map(|r| Question::new(r)).collect();
    match build_mode(PlayMode::TimeAttack, pool) {
        GameMode::TimeAttack { time_limit, pool } => {
            assert_eq!(time_limit, Duration::from_secs(60));
            assert_eq!(pool.len(), 3);
        }
        GameMode::Normal { .. } => panic!("expected a time attack"),
    }
}
