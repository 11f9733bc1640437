use rapid_type::engine::TypingEngine;
use rapid_type::mode::GameMode;
use rapid_type::progress::Progress;
use rapid_type::question::Question;
use rapid_type::result::EngineInputResult;
use rapid_type::romaji_table::RomajiOption;
use rapid_type::ruby::{calculate_display_progress, parse_ruby, RubyParseError, RubySegment};
use rapid_type::score::{evaluate_rank, format_number, PlayMode, Rank};
use rapid_type::simple_engine::TypingEngine as SimpleEngine;
use rapid_type::stats::Stats;
use rapid_type::status::Status;

use std::time::Duration;

fn type_all(engine: &mut TypingEngine, keys: &str) -> Vec<EngineInputResult> {
    keys.chars().map(|c| engine.input(c)).collect()
}

#[test]
fn format_number_groups_digits_by_three() {
    assert_eq!(format_number(0), "0");
    assert_eq!(format_number(7), "7");
    assert_eq!(format_number(999), "999");
    assert_eq!(format_number(1000), "1,000");
    assert_eq!(format_number(2450), "2,450");
    assert_eq!(format_number(1234567), "1,234,567");
    assert_eq!(format_number(u64::MAX), "18,446,744,073,709,551,615");
}

#[test]
fn format_number_keeps_the_digits() {
    for n in [0u64, 5, 42, 100, 4000, 65536, 987654321, u64::MAX] {
        let without_commas: String = format_number(n).chars().filter(|c| *c != ',').collect();
        assert_eq!(without_commas, n.to_string());
    }
}

#[test]
fn rank_thresholds() {
    assert_eq!(evaluate_rank(0), Rank::D);
    assert_eq!(evaluate_rank(899), Rank::D);
    assert_eq!(evaluate_rank(900), Rank::C);
    assert_eq!(evaluate_rank(1599), Rank::C);
    assert_eq!(evaluate_rank(1600), Rank::B);
    assert_eq!(evaluate_rank(2399), Rank::B);
    assert_eq!(evaluate_rank(2400), Rank::A);
    assert_eq!(evaluate_rank(3199), Rank::A);
    assert_eq!(evaluate_rank(3200), Rank::S);
    assert_eq!(evaluate_rank(3999), Rank::S);
    assert_eq!(evaluate_rank(4000), Rank::SS);
    assert_eq!(evaluate_rank(u64::MAX), Rank::SS);
}

#[test]
fn rank_never_drops_with_a_higher_score() {
    let level = |r: Rank| match r {
        Rank::D => 0,
        Rank::C => 1,
        Rank::B => 2,
        Rank::A => 3,
        Rank::S => 4,
        Rank::SS => 5,
    };
    let mut last = 0;
    for score in (0u64..5000).step_by(50) {
        let l = level(evaluate_rank(score));
        assert!(l >= last);
        last = l;
    }
}

#[test]
fn rank_labels_and_comments() {
    assert_eq!(Rank::SS.label(), "SS");
    assert_eq!(Rank::D.label(), "D");
    assert_eq!(Rank::SS.comment(), "神業レベル！驚異的なタイピング速度です！");
    assert_eq!(Rank::C.comment(), "順調に上達中！ミスを減らすとさらにスコアUP！");
    assert_eq!(Rank::D.comment(), "まずは正確に打つことを意識してみましょう！");
}

#[test]
fn play_mode_labels() {
    assert_eq!(PlayMode::Normal.label(), "ノーマル (10問)");
    assert_eq!(PlayMode::TimeAttack.label(), "タイムアタック");
    assert_eq!(PlayMode::default(), PlayMode::Normal);
}

#[test]
fn romaji_option_constructors() {
    let a = RomajiOption::new("shi", 1);
    assert_eq!(a.romaji, vec!['s', 'h', 'i']);
    assert_eq!(a.priority, 1);
    let b = RomajiOption::from_string(String::from("tsu"), 2);
    assert_eq!(b.romaji, vec!['t', 's', 'u']);
    assert_eq!(b.priority, 2);
}

#[test]
fn engine_refuses_unknown_characters() {
    match TypingEngine::new("漢") {
        Err(msg) => assert_eq!(msg, "\"漢\" is not in ROMAJI_TABLE/SYMBOL_TABLE"),
        Ok(_) => panic!("a kanji cannot be spelled"),
    }
}

#[test]
fn engine_refuses_sokuon_before_a_symbol() {
    match TypingEngine::new("っ、") {
        Err(msg) => assert_eq!(msg, "\"っ\" cannot be expanded without a following kana"),
        Ok(_) => panic!("a sokuon before a symbol cannot be spelled"),
    }
}

#[test]
fn engine_answers_already_completed_after_the_end() {
    let mut engine = TypingEngine::new("か").unwrap();
    assert_eq!(
        type_all(&mut engine, "ka"),
        vec![EngineInputResult::Accepted, EngineInputResult::Completed]
    );
    assert_eq!(engine.input('k'), EngineInputResult::AlreadyCompleted);
    assert_eq!(engine.guide(), "");
    assert_eq!(engine.completed_reading(), "か");
}

#[test]
fn engine_for_an_empty_reading_is_complete() {
    let mut engine = TypingEngine::new("").unwrap();
    assert_eq!(engine.guide(), "");
    assert_eq!(engine.input('a'), EngineInputResult::AlreadyCompleted);
}

#[test]
fn rejected_key_leaves_the_engine_unchanged() {
    let mut engine = TypingEngine::new("かき").unwrap();
    assert_eq!(engine.input('k'), EngineInputResult::Accepted);
    let guide = engine.guide().to_string();
    assert_eq!(engine.input('z'), EngineInputResult::Rejected);
    assert_eq!(engine.guide(), guide);
    assert_eq!(engine.completed_char_range(), (0, 0));
    assert_eq!(engine.input('a'), EngineInputResult::Accepted);
}

#[test]
fn guide_is_a_shortest_spelling_and_typing_it_completes() {
    for reading in ["か", "しゃしん", "きって", "らーめん", "こんにちは", "っ", "ちゃ"] {
        let mut engine = TypingEngine::new(reading).unwrap();
        let guide = engine.guide().to_string();
        assert!(!guide.is_empty());
        let results = type_all(&mut engine, &guide);
        assert_eq!(results.last(), Some(&EngineInputResult::Completed), "{reading}");
        for r in &results[..results.len() - 1] {
            assert_eq!(*r, EngineInputResult::Accepted, "{reading}");
        }
    }
}

#[test]
fn guide_follows_the_typed_keys() {
    let mut engine = TypingEngine::new("し").unwrap();
    assert_eq!(engine.guide(), "si");
    assert_eq!(engine.input('s'), EngineInputResult::Accepted);
    assert_eq!(engine.input('h'), EngineInputResult::Accepted);
    assert_eq!(engine.guide(), "i");
}

#[test]
fn guide_takes_the_earliest_of_equally_short_spellings() {
    let mut engine = TypingEngine::new("ふ").unwrap();
    assert_eq!(engine.guide(), "hu");
    assert_eq!(engine.input('f'), EngineInputResult::Accepted);
    assert_eq!(engine.guide(), "u");
}

#[test]
fn progress_is_monotone_while_typing() {
    let mut engine = TypingEngine::new("きょうはいいてんき").unwrap();
    let guide = engine.guide().to_string();
    let mut last = 0;
    for c in guide.chars() {
        engine.input(c);
        let (lo, hi) = engine.completed_char_range();
        assert!(lo <= hi);
        assert!(lo >= last);
        last = lo;
    }
    assert_eq!(engine.completed_reading(), "きょうはいいてんき");
    assert_eq!(engine.furthest_completed_reading(), "きょうはいいてんき");
    assert_eq!(engine.completed_char_count(), 9);
    assert_eq!(engine.furthest_completed_char_count(), 9);
}

#[test]
fn simple_engine_accepts_only_the_preferred_spelling() {
    let mut engine = SimpleEngine::new("しゃ");
    assert_eq!(engine.input('s'), EngineInputResult::Accepted);
    assert_eq!(engine.input('h'), EngineInputResult::Rejected);
    assert_eq!(engine.input('i'), EngineInputResult::Accepted);
    assert_eq!(engine.input('x'), EngineInputResult::Accepted);
    assert_eq!(engine.input('y'), EngineInputResult::Accepted);
    assert_eq!(engine.input('a'), EngineInputResult::Completed);
    assert_eq!(engine.input('a'), EngineInputResult::AlreadyCompleted);
}

#[test]
fn simple_engine_for_an_empty_reading_is_complete() {
    let mut engine = SimpleEngine::new("");
    assert_eq!(engine.input('a'), EngineInputResult::AlreadyCompleted);
}

#[test]
fn ruby_error_empty_content() {
    let result = parse_ruby("[|あ]");
    assert_eq!(result, Err(RubyParseError::EmptyContent(String::from("|あ"))));
    let result = parse_ruby("[青|]");
    assert_eq!(result, Err(RubyParseError::EmptyContent(String::from("青|"))));
}

#[test]
fn ruby_errors_carry_their_text() {
    assert_eq!(
        parse_ruby("[青|あお"),
        Err(RubyParseError::UnclosedBracket(String::from("[青|あお")))
    );
    assert_eq!(
        parse_ruby("あ[青あお]"),
        Err(RubyParseError::MissingDelimiter(String::from("青あお")))
    );
    assert_eq!(
        parse_ruby("[青|あお]空"),
        Err(RubyParseError::InvalidReadingChar('空', String::from("[青|あお]空")))
    );
    assert_eq!(
        parse_ruby("[青|漢]"),
        Err(RubyParseError::InvalidReadingChar('漢', String::from("[青|漢]")))
    );
}

#[test]
fn ruby_error_messages() {
    assert_eq!(
        RubyParseError::UnclosedBracket(String::from("[a")).message(),
        "閉じ括弧 ']' が見つかりません: [a"
    );
    assert_eq!(
        RubyParseError::MissingDelimiter(String::from("ab")).message(),
        "ルビの区切り文字 '|' がありません: [ab]"
    );
    assert_eq!(
        RubyParseError::EmptyContent(String::from("|a")).message(),
        "表示用テキストまたは読みが空です: [|a]"
    );
    assert_eq!(
        RubyParseError::InvalidReadingChar('上', String::from("上")).message(),
        "読み（reading）に漢字や無効な文字が含まれています: '上' (文: \"上\")"
    );
}

#[test]
fn ruby_reading_keeps_the_first_delimiter_only() {
    let segments = parse_ruby("[a|b|c]").unwrap();
    assert_eq!(segments, vec![RubySegment::new("a", "b|c", true)]);
}

#[test]
fn ruby_katakana_reading_becomes_hiragana() {
    let segments = parse_ruby("[猫|ネコ]ヴ").unwrap();
    assert_eq!(
        segments,
        vec![RubySegment::new("猫", "ねこ", true), RubySegment::new("ヴ", "ゔ", false)]
    );
}

#[test]
fn ruby_empty_text_has_no_segments() {
    assert_eq!(parse_ruby(""), Ok(vec![]));
}

#[test]
fn display_progress_reaches_the_whole_display() {
    let segments = parse_ruby("[今日|きょう]は[晴|は]れ").unwrap();
    assert_eq!(calculate_display_progress(&segments, 100), 5);
    let mut last = 0;
    for typed in 0..8 {
        let p = calculate_display_progress(&segments, typed);
        assert!(p >= last);
        assert!(p <= 5);
        last = p;
    }
}

#[test]
fn question_from_ruby() {
    let q = Question::new("[青|あお]い[空|ソラ]");
    assert_eq!(q.display, "青い空");
    assert_eq!(q.reading, "あおいそら");
    assert_eq!(q.segments.len(), 3);
    assert_eq!(q.category, "");
    assert_eq!(q.difficulty, 0);
    assert_eq!(q.id.chars().count(), 36);
    for (i, c) in q.id.chars().enumerate() {
        if [8, 13, 18, 23].contains(&i) {
            assert_eq!(c, '-');
        } else {
            assert!(c.is_ascii_hexdigit() && !c.is_ascii_uppercase());
        }
    }
    assert_eq!(q.id.chars().nth(14), Some('4'));
    assert_eq!(q.display_completed_chars(0), 0);
    assert_eq!(q.display_completed_chars(2), 1);
    assert_eq!(q.display_completed_chars(3), 2);
    assert_eq!(q.display_completed_chars(5), 3);
    let other = Question::from_ruby("[青|あお]い[空|ソラ]");
    assert_ne!(q.id, other.id);
}

#[test]
fn stats_times() {
    let mut stats = Stats::new();
    assert_eq!(stats.correct_count, 0);
    assert_eq!(stats.incorrect_count, 0);
    assert!(stats.elapsed_time().is_none());
    stats.start();
    assert!(stats.start_time.is_some());
    assert!(stats.elapsed_time().is_some());
    stats.end();
    assert!(stats.end_time.is_some());
    let first = stats.elapsed_time().unwrap();
    let second = stats.elapsed_time().unwrap();
    assert_eq!(first, second);
}

#[test]
fn plain_records() {
    let p = Progress {
        completed_chars: 1,
        total_chars: 2,
        guide: String::from("ka"),
        typed_romaji: String::from("k"),
        typed_romaji_count: 1,
    };
    assert_eq!(p.clone(), p);
    assert_ne!(Status::Ready, Status::Playing);
    let mode = GameMode::TimeAttack { time_limit: Duration::from_secs(60), pool: vec![] };
    match mode.clone() {
        GameMode::TimeAttack { time_limit, pool } => {
            assert_eq!(time_limit, Duration::from_secs(60));
            assert!(pool.is_empty());
        }
        GameMode::Normal { .. } => panic!("the mode changed"),
    }
}

#[test]
fn typing_the_whole_reading_completes_the_whole_display() {
    let q = Question::new("[青空|あおぞら]を[見上|みあ]げる");
    let n = q.reading.chars().count();
    assert_eq!(q.display_completed_chars(n), q.display.chars().count());
    assert_eq!(q.display_completed_chars(0), 0);
}

#[test]
fn a_fresh_engine_has_typed_nothing_and_a_complete_one_everything() {
    let mut engine = TypingEngine::new("かんか").unwrap();
    assert_eq!(engine.completed_char_range(), (0, 0));
    let guide = engine.guide().to_string();
    for c in guide.chars() {
        engine.input(c);
    }
    assert_eq!(engine.completed_char_range().1, 3);
    assert_eq!(engine.guide(), "");
}
