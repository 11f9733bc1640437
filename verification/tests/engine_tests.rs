use rapid_type::engine::TypingEngine;
use rapid_type::result::EngineInputResult;

use std::time::Instant;

#[test]
fn typing_engine_new_performance() {
    let start = Instant::now();
    let _engine = TypingEngine::new(
        &"じゅげむじゅげむごこうのすりきれかいじゃりすいぎょのすいぎょうまつうんらいまつふうらいまつくうねるところにすむところやぶらこうじのぶらこうじぱいぽぱいぽぱいぽのしゅーりんがんしゅーりんがんのぐーりんだいぐーりんだいのぽんぽこぴーのぽんぽこなーのちょうきゅうめいのちょうすけ".repeat(10),
    )
    .unwrap();
    let duration = start.elapsed();
    println!("TypingEngine::new took {:?} for a long input", duration);
    assert!(duration.as_secs() < 1, "TypingEngine::new is too slow");
}

#[test]
fn allows_single_n_for_non_terminal_hatsuon() {
    let mut engine = TypingEngine::new("かんか").unwrap();
    for c in ['k', 'a', 'n', 'k'] {
        assert!(matches!(engine.input(c), EngineInputResult::Accepted));
    }
    assert!(matches!(engine.input('a'), EngineInputResult::Completed));
}

#[test]
fn disallows_single_n_for_terminal_hatsuon() {
    let mut engine = TypingEngine::new("かん").unwrap();
    for c in ['k', 'a'] {
        assert!(matches!(engine.input(c), EngineInputResult::Accepted));
    }
    assert!(matches!(engine.input('n'), EngineInputResult::Accepted));
    assert!(matches!(engine.input('n'), EngineInputResult::Completed));
}

#[test]
fn allows_other_common_hatsuon_inputs() {
    let mut engine_nn = TypingEngine::new("かん").unwrap();
    for c in ['k', 'a', 'n'] {
        assert!(matches!(engine_nn.input(c), EngineInputResult::Accepted));
    }
    assert!(matches!(engine_nn.input('n'), EngineInputResult::Completed));

    let mut engine_xn = TypingEngine::new("かん").unwrap();
    for c in ['k', 'a', 'x'] {
        assert!(matches!(engine_xn.input(c), EngineInputResult::Accepted));
    }
    assert!(matches!(engine_xn.input('n'), EngineInputResult::Completed));

    let mut engine_n_apostrophe = TypingEngine::new("かん").unwrap();
    for c in ['k', 'a', 'n'] {
        assert!(matches!(
            engine_n_apostrophe.input(c),
            EngineInputResult::Accepted
        ));
    }
    assert!(matches!(
        engine_n_apostrophe.input('\''),
        EngineInputResult::Completed
    ));
}

#[test]
fn allows_double_consonant_for_sokuon() {
    let mut engine = TypingEngine::new("かっか").unwrap();
    for c in ['k', 'a', 'k', 'k'] {
        assert!(matches!(engine.input(c), EngineInputResult::Accepted));
    }
    assert!(matches!(engine.input('a'), EngineInputResult::Completed));
}

#[test]
fn allows_ltu_for_sokuon() {
    let mut engine = TypingEngine::new("かっか").unwrap();
    for c in ['k', 'a', 'l', 't', 'u', 'k'] {
        assert!(matches!(engine.input(c), EngineInputResult::Accepted));
    }
    assert!(matches!(engine.input('a'), EngineInputResult::Completed));
}

#[test]
fn allows_tch_series_for_sokuon_before_chi_row() {
    for (kana, romaji) in [
        ("っちゃ", "tcha"),
        ("っち", "tchi"),
        ("っちゅ", "tchu"),
        ("っちぇ", "tche"),
        ("っちょ", "tcho"),
    ] {
        let mut engine = TypingEngine::new(kana).unwrap();
        let chars: Vec<char> = romaji.chars().collect();
        for c in &chars[..chars.len() - 1] {
            assert!(
                matches!(engine.input(*c), EngineInputResult::Accepted),
                "failed input for {kana} with {romaji}"
            );
        }
        assert!(
            matches!(
                engine.input(chars[chars.len() - 1]),
                EngineInputResult::Completed
            ),
            "did not complete for {kana} with {romaji}"
        );
    }
}

#[test]
fn allows_consecutive_sokuon_with_double_consonants() {
    let mut engine = TypingEngine::new("っっか").unwrap();
    for c in "kkk".chars() {
        assert!(matches!(engine.input(c), EngineInputResult::Accepted));
    }
    assert!(matches!(engine.input('a'), EngineInputResult::Completed));
}

#[test]
fn allows_consecutive_sokuon_with_mixed_inputs() {
    let mut engine = TypingEngine::new("っっか").unwrap();
    let chars: Vec<char> = "ltukka".chars().collect();
    for c in &chars[..chars.len() - 1] {
        assert!(matches!(engine.input(*c), EngineInputResult::Accepted));
    }
    assert!(matches!(
        engine.input(chars[chars.len() - 1]),
        EngineInputResult::Completed
    ));
}

#[test]
fn allows_terminal_sokuon() {
    let mut engine = TypingEngine::new("っ").unwrap();
    let chars: Vec<char> = "ltu".chars().collect();
    for c in &chars[..chars.len() - 1] {
        assert!(matches!(engine.input(*c), EngineInputResult::Accepted));
    }
    assert!(matches!(
        engine.input(chars[chars.len() - 1]),
        EngineInputResult::Completed
    ));
}

#[test]
fn allows_repeated_terminal_sokuon() {
    let mut engine = TypingEngine::new("っっ").unwrap();
    let chars: Vec<char> = "ltuxtu".chars().collect();
    for c in &chars[..chars.len() - 1] {
        assert!(matches!(engine.input(*c), EngineInputResult::Accepted));
    }
    assert!(matches!(
        engine.input(chars[chars.len() - 1]),
        EngineInputResult::Completed
    ));
}

#[test]
fn allows_long_consecutive_sokuon_without_panic() {
    let _engine = TypingEngine::new("っっっっっか").unwrap();
}

#[test]
fn allows_symbol_inputs() {
    let mut engine = TypingEngine::new("あ、い。う！え？").unwrap();
    let chars: Vec<char> = "a,i.u!e?".chars().collect();
    for c in &chars[..chars.len() - 1] {
        assert!(matches!(engine.input(*c), EngineInputResult::Accepted));
    }
    assert!(matches!(
        engine.input(chars[chars.len() - 1]),
        EngineInputResult::Completed
    ));
}

#[test]
fn allows_dash_for_choonpu() {
    let mut engine = TypingEngine::new("らーめん").unwrap();
    let chars: Vec<char> = "ra-menn".chars().collect();
    for c in &chars[..chars.len() - 1] {
        assert!(matches!(engine.input(*c), EngineInputResult::Accepted));
    }
    assert!(matches!(
        engine.input(chars[chars.len() - 1]),
        EngineInputResult::Completed
    ));
}

#[test]
fn disallows_vowel_repeat_for_choonpu() {
    let mut engine = TypingEngine::new("らーめん").unwrap();
    for c in "ra".chars() {
        assert!(matches!(engine.input(c), EngineInputResult::Accepted));
    }
    assert!(matches!(engine.input('a'), EngineInputResult::Rejected));
}

#[test]
fn disallows_mixed_sokuon_and_following_option() {
    let mut engine = TypingEngine::new("はっしゃ").unwrap();
    for c in "has".chars() {
        assert!(matches!(engine.input(c), EngineInputResult::Accepted));
    }
    assert!(matches!(engine.input('c'), EngineInputResult::Rejected));
}

#[test]
fn allows_consistent_c_path_for_sokuon_before_sha() {
    let mut engine = TypingEngine::new("はっしゃ").unwrap();
    let chars: Vec<char> = "haccixya".chars().collect();
    for c in &chars[..chars.len() - 1] {
        assert!(matches!(engine.input(*c), EngineInputResult::Accepted));
    }
    assert!(matches!(
        engine.input(chars[chars.len() - 1]),
        EngineInputResult::Completed
    ));
}

#[test]
fn supports_wide_coverage_sentence() {
    let mut engine = TypingEngine::new("にとをおうものいっとをもえず").unwrap();
    let chars: Vec<char> = "nitowooumonoittowomoezu".chars().collect();
    for c in &chars[..chars.len() - 1] {
        assert!(matches!(engine.input(*c), EngineInputResult::Accepted));
    }
    assert!(matches!(
        engine.input(chars[chars.len() - 1]),
        EngineInputResult::Completed
    ));
}

#[test]
fn allows_l_small_kana_composition() {
    let mut engine = TypingEngine::new("きゅ").unwrap();
    let chars: Vec<char> = "kilyu".chars().collect();
    for c in &chars[..chars.len() - 1] {
        assert!(matches!(engine.input(*c), EngineInputResult::Accepted));
    }
    assert!(matches!(
        engine.input(chars[chars.len() - 1]),
        EngineInputResult::Completed
    ));
}

#[test]
fn guide_picks_shortest_route() {
    let engine = TypingEngine::new("つ").unwrap();
    assert_eq!(engine.guide(), "tu");
}

#[test]
fn guide_prefers_direct_yoon_after_repeated_sokuon() {
    let engine = TypingEngine::new("みっっっっちゃる").unwrap();
    assert_eq!(engine.guide(), "mitttttyaru");
}

#[test]
fn guide_prefers_direct_chi_row_yoon_after_repeated_sokuon() {
    for (kana, expected) in [
        ("みっっっっちゃる", "mitttttyaru"),
        ("みっっっっちゅる", "mitttttyuru"),
        ("みっっっっちぇる", "mitttttyeru"),
        ("みっっっっちょる", "mitttttyoru"),
    ] {
        let engine = TypingEngine::new(kana).unwrap();
        assert_eq!(engine.guide(), expected, "unexpected guide for {kana}");
    }
}

#[test]
fn guide_after_shared_prefix_prefers_shorter_branch() {
    let mut engine = TypingEngine::new("みっっっっちゃる").unwrap();
    for c in "mittttt".chars() {
        assert!(matches!(
            engine.input(c),
            EngineInputResult::Accepted | EngineInputResult::Completed
        ));
    }
    assert_eq!(engine.guide(), "yaru");
}

#[test]
fn reports_completed_reading_progress_for_basic_input() {
    let mut engine = TypingEngine::new("かき").unwrap();
    assert_eq!(engine.completed_char_range(), (0, 0));
    assert_eq!(engine.completed_reading(), "");
    assert_eq!(engine.furthest_completed_reading(), "");

    assert!(matches!(engine.input('k'), EngineInputResult::Accepted));
    assert_eq!(engine.completed_char_range(), (0, 0));

    assert!(matches!(engine.input('a'), EngineInputResult::Accepted));
    assert_eq!(engine.completed_char_range(), (1, 1));
    assert_eq!(engine.completed_reading(), "か");
    assert_eq!(engine.furthest_completed_reading(), "か");

    assert!(matches!(engine.input('k'), EngineInputResult::Accepted));
    assert_eq!(engine.completed_char_range(), (1, 1));

    assert!(matches!(engine.input('i'), EngineInputResult::Completed));
    assert_eq!(engine.completed_char_range(), (2, 2));
    assert_eq!(engine.completed_reading(), "かき");
    assert_eq!(engine.furthest_completed_reading(), "かき");
}

#[test]
fn reports_progress_range_for_ambiguous_hatsuon_state() {
    let mut engine = TypingEngine::new("かんか").unwrap();
    for c in ['k', 'a'] {
        assert!(matches!(engine.input(c), EngineInputResult::Accepted));
    }
    assert_eq!(engine.completed_char_range(), (1, 1));

    assert!(matches!(engine.input('n'), EngineInputResult::Accepted));
    assert_eq!(engine.completed_char_range(), (1, 2));
    assert_eq!(engine.completed_reading(), "か");
    assert_eq!(engine.furthest_completed_reading(), "かん");
}

#[test]
fn reports_sokuon_progress_after_ltu_before_following_kana_completion() {
    let mut engine = TypingEngine::new("がっこう").unwrap();
    for c in ['g', 'a', 'l', 't', 'u'] {
        assert!(matches!(engine.input(c), EngineInputResult::Accepted));
    }
    assert_eq!(engine.completed_char_range(), (2, 2));
    assert_eq!(engine.completed_reading(), "がっ");
}

#[test]
fn reports_yoon_progress_after_base_kana_for_composed_input() {
    let mut engine = TypingEngine::new("きゃ").unwrap();
    for c in ['k', 'i'] {
        assert!(matches!(engine.input(c), EngineInputResult::Accepted));
    }
    assert_eq!(engine.completed_char_range(), (1, 1));
    assert_eq!(engine.completed_reading(), "き");

    for c in ['x', 'y'] {
        assert!(matches!(engine.input(c), EngineInputResult::Accepted));
    }
    assert!(matches!(engine.input('a'), EngineInputResult::Completed));
    assert_eq!(engine.completed_char_range(), (2, 2));
}

#[test]
fn keeps_yoon_progress_after_l_in_kilyou_path() {
    let mut engine = TypingEngine::new("きょう").unwrap();
    for c in ['k', 'i'] {
        assert!(matches!(engine.input(c), EngineInputResult::Accepted));
    }
    assert_eq!(engine.completed_char_range(), (1, 1));

    assert!(matches!(engine.input('l'), EngineInputResult::Accepted));
    assert_eq!(engine.completed_char_range(), (1, 1));
    assert_eq!(engine.completed_reading(), "き");
}

#[test]
fn disallows_single_n_before_n_row_kana() {
    let mut engine = TypingEngine::new("かんに").unwrap();
    for c in ['k', 'a', 'n'] {
        assert!(matches!(engine.input(c), EngineInputResult::Accepted));
    }

    assert!(matches!(engine.input('i'), EngineInputResult::Rejected));
    assert!(matches!(engine.input('n'), EngineInputResult::Accepted));
    assert!(matches!(engine.input('n'), EngineInputResult::Accepted));
    assert!(matches!(engine.input('i'), EngineInputResult::Completed));
}
