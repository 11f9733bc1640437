use rapid_type::ruby::{
    calculate_display_progress, katakana_to_hiragana, parse_ruby, to_hiragana_string, RubyParseError, RubySegment,
};

#[test]
fn test_parse_normal_ruby() {
    let input = "[青|あお][空|ぞら]を[見|み][上|あ]げる";
    let segments = parse_ruby(input).unwrap();

    assert_eq!(
        segments,
        vec![
            RubySegment::new("青", "あお", true),
            RubySegment::new("空", "ぞら", true),
            RubySegment::new("を", "を", false),
            RubySegment::new("見", "み", true),
            RubySegment::new("上", "あ", true),
            RubySegment::new("げる", "げる", false),
        ]
    );
}

#[test]
fn test_parse_plain_hiragana_and_katakana() {
    let input = "おにぎりとちょこれーと";
    let segments = parse_ruby(input).unwrap();
    assert_eq!(segments, vec![RubySegment::new(input, input, false)]);
}

#[test]
fn test_parse_jukujikun() {
    // 熟字訓（分割できない複数文字の漢字）
    let input = "[今日|きょう]は[晴|は]れ";
    let segments = parse_ruby(input).unwrap();
    assert_eq!(
        segments,
        vec![
            RubySegment::new("今日", "きょう", true),
            RubySegment::new("は", "は", false),
            RubySegment::new("晴", "は", true),
            RubySegment::new("れ", "れ", false),
        ]
    );
}

#[test]
fn test_error_missing_ruby_on_kanji() {
    // 「見上げる」の「上」にルビが抜けている場合のエラー検知
    let input = "[青|あお][空|ぞら]を[見|み]上げる";
    let result = parse_ruby(input);
    assert!(matches!(
        result,
        Err(RubyParseError::InvalidReadingChar('上', _))
    ));
}

#[test]
fn test_error_unclosed_bracket() {
    let input = "[青|あお";
    let result = parse_ruby(input);
    assert!(matches!(result, Err(RubyParseError::UnclosedBracket(_))));
}

#[test]
fn test_error_missing_delimiter() {
    let input = "[青あお]";
    let result = parse_ruby(input);
    assert!(matches!(result, Err(RubyParseError::MissingDelimiter(_))));
}

#[test]
fn test_calculate_display_progress() {
    let segments = parse_ruby("[青|あお][空|ぞら]を[見|み][上|あ]げる").unwrap();

    assert_eq!(calculate_display_progress(&segments, 0), 0); // "" -> 0文字
    assert_eq!(calculate_display_progress(&segments, 1), 0); // "あ" -> 「青」保留 (0文字)
    assert_eq!(calculate_display_progress(&segments, 2), 1); // "あお" -> 「青」完了 (1文字)
    assert_eq!(calculate_display_progress(&segments, 3), 1); // "あおぞ" -> 「空」保留 (1文字)
    assert_eq!(calculate_display_progress(&segments, 4), 2); // "あおぞら" -> 「青空」完了 (2文字)
    assert_eq!(calculate_display_progress(&segments, 5), 3); // "あおぞらを" -> 「青空を」完了 (3文字)
    assert_eq!(calculate_display_progress(&segments, 6), 4); // "あおぞらをみ" -> 「青空を見」完了 (4文字)
    assert_eq!(calculate_display_progress(&segments, 7), 5); // "あおぞらをみあ" -> 「青空を見上」完了 (5文字)
    assert_eq!(calculate_display_progress(&segments, 8), 6); // "あおぞらをみあげ" -> 「青空を見上げ」完了 (6文字: 送り仮名「げ」が進む)
    assert_eq!(calculate_display_progress(&segments, 9), 7); // "あおぞらをみあげる" -> 全完了 (7文字)
}

#[test]
fn test_plain_hiragana_progress() {
    let segments = parse_ruby("おにぎり").unwrap();

    // 1文字打つごとに1文字ずつ進む
    assert_eq!(calculate_display_progress(&segments, 0), 0); // "" -> 0文字
    assert_eq!(calculate_display_progress(&segments, 1), 1); // "お" -> 1文字
    assert_eq!(calculate_display_progress(&segments, 2), 2); // "おに" -> 2文字
    assert_eq!(calculate_display_progress(&segments, 3), 3); // "おにぎ" -> 3文字
    assert_eq!(calculate_display_progress(&segments, 4), 4); // "おにぎり" -> 4文字
}

#[test]
fn test_jukujikun_progress_does_not_advance_partially() {
    // 漢字2文字・読み2文字の熟字訓
    let segments = parse_ruby("[風邪|かぜ][薬|ぐすり]").unwrap();

    // 0文字入力 ("") -> 0文字確定
    assert_eq!(calculate_display_progress(&segments, 0), 0);
    // 1文字入力 ("か") -> 「風邪」は保留されるので 0文字確定
    assert_eq!(calculate_display_progress(&segments, 1), 0);
    // 2文字入力 ("かぜ") -> 「風邪」が確定して 2文字確定
    assert_eq!(calculate_display_progress(&segments, 2), 2);
    // 3文字入力 ("かぜぐ") -> 「薬」は保留されるので 2文字確定
    assert_eq!(calculate_display_progress(&segments, 3), 2);
    // 5文字入力 ("かぜぐすり") -> 全完了で 3文字確定 ("風邪薬")
    assert_eq!(calculate_display_progress(&segments, 5), 3);
}

#[test]
fn test_plain_katakana_advances_one_by_one() {
    // 平文のカタカナは1文字ずつ進む
    let segments = parse_ruby("アイス").unwrap();

    assert_eq!(calculate_display_progress(&segments, 0), 0);
    assert_eq!(calculate_display_progress(&segments, 1), 1); // "ア"
    assert_eq!(calculate_display_progress(&segments, 2), 2); // "アイ"
    assert_eq!(calculate_display_progress(&segments, 3), 3); // "アイス"
}

#[test]
fn test_okurigana_multiple_chars_progress() {
    // 送り仮名「げる」が2文字ある場合
    let segments = parse_ruby("[見|み][上|あ]げる").unwrap();

    // "みあ" (2文字) -> "見上" (2文字完了)
    assert_eq!(calculate_display_progress(&segments, 2), 2);
    // "みあげ" (3文字) -> "見上げ" (3文字完了: 送り仮名「げ」が進む)
    assert_eq!(calculate_display_progress(&segments, 3), 3);
    // "みあげる" (4文字) -> "見上げる" (4文字完了)
    assert_eq!(calculate_display_progress(&segments, 4), 4);
}

#[test]
fn test_katakana_auto_conversion() {
    let segments = parse_ruby("チョコレート").unwrap();
    assert_eq!(segments[0].display, "チョコレート");
    assert_eq!(segments[0].reading, "ちょこれーと");

    // 1文字ずつ進行する
    assert_eq!(calculate_display_progress(&segments, 0), 0);
    assert_eq!(calculate_display_progress(&segments, 1), 1); // "ち" -> "チ"
    assert_eq!(calculate_display_progress(&segments, 2), 2); // "ちょ" -> "チョ"
    assert_eq!(calculate_display_progress(&segments, 6), 6); // 全完了
}

#[test]
fn test_mixed_kanji_katakana() {
    let segments = parse_ruby("[秋|あき]のチョコレートケーキ").unwrap();
    assert_eq!(
        segments,
        vec![
            RubySegment::new("秋", "あき", true),
            RubySegment::new("のチョコレートケーキ", "のちょこれーとけーき", false),
        ]
    );
}

#[test]
fn hiragana_conversion_is_done_once_and_for_all() {
    let text: Vec<char> = "カタカナとひらがなABC".chars().collect();
    let once = to_hiragana_string(&text);
    assert_eq!(once.iter().collect::<String>(), "かたかなとひらがなABC");
    assert_eq!(once.len(), text.len());
    assert_eq!(to_hiragana_string(&once), once);
    assert_eq!(katakana_to_hiragana('ヶ'), 'ゖ');
    assert_eq!(katakana_to_hiragana('ー'), 'ー');
}

#[test]
fn reparsing_the_markup_of_a_result_gives_it_back() {
    let segs = parse_ruby("カタカナの[青空|アオゾラ]を[見上|みあ]げる").unwrap();
    let mut markup = String::new();
    for s in &segs {
        if s.is_ruby {
            markup.push('[');
            markup.push_str(&s.display);
            markup.push('|');
            markup.push_str(&s.reading);
            markup.push(']');
        } else {
            markup.push_str(&s.display);
        }
    }
    assert_eq!(parse_ruby(&markup).unwrap(), segs);
}
