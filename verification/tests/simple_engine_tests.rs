use rapid_type::result::EngineInputResult;
use rapid_type::simple_engine::TypingEngine;

#[test]
fn test_typing_engine() {
    let mut engine = TypingEngine::new("きゃたぴら");

    assert_eq!(engine.input('k'), EngineInputResult::Accepted);
    assert_eq!(engine.input('r'), EngineInputResult::Rejected);
    assert_eq!(engine.input('i'), EngineInputResult::Accepted);
    assert_eq!(engine.input('x'), EngineInputResult::Accepted);
    assert_eq!(engine.input('y'), EngineInputResult::Accepted);
    assert_eq!(engine.input('a'), EngineInputResult::Accepted);
    assert_eq!(engine.input('t'), EngineInputResult::Accepted);
    assert_eq!(engine.input('a'), EngineInputResult::Accepted);
    assert_eq!(engine.input('g'), EngineInputResult::Rejected);
    assert_eq!(engine.input('p'), EngineInputResult::Accepted);
    assert_eq!(engine.input('i'), EngineInputResult::Accepted);
    assert_eq!(engine.input('r'), EngineInputResult::Accepted);
    assert_eq!(engine.input('a'), EngineInputResult::Completed);
    assert_eq!(engine.input('x'), EngineInputResult::AlreadyCompleted);
}
