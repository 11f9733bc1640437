use rapid_type::menu::{Difficulty, Menu, MenuActions, MenuButton, MenuKeys, Screen};
use rapid_type::score::PlayMode;

fn keys() -> MenuKeys {
    MenuKeys {
        down: false,
        up: false,
        confirm: false,
        left: false,
        quit: false,
        escape: false,
        retry: false,
    }
}

const NONE: MenuActions = MenuActions {
    close_app: false,
    start_countdown: false,
    abandon_game: false,
};

#[test]
fn menus_lead_from_title_to_the_countdown() {
    let mut m = Menu::new(Difficulty::Easy);
    assert_eq!(m.handle_frame(MenuKeys { confirm: true, ..keys() }), NONE);
    assert_eq!(m.screen, Screen::ModeSelect);
    m.handle_frame(MenuKeys { down: true, ..keys() });
    assert_eq!(m.mode_cursor, 1);
    assert_eq!(m.selected_mode, PlayMode::TimeAttack);
    m.handle_frame(MenuKeys { down: true, ..keys() });
    assert_eq!(m.mode_cursor, 1);
    m.handle_frame(MenuKeys { confirm: true, ..keys() });
    assert_eq!(m.screen, Screen::DifficultySelect);
    m.handle_frame(MenuKeys { down: true, ..keys() });
    m.handle_frame(MenuKeys { down: true, ..keys() });
    m.handle_frame(MenuKeys { down: true, ..keys() });
    assert_eq!(m.selected_difficulty, Difficulty::Hard);
    m.handle_frame(MenuKeys { up: true, ..keys() });
    assert_eq!(m.selected_difficulty, Difficulty::Normal);
    m.handle_frame(MenuKeys { confirm: true, ..keys() });
    assert_eq!(m.screen, Screen::Ready);
    let a = m.handle_frame(MenuKeys { confirm: true, ..keys() });
    assert!(a.start_countdown);
    assert_eq!(m.screen, Screen::Countdown);
}

#[test]
fn title_exit_and_quit_close_the_app() {
    let mut m = Menu::new(Difficulty::Normal);
    m.handle_frame(MenuKeys { down: true, ..keys() });
    assert_eq!(m.title_cursor, 1);
    assert!(m.handle_frame(MenuKeys { confirm: true, ..keys() }).close_app);
    let mut m = Menu::new(Difficulty::Normal);
    assert!(m.handle_frame(MenuKeys { escape: true, ..keys() }).close_app);
    assert!(!m.handle_frame(MenuKeys { left: true, ..keys() }).close_app);
}

#[test]
fn back_keys_return_one_screen() {
    let mut m = Menu::new(Difficulty::Easy);
    m.screen = Screen::Ready;
    m.handle_frame(MenuKeys { quit: true, ..keys() });
    assert_eq!(m.screen, Screen::DifficultySelect);
    m.handle_frame(MenuKeys { left: true, ..keys() });
    assert_eq!(m.screen, Screen::ModeSelect);
    m.handle_frame(MenuKeys { escape: true, ..keys() });
    assert_eq!(m.screen, Screen::Title);
}

#[test]
fn playing_escape_abandons_and_retry_restarts() {
    let mut m = Menu::new(Difficulty::Easy);
    m.screen = Screen::Playing;
    let a = m.handle_frame(MenuKeys { retry: true, ..keys() });
    assert!(a.start_countdown && !a.abandon_game);
    assert_eq!(m.screen, Screen::Countdown);
    m.screen = Screen::Playing;
    assert_eq!(m.handle_frame(MenuKeys { quit: true, ..keys() }), NONE);
    assert_eq!(m.screen, Screen::Playing);
    let a = m.handle_frame(MenuKeys { escape: true, ..keys() });
    assert!(a.abandon_game);
    assert_eq!(m.screen, Screen::Title);
}

#[test]
fn result_screen_retries_or_leaves() {
    let mut m = Menu::new(Difficulty::Easy);
    m.screen = Screen::Result;
    let a = m.handle_frame(MenuKeys { confirm: true, ..keys() });
    assert_eq!(a, NONE);
    assert_eq!(m.screen, Screen::Ready);
    m.screen = Screen::Result;
    m.handle_frame(MenuKeys { down: true, ..keys() });
    let a = m.handle_frame(MenuKeys { confirm: true, ..keys() });
    assert!(a.abandon_game);
    assert_eq!(m.screen, Screen::Title);
}

#[test]
fn difficulty_labels() {
    assert_eq!(Difficulty::Easy.label(), "イージー");
    assert_eq!(Difficulty::Normal.label(), "ノーマル");
    assert_eq!(Difficulty::Hard.label(), "ハード");
}

#[test]
fn clicking_through_the_menus_reaches_the_ready_screen() {
    let mut menu = Menu::new(Difficulty::Easy);
    assert_eq!(menu.handle_click(MenuButton::Start).close_app, false);
    assert_eq!(menu.screen, Screen::ModeSelect);
    menu.handle_click(MenuButton::Mode(PlayMode::TimeAttack));
    assert_eq!(menu.mode_cursor, 1);
    assert_eq!(menu.selected_mode, PlayMode::TimeAttack);
    menu.handle_click(MenuButton::Next);
    assert_eq!(menu.screen, Screen::DifficultySelect);
    menu.handle_click(MenuButton::Level(Difficulty::Hard));
    assert_eq!(menu.selected_difficulty, Difficulty::Hard);
    menu.handle_click(MenuButton::Next);
    assert_eq!(menu.screen, Screen::Ready);
    menu.handle_click(MenuButton::Back);
    assert_eq!(menu.screen, Screen::DifficultySelect);
    menu.handle_click(MenuButton::Back);
    assert_eq!(menu.screen, Screen::ModeSelect);
    menu.handle_click(MenuButton::Back);
    assert_eq!(menu.screen, Screen::Title);
    assert!(menu.handle_click(MenuButton::Exit).close_app);
}

#[test]
fn a_finished_game_shows_the_result_and_the_title_button_drops_it() {
    let mut menu = Menu::new(Difficulty::Easy);
    menu.begin_play();
    assert_eq!(menu.screen, Screen::Playing);
    menu.after_play(false);
    assert_eq!(menu.screen, Screen::Playing);
    menu.result_cursor = 1;
    menu.after_play(true);
    assert_eq!(menu.screen, Screen::Result);
    assert_eq!(menu.result_cursor, 0);
    let actions = menu.handle_click(MenuButton::ToTitle);
    assert!(actions.abandon_game);
    assert_eq!(menu.screen, Screen::Title);
    assert_eq!(menu.result_cursor, 1);
    // a button of another screen changes nothing
    let before = menu;
    menu.handle_click(MenuButton::PlayAgain);
    assert_eq!(menu, before);
}
