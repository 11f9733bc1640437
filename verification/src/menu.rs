//! The screens of the game and how the keys of one frame move between them: cursors on the
//! menus, confirming, going back, abandoning a game and retrying.
use vstd::prelude::*;

use crate::score::PlayMode;

verus! {

/// The screens of the game.
#[derive(Debug, Clone, Copy, PartialEq, Eq, Structural)]
pub enum Screen {
    Title,
    ModeSelect,
    DifficultySelect,
    Ready,
    Countdown,
    Playing,
    Result,
}

/// The difficulties offered, easiest first.
#[derive(Debug, Clone, Copy, PartialEq, Eq, Structural)]
pub enum Difficulty {
    Easy,
    Normal,
    Hard,
}

impl Difficulty {
    /// The name shown for the difficulty.
    pub fn label(&self) -> (r: &'static str)
        ensures
            r@ == match self {
                Difficulty::Easy => "イージー"@,
                Difficulty::Normal => "ノーマル"@,
                Difficulty::Hard => "ハード"@,
            },
    {
        match self {
            Difficulty::Easy => "イージー",
            Difficulty::Normal => "ノーマル",
            Difficulty::Hard => "ハード",
        }
    }
}

/// The keys pressed in one frame: down (`J`, `↓`), up (`K`, `↑`), confirm (`L`, `Space`,
/// `Enter`), left (`H`), quit (`Q`), escape, retry (`Tab`, `F5`).
#[derive(Debug, Clone, Copy)]
pub struct MenuKeys {
    pub down: bool,
    pub up: bool,
    pub confirm: bool,
    pub left: bool,
    pub quit: bool,
    pub escape: bool,
    pub retry: bool,
}

/// What the application must do after a frame's keys: close the window, start the countdown
/// (its clock starts now), or drop the game being played.
#[derive(Debug, Clone, Copy, PartialEq, Eq, Structural)]
pub struct MenuActions {
    pub close_app: bool,
    pub start_countdown: bool,
    pub abandon_game: bool,
}

/// The state of the menus.
#[derive(Debug, Clone, Copy, PartialEq, Eq, Structural)]
pub struct Menu {
    pub screen: Screen,
    pub title_cursor: usize,
    pub mode_cursor: usize,
    pub selected_mode: PlayMode,
    pub selected_difficulty: Difficulty,
    pub result_cursor: usize,
}

/// No action.
pub open spec fn no_actions() -> MenuActions {
    MenuActions { close_app: false, start_countdown: false, abandon_game: false }
}

/// A two-entry cursor after the frame's down and up keys: down moves to the second entry, up
/// to the first.
pub open spec fn two_way(cursor: usize, keys: MenuKeys) -> usize {
    let c = if keys.down {
        if cursor + 1 <= 1 {
            (cursor + 1) as usize
        } else {
            1usize
        }
    } else {
        cursor
    };
    if keys.up {
        if c >= 1 {
            (c - 1) as usize
        } else {
            0usize
        }
    } else {
        c
    }
}

/// The position of a difficulty in the list.
pub open spec fn difficulty_index(d: Difficulty) -> int {
    match d {
        Difficulty::Easy => 0,
        Difficulty::Normal => 1,
        Difficulty::Hard => 2,
    }
}

/// The difficulty at a position in the list.
pub open spec fn difficulty_at(i: int) -> Difficulty {
    if i <= 0 {
        Difficulty::Easy
    } else if i == 1 {
        Difficulty::Normal
    } else {
        Difficulty::Hard
    }
}

/// The mode under the mode cursor.
pub open spec fn mode_at(cursor: usize) -> PlayMode {
    if cursor == 0 {
        PlayMode::Normal
    } else {
        PlayMode::TimeAttack
    }
}

/// The menus after one frame's keys on the screen shown at its start, and the actions
/// required. Each screen checks its keys in a fixed order; later checks see the effect of
/// earlier ones.
pub open spec fn frame(m: Menu, keys: MenuKeys) -> (Menu, MenuActions) {
    match m.screen {
        Screen::Title => {
            let cursor = two_way(m.title_cursor, keys);
            let screen = if keys.confirm && cursor == 0 {
                Screen::ModeSelect
            } else {
                m.screen
            };
            (
                Menu { screen, title_cursor: cursor, ..m },
                MenuActions {
                    close_app: (keys.confirm && cursor != 0) || keys.quit || keys.escape,
                    ..no_actions()
                },
            )
        },
        Screen::ModeSelect => {
            let cursor = two_way(m.mode_cursor, keys);
            let s1 = if keys.confirm {
                Screen::DifficultySelect
            } else {
                m.screen
            };
            let screen = if keys.left || keys.quit || keys.escape {
                Screen::Title
            } else {
                s1
            };
            (Menu { screen, mode_cursor: cursor, selected_mode: mode_at(cursor), ..m }, no_actions())
        },
        Screen::DifficultySelect => {
            let i0 = difficulty_index(m.selected_difficulty);
            let d1 = if keys.down {
                difficulty_at(if i0 + 1 <= 2 {
                    i0 + 1
                } else {
                    2
                })
            } else {
                m.selected_difficulty
            };
            let i1 = if keys.down {
                difficulty_index(d1)
            } else {
                i0
            };
            let d2 = if keys.up {
                difficulty_at(if i1 >= 1 {
                    i1 - 1
                } else {
                    0
                })
            } else {
                d1
            };
            let s1 = if keys.confirm {
                Screen::Ready
            } else {
                m.screen
            };
            let screen = if keys.left || keys.quit || keys.escape {
                Screen::ModeSelect
            } else {
                s1
            };
            (Menu { screen, selected_difficulty: d2, ..m }, no_actions())
        },
        Screen::Ready => {
            let s1 = if keys.confirm {
                Screen::Countdown
            } else {
                m.screen
            };
            let screen = if keys.left || keys.quit || keys.escape {
                Screen::DifficultySelect
            } else {
                s1
            };
            (Menu { screen, ..m }, MenuActions { start_countdown: keys.confirm, ..no_actions() })
        },
        Screen::Countdown => (m, no_actions()),
        Screen::Playing => {
            if keys.escape {
                (Menu { screen: Screen::Title, ..m }, MenuActions { abandon_game: true, ..no_actions() })
            } else if keys.retry {
                (
                    Menu { screen: Screen::Countdown, ..m },
                    MenuActions { start_countdown: true, ..no_actions() },
                )
            } else {
                (m, no_actions())
            }
        },
        Screen::Result => {
            let cursor = two_way(m.result_cursor, keys);
            let (s1, drop1) = if keys.confirm {
                if cursor == 0 {
                    (Screen::Ready, false)
                } else {
                    (Screen::Title, true)
                }
            } else {
                (m.screen, false)
            };
            let back = keys.left || keys.quit || keys.escape;
            (
                Menu {
                    screen: if back {
                        Screen::Title
                    } else {
                        s1
                    },
                    result_cursor: cursor,
                    ..m
                },
                MenuActions { abandon_game: drop1 || back, ..no_actions() },
            )
        },
    }
}

/// The cursors are on their entries.
pub open spec fn cursors_ok(m: Menu) -> bool {
    m.title_cursor <= 1 && m.mode_cursor <= 1 && m.result_cursor <= 1
}

/// Every frame keeps the cursors on their entries.
pub proof fn lemma_frame_keeps_cursors(m: Menu, keys: MenuKeys)
    requires
        cursors_ok(m),
    ensures
        cursors_ok(frame(m, keys).0),
{
}

/// On the two-entry menus (title, mode and result screens) the up key moves the cursor to the
/// first entry, the down key alone to the second, and no key leaves it; on the mode screen the
/// mode follows the cursor.
pub proof fn lemma_two_entry_cursor(m: Menu, keys: MenuKeys)
    requires
        cursors_ok(m),
    ensures
        ({
            let (m2, _) = frame(m, keys);
            let moved = |old: usize, new: usize|
                if keys.up {
                    new == 0
                } else if keys.down {
                    new == 1
                } else {
                    new == old
                };
            &&& m.screen == Screen::Title ==> moved(m.title_cursor, m2.title_cursor)
            &&& m.screen == Screen::ModeSelect ==> moved(m.mode_cursor, m2.mode_cursor) && m2.selected_mode == (
            if m2.mode_cursor == 0 {
                PlayMode::Normal
            } else {
                PlayMode::TimeAttack
            })
            &&& m.screen == Screen::Result ==> moved(m.result_cursor, m2.result_cursor)
        }),
{
}

/// On the difficulty screen the down key moves to the next harder difficulty and the up key to
/// the next easier one, stopping at the ends (down is taken before up).
pub proof fn lemma_difficulty_moves(m: Menu, keys: MenuKeys)
    requires
        m.screen == Screen::DifficultySelect,
    ensures
        ({
            let i = difficulty_index(m.selected_difficulty);
            let i1 = if keys.down {
                if i < 2 {
                    i + 1
                } else {
                    2
                }
            } else {
                i
            };
            let i2 = if keys.up {
                if i1 > 0 {
                    i1 - 1
                } else {
                    0
                }
            } else {
                i1
            };
            &&& difficulty_index(frame(m, keys).0.selected_difficulty) == i2
            &&& i2 == 0 ==> frame(m, keys).0.selected_difficulty == Difficulty::Easy
            &&& i2 == 1 ==> frame(m, keys).0.selected_difficulty == Difficulty::Normal
            &&& i2 == 2 ==> frame(m, keys).0.selected_difficulty == Difficulty::Hard
        }),
{
}

/// The place of a screen on the way into a game and out of it.
pub open spec fn screen_step(s: Screen) -> int {
    match s {
        Screen::Title => 0,
        Screen::ModeSelect => 1,
        Screen::DifficultySelect => 2,
        Screen::Ready => 3,
        Screen::Countdown => 4,
        Screen::Playing => 5,
        Screen::Result => 6,
    }
}

/// On the mode, difficulty and ready screens a back key (left, quit, escape) goes one screen back
/// toward the title, confirm alone goes one screen on (from the ready screen, to the countdown,
/// which starts), and other keys stay. On the title screen confirm on the first entry goes on to
/// the mode screen, and on the second entry, or with quit or escape, closes the application.
pub proof fn lemma_menu_steps(m: Menu, keys: MenuKeys)
    ensures
        ({
            let (m2, act) = frame(m, keys);
            let back = keys.left || keys.quit || keys.escape;
            &&& (m.screen == Screen::ModeSelect || m.screen == Screen::DifficultySelect || m.screen
                == Screen::Ready) ==> screen_step(m2.screen) == screen_step(m.screen) + if back {
                -1int
            } else if keys.confirm {
                1int
            } else {
                0int
            }
            &&& m.screen == Screen::Ready ==> act.start_countdown == keys.confirm
            &&& m.screen == Screen::Title ==> (m2.screen == Screen::ModeSelect <==> keys.confirm && m2.title_cursor
                == 0)
            &&& m.screen == Screen::Title ==> (act.close_app <==> (keys.confirm && m2.title_cursor != 0)
                || keys.quit || keys.escape)
        }),
{
}

/// A two-entry cursor after the frame's keys.
fn move_two_way(cursor: usize, keys: MenuKeys) -> (r: usize)
    ensures
        r == two_way(cursor, keys),
{
    let mut c = cursor;
    if keys.down {
        c = if c < 1 {
            c + 1
        } else {
            1
        };
    }
    if keys.up {
        c = if c >= 1 {
            c - 1
        } else {
            0
        };
    }
    c
}

impl Menu {
    /// The title screen, with the first entries selected, the normal mode and `difficulty`.
    pub fn new(difficulty: Difficulty) -> (m: Menu)
        ensures
            m == (Menu {
                screen: Screen::Title,
                title_cursor: 0,
                mode_cursor: 0,
                selected_mode: PlayMode::Normal,
                selected_difficulty: difficulty,
                result_cursor: 0,
            }),
    {
        Menu {
            screen: Screen::Title,
            title_cursor: 0,
            mode_cursor: 0,
            selected_mode: PlayMode::Normal,
            selected_difficulty: difficulty,
            result_cursor: 0,
        }
    }

    /// Handles one frame's keys (see [`frame`]).
    pub fn handle_frame(&mut self, keys: MenuKeys) -> (r: MenuActions)
        ensures
            (*final(self), r) == frame(*old(self), keys),
    {
        let mut actions = MenuActions { close_app: false, start_countdown: false, abandon_game: false };
        match self.screen {
            Screen::Title => {
                self.title_cursor = move_two_way(self.title_cursor, keys);
                if keys.confirm {
                    if self.title_cursor == 0 {
                        self.screen = Screen::ModeSelect;
                    } else {
                        actions.close_app = true;
                    }
                }
                if keys.quit || keys.escape {
                    actions.close_app = true;
                }
            },
            Screen::ModeSelect => {
                self.mode_cursor = move_two_way(self.mode_cursor, keys);
                self.selected_mode = if self.mode_cursor == 0 {
                    PlayMode::Normal
                } else {
                    PlayMode::TimeAttack
                };
                if keys.confirm {
                    self.screen = Screen::DifficultySelect;
                }
                if keys.left || keys.quit || keys.escape {
                    self.screen = Screen::Title;
                }
            },
            Screen::DifficultySelect => {
                let mut current_idx: usize = match self.selected_difficulty {
                    Difficulty::Easy => 0,
                    Difficulty::Normal => 1,
                    Difficulty::Hard => 2,
                };
                if keys.down {
                    current_idx = if current_idx + 1 <= 2 {
                        current_idx + 1
                    } else {
                        2
                    };
                    self.selected_difficulty = difficulty_of_index(current_idx);
                }
                if keys.up {
                    current_idx = if current_idx >= 1 {
                        current_idx - 1
                    } else {
                        0
                    };
                    self.selected_difficulty = difficulty_of_index(current_idx);
                }
                if keys.confirm {
                    self.screen = Screen::Ready;
                }
                if keys.left || keys.quit || keys.escape {
                    self.screen = Screen::ModeSelect;
                }
            },
            Screen::Ready => {
                if keys.confirm {
                    actions.start_countdown = true;
                    self.screen = Screen::Countdown;
                }
                if keys.left || keys.quit || keys.escape {
                    self.screen = Screen::DifficultySelect;
                }
            },
            Screen::Countdown => {},
            Screen::Playing => {
                if keys.escape {
                    self.screen = Screen::Title;
                    actions.abandon_game = true;
                } else if keys.retry {
                    actions.start_countdown = true;
                    self.screen = Screen::Countdown;
                }
            },
            Screen::Result => {
                self.result_cursor = move_two_way(self.result_cursor, keys);
                if keys.confirm {
                    if self.result_cursor == 0 {
                        self.screen = Screen::Ready;
                    } else {
                        self.screen = Screen::Title;
                        actions.abandon_game = true;
                    }
                }
                if keys.left || keys.quit || keys.escape {
                    self.screen = Screen::Title;
                    actions.abandon_game = true;
                }
            },
        }
        actions
    }
}

/// A button clicked on a menu screen.
#[derive(Debug, Clone, Copy, PartialEq, Eq, Structural)]
pub enum MenuButton {
    /// "開始" on the title screen.
    Start,
    /// "終了" on the title screen.
    Exit,
    /// A mode on the mode screen.
    Mode(PlayMode),
    /// A difficulty on the difficulty screen.
    Level(Difficulty),
    /// "次へ進む" on the mode and difficulty screens.
    Next,
    /// The back button of the mode, difficulty and ready screens.
    Back,
    /// "もう一度遊ぶ" on the result screen.
    PlayAgain,
    /// "タイトルに戻る" on the result screen.
    ToTitle,
}

/// The mode cursor's entry for a mode.
pub open spec fn mode_cursor_of(mode: PlayMode) -> usize {
    match mode {
        PlayMode::Normal => 0,
        PlayMode::TimeAttack => 1,
    }
}

/// The menus after a click on `b` on the screen shown, and the actions required; a button of
/// another screen changes nothing.
pub open spec fn click(m: Menu, b: MenuButton) -> (Menu, MenuActions) {
    match (m.screen, b) {
        (Screen::Title, MenuButton::Start) => (
            Menu { title_cursor: 0, screen: Screen::ModeSelect, ..m },
            no_actions(),
        ),
        (Screen::Title, MenuButton::Exit) => (
            Menu { title_cursor: 1, ..m },
            MenuActions { close_app: true, ..no_actions() },
        ),
        (Screen::ModeSelect, MenuButton::Mode(mode)) => (
            Menu { mode_cursor: mode_cursor_of(mode), selected_mode: mode, ..m },
            no_actions(),
        ),
        (Screen::ModeSelect, MenuButton::Next) => (Menu { screen: Screen::DifficultySelect, ..m }, no_actions()),
        (Screen::ModeSelect, MenuButton::Back) => (Menu { screen: Screen::Title, ..m }, no_actions()),
        (Screen::DifficultySelect, MenuButton::Level(d)) => (Menu { selected_difficulty: d, ..m }, no_actions()),
        (Screen::DifficultySelect, MenuButton::Next) => (Menu { screen: Screen::Ready, ..m }, no_actions()),
        (Screen::DifficultySelect, MenuButton::Back) => (
            Menu { screen: Screen::ModeSelect, ..m },
            no_actions(),
        ),
        (Screen::Ready, MenuButton::Back) => (Menu { screen: Screen::DifficultySelect, ..m }, no_actions()),
        (Screen::Result, MenuButton::PlayAgain) => (
            Menu { result_cursor: 0, screen: Screen::Ready, ..m },
            no_actions(),
        ),
        (Screen::Result, MenuButton::ToTitle) => (
            Menu { result_cursor: 1, screen: Screen::Title, ..m },
            MenuActions { abandon_game: true, ..no_actions() },
        ),
        _ => (m, no_actions()),
    }
}

impl Menu {
    /// Handles a click on a button (see [`click`]).
    pub fn handle_click(&mut self, b: MenuButton) -> (r: MenuActions)
        ensures
            (*final(self), r) == click(*old(self), b),
    {
        let mut actions = MenuActions { close_app: false, start_countdown: false, abandon_game: false };
        match (self.screen, b) {
            (Screen::Title, MenuButton::Start) => {
                self.title_cursor = 0;
                self.screen = Screen::ModeSelect;
            },
            (Screen::Title, MenuButton::Exit) => {
                self.title_cursor = 1;
                actions.close_app = true;
            },
            (Screen::ModeSelect, MenuButton::Mode(mode)) => {
                self.mode_cursor = match mode {
                    PlayMode::Normal => 0,
                    PlayMode::TimeAttack => 1,
                };
                self.selected_mode = mode;
            },
            (Screen::ModeSelect, MenuButton::Next) => {
                self.screen = Screen::DifficultySelect;
            },
            (Screen::ModeSelect, MenuButton::Back) => {
                self.screen = Screen::Title;
            },
            (Screen::DifficultySelect, MenuButton::Level(d)) => {
                self.selected_difficulty = d;
            },
            (Screen::DifficultySelect, MenuButton::Next) => {
                self.screen = Screen::Ready;
            },
            (Screen::DifficultySelect, MenuButton::Back) => {
                self.screen = Screen::ModeSelect;
            },
            (Screen::Ready, MenuButton::Back) => {
                self.screen = Screen::DifficultySelect;
            },
            (Screen::Result, MenuButton::PlayAgain) => {
                self.result_cursor = 0;
                self.screen = Screen::Ready;
            },
            (Screen::Result, MenuButton::ToTitle) => {
                self.result_cursor = 1;
                self.screen = Screen::Title;
                actions.abandon_game = true;
            },
            _ => {},
        }
        actions
    }

    /// The countdown has ended and the game has started: the play screen is shown.
    pub fn begin_play(&mut self)
        ensures
            *final(self) == (Menu { screen: Screen::Playing, ..*old(self) }),
    {
        self.screen = Screen::Playing;
    }

    /// The countdown has no start time: back to the ready screen.
    pub fn cancel_countdown(&mut self)
        ensures
            *final(self) == (Menu { screen: Screen::Ready, ..*old(self) }),
    {
        self.screen = Screen::Ready;
    }

    /// After the game being played has changed: when it is over, the result screen is shown
    /// with its first entry selected; otherwise nothing changes.
    pub fn after_play(&mut self, game_over: bool)
        ensures
            game_over ==> *final(self) == (Menu { screen: Screen::Result, result_cursor: 0, ..*old(self) }),
            !game_over ==> *final(self) == *old(self),
    {
        if game_over {
            self.result_cursor = 0;
            self.screen = Screen::Result;
        }
    }
}

/// The difficulty at a position in the list (0 to 2).
fn difficulty_of_index(i: usize) -> (d: Difficulty)
    requires
        i <= 2,
    ensures
        d == difficulty_at(i as int),
{
    if i == 0 {
        Difficulty::Easy
    } else if i == 1 {
        Difficulty::Normal
    } else {
        Difficulty::Hard
    }
}

/// The key a typed character stands for: line breaks, tabs and other control characters are
/// ignored, and the full-width space counts as a space.
pub open spec fn typed_key_spec(c: char) -> Option<char> {
    if c == '\n' || c == '\r' || c == '\t' || (c as u32) < 0x20 || c as u32 == 0x7F {
        None
    } else if c == '　' {
        Some(' ')
    } else {
        Some(c)
    }
}

/// The key a typed character stands for (see [`typed_key_spec`]).
pub fn typed_key(c: char) -> (r: Option<char>)
    ensures
        r == typed_key_spec(c),
{
    if c == '\n' || c == '\r' || c == '\t' || (c as u32) < 0x20 || c as u32 == 0x7F {
        None
    } else if c == '　' {
        Some(' ')
    } else {
        Some(c)
    }
}

} // verus!
