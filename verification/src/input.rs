use vstd::prelude::*;

use crate::game::GameAction;

verus! {

/// The screen the game is on.
#[derive(Debug, Clone, Copy, PartialEq, Eq, Structural)]
pub enum AppMode {
    Playing,
    Paused,
    Naming,
    HighScore,
}

/// The keys the game tells apart; every other key is `Other`.
#[derive(Debug, Clone, Copy, PartialEq, Eq, Structural)]
pub enum Key {
    ArrowUp,
    ArrowDown,
    ArrowLeft,
    ArrowRight,
    Enter,
    Backspace,
    KeyQ,
    KeyP,
    KeyZ,
    Other,
}

/// One keyboard event. `repeated` marks a press of a key that was already
/// held down before this frame (an auto-repeat of the system); `text` holds
/// the characters the key types, when it types any.
pub struct KeyEvent {
    pub key: Key,
    pub pressed: bool,
    pub repeated: bool,
    pub text: Option<Vec<char>>,
}

/// What one keyboard event asks for: the actions to send, whether to quit
/// the program, whether to stop handling input for this frame, and, when
/// the held-key timer must restart, the delay in milliseconds it restarts
/// with.
pub struct KeyResponse {
    pub actions: Vec<GameAction>,
    pub exit: bool,
    pub stop: bool,
    pub restart_timer_ms: Option<u32>,
}

/// Delay before a held arrow key first repeats its move.
pub const INITIAL_REPEAT_DELAY_MS: u32 = 200;

/// Delay between the later repeats of a held arrow key.
pub const REPEAT_INTERVAL_MS: u32 = 50;

/// Whether `key` is one of the four arrow keys.
pub open spec fn arrow(key: Key) -> bool {
    key == Key::ArrowUp || key == Key::ArrowDown || key == Key::ArrowLeft || key == Key::ArrowRight
}

/// Whether `c` is a control character: Unicode general category Cc, that
/// is U+0000..=U+001F and U+007F..=U+009F.
pub open spec fn control_char(c: char) -> bool {
    (c as int) <= 0x1f || (0x7f <= (c as int) && (c as int) <= 0x9f)
}

/// Whether `c` is a control character, the test that `char::is_control`
/// makes (general category Cc).
fn char_is_control(c: char) -> (r: bool)
    ensures
        r == control_char(c),
{
    let u = c as u32;
    u <= 0x1f || (0x7f <= u && u <= 0x9f)
}

/// One `KeyPressed` action for each typed character that is not a control
/// character, in order.
pub open spec fn typed_actions(text: Seq<char>) -> Seq<GameAction>
    decreases text.len(),
{
    if text.len() == 0 {
        seq![]
    } else {
        let earlier = typed_actions(text.drop_last());
        if control_char(text.last()) {
            earlier
        } else {
            earlier.push(GameAction::KeyPressed(text.last()))
        }
    }
}

/// Whether the event is a fresh press (not a release, not a repeat).
pub open spec fn fresh_press(ev: KeyEvent) -> bool {
    ev.pressed && !ev.repeated
}

/// The actions a fresh press of `key` (typing `text`) sends on screen
/// `mode`. `Q` quits from the high-score screen and otherwise returns to
/// the menu.
pub open spec fn press_actions(mode: AppMode, key: Key, text: Option<Seq<char>>) -> Seq<GameAction> {
    if key == Key::KeyQ {
        if mode == AppMode::HighScore { seq![] } else { seq![GameAction::ReturnToMenu] }
    } else {
        match mode {
            AppMode::HighScore => if arrow(key) || key == Key::Enter { seq![GameAction::StartGame] } else { seq![] },
            AppMode::Naming => if key == Key::Enter {
                seq![GameAction::SubmitName]
            } else if key == Key::Backspace {
                seq![GameAction::Backspace]
            } else {
                match text {
                    Some(t) => typed_actions(t),
                    None => seq![],
                }
            },
            AppMode::Paused => if arrow(key) { seq![GameAction::Resume] } else { seq![] },
            AppMode::Playing => match key {
                Key::KeyP => seq![GameAction::Pause],
                Key::ArrowDown => seq![GameAction::MoveDown],
                Key::ArrowUp => seq![GameAction::Rotate],
                Key::KeyZ => seq![GameAction::Rotate],
                Key::ArrowLeft => seq![GameAction::MoveLeft],
                Key::ArrowRight => seq![GameAction::MoveRight],
                _ => seq![],
            },
        }
    }
}

/// The text of the event as a sequence of characters.
pub open spec fn text_view(text: Option<Vec<char>>) -> Option<Seq<char>> {
    match text {
        Some(t) => Some(t@),
        None => None,
    }
}

/// No held key, or a held side arrow.
pub open spec fn held_key_ok(movement: Option<Key>) -> bool {
    movement is None || movement == Some(Key::ArrowLeft) || movement == Some(Key::ArrowRight)
}

/// Whether the event is a fresh press of a side arrow while playing, which
/// starts the held-key repeat.
pub open spec fn starts_repeat(mode: AppMode, ev: KeyEvent) -> bool {
    fresh_press(ev) && mode == AppMode::Playing && (ev.key == Key::ArrowLeft || ev.key == Key::ArrowRight)
}

/// Whether `key` is one of the four arrow keys.
pub fn is_arrow(key: Key) -> (r: bool)
    ensures
        r == arrow(key),
{
    match key {
        Key::ArrowUp | Key::ArrowDown | Key::ArrowLeft | Key::ArrowRight => true,
        _ => false,
    }
}

/// The `KeyPressed` actions for the typed characters.
fn typed_key_actions(text: &Vec<char>) -> (actions: Vec<GameAction>)
    ensures
        actions@ == typed_actions(text@),
{
    let mut actions: Vec<GameAction> = Vec::new();
    let mut i: usize = 0;
    proof {
        assert(text@.take(0) =~= Seq::<char>::empty());
    }
    while i < text.len()
        invariant
            i <= text.len(),
            actions@ == typed_actions(text@.take(i as int)),
        decreases text.len() - i,
    {
        let ch = text[i];
        proof {
            assert(text@.take(i + 1).drop_last() =~= text@.take(i as int));
            assert(text@.take(i + 1).last() == ch);
        }
        if !char_is_control(ch) {
            actions.push(GameAction::KeyPressed(ch));
        }
        i = i + 1;
    }
    proof {
        assert(text@.take(text@.len() as int) =~= text@);
    }
    actions
}

/// Decides what one keyboard event does on screen `mode`, and updates the
/// held side-arrow `movement`. Repeats of the system are ignored. A fresh
/// press sends the actions of `press_actions`; `Q` also stops the input
/// handling for this frame, and quits from the high-score screen. While
/// playing, a fresh press of a side arrow becomes the held key and restarts
/// its timer with the initial delay, and releasing the held key clears it.
pub fn key_event(mode: AppMode, movement: &mut Option<Key>, ev: &KeyEvent) -> (resp: KeyResponse)
    ensures
        resp.actions@ == (if fresh_press(*ev) { press_actions(mode, ev.key, text_view(ev.text)) } else { seq![] }),
        resp.stop == (fresh_press(*ev) && ev.key == Key::KeyQ),
        resp.exit == (fresh_press(*ev) && ev.key == Key::KeyQ && mode == AppMode::HighScore),
        resp.restart_timer_ms == (if starts_repeat(mode, *ev) { Some(INITIAL_REPEAT_DELAY_MS) } else { None::<u32> }),
        *final(movement) == (if starts_repeat(mode, *ev) {
            Some(ev.key)
        } else if !ev.pressed && mode == AppMode::Playing && *old(movement) == Some(ev.key) {
            None
        } else {
            *old(movement)
        }),
        held_key_ok(*old(movement)) ==> held_key_ok(*final(movement)),
{
    let mut resp = KeyResponse { actions: Vec::new(), exit: false, stop: false, restart_timer_ms: None };
    if ev.pressed {
        if ev.repeated {
            return resp;
        }
        if ev.key == Key::KeyQ {
            if mode == AppMode::HighScore {
                resp.exit = true;
            } else {
                resp.actions.push(GameAction::ReturnToMenu);
            }
            resp.stop = true;
            return resp;
        }
        match mode {
            AppMode::HighScore => {
                if is_arrow(ev.key) || ev.key == Key::Enter {
                    resp.actions.push(GameAction::StartGame);
                }
            },
            AppMode::Naming => {
                if ev.key == Key::Enter {
                    resp.actions.push(GameAction::SubmitName);
                } else if ev.key == Key::Backspace {
                    resp.actions.push(GameAction::Backspace);
                } else {
                    match &ev.text {
                        Some(t) => {
                            resp.actions = typed_key_actions(t);
                        },
                        None => {},
                    }
                }
            },
            AppMode::Paused => {
                if is_arrow(ev.key) {
                    resp.actions.push(GameAction::Resume);
                }
            },
            AppMode::Playing => {
                match ev.key {
                    Key::KeyP => {
                        resp.actions.push(GameAction::Pause);
                    },
                    Key::ArrowDown => {
                        resp.actions.push(GameAction::MoveDown);
                    },
                    Key::ArrowUp | Key::KeyZ => {
                        resp.actions.push(GameAction::Rotate);
                    },
                    Key::ArrowLeft => {
                        resp.actions.push(GameAction::MoveLeft);
                        *movement = Some(Key::ArrowLeft);
                        resp.restart_timer_ms = Some(INITIAL_REPEAT_DELAY_MS);
                    },
                    Key::ArrowRight => {
                        resp.actions.push(GameAction::MoveRight);
                        *movement = Some(Key::ArrowRight);
                        resp.restart_timer_ms = Some(INITIAL_REPEAT_DELAY_MS);
                    },
                    _ => {},
                }
            },
        }
    } else {
        if mode == AppMode::Playing {
            if *movement == Some(ev.key) {
                *movement = None;
            }
        }
    }
    resp
}

/// The held-key step after the events of a frame: while playing with a
/// held side arrow, the repeat timer is to tick when the key is still held
/// down (the result is `true`), and the held key is forgotten when it is
/// not. Otherwise nothing happens.
pub fn held_key_step(mode: AppMode, movement: &mut Option<Key>, held: bool) -> (tick: bool)
    ensures
        tick == (mode == AppMode::Playing && old(movement).is_some() && held),
        *final(movement) == (if mode == AppMode::Playing && old(movement).is_some() && !held { None } else { *old(movement) }),
        held_key_ok(*old(movement)) ==> held_key_ok(*final(movement)),
{
    if mode == AppMode::Playing {
        if movement.is_some() {
            if held {
                return true;
            } else {
                *movement = None;
            }
        }
    }
    false
}

/// The repeat of a held side arrow after its timer ticked: when the timer
/// just finished, the arrow's move is sent again and the timer restarts
/// with the repeat interval.
pub fn repeat_after_tick(key: Key, finished: bool) -> (r: Option<(GameAction, u32)>)
    ensures
        !finished ==> r is None,
        finished ==> r == Some((if key == Key::ArrowLeft { GameAction::MoveLeft } else { GameAction::MoveRight }, REPEAT_INTERVAL_MS)),
{
    if finished {
        let action = if key == Key::ArrowLeft { GameAction::MoveLeft } else { GameAction::MoveRight };
        Some((action, REPEAT_INTERVAL_MS))
    } else {
        None
    }
}


/// While playing, a fresh press of a side arrow sends exactly the move in
/// that arrow's direction, the same move its held-key repeat sends; the
/// other arrows drop or turn the piece.
pub proof fn lemma_playing_arrows(text: Option<Seq<char>>)
    ensures
        press_actions(AppMode::Playing, Key::ArrowLeft, text) == seq![GameAction::MoveLeft],
        press_actions(AppMode::Playing, Key::ArrowRight, text) == seq![GameAction::MoveRight],
        press_actions(AppMode::Playing, Key::ArrowDown, text) == seq![GameAction::MoveDown],
        press_actions(AppMode::Playing, Key::ArrowUp, text) == seq![GameAction::Rotate],
{
}


/// What the other fresh presses mean: `Q` returns to the menu except on
/// the high-score screen; on the high-score screen an arrow or Enter starts
/// a game; while paused an arrow resumes; while naming, Enter submits the
/// name, Backspace erases, and `P` or `Z` pressed while paused or on the
/// high-score screen does nothing.
pub proof fn lemma_key_meanings(key: Key, text: Option<Seq<char>>)
    ensures
        press_actions(AppMode::Playing, Key::KeyQ, text) == seq![GameAction::ReturnToMenu],
        press_actions(AppMode::Paused, Key::KeyQ, text) == seq![GameAction::ReturnToMenu],
        press_actions(AppMode::Naming, Key::KeyQ, text) == seq![GameAction::ReturnToMenu],
        press_actions(AppMode::HighScore, Key::KeyQ, text) == Seq::<GameAction>::empty(),
        press_actions(AppMode::Playing, Key::KeyP, text) == seq![GameAction::Pause],
        press_actions(AppMode::Playing, Key::KeyZ, text) == seq![GameAction::Rotate],
        (key == Key::ArrowUp || key == Key::ArrowDown || key == Key::ArrowLeft || key == Key::ArrowRight || key == Key::Enter)
            ==> press_actions(AppMode::HighScore, key, text) == seq![GameAction::StartGame],
        (key == Key::ArrowUp || key == Key::ArrowDown || key == Key::ArrowLeft || key == Key::ArrowRight)
            ==> press_actions(AppMode::Paused, key, text) == seq![GameAction::Resume],
        press_actions(AppMode::Paused, Key::Enter, text) == Seq::<GameAction>::empty(),
        press_actions(AppMode::Paused, Key::KeyP, text) == Seq::<GameAction>::empty(),
        press_actions(AppMode::HighScore, Key::KeyP, text) == Seq::<GameAction>::empty(),
        press_actions(AppMode::Naming, Key::Enter, text) == seq![GameAction::SubmitName],
        press_actions(AppMode::Naming, Key::Backspace, text) == seq![GameAction::Backspace],
{
}

} // verus!
