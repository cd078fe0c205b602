use tetris::bag::{refill_bag, spawn_from_bag, spawn_piece, PieceBag, SpawnOutcome};
use tetris::board::Board;
use tetris::display::{board_visible, visible_cells};
use tetris::game::{CurrentPiece, GameAction};
use tetris::input::{
    held_key_step, is_arrow, key_event, repeat_after_tick, AppMode, Key, KeyEvent, INITIAL_REPEAT_DELAY_MS,
    REPEAT_INTERVAL_MS,
};
use tetris::piece::PieceType;

fn press(key: Key) -> KeyEvent {
    KeyEvent { key, pressed: true, repeated: false, text: None }
}

#[test]
fn default_bag_is_empty() {
    assert!(PieceBag::default().pieces.is_empty());
}

#[test]
fn refill_holds_each_kind_once() {
    let mut bag = PieceBag::default();
    refill_bag(&mut bag);
    assert_eq!(bag.pieces.len(), 7);
    for t in PieceType::all() {
        assert_eq!(bag.pieces.iter().filter(|p| **p == t).count(), 1);
    }
    let kept = bag.pieces.clone();
    refill_bag(&mut bag);
    assert_eq!(bag.pieces, kept);
}

#[test]
fn seven_spawns_deal_each_kind_once() {
    let board = Board::default();
    let mut bag = PieceBag::default();
    let mut seen = Vec::new();
    for _ in 0..7 {
        match spawn_piece(&mut bag, &board, false) {
            SpawnOutcome::Spawned(p) => {
                assert_eq!((p.x, p.y, p.rotation), (3, 16, 0));
                seen.push(p.piece_type);
            }
            other => panic!("unexpected {:?}", other),
        }
    }
    assert!(bag.pieces.is_empty());
    for t in PieceType::all() {
        assert_eq!(seen.iter().filter(|p| **p == t).count(), 1);
    }
}

#[test]
fn no_spawn_while_a_piece_falls() {
    let board = Board::default();
    let mut bag = PieceBag { pieces: vec![PieceType::T] };
    assert_eq!(spawn_piece(&mut bag, &board, true), SpawnOutcome::NoSpawn);
    assert_eq!(bag.pieces, vec![PieceType::T]);
}

#[test]
fn blocked_spawn_ends_the_game() {
    let mut board = Board::default();
    board.grid[17][4] = Some(PieceType::L);
    let mut bag = PieceBag { pieces: vec![PieceType::I, PieceType::O] };
    assert_eq!(spawn_from_bag(&mut bag, &board), SpawnOutcome::GameOver);
    assert_eq!(bag.pieces, vec![PieceType::I]);
    let mut empty = PieceBag::default();
    assert_eq!(spawn_from_bag(&mut empty, &board), SpawnOutcome::NoSpawn);
}

#[test]
fn playing_keys() {
    let mut held = None;
    let r = key_event(AppMode::Playing, &mut held, &press(Key::ArrowLeft));
    assert_eq!(r.actions, vec![GameAction::MoveLeft]);
    assert_eq!(held, Some(Key::ArrowLeft));
    assert_eq!(r.restart_timer_ms, Some(INITIAL_REPEAT_DELAY_MS));
    assert_eq!(INITIAL_REPEAT_DELAY_MS, 200);
    assert!(!r.stop && !r.exit);
    let r = key_event(AppMode::Playing, &mut held, &press(Key::KeyZ));
    assert_eq!(r.actions, vec![GameAction::Rotate]);
    assert_eq!(key_event(AppMode::Playing, &mut held, &press(Key::ArrowUp)).actions, vec![GameAction::Rotate]);
    assert_eq!(key_event(AppMode::Playing, &mut held, &press(Key::ArrowDown)).actions, vec![GameAction::MoveDown]);
    assert_eq!(key_event(AppMode::Playing, &mut held, &press(Key::KeyP)).actions, vec![GameAction::Pause]);
    assert!(key_event(AppMode::Playing, &mut held, &press(Key::Enter)).actions.is_empty());
    assert_eq!(held, Some(Key::ArrowLeft));
    let release = KeyEvent { key: Key::ArrowLeft, pressed: false, repeated: false, text: None };
    let r = key_event(AppMode::Playing, &mut held, &release);
    assert!(r.actions.is_empty());
    assert_eq!(held, None);
}

#[test]
fn repeats_are_ignored() {
    let mut held = None;
    let ev = KeyEvent { key: Key::ArrowRight, pressed: true, repeated: true, text: None };
    let r = key_event(AppMode::Playing, &mut held, &ev);
    assert!(r.actions.is_empty());
    assert_eq!(held, None);
    assert_eq!(r.restart_timer_ms, None);
}

#[test]
fn quit_key() {
    let mut held = None;
    let r = key_event(AppMode::HighScore, &mut held, &press(Key::KeyQ));
    assert!(r.exit && r.stop && r.actions.is_empty());
    let r = key_event(AppMode::Paused, &mut held, &press(Key::KeyQ));
    assert!(!r.exit && r.stop);
    assert_eq!(r.actions, vec![GameAction::ReturnToMenu]);
}

#[test]
fn menu_pause_and_naming_keys() {
    let mut held = None;
    assert_eq!(key_event(AppMode::HighScore, &mut held, &press(Key::Enter)).actions, vec![GameAction::StartGame]);
    assert_eq!(key_event(AppMode::HighScore, &mut held, &press(Key::ArrowUp)).actions, vec![GameAction::StartGame]);
    assert!(key_event(AppMode::HighScore, &mut held, &press(Key::KeyP)).actions.is_empty());
    assert_eq!(key_event(AppMode::Paused, &mut held, &press(Key::ArrowLeft)).actions, vec![GameAction::Resume]);
    assert_eq!(held, None);
    assert!(key_event(AppMode::Paused, &mut held, &press(Key::Enter)).actions.is_empty());
    assert_eq!(key_event(AppMode::Naming, &mut held, &press(Key::Enter)).actions, vec![GameAction::SubmitName]);
    assert_eq!(key_event(AppMode::Naming, &mut held, &press(Key::Backspace)).actions, vec![GameAction::Backspace]);
    let typed = KeyEvent { key: Key::Other, pressed: true, repeated: false, text: Some(vec!['a', '\u{7}', 'B', '\u{9f}', 'é']) };
    assert_eq!(
        key_event(AppMode::Naming, &mut held, &typed).actions,
        vec![GameAction::KeyPressed('a'), GameAction::KeyPressed('B'), GameAction::KeyPressed('é')]
    );
}

#[test]
fn held_key_repeat() {
    let mut held = Some(Key::ArrowRight);
    assert!(held_key_step(AppMode::Playing, &mut held, true));
    assert_eq!(held, Some(Key::ArrowRight));
    assert!(!held_key_step(AppMode::Paused, &mut held, false));
    assert_eq!(held, Some(Key::ArrowRight));
    assert!(!held_key_step(AppMode::Playing, &mut held, false));
    assert_eq!(held, None);
    assert_eq!(repeat_after_tick(Key::ArrowLeft, true), Some((GameAction::MoveLeft, REPEAT_INTERVAL_MS)));
    assert_eq!(repeat_after_tick(Key::ArrowRight, true), Some((GameAction::MoveRight, 50)));
    assert_eq!(repeat_after_tick(Key::ArrowRight, false), None);
    assert!(is_arrow(Key::ArrowDown) && !is_arrow(Key::Enter));
}

#[test]
fn visible_cells_inside_the_field() {
    let p = CurrentPiece { piece_type: PieceType::I, x: 0, y: 18, rotation: 1 };
    assert_eq!(visible_cells(&p), vec![(2, 18), (2, 19)]);
    let q = CurrentPiece { piece_type: PieceType::O, x: -1, y: 3, rotation: 0 };
    assert_eq!(visible_cells(&q), vec![(0, 4), (1, 4), (0, 5), (1, 5)]);
    assert!(board_visible(AppMode::Playing) && board_visible(AppMode::Paused));
    assert!(!board_visible(AppMode::Naming) && !board_visible(AppMode::HighScore));
}

#[test]
fn refills_come_in_varying_orders() {
    let mut orders = Vec::new();
    for _ in 0..20 {
        let mut bag = PieceBag::default();
        refill_bag(&mut bag);
        orders.push(bag.pieces);
    }
    assert!(orders.iter().any(|o| *o != PieceType::all()));
}

#[test]
fn three_rounds_of_seven() {
    let board = Board::default();
    let mut bag = PieceBag::default();
    let mut dealt = Vec::new();
    for _ in 0..21 {
        match spawn_piece(&mut bag, &board, false) {
            SpawnOutcome::Spawned(p) => dealt.push(p.piece_type),
            other => panic!("unexpected {:?}", other),
        }
    }
    for group in dealt.chunks(7) {
        for t in PieceType::all() {
            assert_eq!(group.iter().filter(|p| **p == t).count(), 1);
        }
    }
}
