use game_of_life::gol::GoL;
use game_of_life::state::{ButtonState, Buttons, GameState, InputEvent, Tick};
use game_of_life::worker::handle;
use std::sync::mpsc::sync_channel;

#[test]
fn button_state_marks_repeats_seen() {
    let s = ButtonState::new(true, false);
    assert!(s.down && !s.seen);
    let s = ButtonState::new(true, true);
    assert!(s.down && s.seen);
    let s = ButtonState::new(false, true);
    assert!(!s.down && !s.seen);
}

#[test]
fn press_is_reported_once() {
    let (tx, _rx) = sync_channel::<Tick>(2);
    let mut state = GameState::new(tx);
    state.consume_event(InputEvent::Key { code: 17, down: true });
    assert!(state.key_down(17));
    assert!(state.key_pressed(17));
    assert!(!state.key_pressed(17));
    assert!(!state.key_pressed(17));
    state.consume_event(InputEvent::Key { code: 17, down: false });
    assert!(!state.key_down(17));
    state.consume_event(InputEvent::Key { code: 17, down: true });
    assert!(state.key_pressed(17));
    assert!(!state.key_pressed(17));
    assert!(!state.key_pressed(18));
}

#[test]
fn mouse_buttons_are_separate_from_keys() {
    let mut b = Buttons::new();
    assert!(!b.down(1));
    b.record(1, true);
    b.record(1, true);
    assert!(!b.pressed(1));
    let (tx, _rx) = sync_channel::<Tick>(2);
    let mut state = GameState::new(tx);
    state.consume_event(InputEvent::Mouse { code: 1, down: true });
    assert!(state.mouse_down(1));
    assert!(!state.key_down(1));
    assert!(state.mouse_pressed(1));
    assert!(!state.mouse_pressed(1));
    assert!(!state.key_pressed(1));
}

#[test]
fn full_channel_drops_ticks() {
    let (tx, rx) = sync_channel::<Tick>(2);
    let mut state = GameState::new(tx);
    let accepted: Vec<bool> = (0..5).map(|_| state.tick()).collect();
    assert_eq!(accepted, vec![true, true, false, false, false]);
    assert_eq!(state.tick_count, 2);
    assert!(matches!(rx.try_recv(), Ok(Tick::Continue)));
    assert!(matches!(rx.try_recv(), Ok(Tick::Continue)));
    assert!(rx.try_recv().is_err());
}

#[test]
fn frame_catches_up_on_due_ticks() {
    let (tx, _rx) = sync_channel::<Tick>(10);
    let mut state = GameState::new(tx);
    state.frame(2500, false);
    assert_eq!(state.time_ms, 2500);
    assert_eq!(state.last_tick_ms, 3000);
    assert_eq!(state.tick_count, 3);
    assert_eq!(state.simulation_time(), 2500);
    state.frame(2900, false);
    assert_eq!(state.tick_count, 3);
    assert_eq!(state.simulation_time(), 2900);
    state.frame(3000, false);
    assert_eq!(state.tick_count, 3);
    state.frame(3001, false);
    assert_eq!(state.tick_count, 4);
    assert_eq!(state.last_tick_ms, 4000);
}

#[test]
fn frame_under_backpressure_counts_only_accepted() {
    let (tx, _rx) = sync_channel::<Tick>(2);
    let mut state = GameState::new(tx);
    state.frame(5000, false);
    assert_eq!(state.last_tick_ms, 5000);
    assert_eq!(state.tick_count, 2);
    assert_eq!(state.simulation_time(), 2000);
}

#[test]
fn paused_frame_sends_nothing_unless_turbo() {
    let (tx, rx) = sync_channel::<Tick>(10);
    let mut state = GameState::new(tx);
    state.running = false;
    state.frame(5000, false);
    assert_eq!(state.tick_count, 0);
    assert_eq!(state.last_tick_ms, 0);
    assert_eq!(state.simulation_time(), 0);
    assert!(rx.try_recv().is_err());
    state.frame(1500, true);
    assert_eq!(state.tick_count, 2);
    assert_eq!(state.simulation_time(), 2000);
    state.running = true;
    assert_eq!(state.simulation_time(), 1500);
}

#[test]
fn interpolation_is_capped_at_one_period() {
    let (tx, _rx) = sync_channel::<Tick>(10);
    let mut state = GameState::new(tx);
    state.running = false;
    state.frame(4500, false);
    state.running = true;
    assert_eq!(state.simulation_time(), 1000);
}

#[test]
fn send_waits_and_delivers() {
    let (tx, rx) = sync_channel::<Tick>(2);
    let mut state = GameState::new(tx);
    assert!(state.send(Tick::Randomize));
    assert!(matches!(rx.try_recv(), Ok(Tick::Randomize)));
    drop(rx);
    assert!(!state.send(Tick::Quit));
}

#[test]
fn worker_handles_each_message() {
    let mut g = GoL::new((5, 5));
    for &(x, y) in &[(1i64, 2i64), (2, 2), (3, 2)] {
        g.set(x, y, 1);
    }
    assert!(handle(&mut g, Tick::Continue));
    assert_eq!(g.get(2, 1), 1);
    assert_eq!(g.get(2, 2), 2);
    assert_eq!(g.get(1, 2), 0);
    let before = g.buffer.clone();
    assert!(!handle(&mut g, Tick::Quit));
    assert_eq!(g.buffer, before);
    assert!(handle(&mut g, Tick::Randomize));
    assert!(g.buffer.iter().all(|&c| c <= 1));
    let mut empty = GoL::new((6, 6));
    assert!(handle(&mut empty, Tick::InsertGlider));
    assert_eq!(empty.buffer.iter().filter(|&&c| c == 1).count(), 5);
}

#[test]
fn close_request_closes_and_other_events_do_nothing() {
    let (tx, _rx) = sync_channel::<Tick>(2);
    let mut state = GameState::new(tx);
    state.consume_event(InputEvent::Other);
    assert!(state.open);
    assert!(!state.key_down(3));
    state.consume_event(InputEvent::CloseRequested);
    assert!(!state.open);
}
