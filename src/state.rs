use std::collections::HashMap;
use std::sync::mpsc::SyncSender;
use vstd::prelude::*;

verus! {

broadcast use vstd::std_specs::hash::group_hash_axioms;

/// Simulated milliseconds per tick: the simulation runs at one tick per
/// second.
pub const TICK_PERIOD_MS: u64 = 1000;

/// Events sent to the GoL simulation thread.
#[derive(PartialEq, Eq, Structural)]
pub enum Tick {
    /// Simulate the next step.
    Continue,
    /// Reset and randomize the simulation.
    Randomize,
    /// Place a glider at a random spot.
    InsertGlider,
    /// Terminate the simulation
    Quit,
}

/// What the window reports that the game state listens to, keys and mouse
/// buttons named by codes.
pub enum InputEvent {
    /// The window was asked to close.
    CloseRequested,
    /// A key went down (or up).
    Key { code: u64, down: bool },
    /// A mouse button went down (or up).
    Mouse { code: u64, down: bool },
    /// Anything else.
    Other,
}

/// The state of one key or mouse button.
#[derive(Clone, Copy, PartialEq, Eq, Structural)]
pub struct ButtonState {
    /// Whether the button/key is pressed.
    pub down: bool,
    /// Whether or not the current element state has been seen.
    pub seen: bool,
}

impl ButtonState {
    /// The state after an event that leaves the button `down` or not, where
    /// `current_down` is whether it was down before. A state that repeats
    /// the previous one counts as already seen.
    pub fn new(down: bool, current_down: bool) -> (r: Self)
        ensures
            r.down == down,
            r.seen == (current_down == down),
    {
        ButtonState { down: down, seen: current_down == down }
    }
}

/// Edge-triggered state of a set of keys or buttons, each named by a code.
pub struct Buttons {
    states: HashMap<u64, ButtonState>,
}

impl View for Buttons {
    type V = Map<u64, ButtonState>;

    closed spec fn view(&self) -> Map<u64, ButtonState> {
        self.states@
    }
}

/// Whether the button `code` is held down in `m`.
pub open spec fn is_down(m: Map<u64, ButtonState>, code: u64) -> bool {
    m.contains_key(code) && m[code].down
}

/// Whether a query on `code` in `m` reports a fresh press.
pub open spec fn fresh_press(m: Map<u64, ButtonState>, code: u64) -> bool {
    m.contains_key(code) && !m[code].seen && m[code].down
}

/// What a query on `code` leaves of `m`: the current state of `code`, if
/// not yet seen, is marked seen.
pub open spec fn after_query(m: Map<u64, ButtonState>, code: u64) -> Map<u64, ButtonState> {
    if m.contains_key(code) && !m[code].seen {
        m.insert(code, ButtonState { down: m[code].down, seen: true })
    } else {
        m
    }
}

/// What an event that leaves `code` down (or up) makes of `m`.
pub open spec fn after_event(m: Map<u64, ButtonState>, code: u64, down: bool) -> Map<
    u64,
    ButtonState,
> {
    m.insert(code, ButtonState { down: down, seen: is_down(m, code) == down })
}

/// A press is reported once. After an event puts a button down that was up,
/// the first query reports a fresh press and the next two do not; a release
/// followed by another press makes the next query report one again, and only
/// that one.
pub proof fn lemma_press_reported_once(m: Map<u64, ButtonState>, code: u64)
    requires
        !is_down(m, code),
    ensures
        ({
            let m1 = after_event(m, code, true);
            let m2 = after_query(m1, code);
            let m3 = after_query(m2, code);
            let m4 = after_event(after_event(after_query(m3, code), code, false), code, true);
            &&& fresh_press(m1, code)
            &&& !fresh_press(m2, code)
            &&& !fresh_press(m3, code)
            &&& fresh_press(m4, code)
            &&& !fresh_press(after_query(m4, code), code)
        }),
{
}

impl Buttons {
    /// No button seen yet: every one is up.
    pub fn new() -> (r: Buttons)
        ensures
            r@ == Map::<u64, ButtonState>::empty(),
    {
        Buttons { states: HashMap::new() }
    }

    /// Whether the button is currently held down.
    pub fn down(&self, code: u64) -> (r: bool)
        ensures
            r == is_down(self@, code),
    {
        match self.states.get(&code) {
            Some(state) => state.down,
            None => false,
        }
    }

    /// Whether the button is newly pressed: true at most once per press.
    pub fn pressed(&mut self, code: u64) -> (r: bool)
        ensures
            r == fresh_press(old(self)@, code),
            final(self)@ == after_query(old(self)@, code),
    {
        match self.states.get(&code) {
            Some(state) => {
                if !state.seen {
                    let down = state.down;
                    self.states.insert(code, ButtonState { down: down, seen: true });
                    down
                } else {
                    false
                }
            },
            None => false,
        }
    }

    /// Records an event that leaves the button down (or up).
    pub fn record(&mut self, code: u64, down: bool)
        ensures
            final(self)@ == after_event(old(self)@, code, down),
    {
        let current_down = self.down(code);
        self.states.insert(code, ButtonState::new(down, current_down));
    }
}

/// std's sending half of a bounded channel, used as it is.
#[verifier::external_type_specification]
#[verifier::external_body]
#[verifier::reject_recursive_types(T)]
pub struct ExSyncSender<T>(SyncSender<T>);

/// Relies on std's `SyncSender::try_send`: it never blocks, and it is `Ok`
/// only when the message was queued (not when the channel is full or its
/// receiver is gone).
#[verifier::external_body]
fn try_send_tick(sender: &SyncSender<Tick>, tick: Tick) -> (r: bool) {
    sender.try_send(tick).is_ok()
}

/// Relies on std's `SyncSender::send`: it waits for room in the channel and
/// is `Ok` once the message is queued, `Err` when the receiver is gone.
#[verifier::external_body]
fn send_tick(sender: &SyncSender<Tick>, tick: Tick) -> (r: bool) {
    sender.send(tick).is_ok()
}

/// Simulation time in milliseconds, smoothed between ticks: each tick
/// counts one period, and while running the time since the last tick was
/// due is added, up to one period.
pub open spec fn smooth_time(tick_count: u64, running: bool, time_ms: u64, last_tick_ms: u64) -> int {
    let delta = time_ms - last_tick_ms;
    let interpolation = if !running {
        0
    } else if delta < TICK_PERIOD_MS {
        delta
    } else {
        TICK_PERIOD_MS as int
    };
    tick_count * TICK_PERIOD_MS + interpolation
}

/// Input, timing and the channel to the simulation worker, all owned by the
/// thread that renders.
pub struct GameState {
    /// Keys by code, and whether they are pressed.
    pub keyboard: Buttons,
    /// Mouse buttons by code, and whether they are pressed.
    pub mouse: Buttons,
    /// If the window is open.
    pub open: bool,
    /// How long the game has been running, in milliseconds.
    pub time_ms: u64,
    /// When the last tick was due, in milliseconds.
    pub last_tick_ms: u64,
    /// Number of ticks handed to the simulation so far.
    pub tick_count: u64,
    /// Whether the simulation is running.
    pub running: bool,
    /// Sender to provide events to the simulation thread from the main thread.
    pub tick_sender: SyncSender<Tick>,
    /// Every message offered to the simulation so far, in order, whether or
    /// not the channel took it.
    pub offered: Ghost<Seq<Tick>>,
}

/// `n` messages `Tick::Continue`.
pub open spec fn continues(n: nat) -> Seq<Tick> {
    Seq::new(n, |i: int| Tick::Continue)
}

impl GameState {
    /// When the last tick was due, in milliseconds.
    pub open spec fn last_tick(&self) -> u64 {
        self.last_tick_ms
    }

    /// The keyboard's state.
    pub open spec fn keys(&self) -> Map<u64, ButtonState> {
        self.keyboard@
    }

    /// The mouse's state.
    pub open spec fn buttons(&self) -> Map<u64, ButtonState> {
        self.mouse@
    }

    /// Whether the window, the clock, the tick count and the messages
    /// offered are as in `other`.
    pub open spec fn same_clock(&self, other: GameState) -> bool {
        &&& self.open == other.open
        &&& self.running == other.running
        &&& self.time_ms == other.time_ms
        &&& self.last_tick_ms == other.last_tick_ms
        &&& self.tick_count == other.tick_count
        &&& self.offered@ == other.offered@
    }

    /// A fresh state at time zero, running, with nothing pressed, that
    /// sends its ticks through `tick_sender`.
    pub fn new(tick_sender: SyncSender<Tick>) -> (r: Self)
        ensures
            r.keys() == Map::<u64, ButtonState>::empty(),
            r.buttons() == Map::<u64, ButtonState>::empty(),
            r.open,
            r.running,
            r.time_ms == 0,
            r.last_tick() == 0,
            r.tick_count == 0,
            r.offered@ == Seq::<Tick>::empty(),
    {
        GameState {
            keyboard: Buttons::new(),
            mouse: Buttons::new(),
            open: true,
            time_ms: 0,
            last_tick_ms: 0,
            tick_count: 0,
            running: true,
            tick_sender: tick_sender,
            offered: Ghost(Seq::empty()),
        }
    }

    /// Whether a key on the keyboard is currently pressed.
    pub fn key_down(&self, key: u64) -> (r: bool)
        ensures
            r == is_down(self.keys(), key),
    {
        self.keyboard.down(key)
    }

    /// Whether a key on the keyboard is newly pressed.
    pub fn key_pressed(&mut self, key: u64) -> (r: bool)
        ensures
            r == fresh_press(old(self).keys(), key),
            final(self).keys() == after_query(old(self).keys(), key),
            final(self).buttons() == old(self).buttons(),
            final(self).same_clock(*old(self)),
    {
        self.keyboard.pressed(key)
    }

    /// Whether a button on the mouse is currently pressed.
    pub fn mouse_down(&self, button: u64) -> (r: bool)
        ensures
            r == is_down(self.buttons(), button),
    {
        self.mouse.down(button)
    }

    /// Whether a button on the mouse is newly pressed.
    pub fn mouse_pressed(&mut self, button: u64) -> (r: bool)
        ensures
            r == fresh_press(old(self).buttons(), button),
            final(self).buttons() == after_query(old(self).buttons(), button),
            final(self).keys() == old(self).keys(),
            final(self).same_clock(*old(self)),
    {
        self.mouse.pressed(button)
    }

    /// Apply an event's changes to state: a close request closes the window,
    /// a key or button event records the key or button as down or up, and
    /// any other event changes nothing.
    pub fn consume_event(&mut self, event: InputEvent)
        ensures
            final(self).open == match event {
                InputEvent::CloseRequested => false,
                _ => old(self).open,
            },
            final(self).keys() == match event {
                InputEvent::Key { code, down } => after_event(old(self).keys(), code, down),
                _ => old(self).keys(),
            },
            final(self).buttons() == match event {
                InputEvent::Mouse { code, down } => after_event(old(self).buttons(), code, down),
                _ => old(self).buttons(),
            },
            final(self).running == old(self).running,
            final(self).time_ms == old(self).time_ms,
            final(self).last_tick() == old(self).last_tick(),
            final(self).tick_count == old(self).tick_count,
            final(self).offered@ == old(self).offered@,
    {
        match event {
            InputEvent::CloseRequested => {
                self.open = false;
            },
            InputEvent::Key { code, down } => {
                self.keyboard.record(code, down);
            },
            InputEvent::Mouse { code, down } => {
                self.mouse.record(code, down);
            },
            InputEvent::Other => {},
        }
    }

    /// Hands a message to the simulation, waiting for room in the channel.
    /// False when the simulation has gone away.
    pub fn send(&mut self, tick: Tick) -> (r: bool)
        ensures
            final(self).offered@ == old(self).offered@.push(tick),
            final(self).open == old(self).open,
            final(self).running == old(self).running,
            final(self).time_ms == old(self).time_ms,
            final(self).last_tick() == old(self).last_tick(),
            final(self).tick_count == old(self).tick_count,
            final(self).keys() == old(self).keys(),
            final(self).buttons() == old(self).buttons(),
    {
        self.offered = Ghost(self.offered@.push(tick));
        send_tick(&self.tick_sender, tick)
    }

    /// Updates to state ran per-tick: one `Tick::Continue` is offered to the
    /// simulation without waiting. When the channel is full the step is
    /// dropped and false is returned; the count grows only by the steps
    /// accepted.
    pub fn tick(&mut self) -> (r: bool)
        ensures
            final(self).offered@ == old(self).offered@.push(Tick::Continue),
            final(self).tick_count == if r && old(self).tick_count < u64::MAX {
                old(self).tick_count + 1
            } else {
                old(self).tick_count as int
            },
            final(self).time_ms == old(self).time_ms,
            final(self).last_tick() == old(self).last_tick(),
            final(self).running == old(self).running,
            final(self).open == old(self).open,
            final(self).keys() == old(self).keys(),
            final(self).buttons() == old(self).buttons(),
    {
        let msg = Tick::Continue;
        self.offered = Ghost(self.offered@.push(msg));
        let accepted = try_send_tick(&self.tick_sender, msg);
        if accepted {
            self.tick_count = self.tick_count.saturating_add(1);
        }
        accepted
    }

    /// Updates to state ran per-frame, `elapsed_ms` after the start. While
    /// running (or when `turbo` asks for it), every tick that has come due
    /// since the last one is offered to the simulation, one period apart,
    /// until the ticks have caught up with the clock.
    pub fn frame(&mut self, elapsed_ms: u64, turbo: bool)
        requires
            elapsed_ms <= u64::MAX - TICK_PERIOD_MS,
        ensures
            final(self).time_ms == elapsed_ms,
            final(self).running == old(self).running,
            final(self).open == old(self).open,
            final(self).keys() == old(self).keys(),
            final(self).buttons() == old(self).buttons(),
            old(self).tick_count <= final(self).tick_count,
            (old(self).running || turbo) && old(self).last_tick() < elapsed_ms ==> {
                &&& elapsed_ms <= final(self).last_tick() < elapsed_ms + TICK_PERIOD_MS
                &&& (final(self).last_tick() - old(self).last_tick()) % (TICK_PERIOD_MS as int) == 0
                &&& final(self).tick_count - old(self).tick_count <= (final(self).last_tick()
                    - old(self).last_tick()) / (TICK_PERIOD_MS as int)
            },
            !((old(self).running || turbo) && old(self).last_tick() < elapsed_ms) ==> {
                &&& final(self).last_tick() == old(self).last_tick()
                &&& final(self).tick_count == old(self).tick_count
            },
            final(self).offered@ == old(self).offered@ + continues(
                ((final(self).last_tick() - old(self).last_tick()) / (TICK_PERIOD_MS as int)) as nat,
            ),
    {
        self.time_ms = elapsed_ms;
        if self.running || turbo {
            let ghost start_tick = self.last_tick_ms;
            let ghost start_count = self.tick_count;
            let ghost mut n: int = 0;
            while self.last_tick_ms < self.time_ms
                invariant
                    self.time_ms == elapsed_ms,
                    elapsed_ms <= u64::MAX - TICK_PERIOD_MS,
                    self.running == old(self).running,
                    self.open == old(self).open,
                    self.keyboard@ == old(self).keyboard@,
                    self.mouse@ == old(self).mouse@,
                    start_tick == old(self).last_tick_ms,
                    start_count == old(self).tick_count,
                    n >= 0,
                    self.offered@ == old(self).offered@ + continues(n as nat),
                    n == 0 ==> self.last_tick_ms == start_tick,
                    self.last_tick_ms == start_tick + n * TICK_PERIOD_MS,
                    n > 0 ==> self.last_tick_ms < elapsed_ms + TICK_PERIOD_MS,
                    start_count <= self.tick_count <= start_count + n,
                decreases elapsed_ms + TICK_PERIOD_MS - self.last_tick_ms,
            {
                self.last_tick_ms = self.last_tick_ms + TICK_PERIOD_MS;
                self.tick();
                proof {
                    assert(self.offered@ =~= old(self).offered@ + continues((n + 1) as nat));
                    n = n + 1;
                }
            }
            proof {
                let d = self.last_tick_ms - start_tick;
                assert(d == n * 1000);
                assert(d % 1000 == 0 && d / 1000 == n) by (nonlinear_arith)
                    requires
                        d == n * 1000,
                        n >= 0,
                ;
            }
        } else {
            assert(self.offered@ =~= old(self).offered@ + continues(0));
        }
    }

    /// Simulation time in milliseconds (it excludes time when paused), as
    /// `smooth_time` gives it.
    pub fn simulation_time(&self) -> (r: i128)
        ensures
            r == smooth_time(self.tick_count, self.running, self.time_ms, self.last_tick()),
    {
        let delta: i128 = self.time_ms as i128 - self.last_tick_ms as i128;
        let interpolation: i128 = if !self.running {
            0
        } else if delta < TICK_PERIOD_MS as i128 {
            delta
        } else {
            TICK_PERIOD_MS as i128
        };
        proof {
            let c = self.tick_count as int;
            assert(0 <= c * 1000 <= 0xffff_ffff_ffff_ffffint * 1000) by (nonlinear_arith)
                requires
                    0 <= c <= 0xffff_ffff_ffff_ffffint,
            ;
        }
        self.tick_count as i128 * TICK_PERIOD_MS as i128 + interpolation
    }
}

} // verus!
