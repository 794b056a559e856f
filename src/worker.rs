use crate::gol::{glider, stepped, GoL};
use crate::state::Tick;
use vstd::prelude::*;

verus! {

/// What the simulation worker does with one message. `Continue` steps the
/// board, `Randomize` refills it at random, `InsertGlider` writes a glider at
/// a random place; for each of these the result is true and a fresh picture
/// of the board is owed. `Quit` leaves the board alone and returns false: the
/// worker stops.
pub fn handle(game: &mut GoL, tick: Tick) -> (more: bool)
    requires
        old(game).wf(),
    ensures
        final(game).wf(),
        final(game).width == old(game).width,
        final(game).height == old(game).height,
        more == (tick != Tick::Quit),
        tick == Tick::Continue ==> stepped(*old(game), *final(game)),
        tick == Tick::Randomize ==> forall|i: int|
            0 <= i < final(game).buffer@.len() ==> #[trigger] final(game).buffer@[i] <= 1,
        tick == Tick::InsertGlider ==> exists|flip_x: bool, flip_y: bool, x: int, y: int|
            0 <= x < old(game).width && 0 <= y < old(game).height && final(game).is_stamp(
                *old(game),
                glider(flip_x, flip_y),
                x,
                y,
            ),
        tick == Tick::Quit ==> final(game).buffer@ == old(game).buffer@,
{
    match tick {
        Tick::Continue => {
            game.step();
            true
        },
        Tick::Randomize => {
            game.randomize();
            true
        },
        Tick::InsertGlider => {
            game.insert_glider();
            true
        },
        Tick::Quit => false,
    }
}

} // verus!
