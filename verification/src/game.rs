//! A game: an engine plus whose color moves next, cycling through the
//! active players after every successful move.

use vstd::prelude::*;

use crate::coord::Coord;
use crate::engine::{Engine, ErrorKind, PlaceStoneResult};
use crate::stone::{Stone, MAX_COLORS};

verus! {

/// Wraps the engine with the turn order for `n_player` colors: color 1
/// moves first, and after each accepted move the turn passes cyclically
/// to the next active color. Rejected moves do not pass the turn.
pub struct Game {
    pub engine: Engine,
    pub n_player: usize,
    pub cur_stone: Stone,
}

impl Game {
    pub open spec fn wf(&self) -> bool {
        &&& self.engine.wf()
        &&& self.engine.groups_alive()
        &&& self.cur_stone.is_color()
        &&& 1 <= self.n_player <= MAX_COLORS
    }

    pub fn new(size: usize, n_player: usize) -> (g: Game)
        requires
            1 <= size,
            size * size < usize::MAX,
            1 <= n_player <= MAX_COLORS,
        ensures
            g.wf(),
            g.engine.size == size,
            g.n_player == n_player,
            g.cur_stone == Stone(1u8),
            forall|i: int| 0 <= i < g.engine.board@.len() ==> (#[trigger] g.engine.board@[i]).is_void(),
    {
        Game { engine: Engine::new(size), n_player, cur_stone: Stone(1) }
    }

    pub fn size(&self) -> (n: usize)
        ensures
            n == self.engine.size,
    {
        self.engine.size()
    }

    pub fn board(&self) -> (b: &[Stone])
        ensures
            b@ == self.engine.board@,
    {
        self.engine.board()
    }

    /// Plays the current color at `coord`. On success the turn passes to
    /// the next color; on a rejected move the whole game state is
    /// unchanged and the same color is still to move.
    pub fn place_stone(&mut self, coord: Coord) -> (r: Result<PlaceStoneResult, ErrorKind>)
        requires
            old(self).wf(),
            coord.x < old(self).engine.size,
            coord.y < old(self).engine.size,
        ensures
            final(self).wf(),
            final(self).n_player == old(self).n_player,
            r is Err ==> *final(self) == *old(self),
            (r == Err::<PlaceStoneResult, ErrorKind>(ErrorKind::AlreadyOccupied) <==> old(
                self,
            ).engine.occupied(old(self).engine.target(coord))),
            !old(self).engine.occupied(old(self).engine.target(coord)) ==> (r == Err::<
                PlaceStoneResult,
                ErrorKind,
            >(ErrorKind::SelfCapture) <==> old(self).engine.suicide(
                old(self).engine.target(coord),
                old(self).cur_stone,
            )),
            !old(self).engine.occupied(old(self).engine.target(coord)) && !old(
                self,
            ).engine.suicide(old(self).engine.target(coord), old(self).cur_stone) ==> (r == Err::<
                PlaceStoneResult,
                ErrorKind,
            >(ErrorKind::PositionRepeated) <==> old(self).engine.repeated(
                old(self).engine.target(coord),
                old(self).cur_stone,
            )),
            r is Ok <==> (!old(self).engine.occupied(old(self).engine.target(coord)) && !old(
                self,
            ).engine.suicide(old(self).engine.target(coord), old(self).cur_stone) && !old(
                self,
            ).engine.repeated(old(self).engine.target(coord), old(self).cur_stone)),
            r is Ok ==> final(self).engine.board@ == old(self).engine.board_after(
                old(self).engine.target(coord),
                old(self).cur_stone,
            ) && ((old(self).cur_stone.0 as int) < old(self).n_player ==> final(self).cur_stone.0
                == old(self).cur_stone.0 + 1) && ((old(self).cur_stone.0 as int) >= old(
                self,
            ).n_player ==> final(self).cur_stone.0 == 1),
    {
        let ret = self.engine.place_stone(coord, self.cur_stone);
        match ret {
            Ok(res) => {
                self.cur_stone = self.cur_stone.next_stone(self.n_player);
                Ok(res)
            },
            Err(e) => Err(e),
        }
    }
}

} // verus!
