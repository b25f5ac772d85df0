//! A minimal player that applies the opponent's move and answers with the
//! first available legal move of its own color.

use vstd::prelude::*;

verus! {

use crate::board::{
    Board, Color, Position, cell_index, default_position, default_position_spec, starting_board,
};

/// Some legal destination exists for `c` on `b`.
pub open spec fn can_move(b: Board, c: Color) -> bool {
    exists|x: int, y: int| b.legal_move_spec(c, x, y)
}

/// One side of a game: the board as this player sees it, and its color.
pub struct Player {
    pub board: Board,
    pub color: Color,
}

impl Player {
    /// The player's view of the game is well-formed.
    pub open spec fn wf(self) -> bool {
        self.board.wf()
    }

    /// The board this player must choose on, once the opponent's move (if
    /// there is one) has been applied.
    pub open spec fn board_after_opponent(self, opp: Position) -> Board {
        if opp == default_position_spec() {
            self.board
        } else {
            self.board.apply_spec(self.color.other_spec(), opp.0 as int, opp.1 as int)
        }
    }

    /// A fresh player for one side, on the starting board.
    pub fn new(side: Color) -> (p: Player)
        ensures
            p == (Player { board: starting_board(), color: side }),
            p.wf(),
    {
        Player { board: Board::new(), color: side }
    }

    /// Apply the opponent's move (unless this is the game's first move), then
    /// pick this player's first legal move, apply it, and return it.
    pub fn choose_move(&mut self, opponents_move: Position) -> (mv: Position)
        requires
            old(self).wf(),
            opponents_move == default_position_spec() || opponents_move.in_bounds_spec(),
            can_move(old(self).board_after_opponent(opponents_move), old(self).color),
        ensures
            final(self).color == old(self).color,
            final(self).wf(),
            ({
                let mid = old(self).board_after_opponent(opponents_move);
                &&& mv.in_bounds_spec()
                &&& mid.legal_move_spec(old(self).color, mv.0 as int, mv.1 as int)
                &&& forall|x: int, y: int| #[trigger]
                    mid.legal_move_spec(old(self).color, x, y) ==> cell_index(
                        mv.0 as int,
                        mv.1 as int,
                    ) <= cell_index(x, y)
                &&& final(self).board == mid.apply_spec(old(self).color, mv.0 as int, mv.1 as int)
            }),
    {
        if !(opponents_move == default_position()) {
            let r = self.board.make_move(self.color.other(), opponents_move);
            if let Ok(b) = r {
                self.board = b;
            }
        }
        let ghost mid = self.board;
        proof {
            assert(mid == old(self).board_after_opponent(opponents_move));
        }
        let moves = self.board.get_moves(self.color);
        proof {
            let (x, y) = choose|x: int, y: int| mid.legal_move_spec(old(self).color, x, y);
            assert(moves@.contains(Position(x as i32, y as i32)));
            assert(moves@.len() > 0);
        }
        let my_move = moves[0];
        proof {
            assert forall|x: int, y: int| #[trigger]
                mid.legal_move_spec(old(self).color, x, y) implies cell_index(
                my_move.0 as int,
                my_move.1 as int,
            ) <= cell_index(x, y) by {
                let p = Position(x as i32, y as i32);
                assert(moves@.contains(p));
                let s = choose|s: int| 0 <= s < moves@.len() && moves@[s] == p;
                assert(p.0 as int == x && p.1 as int == y);
                if s > 0 {
                    assert(cell_index(moves@[0].0 as int, moves@[0].1 as int) < cell_index(
                        moves@[s].0 as int,
                        moves@[s].1 as int,
                    ));
                }
            }
        }
        let r2 = self.board.make_move(self.color, my_move);
        if let Ok(b) = r2 {
            self.board = b;
        }
        my_move
    }
}

} // verus!
