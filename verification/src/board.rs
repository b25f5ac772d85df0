//! The board: two 64-bit occupancy planes, one per color, with query,
//! legal-move enumeration and move application under the capture rule.

use vstd::prelude::*;

verus! {

use crate::bits::{
    plane_bit, line_bit, bit_u64, bit_u8, get_bit, set_bit, lemma_u64_or, lemma_u64_and_not,
    lemma_u64_single_bit, lemma_u64_bit_ext, lemma_u8_set_bit, lemma_u64_zero, lemma_u8_zero,
};
use crate::lines::{line_closed, line_sandwich, line_legal, get_linear_moves};

/// A cell coordinate: column then row; valid cells lie in [0, 8) x [0, 8).
#[derive(Clone, Copy, PartialEq, Eq, Structural, Debug)]
pub struct Position(pub i32, pub i32);

/// The coordinate that stands for "no move yet", used before a first move.
pub open spec fn default_position_spec() -> Position {
    Position(-1i32, -1i32)
}

/// The coordinate that stands for "no move yet", used before a first move.
pub fn default_position() -> (p: Position)
    ensures
        p == default_position_spec(),
{
    Position(-1, -1)
}

/// Whether (x, y) is a cell of the 8 x 8 board.
pub open spec fn on_board(x: int, y: int) -> bool {
    0 <= x < 8 && 0 <= y < 8
}

/// The plane bit index of cell (x, y).
pub open spec fn cell_index(x: int, y: int) -> int {
    x + 8 * y
}

impl Position {
    /// The position lies on the board.
    pub open spec fn in_bounds_spec(self) -> bool {
        on_board(self.0 as int, self.1 as int)
    }

    /// Check that the position lies on the board.
    pub fn in_bounds(&self) -> (r: bool)
        ensures
            r == self.in_bounds_spec(),
    {
        let Position(x, y) = *self;
        x >= 0 && x < 8 && y >= 0 && y < 8
    }

    /// Componentwise translation.
    pub fn add(&self, other: Position) -> (r: Position)
        requires
            i32::MIN <= self.0 + other.0 <= i32::MAX,
            i32::MIN <= self.1 + other.1 <= i32::MAX,
        ensures
            r == Position((self.0 + other.0) as i32, (self.1 + other.1) as i32),
    {
        let Position(x, y) = *self;
        let Position(ox, oy) = other;
        Position(x + ox, y + oy)
    }
}

/// The two stone colors.
#[derive(Clone, Copy, PartialEq, Eq, Structural, Debug)]
pub enum Color {
    Black,
    White,
}

impl Color {
    /// The opposing color.
    pub open spec fn other_spec(self) -> Color {
        match self {
            Color::Black => Color::White,
            Color::White => Color::Black,
        }
    }

    /// The opposing color.
    pub fn other(&self) -> (r: Color)
        ensures
            r == self.other_spec(),
    {
        match *self {
            Color::Black => Color::White,
            Color::White => Color::Black,
        }
    }
}

/// Swapping colors twice returns the starting color.
pub proof fn lemma_other_involutive(c: Color)
    ensures
        c.other_spec().other_spec() == c,
{
}

/// A coordinate outside the board was used where a valid cell was required.
#[derive(Clone, Copy, PartialEq, Eq, Structural, Debug)]
pub enum BoardError {
    OutOfBounds,
}

/// The plane bit index of an on-board position.
pub fn get_index(pos: Position) -> (i: u64)
    requires
        pos.in_bounds_spec(),
    ensures
        i == cell_index(pos.0 as int, pos.1 as int),
        i < 64,
{
    let Position(x, y) = pos;
    (x + 8 * y) as u64
}

/// Two 64-bit occupancy planes, one bit per cell, indexed by `cell_index`.
#[derive(Clone, Copy, PartialEq, Eq, Structural, Debug)]
pub struct Board {
    pub black: u64,
    pub white: u64,
}

/// The canonical starting layout: two stones of each color in the center.
pub open spec fn starting_board() -> Board {
    Board { black: 0x0000000810000000u64, white: 0x0000001008000000u64 }
}

impl Board {
    /// No cell is occupied by both colors.
    pub open spec fn wf(self) -> bool {
        self.black & self.white == 0
    }

    /// The occupancy plane of one color.
    pub open spec fn stones_spec(self, side: Color) -> u64 {
        match side {
            Color::Black => self.black,
            Color::White => self.white,
        }
    }

    /// Color `c` has a stone on cell (x, y).
    pub open spec fn has_stone(self, c: Color, x: int, y: int) -> bool {
        on_board(x, y) && plane_bit(self.stones_spec(c), cell_index(x, y))
    }

    /// Some stone sits on cell (x, y).
    pub open spec fn occupied_spec(self, x: int, y: int) -> bool {
        self.has_stone(Color::Black, x, y) || self.has_stone(Color::White, x, y)
    }

    /// Cell (x, y) is a board cell with no stone on it.
    pub open spec fn empty_at(self, x: int, y: int) -> bool {
        on_board(x, y) && !self.occupied_spec(x, y)
    }

    /// The stone on cell (x, y), if any.
    pub open spec fn stone_at_spec(self, x: int, y: int) -> Option<Color> {
        if self.has_stone(Color::Black, x, y) {
            Some(Color::Black)
        } else if self.has_stone(Color::White, x, y) {
            Some(Color::White)
        } else {
            None
        }
    }

    /// The canonical starting board.
    pub fn new() -> (b: Board)
        ensures
            b == starting_board(),
            b.wf(),
            forall|x: int, y: int| #[trigger]
                b.has_stone(Color::Black, x, y) == ((x == 4 && y == 3) || (x == 3 && y == 4)),
            forall|x: int, y: int| #[trigger]
                b.has_stone(Color::White, x, y) == ((x == 3 && y == 3) || (x == 4 && y == 4)),
    {
        let mut black: u64 = 0;
        let mut white: u64 = 0;
        set_bit(&mut black, get_index(Position(4, 3)));
        set_bit(&mut black, get_index(Position(3, 4)));
        set_bit(&mut white, get_index(Position(3, 3)));
        set_bit(&mut white, get_index(Position(4, 4)));
        let b = Board { black, white };
        proof {
            assert(b.black == (0u64 | (1u64 << 28u64)) | (1u64 << 35u64));
            assert(b.white == (0u64 | (1u64 << 27u64)) | (1u64 << 36u64));
            assert(((0u64 | (1u64 << 28u64)) | (1u64 << 35u64)) == 0x0000000810000000u64)
                by (bit_vector);
            assert(((0u64 | (1u64 << 27u64)) | (1u64 << 36u64)) == 0x0000001008000000u64)
                by (bit_vector);
            assert(0x0000000810000000u64 & 0x0000001008000000u64 == 0u64) by (bit_vector);
            assert(forall|i: u64|
                i < 64 ==> (#[trigger] bit_u64(0x0000000810000000u64, i) == (i == 28 || i == 35)))
                by (bit_vector);
            assert(forall|i: u64|
                i < 64 ==> (#[trigger] bit_u64(0x0000001008000000u64, i) == (i == 27 || i == 36)))
                by (bit_vector);
            assert forall|x: int, y: int| #[trigger]
                b.has_stone(Color::Black, x, y) == ((x == 4 && y == 3) || (x == 3 && y
                    == 4)) by {
                if on_board(x, y) {
                    let i = cell_index(x, y);
                    assert(0 <= i < 64);
                    assert(bit_u64(b.black, i as u64) == (i as u64 == 28 || i as u64 == 35));
                }
            }
            assert forall|x: int, y: int| #[trigger]
                b.has_stone(Color::White, x, y) == ((x == 3 && y == 3) || (x == 4 && y
                    == 4)) by {
                if on_board(x, y) {
                    let i = cell_index(x, y);
                    assert(0 <= i < 64);
                    assert(bit_u64(b.white, i as u64) == (i as u64 == 27 || i as u64 == 36));
                }
            }
        }
        b
    }

    /// The stone on a cell, or `OutOfBounds` off the board.
    pub fn get(&self, pos: Position) -> (r: Result<Option<Color>, BoardError>)
        ensures
            pos.in_bounds_spec() ==> r == Ok::<Option<Color>, BoardError>(
                self.stone_at_spec(pos.0 as int, pos.1 as int),
            ),
            !pos.in_bounds_spec() ==> r == Err::<Option<Color>, BoardError>(BoardError::OutOfBounds),
    {
        if !pos.in_bounds() {
            return Err(BoardError::OutOfBounds);
        }
        let index = get_index(pos);
        if get_bit(self.black, index) {
            Ok(Some(Color::Black))
        } else if get_bit(self.white, index) {
            Ok(Some(Color::White))
        } else {
            Ok(None)
        }
    }

    /// Whether a cell holds a stone of either color, or `OutOfBounds` off the board.
    pub fn is_occupied(&self, pos: Position) -> (r: Result<bool, BoardError>)
        ensures
            pos.in_bounds_spec() ==> r == Ok::<bool, BoardError>(
                self.occupied_spec(pos.0 as int, pos.1 as int),
            ),
            !pos.in_bounds_spec() ==> r == Err::<bool, BoardError>(BoardError::OutOfBounds),
    {
        if !pos.in_bounds() {
            return Err(BoardError::OutOfBounds);
        }
        let index = get_index(pos);
        proof {
            lemma_u64_or(self.black, self.white);
        }
        Ok(get_bit(self.black | self.white, index))
    }

    /// The occupancy plane of one color.
    pub fn get_stones(&self, side: Color) -> (r: u64)
        ensures
            r == self.stones_spec(side),
    {
        match side {
            Color::Black => self.black,
            Color::White => self.white,
        }
    }

    /// A stone of color `c` sits on cell (x, y); false off the board.
    fn has_stone_at(&self, c: Color, x: i32, y: i32) -> (r: bool)
        ensures
            r == self.has_stone(c, x as int, y as int),
    {
        if x >= 0 && x < 8 && y >= 0 && y < 8 {
            get_bit(self.get_stones(c), get_index(Position(x, y)))
        } else {
            false
        }
    }
}

/// A cell is occupied exactly when `stone_at` finds some stone there.
pub proof fn lemma_query_consistent(b: Board, x: int, y: int)
    ensures
        b.occupied_spec(x, y) == (b.stone_at_spec(x, y) is Some),
{
}

/// The packed line `line` holds exactly the bits of plane `p` along the ray
/// from (ax, ay) with unit step (ux, uy); offsets off the board read as empty.
pub open spec fn plane_line_matches(p: u64, line: u8, ax: int, ay: int, ux: int, uy: int) -> bool {
    forall|j: int| #[trigger]
        line_bit(line, j) == (on_board(ax + j * ux, ay + j * uy) && plane_bit(
            p,
            cell_index(ax + j * ux, ay + j * uy),
        ))
}

/// The 8 occupancy bits of one row, packed so bit `i` is column `i`.
pub fn get_row(board_side: u64, row_num: i32) -> (r: u8)
    requires
        0 <= row_num < 8,
    ensures
        plane_line_matches(board_side, r, 0, row_num as int, 1, 0),
{
    let rn = row_num as u64;
    let r: u8 = ((board_side >> (8 * rn)) & 0xff) as u8;
    proof {
        assert(forall|j: u8|
            j < 8 ==> (#[trigger] bit_u8(((board_side >> (8 * rn)) & 0xff) as u8, j) == bit_u64(
                board_side,
                ((j as u64) + 8 * rn) as u64,
            ))) by (bit_vector)
            requires rn < 8;
        assert forall|j: int| #[trigger]
            line_bit(r, j) == (on_board(0 + j * 1, row_num as int + j * 0) && plane_bit(
                board_side,
                cell_index(0 + j * 1, row_num as int + j * 0),
            )) by {
            if 0 <= j < 8 {
                assert(bit_u8(r, j as u8) == bit_u64(
                    board_side,
                    ((j as u8 as u64) + 8 * rn) as u64,
                ));
                assert(((j as u8 as u64) + 8 * rn) as u64 == (j + 8 * (row_num as int)) as u64);
                assert(cell_index(0 + j * 1, row_num as int + j * 0) == j + 8 * (row_num as int));
            }
        }
    }
    r
}

/// The 8 occupancy bits of one column, packed so bit `i` is row `i`.
pub fn get_col(board_side: u64, col_num: i32) -> (r: u8)
    requires
        0 <= col_num < 8,
    ensures
        plane_line_matches(board_side, r, col_num as int, 0, 0, 1),
{
    let mut col: u8 = 0;
    proof {
        lemma_u8_zero();
    }
    let mut row: i32 = 0;
    while row < 8
        invariant
            0 <= row <= 8,
            0 <= col_num < 8,
            forall|j: int| #[trigger]
                line_bit(col, j) == (0 <= j < row && plane_bit(
                    board_side,
                    cell_index(col_num as int, j),
                )),
        decreases 8 - row,
    {
        if get_bit(board_side, get_index(Position(col_num, row))) {
            proof {
                lemma_u8_set_bit(col, row as u8);
            }
            col = col | (1u8 << (row as u8));
        }
        row = row + 1;
    }
    proof {
        assert forall|j: int| #[trigger]
            line_bit(col, j) == (on_board(col_num as int + j * 0, 0 + j * 1) && plane_bit(
                board_side,
                cell_index(col_num as int + j * 0, 0 + j * 1),
            )) by {
            assert(col_num as int + j * 0 == col_num as int);
            assert(0 + j * 1 == j);
        }
    }
    col
}

/// The occupancy bits along the down-right diagonal from an edge start,
/// packed so bit `i` is the i-th cell; offsets past the edge read as empty.
pub fn get_positive_diag(board_side: u64, start: Position) -> (r: u8)
    requires
        start.in_bounds_spec(),
        start.0 == 0 || start.1 == 0,
    ensures
        plane_line_matches(board_side, r, start.0 as int, start.1 as int, 1, 1),
{
    let Position(sx, sy) = start;
    let mut diag: u8 = 0;
    proof {
        lemma_u8_zero();
    }
    let mut off: i32 = 0;
    while off < 8
        invariant
            0 <= off <= 8,
            0 <= sx < 8,
            0 <= sy < 8,
            forall|j: int| #[trigger]
                line_bit(diag, j) == (0 <= j < off && on_board(sx + j, sy + j) && plane_bit(
                    board_side,
                    cell_index(sx + j, sy + j),
                )),
        decreases 8 - off,
    {
        let x = sx + off;
        let y = sy + off;
        if x < 8 && y < 8 {
            if get_bit(board_side, get_index(Position(x, y))) {
                proof {
                    lemma_u8_set_bit(diag, off as u8);
                }
                diag = diag | (1u8 << (off as u8));
            }
        }
        off = off + 1;
    }
    proof {
        assert forall|j: int| #[trigger]
            line_bit(diag, j) == (on_board(sx as int + j * 1, sy as int + j * 1) && plane_bit(
                board_side,
                cell_index(sx as int + j * 1, sy as int + j * 1),
            )) by {
            assert(sx as int + j * 1 == sx + j);
            assert(sy as int + j * 1 == sy + j);
            if !(0 <= j < 8) {
                assert(!on_board(sx + j, sy + j));
            }
        }
    }
    diag
}

/// The occupancy bits along the down-left diagonal (stepping (1, -1)) from an
/// edge start, packed as for the positive diagonal.
pub fn get_negative_diag(board_side: u64, start: Position) -> (r: u8)
    requires
        start.in_bounds_spec(),
        start.0 == 0 || start.1 == 7,
    ensures
        plane_line_matches(board_side, r, start.0 as int, start.1 as int, 1, -1),
{
    let Position(sx, sy) = start;
    let mut diag: u8 = 0;
    proof {
        lemma_u8_zero();
    }
    let mut off: i32 = 0;
    while off < 8
        invariant
            0 <= off <= 8,
            0 <= sx < 8,
            0 <= sy < 8,
            forall|j: int| #[trigger]
                line_bit(diag, j) == (0 <= j < off && on_board(sx + j, sy - j) && plane_bit(
                    board_side,
                    cell_index(sx + j, sy - j),
                )),
        decreases 8 - off,
    {
        let x = sx + off;
        let y = sy - off;
        if x < 8 && y >= 0 {
            if get_bit(board_side, get_index(Position(x, y))) {
                proof {
                    lemma_u8_set_bit(diag, off as u8);
                }
                diag = diag | (1u8 << (off as u8));
            }
        }
        off = off + 1;
    }
    proof {
        assert forall|j: int| #[trigger]
            line_bit(diag, j) == (on_board(sx as int + j * 1, sy as int + j * (-1)) && plane_bit(
                board_side,
                cell_index(sx as int + j * 1, sy as int + j * (-1)),
            )) by {
            assert(sx as int + j * 1 == sx + j);
            assert(sy as int + j * (-1) == sy - j);
            if !(0 <= j < 8) {
                assert(!on_board(sx + j, sy - j));
            }
        }
    }
    diag
}

/// A unit step towards one of the eight neighbouring cells.
pub open spec fn is_dir(dx: int, dy: int) -> bool {
    -1 <= dx <= 1 && -1 <= dy <= 1 && !(dx == 0 && dy == 0)
}

/// (qx, qy) is one of the first `m` cells on the ray from (x, y) stepping by
/// (dx, dy), the start itself excluded.
pub open spec fn on_ray_within(x: int, y: int, dx: int, dy: int, qx: int, qy: int, m: nat) -> bool
    decreases m,
{
    m > 0 && ((qx == x + dx && qy == y + dy) || on_ray_within(
        x + dx,
        y + dy,
        dx,
        dy,
        qx,
        qy,
        (m - 1) as nat,
    ))
}

impl Board {
    /// From (x, y) (exclusive) along (dx, dy): a possibly empty run of
    /// `other(c)` stones ends at a stone of `c` within `fuel` steps.
    pub open spec fn ray_closed(self, c: Color, x: int, y: int, dx: int, dy: int, fuel: nat) -> bool
        decreases fuel,
    {
        fuel > 0 && (self.has_stone(c, x + dx, y + dy) || (self.has_stone(
            c.other_spec(),
            x + dx,
            y + dy,
        ) && self.ray_closed(c, x + dx, y + dy, dx, dy, (fuel - 1) as nat)))
    }

    /// The sandwich rule from (x, y) in direction (dx, dy): the neighbouring
    /// cell starts a nonempty run of opponent stones closed off by a `c` stone.
    pub open spec fn dir_captures(self, c: Color, x: int, y: int, dx: int, dy: int) -> bool {
        self.has_stone(c.other_spec(), x + dx, y + dy) && self.ray_closed(
            c,
            x + dx,
            y + dy,
            dx,
            dy,
            8,
        )
    }

    /// Placing `c` on (x, y) flips the stone on (qx, qy) through direction
    /// (dx, dy): it sits on the opponent run of a closed sandwich.
    pub open spec fn captured_from(
        self,
        c: Color,
        x: int,
        y: int,
        dx: int,
        dy: int,
        qx: int,
        qy: int,
        fuel: nat,
    ) -> bool
        decreases fuel,
    {
        fuel > 0 && self.has_stone(c.other_spec(), x + dx, y + dy) && ((qx == x + dx && qy == y + dy
            && self.ray_closed(c, x + dx, y + dy, dx, dy, 8)) || self.captured_from(
            c,
            x + dx,
            y + dy,
            dx,
            dy,
            qx,
            qy,
            (fuel - 1) as nat,
        ))
    }

    /// Placing `c` on (x, y) flips the stone on (qx, qy) through some direction.
    pub open spec fn captured_spec(self, c: Color, x: int, y: int, qx: int, qy: int) -> bool {
        ||| self.captured_from(c, x, y, -1, -1, qx, qy, 8)
        ||| self.captured_from(c, x, y, 0, -1, qx, qy, 8)
        ||| self.captured_from(c, x, y, 1, -1, qx, qy, 8)
        ||| self.captured_from(c, x, y, -1, 0, qx, qy, 8)
        ||| self.captured_from(c, x, y, 1, 0, qx, qy, 8)
        ||| self.captured_from(c, x, y, -1, 1, qx, qy, 8)
        ||| self.captured_from(c, x, y, 0, 1, qx, qy, 8)
        ||| self.captured_from(c, x, y, 1, 1, qx, qy, 8)
    }

    /// The first `m` cells beyond (x, y) along (dx, dy) all hold `other(c)` stones.
    pub open spec fn opp_run(self, c: Color, x: int, y: int, dx: int, dy: int, m: nat) -> bool
        decreases m,
    {
        m == 0 || (self.has_stone(c.other_spec(), x + dx, y + dy) && self.opp_run(
            c,
            x + dx,
            y + dy,
            dx,
            dy,
            (m - 1) as nat,
        ))
    }

    /// A legal destination for `c`: an empty cell with a sandwich in some direction.
    pub open spec fn legal_move_spec(self, c: Color, x: int, y: int) -> bool {
        self.empty_at(x, y) && ({
            ||| self.dir_captures(c, x, y, 1, 0)
            ||| self.dir_captures(c, x, y, -1, 0)
            ||| self.dir_captures(c, x, y, 0, 1)
            ||| self.dir_captures(c, x, y, 0, -1)
            ||| self.dir_captures(c, x, y, 1, 1)
            ||| self.dir_captures(c, x, y, -1, -1)
            ||| self.dir_captures(c, x, y, 1, -1)
            ||| self.dir_captures(c, x, y, -1, 1)
        })
    }

    /// How the board after a move relates to the board before it: the mover
    /// holds the destination, every captured cell, and everything it held
    /// before; the opponent keeps exactly its untouched stones.
    pub open spec fn move_result(self, c: Color, px: int, py: int, b2: Board) -> bool {
        &&& b2.wf()
        &&& forall|x: int, y: int|
            on_board(x, y) ==> (#[trigger] b2.has_stone(c, x, y) == (self.has_stone(c, x, y) || (x
                == px && y == py) || self.captured_spec(c, px, py, x, y)))
        &&& forall|x: int, y: int|
            on_board(x, y) ==> (#[trigger] b2.has_stone(c.other_spec(), x, y) == (self.has_stone(
                c.other_spec(),
                x,
                y,
            ) && !(x == px && y == py) && !self.captured_spec(c, px, py, x, y)))
    }

    /// The board after `c` plays on (px, py), as a value.
    pub open spec fn apply_spec(self, c: Color, px: int, py: int) -> Board {
        choose|b2: Board| self.move_result(c, px, py, b2)
    }
}

/// No cell carries both colors on a well-formed board.
proof fn lemma_stone_unique(b: Board, x: int, y: int)
    requires
        b.wf(),
    ensures
        !(b.has_stone(Color::Black, x, y) && b.has_stone(Color::White, x, y)),
{
    if b.has_stone(Color::Black, x, y) && b.has_stone(Color::White, x, y) {
        let i = cell_index(x, y) as u64;
        let pb = b.black;
        let pw = b.white;
        assert(!(((pb >> i) & 1u64 == 1u64 && (pw >> i) & 1u64 == 1u64) && pb & pw == 0u64))
            by (bit_vector);
    }
}

/// A well-formed board never holds both colors on one cell.
proof fn lemma_not_both(b: Board, c: Color, x: int, y: int)
    requires
        b.wf(),
    ensures
        !(b.has_stone(c, x, y) && b.has_stone(c.other_spec(), x, y)),
{
    match c {
        Color::Black => lemma_stone_unique(b, x, y),
        Color::White => lemma_stone_unique(b, x, y),
    }
}

/// Each cell of an opponent run holds an opponent stone.
proof fn lemma_opp_run_cell(
    b: Board,
    c: Color,
    x: int,
    y: int,
    dx: int,
    dy: int,
    m: nat,
    k: int,
)
    requires
        b.opp_run(c, x, y, dx, dy, m),
        1 <= k <= m,
    ensures
        b.has_stone(c.other_spec(), x + k * dx, y + k * dy),
    decreases m,
{
    if k == 1 {
        assert(1 * dx == dx && 1 * dy == dy) by (nonlinear_arith);
    } else {
        lemma_opp_run_cell(b, c, x + dx, y + dy, dx, dy, (m - 1) as nat, k - 1);
        assert((x + dx) + (k - 1) * dx == x + k * dx) by (nonlinear_arith);
        assert((y + dy) + (k - 1) * dy == y + k * dy) by (nonlinear_arith);
    }
}

/// A run extends by one opponent cell at its far end.
proof fn lemma_opp_run_extend(b: Board, c: Color, x: int, y: int, dx: int, dy: int, m: nat)
    requires
        b.opp_run(c, x, y, dx, dy, m),
        b.has_stone(c.other_spec(), x + (m + 1) * dx, y + (m + 1) * dy),
    ensures
        b.opp_run(c, x, y, dx, dy, (m + 1) as nat),
    decreases m,
{
    if m == 0 {
        assert((0 + 1) * dx == dx && (0 + 1) * dy == dy) by (nonlinear_arith);
        assert(b.opp_run(c, x + dx, y + dy, dx, dy, 0));
    } else {
        assert((x + dx) + ((m - 1) + 1) * dx == x + (m + 1) * dx) by (nonlinear_arith);
        assert((y + dy) + ((m - 1) + 1) * dy == y + (m + 1) * dy) by (nonlinear_arith);
        lemma_opp_run_extend(b, c, x + dx, y + dy, dx, dy, (m - 1) as nat);
    }
}

/// A run closed off by one of the mover's stones yields `ray_closed`.
proof fn lemma_run_ray_closed(
    b: Board,
    c: Color,
    x: int,
    y: int,
    dx: int,
    dy: int,
    m: nat,
    fuel: nat,
)
    requires
        b.opp_run(c, x, y, dx, dy, m),
        b.has_stone(c, x + (m + 1) * dx, y + (m + 1) * dy),
        fuel >= m + 1,
    ensures
        b.ray_closed(c, x, y, dx, dy, fuel),
    decreases m,
{
    if m == 0 {
        assert((0 + 1) * dx == dx && (0 + 1) * dy == dy) by (nonlinear_arith);
    } else {
        assert((x + dx) + ((m - 1) + 1) * dx == x + (m + 1) * dx) by (nonlinear_arith);
        assert((y + dy) + ((m - 1) + 1) * dy == y + (m + 1) * dy) by (nonlinear_arith);
        lemma_run_ray_closed(b, c, x + dx, y + dy, dx, dy, (m - 1) as nat, (fuel - 1) as nat);
    }
}

/// Past a blocked run no closure exists, whatever the fuel.
proof fn lemma_blocked_not_closed(b: Board, c: Color, x: int, y: int, dx: int, dy: int, m: nat)
    requires
        b.wf(),
        b.opp_run(c, x, y, dx, dy, m),
        !b.has_stone(c.other_spec(), x + (m + 1) * dx, y + (m + 1) * dy),
        !b.has_stone(c, x + (m + 1) * dx, y + (m + 1) * dy),
    ensures
        forall|fuel: nat| !(#[trigger] b.ray_closed(c, x, y, dx, dy, fuel)),
    decreases m,
{
    if m == 0 {
        assert((0 + 1) * dx == dx && (0 + 1) * dy == dy) by (nonlinear_arith);
        assert forall|fuel: nat| !(#[trigger] b.ray_closed(c, x, y, dx, dy, fuel)) by {
            assert(!b.has_stone(c, x + dx, y + dy));
            assert(!b.has_stone(c.other_spec(), x + dx, y + dy));
        }
    } else {
        assert((x + dx) + ((m - 1) + 1) * dx == x + (m + 1) * dx) by (nonlinear_arith);
        assert((y + dy) + ((m - 1) + 1) * dy == y + (m + 1) * dy) by (nonlinear_arith);
        lemma_blocked_not_closed(b, c, x + dx, y + dy, dx, dy, (m - 1) as nat);
        assert(1 * dx == dx && 1 * dy == dy) by (nonlinear_arith);
        lemma_opp_run_cell(b, c, x, y, dx, dy, m, 1);
        lemma_not_both(b, c, x + dx, y + dy);
        assert forall|fuel: nat| !(#[trigger] b.ray_closed(c, x, y, dx, dy, fuel)) by {
            if fuel > 0 {
                assert(!b.ray_closed(c, x + dx, y + dy, dx, dy, (fuel - 1) as nat));
            }
        }
    }
}

/// Nothing is captured in a direction whose run is empty or never closed.
proof fn lemma_no_capture(b: Board, c: Color, x: int, y: int, dx: int, dy: int, m: nat)
    requires
        b.wf(),
        b.opp_run(c, x, y, dx, dy, m),
        !b.has_stone(c.other_spec(), x + (m + 1) * dx, y + (m + 1) * dy),
        m == 0 || !b.has_stone(c, x + (m + 1) * dx, y + (m + 1) * dy),
    ensures
        forall|qx: int, qy: int, fuel: nat|
            !(#[trigger] b.captured_from(c, x, y, dx, dy, qx, qy, fuel)),
    decreases m,
{
    if m == 0 {
        assert((0 + 1) * dx == dx && (0 + 1) * dy == dy) by (nonlinear_arith);
        assert forall|qx: int, qy: int, fuel: nat|
            !(#[trigger] b.captured_from(c, x, y, dx, dy, qx, qy, fuel)) by {
            assert(!b.has_stone(c.other_spec(), x + dx, y + dy));
        }
    } else {
        assert((x + dx) + ((m - 1) + 1) * dx == x + (m + 1) * dx) by (nonlinear_arith);
        assert((y + dy) + ((m - 1) + 1) * dy == y + (m + 1) * dy) by (nonlinear_arith);
        lemma_no_capture(b, c, x + dx, y + dy, dx, dy, (m - 1) as nat);
        lemma_blocked_not_closed(b, c, x + dx, y + dy, dx, dy, (m - 1) as nat);
        assert forall|qx: int, qy: int, fuel: nat|
            !(#[trigger] b.captured_from(c, x, y, dx, dy, qx, qy, fuel)) by {
            if fuel > 0 {
                assert(!b.ray_closed(c, x + dx, y + dy, dx, dy, 8));
                assert(!b.captured_from(c, x + dx, y + dy, dx, dy, qx, qy, (fuel - 1) as nat));
            }
        }
    }
}

/// `on_ray_within` grows one cell at a time at the far end.
proof fn lemma_on_ray_last(x: int, y: int, dx: int, dy: int, qx: int, qy: int, m: nat)
    requires
        m >= 1,
    ensures
        on_ray_within(x, y, dx, dy, qx, qy, m) == (on_ray_within(
            x,
            y,
            dx,
            dy,
            qx,
            qy,
            (m - 1) as nat,
        ) || (qx == x + m * dx && qy == y + m * dy)),
    decreases m,
{
    if m == 1 {
        assert(1 * dx == dx && 1 * dy == dy) by (nonlinear_arith);
        assert(!on_ray_within(x + dx, y + dy, dx, dy, qx, qy, 0));
        assert(!on_ray_within(x, y, dx, dy, qx, qy, 0));
    } else {
        lemma_on_ray_last(x + dx, y + dy, dx, dy, qx, qy, (m - 1) as nat);
        assert((x + dx) + (m - 1) * dx == x + m * dx) by (nonlinear_arith);
        assert((y + dy) + (m - 1) * dy == y + m * dy) by (nonlinear_arith);
    }
}

/// Exactly the cells of a closed run are captured through its direction.
proof fn lemma_capture_run(
    b: Board,
    c: Color,
    x: int,
    y: int,
    dx: int,
    dy: int,
    m: nat,
    fuel: nat,
)
    requires
        b.wf(),
        1 <= m <= 7,
        b.opp_run(c, x, y, dx, dy, m),
        b.has_stone(c, x + (m + 1) * dx, y + (m + 1) * dy),
        fuel >= m,
    ensures
        forall|qx: int, qy: int| #[trigger]
            b.captured_from(c, x, y, dx, dy, qx, qy, fuel) == on_ray_within(
                x,
                y,
                dx,
                dy,
                qx,
                qy,
                m,
            ),
    decreases m,
{
    assert(1 * dx == dx && 1 * dy == dy) by (nonlinear_arith);
    lemma_opp_run_cell(b, c, x, y, dx, dy, m, 1);
    assert((x + dx) + ((m - 1) + 1) * dx == x + (m + 1) * dx) by (nonlinear_arith);
    assert((y + dy) + ((m - 1) + 1) * dy == y + (m + 1) * dy) by (nonlinear_arith);
    lemma_run_ray_closed(b, c, x + dx, y + dy, dx, dy, (m - 1) as nat, 8);
    if m == 1 {
        lemma_not_both(b, c, x + (1 + 1) * dx, y + (1 + 1) * dy);
        assert((x + dx) + dx == x + (1 + 1) * dx) by (nonlinear_arith);
        assert((y + dy) + dy == y + (1 + 1) * dy) by (nonlinear_arith);
        assert(!b.has_stone(c.other_spec(), (x + dx) + dx, (y + dy) + dy));
        assert forall|qx: int, qy: int| #[trigger]
            b.captured_from(c, x, y, dx, dy, qx, qy, fuel) == on_ray_within(
                x,
                y,
                dx,
                dy,
                qx,
                qy,
                m,
            ) by {
            assert(!b.captured_from(c, x + dx, y + dy, dx, dy, qx, qy, (fuel - 1) as nat));
            assert(!on_ray_within(x + dx, y + dy, dx, dy, qx, qy, 0));
        }
    } else {
        lemma_capture_run(b, c, x + dx, y + dy, dx, dy, (m - 1) as nat, (fuel - 1) as nat);
        assert forall|qx: int, qy: int| #[trigger]
            b.captured_from(c, x, y, dx, dy, qx, qy, fuel) == on_ray_within(
                x,
                y,
                dx,
                dy,
                qx,
                qy,
                m,
            ) by {
            assert(b.captured_from(c, x + dx, y + dy, dx, dy, qx, qy, (fuel - 1) as nat)
                == on_ray_within(x + dx, y + dy, dx, dy, qx, qy, (m - 1) as nat));
        }
    }
}

/// A captured cell holds an opponent stone.
proof fn lemma_captured_from_opponent(
    b: Board,
    c: Color,
    x: int,
    y: int,
    dx: int,
    dy: int,
    qx: int,
    qy: int,
    fuel: nat,
)
    requires
        b.captured_from(c, x, y, dx, dy, qx, qy, fuel),
    ensures
        b.has_stone(c.other_spec(), qx, qy),
    decreases fuel,
{
    if !(qx == x + dx && qy == y + dy && b.ray_closed(c, x + dx, y + dy, dx, dy, 8)) {
        lemma_captured_from_opponent(b, c, x + dx, y + dy, dx, dy, qx, qy, (fuel - 1) as nat);
    }
}

/// A captured cell holds an opponent stone, whatever the direction.
proof fn lemma_captured_opponent(b: Board, c: Color, px: int, py: int, qx: int, qy: int)
    requires
        b.captured_spec(c, px, py, qx, qy),
    ensures
        b.has_stone(c.other_spec(), qx, qy),
{
    if b.captured_from(c, px, py, -1, -1, qx, qy, 8) {
        lemma_captured_from_opponent(b, c, px, py, -1, -1, qx, qy, 8);
    } else if b.captured_from(c, px, py, 0, -1, qx, qy, 8) {
        lemma_captured_from_opponent(b, c, px, py, 0, -1, qx, qy, 8);
    } else if b.captured_from(c, px, py, 1, -1, qx, qy, 8) {
        lemma_captured_from_opponent(b, c, px, py, 1, -1, qx, qy, 8);
    } else if b.captured_from(c, px, py, -1, 0, qx, qy, 8) {
        lemma_captured_from_opponent(b, c, px, py, -1, 0, qx, qy, 8);
    } else if b.captured_from(c, px, py, 1, 0, qx, qy, 8) {
        lemma_captured_from_opponent(b, c, px, py, 1, 0, qx, qy, 8);
    } else if b.captured_from(c, px, py, -1, 1, qx, qy, 8) {
        lemma_captured_from_opponent(b, c, px, py, -1, 1, qx, qy, 8);
    } else if b.captured_from(c, px, py, 0, 1, qx, qy, 8) {
        lemma_captured_from_opponent(b, c, px, py, 0, 1, qx, qy, 8);
    } else {
        lemma_captured_from_opponent(b, c, px, py, 1, 1, qx, qy, 8);
    }
}

/// On-board cells have matching plane indices exactly when they are equal.
proof fn lemma_index_injective(x: int, y: int, qx: int, qy: int)
    requires
        on_board(x, y),
        on_board(qx, qy),
    ensures
        (cell_index(x, y) == cell_index(qx, qy)) == (x == qx && y == qy),
{
}

impl Board {
    /// The flip mask for one direction: every stone the sandwich from (x, y)
    /// along (dx, dy) captures, or an empty mask when nothing closes the run.
    fn scan_flips(&self, side: Color, x: i32, y: i32, dx: i32, dy: i32) -> (f: u64)
        requires
            self.wf(),
            on_board(x as int, y as int),
            is_dir(dx as int, dy as int),
        ensures
            forall|qx: int, qy: int|
                on_board(qx, qy) ==> (#[trigger] plane_bit(f, cell_index(qx, qy))
                    == self.captured_from(
                    side,
                    x as int,
                    y as int,
                    dx as int,
                    dy as int,
                    qx,
                    qy,
                    8,
                )),
    {
        let mut n: i32 = 0;
        let mut tx = x + dx;
        let mut ty = y + dy;
        proof {
            assert(1 * (dx as int) == dx as int && 1 * (dy as int) == dy as int)
                by (nonlinear_arith);
        }
        loop
            invariant
                self.wf(),
                on_board(x as int, y as int),
                is_dir(dx as int, dy as int),
                0 <= n <= 7,
                tx as int == x as int + (n as int + 1) * (dx as int),
                ty as int == y as int + (n as int + 1) * (dy as int),
                -8 <= tx <= 15,
                -8 <= ty <= 15,
                self.opp_run(side, x as int, y as int, dx as int, dy as int, n as nat),
            decreases 8 - n,
        {
            if self.has_stone_at(side.other(), tx, ty) {
                proof {
                    let ni = n as int;
                    let dxi = dx as int;
                    let dyi = dy as int;
                    lemma_opp_run_extend(*self, side, x as int, y as int, dxi, dyi, n as nat);
                    assert(on_board(x as int + (ni + 1) * dxi, y as int + (ni + 1) * dyi));
                    if dxi == 1 {
                        assert((ni + 1) * dxi == ni + 1) by (nonlinear_arith)
                            requires dxi == 1;
                    } else if dxi == -1 {
                        assert((ni + 1) * dxi == -(ni + 1)) by (nonlinear_arith)
                            requires dxi == -1;
                    } else if dyi == 1 {
                        assert((ni + 1) * dyi == ni + 1) by (nonlinear_arith)
                            requires dyi == 1;
                    } else {
                        assert((ni + 1) * dyi == -(ni + 1)) by (nonlinear_arith)
                            requires dyi == -1;
                    }
                    assert(n <= 6);
                    assert((x as int) + ((ni + 1) + 1) * dxi == ((x as int) + (ni + 1) * dxi)
                        + dxi) by (nonlinear_arith);
                    assert((y as int) + ((ni + 1) + 1) * dyi == ((y as int) + (ni + 1) * dyi)
                        + dyi) by (nonlinear_arith);
                }
                n = n + 1;
                tx = tx + dx;
                ty = ty + dy;
            } else if n >= 1 && self.has_stone_at(side, tx, ty) {
                let mut f: u64 = 0;
                proof {
                    lemma_u64_zero();
                }
                let mut k: i32 = 1;
                let mut cx = x + dx;
                let mut cy = y + dy;
                proof {
                    assert(1 * (dx as int) == dx as int && 1 * (dy as int) == dy as int)
                        by (nonlinear_arith);
                }
                while k <= n
                    invariant
                        self.wf(),
                        on_board(x as int, y as int),
                        is_dir(dx as int, dy as int),
                        1 <= n <= 7,
                        1 <= k <= n + 1,
                        cx as int == x as int + (k as int) * (dx as int),
                        cy as int == y as int + (k as int) * (dy as int),
                        -8 <= cx <= 15,
                        -8 <= cy <= 15,
                        self.opp_run(side, x as int, y as int, dx as int, dy as int, n as nat),
                        forall|qx: int, qy: int|
                            on_board(qx, qy) ==> (#[trigger] plane_bit(f, cell_index(qx, qy))
                                == on_ray_within(
                                x as int,
                                y as int,
                                dx as int,
                                dy as int,
                                qx,
                                qy,
                                (k - 1) as nat,
                            )),
                    decreases n + 1 - k,
                {
                    proof {
                        lemma_opp_run_cell(
                            *self,
                            side,
                            x as int,
                            y as int,
                            dx as int,
                            dy as int,
                            n as nat,
                            k as int,
                        );
                    }
                    let idx = get_index(Position(cx, cy));
                    let ghost f0 = f;
                    set_bit(&mut f, idx);
                    proof {
                        lemma_u64_or(f0, 1u64 << idx);
                        lemma_u64_single_bit(idx);
                        assert forall|qx: int, qy: int|
                            on_board(qx, qy) implies (#[trigger] plane_bit(f, cell_index(qx, qy))
                            == on_ray_within(
                            x as int,
                            y as int,
                            dx as int,
                            dy as int,
                            qx,
                            qy,
                            k as nat,
                        )) by {
                            lemma_on_ray_last(
                                x as int,
                                y as int,
                                dx as int,
                                dy as int,
                                qx,
                                qy,
                                k as nat,
                            );
                            lemma_index_injective(cx as int, cy as int, qx, qy);
                        }
                        let ki = k as int;
                        let dxi = dx as int;
                        let dyi = dy as int;
                        assert((x as int) + (ki + 1) * dxi == ((x as int) + ki * dxi) + dxi)
                            by (nonlinear_arith);
                        assert((y as int) + (ki + 1) * dyi == ((y as int) + ki * dyi) + dyi)
                            by (nonlinear_arith);
                    }
                    k = k + 1;
                    cx = cx + dx;
                    cy = cy + dy;
                }
                proof {
                    lemma_capture_run(
                        *self,
                        side,
                        x as int,
                        y as int,
                        dx as int,
                        dy as int,
                        n as nat,
                        8,
                    );
                }
                return f;
            } else {
                proof {
                    lemma_no_capture(
                        *self,
                        side,
                        x as int,
                        y as int,
                        dx as int,
                        dy as int,
                        n as nat,
                    );
                    lemma_u64_zero();
                }
                return 0;
            }
        }
    }

    /// Apply a move: place `side` on `pos` and flip every sandwiched run, or
    /// report `OutOfBounds` off the board. The placement itself is not tested
    /// for legality: a move with no captures just places the stone.
    pub fn make_move(&self, side: Color, pos: Position) -> (r: Result<Board, BoardError>)
        requires
            self.wf(),
        ensures
            pos.in_bounds_spec() ==> (r matches Ok(b2) && self.move_result(
                side,
                pos.0 as int,
                pos.1 as int,
                b2,
            ) && b2 == self.apply_spec(side, pos.0 as int, pos.1 as int)),
            !pos.in_bounds_spec() ==> r == Err::<Board, BoardError>(BoardError::OutOfBounds),
    {
        if !pos.in_bounds() {
            return Err(BoardError::OutOfBounds);
        }
        let Position(x, y) = pos;
        let ghost px = x as int;
        let ghost py = y as int;
        let idx0 = get_index(pos);
        let f0: u64 = 1u64 << idx0;
        proof {
            lemma_u64_single_bit(idx0);
        }
        let f1 = self.scan_flips(side, x, y, -1, -1);
        let f2 = self.scan_flips(side, x, y, 0, -1);
        let f3 = self.scan_flips(side, x, y, 1, -1);
        let f4 = self.scan_flips(side, x, y, -1, 0);
        let f5 = self.scan_flips(side, x, y, 1, 0);
        let f6 = self.scan_flips(side, x, y, -1, 1);
        let f7 = self.scan_flips(side, x, y, 0, 1);
        let f8 = self.scan_flips(side, x, y, 1, 1);
        let g1 = f0 | f1;
        let g2 = g1 | f2;
        let g3 = g2 | f3;
        let g4 = g3 | f4;
        let g5 = g4 | f5;
        let g6 = g5 | f6;
        let g7 = g6 | f7;
        let flip_stones = g7 | f8;
        proof {
            lemma_u64_or(f0, f1);
            lemma_u64_or(g1, f2);
            lemma_u64_or(g2, f3);
            lemma_u64_or(g3, f4);
            lemma_u64_or(g4, f5);
            lemma_u64_or(g5, f6);
            lemma_u64_or(g6, f7);
            lemma_u64_or(g7, f8);
            assert forall|qx: int, qy: int|
                on_board(qx, qy) implies (#[trigger] plane_bit(flip_stones, cell_index(qx, qy))
                == ((qx == px && qy == py) || self.captured_spec(side, px, py, qx, qy))) by {
                lemma_index_injective(px, py, qx, qy);
            }
        }
        let my0 = self.get_stones(side);
        let oth0 = self.get_stones(side.other());
        let my1 = my0 | flip_stones;
        let oth1 = oth0 & !flip_stones;
        let b2 = match side {
            Color::Black => Board { black: my1, white: oth1 },
            Color::White => Board { black: oth1, white: my1 },
        };
        proof {
            let fs = flip_stones;
            assert((my0 | fs) & (oth0 & !fs) == 0u64 && (oth0 & !fs) & (my0 | fs) == 0u64)
                by (bit_vector)
                requires my0 & oth0 == 0u64 || oth0 & my0 == 0u64;
            assert(b2.wf());
            assert(b2.stones_spec(side) == my1);
            assert(b2.stones_spec(side.other_spec()) == oth1);
            lemma_u64_or(my0, fs);
            lemma_u64_and_not(oth0, fs);
            assert(self.move_result(side, px, py, b2));
            let bc = self.apply_spec(side, px, py);
            assert(self.move_result(side, px, py, bc));
            lemma_move_result_unique(*self, side, px, py, b2, bc);
        }
        Ok(b2)
    }
}

/// One of the four scan step kinds: row, column, or one of the diagonals.
pub open spec fn unit_step(ux: int, uy: int) -> bool {
    ||| (ux == 1 && uy == 0)
    ||| (ux == 0 && uy == 1)
    ||| (ux == 1 && uy == 1)
    ||| (ux == 1 && uy == -1)
}

/// (x, y) lies on the 8-cell scan line from (sx, sy) with step (ux, uy).
pub open spec fn on_scan_line(sx: int, sy: int, ux: int, uy: int, x: int, y: int) -> bool {
    let o = if ux == 1 {
        x - sx
    } else {
        y - sy
    };
    0 <= o < 8 && x == sx + o * ux && y == sy + o * uy
}

impl Board {
    /// Legal for `c` at (x, y) through a sandwich along the axis (ux, uy).
    pub open spec fn legal_via_step(self, c: Color, x: int, y: int, ux: int, uy: int) -> bool {
        self.empty_at(x, y) && (self.dir_captures(c, x, y, ux, uy) || self.dir_captures(
            c,
            x,
            y,
            -ux,
            -uy,
        ))
    }
}

/// A closed run reads the same off the packed line and off the board.
proof fn lemma_closed_matches(
    b: Board,
    c: Color,
    myl: u8,
    otherl: u8,
    ax: int,
    ay: int,
    ux: int,
    uy: int,
    j: int,
    d: int,
    fuel: nat,
)
    requires
        plane_line_matches(b.stones_spec(c), myl, ax, ay, ux, uy),
        plane_line_matches(b.stones_spec(c.other_spec()), otherl, ax, ay, ux, uy),
        d == 1 || d == -1,
    ensures
        line_closed(myl, otherl, j, d, fuel) == b.ray_closed(
            c,
            ax + j * ux,
            ay + j * uy,
            d * ux,
            d * uy,
            fuel,
        ),
    decreases fuel,
{
    if fuel > 0 {
        assert(ax + (j + d) * ux == (ax + j * ux) + d * ux) by (nonlinear_arith);
        assert(ay + (j + d) * uy == (ay + j * uy) + d * uy) by (nonlinear_arith);
        assert(line_bit(myl, j + d) == b.has_stone(c, ax + (j + d) * ux, ay + (j + d) * uy));
        assert(line_bit(otherl, j + d) == b.has_stone(
            c.other_spec(),
            ax + (j + d) * ux,
            ay + (j + d) * uy,
        ));
        lemma_closed_matches(b, c, myl, otherl, ax, ay, ux, uy, j + d, d, (fuel - 1) as nat);
    }
}

/// A sandwich reads the same off the packed line and off the board.
proof fn lemma_sandwich_matches(
    b: Board,
    c: Color,
    myl: u8,
    otherl: u8,
    ax: int,
    ay: int,
    ux: int,
    uy: int,
    o: int,
    d: int,
)
    requires
        plane_line_matches(b.stones_spec(c), myl, ax, ay, ux, uy),
        plane_line_matches(b.stones_spec(c.other_spec()), otherl, ax, ay, ux, uy),
        d == 1 || d == -1,
    ensures
        line_sandwich(myl, otherl, o, d) == b.dir_captures(
            c,
            ax + o * ux,
            ay + o * uy,
            d * ux,
            d * uy,
        ),
{
    assert(ax + (o + d) * ux == (ax + o * ux) + d * ux) by (nonlinear_arith);
    assert(ay + (o + d) * uy == (ay + o * uy) + d * uy) by (nonlinear_arith);
    assert(line_bit(otherl, o + d) == b.has_stone(
        c.other_spec(),
        ax + (o + d) * ux,
        ay + (o + d) * uy,
    ));
    lemma_closed_matches(b, c, myl, otherl, ax, ay, ux, uy, o + d, d, 8);
}

/// A legal line offset that lands on the board is exactly a legal board cell
/// along this line's axis; offsets past a short diagonal's edge never land.
proof fn lemma_line_legal_matches(
    b: Board,
    c: Color,
    myl: u8,
    otherl: u8,
    ax: int,
    ay: int,
    ux: int,
    uy: int,
    o: int,
)
    requires
        b.wf(),
        plane_line_matches(b.stones_spec(c), myl, ax, ay, ux, uy),
        plane_line_matches(b.stones_spec(c.other_spec()), otherl, ax, ay, ux, uy),
        0 <= o < 8,
    ensures
        (line_legal(myl, otherl, o) && on_board(ax + o * ux, ay + o * uy)) == b.legal_via_step(
            c,
            ax + o * ux,
            ay + o * uy,
            ux,
            uy,
        ),
{
    lemma_sandwich_matches(b, c, myl, otherl, ax, ay, ux, uy, o, 1);
    lemma_sandwich_matches(b, c, myl, otherl, ax, ay, ux, uy, o, -1);
    assert(1 * ux == ux && 1 * uy == uy) by (nonlinear_arith);
    assert((-1) * ux == -ux && (-1) * uy == -uy) by (nonlinear_arith);
    assert(line_bit(myl, o) == b.has_stone(c, ax + o * ux, ay + o * uy));
    assert(line_bit(otherl, o) == b.has_stone(c.other_spec(), ax + o * ux, ay + o * uy));
    match c {
        Color::Black => {},
        Color::White => {},
    }
}

/// Multiplying by a unit factor only keeps, clears or negates a value.
proof fn lemma_mul_unit(o: int, u: int)
    ensures
        u == 1 ==> o * u == o,
        u == 0 ==> o * u == 0,
        u == -1 ==> o * u == -o,
{
    assert(o * 1 == o) by (nonlinear_arith);
    assert(o * 0 == 0) by (nonlinear_arith);
    assert(o * (-1) == -o) by (nonlinear_arith);
}

impl Board {
    /// Fold one extracted line into the move mask: set the bit of every board
    /// cell on this line where the line scan finds a legal destination.
    #[verifier::loop_isolation(false)]
    fn add_line_moves(
        &self,
        side: Color,
        myl: u8,
        ol: u8,
        sx: i32,
        sy: i32,
        ux: i32,
        uy: i32,
        mask: &mut u64,
    )
        requires
            self.wf(),
            plane_line_matches(
                self.stones_spec(side),
                myl,
                sx as int,
                sy as int,
                ux as int,
                uy as int,
            ),
            plane_line_matches(
                self.stones_spec(side.other_spec()),
                ol,
                sx as int,
                sy as int,
                ux as int,
                uy as int,
            ),
            unit_step(ux as int, uy as int),
            on_board(sx as int, sy as int),
        ensures
            forall|x: int, y: int|
                on_board(x, y) ==> (#[trigger] plane_bit(*final(mask), cell_index(x, y)) == (
                plane_bit(*old(mask), cell_index(x, y)) || (on_scan_line(
                    sx as int,
                    sy as int,
                    ux as int,
                    uy as int,
                    x,
                    y,
                ) && self.legal_via_step(side, x, y, ux as int, uy as int)))),
    {
        let mv = get_linear_moves(myl, ol);
        let mut t: usize = 0;
        while t < mv.len()
            invariant
                t <= mv@.len(),
                forall|x: int, y: int|
                    on_board(x, y) ==> (#[trigger] plane_bit(*mask, cell_index(x, y)) == (
                    plane_bit(*old(mask), cell_index(x, y)) || (on_scan_line(
                        sx as int,
                        sy as int,
                        ux as int,
                        uy as int,
                        x,
                        y,
                    ) && self.legal_via_step(side, x, y, ux as int, uy as int) && (exists|s: int|
                        0 <= s < t && mv@[s] as int == (if ux as int == 1 {
                            x - sx
                        } else {
                            y - sy
                        }))))),
            decreases mv@.len() - t,
        {
            let off = mv[t];
            proof {
                assert(line_legal(myl, ol, mv@[t as int] as int));
                lemma_mul_unit(off as int, ux as int);
                lemma_mul_unit(off as int, uy as int);
            }
            let o = off as i32;
            let px = sx + o * ux;
            let py = sy + o * uy;
            proof {
                lemma_line_legal_matches(
                    *self,
                    side,
                    myl,
                    ol,
                    sx as int,
                    sy as int,
                    ux as int,
                    uy as int,
                    o as int,
                );
            }
            if px >= 0 && px < 8 && py >= 0 && py < 8 {
                let idxp = get_index(Position(px, py));
                let ghost m0 = *mask;
                set_bit(mask, idxp);
                proof {
                    lemma_u64_or(m0, 1u64 << idxp);
                    lemma_u64_single_bit(idxp);
                    assert(on_scan_line(
                        sx as int,
                        sy as int,
                        ux as int,
                        uy as int,
                        px as int,
                        py as int,
                    ));
                    assert forall|x: int, y: int|
                        on_board(x, y) implies (#[trigger] plane_bit(*mask, cell_index(x, y)) == (
                    plane_bit(*old(mask), cell_index(x, y)) || (on_scan_line(
                        sx as int,
                        sy as int,
                        ux as int,
                        uy as int,
                        x,
                        y,
                    ) && self.legal_via_step(side, x, y, ux as int, uy as int) && (exists|s: int|
                        0 <= s < t + 1 && mv@[s] as int == (if ux as int == 1 {
                            x - sx
                        } else {
                            y - sy
                        }))))) by {
                        lemma_index_injective(px as int, py as int, x, y);
                        if x == px as int && y == py as int {
                            assert(mv@[t as int] as int == (if ux as int == 1 {
                                x - sx
                            } else {
                                y - sy
                            }));
                        } else {
                            if on_scan_line(sx as int, sy as int, ux as int, uy as int, x, y) {
                                let oxy = if ux as int == 1 {
                                    x - sx
                                } else {
                                    y - sy
                                };
                                lemma_mul_unit(oxy, ux as int);
                                lemma_mul_unit(oxy, uy as int);
                                assert(mv@[t as int] as int != oxy);
                            }
                        }
                    }
                }
            } else {
                proof {
                    assert forall|x: int, y: int|
                        on_board(x, y) && on_scan_line(
                            sx as int,
                            sy as int,
                            ux as int,
                            uy as int,
                            x,
                            y,
                        ) && (if ux as int == 1 {
                            x - sx
                        } else {
                            y - sy
                        }) == off as int implies false by {
                        assert(x == px as int && y == py as int);
                    }
                }
            }
            t = t + 1;
        }
        proof {
            assert forall|x: int, y: int|
                on_board(x, y) implies (#[trigger] plane_bit(*mask, cell_index(x, y)) == (
            plane_bit(*old(mask), cell_index(x, y)) || (on_scan_line(
                sx as int,
                sy as int,
                ux as int,
                uy as int,
                x,
                y,
            ) && self.legal_via_step(side, x, y, ux as int, uy as int)))) by {
                if on_scan_line(sx as int, sy as int, ux as int, uy as int, x, y)
                    && self.legal_via_step(side, x, y, ux as int, uy as int) {
                    let oxy = if ux as int == 1 {
                        x - sx
                    } else {
                        y - sy
                    };
                    lemma_mul_unit(oxy, ux as int);
                    lemma_mul_unit(oxy, uy as int);
                    lemma_line_legal_matches(
                        *self,
                        side,
                        myl,
                        ol,
                        sx as int,
                        sy as int,
                        ux as int,
                        uy as int,
                        oxy,
                    );
                    assert(line_legal(myl, ol, oxy));
                    assert(mv@.contains(oxy as u8));
                    let s = choose|s: int| 0 <= s < mv@.len() && mv@[s] == oxy as u8;
                    assert(mv@[s] as int == oxy);
                }
            }
        }
    }
}

/// Which scanned down-right diagonal runs through (x, y).
pub open spec fn pos_diag_line(x: int, y: int) -> int {
    if y <= x {
        x - y
    } else {
        7 + (y - x)
    }
}

/// Which scanned down-left diagonal runs through (x, y).
pub open spec fn neg_diag_line(x: int, y: int) -> int {
    x + y
}

impl Board {
    /// Every legal destination for `side`, in increasing cell-index order,
    /// gathered by scanning all rows, columns and diagonals.
    #[verifier::loop_isolation(false)]
    pub fn get_moves(&self, side: Color) -> (moves: Vec<Position>)
        requires
            self.wf(),
        ensures
            forall|t: int|
                0 <= t < moves@.len() ==> ((#[trigger] moves@[t]).in_bounds_spec()
                    && self.legal_move_spec(side, moves@[t].0 as int, moves@[t].1 as int)),
            forall|x: int, y: int| #[trigger]
                self.legal_move_spec(side, x, y) ==> moves@.contains(
                    Position(x as i32, y as i32),
                ),
            forall|t: int, u: int|
                0 <= t < u < moves@.len() ==> cell_index(
                    moves@[t].0 as int,
                    moves@[t].1 as int,
                ) < cell_index(moves@[u].0 as int, moves@[u].1 as int),
    {
        let my_stones = self.get_stones(side);
        let other_stones = self.get_stones(side.other());
        let mut mask: u64 = 0;
        proof {
            lemma_u64_zero();
        }
        // rows: horizontal sandwiches
        let mut row: i32 = 0;
        while row < 8
            invariant
                0 <= row <= 8,
                forall|x: int, y: int|
                    on_board(x, y) ==> (#[trigger] plane_bit(mask, cell_index(x, y)) == (y < row
                        && self.legal_via_step(side, x, y, 1, 0))),
            decreases 8 - row,
        {
            let myl = get_row(my_stones, row);
            let ol = get_row(other_stones, row);
            let ghost m0 = mask;
            self.add_line_moves(side, myl, ol, 0, row, 1, 0, &mut mask);
            proof {
                assert forall|x: int, y: int|
                    on_board(x, y) implies (#[trigger] plane_bit(mask, cell_index(x, y)) == (y
                    < row + 1 && self.legal_via_step(side, x, y, 1, 0))) by {
                    lemma_mul_unit(x, 1);
                    lemma_mul_unit(x, 0);
                    assert(on_scan_line(0, row as int, 1, 0, x, y) == (y == row as int));
                }
            }
            row = row + 1;
        }
        // columns: vertical sandwiches
        let mut col_num: i32 = 0;
        while col_num < 8
            invariant
                0 <= col_num <= 8,
                forall|x: int, y: int|
                    on_board(x, y) ==> (#[trigger] plane_bit(mask, cell_index(x, y)) == (
                    self.legal_via_step(side, x, y, 1, 0) || (x < col_num && self.legal_via_step(
                        side,
                        x,
                        y,
                        0,
                        1,
                    )))),
            decreases 8 - col_num,
        {
            let myl = get_col(my_stones, col_num);
            let ol = get_col(other_stones, col_num);
            self.add_line_moves(side, myl, ol, col_num, 0, 0, 1, &mut mask);
            proof {
                assert forall|x: int, y: int|
                    on_board(x, y) implies (#[trigger] plane_bit(mask, cell_index(x, y)) == (
                self.legal_via_step(side, x, y, 1, 0) || (x < col_num + 1 && self.legal_via_step(
                    side,
                    x,
                    y,
                    0,
                    1,
                )))) by {
                    lemma_mul_unit(y, 1);
                    lemma_mul_unit(y, 0);
                    assert(on_scan_line(col_num as int, 0, 0, 1, x, y) == (x == col_num as int));
                }
            }
            col_num = col_num + 1;
        }
        // down-right diagonals, from every top-row or left-column start
        let mut pd: i32 = 0;
        while pd < 15
            invariant
                0 <= pd <= 15,
                forall|x: int, y: int|
                    on_board(x, y) ==> (#[trigger] plane_bit(mask, cell_index(x, y)) == (
                    self.legal_via_step(side, x, y, 1, 0) || self.legal_via_step(side, x, y, 0, 1)
                        || (pos_diag_line(x, y) < pd && self.legal_via_step(side, x, y, 1, 1)))),
            decreases 15 - pd,
        {
            let start = if pd < 8 {
                Position(pd, 0)
            } else {
                Position(0, pd - 7)
            };
            let myl = get_positive_diag(my_stones, start);
            let ol = get_positive_diag(other_stones, start);
            self.add_line_moves(side, myl, ol, start.0, start.1, 1, 1, &mut mask);
            proof {
                assert forall|x: int, y: int|
                    on_board(x, y) implies (#[trigger] plane_bit(mask, cell_index(x, y)) == (
                self.legal_via_step(side, x, y, 1, 0) || self.legal_via_step(side, x, y, 0, 1) || (
                pos_diag_line(x, y) < pd + 1 && self.legal_via_step(side, x, y, 1, 1)))) by {
                    lemma_mul_unit(x - start.0 as int, 1);
                    assert(on_scan_line(start.0 as int, start.1 as int, 1, 1, x, y) == (
                    pos_diag_line(x, y) == pd as int));
                }
            }
            pd = pd + 1;
        }
        // down-left diagonals, from every left-column or bottom-row start
        let mut nd: i32 = 0;
        while nd < 15
            invariant
                0 <= nd <= 15,
                forall|x: int, y: int|
                    on_board(x, y) ==> (#[trigger] plane_bit(mask, cell_index(x, y)) == (
                    self.legal_via_step(side, x, y, 1, 0) || self.legal_via_step(side, x, y, 0, 1)
                        || self.legal_via_step(side, x, y, 1, 1) || (neg_diag_line(x, y) < nd
                        && self.legal_via_step(side, x, y, 1, -1)))),
            decreases 15 - nd,
        {
            let start = if nd < 8 {
                Position(0, nd)
            } else {
                Position(nd - 7, 7)
            };
            let myl = get_negative_diag(my_stones, start);
            let ol = get_negative_diag(other_stones, start);
            self.add_line_moves(side, myl, ol, start.0, start.1, 1, -1, &mut mask);
            proof {
                assert forall|x: int, y: int|
                    on_board(x, y) implies (#[trigger] plane_bit(mask, cell_index(x, y)) == (
                self.legal_via_step(side, x, y, 1, 0) || self.legal_via_step(side, x, y, 0, 1)
                    || self.legal_via_step(side, x, y, 1, 1) || (neg_diag_line(x, y) < nd + 1
                    && self.legal_via_step(side, x, y, 1, -1)))) by {
                    lemma_mul_unit(x - start.0 as int, 1);
                    lemma_mul_unit(x - start.0 as int, -1);
                    assert(on_scan_line(start.0 as int, start.1 as int, 1, -1, x, y) == (
                    neg_diag_line(x, y) == nd as int));
                }
            }
            nd = nd + 1;
        }
        proof {
            assert forall|x: int, y: int|
                on_board(x, y) implies (#[trigger] plane_bit(mask, cell_index(x, y))
                == self.legal_move_spec(side, x, y)) by {
                assert(pos_diag_line(x, y) < 15 && neg_diag_line(x, y) < 15);
            }
        }
        // gather the mask into an ordered, duplicate-free move list
        let mut moves: Vec<Position> = Vec::new();
        let mut i: u64 = 0;
        while i < 64
            invariant
                i <= 64,
                forall|s: int|
                    0 <= s < moves@.len() ==> ((#[trigger] moves@[s]).in_bounds_spec()
                        && plane_bit(mask, cell_index(moves@[s].0 as int, moves@[s].1 as int))
                        && cell_index(moves@[s].0 as int, moves@[s].1 as int) < i),
                forall|s: int, u: int|
                    0 <= s < u < moves@.len() ==> cell_index(
                        moves@[s].0 as int,
                        moves@[s].1 as int,
                    ) < cell_index(moves@[u].0 as int, moves@[u].1 as int),
                forall|idx: int|
                    0 <= idx < i && #[trigger] plane_bit(mask, idx) ==> moves@.contains(
                        Position((idx % 8) as i32, (idx / 8) as i32),
                    ),
            decreases 64 - i,
        {
            if get_bit(mask, i) {
                let p = Position((i % 8) as i32, (i / 8) as i32);
                proof {
                    assert(cell_index(p.0 as int, p.1 as int) == i as int);
                }
                let ghost before = moves@;
                moves.push(p);
                proof {
                    assert forall|idx: int|
                        0 <= idx < i + 1 && #[trigger] plane_bit(mask, idx) implies moves@.contains(
                        Position((idx % 8) as i32, (idx / 8) as i32),
                    ) by {
                        if idx < i {
                            let s = choose|s: int|
                                0 <= s < before.len() && before[s] == Position(
                                    (idx % 8) as i32,
                                    (idx / 8) as i32,
                                );
                            assert(moves@[s] == Position((idx % 8) as i32, (idx / 8) as i32));
                        } else {
                            assert(moves@[before.len() as int] == p);
                        }
                    }
                }
            }
            i = i + 1;
        }
        proof {
            assert forall|x: int, y: int| #[trigger]
                self.legal_move_spec(side, x, y) implies moves@.contains(
                Position(x as i32, y as i32),
            ) by {
                let idx = cell_index(x, y);
                assert(plane_bit(mask, idx));
                assert(idx % 8 == x && idx / 8 == y);
            }
            assert forall|t: int|
                0 <= t < moves@.len() implies ((#[trigger] moves@[t]).in_bounds_spec()
                && self.legal_move_spec(side, moves@[t].0 as int, moves@[t].1 as int)) by {
                assert(plane_bit(mask, cell_index(moves@[t].0 as int, moves@[t].1 as int)));
            }
        }
        moves
    }
}

/// A move's outcome is determined: two boards that relate to the same board
/// by the same move are equal.
pub proof fn lemma_move_result_unique(
    b: Board,
    c: Color,
    px: int,
    py: int,
    b2: Board,
    b3: Board,
)
    requires
        b.move_result(c, px, py, b2),
        b.move_result(c, px, py, b3),
    ensures
        b2 == b3,
{
    assert forall|i: int| plane_bit(b2.black, i) == plane_bit(b3.black, i) by {
        if 0 <= i < 64 {
            let x = i % 8;
            let y = i / 8;
            assert(on_board(x, y));
            assert(cell_index(x, y) == i);
            assert(b2.has_stone(c, x, y) == b3.has_stone(c, x, y));
            assert(b2.has_stone(c.other_spec(), x, y) == b3.has_stone(c.other_spec(), x, y));
        }
    }
    lemma_u64_bit_ext(b2.black, b3.black);
    assert forall|i: int| plane_bit(b2.white, i) == plane_bit(b3.white, i) by {
        if 0 <= i < 64 {
            let x = i % 8;
            let y = i / 8;
            assert(on_board(x, y));
            assert(cell_index(x, y) == i);
            assert(b2.has_stone(c, x, y) == b3.has_stone(c, x, y));
            assert(b2.has_stone(c.other_spec(), x, y) == b3.has_stone(c.other_spec(), x, y));
        }
    }
    lemma_u64_bit_ext(b2.white, b3.white);
}

impl Board {
    /// Whether plane index `i` holds a stone of either color.
    pub open spec fn occ_index(self, i: int) -> bool {
        plane_bit(self.black, i) || plane_bit(self.white, i)
    }

    /// The number of occupied cells among plane indices 0 .. n.
    pub open spec fn count_upto(self, n: int) -> int
        decreases n,
    {
        if n <= 0 {
            0
        } else {
            self.count_upto(n - 1) + (if self.occ_index(n - 1) {
                1int
            } else {
                0int
            })
        }
    }

    /// The total number of stones of both colors on the board.
    pub open spec fn stone_count(self) -> int {
        self.count_upto(64)
    }
}

/// Setting one fresh plane index raises the count below any bound past it by one.
proof fn lemma_count_set(b: Board, b2: Board, j: int, n: int)
    requires
        0 <= j < 64,
        !b.occ_index(j),
        forall|i: int| 0 <= i < 64 ==> (#[trigger] b2.occ_index(i) == (b.occ_index(i) || i == j)),
        n <= 64,
    ensures
        b2.count_upto(n) == b.count_upto(n) + (if j < n {
            1int
        } else {
            0int
        }),
    decreases n,
{
    if n > 0 {
        lemma_count_set(b, b2, j, n - 1);
        assert(b2.occ_index(n - 1) == (b.occ_index(n - 1) || n - 1 == j));
    }
}

/// Applying a move to an empty destination grows the total stone count by
/// exactly one: the new stone is placed and captures only recolor stones.
pub proof fn lemma_move_adds_one_stone(b: Board, c: Color, px: int, py: int, b2: Board)
    requires
        b.wf(),
        b.empty_at(px, py),
        b.move_result(c, px, py, b2),
    ensures
        b2.stone_count() == b.stone_count() + 1,
{
    let j = cell_index(px, py);
    assert forall|i: int| 0 <= i < 64 implies (#[trigger] b2.occ_index(i) == (b.occ_index(i) || i
        == j)) by {
        let x = i % 8;
        let y = i / 8;
        assert(on_board(x, y));
        assert(cell_index(x, y) == i);
        lemma_index_injective(x, y, px, py);
        assert(b2.has_stone(c, x, y) == (b.has_stone(c, x, y) || (x == px && y == py)
            || b.captured_spec(c, px, py, x, y)));
        assert(b2.has_stone(c.other_spec(), x, y) == (b.has_stone(c.other_spec(), x, y) && !(x
            == px && y == py) && !b.captured_spec(c, px, py, x, y)));
        if b.captured_spec(c, px, py, x, y) {
            lemma_captured_opponent(b, c, px, py, x, y);
        }
        match c {
            Color::Black => {},
            Color::White => {},
        }
    }
    lemma_count_set(b, b2, j, 64);
}

} // verus!
