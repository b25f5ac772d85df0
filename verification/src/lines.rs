//! The 1-D sandwich rule over packed 8-bit line slices: a destination offset
//! is legal when it is empty and a nonempty run of opponent cells next to it
//! is closed off by one of the mover's cells.

use vstd::prelude::*;

verus! {

use crate::bits::{line_bit, line_bit_at};

/// From offset `i` (exclusive), stepping by `d`: a possibly empty run of
/// opponent cells ends at one of `my` cells within `fuel` steps.
pub open spec fn line_closed(my: u8, other: u8, i: int, d: int, fuel: nat) -> bool
    decreases fuel,
{
    fuel > 0 && (line_bit(my, i + d) || (line_bit(other, i + d) && line_closed(
        my,
        other,
        i + d,
        d,
        (fuel - 1) as nat,
    )))
}

/// The cell next to offset `i` (stepping by `d`) starts a nonempty run of
/// opponent cells that is closed off by one of `my` cells.
pub open spec fn line_sandwich(my: u8, other: u8, i: int, d: int) -> bool {
    line_bit(other, i + d) && line_closed(my, other, i + d, d, 8)
}

/// Offset `i` is a legal destination on this line: an empty cell with a
/// sandwich extending to its right or to its left.
pub open spec fn line_legal(my: u8, other: u8, i: int) -> bool {
    &&& 0 <= i < 8
    &&& !line_bit(my, i)
    &&& !line_bit(other, i)
    &&& (line_sandwich(my, other, i, 1) || line_sandwich(my, other, i, -1))
}

/// Decide the sandwich rule in one direction by walking along the line.
fn scan_sandwich(my: u8, other: u8, i: i32, d: i32) -> (r: bool)
    requires
        0 <= i < 8,
        d == 1 || d == -1,
    ensures
        r == line_sandwich(my, other, i as int, d as int),
{
    if !line_bit_at(other, i + d) {
        return false;
    }
    let mut j: i32 = i + d;
    let ghost mut k: int = 0;
    loop
        invariant
            d == 1 || d == -1,
            0 <= i < 8,
            0 <= k,
            j == i + d + (if d == 1 { k } else { -k }),
            0 <= j < 8,
            line_bit(other, j as int),
            line_sandwich(my, other, i as int, d as int) == line_closed(
                my,
                other,
                j as int,
                d as int,
                (8 - k) as nat,
            ),
        decreases 7 - k,
    {
        proof {
            // the walk stays on the line, so at most seven steps were taken
            assert(k <= 6);
        }
        if line_bit_at(my, j + d) {
            return true;
        }
        if !line_bit_at(other, j + d) {
            return false;
        }
        j = j + d;
        proof {
            k = k + 1;
        }
    }
}

/// All legal destinations on one line, in increasing offset order.
pub fn get_linear_moves(my: u8, other: u8) -> (moves: Vec<u8>)
    ensures
        forall|t: int, u: int| 0 <= t < u < moves@.len() ==> moves@[t] < moves@[u],
        forall|t: int| 0 <= t < moves@.len() ==> line_legal(my, other, moves@[t] as int),
        forall|o: int| 0 <= o < 8 ==> (moves@.contains(o as u8) == line_legal(my, other, o)),
{
    let mut moves: Vec<u8> = Vec::new();
    let mut i: i32 = 0;
    while i < 8
        invariant
            0 <= i <= 8,
            forall|t: int, u: int| 0 <= t < u < moves@.len() ==> moves@[t] < moves@[u],
            forall|t: int|
                0 <= t < moves@.len() ==> (moves@[t] < i && line_legal(my, other, moves@[t] as int)),
            forall|o: int| 0 <= o < i ==> (line_legal(my, other, o) ==> moves@.contains(o as u8)),
        decreases 8 - i,
    {
        let empty = !line_bit_at(my, i) && !line_bit_at(other, i);
        if empty && (scan_sandwich(my, other, i, 1) || scan_sandwich(my, other, i, -1)) {
            let ghost before = moves@;
            moves.push(i as u8);
            proof {
                assert(moves@[before.len() as int] == i as u8);
                assert forall|o: int| 0 <= o < i + 1 && line_legal(my, other, o) implies moves@
                    .contains(o as u8) by {
                    if o < i {
                        let t = choose|t: int| 0 <= t < before.len() && before[t] == o as u8;
                        assert(moves@[t] == o as u8);
                    } else {
                        assert(moves@[before.len() as int] == o as u8);
                    }
                }
            }
        } else {
            proof {
                assert(!line_legal(my, other, i as int));
            }
        }
        i = i + 1;
    }
    proof {
        assert forall|o: int| 0 <= o < 8 implies (moves@.contains(o as u8) == line_legal(
            my,
            other,
            o,
        )) by {
            if moves@.contains(o as u8) {
                let t = choose|t: int| 0 <= t < moves@.len() && moves@[t] == o as u8;
                assert(line_legal(my, other, moves@[t] as int));
            }
        }
    }
    moves
}

} // verus!
