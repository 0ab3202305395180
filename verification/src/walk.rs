//! Movement decisions on the hex grid: wall-sliding steps and sideways
//! zigzag steps, as pure functions from what the walker can see to the
//! direction actually taken.

use vstd::prelude::*;

use crate::hex::Dir6;

verus! {

/// Which way a sideways step leans.
#[derive(Clone, Copy, PartialEq, Eq, Structural, Debug)]
pub enum Side {
    West,
    East,
}

/// The direction a step command actually takes, sliding along walls: keep
/// `dir` while the way ahead is open; otherwise veer one place toward an
/// open neighbour, trying the widdershins side first.
pub fn smart_step_dir(dir: Dir6, left_open: bool, fwd_open: bool, right_open: bool) -> (d: Dir6)
    ensures
        d.index() == if !fwd_open && left_open {
            (dir.index() - 1) % 6
        } else if !fwd_open && right_open {
            (dir.index() + 1) % 6
        } else {
            dir.index()
        },
{
    if !fwd_open && left_open {
        dir.rotate(-1)
    } else if !fwd_open && right_open {
        dir.rotate(1)
    } else {
        dir
    }
}

/// The direction a sideways step takes: west or east, leaning south from
/// cells of even coordinate sum and north from the others, so that repeated
/// side steps zigzag down a column of the staggered grid.
pub fn side_step_dir(side: Side, flip: bool) -> (d: Dir6)
    ensures
        d == match side {
            Side::West => if flip {
                Dir6::Southwest
            } else {
                Dir6::Northwest
            },
            Side::East => if flip {
                Dir6::Southeast
            } else {
                Dir6::Northeast
            },
        },
{
    match side {
        Side::West => if flip {
            Dir6::Southwest
        } else {
            Dir6::Northwest
        },
        Side::East => if flip {
            Dir6::Southeast
        } else {
            Dir6::Northeast
        },
    }
}

/// Whether a cell's coordinate sum is even: the parity that decides which
/// way a sideways step leans.
pub fn flip_parity(x: i64, y: i64) -> (r: bool)
    requires
        i64::MIN < x + y <= i64::MAX,
    ensures
        r == ((x + y) % 2 == 0),
{
    let s: i64 = x + y;
    let t: i64 = if s >= 0 {
        s
    } else {
        -s
    };
    proof {
        assert(((s as int) % 2 == 0) == ((t as int) % 2 == 0)) by (nonlinear_arith)
            requires
                t == if s >= 0 {
                    s as int
                } else {
                    -(s as int)
                },
        ;
    }
    t % 2 == 0
}

} // verus!
