//! The axial hex grid: coordinates, the six-direction table, and the
//! geometry of hex rings.

use vstd::arithmetic::div_mod::{
    lemma_div_of0, lemma_div_pos_is_pos, lemma_fundamental_div_mod,
    lemma_mod_division_less_than_divisor, lemma_mod_multiples_basic, lemma_mod_self_0,
    lemma_small_mod,
};
use vstd::prelude::*;

verus! {

/// A cell or offset on the hex grid, in axial coordinates.
#[derive(Clone, Copy, PartialEq, Eq, Structural, Debug)]
pub struct V2(pub i64, pub i64);

/// The unit offset of direction `i` (reduced modulo 6) on the hex grid.
///
/// Adjacent directions `d` and `d + 1` satisfy `vec(d) + vec(d + 2) == vec(d + 1)`,
/// which is what makes the spoke-and-tangent ring walk below close up.
pub open spec fn dir6_vec(i: int) -> (int, int) {
    let k = i % 6;
    if k == 0 {
        (-1, -1)
    } else if k == 1 {
        (0, -1)
    } else if k == 2 {
        (1, 0)
    } else if k == 3 {
        (1, 1)
    } else if k == 4 {
        (0, 1)
    } else {
        (-1, 0)
    }
}

/// The cell with winding index `w` on the hex ring of radius `r`: walk `r`
/// steps from the origin along spoke direction `w / r` (modulo the ring),
/// then `w % r` steps along the tangent two directions further round.
pub open spec fn cell_at(w: int, r: int) -> (int, int)
    recommends
        r >= 1,
        w >= 0,
{
    let spoke = (w % (6 * r)) / r;
    let off = w % r;
    let rod = dir6_vec(spoke);
    let tan = dir6_vec(spoke + 2);
    (r * rod.0 + off * tan.0, r * rod.1 + off * tan.1)
}

/// Hex distance of a cell from the origin: where the two coordinates agree
/// in sign the larger magnitude, elsewhere the sum of magnitudes.
pub open spec fn hex_norm(c: (int, int)) -> int {
    let ax = if c.0 >= 0 {
        c.0
    } else {
        -c.0
    };
    let ay = if c.1 >= 0 {
        c.1
    } else {
        -c.1
    };
    if (c.0 >= 0) == (c.1 >= 0) {
        if ax >= ay {
            ax
        } else {
            ay
        }
    } else {
        ax + ay
    }
}

/// The winding index under which a cell of the ring of radius `r` is
/// reached: the inverse of `cell_at` on that ring, read off the six edges
/// of the hexagon.  Cells not on the ring answer `-1`.
pub open spec fn ring_idx(c: (int, int), r: int) -> int {
    let x = c.0;
    let y = c.1;
    if y == -r && -r <= x < 0 {
        x + r
    } else if x - y == r && 0 <= x < r {
        r + x
    } else if x == r && 0 <= y < r {
        2 * r + y
    } else if (y == r && 0 < x <= r) || (y - x == r && -r < x <= 0) {
        4 * r - x
    } else if x == -r && -r < y <= 0 {
        5 * r - y
    } else {
        -1
    }
}

/// Below the seam, every winding index of a ring denotes a distinct cell:
/// the cell lies at hex distance exactly `r`, and `ring_idx` reads the
/// index back.
pub proof fn lemma_cell_at_ring(w: int, r: int)
    requires
        r >= 1,
        0 <= w < 6 * r,
    ensures
        hex_norm(cell_at(w, r)) == r,
        ring_idx(cell_at(w, r), r) == w,
{
    lemma_small_mod(w as nat, (6 * r) as nat);
    assert(w % (6 * r) == w);
    lemma_fundamental_div_mod(w, r);
    lemma_mod_division_less_than_divisor(w, r);
    lemma_div_pos_is_pos(w, r);
    let s: int = w / r;
    let o: int = w % r;
    assert(w == r * s + o);
    assert(s < 6) by (nonlinear_arith)
        requires
            w == r * s + o,
            w < 6 * r,
            o >= 0,
            s >= 0,
            r >= 1,
    ;
    assert(w == s * r + o) by (nonlinear_arith)
        requires
            w == r * s + o,
    ;
    if s == 0 {
        assert(w == o) by (nonlinear_arith)
            requires
                w == s * r + o,
                s == 0,
        ;
        assert(cell_at(w, r) == (r * (-1) + o * 1, r * (-1) + o * 0));
        assert(ring_idx(cell_at(w, r), r) == w);
    } else if s == 1 {
        assert(w == r + o) by (nonlinear_arith)
            requires
                w == s * r + o,
                s == 1,
        ;
        assert(cell_at(w, r) == (r * 0 + o * 1, r * (-1) + o * 1));
        assert(ring_idx(cell_at(w, r), r) == w);
    } else if s == 2 {
        assert(w == 2 * r + o) by (nonlinear_arith)
            requires
                w == s * r + o,
                s == 2,
        ;
        assert(cell_at(w, r) == (r * 1 + o * 0, r * 0 + o * 1));
        assert(ring_idx(cell_at(w, r), r) == w);
    } else if s == 3 {
        assert(w == 3 * r + o) by (nonlinear_arith)
            requires
                w == s * r + o,
                s == 3,
        ;
        assert(cell_at(w, r) == (r * 1 + o * (-1), r * 1 + o * 0));
        assert(ring_idx(cell_at(w, r), r) == w);
    } else if s == 4 {
        assert(w == 4 * r + o) by (nonlinear_arith)
            requires
                w == s * r + o,
                s == 4,
        ;
        assert(cell_at(w, r) == (r * 0 + o * (-1), r * 1 + o * (-1)));
        assert(ring_idx(cell_at(w, r), r) == w);
    } else {
        assert(w == 5 * r + o) by (nonlinear_arith)
            requires
                w == s * r + o,
                s == 5,
        ;
        assert(cell_at(w, r) == (r * (-1) + o * 0, r * 0 + o * (-1)));
        assert(ring_idx(cell_at(w, r), r) == w);
    }
}

/// On the radius-1 ring the winding indices are the six directions
/// themselves.
pub proof fn lemma_cell_at_neighbor(k: int)
    requires
        0 <= k < 6,
    ensures
        cell_at(k, 1) == dir6_vec(k),
{
    lemma_small_mod(k as nat, 6nat);
    lemma_fundamental_div_mod(k, 1);
    lemma_mod_division_less_than_divisor(k, 1);
    assert(k % 1 == 0 && k / 1 == k);
    assert(cell_at(k, 1) == (1 * dir6_vec(k).0 + 0 * dir6_vec(k + 2).0, 1 * dir6_vec(k).1 + 0
        * dir6_vec(k + 2).1));
}

/// Wrapped or not, every winding index of the ring of radius `r` denotes a
/// cell at hex distance exactly `r`.
pub proof fn lemma_cell_at_norm(w: int, r: int)
    requires
        r >= 1,
        w >= 0,
    ensures
        hex_norm(cell_at(w, r)) == r,
{
    let k: int = w % (6 * r);
    lemma_mod_division_less_than_divisor(w, 6 * r);
    lemma_small_mod(k as nat, (6 * r) as nat);
    assert((w % (6 * r)) % r == w % r) by {
        vstd::arithmetic::div_mod::lemma_mod_mod(w, r, 6);
        assert(r * 6 == 6 * r) by (nonlinear_arith);
    }
    assert(cell_at(w, r) == cell_at(k, r));
    lemma_cell_at_ring(k, r);
}

/// The seam: index `6 * r` wraps around to the ring's first cell.
pub proof fn lemma_cell_at_wrap(r: int)
    requires
        r >= 1,
    ensures
        cell_at(6 * r, r) == cell_at(0, r),
{
    lemma_mod_self_0(6 * r);
    lemma_div_of0(r);
    lemma_mod_multiples_basic(6, r);
    assert(6 * r == r * 6) by (nonlinear_arith);
    lemma_small_mod(0nat, (6 * r) as nat);
    lemma_small_mod(0nat, r as nat);
    assert((6 * r) % (6 * r) == 0);
    assert((6 * r) % r == 0);
    assert(cell_at(6 * r, r) == (r * (-1) + 0 * 1, r * (-1) + 0 * 0));
    assert(cell_at(0, r) == (r * (-1) + 0 * 1, r * (-1) + 0 * 0));
}

/// The six hex directions, in table order.
#[derive(Clone, Copy, PartialEq, Eq, Structural, Debug)]
pub enum Dir6 {
    North,
    Northeast,
    Southeast,
    South,
    Southwest,
    Northwest,
}

impl Dir6 {
    /// The index of this direction in the direction table.
    pub open spec fn index(self) -> int {
        match self {
            Dir6::North => 0,
            Dir6::Northeast => 1,
            Dir6::Southeast => 2,
            Dir6::South => 3,
            Dir6::Southwest => 4,
            Dir6::Northwest => 5,
        }
    }

    /// The direction with index `i`, any whole number of turns reduced away.
    pub fn from_int(i: i64) -> (d: Dir6)
        requires
            i > i64::MIN + 6,
        ensures
            d.index() == i as int % 6,
    {
        let k: i64 = if i >= 0 {
            i % 6
        } else {
            5 - ((-i - 1) % 6)
        };
        proof {
            if i < 0 {
                let j: int = -i - 1;
                assert(j >= 0);
                assert(j % 6 == j - 6 * (j / 6)) by (nonlinear_arith);
                assert(i as int % 6 == 5 - (j % 6)) by (nonlinear_arith)
                    requires
                        i < 0,
                        j == -i - 1,
                        j % 6 == j - 6 * (j / 6),
                ;
            }
        }
        if k == 0 {
            Dir6::North
        } else if k == 1 {
            Dir6::Northeast
        } else if k == 2 {
            Dir6::Southeast
        } else if k == 3 {
            Dir6::South
        } else if k == 4 {
            Dir6::Southwest
        } else {
            Dir6::Northwest
        }
    }

    /// The index of this direction, as a machine integer.
    pub fn to_int(self) -> (i: i64)
        ensures
            i == self.index(),
    {
        match self {
            Dir6::North => 0,
            Dir6::Northeast => 1,
            Dir6::Southeast => 2,
            Dir6::South => 3,
            Dir6::Southwest => 4,
            Dir6::Northwest => 5,
        }
    }

    /// This direction turned `steps` places clockwise (negative: widdershins).
    pub fn rotate(self, steps: i64) -> (d: Dir6)
        requires
            -6 <= steps <= 6,
        ensures
            d.index() == (self.index() + steps) % 6,
    {
        Dir6::from_int(self.to_int() + steps)
    }

    /// The unit offset of this direction on the grid.
    pub fn to_v2(self) -> (v: V2)
        ensures
            (v.0 as int, v.1 as int) == dir6_vec(self.index()),
    {
        match self {
            Dir6::North => V2(-1, -1),
            Dir6::Northeast => V2(0, -1),
            Dir6::Southeast => V2(1, 0),
            Dir6::South => V2(1, 1),
            Dir6::Southwest => V2(0, 1),
            Dir6::Northwest => V2(-1, 0),
        }
    }
}

} // verus!
