//! The field-of-view engine: polar points on hex rings, angular sectors,
//! and the recursive shadow-casting traversal.

use vstd::prelude::*;
use vstd::arithmetic::div_mod::{
    lemma_div_pos_is_pos, lemma_fundamental_div_mod, lemma_mod_division_less_than_divisor,
};

use crate::hex::{cell_at, hex_norm, lemma_cell_at_ring, lemma_cell_at_wrap, ring_idx, V2};

verus! {

/// Largest supported visibility range.  Keeps every intermediate product of
/// the engine's exact angle arithmetic well inside `u64`.
pub const MAX_RANGE: u64 = 32768;

/// A point on a hex ring, in discretized polar coordinates.
///
/// The angular position is the exact rational `halves * radius / (2 * base)`,
/// in cells along the ring; a full ring of radius `r` spans the angles
/// `[0, 6 * r)`.  Projecting a point outward one ring (`further`)
/// scales the angle by `(radius + 1) / radius`, which this representation
/// performs exactly by incrementing `radius` alone; `base` records the ring
/// on which the point was last snapped to a cell centre.
#[derive(Clone, Copy, PartialEq, Eq, Structural, Debug)]
pub struct PolarPoint {
    halves: u64,
    base: u64,
    radius: u64,
}

/// Well-formedness of a polar point: a live denominator no larger than the
/// ring radius, a bounded radius, and an angle that cannot overflow.
pub closed spec fn pp_wf(p: PolarPoint) -> bool {
    &&& 1 <= p.base
    &&& p.base <= p.radius
    &&& p.radius <= MAX_RANGE
    &&& p.halves <= 13 * p.base * p.radius
}

/// Numerator of the angular position of `p` over the denominator `2 * base`.
pub closed spec fn pnum(p: PolarPoint) -> int {
    p.halves * p.radius
}

/// The ring this point lies on.
pub closed spec fn prad(p: PolarPoint) -> int {
    p.radius as int
}

/// Index of the discrete hex cell on the ring that this point falls in:
/// the floor of `angle + 1/2`.
pub closed spec fn wind(p: PolarPoint) -> int {
    (pnum(p) + p.base) / (2 * p.base)
}

/// Index of the first cell boundary at or past this point: the ceiling of
/// `angle + 1/2`.  A sweep stops when its winding index reaches the end
/// point's end index.
pub closed spec fn endi(p: PolarPoint) -> int {
    (pnum(p) + 3 * p.base - 1) / (2 * p.base)
}

/// The grid cell this polar point falls in.
pub closed spec fn cellv(p: PolarPoint) -> (int, int) {
    cell_at(wind(p), p.radius as int)
}

/// The point at angle `halves / 2` on the ring of radius `radius`.
pub closed spec fn pp_new(halves: u64, radius: u64) -> PolarPoint {
    PolarPoint { halves, base: radius, radius }
}

/// The image of `p` on the next larger ring, at the same angular fraction.
pub closed spec fn pp_further(p: PolarPoint) -> PolarPoint {
    PolarPoint { halves: p.halves, base: p.base, radius: (p.radius + 1) as u64 }
}

/// The centre of the next discrete cell along `p`'s ring.
pub closed spec fn pp_next(p: PolarPoint) -> PolarPoint {
    PolarPoint { halves: (2 * wind(p) + 1) as u64, base: p.radius, radius: p.radius }
}

/// Floor characterization of integer division by a positive divisor.
proof fn lemma_floor_char(a: int, d: int)
    requires
        a >= 0,
        d > 0,
    ensures
        d * (a / d) <= a,
        a < d * (a / d) + d,
        a / d >= 0,
{
    lemma_fundamental_div_mod(a, d);
    lemma_mod_division_less_than_divisor(a, d);
    lemma_div_pos_is_pos(a, d);
}

/// The winding index sits within a half-cell of the angle:
/// `2b * wind <= num + b <= 2b * wind + 2b - 1`.
proof fn lemma_wind_char(p: PolarPoint)
    requires
        pp_wf(p),
    ensures
        2 * p.base * wind(p) <= pnum(p) + p.base,
        pnum(p) + p.base <= 2 * p.base * wind(p) + 2 * p.base - 1,
        wind(p) >= 0,
{
    let a: int = pnum(p) + p.base;
    let d: int = 2 * p.base;
    assert(a >= 0) by (nonlinear_arith)
        requires
            p.halves >= 0,
            p.radius >= 0,
            p.base >= 1,
            a == p.halves * p.radius + p.base,
    ;
    lemma_floor_char(a, d);
}

/// The end index is the least cell boundary at or past `angle + 1/2`:
/// `num + b <= 2b * endi <= num + 3b - 1`.
proof fn lemma_endi_char(p: PolarPoint)
    requires
        pp_wf(p),
    ensures
        pnum(p) + p.base <= 2 * p.base * endi(p),
        2 * p.base * endi(p) <= pnum(p) + 3 * p.base - 1,
        endi(p) >= 0,
{
    let a: int = pnum(p) + 3 * p.base - 1;
    let d: int = 2 * p.base;
    assert(a >= 0) by (nonlinear_arith)
        requires
            p.halves >= 0,
            p.radius >= 0,
            p.base >= 1,
            a == p.halves * p.radius + 3 * p.base - 1,
    ;
    lemma_floor_char(a, d);
}

/// A point's winding index never passes its own end index.
proof fn lemma_wind_le_endi(p: PolarPoint)
    requires
        pp_wf(p),
    ensures
        wind(p) <= endi(p),
{
    lemma_wind_char(p);
    lemma_endi_char(p);
    assert(2 * p.base * wind(p) <= 2 * p.base * endi(p));
    assert(wind(p) <= endi(p)) by (nonlinear_arith)
        requires
            p.base >= 1,
            2 * p.base * wind(p) <= 2 * p.base * endi(p),
    ;
}

/// The six unit offsets, by table index.
fn dir_unit(k: u64) -> (v: V2)
    requires
        k <= 5,
    ensures
        (v.0 as int, v.1 as int) == crate::hex::dir6_vec(k as int),
{
    if k == 0 {
        V2(-1, -1)
    } else if k == 1 {
        V2(0, -1)
    } else if k == 2 {
        V2(1, 0)
    } else if k == 3 {
        V2(1, 1)
    } else if k == 4 {
        V2(0, 1)
    } else {
        V2(-1, 0)
    }
}

impl PolarPoint {
    /// The point at angle `halves / 2` on the ring of radius `radius`.
    pub fn new(halves: u64, radius: u64) -> (p: PolarPoint)
        requires
            1 <= radius <= MAX_RANGE,
            halves <= 12 * radius + 1,
        ensures
            p == pp_new(halves, radius),
            pp_wf(p),
    {
        proof {
            assert(halves <= 13 * radius * radius) by (nonlinear_arith)
                requires
                    radius >= 1,
                    halves <= 12 * radius + 1,
            ;
        }
        PolarPoint { halves, base: radius, radius }
    }

    /// The ring this point lies on.
    pub fn radius(self) -> (r: u64)
        ensures
            r == prad(self),
    {
        self.radius
    }

    /// Index of the discrete hex cell along the ring that this point falls in.
    fn winding_index(self) -> (w: u64)
        requires
            pp_wf(self),
        ensures
            w == wind(self),
    {
        proof {
            assert(self.halves * self.radius + self.base <= u64::MAX) by (nonlinear_arith)
                requires
                    self.halves <= 13 * self.base * self.radius,
                    1 <= self.base <= self.radius,
                    self.radius <= MAX_RANGE,
                    MAX_RANGE == 32768,
            ;
        }
        (self.halves * self.radius + self.base) / (2 * self.base)
    }

    /// Index of the first cell boundary at or past this point.
    fn end_index(self) -> (e: u64)
        requires
            pp_wf(self),
        ensures
            e == endi(self),
    {
        proof {
            assert(self.halves * self.radius + 3 * self.base <= u64::MAX) by (nonlinear_arith)
                requires
                    self.halves <= 13 * self.base * self.radius,
                    1 <= self.base <= self.radius,
                    self.radius <= MAX_RANGE,
                    MAX_RANGE == 32768,
            ;
        }
        (self.halves * self.radius + 3 * self.base - 1) / (2 * self.base)
    }

    /// Whether this point still lies before the cell boundary of `other`:
    /// the sweep over a sector continues while its current point is below
    /// the sector's end point.
    pub fn is_below(self, other: PolarPoint) -> (r: bool)
        requires
            pp_wf(self),
            pp_wf(other),
        ensures
            r == (wind(self) < endi(other)),
    {
        self.winding_index() < other.end_index()
    }

    /// The point at the same angular fraction of the next larger ring.
    pub fn further(self) -> (p: PolarPoint)
        requires
            pp_wf(self),
            prad(self) < MAX_RANGE,
        ensures
            p == pp_further(self),
            pp_wf(p),
    {
        proof {
            assert(self.halves <= 13 * self.base * (self.radius + 1)) by (nonlinear_arith)
                requires
                    self.halves <= 13 * self.base * self.radius,
                    self.base >= 1,
                    self.radius >= 1,
            ;
        }
        PolarPoint { halves: self.halves, base: self.base, radius: self.radius + 1 }
    }

    /// The centre of the next discrete cell along the same ring.
    pub fn next(self) -> (p: PolarPoint)
        requires
            pp_wf(self),
            wind(self) <= 6 * prad(self) * prad(self),
        ensures
            p == pp_next(self),
            pp_wf(p),
            wind(p) == wind(self) + 1,
    {
        let w: u64 = self.winding_index();
        proof {
            assert(2 * w + 1 <= 13 * self.radius * self.radius && 13 * self.radius * self.radius
                <= 13 * MAX_RANGE * MAX_RANGE) by (nonlinear_arith)
                requires
                    w <= 6 * self.radius * self.radius,
                    1 <= self.radius <= MAX_RANGE,
            ;
            let q = PolarPoint { halves: (2 * w + 1) as u64, base: self.radius, radius: self.radius };
            assert(q.halves == 2 * w + 1);
            assert(pnum(q) + q.base == (w + 1) * (2 * q.base)) by (nonlinear_arith)
                requires
                    pnum(q) == q.halves * q.radius,
                    q.halves == 2 * w + 1,
                    q.radius == self.radius,
                    q.base == self.radius,
            ;
            lemma_floor_char(pnum(q) + q.base, 2 * q.base);
            assert(wind(q) == w + 1) by (nonlinear_arith)
                requires
                    q.base >= 1,
                    pnum(q) + q.base == (w + 1) * (2 * q.base),
                    2 * q.base * wind(q) <= pnum(q) + q.base,
                    pnum(q) + q.base < 2 * q.base * wind(q) + 2 * q.base,
            ;
        }
        PolarPoint { halves: 2 * w + 1, base: self.radius, radius: self.radius }
    }

    /// The grid cell this point falls in.
    pub fn to_v2(self) -> (v: V2)
        requires
            pp_wf(self),
        ensures
            (v.0 as int, v.1 as int) == cellv(self),
    {
        let w: u64 = self.winding_index();
        let six_r: u64 = 6 * self.radius;
        let idx: u64 = w % six_r;
        let spoke: u64 = idx / self.radius;
        let off: u64 = w % self.radius;
        proof {
            lemma_mod_division_less_than_divisor(w as int, six_r as int);
            assert(spoke <= 5) by (nonlinear_arith)
                requires
                    self.radius >= 1,
                    idx < 6 * self.radius,
                    idx >= 0,
                    spoke == idx as int / self.radius as int,
            ;
            lemma_mod_division_less_than_divisor(w as int, self.radius as int);
        }
        let spoke2: u64 = (spoke + 2) % 6;
        let rod: V2 = dir_unit(spoke);
        let tan: V2 = dir_unit(spoke2);
        proof {
            assert(-1 <= rod.0 <= 1 && -1 <= rod.1 <= 1 && -1 <= tan.0 <= 1 && -1 <= tan.1 <= 1);
            assert forall|a: int, t: int| 0 <= a <= MAX_RANGE && -1 <= t <= 1 implies
                -(MAX_RANGE as int) <= #[trigger] (a * t) <= MAX_RANGE by {
                assert(-a <= a * t <= a) by (nonlinear_arith)
                    requires
                        0 <= a,
                        -1 <= t <= 1,
                ;
            }
            assert(crate::hex::dir6_vec(spoke as int + 2) == crate::hex::dir6_vec(spoke2 as int));
        }
        let x: i64 = (self.radius as i64) * rod.0 + (off as i64) * tan.0;
        let y: i64 = (self.radius as i64) * rod.1 + (off as i64) * tan.1;
        V2(x, y)
    }

    /// If this point and the next cell centre along the ring are diagonal
    /// neighbours on the grid, the cell just outside the ring between the
    /// two; used to light the acute outside corners of diagonal walls.
    pub fn side_point(self) -> (r: Option<V2>)
        requires
            pp_wf(self),
            wind(self) <= 6 * prad(self) * prad(self),
        ensures
            r == side_point_at(self),
    {
        let nxt: PolarPoint = self.next();
        let v1: V2 = self.to_v2();
        let v2: V2 = nxt.to_v2();
        if v2.0 == v1.0 + 1 && v2.1 == v1.1 + 1 {
            Some(V2(v1.0 + 1, v1.1))
        } else if v2.0 == v1.0 - 1 && v2.1 == v1.1 - 1 {
            Some(V2(v1.0 - 1, v1.1))
        } else {
            None
        }
    }
}

/// An opacity test over grid cells: the terrain query the engine sweeps with.
/// It must be a pure function of the cell, which the paired spec function
/// `opaque` nails down; the engine may ask it about the same cell repeatedly
/// and in any order.
pub trait Opacity {
    /// What the test answers, as a mathematical predicate on cells.
    spec fn opaque(&self, c: (int, int)) -> bool;

    /// The executable test.
    fn is_opaque(&self, v: V2) -> (r: bool)
        ensures
            r == self.opaque((v.0 as int, v.1 as int)),
    ;
}

/// A contiguous angular run on one ring, mid-sweep: where the run began,
/// the point under examination, the run's end boundary, and whether the run
/// is currently classified opaque.
#[derive(Clone, Copy, PartialEq, Eq, Structural, Debug)]
pub struct Sector {
    begin: PolarPoint,
    pt: PolarPoint,
    end: PolarPoint,
    group_opaque: bool,
}

/// The ring a sector sweeps.
spec fn sec_r(s: Sector) -> int {
    s.begin.radius as int
}

/// Well-formedness of a sector of an engine with range `range` under the
/// opacity predicate of `m`: all three points on one ring between 1 and
/// `range`, angles bounded by one lap of the ring (the end exactly, begin
/// and current point by at most an extra half cell), the current point at
/// or past the start, and the run's classification agreeing with the
/// predicate at the run's start.
spec fn sector_wf<T: Opacity>(m: T, range: int, s: Sector) -> bool {
    let r = sec_r(s);
    &&& pp_wf(s.begin)
    &&& pp_wf(s.pt)
    &&& pp_wf(s.end)
    &&& s.pt.radius == s.begin.radius
    &&& s.end.radius == s.begin.radius
    &&& 1 <= r && r <= range
    &&& pnum(s.begin) <= (12 * r * r + 1) * s.begin.base
    &&& pnum(s.pt) <= (12 * r * r + 1) * s.pt.base
    &&& pnum(s.end) <= 12 * r * r * s.end.base
    &&& wind(s.begin) <= wind(s.pt)
    &&& s.group_opaque == m.opaque(cellv(s.begin))
}

/// Every sector of the traversal stack is well-formed.
spec fn stack_wf<T: Opacity>(m: T, range: int, st: Seq<Sector>) -> bool {
    forall|i: int| 0 <= i < st.len() ==> sector_wf(m, range, #[trigger] st[i])
}

/// The sector that carries an angular run outward to the next ring: both
/// boundaries projected one ring further, the sweep starting at the new
/// start, classified by the predicate there.
spec fn child_sector<T: Opacity>(m: T, b: PolarPoint, e: PolarPoint) -> Sector {
    let nb = pp_further(b);
    Sector { begin: nb, pt: nb, end: pp_further(e), group_opaque: m.opaque(cellv(nb)) }
}

/// One traversal step on a non-empty stack: pop the top sector and act on
/// it, per the shadow-casting rules.  Returns the new stack and the cell
/// this step produced, if it produced one.
///
/// - Current point still below the end, predicate agrees with the run:
///   the cell is visible; advance and produce it.
/// - Current point below the end, predicate disagrees: split.  The rest of
///   the run restarts here under the new classification; if the run so far
///   was transparent and the range allows, it also expands outward.
/// - End of run: a transparent run within range expands outward; an opaque
///   one is discarded.  Nothing is produced.
spec fn micro<T: Opacity>(m: T, range: int, st: Seq<Sector>) -> (Seq<Sector>, Option<
    (int, int),
>)
    recommends
        st.len() > 0,
{
    let s = st.last();
    let rest = st.drop_last();
    if wind(s.pt) < endi(s.end) {
        let c = cellv(s.pt);
        if m.opaque(c) != s.group_opaque {
            let rest1 = rest.push(
                Sector { begin: s.pt, pt: s.pt, end: s.end, group_opaque: m.opaque(c) },
            );
            if !s.group_opaque && sec_r(s) < range {
                (rest1.push(child_sector(m, s.begin, s.pt)), None)
            } else {
                (rest1, None)
            }
        } else {
            (
                rest.push(
                    Sector {
                        begin: s.begin,
                        pt: pp_next(s.pt),
                        end: s.end,
                        group_opaque: s.group_opaque,
                    },
                ),
                Some(c),
            )
        }
    } else {
        if !s.group_opaque && sec_r(s) < range {
            (rest.push(child_sector(m, s.begin, s.end)), None)
        } else {
            (rest, None)
        }
    }
}

/// Per-cell weight of a sector at ring `r` in the termination potential:
/// large enough to pay for everything a split can spawn on the outer rings.
spec fn mw(range: int, r: int) -> nat
    decreases range - r, 0int,
{
    if r >= range {
        0
    } else {
        6 * mw(range, r + 1) + nw(range, r + 1) + 18
    }
}

/// Flat weight of a sector at ring `r` in the termination potential: pays
/// for the one outward expansion an exhausted transparent run performs.
spec fn nw(range: int, r: int) -> nat
    decreases range - r, 1int,
{
    if r >= range {
        0
    } else {
        2 * mw(range, r + 1) + nw(range, r + 1) + 7
    }
}

/// `x` if non-negative, else zero.
spec fn clamp0(x: int) -> nat {
    if x >= 0 {
        x as nat
    } else {
        0
    }
}

/// Cells left for this sector to sweep on its own ring.
spec fn sec_rem(s: Sector) -> nat {
    clamp0(endi(s.end) - wind(s.pt))
}

/// Cells of the sector's full angular span on its own ring.
spec fn sec_span(s: Sector) -> nat {
    clamp0(endi(s.end) - wind(s.begin))
}

/// Termination potential of one sector: every traversal step on it, or on
/// anything it will ever spawn, strictly decreases the summed potential.
spec fn phi_sector(range: int, s: Sector) -> nat {
    2 * sec_rem(s) + sec_span(s) * (1 + mw(range, sec_r(s))) + nw(range, sec_r(s))
}

/// Summed potential of a traversal stack.
spec fn phi_stack(range: int, st: Seq<Sector>) -> nat
    decreases st.len(),
{
    if st.len() == 0 {
        0
    } else {
        phi_stack(range, st.drop_last()) + phi_sector(range, st.last())
    }
}

/// The full termination measure of a traversal stack: each step either
/// strictly lowers the potential or pops without pushing.
pub closed spec fn stack_measure(range: int, st: Seq<Sector>) -> nat {
    2 * phi_stack(range, st) + st.len()
}

/// What `side_point` answers: the corner cell outside the ring when the two
/// consecutive cell centres are diagonal neighbours, and nothing otherwise.
pub closed spec fn side_point_at(p: PolarPoint) -> Option<V2> {
    let c1 = cellv(p);
    let c2 = cell_at(wind(p) + 1, p.radius as int);
    if c2.0 == c1.0 + 1 && c2.1 == c1.1 + 1 {
        Some(V2((c1.0 + 1) as i64, c1.1 as i64))
    } else if c2.0 == c1.0 - 1 && c2.1 == c1.1 - 1 {
        Some(V2((c1.0 - 1) as i64, c1.1 as i64))
    } else {
        None
    }
}

/// `pp_further` keeps a point well-formed while the radius stays in bounds.
proof fn lemma_pp_further(p: PolarPoint)
    requires
        pp_wf(p),
        prad(p) < MAX_RANGE,
    ensures
        pp_wf(pp_further(p)),
        pnum(pp_further(p)) == p.halves * (p.radius + 1),
        pp_further(p).base == p.base,
        pp_further(p).radius == p.radius + 1,
{
    assert(p.halves <= 13 * p.base * (p.radius + 1)) by (nonlinear_arith)
        requires
            p.halves <= 13 * p.base * p.radius,
            p.base >= 1,
            p.radius >= 1,
    ;
}

/// `pp_next` advances the winding index by exactly one and keeps the point
/// well-formed while the angle is within a lap of the ring.
proof fn lemma_pp_next(p: PolarPoint)
    requires
        pp_wf(p),
        wind(p) <= 6 * prad(p) * prad(p),
    ensures
        pp_wf(pp_next(p)),
        wind(pp_next(p)) == wind(p) + 1,
        pp_next(p).base == p.radius,
        pp_next(p).radius == p.radius,
        pnum(pp_next(p)) == (2 * wind(p) + 1) * p.radius,
{
    lemma_wind_char(p);
    let w: int = wind(p);
    assert(2 * w + 1 <= 13 * p.radius * p.radius && 13 * p.radius * p.radius <= 13 * MAX_RANGE
        * MAX_RANGE) by (nonlinear_arith)
        requires
            w >= 0,
            w <= 6 * p.radius * p.radius,
            1 <= p.radius <= MAX_RANGE,
    ;
    let q = pp_next(p);
    assert(q.halves == 2 * w + 1);
    assert(pnum(q) + q.base == (w + 1) * (2 * q.base)) by (nonlinear_arith)
        requires
            pnum(q) == q.halves * q.radius,
            q.halves == 2 * w + 1,
            q.radius == p.radius,
            q.base == p.radius,
    ;
    lemma_floor_char(pnum(q) + q.base, 2 * q.base);
    assert(wind(q) == w + 1) by (nonlinear_arith)
        requires
            q.base >= 1,
            pnum(q) + q.base == (w + 1) * (2 * q.base),
            2 * q.base * wind(q) <= pnum(q) + q.base,
            pnum(q) + q.base < 2 * q.base * wind(q) + 2 * q.base,
    ;
}

/// A sector end bounded by one exact lap has end index at most one past the
/// lap's cell count.
proof fn lemma_endi_cap(e: PolarPoint, r: int)
    requires
        pp_wf(e),
        e.radius == r,
        pnum(e) <= 12 * r * r * e.base,
    ensures
        endi(e) <= 6 * r * r + 1,
{
    lemma_endi_char(e);
    assert(endi(e) <= 6 * r * r + 1) by (nonlinear_arith)
        requires
            e.base >= 1,
            2 * e.base * endi(e) <= pnum(e) + 3 * e.base - 1,
            pnum(e) <= 12 * r * r * e.base,
    ;
}

/// Projecting a run's two boundaries outward widens its cell span by at
/// most a factor of two plus one cell of slack on each side: the heart of
/// the termination argument.  `we` is any cell boundary at or past the
/// run's end angle.
proof fn lemma_span_further(b: PolarPoint, e: PolarPoint, we: int)
    requires
        pp_wf(b),
        pp_wf(e),
        e.radius == b.radius,
        prad(b) < MAX_RANGE,
        pnum(e) + e.base <= 2 * e.base * we,
    ensures
        endi(pp_further(e)) - wind(pp_further(b)) <= 2 * clamp0(we - wind(b)) + 2,
{
    let r: int = b.radius as int;
    let hb: int = b.halves as int;
    let bb: int = b.base as int;
    let he: int = e.halves as int;
    let be: int = e.base as int;
    let wb: int = wind(b);
    let bf = pp_further(b);
    let ef = pp_further(e);
    lemma_pp_further(b);
    lemma_pp_further(e);
    lemma_wind_char(b);
    lemma_wind_char(bf);
    lemma_endi_char(ef);
    let wbf: int = wind(bf);
    let eef: int = endi(ef);
    // Upper bound on the projected end boundary, scaled through by r.
    assert(2 * r * be * eef <= (2 * be * we - be) * (r + 1) + r * (3 * be - 1))
        by (nonlinear_arith)
        requires
            r >= 1,
            be >= 1,
            he >= 0,
            2 * be * eef <= he * (r + 1) + 3 * be - 1,
            he * r + be <= 2 * be * we,
    ;
    // Lower bound on the projected begin cell, scaled through by r.
    assert(2 * r * bb * wbf >= (2 * bb * wb - bb) * (r + 1) + r * (1 - bb)) by (nonlinear_arith)
        requires
            r >= 1,
            bb >= 1,
            hb >= 0,
            hb * (r + 1) + bb <= 2 * bb * wbf + 2 * bb - 1,
            2 * bb * wb <= hb * r + bb,
    ;
    // Combine over the common positive denominator 2 * r * bb * be.
    let pe: int = (2 * be * we - be) * (r + 1) + r * (3 * be - 1);
    let qb: int = (2 * bb * wb - bb) * (r + 1) + r * (1 - bb);
    assert(bb * (2 * r * be * eef) <= bb * pe) by (nonlinear_arith)
        requires
            bb >= 1,
            2 * r * be * eef <= pe,
    ;
    assert(be * (2 * r * bb * wbf) >= be * qb) by (nonlinear_arith)
        requires
            be >= 1,
            2 * r * bb * wbf >= qb,
    ;
    assert(bb * pe == (r + 1) * (2 * be * bb * we - be * bb) + r * (3 * be * bb - bb))
        by (nonlinear_arith)
        requires
            pe == (2 * be * we - be) * (r + 1) + r * (3 * be - 1),
    ;
    assert(be * qb == (r + 1) * (2 * be * bb * wb - be * bb) + r * (be - be * bb))
        by (nonlinear_arith)
        requires
            qb == (2 * bb * wb - bb) * (r + 1) + r * (1 - bb),
    ;
    assert(bb * pe - be * qb == (r + 1) * (2 * be * bb * (we - wb)) + r * (4 * be * bb - bb - be))
        by (nonlinear_arith)
        requires
            bb * pe == (r + 1) * (2 * be * bb * we - be * bb) + r * (3 * be * bb - bb),
            be * qb == (r + 1) * (2 * be * bb * wb - be * bb) + r * (be - be * bb),
    ;
    assert(bb * (2 * r * be * eef) == 2 * r * be * bb * eef && be * (2 * r * bb * wbf) == 2 * r
        * be * bb * wbf && 2 * r * be * bb * (eef - wbf) == 2 * r * be * bb * eef - 2 * r * be * bb
        * wbf) by (nonlinear_arith);
    assert(2 * r * be * bb * (eef - wbf) <= (r + 1) * (2 * be * bb * (we - wb)) + r * (4 * be * bb
        - bb - be));
    if we - wb >= 0 {
        assert(2 * r * be * bb * (eef - wbf) <= 2 * r * be * bb * (2 * (we - wb) + 2))
            by (nonlinear_arith)
            requires
                r >= 1,
                bb >= 1,
                be >= 1,
                we - wb >= 0,
                2 * r * be * bb * (eef - wbf) <= (r + 1) * (2 * be * bb * (we - wb)) + r * (4 * be
                    * bb - bb - be),
        ;
        assert(eef - wbf <= 2 * (we - wb) + 2) by (nonlinear_arith)
            requires
                r >= 1,
                bb >= 1,
                be >= 1,
                2 * r * be * bb * (eef - wbf) <= 2 * r * be * bb * (2 * (we - wb) + 2),
        ;
    } else {
        assert(2 * r * be * bb * (eef - wbf) <= 2 * r * be * bb * 2) by (nonlinear_arith)
            requires
                r >= 1,
                bb >= 1,
                be >= 1,
                we - wb <= -1,
                2 * r * be * bb * (eef - wbf) <= (r + 1) * (2 * be * bb * (we - wb)) + r * (4 * be
                    * bb - bb - be),
        ;
        assert(eef - wbf <= 2) by (nonlinear_arith)
            requires
                r >= 1,
                bb >= 1,
                be >= 1,
                2 * r * be * bb * (eef - wbf) <= 2 * r * be * bb * 2,
        ;
    }
}

/// The sector that carries a well-formed run outward is itself well-formed,
/// whether the run is cut at its current point or swept to its end.
proof fn lemma_child_wf<T: Opacity>(m: T, range: int, s: Sector, cut: bool)
    requires
        range <= MAX_RANGE,
        sector_wf(m, range, s),
        sec_r(s) < range,
    ensures
        cut ==> sector_wf(m, range, child_sector(m, s.begin, s.pt)),
        !cut ==> sector_wf(m, range, child_sector(m, s.begin, s.end)),
{
    let r: int = sec_r(s);
    lemma_pp_further(s.begin);
    let nb = pp_further(s.begin);
    assert(pnum(nb) <= (12 * (r + 1) * (r + 1) + 1) * nb.base) by (nonlinear_arith)
        requires
            r >= 1,
            nb.base == s.begin.base,
            nb.base >= 1,
            pnum(s.begin) == s.begin.halves * r,
            pnum(nb) == s.begin.halves * (r + 1),
            s.begin.halves >= 0,
            pnum(s.begin) <= (12 * r * r + 1) * s.begin.base,
    ;
    if cut {
        lemma_pp_further(s.pt);
        let ne = pp_further(s.pt);
        assert(pnum(ne) <= 12 * (r + 1) * (r + 1) * ne.base) by (nonlinear_arith)
            requires
                r >= 1,
                ne.base == s.pt.base,
                ne.base >= 1,
                pnum(s.pt) == s.pt.halves * r,
                pnum(ne) == s.pt.halves * (r + 1),
                s.pt.halves >= 0,
                pnum(s.pt) <= (12 * r * r + 1) * s.pt.base,
        ;
    } else {
        lemma_pp_further(s.end);
        let ne = pp_further(s.end);
        assert(pnum(ne) <= 12 * (r + 1) * (r + 1) * ne.base) by (nonlinear_arith)
            requires
                r >= 1,
                ne.base == s.end.base,
                ne.base >= 1,
                pnum(s.end) == s.end.halves * r,
                pnum(ne) == s.end.halves * (r + 1),
                s.end.halves >= 0,
                pnum(s.end) <= 12 * r * r * s.end.base,
        ;
    }
}

/// Potential of a stack with one sector appended.
proof fn lemma_phi_push(range: int, st: Seq<Sector>, s: Sector)
    ensures
        phi_stack(range, st.push(s)) == phi_stack(range, st) + phi_sector(range, s),
{
    assert(st.push(s).drop_last() =~= st);
    assert(st.push(s).last() == s);
}

/// Everything a traversal with range `range` under the predicate of `m`
/// still produces from the stack `st`, in order: the full unfolding of the
/// step function, which the potential argument shows to be finite.
pub closed spec fn run_from<T: Opacity>(m: T, range: int, st: Seq<Sector>) -> Seq<(int, int)>
    decreases stack_measure(range, st),
    via run_from_decreases::<T>
{
    if st.len() == 0 || range > MAX_RANGE || !stack_wf(m, range, st) {
        Seq::empty()
    } else {
        let stepped = micro(m, range, st);
        (match stepped.1 {
            Some(c) => seq![c],
            None => Seq::empty(),
        }) + run_from(m, range, stepped.0)
    }
}

#[via_fn]
proof fn run_from_decreases<T: Opacity>(m: T, range: int, st: Seq<Sector>) {
    if !(st.len() == 0 || range > MAX_RANGE || !stack_wf(m, range, st)) {
        lemma_micro_good(m, range, st);
    }
}

/// The stack a fresh engine starts from: empty at range zero, else the one
/// sector spanning the whole radius-1 ring, classified by the predicate at
/// direction index 0.
pub closed spec fn init_stack<T: Opacity>(m: T, range: int) -> Seq<Sector> {
    if range < 1 {
        Seq::empty()
    } else {
        seq![
            Sector {
                begin: pp_new(0, 1),
                pt: pp_new(0, 1),
                end: pp_new(12, 1),
                group_opaque: m.opaque(cell_at(0, 1)),
            },
        ]
    }
}

/// The whole sequence a traversal with range `range` under the predicate of
/// `m` produces: the origin first, unconditionally, then the sweep.
pub open spec fn engine_seq<T: Opacity>(m: T, range: int) -> Seq<(int, int)> {
    seq![(0int, 0int)] + run_from(m, range, init_stack(m, range))
}

/// One traversal step on a well-formed non-empty stack keeps the stack
/// well-formed and strictly lowers the termination measure.
proof fn lemma_micro_good<T: Opacity>(m: T, range: int, st: Seq<Sector>)
    requires
        st.len() > 0,
        range <= MAX_RANGE,
        stack_wf(m, range, st),
    ensures
        stack_wf(m, range, micro(m, range, st).0),
        stack_measure(range, micro(m, range, st).0) < stack_measure(range, st),
{
    let s = st.last();
    let rest = st.drop_last();
    assert(sector_wf(m, range, st[st.len() - 1]));
    assert(stack_wf(m, range, rest)) by {
        assert forall|i: int| 0 <= i < rest.len() implies sector_wf(m, range, #[trigger] rest[i]) by {
            assert(rest[i] == st[i]);
        }
    }
    let r: int = sec_r(s);
    let mm: int = mw(range, r) as int;
    let nn: int = nw(range, r) as int;
    lemma_wind_char(s.begin);
    lemma_wind_char(s.pt);
    lemma_endi_char(s.end);
    lemma_endi_cap(s.end, r);
    let wp: int = wind(s.pt);
    let wb: int = wind(s.begin);
    let ee: int = endi(s.end);
    assert(phi_stack(range, st) == phi_stack(range, rest) + phi_sector(range, s));
    if wp < ee {
        let c = cellv(s.pt);
        assert(sec_rem(s) == ee - wp);
        assert(sec_span(s) == ee - wb);
        if m.opaque(c) != s.group_opaque {
            // A transition: the predicate disagrees with the run's start, so
            // the current point lies strictly past the start.
            assert(wb != wp) by {
                if wb == wp {
                    assert(cellv(s.begin) == cellv(s.pt));
                }
            }
            let d: int = wp - wb;
            let srest = Sector { begin: s.pt, pt: s.pt, end: s.end, group_opaque: m.opaque(c) };
            assert(sector_wf(m, range, srest));
            assert(sec_rem(srest) == ee - wp);
            assert(sec_span(srest) == ee - wp);
            assert(phi_sector(range, s) == 2 * (ee - wp) + (ee - wb) * (1 + mm) + nn);
            assert(phi_sector(range, srest) == 2 * (ee - wp) + (ee - wp) * (1 + mm) + nn);
            assert((ee - wb) * (1 + mm) == (ee - wp) * (1 + mm) + d * (1 + mm)) by (nonlinear_arith)
                requires
                    d == wp - wb,
            ;
            assert(d * (1 + mm) >= 1) by (nonlinear_arith)
                requires
                    d >= 1,
                    mm >= 0,
            ;
            if !s.group_opaque && r < range {
                let ch = child_sector(m, s.begin, s.pt);
                lemma_child_wf(m, range, s, true);
                assert(pnum(s.pt) + s.pt.base <= 2 * s.pt.base * (wp + 1)) by (nonlinear_arith)
                    requires
                        pnum(s.pt) + s.pt.base <= 2 * s.pt.base * wp + 2 * s.pt.base - 1,
                ;
                lemma_span_further(s.begin, s.pt, wp + 1);
                assert(sec_rem(ch) == sec_span(ch));
                let sc: int = sec_span(ch) as int;
                assert(sc <= 2 * (d + 1) + 2);
                let mm1: int = mw(range, r + 1) as int;
                let nn1: int = nw(range, r + 1) as int;
                assert(mm == 6 * mm1 + nn1 + 18);
                assert(nn == 2 * mm1 + nn1 + 7);
                assert(phi_sector(range, ch) == 2 * sc + sc * (1 + mm1) + nn1);
                assert(2 * sc + sc * (1 + mm1) + nn1 + 1 <= d * (1 + mm)) by (nonlinear_arith)
                    requires
                        d >= 1,
                        mm == 6 * mm1 + nn1 + 18,
                        0 <= sc <= 2 * d + 4,
                        mm1 >= 0,
                        nn1 >= 0,
                ;
                let st2 = rest.push(srest).push(ch);
                assert(micro(m, range, st).0 =~= st2);
                lemma_phi_push(range, rest, srest);
                lemma_phi_push(range, rest.push(srest), ch);
                assert(stack_wf(m, range, st2)) by {
                    assert forall|i: int| 0 <= i < st2.len() implies sector_wf(
                        m,
                        range,
                        #[trigger] st2[i],
                    ) by {
                        if i < rest.len() {
                            assert(st2[i] == rest[i]);
                        } else if i == rest.len() {
                            assert(st2[i] == srest);
                        } else {
                            assert(st2[i] == ch);
                        }
                    }
                }
            } else {
                let st2 = rest.push(srest);
                assert(micro(m, range, st).0 =~= st2);
                lemma_phi_push(range, rest, srest);
                assert(stack_wf(m, range, st2)) by {
                    assert forall|i: int| 0 <= i < st2.len() implies sector_wf(
                        m,
                        range,
                        #[trigger] st2[i],
                    ) by {
                        if i < rest.len() {
                            assert(st2[i] == rest[i]);
                        } else {
                            assert(st2[i] == srest);
                        }
                    }
                }
            }
        } else {
            // The cell is visible: advance along the ring and produce it.
            assert(wp <= 6 * r * r);
            lemma_pp_next(s.pt);
            let np = pp_next(s.pt);
            let adv = Sector { begin: s.begin, pt: np, end: s.end, group_opaque: s.group_opaque };
            assert(pnum(np) <= (12 * r * r + 1) * np.base) by (nonlinear_arith)
                requires
                    pnum(np) == (2 * wp + 1) * r,
                    np.base == r,
                    wp <= 6 * r * r,
                    r >= 1,
            ;
            assert(sector_wf(m, range, adv));
            assert(sec_rem(adv) == ee - wp - 1);
            assert(sec_span(adv) == ee - wb);
            assert(phi_sector(range, adv) + 2 == phi_sector(range, s));
            let st2 = rest.push(adv);
            assert(micro(m, range, st).0 =~= st2);
            lemma_phi_push(range, rest, adv);
            assert(stack_wf(m, range, st2)) by {
                assert forall|i: int| 0 <= i < st2.len() implies sector_wf(
                    m,
                    range,
                    #[trigger] st2[i],
                ) by {
                    if i < rest.len() {
                        assert(st2[i] == rest[i]);
                    } else {
                        assert(st2[i] == adv);
                    }
                }
            }
        }
    } else {
        // End of the run: nothing to produce; a transparent run within range
        // expands one ring outward.
        assert(sec_rem(s) == 0);
        if !s.group_opaque && r < range {
            let ch = child_sector(m, s.begin, s.end);
            lemma_child_wf(m, range, s, false);
            lemma_span_further(s.begin, s.end, ee);
            assert(sec_rem(ch) == sec_span(ch));
            let sc: int = sec_span(ch) as int;
            let sp: int = sec_span(s) as int;
            assert(sc <= 2 * sp + 2);
            let mm1: int = mw(range, r + 1) as int;
            let nn1: int = nw(range, r + 1) as int;
            assert(mm == 6 * mm1 + nn1 + 18);
            assert(nn == 2 * mm1 + nn1 + 7);
            assert(phi_sector(range, ch) == 2 * sc + sc * (1 + mm1) + nn1);
            assert(phi_sector(range, s) == sp * (1 + mm) + nn);
            assert(2 * sc + sc * (1 + mm1) + nn1 + 1 <= sp * (1 + mm) + nn) by (nonlinear_arith)
                requires
                    mm == 6 * mm1 + nn1 + 18,
                    nn == 2 * mm1 + nn1 + 7,
                    0 <= sc <= 2 * sp + 2,
                    sp >= 0,
                    mm1 >= 0,
                    nn1 >= 0,
            ;
            let st2 = rest.push(ch);
            assert(micro(m, range, st).0 =~= st2);
            lemma_phi_push(range, rest, ch);
            assert(stack_wf(m, range, st2)) by {
                assert forall|i: int| 0 <= i < st2.len() implies sector_wf(
                    m,
                    range,
                    #[trigger] st2[i],
                ) by {
                    if i < rest.len() {
                        assert(st2[i] == rest[i]);
                    } else {
                        assert(st2[i] == ch);
                    }
                }
            }
        } else {
            assert(micro(m, range, st).0 =~= rest);
        }
    }
}

/// Law: for every opacity predicate and every range, the produced sequence
/// is non-empty and begins with the origin.
pub proof fn lemma_origin_first<T: Opacity>(m: T, range: int)
    ensures
        engine_seq(m, range).len() >= 1,
        engine_seq(m, range)[0] == (0int, 0int),
{
    assert((seq![(0int, 0int)] + run_from(m, range, init_stack(m, range)))[0] == (0int, 0int));
}

/// Law: with range zero the produced sequence is exactly the origin,
/// whatever the opacity predicate.
pub proof fn lemma_range_zero<T: Opacity>(m: T)
    ensures
        engine_seq(m, 0) == seq![(0int, 0int)],
{
    assert(init_stack(m, 0) =~= Seq::<Sector>::empty());
    assert(run_from(m, 0, init_stack(m, 0)) =~= Seq::<(int, int)>::empty());
    assert(engine_seq(m, 0) =~= seq![(0int, 0int)]);
}

/// Two pointwise-equal predicates classify every sector alike.
proof fn lemma_sector_wf_eq<T1: Opacity, T2: Opacity>(m1: T1, m2: T2, range: int, st: Seq<Sector>)
    requires
        forall|c: (int, int)| #[trigger] m1.opaque(c) == m2.opaque(c),
    ensures
        stack_wf(m1, range, st) == stack_wf(m2, range, st),
{
    assert forall|i: int| 0 <= i < st.len() implies sector_wf(m1, range, #[trigger] st[i])
        == sector_wf(m2, range, st[i]) by {
        assert(m1.opaque(cellv(st[i].begin)) == m2.opaque(cellv(st[i].begin)));
    }
    if stack_wf(m1, range, st) {
        assert forall|i: int| 0 <= i < st.len() implies sector_wf(m2, range, #[trigger] st[i]) by {
            assert(sector_wf(m1, range, st[i]));
        }
    }
    if stack_wf(m2, range, st) {
        assert forall|i: int| 0 <= i < st.len() implies sector_wf(m1, range, #[trigger] st[i]) by {
            assert(sector_wf(m2, range, st[i]));
        }
    }
}

/// Two pointwise-equal predicates drive the traversal identically.
proof fn lemma_run_eq<T1: Opacity, T2: Opacity>(m1: T1, m2: T2, range: int, st: Seq<Sector>)
    requires
        forall|c: (int, int)| #[trigger] m1.opaque(c) == m2.opaque(c),
    ensures
        run_from(m1, range, st) == run_from(m2, range, st),
    decreases stack_measure(range, st),
{
    lemma_sector_wf_eq(m1, m2, range, st);
    if st.len() == 0 || range > MAX_RANGE || !stack_wf(m1, range, st) {
        assert(run_from(m1, range, st) =~= run_from(m2, range, st));
    } else {
        let s = st.last();
        let s1 = micro(m1, range, st);
        let s2 = micro(m2, range, st);
        assert(m1.opaque(cellv(s.pt)) == m2.opaque(cellv(s.pt)));
        assert(m1.opaque(cellv(pp_further(s.begin))) == m2.opaque(cellv(pp_further(s.begin))));
        assert(child_sector(m1, s.begin, s.pt) == child_sector(m2, s.begin, s.pt));
        assert(child_sector(m1, s.begin, s.end) == child_sector(m2, s.begin, s.end));
        assert(s1.0 =~= s2.0);
        assert(s1.1 == s2.1);
        assert(sector_wf(m1, range, st[st.len() - 1]));
        lemma_micro_good(m1, range, st);
        lemma_run_eq(m1, m2, range, s1.0);
    }
}

/// Law: the engine is deterministic.  Two engines built with pointwise-equal
/// opacity predicates and the same range produce identical sequences.
pub proof fn lemma_deterministic<T1: Opacity, T2: Opacity>(m1: T1, m2: T2, range: int)
    requires
        forall|c: (int, int)| #[trigger] m1.opaque(c) == m2.opaque(c),
    ensures
        engine_seq(m1, range) == engine_seq(m2, range),
{
    assert(m1.opaque(cell_at(0, 1)) == m2.opaque(cell_at(0, 1)));
    assert(init_stack(m1, range) =~= init_stack(m2, range));
    lemma_run_eq(m1, m2, range, init_stack(m1, range));
}

/// While the stack's bottom sector is still sweeping the full radius-1
/// ring, every ring cell from its current winding index up to the ring's
/// end is still produced, whatever happens on the rings above it.
proof fn lemma_ring1_run<T: Opacity>(m: T, range: int, st: Seq<Sector>, k: int)
    requires
        range <= MAX_RANGE,
        stack_wf(m, range, st),
        st.len() >= 1,
        sec_r(st[0]) == 1,
        endi(st[0].end) == 7,
        wind(st[0].pt) <= k < 7,
    ensures
        run_from(m, range, st).contains(cell_at(k, 1)),
    decreases stack_measure(range, st),
{
    let stepped = micro(m, range, st);
    assert(sector_wf(m, range, st[st.len() - 1]));
    lemma_micro_good(m, range, st);
    if st.len() > 1 {
        let rest = st.drop_last();
        assert(rest[0] == st[0]);
        assert(stepped.0[0] == st[0]);
        lemma_ring1_run(m, range, stepped.0, k);
        let tail = run_from(m, range, stepped.0);
        let i = choose|i: int| 0 <= i < tail.len() && tail[i] == cell_at(k, 1);
        match stepped.1 {
            Some(c) => {
                assert(run_from(m, range, st)[1 + i] == cell_at(k, 1));
            }
            None => {
                assert(run_from(m, range, st)[i] == cell_at(k, 1));
            }
        }
    } else {
        let s = st[0];
        assert(s == st.last());
        let wp = wind(s.pt);
        let ee = endi(s.end);
        assert(s.pt.radius == 1 && s.end.radius == 1 && s.begin.radius == 1);
        lemma_wind_le_endi(s.pt);
        assert(wp < ee);
        let c = cellv(s.pt);
        if m.opaque(c) != s.group_opaque {
            // Split: the bottom sector restarts at the same point.
            let srest = Sector { begin: s.pt, pt: s.pt, end: s.end, group_opaque: m.opaque(c) };
            assert(stepped.0[0] == srest);
            assert(stepped.1 is None);
            lemma_ring1_run(m, range, stepped.0, k);
            let tail = run_from(m, range, stepped.0);
            let i = choose|i: int| 0 <= i < tail.len() && tail[i] == cell_at(k, 1);
            assert(run_from(m, range, st)[i] == cell_at(k, 1));
        } else {
            // Produce: the bottom sector advances one cell.
            assert(wp <= 6);
            lemma_pp_next(s.pt);
            assert(c == cell_at(wp, 1));
            if k == wp {
                assert(run_from(m, range, st)[0] == cell_at(k, 1));
            } else {
                let adv = Sector {
                    begin: s.begin,
                    pt: pp_next(s.pt),
                    end: s.end,
                    group_opaque: s.group_opaque,
                };
                assert(stepped.0[0] == adv);
                assert(wind(adv.pt) == wp + 1 <= k);
                lemma_ring1_run(m, range, stepped.0, k);
                let tail = run_from(m, range, stepped.0);
                let i = choose|i: int| 0 <= i < tail.len() && tail[i] == cell_at(k, 1);
                assert(run_from(m, range, st)[1 + i] == cell_at(k, 1));
            }
        }
    }
}

/// Law: with range at least 1, all six radius-1 neighbours of the origin
/// are produced, whatever the opacity predicate.
pub proof fn lemma_ring1_total<T: Opacity>(m: T, range: int, k: int)
    requires
        1 <= range <= MAX_RANGE,
        0 <= k < 6,
    ensures
        engine_seq(m, range).contains(cell_at(k, 1)),
        engine_seq(m, range).contains(crate::hex::dir6_vec(k)),
{
    crate::hex::lemma_cell_at_neighbor(k);
    let st = init_stack(m, range);
    let b = pp_new(0, 1);
    let e = pp_new(12, 1);
    assert(st[0] == Sector { begin: b, pt: b, end: e, group_opaque: m.opaque(cell_at(0, 1)) });
    lemma_wind_char(b);
    assert(wind(b) == 0) by (nonlinear_arith)
        requires
            pnum(b) == 0,
            b.base == 1,
            2 * b.base * wind(b) <= pnum(b) + b.base,
            pnum(b) + b.base <= 2 * b.base * wind(b) + 2 * b.base - 1,
    ;
    assert(pnum(e) == 12 && e.base == 1);
    assert(endi(e) == (12 + 3 - 1) / 2);
    assert(sector_wf(m, range, st[0])) by {
        assert(cellv(b) == cell_at(0, 1));
    }
    assert(stack_wf(m, range, st)) by {
        assert forall|i: int| 0 <= i < st.len() implies sector_wf(m, range, #[trigger] st[i]) by {
            assert(st[i] == st[0]);
        }
    }
    lemma_ring1_run(m, range, st, k);
    let tail = run_from(m, range, st);
    let i = choose|i: int| 0 <= i < tail.len() && tail[i] == cell_at(k, 1);
    assert(engine_seq(m, range)[1 + i] == cell_at(k, 1));
}

/// The cells an unobstructed sweep of the ring of radius `r` produces from
/// winding index `w` on: one cell per index through `6r`, the seam cell
/// included a second time under its wrapped index.
pub closed spec fn ring_sweep(r: int, w: int) -> Seq<(int, int)>
    decreases 6 * r + 2 - w,
{
    if 1 <= r && 0 <= w <= 6 * r {
        seq![cell_at(w, r)] + ring_sweep(r, w + 1)
    } else {
        Seq::empty()
    }
}

/// The cells an unobstructed traversal of range `range` produces from ring
/// `r` outward: each ring swept whole, inner ones first.
pub closed spec fn open_sweep(range: int, r: int) -> Seq<(int, int)>
    decreases range + 1 - r,
{
    if 1 <= r <= range {
        ring_sweep(r, 0) + open_sweep(range, r + 1)
    } else {
        Seq::empty()
    }
}

/// The traversal stack of an unobstructed sweep that has produced the cells
/// of ring `r` below winding index `w`: one full-ring sector, its current
/// point at `w`.
spec fn open_state(r: int, w: int) -> Seq<Sector> {
    let begin = PolarPoint { halves: 0, base: 1, radius: r as u64 };
    let pt = if w == 0 {
        begin
    } else {
        PolarPoint { halves: (2 * w - 1) as u64, base: r as u64, radius: r as u64 }
    };
    let end = PolarPoint { halves: 12, base: 1, radius: r as u64 };
    seq![Sector { begin, pt, end, group_opaque: false }]
}

/// Facts about the open-sweep state: it is well-formed, its current point
/// reads back `w`, and its end boundary sits one index past the seam.
proof fn lemma_open_state_wf<T: Opacity>(m: T, range: int, r: int, w: int)
    requires
        forall|c: (int, int)| !(#[trigger] m.opaque(c)),
        1 <= r <= range,
        range <= MAX_RANGE,
        0 <= w <= 6 * r + 1,
    ensures
        stack_wf(m, range, open_state(r, w)),
        wind(open_state(r, w)[0].pt) == w,
        endi(open_state(r, w)[0].end) == 6 * r + 1,
        wind(open_state(r, w)[0].begin) == 0,
        open_state(r, w)[0].pt.radius == r,
{
    let st = open_state(r, w);
    let s = st[0];
    assert(s.begin.halves == 0 && s.begin.base == 1 && s.begin.radius == r);
    assert(pnum(s.begin) == 0) by (nonlinear_arith)
        requires
            pnum(s.begin) == s.begin.halves * s.begin.radius,
            s.begin.halves == 0,
    ;
    assert(pp_wf(s.begin));
    lemma_wind_char(s.begin);
    assert(wind(s.begin) == 0) by (nonlinear_arith)
        requires
            s.begin.base == 1,
            pnum(s.begin) == 0,
            2 * s.begin.base * wind(s.begin) <= pnum(s.begin) + s.begin.base,
            pnum(s.begin) + s.begin.base <= 2 * s.begin.base * wind(s.begin) + 2 * s.begin.base
                - 1,
    ;
    assert(pnum(s.end) == 12 * r) by (nonlinear_arith)
        requires
            pnum(s.end) == s.end.halves * s.end.radius,
            s.end.halves == 12,
            s.end.radius == r,
    ;
    assert(s.end.halves <= 13 * s.end.base * s.end.radius) by (nonlinear_arith)
        requires
            s.end.halves == 12,
            s.end.base == 1,
            s.end.radius == r,
            r >= 1,
    ;
    assert(pp_wf(s.end));
    lemma_endi_char(s.end);
    assert(endi(s.end) == 6 * r + 1) by (nonlinear_arith)
        requires
            s.end.base == 1,
            pnum(s.end) == 12 * r,
            r >= 1,
            pnum(s.end) + s.end.base <= 2 * s.end.base * endi(s.end),
            2 * s.end.base * endi(s.end) <= pnum(s.end) + 3 * s.end.base - 1,
    ;
    assert(pnum(s.end) <= 12 * r * r * s.end.base) by (nonlinear_arith)
        requires
            pnum(s.end) == 12 * r,
            s.end.base == 1,
            r >= 1,
    ;
    if w == 0 {
        assert(wind(s.pt) == 0);
        assert(pp_wf(s.pt));
        assert(pnum(s.pt) <= (12 * r * r + 1) * s.pt.base);
    } else {
        assert(s.pt.halves == 2 * w - 1 && s.pt.base == r && s.pt.radius == r);
        assert(s.pt.halves <= 13 * s.pt.base * s.pt.radius) by (nonlinear_arith)
            requires
                s.pt.halves == 2 * w - 1,
                w <= 6 * r + 1,
                s.pt.base == r,
                s.pt.radius == r,
                r >= 1,
        ;
        assert(pp_wf(s.pt));
        assert(pnum(s.pt) + s.pt.base == w * (2 * s.pt.base)) by (nonlinear_arith)
            requires
                pnum(s.pt) == s.pt.halves * s.pt.radius,
                s.pt.halves == 2 * w - 1,
                s.pt.base == r,
                s.pt.radius == r,
        ;
        lemma_floor_char(pnum(s.pt) + s.pt.base, 2 * s.pt.base);
        assert(wind(s.pt) == w) by (nonlinear_arith)
            requires
                s.pt.base >= 1,
                pnum(s.pt) + s.pt.base == w * (2 * s.pt.base),
                2 * s.pt.base * wind(s.pt) <= pnum(s.pt) + s.pt.base,
                pnum(s.pt) + s.pt.base < 2 * s.pt.base * wind(s.pt) + 2 * s.pt.base,
        ;
        assert(pnum(s.pt) <= (12 * r * r + 1) * s.pt.base) by (nonlinear_arith)
            requires
                pnum(s.pt) == (2 * w - 1) * r,
                s.pt.base == r,
                w <= 6 * r + 1,
                r >= 1,
        ;
    }
    assert(!m.opaque(cellv(s.begin)));
    assert(sector_wf(m, range, s));
    assert forall|i: int| 0 <= i < st.len() implies sector_wf(m, range, #[trigger] st[i]) by {
        assert(st[i] == s);
    }
}

/// On never-opaque terrain the traversal from the open-sweep state produces
/// exactly the rest of its ring, then every outer ring whole.
proof fn lemma_open_run<T: Opacity>(m: T, range: int, r: int, w: int)
    requires
        forall|c: (int, int)| !(#[trigger] m.opaque(c)),
        1 <= r <= range,
        range <= MAX_RANGE,
        0 <= w <= 6 * r + 1,
    ensures
        run_from(m, range, open_state(r, w)) == ring_sweep(r, w) + open_sweep(range, r + 1),
    decreases range - r, 6 * r + 2 - w,
{
    lemma_open_state_wf(m, range, r, w);
    let st = open_state(r, w);
    let s = st[0];
    assert(s == st.last());
    assert(st.drop_last() =~= Seq::<Sector>::empty());
    let stepped = micro(m, range, st);
    if w <= 6 * r {
        // Below the end boundary, and the predicate always agrees with the
        // transparent classification: produce and advance.
        assert(!m.opaque(cellv(s.pt)));
        assert(wind(s.pt) <= 6 * r * r) by (nonlinear_arith)
            requires
                wind(s.pt) == w,
                w <= 6 * r,
                r >= 1,
        ;
        lemma_pp_next(s.pt);
        assert(pp_next(s.pt) == open_state(r, w + 1)[0].pt);
        assert(stepped.0 =~= open_state(r, w + 1));
        assert(stepped.1 == Some(cell_at(w, r)));
        lemma_open_run(m, range, r, w + 1);
        assert(run_from(m, range, st) == seq![cell_at(w, r)] + (ring_sweep(r, w + 1) + open_sweep(
            range,
            r + 1,
        )));
        assert(seq![cell_at(w, r)] + (ring_sweep(r, w + 1) + open_sweep(range, r + 1)) =~= (seq![
            cell_at(w, r),
        ] + ring_sweep(r, w + 1)) + open_sweep(range, r + 1));
    } else {
        // The ring is fully swept; a transparent run expands outward while
        // the range allows.
        assert(ring_sweep(r, w) =~= Seq::<(int, int)>::empty());
        assert(stepped.1 is None);
        if r < range {
            assert(sec_r(s) == r && !s.group_opaque);
            lemma_pp_further(s.begin);
            lemma_pp_further(s.end);
            assert(child_sector(m, s.begin, s.end) == open_state(r + 1, 0)[0]);
            assert(stepped.0 =~= open_state(r + 1, 0));
            lemma_open_run(m, range, r + 1, 0);
            assert(run_from(m, range, st) == ring_sweep(r + 1, 0) + open_sweep(range, r + 2));
            assert(open_sweep(range, r + 1) == ring_sweep(r + 1, 0) + open_sweep(range, r + 2));
            assert(ring_sweep(r, w) + open_sweep(range, r + 1) =~= open_sweep(range, r + 1));
        } else {
            assert(stepped.0 =~= Seq::<Sector>::empty());
            assert(run_from(m, range, stepped.0) =~= Seq::<(int, int)>::empty());
            assert(open_sweep(range, r + 1) =~= Seq::<(int, int)>::empty());
            assert(run_from(m, range, st) =~= ring_sweep(r, w) + open_sweep(range, r + 1));
        }
    }
}

/// The distinct cells of the ring of radius `r`, from winding index `w` up
/// to (not including) the seam.
spec fn ring_cells(r: int, w: int) -> Seq<(int, int)>
    decreases 6 * r - w,
{
    if 1 <= r && 0 <= w < 6 * r {
        seq![cell_at(w, r)] + ring_cells(r, w + 1)
    } else {
        Seq::empty()
    }
}

/// The distinct cells of the rings `r` through `range`.
spec fn disk_cells(range: int, r: int) -> Seq<(int, int)>
    decreases range + 1 - r,
{
    if 1 <= r <= range {
        ring_cells(r, 0) + disk_cells(range, r + 1)
    } else {
        Seq::empty()
    }
}

/// The distinct cells of a ring: one per winding index, `6r` in all, none
/// repeated, each at hex distance `r`.
proof fn lemma_ring_cells_props(r: int, w: int)
    requires
        1 <= r,
        0 <= w <= 6 * r,
    ensures
        ring_cells(r, w).len() == 6 * r - w,
        ring_cells(r, w).no_duplicates(),
        forall|c: (int, int)| #[trigger]
            ring_cells(r, w).contains(c) ==> hex_norm(c) == r && w <= ring_idx(c, r) < 6 * r,
        forall|k: int| w <= k < 6 * r ==> ring_cells(r, w).contains(#[trigger] cell_at(k, r)),
    decreases 6 * r - w,
{
    broadcast use vstd::seq_lib::lemma_seq_concat_contains_all_elements;
    if w < 6 * r {
        lemma_ring_cells_props(r, w + 1);
        lemma_cell_at_ring(w, r);
        let h = cell_at(w, r);
        let t = ring_cells(r, w + 1);
        let me = ring_cells(r, w);
        assert(me == seq![h] + t);
        assert(seq![h].contains(h)) by {
            assert(seq![h][0] == h);
        }
        assert forall|c: (int, int)| #[trigger] me.contains(c) implies hex_norm(c) == r && w
            <= ring_idx(c, r) < 6 * r by {
            if c != h {
                assert(t.contains(c));
            }
        }
        assert forall|k: int| w <= k < 6 * r implies me.contains(#[trigger] cell_at(k, r)) by {
            if k == w {
                assert(me.contains(h));
            } else {
                assert(t.contains(cell_at(k, r)));
            }
        }
        assert(me.no_duplicates()) by {
            assert forall|i: int, j: int| 0 <= i < j < me.len() implies me[i] != me[j] by {
                if i == 0 {
                    assert(me[j] == t[j - 1]);
                    assert(t.contains(t[j - 1]));
                    assert(ring_idx(me[j], r) >= w + 1);
                    assert(ring_idx(h, r) == w);
                } else {
                    assert(me[i] == t[i - 1] && me[j] == t[j - 1]);
                }
            }
        }
    }
}

/// The distinct cells of a span of rings: `3 * (R(R+1) - r(r-1))` in all,
/// none repeated, each at a hex distance within the span.
proof fn lemma_disk_cells_props(range: int, r: int)
    requires
        1 <= r <= range + 1,
    ensures
        disk_cells(range, r).len() == 3 * (range * (range + 1) - r * (r - 1)),
        disk_cells(range, r).no_duplicates(),
        forall|c: (int, int)| #[trigger]
            disk_cells(range, r).contains(c) ==> r <= hex_norm(c) <= range,
    decreases range + 1 - r,
{
    broadcast use vstd::seq_lib::lemma_seq_concat_contains_all_elements;
    if r <= range {
        lemma_disk_cells_props(range, r + 1);
        lemma_ring_cells_props(r, 0);
        let a = ring_cells(r, 0);
        let t = disk_cells(range, r + 1);
        let me = disk_cells(range, r);
        assert(me == a + t);
        assert(me.len() == 6 * r + 3 * (range * (range + 1) - (r + 1) * r));
        assert(6 * r + 3 * (range * (range + 1) - (r + 1) * r) == 3 * (range * (range + 1) - r * (r
            - 1))) by (nonlinear_arith);
        assert forall|c: (int, int)| #[trigger] me.contains(c) implies r <= hex_norm(c)
            <= range by {
            if a.contains(c) {
            } else {
                assert(t.contains(c));
            }
        }
        assert(me.no_duplicates()) by {
            assert forall|i: int, j: int| 0 <= i < j < me.len() implies me[i] != me[j] by {
                if j < a.len() {
                    assert(me[i] == a[i] && me[j] == a[j]);
                } else if i >= a.len() {
                    assert(me[i] == t[i - a.len()] && me[j] == t[j - a.len()]);
                } else {
                    assert(me[i] == a[i] && me[j] == t[j - a.len()]);
                    assert(a.contains(a[i]));
                    assert(t.contains(t[j - a.len()]));
                    assert(hex_norm(me[i]) == r && hex_norm(me[j]) >= r + 1);
                }
            }
        }
    } else {
        assert(3 * (range * (range + 1) - r * (r - 1)) == 0) by (nonlinear_arith)
            requires
                r == range + 1,
        ;
    }
}

/// Every cell a whole-ring sweep produces is a distinct cell of its ring:
/// the one extra seam index wraps back to the ring's first cell.
proof fn lemma_ring_sweep_subset(r: int, w: int)
    requires
        1 <= r,
        0 <= w <= 6 * r + 1,
    ensures
        forall|c: (int, int)| #[trigger]
            ring_sweep(r, w).contains(c) ==> ring_cells(r, 0).contains(c),
    decreases 6 * r + 2 - w,
{
    broadcast use vstd::seq_lib::lemma_seq_concat_contains_all_elements;
    lemma_ring_cells_props(r, 0);
    if w <= 6 * r {
        lemma_ring_sweep_subset(r, w + 1);
        let h = cell_at(w, r);
        let t = ring_sweep(r, w + 1);
        let me = ring_sweep(r, w);
        assert(me == seq![h] + t);
        assert(ring_cells(r, 0).contains(h)) by {
            if w == 6 * r {
                lemma_cell_at_wrap(r);
                assert(ring_cells(r, 0).contains(cell_at(0, r)));
            } else {
                assert(ring_cells(r, 0).contains(cell_at(w, r)));
            }
        }
        assert forall|c: (int, int)| #[trigger] me.contains(c) implies ring_cells(r, 0).contains(
            c,
        ) by {
            if c != h {
                assert(t.contains(c));
            }
        }
    }
}

/// A whole-ring sweep produces every winding index it spans.
proof fn lemma_ring_sweep_complete(r: int, w: int, k: int)
    requires
        1 <= r,
        0 <= w <= k <= 6 * r,
    ensures
        ring_sweep(r, w).contains(cell_at(k, r)),
    decreases k - w,
{
    broadcast use vstd::seq_lib::lemma_seq_concat_contains_all_elements;
    let h = cell_at(w, r);
    let t = ring_sweep(r, w + 1);
    let me = ring_sweep(r, w);
    assert(me == seq![h] + t);
    if k == w {
        assert(me[0] == h);
    } else {
        lemma_ring_sweep_complete(r, w + 1, k);
    }
}

/// Every distinct cell of a ring is produced by the whole-ring sweep.
proof fn lemma_ring_cells_subset_sweep(r: int, w: int)
    requires
        1 <= r,
        0 <= w <= 6 * r,
    ensures
        forall|c: (int, int)| #[trigger]
            ring_cells(r, w).contains(c) ==> ring_sweep(r, 0).contains(c),
    decreases 6 * r - w,
{
    broadcast use vstd::seq_lib::lemma_seq_concat_contains_all_elements;
    if w < 6 * r {
        lemma_ring_cells_subset_sweep(r, w + 1);
        lemma_ring_sweep_complete(r, 0, w);
        let h = cell_at(w, r);
        let t = ring_cells(r, w + 1);
        let me = ring_cells(r, w);
        assert(me == seq![h] + t);
        assert forall|c: (int, int)| #[trigger] me.contains(c) implies ring_sweep(r, 0).contains(
            c,
        ) by {
            if c != h {
                assert(t.contains(c));
            }
        }
    }
}

/// An unobstructed traversal of rings `r` through `range` produces exactly
/// the distinct cells of those rings, duplicates aside.
proof fn lemma_open_sweep_eq_disk(range: int, r: int)
    requires
        1 <= r,
    ensures
        forall|c: (int, int)| #[trigger]
            open_sweep(range, r).contains(c) <==> disk_cells(range, r).contains(c),
    decreases range + 1 - r,
{
    broadcast use vstd::seq_lib::lemma_seq_concat_contains_all_elements;
    if r <= range {
        lemma_open_sweep_eq_disk(range, r + 1);
        lemma_ring_sweep_subset(r, 0);
        lemma_ring_cells_subset_sweep(r, 0);
        let sw = open_sweep(range, r);
        let dc = disk_cells(range, r);
        assert(sw == ring_sweep(r, 0) + open_sweep(range, r + 1));
        assert(dc == ring_cells(r, 0) + disk_cells(range, r + 1));
        assert forall|c: (int, int)| #[trigger] sw.contains(c) implies dc.contains(c) by {
            if ring_sweep(r, 0).contains(c) {
                assert(ring_cells(r, 0).contains(c));
            } else {
                assert(open_sweep(range, r + 1).contains(c));
            }
        }
        assert forall|c: (int, int)| #[trigger] dc.contains(c) implies sw.contains(c) by {
            if ring_cells(r, 0).contains(c) {
                assert(ring_sweep(r, 0).contains(c));
            } else {
                assert(disk_cells(range, r + 1).contains(c));
            }
        }
    } else {
        assert(open_sweep(range, r) =~= Seq::<(int, int)>::empty());
        assert(disk_cells(range, r) =~= Seq::<(int, int)>::empty());
    }
}

/// Law: on never-opaque terrain with range `R` the set of distinct cells
/// produced is the full hex disk, `1 + 3 R (R + 1)` cells in all.
pub proof fn lemma_full_visibility_count<T: Opacity>(m: T, range: int)
    requires
        forall|c: (int, int)| !(#[trigger] m.opaque(c)),
        0 <= range <= MAX_RANGE,
    ensures
        engine_seq(m, range).to_set().finite(),
        engine_seq(m, range).to_set().len() == 1 + 3 * range * (range + 1),
{
    broadcast use vstd::seq_lib::lemma_seq_concat_contains_all_elements;
    lemma_open_field(m, range);
    lemma_disk_cells_props(range, 1);
    let origin = (0int, 0int);
    let eng = engine_seq(m, range);
    let dseq = seq![origin] + disk_cells(range, 1);
    assert(seq![origin].contains(origin)) by {
        assert(seq![origin][0] == origin);
    }
    // The engine's output and the canonical disk hold the same cells.
    if range >= 1 {
        lemma_open_sweep_eq_disk(range, 1);
    } else {
        assert(open_sweep(range, 1) =~= Seq::<(int, int)>::empty());
        assert(disk_cells(range, 1) =~= Seq::<(int, int)>::empty());
    }
    assert(eng.to_set() =~= dseq.to_set()) by {
        assert forall|c: (int, int)| #[trigger] eng.contains(c) implies dseq.contains(c) by {
            if c != origin {
                assert(open_sweep(range, 1).contains(c));
                assert(disk_cells(range, 1).contains(c));
            }
        }
        assert forall|c: (int, int)| #[trigger] dseq.contains(c) implies eng.contains(c) by {
            if c != origin {
                assert(disk_cells(range, 1).contains(c));
                assert(open_sweep(range, 1).contains(c));
            }
        }
        assert forall|c: (int, int)| eng.to_set().contains(c) <==> dseq.to_set().contains(c) by {
            assert(eng.to_set().contains(c) <==> eng.contains(c));
            assert(dseq.to_set().contains(c) <==> dseq.contains(c));
        }
    }
    // The canonical disk repeats nothing: the origin lies on no ring.
    assert(dseq.no_duplicates()) by {
        assert forall|i: int, j: int| 0 <= i < j < dseq.len() implies dseq[i] != dseq[j] by {
            if i == 0 {
                assert(dseq[j] == disk_cells(range, 1)[j - 1]);
                assert(disk_cells(range, 1).contains(dseq[j]));
                assert(hex_norm(dseq[j]) >= 1);
                assert(hex_norm(origin) == 0);
            } else {
                assert(dseq[i] == disk_cells(range, 1)[i - 1]);
                assert(dseq[j] == disk_cells(range, 1)[j - 1]);
            }
        }
    }
    dseq.unique_seq_to_set();
    assert(dseq.len() == 1 + 3 * (range * (range + 1) - 1 * (1 - 1)));
    assert(3 * (range * (range + 1) - 1 * (1 - 1)) == 3 * range * (range + 1))
        by (nonlinear_arith);
    vstd::seq_lib::seq_to_set_is_finite::<(int, int)>(dseq);
}

/// Law: on never-opaque terrain the engine produces exactly the origin and
/// then every ring out to its range, swept whole, inner rings first.
pub proof fn lemma_open_field<T: Opacity>(m: T, range: int)
    requires
        forall|c: (int, int)| !(#[trigger] m.opaque(c)),
        0 <= range <= MAX_RANGE,
    ensures
        engine_seq(m, range) == seq![(0int, 0int)] + open_sweep(range, 1),
{
    if range == 0 {
        assert(init_stack(m, range) =~= Seq::<Sector>::empty());
        assert(run_from(m, range, init_stack(m, range)) =~= Seq::<(int, int)>::empty());
        assert(open_sweep(range, 1) =~= Seq::<(int, int)>::empty());
        assert(engine_seq(m, range) =~= seq![(0int, 0int)] + open_sweep(range, 1));
    } else {
        assert(init_stack(m, range) =~= open_state(1, 0));
        lemma_open_run(m, range, 1, 0);
        assert(open_sweep(range, 1) == ring_sweep(1, 0) + open_sweep(range, 2));
        assert(engine_seq(m, range) =~= seq![(0int, 0int)] + open_sweep(range, 1));
    }
}

/// Every cell a well-formed traversal produces lies on a ring within its
/// range.
proof fn lemma_run_within<T: Opacity>(m: T, range: int, st: Seq<Sector>)
    requires
        range <= MAX_RANGE,
        stack_wf(m, range, st),
    ensures
        forall|c: (int, int)| #[trigger]
            run_from(m, range, st).contains(c) ==> 1 <= hex_norm(c) <= range,
    decreases stack_measure(range, st),
{
    broadcast use vstd::seq_lib::lemma_seq_concat_contains_all_elements;

    if st.len() == 0 || range > MAX_RANGE || !stack_wf(m, range, st) {
    } else {
        let s = st.last();
        assert(sector_wf(m, range, st[st.len() - 1]));
        lemma_micro_good(m, range, st);
        let stepped = micro(m, range, st);
        lemma_run_within(m, range, stepped.0);
        match stepped.1 {
            Some(c) => {
                lemma_wind_char(s.pt);
                crate::hex::lemma_cell_at_norm(wind(s.pt), s.pt.radius as int);
                assert(c == cellv(s.pt) && hex_norm(c) == s.pt.radius);
                assert(run_from(m, range, st) == seq![c] + run_from(m, range, stepped.0));
                assert forall|d: (int, int)| #[trigger]
                    run_from(m, range, st).contains(d) implies 1 <= hex_norm(d) <= range by {
                    if d != c {
                        assert(run_from(m, range, stepped.0).contains(d));
                    }
                }
            }
            None => {
                assert(run_from(m, range, st) =~= run_from(m, range, stepped.0));
            }
        }
    }
}

/// A fresh engine's stack is well-formed, whatever the predicate.
proof fn lemma_init_stack_wf<T: Opacity>(m: T, range: int)
    requires
        0 <= range <= MAX_RANGE,
    ensures
        stack_wf(m, range, init_stack(m, range)),
{
    let st = init_stack(m, range);
    if range >= 1 {
        let b = pp_new(0, 1);
        let e = pp_new(12, 1);
        lemma_wind_char(b);
        assert(wind(b) == 0) by (nonlinear_arith)
            requires
                pnum(b) == 0,
                b.base == 1,
                2 * b.base * wind(b) <= pnum(b) + b.base,
                pnum(b) + b.base <= 2 * b.base * wind(b) + 2 * b.base - 1,
        ;
        assert(cellv(b) == cell_at(0, 1));
        assert(sector_wf(m, range, st[0]));
        assert forall|i: int| 0 <= i < st.len() implies sector_wf(m, range, #[trigger] st[i]) by {
            assert(st[i] == st[0]);
        }
    }
}

/// Law: nothing outside the range is produced.  Every cell but the origin
/// lies at a hex distance between 1 and the engine's range.
pub proof fn lemma_within_range<T: Opacity>(m: T, range: int, c: (int, int))
    requires
        0 <= range <= MAX_RANGE,
        engine_seq(m, range).contains(c),
    ensures
        hex_norm(c) <= range,
        c != (0int, 0int) ==> 1 <= hex_norm(c),
{
    broadcast use vstd::seq_lib::lemma_seq_concat_contains_all_elements;

    let st = init_stack(m, range);
    lemma_init_stack_wf(m, range);
    lemma_run_within(m, range, st);
    if c != (0int, 0int) {
        assert(!seq![(0int, 0int)].contains(c)) by {
            assert(forall|i: int| 0 <= i < 1 ==> seq![(0int, 0int)][i] == (0int, 0int));
        }
        assert(run_from(m, range, st).contains(c));
    }
}

/// The field-of-view engine: pulls produce, one at a time, the cells
/// visible from the origin `V2(0, 0)` out to hex distance `range`, with
/// cells whose opacity test answers true blocking visibility further away
/// in their direction.  The sequence is finite and not restartable; build a
/// fresh engine to iterate again.
pub struct Fov<T> {
    is_opaque: T,
    range: u64,
    stack: Vec<Sector>,
    started: bool,
}

impl<T: Opacity> Fov<T> {
    /// The engine's state is a well-formed traversal stack.
    pub closed spec fn wf(self) -> bool {
        &&& self.range <= MAX_RANGE
        &&& stack_wf(self.is_opaque, self.range as int, self.stack@)
    }

    /// The opacity test the engine was built with.
    pub closed spec fn pred(self) -> T {
        self.is_opaque
    }

    /// The range the engine was built with.
    pub closed spec fn range_spec(self) -> int {
        self.range as int
    }

    /// Whether the origin has been produced yet.
    pub closed spec fn started_spec(self) -> bool {
        self.started
    }

    /// Every cell the engine's sector sweep still has to produce, in order,
    /// not counting the origin.
    pub closed spec fn pending(self) -> Seq<(int, int)> {
        run_from(self.is_opaque, self.range as int, self.stack@)
    }

    /// A fresh engine around the opacity test `is_opaque`, covering the
    /// cells out to hex distance `range`: its pulls will produce exactly
    /// `engine_seq(is_opaque, range)`.
    pub fn new(is_opaque: T, range: u64) -> (f: Fov<T>)
        requires
            range <= MAX_RANGE,
        ensures
            f.wf(),
            !f.started_spec(),
            f.pred() == is_opaque,
            f.range_spec() == range as int,
            seq![(0int, 0int)] + f.pending() == engine_seq(is_opaque, range as int),
    {
        let mut stack: Vec<Sector> = Vec::new();
        if range >= 1 {
            let b: PolarPoint = PolarPoint::new(0, 1);
            let e: PolarPoint = PolarPoint::new(12, 1);
            let g: bool = is_opaque.is_opaque(b.to_v2());
            proof {
                lemma_wind_char(b);
                assert(wind(b) == 0) by (nonlinear_arith)
                    requires
                        pnum(b) == 0,
                        b.base == 1,
                        2 * b.base * wind(b) <= pnum(b) + b.base,
                        pnum(b) + b.base <= 2 * b.base * wind(b) + 2 * b.base - 1,
                ;
            }
            let s: Sector = Sector { begin: b, pt: b, end: e, group_opaque: g };
            stack.push(s);
            proof {
                assert(stack@ =~= init_stack(is_opaque, range as int));
                lemma_init_stack_wf(is_opaque, range as int);
            }
        } else {
            proof {
                assert(stack@ =~= init_stack(is_opaque, range as int));
            }
        }
        Fov { is_opaque, range, stack, started: false }
    }

    /// Produce the next visible cell, or report exhaustion.  The very first
    /// pull produces the origin, whatever the predicate says there; each
    /// later pull peels the head off the engine's pending sequence, and
    /// answers nothing exactly when that sequence is spent.
    pub fn next(&mut self) -> (r: Option<V2>)
        requires
            old(self).wf(),
        ensures
            final(self).wf(),
            final(self).pred() == old(self).pred(),
            final(self).range_spec() == old(self).range_spec(),
            final(self).started_spec(),
            if !old(self).started_spec() {
                r == Some(V2(0, 0)) && final(self).pending() == old(self).pending()
            } else {
                match r {
                    Some(v) => old(self).pending() == seq![(v.0 as int, v.1 as int)]
                        + final(self).pending(),
                    None => old(self).pending() == Seq::<(int, int)>::empty()
                        && final(self).pending() == Seq::<(int, int)>::empty(),
                }
            },
    {
        if !self.started {
            self.started = true;
            return Some(V2(0, 0));
        }
        let ghost m = self.is_opaque;
        let ghost rng: int = self.range as int;
        let ghost orig: Seq<Sector> = self.stack@;
        let mut result: Option<V2> = None;
        let mut done: bool = false;
        while !done
            invariant
                self.wf(),
                self.is_opaque == m,
                self.range as int == rng,
                self.started,
                rng <= MAX_RANGE,
                !done ==> result is None && run_from(m, rng, self.stack@) == run_from(
                    m,
                    rng,
                    orig,
                ),
                done ==> match result {
                    Some(v) => run_from(m, rng, orig) == seq![(v.0 as int, v.1 as int)]
                        + run_from(m, rng, self.stack@),
                    None => run_from(m, rng, orig) == Seq::<(int, int)>::empty()
                        && self.stack@.len() == 0,
                },
            decreases stack_measure(rng, self.stack@) + (if done { 0int } else { 1int }),
        {
            let ghost pre: Seq<Sector> = self.stack@;
            let popped: Option<Sector> = self.stack.pop();
            match popped {
                None => {
                    done = true;
                }
                Some(sec) => {
                    proof {
                        assert(sector_wf(m, rng, pre[pre.len() - 1]));
                        assert(sec == pre.last());
                        assert(self.stack@ =~= pre.drop_last());
                        lemma_micro_good(m, rng, pre);
                        lemma_endi_cap(sec.end, sec_r(sec));
                    }
                    if sec.pt.is_below(sec.end) {
                        let pos: V2 = sec.pt.to_v2();
                        let cur: bool = self.is_opaque.is_opaque(pos);
                        if cur != sec.group_opaque {
                            self.stack.push(
                                Sector {
                                    begin: sec.pt,
                                    pt: sec.pt,
                                    end: sec.end,
                                    group_opaque: cur,
                                },
                            );
                            if !sec.group_opaque && sec.begin.radius() < self.range {
                                let nb: PolarPoint = sec.begin.further();
                                let ne: PolarPoint = sec.pt.further();
                                let g: bool = self.is_opaque.is_opaque(nb.to_v2());
                                self.stack.push(
                                    Sector { begin: nb, pt: nb, end: ne, group_opaque: g },
                                );
                            }
                            proof {
                                assert(self.stack@ =~= micro(m, rng, pre).0);
                                assert(micro(m, rng, pre).1 is None);
                                assert(run_from(m, rng, pre) == run_from(m, rng, self.stack@));
                            }
                        } else {
                            proof {
                                lemma_wind_char(sec.pt);
                                lemma_endi_char(sec.end);
                            }
                            let adv: PolarPoint = sec.pt.next();
                            self.stack.push(
                                Sector {
                                    begin: sec.begin,
                                    pt: adv,
                                    end: sec.end,
                                    group_opaque: sec.group_opaque,
                                },
                            );
                            proof {
                                assert(self.stack@ =~= micro(m, rng, pre).0);
                                assert(micro(m, rng, pre).1 == Some(cellv(sec.pt)));
                                assert(run_from(m, rng, pre) == seq![cellv(sec.pt)] + run_from(
                                    m,
                                    rng,
                                    self.stack@,
                                ));
                            }
                            result = Some(pos);
                            done = true;
                        }
                    } else {
                        if !sec.group_opaque && sec.begin.radius() < self.range {
                            let nb: PolarPoint = sec.begin.further();
                            let ne: PolarPoint = sec.end.further();
                            let g: bool = self.is_opaque.is_opaque(nb.to_v2());
                            self.stack.push(
                                Sector { begin: nb, pt: nb, end: ne, group_opaque: g },
                            );
                        }
                        proof {
                            assert(self.stack@ =~= micro(m, rng, pre).0);
                            assert(micro(m, rng, pre).1 is None);
                            assert(run_from(m, rng, pre) == run_from(m, rng, self.stack@));
                        }
                    }
                }
            }
        }
        result
    }
}

} // verus!
