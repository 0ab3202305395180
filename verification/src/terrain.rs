//! Ready-made opacity tests: open terrain and terrain with listed walls.

use vstd::prelude::*;

use crate::fov::Opacity;
use crate::hex::V2;

verus! {

/// Terrain with no walls at all: the opacity test that always answers false.
pub struct AlwaysOpen;

impl Opacity for AlwaysOpen {
    open spec fn opaque(&self, c: (int, int)) -> bool {
        false
    }

    fn is_opaque(&self, v: V2) -> (r: bool) {
        false
    }
}

/// Terrain given by an explicit list of wall cells: a cell is opaque
/// exactly when it appears in the list.
pub struct WallSet {
    pub walls: Vec<V2>,
}

impl Opacity for WallSet {
    open spec fn opaque(&self, c: (int, int)) -> bool {
        exists|i: int|
            0 <= i < self.walls@.len() && ((#[trigger] self.walls@[i]).0 as int,
            self.walls@[i].1 as int) == c
    }

    fn is_opaque(&self, v: V2) -> (r: bool) {
        let mut i: usize = 0;
        while i < self.walls.len()
            invariant
                i <= self.walls@.len(),
                forall|j: int|
                    0 <= j < i ==> ((#[trigger] self.walls@[j]).0 as int, self.walls@[j].1 as int)
                        != (v.0 as int, v.1 as int),
            decreases self.walls@.len() - i,
        {
            let w: V2 = self.walls[i];
            if w.0 == v.0 && w.1 == v.1 {
                return true;
            }
            i = i + 1;
        }
        false
    }
}

} // verus!
