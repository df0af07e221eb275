//! Integer plane geometry: positions, sizes and velocities in world units,
//! rectangle intersection, and the floor division that maps a world position
//! to the coordinate of the chunk containing it.

use vstd::prelude::*;

verus! {

use crate::{CHUNK_PIXELS, POS_LIMIT, SIZE_LIMIT, VEL_LIMIT};

/// A two-dimensional integer vector in world units.
#[derive(Clone, Copy, Debug, PartialEq, Eq, Structural)]
pub struct Vec2i {
    pub x: i64,
    pub y: i64,
}

impl Vec2i {
    /// Builds the vector `(x, y)`.
    pub fn new(x: i64, y: i64) -> (r: Vec2i)
        ensures
            r == (Vec2i { x, y }),
    {
        Vec2i { x, y }
    }

    /// True when both coordinates are position-sized.
    pub open spec fn is_pos(self) -> bool {
        -POS_LIMIT <= self.x <= POS_LIMIT && -POS_LIMIT <= self.y <= POS_LIMIT
    }

    /// True when both components are velocity-sized.
    pub open spec fn is_vel(self) -> bool {
        -VEL_LIMIT <= self.x <= VEL_LIMIT && -VEL_LIMIT <= self.y <= VEL_LIMIT
    }

    /// True when both extents are size-sized (non-negative and bounded).
    pub open spec fn is_size(self) -> bool {
        0 <= self.x <= SIZE_LIMIT && 0 <= self.y <= SIZE_LIMIT
    }
}

/// Floor of `a / b` for a positive divisor, as the mathematical integers
/// have it (rounding toward negative infinity).
pub open spec fn spec_floor_div(a: int, b: int) -> int
    recommends
        b > 0,
{
    a / b
}

/// Floor division of `a` by the positive divisor `b`.
pub fn floor_div(a: i64, b: i64) -> (q: i64)
    requires
        b > 0,
        a > i64::MIN,
    ensures
        q == spec_floor_div(a as int, b as int),
{
    if a >= 0 {
        let qu: u64 = (a as u64) / (b as u64);
        proof {
            vstd::arithmetic::div_mod::lemma_div_nonincreasing(a as int, b as int);
            vstd::arithmetic::div_mod::lemma_div_pos_is_pos(a as int, b as int);
        }
        qu as i64
    } else {
        let n: u64 = ((-a) as u64);
        let bu: u64 = b as u64;
        let qu: u64 = n / bu;
        let ru: u64 = n % bu;
        proof {
            vstd::arithmetic::div_mod::lemma_div_nonincreasing(n as int, b as int);
            vstd::arithmetic::div_mod::lemma_div_pos_is_pos(n as int, b as int);
        }
        let q0: i64 = qu as i64;
        let ghost d = b as int;
        let ghost qi = qu as int;
        proof {
            vstd::arithmetic::div_mod::lemma_fundamental_div_mod(n as int, d);
            assert(n as int == d * qi + ru);
        }
        if ru == 0 {
            proof {
                assert(a as int == d * (-qi) + 0) by {
                    assert(d * (-qi) == -(d * qi)) by (nonlinear_arith);
                };
                vstd::arithmetic::div_mod::lemma_fundamental_div_mod_converse(a as int, d, -qi, 0);
            }
            -q0
        } else {
            proof {
                assert(a as int == d * (-qi - 1) + (d - ru)) by {
                    assert(d * (-qi - 1) == -(d * qi) - d) by (nonlinear_arith);
                };
                vstd::arithmetic::div_mod::lemma_fundamental_div_mod_converse(
                    a as int,
                    d,
                    -qi - 1,
                    d - ru,
                );
            }
            -q0 - 1
        }
    }
}

/// The coordinate of the chunk containing the world position `p`:
/// floor division of each coordinate by the chunk edge length.
pub open spec fn spec_chunk_coord(p: Vec2i) -> Vec2i {
    Vec2i {
        x: spec_floor_div(p.x as int, CHUNK_PIXELS as int) as i64,
        y: spec_floor_div(p.y as int, CHUNK_PIXELS as int) as i64,
    }
}

/// Maps a world position to the coordinate of the chunk containing it.
pub fn chunk_coord(p: Vec2i) -> (c: Vec2i)
    requires
        p.is_pos(),
    ensures
        c == spec_chunk_coord(p),
        -POS_LIMIT <= c.x <= POS_LIMIT,
        -POS_LIMIT <= c.y <= POS_LIMIT,
{
    proof {
        vstd::arithmetic::div_mod::lemma_div_is_ordered(-POS_LIMIT as int, p.x as int, CHUNK_PIXELS as int);
        vstd::arithmetic::div_mod::lemma_div_is_ordered(p.x as int, POS_LIMIT as int, CHUNK_PIXELS as int);
        vstd::arithmetic::div_mod::lemma_div_is_ordered(-POS_LIMIT as int, p.y as int, CHUNK_PIXELS as int);
        vstd::arithmetic::div_mod::lemma_div_is_ordered(p.y as int, POS_LIMIT as int, CHUNK_PIXELS as int);
    }
    Vec2i { x: floor_div(p.x, CHUNK_PIXELS), y: floor_div(p.y, CHUNK_PIXELS) }
}

/// True when the closed axis-aligned rectangle `[a_min, a_max]` meets the
/// closed rectangle `[b_min, b_max]`, all corners given in doubled world
/// units so that viewport halving needs no rounding.
pub open spec fn rects_intersect(
    a_min_x: int,
    a_min_y: int,
    a_max_x: int,
    a_max_y: int,
    b_min_x: int,
    b_min_y: int,
    b_max_x: int,
    b_max_y: int,
) -> bool {
    !(a_max_x < b_min_x || a_min_x > b_max_x || a_max_y < b_min_y || a_min_y > b_max_y)
}

} // verus!
