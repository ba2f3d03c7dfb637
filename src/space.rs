//! Continuous coordinates. A position is held in fixed point: `SCALE` units
//! make one patch width. Here are the toroidal transform and distance, the
//! rounding of a position to its patch, and the clamping of bounded worlds.
use crate::lattice::{Geometry, MAX_EXTENT};
use vstd::arithmetic::div_mod::{lemma_fundamental_div_mod, lemma_fundamental_div_mod_converse};
use vstd::prelude::*;

verus! {

/// Fixed-point units in one patch width.
pub const SCALE: i64 = 1000;

/// Half a patch width, in fixed-point units.
pub const HALF: i64 = 500;

/// The largest magnitude a coordinate handed to the library may have.
pub const COORD_LIMIT: i64 = 1_000_000_000_000_000_000;

pub open spec fn in_coord_range(v: int) -> bool {
    -COORD_LIMIT <= v <= COORD_LIMIT
}

/// `val` brought into `[min, max)` modulo the span `max - min`.
pub open spec fn wrap_into(val: int, min: int, max: int) -> int {
    min + (val - min) % (max - min)
}

/// `val` held to the closed range `[min, max]`.
pub open spec fn clamp(val: int, min: int, max: int) -> int {
    if val < min {
        min
    } else if val > max {
        max
    } else {
        val
    }
}

/// Distance from `a` to `b` along a circle of length `dim`: the shorter way.
pub open spec fn toroidal_dist(a: int, b: int, dim: int) -> int {
    let d = if a >= b { a - b } else { b - a };
    if 2 * d <= dim { d } else { dim - d }
}

/// The signed offset from `a` to `b` on a circle of length `dim`, taken the
/// shorter way round: `b - a` brought into `[-dim/2, dim/2]` by whole turns.
pub open spec fn toroidal_off(a: int, b: int, dim: int) -> int {
    let d = b - a;
    if 2 * d > dim {
        d - dim
    } else if 2 * d < -dim {
        d + dim
    } else {
        d
    }
}

/// A fixed-point coordinate rounded to the nearest patch coordinate, halves
/// away from zero.
pub open spec fn round_to_patch(v: int) -> int {
    if v >= 0 {
        (v + HALF as int) / (SCALE as int)
    } else {
        -((-v + HALF as int) / (SCALE as int))
    }
}

/// Brings `val` into `[min, max)`: unchanged when it is already there, else
/// shifted by a whole number of spans.
pub fn toroidal_transform(val: i64, min: i64, max: i64) -> (r: i64)
    requires
        min < max,
    ensures
        r == wrap_into(val as int, min as int, max as int),
        min <= r < max,
        min <= val < max ==> r == val,
{
    let span = max as i128 - min as i128;
    let d = val as i128 - min as i128;
    proof {
        lemma_fundamental_div_mod(d as int, span as int);
        if d >= 0 {
            vstd::arithmetic::div_mod::lemma_mod_pos_bound(d as int, span as int);
        }
        if 0 <= d < span {
            lemma_fundamental_div_mod_converse(d as int, span as int, 0, d as int);
        }
    }
    if d >= 0 {
        (min as i128 + d % span) as i64
    } else {
        let m = (-d) % span;
        proof {
            let q = (-d as int) / (span as int);
            lemma_fundamental_div_mod(-d as int, span as int);
            vstd::arithmetic::div_mod::lemma_mod_pos_bound(-d as int, span as int);
            if m == 0 {
                assert(d == (-q) * span + 0) by (nonlinear_arith)
                    requires -d == span * q + m, m == 0;
                lemma_fundamental_div_mod_converse(d as int, span as int, -q, 0);
            } else {
                assert(d == (-q - 1) * span + (span - m)) by (nonlinear_arith)
                    requires -d == span * q + m;
                lemma_fundamental_div_mod_converse(d as int, span as int, -q - 1, span - m);
            }
        }
        if m == 0 {
            min
        } else {
            (min as i128 + (span - m)) as i64
        }
    }
}

/// The shorter way round from `a` to `b` on a circle of length `dim`.
pub fn toroidal_distance(a: i64, b: i64, dim: i64) -> (r: i64)
    requires
        in_coord_range(a as int),
        in_coord_range(b as int),
        in_coord_range(dim as int),
    ensures
        r == toroidal_dist(a as int, b as int, dim as int),
{
    let d = if a >= b { a - b } else { b - a };
    if 2 * d <= dim {
        d
    } else {
        dim - d
    }
}

/// The signed offset from `a` to `b` the shorter way round a circle of
/// length `dim`, for points at most one turn apart.
pub fn toroidal_offset(a: i64, b: i64, dim: i64) -> (r: i64)
    requires
        -COORD_LIMIT / 2 <= a <= COORD_LIMIT / 2,
        -COORD_LIMIT / 2 <= b <= COORD_LIMIT / 2,
        0 <= dim <= COORD_LIMIT / 2,
    ensures
        r == toroidal_off(a as int, b as int, dim as int),
        -2 * COORD_LIMIT <= r <= 2 * COORD_LIMIT,
{
    let d = b - a;
    if 2 * d > dim {
        d - dim
    } else if 2 * d < -dim {
        d + dim
    } else {
        d
    }
}

/// `val` held to the closed range `[min, max]`.
pub fn clamp_coord(val: i64, min: i64, max: i64) -> (r: i64)
    requires
        min <= max,
    ensures
        r == clamp(val as int, min as int, max as int),
{
    if val < min {
        min
    } else if val > max {
        max
    } else {
        val
    }
}

/// The nearest patch coordinate to a fixed-point coordinate.
pub fn round_coord(v: i64) -> (r: i64)
    ensures
        r == round_to_patch(v as int),
{
    let w = v as i128;
    if w >= 0 {
        ((w + HALF as i128) / SCALE as i128) as i64
    } else {
        (-((-w + HALF as i128) / SCALE as i128)) as i64
    }
}

impl Geometry {
    /// Lowest x coordinate a turtle may have: half a patch left of the first column.
    pub open spec fn x_lo(&self) -> int {
        self.min_px() * SCALE - HALF
    }

    /// The x coordinate just past the last column.
    pub open spec fn x_hi(&self) -> int {
        self.max_pxcor * SCALE + HALF
    }

    pub open spec fn y_lo(&self) -> int {
        self.min_py() * SCALE - HALF
    }

    pub open spec fn y_hi(&self) -> int {
        self.max_pycor * SCALE + HALF
    }

    /// Where `setxy` puts a requested x coordinate: wrapped on a periodic
    /// world, clamped on a bounded one.
    pub open spec fn place_x(&self, x: int) -> int {
        if self.is_periodic {
            wrap_into(x, self.x_lo(), self.x_hi())
        } else {
            clamp(x, self.x_lo(), self.x_hi())
        }
    }

    pub open spec fn place_y(&self, y: int) -> int {
        if self.is_periodic {
            wrap_into(y, self.y_lo(), self.y_hi())
        } else {
            clamp(y, self.y_lo(), self.y_hi())
        }
    }

    /// The column of the patch under x coordinate `x`: rounded, then held to the grid.
    pub open spec fn column_at(&self, x: int) -> int {
        clamp(round_to_patch(x), self.min_px(), self.max_pxcor as int) - self.min_px()
    }

    pub open spec fn row_at(&self, y: int) -> int {
        clamp(round_to_patch(y), self.min_py(), self.max_pycor as int) - self.min_py()
    }

    /// Index of the patch under the point `(x, y)`.
    pub open spec fn patch_at(&self, x: int, y: int) -> int {
        self.index_of((self.column_at(x), self.row_at(y)))
    }

    pub fn x_min(&self) -> (r: i64)
        requires
            self.wf(),
        ensures
            r == self.x_lo(),
    {
        self.min_pxcor() * SCALE - HALF
    }

    pub fn x_max(&self) -> (r: i64)
        requires
            self.wf(),
        ensures
            r == self.x_hi(),
    {
        self.max_pxcor * SCALE + HALF
    }

    pub fn y_min(&self) -> (r: i64)
        requires
            self.wf(),
        ensures
            r == self.y_lo(),
    {
        self.min_pycor() * SCALE - HALF
    }

    pub fn y_max(&self) -> (r: i64)
        requires
            self.wf(),
        ensures
            r == self.y_hi(),
    {
        self.max_pycor * SCALE + HALF
    }

    pub proof fn lemma_extents(&self)
        requires
            self.wf(),
        ensures
            in_coord_range(self.x_lo()),
            in_coord_range(self.x_hi()),
            in_coord_range(self.y_lo()),
            in_coord_range(self.y_hi()),
            self.x_lo() < self.x_hi(),
            self.y_lo() < self.y_hi(),
            self.x_hi() - self.x_lo() == self.width() * SCALE,
            self.y_hi() - self.y_lo() == self.height() * SCALE,
            -2_000_000_000_000_000 <= self.x_lo() && self.x_hi() <= 2_000_000_000_000_000,
            -2_000_000_000_000_000 <= self.y_lo() && self.y_hi() <= 2_000_000_000_000_000,
    {
    }

    /// Where a requested x coordinate lands.
    pub fn place_xcor(&self, x: i64) -> (r: i64)
        requires
            self.wf(),
        ensures
            r == self.place_x(x as int),
            self.x_lo() <= r <= self.x_hi(),
            self.is_periodic ==> r < self.x_hi(),
    {
        if self.is_periodic {
            toroidal_transform(x, self.x_min(), self.x_max())
        } else {
            clamp_coord(x, self.x_min(), self.x_max())
        }
    }

    /// Where a requested y coordinate lands.
    pub fn place_ycor(&self, y: i64) -> (r: i64)
        requires
            self.wf(),
        ensures
            r == self.place_y(y as int),
            self.y_lo() <= r <= self.y_hi(),
            self.is_periodic ==> r < self.y_hi(),
    {
        if self.is_periodic {
            toroidal_transform(y, self.y_min(), self.y_max())
        } else {
            clamp_coord(y, self.y_min(), self.y_max())
        }
    }

    /// The patch under the point `(x, y)`, by row-major index.
    pub fn patch_index_at(&self, x: i64, y: i64) -> (r: usize)
        requires
            self.wf(),
        ensures
            r == self.patch_at(x as int, y as int),
            (r as int) < self.patch_count(),
    {
        let px = clamp_coord(round_coord(x), self.min_pxcor(), self.max_pxcor) - self.min_pxcor();
        let py = clamp_coord(round_coord(y), self.min_pycor(), self.max_pycor) - self.min_pycor();
        proof {
            self.lemma_index((px as int, py as int));
        }
        px as usize * self.grid_height() + py as usize
    }
}

/// A value already in `[min, max)` is left where it is.
pub proof fn lemma_wrap_inside(v: int, min: int, max: int)
    requires
        min <= v < max,
    ensures
        wrap_into(v, min, max) == v,
{
    lemma_fundamental_div_mod_converse(v - min, max - min, 0, v - min);
}

} // verus!
