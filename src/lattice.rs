//! The patch lattice: grid geometry, the row-major patch index, and the
//! Moore and von Neumann neighbourhoods under periodic or bounded topology.
use crate::idset::{idset_insert, idset_new, ids_of, IdSet};
use vstd::arithmetic::div_mod::lemma_fundamental_div_mod_converse;
use vstd::prelude::*;

verus! {

broadcast use vstd::seq_lib::lemma_seq_contains_after_push;

/// The largest `max_pxcor` / `max_pycor` a world may have. It keeps every
/// fixed-point coordinate of the world (extent times `SCALE`) below
/// `10^15`, far inside `i64`, so that offsets, sums of a position and a step,
/// and squared distances cannot overflow; the patch count is bounded
/// separately by the address space.
pub const MAX_EXTENT: i64 = 1_000_000_000_000;

/// Where patch `(0, 0)` lies: at a corner of the grid or at its centre.
#[derive(Clone, Copy, Debug, PartialEq, Eq, Structural)]
pub enum OriginLocation {
    Center,
    Corner,
}

/// The shape of a world: its patch extents, origin convention and topology.
#[derive(Clone, Copy, Debug, PartialEq, Eq, Structural)]
pub struct Geometry {
    pub max_pxcor: i64,
    pub max_pycor: i64,
    pub origin: OriginLocation,
    pub is_periodic: bool,
}

/// `a` reduced into `[0, n)`.
pub open spec fn wrap(a: int, n: int) -> int {
    a % n
}

/// A lattice cell, as column and row counted from the lowest patch coordinate.
pub type Cell = (int, int);

/// The eight Moore offsets, columns outer and rows inner.
pub open spec fn moore_offsets() -> Seq<(int, int)> {
    seq![(-1, -1), (-1, 0), (-1, 1), (0, -1), (0, 1), (1, -1), (1, 0), (1, 1)]
}

/// The four von Neumann offsets.
pub open spec fn von_neumann_offsets() -> Seq<(int, int)> {
    seq![(-1, 0), (1, 0), (0, -1), (0, 1)]
}

impl Geometry {
    pub open spec fn min_px(&self) -> int {
        match self.origin {
            OriginLocation::Center => -self.max_pxcor,
            OriginLocation::Corner => 0,
        }
    }

    pub open spec fn min_py(&self) -> int {
        match self.origin {
            OriginLocation::Center => -self.max_pycor,
            OriginLocation::Corner => 0,
        }
    }

    /// Number of patch columns.
    pub open spec fn width(&self) -> int {
        self.max_pxcor - self.min_px() + 1
    }

    /// Number of patch rows.
    pub open spec fn height(&self) -> int {
        self.max_pycor - self.min_py() + 1
    }

    pub open spec fn patch_count(&self) -> int {
        self.width() * self.height()
    }

    pub open spec fn wf(&self) -> bool {
        &&& 0 <= self.max_pxcor <= MAX_EXTENT
        &&& 0 <= self.max_pycor <= MAX_EXTENT
        &&& self.patch_count() <= usize::MAX
    }

    pub open spec fn in_grid(&self, c: Cell) -> bool {
        0 <= c.0 < self.width() && 0 <= c.1 < self.height()
    }

    /// Row-major position of a cell: columns outer, rows inner.
    pub open spec fn index_of(&self, c: Cell) -> int {
        c.0 * self.height() + c.1
    }

    /// The cell at a row-major position.
    pub open spec fn cell_of(&self, i: int) -> Cell {
        (i / self.height(), i % self.height())
    }

    /// The cell reached from `c` by offset `d`, if the topology has one.
    pub open spec fn step(&self, c: Cell, d: (int, int)) -> Option<Cell> {
        let x = c.0 + d.0;
        let y = c.1 + d.1;
        if self.is_periodic {
            Some((wrap(x, self.width()), wrap(y, self.height())))
        } else if 0 <= x < self.width() && 0 <= y < self.height() {
            Some((x, y))
        } else {
            None
        }
    }

    /// `s` with the patch that offset `d` reaches from `c` appended, unless
    /// there is none, it is `c` itself, or it is already in `s`.
    pub open spec fn add_step(&self, s: Seq<usize>, c: Cell, d: (int, int)) -> Seq<usize> {
        match self.step(c, d) {
            Some(t) => {
                if t != c && !s.contains(self.index_of(t) as usize) {
                    s.push(self.index_of(t) as usize)
                } else {
                    s
                }
            },
            None => s,
        }
    }

    /// The neighbour list built from `offs`, in the order of the offsets.
    pub open spec fn neighbor_seq(&self, c: Cell, offs: Seq<(int, int)>) -> Seq<usize>
        decreases offs.len(),
    {
        if offs.len() == 0 {
            Seq::empty()
        } else {
            self.add_step(self.neighbor_seq(c, offs.drop_last()), c, offs.last())
        }
    }

    /// Moore (eight-cell) neighbours of `c`, without `c`.
    pub open spec fn moore(&self, c: Cell) -> Seq<usize> {
        self.neighbor_seq(c, moore_offsets())
    }

    /// Von Neumann (four-cell) neighbours of `c`, without `c`.
    pub open spec fn von_neumann(&self, c: Cell) -> Seq<usize> {
        self.neighbor_seq(c, von_neumann_offsets())
    }

    /// `t` is reached from `c` by one of `offs` and is not `c`.
    pub open spec fn reaches(&self, c: Cell, offs: Seq<(int, int)>, t: Cell) -> bool {
        exists|k: int| 0 <= k < offs.len() && #[trigger] self.step(c, offs[k]) == Some(t) && t != c
    }

    pub fn min_pxcor(&self) -> (r: i64)
        requires
            self.wf(),
        ensures
            r == self.min_px(),
    {
        match self.origin {
            OriginLocation::Center => -self.max_pxcor,
            OriginLocation::Corner => 0,
        }
    }

    pub fn min_pycor(&self) -> (r: i64)
        requires
            self.wf(),
        ensures
            r == self.min_py(),
    {
        match self.origin {
            OriginLocation::Center => -self.max_pycor,
            OriginLocation::Corner => 0,
        }
    }

    pub fn grid_width(&self) -> (r: usize)
        requires
            self.wf(),
        ensures
            r == self.width(),
    {
        proof { self.lemma_sizes(); }
        (self.max_pxcor - self.min_pxcor() + 1) as usize
    }

    pub fn grid_height(&self) -> (r: usize)
        requires
            self.wf(),
        ensures
            r == self.height(),
    {
        proof { self.lemma_sizes(); }
        (self.max_pycor - self.min_pycor() + 1) as usize
    }

    pub proof fn lemma_sizes(&self)
        requires
            self.wf(),
        ensures
            1 <= self.width() <= 2 * MAX_EXTENT + 1,
            1 <= self.height() <= 2 * MAX_EXTENT + 1,
            self.width() <= self.patch_count(),
            self.height() <= self.patch_count(),
            self.patch_count() <= usize::MAX,
    {
        assert(self.width() * self.height() >= self.width()) by (nonlinear_arith)
            requires self.height() >= 1, self.width() >= 1;
        assert(self.width() * self.height() >= self.height()) by (nonlinear_arith)
            requires self.height() >= 1, self.width() >= 1;
    }

    /// Row-major indexing is a bijection between cells and `[0, patch_count)`.
    pub proof fn lemma_index(&self, c: Cell)
        requires
            self.wf(),
            self.in_grid(c),
        ensures
            0 <= self.index_of(c) < self.patch_count(),
            self.cell_of(self.index_of(c)) == c,
    {
        self.lemma_sizes();
        let h = self.height();
        let w = self.width();
        assert(0 <= c.0 * h + c.1 < w * h) by (nonlinear_arith)
            requires 0 <= c.0 < w, 0 <= c.1 < h;
        lemma_fundamental_div_mod_converse(c.0 * h + c.1, h, c.0, c.1);
    }

    pub proof fn lemma_index_injective(&self, a: Cell, b: Cell)
        requires
            self.wf(),
            self.in_grid(a),
            self.in_grid(b),
            self.index_of(a) == self.index_of(b),
        ensures
            a == b,
    {
        self.lemma_index(a);
        self.lemma_index(b);
    }

    pub proof fn lemma_cell_of(&self, i: int)
        requires
            self.wf(),
            0 <= i < self.patch_count(),
        ensures
            self.in_grid(self.cell_of(i)),
            self.index_of(self.cell_of(i)) == i,
    {
        self.lemma_sizes();
        let h = self.height();
        let w = self.width();
        vstd::arithmetic::div_mod::lemma_fundamental_div_mod(i, h);
        vstd::arithmetic::div_mod::lemma_div_pos_is_pos(i, h);
        vstd::arithmetic::div_mod::lemma_mod_pos_bound(i, h);
        let q = i / h;
        let r = i % h;
        assert(q < w) by (nonlinear_arith)
            requires i == h * q + r, 0 <= r < h, i < w * h, h > 0;
        assert(i == q * h + r) by (nonlinear_arith)
            requires i == h * q + r;
    }

    /// Every step of one cell in any direction stays in the grid.
    pub proof fn lemma_step_in_grid(&self, c: Cell, d: (int, int))
        requires
            self.wf(),
            self.in_grid(c),
            -1 <= d.0 <= 1,
            -1 <= d.1 <= 1,
        ensures
            self.step(c, d) matches Some(t) ==> self.in_grid(t),
    {
        self.lemma_sizes();
        if self.is_periodic {
            lemma_wrap_unit(c.0, d.0, self.width());
            lemma_wrap_unit(c.1, d.1, self.height());
        }
    }

    /// Membership in a neighbour list is reachability by one of its offsets.
    pub proof fn lemma_neighbor_seq(&self, c: Cell, offs: Seq<(int, int)>)
        requires
            self.wf(),
            self.in_grid(c),
            forall|k: int| 0 <= k < offs.len() ==> -1 <= #[trigger] offs[k].0 <= 1 && -1 <= offs[k].1 <= 1,
        ensures
            self.neighbor_seq(c, offs).no_duplicates(),
            forall|i: int| 0 <= i < self.neighbor_seq(c, offs).len() ==>
                (#[trigger] self.neighbor_seq(c, offs)[i] as int) < self.patch_count(),
            forall|t: Cell| self.in_grid(t) ==>
                (self.neighbor_seq(c, offs).contains(self.index_of(t) as usize)
                    <==> #[trigger] self.reaches(c, offs, t)),
        decreases offs.len(),
    {
        if offs.len() > 0 {
            let pre = offs.drop_last();
            let d = offs.last();
            self.lemma_neighbor_seq(c, pre);
            let s = self.neighbor_seq(c, pre);
            self.lemma_step_in_grid(c, d);
            if let Some(t0) = self.step(c, d) {
                self.lemma_index(t0);
            }
            assert forall|t: Cell| self.in_grid(t) implies
                (self.neighbor_seq(c, offs).contains(self.index_of(t) as usize)
                    <==> #[trigger] self.reaches(c, offs, t)) by {
                self.lemma_index(t);
                if self.reaches(c, pre, t) {
                    let k = choose|k: int| 0 <= k < pre.len() && #[trigger] self.step(c, pre[k]) == Some(t) && t != c;
                    assert(offs[k] == pre[k]);
                }
                if self.reaches(c, offs, t) {
                    let k = choose|k: int| 0 <= k < offs.len() && #[trigger] self.step(c, offs[k]) == Some(t) && t != c;
                    if k < pre.len() {
                        assert(pre[k] == offs[k]);
                    } else {
                        assert(offs[k] == d);
                    }
                }
                if let Some(t0) = self.step(c, d) {
                    if t0 != c && self.index_of(t0) as usize == self.index_of(t) as usize {
                        self.lemma_index_injective(t0, t);
                    }
                    if t0 == t && t != c {
                        assert(self.step(c, offs[offs.len() - 1]) == Some(t));
                    }
                }
            }
        }
    }
}

impl Geometry {
    /// How many of `offs` lead from `c` to a cell of the grid.
    pub open spec fn step_count(&self, c: Cell, offs: Seq<(int, int)>) -> nat
        decreases offs.len(),
    {
        if offs.len() == 0 {
            0
        } else {
            self.step_count(c, offs.drop_last()) + if self.step(c, offs.last()) is Some { 1nat } else { 0nat }
        }
    }

    /// The cell lies in the first or last column.
    pub open spec fn on_x_border(&self, c: Cell) -> bool {
        c.0 == 0 || c.0 == self.width() - 1
    }

    /// The cell lies in the first or last row.
    pub open spec fn on_y_border(&self, c: Cell) -> bool {
        c.1 == 0 || c.1 == self.height() - 1
    }

    /// On a bounded grid distinct non-zero offsets give distinct neighbours, so
    /// a neighbour list is as long as the number of offsets that stay inside.
    proof fn lemma_bounded_len(&self, c: Cell, offs: Seq<(int, int)>)
        requires
            self.wf(),
            !self.is_periodic,
            self.in_grid(c),
            offs.no_duplicates(),
            forall|k: int| 0 <= k < offs.len() ==> -1 <= #[trigger] offs[k].0 <= 1 && -1 <= offs[k].1 <= 1
                && offs[k] != (0int, 0int),
        ensures
            self.neighbor_seq(c, offs).len() == self.step_count(c, offs),
        decreases offs.len(),
    {
        if offs.len() > 0 {
            let pre = offs.drop_last();
            let d = offs.last();
            assert forall|i: int, j: int| 0 <= i < j < pre.len() implies pre[i] != pre[j] by {
                assert(offs[i] == pre[i] && offs[j] == pre[j]);
            }
            self.lemma_bounded_len(c, pre);
            self.lemma_neighbor_seq(c, pre);
            if let Some(t) = self.step(c, d) {
                assert(offs[offs.len() - 1] == d);
                if self.reaches(c, pre, t) {
                    let k = choose|k: int| 0 <= k < pre.len() && #[trigger] self.step(c, pre[k]) == Some(t) && t != c;
                    assert(offs[k] == pre[k]);
                    assert(pre[k] == d);
                }
            }
        }
    }

    /// On a bounded grid of at least two columns and two rows, a corner patch
    /// has three Moore and two von Neumann neighbours, another border patch
    /// five and three, and an interior patch eight and four.
    pub proof fn lemma_bounded_neighbor_counts(&self, c: Cell)
        requires
            self.wf(),
            !self.is_periodic,
            self.in_grid(c),
            self.width() >= 2,
            self.height() >= 2,
        ensures
            self.on_x_border(c) && self.on_y_border(c) ==> self.moore(c).len() == 3 && self.von_neumann(c).len() == 2,
            self.on_x_border(c) != self.on_y_border(c) ==> self.moore(c).len() == 5 && self.von_neumann(c).len() == 3,
            !self.on_x_border(c) && !self.on_y_border(c) ==> self.moore(c).len() == 8 && self.von_neumann(c).len() == 4,
    {
        let m = moore_offsets();
        let v = von_neumann_offsets();
        assert(m.no_duplicates());
        assert(v.no_duplicates());
        self.lemma_bounded_len(c, m);
        self.lemma_bounded_len(c, v);
        assert(m.drop_last().drop_last().drop_last().drop_last().drop_last().drop_last().drop_last().drop_last()
            =~= Seq::<(int, int)>::empty());
        assert(v.drop_last().drop_last().drop_last().drop_last() =~= Seq::<(int, int)>::empty());
        reveal_with_fuel(Geometry::step_count, 9);
    }

    /// On a periodic grid the neighbour relations are symmetric.
    pub proof fn lemma_periodic_symmetry(&self, p: Cell, q: Cell)
        requires
            self.wf(),
            self.is_periodic,
            self.in_grid(p),
            self.in_grid(q),
        ensures
            self.moore(p).contains(self.index_of(q) as usize) ==> self.moore(q).contains(self.index_of(p) as usize),
            self.von_neumann(p).contains(self.index_of(q) as usize) ==> self.von_neumann(q).contains(self.index_of(p) as usize),
    {
        let m = moore_offsets();
        let v = von_neumann_offsets();
        self.lemma_neighbor_seq(p, m);
        self.lemma_neighbor_seq(q, m);
        self.lemma_neighbor_seq(p, v);
        self.lemma_neighbor_seq(q, v);
        if self.reaches(p, m, q) {
            let k = choose|k: int| 0 <= k < m.len() && #[trigger] self.step(p, m[k]) == Some(q) && q != p;
            self.lemma_reverse_step(p, m[k]);
            assert(m[7 - k] == (-m[k].0, -m[k].1));
            assert(self.step(q, m[7 - k]) == Some(p));
            assert(self.reaches(q, m, p));
        }
        if self.reaches(p, v, q) {
            let k = choose|k: int| 0 <= k < v.len() && #[trigger] self.step(p, v[k]) == Some(q) && q != p;
            self.lemma_reverse_step(p, v[k]);
            let r = if k == 0 { 1int } else if k == 1 { 0 } else if k == 2 { 3 } else { 2 };
            assert(v[r] == (-v[k].0, -v[k].1));
            assert(self.step(q, v[r]) == Some(p));
            assert(self.reaches(q, v, p));
        }
    }

    proof fn lemma_reverse_step(&self, p: Cell, d: (int, int))
        requires
            self.wf(),
            self.is_periodic,
            self.in_grid(p),
            -1 <= d.0 <= 1,
            -1 <= d.1 <= 1,
        ensures
            self.step(self.step(p, d)->0, (-d.0, -d.1)) == Some(p),
    {
        self.lemma_sizes();
        lemma_wrap_back(p.0, d.0, self.width());
        lemma_wrap_back(p.1, d.1, self.height());
    }
}

/// One step from `a` in `[0, n)` wraps by at most one period.
pub proof fn lemma_wrap_unit(a: int, d: int, n: int)
    requires
        0 <= a < n,
        -1 <= d <= 1,
    ensures
        0 <= wrap(a + d, n) < n,
        a + d < 0 ==> wrap(a + d, n) == a + d + n,
        a + d >= n ==> wrap(a + d, n) == a + d - n,
        0 <= a + d < n ==> wrap(a + d, n) == a + d,
{
    if a + d < 0 {
        lemma_fundamental_div_mod_converse(a + d, n, -1, a + d + n);
    } else if a + d >= n {
        lemma_fundamental_div_mod_converse(a + d, n, 1, a + d - n);
    } else {
        lemma_fundamental_div_mod_converse(a + d, n, 0, a + d);
    }
}

/// Stepping back undoes a wrapped step.
pub proof fn lemma_wrap_back(a: int, d: int, n: int)
    requires
        0 <= a < n,
        -1 <= d <= 1,
    ensures
        wrap(wrap(a + d, n) - d, n) == a,
{
    lemma_wrap_unit(a, d, n);
    let b = wrap(a + d, n);
    if a + d < 0 {
        lemma_fundamental_div_mod_converse(b - d, n, 1, a);
    } else if a + d >= n {
        lemma_fundamental_div_mod_converse(b - d, n, -1, a);
    } else {
        lemma_fundamental_div_mod_converse(b - d, n, 0, a);
    }
}

/// Appends to `s` the patch that offset `(dx, dy)` reaches from cell `(cx, cy)`.
fn push_step(g: &Geometry, s: &mut IdSet, cx: usize, cy: usize, dx: i64, dy: i64)
    requires
        g.wf(),
        g.in_grid((cx as int, cy as int)),
        -1 <= dx <= 1,
        -1 <= dy <= 1,
    ensures
        ids_of(*final(s)) == g.add_step(ids_of(*old(s)), (cx as int, cy as int), (dx as int, dy as int)),
{
    proof {
        g.lemma_sizes();
        lemma_wrap_unit(cx as int, dx as int, g.width());
        lemma_wrap_unit(cy as int, dy as int, g.height());
    }
    let w = g.grid_width() as i64;
    let h = g.grid_height() as i64;
    let mut x = cx as i64 + dx;
    let mut y = cy as i64 + dy;
    if g.is_periodic {
        if x < 0 {
            x = x + w;
        } else if x >= w {
            x = x - w;
        }
        if y < 0 {
            y = y + h;
        } else if y >= h {
            y = y - h;
        }
    } else if x < 0 || x >= w || y < 0 || y >= h {
        return;
    }
    if x == cx as i64 && y == cy as i64 {
        return;
    }
    proof {
        g.lemma_index((x as int, y as int));
    }
    let i = x as usize * (h as usize) + y as usize;
    idset_insert(s, i);
}

/// The offsets of `offs` as mathematical pairs.
pub open spec fn offsets_of(offs: Seq<(i64, i64)>) -> Seq<(int, int)> {
    offs.map_values(|o: (i64, i64)| (o.0 as int, o.1 as int))
}

/// The neighbour list of cell `(cx, cy)` reached through `offs`, in order.
fn neighbors_by(g: &Geometry, cx: usize, cy: usize, offs: &Vec<(i64, i64)>) -> (r: IdSet)
    requires
        g.wf(),
        g.in_grid((cx as int, cy as int)),
        forall|k: int| 0 <= k < offs@.len() ==> -1 <= #[trigger] offs@[k].0 <= 1 && -1 <= offs@[k].1 <= 1,
    ensures
        ids_of(r) == g.neighbor_seq((cx as int, cy as int), offsets_of(offs@)),
{
    let ghost c = (cx as int, cy as int);
    let mut s = idset_new();
    let mut k: usize = 0;
    assert(offsets_of(offs@).take(0) =~= Seq::<(int, int)>::empty());
    while k < offs.len()
        invariant
            k <= offs@.len(),
            g.wf(),
            g.in_grid(c),
            c == (cx as int, cy as int),
            forall|j: int| 0 <= j < offs@.len() ==> -1 <= #[trigger] offs@[j].0 <= 1 && -1 <= offs@[j].1 <= 1,
            ids_of(s) == g.neighbor_seq(c, offsets_of(offs@).take(k as int)),
        decreases offs@.len() - k,
    {
        let (dx, dy) = offs[k];
        push_step(g, &mut s, cx, cy, dx, dy);
        assert(offsets_of(offs@).take(k as int + 1).drop_last() =~= offsets_of(offs@).take(k as int));
        k = k + 1;
    }
    assert(offsets_of(offs@).take(k as int) =~= offsets_of(offs@));
    s
}

/// The Moore neighbours of cell `(cx, cy)`, without the cell itself.
pub fn moore_neighbors(g: &Geometry, cx: usize, cy: usize) -> (r: IdSet)
    requires
        g.wf(),
        g.in_grid((cx as int, cy as int)),
    ensures
        ids_of(r) == g.moore((cx as int, cy as int)),
{
    let offs: Vec<(i64, i64)> = vec![(-1, -1), (-1, 0), (-1, 1), (0, -1), (0, 1), (1, -1), (1, 0), (1, 1)];
    assert(offsets_of(offs@) =~= moore_offsets());
    neighbors_by(g, cx, cy, &offs)
}

/// The von Neumann neighbours of cell `(cx, cy)`, without the cell itself.
pub fn von_neumann_neighbors(g: &Geometry, cx: usize, cy: usize) -> (r: IdSet)
    requires
        g.wf(),
        g.in_grid((cx as int, cy as int)),
    ensures
        ids_of(r) == g.von_neumann((cx as int, cy as int)),
{
    let offs: Vec<(i64, i64)> = vec![(-1, 0), (1, 0), (0, -1), (0, 1)];
    assert(offsets_of(offs@) =~= von_neumann_offsets());
    neighbors_by(g, cx, cy, &offs)
}

} // verus!
