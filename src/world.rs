//! The world: the patch lattice, the turtles, the two link graphs and the
//! random source, with turtle birth, death and movement kept consistent
//! across all of them.
use crate::agentset::{AgentSet, PatchSet, TurtleSet};
use crate::graph::{
    dg_add_edge, dg_add_node, dg_clear_edges, dg_edge, dg_edge_count, dg_edges, dg_nodes,
    dg_remove_node, dg_with_nodes, edges_without, ug_add_edge, ug_add_node, ug_clear_edges,
    ug_edge, ug_edge_count, ug_edges, ug_nodes, ug_remove_node, ug_with_nodes, DiLinkGraph,
    LinkGraph,
};
use crate::lattice::{moore_neighbors, von_neumann_neighbors, Geometry, OriginLocation};
use crate::space::{SCALE, HALF, COORD_LIMIT, wrap_into, toroidal_transform, toroidal_offset, toroidal_off};
use crate::variables::VarStore;
use crate::links::{LinkId, LinkStores, stores_without};
use crate::random::{random_i64, random_u8};
use vstd::prelude::*;

verus! {

broadcast use vstd::seq_lib::lemma_seq_contains_after_push;

/// A display colour, one byte per channel.
#[derive(Clone, Copy, Debug, PartialEq, Eq, Structural)]
pub struct Color {
    pub r: u8,
    pub g: u8,
    pub b: u8,
    pub a: u8,
}

/// Opaque black, the colour of a cleared patch.
pub open spec fn black_color() -> Color {
    Color { r: 0, g: 0, b: 0, a: 255 }
}

/// Opaque blue, the colour of a new turtle.
pub open spec fn blue_color() -> Color {
    Color { r: 0, g: 121, b: 241, a: 255 }
}

impl Color {
    pub fn black() -> (c: Color)
        ensures
            c == black_color(),
    {
        Color { r: 0, g: 0, b: 0, a: 255 }
    }

    pub fn blue() -> (c: Color)
        ensures
            c == blue_color(),
    {
        Color { r: 0, g: 121, b: 241, a: 255 }
    }
}

/// Heading units in a full turn: degrees in fixed point.
pub const FULL_TURN: i64 = 360_000;

/// A mobile agent. Coordinates, heading and size are fixed point, `SCALE`
/// units to a patch width or to a degree.
pub struct Turtle<V> {
    pub who: usize,
    pub color: Color,
    pub heading: i64,
    pub xcor: i64,
    pub ycor: i64,
    pub shape: String,
    pub size: i64,
    pub vars: VarStore<V>,
}

/// A lattice cell agent with its precomputed neighbourhoods and the turtles on it.
pub struct Patch<V> {
    pub pxcor: i64,
    pub pycor: i64,
    pub pcolor: Color,
    pub neighbors: PatchSet,
    pub neighbors4: PatchSet,
    pub neighborhood: PatchSet,
    pub neighborhood4: PatchSet,
    pub turtles_on: TurtleSet,
    pub vars: VarStore<V>,
}

/// The whole simulation state.
pub struct World<V> {
    geometry: Geometry,
    rng: fastrand::Rng,
    turtles: Vec<Turtle<V>>,
    patches: Vec<Patch<V>>,
    ug: LinkGraph,
    dg: DiLinkGraph,
    link_vars: LinkStores<V>,
}

/// A turtle as `crt` makes it: at the origin, heading north, blue, size one.
pub open spec fn is_fresh<V>(t: Turtle<V>, who: int) -> bool {
    &&& t.who == who
    &&& t.xcor == 0 && t.ycor == 0
    &&& t.heading == 0
    &&& t.color == blue_color()
    &&& t.shape@ == "default"@
    &&& t.size == SCALE
    &&& t.vars.wf()
    &&& t.vars.vars() == Map::<Seq<char>, V>::empty()
}

/// Patch `i` of `ps` has its coordinates and neighbourhoods right.
pub open spec fn patch_ok<V>(g: Geometry, ps: Seq<Patch<V>>, i: int) -> bool {
    let c = g.cell_of(i);
    let p = ps[i];
    &&& p.pxcor == g.min_px() + c.0
    &&& p.pycor == g.min_py() + c.1
    &&& p.neighbors@ == g.moore(c)
    &&& p.neighbors4@ == g.von_neumann(c)
    &&& p.neighborhood@ == g.moore(c).push(i as usize)
    &&& p.neighborhood4@ == g.von_neumann(c).push(i as usize)
    &&& p.neighbors.wf() && p.neighbors4.wf() && p.neighborhood.wf() && p.neighborhood4.wf()
    &&& p.turtles_on.wf()
    &&& p.vars.wf()
}

/// Turtle `t` of `ts` carries its index as identity and lies inside the world.
pub open spec fn turtle_ok<V>(g: Geometry, ts: Seq<Turtle<V>>, t: int) -> bool {
    let u = ts[t];
    &&& u.who == t
    &&& g.x_lo() <= u.xcor <= g.x_hi()
    &&& g.y_lo() <= u.ycor <= g.y_hi()
    &&& 0 <= u.heading < FULL_TURN
    &&& u.vars.wf()
}

/// Everything about a patch but its colour is the same in `a` and `b`.
pub open spec fn same_but_color<V>(a: Patch<V>, b: Patch<V>) -> bool {
    &&& a.pxcor == b.pxcor && a.pycor == b.pycor
    &&& a.neighbors == b.neighbors && a.neighbors4 == b.neighbors4
    &&& a.neighborhood == b.neighborhood && a.neighborhood4 == b.neighborhood4
    &&& a.turtles_on == b.turtles_on && a.vars == b.vars
}

/// Everything about a patch but its variables is the same in `a` and `b`.
pub open spec fn same_but_vars<V>(a: Patch<V>, b: Patch<V>) -> bool {
    &&& a.pxcor == b.pxcor && a.pycor == b.pycor && a.pcolor == b.pcolor
    &&& a.neighbors == b.neighbors && a.neighbors4 == b.neighbors4
    &&& a.neighborhood == b.neighborhood && a.neighborhood4 == b.neighborhood4
    &&& a.turtles_on == b.turtles_on
}

/// Everything about a patch but the turtles on it is the same in `a` and `b`.
pub open spec fn same_but_residents<V>(a: Patch<V>, b: Patch<V>) -> bool {
    &&& a.pxcor == b.pxcor && a.pycor == b.pycor && a.pcolor == b.pcolor
    &&& a.neighbors == b.neighbors && a.neighbors4 == b.neighbors4
    &&& a.neighborhood == b.neighborhood && a.neighborhood4 == b.neighborhood4
    &&& a.vars == b.vars
}

impl<V> World<V> {
    pub closed spec fn geo(&self) -> Geometry {
        self.geometry
    }

    /// The turtles, indexed by `who`.
    pub closed spec fn all_turtles(&self) -> Seq<Turtle<V>> {
        self.turtles@
    }

    /// The patches, by row-major index.
    pub closed spec fn all_patches(&self) -> Seq<Patch<V>> {
        self.patches@
    }

    /// The variable stores of the links.
    pub closed spec fn link_stores(&self) -> LinkStores<V> {
        self.link_vars
    }

    pub closed spec fn ugraph(&self) -> LinkGraph {
        self.ug
    }

    pub closed spec fn dgraph(&self) -> DiLinkGraph {
        self.dg
    }

    /// Index of the patch turtle `t` stands on.
    pub open spec fn patch_of(&self, t: int) -> int {
        self.geo().patch_at(self.all_turtles()[t].xcor as int, self.all_turtles()[t].ycor as int)
    }

    /// The patch residency index agrees with the turtles' positions.
    pub open spec fn residency_ok(&self) -> bool {
        forall|p: int, id: usize|
            0 <= p < self.all_patches().len() ==> (#[trigger] self.all_patches()[p].turtles_on@.contains(id) <==> (
            id < self.all_turtles().len() && self.patch_of(id as int) == p))
    }

    pub open spec fn wf(&self) -> bool {
        &&& self.geo().wf()
        &&& self.all_patches().len() == self.geo().patch_count()
        &&& forall|i: int| 0 <= i < self.all_patches().len() ==> #[trigger] patch_ok(self.geo(), self.all_patches(), i)
        &&& forall|t: int| 0 <= t < self.all_turtles().len() ==> #[trigger] turtle_ok(self.geo(), self.all_turtles(), t)
        &&& ug_nodes(self.ugraph()) == self.all_turtles().len()
        &&& dg_nodes(self.dgraph()) == self.all_turtles().len()
        &&& self.residency_ok()
        &&& self.link_stores().wf()
    }
}

/// A patch with nothing computed yet, to hold a vector slot while the real
/// one is being changed.
fn placeholder_patch<V>() -> Patch<V> {
    Patch {
        pxcor: 0,
        pycor: 0,
        pcolor: Color::black(),
        neighbors: AgentSet::new(),
        neighbors4: AgentSet::new(),
        neighborhood: AgentSet::new(),
        neighborhood4: AgentSet::new(),
        turtles_on: AgentSet::new(),
        vars: VarStore::new(),
    }
}

/// A fresh turtle with identity `who`.
fn fresh_turtle<V>(who: usize) -> (t: Turtle<V>)
    ensures
        is_fresh(t, who as int),
{
    let shape = "default".to_owned();
    Turtle {
        who,
        color: Color::blue(),
        heading: 0,
        xcor: 0,
        ycor: 0,
        shape,
        size: SCALE,
        vars: VarStore::new(),
    }
}

/// Builds the patch at row-major index `i`.
fn make_patch<V>(g: &Geometry, i: usize) -> (p: Patch<V>)
    requires
        g.wf(),
        i < g.patch_count(),
    ensures
        ({
            let c = g.cell_of(i as int);
            &&& p.pxcor == g.min_px() + c.0
            &&& p.pycor == g.min_py() + c.1
            &&& p.neighbors@ == g.moore(c)
            &&& p.neighbors4@ == g.von_neumann(c)
            &&& p.neighborhood@ == g.moore(c).push(i)
            &&& p.neighborhood4@ == g.von_neumann(c).push(i)
            &&& p.neighbors.wf() && p.neighbors4.wf() && p.neighborhood.wf() && p.neighborhood4.wf()
            &&& p.turtles_on.wf() && p.turtles_on@ == Seq::<usize>::empty()
            &&& p.vars.wf() && p.vars.vars() == Map::<Seq<char>, V>::empty()
            &&& p.pcolor == black_color()
        }),
{
    let h = g.grid_height();
    proof {
        g.lemma_sizes();
        g.lemma_cell_of(i as int);
    }
    let cx = i / h;
    let cy = i % h;
    let ghost c = (cx as int, cy as int);
    assert(c == g.cell_of(i as int));
    proof {
        g.lemma_neighbor_seq(c, crate::lattice::moore_offsets());
        g.lemma_neighbor_seq(c, crate::lattice::von_neumann_offsets());
        g.lemma_index(c);
        assert(!g.reaches(c, crate::lattice::moore_offsets(), c));
        assert(!g.reaches(c, crate::lattice::von_neumann_offsets(), c));
    }
    let n8 = AgentSet::from_idset(moore_neighbors(g, cx, cy));
    let n4 = AgentSet::from_idset(von_neumann_neighbors(g, cx, cy));
    let hood8 = n8.concat(i);
    let hood4 = n4.concat(i);
    Patch {
        pxcor: g.min_pxcor() + cx as i64,
        pycor: g.min_pycor() + cy as i64,
        pcolor: Color::black(),
        neighbors: n8,
        neighbors4: n4,
        neighborhood: hood8,
        neighborhood4: hood4,
        turtles_on: AgentSet::new(),
        vars: VarStore::new(),
    }
}

impl<V> World<V> {
    /// Builds a world: the patch lattice with its neighbourhoods, `amount`
    /// fresh turtles at the origin, and both link graphs with one node per
    /// turtle and no edges.
    pub fn init(amount: usize, max_pxcor: i64, max_pycor: i64, origin: OriginLocation, is_periodic: bool) -> (w: Self)
        requires
            (Geometry { max_pxcor, max_pycor, origin, is_periodic }).wf(),
        ensures
            w.wf(),
            w.geo() == (Geometry { max_pxcor, max_pycor, origin, is_periodic }),
            w.all_turtles().len() == amount,
            forall|i: int| 0 <= i < amount ==> #[trigger] is_fresh(w.all_turtles()[i], i),
            forall|p: int| 0 <= p < w.all_patches().len() ==> (#[trigger] w.all_patches()[p]).pcolor == black_color()
                && w.all_patches()[p].vars.vars() == Map::<Seq<char>, V>::empty(),
            ug_edges(w.ugraph()) == Seq::<(usize, usize)>::empty(),
            dg_edges(w.dgraph()) == Seq::<(usize, usize)>::empty(),
    {
        let g = Geometry { max_pxcor, max_pycor, origin, is_periodic };
        proof {
            g.lemma_sizes();
        }
        let pc = g.grid_width() * g.grid_height();
        let mut patches: Vec<Patch<V>> = Vec::new();
        let mut i: usize = 0;
        while i < pc
            invariant
                g.wf(),
                pc == g.patch_count(),
                i <= pc,
                patches@.len() == i,
                forall|j: int| 0 <= j < i ==> #[trigger] patch_ok(g, patches@, j),
                forall|j: int| 0 <= j < i ==> (#[trigger] patches@[j]).turtles_on@ == Seq::<usize>::empty()
                    && patches@[j].pcolor == black_color() && patches@[j].vars.vars() == Map::<Seq<char>, V>::empty(),
            decreases pc - i,
        {
            let p = make_patch(&g, i);
            let ghost before = patches@;
            patches.push(p);
            proof {
                assert forall|j: int| 0 <= j < i + 1 implies #[trigger] patch_ok(g, patches@, j) by {
                    if j < i {
                        assert(patch_ok(g, before, j));
                        assert(patches@[j] == before[j]);
                    }
                }
            }
            i = i + 1;
        }
        let mut turtles: Vec<Turtle<V>> = Vec::new();
        let mut here: TurtleSet = AgentSet::new();
        let mut k: usize = 0;
        while k < amount
            invariant
                k <= amount,
                turtles@.len() == k,
                forall|j: int| 0 <= j < k ==> #[trigger] is_fresh(turtles@[j], j),
                here.wf(),
                forall|x: usize| here@.contains(x) <==> x < k,
            decreases amount - k,
        {
            turtles.push(fresh_turtle(k));
            here.append(k);
            k = k + 1;
        }
        let p0 = g.patch_index_at(0, 0);
        let ghost built = patches@;
        assert(patch_ok(g, built, p0 as int));
        let mut slot = placeholder_patch();
        patches.set_and_swap(p0, &mut slot);
        slot.turtles_on = here;
        patches.set_and_swap(p0, &mut slot);
        let w = World {
            geometry: g,
            rng: fastrand::Rng::new(),
            turtles,
            patches,
            ug: ug_with_nodes(amount),
            dg: dg_with_nodes(amount),
            link_vars: LinkStores::new(),
        };
        proof {
            assert forall|j: int| 0 <= j < w.all_patches().len() implies #[trigger] patch_ok(g, w.all_patches(), j) by {
                assert(patch_ok(g, built, j));
                if j != p0 {
                    assert(w.all_patches()[j] == built[j]);
                }
            }
            assert forall|t: int| 0 <= t < w.all_turtles().len() implies #[trigger] turtle_ok(g, w.all_turtles(), t) by {
                assert(is_fresh(w.all_turtles()[t], t));
            }
            assert forall|p: int, id: usize| 0 <= p < w.all_patches().len() implies
                (#[trigger] w.all_patches()[p].turtles_on@.contains(id) <==> (id < w.all_turtles().len() && w.patch_of(id as int) == p)) by {
                if id < amount {
                    assert(is_fresh(w.all_turtles()[id as int], id as int));
                }
            }
        }
        w
    }

    /// The shape of the world.
    pub fn geometry(&self) -> (g: Geometry)
        ensures
            g == self.geo(),
    {
        self.geometry
    }

    pub fn is_periodic(&self) -> (r: bool)
        ensures
            r == self.geo().is_periodic,
    {
        self.geometry.is_periodic
    }

    /// The random source the collective operations draw from.
    pub fn rng(&self) -> &fastrand::Rng {
        &self.rng
    }

    /// Number of turtles.
    pub fn count_turtles(&self) -> (r: usize)
        ensures
            r == self.all_turtles().len(),
    {
        self.turtles.len()
    }

    /// Number of patches.
    pub fn count_patches(&self) -> (r: usize)
        ensures
            r == self.all_patches().len(),
    {
        self.patches.len()
    }

    /// The turtle with identity `who`.
    pub fn turtle(&self, who: usize) -> (t: &Turtle<V>)
        requires
            who < self.all_turtles().len(),
        ensures
            *t == self.all_turtles()[who as int],
    {
        &self.turtles[who]
    }

    /// The patch at row-major index `i`.
    pub fn patch_at_index(&self, i: usize) -> (p: &Patch<V>)
        requires
            i < self.all_patches().len(),
        ensures
            *p == self.all_patches()[i as int],
    {
        &self.patches[i]
    }

    /// Index of the patch under the point `(x, y)`: the nearest patch,
    /// held to the grid.
    pub fn patch(&self, x: i64, y: i64) -> (r: usize)
        requires
            self.wf(),
        ensures
            r == self.geo().patch_at(x as int, y as int),
            r < self.all_patches().len(),
    {
        self.geometry.patch_index_at(x, y)
    }

    /// Index of the patch with patch coordinates `(pxcor, pycor)`.
    pub fn patch_xy(&self, pxcor: i64, pycor: i64) -> (r: usize)
        requires
            self.wf(),
            self.geo().min_px() <= pxcor <= self.geo().max_pxcor,
            self.geo().min_py() <= pycor <= self.geo().max_pycor,
        ensures
            r == self.geo().index_of((pxcor - self.geo().min_px(), pycor - self.geo().min_py())),
            r < self.all_patches().len(),
            self.all_patches()[r as int].pxcor == pxcor,
            self.all_patches()[r as int].pycor == pycor,
    {
        let ghost c = (pxcor - self.geo().min_px(), pycor - self.geo().min_py());
        proof {
            self.geometry.lemma_index(c);
            assert(patch_ok(self.geo(), self.all_patches(), self.geo().index_of(c)));
        }
        (pxcor - self.geometry.min_pxcor()) as usize * self.geometry.grid_height() + (pycor - self.geometry.min_pycor()) as usize
    }

    /// Every turtle, in identity order.
    pub fn turtles(&self) -> (r: TurtleSet)
        ensures
            r.wf(),
            r@.len() == self.all_turtles().len(),
            forall|i: int| 0 <= i < r@.len() ==> r@[i] == i,
    {
        let mut r: TurtleSet = AgentSet::new();
        let mut i: usize = 0;
        while i < self.turtles.len()
            invariant
                i <= self.turtles@.len(),
                r.wf(),
                r@.len() == i,
                forall|j: int| 0 <= j < i ==> r@[j] == j,
            decreases self.turtles@.len() - i,
        {
            r.append(i);
            i = i + 1;
        }
        r
    }

    /// Every patch, in row-major order.
    pub fn patches(&self) -> (r: PatchSet)
        ensures
            r.wf(),
            r@.len() == self.all_patches().len(),
            forall|i: int| 0 <= i < r@.len() ==> r@[i] == i,
    {
        let mut r: PatchSet = AgentSet::new();
        let mut i: usize = 0;
        while i < self.patches.len()
            invariant
                i <= self.patches@.len(),
                r.wf(),
                r@.len() == i,
                forall|j: int| 0 <= j < i ==> r@[j] == j,
            decreases self.patches@.len() - i,
        {
            r.append(i);
            i = i + 1;
        }
        r
    }
}

impl<V> World<V> {
    /// Adds (`add`) or removes turtle `id` from the residents of patch `p`.
    fn update_residents(&mut self, p: usize, id: usize, add: bool)
        requires
            p < old(self).patches@.len(),
            old(self).patches@[p as int].turtles_on.wf(),
        ensures
            final(self).geometry == old(self).geometry,
            final(self).turtles == old(self).turtles,
            final(self).ug == old(self).ug,
            final(self).dg == old(self).dg,
            final(self).link_vars == old(self).link_vars,
            final(self).patches@.len() == old(self).patches@.len(),
            forall|q: int| 0 <= q < old(self).patches@.len() && q != p ==> #[trigger] final(self).patches@[q] == old(self).patches@[q],
            same_but_residents(final(self).patches@[p as int], old(self).patches@[p as int]),
            final(self).patches@[p as int].turtles_on.wf(),
            forall|x: usize| #[trigger] final(self).patches@[p as int].turtles_on@.contains(x) <==> if add {
                old(self).patches@[p as int].turtles_on@.contains(x) || x == id
            } else {
                old(self).patches@[p as int].turtles_on@.contains(x) && x != id
            },
    {
        let mut slot = placeholder_patch();
        self.patches.set_and_swap(p, &mut slot);
        let ghost before = slot.turtles_on@;
        if add {
            slot.turtles_on.append(id);
        } else {
            slot.turtles_on.delete(id);
            proof {
                assert forall|x: usize| slot.turtles_on@.contains(x) <==> (before.contains(x) && x != id) by {
                    assert(slot.turtles_on@.to_set().contains(x) == slot.turtles_on@.contains(x));
                    assert(before.to_set().contains(x) == before.contains(x));
                }
            }
        }
        self.patches.set_and_swap(p, &mut slot);
    }

    /// Moves turtle `who` to `(x, y)` as given, updating the residency index.
    fn place(&mut self, who: usize, x: i64, y: i64)
        requires
            old(self).wf(),
            who < old(self).all_turtles().len(),
            old(self).geo().x_lo() <= x <= old(self).geo().x_hi(),
            old(self).geo().y_lo() <= y <= old(self).geo().y_hi(),
        ensures
            final(self).wf(),
            final(self).geo() == old(self).geo(),
            final(self).ugraph() == old(self).ugraph(),
            final(self).dgraph() == old(self).dgraph(),
            final(self).all_turtles().len() == old(self).all_turtles().len(),
            forall|t: int| 0 <= t < old(self).all_turtles().len() && t != who ==> #[trigger] final(self).all_turtles()[t]
                == old(self).all_turtles()[t],
            ({
                let a = final(self).all_turtles()[who as int];
                let b = old(self).all_turtles()[who as int];
                a.xcor == x && a.ycor == y && a.who == b.who && a.color == b.color && a.heading == b.heading
                    && a.shape == b.shape && a.size == b.size && a.vars == b.vars
            }),
            forall|p: int| 0 <= p < old(self).all_patches().len() ==> same_but_residents(
                #[trigger] final(self).all_patches()[p],
                old(self).all_patches()[p],
            ),
    {
        proof {
            self.geometry.lemma_extents();
            assert(turtle_ok(self.geo(), self.all_turtles(), who as int));
        }
        let from = self.geometry.patch_index_at(self.turtles[who].xcor, self.turtles[who].ycor);
        let to = self.geometry.patch_index_at(x, y);
        let ghost w0 = *self;
        if from != to {
            assert(patch_ok(self.geo(), self.all_patches(), from as int));
            self.update_residents(from, who, false);
            assert(patch_ok(self.geo(), w0.all_patches(), to as int));
            assert(self.patches@[to as int] == w0.patches@[to as int]);
            self.update_residents(to, who, true);
        }
        let mut t = fresh_turtle(0);
        self.turtles.set_and_swap(who, &mut t);
        t.xcor = x;
        t.ycor = y;
        self.turtles.set_and_swap(who, &mut t);
        proof {
            assert forall|i: int| 0 <= i < self.all_patches().len() implies #[trigger] patch_ok(self.geo(), self.all_patches(), i) by {
                assert(patch_ok(self.geo(), w0.all_patches(), i));
            }
            assert forall|i: int| 0 <= i < self.all_turtles().len() implies #[trigger] turtle_ok(self.geo(), self.all_turtles(), i) by {
                assert(turtle_ok(self.geo(), w0.all_turtles(), i));
            }
            assert forall|p: int, id: usize| 0 <= p < self.all_patches().len() implies
                (#[trigger] self.all_patches()[p].turtles_on@.contains(id) <==> (id < self.all_turtles().len() && self.patch_of(id as int) == p)) by {
                assert(w0.all_patches()[p].turtles_on@.contains(id) <==> (id < w0.all_turtles().len() && w0.patch_of(id as int) == p));
                if id != who {
                    if id < self.all_turtles().len() {
                        assert(self.all_turtles()[id as int] == w0.all_turtles()[id as int]);
                    }
                }
            }
        }
    }

    /// Moves turtle `who` towards `(x, y)`: on a periodic world the point is
    /// wrapped into the world, on a bounded one held to its edge.
    pub fn setxy(&mut self, who: usize, x: i64, y: i64)
        requires
            old(self).wf(),
            who < old(self).all_turtles().len(),
        ensures
            final(self).wf(),
            final(self).geo() == old(self).geo(),
            final(self).ugraph() == old(self).ugraph(),
            final(self).dgraph() == old(self).dgraph(),
            final(self).all_turtles().len() == old(self).all_turtles().len(),
            forall|t: int| 0 <= t < old(self).all_turtles().len() && t != who ==> #[trigger] final(self).all_turtles()[t]
                == old(self).all_turtles()[t],
            ({
                let a = final(self).all_turtles()[who as int];
                let b = old(self).all_turtles()[who as int];
                a.xcor == old(self).geo().place_x(x as int) && a.ycor == old(self).geo().place_y(y as int)
                    && a.who == b.who && a.color == b.color && a.heading == b.heading
                    && a.shape == b.shape && a.size == b.size && a.vars == b.vars
            }),
            forall|p: int| 0 <= p < old(self).all_patches().len() ==> same_but_residents(
                #[trigger] final(self).all_patches()[p],
                old(self).all_patches()[p],
            ),
    {
        let nx = self.geometry.place_xcor(x);
        let ny = self.geometry.place_ycor(y);
        self.place(who, nx, ny);
    }

    /// Moves turtle `who` by `(dx, dy)`, as `setxy` from where it stands.
    pub fn forward_by(&mut self, who: usize, dx: i64, dy: i64)
        requires
            old(self).wf(),
            who < old(self).all_turtles().len(),
            -COORD_LIMIT / 2 <= dx <= COORD_LIMIT / 2,
            -COORD_LIMIT / 2 <= dy <= COORD_LIMIT / 2,
        ensures
            final(self).wf(),
            final(self).all_turtles().len() == old(self).all_turtles().len(),
            final(self).all_turtles()[who as int].xcor == old(self).geo().place_x(
                old(self).all_turtles()[who as int].xcor + dx,
            ),
            final(self).all_turtles()[who as int].ycor == old(self).geo().place_y(
                old(self).all_turtles()[who as int].ycor + dy,
            ),
            forall|t: int| 0 <= t < old(self).all_turtles().len() && t != who ==> #[trigger] final(self).all_turtles()[t]
                == old(self).all_turtles()[t],
    {
        proof {
            self.geometry.lemma_extents();
            assert(turtle_ok(self.geo(), self.all_turtles(), who as int));
        }
        let x = self.turtles[who].xcor + dx;
        let y = self.turtles[who].ycor + dy;
        self.setxy(who, x, y);
    }

    /// Moves turtle `who` to the centre of patch `p`.
    pub fn move_to_patch(&mut self, who: usize, p: usize)
        requires
            old(self).wf(),
            who < old(self).all_turtles().len(),
            p < old(self).all_patches().len(),
        ensures
            final(self).wf(),
            final(self).all_turtles().len() == old(self).all_turtles().len(),
            final(self).geo() == old(self).geo(),
            final(self).ugraph() == old(self).ugraph(),
            final(self).dgraph() == old(self).dgraph(),
            final(self).all_patches().len() == old(self).all_patches().len(),
            forall|q: int| 0 <= q < old(self).all_patches().len() ==> same_but_residents(
                #[trigger] final(self).all_patches()[q],
                old(self).all_patches()[q],
            ),
            final(self).all_turtles()[who as int].xcor == old(self).all_patches()[p as int].pxcor * SCALE,
            final(self).all_turtles()[who as int].ycor == old(self).all_patches()[p as int].pycor * SCALE,
            final(self).patch_of(who as int) == p,
            forall|t: int| 0 <= t < old(self).all_turtles().len() && t != who ==> #[trigger] final(self).all_turtles()[t]
                == old(self).all_turtles()[t],
    {
        proof {
            assert(patch_ok(self.geo(), self.all_patches(), p as int));
            self.geometry.lemma_cell_of(p as int);
            self.geometry.lemma_extents();
        }
        let x = self.patches[p].pxcor * SCALE;
        let y = self.patches[p].pycor * SCALE;
        proof {
            let c = self.geo().cell_of(p as int);
            assert(crate::space::round_to_patch(x as int) == self.all_patches()[p as int].pxcor) by {
                let px = self.all_patches()[p as int].pxcor as int;
                if px >= 0 {
                    vstd::arithmetic::div_mod::lemma_fundamental_div_mod_converse(px * 1000 + 500, 1000, px, 500);
                } else {
                    vstd::arithmetic::div_mod::lemma_fundamental_div_mod_converse(-px * 1000 + 500, 1000, -px, 500);
                }
            }
            assert(crate::space::round_to_patch(y as int) == self.all_patches()[p as int].pycor) by {
                let py = self.all_patches()[p as int].pycor as int;
                if py >= 0 {
                    vstd::arithmetic::div_mod::lemma_fundamental_div_mod_converse(py * 1000 + 500, 1000, py, 500);
                } else {
                    vstd::arithmetic::div_mod::lemma_fundamental_div_mod_converse(-py * 1000 + 500, 1000, -py, 500);
                }
            }
        }
        self.place(who, x, y);
    }
}

impl<V> World<V> {
    /// Adds one fresh turtle, with the next identity, to the turtles, both
    /// graphs and the patch at the origin.
    fn spawn(&mut self) -> (who: usize)
        requires
            old(self).wf(),
            old(self).all_turtles().len() < usize::MAX,
        ensures
            final(self).wf(),
            who == old(self).all_turtles().len(),
            final(self).geo() == old(self).geo(),
            final(self).all_turtles() == old(self).all_turtles().push(final(self).all_turtles()[who as int]),
            is_fresh(final(self).all_turtles()[who as int], who as int),
            ug_edges(final(self).ugraph()) == ug_edges(old(self).ugraph()),
            dg_edges(final(self).dgraph()) == dg_edges(old(self).dgraph()),
            forall|p: int| 0 <= p < old(self).all_patches().len() ==> same_but_residents(
                #[trigger] final(self).all_patches()[p],
                old(self).all_patches()[p],
            ),
            final(self).all_patches().len() == old(self).all_patches().len(),
    {
        let ghost w0 = *self;
        proof {
            self.geometry.lemma_extents();
        }
        let who = self.turtles.len();
        let p0 = self.geometry.patch_index_at(0, 0);
        assert(patch_ok(self.geo(), self.all_patches(), p0 as int));
        self.update_residents(p0, who, true);
        self.turtles.push(fresh_turtle(who));
        let u = ug_add_node(&mut self.ug);
        let d = dg_add_node(&mut self.dg);
        assert(u == d);
        proof {
            assert forall|i: int| 0 <= i < self.all_patches().len() implies #[trigger] patch_ok(self.geo(), self.all_patches(), i) by {
                assert(patch_ok(self.geo(), w0.all_patches(), i));
            }
            assert forall|i: int| 0 <= i < self.all_turtles().len() implies #[trigger] turtle_ok(self.geo(), self.all_turtles(), i) by {
                if i < who {
                    assert(turtle_ok(self.geo(), w0.all_turtles(), i));
                    assert(self.all_turtles()[i] == w0.all_turtles()[i]);
                }
            }
            assert forall|p: int, id: usize| 0 <= p < self.all_patches().len() implies
                (#[trigger] self.all_patches()[p].turtles_on@.contains(id) <==> (id < self.all_turtles().len() && self.patch_of(id as int) == p)) by {
                assert(w0.all_patches()[p].turtles_on@.contains(id) <==> (id < w0.all_turtles().len() && w0.patch_of(id as int) == p));
                if id < who {
                    assert(self.all_turtles()[id as int] == w0.all_turtles()[id as int]);
                }
            }
            assert(self.all_turtles() =~= w0.all_turtles().push(self.all_turtles()[who as int]));
        }
        who
    }

    /// Creates `amount` fresh turtles at the origin, with the next identities.
    pub fn crt(&mut self, amount: usize) -> (r: TurtleSet)
        requires
            old(self).wf(),
            old(self).all_turtles().len() + amount <= usize::MAX,
        ensures
            final(self).wf(),
            final(self).geo() == old(self).geo(),
            final(self).all_turtles().len() == old(self).all_turtles().len() + amount,
            final(self).all_turtles().subrange(0, old(self).all_turtles().len() as int) == old(self).all_turtles(),
            forall|i: int| old(self).all_turtles().len() <= i < final(self).all_turtles().len() ==> #[trigger] is_fresh(
                final(self).all_turtles()[i],
                i,
            ),
            r.wf(),
            r@.len() == amount,
            forall|i: int| 0 <= i < amount ==> #[trigger] r@[i] == old(self).all_turtles().len() + i,
            ug_edges(final(self).ugraph()) == ug_edges(old(self).ugraph()),
            dg_edges(final(self).dgraph()) == dg_edges(old(self).dgraph()),
            final(self).all_patches().len() == old(self).all_patches().len(),
            forall|p: int| 0 <= p < old(self).all_patches().len() ==> same_but_residents(
                #[trigger] final(self).all_patches()[p],
                old(self).all_patches()[p],
            ),
    {
        let ghost n = old(self).all_turtles().len();
        let mut r: TurtleSet = AgentSet::new();
        let mut k: usize = 0;
        while k < amount
            invariant
                k <= amount,
                n + amount <= usize::MAX,
                self.wf(),
                self.geo() == old(self).geo(),
                self.all_turtles().len() == n + k,
                self.all_turtles().subrange(0, n as int) == old(self).all_turtles(),
                forall|i: int| n <= i < n + k ==> #[trigger] is_fresh(self.all_turtles()[i], i),
                r.wf(),
                r@.len() == k,
                forall|i: int| 0 <= i < k ==> #[trigger] r@[i] == n + i,
                ug_edges(self.ugraph()) == ug_edges(old(self).ugraph()),
                dg_edges(self.dgraph()) == dg_edges(old(self).dgraph()),
                self.all_patches().len() == old(self).all_patches().len(),
                forall|p: int| 0 <= p < old(self).all_patches().len() ==> same_but_residents(
                    #[trigger] self.all_patches()[p],
                    old(self).all_patches()[p],
                ),
            decreases amount - k,
        {
            let ghost before = self.all_turtles();
            let who = self.spawn();
            proof {
                assert(self.all_turtles().subrange(0, n as int) =~= before.subrange(0, n as int));
                assert forall|i: int| n <= i < n + k + 1 implies #[trigger] is_fresh(self.all_turtles()[i], i) by {
                    if i < n + k {
                        assert(self.all_turtles()[i] == before[i]);
                    }
                }
                if r@.contains(who) {
                    let j = choose|j: int| 0 <= j < r@.len() && r@[j] == who;
                }
            }
            r.append(who);
            k = k + 1;
        }
        r
    }

    /// Creates `amount` turtles on patch `p`, at its centre.
    pub fn sprout(&mut self, p: usize, amount: usize) -> (r: TurtleSet)
        requires
            old(self).wf(),
            p < old(self).all_patches().len(),
            old(self).all_turtles().len() + amount <= usize::MAX,
        ensures
            final(self).wf(),
            final(self).all_turtles().len() == old(self).all_turtles().len() + amount,
            forall|t: int| 0 <= t < old(self).all_turtles().len() ==> #[trigger] final(self).all_turtles()[t]
                == old(self).all_turtles()[t],
            r.wf(),
            r@.len() == amount,
            forall|i: int| 0 <= i < amount ==> #[trigger] r@[i] == old(self).all_turtles().len() + i,
            forall|t: int| old(self).all_turtles().len() <= t < final(self).all_turtles().len() ==> #[trigger] final(self).patch_of(t) == p,
            forall|t: int| old(self).all_turtles().len() <= t < final(self).all_turtles().len() ==> (#[trigger] final(self).all_turtles()[t]).xcor
                == old(self).all_patches()[p as int].pxcor * SCALE && final(self).all_turtles()[t].ycor == old(self).all_patches()[p as int].pycor * SCALE
                && final(self).all_turtles()[t].who == t,
    {
        let ghost n = old(self).all_turtles().len();
        let r = self.crt(amount);
        proof {
            assert forall|t: int| n <= t < n + amount implies (#[trigger] self.all_turtles()[t]).who == t by {
                assert(is_fresh(self.all_turtles()[t], t));
            }
        }
        let mut k: usize = 0;
        while k < amount
            invariant
                k <= amount,
                self.wf(),
                p < self.all_patches().len(),
                self.all_patches().len() == old(self).all_patches().len(),
                self.all_turtles().len() == n + amount,
                forall|t: int| 0 <= t < n ==> #[trigger] self.all_turtles()[t] == old(self).all_turtles()[t],
                forall|t: int| n <= t < n + k ==> #[trigger] self.patch_of(t) == p,
                forall|t: int| n <= t < n + k ==> (#[trigger] self.all_turtles()[t]).xcor == old(self).all_patches()[p as int].pxcor * SCALE
                    && self.all_turtles()[t].ycor == old(self).all_patches()[p as int].pycor * SCALE,
                forall|t: int| n <= t < n + amount ==> (#[trigger] self.all_turtles()[t]).who == t,
                self.geo() == old(self).geo(),
                r.wf(),
                r@.len() == amount,
                forall|i: int| 0 <= i < amount ==> #[trigger] r@[i] == n + i,
                forall|q: int| 0 <= q < old(self).all_patches().len() ==> (#[trigger] self.all_patches()[q]).pxcor == old(self).all_patches()[q].pxcor
                    && self.all_patches()[q].pycor == old(self).all_patches()[q].pycor,
            decreases amount - k,
        {
            let ghost before = *self;
            let who = r.nth(k);
            assert(who == n + k);
            self.move_to_patch(who, p);
            proof {
                assert forall|t: int| n <= t < n + k + 1 implies #[trigger] self.patch_of(t) == p by {
                    if t < n + k {
                        assert(self.all_turtles()[t] == before.all_turtles()[t]);
                        assert(before.patch_of(t) == p);
                    }
                }
                assert forall|t: int| n <= t < n + k + 1 implies (#[trigger] self.all_turtles()[t]).xcor == old(self).all_patches()[p as int].pxcor * SCALE
                    && self.all_turtles()[t].ycor == old(self).all_patches()[p as int].pycor * SCALE by {
                    if t < n + k {
                        assert(self.all_turtles()[t] == before.all_turtles()[t]);
                    }
                }
                assert forall|t: int| n <= t < n + amount implies (#[trigger] self.all_turtles()[t]).who == t by {
                    if t != who {
                        assert(self.all_turtles()[t] == before.all_turtles()[t]);
                    } else {
                        assert(turtle_ok(self.geo(), self.all_turtles(), t));
                    }
                }
            }
            k = k + 1;
        }
        r
    }
}

impl<V> World<V> {
    /// Turtle `who` dies. To keep identities dense, the turtle with the
    /// highest identity takes over the freed one, in the turtle list and in
    /// both graphs, whose last node likewise takes the freed node index.
    pub fn die(&mut self, who: usize)
        requires
            old(self).wf(),
            who < old(self).all_turtles().len(),
        ensures
            final(self).wf(),
            final(self).geo() == old(self).geo(),
            final(self).all_turtles().len() == old(self).all_turtles().len() - 1,
            forall|t: int| 0 <= t < final(self).all_turtles().len() && t != who ==> #[trigger] final(self).all_turtles()[t]
                == old(self).all_turtles()[t],
            who < final(self).all_turtles().len() ==> ({
                let a = final(self).all_turtles()[who as int];
                let b = old(self).all_turtles()[old(self).all_turtles().len() - 1];
                a.who == who && a.xcor == b.xcor && a.ycor == b.ycor && a.color == b.color && a.heading == b.heading
                    && a.shape == b.shape && a.size == b.size && a.vars == b.vars
            }),
            ug_edges(final(self).ugraph()).to_multiset() == edges_without(
                ug_edges(old(self).ugraph()),
                who,
                (old(self).all_turtles().len() - 1) as usize,
            ),
            dg_edges(final(self).dgraph()).to_multiset() == edges_without(
                dg_edges(old(self).dgraph()),
                who,
                (old(self).all_turtles().len() - 1) as usize,
            ),
            final(self).link_stores().stores() == stores_without(
                old(self).link_stores().stores(),
                who,
                (old(self).all_turtles().len() - 1) as usize,
            ),
            final(self).all_patches().len() == old(self).all_patches().len(),
            forall|p: int| 0 <= p < old(self).all_patches().len() ==> same_but_residents(
                #[trigger] final(self).all_patches()[p],
                old(self).all_patches()[p],
            ),
    {
        let ghost w0 = *self;
        proof {
            self.geometry.lemma_extents();
            assert(turtle_ok(self.geo(), self.all_turtles(), who as int));
        }
        let last = self.turtles.len() - 1;
        let from = self.geometry.patch_index_at(self.turtles[who].xcor, self.turtles[who].ycor);
        assert(patch_ok(self.geo(), self.all_patches(), from as int));
        self.update_residents(from, who, false);
        if who != last {
            proof {
                assert(turtle_ok(self.geo(), self.all_turtles(), last as int));
            }
            let lp = self.geometry.patch_index_at(self.turtles[last].xcor, self.turtles[last].ycor);
            assert(patch_ok(self.geo(), w0.all_patches(), lp as int));
            assert(self.patches@[lp as int].turtles_on.wf());
            self.update_residents(lp, last, false);
            self.update_residents(lp, who, true);
        }
        let _gone = self.turtles.swap_remove(who);
        if who != last {
            let mut t = fresh_turtle(0);
            self.turtles.set_and_swap(who, &mut t);
            t.who = who;
            self.turtles.set_and_swap(who, &mut t);
        }
        ug_remove_node(&mut self.ug, who);
        self.link_vars.remove_turtle(who, last);
        dg_remove_node(&mut self.dg, who);
        proof {
            let n = w0.all_turtles().len();
            assert forall|t: int| 0 <= t < self.all_turtles().len() && t != who implies #[trigger] self.all_turtles()[t]
                == w0.all_turtles()[t] by {}
            assert forall|i: int| 0 <= i < self.all_patches().len() implies #[trigger] patch_ok(self.geo(), self.all_patches(), i) by {
                assert(patch_ok(self.geo(), w0.all_patches(), i));
            }
            assert forall|i: int| 0 <= i < self.all_turtles().len() implies #[trigger] turtle_ok(self.geo(), self.all_turtles(), i) by {
                if i == who {
                    assert(turtle_ok(self.geo(), w0.all_turtles(), last as int));
                } else {
                    assert(turtle_ok(self.geo(), w0.all_turtles(), i));
                }
            }
            assert forall|p: int, id: usize| 0 <= p < self.all_patches().len() implies
                (#[trigger] self.all_patches()[p].turtles_on@.contains(id) <==> (id < self.all_turtles().len() && self.patch_of(id as int) == p)) by {
                assert(w0.all_patches()[p].turtles_on@.contains(id) <==> (id < n && w0.patch_of(id as int) == p));
                assert(w0.all_patches()[p].turtles_on@.contains(who) <==> (w0.patch_of(who as int) == p));
                assert(w0.all_patches()[p].turtles_on@.contains(last) <==> (w0.patch_of(last as int) == p));
                if id < self.all_turtles().len() && id != who {
                    assert(self.all_turtles()[id as int] == w0.all_turtles()[id as int]);
                }
                if id == who && who != last {
                    assert(self.patch_of(who as int) == w0.patch_of(last as int));
                }
            }
        }
    }

    /// Turtle `parent` hatches `amount` turtles with the next identities: each
    /// starts where the parent stands, with its heading, colour, shape and
    /// size, and with a copy of its variables.
    pub fn hatch(&mut self, parent: usize, amount: usize) -> (r: TurtleSet)
        where V: Clone
        requires
            old(self).wf(),
            parent < old(self).all_turtles().len(),
            old(self).all_turtles().len() + amount <= usize::MAX,
        ensures
            final(self).wf(),
            final(self).all_turtles().len() == old(self).all_turtles().len() + amount,
            forall|t: int| 0 <= t < old(self).all_turtles().len() ==> #[trigger] final(self).all_turtles()[t]
                == old(self).all_turtles()[t],
            forall|t: int| old(self).all_turtles().len() <= t < final(self).all_turtles().len() ==> hatched_from(
                #[trigger] final(self).all_turtles()[t],
                old(self).all_turtles()[parent as int],
                t,
            ),
            r.wf(),
            r@.len() == amount,
            forall|i: int| 0 <= i < amount ==> #[trigger] r@[i] == old(self).all_turtles().len() + i,
    {
        let ghost n = old(self).all_turtles().len();
        let ghost b = old(self).all_turtles()[parent as int];
        let px = self.turtles[parent].xcor;
        let py = self.turtles[parent].ycor;
        let color = self.turtles[parent].color;
        let heading = self.turtles[parent].heading;
        let size = self.turtles[parent].size;
        let r = self.crt(amount);
        proof {
            assert forall|t: int| n <= t < n + amount implies (#[trigger] self.all_turtles()[t]).who == t by {
                assert(is_fresh(self.all_turtles()[t], t));
            }
            assert forall|t: int| 0 <= t < n implies #[trigger] self.all_turtles()[t] == old(self).all_turtles()[t] by {
                assert(self.all_turtles().subrange(0, n as int)[t] == self.all_turtles()[t]);
            }
        }
        assert(turtle_ok(self.geo(), self.all_turtles(), parent as int));
        let mut k: usize = 0;
        while k < amount
            invariant
                k <= amount,
                self.wf(),
                parent < n,
                self.all_turtles().len() == n + amount,
                self.geo() == old(self).geo(),
                forall|t: int| 0 <= t < n ==> #[trigger] self.all_turtles()[t] == old(self).all_turtles()[t],
                self.all_turtles()[parent as int] == b,
                px == b.xcor && py == b.ycor && color == b.color && heading == b.heading && size == b.size,
                self.geo().x_lo() <= px <= self.geo().x_hi(),
                self.geo().y_lo() <= py <= self.geo().y_hi(),
                0 <= heading < FULL_TURN,
                forall|t: int| n <= t < n + k ==> hatched_from(#[trigger] self.all_turtles()[t], b, t),
                forall|t: int| n + k <= t < n + amount ==> (#[trigger] self.all_turtles()[t]).who == t,
                r.wf(),
                r@.len() == amount,
                forall|i: int| 0 <= i < amount ==> #[trigger] r@[i] == n + i,
            decreases amount - k,
        {
            let who = r.nth(k);
            let ghost before = *self;
            self.place(who, px, py);
            let shape = self.turtles[parent].shape.clone();
            assert(turtle_ok(self.geo(), self.all_turtles(), parent as int));
            let vars = self.turtles[parent].vars.duplicate();
            let ghost mid = *self;
            let mut t = fresh_turtle(0);
            self.turtles.set_and_swap(who, &mut t);
            t.color = color;
            t.heading = heading;
            t.size = size;
            t.shape = shape;
            t.vars = vars;
            self.turtles.set_and_swap(who, &mut t);
            proof {
                assert forall|i: int| 0 <= i < self.all_patches().len() implies #[trigger] patch_ok(self.geo(), self.all_patches(), i) by {
                    assert(patch_ok(self.geo(), mid.all_patches(), i));
                }
                assert forall|i: int| 0 <= i < self.all_turtles().len() implies #[trigger] turtle_ok(self.geo(), self.all_turtles(), i) by {
                    assert(turtle_ok(self.geo(), mid.all_turtles(), i));
                }
                assert forall|p: int, id: usize| 0 <= p < self.all_patches().len() implies
                    (#[trigger] self.all_patches()[p].turtles_on@.contains(id) <==> (id < self.all_turtles().len() && self.patch_of(id as int) == p)) by {
                    assert(mid.all_patches()[p].turtles_on@.contains(id) <==> (id < mid.all_turtles().len() && mid.patch_of(id as int) == p));
                    if id < self.all_turtles().len() && id != who {
                        assert(self.all_turtles()[id as int] == mid.all_turtles()[id as int]);
                    }
                }
                assert forall|t: int| n <= t < n + k + 1 implies hatched_from(#[trigger] self.all_turtles()[t], b, t) by {
                    if t < n + k {
                        assert(self.all_turtles()[t] == before.all_turtles()[t]);
                    }
                }
                assert forall|t: int| n + k + 1 <= t < n + amount implies (#[trigger] self.all_turtles()[t]).who == t by {
                    assert(self.all_turtles()[t] == before.all_turtles()[t]);
                }
            }
            k = k + 1;
        }
        r
    }
}

/// `a` is a turtle with identity `t` hatched from `b`: it stands where `b`
/// stands, looks like `b`, and holds clones of `b`'s variables.
pub open spec fn hatched_from<V: Clone>(a: Turtle<V>, b: Turtle<V>, t: int) -> bool {
    &&& a.who == t
    &&& a.xcor == b.xcor && a.ycor == b.ycor
    &&& a.color == b.color && a.heading == b.heading && a.shape@ == b.shape@ && a.size == b.size
    &&& a.vars.vars().dom() == b.vars.vars().dom()
    &&& forall|k: Seq<char>| #[trigger] b.vars.vars().contains_key(k) ==> cloned(b.vars.vars()[k], a.vars.vars()[k])
}

/// `after` is `before` with `key` declared and set to a value `init` may make.
pub open spec fn declared_by<V, F: Fn() -> V>(init: F, key: Seq<char>, before: Map<Seq<char>, V>, after: Map<Seq<char>, V>) -> bool {
    exists|v: V| init.ensures((), v) && after == before.insert(key, v)
}

/// `a` may replace `b` in a well-formed world: same identity and position,
/// a heading in range and a well-formed store.
pub open spec fn turtle_compatible<V>(a: Turtle<V>, b: Turtle<V>) -> bool {
    &&& a.who == b.who && a.xcor == b.xcor && a.ycor == b.ycor
    &&& 0 <= a.heading < FULL_TURN
    &&& a.vars.wf()
}

/// `a` may replace `b` in a well-formed world: it differs at most in colour
/// and variables, and its store is well formed.
pub open spec fn patch_compatible<V>(a: Patch<V>, b: Patch<V>) -> bool {
    &&& a.pxcor == b.pxcor && a.pycor == b.pycor
    &&& a.neighbors == b.neighbors && a.neighbors4 == b.neighbors4
    &&& a.neighborhood == b.neighborhood && a.neighborhood4 == b.neighborhood4
    &&& a.turtles_on == b.turtles_on
    &&& a.vars.wf()
}

impl<V> World<V> {
    proof fn lemma_turtle_swap(w0: Self, w1: Self, who: int)
        requires
            w0.wf(),
            0 <= who < w0.all_turtles().len(),
            w1.geometry == w0.geometry,
            w1.patches == w0.patches,
            w1.link_vars == w0.link_vars,
            w1.ug == w0.ug,
            w1.dg == w0.dg,
            w1.turtles@ == w0.turtles@.update(who, w1.turtles@[who]),
            turtle_compatible(w1.turtles@[who], w0.turtles@[who]),
        ensures
            w1.wf(),
    {
        assert forall|i: int| 0 <= i < w1.all_patches().len() implies #[trigger] patch_ok(w1.geo(), w1.all_patches(), i) by {
            assert(patch_ok(w0.geo(), w0.all_patches(), i));
        }
        assert forall|i: int| 0 <= i < w1.all_turtles().len() implies #[trigger] turtle_ok(w1.geo(), w1.all_turtles(), i) by {
            assert(turtle_ok(w0.geo(), w0.all_turtles(), i));
        }
        assert forall|p: int, id: usize| 0 <= p < w1.all_patches().len() implies
            (#[trigger] w1.all_patches()[p].turtles_on@.contains(id) <==> (id < w1.all_turtles().len() && w1.patch_of(id as int) == p)) by {
            assert(w0.all_patches()[p].turtles_on@.contains(id) <==> (id < w0.all_turtles().len() && w0.patch_of(id as int) == p));
        }
    }

    proof fn lemma_patch_swap(w0: Self, w1: Self, q: int)
        requires
            w0.wf(),
            0 <= q < w0.all_patches().len(),
            w1.geometry == w0.geometry,
            w1.turtles == w0.turtles,
            w1.link_vars == w0.link_vars,
            w1.ug == w0.ug,
            w1.dg == w0.dg,
            w1.patches@ == w0.patches@.update(q, w1.patches@[q]),
            patch_compatible(w1.patches@[q], w0.patches@[q]),
        ensures
            w1.wf(),
    {
        assert forall|i: int| 0 <= i < w1.all_patches().len() implies #[trigger] patch_ok(w1.geo(), w1.all_patches(), i) by {
            assert(patch_ok(w0.geo(), w0.all_patches(), i));
        }
        assert forall|i: int| 0 <= i < w1.all_turtles().len() implies #[trigger] turtle_ok(w1.geo(), w1.all_turtles(), i) by {
            assert(turtle_ok(w0.geo(), w0.all_turtles(), i));
        }
        assert forall|p: int, id: usize| 0 <= p < w1.all_patches().len() implies
            (#[trigger] w1.all_patches()[p].turtles_on@.contains(id) <==> (id < w1.all_turtles().len() && w1.patch_of(id as int) == p)) by {
            assert(w0.all_patches()[p].turtles_on@.contains(id) <==> (id < w0.all_turtles().len() && w0.patch_of(id as int) == p));
        }
    }

    /// Sets the looks of turtle `who`; the heading is taken modulo a full turn.
    pub fn set_looks(&mut self, who: usize, color: Color, heading: i64, shape: String, size: i64)
        requires
            old(self).wf(),
            who < old(self).all_turtles().len(),
        ensures
            final(self).wf(),
            final(self).geo() == old(self).geo(),
            final(self).all_patches() == old(self).all_patches(),
            final(self).ugraph() == old(self).ugraph(),
            final(self).dgraph() == old(self).dgraph(),
            final(self).all_turtles().len() == old(self).all_turtles().len(),
            forall|t: int| 0 <= t < old(self).all_turtles().len() && t != who ==> #[trigger] final(self).all_turtles()[t]
                == old(self).all_turtles()[t],
            ({
                let a = final(self).all_turtles()[who as int];
                let b = old(self).all_turtles()[who as int];
                a.who == b.who && a.xcor == b.xcor && a.ycor == b.ycor && a.vars == b.vars
                    && a.color == color && a.heading == wrap_into(heading as int, 0, FULL_TURN as int)
                    && a.shape == shape && a.size == size
            }),
    {
        let ghost w0 = *self;
        let h = toroidal_transform(heading, 0, FULL_TURN);
        let mut t = fresh_turtle(0);
        self.turtles.set_and_swap(who, &mut t);
        t.color = color;
        t.heading = h;
        t.shape = shape;
        t.size = size;
        self.turtles.set_and_swap(who, &mut t);
        proof {
            assert(turtle_ok(w0.geo(), w0.all_turtles(), who as int));
            assert(self.turtles@ =~= w0.turtles@.update(who as int, self.turtles@[who as int]));
            Self::lemma_turtle_swap(w0, *self, who as int);
        }
    }

    /// Sets the heading of turtle `who`, taken modulo a full turn.
    pub fn set_heading(&mut self, who: usize, heading: i64)
        requires
            old(self).wf(),
            who < old(self).all_turtles().len(),
        ensures
            final(self).wf(),
            final(self).all_turtles().len() == old(self).all_turtles().len(),
            final(self).all_turtles()[who as int].heading == wrap_into(heading as int, 0, FULL_TURN as int),
            final(self).all_turtles()[who as int].xcor == old(self).all_turtles()[who as int].xcor,
            final(self).all_turtles()[who as int].ycor == old(self).all_turtles()[who as int].ycor,
            forall|t: int| 0 <= t < old(self).all_turtles().len() && t != who ==> #[trigger] final(self).all_turtles()[t]
                == old(self).all_turtles()[t],
    {
        let color = self.turtles[who].color;
        let shape = self.turtles[who].shape.clone();
        let size = self.turtles[who].size;
        self.set_looks(who, color, heading, shape, size);
    }

    /// Turns turtle `who` left (anticlockwise) by `degrees`, fixed point.
    pub fn left(&mut self, who: usize, degrees: i64)
        requires
            old(self).wf(),
            who < old(self).all_turtles().len(),
            -COORD_LIMIT / 2 <= degrees <= COORD_LIMIT / 2,
        ensures
            final(self).wf(),
            final(self).all_turtles().len() == old(self).all_turtles().len(),
            final(self).all_turtles()[who as int].heading == wrap_into(
                old(self).all_turtles()[who as int].heading - degrees,
                0,
                FULL_TURN as int,
            ),
            forall|t: int| 0 <= t < old(self).all_turtles().len() && t != who ==> #[trigger] final(self).all_turtles()[t]
                == old(self).all_turtles()[t],
    {
        assert(turtle_ok(self.geo(), self.all_turtles(), who as int));
        let h = self.turtles[who].heading - degrees;
        self.set_heading(who, h);
    }

    /// Turns turtle `who` right (clockwise) by `degrees`, fixed point.
    pub fn right(&mut self, who: usize, degrees: i64)
        requires
            old(self).wf(),
            who < old(self).all_turtles().len(),
            -COORD_LIMIT / 2 <= degrees <= COORD_LIMIT / 2,
        ensures
            final(self).wf(),
            final(self).all_turtles().len() == old(self).all_turtles().len(),
            final(self).all_turtles()[who as int].heading == wrap_into(
                old(self).all_turtles()[who as int].heading + degrees,
                0,
                FULL_TURN as int,
            ),
            forall|t: int| 0 <= t < old(self).all_turtles().len() && t != who ==> #[trigger] final(self).all_turtles()[t]
                == old(self).all_turtles()[t],
    {
        assert(turtle_ok(self.geo(), self.all_turtles(), who as int));
        let h = self.turtles[who].heading + degrees;
        self.set_heading(who, h);
    }

    /// Gives turtle `who` a random opaque colour.
    pub fn set_random_color(&mut self, who: usize)
        requires
            old(self).wf(),
            who < old(self).all_turtles().len(),
        ensures
            final(self).wf(),
            final(self).all_turtles().len() == old(self).all_turtles().len(),
            ({
                let a = final(self).all_turtles()[who as int];
                let b = old(self).all_turtles()[who as int];
                a.who == b.who && a.xcor == b.xcor && a.ycor == b.ycor && a.heading == b.heading
                    && a.shape == b.shape && a.size == b.size && a.vars == b.vars && a.color.a == 255
            }),
            forall|t: int| 0 <= t < old(self).all_turtles().len() && t != who ==> #[trigger] final(self).all_turtles()[t]
                == old(self).all_turtles()[t],
    {
        let color = Color { r: random_u8(&self.rng), g: random_u8(&self.rng), b: random_u8(&self.rng), a: 255 };
        assert(turtle_ok(self.geo(), self.all_turtles(), who as int));
        let heading = self.turtles[who].heading;
        proof {
            crate::space::lemma_wrap_inside(heading as int, 0, FULL_TURN as int);
        }
        let shape = self.turtles[who].shape.clone();
        let size = self.turtles[who].size;
        self.set_looks(who, color, heading, shape, size);
    }

    /// Sets the colour of patch `p`.
    pub fn set_pcolor(&mut self, p: usize, color: Color)
        requires
            old(self).wf(),
            p < old(self).all_patches().len(),
        ensures
            final(self).wf(),
            final(self).all_turtles() == old(self).all_turtles(),
            final(self).all_patches().len() == old(self).all_patches().len(),
            final(self).all_patches()[p as int].pcolor == color,
            same_but_color(final(self).all_patches()[p as int], old(self).all_patches()[p as int]),
            forall|q: int| 0 <= q < old(self).all_patches().len() && q != p ==> #[trigger] final(self).all_patches()[q]
                == old(self).all_patches()[q],
    {
        let ghost w0 = *self;
        let mut slot = placeholder_patch();
        self.patches.set_and_swap(p, &mut slot);
        slot.pcolor = color;
        self.patches.set_and_swap(p, &mut slot);
        proof {
            assert(patch_ok(w0.geo(), w0.all_patches(), p as int));
            assert(self.patches@ =~= w0.patches@.update(p as int, self.patches@[p as int]));
            Self::lemma_patch_swap(w0, *self, p as int);
        }
    }

    /// Gives patch `p` a random opaque colour.
    pub fn set_random_pcolor(&mut self, p: usize)
        requires
            old(self).wf(),
            p < old(self).all_patches().len(),
        ensures
            final(self).wf(),
            final(self).all_turtles() == old(self).all_turtles(),
            final(self).all_patches().len() == old(self).all_patches().len(),
            final(self).all_patches()[p as int].pcolor.a == 255,
            final(self).all_patches()[p as int].vars == old(self).all_patches()[p as int].vars,
            forall|q: int| 0 <= q < old(self).all_patches().len() && q != p ==> #[trigger] final(self).all_patches()[q]
                == old(self).all_patches()[q],
    {
        let color = Color { r: random_u8(&self.rng), g: random_u8(&self.rng), b: random_u8(&self.rng), a: 255 };
        self.set_pcolor(p, color);
    }

    /// Paints every patch black.
    pub fn clear_patches(&mut self)
        requires
            old(self).wf(),
        ensures
            final(self).wf(),
            final(self).all_turtles() == old(self).all_turtles(),
            final(self).all_patches().len() == old(self).all_patches().len(),
            forall|q: int| 0 <= q < final(self).all_patches().len() ==> (#[trigger] final(self).all_patches()[q]).pcolor
                == black_color() && same_but_color(final(self).all_patches()[q], old(self).all_patches()[q]),
    {
        let n = self.patches.len();
        let mut i: usize = 0;
        while i < n
            invariant
                i <= n,
                n == self.all_patches().len(),
                self.wf(),
                self.all_turtles() == old(self).all_turtles(),
                forall|q: int| 0 <= q < i ==> (#[trigger] self.all_patches()[q]).pcolor == black_color(),
                forall|q: int| 0 <= q < n ==> same_but_color(#[trigger] self.all_patches()[q], old(self).all_patches()[q]),
            decreases n - i,
        {
            self.set_pcolor(i, Color::black());
            i = i + 1;
        }
    }

    /// Declares variable `key` on every turtle, each set to a value made by `init`.
    pub fn turtles_own<F: Fn() -> V>(&mut self, key: &str, init: F)
        requires
            old(self).wf(),
            init.requires(()),
        ensures
            final(self).wf(),
            final(self).all_turtles().len() == old(self).all_turtles().len(),
            forall|t: int| 0 <= t < final(self).all_turtles().len() ==> declared_by(init, key@,
                old(self).all_turtles()[t].vars.vars(), (#[trigger] final(self).all_turtles()[t]).vars.vars()),
    {
        let n = self.turtles.len();
        let mut i: usize = 0;
        while i < n
            invariant
                i <= n,
                n == self.all_turtles().len(),
                self.wf(),
                init.requires(()),
                forall|t: int| 0 <= t < i ==> declared_by(init, key@,
                    old(self).all_turtles()[t].vars.vars(), (#[trigger] self.all_turtles()[t]).vars.vars()),
                forall|t: int| i <= t < n ==> #[trigger] self.all_turtles()[t] == old(self).all_turtles()[t],
            decreases n - i,
        {
            let v = init();
            let ghost before = self.all_turtles();
            assert(before[i as int] == old(self).all_turtles()[i as int]);
            self.turtle_own(i, key, v);
            proof {
                assert forall|t: int| 0 <= t < i + 1 implies declared_by(init, key@,
                    old(self).all_turtles()[t].vars.vars(), (#[trigger] self.all_turtles()[t]).vars.vars()) by {
                    if t < i {
                        assert(self.all_turtles()[t] == before[t]);
                    } else {
                        assert(init.ensures((), v) && self.all_turtles()[t].vars.vars() == old(self).all_turtles()[t].vars.vars().insert(key@, v));
                    }
                }
            }
            i = i + 1;
        }
    }

    /// Declares variable `key` on turtle `who`, set to `init`.
    pub fn turtle_own(&mut self, who: usize, key: &str, init: V)
        requires
            old(self).wf(),
            who < old(self).all_turtles().len(),
        ensures
            final(self).wf(),
            final(self).all_turtles().len() == old(self).all_turtles().len(),
            final(self).all_turtles()[who as int].vars.vars() == old(self).all_turtles()[who as int].vars.vars().insert(key@, init),
            final(self).all_turtles()[who as int].xcor == old(self).all_turtles()[who as int].xcor,
            final(self).all_turtles()[who as int].ycor == old(self).all_turtles()[who as int].ycor,
            forall|t: int| 0 <= t < old(self).all_turtles().len() && t != who ==> #[trigger] final(self).all_turtles()[t]
                == old(self).all_turtles()[t],
    {
        let ghost w0 = *self;
        assert(turtle_ok(self.geo(), self.all_turtles(), who as int));
        let mut t = fresh_turtle(0);
        self.turtles.set_and_swap(who, &mut t);
        t.vars.own(key, init);
        self.turtles.set_and_swap(who, &mut t);
        proof {
            assert(self.turtles@ =~= w0.turtles@.update(who as int, self.turtles@[who as int]));
            Self::lemma_turtle_swap(w0, *self, who as int);
        }
    }

    /// Changes the value of declared variable `key` of turtle `who`.
    pub fn turtle_set(&mut self, who: usize, key: &str, value: V)
        requires
            old(self).wf(),
            who < old(self).all_turtles().len(),
            old(self).all_turtles()[who as int].vars.vars().contains_key(key@),
        ensures
            final(self).wf(),
            final(self).all_turtles().len() == old(self).all_turtles().len(),
            final(self).all_turtles()[who as int].vars.vars() == old(self).all_turtles()[who as int].vars.vars().insert(key@, value),
            forall|t: int| 0 <= t < old(self).all_turtles().len() && t != who ==> #[trigger] final(self).all_turtles()[t]
                == old(self).all_turtles()[t],
    {
        self.turtle_own(who, key, value);
    }

    /// The value of declared variable `key` of turtle `who`.
    pub fn turtle_get(&self, who: usize, key: &str) -> (r: &V)
        requires
            self.wf(),
            who < self.all_turtles().len(),
            self.all_turtles()[who as int].vars.vars().contains_key(key@),
        ensures
            *r == self.all_turtles()[who as int].vars.vars()[key@],
    {
        assert(turtle_ok(self.geo(), self.all_turtles(), who as int));
        self.turtles[who].vars.get(key)
    }

    /// Declares variable `key` on every patch, each set to a value made by `init`.
    pub fn patches_own<F: Fn() -> V>(&mut self, key: &str, init: F)
        requires
            old(self).wf(),
            init.requires(()),
        ensures
            final(self).wf(),
            final(self).all_turtles() == old(self).all_turtles(),
            final(self).all_patches().len() == old(self).all_patches().len(),
            forall|q: int| 0 <= q < final(self).all_patches().len() ==> declared_by(init, key@,
                old(self).all_patches()[q].vars.vars(), (#[trigger] final(self).all_patches()[q]).vars.vars()),
    {
        let n = self.patches.len();
        let mut i: usize = 0;
        while i < n
            invariant
                i <= n,
                n == self.all_patches().len(),
                self.wf(),
                self.all_turtles() == old(self).all_turtles(),
                init.requires(()),
                forall|q: int| 0 <= q < i ==> declared_by(init, key@,
                    old(self).all_patches()[q].vars.vars(), (#[trigger] self.all_patches()[q]).vars.vars()),
                forall|q: int| i <= q < n ==> #[trigger] self.all_patches()[q] == old(self).all_patches()[q],
            decreases n - i,
        {
            let v = init();
            let ghost before = self.all_patches();
            assert(before[i as int] == old(self).all_patches()[i as int]);
            self.patch_own(i, key, v);
            proof {
                assert forall|q: int| 0 <= q < i + 1 implies declared_by(init, key@,
                    old(self).all_patches()[q].vars.vars(), (#[trigger] self.all_patches()[q]).vars.vars()) by {
                    if q < i {
                        assert(self.all_patches()[q] == before[q]);
                    } else {
                        assert(init.ensures((), v) && self.all_patches()[q].vars.vars() == old(self).all_patches()[q].vars.vars().insert(key@, v));
                    }
                }
            }
            i = i + 1;
        }
    }

    /// Changes the value of declared variable `key` of patch `p`.
    pub fn patch_set(&mut self, p: usize, key: &str, value: V)
        requires
            old(self).wf(),
            p < old(self).all_patches().len(),
            old(self).all_patches()[p as int].vars.vars().contains_key(key@),
        ensures
            final(self).wf(),
            final(self).all_turtles() == old(self).all_turtles(),
            final(self).all_patches().len() == old(self).all_patches().len(),
            final(self).all_patches()[p as int].vars.vars() == old(self).all_patches()[p as int].vars.vars().insert(key@, value),
            same_but_vars(final(self).all_patches()[p as int], old(self).all_patches()[p as int]),
            forall|q: int| 0 <= q < old(self).all_patches().len() && q != p ==> #[trigger] final(self).all_patches()[q]
                == old(self).all_patches()[q],
    {
        self.patch_own(p, key, value);
    }

    /// Declares variable `key` of patch `p`, set to `init` (also when it was
    /// declared before).
    pub fn patch_own(&mut self, p: usize, key: &str, init: V)
        requires
            old(self).wf(),
            p < old(self).all_patches().len(),
        ensures
            final(self).wf(),
            final(self).all_turtles() == old(self).all_turtles(),
            final(self).all_patches().len() == old(self).all_patches().len(),
            final(self).all_patches()[p as int].vars.vars() == old(self).all_patches()[p as int].vars.vars().insert(key@, init),
            same_but_vars(final(self).all_patches()[p as int], old(self).all_patches()[p as int]),
            forall|q: int| 0 <= q < old(self).all_patches().len() && q != p ==> #[trigger] final(self).all_patches()[q]
                == old(self).all_patches()[q],
    {
        let ghost w0 = *self;
        assert(patch_ok(self.geo(), self.all_patches(), p as int));
        let mut slot = placeholder_patch();
        self.patches.set_and_swap(p, &mut slot);
        slot.vars.own(key, init);
        self.patches.set_and_swap(p, &mut slot);
        proof {
            assert(self.patches@ =~= w0.patches@.update(p as int, self.patches@[p as int]));
            Self::lemma_patch_swap(w0, *self, p as int);
        }
    }

    /// The value of declared variable `key` of patch `p`.
    pub fn patch_get(&self, p: usize, key: &str) -> (r: &V)
        requires
            self.wf(),
            p < self.all_patches().len(),
            self.all_patches()[p as int].vars.vars().contains_key(key@),
        ensures
            *r == self.all_patches()[p as int].vars.vars()[key@],
    {
        assert(patch_ok(self.geo(), self.all_patches(), p as int));
        self.patches[p].vars.get(key)
    }
}

/// Some edge of `edges` runs from `a` to `x` (when `out`) or from `x` to
/// `a` (when `inc`).
pub open spec fn linked(edges: Seq<(usize, usize)>, a: usize, x: usize, inc: bool, out: bool) -> bool {
    exists|i: int| 0 <= i < edges.len() && ((out && #[trigger] edges[i] == (a, x)) || (inc && edges[i] == (x, a)))
}

/// Edge `e` leaves `a` (when `out`) or enters `a` (when `inc`).
pub open spec fn touches(e: (usize, usize), a: usize, inc: bool, out: bool) -> bool {
    (out && e.0 == a) || (inc && e.1 == a)
}

/// The far ends of the edges of `edges` at `a`, each once.
fn far_ends(edges: &Vec<(usize, usize)>, a: usize, inc: bool, out: bool) -> (r: TurtleSet)
    ensures
        r.wf(),
        forall|x: usize| #[trigger] r@.contains(x) <==> linked(edges@, a, x, inc, out),
{
    let mut r: TurtleSet = AgentSet::new();
    let mut i: usize = 0;
    while i < edges.len()
        invariant
            i <= edges@.len(),
            r.wf(),
            forall|x: usize| #[trigger] r@.contains(x) <==> linked(edges@.subrange(0, i as int), a, x, inc, out),
        decreases edges@.len() - i,
    {
        let (s, t) = edges[i];
        let ghost pre = edges@.subrange(0, i as int);
        let ghost cur = edges@.subrange(0, i as int + 1);
        if out && s == a {
            r.append(t);
        }
        if inc && t == a {
            r.append(s);
        }
        proof {
            assert forall|x: usize| #[trigger] r@.contains(x) <==> linked(cur, a, x, inc, out) by {
                if linked(pre, a, x, inc, out) {
                    let j = choose|j: int| 0 <= j < pre.len() && ((out && #[trigger] pre[j] == (a, x)) || (inc && pre[j] == (x, a)));
                    assert(cur[j] == pre[j]);
                }
                if linked(cur, a, x, inc, out) {
                    let j = choose|j: int| 0 <= j < cur.len() && ((out && #[trigger] cur[j] == (a, x)) || (inc && cur[j] == (x, a)));
                    if j < i {
                        assert(pre[j] == cur[j]);
                    }
                }
                if out && s == a && x == t {
                    assert(cur[i as int] == (a, x));
                }
                if inc && t == a && x == s {
                    assert(cur[i as int] == (x, a));
                }
            }
        }
        i = i + 1;
    }
    assert(edges@.subrange(0, i as int) =~= edges@);
    r
}

/// The edges of `edges` at `a`, in edge order.
fn edges_at(edges: &Vec<(usize, usize)>, a: usize, inc: bool, out: bool) -> (r: Vec<(usize, usize)>)
    ensures
        r@ == edges@.filter(|e: (usize, usize)| touches(e, a, inc, out)),
{
    let mut r: Vec<(usize, usize)> = Vec::new();
    let mut i: usize = 0;
    while i < edges.len()
        invariant
            i <= edges@.len(),
            r@ == edges@.subrange(0, i as int).filter(|e: (usize, usize)| touches(e, a, inc, out)),
        decreases edges@.len() - i,
    {
        let e = edges[i];
        proof {
            assert(edges@.subrange(0, i as int + 1) =~= edges@.subrange(0, i as int).push(e));
            edges@.subrange(0, i as int).lemma_filter_push(e, |e: (usize, usize)| touches(e, a, inc, out));
        }
        if (out && e.0 == a) || (inc && e.1 == a) {
            r.push(e);
        }
        i = i + 1;
    }
    assert(edges@.subrange(0, i as int) =~= edges@);
    r
}

impl<V> World<V> {
    /// The edges of the undirected graph, by edge index.
    fn ug_edge_list(&self) -> (r: Vec<(usize, usize)>)
        ensures
            r@ == ug_edges(self.ugraph()),
    {
        let n = ug_edge_count(&self.ug);
        let mut r: Vec<(usize, usize)> = Vec::new();
        let mut i: usize = 0;
        while i < n
            invariant
                i <= n,
                n == ug_edges(self.ug).len(),
                r@ == ug_edges(self.ug).subrange(0, i as int),
            decreases n - i,
        {
            r.push(ug_edge(&self.ug, i));
            assert(r@ =~= ug_edges(self.ug).subrange(0, i as int + 1));
            i = i + 1;
        }
        assert(r@ =~= ug_edges(self.ug));
        r
    }

    /// The edges of the directed graph, by edge index.
    fn dg_edge_list(&self) -> (r: Vec<(usize, usize)>)
        ensures
            r@ == dg_edges(self.dgraph()),
    {
        let n = dg_edge_count(&self.dg);
        let mut r: Vec<(usize, usize)> = Vec::new();
        let mut i: usize = 0;
        while i < n
            invariant
                i <= n,
                n == dg_edges(self.dg).len(),
                r@ == dg_edges(self.dg).subrange(0, i as int),
            decreases n - i,
        {
            r.push(dg_edge(&self.dg, i));
            assert(r@ =~= dg_edges(self.dg).subrange(0, i as int + 1));
            i = i + 1;
        }
        assert(r@ =~= dg_edges(self.dg));
        r
    }

    /// Adds an undirected link between turtles `a` and `b`.
    pub fn create_link_with(&mut self, a: usize, b: usize)
        requires
            old(self).wf(),
            a < old(self).all_turtles().len(),
            b < old(self).all_turtles().len(),
        ensures
            final(self).wf(),
            final(self).all_turtles() == old(self).all_turtles(),
            final(self).all_patches() == old(self).all_patches(),
            ug_edges(final(self).ugraph()) == ug_edges(old(self).ugraph()).push((a, b)),
            final(self).dgraph() == old(self).dgraph(),
    {
        ug_add_edge(&mut self.ug, a, b);
        proof {
            let w0 = *old(self);
            assert forall|i: int| 0 <= i < self.all_patches().len() implies #[trigger] patch_ok(self.geo(), self.all_patches(), i) by {
                assert(patch_ok(w0.geo(), w0.all_patches(), i));
            }
            assert forall|i: int| 0 <= i < self.all_turtles().len() implies #[trigger] turtle_ok(self.geo(), self.all_turtles(), i) by {
                assert(turtle_ok(w0.geo(), w0.all_turtles(), i));
            }
        }
    }

    /// Adds a directed link from turtle `a` to turtle `b`.
    pub fn create_link_to(&mut self, a: usize, b: usize)
        requires
            old(self).wf(),
            a < old(self).all_turtles().len(),
            b < old(self).all_turtles().len(),
        ensures
            final(self).wf(),
            final(self).all_turtles() == old(self).all_turtles(),
            final(self).all_patches() == old(self).all_patches(),
            dg_edges(final(self).dgraph()) == dg_edges(old(self).dgraph()).push((a, b)),
            final(self).ugraph() == old(self).ugraph(),
    {
        dg_add_edge(&mut self.dg, a, b);
        proof {
            let w0 = *old(self);
            assert forall|i: int| 0 <= i < self.all_patches().len() implies #[trigger] patch_ok(self.geo(), self.all_patches(), i) by {
                assert(patch_ok(w0.geo(), w0.all_patches(), i));
            }
            assert forall|i: int| 0 <= i < self.all_turtles().len() implies #[trigger] turtle_ok(self.geo(), self.all_turtles(), i) by {
                assert(turtle_ok(w0.geo(), w0.all_turtles(), i));
            }
        }
    }

    /// Adds a directed link to turtle `a` from turtle `b`.
    pub fn create_link_from(&mut self, a: usize, b: usize)
        requires
            old(self).wf(),
            a < old(self).all_turtles().len(),
            b < old(self).all_turtles().len(),
        ensures
            final(self).wf(),
            final(self).all_turtles() == old(self).all_turtles(),
            final(self).all_patches() == old(self).all_patches(),
            dg_edges(final(self).dgraph()) == dg_edges(old(self).dgraph()).push((b, a)),
            final(self).ugraph() == old(self).ugraph(),
    {
        self.create_link_to(b, a);
    }

    /// Removes every link; every turtle stays a node of both graphs.
    pub fn clear_links(&mut self)
        requires
            old(self).wf(),
        ensures
            final(self).wf(),
            final(self).all_turtles() == old(self).all_turtles(),
            final(self).all_patches() == old(self).all_patches(),
            ug_edges(final(self).ugraph()) == Seq::<(usize, usize)>::empty(),
            dg_edges(final(self).dgraph()) == Seq::<(usize, usize)>::empty(),
            final(self).link_stores().stores() == Map::<LinkId, VarStore<V>>::empty(),
    {
        self.link_vars.clear();
        ug_clear_edges(&mut self.ug);
        dg_clear_edges(&mut self.dg);
        proof {
            let w0 = *old(self);
            assert forall|i: int| 0 <= i < self.all_patches().len() implies #[trigger] patch_ok(self.geo(), self.all_patches(), i) by {
                assert(patch_ok(w0.geo(), w0.all_patches(), i));
            }
            assert forall|i: int| 0 <= i < self.all_turtles().len() implies #[trigger] turtle_ok(self.geo(), self.all_turtles(), i) by {
                assert(turtle_ok(w0.geo(), w0.all_turtles(), i));
            }
        }
    }

    /// The turtles joined to `a` by an undirected link.
    pub fn link_neighbors(&self, a: usize) -> (r: TurtleSet)
        ensures
            r.wf(),
            forall|x: usize| #[trigger] r@.contains(x) <==> linked(ug_edges(self.ugraph()), a, x, true, true),
    {
        far_ends(&self.ug_edge_list(), a, true, true)
    }

    /// The turtles with a directed link to `a`.
    pub fn in_link_neighbors(&self, a: usize) -> (r: TurtleSet)
        ensures
            r.wf(),
            forall|x: usize| #[trigger] r@.contains(x) <==> linked(dg_edges(self.dgraph()), a, x, true, false),
    {
        far_ends(&self.dg_edge_list(), a, true, false)
    }

    /// The turtles with a directed link from `a`.
    pub fn out_link_neighbors(&self, a: usize) -> (r: TurtleSet)
        ensures
            r.wf(),
            forall|x: usize| #[trigger] r@.contains(x) <==> linked(dg_edges(self.dgraph()), a, x, false, true),
    {
        far_ends(&self.dg_edge_list(), a, false, true)
    }

    /// The undirected links at `a`, as endpoint pairs, in edge order.
    pub fn my_links(&self, a: usize) -> (r: Vec<(usize, usize)>)
        ensures
            r@ == ug_edges(self.ugraph()).filter(|e: (usize, usize)| touches(e, a, true, true)),
    {
        edges_at(&self.ug_edge_list(), a, true, true)
    }

    /// The directed links into `a`, as (source, target), in edge order.
    pub fn my_in_links(&self, a: usize) -> (r: Vec<(usize, usize)>)
        ensures
            r@ == dg_edges(self.dgraph()).filter(|e: (usize, usize)| touches(e, a, true, false)),
    {
        edges_at(&self.dg_edge_list(), a, true, false)
    }

    /// The directed links out of `a`, as (source, target), in edge order.
    pub fn my_out_links(&self, a: usize) -> (r: Vec<(usize, usize)>)
        ensures
            r@ == dg_edges(self.dgraph()).filter(|e: (usize, usize)| touches(e, a, false, true)),
    {
        edges_at(&self.dg_edge_list(), a, false, true)
    }
}

/// Signed offset from `(x1, y1)` to `(x2, y2)` along each axis: the shorter
/// way round on a periodic world, the plain difference on a bounded one.
pub open spec fn axis_offsets(g: Geometry, x1: int, y1: int, x2: int, y2: int) -> (int, int) {
    if g.is_periodic {
        (toroidal_off(x1, x2, g.width() * SCALE), toroidal_off(y1, y2, g.height() * SCALE))
    } else {
        (x2 - x1, y2 - y1)
    }
}

/// Squared distance between two points of the world.
pub open spec fn dist2(g: Geometry, x1: int, y1: int, x2: int, y2: int) -> int {
    let d = axis_offsets(g, x1, y1, x2, y2);
    d.0 * d.0 + d.1 * d.1
}

impl<V> World<V> {
    /// Signed offsets from turtle `who` to the point `(x, y)`, from which its
    /// heading towards the point follows.
    pub fn offset_to(&self, who: usize, x: i64, y: i64) -> (r: (i64, i64))
        requires
            self.wf(),
            who < self.all_turtles().len(),
            -COORD_LIMIT / 2 <= x <= COORD_LIMIT / 2,
            -COORD_LIMIT / 2 <= y <= COORD_LIMIT / 2,
        ensures
            r.0 == axis_offsets(self.geo(), self.all_turtles()[who as int].xcor as int,
                self.all_turtles()[who as int].ycor as int, x as int, y as int).0,
            r.1 == axis_offsets(self.geo(), self.all_turtles()[who as int].xcor as int,
                self.all_turtles()[who as int].ycor as int, x as int, y as int).1,
            -COORD_LIMIT <= r.0 <= COORD_LIMIT,
            -COORD_LIMIT <= r.1 <= COORD_LIMIT,
    {
        proof {
            self.geometry.lemma_extents();
            assert(turtle_ok(self.geo(), self.all_turtles(), who as int));
        }
        let tx = self.turtles[who].xcor;
        let ty = self.turtles[who].ycor;
        if self.geometry.is_periodic {
            let sx = self.geometry.x_max() - self.geometry.x_min();
            let sy = self.geometry.y_max() - self.geometry.y_min();
            (toroidal_offset(tx, x, sx), toroidal_offset(ty, y, sy))
        } else {
            (x - tx, y - ty)
        }
    }

    /// Squared distance from turtle `who` to the point `(x, y)`.
    pub fn distance2_xy(&self, who: usize, x: i64, y: i64) -> (r: i128)
        requires
            self.wf(),
            who < self.all_turtles().len(),
            -COORD_LIMIT / 2 <= x <= COORD_LIMIT / 2,
            -COORD_LIMIT / 2 <= y <= COORD_LIMIT / 2,
        ensures
            r == dist2(self.geo(), self.all_turtles()[who as int].xcor as int,
                self.all_turtles()[who as int].ycor as int, x as int, y as int),
    {
        let (dx, dy) = self.offset_to(who, x, y);
        let dx = dx as i128;
        let dy = dy as i128;
        assert(dx * dx <= 1_000_000_000_000_000_000_000_000_000_000_000_000i128) by (nonlinear_arith)
            requires -1_000_000_000_000_000_000 <= dx <= 1_000_000_000_000_000_000;
        assert(dy * dy <= 1_000_000_000_000_000_000_000_000_000_000_000_000i128) by (nonlinear_arith)
            requires -1_000_000_000_000_000_000 <= dy <= 1_000_000_000_000_000_000;
        assert(dx * dx >= 0 && dy * dy >= 0) by (nonlinear_arith);
        dx * dx + dy * dy
    }

    /// Squared distance between turtles `a` and `b`.
    pub fn distance2(&self, a: usize, b: usize) -> (r: i128)
        requires
            self.wf(),
            a < self.all_turtles().len(),
            b < self.all_turtles().len(),
        ensures
            r == dist2(self.geo(), self.all_turtles()[a as int].xcor as int,
                self.all_turtles()[a as int].ycor as int, self.all_turtles()[b as int].xcor as int,
                self.all_turtles()[b as int].ycor as int),
    {
        proof {
            self.geometry.lemma_extents();
            assert(turtle_ok(self.geo(), self.all_turtles(), b as int));
        }
        self.distance2_xy(a, self.turtles[b].xcor, self.turtles[b].ycor)
    }

    /// The members of `set` within distance `radius` of turtle `who`.
    pub fn in_radius(&self, who: usize, set: &TurtleSet, radius: i64) -> (r: TurtleSet)
        requires
            self.wf(),
            set.wf(),
            who < self.all_turtles().len(),
            forall|i: int| 0 <= i < set@.len() ==> #[trigger] set@[i] < self.all_turtles().len(),
        ensures
            r.wf(),
            exists|keep: Seq<bool>|
                keep.len() == set@.len() && (forall|i: int| 0 <= i < set@.len() ==> #[trigger] keep[i] == (dist2(self.geo(),
                    self.all_turtles()[who as int].xcor as int, self.all_turtles()[who as int].ycor as int,
                    self.all_turtles()[set@[i] as int].xcor as int, self.all_turtles()[set@[i] as int].ycor as int)
                    <= radius * radius)) && r@ == crate::agentset::select(set@, keep),
    {
        let r128 = radius as i128;
        assert(r128 * r128 <= 100_000_000_000_000_000_000_000_000_000_000_000_000i128) by (nonlinear_arith)
            requires -10_000_000_000_000_000_000 <= r128 <= 10_000_000_000_000_000_000;
        assert(r128 * r128 >= 0) by (nonlinear_arith);
        let rr = r128 * r128;
        let near = |t: usize| -> (b: bool)
            requires
                self.wf(),
                who < self.all_turtles().len(),
                t < self.all_turtles().len(),
            ensures
                b == (dist2(self.geo(), self.all_turtles()[who as int].xcor as int, self.all_turtles()[who as int].ycor as int,
                    self.all_turtles()[t as int].xcor as int, self.all_turtles()[t as int].ycor as int) <= rr),
            { self.distance2(who, t) <= rr };
        let r = set.with(near);
        proof {
            let keep = choose|keep: Seq<bool>|
                keep.len() == set@.len() && (forall|i: int| 0 <= i < set@.len() ==> near.ensures((set@[i],), #[trigger] keep[i]))
                    && r@ == crate::agentset::select(set@, keep);
            assert forall|i: int| 0 <= i < set@.len() implies #[trigger] keep[i] == (dist2(self.geo(),
                    self.all_turtles()[who as int].xcor as int, self.all_turtles()[who as int].ycor as int,
                    self.all_turtles()[set@[i] as int].xcor as int, self.all_turtles()[set@[i] as int].ycor as int)
                    <= radius * radius) by {
                assert(near.ensures((set@[i],), keep[i]));
            }
        }
        r
    }

    /// The turtles within distance `radius` of turtle `who`, itself included.
    pub fn turtles_in_radius(&self, who: usize, radius: i64) -> (r: TurtleSet)
        requires
            self.wf(),
            who < self.all_turtles().len(),
        ensures
            r.wf(),
            forall|x: usize| #[trigger] r@.contains(x) <==> (x < self.all_turtles().len() && dist2(self.geo(),
                self.all_turtles()[who as int].xcor as int, self.all_turtles()[who as int].ycor as int,
                self.all_turtles()[x as int].xcor as int, self.all_turtles()[x as int].ycor as int) <= radius * radius),
    {
        let all = self.turtles();
        let r = self.in_radius(who, &all, radius);
        proof {
            let keep = choose|keep: Seq<bool>|
                keep.len() == all@.len() && (forall|i: int| 0 <= i < all@.len() ==> #[trigger] keep[i] == (dist2(self.geo(),
                    self.all_turtles()[who as int].xcor as int, self.all_turtles()[who as int].ycor as int,
                    self.all_turtles()[all@[i] as int].xcor as int, self.all_turtles()[all@[i] as int].ycor as int)
                    <= radius * radius)) && r@ == crate::agentset::select(all@, keep);
            assert forall|x: usize| #[trigger] r@.contains(x) <==> (x < self.all_turtles().len() && dist2(self.geo(),
                self.all_turtles()[who as int].xcor as int, self.all_turtles()[who as int].ycor as int,
                self.all_turtles()[x as int].xcor as int, self.all_turtles()[x as int].ycor as int) <= radius * radius) by {
                crate::agentset::lemma_select_contains(all@, keep, x);
                if x < self.all_turtles().len() {
                    assert(all@[x as int] == x);
                    assert(keep[x as int] == (dist2(self.geo(),
                        self.all_turtles()[who as int].xcor as int, self.all_turtles()[who as int].ycor as int,
                        self.all_turtles()[x as int].xcor as int, self.all_turtles()[x as int].ycor as int) <= radius * radius));
                }
                if r@.contains(x) {
                    let i = choose|i: int| 0 <= i < all@.len() && all@[i] == x && #[trigger] keep[i];
                    assert(all@[i] == i);
                }
            }
        }
        r
    }

    /// A uniformly random x coordinate inside the world.
    pub fn random_xcor(&self) -> (r: i64)
        requires
            self.wf(),
        ensures
            self.geo().x_lo() <= r < self.geo().x_hi(),
    {
        proof { self.geometry.lemma_extents(); }
        random_i64(&self.rng, self.geometry.x_min(), self.geometry.x_max())
    }

    /// A uniformly random y coordinate inside the world.
    pub fn random_ycor(&self) -> (r: i64)
        requires
            self.wf(),
        ensures
            self.geo().y_lo() <= r < self.geo().y_hi(),
    {
        proof { self.geometry.lemma_extents(); }
        random_i64(&self.rng, self.geometry.y_min(), self.geometry.y_max())
    }

    /// A uniformly random patch column coordinate.
    pub fn random_pxcor(&self) -> (r: i64)
        requires
            self.wf(),
        ensures
            self.geo().min_px() <= r <= self.geo().max_pxcor,
    {
        random_i64(&self.rng, self.geometry.min_pxcor(), self.geometry.max_pxcor + 1)
    }

    /// A uniformly random patch row coordinate.
    pub fn random_pycor(&self) -> (r: i64)
        requires
            self.wf(),
        ensures
            self.geo().min_py() <= r <= self.geo().max_pycor,
    {
        random_i64(&self.rng, self.geometry.min_pycor(), self.geometry.max_pycor + 1)
    }

    /// Gives turtle `who` a uniformly random heading.
    pub fn random_heading(&mut self, who: usize)
        requires
            old(self).wf(),
            who < old(self).all_turtles().len(),
        ensures
            final(self).wf(),
            final(self).all_turtles().len() == old(self).all_turtles().len(),
            0 <= final(self).all_turtles()[who as int].heading < FULL_TURN,
            forall|t: int| 0 <= t < old(self).all_turtles().len() && t != who ==> #[trigger] final(self).all_turtles()[t]
                == old(self).all_turtles()[t],
    {
        let h = random_i64(&self.rng, 0, FULL_TURN);
        self.set_heading(who, h);
    }
}

impl<V> World<V> {
    /// Identities are dense: turtle `t` has identity `t`, so the identities
    /// are unique and are exactly `0 .. count`.
    pub proof fn lemma_identities_dense(&self)
        requires
            self.wf(),
        ensures
            forall|t: int| 0 <= t < self.all_turtles().len() ==> #[trigger] self.all_turtles()[t].who == t,
    {
        assert forall|t: int| 0 <= t < self.all_turtles().len() implies #[trigger] self.all_turtles()[t].who == t by {
            assert(turtle_ok(self.geo(), self.all_turtles(), t));
        }
    }

    /// A turtle is a resident of the patch under its position and of no
    /// other patch.
    pub proof fn lemma_residency(&self, t: int)
        requires
            self.wf(),
            0 <= t < self.all_turtles().len(),
        ensures
            0 <= self.patch_of(t) < self.all_patches().len(),
            self.all_patches()[self.patch_of(t)].turtles_on@.contains(t as usize),
            forall|p: int| 0 <= p < self.all_patches().len() && p != self.patch_of(t) ==>
                !(#[trigger] self.all_patches()[p]).turtles_on@.contains(t as usize),
    {
        let g = self.geo();
        let u = self.all_turtles()[t];
        assert(turtle_ok(g, self.all_turtles(), t));
        g.lemma_sizes();
        let c = (g.column_at(u.xcor as int), g.row_at(u.ycor as int));
        g.lemma_index(c);
        assert(self.all_patches()[self.patch_of(t)].turtles_on@.contains(t as usize) <==> (self.patch_of(t) == self.patch_of(t)));
        assert forall|p: int| 0 <= p < self.all_patches().len() && p != self.patch_of(t) implies
            !(#[trigger] self.all_patches()[p]).turtles_on@.contains(t as usize) by {
            assert(self.all_patches()[p].turtles_on@.contains(t as usize) <==> (self.patch_of(t) == p));
        }
    }

    /// Both link graphs have exactly one node per turtle, so their node
    /// index sets agree.
    pub proof fn lemma_graph_parity(&self)
        requires
            self.wf(),
        ensures
            ug_nodes(self.ugraph()) == dg_nodes(self.dgraph()),
            ug_nodes(self.ugraph()) == self.all_turtles().len(),
    {
    }

    /// On a bounded world of at least two columns and two rows, a corner
    /// patch has three neighbours and two four-neighbours, another border
    /// patch five and three, an interior patch eight and four.
    pub proof fn lemma_bounded_neighbor_counts(&self, p: int)
        requires
            self.wf(),
            !self.geo().is_periodic,
            self.geo().width() >= 2,
            self.geo().height() >= 2,
            0 <= p < self.all_patches().len(),
        ensures
            ({
                let g = self.geo();
                let c = g.cell_of(p);
                let n8 = self.all_patches()[p].neighbors@.len();
                let n4 = self.all_patches()[p].neighbors4@.len();
                &&& g.on_x_border(c) && g.on_y_border(c) ==> n8 == 3 && n4 == 2
                &&& g.on_x_border(c) != g.on_y_border(c) ==> n8 == 5 && n4 == 3
                &&& !g.on_x_border(c) && !g.on_y_border(c) ==> n8 == 8 && n4 == 4
            }),
    {
        let g = self.geo();
        assert(patch_ok(g, self.all_patches(), p));
        g.lemma_cell_of(p);
        g.lemma_bounded_neighbor_counts(g.cell_of(p));
    }

    /// On a periodic world, if `q` is among the neighbours (or the four
    /// neighbours) of `p`, then `p` is among those of `q`.
    pub proof fn lemma_neighbors_symmetric(&self, p: int, q: int)
        requires
            self.wf(),
            self.geo().is_periodic,
            0 <= p < self.all_patches().len(),
            0 <= q < self.all_patches().len(),
        ensures
            self.all_patches()[p].neighbors@.contains(q as usize) ==> self.all_patches()[q].neighbors@.contains(p as usize),
            self.all_patches()[p].neighbors4@.contains(q as usize) ==> self.all_patches()[q].neighbors4@.contains(p as usize),
    {
        let g = self.geo();
        assert(patch_ok(g, self.all_patches(), p));
        assert(patch_ok(g, self.all_patches(), q));
        g.lemma_cell_of(p);
        g.lemma_cell_of(q);
        g.lemma_periodic_symmetry(g.cell_of(p), g.cell_of(q));
    }
}

impl<V> World<V> {
    /// Index of the patch turtle `who` stands on.
    pub fn patch_here(&self, who: usize) -> (r: usize)
        requires
            self.wf(),
            who < self.all_turtles().len(),
        ensures
            r == self.patch_of(who as int),
            r < self.all_patches().len(),
    {
        proof {
            self.geometry.lemma_extents();
            assert(turtle_ok(self.geo(), self.all_turtles(), who as int));
        }
        self.geometry.patch_index_at(self.turtles[who].xcor, self.turtles[who].ycor)
    }

    /// The turtles on the patch turtle `who` stands on, itself included.
    pub fn turtles_here(&self, who: usize) -> (r: TurtleSet)
        requires
            self.wf(),
            who < self.all_turtles().len(),
        ensures
            r.wf(),
            forall|x: usize| #[trigger] r@.contains(x) <==> (x < self.all_turtles().len() && self.patch_of(x as int)
                == self.patch_of(who as int)),
    {
        let p = self.patch_here(who);
        assert(patch_ok(self.geo(), self.all_patches(), p as int));
        self.patches[p].turtles_on.duplicate()
    }

    /// Sends turtle `who` to the origin.
    pub fn home(&mut self, who: usize)
        requires
            old(self).wf(),
            who < old(self).all_turtles().len(),
        ensures
            final(self).wf(),
            final(self).all_turtles().len() == old(self).all_turtles().len(),
            final(self).all_turtles()[who as int].xcor == 0,
            final(self).all_turtles()[who as int].ycor == 0,
            forall|t: int| 0 <= t < old(self).all_turtles().len() && t != who ==> #[trigger] final(self).all_turtles()[t]
                == old(self).all_turtles()[t],
    {
        proof {
            self.geometry.lemma_extents();
            crate::space::lemma_wrap_inside(0, self.geo().x_lo(), self.geo().x_hi());
            crate::space::lemma_wrap_inside(0, self.geo().y_lo(), self.geo().y_hi());
        }
        self.setxy(who, 0, 0);
    }

    /// Moves turtle `who` to where turtle `other` stands.
    pub fn move_to_turtle(&mut self, who: usize, other: usize)
        requires
            old(self).wf(),
            who < old(self).all_turtles().len(),
            other < old(self).all_turtles().len(),
        ensures
            final(self).wf(),
            final(self).all_turtles().len() == old(self).all_turtles().len(),
            final(self).all_turtles()[who as int].xcor == old(self).all_turtles()[other as int].xcor,
            final(self).all_turtles()[who as int].ycor == old(self).all_turtles()[other as int].ycor,
            forall|t: int| 0 <= t < old(self).all_turtles().len() && t != who ==> #[trigger] final(self).all_turtles()[t]
                == old(self).all_turtles()[t],
    {
        assert(turtle_ok(self.geo(), self.all_turtles(), other as int));
        let x = self.turtles[other].xcor;
        let y = self.turtles[other].ycor;
        self.place(who, x, y);
    }

    /// Links turtle `a` with every member of `others`, undirected, in order.
    pub fn create_links_with(&mut self, a: usize, others: &TurtleSet)
        requires
            old(self).wf(),
            a < old(self).all_turtles().len(),
            forall|i: int| 0 <= i < others@.len() ==> #[trigger] others@[i] < old(self).all_turtles().len(),
        ensures
            final(self).wf(),
            final(self).all_turtles() == old(self).all_turtles(),
            ug_edges(final(self).ugraph()) == ug_edges(old(self).ugraph()) + others@.map_values(|o: usize| (a, o)),
    {
        let n = others.count();
        let mut i: usize = 0;
        while i < n
            invariant
                i <= n,
                n == others@.len(),
                self.wf(),
                a < self.all_turtles().len(),
                self.all_turtles() == old(self).all_turtles(),
                forall|i: int| 0 <= i < others@.len() ==> #[trigger] others@[i] < old(self).all_turtles().len(),
                ug_edges(self.ugraph()) == ug_edges(old(self).ugraph()) + others@.subrange(0, i as int).map_values(|o: usize| (a, o)),
            decreases n - i,
        {
            let o = others.nth(i);
            self.create_link_with(a, o);
            assert(others@.subrange(0, i as int + 1).map_values(|o: usize| (a, o))
                =~= others@.subrange(0, i as int).map_values(|o: usize| (a, o)).push((a, o)));
            i = i + 1;
        }
        assert(others@.subrange(0, i as int) =~= others@);
    }

    /// Links turtle `a` to every member of `others`, directed away from `a`.
    pub fn create_links_to(&mut self, a: usize, others: &TurtleSet)
        requires
            old(self).wf(),
            a < old(self).all_turtles().len(),
            forall|i: int| 0 <= i < others@.len() ==> #[trigger] others@[i] < old(self).all_turtles().len(),
        ensures
            final(self).wf(),
            final(self).all_turtles() == old(self).all_turtles(),
            dg_edges(final(self).dgraph()) == dg_edges(old(self).dgraph()) + others@.map_values(|o: usize| (a, o)),
    {
        let n = others.count();
        let mut i: usize = 0;
        while i < n
            invariant
                i <= n,
                n == others@.len(),
                self.wf(),
                a < self.all_turtles().len(),
                self.all_turtles() == old(self).all_turtles(),
                forall|i: int| 0 <= i < others@.len() ==> #[trigger] others@[i] < old(self).all_turtles().len(),
                dg_edges(self.dgraph()) == dg_edges(old(self).dgraph()) + others@.subrange(0, i as int).map_values(|o: usize| (a, o)),
            decreases n - i,
        {
            let o = others.nth(i);
            self.create_link_to(a, o);
            assert(others@.subrange(0, i as int + 1).map_values(|o: usize| (a, o))
                =~= others@.subrange(0, i as int).map_values(|o: usize| (a, o)).push((a, o)));
            i = i + 1;
        }
        assert(others@.subrange(0, i as int) =~= others@);
    }

    /// Links every member of `others` to turtle `a`, directed towards `a`.
    pub fn create_links_from(&mut self, a: usize, others: &TurtleSet)
        requires
            old(self).wf(),
            a < old(self).all_turtles().len(),
            forall|i: int| 0 <= i < others@.len() ==> #[trigger] others@[i] < old(self).all_turtles().len(),
        ensures
            final(self).wf(),
            final(self).all_turtles() == old(self).all_turtles(),
            dg_edges(final(self).dgraph()) == dg_edges(old(self).dgraph()) + others@.map_values(|o: usize| (o, a)),
    {
        let n = others.count();
        let mut i: usize = 0;
        while i < n
            invariant
                i <= n,
                n == others@.len(),
                self.wf(),
                a < self.all_turtles().len(),
                self.all_turtles() == old(self).all_turtles(),
                forall|i: int| 0 <= i < others@.len() ==> #[trigger] others@[i] < old(self).all_turtles().len(),
                dg_edges(self.dgraph()) == dg_edges(old(self).dgraph()) + others@.subrange(0, i as int).map_values(|o: usize| (o, a)),
            decreases n - i,
        {
            let o = others.nth(i);
            self.create_link_from(a, o);
            assert(others@.subrange(0, i as int + 1).map_values(|o: usize| (o, a))
                =~= others@.subrange(0, i as int).map_values(|o: usize| (o, a)).push((o, a)));
            i = i + 1;
        }
        assert(others@.subrange(0, i as int) =~= others@);
    }
}

/// Some link of the world has identity `id`.
pub open spec fn link_exists(ug: Seq<(usize, usize)>, dg: Seq<(usize, usize)>, id: LinkId) -> bool {
    if id.directed {
        dg.contains((id.from, id.to))
    } else {
        ug.contains((id.from, id.to))
    }
}

impl<V> World<V> {
    /// Declares variable `key` on link `id`, set to `init`.
    pub fn link_own(&mut self, id: LinkId, key: &str, init: V)
        requires
            old(self).wf(),
            link_exists(ug_edges(old(self).ugraph()), dg_edges(old(self).dgraph()), id),
        ensures
            final(self).wf(),
            final(self).all_turtles() == old(self).all_turtles(),
            final(self).all_patches() == old(self).all_patches(),
            final(self).ugraph() == old(self).ugraph(),
            final(self).dgraph() == old(self).dgraph(),
            final(self).link_stores().stores().dom() == old(self).link_stores().stores().dom().insert(id),
            final(self).link_stores().stores()[id].vars() == if old(self).link_stores().stores().contains_key(id) {
                old(self).link_stores().stores()[id].vars().insert(key@, init)
            } else {
                Map::<Seq<char>, V>::empty().insert(key@, init)
            },
            forall|o: LinkId| o != id && #[trigger] old(self).link_stores().stores().contains_key(o)
                ==> final(self).link_stores().stores()[o] == old(self).link_stores().stores()[o],
    {
        self.link_vars.own(id, key, init);
        proof {
            let w0 = *old(self);
            assert forall|i: int| 0 <= i < self.all_patches().len() implies #[trigger] patch_ok(self.geo(), self.all_patches(), i) by {
                assert(patch_ok(w0.geo(), w0.all_patches(), i));
            }
            assert forall|i: int| 0 <= i < self.all_turtles().len() implies #[trigger] turtle_ok(self.geo(), self.all_turtles(), i) by {
                assert(turtle_ok(w0.geo(), w0.all_turtles(), i));
            }
        }
    }

    /// Changes the value of declared variable `key` of link `id`.
    pub fn link_set(&mut self, id: LinkId, key: &str, value: V)
        requires
            old(self).wf(),
            old(self).link_stores().stores().contains_key(id),
            old(self).link_stores().stores()[id].vars().contains_key(key@),
        ensures
            final(self).wf(),
            final(self).all_turtles() == old(self).all_turtles(),
            final(self).all_patches() == old(self).all_patches(),
            final(self).link_stores().stores().dom() == old(self).link_stores().stores().dom(),
            final(self).link_stores().stores()[id].vars() == old(self).link_stores().stores()[id].vars().insert(key@, value),
            forall|o: LinkId| o != id && #[trigger] old(self).link_stores().stores().contains_key(o)
                ==> final(self).link_stores().stores()[o] == old(self).link_stores().stores()[o],
    {
        self.link_vars.own(id, key, value);
        proof {
            let w0 = *old(self);
            assert(final(self).link_stores().stores().dom() =~= old(self).link_stores().stores().dom());
            assert forall|i: int| 0 <= i < self.all_patches().len() implies #[trigger] patch_ok(self.geo(), self.all_patches(), i) by {
                assert(patch_ok(w0.geo(), w0.all_patches(), i));
            }
            assert forall|i: int| 0 <= i < self.all_turtles().len() implies #[trigger] turtle_ok(self.geo(), self.all_turtles(), i) by {
                assert(turtle_ok(w0.geo(), w0.all_turtles(), i));
            }
        }
    }

    /// Whether link `id` has variables declared.
    pub fn link_has_vars(&self, id: LinkId) -> (r: bool)
        requires
            self.wf(),
        ensures
            r == self.link_stores().stores().contains_key(id),
    {
        self.link_vars.has(id)
    }

    /// The value of declared variable `key` of link `id`.
    pub fn link_get(&self, id: LinkId, key: &str) -> (r: &V)
        requires
            self.wf(),
            self.link_stores().stores().contains_key(id),
            self.link_stores().stores()[id].vars().contains_key(key@),
        ensures
            *r == self.link_stores().stores()[id].vars()[key@],
    {
        self.link_vars.get(id, key)
    }
}

} // verus!
