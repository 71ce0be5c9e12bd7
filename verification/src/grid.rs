//! The mathematics of the solver: grids of cells in superposition, the
//! neighbor relation of a rectangular grid, and what it means for a grid to
//! be consistent with a table of adjacency rules.
use vstd::prelude::*;
use vstd::arithmetic::div_mod::{lemma_fundamental_div_mod, lemma_fundamental_div_mod_converse};
use vstd::arithmetic::mul::lemma_mul_is_commutative;
use vstd::arithmetic::power2::{lemma_pow2_pos, lemma_pow2_strictly_increases, lemma_pow2_unfold, pow2};
use crate::sums::{count, lemma_sum_le, lemma_sum_lt, lemma_within, sum, within};
use crate::Direction;

verus! {

/// One position of the grid: the tiles still possible there, as a mask over
/// the declared tiles in ascending order of their identifiers, and whether a
/// choice has been made.
#[derive(Debug, Clone)]
pub struct Cell {
    pub collapsed: bool,
    pub possibilities: Vec<bool>,
}

/// A cell as a value: its flag and its mask.
pub struct CellView {
    pub collapsed: bool,
    pub mask: Seq<bool>,
}

impl View for Cell {
    type V = CellView;

    open spec fn view(&self) -> CellView {
        CellView { collapsed: self.collapsed, mask: self.possibilities@ }
    }
}

/// A grid as a sequence of cell values, row by row.
pub open spec fn cells(grid: Seq<Cell>) -> Seq<CellView> {
    Seq::new(grid.len(), |p: int| grid[p]@)
}

/// What a solve is set in: the grid's dimensions, the weight of each tile,
/// and the adjacency table. Row `4 * a + k` of the table is the mask of the
/// tiles allowed next to tile `a` on the side with ordinal `k`.
pub struct Setting {
    pub width: int,
    pub height: int,
    pub weights: Seq<u32>,
    pub allowed: Seq<Seq<bool>>,
}

impl Setting {
    /// Number of declared tiles.
    pub open spec fn tiles(self) -> int {
        self.weights.len() as int
    }

    /// Number of cells.
    pub open spec fn cells(self) -> int {
        self.width * self.height
    }

    /// Dimensions are within bounds and the table has a row of the right
    /// length for each tile and direction.
    pub open spec fn wf(self) -> bool {
        &&& 1 <= self.width <= 500
        &&& 1 <= self.height <= 500
        &&& self.allowed.len() == 4 * self.tiles()
        &&& forall|r: int| 0 <= r < self.allowed.len() ==> (#[trigger] self.allowed[r]).len()
            == self.tiles()
    }

    /// Tile `b` may stand next to tile `a` on the side `d`.
    pub open spec fn permits(self, a: int, d: Direction, b: int) -> bool {
        self.allowed[4 * a + d.spec_ordinal()][b]
    }

    /// The cell next to `p` on the side `d`, if the grid has one.
    pub open spec fn neighbor(self, p: int, d: Direction) -> Option<int> {
        let x = p % self.width;
        let y = p / self.width;
        match d {
            Direction::Up => if y > 0 {
                Some(p - self.width)
            } else {
                None
            },
            Direction::Right => if x + 1 < self.width {
                Some(p + 1)
            } else {
                None
            },
            Direction::Down => if y + 1 < self.height {
                Some(p + self.width)
            } else {
                None
            },
            Direction::Left => if x > 0 {
                Some(p - 1)
            } else {
                None
            },
        }
    }

    /// The neighbor of `p` on the side `d` with that side, if there is one.
    pub open spec fn side(self, p: int, d: Direction) -> Seq<(int, Direction)> {
        match self.neighbor(p, d) {
            Some(q) => seq![(q, d)],
            None => Seq::empty(),
        }
    }

    /// The neighbors of `p`, each with the side it is on, in the order up,
    /// right, down, left.
    pub open spec fn around(self, p: int) -> Seq<(int, Direction)> {
        self.side(p, Direction::Up) + self.side(p, Direction::Right) + self.side(
            p,
            Direction::Down,
        ) + self.side(p, Direction::Left)
    }

    /// Some tile of `mask` permits `b` on its side `d`.
    pub open spec fn supported(self, mask: Seq<bool>, d: Direction, b: int) -> bool {
        exists|a: int| 0 <= a < self.tiles() && mask[a] && #[trigger] self.permits(a, d, b)
    }

    /// The grid has a cell for each position and a mask entry for each tile.
    pub open spec fn shaped(self, g: Seq<CellView>) -> bool {
        &&& g.len() == self.cells()
        &&& forall|p: int| 0 <= p < g.len() ==> (#[trigger] g[p]).mask.len() == self.tiles()
    }

    /// What consistency asks of tile `t` at cell `p` and tile `b` at the
    /// neighbor of `p` on the side `d`, where `p` is collapsed: `t` permits
    /// `b` there, or the neighbor is collapsed too and `b` permits `t` on the
    /// opposite side.
    pub open spec fn link_ok(self, g: Seq<CellView>, p: int, d: Direction, t: int, b: int) -> bool {
        (0 <= p < self.cells() && 0 <= t < self.tiles() && 0 <= b < self.tiles() && self.neighbor(
            p,
            d,
        ) is Some && g[p].collapsed && g[p].mask[t] && g[self.neighbor(p, d)->0].mask[b])
            ==> (self.permits(t, d, b) || (g[self.neighbor(p, d)->0].collapsed && self.permits(
            b,
            d.spec_opposite(),
            t,
        )))
    }

    /// Every collapsed cell holds one tile only and is in order with each of
    /// its neighbors.
    pub open spec fn consistent(self, g: Seq<CellView>) -> bool {
        &&& self.shaped(g)
        &&& forall|p: int| 0 <= p < g.len() && (#[trigger] g[p]).collapsed ==> decided(g[p].mask)
        &&& forall|p: int, d: Direction, t: int, b: int| #[trigger] self.link_ok(g, p, d, t, b)
    }

    /// What arc consistency asks of tile `b` at the neighbor of `p` on the
    /// side `d`, where that neighbor is not collapsed: some tile still
    /// possible at `p` permits it.
    pub open spec fn arc_ok(self, g: Seq<CellView>, p: int, d: Direction, b: int) -> bool {
        (0 <= b < self.tiles() && self.neighbor(p, d) is Some && !g[self.neighbor(
            p,
            d,
        )->0].collapsed && g[self.neighbor(p, d)->0].mask[b]) ==> self.supported(g[p].mask, d, b)
    }

    /// Every tile possible at an uncollapsed neighbor of `p` is permitted by
    /// a tile possible at `p`.
    pub open spec fn settled(self, g: Seq<CellView>, p: int) -> bool {
        forall|d: Direction, b: int| #[trigger] self.arc_ok(g, p, d, b)
    }

    /// An assignment of one tile to each cell.
    pub open spec fn assignment(self, a: Seq<int>) -> bool {
        &&& a.len() == self.cells()
        &&& forall|p: int| 0 <= p < a.len() ==> 0 <= #[trigger] a[p] < self.tiles()
    }

    /// The assignment obeys the rule of every cell toward each of its
    /// neighbors.
    pub open spec fn strict(self, a: Seq<int>) -> bool {
        &&& self.assignment(a)
        &&& forall|p: int, d: Direction|
            0 <= p < self.cells() && (#[trigger] self.neighbor(p, d)) is Some ==> self.permits(
                a[p],
                d,
                a[self.neighbor(p, d)->0],
            )
    }

    /// Of every two adjacent cells, at least one obeys its rule toward the
    /// other.
    pub open spec fn one_way(self, a: Seq<int>) -> bool {
        &&& self.assignment(a)
        &&& forall|p: int, d: Direction|
            0 <= p < self.cells() && (#[trigger] self.neighbor(p, d)) is Some ==> self.permits(
                a[p],
                d,
                a[self.neighbor(p, d)->0],
            ) || self.permits(a[self.neighbor(p, d)->0], d.spec_opposite(), a[p])
    }

    /// The assignment picks at each cell a tile that is possible there.
    pub open spec fn fits(self, a: Seq<int>, g: Seq<CellView>) -> bool {
        &&& self.assignment(a)
        &&& forall|p: int| 0 <= p < self.cells() ==> (#[trigger] g[p]).mask[a[p]]
    }

    /// Every cell is collapsed and holds the tile that the assignment gives
    /// it, and no other.
    pub open spec fn shows(self, g: Seq<CellView>, a: Seq<int>) -> bool {
        &&& self.assignment(a)
        &&& self.shaped(g)
        &&& forall|p: int, t: int|
            0 <= p < self.cells() && 0 <= t < self.tiles() ==> (#[trigger] g[p]).collapsed && (
            #[trigger] g[p].mask[t] <==> t == a[p])
    }
}

/// The mask selects one tile only.
pub open spec fn decided(mask: Seq<bool>) -> bool {
    exists|t: int| selects_only(mask, t)
}

/// The mask selects the tile `t` and no other.
pub open spec fn selects_only(mask: Seq<bool>, t: int) -> bool {
    &&& 0 <= t < mask.len()
    &&& forall|u: int| 0 <= u < mask.len() ==> (mask[u] <==> u == t)
}

/// `g1` comes from `g0` by striking out possibilities of uncollapsed cells.
pub open spec fn narrowed(g0: Seq<CellView>, g1: Seq<CellView>) -> bool {
    &&& g0.len() == g1.len()
    &&& forall|p: int|
        0 <= p < g0.len() ==> {
            &&& (#[trigger] g1[p]).collapsed == g0[p].collapsed
            &&& within(g1[p].mask, g0[p].mask)
            &&& g0[p].collapsed ==> g1[p].mask == g0[p].mask
        }
}

/// The mask of length `n` that selects `t` alone.
pub open spec fn only(n: int, t: int) -> Seq<bool> {
    Seq::new(n as nat, |i: int| i == t)
}

/// What is left to decide at a cell: its possibilities, and one more while it
/// is not collapsed.
pub open spec fn cell_rank(c: CellView) -> nat {
    count(c.mask) + if c.collapsed {
        0nat
    } else {
        1nat
    }
}

/// The rank of each cell of a grid.
pub open spec fn ranks(g: Seq<CellView>) -> Seq<nat> {
    Seq::new(g.len(), |p: int| cell_rank(g[p]))
}

/// What is left to decide in a grid.
pub open spec fn rank(g: Seq<CellView>) -> nat {
    sum(ranks(g))
}

/// In a grid of `width` columns and `height` rows, a cell's column and row
/// are within bounds and give its position back.
pub proof fn lemma_coords(width: int, height: int, p: int)
    requires
        0 < width,
        0 <= p < width * height,
    ensures
        0 <= p % width < width,
        0 <= p / width < height,
        p == (p / width) * width + p % width,
{
    lemma_fundamental_div_mod(p, width);
    lemma_mul_is_commutative(width, p / width);
    let y = p / width;
    assert(0 <= y < height) by (nonlinear_arith)
        requires
            0 < width,
            0 <= p < width * height,
            p == y * width + p % width,
            0 <= p % width < width,
    ;
}

/// The cell in column `x` of row `y` has a position within the grid, and its
/// column and row are `x` and `y`.
pub proof fn lemma_position(width: int, height: int, x: int, y: int)
    requires
        0 <= x < width,
        0 <= y < height,
    ensures
        0 <= y * width + x < width * height,
        (y * width + x) % width == x,
        (y * width + x) / width == y,
{
    lemma_fundamental_div_mod_converse(y * width + x, width, y, x);
    assert(0 <= y * width + x < width * height) by (nonlinear_arith)
        requires
            0 <= x < width,
            0 <= y < height,
    ;
}

impl Setting {
    /// A neighbor is a cell of the grid other than the cell itself, and the
    /// cell is its neighbor on the opposite side.
    pub proof fn lemma_neighbor(self, p: int, d: Direction)
        requires
            self.wf(),
            0 <= p < self.cells(),
            self.neighbor(p, d) is Some,
        ensures
            0 <= self.neighbor(p, d)->0 < self.cells(),
            self.neighbor(p, d)->0 != p,
            self.neighbor(self.neighbor(p, d)->0, d.spec_opposite()) == Some(p),
    {
        let w = self.width;
        let h = self.height;
        lemma_coords(w, h, p);
        let x = p % w;
        let y = p / w;
        match d {
            Direction::Up => {
                lemma_position(w, h, x, y - 1);
                assert((y - 1) * w + x == p - w) by (nonlinear_arith)
                    requires
                        p == y * w + x,
                ;
            },
            Direction::Right => {
                lemma_position(w, h, x + 1, y);
            },
            Direction::Down => {
                lemma_position(w, h, x, y + 1);
                assert((y + 1) * w + x == p + w) by (nonlinear_arith)
                    requires
                        p == y * w + x,
                ;
            },
            Direction::Left => {
                lemma_position(w, h, x - 1, y);
            },
        }
    }

    /// Striking out possibilities keeps a grid consistent.
    pub proof fn lemma_narrowed_consistent(self, g0: Seq<CellView>, g1: Seq<CellView>)
        requires
            self.wf(),
            self.consistent(g0),
            narrowed(g0, g1),
        ensures
            self.consistent(g1),
    {
        assert forall|p: int| 0 <= p < g1.len() && (#[trigger] g1[p]).collapsed implies decided(
            g1[p].mask,
        ) by {
            assert(g0[p].collapsed);
        }
        assert forall|p: int, d: Direction, t: int, b: int| #[trigger]
            self.link_ok(g1, p, d, t, b) by {
            if 0 <= p < self.cells() && self.neighbor(p, d) is Some {
                self.lemma_neighbor(p, d);
                assert(self.link_ok(g0, p, d, t, b));
            }
        }
    }

    /// Collapsing an uncollapsed cell `p` of a consistent grid to a tile `t`
    /// that was possible there, and then striking out possibilities until `p`
    /// is settled, gives a consistent grid.
    pub proof fn lemma_collapse_consistent(
        self,
        g0: Seq<CellView>,
        g1: Seq<CellView>,
        g2: Seq<CellView>,
        p: int,
        t: int,
    )
        requires
            self.wf(),
            self.consistent(g0),
            0 <= p < self.cells(),
            0 <= t < self.tiles(),
            !g0[p].collapsed,
            g0[p].mask[t],
            g1 == g0.update(p, CellView { collapsed: true, mask: only(self.tiles(), t) }),
            narrowed(g1, g2),
            self.settled(g2, p),
        ensures
            self.consistent(g2),
    {
        assert forall|c: int| 0 <= c < g2.len() && (#[trigger] g2[c]).collapsed implies decided(
            g2[c].mask,
        ) by {
            assert(g1[c].collapsed);
            if c == p {
                assert(selects_only(only(self.tiles(), t), t));
            } else {
                assert(g0[c].collapsed);
            }
        }
        assert forall|c: int, d: Direction, u: int, b: int| #[trigger]
            self.link_ok(g2, c, d, u, b) by {
            if 0 <= c < self.cells() && 0 <= u < self.tiles() && 0 <= b < self.tiles()
                && self.neighbor(c, d) is Some && g2[c].collapsed && g2[c].mask[u]
                && g2[self.neighbor(c, d)->0].mask[b] {
                let q = self.neighbor(c, d)->0;
                self.lemma_neighbor(c, d);
                assert(g1[c].collapsed);
                assert(g1[q].mask[b]);
                if c == p {
                    assert(u == t);
                    if g2[q].collapsed {
                        assert(self.link_ok(g0, q, d.spec_opposite(), b, t));
                    } else {
                        assert(self.arc_ok(g2, p, d, b));
                    }
                } else {
                    assert(self.link_ok(g0, c, d, u, b));
                }
            }
        }
    }

    /// A grid that comes from another by striking out possibilities has no
    /// higher rank.
    pub proof fn lemma_narrowed_rank(g0: Seq<CellView>, g1: Seq<CellView>)
        requires
            narrowed(g0, g1),
        ensures
            rank(g1) <= rank(g0),
    {
        assert forall|p: int| 0 <= p < g0.len() implies ranks(g1)[p] <= ranks(g0)[p] by {
            lemma_within(g1[p].mask, g0[p].mask, Seq::empty());
        }
        lemma_sum_le(ranks(g1), ranks(g0));
    }

    /// A grid that is nowhere of higher rank than another, and of lower rank
    /// at `p`, has a lower rank.
    pub proof fn lemma_rank_drop(g0: Seq<CellView>, g1: Seq<CellView>, p: int)
        requires
            g0.len() == g1.len(),
            forall|c: int| 0 <= c < g0.len() ==> cell_rank(#[trigger] g1[c]) <= cell_rank(g0[c]),
            0 <= p < g0.len(),
            cell_rank(g1[p]) < cell_rank(g0[p]),
        ensures
            rank(g1) < rank(g0),
    {
        lemma_sum_lt(ranks(g1), ranks(g0), p);
    }
}

/// The mask selects nothing.
pub open spec fn blank(mask: Seq<bool>) -> bool {
    forall|b: int| 0 <= b < mask.len() ==> !mask[b]
}

/// The cell `p` is at some position of the stack.
pub open spec fn pending(stack: Seq<usize>, p: int) -> bool {
    exists|i: int| 0 <= i < stack.len() && stack[i] as int == p
}

/// Striking out possibilities twice is striking out possibilities.
pub proof fn lemma_narrowed_twice(g0: Seq<CellView>, g1: Seq<CellView>, g2: Seq<CellView>)
    requires
        narrowed(g0, g1),
        narrowed(g1, g2),
    ensures
        narrowed(g0, g2),
{
    assert forall|p: int| 0 <= p < g0.len() implies (#[trigger] g2[p]).collapsed == g0[p].collapsed
        && within(g2[p].mask, g0[p].mask) && (g0[p].collapsed ==> g2[p].mask == g0[p].mask) by {
        assert(g1[p].collapsed == g0[p].collapsed);
        assert(within(g2[p].mask, g1[p].mask));
    }
}

impl Setting {
    /// Every assignment that obeys all rules and fits `g0` fits `g1` too: on
    /// the way from `g0` to `g1` no solution was lost.
    pub open spec fn keeps(self, g0: Seq<CellView>, g1: Seq<CellView>) -> bool {
        forall|a: Seq<int>| self.strict(a) && #[trigger] self.fits(a, g0) ==> self.fits(a, g1)
    }

    /// The tiles of `mask` that some tile of `source` permits on its side `d`.
    pub open spec fn restricted(self, mask: Seq<bool>, source: Seq<bool>, d: Direction) -> Seq<
        bool,
    > {
        Seq::new(mask.len(), |b: int| mask[b] && self.supported(source, d, b))
    }

    /// The grid after the possibilities of the neighbor of `p` on the side
    /// `d` were restricted to those that a tile possible at `p` permits.
    pub open spec fn after_restrict(self, g: Seq<CellView>, p: int, d: Direction) -> Seq<
        CellView,
    > {
        let q = self.neighbor(p, d)->0;
        g.update(
            q,
            CellView { collapsed: false, mask: self.restricted(g[q].mask, g[p].mask, d) },
        )
    }

    /// Restricting an uncollapsed neighbor strikes out possibilities, loses
    /// no solution, brings the cell in order with that neighbor, and lowers
    /// the rank unless it leaves the grid as it was.
    pub proof fn lemma_restrict(self, g: Seq<CellView>, p: int, d: Direction)
        requires
            self.wf(),
            self.shaped(g),
            0 <= p < self.cells(),
            self.neighbor(p, d) is Some,
            !g[self.neighbor(p, d)->0].collapsed,
        ensures
            self.shaped(self.after_restrict(g, p, d)),
            narrowed(g, self.after_restrict(g, p, d)),
            self.keeps(g, self.after_restrict(g, p, d)),
            forall|b: int| #[trigger] self.arc_ok(self.after_restrict(g, p, d), p, d, b),
            self.after_restrict(g, p, d)[self.neighbor(p, d)->0].mask != g[self.neighbor(
                p,
                d,
            )->0].mask ==> rank(self.after_restrict(g, p, d)) < rank(g),
            self.after_restrict(g, p, d)[self.neighbor(p, d)->0].mask == g[self.neighbor(
                p,
                d,
            )->0].mask ==> self.after_restrict(g, p, d) == g,
    {
        let q = self.neighbor(p, d)->0;
        let g2 = self.after_restrict(g, p, d);
        self.lemma_neighbor(p, d);
        assert(within(g2[q].mask, g[q].mask));
        assert(narrowed(g, g2));
        assert forall|a: Seq<int>| self.strict(a) && #[trigger] self.fits(a, g) implies self.fits(
            a,
            g2,
        ) by {
            assert forall|c: int| 0 <= c < self.cells() implies (#[trigger] g2[c]).mask[a[c]] by {
                assert(g[c].mask[a[c]]);
                if c == q {
                    assert(g[p].mask[a[p]]);
                    assert(self.permits(a[p], d, a[q]));
                }
            }
        }
        if g2[q].mask != g[q].mask {
            assert forall|c: int| 0 <= c < g.len() implies cell_rank(#[trigger] g2[c]) <= cell_rank(
                g[c],
            ) by {
                lemma_within(g2[c].mask, g[c].mask, Seq::empty());
            }
            lemma_within(g2[q].mask, g[q].mask, Seq::empty());
            Self::lemma_rank_drop(g, g2, q);
        } else {
            assert(g2[q] == g[q]);
            assert(g2 =~= g);
        }
    }

    /// A cell that is in order with its neighbor on one side stays so while
    /// possibilities of other cells are struck out.
    pub proof fn lemma_arc_kept(self, g0: Seq<CellView>, g1: Seq<CellView>, p: int, d: Direction)
        requires
            self.wf(),
            self.shaped(g0),
            0 <= p < self.cells(),
            narrowed(g0, g1),
            g1[p].mask == g0[p].mask,
            forall|b: int| #[trigger] self.arc_ok(g0, p, d, b),
        ensures
            forall|b: int| #[trigger] self.arc_ok(g1, p, d, b),
    {
        assert forall|b: int| #[trigger] self.arc_ok(g1, p, d, b) by {
            if self.neighbor(p, d) is Some {
                self.lemma_neighbor(p, d);
                assert(self.arc_ok(g0, p, d, b));
            }
        }
    }

    /// A settled cell stays settled while possibilities of other cells are
    /// struck out.
    pub proof fn lemma_settled_kept(self, g0: Seq<CellView>, g1: Seq<CellView>, p: int)
        requires
            self.wf(),
            self.shaped(g0),
            0 <= p < self.cells(),
            narrowed(g0, g1),
            g1[p].mask == g0[p].mask,
            self.settled(g0, p),
        ensures
            self.settled(g1, p),
    {
        assert forall|d: Direction, b: int| #[trigger] self.arc_ok(g1, p, d, b) by {
            assert forall|c: int| #[trigger] self.arc_ok(g0, p, d, c) by {}
            self.lemma_arc_kept(g0, g1, p, d);
        }
    }

    /// What propagation owes the cell `p`: if it is the start or has changed
    /// since the start, it waits on the stack, or it is settled and has a
    /// possibility left.
    pub open spec fn tended(
        self,
        init: Seq<CellView>,
        g: Seq<CellView>,
        stack: Seq<usize>,
        start: int,
        p: int,
    ) -> bool {
        (0 <= p < self.cells() && touched(init, g, start, p)) ==> (pending(stack, p) || (
        self.settled(g, p) && !blank(g[p].mask)))
    }

    /// `g` comes from `init` by striking out possibilities, and in it the
    /// start and every cell that lost a possibility are settled.
    pub open spec fn spread(self, init: Seq<CellView>, g: Seq<CellView>, start: int) -> bool {
        &&& self.shaped(g)
        &&& narrowed(init, g)
        &&& forall|p: int|
            0 <= p < self.cells() && #[trigger] touched(init, g, start, p) ==> self.settled(g, p)
    }

    /// The start and every cell that lost a possibility have one left.
    pub open spec fn alive(self, init: Seq<CellView>, g: Seq<CellView>, start: int) -> bool {
        forall|p: int|
            0 <= p < self.cells() && #[trigger] touched(init, g, start, p) ==> !blank(g[p].mask)
    }

    /// Restricting a neighbor of a touched cell strikes out nothing that a
    /// spread grid below the present one holds: the restricted grid is above
    /// it still.
    pub proof fn lemma_restrict_greatest(
        self,
        init: Seq<CellView>,
        g: Seq<CellView>,
        start: int,
        p: int,
        d: Direction,
        other: Seq<CellView>,
    )
        requires
            self.wf(),
            self.shaped(g),
            narrowed(init, g),
            0 <= p < self.cells(),
            self.neighbor(p, d) is Some,
            !g[self.neighbor(p, d)->0].collapsed,
            touched(init, g, start, p),
            self.spread(init, other, start),
            below(other, g),
        ensures
            below(other, self.after_restrict(g, p, d)),
    {
        let q = self.neighbor(p, d)->0;
        let g2 = self.after_restrict(g, p, d);
        self.lemma_neighbor(p, d);
        assert(within(other[p].mask, g[p].mask));
        lemma_touched_stays(init, g, other, start, p);
        assert(self.settled(other, p));
        assert forall|c: int| 0 <= c < other.len() implies within(
            (#[trigger] other[c]).mask,
            g2[c].mask,
        ) by {
            assert(within(other[c].mask, g[c].mask));
            if c == q {
                assert forall|b: int| 0 <= b < other[q].mask.len() && other[q].mask[b] implies g2[q].mask[b] by {
                    assert(self.arc_ok(other, p, d, b));
                    let a = choose|a: int|
                        0 <= a < self.tiles() && other[p].mask[a] && #[trigger] self.permits(
                            a,
                            d,
                            b,
                        );
                    assert(g[p].mask[a]);
                }
            }
        }
    }

    /// Where a touched cell of the present grid has no possibility left, no
    /// spread grid below it is alive.
    pub proof fn lemma_doomed(
        self,
        init: Seq<CellView>,
        g: Seq<CellView>,
        start: int,
        c: int,
        other: Seq<CellView>,
    )
        requires
            self.shaped(g),
            narrowed(init, g),
            0 <= c < self.cells(),
            touched(init, g, start, c),
            blank(g[c].mask),
            self.spread(init, other, start),
            below(other, g),
        ensures
            !self.alive(init, other, start),
    {
        assert(within(other[c].mask, g[c].mask));
        lemma_touched_stays(init, g, other, start, c);
        assert(blank(other[c].mask));
    }
}

/// The grid `g` is what propagation makes of the alternative of the decision
/// `t`: the greatest grid that comes from the alternative by striking out
/// possibilities and in which the decided cell and every cell that lost a
/// possibility are settled, each of them with a possibility left.
pub open spec fn landed(s: Setting, t: Trial, g: Seq<CellView>) -> bool {
    &&& narrowed(alternative(t), g)
    &&& !g[t.index].mask[t.tile]
    &&& s.spread(alternative(t), g, t.index)
    &&& s.alive(alternative(t), g, t.index)
    &&& forall|other: Seq<CellView>| #[trigger]
        s.spread(alternative(t), other, t.index) ==> below(other, g)
}

impl Setting {
    /// The decision `t` leaves no way open: in no grid that comes from its
    /// alternative by striking out possibilities, and in which the decided
    /// cell and every cell that lost a possibility are settled, has each of
    /// those cells a possibility left.
    pub open spec fn exhausted(self, t: Trial) -> bool {
        forall|other: Seq<CellView>| #[trigger]
            self.spread(alternative(t), other, t.index) ==> !self.alive(
                alternative(t),
                other,
                t.index,
            )
    }

    /// A decision whose alternative leaves the decided cell no possibility
    /// is exhausted.
    pub proof fn lemma_blank_exhausted(self, t: Trial)
        requires
            self.shaped(alternative(t)),
            0 <= t.index < self.cells(),
            blank(alternative(t)[t.index].mask),
        ensures
            self.exhausted(t),
    {
        let alt = alternative(t);
        assert forall|other: Seq<CellView>| #[trigger]
            self.spread(alt, other, t.index) implies !self.alive(alt, other, t.index) by {
            assert(below(other, alt));
            self.lemma_doomed(alt, alt, t.index, t.index, other);
        }
    }
}

/// The cell `p` is the start, or its possibilities are not those it has in
/// `init`.
pub open spec fn touched(init: Seq<CellView>, g: Seq<CellView>, start: int, p: int) -> bool {
    p == start || g[p].mask != init[p].mask
}

/// No cell of `g1` has a possibility that it lacks in `g2`.
pub open spec fn below(g1: Seq<CellView>, g2: Seq<CellView>) -> bool {
    &&& g1.len() == g2.len()
    &&& forall|p: int| 0 <= p < g1.len() ==> within((#[trigger] g1[p]).mask, g2[p].mask)
}

/// Two grids that both come from `init` by striking out possibilities, and
/// of which each is below the other, are the same grid: the greatest spread
/// grid is one grid only.
pub proof fn lemma_greatest_unique(init: Seq<CellView>, g1: Seq<CellView>, g2: Seq<CellView>)
    requires
        narrowed(init, g1),
        narrowed(init, g2),
        below(g1, g2),
        below(g2, g1),
    ensures
        g1 == g2,
{
    assert forall|p: int| 0 <= p < g1.len() implies g1[p] == g2[p] by {
        assert(within(g1[p].mask, g2[p].mask));
        assert(within(g2[p].mask, g1[p].mask));
        assert(g1[p].mask =~= g2[p].mask);
        assert(g1[p].collapsed == init[p].collapsed);
        assert(g2[p].collapsed == init[p].collapsed);
    }
    assert(g1 =~= g2);
}

/// What is below a grid is below every grid above that one.
pub proof fn lemma_below_twice(g0: Seq<CellView>, g1: Seq<CellView>, g2: Seq<CellView>)
    requires
        below(g0, g1),
        below(g1, g2),
    ensures
        below(g0, g2),
{
    assert forall|p: int| 0 <= p < g0.len() implies within((#[trigger] g0[p]).mask, g2[p].mask) by {
        assert(within(g0[p].mask, g1[p].mask));
        assert(within(g1[p].mask, g2[p].mask));
    }
}

/// A touched cell stays touched while possibilities are struck out, and a
/// cell that loses a possibility is touched.
pub proof fn lemma_touched_stays(
    init: Seq<CellView>,
    g0: Seq<CellView>,
    g1: Seq<CellView>,
    start: int,
    p: int,
)
    requires
        0 <= p < init.len(),
        narrowed(init, g0),
        within(g1[p].mask, g0[p].mask),
        touched(init, g0, start, p) || g1[p].mask != g0[p].mask,
    ensures
        touched(init, g1, start, p),
{
    if p != start && g1[p].mask == init[p].mask {
        assert(within(g0[p].mask, init[p].mask));
        assert(g0[p].mask =~= init[p].mask);
    }
}

/// A decision as a value: the grid before it, the cell that was collapsed,
/// and the tile that was tried there.
pub struct Trial {
    pub snapshot: Seq<CellView>,
    pub index: int,
    pub tile: int,
}

/// The grid to go back to when a decision has failed: the grid before it,
/// with the tried tile struck out at the decided cell.
pub open spec fn alternative(t: Trial) -> Seq<CellView> {
    t.snapshot.update(
        t.index,
        CellView { collapsed: false, mask: t.snapshot[t.index].mask.update(t.tile, false) },
    )
}

/// An upper bound on the steps that a search from a grid of rank `m` takes.
pub open spec fn budget(m: nat) -> nat {
    (pow2(m + 1) - 1) as nat
}

/// The steps that the alternatives of the open decisions may still take.
pub open spec fn debt(h: Seq<Trial>) -> nat
    decreases h.len(),
{
    if h.len() == 0 {
        0
    } else {
        debt(h.drop_last()) + budget(rank(alternative(h.last())))
    }
}

/// The budget is positive and grows with the rank; one rank up it is more
/// than double.
pub proof fn lemma_budget(a: nat, b: nat)
    ensures
        budget(a) >= 1,
        budget(a + 1) == 2 * budget(a) + 1,
        a <= b ==> budget(a) <= budget(b),
        a < b ==> budget(a) < budget(b),
{
    lemma_pow2_pos(a + 1);
    lemma_pow2_unfold(a + 2);
    lemma_pow2_unfold(a + 1);
    lemma_pow2_pos(a);
    if a < b {
        lemma_pow2_strictly_increases(a + 1, b + 1);
    }
}

/// A decision more adds the budget of its alternative to the debt.
pub proof fn lemma_debt_push(h: Seq<Trial>, t: Trial)
    ensures
        debt(h.push(t)) == debt(h) + budget(rank(alternative(t))),
{
    assert(h.push(t).drop_last() =~= h);
}

/// Two searches from grids of lower rank than `m` take fewer steps together
/// than the budget of `m`.
pub proof fn lemma_budget_split(a: nat, b: nat, m: nat)
    requires
        a < m,
        b < m,
    ensures
        budget(a) + budget(b) < budget(m),
{
    lemma_budget(a, (m - 1) as nat);
    lemma_budget(b, (m - 1) as nat);
    lemma_budget((m - 1) as nat, m);
}

impl Setting {
    /// The decision was taken on a consistent grid, at an uncollapsed cell,
    /// for a tile that was possible there.
    pub open spec fn trial_ok(self, t: Trial) -> bool {
        &&& self.consistent(t.snapshot)
        &&& 0 <= t.index < self.cells()
        &&& 0 <= t.tile < self.tiles()
        &&& !t.snapshot[t.index].collapsed
        &&& t.snapshot[t.index].mask[t.tile]
    }

    /// The alternative of a decision is a consistent grid of lower rank than
    /// the grid before the decision.
    pub proof fn lemma_alternative(self, t: Trial)
        requires
            self.wf(),
            self.trial_ok(t),
        ensures
            self.consistent(alternative(t)),
            narrowed(t.snapshot, alternative(t)),
            rank(alternative(t)) < rank(t.snapshot),
    {
        let g = t.snapshot;
        let g2 = alternative(t);
        assert(within(g2[t.index].mask, g[t.index].mask));
        assert(narrowed(g, g2));
        self.lemma_narrowed_consistent(g, g2);
        assert forall|c: int| 0 <= c < g.len() implies cell_rank(#[trigger] g2[c]) <= cell_rank(
            g[c],
        ) by {
            lemma_within(g2[c].mask, g[c].mask, Seq::empty());
        }
        assert(g2[t.index].mask[t.tile] != g[t.index].mask[t.tile]);
        lemma_within(g2[t.index].mask, g[t.index].mask, Seq::empty());
        Self::lemma_rank_drop(g, g2, t.index);
    }

    /// Collapsing an uncollapsed cell to a tile that was possible there
    /// lowers the rank of the grid.
    pub proof fn lemma_collapse_rank(self, g: Seq<CellView>, p: int, t: int)
        requires
            self.shaped(g),
            0 <= p < self.cells(),
            0 <= t < self.tiles(),
            !g[p].collapsed,
            g[p].mask[t],
        ensures
            rank(g.update(p, CellView { collapsed: true, mask: only(self.tiles(), t) })) < rank(g),
    {
        let g1 = g.update(p, CellView { collapsed: true, mask: only(self.tiles(), t) });
        assert(within(g1[p].mask, g[p].mask));
        lemma_within(g1[p].mask, g[p].mask, Seq::empty());
        Self::lemma_rank_drop(g, g1, p);
    }
}

/// Every weight is positive.
pub open spec fn positive(weights: Seq<u32>) -> bool {
    forall|t: int| 0 <= t < weights.len() ==> weights[t] > 0
}

/// The tile that a decided mask selects.
pub open spec fn chosen(mask: Seq<bool>) -> int {
    choose|t: int| selects_only(mask, t)
}

/// The tile at each cell of a grid whose cells are all decided.
pub open spec fn readout(g: Seq<CellView>) -> Seq<int> {
    Seq::new(g.len(), |p: int| chosen(g[p].mask))
}

impl Setting {
    /// The assignment fits the alternative of some open decision.
    pub open spec fn open_to(self, h: Seq<Trial>, a: Seq<int>) -> bool {
        exists|j: int| 0 <= j < h.len() && self.fits(a, alternative(#[trigger] h[j]))
    }

    /// Every assignment that obeys all rules and fits `root` fits `g` or the
    /// alternative of some open decision: the search so far has set no
    /// solution aside.
    pub open spec fn covers(self, root: Seq<CellView>, g: Seq<CellView>, h: Seq<Trial>) -> bool {
        forall|a: Seq<int>|
            self.strict(a) && #[trigger] self.fits(a, root) ==> self.fits(a, g) || self.open_to(
                h,
                a,
            )
    }

    /// An assignment open to a history is open to the history without its
    /// last decision or fits the alternative of that decision.
    pub proof fn lemma_open_to_last(self, h: Seq<Trial>, a: Seq<int>)
        requires
            h.len() > 0,
            self.open_to(h, a),
        ensures
            self.open_to(h.drop_last(), a) || self.fits(a, alternative(h.last())),
    {
        let j = choose|j: int| 0 <= j < h.len() && self.fits(a, alternative(#[trigger] h[j]));
        if j < h.len() - 1 {
            assert(h.drop_last()[j] == h[j]);
        }
    }

    /// An assignment that is open to a history, or fits the alternative of a
    /// further decision, is open to the history with that decision.
    pub proof fn lemma_open_to_push(self, h: Seq<Trial>, t: Trial, a: Seq<int>)
        requires
            self.open_to(h, a) || self.fits(a, alternative(t)),
        ensures
            self.open_to(h.push(t), a),
    {
        if self.open_to(h, a) {
            let j = choose|j: int| 0 <= j < h.len() && self.fits(a, alternative(#[trigger] h[j]));
            assert(h.push(t)[j] == h[j]);
        } else {
            assert(h.push(t)[h.len() as int] == t);
        }
    }

    /// No assignment that obeys all rules fits `g`.
    pub open spec fn dead(self, g: Seq<CellView>) -> bool {
        forall|a: Seq<int>| self.strict(a) ==> !#[trigger] self.fits(a, g)
    }

    /// A grid with a cell that has no possibility left fits no assignment.
    pub proof fn lemma_blank_dead(self, g: Seq<CellView>, q: int)
        requires
            self.shaped(g),
            0 <= q < self.cells(),
            blank(g[q].mask),
        ensures
            self.dead(g),
    {
        assert forall|a: Seq<int>| self.strict(a) implies !#[trigger] self.fits(a, g) by {
            if self.fits(a, g) {
                assert(g[q].mask[a[q]]);
            }
        }
    }

    /// A decision splits what fits the grid before it: an assignment that fit
    /// it fits the grid after the collapse or the alternative.
    pub proof fn lemma_decision_splits(self, t: Trial, a: Seq<int>)
        requires
            self.shaped(t.snapshot),
            0 <= t.index < self.cells(),
            0 <= t.tile < self.tiles(),
            self.fits(a, t.snapshot),
        ensures
            self.fits(
                a,
                t.snapshot.update(
                    t.index,
                    CellView { collapsed: true, mask: only(self.tiles(), t.tile) },
                ),
            ) || self.fits(a, alternative(t)),
    {
        let g = t.snapshot;
        let g1 = g.update(t.index, CellView { collapsed: true, mask: only(self.tiles(), t.tile) });
        let g2 = alternative(t);
        if a[t.index] == t.tile {
            assert forall|p: int| 0 <= p < self.cells() implies (#[trigger] g1[p]).mask[a[p]] by {
                assert(g[p].mask[a[p]]);
            }
        } else {
            assert forall|p: int| 0 <= p < self.cells() implies (#[trigger] g2[p]).mask[a[p]] by {
                assert(g[p].mask[a[p]]);
            }
        }
    }

    /// In a consistent grid whose cells are all collapsed, the tiles at the
    /// cells are an assignment that the grid shows, and of every two adjacent
    /// cells at least one obeys its rule toward the other.
    pub proof fn lemma_readout(self, g: Seq<CellView>)
        requires
            self.wf(),
            self.consistent(g),
            forall|p: int| 0 <= p < g.len() ==> (#[trigger] g[p]).collapsed,
        ensures
            self.shows(g, readout(g)),
            self.one_way(readout(g)),
            self.fits(readout(g), g),
    {
        let a = readout(g);
        assert forall|p: int| 0 <= p < g.len() implies selects_only((#[trigger] g[p]).mask, a[p]) by {
            assert(g[p].collapsed);
            assert(decided(g[p].mask));
        }
        assert forall|p: int| 0 <= p < a.len() implies 0 <= #[trigger] a[p] < self.tiles() by {
            assert(selects_only(g[p].mask, a[p]));
        }
        assert forall|p: int, t: int| 0 <= p < self.cells() && 0 <= t < self.tiles() implies (
        #[trigger] g[p]).collapsed && (#[trigger] g[p].mask[t] <==> t == a[p]) by {
            assert(selects_only(g[p].mask, a[p]));
        }
        assert forall|p: int, d: Direction|
            0 <= p < self.cells() && (#[trigger] self.neighbor(p, d)) is Some implies self.permits(
            a[p],
            d,
            a[self.neighbor(p, d)->0],
        ) || self.permits(a[self.neighbor(p, d)->0], d.spec_opposite(), a[p]) by {
            let q = self.neighbor(p, d)->0;
            self.lemma_neighbor(p, d);
            assert(selects_only(g[p].mask, a[p]));
            assert(selects_only(g[q].mask, a[q]));
            assert(self.link_ok(g, p, d, a[p], a[q]));
        }
        assert forall|p: int| 0 <= p < self.cells() implies (#[trigger] g[p]).mask[a[p]] by {
            assert(selects_only(g[p].mask, a[p]));
        }
    }

    /// Where every weight is positive, possible tiles without weight are no
    /// tiles at all.
    pub proof fn lemma_weightless_blank(self, mask: Seq<bool>)
        requires
            positive(self.weights),
            mask.len() == self.tiles(),
            sum(crate::sums::masked(self.weights, mask)) == 0,
        ensures
            blank(mask),
    {
        crate::sums::lemma_sum_zero(crate::sums::masked(self.weights, mask));
        assert forall|b: int| 0 <= b < mask.len() implies !mask[b] by {
            assert(crate::sums::masked(self.weights, mask)[b] == 0);
        }
    }
}

} // verus!
