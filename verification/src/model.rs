//! The solver: a grid of cells in superposition over a rule set, collapsed
//! cell by cell with propagation and chronological backtracking.
use vstd::prelude::*;
use rand::rngs::StdRng;
use crate::error::WfcError;
use crate::grid::{
    alternative, below, blank, budget, cells, debt, landed, lemma_below_twice, lemma_budget,
    lemma_budget_split, lemma_coords,
    lemma_debt_push, lemma_narrowed_twice, lemma_position, lemma_touched_stays, narrowed, only,
    pending, positive, rank, readout, selects_only, touched, CellView, Setting, Trial,
};
pub use crate::grid::Cell;
use crate::rng::{copy_of, draw_below, draw_below_wide, draw_word, seeded, unseeded};
use crate::ruleset::{lemma_slot, slot, texts, RuleSet};
use crate::sums::{count, lemma_sum_prefix, lemma_sum_step, masked, sum, within};
use crate::{Direction, TileId};

verus! {

/// A grid to fill, the rule set to fill it by, and the random source of the
/// choices. Beside the rule set the model keeps the weights and the adjacency
/// table of its tiles by position, in ascending order of their identifiers.
#[derive(Debug)]
pub struct Model {
    width: usize,
    height: usize,
    grid: Vec<Cell>,
    rules: RuleSet,
    rng: StdRng,
    weights: Vec<u32>,
    allowed: Vec<Vec<bool>>,
}

/// The rows of an adjacency table as sequences.
pub open spec fn rows(table: Seq<Vec<bool>>) -> Seq<Seq<bool>> {
    Seq::new(table.len(), |r: int| table[r]@)
}

/// The setting agrees with the rule set: it has the weights of the declared
/// tiles in ascending order of their identifiers, and its table permits what
/// the rules allow.
pub open spec fn tied(s: Setting, rules: RuleSet) -> bool {
    &&& rules.wf()
    &&& s.wf()
    &&& s.tiles() > 0
    &&& s.weights == rules.weights()
    &&& s.tiles() == rules.ids().len()
    &&& forall|a: int, d: Direction, b: int|
        0 <= a < s.tiles() && 0 <= b < s.tiles() ==> #[trigger] s.permits(a, d, b) == rules.allows(
            rules.ids()[a],
            d,
            rules.ids()[b],
        )
}

/// The identifiers of the tiles that an assignment gives to the cells.
pub open spec fn named(rules: RuleSet, a: Seq<int>) -> Seq<Seq<char>> {
    Seq::new(a.len(), |p: int| rules.ids()[a[p]])
}

/// `out` gives each cell of the grid a declared tile.
pub open spec fn tiling(rules: RuleSet, s: Setting, out: Seq<Seq<char>>) -> bool {
    &&& out.len() == s.cells()
    &&& forall|p: int| 0 <= p < out.len() ==> rules@.tiles.dom().contains(#[trigger] out[p])
}

/// In `out` every cell has, on each side where it has a neighbor, a tile
/// there that the rules allow next to its own.
pub open spec fn obeys(rules: RuleSet, s: Setting, out: Seq<Seq<char>>) -> bool {
    forall|p: int, d: Direction|
        0 <= p < s.cells() && (#[trigger] s.neighbor(p, d)) is Some ==> rules.allows(
            out[p],
            d,
            out[s.neighbor(p, d)->0],
        )
}

/// In `out`, of every two adjacent cells at least one has a tile that allows
/// the other cell's tile on the side where that cell lies.
pub open spec fn obeys_one_way(rules: RuleSet, s: Setting, out: Seq<Seq<char>>) -> bool {
    forall|p: int, d: Direction|
        0 <= p < s.cells() && (#[trigger] s.neighbor(p, d)) is Some ==> rules.allows(
            out[p],
            d,
            out[s.neighbor(p, d)->0],
        ) || rules.allows(out[s.neighbor(p, d)->0], d.spec_opposite(), out[p])
}

/// Every rule has its mirror: where `b` is allowed next to `a` on one side,
/// `a` is allowed next to `b` on the opposite side.
pub open spec fn symmetric(rules: RuleSet) -> bool {
    forall|a: Seq<char>, d: Direction, b: Seq<char>| #[trigger]
        rules.allows(a, d, b) ==> rules.allows(b, d.spec_opposite(), a)
}

/// No tile is allowed next to any tile.
pub open spec fn ruleless(rules: RuleSet) -> bool {
    forall|a: Seq<char>, d: Direction, b: Seq<char>| !#[trigger] rules.allows(a, d, b)
}

/// Under symmetric rules, a grid in which of every two adjacent cells one
/// obeys its rule toward the other is a grid in which every cell obeys its
/// rule toward each neighbor.
pub proof fn lemma_symmetric_obeys(rules: RuleSet, s: Setting, out: Seq<Seq<char>>)
    requires
        symmetric(rules),
        s.wf(),
        obeys_one_way(rules, s, out),
    ensures
        obeys(rules, s, out),
{
    assert forall|p: int, d: Direction|
        0 <= p < s.cells() && (#[trigger] s.neighbor(p, d)) is Some implies rules.allows(
        out[p],
        d,
        out[s.neighbor(p, d)->0],
    ) by {
        let q = s.neighbor(p, d)->0;
        crate::lemma_direction_turns(d);
        if !rules.allows(out[p], d, out[q]) {
            assert(rules.allows(out[q], d.spec_opposite(), out[p]));
        }
    }
}

/// Without any rule no grid of more than one cell has, for every two
/// adjacent cells, one that obeys its rule toward the other.
pub proof fn lemma_ruleless_unsolvable(rules: RuleSet, s: Setting, out: Seq<Seq<char>>)
    requires
        ruleless(rules),
        s.wf(),
        s.cells() > 1,
    ensures
        !obeys_one_way(rules, s, out),
{
    assert(0int % s.width == 0 && 0int / s.width == 0);
    if s.width > 1 {
        assert(s.neighbor(0, Direction::Right) is Some);
    } else {
        assert(s.cells() == s.height) by (nonlinear_arith)
            requires
                s.cells() == s.width * s.height,
                s.width == 1,
        ;
        assert(s.neighbor(0, Direction::Down) is Some);
    }
}

/// What the table permits of an assignment, the rules allow of the tiles
/// that it names.
pub proof fn lemma_named(rules: RuleSet, s: Setting, a: Seq<int>)
    requires
        tied(s, rules),
        s.assignment(a),
    ensures
        tiling(rules, s, named(rules, a)),
        s.one_way(a) ==> obeys_one_way(rules, s, named(rules, a)),
        s.strict(a) ==> obeys(rules, s, named(rules, a)),
{
    let out = named(rules, a);
    rules.lemma_listing();
    assert forall|p: int, d: Direction|
        0 <= p < s.cells() && (#[trigger] s.neighbor(p, d)) is Some implies (s.permits(
        a[p],
        d,
        a[s.neighbor(p, d)->0],
    ) == rules.allows(out[p], d, out[s.neighbor(p, d)->0])) && (s.permits(
        a[s.neighbor(p, d)->0],
        d.spec_opposite(),
        a[p],
    ) == rules.allows(out[s.neighbor(p, d)->0], d.spec_opposite(), out[p])) by {
        s.lemma_neighbor(p, d);
    }
}

/// A copy of a mask.
pub fn copy_mask(mask: &Vec<bool>) -> (r: Vec<bool>)
    ensures
        r@ == mask@,
{
    let mut r: Vec<bool> = Vec::new();
    let mut i: usize = 0;
    while i < mask.len()
        invariant
            i <= mask@.len(),
            r@ == mask@.take(i as int),
        decreases mask.len() - i,
    {
        r.push(mask[i]);
        assert(mask@.take(i + 1) =~= mask@.take(i as int).push(mask@[i as int]));
        i += 1;
    }
    assert(mask@.take(i as int) =~= mask@);
    r
}

/// A copy of a list of weights.
pub fn copy_weights(weights: &Vec<u32>) -> (r: Vec<u32>)
    ensures
        r@ == weights@,
{
    let mut r: Vec<u32> = Vec::new();
    let mut i: usize = 0;
    while i < weights.len()
        invariant
            i <= weights@.len(),
            r@ == weights@.take(i as int),
        decreases weights.len() - i,
    {
        r.push(weights[i]);
        assert(weights@.take(i + 1) =~= weights@.take(i as int).push(weights@[i as int]));
        i += 1;
    }
    assert(weights@.take(i as int) =~= weights@);
    r
}

/// A copy of an adjacency table.
pub fn copy_table(table: &Vec<Vec<bool>>) -> (r: Vec<Vec<bool>>)
    ensures
        rows(r@) == rows(table@),
{
    let mut r: Vec<Vec<bool>> = Vec::new();
    let mut i: usize = 0;
    while i < table.len()
        invariant
            i <= table@.len(),
            r@.len() == i,
            forall|j: int| 0 <= j < i ==> (#[trigger] r@[j])@ == table@[j]@,
        decreases table.len() - i,
    {
        r.push(copy_mask(&table[i]));
        i += 1;
    }
    assert(rows(r@) =~= rows(table@));
    r
}

/// A copy of a grid.
pub fn copy_grid(grid: &Vec<Cell>) -> (r: Vec<Cell>)
    ensures
        cells(r@) == cells(grid@),
{
    let mut r: Vec<Cell> = Vec::new();
    let mut p: usize = 0;
    while p < grid.len()
        invariant
            p <= grid@.len(),
            r@.len() == p,
            forall|c: int| 0 <= c < p ==> r@[c]@ == grid@[c]@,
        decreases grid.len() - p,
    {
        let cell = Cell {
            collapsed: grid[p].collapsed,
            possibilities: copy_mask(&grid[p].possibilities),
        };
        r.push(cell);
        p += 1;
    }
    assert(cells(r@) =~= cells(grid@));
    r
}

/// The weight that the tiles of `mask` have together.
pub open spec fn total(weights: Seq<u32>, mask: Seq<bool>) -> nat {
    sum(masked(weights, mask))
}

/// The weight that the tiles of `mask` before position `k` have together.
pub open spec fn weight_before(weights: Seq<u32>, mask: Seq<bool>, k: int) -> nat {
    sum(masked(weights, mask).take(k))
}

/// The tile of `mask` on which the roll falls when the tiles are laid out in
/// ascending order, each as wide as its weight: the one whose share begins at
/// or before the roll and ends after it.
pub open spec fn falls_on(weights: Seq<u32>, mask: Seq<bool>, roll: int, t: int) -> bool {
    &&& 0 <= t < mask.len()
    &&& mask[t]
    &&& weight_before(weights, mask, t) <= roll < weight_before(weights, mask, t) + weights[t]
}

/// The roll falls on one tile only.
pub proof fn lemma_falls_on_unique(weights: Seq<u32>, mask: Seq<bool>, roll: int, t: int, u: int)
    requires
        mask.len() == weights.len(),
        falls_on(weights, mask, roll, t),
        falls_on(weights, mask, roll, u),
    ensures
        t == u,
{
    let m = masked(weights, mask);
    if t < u {
        lemma_sum_step(m, t);
        lemma_sum_prefix(m.take(u), t + 1);
        assert(m.take(u).take(t + 1) =~= m.take(t + 1));
    } else if u < t {
        lemma_sum_step(m, u);
        lemma_sum_prefix(m.take(t), u + 1);
        assert(m.take(t).take(u + 1) =~= m.take(u + 1));
    }
}

/// Picks the tile of `mask` on which `roll` falls.
pub fn pick_weighted(weights: &Vec<u32>, mask: &Vec<bool>, roll: u128) -> (t: usize)
    requires
        mask@.len() == weights@.len(),
        roll < total(weights@, mask@),
    ensures
        falls_on(weights@, mask@, roll as int, t as int),
{
    let ghost m = masked(weights@, mask@);
    let n = mask.len();
    let mut left: u128 = roll;
    let mut k: usize = 0;
    proof {
        lemma_sum_prefix(m, 0);
        assert(m.take(0) =~= Seq::<nat>::empty());
    }
    loop
        invariant
            mask@.len() == weights@.len(),
            m == masked(weights@, mask@),
            n == mask@.len(),
            k < n,
            left + sum(m.take(k as int)) == roll,
            roll < sum(m),
        decreases n - k,
    {
        proof {
            lemma_sum_step(m, k as int);
            lemma_sum_prefix(m, k as int + 1);
            if k + 1 == n {
                assert(m.take(k as int + 1) =~= m);
            }
        }
        if mask[k] {
            let w = weights[k] as u128;
            if left < w {
                return k;
            }
            left -= w;
        }
        k += 1;
    }
}

/// The weight that the tiles of `mask` have together.
pub fn total_of(weights: &Vec<u32>, mask: &Vec<bool>) -> (r: u128)
    requires
        mask@.len() == weights@.len(),
    ensures
        r == total(weights@, mask@),
{
    let ghost m = masked(weights@, mask@);
    let n = mask.len();
    let mut r: u128 = 0;
    let mut k: usize = 0;
    proof {
        assert(m.take(0) =~= Seq::<nat>::empty());
    }
    while k < n
        invariant
            n == mask@.len(),
            mask@.len() == weights@.len(),
            m == masked(weights@, mask@),
            k <= n,
            r == sum(m.take(k as int)),
            r <= k * 0xFFFF_FFFF,
        decreases n - k,
    {
        proof {
            lemma_sum_step(m, k as int);
            assert(n <= 0xFFFF_FFFF_FFFF_FFFF);
        }
        if mask[k] {
            r += weights[k] as u128;
        }
        k += 1;
    }
    proof {
        assert(m.take(k as int) =~= m);
    }
    r
}

/// The mask of length `n` that selects `t` alone.
pub fn only_mask(n: usize, t: usize) -> (r: Vec<bool>)
    ensures
        r@ == only(n as int, t as int),
{
    let mut r: Vec<bool> = Vec::new();
    let mut i: usize = 0;
    while i < n
        invariant
            i <= n,
            r@.len() == i,
            forall|j: int| 0 <= j < i ==> r@[j] == (j == t),
        decreases n - i,
    {
        r.push(i == t);
        i += 1;
    }
    assert(r@ =~= only(n as int, t as int));
    r
}

/// A decision of the search: the grid before it, the cell that was
/// collapsed, and the tile that was tried there.
#[derive(Debug, Clone)]
pub struct Decision {
    pub snapshot: Vec<Cell>,
    pub index: usize,
    pub tile: usize,
}

impl View for Decision {
    type V = Trial;

    open spec fn view(&self) -> Trial {
        Trial { snapshot: cells(self.snapshot@), index: self.index as int, tile: self.tile as int }
    }
}

/// The open decisions as values, oldest first.
pub open spec fn trail(history: Seq<Decision>) -> Seq<Trial> {
    Seq::new(history.len(), |j: int| history[j]@)
}

/// Whether some weight is not zero.
pub fn any_weight(weights: &Vec<u32>) -> (r: bool)
    ensures
        r == exists|k: int| 0 <= k < weights@.len() && weights@[k] != 0,
{
    let mut k: usize = 0;
    while k < weights.len()
        invariant
            k <= weights@.len(),
            forall|j: int| 0 <= j < k ==> weights@[j] == 0,
        decreases weights.len() - k,
    {
        if weights[k] != 0 {
            return true;
        }
        k += 1;
    }
    false
}

/// The tile that the mask selects, where it selects one tile only.
pub fn sole(mask: &Vec<bool>) -> (r: Option<usize>)
    ensures
        match r {
            Some(t) => selects_only(mask@, t as int),
            None => forall|t: int| !#[trigger] selects_only(mask@, t),
        },
{
    let mut found: Option<usize> = None;
    let mut u: usize = 0;
    while u < mask.len()
        invariant
            u <= mask@.len(),
            match found {
                Some(t) => t < u && forall|j: int| 0 <= j < u ==> (mask@[j] <==> j == t),
                None => forall|j: int| 0 <= j < u ==> !mask@[j],
            },
        decreases mask.len() - u,
    {
        if mask[u] {
            if found.is_some() {
                proof {
                    let first = found->0 as int;
                    assert forall|t: int| !#[trigger] selects_only(mask@, t) by {
                        if selects_only(mask@, t) {
                            assert(mask@[u as int]);
                            assert(mask@[first]);
                        }
                    }
                }
                return None;
            }
            found = Some(u);
        }
        u += 1;
    }
    proof {
        if found is None {
            assert forall|t: int| !#[trigger] selects_only(mask@, t) by {
                if selects_only(mask@, t) {
                    assert(mask@[t]);
                }
            }
        }
    }
    found
}

/// Whether the mask selects nothing.
pub fn is_blank(mask: &Vec<bool>) -> (r: bool)
    ensures
        r == blank(mask@),
{
    let mut b: usize = 0;
    while b < mask.len()
        invariant
            b <= mask@.len(),
            forall|j: int| 0 <= j < b ==> !mask@[j],
        decreases mask.len() - b,
    {
        if mask[b] {
            return false;
        }
        b += 1;
    }
    true
}

/// `r` is the position of the lowest key, and among equal keys the first; or
/// there is no key at all and `r` is `None`.
pub open spec fn is_lowest(keys: Seq<Option<u64>>, r: Option<usize>) -> bool {
    match r {
        Some(i) => {
            &&& i < keys.len()
            &&& keys[i as int] is Some
            &&& forall|j: int|
                0 <= j < keys.len() && keys[j] is Some ==> keys[i as int]->0 <= keys[j]->0
            &&& forall|j: int| 0 <= j < i && keys[j] is Some ==> keys[i as int]->0 < keys[j]->0
        },
        None => forall|j: int| 0 <= j < keys.len() ==> keys[j] is None,
    }
}

/// Of the keys only one position is the lowest.
pub proof fn lemma_lowest_unique(keys: Seq<Option<u64>>, a: Option<usize>, b: Option<usize>)
    requires
        is_lowest(keys, a),
        is_lowest(keys, b),
    ensures
        a == b,
{
    if a is Some && b is Some {
        let i = a->0 as int;
        let j = b->0 as int;
        if i < j {
            assert(keys[j]->0 < keys[i]->0);
        } else if j < i {
            assert(keys[i]->0 < keys[j]->0);
        }
    }
}

/// The weights of the tiles that `mask` selects, in the order of the tiles.
pub open spec fn selected(weights: Seq<u32>, mask: Seq<bool>) -> Seq<u32>
    decreases mask.len(),
{
    if mask.len() == 0 {
        Seq::empty()
    } else if mask.last() {
        selected(weights, mask.drop_last()).push(weights[mask.len() - 1])
    } else {
        selected(weights, mask.drop_last())
    }
}

/// `key` is what `score` gave for the weights of the tiles of `mask` and some
/// word.
pub open spec fn scored<F: Fn(&Vec<u32>, u64) -> u64>(
    s: Setting,
    mask: Seq<bool>,
    score: &F,
    key: u64,
) -> bool {
    exists|w: &Vec<u32>, word: u64|
        w@ == selected(s.weights, mask) && #[trigger] call_ensures(score, (w, word), key)
}

/// The keys are those of the grid's cells: none for a collapsed cell, and for
/// another what `score` gave for the weights of the tiles possible there and
/// some word.
pub open spec fn keyed<F: Fn(&Vec<u32>, u64) -> u64>(
    s: Setting,
    g: Seq<CellView>,
    score: &F,
    keys: Seq<Option<u64>>,
) -> bool {
    &&& keys.len() == g.len()
    &&& forall|j: int|
        0 <= j < keys.len() ==> if g[j].collapsed {
            (#[trigger] keys[j]) is None
        } else {
            keys[j] is Some && scored(s, g[j].mask, score, keys[j]->0)
        }
}

/// The position of the lowest key, and among equal keys the first; `None`
/// where there is no key.
pub fn lowest_key(keys: &Vec<Option<u64>>) -> (r: Option<usize>)
    ensures
        is_lowest(keys@, r),
{
    let mut best: u64 = 0;
    let mut at: Option<usize> = None;
    let mut i: usize = 0;
    while i < keys.len()
        invariant
            i <= keys@.len(),
            at is None ==> forall|j: int| 0 <= j < i ==> keys@[j] is None,
            at is Some ==> {
                &&& at->0 < i
                &&& keys@[at->0 as int] == Some(best)
                &&& forall|j: int| 0 <= j < i && keys@[j] is Some ==> best <= keys@[j]->0
                &&& forall|j: int| 0 <= j < at->0 && keys@[j] is Some ==> best < keys@[j]->0
            },
        decreases keys.len() - i,
    {
        match keys[i] {
            Some(key) => {
                if at.is_none() || key < best {
                    best = key;
                    at = Some(i);
                }
            },
            None => {},
        }
        i += 1;
    }
    at
}

impl Model {
    /// The dimensions, weights and adjacency table of the model.
    pub closed spec fn setting(&self) -> Setting {
        Setting {
            width: self.width as int,
            height: self.height as int,
            weights: self.weights@,
            allowed: rows(self.allowed@),
        }
    }

    /// The rule set of the model.
    pub closed spec fn rule_set(&self) -> RuleSet {
        self.rules
    }

    /// The random source of the model.
    pub closed spec fn source(&self) -> StdRng {
        self.rng
    }

    /// The cells of the model, row by row.
    pub closed spec fn state(&self) -> Seq<CellView> {
        cells(self.grid@)
    }

    /// The identifiers of the tiles still possible at cell `p`.
    pub open spec fn possible(&self, p: int) -> Set<Seq<char>> {
        Set::new(
            |id: Seq<char>|
                exists|t: int|
                    0 <= t < self.setting().tiles() && self.state()[p].mask[t]
                        && self.rule_set().ids()[t] == id,
        )
    }

    /// The model's table agrees with its rule set and its grid is consistent.
    pub open spec fn wf(&self) -> bool {
        &&& tied(self.setting(), self.rule_set())
        &&& self.setting().consistent(self.state())
    }

    /// Creates a model of `width` columns and `height` rows over `rules`,
    /// with every tile possible at every cell. With a seed the random source
    /// is fixed by it; without one it is seeded by the operating system.
    pub fn new(width: usize, height: usize, rules: RuleSet, seed: Option<u64>) -> (r: Result<
        Model,
        WfcError,
    >)
        requires
            rules.wf(),
        ensures
            match r {
                Ok(m) => {
                    &&& 1 <= width <= 500
                    &&& 1 <= height <= 500
                    &&& rules.ids().len() > 0
                    &&& exists|id: Seq<char>| rules@.tiles.dom().contains(id)
                    &&& m.wf()
                    &&& m.rule_set() == rules
                    &&& m.setting().width == width
                    &&& m.setting().height == height
                    &&& forall|p: int|
                        0 <= p < width * height ==> !(#[trigger] m.state()[p]).collapsed
                            && m.state()[p].mask =~= Seq::new(rules.ids().len(), |t: int| true)
                    &&& forall|p: int|
                        0 <= p < width * height ==> #[trigger] m.possible(p)
                            == rules@.tiles.dom()
                },
                Err(WfcError::InvalidDimensions { width: w, height: h }) => {
                    &&& width == 0 || height == 0 || width > 500 || height > 500
                    &&& w == width
                    &&& h == height
                },
                Err(WfcError::NoTilesDefined) => {
                    &&& 1 <= width <= 500
                    &&& 1 <= height <= 500
                    &&& rules.ids().len() == 0
                    &&& forall|id: Seq<char>| !rules@.tiles.dom().contains(id)
                },
                Err(_) => false,
            },
    {
        if width == 0 || height == 0 || width > 500 || height > 500 {
            return Err(WfcError::InvalidDimensions { width, height });
        }
        let n = rules.tile_count();
        proof {
            rules.lemma_listing();
            if n > 0 {
                assert(rules@.tiles.dom().contains(rules.ids()[0]));
            } else {
                assert forall|id: Seq<char>| !rules@.tiles.dom().contains(id) by {
                    if rules.ids().contains(id) {
                        let i = choose|i: int| 0 <= i < rules.ids().len() && rules.ids()[i] == id;
                    }
                }
            }
        }
        if n == 0 {
            return Err(WfcError::NoTilesDefined);
        }
        proof {
            rules.lemma_listing();
            assert(width * height <= 250000) by (nonlinear_arith)
                requires
                    1 <= width <= 500,
                    1 <= height <= 500,
            ;
        }
        let mut weights: Vec<u32> = Vec::new();
        let mut allowed: Vec<Vec<bool>> = Vec::new();
        let mut full: Vec<bool> = Vec::new();
        let mut a: usize = 0;
        while a < n
            invariant
                rules.wf(),
                n == rules.ids().len(),
                n == rules.weights().len(),
                a <= n,
                weights@ == rules.weights().take(a as int),
                full@ == Seq::new(a as nat, |t: int| true),
                allowed@.len() == 4 * a,
                forall|r: int| 0 <= r < allowed@.len() ==> (#[trigger] allowed@[r])@.len() == n,
                forall|c: int, d: Direction, b: int|
                    0 <= c < a && 0 <= b < n ==> allowed@[4 * c + d.spec_ordinal()]@[b]
                        == #[trigger] rules.allows(rules.ids()[c], d, rules.ids()[b]),
            decreases n - a,
        {
            proof {
                rules.lemma_listing();
            }
            weights.push(rules.tile_at(a).weight);
            full.push(true);
            allowed.push(rules.neighbor_mask(a, Direction::Up));
            allowed.push(rules.neighbor_mask(a, Direction::Right));
            allowed.push(rules.neighbor_mask(a, Direction::Down));
            allowed.push(rules.neighbor_mask(a, Direction::Left));
            proof {
                assert(weights@ =~= rules.weights().take(a + 1));
                assert(full@ =~= Seq::new((a + 1) as nat, |t: int| true));
                assert forall|c: int, d: Direction, b: int| 0 <= c < a + 1 && 0 <= b < n implies
                    allowed@[4 * c + d.spec_ordinal()]@[b] == #[trigger] rules.allows(
                    rules.ids()[c],
                    d,
                    rules.ids()[b],
                ) by {
                    if c == a {
                        match d {
                            Direction::Up => {},
                            Direction::Right => {},
                            Direction::Down => {},
                            Direction::Left => {},
                        }
                    }
                }
            }
            a += 1;
        }
        let size = width * height;
        let mut grid: Vec<Cell> = Vec::new();
        let mut p: usize = 0;
        while p < size
            invariant
                p <= size,
                grid@.len() == p,
                full@ == Seq::new(n as nat, |t: int| true),
                forall|c: int|
                    0 <= c < p ==> !(#[trigger] grid@[c]).collapsed && grid@[c].possibilities@
                        == full@,
            decreases size - p,
        {
            grid.push(Cell { collapsed: false, possibilities: copy_mask(&full) });
            p += 1;
        }
        let rng = match seed {
            Some(s) => seeded(s),
            None => unseeded(),
        };
        let m = Model { width, height, grid, rules, rng, weights, allowed };
        proof {
            rules.lemma_listing();
            assert(rules.weights().take(n as int) =~= rules.weights());
            let s = m.setting();
            assert(s.tiles() == n);
            assert forall|r: int| 0 <= r < s.allowed.len() implies (#[trigger] s.allowed[r]).len()
                == s.tiles() by {
                assert(s.allowed[r] == allowed@[r]@);
            }
            assert forall|c: int, d: Direction, b: int| 0 <= c < s.tiles() && 0 <= b < s.tiles()
                implies #[trigger] s.permits(c, d, b) == rules.allows(
                rules.ids()[c],
                d,
                rules.ids()[b],
            ) by {
                assert(s.allowed[4 * c + d.spec_ordinal()] == allowed@[4 * c + d.spec_ordinal()]@);
            }
            assert(size == s.cells());
            assert forall|c: int, d: Direction, t: int, b: int| #[trigger]
                s.link_ok(m.state(), c, d, t, b) by {}
            assert forall|c: int| 0 <= c < width * height implies #[trigger] m.possible(c)
                == rules@.tiles.dom() by {
                assert forall|id: Seq<char>| m.possible(c).contains(id)
                    <==> rules@.tiles.dom().contains(id) by {
                    if rules.ids().contains(id) {
                        let t = choose|t: int| 0 <= t < rules.ids().len() && rules.ids()[t] == id;
                        assert(m.state()[c].mask[t]);
                    }
                }
                assert(m.possible(c) =~= rules@.tiles.dom());
            }
        }
        Ok(m)
    }

    /// Number of columns.
    pub fn width(&self) -> (w: usize)
        ensures
            w == self.setting().width,
    {
        self.width
    }

    /// Number of rows.
    pub fn height(&self) -> (h: usize)
        ensures
            h == self.setting().height,
    {
        self.height
    }

    /// The rule set that the model solves by.
    pub fn rules(&self) -> (r: &RuleSet)
        ensures
            *r == self.rule_set(),
    {
        &self.rules
    }

    /// The position of the cell in column `x` of row `y`.
    pub fn get_index(&self, x: usize, y: usize) -> (index: usize)
        requires
            self.setting().wf(),
            x < self.setting().width,
            y < self.setting().height,
        ensures
            index == y * self.setting().width + x,
            index < self.setting().cells(),
            index as int % self.setting().width == x,
            index as int / self.setting().width == y,
    {
        proof {
            lemma_position(self.width as int, self.height as int, x as int, y as int);
            assert(y * self.width + x < 250000) by (nonlinear_arith)
                requires
                    x < self.width <= 500,
                    y < self.height <= 500,
            ;
            assert(0 <= y * self.width) by (nonlinear_arith);
        }
        y * self.width + x
    }

    /// The column and the row of the cell at `index`.
    pub fn get_coords(&self, index: usize) -> (r: (usize, usize))
        requires
            self.setting().wf(),
            index < self.setting().cells(),
        ensures
            r.0 == index as int % self.setting().width,
            r.1 == index as int / self.setting().width,
            r.0 < self.setting().width,
            r.1 < self.setting().height,
            index == r.1 * self.setting().width + r.0,
    {
        proof {
            lemma_coords(self.width as int, self.height as int, index as int);
        }
        (index % self.width, index / self.width)
    }

    /// The cells next to the cell at `index`, each with the side it is on, in
    /// the order up, right, down, left.
    pub fn get_neighbors(&self, index: usize) -> (r: Vec<(usize, Direction)>)
        requires
            self.setting().wf(),
            index < self.setting().cells(),
        ensures
            r@.len() <= 4,
            r@.len() == self.setting().around(index as int).len(),
            forall|k: int|
                0 <= k < r@.len() ==> ((#[trigger] r@[k]).0 as int, r@[k].1)
                    == self.setting().around(index as int)[k],
            forall|k: int|
                0 <= k < r@.len() ==> self.setting().neighbor(index as int, (#[trigger] r@[k]).1)
                    == Some(r@[k].0 as int),
            forall|d: Direction|
                (#[trigger] self.setting().neighbor(index as int, d)) is Some ==> exists|k: int|
                    0 <= k < r@.len() && (#[trigger] r@[k]).1 == d,
    {
        let (x, y) = self.get_coords(index);
        let mut neighbors: Vec<(usize, Direction)> = Vec::new();
        let ghost s = self.setting();
        let ghost w = self.width as int;
        if y > 0 {
            assert((y - 1) * w + x == index - w) by (nonlinear_arith)
                requires
                    index == y * w + x,
            ;
            neighbors.push((self.get_index(x, y - 1), Direction::Up));
        }
        let ghost after_up = neighbors@;
        proof {
            assert(Seq::new(after_up.len(), |k: int| (after_up[k].0 as int, after_up[k].1))
                =~= s.side(index as int, Direction::Up));
        }
        if x < self.width - 1 {
            neighbors.push((self.get_index(x + 1, y), Direction::Right));
        }
        let ghost after_right = neighbors@;
        proof {
            assert(Seq::new(after_right.len(), |k: int| (after_right[k].0 as int, after_right[k].1))
                =~= s.side(index as int, Direction::Up) + s.side(index as int, Direction::Right));
        }
        if y < self.height - 1 {
            assert((y + 1) * w + x == index + w) by (nonlinear_arith)
                requires
                    index == y * w + x,
            ;
            neighbors.push((self.get_index(x, y + 1), Direction::Down));
        }
        let ghost after_down = neighbors@;
        proof {
            assert(Seq::new(after_down.len(), |k: int| (after_down[k].0 as int, after_down[k].1))
                =~= s.side(index as int, Direction::Up) + s.side(index as int, Direction::Right)
                + s.side(index as int, Direction::Down));
        }
        if x > 0 {
            neighbors.push((self.get_index(x - 1, y), Direction::Left));
        }
        proof {
            assert(Seq::new(neighbors@.len(), |k: int| (neighbors@[k].0 as int, neighbors@[k].1))
                =~= s.around(index as int));
            assert forall|k: int| 0 <= k < neighbors@.len() implies ((#[trigger] neighbors@[k]).0 as int, neighbors@[k].1)
                == s.around(index as int)[k] by {
                assert(Seq::new(
                    neighbors@.len(),
                    |k: int| (neighbors@[k].0 as int, neighbors@[k].1),
                )[k] == s.around(index as int)[k]);
            }
            assert forall|d: Direction| (#[trigger] s.neighbor(index as int, d)) is Some implies
                exists|k: int| 0 <= k < neighbors@.len() && (#[trigger] neighbors@[k]).1 == d by {
                match d {
                    Direction::Up => {
                        assert(neighbors@[0].1 == d);
                    },
                    Direction::Right => {
                        assert(neighbors@[after_right.len() - 1].1 == d);
                    },
                    Direction::Down => {
                        assert(neighbors@[after_down.len() - 1].1 == d);
                    },
                    Direction::Left => {
                        assert(neighbors@[neighbors@.len() - 1].1 == d);
                    },
                }
            }
        }
        neighbors
    }

    /// A grid that names for each cell a declared tile possible there, such
    /// that every cell obeys its rule toward each neighbor, gives an
    /// assignment that obeys all rules and fits the model's grid: the model
    /// can be solved.
    pub proof fn lemma_solvable(&self, out: Seq<Seq<char>>)
        requires
            self.wf(),
            tiling(self.rule_set(), self.setting(), out),
            obeys(self.rule_set(), self.setting(), out),
            forall|p: int| 0 <= p < out.len() ==> self.possible(p).contains(#[trigger] out[p]),
        ensures
            exists|a: Seq<int>| self.setting().strict(a) && self.setting().fits(a, self.state()),
    {
        let s = self.setting();
        let rules = self.rule_set();
        let ids = rules.ids();
        let a = Seq::new(out.len(), |p: int| slot(ids, out[p]));
        rules.lemma_listing();
        assert forall|p: int| 0 <= p < out.len() implies 0 <= #[trigger] a[p] < s.tiles()
            && ids[a[p]] == out[p] && self.state()[p].mask[a[p]] by {
            assert(self.possible(p).contains(out[p]));
            let t = choose|t: int|
                0 <= t < s.tiles() && self.state()[p].mask[t] && ids[t] == out[p];
            lemma_slot(ids, t);
        }
        assert forall|p: int, d: Direction|
            0 <= p < s.cells() && (#[trigger] s.neighbor(p, d)) is Some implies s.permits(
            a[p],
            d,
            a[s.neighbor(p, d)->0],
        ) by {
            s.lemma_neighbor(p, d);
            let q = s.neighbor(p, d)->0;
            assert(ids[a[p]] == out[p]);
            assert(ids[a[q]] == out[q]);
        }
        assert(s.strict(a));
        assert forall|p: int| 0 <= p < s.cells() implies (#[trigger] self.state()[p]).mask[a[p]] by {
            assert(0 <= a[p] < s.tiles());
        }
        assert(s.fits(a, self.state()));
    }

    /// The identifiers of the tiles still possible at the cell at `index`,
    /// in ascending order.
    pub fn candidates(&self, index: usize) -> (r: Vec<TileId>)
        requires
            self.wf(),
            index < self.setting().cells(),
        ensures
            texts(r@).to_set() == self.possible(index as int),
            crate::order::ascending(texts(r@)),
    {
        let ghost mask = self.state()[index as int].mask;
        let ghost ids = self.rule_set().ids();
        let mut r: Vec<TileId> = Vec::new();
        let ghost mut from: Seq<int> = Seq::empty();
        let mut t: usize = 0;
        assert(self.grid@[index as int]@ == self.state()[index as int]);
        proof {
            self.rules.lemma_listing();
        }
        while t < self.weights.len()
            invariant
                self.wf(),
                ids == self.rule_set().ids(),
                crate::order::ascending(ids),
                index < self.grid@.len(),
                mask == self.grid@[index as int].possibilities@,
                mask.len() == self.weights@.len(),
                self.weights@.len() == ids.len(),
                t <= self.weights@.len(),
                from.len() == r@.len(),
                forall|k: int| 0 <= k < r@.len() ==> 0 <= from[k] < t && mask[from[k]] && r@[k]@
                    == ids[from[k]],
                forall|k: int, m: int| 0 <= k < m < r@.len() ==> from[k] < from[m],
                forall|u: int| 0 <= u < t && mask[u] ==> exists|k: int|
                    0 <= k < r@.len() && from[k] == u,
            decreases self.weights.len() - t,
        {
            if self.grid[index].possibilities[t] {
                let ghost before = from;
                r.push(self.rules.tile_at(t).id.clone());
                proof {
                    from = from.push(t as int);
                    assert forall|u: int| 0 <= u < t + 1 && mask[u] implies exists|k: int|
                        0 <= k < r@.len() && from[k] == u by {
                        if u < t {
                            let k = choose|k: int| 0 <= k < before.len() && before[k] == u;
                            assert(from[k] == u);
                        } else {
                            assert(from[before.len() as int] == u);
                        }
                    }
                }
            }
            t += 1;
        }
        proof {
            let listed = texts(r@);
            assert forall|k: int, m: int| 0 <= k < m < listed.len() implies crate::order::precedes(
                listed[k],
                listed[m],
            ) by {
                assert(from[k] < from[m]);
            }
            assert forall|id: Seq<char>| listed.to_set().contains(id) <==> self.possible(
                index as int,
            ).contains(id) by {
                if listed.contains(id) {
                    let k = choose|k: int| 0 <= k < listed.len() && listed[k] == id;
                    assert(mask[from[k]] && ids[from[k]] == id);
                }
                if self.possible(index as int).contains(id) {
                    let u = choose|u: int|
                        0 <= u < self.setting().tiles() && self.state()[index as int].mask[u]
                            && ids[u] == id;
                    let k = choose|k: int| 0 <= k < r@.len() && from[k] == u;
                    assert(listed[k] == id);
                }
            }
            assert(listed.to_set() =~= self.possible(index as int));
        }
        r
    }

    /// Whether the cell at `index` is collapsed.
    pub fn is_collapsed(&self, index: usize) -> (r: bool)
        requires
            index < self.state().len(),
        ensures
            r == self.state()[index as int].collapsed,
    {
        self.grid[index].collapsed
    }

    /// The weights of the tiles still possible at the cell at `index`, in
    /// ascending order of the tiles' identifiers.
    pub fn candidate_weights(&self, index: usize) -> (r: Vec<u32>)
        requires
            self.setting().shaped(self.state()),
            index < self.setting().cells(),
        ensures
            r@ == selected(self.setting().weights, self.state()[index as int].mask),
            r@.len() == count(self.state()[index as int].mask),
            (exists|k: int| 0 <= k < r@.len() && r@[k] != 0) <==> total(
                self.setting().weights,
                self.state()[index as int].mask,
            ) != 0,
    {
        let ghost mask = self.state()[index as int].mask;
        let ghost m = masked(self.weights@, mask);
        let ghost marks = crate::sums::marks(mask);
        let mut r: Vec<u32> = Vec::new();
        let mut t: usize = 0;
        assert(self.grid@[index as int]@ == self.state()[index as int]);
        proof {
            assert(marks.take(0) =~= Seq::<nat>::empty());
            assert(mask.take(0) =~= Seq::<bool>::empty());
        }
        while t < self.weights.len()
            invariant
                r@ == selected(self.weights@, mask.take(t as int)),
                mask == self.grid@[index as int].possibilities@,
                mask.len() == self.weights@.len(),
                m == masked(self.weights@, mask),
                marks == crate::sums::marks(mask),
                index < self.grid@.len(),
                t <= self.weights@.len(),
                r@.len() == sum(marks.take(t as int)),
                (exists|k: int| 0 <= k < r@.len() && r@[k] != 0) <==> (exists|j: int|
                    0 <= j < t && m[j] != 0),
            decreases self.weights.len() - t,
        {
            proof {
                lemma_sum_step(marks, t as int);
                assert(mask.take(t + 1).drop_last() =~= mask.take(t as int));
            }
            let ghost before = r@;
            if self.grid[index].possibilities[t] {
                r.push(self.weights[t]);
                proof {
                    if exists|k: int| 0 <= k < r@.len() && r@[k] != 0 {
                        let k = choose|k: int| 0 <= k < r@.len() && r@[k] != 0;
                        if k < before.len() {
                            assert(before[k] != 0);
                        } else {
                            assert(m[t as int] != 0);
                        }
                    }
                    if exists|j: int| 0 <= j < t + 1 && m[j] != 0 {
                        let j = choose|j: int| 0 <= j < t + 1 && m[j] != 0;
                        if j < t {
                            let k = choose|k: int| 0 <= k < before.len() && before[k] != 0;
                            assert(r@[k] != 0);
                        } else {
                            assert(r@[before.len() as int] != 0);
                        }
                    }
                }
            } else {
                proof {
                    if exists|j: int| 0 <= j < t + 1 && m[j] != 0 {
                        let j = choose|j: int| 0 <= j < t + 1 && m[j] != 0;
                        assert(j < t);
                    }
                }
            }
            t += 1;
        }
        proof {
            assert(marks.take(t as int) =~= marks);
            assert(mask.take(t as int) =~= mask);
            crate::sums::lemma_sum_zero(m);
        }
        r
    }

    /// Collapses the cell at `index` to the tile on which `roll` falls among
    /// the tiles possible there.
    pub(crate) fn collapse_with(&mut self, index: usize, roll: u128) -> (t: usize)
        requires
            tied(old(self).setting(), old(self).rule_set()),
            old(self).setting().shaped(old(self).state()),
            index < old(self).setting().cells(),
            roll < total(old(self).setting().weights, old(self).state()[index as int].mask),
        ensures
            final(self).setting() == old(self).setting(),
            final(self).rule_set() == old(self).rule_set(),
            final(self).source() == old(self).source(),
            falls_on(
                old(self).setting().weights,
                old(self).state()[index as int].mask,
                roll as int,
                t as int,
            ),
            final(self).state() == old(self).state().update(
                index as int,
                CellView { collapsed: true, mask: only(old(self).setting().tiles(), t as int) },
            ),
    {
        assert(self.grid@[index as int]@ == self.state()[index as int]);
        let t = pick_weighted(&self.weights, &self.grid[index].possibilities, roll);
        let mask = only_mask(self.weights.len(), t);
        self.grid.set(index, Cell { collapsed: true, possibilities: mask });
        assert(self.state() =~= old(self).state().update(
            index as int,
            CellView { collapsed: true, mask: only(old(self).setting().tiles(), t as int) },
        ));
        t
    }

    /// Collapses the cell at `index` to one of the tiles possible there,
    /// chosen at random by weight: a roll below the weight of the possible
    /// tiles together decides. Fails, and leaves the grid as it is, where no
    /// tile is possible or the possible tiles have no weight.
    pub(crate) fn collapse_cell(&mut self, index: usize) -> (r: Result<usize, WfcError>)
        requires
            tied(old(self).setting(), old(self).rule_set()),
            old(self).setting().shaped(old(self).state()),
            index < old(self).setting().cells(),
        ensures
            final(self).setting() == old(self).setting(),
            final(self).rule_set() == old(self).rule_set(),
            r is Err <==> total(old(self).setting().weights, old(self).state()[index as int].mask)
                == 0,
            match r {
                Ok(t) => {
                    &&& t < old(self).setting().tiles()
                    &&& old(self).state()[index as int].mask[t as int]
                    &&& exists|roll: int|
                        0 <= roll < total(
                            old(self).setting().weights,
                            old(self).state()[index as int].mask,
                        ) && #[trigger] falls_on(
                            old(self).setting().weights,
                            old(self).state()[index as int].mask,
                            roll,
                            t as int,
                        )
                    &&& final(self).state() == old(self).state().update(
                        index as int,
                        CellView {
                            collapsed: true,
                            mask: only(old(self).setting().tiles(), t as int),
                        },
                    )
                },
                Err(e) => e is Contradiction && final(self).state() == old(self).state(),
            },
    {
        assert(self.grid@[index as int]@ == self.state()[index as int]);
        let total_weight = total_of(&self.weights, &self.grid[index].possibilities);
        if total_weight == 0 {
            return Err(WfcError::Contradiction);
        }
        let roll = if total_weight <= 0xFFFF_FFFF {
            draw_below(&mut self.rng, total_weight as u32) as u128
        } else {
            draw_below_wide(&mut self.rng, total_weight)
        };
        let t = self.collapse_with(index, roll);
        Ok(t)
    }

    /// Whether some tile of `source` permits the tile `b` on its side `d`.
    pub fn supports(&self, source: &Vec<bool>, d: Direction, b: usize) -> (r: bool)
        requires
            self.setting().wf(),
            source@.len() == self.setting().tiles(),
            b < self.setting().tiles(),
        ensures
            r == self.setting().supported(source@, d, b as int),
    {
        let ghost s = self.setting();
        let n = self.weights.len();
        let k = d.ordinal();
        let table_rows = self.allowed.len();
        let mut a: usize = 0;
        assert(s.allowed.len() == self.allowed@.len());
        while a < n
            invariant
                s == self.setting(),
                s.wf(),
                n == s.tiles(),
                source@.len() == n,
                b < n,
                k == d.spec_ordinal(),
                table_rows == 4 * n,
                table_rows == self.allowed@.len(),
                a <= n,
                forall|c: int| 0 <= c < a ==> !(source@[c] && #[trigger] s.permits(c, d, b as int)),
            decreases n - a,
        {
            assert(s.allowed[4 * a + k] == self.allowed@[4 * a + k]@);
            if source[a] && self.allowed[4 * a + k][b] {
                assert(s.permits(a as int, d, b as int));
                return true;
            }
            a += 1;
        }
        false
    }

    /// Restricts the possibilities of the uncollapsed cell `q` to the tiles
    /// that some tile of `source` permits on its side `d`. Returns whether a
    /// possibility was struck out, and whether none is left.
    pub(crate) fn restrict(&mut self, q: usize, source: &Vec<bool>, d: Direction) -> (r: (bool, bool))
        requires
            old(self).setting().wf(),
            old(self).setting().shaped(old(self).state()),
            q < old(self).setting().cells(),
            source@.len() == old(self).setting().tiles(),
            !old(self).state()[q as int].collapsed,
        ensures
            final(self).setting() == old(self).setting(),
            final(self).rule_set() == old(self).rule_set(),
            final(self).source() == old(self).source(),
            final(self).state() == old(self).state().update(
                q as int,
                CellView {
                    collapsed: false,
                    mask: old(self).setting().restricted(
                        old(self).state()[q as int].mask,
                        source@,
                        d,
                    ),
                },
            ),
            r.0 == (final(self).state()[q as int].mask != old(self).state()[q as int].mask),
            r.1 == blank(final(self).state()[q as int].mask),
    {
        let ghost s = self.setting();
        let ghost mask = self.state()[q as int].mask;
        assert(self.grid@[q as int]@ == self.state()[q as int]);
        let n = self.weights.len();
        let mut next: Vec<bool> = Vec::new();
        let mut shrunk = false;
        let mut empty = true;
        let mut b: usize = 0;
        while b < n
            invariant
                self == old(self),
                s == self.setting(),
                s.wf(),
                n == s.tiles(),
                q < self.grid@.len(),
                mask == self.grid@[q as int].possibilities@,
                mask.len() == n,
                source@.len() == n,
                b <= n,
                next@.len() == b,
                forall|j: int|
                    0 <= j < b ==> next@[j] == (mask[j] && s.supported(source@, d, j)),
                shrunk == exists|j: int| 0 <= j < b && next@[j] != mask[j],
                empty == forall|j: int| 0 <= j < b ==> !next@[j],
            decreases n - b,
        {
            let mut keep = false;
            if self.grid[q].possibilities[b] {
                keep = self.supports(source, d, b);
            }
            let ghost before = next@;
            next.push(keep);
            proof {
                assert(forall|j: int| 0 <= j < b ==> next@[j] == before[j]);
                if exists|j: int| 0 <= j < b && before[j] != mask[j] {
                    let j = choose|j: int| 0 <= j < b && before[j] != mask[j];
                    assert(next@[j] != mask[j]);
                }
                if !keep && mask[b as int] {
                    assert(next@[b as int] != mask[b as int]);
                }
                if keep {
                    assert(next@[b as int]);
                }
            }
            if keep {
                empty = false;
            } else if self.grid[q].possibilities[b] {
                shrunk = true;
            }
            b += 1;
        }
        self.grid.set(q, Cell { collapsed: false, possibilities: next });
        proof {
            assert(next@ =~= s.restricted(mask, source@, d));
            assert(self.state() =~= old(self).state().update(
                q as int,
                CellView { collapsed: false, mask: s.restricted(mask, source@, d) },
            ));
            if !shrunk {
                assert(next@ =~= mask);
            }
        }
        (shrunk, empty)
    }

    /// Propagates the constraints of the cell at `start_index` and of every
    /// cell that loses a possibility on the way: each uncollapsed neighbor of
    /// such a cell keeps only the tiles that some tile still possible at the
    /// cell permits. Fails as soon as a cell is left without a possibility,
    /// with the grid as it is at that moment.
    ///
    /// On success the grid is the greatest one that comes from the grid
    /// before by striking out possibilities and in which the start and every
    /// cell that lost a possibility are settled; each of those cells has a
    /// possibility left. On failure no such grid leaves each of them one.
    /// Either way no assignment that obeys all rules is lost and the random
    /// source is not touched. A start without a possibility fails at once,
    /// with the grid as it was.
    pub(crate) fn propagate(&mut self, start_index: usize) -> (r: Result<(), WfcError>)
        requires
            old(self).setting().wf(),
            old(self).setting().shaped(old(self).state()),
            start_index < old(self).setting().cells(),
        ensures
            final(self).setting() == old(self).setting(),
            final(self).rule_set() == old(self).rule_set(),
            final(self).source() == old(self).source(),
            final(self).setting().shaped(final(self).state()),
            narrowed(old(self).state(), final(self).state()),
            old(self).setting().keeps(old(self).state(), final(self).state()),
            blank(old(self).state()[start_index as int].mask) ==> r is Err && final(self).state()
                == old(self).state(),
            match r {
                Ok(()) => {
                    &&& old(self).setting().spread(
                        old(self).state(),
                        final(self).state(),
                        start_index as int,
                    )
                    &&& old(self).setting().alive(
                        old(self).state(),
                        final(self).state(),
                        start_index as int,
                    )
                    &&& forall|other: Seq<CellView>| #[trigger]
                        old(self).setting().spread(old(self).state(), other, start_index as int)
                            ==> below(other, final(self).state())
                },
                Err(e) => {
                    &&& e is Contradiction
                    &&& exists|q: int|
                        0 <= q < old(self).setting().cells() && blank(
                            (#[trigger] final(self).state()[q]).mask,
                        )
                    &&& forall|other: Seq<CellView>| #[trigger]
                        old(self).setting().spread(old(self).state(), other, start_index as int)
                            ==> !old(self).setting().alive(
                            old(self).state(),
                            other,
                            start_index as int,
                        )
                },
            },
    {
        let ghost s = self.setting();
        let ghost init = self.state();
        let ghost start = start_index as int;
        let mut stack: Vec<usize> = Vec::new();
        stack.push(start_index);
        proof {
            assert(stack@[0] as int == start);
            assert forall|p: int| #[trigger] s.tended(init, init, stack@, start, p) by {}
        }
        assert(narrowed(init, init));
        while stack.len() > 0
            invariant
                s == old(self).setting(),
                init == old(self).state(),
                start == start_index,
                self.setting() == s,
                self.rule_set() == old(self).rule_set(),
                self.source() == old(self).source(),
                blank(init[start].mask) ==> self.state() == init && stack@ =~= seq![start_index],
                s.wf(),
                s.shaped(self.state()),
                narrowed(init, self.state()),
                s.keeps(init, self.state()),
                forall|i: int| 0 <= i < stack@.len() ==> stack@[i] < s.cells(),
                forall|i: int|
                    0 <= i < stack@.len() ==> touched(
                        init,
                        self.state(),
                        start,
                        (#[trigger] stack@[i]) as int,
                    ),
                forall|other: Seq<CellView>| #[trigger]
                    s.spread(init, other, start) ==> below(other, self.state()),
                forall|p: int| #[trigger] s.tended(init, self.state(), stack@, start, p),
            decreases 2 * rank(self.state()) + stack@.len(),
        {
            let ghost g_top = self.state();
            let ghost stack_top = stack@;
            let cur = stack.pop().unwrap();
            assert(self.grid@[cur as int]@ == self.state()[cur as int]);
            let current = copy_mask(&self.grid[cur].possibilities);
            assert(touched(init, self.state(), start, stack_top[stack_top.len() - 1] as int));
            if is_blank(&current) {
                proof {
                    assert(blank(self.state()[cur as int].mask));
                    assert forall|other: Seq<CellView>| #[trigger]
                        s.spread(init, other, start) implies !s.alive(init, other, start) by {
                        s.lemma_doomed(init, self.state(), start, cur as int, other);
                    }
                }
                return Err(WfcError::Contradiction);
            }
            assert(!blank(init[start].mask));
            let neighbors = self.get_neighbors(cur);
            proof {
                assert forall|p: int| p != cur implies #[trigger] s.tended(
                    init,
                    self.state(),
                    stack@,
                    start,
                    p,
                ) by {
                    assert(s.tended(init, g_top, stack_top, start, p));
                    if pending(stack_top, p) {
                        let i = choose|i: int| 0 <= i < stack_top.len() && stack_top[i] as int == p;
                        assert(stack@[i] as int == p);
                    }
                }
            }
            let mut k: usize = 0;
            while k < neighbors.len()
                invariant
                    s == old(self).setting(),
                    init == old(self).state(),
                    start == start_index,
                    self.setting() == s,
                    self.rule_set() == old(self).rule_set(),
                    self.source() == old(self).source(),
                    !blank(init[start].mask),
                    s.wf(),
                    s.shaped(self.state()),
                    narrowed(init, self.state()),
                    s.keeps(init, self.state()),
                    forall|i: int| 0 <= i < stack@.len() ==> stack@[i] < s.cells(),
                    forall|i: int|
                        0 <= i < stack@.len() ==> touched(
                            init,
                            self.state(),
                            start,
                            (#[trigger] stack@[i]) as int,
                        ),
                    forall|other: Seq<CellView>| #[trigger]
                        s.spread(init, other, start) ==> below(other, self.state()),
                    cur < s.cells(),
                    touched(init, self.state(), start, cur as int),
                    !blank(current@),
                    current@ == self.state()[cur as int].mask,
                    k <= neighbors@.len(),
                    forall|j: int|
                        0 <= j < neighbors@.len() ==> s.neighbor(
                            cur as int,
                            (#[trigger] neighbors@[j]).1,
                        ) == Some(neighbors@[j].0 as int),
                    forall|j: int, b: int|
                        0 <= j < k ==> #[trigger] s.arc_ok(
                            self.state(),
                            cur as int,
                            neighbors@[j].1,
                            b,
                        ),
                    forall|p: int|
                        p != cur ==> #[trigger] s.tended(init, self.state(), stack@, start, p),
                    2 * rank(self.state()) + stack@.len() < 2 * rank(g_top) + stack_top.len(),
                decreases neighbors.len() - k,
            {
                let (q, d) = neighbors[k];
                let ghost g_before = self.state();
                let ghost stack_before = stack@;
                proof {
                    assert(s.neighbor(cur as int, neighbors@[k as int].1) == Some(
                        neighbors@[k as int].0 as int,
                    ));
                    s.lemma_neighbor(cur as int, d);
                }
                assert(self.grid@[q as int]@ == self.state()[q as int]);
                if !self.grid[q].collapsed {
                    let (shrunk, empty) = self.restrict(q, &current, d);
                    proof {
                        s.lemma_restrict(g_before, cur as int, d);
                        assert(self.state() == s.after_restrict(g_before, cur as int, d));
                        assert forall|other: Seq<CellView>| #[trigger]
                            s.spread(init, other, start) implies below(other, self.state()) by {
                            s.lemma_restrict_greatest(init, g_before, start, cur as int, d, other);
                        }
                        assert forall|i: int| 0 <= i < stack_before.len() implies touched(
                            init,
                            self.state(),
                            start,
                            (#[trigger] stack_before[i]) as int,
                        ) by {
                            lemma_touched_stays(
                                init,
                                g_before,
                                self.state(),
                                start,
                                stack_before[i] as int,
                            );
                        }
                        lemma_touched_stays(init, g_before, self.state(), start, cur as int);
                        if shrunk {
                            lemma_touched_stays(init, g_before, self.state(), start, q as int);
                        }
                        lemma_narrowed_twice(init, g_before, self.state());
                        assert(s.keeps(init, self.state())) by {
                            assert forall|a: Seq<int>| s.strict(a) && #[trigger] s.fits(
                                a,
                                init,
                            ) implies s.fits(a, self.state()) by {
                                assert(s.fits(a, g_before));
                            }
                        }
                    }
                    if shrunk {
                        if empty {
                            proof {
                                assert(blank(self.state()[q as int].mask));
                                assert forall|other: Seq<CellView>| #[trigger]
                                    s.spread(init, other, start) implies !s.alive(
                                    init,
                                    other,
                                    start,
                                ) by {
                                    s.lemma_doomed(init, self.state(), start, q as int, other);
                                }
                            }
                            return Err(WfcError::Contradiction);
                        }
                        stack.push(q);
                        proof {
                            assert(stack@[stack_before.len() as int] as int == q);
                        }
                    }
                    proof {
                        let g_after = self.state();
                        assert forall|j: int, b: int| 0 <= j < k + 1 implies #[trigger] s.arc_ok(
                            g_after,
                            cur as int,
                            neighbors@[j].1,
                            b,
                        ) by {
                            if j < k {
                                assert forall|c: int| #[trigger]
                                    s.arc_ok(g_before, cur as int, neighbors@[j].1, c) by {}
                                s.lemma_arc_kept(g_before, g_after, cur as int, neighbors@[j].1);
                            }
                        }
                        assert forall|p: int| p != cur implies #[trigger] s.tended(
                            init,
                            g_after,
                            stack@,
                            start,
                            p,
                        ) by {
                            if 0 <= p < s.cells() && touched(init, g_after, start, p) {
                                if p == q && shrunk {
                                    assert(pending(stack@, p));
                                } else {
                                    assert(g_after[p] == g_before[p]);
                                    assert(s.tended(init, g_before, stack_before, start, p));
                                    if pending(stack_before, p) {
                                        let i = choose|i: int|
                                            0 <= i < stack_before.len() && stack_before[i] as int
                                                == p;
                                        assert(stack@[i] as int == p);
                                    } else {
                                        s.lemma_settled_kept(g_before, g_after, p);
                                    }
                                }
                            }
                        }
                    }
                } else {
                    proof {
                        assert forall|b: int| #[trigger]
                            s.arc_ok(self.state(), cur as int, d, b) by {}
                    }
                }
                k += 1;
            }
            proof {
                let g = self.state();
                assert(s.settled(g, cur as int)) by {
                    assert forall|d: Direction, b: int| #[trigger]
                        s.arc_ok(g, cur as int, d, b) by {
                        if s.neighbor(cur as int, d) is Some {
                            let j = choose|j: int|
                                0 <= j < neighbors@.len() && (#[trigger] neighbors@[j]).1 == d;
                            assert(s.arc_ok(g, cur as int, neighbors@[j].1, b));
                        }
                    }
                }
                assert forall|p: int| #[trigger] s.tended(init, g, stack@, start, p) by {
                    if p != cur {
                        assert(s.tended(init, g, stack@, start, p));
                    }
                }
            }
        }
        proof {
            assert forall|p: int|
                0 <= p < s.cells() && #[trigger] touched(
                    init,
                    self.state(),
                    start,
                    p,
                ) implies s.settled(self.state(), p) && !blank(self.state()[p].mask) by {
                assert(s.tended(init, self.state(), stack@, start, p));
            }
        }
        Ok(())
    }

    /// Picks the uncollapsed cell to collapse next: the one whose key is
    /// lowest, and of several the first. The key of a cell is what `score`
    /// makes of the weights of the tiles possible there and of a word drawn
    /// from the random source; where those weights are all zero no word is
    /// drawn and `score` gets zero in its place. `None` means that every cell
    /// is collapsed. Of the model only the random source changes.
    pub(crate) fn find_lowest_entropy<F: Fn(&Vec<u32>, u64) -> u64>(&mut self, score: &F) -> (r: Option<
        usize,
    >)
        requires
            old(self).setting().shaped(old(self).state()),
            forall|w: &Vec<u32>, word: u64| call_requires(score, (w, word)),
        ensures
            final(self).setting() == old(self).setting(),
            final(self).rule_set() == old(self).rule_set(),
            final(self).state() == old(self).state(),
            r is Some ==> r->0 < old(self).setting().cells() && !old(self).state()[r->0 as int].collapsed,
            exists|keys: Seq<Option<u64>>|
                keyed(old(self).setting(), old(self).state(), score, keys) && #[trigger] is_lowest(
                    keys,
                    r,
                ),
            r is None <==> forall|p: int|
                0 <= p < old(self).setting().cells() ==> (#[trigger] old(self).state()[p]).collapsed,
    {
        let mut keys: Vec<Option<u64>> = Vec::new();
        let mut i: usize = 0;
        while i < self.grid.len()
            invariant
                self.setting() == old(self).setting(),
                self.rule_set() == old(self).rule_set(),
                self.state() == old(self).state(),
                self.setting().shaped(self.state()),
                forall|w: &Vec<u32>, word: u64| call_requires(score, (w, word)),
                i <= self.grid@.len(),
                keys@.len() == i,
                forall|j: int| 0 <= j < i ==> (keys@[j] is Some <==> !self.state()[j].collapsed),
                forall|j: int|
                    0 <= j < i && !self.state()[j].collapsed ==> scored(
                        self.setting(),
                        self.state()[j].mask,
                        score,
                        (#[trigger] keys@[j])->0,
                    ),
            decreases self.grid.len() - i,
        {
            assert(self.grid@[i as int]@ == self.state()[i as int]);
            if self.grid[i].collapsed {
                keys.push(None);
            } else {
                let weights = self.candidate_weights(i);
                let word = if any_weight(&weights) {
                    draw_word(&mut self.rng)
                } else {
                    0
                };
                let key = score(&weights, word);
                let ghost before = keys@;
                keys.push(Some(key));
                proof {
                    assert(call_ensures(score, (&weights, word), key));
                    assert(scored(self.setting(), self.state()[i as int].mask, score, key));
                    assert forall|j: int| 0 <= j < i + 1 && !self.state()[j].collapsed implies scored(
                        self.setting(),
                        self.state()[j].mask,
                        score,
                        (#[trigger] keys@[j])->0,
                    ) by {
                        if j < i {
                            assert(keys@[j] == before[j]);
                        }
                    }
                }
            }
            i += 1;
        }
        let r = lowest_key(&keys);
        proof {
            assert(keyed(self.setting(), self.state(), score, keys@));
            if r is None {
                assert forall|p: int| 0 <= p < self.state().len() implies (
                #[trigger] self.state()[p]).collapsed by {
                    assert(keys@[p] is None);
                }
            } else {
                assert(keys@[r->0 as int] is Some);
            }
        }
        r
    }

    /// Goes back to the most recent decision that leaves a way open: takes
    /// the decisions off the history, newest first, and for each restores the
    /// grid from before it, strikes out the tile that was tried, and
    /// propagates from the decided cell, until a propagation succeeds.
    /// Returns whether one did; if none did the history is empty.
    ///
    /// On success the grid is what propagation makes of the alternative of
    /// the last decision taken off, and every decision taken off before it
    /// was exhausted; on failure every decision was. The random source is
    /// not touched.
    pub(crate) fn backtrack(&mut self, history: &mut Vec<Decision>) -> (r: bool)
        requires
            old(self).setting().wf(),
            old(self).setting().shaped(old(self).state()),
            forall|j: int|
                0 <= j < old(history)@.len() ==> old(self).setting().trial_ok(
                    #[trigger] trail(old(history)@)[j],
                ),
        ensures
            final(self).setting() == old(self).setting(),
            final(self).rule_set() == old(self).rule_set(),
            final(self).setting().shaped(final(self).state()),
            final(history)@.len() <= old(history)@.len(),
            trail(final(history)@) == trail(old(history)@).take(final(history)@.len() as int),
            r ==> final(self).setting().consistent(final(self).state()) && budget(
                rank(final(self).state()),
            ) + debt(trail(final(history)@)) <= debt(trail(old(history)@)),
            !r ==> final(history)@.len() == 0,
            final(self).source() == old(self).source(),
            r ==> final(history)@.len() < old(history)@.len() && landed(
                old(self).setting(),
                trail(old(history)@)[final(history)@.len() as int],
                final(self).state(),
            ),
            forall|j: int|
                final(history)@.len() + (if r { 1int } else { 0int }) <= j < old(history)@.len()
                    ==> old(self).setting().exhausted(#[trigger] trail(old(history)@)[j]),
            !r && old(history)@.len() > 0 ==> narrowed(
                alternative(trail(old(history)@)[0]),
                final(self).state(),
            ),
            r ==> exists|j: int|
                0 <= j < old(history)@.len() && below(
                    final(self).state(),
                    (#[trigger] trail(old(history)@)[j]).snapshot,
                ),
            r ==> forall|a: Seq<int>|
                old(self).setting().strict(a) && #[trigger] old(self).setting().open_to(
                    trail(old(history)@),
                    a,
                ) ==> old(self).setting().fits(a, final(self).state()) || old(self).setting().open_to(trail(final(history)@), a),
            !r ==> forall|a: Seq<int>|
                old(self).setting().strict(a) ==> !#[trigger] old(self).setting().open_to(
                    trail(old(history)@),
                    a,
                ),
            old(history)@.len() > 0 ==> final(self).setting().consistent(final(self).state()),
            old(history)@.len() == 0 ==> !r && final(self).state() == old(self).state(),
    {
        let ghost s = self.setting();
        let ghost trials = trail(history@);
        while history.len() > 0
            invariant
                s == old(self).setting(),
                trials == trail(old(history)@),
                self.setting() == s,
                self.rule_set() == old(self).rule_set(),
                s.wf(),
                s.shaped(self.state()),
                history@.len() <= trials.len(),
                trail(history@) == trials.take(history@.len() as int),
                forall|j: int| 0 <= j < trials.len() ==> s.trial_ok(#[trigger] trials[j]),
                debt(trail(history@)) <= debt(trials),
                self.source() == old(self).source(),
                forall|j: int|
                    history@.len() <= j < trials.len() ==> s.exhausted(#[trigger] trials[j]),
                history@.len() < trials.len() ==> narrowed(
                    alternative(trials[history@.len() as int]),
                    self.state(),
                ),
                forall|a: Seq<int>|
                    s.strict(a) && #[trigger] s.open_to(trials, a) ==> s.open_to(
                        trail(history@),
                        a,
                    ),
                history@.len() < trials.len() ==> s.consistent(self.state()),
                history@.len() == trials.len() ==> self.state() == old(self).state(),
            decreases history@.len(),
        {
            let ghost before = trail(history@);
            let entry = history.pop().unwrap();
            let index = entry.index;
            let tile = entry.tile;
            let ghost trial = entry@;
            proof {
                assert(trial == before.last());
                assert(trial == trials[history@.len() as int]);
                assert(trail(history@) =~= before.drop_last());
                assert(trail(history@) =~= trials.take(history@.len() as int));
                s.lemma_alternative(trial);
            }
            self.grid = entry.snapshot;
            assert(self.state() == trial.snapshot);
            assert(self.grid@[index as int]@ == self.state()[index as int]);
            let mut mask = copy_mask(&self.grid[index].possibilities);
            mask.set(tile, false);
            let none_left = is_blank(&mask);
            self.grid.set(index, Cell { collapsed: false, possibilities: mask });
            assert(self.state() =~= alternative(trial));
            let ghost restored = self.state();
            if !none_left {
                match self.propagate(index) {
                    Ok(()) => {
                        proof {
                            s.lemma_narrowed_consistent(restored, self.state());
                            Setting::lemma_narrowed_rank(restored, self.state());
                            lemma_budget(rank(self.state()), rank(restored));
                            lemma_narrowed_twice(trial.snapshot, restored, self.state());
                            assert(below(self.state(), trials[history@.len() as int].snapshot));
                            assert(landed(s, trial, self.state()));
                            assert forall|a: Seq<int>| s.strict(a) && #[trigger] s.open_to(
                                trials,
                                a,
                            ) implies s.fits(a, self.state()) || s.open_to(trail(history@), a) by {
                                assert(s.open_to(before, a));
                                s.lemma_open_to_last(before, a);
                                if s.fits(a, restored) {
                                    assert(s.fits(a, self.state()));
                                }
                            }
                        }
                        return true;
                    },
                    Err(_) => {
                        proof {
                            s.lemma_narrowed_consistent(restored, self.state());
                            let q = choose|q: int|
                                0 <= q < s.cells() && blank((#[trigger] self.state()[q]).mask);
                            s.lemma_blank_dead(self.state(), q);
                            assert forall|a: Seq<int>| s.strict(a) implies !#[trigger] s.fits(
                                a,
                                restored,
                            ) by {
                                if s.fits(a, restored) {
                                    assert(s.fits(a, self.state()));
                                }
                            }
                        }
                    },
                }
            } else {
                proof {
                    s.lemma_blank_dead(restored, index as int);
                    s.lemma_blank_exhausted(trial);
                }
            }
            proof {
                assert(s.exhausted(trial));
                assert(narrowed(alternative(trial), self.state()));
            }
            proof {
                assert forall|a: Seq<int>| s.strict(a) && #[trigger] s.open_to(
                    trials,
                    a,
                ) implies s.open_to(trail(history@), a) by {
                    assert(s.open_to(before, a));
                    s.lemma_open_to_last(before, a);
                    assert(!s.fits(a, restored));
                }
            }
        }
        proof {
            assert(trail(history@) =~= Seq::<Trial>::empty());
        }
        false
    }

    /// The tiles of the grid, row by row, where every cell is collapsed to
    /// one tile.
    pub fn read_out(&self) -> (r: Result<Vec<TileId>, WfcError>)
        requires
            self.wf(),
        ensures
            match r {
                Ok(out) => {
                    &&& forall|p: int|
                        0 <= p < self.setting().cells() ==> (#[trigger] self.state()[p]).collapsed
                    &&& texts(out@) == named(self.rule_set(), readout(self.state()))
                },
                Err(e) => e is Contradiction && exists|p: int|
                    0 <= p < self.setting().cells() && !(#[trigger] self.state()[p]).collapsed,
            },
    {
        let ghost s = self.setting();
        let ghost a = readout(self.state());
        let mut out: Vec<TileId> = Vec::new();
        let mut p: usize = 0;
        while p < self.grid.len()
            invariant
                self.wf(),
                s == self.setting(),
                a == readout(self.state()),
                p <= self.grid@.len(),
                out@.len() == p,
                forall|c: int| 0 <= c < p ==> (#[trigger] self.state()[c]).collapsed,
                forall|c: int| 0 <= c < p ==> (#[trigger] out@[c])@ == self.rule_set().ids()[a[c]],
            decreases self.grid.len() - p,
        {
            assert(self.grid@[p as int]@ == self.state()[p as int]);
            if !self.grid[p].collapsed {
                return Err(WfcError::Contradiction);
            }
            match sole(&self.grid[p].possibilities) {
                Some(t) => {
                    proof {
                        assert(crate::grid::decided(self.state()[p as int].mask));
                        assert(selects_only(self.state()[p as int].mask, a[p as int]));
                        assert(self.state()[p as int].mask[t as int]);
                    }
                    out.push(self.rules.tile_at(t).id.clone());
                },
                None => {
                    proof {
                        assert(crate::grid::decided(self.state()[p as int].mask));
                        assert(selects_only(self.state()[p as int].mask, a[p as int]));
                    }
                    return Err(WfcError::Contradiction);
                },
            }
            p += 1;
        }
        proof {
            assert(texts(out@) =~= named(self.rule_set(), a));
        }
        Ok(out)
    }

    /// Solves the grid: while `find_lowest_entropy` picks a cell, collapses
    /// it and propagates, and on failure backtracks. `score` gives each
    /// uncollapsed cell its key, as `find_lowest_entropy` says.
    ///
    /// On success the result names one declared tile for each cell, row by
    /// row, such that of every two adjacent cells at least one obeys its rule
    /// toward the other, and the grid shows that result. The only error is
    /// `Contradiction`. Success is owed where every weight is positive and
    /// some assignment that obeys every rule fits the grid as it was,
    /// whatever the random source and `score` give.
    pub fn run<F: Fn(&Vec<u32>, u64) -> u64>(&mut self, score: F) -> (r: Result<
        Vec<TileId>,
        WfcError,
    >)
        requires
            old(self).wf(),
            forall|w: &Vec<u32>, word: u64| call_requires(score, (w, word)),
        ensures
            final(self).wf(),
            final(self).setting() == old(self).setting(),
            final(self).rule_set() == old(self).rule_set(),
            match r {
                Ok(out) => {
                    &&& tiling(old(self).rule_set(), old(self).setting(), texts(out@))
                    &&& obeys_one_way(old(self).rule_set(), old(self).setting(), texts(out@))
                    &&& symmetric(old(self).rule_set()) ==> obeys(
                        old(self).rule_set(),
                        old(self).setting(),
                        texts(out@),
                    )
                    &&& forall|p: int|
                        0 <= p < old(self).setting().cells() ==> (#[trigger] final(self).state()[p]).collapsed
                    &&& texts(out@) == named(old(self).rule_set(), readout(final(self).state()))
                    &&& old(self).setting().shows(final(self).state(), readout(final(self).state()))
                    &&& old(self).setting().fits(readout(final(self).state()), old(self).state())
                    &&& forall|p: int|
                        0 <= p < old(self).setting().cells() ==> old(self).possible(p).contains(
                            #[trigger] texts(out@)[p],
                        )
                },
                Err(e) => e is Contradiction,
            },
            (positive(old(self).setting().weights) && exists|a: Seq<int>|
                old(self).setting().strict(a) && old(self).setting().fits(a, old(self).state()))
                ==> r is Ok,
            ruleless(old(self).rule_set()) && old(self).setting().cells() > 1 ==> r is Err,
    {
        let ghost s = self.setting();
        let ghost init = self.state();
        let mut history: Vec<Decision> = Vec::new();
        proof {
            assert(trail(history@) =~= Seq::<Trial>::empty());
        }
        loop
            invariant
                s == old(self).setting(),
                init == old(self).state(),
                self.setting() == s,
                self.rule_set() == old(self).rule_set(),
                tied(s, self.rule_set()),
                s.consistent(self.state()),
                forall|w: &Vec<u32>, word: u64| call_requires(score, (w, word)),
                forall|j: int| 0 <= j < history@.len() ==> s.trial_ok(#[trigger] trail(history@)[j]),
                below(self.state(), init),
                forall|j: int|
                    0 <= j < history@.len() ==> below((#[trigger] trail(history@)[j]).snapshot, init),
                positive(s.weights) ==> s.covers(init, self.state(), trail(history@)),
            ensures
                below(self.state(), init),
                forall|p: int| 0 <= p < s.cells() ==> (#[trigger] self.state()[p]).collapsed,
            decreases budget(rank(self.state())) + debt(trail(history@)),
        {
            let ghost g = self.state();
            let ghost h = trail(history@);
            let found = self.find_lowest_entropy(&score);
            match found {
                None => {
                    break;
                },
                Some(index) => {
                    let snapshot = copy_grid(&self.grid);
                    match self.collapse_cell(index) {
                        Ok(tile) => {
                            let ghost trial = Trial {
                                snapshot: g,
                                index: index as int,
                                tile: tile as int,
                            };
                            let ghost g1 = self.state();
                            history.push(Decision { snapshot, index, tile });
                            let ghost h1 = trail(history@);
                            proof {
                                assert(h1 =~= h.push(trial));
                                lemma_debt_push(h, trial);
                                s.lemma_alternative(trial);
                                s.lemma_collapse_rank(g, index as int, tile as int);
                                assert forall|j: int| 0 <= j < h1.len() implies s.trial_ok(
                                    #[trigger] h1[j],
                                ) && below(h1[j].snapshot, init) by {
                                    if j < h.len() {
                                        assert(h1[j] == h[j]);
                                    }
                                }
                                if positive(s.weights) {
                                    assert forall|a: Seq<int>| s.strict(a) && #[trigger] s.fits(
                                        a,
                                        init,
                                    ) implies s.fits(a, g1) || s.open_to(h1, a) by {
                                        if s.fits(a, g) {
                                            s.lemma_decision_splits(trial, a);
                                        }
                                        if !s.fits(a, g1) {
                                            s.lemma_open_to_push(h, trial, a);
                                        }
                                    }
                                }
                            }
                            match self.propagate(index) {
                                Ok(()) => {
                                    proof {
                                        assert(below(self.state(), init)) by {
                                            assert forall|c: int| 0 <= c < init.len() implies within(
                                                (#[trigger] self.state()[c]).mask,
                                                init[c].mask,
                                            ) by {
                                                assert(within(self.state()[c].mask, g1[c].mask));
                                                assert(within(g[c].mask, init[c].mask));
                                            }
                                        }
                                        assert(touched(g1, self.state(), index as int, index as int));
                                        s.lemma_collapse_consistent(
                                            g,
                                            g1,
                                            self.state(),
                                            index as int,
                                            tile as int,
                                        );
                                        Setting::lemma_narrowed_rank(g1, self.state());
                                        lemma_budget_split(
                                            rank(self.state()),
                                            rank(alternative(trial)),
                                            rank(g),
                                        );
                                        if positive(s.weights) {
                                            assert forall|a: Seq<int>|
                                                s.strict(a) && #[trigger] s.fits(
                                                    a,
                                                    init,
                                                ) implies s.fits(a, self.state()) || s.open_to(
                                                h1,
                                                a,
                                            ) by {
                                                if s.fits(a, g1) {
                                                    assert(s.fits(a, self.state()));
                                                }
                                            }
                                        }
                                    }
                                },
                                Err(_) => {
                                    let ghost failed = self.state();
                                    proof {
                                        let q = choose|q: int|
                                            0 <= q < s.cells() && blank(
                                                (#[trigger] failed[q]).mask,
                                            );
                                        s.lemma_blank_dead(failed, q);
                                        if positive(s.weights) {
                                            assert forall|a: Seq<int>|
                                                s.strict(a) && #[trigger] s.fits(
                                                    a,
                                                    init,
                                                ) implies s.open_to(h1, a) by {
                                                if s.fits(a, g1) {
                                                    assert(s.fits(a, failed));
                                                }
                                            }
                                        }
                                    }
                                    if !self.backtrack(&mut history) {
                                        proof {
                                            if positive(s.weights) {
                                                assert forall|a: Seq<int>|
                                                    s.strict(a) implies !s.fits(a, init) by {
                                                    if s.fits(a, init) {
                                                        assert(s.open_to(h1, a));
                                                    }
                                                }
                                            }
                                        }
                                        return Err(WfcError::Contradiction);
                                    }
                                    proof {
                                        let h2 = trail(history@);
                                        assert forall|j: int| 0 <= j < h2.len() implies s.trial_ok(
                                            #[trigger] h2[j],
                                        ) && below(h2[j].snapshot, init) by {
                                            assert(h2[j] == h1[j]);
                                        }
                                        let j = choose|j: int|
                                            0 <= j < h1.len() && below(
                                                self.state(),
                                                (#[trigger] h1[j]).snapshot,
                                            );
                                        lemma_below_twice(self.state(), h1[j].snapshot, init);
                                        lemma_budget(rank(alternative(trial)), rank(g));
                                        if positive(s.weights) {
                                            assert forall|a: Seq<int>|
                                                s.strict(a) && #[trigger] s.fits(
                                                    a,
                                                    init,
                                                ) implies s.fits(a, self.state()) || s.open_to(
                                                h2,
                                                a,
                                            ) by {
                                                assert(s.open_to(h1, a));
                                            }
                                        }
                                    }
                                },
                            }
                        },
                        Err(_) => {
                            proof {
                                if positive(s.weights) {
                                    s.lemma_weightless_blank(g[index as int].mask);
                                    s.lemma_blank_dead(g, index as int);
                                    assert forall|a: Seq<int>| s.strict(a) && #[trigger] s.fits(
                                        a,
                                        init,
                                    ) implies s.open_to(h, a) by {
                                        assert(!s.fits(a, g));
                                    }
                                }
                            }
                            if !self.backtrack(&mut history) {
                                proof {
                                    if positive(s.weights) {
                                        assert forall|a: Seq<int>| s.strict(a) implies !s.fits(
                                            a,
                                            init,
                                        ) by {
                                            if s.fits(a, init) {
                                                assert(s.open_to(h, a));
                                            }
                                        }
                                    }
                                }
                                return Err(WfcError::Contradiction);
                            }
                            proof {
                                let h2 = trail(history@);
                                assert forall|j: int| 0 <= j < h2.len() implies s.trial_ok(
                                    #[trigger] h2[j],
                                ) && below(h2[j].snapshot, init) by {
                                    assert(h2[j] == h[j]);
                                }
                                let j = choose|j: int|
                                    0 <= j < h.len() && below(
                                        self.state(),
                                        (#[trigger] h[j]).snapshot,
                                    );
                                lemma_below_twice(self.state(), h[j].snapshot, init);
                                lemma_budget(rank(g), rank(g));
                                if positive(s.weights) {
                                    assert forall|a: Seq<int>| s.strict(a) && #[trigger] s.fits(
                                        a,
                                        init,
                                    ) implies s.fits(a, self.state()) || s.open_to(h2, a) by {
                                        assert(s.open_to(h, a));
                                    }
                                }
                            }
                        },
                    }
                },
            }
        }
        let r = self.read_out();
        proof {
            if r is Ok {
                s.lemma_readout(self.state());
                lemma_named(self.rule_set(), s, readout(self.state()));
                let a = readout(self.state());
                let out = named(self.rule_set(), a);
                assert forall|p: int| 0 <= p < s.cells() implies (#[trigger] init[p]).mask[a[p]] by {
                    assert(self.state()[p].mask[a[p]]);
                    assert(within(self.state()[p].mask, init[p].mask));
                }
                assert forall|p: int| 0 <= p < s.cells() implies old(self).possible(p).contains(
                    #[trigger] out[p],
                ) by {
                    assert(init[p].mask[a[p]]);
                }
                if symmetric(self.rule_set()) {
                    lemma_symmetric_obeys(
                        self.rule_set(),
                        s,
                        named(self.rule_set(), readout(self.state())),
                    );
                }
                if ruleless(self.rule_set()) && s.cells() > 1 {
                    lemma_ruleless_unsolvable(
                        self.rule_set(),
                        s,
                        named(self.rule_set(), readout(self.state())),
                    );
                }
            }
        }
        match r {
            Ok(out) => Ok(out),
            Err(_) => Err(WfcError::Contradiction),
        }
    }
}

impl Clone for Model {
    /// A model with the same rule set and grid, and a random source in the
    /// same state: what the one does next, the other does too.
    fn clone(&self) -> (r: Model)
        ensures
            r.setting() == self.setting(),
            r.state() == self.state(),
            r.source() == self.source(),
            r.rule_set()@ == self.rule_set()@,
            r.rule_set().ids() == self.rule_set().ids(),
            r.rule_set().weights() == self.rule_set().weights(),
            r.wf() == self.wf(),
    {
        let r = Model {
            width: self.width,
            height: self.height,
            grid: copy_grid(&self.grid),
            rules: self.rules.clone(),
            rng: copy_of(&self.rng),
            weights: copy_weights(&self.weights),
            allowed: copy_table(&self.allowed),
        };
        proof {
            let s = self.setting();
            assert(r.setting() == s);
            assert forall|a: int, d: Direction, b: int|
                r.rule_set().allows(r.rule_set().ids()[a], d, r.rule_set().ids()[b])
                    == self.rule_set().allows(
                    self.rule_set().ids()[a],
                    d,
                    self.rule_set().ids()[b],
                ) by {}
            assert(tied(s, r.rule_set()) == tied(s, self.rule_set()));
        }
        r
    }
}

} // verus!
