//! Rule sets: the declared tiles with their weights, and for each tile and
//! direction the tiles allowed next to it.
use vstd::prelude::*;
use crate::error::WfcError;
use crate::order::{
    ascending, lemma_ascending_distinct, lemma_precedes_strict, place, precedes, Placement,
};
use crate::{Direction, TileId};

verus! {

/// A declared tile: its identifier and its weight in random choices.
#[derive(Debug, Clone)]
pub struct TileInfo {
    pub id: TileId,
    pub weight: u32,
}

/// One directed rule: `to` may stand next to `from` on the side `direction`.
#[derive(Debug, Clone)]
pub struct Rule {
    pub from: TileId,
    pub to: TileId,
    pub direction: Direction,
}

/// The tiles allowed next to one tile on one side.
#[derive(Debug, Clone)]
pub struct NeighborList {
    from: TileId,
    direction: Direction,
    allowed: Vec<TileId>,
}

/// Tiles and adjacency rules. Tiles are kept in ascending order of their
/// identifiers; every (tile, direction) pair has at most one neighbor list,
/// and no list names a tile twice.
#[derive(Debug)]
pub struct RuleSet {
    tiles: Vec<TileInfo>,
    adjacency: Vec<NeighborList>,
}

/// What a rule set holds: the weight of each declared tile, and the set of
/// allowed neighbors for each (tile, direction) pair that has a rule. A pair
/// without an entry allows no neighbor at all.
pub struct RuleSetView {
    pub tiles: Map<Seq<char>, u32>,
    pub adjacency: Map<(Seq<char>, Direction), Set<Seq<char>>>,
}

/// The identifiers of a sequence of strings.
pub open spec fn texts(v: Seq<String>) -> Seq<Seq<char>> {
    Seq::new(v.len(), |i: int| v[i]@)
}

/// Some position of `id` in `ids`.
pub open spec fn slot(ids: Seq<Seq<char>>, id: Seq<char>) -> int {
    choose|i: int| 0 <= i < ids.len() && ids[i] == id
}

/// The map from each listed identifier to the weight at its position.
pub open spec fn tile_map(ids: Seq<Seq<char>>, weights: Seq<u32>) -> Map<Seq<char>, u32> {
    Map::new(|id: Seq<char>| ids.contains(id), |id: Seq<char>| weights[slot(ids, id)])
}

/// Some position of `key` in `keys`.
pub open spec fn key_slot(keys: Seq<(Seq<char>, Direction)>, key: (Seq<char>, Direction)) -> int {
    choose|k: int| 0 <= k < keys.len() && keys[k] == key
}

/// The map from each listed key to the set of identifiers in its list.
pub open spec fn rule_map(keys: Seq<(Seq<char>, Direction)>, lists: Seq<Seq<Seq<char>>>) -> Map<
    (Seq<char>, Direction),
    Set<Seq<char>>,
> {
    Map::new(
        |key: (Seq<char>, Direction)| keys.contains(key),
        |key: (Seq<char>, Direction)| lists[key_slot(keys, key)].to_set(),
    )
}

/// In a list without duplicates each key is found at its own position.
pub proof fn lemma_key_slot(keys: Seq<(Seq<char>, Direction)>, k: int)
    requires
        keys.no_duplicates(),
        0 <= k < keys.len(),
    ensures
        keys.contains(keys[k]),
        key_slot(keys, keys[k]) == k,
{
}

/// In an ascending list each identifier is found at its own position.
pub proof fn lemma_slot(ids: Seq<Seq<char>>, i: int)
    requires
        ascending(ids),
        0 <= i < ids.len(),
    ensures
        ids.contains(ids[i]),
        slot(ids, ids[i]) == i,
{
    let j = slot(ids, ids[i]);
    lemma_ascending_distinct(ids, i, j);
}

/// Every listed identifier has a position that holds it.
pub proof fn lemma_slot_of(ids: Seq<Seq<char>>, id: Seq<char>)
    requires
        ids.contains(id),
    ensures
        0 <= slot(ids, id) < ids.len(),
        ids[slot(ids, id)] == id,
{
}

/// Giving the tile at `i` a new weight changes the map at its identifier only.
proof fn lemma_tile_map_update(ids: Seq<Seq<char>>, weights: Seq<u32>, i: int, w: u32)
    requires
        ascending(ids),
        ids.len() == weights.len(),
        0 <= i < ids.len(),
    ensures
        tile_map(ids, weights.update(i, w)) =~= tile_map(ids, weights).insert(ids[i], w),
{
    lemma_slot(ids, i);
    assert forall|id: Seq<char>| ids.contains(id) && id != ids[i] implies slot(ids, id) != i by {
        lemma_slot_of(ids, id);
    }
}

/// Inserting a tile that keeps the list ascending adds its identifier to the
/// map and changes nothing else.
proof fn lemma_tile_map_insert(
    ids: Seq<Seq<char>>,
    weights: Seq<u32>,
    i: int,
    id: Seq<char>,
    w: u32,
)
    requires
        ascending(ids),
        ascending(ids.insert(i, id)),
        ids.len() == weights.len(),
        0 <= i <= ids.len(),
    ensures
        tile_map(ids.insert(i, id), weights.insert(i, w)) =~= tile_map(ids, weights).insert(id, w),
{
    let ids2 = ids.insert(i, id);
    let weights2 = weights.insert(i, w);
    lemma_slot(ids2, i);
    assert forall|x: Seq<char>| ids2.contains(x) <==> (x == id || ids.contains(x)) by {
        if ids2.contains(x) {
            let j = slot(ids2, x);
            if j < i {
                assert(ids[j] == x);
            } else if j > i {
                assert(ids[j - 1] == x);
            }
        }
        if ids.contains(x) {
            let j = slot(ids, x);
            if j < i {
                assert(ids2[j] == x);
            } else {
                assert(ids2[j + 1] == x);
            }
        }
    }
    assert forall|x: Seq<char>| ids.contains(x) && x != id implies weights2[slot(ids2, x)]
        == weights[slot(ids, x)] by {
        let j = slot(ids, x);
        let j2 = if j < i { j } else { j + 1 };
        assert(ids2[j2] == x);
        lemma_slot(ids2, j2);
    }
}

/// Replacing the list at `k` changes the map at the key of that list only.
proof fn lemma_rule_map_update(
    keys: Seq<(Seq<char>, Direction)>,
    lists: Seq<Seq<Seq<char>>>,
    k: int,
    list: Seq<Seq<char>>,
)
    requires
        keys.no_duplicates(),
        keys.len() == lists.len(),
        0 <= k < keys.len(),
    ensures
        rule_map(keys, lists.update(k, list)) =~= rule_map(keys, lists).insert(
            keys[k],
            list.to_set(),
        ),
{
    lemma_key_slot(keys, k);
    assert forall|key: (Seq<char>, Direction)| keys.contains(key) && key != keys[k] implies key_slot(
        keys,
        key,
    ) != k by {}
}

/// A list under a new key adds that key to the map and changes nothing else.
proof fn lemma_rule_map_push(
    keys: Seq<(Seq<char>, Direction)>,
    lists: Seq<Seq<Seq<char>>>,
    key: (Seq<char>, Direction),
    list: Seq<Seq<char>>,
)
    requires
        keys.no_duplicates(),
        keys.len() == lists.len(),
        !keys.contains(key),
    ensures
        keys.push(key).no_duplicates(),
        rule_map(keys.push(key), lists.push(list)) =~= rule_map(keys, lists).insert(
            key,
            list.to_set(),
        ),
{
    let keys2 = keys.push(key);
    let lists2 = lists.push(list);
    assert(keys2[keys.len() as int] == key);
    lemma_key_slot(keys2, keys.len() as int);
    assert forall|x: (Seq<char>, Direction)| keys2.contains(x) <==> (x == key || keys.contains(
        x,
    )) by {
        if keys2.contains(x) {
            let j = key_slot(keys2, x);
            if j < keys.len() {
                assert(keys[j] == x);
            }
        }
        if keys.contains(x) {
            let j = key_slot(keys, x);
            assert(keys2[j] == x);
        }
    }
    assert forall|x: (Seq<char>, Direction)| keys.contains(x) implies lists2[key_slot(keys2, x)]
        == lists[key_slot(keys, x)] by {
        let j = key_slot(keys, x);
        assert(keys2[j] == x);
        lemma_key_slot(keys2, j);
    }
}

/// Some tile of the list has the identifier `id`.
pub open spec fn declared_among(tiles: Seq<TileInfo>, id: Seq<char>) -> bool {
    exists|i: int| 0 <= i < tiles.len() && (#[trigger] tiles[i]).id@ == id
}

/// Both tiles of the rule are among the listed tiles.
pub open spec fn rule_known(tiles: Seq<TileInfo>, rule: Rule) -> bool {
    declared_among(tiles, rule.from@) && declared_among(tiles, rule.to@)
}

/// The weights that a list of tiles declares: each tile's weight under its
/// identifier, a later tile replacing an earlier one of the same identifier.
pub open spec fn tiles_of(tiles: Seq<TileInfo>) -> Map<Seq<char>, u32>
    decreases tiles.len(),
{
    if tiles.len() == 0 {
        Map::empty()
    } else {
        tiles_of(tiles.drop_last()).insert(tiles.last().id@, tiles.last().weight)
    }
}

/// The adjacency that a list of rules declares: for each (tile, direction)
/// pair that a rule starts from, the tiles that the rules from it lead to.
pub open spec fn rules_of(rules: Seq<Rule>) -> Map<(Seq<char>, Direction), Set<Seq<char>>>
    decreases rules.len(),
{
    if rules.len() == 0 {
        Map::empty()
    } else {
        let before = rules_of(rules.drop_last());
        let key = (rules.last().from@, rules.last().direction);
        let known = if before.dom().contains(key) {
            before[key]
        } else {
            Set::empty()
        };
        before.insert(key, known.insert(rules.last().to@))
    }
}

/// The lists are refused with the error `e`: with the identifier of an
/// undeclared tile of the first rule that has one, of its two tiles the one
/// it starts from; or, where every rule is known, for want of tiles.
pub open spec fn refused_with(tiles: Seq<TileInfo>, rules: Seq<Rule>, e: WfcError) -> bool {
    match e {
        WfcError::InvalidTileId(id) => exists|k: int|
            {
                &&& 0 <= k < rules.len()
                &&& forall|j: int| 0 <= j < k ==> rule_known(tiles, #[trigger] rules[j])
                &&& !rule_known(tiles, #[trigger] rules[k])
                &&& id@ == if !declared_among(tiles, rules[k].from@) {
                    rules[k].from@
                } else {
                    rules[k].to@
                }
            },
        WfcError::NoTilesDefined => {
            &&& tiles.len() == 0
            &&& forall|k: int| 0 <= k < rules.len() ==> rule_known(tiles, #[trigger] rules[k])
        },
        _ => false,
    }
}

/// The rule `rule` is the rule from `from` to `to` on the side `direction`.
pub open spec fn rule_is(rule: Rule, from: Seq<char>, direction: Direction, to: Seq<char>) -> bool {
    rule.from@ == from && rule.direction == direction && rule.to@ == to
}

/// The list holds the rule from `from` to `to` on the side `direction`.
pub open spec fn listed(r: Seq<Rule>, from: Seq<char>, direction: Direction, to: Seq<char>) -> bool {
    exists|i: int| 0 <= i < r.len() && rule_is(#[trigger] r[i], from, direction, to)
}

/// A list with one rule more holds every rule that it held before.
pub proof fn lemma_listed_push(
    r: Seq<Rule>,
    rule: Rule,
    from: Seq<char>,
    direction: Direction,
    to: Seq<char>,
)
    requires
        listed(r, from, direction, to),
    ensures
        listed(r.push(rule), from, direction, to),
{
    let i = choose|i: int| 0 <= i < r.len() && rule_is(#[trigger] r[i], from, direction, to);
    assert(r.push(rule)[i] == r[i]);
}

/// Whether `list` names the tile `id`.
pub fn names(list: &Vec<TileId>, id: &str) -> (r: bool)
    ensures
        r == texts(list@).contains(id@),
{
    let mut j: usize = 0;
    while j < list.len()
        invariant
            j <= list@.len(),
            forall|m: int| 0 <= m < j ==> texts(list@)[m] != id@,
        decreases list.len() - j,
    {
        match place(list[j].as_str(), id) {
            Placement::Same => {
                assert(texts(list@)[j as int] == id@);
                return true;
            },
            _ => {},
        }
        j += 1;
    }
    false
}

impl RuleSet {
    /// The declared identifiers, in ascending order.
    pub closed spec fn ids(&self) -> Seq<Seq<char>> {
        Seq::new(self.tiles@.len(), |i: int| self.tiles@[i].id@)
    }

    /// The weights of the declared tiles, in the order of `ids`.
    pub closed spec fn weights(&self) -> Seq<u32> {
        Seq::new(self.tiles@.len(), |i: int| self.tiles@[i].weight)
    }

    /// The (tile, direction) pairs that have a neighbor list, in the order of
    /// the lists.
    pub closed spec fn keys(&self) -> Seq<(Seq<char>, Direction)> {
        Seq::new(
            self.adjacency@.len(),
            |k: int| (self.adjacency@[k].from@, self.adjacency@[k].direction),
        )
    }

    /// The neighbor lists, each as a sequence of identifiers.
    pub closed spec fn lists(&self) -> Seq<Seq<Seq<char>>> {
        Seq::new(self.adjacency@.len(), |k: int| texts(self.adjacency@[k].allowed@))
    }

    /// The representation invariant.
    pub closed spec fn wf(&self) -> bool {
        &&& ascending(self.ids())
        &&& self.keys().no_duplicates()
        &&& forall|k: int| 0 <= k < self.lists().len() ==> (#[trigger] self.lists()[k]).no_duplicates()
    }

    /// `to` may stand next to `from` on the side `direction`.
    pub open spec fn allows(&self, from: Seq<char>, direction: Direction, to: Seq<char>) -> bool {
        &&& self@.adjacency.dom().contains((from, direction))
        &&& self@.adjacency[(from, direction)].contains(to)
    }
}

impl View for RuleSet {
    type V = RuleSetView;

    closed spec fn view(&self) -> RuleSetView {
        RuleSetView {
            tiles: tile_map(self.ids(), self.weights()),
            adjacency: rule_map(self.keys(), self.lists()),
        }
    }
}

impl RuleSet {
    /// The list `ids` is the ascending listing of the declared identifiers,
    /// and `weights` gives their weights in that order.
    pub proof fn lemma_listing(&self)
        requires
            self.wf(),
        ensures
            ascending(self.ids()),
            self.ids().len() == self.weights().len(),
            forall|id: Seq<char>| self@.tiles.dom().contains(id) <==> self.ids().contains(id),
            forall|i: int|
                0 <= i < self.ids().len() ==> self@.tiles.dom().contains(#[trigger] self.ids()[i])
                    && self@.tiles[self.ids()[i]] == self.weights()[i],
    {
        assert forall|i: int| 0 <= i < self.ids().len() implies self@.tiles.dom().contains(
            #[trigger] self.ids()[i],
        ) && self@.tiles[self.ids()[i]] == self.weights()[i] by {
            lemma_slot(self.ids(), i);
        }
    }

    /// An empty rule set.
    pub fn new() -> (r: RuleSet)
        ensures
            r.wf(),
            r@.tiles == Map::<Seq<char>, u32>::empty(),
            r@.adjacency == Map::<(Seq<char>, Direction), Set<Seq<char>>>::empty(),
            r.ids().len() == 0,
    {
        let r = RuleSet { tiles: Vec::new(), adjacency: Vec::new() };
        assert(r@.tiles =~= Map::<Seq<char>, u32>::empty());
        assert(r@.adjacency =~= Map::<(Seq<char>, Direction), Set<Seq<char>>>::empty());
        r
    }

    /// Where `id` stands among the declared tiles: the position of the first
    /// tile that does not precede it, and whether that tile is `id` itself.
    pub fn position(&self, id: &str) -> (r: (usize, bool))
        requires
            self.wf(),
        ensures
            r.0 <= self.ids().len(),
            forall|j: int| 0 <= j < r.0 ==> precedes(self.ids()[j], id@),
            r.1 ==> r.0 < self.ids().len() && self.ids()[r.0 as int] == id@,
            !r.1 ==> forall|j: int| r.0 <= j < self.ids().len() ==> precedes(id@, self.ids()[j]),
            r.1 <==> self@.tiles.dom().contains(id@),
    {
        let mut i: usize = 0;
        while i < self.tiles.len()
            invariant
                self.wf(),
                i <= self.tiles@.len(),
                forall|j: int| 0 <= j < i ==> precedes(self.ids()[j], id@),
            decreases self.tiles.len() - i,
        {
            match place(self.tiles[i].id.as_str(), id) {
                Placement::Before => {
                    i += 1;
                },
                Placement::Same => {
                    proof {
                        lemma_slot(self.ids(), i as int);
                    }
                    return (i, true);
                },
                Placement::After => {
                    proof {
                        self.lemma_absent(id@, i as int);
                    }
                    return (i, false);
                },
            }
        }
        proof {
            self.lemma_absent(id@, i as int);
        }
        (i, false)
    }

    /// An identifier that the first `i` tiles precede and that precedes the
    /// tile at `i`, if there is one, precedes all later tiles and is not
    /// declared.
    proof fn lemma_absent(&self, id: Seq<char>, i: int)
        requires
            self.wf(),
            0 <= i <= self.ids().len(),
            forall|j: int| 0 <= j < i ==> precedes(self.ids()[j], id),
            i < self.ids().len() ==> precedes(id, self.ids()[i]),
        ensures
            forall|j: int| i <= j < self.ids().len() ==> precedes(id, self.ids()[j]),
            !self@.tiles.dom().contains(id),
            !self.ids().contains(id),
    {
        let ids = self.ids();
        assert forall|j: int| i <= j < ids.len() implies precedes(id, ids[j]) by {
            if i < j {
                lemma_precedes_strict(id, ids[i], ids[j]);
            }
        }
        if ids.contains(id) {
            let j = slot(ids, id);
            lemma_precedes_strict(id, id, id);
        }
    }

    /// Declares the tile `id` with the given weight, or gives an already
    /// declared tile a new weight.
    pub fn add_tile(&mut self, id: TileId, weight: u32)
        requires
            old(self).wf(),
        ensures
            final(self).wf(),
            final(self)@.tiles == old(self)@.tiles.insert(id@, weight),
            final(self)@.adjacency == old(self)@.adjacency,
    {
        let (i, found) = self.position(id.as_str());
        let ghost ids = self.ids();
        let ghost weights = self.weights();
        let ghost name = id@;
        if found {
            self.tiles.set(i, TileInfo { id, weight });
            proof {
                assert(self.ids() =~= ids);
                assert(self.weights() =~= weights.update(i as int, weight));
                lemma_tile_map_update(ids, weights, i as int, weight);
            }
        } else {
            self.tiles.insert(i, TileInfo { id, weight });
            proof {
                assert(self.ids() =~= ids.insert(i as int, name));
                assert(self.weights() =~= weights.insert(i as int, weight));
                lemma_tile_map_insert(ids, weights, i as int, name, weight);
            }
        }
        proof {
            assert(self.keys() =~= old(self).keys());
            assert(self.lists() =~= old(self).lists());
        }
    }

    /// Number of declared tiles.
    pub fn tile_count(&self) -> (n: usize)
        ensures
            n == self.ids().len(),
    {
        self.tiles.len()
    }

    /// The `i`-th declared tile in ascending order of identifiers.
    pub fn tile_at(&self, i: usize) -> (t: &TileInfo)
        requires
            i < self.ids().len(),
        ensures
            t.id@ == self.ids()[i as int],
            t.weight == self.weights()[i as int],
    {
        &self.tiles[i]
    }

    /// The declared tile with the identifier `id`, if there is one.
    pub fn get_tile_info(&self, id: &TileId) -> (r: Option<&TileInfo>)
        requires
            self.wf(),
        ensures
            r is Some <==> self@.tiles.dom().contains(id@),
            r is Some ==> r->0.id@ == id@ && r->0.weight == self@.tiles[id@],
    {
        let (i, found) = self.position(id.as_str());
        if found {
            proof {
                lemma_slot(self.ids(), i as int);
            }
            Some(&self.tiles[i])
        } else {
            None
        }
    }

    /// The weight of the tile `tile_id`, if it is declared.
    pub fn get_weight(&self, tile_id: &str) -> (r: Option<u32>)
        requires
            self.wf(),
        ensures
            r == if self@.tiles.dom().contains(tile_id@) {
                Some(self@.tiles[tile_id@])
            } else {
                None
            },
    {
        let (i, found) = self.position(tile_id);
        if found {
            proof {
                lemma_slot(self.ids(), i as int);
            }
            Some(self.tiles[i].weight)
        } else {
            None
        }
    }

    /// The tiles allowed next to `from` on the side `direction`: none where
    /// the pair has no rule.
    pub open spec fn neighbors(&self, from: Seq<char>, direction: Direction) -> Set<Seq<char>> {
        if self@.adjacency.dom().contains((from, direction)) {
            self@.adjacency[(from, direction)]
        } else {
            Set::empty()
        }
    }

    /// The position of the neighbor list of `from` on the side `direction`.
    fn find_list(&self, from: &str, direction: Direction) -> (r: Option<usize>)
        requires
            self.wf(),
        ensures
            r is Some ==> r->0 < self.keys().len() && self.keys()[r->0 as int] == (from@, direction),
            r is Some <==> self.keys().contains((from@, direction)),
            r is Some <==> self@.adjacency.dom().contains((from@, direction)),
            r is Some ==> self@.adjacency[(from@, direction)] == self.lists()[r->0 as int].to_set(),
    {
        let mut k: usize = 0;
        while k < self.adjacency.len()
            invariant
                self.wf(),
                k <= self.adjacency@.len(),
                forall|m: int| 0 <= m < k ==> self.keys()[m] != (from@, direction),
            decreases self.adjacency.len() - k,
        {
            if self.adjacency[k].direction == direction {
                match place(self.adjacency[k].from.as_str(), from) {
                    Placement::Same => {
                        proof {
                            assert(self.keys()[k as int] == (from@, direction));
                            lemma_key_slot(self.keys(), k as int);
                        }
                        return Some(k);
                    },
                    _ => {},
                }
            }
            k += 1;
        }
        None
    }

    /// Allows `to` next to `from` on the side `direction`. Neither tile has
    /// to be declared. The rule is one-way: it says nothing of what may stand
    /// next to `to` on the opposite side.
    pub fn add_adjacency(&mut self, from: TileId, to: TileId, direction: Direction)
        requires
            old(self).wf(),
        ensures
            final(self).wf(),
            final(self)@.tiles == old(self)@.tiles,
            final(self)@.adjacency == old(self)@.adjacency.insert(
                (from@, direction),
                old(self).neighbors(from@, direction).insert(to@),
            ),
    {
        let ghost keys = self.keys();
        let ghost lists = self.lists();
        let ghost key = (from@, direction);
        let ghost target = to@;
        match self.find_list(from.as_str(), direction) {
            Some(k) => {
                let ghost list = lists[k as int];
                if !names(&self.adjacency[k].allowed, to.as_str()) {
                    self.adjacency[k].allowed.push(to);
                    proof {
                        assert(self.keys() =~= keys);
                        assert(texts(self.adjacency@[k as int].allowed@) =~= list.push(target));
                        assert(self.lists() =~= lists.update(k as int, list.push(target)));
                        lemma_rule_map_update(keys, lists, k as int, list.push(target));
                        list.lemma_push_to_set_commute(target);
                        assert(list.push(target).no_duplicates());
                    }
                } else {
                    proof {
                        assert(list.to_set().insert(target) =~= list.to_set());
                        assert(old(self)@.adjacency.insert(key, list.to_set())
                            =~= old(self)@.adjacency);
                    }
                }
            },
            None => {
                let mut allowed: Vec<TileId> = Vec::new();
                allowed.push(to);
                self.adjacency.push(NeighborList { from, direction, allowed });
                proof {
                    let list = seq![target];
                    assert(self.keys() =~= keys.push(key));
                    assert(texts(allowed@) =~= list);
                    assert(self.lists() =~= lists.push(list));
                    lemma_rule_map_push(keys, lists, key, list);
                    Seq::<Seq<char>>::empty().lemma_push_to_set_commute(target);
                    assert(Seq::<Seq<char>>::empty().push(target) =~= list);
                    assert(Seq::<Seq<char>>::empty().to_set() =~= Set::<Seq<char>>::empty());
                }
            },
        }
        proof {
            assert(self.ids() =~= old(self).ids());
            assert(self.weights() =~= old(self).weights());
        }
    }

    /// The tiles allowed next to `tile` on the side `direction`, or `None`
    /// where the pair has no rule, which allows no neighbor.
    pub fn get_valid_neighbors(&self, tile: &TileId, direction: Direction) -> (r: Option<
        &Vec<TileId>,
    >)
        requires
            self.wf(),
        ensures
            r is Some <==> self@.adjacency.dom().contains((tile@, direction)),
            r is Some ==> texts(r->0@).to_set() == self@.adjacency[(tile@, direction)],
            r is Some ==> texts(r->0@).no_duplicates(),
            r is Some ==> forall|to: Seq<char>|
                texts(r->0@).contains(to) <==> self.allows(tile@, direction, to),
            r is None ==> forall|to: Seq<char>| !self.allows(tile@, direction, to),
    {
        match self.find_list(tile.as_str(), direction) {
            Some(k) => {
                assert(self.lists()[k as int] == texts(self.adjacency@[k as int].allowed@));
                Some(&self.adjacency[k].allowed)
            },
            None => None,
        }
    }

    /// All declared tiles, in ascending order of their identifiers.
    pub fn get_all_tiles(&self) -> (r: Vec<&TileInfo>)
        ensures
            r@.len() == self.ids().len(),
            forall|i: int|
                0 <= i < r@.len() ==> r@[i].id@ == self.ids()[i] && r@[i].weight
                    == self.weights()[i],
    {
        let mut r: Vec<&TileInfo> = Vec::new();
        let mut i: usize = 0;
        while i < self.tiles.len()
            invariant
                i <= self.tiles@.len(),
                r@.len() == i,
                forall|j: int|
                    0 <= j < i ==> r@[j].id@ == self.ids()[j] && r@[j].weight == self.weights()[j],
            decreases self.tiles.len() - i,
        {
            r.push(&self.tiles[i]);
            i += 1;
        }
        r
    }

    /// The identifiers of all declared tiles, in ascending order.
    pub fn get_all_tile_ids(&self) -> (r: Vec<&TileId>)
        ensures
            r@.len() == self.ids().len(),
            forall|i: int| 0 <= i < r@.len() ==> r@[i]@ == self.ids()[i],
    {
        let mut r: Vec<&TileId> = Vec::new();
        let mut i: usize = 0;
        while i < self.tiles.len()
            invariant
                i <= self.tiles@.len(),
                r@.len() == i,
                forall|j: int| 0 <= j < i ==> r@[j]@ == self.ids()[j],
            decreases self.tiles.len() - i,
        {
            r.push(&self.tiles[i].id);
            i += 1;
        }
        r
    }

    /// For each declared tile, in ascending order, whether it may stand next
    /// to the `i`-th declared tile on the side `direction`.
    pub fn neighbor_mask(&self, i: usize, direction: Direction) -> (mask: Vec<bool>)
        requires
            self.wf(),
            i < self.ids().len(),
        ensures
            mask@.len() == self.ids().len(),
            forall|b: int|
                0 <= b < mask@.len() ==> mask@[b] == self.allows(
                    self.ids()[i as int],
                    direction,
                    self.ids()[b],
                ),
    {
        let n = self.tiles.len();
        let mut mask: Vec<bool> = Vec::new();
        let mut b: usize = 0;
        while b < n
            invariant
                b <= n,
                mask@.len() == b,
                forall|j: int| 0 <= j < b ==> !mask@[j],
            decreases n - b,
        {
            mask.push(false);
            b += 1;
        }
        match self.get_valid_neighbors(&self.tiles[i].id, direction) {
            Some(list) => {
                let mut m: usize = 0;
                while m < list.len()
                    invariant
                        self.wf(),
                        n == self.ids().len(),
                        m <= list@.len(),
                        mask@.len() == n,
                        forall|j: int|
                            0 <= j < n ==> (mask@[j] <==> exists|q: int|
                                0 <= q < m && texts(list@)[q] == self.ids()[j]),
                    decreases list.len() - m,
                {
                    let (j, found) = self.position(list[m].as_str());
                    if found {
                        mask.set(j, true);
                        proof {
                            assert(texts(list@)[m as int] == self.ids()[j as int]);
                            assert forall|x: int| 0 <= x < n && x != j implies self.ids()[x]
                                != self.ids()[j as int] by {
                                if self.ids()[x] == self.ids()[j as int] {
                                    lemma_ascending_distinct(self.ids(), x, j as int);
                                }
                            }
                        }
                    } else {
                        proof {
                            self.lemma_listing();
                        }
                    }
                    m += 1;
                }
                proof {
                    assert forall|j: int| 0 <= j < n implies mask@[j] == self.allows(
                        self.ids()[i as int],
                        direction,
                        self.ids()[j],
                    ) by {
                        if mask@[j] {
                            let q = choose|q: int|
                                0 <= q < m && texts(list@)[q] == self.ids()[j];
                            assert(texts(list@).contains(self.ids()[j]));
                        }
                    }
                }
            },
            None => {},
        }
        mask
    }

    /// What the rules allow, in terms of the neighbor lists: `to` may stand
    /// next to `from` on the side `direction` exactly if the list of that
    /// pair names it.
    proof fn lemma_allows(&self, k: int, to: Seq<char>)
        requires
            self.wf(),
            0 <= k < self.keys().len(),
        ensures
            self.allows(self.keys()[k].0, self.keys()[k].1, to) <==> self.lists()[k].contains(to),
            self.lists().len() == self.keys().len(),
    {
        lemma_key_slot(self.keys(), k);
    }

    /// Declares the tile `id` with the given weight, as `add_tile` does.
    pub fn add_tile_wasm(&mut self, id: String, weight: u32)
        requires
            old(self).wf(),
        ensures
            final(self).wf(),
            final(self)@.tiles == old(self)@.tiles.insert(id@, weight),
            final(self)@.adjacency == old(self)@.adjacency,
    {
        self.add_tile(id, weight);
    }

    /// Allows `to` next to `from` on the side that `direction` names, as
    /// `add_adjacency` does. A text that names no direction changes nothing.
    pub fn add_adjacency_wasm(&mut self, from: String, to: String, direction: String)
        requires
            old(self).wf(),
        ensures
            final(self).wf(),
            final(self)@.tiles == old(self)@.tiles,
            match Direction::spec_from_name(direction@) {
                Some(d) => final(self)@.adjacency == old(self)@.adjacency.insert(
                    (from@, d),
                    old(self).neighbors(from@, d).insert(to@),
                ),
                None => final(self)@.adjacency == old(self)@.adjacency,
            },
    {
        match Direction::from_name(direction.as_str()) {
            Some(d) => {
                self.add_adjacency(from, to, d);
            },
            None => {},
        }
    }

    /// Builds a rule set from a list of tiles and a list of rules. Of tiles
    /// with the same identifier the last one counts. A rule that names an
    /// undeclared tile is refused with that tile's identifier, the first
    /// such rule deciding, and of its two tiles the one it starts from; a
    /// list without tiles is refused after that.
    pub fn from_entries(tiles: Vec<TileInfo>, rules: Vec<Rule>) -> (r: Result<RuleSet, WfcError>)
        ensures
            match r {
                Ok(rs) => {
                    &&& rs.wf()
                    &&& rs.ids().len() > 0
                    &&& tiles@.len() > 0
                    &&& forall|k: int| 0 <= k < rules@.len() ==> rule_known(tiles@, #[trigger] rules@[k])
                    &&& rs@.tiles == tiles_of(tiles@)
                    &&& rs@.adjacency == rules_of(rules@)
                },
                Err(e) => refused_with(tiles@, rules@, e),
            },
    {
        let mut rs = RuleSet::new();
        let mut i: usize = 0;
        proof {
            assert(tiles@.take(0) =~= Seq::<TileInfo>::empty());
        }
        while i < tiles.len()
            invariant
                rs.wf(),
                i <= tiles@.len(),
                rs@.tiles == tiles_of(tiles@.take(i as int)),
                rs@.adjacency == Map::<(Seq<char>, Direction), Set<Seq<char>>>::empty(),
                forall|id: Seq<char>|
                    rs@.tiles.dom().contains(id) <==> declared_among(tiles@.take(i as int), id),
            decreases tiles.len() - i,
        {
            let ghost before = tiles@.take(i as int);
            let ghost next = tiles@.take(i + 1);
            rs.add_tile(tiles[i].id.clone(), tiles[i].weight);
            proof {
                assert(next.drop_last() =~= before);
                assert(next.last() == tiles@[i as int]);
                assert forall|id: Seq<char>| rs@.tiles.dom().contains(id) <==> declared_among(
                    next,
                    id,
                ) by {
                    if declared_among(next, id) {
                        let j = choose|j: int| 0 <= j < next.len() && (#[trigger] next[j]).id@ == id;
                        if j < i {
                            assert(before[j].id@ == id);
                        }
                    }
                    if declared_among(before, id) {
                        let j = choose|j: int|
                            0 <= j < before.len() && (#[trigger] before[j]).id@ == id;
                        assert(next[j].id@ == id);
                    }
                    if id == tiles@[i as int].id@ {
                        assert(next[i as int].id@ == id);
                    }
                }
            }
            i += 1;
        }
        proof {
            assert(tiles@.take(i as int) =~= tiles@);
            assert(rules@.take(0) =~= Seq::<Rule>::empty());
        }
        let mut k: usize = 0;
        while k < rules.len()
            invariant
                rs.wf(),
                k <= rules@.len(),
                rs@.tiles == tiles_of(tiles@),
                rs@.adjacency == rules_of(rules@.take(k as int)),
                forall|id: Seq<char>| rs@.tiles.dom().contains(id) <==> declared_among(tiles@, id),
                forall|j: int| 0 <= j < k ==> rule_known(tiles@, #[trigger] rules@[j]),
            decreases rules.len() - k,
        {
            if rs.get_tile_info(&rules[k].from).is_none() {
                return Err(WfcError::InvalidTileId(rules[k].from.clone()));
            }
            if rs.get_tile_info(&rules[k].to).is_none() {
                return Err(WfcError::InvalidTileId(rules[k].to.clone()));
            }
            let ghost before = rules@.take(k as int);
            let ghost next = rules@.take(k + 1);
            rs.add_adjacency(rules[k].from.clone(), rules[k].to.clone(), rules[k].direction);
            proof {
                assert(next.drop_last() =~= before);
                assert(next.last() == rules@[k as int]);
            }
            k += 1;
        }
        proof {
            assert(rules@.take(k as int) =~= rules@);
        }
        if rs.tile_count() == 0 {
            proof {
                rs.lemma_listing();
                if tiles@.len() > 0 {
                    assert(declared_among(tiles@, tiles@[0].id@));
                    assert(rs.ids().contains(tiles@[0].id@));
                }
            }
            return Err(WfcError::NoTilesDefined);
        }
        proof {
            rs.lemma_listing();
            if tiles@.len() == 0 {
                assert(rs@.tiles.dom().contains(rs.ids()[0]));
                assert(declared_among(tiles@, rs.ids()[0]));
            }
        }
        Ok(rs)
    }

    /// The list `r` holds the rule from the key of the `m`-th neighbor list
    /// to the `c`-th tile of that list.
    pub closed spec fn covered(&self, r: Seq<Rule>, m: int, c: int) -> bool {
        listed(r, self.keys()[m].0, self.keys()[m].1, self.lists()[m][c])
    }

    /// The `i`-th rule of the list `r` was made of the place `at`: it leads
    /// from the key of the neighbor list `at.0` to the tile `at.1` of that
    /// list.
    pub closed spec fn made_of(&self, r: Seq<Rule>, i: int, at: (int, int)) -> bool {
        &&& 0 <= at.0 < self.keys().len()
        &&& 0 <= at.1 < self.lists()[at.0].len()
        &&& rule_is(r[i], self.keys()[at.0].0, self.keys()[at.0].1, self.lists()[at.0][at.1])
    }

    /// The rules of the set, one for each tile of each neighbor list, and
    /// none twice.
    pub fn rule_entries(&self) -> (r: Vec<Rule>)
        requires
            self.wf(),
        ensures
            forall|i: int|
                0 <= i < r@.len() ==> self.allows(
                    (#[trigger] r@[i]).from@,
                    r@[i].direction,
                    r@[i].to@,
                ),
            forall|from: Seq<char>, direction: Direction, to: Seq<char>| #[trigger]
                self.allows(from, direction, to) ==> listed(r@, from, direction, to),
            forall|i: int, k: int|
                0 <= i < k < r@.len() ==> !((#[trigger] r@[i]).from@ == (#[trigger] r@[k]).from@
                    && r@[i].direction == r@[k].direction && r@[i].to@ == r@[k].to@),
    {
        let mut r: Vec<Rule> = Vec::new();
        let ghost mut origin: Seq<(int, int)> = Seq::empty();
        let mut k: usize = 0;
        while k < self.adjacency.len()
            invariant
                self.wf(),
                origin.len() == r@.len(),
                forall|i: int|
                    0 <= i < r@.len() ==> self.made_of(r@, i, #[trigger] origin[i]) && origin[i].0
                        < k,
                forall|i: int, m: int| 0 <= i < m < r@.len() ==> origin[i] != origin[m],
                k <= self.adjacency@.len(),
                self.keys().len() == self.adjacency@.len(),
                self.lists().len() == self.adjacency@.len(),
                forall|i: int|
                    0 <= i < r@.len() ==> self.allows(
                        (#[trigger] r@[i]).from@,
                        r@[i].direction,
                        r@[i].to@,
                    ),
                forall|m: int, c: int|
                    0 <= m < k && 0 <= c < self.lists()[m].len() ==> #[trigger] self.covered(
                        r@,
                        m,
                        c,
                    ),
            decreases self.adjacency.len() - k,
        {
            let entry = &self.adjacency[k];
            let ghost list = self.lists()[k as int];
            let ghost key = self.keys()[k as int];
            let mut j: usize = 0;
            while j < entry.allowed.len()
                invariant
                    self.wf(),
                    origin.len() == r@.len(),
                    forall|i: int|
                        0 <= i < r@.len() ==> self.made_of(r@, i, #[trigger] origin[i]) && (
                        origin[i].0 < k || (origin[i].0 == k && origin[i].1 < j)),
                    forall|i: int, m: int| 0 <= i < m < r@.len() ==> origin[i] != origin[m],
                    k < self.adjacency@.len(),
                    *entry == self.adjacency@[k as int],
                    list == self.lists()[k as int],
                    key == self.keys()[k as int],
                    self.keys().len() == self.adjacency@.len(),
                    self.lists().len() == self.adjacency@.len(),
                    j <= entry.allowed@.len(),
                    list.len() == entry.allowed@.len(),
                    forall|i: int|
                        0 <= i < r@.len() ==> self.allows(
                            (#[trigger] r@[i]).from@,
                            r@[i].direction,
                            r@[i].to@,
                        ),
                    forall|m: int, c: int|
                        0 <= m < k && 0 <= c < self.lists()[m].len() ==> #[trigger] self.covered(
                            r@,
                            m,
                            c,
                        ),
                    forall|c: int| 0 <= c < j ==> #[trigger] self.covered(r@, k as int, c),
                decreases entry.allowed.len() - j,
            {
                let ghost before = r@;
                let rule = Rule {
                    from: entry.from.clone(),
                    to: entry.allowed[j].clone(),
                    direction: entry.direction,
                };
                r.push(rule);
                let ghost origin_before = origin;
                proof {
                    origin = origin.push((k as int, j as int));
                    let at = before.len() as int;
                    assert(list[j as int] == entry.allowed@[j as int]@);
                    assert(rule_is(r@[at], key.0, key.1, list[j as int]));
                    assert forall|i: int| 0 <= i < r@.len() implies self.made_of(
                        r@,
                        i,
                        #[trigger] origin[i],
                    ) && (origin[i].0 < k || (origin[i].0 == k && origin[i].1 < j + 1)) by {
                        if i < at {
                            assert(r@[i] == before[i]);
                            assert(origin[i] == origin_before[i]);
                            assert(self.made_of(before, i, origin_before[i]));
                        }
                    }
                    assert forall|i: int, m: int| 0 <= i < m < r@.len() implies origin[i]
                        != origin[m] by {
                        assert(origin[i] == origin_before[i]);
                        if m < at {
                            assert(origin[m] == origin_before[m]);
                        }
                    }
                    assert(list.contains(list[j as int]));
                    self.lemma_allows(k as int, list[j as int]);
                    assert forall|i: int| 0 <= i < r@.len() implies self.allows(
                        (#[trigger] r@[i]).from@,
                        r@[i].direction,
                        r@[i].to@,
                    ) by {
                        if i < at {
                            assert(r@[i] == before[i]);
                        }
                    }
                    assert forall|m: int, c: int|
                        0 <= m < k && 0 <= c < self.lists()[m].len() implies #[trigger] self.covered(
                        r@,
                        m,
                        c,
                    ) by {
                        assert(self.covered(before, m, c));
                        lemma_listed_push(
                            before,
                            rule,
                            self.keys()[m].0,
                            self.keys()[m].1,
                            self.lists()[m][c],
                        );
                    }
                    assert forall|c: int| 0 <= c < j + 1 implies #[trigger] self.covered(
                        r@,
                        k as int,
                        c,
                    ) by {
                        if c < j {
                            assert(self.covered(before, k as int, c));
                            lemma_listed_push(before, rule, key.0, key.1, list[c]);
                        }
                    }
                }
                j += 1;
            }
            k += 1;
        }
        proof {
            assert forall|i: int, m: int| 0 <= i < m < r@.len() implies !((#[trigger] r@[i]).from@
                == (#[trigger] r@[m]).from@ && r@[i].direction == r@[m].direction && r@[i].to@
                == r@[m].to@) by {
                let a = origin[i];
                let b = origin[m];
                assert(self.made_of(r@, i, a));
                assert(self.made_of(r@, m, b));
                assert(a != b);
                if a.0 != b.0 {
                    assert(self.keys()[a.0] != self.keys()[b.0]);
                } else {
                    assert(self.lists()[a.0].no_duplicates());
                    assert(self.lists()[a.0][a.1] != self.lists()[a.0][b.1]);
                }
            }
            assert forall|from: Seq<char>, direction: Direction, to: Seq<char>| #[trigger]
                self.allows(from, direction, to) implies listed(r@, from, direction, to) by {
                let m = key_slot(self.keys(), (from, direction));
                assert(self.keys().contains((from, direction)));
                self.lemma_allows(m, to);
                let c = choose|c: int|
                    0 <= c < self.lists()[m].len() && self.lists()[m][c] == to;
                assert(self.covered(r@, m, c));
            }
        }
        r
    }
}

impl Default for RuleSet {
    /// An empty rule set.
    fn default() -> (r: RuleSet)
        ensures
            r.wf(),
            r@.tiles == Map::<Seq<char>, u32>::empty(),
            r@.adjacency == Map::<(Seq<char>, Direction), Set<Seq<char>>>::empty(),
    {
        RuleSet::new()
    }
}

impl Clone for RuleSet {
    /// A rule set with the same tiles, weights and rules.
    fn clone(&self) -> (r: RuleSet)
        ensures
            r@ == self@,
            r.ids() == self.ids(),
            r.weights() == self.weights(),
            r.wf() == self.wf(),
    {
        let mut tiles: Vec<TileInfo> = Vec::new();
        let mut i: usize = 0;
        while i < self.tiles.len()
            invariant
                i <= self.tiles@.len(),
                tiles@.len() == i,
                forall|j: int|
                    0 <= j < i ==> (#[trigger] tiles@[j]).id@ == self.tiles@[j].id@ && tiles@[j].weight
                        == self.tiles@[j].weight,
            decreases self.tiles.len() - i,
        {
            tiles.push(TileInfo { id: self.tiles[i].id.clone(), weight: self.tiles[i].weight });
            i += 1;
        }
        let mut adjacency: Vec<NeighborList> = Vec::new();
        let mut k: usize = 0;
        while k < self.adjacency.len()
            invariant
                k <= self.adjacency@.len(),
                adjacency@.len() == k,
                forall|m: int|
                    0 <= m < k ==> {
                        &&& (#[trigger] adjacency@[m]).from@ == self.adjacency@[m].from@
                        &&& adjacency@[m].direction == self.adjacency@[m].direction
                        &&& texts(adjacency@[m].allowed@) == texts(self.adjacency@[m].allowed@)
                    },
            decreases self.adjacency.len() - k,
        {
            let entry = &self.adjacency[k];
            let mut allowed: Vec<TileId> = Vec::new();
            let mut j: usize = 0;
            while j < entry.allowed.len()
                invariant
                    j <= entry.allowed@.len(),
                    allowed@.len() == j,
                    forall|c: int| 0 <= c < j ==> (#[trigger] allowed@[c])@ == entry.allowed@[c]@,
                decreases entry.allowed.len() - j,
            {
                allowed.push(entry.allowed[j].clone());
                j += 1;
            }
            assert(texts(allowed@) =~= texts(entry.allowed@));
            adjacency.push(
                NeighborList { from: entry.from.clone(), direction: entry.direction, allowed },
            );
            k += 1;
        }
        let r = RuleSet { tiles, adjacency };
        proof {
            assert(r.ids() =~= self.ids());
            assert(r.weights() =~= self.weights());
            assert(r.keys() =~= self.keys());
            assert(r.lists() =~= self.lists());
        }
        r
    }
}

} // verus!
