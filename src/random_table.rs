//! Weighted random choice, and the table of builder kinds that levels are drawn from.
use rltk::RandomNumberGenerator;
use vstd::prelude::*;

use crate::rng::roll_die;

verus! {

/// Sum of the first `n` weights.
pub open spec fn weight_sum(ws: Seq<u32>, n: int) -> int
    decreases n,
{
    if n <= 0 {
        0
    } else {
        weight_sum(ws, n - 1) + ws[n - 1]
    }
}

/// Partial sums never decrease.
pub proof fn lemma_weight_sum_monotonic(ws: Seq<u32>, a: int, b: int)
    requires
        0 <= a <= b,
    ensures
        weight_sum(ws, a) <= weight_sum(ws, b),
    decreases b - a,
{
    if a < b {
        lemma_weight_sum_monotonic(ws, a, b - 1);
    }
}

/// Weights small enough that their sum fits the dice.
pub open spec fn weights_ok(ws: Seq<u32>) -> bool {
    ws.len() <= 10000 && forall|k: int| 0 <= k < ws.len() ==> #[trigger] ws[k] <= 100000
}

/// Sum of all weights.
pub fn total_weight(ws: &Vec<u32>) -> (r: u64)
    requires
        weights_ok(ws@),
    ensures
        r as int == weight_sum(ws@, ws@.len() as int),
        r <= 1_000_000_000,
{
    let mut total: u64 = 0;
    let mut k: usize = 0;
    while k < ws.len()
        invariant
            weights_ok(ws@),
            0 <= k <= ws@.len(),
            total as int == weight_sum(ws@, k as int),
            total <= 100000 * k,
        decreases ws@.len() - k,
    {
        total = total + ws[k] as u64;
        k = k + 1;
    }
    total
}

/// The entry that a roll in `0..total` lands on: the first whose running sum of
/// weights exceeds the roll.
pub fn pick_weighted(ws: &Vec<u32>, roll: u64) -> (r: usize)
    requires
        weights_ok(ws@),
        roll < weight_sum(ws@, ws@.len() as int),
    ensures
        r < ws@.len(),
        weight_sum(ws@, r as int) <= roll < weight_sum(ws@, r as int + 1),
{
    let mut acc: u64 = 0;
    let mut k: usize = 0;
    while k < ws.len()
        invariant
            weights_ok(ws@),
            0 <= k <= ws@.len(),
            acc as int == weight_sum(ws@, k as int),
            acc <= roll,
            acc <= 100000 * k,
            roll < weight_sum(ws@, ws@.len() as int),
        decreases ws@.len() - k,
    {
        if roll < acc + ws[k] as u64 {
            return k;
        }
        acc = acc + ws[k] as u64;
        k = k + 1;
    }
    k
}

/// A random entry, each chosen with chance proportional to its weight.
pub fn roll_weighted(rng: &mut RandomNumberGenerator, ws: &Vec<u32>) -> (r: usize)
    requires
        weights_ok(ws@),
        weight_sum(ws@, ws@.len() as int) >= 1,
    ensures
        r < ws@.len(),
        ws@[r as int] > 0,
{
    let total = total_weight(ws);
    let roll = (roll_die(rng, total as i32) - 1) as u64;
    let r = pick_weighted(ws, roll);
    r
}


/// The closed set of level generators that the table draws from.
#[derive(PartialEq, Eq, Structural, Copy, Clone, Debug)]
pub enum BuilderKind {
    SimpleMap,
    BspDungeon,
    BspInterior,
    CellularAutomata,
    DrunkardsOpenArea,
    DrunkardsOpenHalls,
    DrunkardsWindingPassages,
    DrunkardsFatPassages,
    DrunkardsFearfulSymmetry,
    Maze,
    DlaWalkInwards,
    DlaWalkOutwards,
    DlaCentralAttractor,
    DlaInsectoid,
    Voronoi,
}

/// Entries drawn with chance proportional to their weights.
pub struct RandomTable {
    pub entries: Vec<BuilderKind>,
    pub weights: Vec<u32>,
}

impl RandomTable {
    /// The entries with their weights, in the order they were added.
    pub open spec fn view_entries(&self) -> Seq<(BuilderKind, u32)> {
        Seq::new(self.entries@.len(), |k: int| (self.entries@[k], self.weights@[k]))
    }

    /// One weight per entry, each small enough to add up.
    pub open spec fn wf(&self) -> bool {
        self.entries@.len() == self.weights@.len() && weights_ok(self.weights@) && self.entries@.len() < 10000
    }

    /// An empty table.
    pub fn new() -> (r: RandomTable)
        ensures
            r.wf(),
            r.entries@.len() == 0,
            r.view_entries() == Seq::<(BuilderKind, u32)>::empty(),
    {
        let r = RandomTable { entries: Vec::new(), weights: Vec::new() };
        assert(r.view_entries() =~= Seq::<(BuilderKind, u32)>::empty());
        r
    }

    /// The table with one more entry.
    pub fn add(self, kind: BuilderKind, weight: u32) -> (r: RandomTable)
        requires
            self.wf(),
            self.entries@.len() < 9999,
            weight <= 100000,
        ensures
            r.wf(),
            r.entries@.len() == self.entries@.len() + 1,
            r.view_entries() == self.view_entries().push((kind, weight)),
    {
        let mut t = self;
        t.entries.push(kind);
        t.weights.push(weight);
        assert(t.view_entries() =~= self.view_entries().push((kind, weight)));
        t
    }

    /// A random entry, each drawn with chance proportional to its weight; `None` where
    /// all weights are zero.
    pub fn roll(&self, rng: &mut RandomNumberGenerator) -> (r: Option<BuilderKind>)
        requires
            self.wf(),
        ensures
            match r {
                Some(k) => exists|i: int| 0 <= i < self.entries@.len() && self.entries@[i] == k && self.weights@[i] > 0,
                None => weight_sum(self.weights@, self.weights@.len() as int) == 0,
            },
    {
        let total = total_weight(&self.weights);
        if total == 0 {
            return None;
        }
        let i = roll_weighted(rng, &self.weights);
        Some(self.entries[i])
    }
}

/// The generators and their weights.
pub open spec fn map_table_entries() -> Seq<(BuilderKind, u32)> {
    seq![
        (BuilderKind::BspDungeon, 4u32),
        (BuilderKind::SimpleMap, 4u32),
        (BuilderKind::BspInterior, 2u32),
        (BuilderKind::CellularAutomata, 2u32),
        (BuilderKind::DrunkardsOpenArea, 1u32),
        (BuilderKind::DrunkardsOpenHalls, 4u32),
        (BuilderKind::DrunkardsWindingPassages, 4u32),
        (BuilderKind::DrunkardsFatPassages, 4u32),
        (BuilderKind::DrunkardsFearfulSymmetry, 4u32),
        (BuilderKind::Maze, 2u32),
        (BuilderKind::DlaWalkInwards, 4u32),
        (BuilderKind::DlaWalkOutwards, 1u32),
        (BuilderKind::DlaCentralAttractor, 1u32),
        (BuilderKind::DlaInsectoid, 1u32),
        (BuilderKind::Voronoi, 1u32),
    ]
}

/// The weights of the generator table, in order.
pub open spec fn map_table_weights() -> Seq<u32> {
    Seq::new(15, |j: int| map_table_entries()[j].1)
}

/// The table that levels are drawn from.
pub fn map_table() -> (r: RandomTable)
    ensures
        r.wf(),
        r.view_entries() == map_table_entries(),
{
    let r = RandomTable::new()
        .add(BuilderKind::BspDungeon, 4)
        .add(BuilderKind::SimpleMap, 4)
        .add(BuilderKind::BspInterior, 2)
        .add(BuilderKind::CellularAutomata, 2)
        .add(BuilderKind::DrunkardsOpenArea, 1)
        .add(BuilderKind::DrunkardsOpenHalls, 4)
        .add(BuilderKind::DrunkardsWindingPassages, 4)
        .add(BuilderKind::DrunkardsFatPassages, 4)
        .add(BuilderKind::DrunkardsFearfulSymmetry, 4)
        .add(BuilderKind::Maze, 2)
        .add(BuilderKind::DlaWalkInwards, 4)
        .add(BuilderKind::DlaWalkOutwards, 1)
        .add(BuilderKind::DlaCentralAttractor, 1)
        .add(BuilderKind::DlaInsectoid, 1)
        .add(BuilderKind::Voronoi, 1);
    assert(r.view_entries() =~= map_table_entries());
    r
}

} // verus!
