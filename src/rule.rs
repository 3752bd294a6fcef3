//! Rules: neighborhood shapes, neighbor-count predicates, and named presets.
use crate::space::Coord;
use vstd::prelude::*;

verus! {

/// The shape of a cell's neighborhood.
#[derive(Clone, Copy, PartialEq, Eq, Debug, Structural)]
pub enum NeighborMethod {
    /// The 26 cells of the surrounding 3x3x3 cube.
    Moore,
    /// The 6 face-adjacent cells.
    VonNeumann,
}

impl NeighborMethod {
    /// How many offsets the neighborhood has.
    pub open spec fn size_spec(self) -> int {
        match self {
            NeighborMethod::Moore => 26,
            NeighborMethod::VonNeumann => 6,
        }
    }

    /// Offset `k` of the neighborhood. Moore runs through the 3x3x3 cube with
    /// `x` fastest and `z` slowest, skipping the center; von Neumann lists
    /// `+x, -x, +y, -y, +z, -z`.
    pub open spec fn offset_spec(self, k: int) -> (int, int, int) {
        match self {
            NeighborMethod::Moore => {
                let j = if k < 13 {
                    k
                } else {
                    k + 1
                };
                (j % 3 - 1, (j / 3) % 3 - 1, j / 9 - 1)
            },
            NeighborMethod::VonNeumann => {
                if k == 0 {
                    (1, 0, 0)
                } else if k == 1 {
                    (-1, 0, 0)
                } else if k == 2 {
                    (0, 1, 0)
                } else if k == 3 {
                    (0, -1, 0)
                } else if k == 4 {
                    (0, 0, 1)
                } else {
                    (0, 0, -1)
                }
            },
        }
    }

    /// The position of the opposite offset: `offset(mirror(k)) == -offset(k)`.
    pub open spec fn mirror(self, k: int) -> int {
        match self {
            NeighborMethod::Moore => 25 - k,
            NeighborMethod::VonNeumann => if k % 2 == 0 {
                k + 1
            } else {
                k - 1
            },
        }
    }

    /// Each neighborhood is symmetric: every offset has its opposite in the list.
    pub proof fn lemma_mirror(self, k: int)
        requires
            0 <= k < self.size_spec(),
        ensures
            0 <= self.mirror(k) < self.size_spec(),
            self.offset_spec(self.mirror(k)).0 == -self.offset_spec(k).0,
            self.offset_spec(self.mirror(k)).1 == -self.offset_spec(k).1,
            self.offset_spec(self.mirror(k)).2 == -self.offset_spec(k).2,
    {
    }

    /// Offset `k` of the neighborhood.
    pub fn offset(&self, k: usize) -> (r: Coord)
        requires
            k < self.size_spec(),
        ensures
            (r.x as int, r.y as int, r.z as int) == self.offset_spec(k as int),
    {
        match self {
            NeighborMethod::Moore => {
                let j: i32 = if k < 13 {
                    k as i32
                } else {
                    k as i32 + 1
                };
                Coord { x: j % 3 - 1, y: (j / 3) % 3 - 1, z: j / 9 - 1 }
            },
            NeighborMethod::VonNeumann => {
                if k == 0 {
                    Coord { x: 1, y: 0, z: 0 }
                } else if k == 1 {
                    Coord { x: -1, y: 0, z: 0 }
                } else if k == 2 {
                    Coord { x: 0, y: 1, z: 0 }
                } else if k == 3 {
                    Coord { x: 0, y: -1, z: 0 }
                } else if k == 4 {
                    Coord { x: 0, y: 0, z: 1 }
                } else {
                    Coord { x: 0, y: 0, z: -1 }
                }
            },
        }
    }

    /// All offsets of the neighborhood, in order.
    pub fn get_neighbors(&self) -> (r: Vec<Coord>)
        ensures
            r.len() == self.size_spec(),
            forall|k: int|
                0 <= k < r.len() ==> (r[k].x as int, r[k].y as int, r[k].z as int)
                    == self.offset_spec(k),
    {
        let n = self.max_neighbors() as usize;
        let mut r: Vec<Coord> = Vec::new();
        let mut k: usize = 0;
        while k < n
            invariant
                n == self.size_spec(),
                k <= n,
                r.len() == k,
                forall|i: int|
                    0 <= i < k ==> (r[i].x as int, r[i].y as int, r[i].z as int)
                        == self.offset_spec(i),
            decreases n - k,
        {
            r.push(self.offset(k));
            k = k + 1;
        }
        r
    }

    /// How many neighbors a cell has: 26 for Moore, 6 for von Neumann.
    pub fn max_neighbors(&self) -> (r: u8)
        ensures
            r == self.size_spec(),
    {
        match self {
            NeighborMethod::Moore => 26,
            NeighborMethod::VonNeumann => 6,
        }
    }
}

/// Largest neighbor count that a predicate can hold (the Moore neighborhood has 26 cells).
pub const MAX_COUNT: u8 = 26;

/// Whether bit `c` of `mask` is set.
pub open spec fn bit_set(mask: u32, c: u32) -> bool {
    mask & (1u32 << c) != 0
}

proof fn lemma_bit_or_single(mask: u32, k: u32, c: u32)
    requires
        k < 32,
        c < 32,
    ensures
        bit_set(mask | (1u32 << k), c) == (bit_set(mask, c) || c == k),
{
    assert((mask | (1u32 << k)) & (1u32 << c) != 0 <==> (mask & (1u32 << c) != 0 || c == k))
        by (bit_vector)
        requires
            k < 32,
            c < 32,
    ;
}

proof fn lemma_bit_or(a: u32, b: u32, c: u32)
    requires
        c < 32,
    ensures
        bit_set(a | b, c) == (bit_set(a, c) || bit_set(b, c)),
{
    assert((a | b) & (1u32 << c) != 0 <==> (a & (1u32 << c) != 0 || b & (1u32 << c) != 0))
        by (bit_vector)
        requires
            c < 32,
    ;
}

proof fn lemma_bit_empty(c: u32)
    requires
        c < 32,
    ensures
        !bit_set(0u32, c),
{
    assert(0u32 & (1u32 << c) == 0) by (bit_vector);
}

/// The neighbor counts, among `0..=26`, that a list of counts names.
pub open spec fn counts_set(counts: Seq<u8>) -> Set<u8> {
    Set::new(|c: u8| c <= MAX_COUNT && counts.contains(c))
}

/// The neighbor counts in `lo..=hi`, capped at 26.
pub open spec fn range_set(lo: u8, hi: u8) -> Set<u8> {
    Set::new(|c: u8| lo <= c && c <= hi && c <= MAX_COUNT)
}

/// A range predicate holds exactly on its inclusive range, when that range
/// ends within the Moore neighborhood's 26.
pub proof fn lemma_range_set_members(lo: u8, hi: u8, c: u8)
    requires
        hi <= MAX_COUNT,
    ensures
        range_set(lo, hi).contains(c) <==> lo <= c <= hi,
{
}

/// A predicate over neighbor counts, held as a bitmask: bit `n` is set when
/// count `n` satisfies the predicate.
#[derive(Clone, Copy, PartialEq, Debug)]
pub struct RuleValue {
    bitmask: u32,
}

impl View for RuleValue {
    type V = Set<u8>;

    /// The neighbor counts that satisfy the predicate.
    closed spec fn view(&self) -> Set<u8> {
        Set::new(|c: u8| c <= MAX_COUNT && bit_set(self.bitmask, c as u32))
    }
}

impl RuleValue {
    /// No predicate, however it was built, holds of a count above 26.
    pub proof fn lemma_no_count_above_max(self, c: u8)
        requires
            c > MAX_COUNT,
        ensures
            !self@.contains(c),
    {
    }

    /// The predicate that holds exactly for the listed counts; counts above 26 are ignored.
    pub fn new(counts: &[u8]) -> (r: Self)
        ensures
            r@ == counts_set(counts@),
    {
        let mut bitmask: u32 = 0;
        let mut i: usize = 0;
        proof {
            assert forall|c: u8| c <= MAX_COUNT implies !#[trigger] bit_set(bitmask, c as u32) by {
                lemma_bit_empty(c as u32);
            }
        }
        while i < counts.len()
            invariant
                i <= counts.len(),
                forall|c: u8|
                    c <= MAX_COUNT ==> (#[trigger] bit_set(bitmask, c as u32)
                        <==> counts@.subrange(0, i as int).contains(c)),
            decreases counts.len() - i,
        {
            let count = counts[i];
            let ghost before = bitmask;
            if count <= MAX_COUNT {
                bitmask = bitmask | (1u32 << count);
            }
            assert(counts@.subrange(0, i + 1) == counts@.subrange(0, i as int).push(count));
            assert forall|c: u8| c <= MAX_COUNT implies (#[trigger] bit_set(bitmask, c as u32)
                <==> counts@.subrange(0, i + 1).contains(c)) by {
                if count <= MAX_COUNT {
                    lemma_bit_or_single(before, count as u32, c as u32);
                }
                vstd::seq_lib::lemma_seq_contains_after_push(
                    counts@.subrange(0, i as int),
                    count,
                    c,
                );
            }
            i = i + 1;
        }
        assert(counts@.subrange(0, counts.len() as int) == counts@);
        let r = RuleValue { bitmask };
        assert(r@ =~= counts_set(counts@));
        r
    }

    /// The predicate that holds exactly for the counts in `min..=max`, with `max` capped at 26.
    pub fn from_range(min: u8, max: u8) -> (r: Self)
        ensures
            r@ == range_set(min, max),
    {
        let hi: u8 = if max < MAX_COUNT { max } else { MAX_COUNT };
        let mut bitmask: u32 = 0;
        let mut count: u8 = min;
        proof {
            assert forall|c: u8| c <= MAX_COUNT implies !#[trigger] bit_set(bitmask, c as u32) by {
                lemma_bit_empty(c as u32);
            }
        }
        while count <= hi
            invariant
                hi <= MAX_COUNT,
                min <= count,
                count <= hi + 1 || count == min,
                forall|c: u8|
                    c <= MAX_COUNT ==> (#[trigger] bit_set(bitmask, c as u32) <==> (min <= c
                        && c < count)),
            decreases hi + 1 - count,
        {
            let ghost before = bitmask;
            bitmask = bitmask | (1u32 << count);
            assert forall|c: u8| c <= MAX_COUNT implies (#[trigger] bit_set(bitmask, c as u32)
                <==> (min <= c && c < count + 1)) by {
                lemma_bit_or_single(before, count as u32, c as u32);
            }
            count = count + 1;
        }
        let r = RuleValue { bitmask };
        assert(r@ =~= range_set(min, max));
        r
    }

    /// The predicate that holds where either of the two holds.
    pub fn or(self, other: Self) -> (r: Self)
        ensures
            r@ == self@.union(other@),
    {
        let r = RuleValue { bitmask: self.bitmask | other.bitmask };
        assert forall|c: u8| c <= MAX_COUNT implies #[trigger] bit_set(r.bitmask, c as u32) == (
        bit_set(self.bitmask, c as u32) || bit_set(other.bitmask, c as u32)) by {
            lemma_bit_or(self.bitmask, other.bitmask, c as u32);
        }
        assert(r@ =~= self@.union(other@));
        r
    }

    /// Whether `count` satisfies the predicate; counts above 26 never do.
    pub fn matches(&self, count: u8) -> (r: bool)
        ensures
            r == self@.contains(count),
    {
        if count > MAX_COUNT {
            return false;
        }
        (self.bitmask & (1u32 << count)) != 0
    }
}

} // verus!

verus! {

/// A cellular-automaton rule: which counts of fully alive neighbors keep a
/// fully alive cell alive, which bring a dead cell to life, how many states a
/// cell runs through, and the neighborhood shape.
#[derive(Clone, Copy, PartialEq, Debug)]
pub struct Rule {
    /// Counts that keep a cell at the top state.
    pub survival: RuleValue,
    /// Counts that bring a dead cell to life.
    pub birth: RuleValue,
    /// The top state: 0 is dead, `states` is newly born, the values between are a decay trail.
    pub states: u8,
    /// The neighborhood shape.
    pub neighbor_method: NeighborMethod,
}

impl Rule {
    /// The rule "445" (4/4/5/M).
    pub fn rule_445() -> (r: Self)
        ensures
            r.survival@ == set![4u8],
            r.birth@ == set![4u8],
            r.states == 5,
            r.neighbor_method == NeighborMethod::Moore,
    {
        let survival = RuleValue::new(&[4]);
        let birth = RuleValue::new(&[4]);
        assert(survival@ =~= set![4u8]);
        assert(birth@ =~= set![4u8]);
        Rule { survival, birth, states: 5, neighbor_method: NeighborMethod::Moore }
    }

    /// The rule "Builder": complex expanding structures.
    pub fn builder() -> (r: Self)
        ensures
            r.survival@ == set![2u8, 6, 9],
            r.birth@ == set![4u8, 6, 8, 9, 10],
            r.states == 10,
            r.neighbor_method == NeighborMethod::Moore,
    {
        let survival = RuleValue::new(&[2, 6, 9]);
        let birth = RuleValue::new(&[4, 6, 8, 9, 10]);
        assert(survival@ =~= set![2u8, 6, 9]);
        assert(birth@ =~= set![4u8, 6, 8, 9, 10]);
        Rule { survival, birth, states: 10, neighbor_method: NeighborMethod::Moore }
    }

    /// The rule "Fancy Snancy": complex chaotic patterns.
    pub fn fancy_snancy() -> (r: Self)
        ensures
            r.survival@ == set![0u8, 1, 2, 3, 7, 8, 9, 11, 13, 18, 21, 22, 24, 26],
            r.birth@ == set![4u8, 13, 17, 20, 21, 22, 23, 24, 26],
            r.states == 4,
            r.neighbor_method == NeighborMethod::Moore,
    {
        let survival = RuleValue::new(&[0, 1, 2, 3, 7, 8, 9, 11, 13, 18, 21, 22, 24, 26]);
        let birth = RuleValue::new(&[4, 13, 17, 20, 21, 22, 23, 24, 26]);
        assert(survival@ =~= set![0u8, 1, 2, 3, 7, 8, 9, 11, 13, 18, 21, 22, 24, 26]);
        assert(birth@ =~= set![4u8, 13, 17, 20, 21, 22, 23, 24, 26]);
        Rule { survival, birth, states: 4, neighbor_method: NeighborMethod::Moore }
    }

    /// The rule "Pretty Crystals": crystalline structures.
    pub fn pretty_crystals() -> (r: Self)
        ensures
            r.survival@ == set![5u8, 6, 7, 8],
            r.birth@ == set![6u8, 7, 9],
            r.states == 10,
            r.neighbor_method == NeighborMethod::Moore,
    {
        let survival = RuleValue::new(&[5, 6, 7, 8]);
        let birth = RuleValue::new(&[6, 7, 9]);
        assert(survival@ =~= set![5u8, 6, 7, 8]);
        assert(birth@ =~= set![6u8, 7, 9]);
        Rule { survival, birth, states: 10, neighbor_method: NeighborMethod::Moore }
    }

    /// The rule "Slowly Expanding Blob": a gradually growing structure.
    pub fn expanding_blob() -> (r: Self)
        ensures
            r.survival@ == range_set(9, 26),
            r.birth@ == set![5u8, 6, 7, 12, 13, 15],
            r.states == 20,
            r.neighbor_method == NeighborMethod::Moore,
    {
        let survival = RuleValue::from_range(9, 26);
        let birth = RuleValue::new(&[5, 6, 7, 12, 13, 15]);
        assert(birth@ =~= set![5u8, 6, 7, 12, 13, 15]);
        Rule { survival, birth, states: 20, neighbor_method: NeighborMethod::Moore }
    }

    /// The rule "Clouds 1": wispy cloud-like structures (13-26/13-14,17-19/2/M).
    pub fn clouds_1() -> (r: Self)
        ensures
            r.survival@ == range_set(13, 26),
            r.birth@ == range_set(13, 14).union(range_set(17, 19)),
            r.states == 2,
            r.neighbor_method == NeighborMethod::Moore,
    {
        let survival = RuleValue::from_range(13, 26);
        let birth = RuleValue::from_range(13, 14)
            .or(RuleValue::from_range(17, 19));
        Rule { survival, birth, states: 2, neighbor_method: NeighborMethod::Moore }
    }

    /// The rule "Amoeba": a slowly morphing blob (9-26/5-7,12-13,15/5/M).
    pub fn amoeba() -> (r: Self)
        ensures
            r.survival@ == range_set(9, 26),
            r.birth@ == range_set(5, 7).union(range_set(12, 13)).union(set![15u8]),
            r.states == 5,
            r.neighbor_method == NeighborMethod::Moore,
    {
        let survival = RuleValue::from_range(9, 26);
        let birth = RuleValue::from_range(5, 7)
            .or(RuleValue::from_range(12, 13))
            .or(RuleValue::new(&[15]));
        Rule { survival, birth, states: 5, neighbor_method: NeighborMethod::Moore }
    }

    /// The rule "Architecture": architectural-looking structures (4-6/3/2/M).
    pub fn architecture() -> (r: Self)
        ensures
            r.survival@ == range_set(4, 6),
            r.birth@ == set![3u8],
            r.states == 2,
            r.neighbor_method == NeighborMethod::Moore,
    {
        let survival = RuleValue::from_range(4, 6);
        let birth = RuleValue::new(&[3]);
        assert(birth@ =~= set![3u8]);
        Rule { survival, birth, states: 2, neighbor_method: NeighborMethod::Moore }
    }

    /// The rule "Brain": cellular structures resembling brain tissue (4/2/3/M).
    pub fn brain() -> (r: Self)
        ensures
            r.survival@ == set![4u8],
            r.birth@ == set![2u8],
            r.states == 3,
            r.neighbor_method == NeighborMethod::Moore,
    {
        let survival = RuleValue::new(&[4]);
        let birth = RuleValue::new(&[2]);
        assert(survival@ =~= set![4u8]);
        assert(birth@ =~= set![2u8]);
        Rule { survival, birth, states: 3, neighbor_method: NeighborMethod::Moore }
    }

    /// The rule "Builder 2": another builder variant (5-7/1/2/M).
    pub fn builder_2() -> (r: Self)
        ensures
            r.survival@ == range_set(5, 7),
            r.birth@ == set![1u8],
            r.states == 2,
            r.neighbor_method == NeighborMethod::Moore,
    {
        let survival = RuleValue::from_range(5, 7);
        let birth = RuleValue::new(&[1]);
        assert(birth@ =~= set![1u8]);
        Rule { survival, birth, states: 2, neighbor_method: NeighborMethod::Moore }
    }

    /// The rule "Coral": coral-like branching structures (5-8/6-7,9,12/8/M).
    pub fn coral() -> (r: Self)
        ensures
            r.survival@ == range_set(5, 8),
            r.birth@ == range_set(6, 7).union(set![9u8, 12]),
            r.states == 8,
            r.neighbor_method == NeighborMethod::Moore,
    {
        let survival = RuleValue::from_range(5, 8);
        let birth = RuleValue::from_range(6, 7)
            .or(RuleValue::new(&[9, 12]));
        Rule { survival, birth, states: 8, neighbor_method: NeighborMethod::Moore }
    }

    /// The rule "Crystal Growth 1": growing crystal formations (0-6/1,3/2/M).
    pub fn crystal_growth_1() -> (r: Self)
        ensures
            r.survival@ == range_set(0, 6),
            r.birth@ == set![1u8, 3],
            r.states == 2,
            r.neighbor_method == NeighborMethod::Moore,
    {
        let survival = RuleValue::from_range(0, 6);
        let birth = RuleValue::new(&[1, 3]);
        assert(birth@ =~= set![1u8, 3]);
        Rule { survival, birth, states: 2, neighbor_method: NeighborMethod::Moore }
    }

    /// The rule "Diamond Growth": diamond-like crystal formations (5-6/7-8/10/M).
    pub fn diamond_growth() -> (r: Self)
        ensures
            r.survival@ == range_set(5, 6),
            r.birth@ == range_set(7, 8),
            r.states == 10,
            r.neighbor_method == NeighborMethod::Moore,
    {
        let survival = RuleValue::from_range(5, 6);
        let birth = RuleValue::from_range(7, 8);
        Rule { survival, birth, states: 10, neighbor_method: NeighborMethod::Moore }
    }

    /// The rule "Pulse Waves": wave-like pulse patterns (3-8/3-7/3/M).
    pub fn pulse_waves() -> (r: Self)
        ensures
            r.survival@ == range_set(3, 8),
            r.birth@ == range_set(3, 7),
            r.states == 3,
            r.neighbor_method == NeighborMethod::Moore,
    {
        let survival = RuleValue::from_range(3, 8);
        let birth = RuleValue::from_range(3, 7);
        Rule { survival, birth, states: 3, neighbor_method: NeighborMethod::Moore }
    }

    /// The rule "Pyroclastic": explosive volcanic-like patterns (4-7/6-8/10/M).
    pub fn pyroclastic() -> (r: Self)
        ensures
            r.survival@ == range_set(4, 7),
            r.birth@ == range_set(6, 8),
            r.states == 10,
            r.neighbor_method == NeighborMethod::Moore,
    {
        let survival = RuleValue::from_range(4, 7);
        let birth = RuleValue::from_range(6, 8);
        Rule { survival, birth, states: 10, neighbor_method: NeighborMethod::Moore }
    }

    /// The rule "Spiky Growth": spiky protrusions (5-6/4/3/M).
    pub fn spiky_growth() -> (r: Self)
        ensures
            r.survival@ == range_set(5, 6),
            r.birth@ == set![4u8],
            r.states == 3,
            r.neighbor_method == NeighborMethod::Moore,
    {
        let survival = RuleValue::from_range(5, 6);
        let birth = RuleValue::new(&[4]);
        assert(birth@ =~= set![4u8]);
        Rule { survival, birth, states: 3, neighbor_method: NeighborMethod::Moore }
    }

    /// The rule "Shells": shell-like layered structures (4-5/3/3/M).
    pub fn shells() -> (r: Self)
        ensures
            r.survival@ == range_set(4, 5),
            r.birth@ == set![3u8],
            r.states == 3,
            r.neighbor_method == NeighborMethod::Moore,
    {
        let survival = RuleValue::from_range(4, 5);
        let birth = RuleValue::new(&[3]);
        assert(birth@ =~= set![3u8]);
        Rule { survival, birth, states: 3, neighbor_method: NeighborMethod::Moore }
    }

    /// A rule from explicit lists of survival and birth counts.
    pub fn new(survival: &[u8], birth: &[u8], states: u8, neighbor_method: NeighborMethod) -> (r:
        Self)
        ensures
            r.survival@ == counts_set(survival@),
            r.birth@ == counts_set(birth@),
            r.states == states,
            r.neighbor_method == neighbor_method,
    {
        Rule {
            survival: RuleValue::new(survival),
            birth: RuleValue::new(birth),
            states,
            neighbor_method,
        }
    }

    /// A rule from inclusive ranges of survival and birth counts
    /// (for instance survival 4-7, birth 6-8, 10 states, Moore).
    pub fn from_ranges(
        survival_min: u8,
        survival_max: u8,
        birth_min: u8,
        birth_max: u8,
        states: u8,
        neighbor_method: NeighborMethod,
    ) -> (r: Self)
        ensures
            r.survival@ == range_set(survival_min, survival_max),
            r.birth@ == range_set(birth_min, birth_max),
            r.states == states,
            r.neighbor_method == neighbor_method,
    {
        Rule {
            survival: RuleValue::from_range(survival_min, survival_max),
            birth: RuleValue::from_range(birth_min, birth_max),
            states,
            neighbor_method,
        }
    }

    /// Whether a fully alive cell with `neighbors` fully alive neighbors stays alive.
    pub fn should_survive(&self, neighbors: u8) -> (r: bool)
        ensures
            r == self.survival@.contains(neighbors),
    {
        self.survival.matches(neighbors)
    }

    /// Whether a dead cell with `neighbors` fully alive neighbors comes to life.
    pub fn should_birth(&self, neighbors: u8) -> (r: bool)
        ensures
            r == self.birth@.contains(neighbors),
    {
        self.birth.matches(neighbors)
    }
}

} // verus!
