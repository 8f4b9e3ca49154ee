use vstd::prelude::*;

verus! {

/// A cell of the integer lattice.
#[derive(PartialEq, Eq, Structural, Clone, Copy, Debug)]
pub struct Point {
    pub x: i64,
    pub y: i64,
}

/// The unit move that produced a position, named after the side the walk
/// came from; `NONE` marks the start of a walk.
#[derive(PartialEq, Eq, Structural, Clone, Copy, Debug)]
pub enum Direction {
    NONE,
    LEFT,
    RIGHT,
    UP,
    DOWN,
}

/// The head of one live walk: where it stands and how it got there.
#[derive(PartialEq, Eq, Structural, Clone, Copy, Debug)]
pub struct Step {
    pub pos: Point,
    pub from: Direction,
}

impl Point {
    pub open spec fn pair(self) -> (int, int) {
        (self.x as int, self.y as int)
    }
}

pub open spec fn in_i32(v: int) -> bool {
    i32::MIN <= v <= i32::MAX
}

/// The number under which a cell with 32-bit coordinates is stored.
pub open spec fn cell_key(x: int, y: int) -> int {
    (x + 0x8000_0000) * 0x1_0000_0000 + (y + 0x8000_0000)
}

proof fn lemma_cell_key_injective(x1: int, y1: int, x2: int, y2: int)
    requires
        in_i32(x1),
        in_i32(y1),
        in_i32(x2),
        in_i32(y2),
        cell_key(x1, y1) == cell_key(x2, y2),
    ensures
        x1 == x2,
        y1 == y2,
{
    let a1 = x1 + 0x8000_0000;
    let a2 = x2 + 0x8000_0000;
    let b1 = y1 + 0x8000_0000;
    let b2 = y2 + 0x8000_0000;
    assert(a1 == a2) by (nonlinear_arith)
        requires
            0 <= a1 < 0x1_0000_0000,
            0 <= a2 < 0x1_0000_0000,
            0 <= b1 < 0x1_0000_0000,
            0 <= b2 < 0x1_0000_0000,
            a1 * 0x1_0000_0000 + b1 == a2 * 0x1_0000_0000 + b2,
    {
        if a1 < a2 {
            assert(a1 * 0x1_0000_0000 + 0x1_0000_0000 <= a2 * 0x1_0000_0000);
        } else if a2 < a1 {
            assert(a2 * 0x1_0000_0000 + 0x1_0000_0000 <= a1 * 0x1_0000_0000);
        }
    }
}

/// The blocked cells, fixed for a whole run. Only cells with 32-bit
/// coordinates can be blocked.
pub struct ObstacleSet {
    keys: std::collections::HashSet<u64>,
}

impl View for ObstacleSet {
    type V = Set<(int, int)>;

    closed spec fn view(&self) -> Set<(int, int)> {
        Set::new(
            |p: (int, int)|
                in_i32(p.0) && in_i32(p.1) && self.keys@.contains(cell_key(p.0, p.1) as u64),
        )
    }
}

impl ObstacleSet {
    /// The set with no blocked cell.
    pub fn new() -> (r: ObstacleSet)
        ensures
            r@ == Set::<(int, int)>::empty(),
    {
        let r = ObstacleSet { keys: std::collections::HashSet::new() };
        assert(r@ =~= Set::<(int, int)>::empty());
        r
    }

    /// Blocks the cell `(x, y)`; blocking it twice changes nothing.
    pub fn insert(&mut self, x: i32, y: i32)
        ensures
            final(self)@ == old(self)@.insert((x as int, y as int)),
    {
        broadcast use vstd::std_specs::hash::group_hash_axioms;

        let a: u64 = (x as i64 + 0x8000_0000) as u64;
        let b: u64 = (y as i64 + 0x8000_0000) as u64;
        assert(a * 0x1_0000_0000 <= 0xffff_ffff_0000_0000) by (nonlinear_arith)
            requires
                a < 0x1_0000_0000,
        ;
        let key: u64 = a * 0x1_0000_0000 + b;
        self.keys.insert(key);
        assert forall|p: (int, int)| #[trigger] final(self)@.contains(p) implies old(self)@.insert(
            (x as int, y as int),
        ).contains(p) by {
            if cell_key(p.0, p.1) == key as int && p != (x as int, y as int) {
                lemma_cell_key_injective(p.0, p.1, x as int, y as int);
            }
        }
        assert(final(self)@ =~= old(self)@.insert((x as int, y as int)));
    }

    /// Whether the cell `p` is blocked.
    pub fn contains(&self, p: &Point) -> (r: bool)
        ensures
            r == self@.contains(p.pair()),
    {
        broadcast use vstd::std_specs::hash::group_hash_axioms;

        if p.x < i32::MIN as i64 || p.x > i32::MAX as i64 || p.y < i32::MIN as i64 || p.y
            > i32::MAX as i64 {
            return false;
        }
        let a: u64 = (p.x + 0x8000_0000) as u64;
        let b: u64 = (p.y + 0x8000_0000) as u64;
        assert(a * 0x1_0000_0000 <= 0xffff_ffff_0000_0000) by (nonlinear_arith)
            requires
                a < 0x1_0000_0000,
        ;
        let key: u64 = a * 0x1_0000_0000 + b;
        self.keys.contains(&key)
    }
}

/// The values a run starts from: where the walks start, the cell they aim
/// for, the blocked cells and how many ticks the walks take.
pub struct Data {
    pub sw_pos: Point,
    pub target_pos: Point,
    pub obstacles: ObstacleSet,
    pub time_limit: u32,
}

} // verus!
