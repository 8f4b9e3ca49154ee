use vstd::prelude::*;
use crate::grid::{in_i32, Data, Direction, ObstacleSet, Point, Step};

verus! {

/// Whether moving with label `d` right after a move labelled `prev` steps
/// straight back onto the cell just left.
pub open spec fn is_reversal(d: Direction, prev: Direction) -> bool {
    ||| (d == Direction::LEFT && prev == Direction::RIGHT)
    ||| (d == Direction::RIGHT && prev == Direction::LEFT)
    ||| (d == Direction::UP && prev == Direction::DOWN)
    ||| (d == Direction::DOWN && prev == Direction::UP)
}

/// Whether `step` may follow `old_step` among the blocked cells `obstacles`.
pub open spec fn step_ok(step: Step, old_step: Step, obstacles: Set<(int, int)>) -> bool {
    !obstacles.contains(step.pos.pair()) && !is_reversal(step.from, old_step.from)
}

pub open spec fn moved(s: Step, dx: int, dy: int, from: Direction) -> Step {
    Step { pos: Point { x: (s.pos.x + dx) as i64, y: (s.pos.y + dy) as i64 }, from }
}

/// The four unit moves out of `s`, in the order +x, -x, +y, -y.
pub open spec fn children(s: Step) -> Seq<Step> {
    seq![
        moved(s, 1, 0, Direction::LEFT),
        moved(s, -1, 0, Direction::RIGHT),
        moved(s, 0, 1, Direction::DOWN),
        moved(s, 0, -1, Direction::UP),
    ]
}

pub open spec fn keep(c: Step, parent: Step, obstacles: Set<(int, int)>) -> Seq<Step> {
    if step_ok(c, parent, obstacles) {
        seq![c]
    } else {
        Seq::empty()
    }
}

/// The moves out of `s` that the rules allow, in the order of `children`.
pub open spec fn valid_children(s: Step, obstacles: Set<(int, int)>) -> Seq<Step> {
    keep(children(s)[0], s, obstacles) + keep(children(s)[1], s, obstacles) + keep(
        children(s)[2],
        s,
        obstacles,
    ) + keep(children(s)[3], s, obstacles)
}

/// Every unit move out of every walk head of `f`, before any check.
pub open spec fn advance(f: Seq<Step>) -> Seq<Step>
    decreases f.len(),
{
    if f.len() == 0 {
        Seq::empty()
    } else {
        advance(f.drop_last()) + children(f.last())
    }
}

/// The allowed moves out of every walk head of `f`, parent by parent.
pub open spec fn successors(f: Seq<Step>, obstacles: Set<(int, int)>) -> Seq<Step>
    decreases f.len(),
{
    if f.len() == 0 {
        Seq::empty()
    } else {
        successors(f.drop_last(), obstacles) + valid_children(f.last(), obstacles)
    }
}

/// How many walk heads of `f` stand on `target`.
pub open spec fn landed(f: Seq<Step>, target: Point) -> nat
    decreases f.len(),
{
    if f.len() == 0 {
        0
    } else {
        landed(f.drop_last(), target) + if f.last().pos == target {
            1nat
        } else {
            0nat
        }
    }
}

/// The walk heads of `f` that do not stand on `target`, in their order.
pub open spec fn remaining(f: Seq<Step>, target: Point) -> Seq<Step>
    decreases f.len(),
{
    if f.len() == 0 {
        Seq::empty()
    } else if f.last().pos == target {
        remaining(f.drop_last(), target)
    } else {
        remaining(f.drop_last(), target).push(f.last())
    }
}

/// The live walks after `t` ticks.
pub open spec fn frontier(start: Point, target: Point, obstacles: Set<(int, int)>, t: nat) -> Seq<
    Step,
>
    decreases t,
{
    if t == 0 {
        seq![Step { pos: start, from: Direction::NONE }]
    } else {
        remaining(successors(frontier(start, target, obstacles, (t - 1) as nat), obstacles), target)
    }
}

/// The walks that land on `target` at tick `t` (counted from one).
pub open spec fn hits_at(start: Point, target: Point, obstacles: Set<(int, int)>, t: nat) -> nat {
    if t == 0 {
        0
    } else {
        landed(successors(frontier(start, target, obstacles, (t - 1) as nat), obstacles), target)
    }
}

/// The walks that land on `target` within `t` ticks, summed over the ticks.
pub open spec fn total_walks(start: Point, target: Point, obstacles: Set<(int, int)>, t: nat) -> nat
    decreases t,
{
    if t == 0 {
        0
    } else {
        total_walks(start, target, obstacles, (t - 1) as nat) + hits_at(start, target, obstacles, t)
    }
}

/// Whether the move `step` doubles back on `old_step`.
pub fn check_direction(step: &Step, old_step: &Step) -> (r: bool)
    ensures
        r == !is_reversal(step.from, old_step.from),
{
    match (step.from, old_step.from) {
        (Direction::LEFT, Direction::RIGHT) | (Direction::RIGHT, Direction::LEFT) | (
            Direction::UP,
            Direction::DOWN,
        ) | (Direction::DOWN, Direction::UP) => false,
        _ => true,
    }
}

/// Whether `step` stands off every blocked cell.
pub fn check_obstacles(step: &Step, obstacles: &ObstacleSet) -> (r: bool)
    ensures
        r == !obstacles@.contains(step.pos.pair()),
{
    !obstacles.contains(&step.pos)
}

/// Whether `step` may follow `old_step`.
pub fn validate_step(step: &Step, old_step: &Step, obstacles: &ObstacleSet) -> (r: bool)
    ensures
        r == step_ok(*step, *old_step, obstacles@),
{
    check_obstacles(step, obstacles) && check_direction(step, old_step)
}

/// Whether both coordinates of `s` can move one unit without leaving `i64`.
pub open spec fn movable(s: Step) -> bool {
    i64::MIN < s.pos.x < i64::MAX && i64::MIN < s.pos.y < i64::MAX
}

fn push_if_valid(out: &mut Vec<Step>, c: Step, parent: &Step, obstacles: &ObstacleSet)
    ensures
        final(out)@ == old(out)@ + keep(c, *parent, obstacles@),
{
    if validate_step(&c, parent, obstacles) {
        out.push(c);
    }
    assert(final(out)@ =~= old(out)@ + keep(c, *parent, obstacles@));
}

/// Moves every live walk one tick: the four unit moves out of each walk head,
/// parent by parent, keeping those that `validate_step` allows.
pub fn one_step_from_now(pos: &Vec<Step>, obstacles: &ObstacleSet) -> (r: Vec<Step>)
    requires
        forall|j: int| 0 <= j < pos@.len() ==> movable(#[trigger] pos@[j]),
    ensures
        r@ == successors(pos@, obstacles@),
{
    let mut out: Vec<Step> = Vec::new();
    let n = pos.len();
    let mut i: usize = 0;
    while i < n
        invariant
            n == pos@.len(),
            0 <= i <= n,
            forall|j: int| 0 <= j < pos@.len() ==> movable(#[trigger] pos@[j]),
            out@ == successors(pos@.subrange(0, i as int), obstacles@),
        decreases n - i,
    {
        let s = &pos[i];
        assert(movable(pos@[i as int]));
        let ghost before = out@;
        let x = s.pos.x;
        let y = s.pos.y;
        let c = Step { pos: Point { x: x + 1, y }, from: Direction::LEFT };
        push_if_valid(&mut out, c, s, obstacles);
        let c = Step { pos: Point { x: x - 1, y }, from: Direction::RIGHT };
        push_if_valid(&mut out, c, s, obstacles);
        let c = Step { pos: Point { x, y: y + 1 }, from: Direction::DOWN };
        push_if_valid(&mut out, c, s, obstacles);
        let c = Step { pos: Point { x, y: y - 1 }, from: Direction::UP };
        push_if_valid(&mut out, c, s, obstacles);
        proof {
            let pre = pos@.subrange(0, i as int + 1);
            assert(pre.drop_last() =~= pos@.subrange(0, i as int));
            assert(pre.last() == *s);
            assert(out@ =~= before + valid_children(*s, obstacles@));
        }
        i = i + 1;
    }
    assert(pos@.subrange(0, n as int) =~= pos@);
    out
}

/// Splits `f` into the walks that stand on `target` and the rest.
fn partition_landed(f: Vec<Step>, target: &Point) -> (r: (Vec<Step>, usize))
    ensures
        r.0@ == remaining(f@, *target),
        r.1 == landed(f@, *target),
{
    let mut rest: Vec<Step> = Vec::new();
    let mut count: usize = 0;
    let n = f.len();
    let mut i: usize = 0;
    while i < n
        invariant
            n == f@.len(),
            0 <= i <= n,
            count <= i,
            rest@ == remaining(f@.subrange(0, i as int), *target),
            count == landed(f@.subrange(0, i as int), *target),
        decreases n - i,
    {
        let s = f[i];
        proof {
            let pre = f@.subrange(0, i as int + 1);
            assert(pre.drop_last() =~= f@.subrange(0, i as int));
            assert(pre.last() == s);
        }
        if s.pos == *target {
            count = count + 1;
        } else {
            rest.push(s);
        }
        i = i + 1;
    }
    assert(f@.subrange(0, n as int) =~= f@);
    (rest, count)
}

/// Advances the live walks one tick and retires those that land on `target`:
/// returns the walks that go on, in order, and how many landed.
pub fn go_forward(cur_pos: &Vec<Step>, target: &Point, obstacles: &ObstacleSet) -> (r: (Vec<Step>, usize))
    requires
        forall|j: int| 0 <= j < cur_pos@.len() ==> movable(#[trigger] cur_pos@[j]),
    ensures
        r.0@ == remaining(successors(cur_pos@, obstacles@), *target),
        r.1 == landed(successors(cur_pos@, obstacles@), *target),
{
    let new_pos = one_step_from_now(cur_pos, obstacles);
    partition_landed(new_pos, target)
}

/// The number that the count of walks is reduced by.
pub const MODULUS: u64 = 1_000_000_007;

/// Whether `s` stands at most `r` units from `c` along each axis.
pub open spec fn within(s: Step, c: Point, r: int) -> bool {
    -r <= s.pos.x - c.x <= r && -r <= s.pos.y - c.y <= r
}

proof fn lemma_valid_children_within(s: Step, obstacles: Set<(int, int)>, c: Point, r: int)
    requires
        within(s, c, r),
        movable(s),
    ensures
        forall|j: int|
            0 <= j < valid_children(s, obstacles).len() ==> within(
                #[trigger] valid_children(s, obstacles)[j],
                c,
                r + 1,
            ),
{
    let k0 = keep(children(s)[0], s, obstacles);
    let k1 = keep(children(s)[1], s, obstacles);
    let k2 = keep(children(s)[2], s, obstacles);
    let k3 = keep(children(s)[3], s, obstacles);
    let all = valid_children(s, obstacles);
    assert forall|j: int| 0 <= j < all.len() implies within(#[trigger] all[j], c, r + 1) by {
        if j < k0.len() {
            assert(all[j] == k0[j]);
        } else if j < k0.len() + k1.len() {
            assert(all[j] == k1[j - k0.len()]);
        } else if j < k0.len() + k1.len() + k2.len() {
            assert(all[j] == k2[j - k0.len() - k1.len()]);
        } else {
            assert(all[j] == k3[j - k0.len() - k1.len() - k2.len()]);
        }
    }
}

proof fn lemma_successors_within(f: Seq<Step>, obstacles: Set<(int, int)>, c: Point, r: int)
    requires
        forall|j: int| 0 <= j < f.len() ==> within(#[trigger] f[j], c, r),
        forall|j: int| 0 <= j < f.len() ==> movable(#[trigger] f[j]),
    ensures
        forall|j: int|
            0 <= j < successors(f, obstacles).len() ==> within(
                #[trigger] successors(f, obstacles)[j],
                c,
                r + 1,
            ),
    decreases f.len(),
{
    if f.len() > 0 {
        let head = f.drop_last();
        assert forall|j: int| 0 <= j < head.len() implies within(#[trigger] head[j], c, r)
            && movable(head[j]) by {
            assert(head[j] == f[j]);
        }
        lemma_successors_within(head, obstacles, c, r);
        lemma_valid_children_within(f.last(), obstacles, c, r);
        let a = successors(head, obstacles);
        let b = valid_children(f.last(), obstacles);
        assert forall|j: int| 0 <= j < (a + b).len() implies within(#[trigger] (a + b)[j], c, r + 1) by {
            if j >= a.len() {
                assert(b[j - a.len()] == (a + b)[j]);
            }
        }
    }
}

proof fn lemma_remaining_keeps(f: Seq<Step>, target: Point, p: spec_fn(Step) -> bool)
    requires
        forall|j: int| 0 <= j < f.len() ==> p(#[trigger] f[j]),
    ensures
        forall|j: int|
            0 <= j < remaining(f, target).len() ==> p(#[trigger] remaining(f, target)[j])
                && remaining(f, target)[j].pos != target,
    decreases f.len(),
{
    if f.len() > 0 {
        let head = f.drop_last();
        assert forall|j: int| 0 <= j < head.len() implies p(#[trigger] head[j]) by {
            assert(head[j] == f[j]);
        }
        lemma_remaining_keeps(head, target, p);
    }
}

/// Runs the walks from `data.sw_pos` for `data.time_limit` ticks and returns
/// how many of them landed on `data.target_pos`, summed over the ticks and
/// reduced by `MODULUS`.
pub fn count_walks(data: &Data) -> (r: u64)
    requires
        in_i32(data.sw_pos.x as int),
        in_i32(data.sw_pos.y as int),
    ensures
        r == total_walks(data.sw_pos, data.target_pos, data.obstacles@, data.time_limit as nat)
            % (MODULUS as nat),
{
    let ghost start = data.sw_pos;
    let ghost target = data.target_pos;
    let ghost obs = data.obstacles@;
    let mut sum: u64 = 0;
    let mut cur: Vec<Step> = vec![Step { pos: data.sw_pos, from: Direction::NONE }];
    let mut k: u32 = 0;
    assert(cur@ =~= frontier(start, target, obs, 0));
    while k < data.time_limit
        invariant
            start == data.sw_pos,
            target == data.target_pos,
            obs == data.obstacles@,
            in_i32(start.x as int),
            in_i32(start.y as int),
            k <= data.time_limit,
            cur@ == frontier(start, target, obs, k as nat),
            sum == total_walks(start, target, obs, k as nat) % (MODULUS as nat),
            forall|j: int| 0 <= j < cur@.len() ==> within(#[trigger] cur@[j], start, k as int),
        decreases data.time_limit - k,
    {
        assert forall|j: int| 0 <= j < cur@.len() implies movable(#[trigger] cur@[j]) by {
            assert(within(cur@[j], start, k as int));
        }
        let (next, count) = go_forward(&cur, &data.target_pos, &data.obstacles);
        proof {
            let succ = successors(cur@, obs);
            lemma_successors_within(cur@, obs, start, k as int);
            let p = |s: Step| within(s, start, k as int + 1);
            assert forall|j: int| 0 <= j < succ.len() implies p(#[trigger] succ[j]) by {
                assert(within(succ[j], start, k as int + 1));
            }
            lemma_remaining_keeps(succ, target, p);
            vstd::arithmetic::div_mod::lemma_add_mod_noop(
                total_walks(start, target, obs, k as nat) as int,
                count as int,
                MODULUS as int,
            );
            vstd::arithmetic::div_mod::lemma_mod_twice(
                total_walks(start, target, obs, k as nat) as int,
                MODULUS as int,
            );
        }
        let c: u64 = (count as u64) % MODULUS;
        sum = (sum + c) % MODULUS;
        cur = next;
        k = k + 1;
        proof {
            assert forall|j: int| 0 <= j < cur@.len() implies within(#[trigger] cur@[j], start, k as int) by {
                let p = |s: Step| within(s, start, k as int);
                assert(p(cur@[j]));
            }
        }
    }
    sum
}

/// A move onto a blocked cell is never allowed, whatever the two directions.
pub proof fn lemma_blocked_cell_rejected(step: Step, old_step: Step, obstacles: Set<(int, int)>)
    requires
        obstacles.contains(step.pos.pair()),
    ensures
        !step_ok(step, old_step, obstacles),
{
}

/// Exactly the four opposite pairs of directions are reversals: in
/// particular no pair that involves `NONE` is one.
pub proof fn lemma_reversal_pairs(d: Direction, prev: Direction)
    ensures
        is_reversal(d, prev) <==> (d, prev) == (Direction::LEFT, Direction::RIGHT) || (d, prev) == (
            Direction::RIGHT,
            Direction::LEFT,
        ) || (d, prev) == (Direction::UP, Direction::DOWN) || (d, prev) == (
            Direction::DOWN,
            Direction::UP,
        ),
        d == Direction::NONE || prev == Direction::NONE ==> !is_reversal(d, prev),
{
}

/// Before any check, a tick turns `n` walk heads into exactly `4 * n`
/// candidate moves, and the allowed ones are never more.
pub proof fn lemma_advance_len(f: Seq<Step>, obstacles: Set<(int, int)>)
    ensures
        advance(f).len() == 4 * f.len(),
        successors(f, obstacles).len() <= advance(f).len(),
    decreases f.len(),
{
    if f.len() > 0 {
        lemma_advance_len(f.drop_last(), obstacles);
    }
}

proof fn lemma_successors_unblocked(f: Seq<Step>, obstacles: Set<(int, int)>)
    ensures
        forall|j: int|
            0 <= j < successors(f, obstacles).len() ==> !obstacles.contains(
                (#[trigger] successors(f, obstacles)[j]).pos.pair(),
            ),
    decreases f.len(),
{
    if f.len() > 0 {
        lemma_successors_unblocked(f.drop_last(), obstacles);
        let s = f.last();
        let k0 = keep(children(s)[0], s, obstacles);
        let k1 = keep(children(s)[1], s, obstacles);
        let k2 = keep(children(s)[2], s, obstacles);
        let k3 = keep(children(s)[3], s, obstacles);
        let a = successors(f.drop_last(), obstacles);
        let b = valid_children(s, obstacles);
        assert forall|j: int| 0 <= j < (a + b).len() implies !obstacles.contains(
            (#[trigger] (a + b)[j]).pos.pair(),
        ) by {
            if j >= a.len() {
                let i = j - a.len();
                assert((a + b)[j] == b[i]);
                if i < k0.len() {
                    assert(b[i] == k0[i]);
                } else if i < k0.len() + k1.len() {
                    assert(b[i] == k1[i - k0.len()]);
                } else if i < k0.len() + k1.len() + k2.len() {
                    assert(b[i] == k2[i - k0.len() - k1.len()]);
                } else {
                    assert(b[i] == k3[i - k0.len() - k1.len() - k2.len()]);
                }
            }
        }
    }
}

/// From the first tick on, no live walk stands on a blocked cell or on the
/// target: the first are never entered, the second are retired as counted.
pub proof fn lemma_frontier_avoids_obstacles(
    start: Point,
    target: Point,
    obstacles: Set<(int, int)>,
    t: nat,
)
    requires
        t >= 1,
    ensures
        forall|j: int|
            0 <= j < frontier(start, target, obstacles, t).len() ==> {
                let s = #[trigger] frontier(start, target, obstacles, t)[j];
                !obstacles.contains(s.pos.pair()) && s.pos != target
            },
{
    let succ = successors(frontier(start, target, obstacles, (t - 1) as nat), obstacles);
    lemma_successors_unblocked(frontier(start, target, obstacles, (t - 1) as nat), obstacles);
    let p = |s: Step| !obstacles.contains(s.pos.pair());
    assert forall|j: int| 0 <= j < succ.len() implies p(#[trigger] succ[j]) by {}
    lemma_remaining_keeps(succ, target, p);
}

/// With no tick to take, no walk lands anywhere.
pub proof fn lemma_no_ticks_no_walks(start: Point, target: Point, obstacles: Set<(int, int)>)
    ensures
        total_walks(start, target, obstacles, 0) == 0,
{
}

/// The walks out of the head `s` that land on `target` after exactly `k`
/// more moves and not before, counted one walk at a time, depth first.
pub open spec fn walks_from(s: Step, target: Point, obstacles: Set<(int, int)>, k: nat) -> nat
    decreases k, 1nat, 0nat,
{
    if k == 0 {
        0
    } else {
        walks_through(valid_children(s, obstacles), target, obstacles, k)
    }
}

/// The walks that take one of the first moves `cs` and land on `target`
/// after exactly `k` moves in all, and not before.
pub open spec fn walks_through(cs: Seq<Step>, target: Point, obstacles: Set<(int, int)>, k: nat) -> nat
    decreases k, 0nat, cs.len(),
{
    if cs.len() == 0 || k == 0 {
        0
    } else {
        walks_through(cs.drop_last(), target, obstacles, k) + if cs.last().pos == target {
            if k == 1 {
                1nat
            } else {
                0nat
            }
        } else if k == 1 {
            0nat
        } else {
            walks_from(cs.last(), target, obstacles, (k - 1) as nat)
        }
    }
}

/// The walks of the heads of `f` that land on `target` after exactly `k`
/// more moves.
pub open spec fn walks_of(f: Seq<Step>, target: Point, obstacles: Set<(int, int)>, k: nat) -> nat
    decreases f.len(),
{
    if f.len() == 0 {
        0
    } else {
        walks_of(f.drop_last(), target, obstacles, k) + walks_from(f.last(), target, obstacles, k)
    }
}

/// The walks from `start` that land on `target` within `t` moves, each
/// counted at its first landing.
pub open spec fn enumerated_total(start: Point, target: Point, obstacles: Set<(int, int)>, t: nat) -> nat
    decreases t,
{
    if t == 0 {
        0
    } else {
        enumerated_total(start, target, obstacles, (t - 1) as nat) + walks_from(
            Step { pos: start, from: Direction::NONE },
            target,
            obstacles,
            t,
        )
    }
}

proof fn lemma_through_concat(
    a: Seq<Step>,
    b: Seq<Step>,
    target: Point,
    obstacles: Set<(int, int)>,
    k: nat,
)
    ensures
        walks_through(a + b, target, obstacles, k) == walks_through(a, target, obstacles, k)
            + walks_through(b, target, obstacles, k),
    decreases b.len(),
{
    if b.len() == 0 {
        assert(a + b =~= a);
    } else {
        assert((a + b).drop_last() =~= a + b.drop_last());
        assert((a + b).last() == b.last());
        lemma_through_concat(a, b.drop_last(), target, obstacles, k);
    }
}

proof fn lemma_through_first_tick(cs: Seq<Step>, target: Point, obstacles: Set<(int, int)>)
    ensures
        walks_through(cs, target, obstacles, 1) == landed(cs, target),
    decreases cs.len(),
{
    if cs.len() > 0 {
        lemma_through_first_tick(cs.drop_last(), target, obstacles);
    }
}

proof fn lemma_through_later_tick(cs: Seq<Step>, target: Point, obstacles: Set<(int, int)>, k: nat)
    requires
        k >= 2,
    ensures
        walks_through(cs, target, obstacles, k) == walks_of(
            remaining(cs, target),
            target,
            obstacles,
            (k - 1) as nat,
        ),
    decreases cs.len(),
{
    if cs.len() > 0 {
        lemma_through_later_tick(cs.drop_last(), target, obstacles, k);
        if cs.last().pos != target {
            let r = remaining(cs.drop_last(), target);
            assert(r.push(cs.last()).drop_last() =~= r);
        }
    }
}

proof fn lemma_walks_of_successors(f: Seq<Step>, target: Point, obstacles: Set<(int, int)>, k: nat)
    requires
        k >= 1,
    ensures
        walks_of(f, target, obstacles, k) == walks_through(successors(f, obstacles), target, obstacles, k),
    decreases f.len(),
{
    if f.len() > 0 {
        lemma_walks_of_successors(f.drop_last(), target, obstacles, k);
        lemma_through_concat(
            successors(f.drop_last(), obstacles),
            valid_children(f.last(), obstacles),
            target,
            obstacles,
            k,
        );
    }
}

proof fn lemma_frontier_walks(start: Point, target: Point, obstacles: Set<(int, int)>, m: nat, k: nat)
    requires
        k >= 1,
    ensures
        walks_of(frontier(start, target, obstacles, m), target, obstacles, k) == walks_from(
            Step { pos: start, from: Direction::NONE },
            target,
            obstacles,
            k + m,
        ),
    decreases m,
{
    let s0 = Step { pos: start, from: Direction::NONE };
    if m == 0 {
        let f = frontier(start, target, obstacles, 0);
        assert(f.drop_last() =~= Seq::<Step>::empty());
        assert(f.last() == s0);
        assert(walks_of(f.drop_last(), target, obstacles, k) == 0);
    } else {
        let prev = frontier(start, target, obstacles, (m - 1) as nat);
        let succ = successors(prev, obstacles);
        lemma_through_later_tick(succ, target, obstacles, k + 1);
        lemma_walks_of_successors(prev, target, obstacles, k + 1);
        lemma_frontier_walks(start, target, obstacles, (m - 1) as nat, k + 1);
    }
}

/// The count of the simulation agrees with a walk-by-walk enumeration: the
/// walks that land on the target at each tick are exactly the walks from
/// the start, with no reversal and no blocked cell, that reach the target
/// first after that many moves, and so are their sums over the ticks.
pub proof fn lemma_total_matches_enumeration(
    start: Point,
    target: Point,
    obstacles: Set<(int, int)>,
    t: nat,
)
    ensures
        t >= 1 ==> hits_at(start, target, obstacles, t) == walks_from(
            Step { pos: start, from: Direction::NONE },
            target,
            obstacles,
            t,
        ),
        total_walks(start, target, obstacles, t) == enumerated_total(start, target, obstacles, t),
    decreases t,
{
    if t >= 1 {
        let prev = frontier(start, target, obstacles, (t - 1) as nat);
        lemma_through_first_tick(successors(prev, obstacles), target, obstacles);
        lemma_walks_of_successors(prev, target, obstacles, 1);
        lemma_frontier_walks(start, target, obstacles, (t - 1) as nat, 1);
        lemma_total_matches_enumeration(start, target, obstacles, (t - 1) as nat);
    }
}

} // verus!
