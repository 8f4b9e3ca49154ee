use grid_walks::grid::{Data, Direction, ObstacleSet, Point, Step};
use grid_walks::walk::{
    check_direction, check_obstacles, count_walks, go_forward, one_step_from_now, validate_step,
    MODULUS,
};

fn pt(x: i64, y: i64) -> Point {
    Point { x, y }
}

fn st(x: i64, y: i64, from: Direction) -> Step {
    Step { pos: pt(x, y), from }
}

fn blocked(cells: &[(i32, i32)]) -> ObstacleSet {
    let mut o = ObstacleSet::new();
    for &(x, y) in cells {
        o.insert(x, y);
    }
    o
}

fn run(start: (i64, i64), target: (i64, i64), t: u32, cells: &[(i32, i32)]) -> u64 {
    let data = Data {
        sw_pos: pt(start.0, start.1),
        target_pos: pt(target.0, target.1),
        obstacles: blocked(cells),
        time_limit: t,
    };
    count_walks(&data)
}

const ALL: [Direction; 5] =
    [Direction::NONE, Direction::LEFT, Direction::RIGHT, Direction::UP, Direction::DOWN];

#[test]
fn reversal_only_for_opposite_pairs() {
    let mut forbidden = 0;
    for &d in ALL.iter() {
        for &p in ALL.iter() {
            let ok = check_direction(&st(0, 0, d), &st(0, 0, p));
            let opposite = matches!(
                (d, p),
                (Direction::LEFT, Direction::RIGHT)
                    | (Direction::RIGHT, Direction::LEFT)
                    | (Direction::UP, Direction::DOWN)
                    | (Direction::DOWN, Direction::UP)
            );
            assert_eq!(ok, !opposite);
            if !ok {
                forbidden += 1;
            }
        }
    }
    assert_eq!(forbidden, 4);
}

#[test]
fn blocked_cell_rejected_whatever_the_direction() {
    let o = blocked(&[(2, -3)]);
    for &d in ALL.iter() {
        for &p in ALL.iter() {
            assert!(!validate_step(&st(2, -3, d), &st(1, -3, p), &o));
        }
    }
    assert!(!check_obstacles(&st(2, -3, Direction::NONE), &o));
    assert!(check_obstacles(&st(2, 3, Direction::NONE), &o));
    assert!(validate_step(&st(2, 3, Direction::UP), &st(2, 4, Direction::UP), &o));
    assert!(!validate_step(&st(2, 3, Direction::UP), &st(2, 2, Direction::DOWN), &o));
}

#[test]
fn obstacle_set_membership() {
    let mut o = ObstacleSet::new();
    assert!(!o.contains(&pt(0, 0)));
    o.insert(0, 0);
    o.insert(0, 0);
    o.insert(i32::MIN, i32::MAX);
    assert!(o.contains(&pt(0, 0)));
    assert!(o.contains(&pt(i32::MIN as i64, i32::MAX as i64)));
    assert!(!o.contains(&pt(i32::MAX as i64, i32::MIN as i64)));
    assert!(!o.contains(&pt(1, 0)));
    assert!(!o.contains(&pt(i32::MAX as i64 + 1, 0)));
    assert!(!o.contains(&pt(0, (1i64 << 32))));
}

#[test]
fn first_tick_from_start_keeps_all_four_moves() {
    let o = ObstacleSet::new();
    let next = one_step_from_now(&vec![st(0, 0, Direction::NONE)], &o);
    assert_eq!(
        next,
        vec![
            st(1, 0, Direction::LEFT),
            st(-1, 0, Direction::RIGHT),
            st(0, 1, Direction::DOWN),
            st(0, -1, Direction::UP),
        ]
    );
}

#[test]
fn later_tick_drops_reversal_and_blocked_moves() {
    let o = blocked(&[(2, 1)]);
    let frontier = vec![st(1, 0, Direction::LEFT), st(1, 0, Direction::LEFT), st(5, 5, Direction::NONE)];
    let next = one_step_from_now(&frontier, &o);
    assert_eq!(next.len(), 3 + 3 + 4);
    assert!(!next.contains(&st(0, 0, Direction::RIGHT)));
    let again = one_step_from_now(&vec![st(2, 0, Direction::LEFT)], &o);
    assert_eq!(again, vec![st(3, 0, Direction::LEFT), st(2, -1, Direction::UP)]);
}

#[test]
fn go_forward_retires_walks_on_target() {
    let o = blocked(&[(0, -1)]);
    let (rest, hits) = go_forward(&vec![st(0, 0, Direction::NONE)], &pt(1, 0), &o);
    assert_eq!(hits, 1);
    assert_eq!(rest, vec![st(-1, 0, Direction::RIGHT), st(0, 1, Direction::DOWN)]);
}

#[test]
fn blocked_cell_never_in_frontier() {
    let cells = [(1, 0), (0, 2), (-1, -1)];
    let o = blocked(&cells);
    let mut cur = vec![st(0, 0, Direction::NONE)];
    for _ in 0..6 {
        let (next, _) = go_forward(&cur, &pt(3, 3), &o);
        for s in next.iter() {
            assert!(!cells.iter().any(|&(x, y)| s.pos == pt(x as i64, y as i64)));
            assert!(s.pos != pt(3, 3));
        }
        cur = next;
    }
}

#[test]
fn zero_time_limit_counts_nothing() {
    assert_eq!(run((0, 0), (0, 0), 0, &[]), 0);
    assert_eq!(run((0, 0), (1, 0), 0, &[]), 0);
}

#[test]
fn one_tick_to_neighbour() {
    assert_eq!(run((0, 0), (1, 0), 1, &[]), 1);
}

#[test]
fn one_tick_never_returns_to_start() {
    assert_eq!(run((0, 0), (0, 0), 1, &[]), 0);
}

#[test]
fn blocked_middle_cell_stops_two_tick_walk() {
    assert_eq!(run((0, 0), (2, 0), 2, &[(1, 0)]), 0);
    assert_eq!(run((0, 0), (2, 0), 2, &[]), 1);
}

#[test]
fn exact_counts_on_small_runs() {
    // Two moves reach (1, 1) by way of (1, 0) or (0, 1).
    assert_eq!(run((0, 0), (1, 1), 2, &[]), 2);
    // Back at the start: the first return comes after four moves, around
    // one of the four unit squares in either turning sense.
    assert_eq!(run((0, 0), (0, 0), 4, &[]), 8);
    assert_eq!(run((10, -7), (10, -7), 4, &[]), 8);
}

#[test]
fn starting_on_target_is_not_a_landing() {
    assert_eq!(run((4, 4), (4, 4), 3, &[]), 0);
}

#[test]
fn start_at_coordinate_limits() {
    let lo = i32::MIN as i64;
    let hi = i32::MAX as i64;
    assert_eq!(run((hi, lo), (hi + 1, lo), 1, &[]), 1);
    assert_eq!(run((hi, lo), (hi + 1, lo - 1), 2, &[]), 2);
}

const DIRS: [(i64, i64, Direction); 4] = [
    (1, 0, Direction::LEFT),
    (-1, 0, Direction::RIGHT),
    (0, 1, Direction::DOWN),
    (0, -1, Direction::UP),
];

fn opposite(a: Direction, b: Direction) -> bool {
    matches!(
        (a, b),
        (Direction::LEFT, Direction::RIGHT)
            | (Direction::RIGHT, Direction::LEFT)
            | (Direction::UP, Direction::DOWN)
            | (Direction::DOWN, Direction::UP)
    )
}

// Tries every sequence of `len` moves and counts those that land on the
// target first at their last move.
fn brute_force(start: (i64, i64), target: (i64, i64), len: u32, cells: &[(i32, i32)]) -> u64 {
    let mut count = 0;
    for code in 0..4u64.pow(len) {
        let (mut x, mut y) = start;
        let mut prev = Direction::NONE;
        let mut c = code;
        let mut ok = true;
        for i in 0..len {
            let (dx, dy, d) = DIRS[(c % 4) as usize];
            c /= 4;
            x += dx;
            y += dy;
            if opposite(d, prev) || cells.iter().any(|&(a, b)| (a as i64, b as i64) == (x, y)) {
                ok = false;
                break;
            }
            if (x, y) == target && i + 1 < len {
                ok = false;
                break;
            }
            prev = d;
        }
        if ok && (x, y) == target {
            count += 1;
        }
    }
    count
}

#[test]
fn sum_matches_brute_force_enumeration() {
    let cases: [((i64, i64), (i64, i64), &[(i32, i32)]); 4] = [
        ((0, 0), (1, 1), &[]),
        ((0, 0), (2, 0), &[(1, 0)]),
        ((0, 0), (0, 0), &[(1, 1), (-1, 0)]),
        ((2, -1), (0, 1), &[(1, 0), (1, 1), (0, -1)]),
    ];
    for (start, target, cells) in cases.iter() {
        for t in 0..=6u32 {
            let expected: u64 = (1..=t).map(|k| brute_force(*start, *target, k, cells)).sum();
            assert_eq!(run(*start, *target, t, cells), expected % MODULUS);
        }
    }
}
