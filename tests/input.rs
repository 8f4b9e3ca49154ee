use grid_walks::grid::Point;
use grid_walks::input::{get_obstacles, get_position, get_time_limit, process_input, solve_input};

fn lines(text: &[&str]) -> Vec<String> {
    text.iter().map(|l| l.to_string()).collect()
}

#[test]
fn position_reads_two_integers() {
    assert_eq!(get_position("3 -4\n"), Some(Point { x: 3, y: -4 }));
    assert_eq!(get_position("  +5\t7 9"), Some(Point { x: 5, y: 7 }));
    assert_eq!(
        get_position("-2147483648 2147483647"),
        Some(Point { x: -2147483648, y: 2147483647 })
    );
}

#[test]
fn position_rejects_malformed_lines() {
    assert_eq!(get_position(""), None);
    assert_eq!(get_position("3\n"), None);
    assert_eq!(get_position("a 4"), None);
    assert_eq!(get_position("4 5x"), None);
    assert_eq!(get_position("2147483648 0"), None);
    assert_eq!(get_position("0 -2147483649"), None);
    assert_eq!(get_position("- 1 2"), None);
    assert_eq!(get_position("+-1 2"), None);
}

#[test]
fn time_limit_reads_one_integer() {
    assert_eq!(get_time_limit(" 7 \r\n"), Some(7));
    assert_eq!(get_time_limit("+0"), Some(0));
    assert_eq!(get_time_limit("4294967295"), Some(u32::MAX));
    assert_eq!(get_time_limit("4294967296"), None);
    assert_eq!(get_time_limit("-1"), None);
    assert_eq!(get_time_limit("1 2"), None);
    assert_eq!(get_time_limit(""), None);
}

#[test]
fn obstacles_read_after_their_count() {
    let input = lines(&["x", "2", "1 0", "-3 5 8"]);
    let o = get_obstacles(&input, 1).unwrap();
    assert!(o.contains(&Point { x: 1, y: 0 }));
    assert!(o.contains(&Point { x: -3, y: 5 }));
    assert!(!o.contains(&Point { x: 0, y: 1 }));
    let none = get_obstacles(&lines(&["0"]), 0).unwrap();
    assert!(!none.contains(&Point { x: 0, y: 0 }));
}

#[test]
fn obstacles_reject_missing_or_bad_lines() {
    assert!(get_obstacles(&lines(&["3", "1 1", "2 2"]), 0).is_none());
    assert!(get_obstacles(&lines(&["1", "1"]), 0).is_none());
    assert!(get_obstacles(&lines(&["one", "1 1"]), 0).is_none());
    assert!(get_obstacles(&lines(&[]), 0).is_none());
}

#[test]
fn whole_input_is_read_in_order() {
    let d = process_input(&lines(&["0 0", "2", "2 0", "1", "1 0"])).unwrap();
    assert_eq!(d.sw_pos, Point { x: 0, y: 0 });
    assert_eq!(d.time_limit, 2);
    assert_eq!(d.target_pos, Point { x: 2, y: 0 });
    assert!(d.obstacles.contains(&Point { x: 1, y: 0 }));
    assert!(process_input(&lines(&["0 0", "2", "2 0"])).is_none());
    assert!(process_input(&lines(&["0 0", "-2", "2 0", "0"])).is_none());
}

#[test]
fn solve_counts_from_text() {
    assert_eq!(solve_input(&lines(&["0 0", "1", "1 0", "0"])), Some(1));
    assert_eq!(solve_input(&lines(&["0 0", "1", "0 0", "0"])), Some(0));
    assert_eq!(solve_input(&lines(&["0 0", "2", "2 0", "1", "1 0"])), Some(0));
    assert_eq!(solve_input(&lines(&["0 0", "0", "1 0", "0"])), Some(0));
    assert_eq!(solve_input(&lines(&["0 0", "4", "0 0", "0"])), Some(8));
    assert_eq!(solve_input(&lines(&["0 0", "1", "1 0"])), None);
}
