use vstd::prelude::*;
use crate::grid::{in_i32, Data, ObstacleSet, Point};
use crate::walk::{count_walks, total_walks, MODULUS};
use vstd::string::StringSliceAdditionalSpecFns;

verus! {

/// The bytes that separate the numbers on a line: space, tab, line feed,
/// vertical tab, form feed and carriage return.
pub open spec fn is_space(b: u8) -> bool {
    b == 32 || 9 <= b <= 13
}

pub open spec fn is_digit(b: u8) -> bool {
    48 <= b <= 57
}

/// The first index at or after `i` that holds no separator.
pub open spec fn skip_space(s: Seq<u8>, i: int) -> int
    decreases s.len() - i,
{
    if 0 <= i < s.len() && is_space(s[i]) {
        skip_space(s, i + 1)
    } else {
        i
    }
}

/// The first index at or after `i` that holds a separator.
pub open spec fn token_end(s: Seq<u8>, i: int) -> int
    decreases s.len() - i,
{
    if 0 <= i < s.len() && !is_space(s[i]) {
        token_end(s, i + 1)
    } else {
        i
    }
}

/// Where the next word of `s` at or after `i` starts.
pub open spec fn word_start(s: Seq<u8>, i: int) -> int {
    skip_space(s, i)
}

/// Where the next word of `s` at or after `i` ends.
pub open spec fn word_end(s: Seq<u8>, i: int) -> int {
    token_end(s, skip_space(s, i))
}

/// The next word of `s` at or after `i`; empty where none is left.
pub open spec fn word(s: Seq<u8>, i: int) -> Seq<u8> {
    s.subrange(word_start(s, i), word_end(s, i))
}

pub open spec fn all_digits(d: Seq<u8>) -> bool {
    d.len() > 0 && forall|k: int| 0 <= k < d.len() ==> is_digit(#[trigger] d[k])
}

/// The value of a run of decimal digits.
pub open spec fn digits_value(d: Seq<u8>) -> int
    decreases d.len(),
{
    if d.len() == 0 {
        0
    } else {
        digits_value(d.drop_last()) * 10 + (d.last() - 48)
    }
}

/// The integer that a word writes: digits, with an optional sign `+` or `-`.
pub open spec fn signed_value(w: Seq<u8>) -> Option<int> {
    if w.len() > 0 && w[0] == 45 && all_digits(w.drop_first()) {
        Some(-digits_value(w.drop_first()))
    } else if w.len() > 0 && w[0] == 43 && all_digits(w.drop_first()) {
        Some(digits_value(w.drop_first()))
    } else if all_digits(w) {
        Some(digits_value(w))
    } else {
        None
    }
}

/// The non-negative integer that a word writes: digits, with an optional `+`.
pub open spec fn unsigned_value(w: Seq<u8>) -> Option<int> {
    if w.len() > 0 && w[0] == 43 && all_digits(w.drop_first()) {
        Some(digits_value(w.drop_first()))
    } else if all_digits(w) {
        Some(digits_value(w))
    } else {
        None
    }
}

/// The word read as a 32-bit signed integer, where it is one.
pub open spec fn i32_value(w: Seq<u8>) -> Option<int> {
    match signed_value(w) {
        Some(v) => if in_i32(v) {
            Some(v)
        } else {
            None
        },
        None => None,
    }
}

/// The word read as a 32-bit unsigned integer, where it is one.
pub open spec fn u32_value(w: Seq<u8>) -> Option<int> {
    match unsigned_value(w) {
        Some(v) => if 0 <= v <= u32::MAX {
            Some(v)
        } else {
            None
        },
        None => None,
    }
}

proof fn lemma_digits_value_prefix(d: Seq<u8>, i: int)
    requires
        forall|k: int| 0 <= k < d.len() ==> is_digit(#[trigger] d[k]),
        0 <= i <= d.len(),
    ensures
        0 <= digits_value(d.subrange(0, i)) <= digits_value(d),
    decreases d.len(),
{
    if d.len() > 0 {
        let h = d.drop_last();
        assert forall|k: int| 0 <= k < h.len() implies is_digit(#[trigger] h[k]) by {
            assert(h[k] == d[k]);
        }
        if i < d.len() {
            assert(d.subrange(0, i) =~= h.subrange(0, i));
            lemma_digits_value_prefix(h, i);
        } else {
            assert(d.subrange(0, i) =~= d);
            lemma_digits_value_prefix(h, h.len() as int);
            assert(h.subrange(0, h.len() as int) =~= h);
        }
    }
}

fn skip_spaces(s: &[u8], i: usize) -> (r: usize)
    requires
        i <= s@.len(),
    ensures
        r == skip_space(s@, i as int),
        i <= r <= s@.len(),
    decreases s@.len() - i,
{
    if i < s.len() && (s[i] == 32 || (9 <= s[i] && s[i] <= 13)) {
        skip_spaces(s, i + 1)
    } else {
        i
    }
}

fn find_token_end(s: &[u8], i: usize) -> (r: usize)
    requires
        i <= s@.len(),
    ensures
        r == token_end(s@, i as int),
        i <= r <= s@.len(),
    decreases s@.len() - i,
{
    if i < s.len() && !(s[i] == 32 || (9 <= s[i] && s[i] <= 13)) {
        find_token_end(s, i + 1)
    } else {
        i
    }
}

/// Reads `s[a..b]` as a run of digits whose value is at most `limit`.
fn parse_digits(s: &[u8], a: usize, b: usize, limit: u64) -> (r: Option<u64>)
    requires
        a <= b <= s@.len(),
        limit <= u32::MAX + 1,
    ensures
        match r {
            Some(v) => all_digits(s@.subrange(a as int, b as int)) && v == digits_value(
                s@.subrange(a as int, b as int),
            ) && v <= limit,
            None => !all_digits(s@.subrange(a as int, b as int)) || digits_value(
                s@.subrange(a as int, b as int),
            ) > limit,
        },
{
    let ghost d = s@.subrange(a as int, b as int);
    if a == b {
        return None;
    }
    let mut acc: u64 = 0;
    let mut i: usize = a;
    while i < b
        invariant
            a <= i <= b <= s@.len(),
            d == s@.subrange(a as int, b as int),
            forall|k: int| 0 <= k < i - a ==> is_digit(#[trigger] d[k]),
            acc == digits_value(d.subrange(0, i - a)),
            acc <= limit,
            limit <= u32::MAX + 1,
        decreases b - i,
    {
        let c = s[i];
        if c < 48 || c > 57 {
            assert(d[i - a] == c);
            return None;
        }
        proof {
            assert(d.subrange(0, i - a + 1).drop_last() =~= d.subrange(0, i - a));
        }
        acc = acc * 10 + (c - 48) as u64;
        i = i + 1;
        if acc > limit {
            proof {
                let full = d.subrange(0, i - a);
                assert forall|k: int| 0 <= k < full.len() implies is_digit(#[trigger] full[k]) by {
                    assert(full[k] == d[k]);
                }
                if all_digits(d) {
                    lemma_digits_value_prefix(d, i - a);
                }
            }
            return None;
        }
    }
    assert(d.subrange(0, b - a) =~= d);
    Some(acc)
}

/// Reads `s[a..b]` as a 32-bit signed integer.
fn parse_i32(s: &[u8], a: usize, b: usize) -> (r: Option<i32>)
    requires
        a <= b <= s@.len(),
    ensures
        match i32_value(s@.subrange(a as int, b as int)) {
            Some(v) => r == Some(v as i32),
            None => r is None,
        },
{
    let ghost w = s@.subrange(a as int, b as int);
    if a < b && s[a] == 45 {
        assert(w.drop_first() =~= s@.subrange(a + 1, b as int));
        match parse_digits(s, a + 1, b, 0x8000_0000) {
            Some(v) => Some((0 - v as i64) as i32),
            None => None,
        }
    } else if a < b && s[a] == 43 {
        assert(w.drop_first() =~= s@.subrange(a + 1, b as int));
        match parse_digits(s, a + 1, b, 0x7fff_ffff) {
            Some(v) => Some(v as i32),
            None => None,
        }
    } else {
        proof {
            if w.len() > 0 {
                assert(w[0] == s@[a as int]);
                if w[0] == 45 || w[0] == 43 {
                    assert(!is_digit(w[0]));
                }
            }
        }
        match parse_digits(s, a, b, 0x7fff_ffff) {
            Some(v) => Some(v as i32),
            None => None,
        }
    }
}

/// Reads `s[a..b]` as a 32-bit unsigned integer.
fn parse_u32(s: &[u8], a: usize, b: usize) -> (r: Option<u32>)
    requires
        a <= b <= s@.len(),
    ensures
        match u32_value(s@.subrange(a as int, b as int)) {
            Some(v) => r == Some(v as u32),
            None => r is None,
        },
{
    let ghost w = s@.subrange(a as int, b as int);
    let start: usize = if a < b && s[a] == 43 {
        assert(w.drop_first() =~= s@.subrange(a + 1, b as int));
        a + 1
    } else {
        proof {
            if w.len() > 0 {
                assert(w[0] == s@[a as int]);
            }
        }
        a
    };
    match parse_digits(s, start, b, 0xffff_ffff) {
        Some(v) => Some(v as u32),
        None => None,
    }
}

/// The cell that a line writes as its first two words, each a 32-bit
/// signed integer; words after those two are not read.
pub open spec fn position_of(s: Seq<u8>) -> Option<Point> {
    let e = word_end(s, 0);
    match (i32_value(word(s, 0)), i32_value(word(s, e))) {
        (Some(x), Some(y)) => Some(Point { x: x as i64, y: y as i64 }),
        _ => None,
    }
}

/// The number that a line holds as its only word, a 32-bit unsigned integer.
pub open spec fn count_of(s: Seq<u8>) -> Option<int> {
    if skip_space(s, word_end(s, 0)) == s.len() {
        u32_value(word(s, 0))
    } else {
        None
    }
}

/// Reads a cell from a line of two whitespace-separated integers.
pub fn get_position(line: &str) -> (r: Option<Point>)
    ensures
        r == position_of(line.spec_bytes()),
{
    let s = line.as_bytes();
    let a0 = skip_spaces(s, 0);
    let e0 = find_token_end(s, a0);
    let a1 = skip_spaces(s, e0);
    let e1 = find_token_end(s, a1);
    match (parse_i32(s, a0, e0), parse_i32(s, a1, e1)) {
        (Some(x), Some(y)) => Some(Point { x: x as i64, y: y as i64 }),
        _ => None,
    }
}

/// Reads the time limit from a line that holds one non-negative integer,
/// with any whitespace around it.
pub fn get_time_limit(line: &str) -> (r: Option<u32>)
    ensures
        match count_of(line.spec_bytes()) {
            Some(v) => r == Some(v as u32),
            None => r is None,
        },
{
    let s = line.as_bytes();
    let a0 = skip_spaces(s, 0);
    let e0 = find_token_end(s, a0);
    if skip_spaces(s, e0) != s.len() {
        return None;
    }
    parse_u32(s, a0, e0)
}

/// The bytes of line `i`; a line past the end reads as empty.
pub open spec fn line_bytes(lines: Seq<String>, i: int) -> Seq<u8> {
    if 0 <= i < lines.len() {
        vstd::utf8::encode_utf8(lines[i]@)
    } else {
        Seq::empty()
    }
}

/// The cells blocked by the `n` lines that follow line `first`, where each
/// of them writes a cell.
pub open spec fn obstacles_of(lines: Seq<String>, first: int, n: nat) -> Option<Set<(int, int)>>
    decreases n,
{
    if n == 0 {
        Some(Set::empty())
    } else {
        match (
            obstacles_of(lines, first, (n - 1) as nat),
            position_of(line_bytes(lines, first + n)),
        ) {
            (Some(o), Some(p)) => Some(o.insert(p.pair())),
            _ => None,
        }
    }
}

proof fn lemma_obstacles_fail_stays(lines: Seq<String>, first: int, k: nat, n: nat)
    requires
        k <= n,
        obstacles_of(lines, first, k) is None,
    ensures
        obstacles_of(lines, first, n) is None,
    decreases n - k,
{
    if k < n {
        lemma_obstacles_fail_stays(lines, first, k + 1, n);
    }
}

fn line_at<'a>(lines: &'a Vec<String>, first: usize, off: usize) -> (r: &'a str)
    ensures
        r.spec_bytes() == line_bytes(lines@, first + off),
{
    if first < lines.len() && off < lines.len() - first {
        lines[first + off].as_str()
    } else {
        let e = "";
        proof {
            reveal_strlit("");
            assert(e@ =~= Seq::<char>::empty());
            assert(vstd::utf8::encode_utf8(e@) =~= Seq::<u8>::empty());
        }
        e
    }
}

/// Reads the blocked cells: line `first` holds their number, and each of the
/// lines after it holds one cell.
pub fn get_obstacles(lines: &Vec<String>, first: usize) -> (r: Option<ObstacleSet>)
    ensures
        match count_of(line_bytes(lines@, first as int)) {
            None => r is None,
            Some(n) => match obstacles_of(lines@, first as int, n as nat) {
                None => r is None,
                Some(o) => match r {
                    Some(set) => set@ == o,
                    None => false,
                },
            },
        },
{
    let n = match get_time_limit(line_at(lines, first, 0)) {
        Some(n) => n,
        None => return None,
    };
    let mut set = ObstacleSet::new();
    let mut k: u32 = 0;
    while k < n
        invariant
            k <= n,
            count_of(line_bytes(lines@, first as int)) == Some(n as int),
            obstacles_of(lines@, first as int, k as nat) == Some(set@),
        decreases n - k,
    {
        match get_position(line_at(lines, first, k as usize + 1)) {
            Some(p) => {
                set.insert(p.x as i32, p.y as i32);
            },
            None => {
                proof {
                    lemma_obstacles_fail_stays(lines@, first as int, (k + 1) as nat, n as nat);
                }
                return None;
            },
        }
        k = k + 1;
    }
    Some(set)
}

/// What a whole input says: the start, the time limit, the target and the
/// blocked cells, where every line that these need is well formed.
pub open spec fn input_of(lines: Seq<String>) -> Option<(Point, int, Point, Set<(int, int)>)> {
    match (
        position_of(line_bytes(lines, 0)),
        count_of(line_bytes(lines, 1)),
        position_of(line_bytes(lines, 2)),
        count_of(line_bytes(lines, 3)),
    ) {
        (Some(s), Some(t), Some(g), Some(n)) => match obstacles_of(lines, 3, n as nat) {
            Some(o) => Some((s, t, g, o)),
            None => None,
        },
        _ => None,
    }
}

/// Reads a run from the lines of its input: the start, the time limit, the
/// target, the number of blocked cells and then one line for each of them.
pub fn process_input(lines: &Vec<String>) -> (r: Option<Data>)
    ensures
        match input_of(lines@) {
            None => r is None,
            Some((s, t, g, o)) => match r {
                Some(d) => d.sw_pos == s && d.time_limit == t && d.target_pos == g && d.obstacles@
                    == o && in_i32(d.sw_pos.x as int) && in_i32(d.sw_pos.y as int),
                None => false,
            },
        },
{
    let sw_pos = match get_position(line_at(lines, 0, 0)) {
        Some(p) => p,
        None => return None,
    };
    let time_limit = match get_time_limit(line_at(lines, 0, 1)) {
        Some(t) => t,
        None => return None,
    };
    let target_pos = match get_position(line_at(lines, 0, 2)) {
        Some(p) => p,
        None => return None,
    };
    let obstacles = match get_obstacles(lines, 3) {
        Some(o) => o,
        None => return None,
    };
    Some(Data { sw_pos, target_pos, obstacles, time_limit })
}

/// Reads a run from the lines of its input and counts the walks that land
/// on the target, reduced by `MODULUS`; `None` where the input is malformed.
pub fn solve_input(lines: &Vec<String>) -> (r: Option<u64>)
    ensures
        match input_of(lines@) {
            None => r is None,
            Some((s, t, g, o)) => r == Some((total_walks(s, g, o, t as nat) % (MODULUS as nat)) as u64),
        },
{
    match process_input(lines) {
        Some(data) => Some(count_walks(&data)),
        None => None,
    }
}

} // verus!
