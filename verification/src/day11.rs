//! Walking a hex grid: follow a comma-separated list of compass directions
//! and report the hex distance from the start, plus the farthest distance
//! ever reached.

use vstd::prelude::*;

verus! {

use vstd::math::abs;
use vstd::utf8::is_ascii_chars;
use crate::day::DayResult;
use crate::text::dec_str;
use crate::text::split_chars;
use crate::text::split_str;
use crate::text::to_decimal;

pub struct Instance;

/// The six hex directions.
#[derive(Clone, Copy)]
pub enum Direction {
    N,
    NE,
    SE,
    S,
    SW,
    NW,
}

/// Horizontal displacement of one step.
pub open spec fn dir_dx(d: Direction) -> int {
    match d {
        Direction::N => 0,
        Direction::NE => 1,
        Direction::SE => 1,
        Direction::S => 0,
        Direction::SW => -1,
        Direction::NW => -1,
    }
}

/// Vertical displacement of one step; north-south steps move two rows.
pub open spec fn dir_dy(d: Direction) -> int {
    match d {
        Direction::N => 2,
        Direction::NE => 1,
        Direction::SE => -1,
        Direction::S => -2,
        Direction::SW => -1,
        Direction::NW => 1,
    }
}

/// The direction a token names, if any.
pub open spec fn dir_of(s: Seq<char>) -> Option<Direction> {
    if s == seq!['n'] {
        Some(Direction::N)
    } else if s == seq!['n', 'e'] {
        Some(Direction::NE)
    } else if s == seq!['s', 'e'] {
        Some(Direction::SE)
    } else if s == seq!['s'] {
        Some(Direction::S)
    } else if s == seq!['s', 'w'] {
        Some(Direction::SW)
    } else if s == seq!['n', 'w'] {
        Some(Direction::NW)
    } else {
        None
    }
}

/// Horizontal position after the first `i` steps.
pub open spec fn pos_x(ds: Seq<Direction>, i: int) -> int
    decreases i,
{
    if i <= 0 {
        0
    } else {
        pos_x(ds, i - 1) + dir_dx(ds[i - 1])
    }
}

/// Vertical position after the first `i` steps.
pub open spec fn pos_y(ds: Seq<Direction>, i: int) -> int
    decreases i,
{
    if i <= 0 {
        0
    } else {
        pos_y(ds, i - 1) + dir_dy(ds[i - 1])
    }
}

/// Hex distance from the origin after the first `i` steps.
pub open spec fn dist_at(ds: Seq<Direction>, i: int) -> int {
    ((abs(pos_x(ds, i)) + abs(pos_y(ds, i))) as int) / 2
}

/// The farthest hex distance reached within the first `i` steps.
pub open spec fn max_dist(ds: Seq<Direction>, i: int) -> int
    decreases i,
{
    if i <= 0 {
        0
    } else {
        let prev = max_dist(ds, i - 1);
        let d = dist_at(ds, i);
        if d > prev {
            d
        } else {
            prev
        }
    }
}

/// A position on the hex grid, with one axis counting half-rows.
pub struct HexGrid {
    x: i32,
    y: i32,
}

impl View for HexGrid {
    type V = (int, int);

    closed spec fn view(&self) -> (int, int) {
        (self.x as int, self.y as int)
    }
}

impl HexGrid {
    /// A grid cursor at the origin.
    pub fn new() -> (r: HexGrid)
        ensures
            r@ == (0int, 0int),
    {
        HexGrid { x: 0, y: 0 }
    }

    /// One step in the given direction.
    pub fn move_dir(&mut self, dir: Direction)
        requires
            i32::MIN <= old(self)@.0 + dir_dx(dir) <= i32::MAX,
            i32::MIN <= old(self)@.1 + dir_dy(dir) <= i32::MAX,
        ensures
            final(self)@.0 == old(self)@.0 + dir_dx(dir),
            final(self)@.1 == old(self)@.1 + dir_dy(dir),
    {
        match dir {
            Direction::N => {
                self.y = self.y + 2;
            },
            Direction::NE => {
                self.x = self.x + 1;
                self.y = self.y + 1;
            },
            Direction::SE => {
                self.x = self.x + 1;
                self.y = self.y - 1;
            },
            Direction::S => {
                self.y = self.y - 2;
            },
            Direction::SW => {
                self.x = self.x - 1;
                self.y = self.y - 1;
            },
            Direction::NW => {
                self.x = self.x - 1;
                self.y = self.y + 1;
            },
        }
    }

    /// Hex distance from the origin: half the sum of the coordinates'
    /// magnitudes.
    pub fn distance(&self) -> (r: i32)
        requires
            self@.0 > i32::MIN,
            self@.1 > i32::MIN,
            abs(self@.0) + abs(self@.1) <= i32::MAX,
        ensures
            r == ((abs(self@.0) + abs(self@.1)) as int) / 2,
    {
        let ax: i32 = if self.x < 0 {
            -self.x
        } else {
            self.x
        };
        let ay: i32 = if self.y < 0 {
            -self.y
        } else {
            self.y
        };
        (ax + ay) / 2
    }
}

/// Reads one comma-separated direction token.
pub fn parse_direction(s: &str) -> (r: Result<Direction, String>)
    ensures
        r is Ok <==> dir_of(s@) is Some,
        r is Ok ==> dir_of(s@) == Some(r->Ok_0),
{
    let n: usize = s.unicode_len();
    if n == 1 {
        let c: char = s.get_char(0);
        if c == 'n' {
            proof {
                assert(s@ =~= seq!['n']);
            }
            return Ok(Direction::N);
        }
        if c == 's' {
            proof {
                assert(s@ =~= seq!['s']);
                assert(s@ != seq!['n']);
            }
            return Ok(Direction::S);
        }
        proof {
            assert(s@ != seq!['n']);
            assert(s@ != seq!['n', 'e']);
            assert(s@ != seq!['s', 'e']);
            assert(s@ != seq!['s']);
            assert(s@ != seq!['s', 'w']);
            assert(s@ != seq!['n', 'w']);
        }
        return Err(String::from_str("unknown direction"));
    }
    if n == 2 {
        let c0: char = s.get_char(0);
        let c1: char = s.get_char(1);
        if c0 == 'n' && c1 == 'e' {
            proof {
                assert(s@ =~= seq!['n', 'e']);
                assert(s@ != seq!['n']);
            }
            return Ok(Direction::NE);
        }
        if c0 == 's' && c1 == 'e' {
            proof {
                assert(s@ =~= seq!['s', 'e']);
                assert(s@ != seq!['n']);
                assert(s@ != seq!['n', 'e']);
            }
            return Ok(Direction::SE);
        }
        if c0 == 's' && c1 == 'w' {
            proof {
                assert(s@ =~= seq!['s', 'w']);
                assert(s@ != seq!['n']);
                assert(s@ != seq!['n', 'e']);
                assert(s@ != seq!['s', 'e']);
                assert(s@ != seq!['s']);
            }
            return Ok(Direction::SW);
        }
        if c0 == 'n' && c1 == 'w' {
            proof {
                assert(s@ =~= seq!['n', 'w']);
                assert(s@ != seq!['n']);
                assert(s@ != seq!['n', 'e']);
                assert(s@ != seq!['s', 'e']);
                assert(s@ != seq!['s']);
                assert(s@ != seq!['s', 'w']);
            }
            return Ok(Direction::NW);
        }
        proof {
            assert(s@ != seq!['n']);
            assert(s@ != seq!['n', 'e']);
            assert(s@ != seq!['s', 'e']);
            assert(s@ != seq!['s']);
            assert(s@ != seq!['s', 'w']);
            assert(s@ != seq!['n', 'w']);
        }
        return Err(String::from_str("unknown direction"));
    }
    proof {
        assert(s@ != seq!['n']);
        assert(s@ != seq!['n', 'e']);
        assert(s@ != seq!['s', 'e']);
        assert(s@ != seq!['s']);
        assert(s@ != seq!['s', 'w']);
        assert(s@ != seq!['n', 'w']);
    }
    Err(String::from_str("unknown direction"))
}

/// The direction list named by the line's comma-separated tokens, where every
/// token is a direction.
pub open spec fn tokens_are_directions(fields: Seq<Seq<char>>) -> bool {
    forall|i: int| 0 <= i < fields.len() ==> dir_of(#[trigger] fields[i]) is Some
}

/// The parsed direction list.
pub open spec fn directions_of(fields: Seq<Seq<char>>) -> Seq<Direction> {
    fields.map_values(|f: Seq<char>| dir_of(f)->0)
}

impl Instance {
    /// Solves both parts: walk the directions of the first line; part one is
    /// the final hex distance, part two the farthest distance ever reached.
    pub fn run(&self, lines: Vec<String>) -> (r: Result<DayResult, String>)
        ensures
            r is Ok <==> (lines@.len() > 0 && is_ascii_chars(lines@[0]@)
                && tokens_are_directions(split_chars(lines@[0]@, ',')) && split_chars(
                lines@[0]@,
                ',',
            ).len() <= 500_000_000),
            r is Ok ==> ({
                let ds = directions_of(split_chars(lines@[0]@, ','));
                let n = ds.len() as int;
                &&& r->Ok_0.part1@ == dec_str(dist_at(ds, n) as nat)
                &&& r->Ok_0.part2 == Some(r->Ok_0.part2->0)
                &&& r->Ok_0.part2->0@ == dec_str(max_dist(ds, n) as nat)
            }),
    {
        if lines.len() == 0 {
            return Err(String::from_str("empty lines"));
        }
        let line: &str = lines[0].as_str();
        if !line.is_ascii() {
            return Err(String::from_str("line is not ascii"));
        }
        let fields = split_str(line, ',');
        let ghost gf = split_chars(lines@[0]@, ',');
        if fields.len() > 500_000_000 {
            return Err(String::from_str("too many directions"));
        }
        let mut dirs: Vec<Direction> = Vec::new();
        let mut i: usize = 0;
        while i < fields.len()
            invariant
                lines@.len() > 0,
                gf == split_chars(lines@[0]@, ','),
                is_ascii_chars(lines@[0]@),
                fields@.len() == gf.len(),
                gf.len() <= 500_000_000,
                forall|k: int| 0 <= k < gf.len() ==> fields@[k]@ == gf[k],
                i <= gf.len(),
                dirs@.len() == i,
                forall|k: int| 0 <= k < i ==> dir_of(#[trigger] gf[k]) is Some,
                forall|k: int| 0 <= k < i ==> dir_of(gf[k]) == Some(#[trigger] dirs@[k]),
            decreases gf.len() - i,
        {
            let d: Direction = match parse_direction(fields[i].as_str()) {
                Ok(d) => d,
                Err(e) => {
                    proof {
                        assert(dir_of(gf[i as int]) is None);
                        assert(!tokens_are_directions(gf));
                    }
                    return Err(e);
                },
            };
            dirs.push(d);
            i = i + 1;
        }
        proof {
            assert(dirs@ =~= directions_of(gf));
        }
        let ghost gd = directions_of(gf);
        let mut grid = HexGrid::new();
        let mut max_distance: i32 = 0;
        let mut j: usize = 0;
        while j < dirs.len()
            invariant
                gd.len() <= 500_000_000,
                dirs@ == gd,
                j <= gd.len(),
                grid@.0 == pos_x(gd, j as int),
                grid@.1 == pos_y(gd, j as int),
                abs(grid@.0) <= 2 * j,
                abs(grid@.1) <= 2 * j,
                max_distance == max_dist(gd, j as int),
            decreases gd.len() - j,
        {
            let d: Direction = dirs[j];
            grid.move_dir(d);
            let dist: i32 = grid.distance();
            if dist > max_distance {
                max_distance = dist;
            }
            j = j + 1;
        }
        let part1 = grid.distance();
        proof {
            assert(dist_at(gd, gd.len() as int) >= 0);
            assert(max_dist(gd, gd.len() as int) >= 0) by {
                lemma_max_dist_nonneg(gd, gd.len() as int);
            }
        }
        let part2 = to_decimal(max_distance as u64);
        Ok(DayResult { part1: to_decimal(part1 as u64), part2: Some(part2) })
    }
}

/// The farthest distance reached is never negative.
proof fn lemma_max_dist_nonneg(ds: Seq<Direction>, i: int)
    ensures
        max_dist(ds, i) >= 0,
    decreases i,
{
    if i > 0 {
        lemma_max_dist_nonneg(ds, i - 1);
    }
}

} // verus!
