//! Spiral memory: cells spiral outward counter-clockwise from a centre.
//! Part one walks to a given cell and reports its taxicab distance home;
//! part two fills cells with neighbour sums until one exceeds the target.

use vstd::prelude::*;

verus! {

use vstd::math::abs;
use crate::day::DayResult;
use crate::text::dec_str;
use crate::text::dec_val;
use crate::text::parse_u32;
use crate::text::to_decimal;

pub struct Instance;

/// The largest target cell part one accepts.
pub const STEPS_CAP: u32 = 0x4000_0000;

/// How many cells part two fills before giving up.
pub const ALLOC_CAP: usize = 4096;

/// The spiral walker's state: position, heading, and current ring size.
#[verifier::ext_equal]
pub ghost struct SpiralView {
    pub x: int,
    pub y: int,
    pub dir: int,
    pub size: int,
}

/// One spiral step: move along the heading, and turn (growing the ring when
/// a full lap closes) whenever the ring's edge is reached.
pub open spec fn spiral_step(s: SpiralView) -> SpiralView {
    let nx = if s.dir == 1 {
        s.x - 1
    } else if s.dir == 3 {
        s.x + 1
    } else {
        s.x
    };
    let ny = if s.dir == 0 {
        s.y - 1
    } else if s.dir == 2 {
        s.y + 1
    } else {
        s.y
    };
    let change = if s.dir == 0 {
        ny == -s.size
    } else if s.dir == 1 {
        nx == -s.size
    } else if s.dir == 2 {
        ny == s.size
    } else {
        nx == s.size + 1
    };
    let nd = if change {
        s.dir + 1
    } else {
        s.dir
    };
    if nd == 4 {
        SpiralView { x: nx, y: ny, dir: 0, size: s.size + 1 }
    } else {
        SpiralView { x: nx, y: ny, dir: nd, size: s.size }
    }
}

/// The walker's state after `k` steps from the centre.
pub open spec fn spiral_state(k: int) -> SpiralView
    decreases k,
{
    if k <= 0 {
        SpiralView { x: 0, y: 0, dir: 3, size: 0 }
    } else {
        spiral_step(spiral_state(k - 1))
    }
}

/// The cell position visited at step `k`.
pub open spec fn spiral_pos(k: int) -> (int, int) {
    (spiral_state(k).x, spiral_state(k).y)
}

/// The walker stays within `k + 1` of the centre on each axis, its heading
/// stays a quarter turn, and its ring grows no faster than its steps.
pub proof fn lemma_spiral_bounded(k: int)
    requires
        k >= 0,
    ensures
        abs(spiral_state(k).x) <= k + 1,
        abs(spiral_state(k).y) <= k + 1,
        0 <= spiral_state(k).dir <= 3,
        0 <= spiral_state(k).size <= k + 1,
    decreases k,
{
    if k > 0 {
        lemma_spiral_bounded(k - 1);
    }
}

/// The spiral walker.
pub struct Spiral {
    pos: (i64, i64),
    dir: u8,
    size: i64,
}

impl View for Spiral {
    type V = SpiralView;

    closed spec fn view(&self) -> SpiralView {
        SpiralView {
            x: self.pos.0 as int,
            y: self.pos.1 as int,
            dir: self.dir as int,
            size: self.size as int,
        }
    }
}

impl Spiral {
    /// A walker at the centre, about to step east.
    pub fn new() -> (r: Spiral)
        ensures
            r@ == spiral_state(0),
    {
        Spiral { pos: (0, 0), dir: 3, size: 0 }
    }

    /// Takes one step; returns the position stood on before the step.
    pub fn next(&mut self) -> (r: (i64, i64))
        requires
            0 <= old(self)@.dir <= 3,
            -0x1000_0000_0000 <= old(self)@.x <= 0x1000_0000_0000,
            -0x1000_0000_0000 <= old(self)@.y <= 0x1000_0000_0000,
            0 <= old(self)@.size <= 0x1000_0000_0000,
        ensures
            final(self)@ == spiral_step(old(self)@),
            r.0 as int == old(self)@.x,
            r.1 as int == old(self)@.y,
    {
        let pos = self.pos;
        let change: bool = if self.dir == 0 {
            self.pos.1 = self.pos.1 - 1;
            self.pos.1 == -self.size
        } else if self.dir == 1 {
            self.pos.0 = self.pos.0 - 1;
            self.pos.0 == -self.size
        } else if self.dir == 2 {
            self.pos.1 = self.pos.1 + 1;
            self.pos.1 == self.size
        } else {
            self.pos.0 = self.pos.0 + 1;
            self.pos.0 == self.size + 1
        };
        if change {
            self.dir = self.dir + 1;
        }
        if self.dir == 4 {
            self.dir = 0;
            self.size = self.size + 1;
        }
        pos
    }
}

/// Taxicab distance home from the cell reached at step `k`.
pub open spec fn spiral_distance(k: int) -> int {
    (abs(spiral_state(k).x) + abs(spiral_state(k).y)) as int
}

/// Part one: the taxicab distance from cell `number` back to the centre,
/// cells counted from one.
pub fn steps(number: u32) -> (r: u32)
    requires
        1 <= number <= STEPS_CAP,
    ensures
        r as int == spiral_distance(number - 1),
{
    let mut spiral = Spiral::new();
    let n: u32 = number - 1;
    let mut i: u32 = 0;
    while i < n
        invariant
            n <= STEPS_CAP,
            i <= n,
            spiral@ == spiral_state(i as int),
        decreases n - i,
    {
        proof {
            lemma_spiral_bounded(i as int);
        }
        let _ = spiral.next();
        i = i + 1;
    }
    proof {
        lemma_spiral_bounded(n as int);
    }
    let ax: i64 = if spiral.pos.0 < 0 {
        -spiral.pos.0
    } else {
        spiral.pos.0
    };
    let ay: i64 = if spiral.pos.1 < 0 {
        -spiral.pos.1
    } else {
        spiral.pos.1
    };
    (ax + ay) as u32
}

/// The eight neighbour offsets, in the scan order of the filler.
pub open spec fn neighbor_offset(d: int) -> (int, int) {
    if d == 0 {
        (-1, -1)
    } else if d == 1 {
        (-1, 0)
    } else if d == 2 {
        (-1, 1)
    } else if d == 3 {
        (0, -1)
    } else if d == 4 {
        (0, 1)
    } else if d == 5 {
        (1, -1)
    } else if d == 6 {
        (1, 0)
    } else {
        (1, 1)
    }
}

/// The first step index, below `upto`, whose cell sits at `p`; `upto` when
/// no such cell exists. The spiral never revisits a cell before part two's
/// cap, so this is the cell written at `p`.
pub open spec fn first_cell_at(p: (int, int), upto: int) -> int
    decreases upto,
{
    if upto <= 0 {
        0
    } else {
        let r = first_cell_at(p, upto - 1);
        if r < upto - 1 {
            r
        } else if spiral_pos(upto - 1) == p {
            upto - 1
        } else {
            upto
        }
    }
}

/// `first_cell_at` finds the first visit of a position.
proof fn lemma_first_cell_at(p: (int, int), upto: int)
    requires
        upto >= 0,
    ensures
        0 <= first_cell_at(p, upto) <= upto,
        first_cell_at(p, upto) < upto ==> spiral_pos(first_cell_at(p, upto)) == p,
        forall|j: int| 0 <= j < first_cell_at(p, upto) ==> spiral_pos(j) != p,
    decreases upto,
{
    if upto > 0 {
        lemma_first_cell_at(p, upto - 1);
    }
}

/// The value written into the cell visited at step `k`: one at the centre,
/// else the sum of the values of already-written neighbouring cells.
pub open spec fn cell_value(k: int) -> int
    decreases k, 9int,
{
    if k <= 0 {
        1
    } else {
        neighbor_sum(k, 8)
    }
}

/// The part of a cell's value contributed by its first `d` neighbour
/// offsets.
pub open spec fn neighbor_sum(k: int, d: int) -> int
    decreases k, d,
{
    if d <= 0 || k <= 0 {
        0
    } else {
        let q = (
            spiral_pos(k).0 + neighbor_offset(d - 1).0,
            spiral_pos(k).1 + neighbor_offset(d - 1).1,
        );
        let j = first_cell_at(q, k);
        neighbor_sum(k, d - 1) + if 0 <= j < k {
            cell_value(j)
        } else {
            0
        }
    }
}

/// The first table entry at a position, with its value.
fn table_lookup(table: &Vec<(i64, i64, u32)>, x: i64, y: i64) -> (r: Option<u32>)
    ensures
        r is Some ==> exists|j: int|
            0 <= j < table@.len() && #[trigger] table@[j] == (x, y, r->0) && (forall|q: int|
                0 <= q < j ==> !((#[trigger] table@[q]).0 == x && table@[q].1 == y)),
        r is None ==> forall|j: int|
            0 <= j < table@.len() ==> !((#[trigger] table@[j]).0 == x && table@[j].1 == y),
{
    let mut i: usize = 0;
    while i < table.len()
        invariant
            i <= table@.len(),
            forall|q: int| 0 <= q < i ==> !((#[trigger] table@[q]).0 == x && table@[q].1 == y),
        decreases table@.len() - i,
    {
        let (ex, ey, ev) = table[i];
        if ex == x && ey == y {
            return Some(ev);
        }
        i = i + 1;
    }
    None
}

/// Part two: fill cells along the spiral with neighbour sums and return the
/// first value that exceeds the target. `None` when no cell within
/// [`ALLOC_CAP`] exceeds the target while all cells before it stay within
/// both the target and the machine's integers.
pub fn allocate(target: u32) -> (r: Option<u32>)
    ensures
        r is Some ==> exists|k: int|
            1 <= k <= ALLOC_CAP && #[trigger] cell_value(k) == r->0 as int && r->0 > target && (
            forall|j: int| 1 <= j < k ==> cell_value(j) <= target),
        r is None ==> forall|k: int|
            (1 <= k <= ALLOC_CAP && (forall|j: int| 1 <= j < k ==> cell_value(j) <= target))
                ==> (#[trigger] cell_value(k) <= target || cell_value(k) > u32::MAX),
{
    let mut table: Vec<(i64, i64, u32)> = Vec::new();
    table.push((0, 0, 1));
    let mut spiral = Spiral::new();
    proof {
        lemma_spiral_bounded(0);
    }
    let _ = spiral.next();
    let mut k: usize = 1;
    while k <= ALLOC_CAP
        invariant
            1 <= k <= ALLOC_CAP + 1,
            spiral@ == spiral_state(k as int),
            table@.len() == k,
            forall|j: int|
                0 <= j < k ==> #[trigger] table@[j] == (
                    spiral_pos(j).0 as i64,
                    spiral_pos(j).1 as i64,
                    cell_value(j) as u32,
                ),
            forall|j: int| 0 <= j < k ==> 0 <= #[trigger] cell_value(j) <= u32::MAX,
            forall|j: int| 1 <= j < k ==> #[trigger] cell_value(j) <= target,
        decreases ALLOC_CAP + 1 - k,
    {
        proof {
            lemma_spiral_bounded(k as int);
        }
        let pos: (i64, i64) = spiral.next();
        let ghost gp = spiral_pos(k as int);
        let mut value: u64 = 0;
        let mut d: usize = 0;
        while d < 8
            invariant
                1 <= k <= ALLOC_CAP,
                gp == spiral_pos(k as int),
                pos.0 as int == gp.0,
                pos.1 as int == gp.1,
                abs(gp.0) <= k + 1,
                abs(gp.1) <= k + 1,
                table@.len() == k,
                forall|j: int|
                    0 <= j < k ==> #[trigger] table@[j] == (
                        spiral_pos(j).0 as i64,
                        spiral_pos(j).1 as i64,
                        cell_value(j) as u32,
                    ),
                forall|j: int| 0 <= j < k ==> 0 <= #[trigger] cell_value(j) <= u32::MAX,
                d <= 8,
                value == neighbor_sum(k as int, d as int),
                value <= d * 0xFFFF_FFFF,
            decreases 8 - d,
        {
            let (dx, dy): (i64, i64) = match d {
                0 => (-1, -1),
                1 => (-1, 0),
                2 => (-1, 1),
                3 => (0, -1),
                4 => (0, 1),
                5 => (1, -1),
                6 => (1, 0),
                _ => (1, 1),
            };
            proof {
                assert((dx as int, dy as int) == neighbor_offset(d as int));
            }
            let qx: i64 = pos.0 + dx;
            let qy: i64 = pos.1 + dy;
            let ghost q = (gp.0 + neighbor_offset(d as int).0, gp.1 + neighbor_offset(
                d as int,
            ).1);
            let found: Option<u32> = table_lookup(&table, qx, qy);
            proof {
                lemma_first_cell_at(q, k as int);
                let fc = first_cell_at(q, k as int);
                match found {
                    Some(v) => {
                        let w = choose|j: int|
                            0 <= j < table@.len() && #[trigger] table@[j] == (qx, qy, v) && (
                            forall|qq: int|
                                0 <= qq < j ==> !((#[trigger] table@[qq]).0 == qx
                                    && table@[qq].1 == qy));
                        lemma_spiral_bounded(w);
                        assert(table@[w] == (
                            spiral_pos(w).0 as i64,
                            spiral_pos(w).1 as i64,
                            cell_value(w) as u32,
                        ));
                        assert(spiral_pos(w) == q);
                        assert(fc <= w);
                        if fc < w {
                            lemma_spiral_bounded(fc);
                            assert(table@[fc] == (
                                spiral_pos(fc).0 as i64,
                                spiral_pos(fc).1 as i64,
                                cell_value(fc) as u32,
                            ));
                            assert(false);
                        }
                        assert(v as int == cell_value(fc));
                        assert(neighbor_sum(k as int, d + 1) == neighbor_sum(k as int, d as int)
                            + cell_value(fc));
                    },
                    None => {
                        if fc < k {
                            lemma_spiral_bounded(fc);
                            assert(table@[fc] == (
                                spiral_pos(fc).0 as i64,
                                spiral_pos(fc).1 as i64,
                                cell_value(fc) as u32,
                            ));
                            assert(table@[fc].0 == qx && table@[fc].1 == qy);
                            assert(false);
                        }
                        assert(neighbor_sum(k as int, d + 1) == neighbor_sum(k as int, d as int));
                    },
                }
                assert((d + 1) * 0xFFFF_FFFF == d * 0xFFFF_FFFF + 0xFFFF_FFFF)
                    by (nonlinear_arith);
            }
            match found {
                Some(v) => {
                    value = value + v as u64;
                },
                None => {
                },
            }
            d = d + 1;
        }
        proof {
            assert(value == cell_value(k as int));
        }
        if value > u32::MAX as u64 {
            return None;
        }
        if value > target as u64 {
            return Some(value as u32);
        }
        table.push((pos.0, pos.1, value as u32));
        k = k + 1;
    }
    None
}

impl Instance {
    /// Solves both parts for the cell number on the first line.
    pub fn run(&self, lines: Vec<String>) -> (r: Result<DayResult, String>)
        ensures
            r is Ok ==> ({
                let number = dec_val(lines@[0]@);
                &&& 1 <= number <= STEPS_CAP
                &&& r->Ok_0.part1@ == dec_str(spiral_distance(number - 1) as nat)
                &&& r->Ok_0.part2 == Some(r->Ok_0.part2->0)
                &&& exists|k: int|
                    1 <= k <= ALLOC_CAP && (#[trigger] cell_value(k)) > number && (forall|j: int|
                        1 <= j < k ==> cell_value(j) <= number) && r->Ok_0.part2->0@ == dec_str(
                        cell_value(k) as nat,
                    )
            }),
    {
        if lines.len() == 0 {
            return Err(String::from_str("empty lines"));
        }
        let parsed: u32 = match parse_u32(lines[0].as_str()) {
            Some(v) => v,
            None => {
                return Err(String::from_str("failed to parse cell number"));
            },
        };
        if parsed < 1 || parsed > STEPS_CAP {
            return Err(String::from_str("cell number out of range"));
        }
        proof {
            lemma_spiral_bounded(parsed - 1);
        }
        let part1 = to_decimal(steps(parsed) as u64);
        let part2: u32 = match allocate(parsed) {
            Some(v) => v,
            None => {
                return Err(String::from_str("no larger cell found"));
            },
        };
        proof {
            let w = choose|k: int|
                1 <= k <= ALLOC_CAP && #[trigger] cell_value(k) == part2 as int && part2 > parsed
                    && (forall|j: int| 1 <= j < k ==> cell_value(j) <= parsed);
            assert(cell_value(w) > parsed as int);
        }
        Ok(DayResult {
            part1,
            part2: Some(to_decimal(part2 as u64)),
        })
    }
}

} // verus!
