//! A list of jump offsets executed from the front: each visited offset is
//! bumped after use, and the machine stops when the pointer leaves the list.

use vstd::prelude::*;

verus! {

use crate::day::DayResult;
use crate::text::dec_str;
use crate::text::is_signed_literal;
use crate::text::parse_i32;
use crate::text::signed_val;
use crate::text::to_decimal;

pub struct Instance;

/// How many jumps are executed before giving up.
pub const STEP_CAP: usize = 1_000_000_000;

/// The memory as unbounded integers.
pub open spec fn mem_int(s: Seq<i32>) -> Seq<int> {
    s.map_values(|x: i32| x as int)
}

/// The bump applied to an offset after it is used: down when `strange` and
/// the offset was three or more, up otherwise.
pub open spec fn bump(v: int, strange: bool) -> int {
    if strange && v >= 3 {
        v - 1
    } else {
        v + 1
    }
}

/// Memory and pointer after `k` executed jumps; a jump from outside the list
/// changes nothing.
pub open spec fn jump_state(mem: Seq<int>, strange: bool, k: int) -> (Seq<int>, int)
    decreases k,
{
    if k <= 0 {
        (mem, 0)
    } else {
        let (m, p) = jump_state(mem, strange, k - 1);
        if 0 <= p < m.len() {
            (m.update(p, bump(m[p], strange)), p + m[p])
        } else {
            (m, p)
        }
    }
}

/// Whether the pointer sits outside the list after `k` jumps.
pub open spec fn escaped(mem: Seq<int>, strange: bool, k: int) -> bool {
    !(0 <= jump_state(mem, strange, k).1 < mem.len())
}

/// The machine stops after exactly `k` jumps: the pointer first leaves the
/// list then.
pub open spec fn stops_after(mem: Seq<int>, strange: bool, k: int) -> bool {
    escaped(mem, strange, k) && forall|j: int| 0 <= j < k ==> !escaped(mem, strange, j)
}

/// Whether the `k`-th jump would bump an offset past the machine integers.
pub open spec fn bump_overflows(mem: Seq<int>, strange: bool, k: int) -> bool {
    let (m, p) = jump_state(mem, strange, k);
    0 <= p < m.len() && !(strange && m[p] >= 3) && m[p] == i32::MAX
}

/// The jump offsets, with the cursor starting at the front.
pub struct Instructions(pub Vec<i32>);

impl Instructions {
    /// Reads one offset per line.
    pub fn parse(lines: &Vec<String>) -> (r: Result<Instructions, String>)
        ensures
            r is Ok <==> forall|i: int|
                0 <= i < lines@.len() ==> (is_signed_literal(#[trigger] lines@[i]@) && i32::MIN
                    <= signed_val(lines@[i]@) <= i32::MAX),
            r is Ok ==> r->Ok_0.0@.len() == lines@.len() && forall|i: int|
                0 <= i < lines@.len() ==> r->Ok_0.0@[i] as int == signed_val(#[trigger] lines@[i]@),
    {
        let mut out: Vec<i32> = Vec::new();
        let mut i: usize = 0;
        while i < lines.len()
            invariant
                i <= lines@.len(),
                out@.len() == i,
                forall|k: int|
                    0 <= k < i ==> (is_signed_literal(#[trigger] lines@[k]@) && i32::MIN
                        <= signed_val(lines@[k]@) <= i32::MAX),
                forall|k: int| 0 <= k < i ==> out@[k] as int == signed_val(#[trigger] lines@[k]@),
            decreases lines@.len() - i,
        {
            let v: i32 = match parse_i32(lines[i].as_str()) {
                Some(v) => v,
                None => {
                    return Err(String::from_str("failed to parse offset"));
                },
            };
            out.push(v);
            i = i + 1;
        }
        Ok(Instructions(out))
    }

    /// Runs the machine until the pointer leaves the list, and counts the
    /// jumps. `None` when the machine neither stops within [`STEP_CAP`] jumps
    /// nor can continue without an offset outgrowing the machine integers.
    pub fn steps(&mut self, strange: bool) -> (r: Option<usize>)
        requires
            old(self).0@.len() <= 0x7FFF_FFFF,
        ensures
            r is Some ==> r->0 <= STEP_CAP && stops_after(
                mem_int(old(self).0@),
                strange,
                r->0 as int,
            ) && mem_int(final(self).0@) == jump_state(
                mem_int(old(self).0@),
                strange,
                r->0 as int,
            ).0,
            r is None ==> forall|k: int|
                0 <= k <= STEP_CAP && stops_after(mem_int(old(self).0@), strange, k)
                    ==> exists|j: int|
                    0 <= j < k && bump_overflows(mem_int(old(self).0@), strange, j),
    {
        let ghost mem0 = mem_int(old(self).0@);
        let n: usize = self.0.len();
        let mut pointer: usize = 0;
        let mut steps: usize = 0;
        while steps < STEP_CAP
            invariant
                mem0 == mem_int(old(self).0@),
                n == self.0@.len(),
                n <= 0x7FFF_FFFF,
                mem0.len() == n,
                steps <= STEP_CAP,
                mem_int(self.0@) == jump_state(mem0, strange, steps as int).0,
                pointer as int == jump_state(mem0, strange, steps as int).1,
                forall|j: int| 0 <= j < steps ==> !escaped(mem0, strange, j),
            decreases STEP_CAP - steps,
        {
            if pointer >= n {
                return Some(steps);
            }
            let v: i32 = self.0[pointer];
            if strange && v >= 3 {
                self.0.set(pointer, v - 1);
            } else {
                if v == i32::MAX {
                    proof {
                        assert(bump_overflows(mem0, strange, steps as int));
                        assert forall|k: int|
                            0 <= k <= STEP_CAP && stops_after(mem0, strange, k)
                                implies exists|j: int|
                            0 <= j < k && bump_overflows(mem0, strange, j) by {
                            if stops_after(mem0, strange, k) {
                                assert(!escaped(mem0, strange, steps as int));
                                assert(k > steps);
                                assert(bump_overflows(mem0, strange, steps as int));
                            }
                        }
                    }
                    return None;
                }
                self.0.set(pointer, v + 1);
            }
            proof {
                assert(mem_int(self.0@) =~= jump_state(mem0, strange, steps + 1).0);
            }
            steps = steps + 1;
            let next: i64 = pointer as i64 + v as i64;
            if next < 0 {
                return Some(steps);
            }
            pointer = next as usize;
        }
        if pointer >= n {
            return Some(steps);
        }
        proof {
            assert forall|k: int|
                0 <= k <= STEP_CAP && stops_after(mem0, strange, k) implies exists|j: int|
                0 <= j < k && bump_overflows(mem0, strange, j) by {
                if stops_after(mem0, strange, k) {
                    if k < STEP_CAP {
                        assert(!escaped(mem0, strange, k));
                    } else {
                        assert(!escaped(mem0, strange, STEP_CAP as int));
                    }
                }
            }
        }
        None
    }
}

/// Whether every line parses to a machine offset.
pub open spec fn offsets_parse(lines: Seq<String>) -> bool {
    forall|i: int|
        0 <= i < lines.len() ==> (is_signed_literal(#[trigger] lines[i]@) && i32::MIN <= signed_val(
            lines[i]@,
        ) <= i32::MAX)
}

/// The parsed offsets of the input.
pub open spec fn offsets_of(lines: Seq<String>) -> Seq<int> {
    lines.map_values(|l: String| signed_val(l@))
}

impl Instance {
    /// Solves both parts: the jump count with plain bumps, and the jump count
    /// with the strange bump rule.
    pub fn run(&self, lines: Vec<String>) -> (r: Result<DayResult, String>)
        ensures
            r is Ok ==> ({
                let mem = offsets_of(lines@);
                exists|k1: int, k2: int|
                    {
                        &&& 0 <= k1 <= STEP_CAP && stops_after(mem, false, k1)
                        &&& 0 <= k2 <= STEP_CAP && stops_after(mem, true, k2)
                        &&& r->Ok_0.part1@ == dec_str(k1 as nat)
                        &&& r->Ok_0.part2 == Some(r->Ok_0.part2->0)
                        &&& r->Ok_0.part2->0@ == dec_str(k2 as nat)
                    }
            }),
            r is Err ==> !offsets_parse(lines@) || lines@.len() > 0x7FFF_FFFF || (forall|k: int|
                0 <= k <= STEP_CAP && stops_after(offsets_of(lines@), false, k) ==> exists|j: int|
                0 <= j < k && bump_overflows(offsets_of(lines@), false, j)) || (forall|k: int|
                0 <= k <= STEP_CAP && stops_after(offsets_of(lines@), true, k) ==> exists|j: int|
                0 <= j < k && bump_overflows(offsets_of(lines@), true, j)),
    {
        if lines.len() > 0x7FFF_FFFF {
            return Err(String::from_str("too many offsets"));
        }
        let mut first = match Instructions::parse(&lines) {
            Ok(v) => v,
            Err(e) => {
                return Err(e);
            },
        };
        proof {
            assert(mem_int(first.0@) =~= offsets_of(lines@));
        }
        let mut second = Instructions(first.0.clone());
        proof {
            assert(mem_int(second.0@) =~= offsets_of(lines@));
        }
        let part1: usize = match first.steps(false) {
            Some(k) => k,
            None => {
                return Err(String::from_str("no exit found"));
            },
        };
        let part2: usize = match second.steps(true) {
            Some(k) => k,
            None => {
                return Err(String::from_str("no exit found"));
            },
        };
        Ok(DayResult {
            part1: to_decimal(part1 as u64),
            part2: Some(to_decimal(part2 as u64)),
        })
    }
}

} // verus!
