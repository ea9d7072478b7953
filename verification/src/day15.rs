//! Dueling generators: two multiplicative generators advance modulo a Mersenne
//! prime, and a judge counts how often their low sixteen bits agree.

use vstd::prelude::*;

verus! {

use vstd::utf8::is_ascii_chars;
use crate::day::DayResult;
use crate::text::all_digits;
use crate::text::dec_str;
use crate::text::dec_val;
use crate::text::parse_u64;
use crate::text::to_decimal;
use crate::text::words_of;
use crate::text::words_str;

pub struct Instance;

/// The modulus both generators reduce by.
pub const GEN_MOD: u64 = 2147483647;

/// Generator A's factor.
pub const MULT_A: u64 = 16807;

/// Generator B's factor.
pub const MULT_B: u64 = 48271;

/// How many draws part one compares.
pub const PART1_PAIRS: usize = 40_000_000;

/// How many filtered draws part two compares.
pub const PART2_PAIRS: usize = 5_000_000;

/// How many raw draws one filtered draw may consume before giving up.
pub const FILTER_CAP: usize = 100_000;

/// The seeds the parser accepts, keeping every product inside 64 bits.
pub const SEED_CAP: u64 = 0xFFFF_FFFF;

/// One raw draw.
pub open spec fn gen_next(seed: int, mult: int) -> int {
    (seed * mult) % (GEN_MOD as int)
}

/// The first draw from `seed` divisible by `filter` within `fuel` raw draws:
/// the seed afterwards and the value, or `None` when fuel runs out.
#[verifier::opaque]
pub open spec fn filtered_from(seed: int, mult: int, filter: int, fuel: int) -> Option<int>
    decreases fuel,
{
    if fuel <= 0 {
        None
    } else {
        let s1 = gen_next(seed, mult);
        if s1 % filter == 0 {
            Some(s1)
        } else {
            filtered_from(s1, mult, filter, fuel - 1)
        }
    }
}

/// Generator seeds and the judge's count after `k` raw pair-draws.
pub open spec fn duel_state(a0: int, b0: int, k: int) -> (int, int, int)
    decreases k,
{
    if k <= 0 {
        (a0, b0, 0)
    } else {
        let (a, b, c) = duel_state(a0, b0, k - 1);
        let a2 = gen_next(a, MULT_A as int);
        let b2 = gen_next(b, MULT_B as int);
        (a2, b2, c + if a2 % 65536 == b2 % 65536 {
            1int
        } else {
            0int
        })
    }
}

/// Generator seeds and the judge's count after `k` filtered pair-draws;
/// `None` when some filtered draw ran out of fuel.
#[verifier::opaque]
pub open spec fn duel_state_filtered(a0: int, b0: int, k: int) -> Option<(int, int, int)>
    decreases k,
{
    if k <= 0 {
        Some((a0, b0, 0))
    } else {
        match duel_state_filtered(a0, b0, k - 1) {
            None => None,
            Some((a, b, c)) => {
                let av = filtered_from(a, MULT_A as int, 4, FILTER_CAP as int);
                let bv = filtered_from(b, MULT_B as int, 8, FILTER_CAP as int);
                if av is Some && bv is Some {
                    Some(
                        (
                            av->0,
                            bv->0,
                            c + if av->0 % 65536 == bv->0 % 65536 {
                                1int
                            } else {
                                0int
                            },
                        ),
                    )
                } else {
                    None
                }
            },
        }
    }
}

/// A multiplicative generator: the current seed, its factor, and the
/// divisibility filter part two applies to it.
#[derive(Clone, Copy)]
pub struct Generator {
    seed: u64,
    mult: u64,
    filter: u64,
}

impl View for Generator {
    type V = (int, int, int);

    closed spec fn view(&self) -> (int, int, int) {
        (self.seed as int, self.mult as int, self.filter as int)
    }
}

impl Generator {
    /// Whether the generator's fields keep all arithmetic in 64 bits.
    pub open spec fn wf(&self) -> bool {
        self@.0 <= SEED_CAP && (self@.1 == MULT_A || self@.1 == MULT_B) && self@.2 >= 1
    }

    /// Generator A: factor 16807, filter 4.
    pub fn new_a(seed: u64) -> (r: Generator)
        requires
            seed <= SEED_CAP,
        ensures
            r.wf(),
            r@ == (seed as int, MULT_A as int, 4int),
    {
        Generator { seed, mult: 16807, filter: 4 }
    }

    /// Generator B: factor 48271, filter 8.
    pub fn new_b(seed: u64) -> (r: Generator)
        requires
            seed <= SEED_CAP,
        ensures
            r.wf(),
            r@ == (seed as int, MULT_B as int, 8int),
    {
        Generator { seed, mult: 48271, filter: 8 }
    }

    /// One raw draw: the seed advances to `seed * mult mod 2147483647`.
    pub fn next(&mut self) -> (r: u64)
        requires
            old(self).wf(),
        ensures
            final(self).wf(),
            final(self)@.0 == gen_next(old(self)@.0, old(self)@.1),
            final(self)@.1 == old(self)@.1,
            final(self)@.2 == old(self)@.2,
            r as int == final(self)@.0,
            r < GEN_MOD,
    {
        proof {
            vstd::arithmetic::mul::lemma_mul_upper_bound(
                self.seed as int,
                SEED_CAP as int,
                self.mult as int,
                MULT_B as int,
            );
            vstd::arithmetic::div_mod::lemma_mod_bound(
                self.seed as int * self.mult as int,
                GEN_MOD as int,
            );
        }
        self.seed = (self.seed * self.mult) % GEN_MOD;
        self.seed
    }

    /// The next draw divisible by the generator's filter; `None` when no
    /// such draw appears within [`FILTER_CAP`] raw draws.
    pub fn next_filtered(&mut self) -> (r: Option<u64>)
        requires
            old(self).wf(),
        ensures
            final(self).wf(),
            final(self)@.1 == old(self)@.1,
            final(self)@.2 == old(self)@.2,
            r is Some <==> filtered_from(
                old(self)@.0,
                old(self)@.1,
                old(self)@.2,
                FILTER_CAP as int,
            ) is Some,
            r is Some ==> r->0 as int == filtered_from(
                old(self)@.0,
                old(self)@.1,
                old(self)@.2,
                FILTER_CAP as int,
            )->0 && final(self)@.0 == r->0 as int,
    {
        let mut t: usize = 0;
        proof {
            reveal(filtered_from);
        }
        while t < FILTER_CAP
            invariant
                self.wf(),
                self@.1 == old(self)@.1,
                self@.2 == old(self)@.2,
                t <= FILTER_CAP,
                filtered_from(old(self)@.0, old(self)@.1, old(self)@.2, FILTER_CAP as int)
                    == filtered_from(self@.0, self@.1, self@.2, FILTER_CAP - t),
            decreases FILTER_CAP - t,
        {
            let ghost pre = self@;
            let v: u64 = self.next();
            proof {
                lemma_filtered_from_step(pre.0, pre.1, pre.2, FILTER_CAP - t);
            }
            if v % self.filter == 0 {
                return Some(v);
            }
            t = t + 1;
        }
        proof {
            lemma_filtered_from_none(self@.0, self@.1, self@.2);
        }
        None
    }
}

/// One seed-bearing line: its last word is the seed.
pub open spec fn seed_of_line(l: Seq<char>) -> Option<int> {
    let ws = words_of(l);
    if ws.len() > 0 && all_digits(ws.last()) && dec_val(ws.last()) <= SEED_CAP {
        Some(dec_val(ws.last()))
    } else {
        None
    }
}

/// Reads the two generators' seed lines.
pub fn parse(input: &Vec<String>) -> (r: Result<(Generator, Generator), String>)
    ensures
        r is Ok <==> (input@.len() == 2 && is_ascii_chars(input@[0]@) && is_ascii_chars(
            input@[1]@,
        ) && seed_of_line(input@[0]@) is Some && seed_of_line(input@[1]@) is Some),
        r is Ok ==> ({
            &&& r->Ok_0.0.wf() && r->Ok_0.1.wf()
            &&& r->Ok_0.0@ == (seed_of_line(input@[0]@)->0, MULT_A as int, 4int)
            &&& r->Ok_0.1@ == (seed_of_line(input@[1]@)->0, MULT_B as int, 8int)
        }),
{
    if input.len() != 2 {
        return Err(String::from_str("expected two lines"));
    }
    let a: u64 = match parse_seed(input[0].as_str()) {
        Ok(v) => v,
        Err(e) => {
            return Err(e);
        },
    };
    let b: u64 = match parse_seed(input[1].as_str()) {
        Ok(v) => v,
        Err(e) => {
            return Err(e);
        },
    };
    Ok((Generator::new_a(a), Generator::new_b(b)))
}

/// Reads the trailing seed of one line.
fn parse_seed(line: &str) -> (r: Result<u64, String>)
    ensures
        r is Ok <==> (is_ascii_chars(line@) && seed_of_line(line@) is Some),
        r is Ok ==> r->Ok_0 as int == seed_of_line(line@)->0 && r->Ok_0 <= SEED_CAP,
{
    if !line.is_ascii() {
        return Err(String::from_str("line is not ascii"));
    }
    let words = words_str(line);
    if words.len() == 0 {
        return Err(String::from_str("no seed in line"));
    }
    let last: &str = words[words.len() - 1].as_str();
    proof {
        assert(last@ == words_of(line@).last());
    }
    match parse_u64(last) {
        None => Err(String::from_str("failed to parse seed")),
        Some(v) => {
            if v > SEED_CAP {
                Err(String::from_str("seed too large"))
            } else {
                Ok(v)
            }
        },
    }
}

/// Part one: forty million raw pair-draws, counting low-sixteen-bit matches.
pub fn part1(generators: (Generator, Generator)) -> (r: usize)
    requires
        generators.0.wf(),
        generators.1.wf(),
        generators.0@.1 == MULT_A as int,
        generators.1@.1 == MULT_B as int,
    ensures
        r as int == duel_state(generators.0@.0, generators.1@.0, PART1_PAIRS as int).2,
{
    let (mut ga, mut gb) = generators;
    let ghost a0 = generators.0@.0;
    let ghost b0 = generators.1@.0;
    let mut count: usize = 0;
    let mut i: usize = 0;
    while i < PART1_PAIRS
        invariant
            a0 == generators.0@.0,
            b0 == generators.1@.0,
            ga.wf(),
            gb.wf(),
            ga@.1 == MULT_A as int,
            gb@.1 == MULT_B as int,
            i <= PART1_PAIRS,
            count <= i,
            duel_state(a0, b0, i as int) == (ga@.0, gb@.0, count as int),
        decreases PART1_PAIRS - i,
    {
        let a: u64 = ga.next();
        let b: u64 = gb.next();
        if a as u16 == b as u16 {
            count = count + 1;
        }
        proof {
            lemma_low16(a);
            lemma_low16(b);
        }
        i = i + 1;
    }
    count
}

/// Part two: five million filtered pair-draws, counting low-sixteen-bit
/// matches; `None` when a filtered draw ran out of fuel.
#[verifier::rlimit(100)]
pub fn part2(generators: (Generator, Generator)) -> (r: Option<usize>)
    requires
        generators.0.wf(),
        generators.1.wf(),
        generators.0@.1 == MULT_A as int,
        generators.1@.1 == MULT_B as int,
        generators.0@.2 == 4,
        generators.1@.2 == 8,
    ensures
        r is Some <==> duel_state_filtered(
            generators.0@.0,
            generators.1@.0,
            PART2_PAIRS as int,
        ) is Some,
        r is Some ==> r->0 as int == (duel_state_filtered(
            generators.0@.0,
            generators.1@.0,
            PART2_PAIRS as int,
        )->0).2,
{
    let (mut ga, mut gb) = generators;
    let ghost a0 = generators.0@.0;
    let ghost b0 = generators.1@.0;
    let mut count: usize = 0;
    let mut i: usize = 0;
    proof {
        reveal(duel_state_filtered);
        assert(duel_state_filtered(a0, b0, 0) == Some((a0, b0, 0int)));
    }
    while i < PART2_PAIRS
        invariant
            a0 == generators.0@.0,
            b0 == generators.1@.0,
            ga.wf(),
            gb.wf(),
            ga@.1 == MULT_A as int,
            gb@.1 == MULT_B as int,
            ga@.2 == 4,
            gb@.2 == 8,
            i <= PART2_PAIRS,
            count <= i,
            duel_state_filtered(a0, b0, i as int) == Some((ga@.0, gb@.0, count as int)),
        decreases PART2_PAIRS - i,
    {
        let a: u64 = match ga.next_filtered() {
            Some(v) => v,
            None => {
                proof {
                    lemma_duel_filtered_step(a0, b0, i as int);
                    assert(duel_state_filtered(a0, b0, i + 1) is None);
                    lemma_duel_filtered_none(a0, b0, i + 1, PART2_PAIRS as int);
                }
                return None;
            },
        };
        let b: u64 = match gb.next_filtered() {
            Some(v) => v,
            None => {
                proof {
                    lemma_duel_filtered_step(a0, b0, i as int);
                    assert(duel_state_filtered(a0, b0, i + 1) is None);
                    lemma_duel_filtered_none(a0, b0, i + 1, PART2_PAIRS as int);
                }
                return None;
            },
        };
        proof {
            lemma_low16(a);
            lemma_low16(b);
            lemma_duel_filtered_step(a0, b0, i as int);
        }
        if a as u16 == b as u16 {
            count = count + 1;
        }
        i = i + 1;
    }
    Some(count)
}

/// The low sixteen bits of a value are its remainder modulo 65536.
proof fn lemma_low16(x: u64)
    ensures
        x as u16 as int == x as int % 65536,
{
    assert(x as u16 as int == x as int % 65536) by (bit_vector);
}

/// One more filtered pair-draw, unfolded.
proof fn lemma_duel_filtered_step(a0: int, b0: int, i: int)
    requires
        i >= 0,
        duel_state_filtered(a0, b0, i) is Some,
    ensures
        duel_state_filtered(a0, b0, i + 1) == ({
            let (a, b, c) = duel_state_filtered(a0, b0, i)->0;
            let av = filtered_from(a, MULT_A as int, 4, FILTER_CAP as int);
            let bv = filtered_from(b, MULT_B as int, 8, FILTER_CAP as int);
            if av is Some && bv is Some {
                Some(
                    (
                        av->0,
                        bv->0,
                        c + if av->0 % 65536 == bv->0 % 65536 {
                            1int
                        } else {
                            0int
                        },
                    ),
                )
            } else {
                None::<(int, int, int)>
            }
        }),
{
    reveal(duel_state_filtered);
}

/// One raw draw off the front of a filtered search.
proof fn lemma_filtered_from_step(seed: int, mult: int, filter: int, fuel: int)
    requires
        fuel >= 1,
    ensures
        filtered_from(seed, mult, filter, fuel) == ({
            let s1 = gen_next(seed, mult);
            if s1 % filter == 0 {
                Some(s1)
            } else {
                filtered_from(s1, mult, filter, fuel - 1)
            }
        }),
        fuel <= 0 ==> filtered_from(seed, mult, filter, fuel) is None,
{
    reveal(filtered_from);
}

/// A filtered search with no fuel finds nothing.
proof fn lemma_filtered_from_none(seed: int, mult: int, filter: int)
    ensures
        filtered_from(seed, mult, filter, 0) is None,
{
    reveal(filtered_from);
}

/// Once a filtered duel runs out of fuel it stays out of fuel.
proof fn lemma_duel_filtered_none(a0: int, b0: int, i: int, k: int)
    requires
        0 <= i <= k,
        duel_state_filtered(a0, b0, i) is None,
    ensures
        duel_state_filtered(a0, b0, k) is None,
    decreases k - i,
{
    reveal(duel_state_filtered);
    if i < k {
        lemma_duel_filtered_none(a0, b0, i + 1, k);
    }
}

impl Instance {
    /// Solves both parts: the raw judge's count and the filtered judge's
    /// count for the parsed seeds.
    pub fn run(&self, lines: Vec<String>) -> (r: Result<DayResult, String>)
        ensures
            r is Ok ==> ({
                let a0 = seed_of_line(lines@[0]@)->0;
                let b0 = seed_of_line(lines@[1]@)->0;
                &&& r->Ok_0.part1@ == dec_str(duel_state(a0, b0, PART1_PAIRS as int).2 as nat)
                &&& r->Ok_0.part2 == Some(r->Ok_0.part2->0)
                &&& r->Ok_0.part2->0@ == dec_str(
                    (duel_state_filtered(a0, b0, PART2_PAIRS as int)->0).2 as nat,
                )
            }),
    {
        let generators = match parse(&lines) {
            Ok(g) => g,
            Err(e) => {
                return Err(e);
            },
        };
        let p1: usize = part1(generators);
        let p2: usize = match part2(generators) {
            Some(v) => v,
            None => {
                return Err(String::from_str("filter never matched"));
            },
        };
        Ok(DayResult {
            part1: to_decimal(p1 as u64),
            part2: Some(to_decimal(p2 as u64)),
        })
    }
}

} // verus!
