//! Memory-bank redistribution: repeatedly empty the fullest bank into the
//! ones after it, one block at a time, until a configuration repeats.

use vstd::prelude::*;

verus! {

use vstd::utf8::is_ascii_chars;
use crate::day::DayResult;
use crate::text::all_digits;
use crate::text::dec_str;
use crate::text::dec_val;
use crate::text::parse_u32;
use crate::text::to_decimal;
use crate::text::words_of;
use crate::text::words_str;

pub struct Instance;

/// How many redistribution cycles are run before giving up.
pub const CYCLE_CAP: usize = 50_000;

/// The largest bank count the parser accepts; keeps the total block count
/// inside the machine's integers.
pub const BANK_CAP: usize = 16_000_000;

/// The banks as unbounded integers.
pub open spec fn banks_int(s: Seq<u32>) -> Seq<int> {
    s.map_values(|x: u32| x as int)
}

/// The sum of a sequence of integers.
pub open spec fn seq_sum(s: Seq<int>) -> int
    decreases s.len(),
{
    if s.len() == 0 {
        0
    } else {
        seq_sum(s.drop_last()) + s.last()
    }
}

/// Updating one entry moves the sum by the difference.
proof fn lemma_sum_update(s: Seq<int>, i: int, v: int)
    requires
        0 <= i < s.len(),
    ensures
        seq_sum(s.update(i, v)) == seq_sum(s) - s[i] + v,
    decreases s.len(),
{
    if s.len() > 0 {
        if i == s.len() - 1 {
            assert(s.update(i, v).drop_last() =~= s.drop_last());
        } else {
            lemma_sum_update(s.drop_last(), i, v);
            assert(s.update(i, v).drop_last() =~= s.drop_last().update(i, v));
        }
    }
}

/// A sequence of non-negative integers has a non-negative sum.
proof fn lemma_sum_nonneg(s: Seq<int>)
    requires
        forall|k: int| 0 <= k < s.len() ==> s[k] >= 0,
    ensures
        seq_sum(s) >= 0,
    decreases s.len(),
{
    if s.len() > 0 {
        lemma_sum_nonneg(s.drop_last());
    }
}

/// In a sequence of non-negative integers, every entry is at most the sum.
proof fn lemma_elem_le_sum(s: Seq<int>, i: int)
    requires
        0 <= i < s.len(),
        forall|k: int| 0 <= k < s.len() ==> s[k] >= 0,
    ensures
        s[i] <= seq_sum(s),
    decreases s.len(),
{
    if i == s.len() - 1 {
        lemma_sum_nonneg(s.drop_last());
    } else {
        lemma_elem_le_sum(s.drop_last(), i);
    }
}

/// A sequence of entries each at most `b` sums to at most `b` per entry.
proof fn lemma_sum_bounded(s: Seq<int>, b: int)
    requires
        forall|k: int| 0 <= k < s.len() ==> 0 <= #[trigger] s[k] <= b,
        b >= 0,
    ensures
        seq_sum(s) <= b * s.len(),
    decreases s.len(),
{
    if s.len() > 0 {
        lemma_sum_bounded(s.drop_last(), b);
        assert(b * s.len() == b * (s.len() - 1) + b) by (nonlinear_arith);
    }
}

/// The first index of the largest bank.
pub open spec fn argmax(s: Seq<int>, i: int) -> int
    decreases i,
{
    if i <= 1 {
        0
    } else {
        let p = argmax(s, i - 1);
        if s[i - 1] > s[p] {
            i - 1
        } else {
            p
        }
    }
}

/// `argmax` stays in range on a non-empty prefix.
proof fn lemma_argmax_range(s: Seq<int>, i: int)
    requires
        1 <= i,
    ensures
        0 <= argmax(s, i) < i,
    decreases i,
{
    if i > 1 {
        lemma_argmax_range(s, i - 1);
    }
}

/// Dealing out `left` blocks one at a time, starting after `idx`.
pub open spec fn deal(s: Seq<int>, idx: int, left: int) -> Seq<int>
    decreases left,
{
    if left <= 0 || s.len() == 0 {
        s
    } else {
        let j = (idx + 1) % (s.len() as int);
        deal(s.update(j, s[j] + 1), j, left - 1)
    }
}

/// One redistribution: empty the first largest bank and deal its blocks out
/// to the following banks, wrapping around.
pub open spec fn redistribute_spec(s: Seq<int>) -> Seq<int> {
    let m = argmax(s, s.len() as int);
    deal(s.update(m, 0), m, s[m])
}

/// The banks after `k` redistributions.
pub open spec fn cycle_state(s: Seq<int>, k: int) -> Seq<int>
    decreases k,
{
    if k <= 0 {
        s
    } else {
        redistribute_spec(cycle_state(s, k - 1))
    }
}

/// Dealing preserves length and non-negativity and adds `left` to the sum.
proof fn lemma_deal_facts(s: Seq<int>, idx: int, left: int)
    requires
        s.len() > 0,
        0 <= left,
        forall|k: int| 0 <= k < s.len() ==> s[k] >= 0,
    ensures
        deal(s, idx, left).len() == s.len(),
        forall|k: int| 0 <= k < s.len() ==> deal(s, idx, left)[k] >= 0,
        seq_sum(deal(s, idx, left)) == seq_sum(s) + left,
    decreases left,
{
    if left > 0 {
        let j = (idx + 1) % (s.len() as int);
        vstd::arithmetic::div_mod::lemma_mod_bound(idx + 1, s.len() as int);
        let s1 = s.update(j, s[j] + 1);
        lemma_sum_update(s, j, s[j] + 1);
        lemma_deal_facts(s1, j, left - 1);
    }
}

/// Redistribution preserves the number of banks, their non-negativity, and
/// the total number of blocks.
pub proof fn lemma_redistribute_facts(s: Seq<int>)
    requires
        s.len() > 0,
        forall|k: int| 0 <= k < s.len() ==> s[k] >= 0,
    ensures
        redistribute_spec(s).len() == s.len(),
        forall|k: int| 0 <= k < s.len() ==> redistribute_spec(s)[k] >= 0,
        seq_sum(redistribute_spec(s)) == seq_sum(s),
{
    let m = argmax(s, s.len() as int);
    lemma_argmax_range(s, s.len() as int);
    let s1 = s.update(m, 0);
    lemma_sum_update(s, m, 0);
    lemma_elem_le_sum(s, m);
    lemma_deal_facts(s1, m, s[m]);
}

/// The memory banks, as block counts.
pub struct Memory(pub Vec<u32>);

impl Memory {
    /// Reads the whitespace-separated block counts of one line; each must be
    /// a byte-sized count.
    pub fn parse(line: &str) -> (r: Result<Memory, String>)
        requires
            line.is_ascii(),
        ensures
            r is Ok <==> forall|i: int|
                0 <= i < words_of(line@).len() ==> (all_digits(#[trigger] words_of(line@)[i])
                    && dec_val(words_of(line@)[i]) <= 255),
            r is Ok ==> r->Ok_0.0@.len() == words_of(line@).len() && forall|i: int|
                0 <= i < words_of(line@).len() ==> r->Ok_0.0@[i] as int == dec_val(
                    #[trigger] words_of(line@)[i],
                ),
    {
        let words = words_str(line);
        let ghost gw = words_of(line@);
        let mut out: Vec<u32> = Vec::new();
        let mut i: usize = 0;
        while i < words.len()
            invariant
                gw == words_of(line@),
                words@.len() == gw.len(),
                forall|k: int| 0 <= k < gw.len() ==> words@[k]@ == gw[k],
                i <= gw.len(),
                out@.len() == i,
                forall|k: int|
                    0 <= k < i ==> (all_digits(#[trigger] gw[k]) && dec_val(gw[k]) <= 255),
                forall|k: int| 0 <= k < i ==> out@[k] as int == dec_val(#[trigger] gw[k]),
            decreases gw.len() - i,
        {
            let v: u32 = match parse_u32(words[i].as_str()) {
                Some(v) => v,
                None => {
                    proof {
                        let w = gw[i as int];
                        assert(!(all_digits(w) && dec_val(w) <= 255));
                    }
                    return Err(String::from_str("failed to parse bank"));
                },
            };
            if v > 255 {
                proof {
                    assert(dec_val(gw[i as int]) > 255);
                }
                return Err(String::from_str("bank too full"));
            }
            out.push(v);
            i = i + 1;
        }
        Ok(Memory(out))
    }

    /// One redistribution pass, in place.
    pub fn redistribute(&mut self)
        requires
            old(self).0@.len() > 0,
            seq_sum(banks_int(old(self).0@)) <= u32::MAX,
        ensures
            final(self).0@.len() == old(self).0@.len(),
            banks_int(final(self).0@) == redistribute_spec(banks_int(old(self).0@)),
    {
        let ghost s0 = banks_int(old(self).0@);
        let n: usize = self.0.len();
        let mut max: u32 = 0;
        let mut max_index: usize = 0;
        let mut i: usize = 0;
        while i < n
            invariant
                s0 == banks_int(old(self).0@),
                self.0@ == old(self).0@,
                n == s0.len(),
                n > 0,
                i <= n,
                i == 0 ==> max == 0 && max_index == 0,
                i > 0 ==> max_index == argmax(s0, i as int) && max as int == s0[argmax(
                    s0,
                    i as int,
                )] && max_index < i,
            decreases n - i,
        {
            if self.0[i] > max {
                max = self.0[i];
                max_index = i;
            }
            proof {
                if i == 0 {
                    assert(argmax(s0, 1) == 0);
                    assert(s0[0] == old(self).0@[0] as int);
                }
            }
            i = i + 1;
        }
        let ghost m = argmax(s0, s0.len() as int);
        proof {
            lemma_argmax_range(s0, s0.len() as int);
            lemma_sum_update(s0, m, 0);
            lemma_sum_nonneg(s0);
        }
        let to_distribute: u32 = self.0[max_index];
        self.0.set(max_index, 0);
        proof {
            assert(banks_int(self.0@) =~= s0.update(m, 0));
        }
        let ghost total = seq_sum(s0);
        let mut left: u32 = to_distribute;
        let mut current_index: usize = max_index;
        while left > 0
            invariant
                s0 == banks_int(old(self).0@),
                n == s0.len(),
                n > 0,
                self.0@.len() == n,
                current_index < n,
                total == seq_sum(s0),
                0 <= total <= u32::MAX,
                forall|k: int| 0 <= k < n ==> banks_int(self.0@)[k] >= 0,
                seq_sum(banks_int(self.0@)) == total - left,
                deal(banks_int(self.0@), current_index as int, left as int)
                    == redistribute_spec(s0),
            decreases left,
        {
            let next_index: usize = if current_index + 1 == n {
                0
            } else {
                current_index + 1
            };
            let ghost b = banks_int(self.0@);
            proof {
                if current_index + 1 == n {
                    vstd::arithmetic::div_mod::lemma_mod_self_0(s0.len() as int);
                } else {
                    vstd::arithmetic::div_mod::lemma_small_mod(
                        (current_index + 1) as nat,
                        s0.len() as nat,
                    );
                }
                assert(next_index as int == (current_index + 1) % (s0.len() as int));
                lemma_elem_le_sum(b, next_index as int);
                lemma_sum_update(b, next_index as int, b[next_index as int] + 1);
            }
            let cur: u32 = self.0[next_index];
            self.0.set(next_index, cur + 1);
            proof {
                assert(banks_int(self.0@) =~= b.update(
                    next_index as int,
                    b[next_index as int] + 1,
                ));
            }
            left = left - 1;
            current_index = next_index;
        }
    }

    /// Equality of two bank vectors.
    fn banks_eq(a: &Vec<u32>, b: &Vec<u32>) -> (r: bool)
        ensures
            r == (a@ == b@),
    {
        if a.len() != b.len() {
            return false;
        }
        let mut i: usize = 0;
        while i < a.len()
            invariant
                a@.len() == b@.len(),
                i <= a@.len(),
                forall|k: int| 0 <= k < i ==> a@[k] == b@[k],
            decreases a@.len() - i,
        {
            if a[i] != b[i] {
                return false;
            }
            i = i + 1;
        }
        proof {
            assert(a@ =~= b@);
        }
        true
    }

    /// Redistributes until a configuration repeats: returns how many cycles
    /// ran in total, and the length of the loop that was closed. `None` when
    /// no configuration repeats within [`CYCLE_CAP`] cycles.
    pub fn redistribute_cycle(&mut self) -> (r: Option<(usize, usize)>)
        requires
            old(self).0@.len() > 0,
            seq_sum(banks_int(old(self).0@)) <= u32::MAX,
        ensures
            r is Some ==> ({
                let s0 = banks_int(old(self).0@);
                let c = (r->0).0 as int;
                let d = (r->0).1 as int;
                &&& 1 <= c <= CYCLE_CAP
                &&& 1 <= d < c
                &&& cycle_state(s0, c) == cycle_state(s0, c - d)
                &&& forall|i: int, j: int|
                    1 <= i < j < c ==> cycle_state(s0, i) != cycle_state(s0, j)
                &&& banks_int(final(self).0@) == cycle_state(s0, c)
            }),
            r is None ==> forall|i: int, j: int|
                1 <= i < j <= CYCLE_CAP ==> cycle_state(banks_int(old(self).0@), i) != cycle_state(
                    banks_int(old(self).0@),
                    j,
                ),
    {
        let ghost s0 = banks_int(old(self).0@);
        let mut seen: Vec<Vec<u32>> = Vec::new();
        let mut cycles: usize = 0;
        while cycles < CYCLE_CAP
            invariant
                s0 == banks_int(old(self).0@),
                s0.len() > 0,
                seq_sum(s0) <= u32::MAX,
                cycles <= CYCLE_CAP,
                self.0@.len() == s0.len(),
                banks_int(self.0@) == cycle_state(s0, cycles as int),
                seq_sum(banks_int(self.0@)) == seq_sum(s0),
                seen@.len() == cycles,
                forall|k: int|
                    0 <= k < cycles ==> banks_int(#[trigger] seen@[k]@) == cycle_state(s0, k + 1),
                forall|i: int, j: int|
                    1 <= i < j <= cycles ==> cycle_state(s0, i) != cycle_state(s0, j),
            decreases CYCLE_CAP - cycles,
        {
            proof {
                lemma_redistribute_facts(banks_int(self.0@));
            }
            self.redistribute();
            cycles = cycles + 1;
            let mut k: usize = 0;
            while k < seen.len()
                invariant
                    s0 == banks_int(old(self).0@),
                    seen@.len() == cycles - 1,
                    1 <= cycles <= CYCLE_CAP,
                    banks_int(self.0@) == cycle_state(s0, cycles as int),
                    forall|q: int|
                        0 <= q < seen@.len() ==> banks_int(#[trigger] seen@[q]@) == cycle_state(
                            s0,
                            q + 1,
                        ),
                    forall|i: int, j: int|
                        1 <= i < j < cycles ==> cycle_state(s0, i) != cycle_state(s0, j),
                    k <= seen@.len(),
                    forall|q: int|
                        0 <= q < k ==> #[trigger] cycle_state(s0, q + 1) != cycle_state(
                            s0,
                            cycles as int,
                        ),
                decreases seen@.len() - k,
            {
                if Memory::banks_eq(&seen[k], &self.0) {
                    proof {
                        assert(cycle_state(s0, k + 1) == cycle_state(s0, cycles as int));
                    }
                    return Some((cycles, cycles - (k + 1)));
                }
                proof {
                    let a = seen@[k as int]@;
                    let bv = self.0@;
                    if cycle_state(s0, k + 1) == cycle_state(s0, cycles as int) {
                        assert(banks_int(a) == banks_int(bv));
                        assert forall|q: int| 0 <= q < a.len() implies a[q] == bv[q] by {
                            assert(banks_int(a)[q] == banks_int(bv)[q]);
                        }
                        assert(a =~= bv);
                        assert(false);
                    }
                }
                k = k + 1;
            }
            proof {
                assert forall|i: int, j: int|
                    1 <= i < j <= cycles implies cycle_state(s0, i) != cycle_state(s0, j) by {
                    if j == cycles {
                        assert(cycle_state(s0, (i - 1) + 1) != cycle_state(s0, cycles as int));
                    }
                }
            }
            seen.push(self.0.clone());
        }
        None
    }
}

/// Whether every word of the line is a byte-sized block count.
pub open spec fn banks_parse(line: Seq<char>) -> bool {
    forall|i: int|
        0 <= i < words_of(line).len() ==> (all_digits(#[trigger] words_of(line)[i]) && dec_val(
            words_of(line)[i],
        ) <= 255)
}

/// The parsed bank contents of the line.
pub open spec fn banks_of(line: Seq<char>) -> Seq<int> {
    words_of(line).map_values(|w: Seq<char>| dec_val(w))
}

impl Instance {
    /// Solves both parts: how many redistribution cycles run until a repeat,
    /// and how long the closed loop is.
    pub fn run(&self, lines: Vec<String>) -> (r: Result<DayResult, String>)
        ensures
            r is Ok ==> ({
                let s0 = banks_of(lines@[0]@);
                exists|c: int, d: int|
                    #![trigger cycle_state(s0, c - d)]
                    {
                        &&& 1 <= c <= CYCLE_CAP && 1 <= d < c
                        &&& cycle_state(s0, c) == cycle_state(s0, c - d)
                        &&& forall|i: int, j: int|
                            1 <= i < j < c ==> cycle_state(s0, i) != cycle_state(s0, j)
                        &&& r->Ok_0.part1@ == dec_str(c as nat)
                        &&& r->Ok_0.part2 == Some(r->Ok_0.part2->0)
                        &&& r->Ok_0.part2->0@ == dec_str(d as nat)
                    }
            }),
            r is Err ==> lines@.len() == 0 || !is_ascii_chars(lines@[0]@) || !banks_parse(
                lines@[0]@,
            ) || words_of(lines@[0]@).len() == 0 || words_of(lines@[0]@).len() > BANK_CAP || (
            forall|i: int, j: int|
                1 <= i < j <= CYCLE_CAP ==> cycle_state(banks_of(lines@[0]@), i) != cycle_state(
                    banks_of(lines@[0]@),
                    j,
                )),
    {
        if lines.len() == 0 {
            return Err(String::from_str("expected line"));
        }
        let line: &str = lines[0].as_str();
        if !line.is_ascii() {
            return Err(String::from_str("line is not ascii"));
        }
        let mut memory = match Memory::parse(line) {
            Ok(m) => m,
            Err(e) => {
                return Err(e);
            },
        };
        if memory.0.len() == 0 {
            return Err(String::from_str("no banks"));
        }
        if memory.0.len() > BANK_CAP {
            return Err(String::from_str("too many banks"));
        }
        proof {
            assert(banks_int(memory.0@) =~= banks_of(lines@[0]@));
            assert forall|k: int|
                0 <= k < banks_int(memory.0@).len() implies 0 <= #[trigger] banks_int(
                memory.0@,
            )[k] <= 255 by {
                assert(banks_int(memory.0@)[k] == memory.0@[k] as int);
            }
            lemma_sum_bounded(banks_int(memory.0@), 255);
            vstd::arithmetic::mul::lemma_mul_inequality(
                banks_int(memory.0@).len() as int,
                BANK_CAP as int,
                255,
            );
            vstd::arithmetic::mul::lemma_mul_is_commutative(
                255,
                banks_int(memory.0@).len() as int,
            );
        }
        let (p1, p2) = match memory.redistribute_cycle() {
            Some(pair) => pair,
            None => {
                return Err(String::from_str("no repeat found"));
            },
        };
        Ok(DayResult {
            part1: to_decimal(p1 as u64),
            part2: Some(to_decimal(p2 as u64)),
        })
    }
}

} // verus!
