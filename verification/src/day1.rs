//! Circular digit-match sums: add up every digit that equals the digit a
//! fixed offset further on, wrapping around the end of the line.

use vstd::prelude::*;

verus! {

use crate::day::DayResult;
use crate::text::all_digits;
use crate::text::dec_str;
use crate::text::digit_of;
use crate::text::is_digit;
use crate::text::to_decimal;

pub struct Instance;

/// The digit values of a line's characters.
pub open spec fn digits_of(s: Seq<char>) -> Seq<u32> {
    s.map_values(|c: char| digit_of(c) as u32)
}

/// Sum over the first `i` positions of the digits that match the digit
/// `offset` places further on, cyclically.
pub open spec fn match_sum(s: Seq<u32>, offset: int, i: int) -> int
    decreases i,
{
    if i <= 0 {
        0
    } else {
        match_sum(s, offset, i - 1) + if s[(i - 1 + offset) % (s.len() as int)] == s[i - 1] {
            s[i - 1] as int
        } else {
            0
        }
    }
}

/// Reads the first line as a sequence of decimal digits.
pub fn parse(lines: Vec<String>) -> (r: Result<Vec<u32>, String>)
    ensures
        r is Ok <==> (lines@.len() > 0 && all_digits(lines@[0]@)),
        r is Ok ==> r->Ok_0@ == digits_of(lines@[0]@),
{
    if lines.len() == 0 {
        return Err(String::from_str("empty lines"));
    }
    let line: &str = lines[0].as_str();
    let n: usize = line.unicode_len();
    let mut out: Vec<u32> = Vec::new();
    let mut i: usize = 0;
    while i < n
        invariant
            n == line@.len(),
            line@ == lines@[0]@,
            i <= n,
            out@.len() == i,
            forall|k: int| 0 <= k < i ==> is_digit(#[trigger] line@[k]),
            forall|k: int| 0 <= k < i ==> out@[k] == digit_of(line@[k]) as u32,
        decreases n - i,
    {
        let c: char = line.get_char(i);
        let d: u32 = c as u32;
        if d < 48 || d > 57 {
            assert(!is_digit(line@[i as int]));
            return Err(String::from_str("bad digit"));
        }
        out.push(d - 48);
        i = i + 1;
    }
    proof {
        assert(out@ =~= digits_of(lines@[0]@));
    }
    Ok(out)
}

/// Sum of the digits that match the digit `offset` places further on,
/// cyclically over the whole list.
pub fn add_if_match(numbers: &Vec<u32>, offset: usize) -> (r: u32)
    requires
        forall|i: int| 0 <= i < numbers@.len() ==> #[trigger] numbers@[i] <= 9,
        9 * numbers@.len() <= u32::MAX,
        numbers@.len() + offset <= usize::MAX,
    ensures
        r == match_sum(numbers@, offset as int, numbers@.len() as int),
{
    let n: usize = numbers.len();
    let mut sum: u32 = 0;
    let mut i: usize = 0;
    while i < n
        invariant
            n == numbers@.len(),
            forall|k: int| 0 <= k < n ==> #[trigger] numbers@[k] <= 9,
            9 * n <= u32::MAX,
            n + offset <= usize::MAX,
            i <= n,
            sum <= 9 * i,
            sum == match_sum(numbers@, offset as int, i as int),
        decreases n - i,
    {
        if numbers[(i + offset) % n] == numbers[i] {
            sum = sum + numbers[i];
        }
        i = i + 1;
    }
    sum
}

impl Instance {
    /// Solves both parts for the given input lines: the match sum at offset
    /// one, and the match sum at half the list's length.
    pub fn run(&self, lines: Vec<String>) -> (r: Result<DayResult, String>)
        ensures
            r is Ok <==> (lines@.len() > 0 && all_digits(lines@[0]@) && 9 * lines@[0]@.len()
                <= u32::MAX),
            r is Ok ==> ({
                let ds = digits_of(lines@[0]@);
                let n = ds.len() as int;
                &&& r->Ok_0.part1@ == dec_str(match_sum(ds, 1, n) as nat)
                &&& r->Ok_0.part2 == Some(r->Ok_0.part2->0)
                &&& r->Ok_0.part2->0@ == dec_str(match_sum(ds, n / 2, n) as nat)
            }),
    {
        let numbers = match parse(lines) {
            Ok(v) => v,
            Err(e) => {
                return Err(e);
            },
        };
        if numbers.len() > (u32::MAX / 9) as usize {
            return Err(String::from_str("input too long"));
        }
        proof {
            if match_sum(numbers@, 1, numbers@.len() as int) < 0 {
                lemma_match_sum_nonneg(numbers@, 1, numbers@.len() as int);
            }
            if match_sum(numbers@, numbers@.len() as int / 2, numbers@.len() as int) < 0 {
                lemma_match_sum_nonneg(
                    numbers@,
                    numbers@.len() as int / 2,
                    numbers@.len() as int,
                );
            }
        }
        let part1 = to_decimal(add_if_match(&numbers, 1) as u64);
        let part2 = to_decimal(add_if_match(&numbers, numbers.len() / 2) as u64);
        Ok(DayResult { part1, part2: Some(part2) })
    }
}

/// A match sum of non-negative digits is non-negative.
proof fn lemma_match_sum_nonneg(s: Seq<u32>, offset: int, i: int)
    ensures
        match_sum(s, offset, i) >= 0,
    decreases i,
{
    if i > 0 {
        lemma_match_sum_nonneg(s, offset, i - 1);
    }
}

} // verus!
