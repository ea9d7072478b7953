//! Spreadsheet checksums: per row, the spread between the largest and
//! smallest entry; and per row, the quotient of its one evenly-divisible
//! pair.

use vstd::prelude::*;

use itertools::Itertools;

verus! {

use vstd::utf8::is_ascii_chars;
use crate::day::DayResult;
use crate::text::all_digits;
use crate::text::dec_str;
use crate::text::dec_val;
use crate::text::parse_u32;
use crate::text::to_decimal;
use crate::text::words_of;
use crate::text::words_str;

pub struct Instance;

/// The largest entry among the first `i`, or zero when there are none.
pub open spec fn row_max(s: Seq<u32>, i: int) -> int
    decreases i,
{
    if i <= 0 {
        0
    } else {
        let m = row_max(s, i - 1);
        if s[i - 1] as int > m {
            s[i - 1] as int
        } else {
            m
        }
    }
}

/// The smallest entry among the first `i`, or zero when there are none.
pub open spec fn row_min(s: Seq<u32>, i: int) -> int
    decreases i,
{
    if i <= 0 {
        0
    } else if i == 1 {
        s[0] as int
    } else {
        let m = row_min(s, i - 1);
        if (s[i - 1] as int) < m {
            s[i - 1] as int
        } else {
            m
        }
    }
}

/// The spread checksum over the first `i` rows: each row contributes its
/// largest entry minus its smallest.
pub open spec fn checksum_spec(rows: Seq<Seq<u32>>, i: int) -> int
    decreases i,
{
    if i <= 0 {
        0
    } else {
        let row = rows[i - 1];
        checksum_spec(rows, i - 1) + row_max(row, row.len() as int) - row_min(
            row,
            row.len() as int,
        )
    }
}

/// Each value of `s` paired with `x`, in order.
pub open spec fn pairs_with(x: u32, s: Seq<u32>) -> Seq<(u32, u32)> {
    Seq::new(s.len(), |i: int| (x, s[i]))
}

/// All pairs of values at distinct positions, earlier position first, in
/// lexicographic position order.
pub open spec fn combo_pairs(s: Seq<u32>) -> Seq<(u32, u32)>
    decreases s.len(),
{
    if s.len() == 0 {
        Seq::empty()
    } else {
        pairs_with(s[0], s.drop_first()) + combo_pairs(s.drop_first())
    }
}

/// The quotient of the first pair, in pair order, whose larger value is
/// evenly divided by its smaller; zero when no pair divides.
pub open spec fn pairs_quotient(ps: Seq<(u32, u32)>) -> int
    decreases ps.len(),
{
    if ps.len() == 0 {
        0
    } else {
        let a = ps[0].0 as int;
        let b = ps[0].1 as int;
        let hi = if a >= b {
            a
        } else {
            b
        };
        let lo = if a >= b {
            b
        } else {
            a
        };
        if hi % lo == 0 {
            hi / lo
        } else {
            pairs_quotient(ps.drop_first())
        }
    }
}

/// The division checksum over the first `i` rows: each row contributes the
/// quotient of its divisible pair.
pub open spec fn div_checksum_spec(rows: Seq<Seq<u32>>, i: int) -> int
    decreases i,
{
    if i <= 0 {
        0
    } else {
        div_checksum_spec(rows, i - 1) + pairs_quotient(combo_pairs(rows[i - 1]))
    }
}

/// Relies on `itertools::Itertools::tuple_combinations`: for a pair type it
/// yields every pair of values at distinct positions, earlier position
/// first, in lexicographic position order.
#[verifier::external_body]
fn pair_combinations(l: &Vec<u32>) -> (r: Vec<(u32, u32)>)
    ensures
        r@ == combo_pairs(l@),
{
    l.iter().cloned().tuple_combinations::<(_, _)>().collect()
}

/// Every pair combines two values of the row.
proof fn lemma_combo_pairs_positive(s: Seq<u32>)
    requires
        forall|k: int| 0 <= k < s.len() ==> #[trigger] s[k] > 0,
    ensures
        forall|k: int|
            0 <= k < combo_pairs(s).len() ==> (#[trigger] combo_pairs(s)[k]).0 > 0 && combo_pairs(
                s,
            )[k].1 > 0,
    decreases s.len(),
{
    if s.len() > 0 {
        let d = s.drop_first();
        assert(forall|k: int| 0 <= k < d.len() ==> #[trigger] d[k] > 0);
        lemma_combo_pairs_positive(d);
        assert forall|k: int|
            0 <= k < combo_pairs(s).len() implies (#[trigger] combo_pairs(s)[k]).0 > 0
            && combo_pairs(s)[k].1 > 0 by {
            if k < d.len() {
                assert(combo_pairs(s)[k] == pairs_with(s[0], d)[k]);
                assert(pairs_with(s[0], d)[k] == (s[0], d[k]));
            } else {
                assert(combo_pairs(s)[k] == combo_pairs(d)[k - d.len()]);
            }
        }
    }
}

/// The spread of one row: its largest entry minus its smallest.
fn row_spread(row: &Vec<u32>) -> (r: u32)
    ensures
        r == row_max(row@, row@.len() as int) - row_min(row@, row@.len() as int),
{
    if row.len() == 0 {
        return 0;
    }
    let mut mx: u32 = row[0];
    let mut mn: u32 = row[0];
    let mut i: usize = 1;
    proof {
        assert(row_max(row@, 0) == 0);
        assert(row_max(row@, 1) == row@[0] as int || row_max(row@, 1) == 0);
        assert(row@[0] >= 0);
        assert(row_max(row@, 1) == row@[0] as int);
        assert(row_min(row@, 1) == row@[0] as int);
    }
    while i < row.len()
        invariant
            row@.len() > 0,
            1 <= i <= row@.len(),
            mx as int == row_max(row@, i as int),
            mn as int == row_min(row@, i as int),
            mn <= mx,
        decreases row@.len() - i,
    {
        if row[i] > mx {
            mx = row[i];
        }
        if row[i] < mn {
            mn = row[i];
        }
        i = i + 1;
    }
    mx - mn
}

/// The quotient of one row's evenly-divisible pair, or zero.
fn row_quotient(row: &Vec<u32>) -> (r: u32)
    requires
        forall|k: int| 0 <= k < row@.len() ==> #[trigger] row@[k] > 0,
    ensures
        r == pairs_quotient(combo_pairs(row@)),
{
    proof {
        lemma_combo_pairs_positive(row@);
    }
    let pairs = pair_combinations(row);
    let ghost ps = combo_pairs(row@);
    let mut i: usize = 0;
    proof {
        assert(ps.skip(0) =~= ps);
    }
    while i < pairs.len()
        invariant
            ps == combo_pairs(row@),
            pairs@ == ps,
            i <= ps.len(),
            forall|k: int| 0 <= k < ps.len() ==> (#[trigger] ps[k]).0 > 0 && ps[k].1 > 0,
            pairs_quotient(ps) == pairs_quotient(ps.skip(i as int)),
        decreases ps.len() - i,
    {
        let (a, b) = pairs[i];
        let hi: u32 = if a >= b {
            a
        } else {
            b
        };
        let lo: u32 = if a >= b {
            b
        } else {
            a
        };
        proof {
            assert(ps.skip(i as int)[0] == ps[i as int]);
            assert(ps.skip(i as int).drop_first() =~= ps.skip(i + 1));
        }
        if hi % lo == 0 {
            proof {
                assert(pairs_quotient(ps.skip(i as int)) == hi as int / lo as int);
            }
            return hi / lo;
        }
        i = i + 1;
    }
    proof {
        assert(ps.skip(ps.len() as int) =~= Seq::<(u32, u32)>::empty());
    }
    0
}

/// The spread checksum over all rows, exact in 64 bits.
pub fn checksum_wide(nums: &Vec<Vec<u32>>) -> (r: u64)
    requires
        nums@.len() <= 0xFFFF_FFFF,
    ensures
        r == checksum_spec(nums@.map_values(|row: Vec<u32>| row@), nums@.len() as int),
    decreases nums@.len(),
{
    let ghost rows = nums@.map_values(|row: Vec<u32>| row@);
    let mut total: u64 = 0;
    let mut i: usize = 0;
    while i < nums.len()
        invariant
            rows == nums@.map_values(|row: Vec<u32>| row@),
            nums@.len() <= 0xFFFF_FFFF,
            i <= nums@.len(),
            total == checksum_spec(rows, i as int),
            total <= i * 0xFFFF_FFFF,
        decreases nums@.len() - i,
    {
        let d: u32 = row_spread(&nums[i]);
        proof {
            assert(rows[i as int] == nums@[i as int]@);
            assert((i + 1) * 0xFFFF_FFFF == i * 0xFFFF_FFFF + 0xFFFF_FFFF) by (nonlinear_arith);
            vstd::arithmetic::mul::lemma_mul_inequality(i as int, 0xFFFF_FFFF, 0xFFFF_FFFF);
        }
        total = total + d as u64;
        i = i + 1;
    }
    total
}

/// The spread checksum, as a machine-sized count.
pub fn checksum(nums: &Vec<Vec<u32>>) -> (r: u32)
    requires
        nums@.len() <= 0xFFFF_FFFF,
        checksum_spec(nums@.map_values(|row: Vec<u32>| row@), nums@.len() as int) <= u32::MAX,
    ensures
        r == checksum_spec(nums@.map_values(|row: Vec<u32>| row@), nums@.len() as int),
{
    checksum_wide(nums) as u32
}

/// The division checksum over all rows, exact in 64 bits.
pub fn checksum_divisible_wide(nums: &Vec<Vec<u32>>) -> (r: u64)
    requires
        nums@.len() <= 0xFFFF_FFFF,
        forall|i: int, j: int|
            0 <= i < nums@.len() && 0 <= j < nums@[i]@.len() ==> #[trigger] nums@[i]@[j] > 0,
    ensures
        r == div_checksum_spec(nums@.map_values(|row: Vec<u32>| row@), nums@.len() as int),
{
    let ghost rows = nums@.map_values(|row: Vec<u32>| row@);
    let mut total: u64 = 0;
    let mut i: usize = 0;
    while i < nums.len()
        invariant
            rows == nums@.map_values(|row: Vec<u32>| row@),
            nums@.len() <= 0xFFFF_FFFF,
            forall|a: int, j: int|
                0 <= a < nums@.len() && 0 <= j < nums@[a]@.len() ==> #[trigger] nums@[a]@[j] > 0,
            i <= nums@.len(),
            total == div_checksum_spec(rows, i as int),
            total <= i * 0xFFFF_FFFF,
        decreases nums@.len() - i,
    {
        proof {
            assert(forall|j: int|
                0 <= j < nums@[i as int]@.len() ==> #[trigger] nums@[i as int]@[j] > 0);
        }
        let q: u32 = row_quotient(&nums[i]);
        proof {
            assert(rows[i as int] == nums@[i as int]@);
            assert((i + 1) * 0xFFFF_FFFF == i * 0xFFFF_FFFF + 0xFFFF_FFFF) by (nonlinear_arith);
            vstd::arithmetic::mul::lemma_mul_inequality(i as int, 0xFFFF_FFFF, 0xFFFF_FFFF);
        }
        total = total + q as u64;
        i = i + 1;
    }
    total
}

/// The division checksum, as a machine-sized count.
pub fn checksum_divisible(nums: &Vec<Vec<u32>>) -> (r: u32)
    requires
        nums@.len() <= 0xFFFF_FFFF,
        forall|i: int, j: int|
            0 <= i < nums@.len() && 0 <= j < nums@[i]@.len() ==> #[trigger] nums@[i]@[j] > 0,
        div_checksum_spec(nums@.map_values(|row: Vec<u32>| row@), nums@.len() as int)
            <= u32::MAX,
    ensures
        r == div_checksum_spec(nums@.map_values(|row: Vec<u32>| row@), nums@.len() as int),
{
    checksum_divisible_wide(nums) as u32
}

/// Whether every word of every line is a `u32` entry.
pub open spec fn sheet_parses(lines: Seq<String>) -> bool {
    forall|i: int|
        0 <= i < lines.len() ==> is_ascii_chars(#[trigger] lines[i]@) && (forall|j: int|
            0 <= j < words_of(lines[i]@).len() ==> (all_digits(#[trigger] words_of(lines[i]@)[j])
                && dec_val(words_of(lines[i]@)[j]) <= u32::MAX))
}

/// The parsed rows of the sheet.
pub open spec fn sheet_of(lines: Seq<String>) -> Seq<Seq<int>> {
    lines.map_values(|l: String| words_of(l@).map_values(|w: Seq<char>| dec_val(w)))
}

/// The parsed rows of the sheet, as machine integers; meaningful when the
/// sheet parses.
pub open spec fn sheet_u32(lines: Seq<String>) -> Seq<Seq<u32>> {
    lines.map_values(|l: String| words_of(l@).map_values(|w: Seq<char>| dec_val(w) as u32))
}

/// Reads each line as a row of whitespace-separated numbers.
pub fn parse(lines: &Vec<String>) -> (r: Result<Vec<Vec<u32>>, String>)
    ensures
        r is Ok <==> sheet_parses(lines@),
        r is Ok ==> r->Ok_0@.map_values(|row: Vec<u32>| row@.map_values(|x: u32| x as int))
            == sheet_of(lines@),
{
    let mut out: Vec<Vec<u32>> = Vec::new();
    let mut i: usize = 0;
    while i < lines.len()
        invariant
            i <= lines@.len(),
            out@.len() == i,
            forall|k: int|
                0 <= k < i ==> is_ascii_chars(#[trigger] lines@[k]@) && (forall|j: int|
                    0 <= j < words_of(lines@[k]@).len() ==> (all_digits(
                        #[trigger] words_of(lines@[k]@)[j],
                    ) && dec_val(words_of(lines@[k]@)[j]) <= u32::MAX)),
            forall|k: int|
                0 <= k < i ==> (#[trigger] out@[k]@).len() == words_of(lines@[k]@).len(),
            forall|k: int, j: int|
                0 <= k < i && 0 <= j < out@[k]@.len() ==> #[trigger] out@[k]@[j] as int == dec_val(
                    words_of(lines@[k]@)[j],
                ),
        decreases lines@.len() - i,
    {
        let line: &str = lines[i].as_str();
        if !line.is_ascii() {
            return Err(String::from_str("line is not ascii"));
        }
        let words = words_str(line);
        let ghost gw = words_of(lines@[i as int]@);
        let mut row: Vec<u32> = Vec::new();
        let mut j: usize = 0;
        while j < words.len()
            invariant
                i < lines@.len(),
                is_ascii_chars(lines@[i as int]@),
                gw == words_of(lines@[i as int]@),
                words@.len() == gw.len(),
                forall|k: int| 0 <= k < gw.len() ==> words@[k]@ == gw[k],
                j <= gw.len(),
                row@.len() == j,
                forall|k: int|
                    0 <= k < j ==> (all_digits(#[trigger] gw[k]) && dec_val(gw[k]) <= u32::MAX),
                forall|k: int| 0 <= k < j ==> #[trigger] row@[k] as int == dec_val(gw[k]),
            decreases gw.len() - j,
        {
            let v: u32 = match parse_u32(words[j].as_str()) {
                Some(v) => v,
                None => {
                    proof {
                        let w = gw[j as int];
                        assert(!(all_digits(w) && dec_val(w) <= u32::MAX));
                        assert(!sheet_parses(lines@));
                    }
                    return Err(String::from_str("parse failure"));
                },
            };
            row.push(v);
            j = j + 1;
        }
        out.push(row);
        i = i + 1;
    }
    proof {
        assert(out@.map_values(|row: Vec<u32>| row@.map_values(|x: u32| x as int)) =~~= sheet_of(
            lines@,
        ));
    }
    Ok(out)
}

impl Instance {
    /// Solves both parts: the spread checksum and the division checksum of
    /// the parsed sheet.
    pub fn run(&self, lines: Vec<String>) -> (r: Result<DayResult, String>)
        ensures
            r is Ok ==> ({
                let sheet = sheet_u32(lines@);
                &&& r->Ok_0.part1@ == dec_str(checksum_spec(sheet, sheet.len() as int) as nat)
                &&& r->Ok_0.part2 == Some(r->Ok_0.part2->0)
                &&& r->Ok_0.part2->0@ == dec_str(
                    div_checksum_spec(sheet, sheet.len() as int) as nat,
                )
            }),
            r is Err ==> !sheet_parses(lines@) || lines@.len() > 0xFFFF_FFFF || exists|i: int,
                j: int|
                0 <= i < sheet_of(lines@).len() && 0 <= j < sheet_of(lines@)[i].len()
                    && #[trigger] sheet_of(lines@)[i][j] == 0,
    {
        if lines.len() > 0xFFFF_FFFF {
            return Err(String::from_str("too many rows"));
        }
        let parsed = match parse(&lines) {
            Ok(v) => v,
            Err(e) => {
                return Err(e);
            },
        };
        proof {
            assert(parsed@.map_values(
                |row: Vec<u32>| row@.map_values(|x: u32| x as int),
            ).len() == parsed@.len());
            assert(sheet_of(lines@).len() == lines@.len());
        }
        let mut i: usize = 0;
        while i < parsed.len()
            invariant
                lines@.len() <= 0xFFFF_FFFF,
                sheet_parses(lines@),
                parsed@.len() == lines@.len(),
                i <= parsed@.len(),
                parsed@.map_values(|row: Vec<u32>| row@.map_values(|x: u32| x as int))
                    == sheet_of(lines@),
                forall|a: int, j: int|
                    0 <= a < i && 0 <= j < parsed@[a]@.len() ==> #[trigger] parsed@[a]@[j] > 0,
            decreases parsed@.len() - i,
        {
            let mut j: usize = 0;
            while j < parsed[i].len()
                invariant
                    lines@.len() <= 0xFFFF_FFFF,
                    sheet_parses(lines@),
                    parsed@.len() == lines@.len(),
                    i < parsed@.len(),
                    parsed@.map_values(|row: Vec<u32>| row@.map_values(|x: u32| x as int))
                        == sheet_of(lines@),
                    forall|a: int, jj: int|
                        0 <= a < i && 0 <= jj < parsed@[a]@.len() ==> #[trigger] parsed@[a]@[jj]
                            > 0,
                    j <= parsed@[i as int]@.len(),
                    forall|k: int| 0 <= k < j ==> #[trigger] parsed@[i as int]@[k] > 0,
                decreases parsed@[i as int]@.len() - j,
            {
                if parsed[i][j] == 0 {
                    proof {
                        let sheet = sheet_of(lines@);
                        assert(sheet[i as int] == parsed@[i as int]@.map_values(
                            |x: u32| x as int,
                        ));
                        assert(sheet[i as int][j as int] == 0);
                    }
                    return Err(String::from_str("zero entry"));
                }
                j = j + 1;
            }
            i = i + 1;
        }
        proof {
            assert(parsed@.len() <= 0xFFFF_FFFF);
        }
        let wide1: u64 = checksum_wide(&parsed);
        let wide2: u64 = checksum_divisible_wide(&parsed);
        proof {
            assert forall|k: int|
                0 <= k < parsed@.len() implies parsed@.map_values(|row: Vec<u32>| row@)[k]
                =~= sheet_u32(lines@)[k] by {
                let words = words_of(lines@[k]@);
                assert(parsed@[k]@.map_values(|x: u32| x as int) == sheet_of(lines@)[k]);
                assert forall|j: int|
                    0 <= j < parsed@[k]@.len() implies parsed@[k]@[j] == (dec_val(
                    #[trigger] words[j],
                ) as u32) by {
                    assert(parsed@[k]@.map_values(|x: u32| x as int)[j] == dec_val(words[j]));
                    crate::text::lemma_dec_val_nonneg(words[j]);
                }
            }
            assert(parsed@.map_values(|row: Vec<u32>| row@) =~~= sheet_u32(lines@));
        }
        Ok(DayResult {
            part1: to_decimal(wide1),
            part2: Some(to_decimal(wide2)),
        })
    }
}

} // verus!
