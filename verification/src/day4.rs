//! Passphrase validation: a phrase is valid when no word repeats, and, in
//! the stricter policy, when no word is an anagram of another.

use vstd::prelude::*;

use itertools::Itertools;

verus! {

use vstd::relations::sorted_by;
use vstd::relations::total_ordering;
use vstd::utf8::is_ascii_chars;
use crate::day::DayResult;
use crate::text::dec_str;
use crate::text::split_chars;
use crate::text::split_str;
use crate::text::to_decimal;

pub struct Instance;

/// Code-point order on characters; the order `char`'s `Ord` uses.
pub open spec fn char_le(a: char, b: char) -> bool {
    a <= b
}

/// The characters of a word in ascending order: the canonical form under
/// which two words are anagrams exactly when their forms are equal.
pub open spec fn canon(w: Seq<char>) -> Seq<char> {
    w.sort_by(|a: char, b: char| char_le(a, b))
}

/// A phrase is valid when its space-separated words are pairwise distinct.
pub open spec fn valid_phrase(p: Seq<char>) -> bool {
    let ws = split_chars(p, ' ');
    ws.len() == ws.to_set().len()
}

/// A phrase is anagram-valid when no two of its words share a canonical
/// form.
pub open spec fn anagram_valid_phrase(p: Seq<char>) -> bool {
    let ws = split_chars(p, ' ').map_values(|w: Seq<char>| canon(w));
    ws.len() == ws.to_set().len()
}

/// Relies on `itertools::Itertools::unique` and `Iterator::count`: the
/// number of distinct strings, where strings are equal exactly when their
/// character sequences are.
#[verifier::external_body]
fn distinct_strings(words: &Vec<String>) -> (r: usize)
    ensures
        r == words@.map_values(|w: String| w@).to_set().len(),
{
    words.iter().unique().count()
}

/// Relies on `itertools::Itertools::unique` and `Iterator::count`: the
/// number of distinct character vectors, where vectors are equal exactly
/// when their character sequences are.
#[verifier::external_body]
fn distinct_char_seqs(words: &Vec<Vec<char>>) -> (r: usize)
    ensures
        r == words@.map_values(|w: Vec<char>| w@).to_set().len(),
{
    words.iter().unique().count()
}

/// Relies on `itertools::Itertools::sorted`: the characters in ascending
/// `Ord` order, which for `char` is code-point order.
#[verifier::external_body]
fn sorted_chars(word: &str) -> (r: Vec<char>)
    ensures
        r@.to_multiset() == word@.to_multiset(),
        sorted_by(r@, |a: char, b: char| char_le(a, b)),
{
    word.chars().sorted().collect()
}

/// Sorting by code point is sorting by a total order.
proof fn lemma_char_le_total()
    ensures
        total_ordering(|a: char, b: char| char_le(a, b)),
{
}

/// Whether no word of the phrase repeats.
pub fn is_valid(phrase: &String) -> (r: bool)
    requires
        is_ascii_chars(phrase@),
    ensures
        r == valid_phrase(phrase@),
{
    let words = split_str(phrase.as_str(), ' ');
    let ghost ws = split_chars(phrase@, ' ');
    let unique: usize = distinct_strings(&words);
    proof {
        assert(words@.map_values(|w: String| w@) =~= ws);
    }
    words.len() == unique
}

/// Whether no word of the phrase is an anagram of another.
pub fn is_valid_anagram(phrase: &String) -> (r: bool)
    requires
        is_ascii_chars(phrase@),
    ensures
        r == anagram_valid_phrase(phrase@),
{
    let words = split_str(phrase.as_str(), ' ');
    let ghost ws = split_chars(phrase@, ' ');
    let mut canons: Vec<Vec<char>> = Vec::new();
    let mut i: usize = 0;
    while i < words.len()
        invariant
            ws == split_chars(phrase@, ' '),
            words@.len() == ws.len(),
            forall|k: int| 0 <= k < ws.len() ==> words@[k]@ == ws[k],
            i <= ws.len(),
            canons@.len() == i,
            forall|k: int| 0 <= k < i ==> #[trigger] canons@[k]@ == canon(ws[k]),
        decreases ws.len() - i,
    {
        let sorted = sorted_chars(words[i].as_str());
        proof {
            lemma_char_le_total();
            let w = ws[i as int];
            w.lemma_sort_by_ensures(|a: char, b: char| char_le(a, b));
            vstd::seq_lib::lemma_sorted_unique(
                sorted@,
                canon(w),
                |a: char, b: char| char_le(a, b),
            );
            assert(sorted@ =~= canon(w));
        }
        canons.push(sorted);
        i = i + 1;
    }
    let unique: usize = distinct_char_seqs(&canons);
    proof {
        assert(canons@.map_values(|w: Vec<char>| w@) =~= ws.map_values(
            |w: Seq<char>| canon(w),
        ));
    }
    canons.len() == unique
}

/// How many of the first `i` lines the policy accepts.
pub open spec fn count_valid(lines: Seq<String>, anagram: bool, i: int) -> int
    decreases i,
{
    if i <= 0 {
        0
    } else {
        count_valid(lines, anagram, i - 1) + if (anagram && anagram_valid_phrase(lines[i - 1]@))
            || (!anagram && valid_phrase(lines[i - 1]@)) {
            1int
        } else {
            0int
        }
    }
}

impl Instance {
    /// Solves both parts: how many phrases are valid under the plain policy,
    /// and under the anagram policy.
    pub fn run(&self, lines: Vec<String>) -> (r: Result<DayResult, String>)
        ensures
            r is Ok <==> forall|i: int| 0 <= i < lines@.len() ==> is_ascii_chars(
                #[trigger] lines@[i]@,
            ),
            r is Ok ==> ({
                let n = lines@.len() as int;
                &&& r->Ok_0.part1@ == dec_str(count_valid(lines@, false, n) as nat)
                &&& r->Ok_0.part2 == Some(r->Ok_0.part2->0)
                &&& r->Ok_0.part2->0@ == dec_str(count_valid(lines@, true, n) as nat)
            }),
    {
        let mut part1: usize = 0;
        let mut part2: usize = 0;
        let mut i: usize = 0;
        while i < lines.len()
            invariant
                i <= lines@.len(),
                forall|k: int| 0 <= k < i ==> is_ascii_chars(#[trigger] lines@[k]@),
                part1 as int == count_valid(lines@, false, i as int),
                part2 as int == count_valid(lines@, true, i as int),
                part1 <= i,
                part2 <= i,
            decreases lines@.len() - i,
        {
            if !lines[i].as_str().is_ascii() {
                return Err(String::from_str("line is not ascii"));
            }
            if is_valid(&lines[i]) {
                part1 = part1 + 1;
            }
            if is_valid_anagram(&lines[i]) {
                part2 = part2 + 1;
            }
            i = i + 1;
        }
        proof {
            lemma_count_valid_nonneg(lines@, false, lines@.len() as int);
            lemma_count_valid_nonneg(lines@, true, lines@.len() as int);
        }
        Ok(DayResult {
            part1: to_decimal(part1 as u64),
            part2: Some(to_decimal(part2 as u64)),
        })
    }
}

/// A count of accepted lines is never negative.
proof fn lemma_count_valid_nonneg(lines: Seq<String>, anagram: bool, i: int)
    ensures
        count_valid(lines, anagram, i) >= 0,
    decreases i,
{
    if i > 0 {
        lemma_count_valid_nonneg(lines, anagram, i - 1);
    }
}

} // verus!
