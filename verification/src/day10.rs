//! Drives the knot hash directly: one scrambling pass over a comma-separated
//! length list for part one, and the full 64-round hex digest of the raw line
//! for part two.

use vstd::prelude::*;

verus! {

use vstd::string::StringSliceAdditionalSpecFns;
use vstd::utf8::encode_utf8;
use vstd::utf8::is_ascii_chars;
use crate::day::DayResult;
use crate::knot;
use crate::text::all_digits;
use crate::text::dec_str;
use crate::text::dec_val;
use crate::text::split_chars;
use crate::text::parse_usize;
use crate::text::split_str;
use crate::text::to_decimal;

pub struct Instance;

/// The comma-separated fields of the input line.
pub open spec fn length_fields(line: Seq<char>) -> Seq<Seq<char>> {
    split_chars(line, ',')
}

/// Whether every field is a decimal length no larger than the 256-slot ring.
pub open spec fn fields_are_lengths(fields: Seq<Seq<char>>) -> bool {
    forall|i: int|
        0 <= i < fields.len() ==> {
            let f = #[trigger] fields[i];
            f.len() > 0 && all_digits(f) && 0 <= dec_val(f) <= 256
        }
}

/// The parsed length list.
pub open spec fn ring_lengths(fields: Seq<Seq<char>>) -> Seq<usize> {
    fields.map_values(|f: Seq<char>| dec_val(f) as usize)
}

/// The fresh 256-slot ring state.
pub open spec fn fresh_ring() -> knot::RingView {
    knot::RingView { values: knot::init_values(256), position: 0, skip: 0 }
}

impl Instance {
    /// Solves both parts: part one encodes the parsed length list once on a
    /// fresh 256-slot ring and multiplies the first two values; part two runs
    /// the full knot-hash driver on the raw line and renders the hex digest.
    pub fn run(&self, lines: Vec<String>) -> (r: Result<DayResult, String>)
        ensures
            r is Ok <==> (lines@.len() > 0 && is_ascii_chars(lines@[0]@) && fields_are_lengths(
                length_fields(lines@[0]@),
            ) && length_fields(lines@[0]@).len() + 512 <= usize::MAX && 64 * (encode_utf8(lines@[0]@).len()
                + 5) + 512 <= usize::MAX),
            r is Ok ==> ({
                let after = knot::encode_spec(
                    fresh_ring(),
                    ring_lengths(length_fields(lines@[0]@)),
                );
                let hashed = knot::knot_hash_spec(encode_utf8(lines@[0]@));
                &&& r->Ok_0.part1@ == dec_str(
                    (after.values[0] as int * after.values[1] as int) as nat,
                )
                &&& r->Ok_0.part2 == Some(r->Ok_0.part2->0)
                &&& r->Ok_0.part2->0@ == knot::hex_of_bytes(knot::dense_bytes(hashed.values))
            }),
    {
        if lines.len() == 0 {
            return Err(String::from_str("empty lines"));
        }
        let line: &str = lines[0].as_str();
        if !line.is_ascii() {
            return Err(String::from_str("line is not ascii"));
        }
        let fields = split_str(line, ',');
        let ghost gf = length_fields(lines@[0]@);
        let mut lengths: Vec<usize> = Vec::new();
        let mut i: usize = 0;
        while i < fields.len()
            invariant
                lines@.len() > 0,
                line@ == lines@[0]@,
                is_ascii_chars(lines@[0]@),
                gf == length_fields(lines@[0]@),
                fields@.len() == gf.len(),
                forall|k: int| 0 <= k < gf.len() ==> fields@[k]@ == gf[k],
                i <= gf.len(),
                lengths@.len() == i,
                forall|k: int| 0 <= k < i ==> {
                    let f = #[trigger] gf[k];
                    f.len() > 0 && all_digits(f) && 0 <= dec_val(f) <= 256
                },
                forall|k: int| 0 <= k < i ==> #[trigger] lengths@[k] == dec_val(gf[k]) as usize,
                forall|k: int| 0 <= k < i ==> #[trigger] lengths@[k] <= 256,
            decreases gf.len() - i,
        {
            let l: usize = match parse_usize(fields[i].as_str()) {
                Some(v) => v,
                None => {
                    proof {
                        let f = gf[i as int];
                        assert(!(f.len() > 0 && all_digits(f) && 0 <= dec_val(f) <= 256));
                        assert(!fields_are_lengths(gf));
                    }
                    return Err(String::from_str("failed to parse length"));
                },
            };
            if l > 256 {
                proof {
                    assert(dec_val(gf[i as int]) > 256);
                    assert(!fields_are_lengths(gf));
                }
                return Err(String::from_str("length exceeds ring size"));
            }
            lengths.push(l);
            i = i + 1;
        }
        if usize::MAX - 512 < lengths.len() {
            return Err(String::from_str("too many lengths"));
        }
        proof {
            assert(lengths@ =~= ring_lengths(gf));
        }
        let mut ring = knot::Ring::new(255);
        proof {
            assert(ring@ =~= fresh_ring());
        }
        ring.encode(lengths.as_slice());
        proof {
            knot::lemma_encode_spec_frame(fresh_ring(), ring_lengths(gf));
        }
        let part1 = to_decimal(ring.first_two() as u64);

        let bytes_len: usize = line.unicode_len();
        proof {
            broadcast use vstd::string::is_ascii_spec_bytes;

            assert(line.spec_bytes().len() == line@.len());
        }
        let cap: usize = (usize::MAX - 512) / 64;
        proof {
            vstd::arithmetic::div_mod::lemma_fundamental_div_mod(
                (usize::MAX - 512) as int,
                64,
            );
        }
        if bytes_len > cap - 5 {
            proof {
                assert(64 * (encode_utf8(lines@[0]@).len() + 5) + 512 > usize::MAX);
            }
            return Err(String::from_str("line too long"));
        }
        proof {
            assert(line.spec_bytes() == encode_utf8(line@));
            assert(bytes_len == encode_utf8(lines@[0]@).len());
            assert(64 * (bytes_len + 5) <= 64 * cap);
            assert(64 * (encode_utf8(lines@[0]@).len() + 5) + 512 <= usize::MAX);
            assert(fields_are_lengths(gf));
        }
        let hashed = knot::knot_hash(line);
        let part2 = hashed.dense_hash();
        Ok(DayResult { part1, part2: Some(part2) })
    }
}

} // verus!
