//! A layered firewall of scanners sweeping back and forth: the severity of
//! crossing at once, and the smallest departure delay that crosses unseen.

use vstd::prelude::*;

verus! {

use vstd::utf8::is_ascii_chars;
use crate::day::DayResult;
use crate::text::all_digits;
use crate::text::dec_str;
use crate::text::dec_val;
use crate::text::parse_usize;
use crate::text::split_chars;
use crate::text::split_str;
use crate::text::to_decimal;

pub struct Instance;

/// The largest depth or range a layer may carry, and the largest layer count;
/// keeps every product and sum inside the machine's integers.
pub const LAYER_BOUND: usize = 0xFFFF;

/// How many departure delays are tried before giving up.
pub const DELAY_CAP: usize = 100_000_000;

/// A scanner with range `r` is back at the top every `2 * (r - 1)` picoseconds,
/// so a packet entering layer `(depth, r)` after `delay` is caught exactly when
/// `depth + delay` is a multiple of that period.
pub open spec fn caught(layer: (usize, usize), delay: int) -> bool {
    (layer.0 + delay) % (2 * (layer.1 - 1)) == 0
}

/// Severity of crossing at delay zero, over the first `i` layers: each layer
/// that catches the packet contributes depth times range.
pub open spec fn severity_spec(s: Seq<(usize, usize)>, i: int) -> int
    decreases i,
{
    if i <= 0 {
        0
    } else {
        severity_spec(s, i - 1) + if caught(s[i - 1], 0) {
            s[i - 1].0 * s[i - 1].1
        } else {
            0
        }
    }
}

/// Whether a packet departing after `delay` crosses every layer unseen.
pub open spec fn safe_at(s: Seq<(usize, usize)>, delay: int) -> bool {
    forall|k: int| 0 <= k < s.len() ==> !caught(#[trigger] s[k], delay)
}

/// The first index whose layer sits at `depth`; the length when none does.
pub open spec fn layer_index(s: Seq<(usize, usize)>, depth: usize) -> int
    decreases s.len(),
{
    if s.len() == 0 {
        0
    } else if s[0].0 == depth {
        0
    } else {
        1 + layer_index(s.drop_first(), depth)
    }
}

/// `layer_index` finds the first layer at the depth: it stays in range, lands
/// on the depth unless it is the length, and no earlier layer has the depth.
proof fn lemma_layer_index(s: Seq<(usize, usize)>, depth: usize)
    ensures
        0 <= layer_index(s, depth) <= s.len(),
        layer_index(s, depth) < s.len() ==> s[layer_index(s, depth)].0 == depth,
        forall|i: int| 0 <= i < layer_index(s, depth) ==> (#[trigger] s[i]).0 != depth,
    decreases s.len(),
{
    if s.len() > 0 && s[0].0 != depth {
        lemma_layer_index(s.drop_first(), depth);
        assert forall|i: int| 0 <= i < layer_index(s, depth) implies (#[trigger] s[i]).0
            != depth by {
            if i > 0 {
                assert(s[i] == s.drop_first()[i - 1]);
            }
        }
    }
}

/// Recording a layer: replace the first layer at the same depth, or append.
pub open spec fn insert_layer(s: Seq<(usize, usize)>, layer: (usize, usize)) -> Seq<
    (usize, usize),
> {
    let k = layer_index(s, layer.0);
    if k < s.len() {
        s.update(k, layer)
    } else {
        s.push(layer)
    }
}

/// The layer one line describes: a depth, a colon, a space, and a range.
pub open spec fn layer_of_line(l: Seq<char>) -> Option<(usize, usize)> {
    let fs = split_chars(l, ':');
    if fs.len() == 2 && fs[0].len() > 0 && all_digits(fs[0]) && dec_val(fs[0]) <= usize::MAX
        && fs[1].len() > 1 && fs[1][0] == ' ' && all_digits(fs[1].drop_first()) && dec_val(
        fs[1].drop_first(),
    ) <= usize::MAX {
        Some((dec_val(fs[0]) as usize, dec_val(fs[1].drop_first()) as usize))
    } else {
        None
    }
}

/// Whether a parsed layer is within the solver's bounds: range at least two
/// (a one-slot scanner never moves, so being caught by one is undefined), and
/// depth and range small enough for exact arithmetic.
pub open spec fn layer_in_bounds(layer: (usize, usize)) -> bool {
    2 <= layer.1 <= LAYER_BOUND && layer.0 <= LAYER_BOUND
}

/// The firewall built from the lines, first to last.
pub open spec fn firewall_of(lines: Seq<Seq<char>>, i: int) -> Seq<(usize, usize)>
    decreases i,
{
    if i <= 0 {
        Seq::empty()
    } else {
        insert_layer(firewall_of(lines, i - 1), layer_of_line(lines[i - 1])->0)
    }
}

/// The scanners standing between the packet and the far side, as pairs of
/// depth and range with the depths unique.
pub struct Firewall {
    depth_range: Vec<(usize, usize)>,
}

impl View for Firewall {
    type V = Seq<(usize, usize)>;

    closed spec fn view(&self) -> Seq<(usize, usize)> {
        self.depth_range@
    }
}

impl Firewall {
    /// An empty firewall.
    pub fn new() -> (r: Firewall)
        ensures
            r@ == Seq::<(usize, usize)>::empty(),
    {
        Firewall { depth_range: Vec::new() }
    }

    /// Records a scanner: replaces the layer already at that depth, if any,
    /// and appends otherwise.
    pub fn add_layer(&mut self, depth: usize, range: usize)
        ensures
            final(self)@ == insert_layer(old(self)@, (depth, range)),
    {
        let ghost s = self@;
        let n: usize = self.depth_range.len();
        let mut i: usize = 0;
        proof {
            lemma_layer_index(s, depth);
        }
        while i < n
            invariant
                s == self@,
                s == old(self)@,
                n == s.len(),
                i <= n,
                forall|k: int| 0 <= k < i ==> (#[trigger] s[k]).0 != depth,
                0 <= layer_index(s, depth) <= s.len(),
                layer_index(s, depth) < s.len() ==> s[layer_index(s, depth)].0 == depth,
                forall|k: int| 0 <= k < layer_index(s, depth) ==> (#[trigger] s[k]).0 != depth,
            decreases n - i,
        {
            if self.depth_range[i].0 == depth {
                proof {
                    assert(layer_index(s, depth) == i);
                }
                self.depth_range.set(i, (depth, range));
                return ;
            }
            i = i + 1;
        }
        proof {
            assert(layer_index(s, depth) == s.len());
        }
        self.depth_range.push((depth, range));
    }

    /// Severity of leaving immediately: the sum of depth times range over the
    /// layers that catch the packet. Exact in 64 bits thanks to the bounds.
    pub fn severity_wide(&self) -> (r: u64)
        requires
            forall|k: int| 0 <= k < self@.len() ==> layer_in_bounds(#[trigger] self@[k]),
            self@.len() <= LAYER_BOUND,
        ensures
            r == severity_spec(self@, self@.len() as int),
    {
        let n: usize = self.depth_range.len();
        let mut total: u64 = 0;
        let mut i: usize = 0;
        while i < n
            invariant
                n == self@.len(),
                n <= LAYER_BOUND,
                forall|k: int| 0 <= k < n ==> layer_in_bounds(#[trigger] self@[k]),
                i <= n,
                total == severity_spec(self@, i as int),
                total <= i * 0xFFFF_FFFF,
            decreases n - i,
        {
            let (depth, range) = self.depth_range[i];
            proof {
                vstd::arithmetic::mul::lemma_mul_upper_bound(
                    depth as int,
                    0xFFFF,
                    range as int,
                    0xFFFF,
                );
                assert((i + 1) * 0xFFFF_FFFF == i * 0xFFFF_FFFF + 0xFFFF_FFFF)
                    by (nonlinear_arith);
                vstd::arithmetic::mul::lemma_mul_inequality(
                    i as int,
                    LAYER_BOUND as int,
                    0xFFFF_FFFF,
                );
            }
            if depth % (2 * (range - 1)) == 0 {
                total = total + (depth as u64) * (range as u64);
            }
            i = i + 1;
        }
        total
    }

    /// Severity of leaving immediately, as a machine-sized count.
    pub fn severity(&self) -> (r: usize)
        requires
            forall|k: int| 0 <= k < self@.len() ==> layer_in_bounds(#[trigger] self@[k]),
            self@.len() <= LAYER_BOUND,
            severity_spec(self@, self@.len() as int) <= usize::MAX,
        ensures
            r == severity_spec(self@, self@.len() as int),
    {
        let wide: u64 = self.severity_wide();
        wide as usize
    }

    /// The smallest delay, up to [`DELAY_CAP`], after which the packet
    /// crosses every layer unseen; `None` when no delay up to the cap works.
    pub fn delay(&self) -> (r: Option<usize>)
        requires
            forall|k: int| 0 <= k < self@.len() ==> layer_in_bounds(#[trigger] self@[k]),
        ensures
            r is Some ==> safe_at(self@, r->0 as int) && r->0 <= DELAY_CAP && forall|e: int|
                0 <= e < r->0 ==> !safe_at(self@, e),
            r is None ==> forall|e: int| 0 <= e <= DELAY_CAP ==> !safe_at(self@, e),
    {
        let n: usize = self.depth_range.len();
        let mut d: usize = 0;
        while d <= DELAY_CAP
            invariant
                n == self@.len(),
                forall|k: int| 0 <= k < n ==> layer_in_bounds(#[trigger] self@[k]),
                d <= DELAY_CAP + 1,
                forall|e: int| 0 <= e < d ==> !safe_at(self@, e),
            decreases DELAY_CAP + 1 - d,
        {
            let mut k: usize = 0;
            let mut ok: bool = true;
            while k < n
                invariant
                    n == self@.len(),
                    forall|j: int| 0 <= j < n ==> layer_in_bounds(#[trigger] self@[j]),
                    d <= DELAY_CAP,
                    k <= n,
                    ok <==> forall|j: int| 0 <= j < k ==> !caught(#[trigger] self@[j], d as int),
                decreases n - k,
            {
                let (depth, range) = self.depth_range[k];
                if (depth + d) % (2 * (range - 1)) == 0 {
                    ok = false;
                    proof {
                        assert(caught(self@[k as int], d as int));
                    }
                }
                k = k + 1;
            }
            if ok {
                return Some(d);
            }
            d = d + 1;
        }
        None
    }
}

/// Reads every line as a `depth: range` layer and collects the firewall.
pub fn parse(input: &Vec<String>) -> (r: Result<Firewall, String>)
    ensures
        r is Ok <==> forall|i: int|
            0 <= i < input@.len() ==> is_ascii_chars(#[trigger] input@[i]@) && layer_of_line(
                input@[i]@,
            ) is Some && layer_in_bounds(layer_of_line(input@[i]@)->0),
        r is Ok ==> r->Ok_0@ == firewall_of(
            input@.map_values(|l: String| l@),
            input@.len() as int,
        ),
{
    let ghost gl = input@.map_values(|l: String| l@);
    let mut firewall = Firewall::new();
    let mut i: usize = 0;
    while i < input.len()
        invariant
            gl == input@.map_values(|l: String| l@),
            i <= input@.len(),
            forall|k: int|
                0 <= k < i ==> is_ascii_chars(#[trigger] input@[k]@) && layer_of_line(input@[k]@)
                    is Some && layer_in_bounds(layer_of_line(input@[k]@)->0),
            firewall@ == firewall_of(gl, i as int),
        decreases input@.len() - i,
    {
        let line: &str = input[i].as_str();
        if !line.is_ascii() {
            return Err(String::from_str("line is not ascii"));
        }
        let fields = split_str(line, ':');
        let ghost fs = split_chars(input@[i as int]@, ':');
        if fields.len() != 2 {
            proof {
                assert(layer_of_line(input@[i as int]@) is None);
            }
            return Err(String::from_str("expected depth: range"));
        }
        let depth: usize = match parse_usize(fields[0].as_str()) {
            Some(v) => v,
            None => {
                proof {
                    assert(layer_of_line(input@[i as int]@) is None);
                }
                return Err(String::from_str("bad depth"));
            },
        };
        let second: &str = fields[1].as_str();
        let m: usize = second.unicode_len();
        if m < 2 || second.get_char(0) != ' ' {
            proof {
                assert(layer_of_line(input@[i as int]@) is None);
            }
            return Err(String::from_str("bad range"));
        }
        let rest: &str = second.substring_char(1, m);
        proof {
            assert(rest@ =~= fs[1].drop_first());
        }
        let range: usize = match parse_usize(rest) {
            Some(v) => v,
            None => {
                proof {
                    assert(layer_of_line(input@[i as int]@) is None);
                }
                return Err(String::from_str("bad range"));
            },
        };
        if range < 2 || range > LAYER_BOUND || depth > LAYER_BOUND {
            return Err(String::from_str("layer out of bounds"));
        }
        firewall.add_layer(depth, range);
        proof {
            assert(gl[i as int] == input@[i as int]@);
            assert(layer_of_line(gl[i as int]) == Some((depth, range)));
        }
        i = i + 1;
    }
    Ok(firewall)
}

/// The layers parsed from the input, in firewall order.
pub open spec fn layers_of_input(input: Seq<String>) -> Seq<(usize, usize)> {
    firewall_of(input.map_values(|l: String| l@), input.len() as int)
}

/// Whether every input line parses to an in-bounds layer.
pub open spec fn input_parses(input: Seq<String>) -> bool {
    forall|i: int|
        0 <= i < input.len() ==> is_ascii_chars(#[trigger] input[i]@) && layer_of_line(input[i]@)
            is Some && layer_in_bounds(layer_of_line(input[i]@)->0)
}

/// Every layer the parse builds is in bounds and the firewall stays small.
proof fn lemma_firewall_bounds(gl: Seq<Seq<char>>, i: int)
    requires
        forall|k: int|
            0 <= k < gl.len() ==> layer_of_line(#[trigger] gl[k]) is Some && layer_in_bounds(
                layer_of_line(gl[k])->0,
            ),
        0 <= i <= gl.len(),
    ensures
        firewall_of(gl, i).len() <= i,
        forall|k: int|
            0 <= k < firewall_of(gl, i).len() ==> layer_in_bounds(#[trigger] firewall_of(gl, i)[k]),
    decreases i,
{
    if i > 0 {
        lemma_firewall_bounds(gl, i - 1);
        let prev = firewall_of(gl, i - 1);
        let layer = layer_of_line(gl[i - 1])->0;
        lemma_layer_index(prev, layer.0);
        assert(layer_in_bounds(layer));
    }
}

impl Instance {
    /// Solves both parts: the severity of leaving at once, and the smallest
    /// delay that crosses the firewall unseen.
    pub fn run(&self, lines: Vec<String>) -> (r: Result<DayResult, String>)
        ensures
            r is Ok <==> (input_parses(lines@) && lines@.len() <= LAYER_BOUND && exists|d: int|
                0 <= d <= DELAY_CAP && safe_at(layers_of_input(lines@), d)),
            r is Ok ==> ({
                let layers = layers_of_input(lines@);
                &&& r->Ok_0.part1@ == dec_str(severity_spec(layers, layers.len() as int) as nat)
                &&& r->Ok_0.part2 == Some(r->Ok_0.part2->0)
                &&& exists|d: int|
                    0 <= d <= DELAY_CAP && safe_at(layers, d) && (forall|e: int|
                        0 <= e < d ==> !safe_at(layers, e)) && r->Ok_0.part2->0@ == dec_str(
                        d as nat,
                    )
            }),
    {
        if lines.len() > LAYER_BOUND {
            return Err(String::from_str("too many layers"));
        }
        let firewall = match parse(&lines) {
            Ok(f) => f,
            Err(e) => {
                return Err(e);
            },
        };
        proof {
            let gl = lines@.map_values(|l: String| l@);
            assert forall|k: int|
                0 <= k < gl.len() implies layer_of_line(#[trigger] gl[k]) is Some
                && layer_in_bounds(layer_of_line(gl[k])->0) by {
                assert(gl[k] == lines@[k]@);
            }
            lemma_firewall_bounds(gl, gl.len() as int);
        }
        proof {
            lemma_severity_nonneg(firewall@, firewall@.len() as int);
        }
        let part1 = to_decimal(firewall.severity_wide());
        proof {
            assert(firewall@ == layers_of_input(lines@));
        }
        let part2: usize = match firewall.delay() {
            Some(d) => d,
            None => {
                proof {
                    assert(forall|e: int|
                        0 <= e <= DELAY_CAP ==> !safe_at(layers_of_input(lines@), e));
                }
                return Err(String::from_str("no safe delay found"));
            },
        };
        proof {
            assert(safe_at(layers_of_input(lines@), part2 as int));
        }
        Ok(DayResult { part1, part2: Some(to_decimal(part2 as u64)) })
    }
}

/// Severity is never negative.
proof fn lemma_severity_nonneg(s: Seq<(usize, usize)>, i: int)
    ensures
        severity_spec(s, i) >= 0,
    decreases i,
{
    if i > 0 {
        lemma_severity_nonneg(s, i - 1);
        if caught(s[i - 1], 0) {
            vstd::arithmetic::mul::lemma_mul_nonnegative(s[i - 1].0 as int, s[i - 1].1 as int);
        }
    }
}

} // verus!
