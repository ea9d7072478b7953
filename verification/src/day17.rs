//! A spinlock buffer: step a fixed distance through a growing circular
//! buffer, insert the next value, and repeat. Part one reads the value after
//! 2017; part two tracks the value that ends up right after 0.

use vstd::prelude::*;

verus! {

use crate::day::DayResult;
use crate::text::all_digits;
use crate::text::dec_str;
use crate::text::dec_val;
use crate::text::parse_usize;
use crate::text::to_decimal;

pub struct Instance;

/// How many values part one inserts.
pub const YEAR: usize = 2017;

/// How many iterations part two simulates.
pub const TOTAL_INSERTS: usize = 50_000_000;

/// Mathematical state of a [`Spinlock`]: buffer contents, cursor, and step.
#[verifier::ext_equal]
pub ghost struct SpinView {
    pub buffer: Seq<usize>,
    pub position: nat,
    pub step: nat,
}

/// One insertion: step forward (wrapping), then insert the value right after
/// the cursor and stand on it.
pub open spec fn spin_step(v: SpinView, value: usize) -> SpinView {
    let p = (((v.position + v.step) as int % (v.buffer.len() as int)) + 1) as nat;
    SpinView { buffer: v.buffer.insert(p as int, value), position: p, step: v.step }
}

/// The spinlock state after inserting `1..=k` into a fresh buffer `[0]`.
pub open spec fn spin_state(step: nat, k: int) -> SpinView
    decreases k,
{
    if k <= 0 {
        SpinView { buffer: seq![0usize], position: 0, step: step }
    } else {
        spin_step(spin_state(step, k - 1), k as usize)
    }
}

/// The first index of `v` in `s`; the length when absent.
pub open spec fn first_pos(s: Seq<usize>, v: usize) -> int
    decreases s.len(),
{
    if s.len() == 0 {
        0
    } else if s[0] == v {
        0
    } else {
        1 + first_pos(s.drop_first(), v)
    }
}

/// `first_pos` finds the first occurrence.
proof fn lemma_first_pos(s: Seq<usize>, v: usize)
    ensures
        0 <= first_pos(s, v) <= s.len(),
        first_pos(s, v) < s.len() ==> s[first_pos(s, v)] == v,
        forall|i: int| 0 <= i < first_pos(s, v) ==> s[i] != v,
    decreases s.len(),
{
    if s.len() > 0 && s[0] != v {
        lemma_first_pos(s.drop_first(), v);
        assert forall|i: int| 0 <= i < first_pos(s, v) implies s[i] != v by {
            if i > 0 {
                assert(s[i] == s.drop_first()[i - 1]);
            }
        }
    }
}

/// Part two's tracked state after iterations `1..=k`: the cursor, and the
/// value most recently inserted at slot one (right after 0).
pub open spec fn after_zero_state(step: nat, k: int) -> (int, usize)
    decreases k,
{
    if k <= 0 {
        (0, 0)
    } else {
        let (pos, val) = after_zero_state(step, k - 1);
        let np = (pos + step) % k + 1;
        (np, if np == 1 {
            k as usize
        } else {
            val
        })
    }
}

/// A circular buffer with a cursor and a fixed step size, grown by repeated
/// insertion.
pub struct Spinlock {
    buffer: Vec<usize>,
    position: usize,
    step: usize,
}

impl View for Spinlock {
    type V = SpinView;

    closed spec fn view(&self) -> SpinView {
        SpinView {
            buffer: self.buffer@,
            position: self.position as nat,
            step: self.step as nat,
        }
    }
}

impl Spinlock {
    /// Whether the cursor lies inside the non-empty buffer.
    pub open spec fn wf(&self) -> bool {
        self@.position < self@.buffer.len()
    }

    /// A fresh spinlock: buffer `[0]`, cursor on it.
    pub fn new(step: usize) -> (r: Spinlock)
        ensures
            r.wf(),
            r@ == (SpinView { buffer: seq![0usize], position: 0, step: step as nat }),
    {
        let mut buffer: Vec<usize> = Vec::new();
        buffer.push(0);
        proof {
            assert(buffer@ =~= seq![0usize]);
        }
        Spinlock { buffer, position: 0, step }
    }

    /// Steps forward and inserts `value` right after the cursor.
    pub fn insert(&mut self, value: usize)
        requires
            old(self).wf(),
            old(self)@.position + old(self)@.step + 1 <= usize::MAX,
            old(self)@.buffer.len() + 1 <= usize::MAX,
        ensures
            final(self).wf(),
            final(self)@ == spin_step(old(self)@, value),
    {
        self.position = (self.position + self.step) % self.buffer.len() + 1;
        self.buffer.insert(self.position, value);
    }

    /// The value right after the first occurrence of `value`, wrapping.
    pub fn value_after(&self, value: usize) -> (r: usize)
        requires
            self@.buffer.contains(value),
        ensures
            r == self@.buffer[(first_pos(self@.buffer, value) + 1) % (self@.buffer.len() as int)],
    {
        proof {
            lemma_first_pos(self@.buffer, value);
        }
        let n: usize = self.buffer.len();
        let mut i: usize = 0;
        while i < n
            invariant
                n == self@.buffer.len(),
                i <= n,
                forall|k: int| 0 <= k < i ==> self@.buffer[k] != value,
                0 <= first_pos(self@.buffer, value) <= n,
                first_pos(self@.buffer, value) < n ==> self@.buffer[first_pos(
                    self@.buffer,
                    value,
                )] == value,
                forall|k: int| 0 <= k < first_pos(self@.buffer, value) ==> self@.buffer[k] != value,
                self@.buffer.contains(value),
            decreases n - i,
        {
            if self.buffer[i] == value {
                proof {
                    assert(first_pos(self@.buffer, value) == i);
                }
                return self.buffer[(i + 1) % n];
            }
            i = i + 1;
        }
        proof {
            let w = choose|k: int| 0 <= k < n && self@.buffer[k] == value;
            assert(self@.buffer[w] != value);
            assert(false);
        }
        0
    }
}

/// Part one: insert `1..=2017` and read the value right after 2017.
pub fn part1(step: usize) -> (r: usize)
    requires
        step + 4096 <= usize::MAX,
    ensures
        ({
            let b = spin_state(step as nat, YEAR as int).buffer;
            r == b[(first_pos(b, YEAR) + 1) % (b.len() as int)]
        }),
{
    let mut spinlock = Spinlock::new(step);
    let mut i: usize = 1;
    while i <= YEAR
        invariant
            step + 4096 <= usize::MAX,
            1 <= i <= YEAR + 1,
            spinlock.wf(),
            spinlock@ == spin_state(step as nat, i - 1),
            spinlock@.buffer.len() == i,
            spinlock@.step == step,
        decreases YEAR + 1 - i,
    {
        spinlock.insert(i);
        i = i + 1;
    }
    proof {
        let st = spin_state(step as nat, YEAR as int);
        let prev = spin_state(step as nat, YEAR as int - 1);
        assert(st == spin_step(prev, YEAR));
        assert(st.buffer.len() == prev.buffer.len() + 1);
        vstd::arithmetic::div_mod::lemma_mod_bound(
            (prev.position + prev.step) as int,
            prev.buffer.len() as int,
        );
        assert(st.buffer[st.position as int] == YEAR);
        assert(st.buffer.contains(YEAR)) by {
            assert(st.buffer[st.position as int] == YEAR);
        }
    }
    spinlock.value_after(YEAR)
}

/// Part two: simulate fifty million insertions, tracking only the cursor and
/// the value at slot one, and report what ends up right after 0.
pub fn part2(step: usize) -> (r: usize)
    requires
        step + TOTAL_INSERTS <= usize::MAX,
    ensures
        r == after_zero_state(step as nat, TOTAL_INSERTS - 1).1,
{
    let mut position: usize = 0;
    let mut value: usize = 0;
    let mut i: usize = 1;
    while i < TOTAL_INSERTS
        invariant
            step + TOTAL_INSERTS <= usize::MAX,
            1 <= i <= TOTAL_INSERTS,
            position <= i,
            (position as int, value) == after_zero_state(step as nat, i - 1),
        decreases TOTAL_INSERTS - i,
    {
        position = (position + step) % i + 1;
        if position == 1 {
            value = i;
        }
        i = i + 1;
    }
    value
}

impl Instance {
    /// Solves both parts for the step size on the first line.
    pub fn run(&self, lines: Vec<String>) -> (r: Result<DayResult, String>)
        ensures
            r is Ok <==> (lines@.len() > 0 && lines@[0]@.len() > 0 && all_digits(lines@[0]@)
                && dec_val(lines@[0]@) + TOTAL_INSERTS <= usize::MAX),
            r is Ok ==> ({
                let step = dec_val(lines@[0]@) as usize as nat;
                let b = spin_state(step, YEAR as int).buffer;
                &&& r->Ok_0.part1@ == dec_str(
                    b[(first_pos(b, YEAR) + 1) % (b.len() as int)] as nat,
                )
                &&& r->Ok_0.part2 == Some(r->Ok_0.part2->0)
                &&& r->Ok_0.part2->0@ == dec_str(
                    after_zero_state(step, TOTAL_INSERTS - 1).1 as nat,
                )
            }),
    {
        if lines.len() == 0 {
            return Err(String::from_str("empty lines"));
        }
        let step: usize = match parse_usize(lines[0].as_str()) {
            Some(v) => v,
            None => {
                return Err(String::from_str("failed to parse step"));
            },
        };
        if step > usize::MAX - TOTAL_INSERTS {
            return Err(String::from_str("step too large"));
        }
        let part1 = to_decimal(part1(step) as u64);
        let part2 = to_decimal(part2(step) as u64);
        Ok(DayResult { part1, part2: Some(part2) })
    }
}

} // verus!
