//! A register machine of conditional increments: each instruction bumps one
//! register if a comparison on another holds, and the solver reports the
//! largest final register and the largest value any register held.

use vstd::prelude::*;

verus! {

use vstd::utf8::is_ascii_chars;
use crate::day::DayResult;
use crate::text::int_str;
use crate::text::int_to_decimal;
use crate::text::is_signed_literal;
use crate::text::parse_i32;
use crate::text::signed_val;
use crate::text::words_of;
use crate::text::words_str;

pub struct Instance;

/// The largest instruction count the machine accepts; keeps every register
/// inside the machine's integers.
pub const INSTR_CAP: usize = 0x4000_0000;

/// A comparison operator.
#[derive(PartialEq, Eq, Structural, Debug, Clone, Copy)]
pub enum Cond {
    Gt,
    Lt,
    Gte,
    Lte,
    Eq,
    Neq,
}

/// What a comparison means.
pub open spec fn eval_cond(c: Cond, x: int, y: int) -> bool {
    match c {
        Cond::Gt => x > y,
        Cond::Lt => x < y,
        Cond::Gte => x >= y,
        Cond::Lte => x <= y,
        Cond::Eq => x == y,
        Cond::Neq => x != y,
    }
}

/// One parsed instruction.
#[derive(Debug)]
pub struct Instruction {
    pub reg: String,
    pub inc: bool,
    pub amount: i64,
    pub cond_reg: String,
    pub cond_type: Cond,
    pub cond_amount: i64,
}

impl PartialEq for Instruction {
    fn eq(&self, other: &Instruction) -> (r: bool) {
        self.reg == other.reg && self.inc == other.inc && self.amount == other.amount
            && self.cond_reg == other.cond_reg && self.cond_type == other.cond_type
            && self.cond_amount == other.cond_amount
    }
}

impl vstd::std_specs::cmp::PartialEqSpecImpl for Instruction {
    open spec fn obeys_eq_spec() -> bool {
        true
    }

    open spec fn eq_spec(&self, other: &Instruction) -> bool {
        self.reg@ == other.reg@ && self.inc == other.inc && self.amount == other.amount
            && self.cond_reg@ == other.cond_reg@ && self.cond_type == other.cond_type
            && self.cond_amount == other.cond_amount
    }
}

/// The mathematical shape of an instruction.
#[verifier::ext_equal]
pub ghost struct InstrView {
    pub reg: Seq<char>,
    pub inc: bool,
    pub amount: int,
    pub cond_reg: Seq<char>,
    pub cond_type: Cond,
    pub cond_amount: int,
}

impl View for Instruction {
    type V = InstrView;

    open spec fn view(&self) -> InstrView {
        InstrView {
            reg: self.reg@,
            inc: self.inc,
            amount: self.amount as int,
            cond_reg: self.cond_reg@,
            cond_type: self.cond_type,
            cond_amount: self.cond_amount as int,
        }
    }
}

/// The register file as an association list of names and values; absent
/// registers read as zero.
pub open spec fn reg_get(s: Seq<(Seq<char>, int)>, name: Seq<char>) -> int
    decreases s.len(),
{
    if s.len() == 0 {
        0
    } else if s[0].0 == name {
        s[0].1
    } else {
        reg_get(s.drop_first(), name)
    }
}

/// The first index holding `name`; the length when absent.
pub open spec fn reg_idx(s: Seq<(Seq<char>, int)>, name: Seq<char>) -> int
    decreases s.len(),
{
    if s.len() == 0 {
        0
    } else if s[0].0 == name {
        0
    } else {
        1 + reg_idx(s.drop_first(), name)
    }
}

/// Writing a register: replace its first entry, or append a new one.
pub open spec fn reg_set(s: Seq<(Seq<char>, int)>, name: Seq<char>, v: int) -> Seq<
    (Seq<char>, int),
> {
    let k = reg_idx(s, name);
    if k < s.len() {
        s.update(k, (name, v))
    } else {
        s.push((name, v))
    }
}

/// `reg_idx` finds the first entry of the name.
proof fn lemma_reg_idx(s: Seq<(Seq<char>, int)>, name: Seq<char>)
    ensures
        0 <= reg_idx(s, name) <= s.len(),
        reg_idx(s, name) < s.len() ==> s[reg_idx(s, name)].0 == name,
        forall|i: int| 0 <= i < reg_idx(s, name) ==> (#[trigger] s[i]).0 != name,
    decreases s.len(),
{
    if s.len() > 0 && s[0].0 != name {
        lemma_reg_idx(s.drop_first(), name);
        assert forall|i: int| 0 <= i < reg_idx(s, name) implies (#[trigger] s[i]).0 != name by {
            if i > 0 {
                assert(s[i] == s.drop_first()[i - 1]);
            }
        }
    }
}

/// `reg_get` reads the entry `reg_idx` points at, or zero.
proof fn lemma_reg_get_idx(s: Seq<(Seq<char>, int)>, name: Seq<char>)
    ensures
        reg_idx(s, name) < s.len() ==> reg_get(s, name) == s[reg_idx(s, name)].1,
        reg_idx(s, name) >= s.len() ==> reg_get(s, name) == 0,
    decreases s.len(),
{
    lemma_reg_idx(s, name);
    if s.len() > 0 && s[0].0 != name {
        lemma_reg_get_idx(s.drop_first(), name);
    }
}

/// One machine step: registers and the highest value seen so far.
pub open spec fn step8(regs: Seq<(Seq<char>, int)>, max_ever: int, i: InstrView) -> (
    Seq<(Seq<char>, int)>,
    int,
) {
    let cur = reg_get(regs, i.reg);
    let cv = reg_get(regs, i.cond_reg);
    if eval_cond(i.cond_type, cv, i.cond_amount) {
        let nv = if i.inc {
            cur + i.amount
        } else {
            cur - i.amount
        };
        (reg_set(regs, i.reg, nv), if cur > max_ever {
            cur
        } else {
            max_ever
        })
    } else {
        (regs, max_ever)
    }
}

/// The machine after the first `k` instructions, starting from an empty
/// register file and the smallest 32-bit value as the high-water mark.
pub open spec fn run8(insts: Seq<InstrView>, k: int) -> (Seq<(Seq<char>, int)>, int)
    decreases k,
{
    if k <= 0 {
        (Seq::empty(), i32::MIN as int)
    } else {
        let (regs, max_ever) = run8(insts, k - 1);
        step8(regs, max_ever, insts[k - 1])
    }
}

/// The largest value among the first `i` registers; zero when there are
/// none.
pub open spec fn regs_max(s: Seq<(Seq<char>, int)>, i: int) -> int
    decreases i,
{
    if i <= 0 {
        0
    } else if i == 1 {
        s[0].1
    } else {
        let m = regs_max(s, i - 1);
        if s[i - 1].1 > m {
            s[i - 1].1
        } else {
            m
        }
    }
}

/// The register machine.
pub struct Computer {
    registers: Vec<(String, i64)>,
    pub max_ever: i64,
}

impl View for Computer {
    type V = (Seq<(Seq<char>, int)>, int);

    closed spec fn view(&self) -> (Seq<(Seq<char>, int)>, int) {
        (
            self.registers@.map_values(|e: (String, i64)| (e.0@, e.1 as int)),
            self.max_ever as int,
        )
    }
}

impl Computer {
    /// A machine with no registers and the smallest 32-bit high-water mark.
    pub fn new() -> (r: Computer)
        ensures
            r@.0 == Seq::<(Seq<char>, int)>::empty(),
            r@.1 == i32::MIN as int,
    {
        let r = Computer { registers: Vec::new(), max_ever: i32::MIN as i64 };
        proof {
            assert(r@.0 =~= Seq::<(Seq<char>, int)>::empty());
        }
        r
    }

    /// The value of a register; zero when it was never written.
    pub fn get_reg(&self, reg: &str) -> (r: i64)
        ensures
            r as int == reg_get(self@.0, reg@),
    {
        proof {
            lemma_reg_idx(self@.0, reg@);
            lemma_reg_get_idx(self@.0, reg@);
        }
        let n: usize = self.registers.len();
        let mut i: usize = 0;
        while i < n
            invariant
                n == self@.0.len(),
                n == self.registers@.len(),
                self@.0 == self.registers@.map_values(|e: (String, i64)| (e.0@, e.1 as int)),
                i <= n,
                forall|k: int| 0 <= k < i ==> (#[trigger] self@.0[k]).0 != reg@,
                0 <= reg_idx(self@.0, reg@) <= n,
                reg_idx(self@.0, reg@) < n ==> self@.0[reg_idx(self@.0, reg@)].0 == reg@
                    && reg_get(self@.0, reg@) == self@.0[reg_idx(self@.0, reg@)].1,
                reg_idx(self@.0, reg@) >= n ==> reg_get(self@.0, reg@) == 0,
                forall|k: int| 0 <= k < reg_idx(self@.0, reg@) ==> (#[trigger] self@.0[k]).0
                    != reg@,
            decreases n - i,
        {
            let eq: bool = str_eq(self.registers[i].0.as_str(), reg);
            if eq {
                proof {
                    assert(self@.0[i as int] == (
                        self.registers@[i as int].0@,
                        self.registers@[i as int].1 as int,
                    ));
                    assert(self@.0[i as int].0 == reg@);
                    assert(reg_idx(self@.0, reg@) == i);
                }
                return self.registers[i].1;
            }
            i = i + 1;
        }
        0
    }

    /// The largest value any register currently holds; zero with no
    /// registers.
    pub fn max_reg(&self) -> (r: i64)
        ensures
            r as int == regs_max(self@.0, self@.0.len() as int),
    {
        let n: usize = self.registers.len();
        if n == 0 {
            return 0;
        }
        let mut m: i64 = self.registers[0].1;
        let mut i: usize = 1;
        while i < n
            invariant
                n == self@.0.len(),
                n == self.registers@.len(),
                self@.0 == self.registers@.map_values(|e: (String, i64)| (e.0@, e.1 as int)),
                1 <= i <= n,
                m as int == regs_max(self@.0, i as int),
            decreases n - i,
        {
            if self.registers[i].1 > m {
                m = self.registers[i].1;
            }
            i = i + 1;
        }
        m
    }

    /// Writes a register: replaces its first entry or appends one.
    fn set_reg(&mut self, reg: &String, v: i64)
        ensures
            final(self)@.0 == reg_set(old(self)@.0, reg@, v as int),
            final(self)@.1 == old(self)@.1,
    {
        let ghost s = self@.0;
        proof {
            lemma_reg_idx(s, reg@);
        }
        let n: usize = self.registers.len();
        let mut i: usize = 0;
        while i < n
            invariant
                s == self@.0,
                s == old(self)@.0,
                self@.1 == old(self)@.1,
                n == s.len(),
                n == self.registers@.len(),
                self@.0 == self.registers@.map_values(|e: (String, i64)| (e.0@, e.1 as int)),
                i <= n,
                forall|k: int| 0 <= k < i ==> (#[trigger] s[k]).0 != reg@,
                0 <= reg_idx(s, reg@) <= n,
                reg_idx(s, reg@) < n ==> s[reg_idx(s, reg@)].0 == reg@,
                forall|k: int| 0 <= k < reg_idx(s, reg@) ==> (#[trigger] s[k]).0 != reg@,
            decreases n - i,
        {
            let eq: bool = str_eq(self.registers[i].0.as_str(), reg.as_str());
            if eq {
                proof {
                    assert(s[i as int] == (
                        self.registers@[i as int].0@,
                        self.registers@[i as int].1 as int,
                    ));
                    assert(s[i as int].0 == reg@);
                    assert(reg_idx(s, reg@) == i);
                }
                self.registers.set(i, (reg.clone(), v));
                proof {
                    assert(self@.0 =~= reg_set(s, reg@, v as int));
                }
                return ;
            }
            i = i + 1;
        }
        proof {
            assert(reg_idx(s, reg@) == s.len());
        }
        self.registers.push((reg.clone(), v));
        proof {
            assert(self@.0 =~= reg_set(s, reg@, v as int));
        }
    }

    /// Runs the instructions in order.
    pub fn run(&mut self, instructions: &Vec<Instruction>)
        requires
            old(self)@.0 == Seq::<(Seq<char>, int)>::empty(),
            old(self)@.1 == i32::MIN as int,
            instructions@.len() <= INSTR_CAP,
            forall|k: int|
                0 <= k < instructions@.len() ==> -0x8000_0000 <= (#[trigger] instructions@[k]@).amount
                    <= 0x7FFF_FFFF,
        ensures
            final(self)@ == run8(
                instructions@.map_values(|x: Instruction| x@),
                instructions@.len() as int,
            ),
    {
        let ghost ivs = instructions@.map_values(|x: Instruction| x@);
        let mut i: usize = 0;
        proof {
            assert(self@ =~= run8(ivs, 0));
            lemma_run8_bounded(ivs, 0);
        }
        while i < instructions.len()
            invariant
                ivs == instructions@.map_values(|x: Instruction| x@),
                ivs.len() <= INSTR_CAP,
                forall|k: int|
                    0 <= k < ivs.len() ==> -0x8000_0000 <= (#[trigger] ivs[k]).amount
                        <= 0x7FFF_FFFF,
                i <= ivs.len(),
                self@ == run8(ivs, i as int),
            decreases ivs.len() - i,
        {
            proof {
                lemma_run8_bounded(ivs, i as int);
                let regs = run8(ivs, i as int).0;
                lemma_reg_idx(regs, instructions@[i as int]@.reg);
                lemma_reg_get_idx(regs, instructions@[i as int]@.reg);
                vstd::arithmetic::mul::lemma_mul_inequality(
                    i as int,
                    INSTR_CAP as int,
                    0x8000_0000,
                );
            }
            let inst = &instructions[i];
            let reg_value: i64 = self.get_reg(inst.reg.as_str());
            proof {
                let regs = run8(ivs, i as int).0;
                let name = instructions@[i as int]@.reg;
                assert(reg_value as int == reg_get(regs, name));
                if reg_idx(regs, name) < regs.len() {
                    assert(regs[reg_idx(regs, name)].1 == reg_get(regs, name));
                    assert(-(i as int * 0x8000_0000) <= reg_value as int <= i as int
                        * 0x8000_0000);
                } else {
                    assert(reg_value == 0);
                }
                assert(-0x2000_0000_0000_0000 <= reg_value as int <= 0x2000_0000_0000_0000);
                assert(ivs[i as int] == instructions@[i as int]@);
                assert(-0x8000_0000 <= instructions@[i as int]@.amount <= 0x7FFF_FFFF);
            }
            let cond_reg_value: i64 = self.get_reg(inst.cond_reg.as_str());
            let passes: bool = match inst.cond_type {
                Cond::Gt => cond_reg_value > inst.cond_amount,
                Cond::Lt => cond_reg_value < inst.cond_amount,
                Cond::Gte => cond_reg_value >= inst.cond_amount,
                Cond::Lte => cond_reg_value <= inst.cond_amount,
                Cond::Eq => cond_reg_value == inst.cond_amount,
                Cond::Neq => cond_reg_value != inst.cond_amount,
            };
            if passes {
                let new_amount: i64 = if inst.inc {
                    reg_value + inst.amount
                } else {
                    reg_value - inst.amount
                };
                if reg_value > self.max_ever {
                    self.max_ever = reg_value;
                }
                self.set_reg(&inst.reg, new_amount);
            }
            proof {
                assert(ivs[i as int] == instructions@[i as int]@);
                assert(self@ =~= run8(ivs, i + 1));
            }
            i = i + 1;
        }
    }
}

/// Every register and the high-water mark stay within `k + 1` amounts of
/// zero.
proof fn lemma_run8_bounded(insts: Seq<InstrView>, k: int)
    requires
        forall|j: int|
            0 <= j < insts.len() ==> -0x8000_0000 <= (#[trigger] insts[j]).amount <= 0x7FFF_FFFF,
        0 <= k <= insts.len(),
    ensures
        forall|j: int|
            0 <= j < run8(insts, k).0.len() ==> -(k * 0x8000_0000) <= (#[trigger] run8(
                insts,
                k,
            ).0[j]).1 <= k * 0x8000_0000,
        i32::MIN <= run8(insts, k).1 <= k * 0x8000_0000,
    decreases k,
{
    if k == 0 {
    } else {
        lemma_run8_bounded(insts, k - 1);
        let (regs, max_ever) = run8(insts, k - 1);
        let iv = insts[k - 1];
        lemma_reg_idx(regs, iv.reg);
        lemma_reg_get_idx(regs, iv.reg);
        assert((k - 1) * 0x8000_0000 + 0x8000_0000 == k * 0x8000_0000) by (nonlinear_arith);
        assert(k * 0x8000_0000 >= (k - 1) * 0x8000_0000) by (nonlinear_arith);
    }
}

/// Character-wise string equality.
fn str_eq(a: &str, b: &str) -> (r: bool)
    ensures
        r == (a@ == b@),
{
    let n: usize = a.unicode_len();
    let m: usize = b.unicode_len();
    if n != m {
        return false;
    }
    let mut i: usize = 0;
    while i < n
        invariant
            n == a@.len(),
            n == b@.len(),
            i <= n,
            forall|k: int| 0 <= k < i ==> a@[k] == b@[k],
        decreases n - i,
    {
        if a.get_char(i) != b.get_char(i) {
            return false;
        }
        i = i + 1;
    }
    proof {
        assert(a@ =~= b@);
    }
    true
}

/// The operator a token names, if any.
pub open spec fn cond_of(s: Seq<char>) -> Option<Cond> {
    if s == seq!['>'] {
        Some(Cond::Gt)
    } else if s == seq!['<'] {
        Some(Cond::Lt)
    } else if s == seq!['>', '='] {
        Some(Cond::Gte)
    } else if s == seq!['<', '='] {
        Some(Cond::Lte)
    } else if s == seq!['=', '='] {
        Some(Cond::Eq)
    } else if s == seq!['!', '='] {
        Some(Cond::Neq)
    } else {
        None
    }
}

/// Reads one comparison operator token.
fn parse_cond(s: &str) -> (r: Option<Cond>)
    ensures
        r == cond_of(s@),
{
    let n: usize = s.unicode_len();
    if n == 1 {
        let c: char = s.get_char(0);
        if c == '>' {
            proof {
                assert(s@ =~= seq!['>']);
            }
            return Some(Cond::Gt);
        }
        if c == '<' {
            proof {
                assert(s@ =~= seq!['<']);
                assert(s@ != seq!['>']);
            }
            return Some(Cond::Lt);
        }
        proof {
            lemma_not_cond(s@);
        }
        return None;
    }
    if n == 2 {
        let c0: char = s.get_char(0);
        let c1: char = s.get_char(1);
        if c1 == '=' {
            if c0 == '>' {
                proof {
                    assert(s@ =~= seq!['>', '=']);
                    assert(s@ != seq!['>']);
                    assert(s@ != seq!['<']);
                }
                return Some(Cond::Gte);
            }
            if c0 == '<' {
                proof {
                    assert(s@ =~= seq!['<', '=']);
                    assert(s@ != seq!['>']);
                    assert(s@ != seq!['<']);
                    assert(s@ != seq!['>', '=']);
                }
                return Some(Cond::Lte);
            }
            if c0 == '=' {
                proof {
                    assert(s@ =~= seq!['=', '=']);
                    assert(s@ != seq!['>']);
                    assert(s@ != seq!['<']);
                    assert(s@ != seq!['>', '=']);
                    assert(s@ != seq!['<', '=']);
                }
                return Some(Cond::Eq);
            }
            if c0 == '!' {
                proof {
                    assert(s@ =~= seq!['!', '=']);
                    assert(s@ != seq!['>']);
                    assert(s@ != seq!['<']);
                    assert(s@ != seq!['>', '=']);
                    assert(s@ != seq!['<', '=']);
                    assert(s@ != seq!['=', '=']);
                }
                return Some(Cond::Neq);
            }
        }
        proof {
            lemma_not_cond(s@);
        }
        return None;
    }
    proof {
        lemma_not_cond(s@);
    }
    None
}

/// A token that matches no operator shape names no operator.
proof fn lemma_not_cond(s: Seq<char>)
    requires
        s != seq!['>'],
        s != seq!['<'],
        s != seq!['>', '='],
        s != seq!['<', '='],
        s != seq!['=', '='],
        s != seq!['!', '='],
    ensures
        cond_of(s) is None,
{
}

/// The instruction one line describes: register, `inc` or anything else for
/// a decrement, a signed amount, a register to test, an operator, and a
/// signed bound. The fourth word is filler and is not inspected.
pub open spec fn instr_of_line(l: Seq<char>) -> Option<InstrView> {
    let ws = words_of(l);
    if ws.len() == 7 && is_signed_literal(ws[2]) && i32::MIN <= signed_val(ws[2]) <= i32::MAX
        && cond_of(ws[5]) is Some && is_signed_literal(ws[6]) && i32::MIN <= signed_val(ws[6])
        <= i32::MAX {
        Some(
            InstrView {
                reg: ws[0],
                inc: ws[1] == seq!['i', 'n', 'c'],
                amount: signed_val(ws[2]),
                cond_reg: ws[4],
                cond_type: cond_of(ws[5])->0,
                cond_amount: signed_val(ws[6]),
            },
        )
    } else {
        None
    }
}

/// Reads one instruction line.
pub fn parse_instruction(line: &str) -> (r: Result<Instruction, String>)
    ensures
        r is Ok <==> (is_ascii_chars(line@) && instr_of_line(line@) is Some),
        r is Ok ==> instr_of_line(line@) == Some(r->Ok_0@),
{
    if !line.is_ascii() {
        return Err(String::from_str("line is not ascii"));
    }
    let words = words_str(line);
    let ghost ws = words_of(line@);
    if words.len() != 7 {
        return Err(String::from_str("expected seven words"));
    }
    let amount: i32 = match parse_i32(words[2].as_str()) {
        Some(v) => v,
        None => {
            return Err(String::from_str("failed to parse amount"));
        },
    };
    let cond_type: Cond = match parse_cond(words[5].as_str()) {
        Some(c) => c,
        None => {
            return Err(String::from_str("unknown condition"));
        },
    };
    let cond_amount: i32 = match parse_i32(words[6].as_str()) {
        Some(v) => v,
        None => {
            return Err(String::from_str("failed to parse amount"));
        },
    };
    let inc: bool = str_eq(words[1].as_str(), "inc");
    proof {
        reveal_strlit("inc");
        assert("inc"@ =~= seq!['i', 'n', 'c']);
    }
    let r = Instruction {
        reg: words[0].clone(),
        inc,
        amount: amount as i64,
        cond_reg: words[4].clone(),
        cond_type,
        cond_amount: cond_amount as i64,
    };
    proof {
        assert(r@ =~= instr_of_line(line@)->0);
    }
    Ok(r)
}

/// Whether every line parses to an instruction.
pub open spec fn program_parses(lines: Seq<String>) -> bool {
    forall|i: int|
        0 <= i < lines.len() ==> is_ascii_chars(#[trigger] lines[i]@) && instr_of_line(lines[i]@)
            is Some
}

/// The parsed program.
pub open spec fn program_of(lines: Seq<String>) -> Seq<InstrView> {
    lines.map_values(|l: String| instr_of_line(l@)->0)
}

impl Instance {
    /// Solves both parts: the largest register after the program runs, and
    /// the largest value any register ever held before an update.
    pub fn run(&self, input: Vec<String>) -> (r: Result<DayResult, String>)
        ensures
            r is Ok <==> (program_parses(input@) && input@.len() <= INSTR_CAP),
            r is Ok ==> ({
                let (regs, max_ever) = run8(program_of(input@), input@.len() as int);
                &&& r->Ok_0.part1@ == int_str(regs_max(regs, regs.len() as int))
                &&& r->Ok_0.part2 == Some(r->Ok_0.part2->0)
                &&& r->Ok_0.part2->0@ == int_str(max_ever)
            }),
    {
        if input.len() > INSTR_CAP {
            return Err(String::from_str("too many instructions"));
        }
        let mut parsed: Vec<Instruction> = Vec::new();
        let mut i: usize = 0;
        while i < input.len()
            invariant
                input@.len() <= INSTR_CAP,
                i <= input@.len(),
                parsed@.len() == i,
                forall|k: int|
                    0 <= k < i ==> is_ascii_chars(#[trigger] input@[k]@) && instr_of_line(
                        input@[k]@,
                    ) is Some,
                forall|k: int| 0 <= k < i ==> Some(#[trigger] parsed@[k]@) == instr_of_line(
                    input@[k]@,
                ),
                forall|k: int|
                    0 <= k < i ==> -0x8000_0000 <= (#[trigger] parsed@[k]@).amount <= 0x7FFF_FFFF,
            decreases input@.len() - i,
        {
            let inst = match parse_instruction(input[i].as_str()) {
                Ok(v) => v,
                Err(e) => {
                    return Err(e);
                },
            };
            parsed.push(inst);
            i = i + 1;
        }
        proof {
            assert(parsed@.map_values(|x: Instruction| x@) =~= program_of(input@));
        }
        let mut computer = Computer::new();
        computer.run(&parsed);
        let part1: i64 = computer.max_reg();
        let part2: i64 = computer.max_ever;
        proof {
            assert(computer@.1 == run8(program_of(input@), input@.len() as int).1);
        }
        Ok(DayResult {
            part1: int_to_decimal(part1),
            part2: Some(int_to_decimal(part2)),
        })
    }
}

} // verus!
