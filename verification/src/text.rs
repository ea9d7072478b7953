//! Verified text utilities shared by the puzzle solvers: decimal parsing and
//! formatting, and splitting lines into fields.

use vstd::prelude::*;

verus! {

/// Whether `c` is one of the ten ASCII decimal digits.
pub open spec fn is_digit(c: char) -> bool {
    48 <= c as int <= 57
}

/// The numeric value of a decimal digit character.
pub open spec fn digit_of(c: char) -> int {
    c as int - 48
}

/// Whether every character of `s` is a decimal digit.
pub open spec fn all_digits(s: Seq<char>) -> bool {
    forall|i: int| 0 <= i < s.len() ==> is_digit(#[trigger] s[i])
}

/// The value of a digit string read in base ten, most significant digit
/// first. Zero for the empty string.
pub open spec fn dec_val(s: Seq<char>) -> int
    decreases s.len(),
{
    if s.len() == 0 {
        0
    } else {
        10 * dec_val(s.drop_last()) + digit_of(s.last())
    }
}

/// A digit string's value is never negative.
pub proof fn lemma_dec_val_nonneg(s: Seq<char>)
    requires
        all_digits(s),
    ensures
        dec_val(s) >= 0,
    decreases s.len(),
{
    if s.len() > 0 {
        assert(all_digits(s.drop_last()));
        lemma_dec_val_nonneg(s.drop_last());
    }
}

/// Reading more digits never shrinks the value: every prefix of a digit
/// string is worth at most the whole string.
proof fn lemma_dec_val_prefix(s: Seq<char>, i: int)
    requires
        all_digits(s),
        0 <= i <= s.len(),
    ensures
        dec_val(s.take(i)) <= dec_val(s),
    decreases s.len() - i,
{
    if i < s.len() {
        lemma_dec_val_prefix(s, i + 1);
        assert(s.take(i + 1).drop_last() =~= s.take(i));
        assert(all_digits(s.take(i)));
        lemma_dec_val_nonneg(s.take(i));
        assert(dec_val(s.take(i + 1)) == 10 * dec_val(s.take(i)) + digit_of(s.take(i + 1).last()));
        assert(is_digit(s[i]));
    } else {
        assert(s.take(i) =~= s);
    }
}

/// Parses a base-ten `u64`, accepting exactly the non-empty all-digit
/// strings whose value fits.
pub fn parse_u64(s: &str) -> (r: Option<u64>)
    ensures
        r is Some <==> (s@.len() > 0 && all_digits(s@) && dec_val(s@) <= u64::MAX),
        r is Some ==> r->0 == dec_val(s@),
{
    let n: usize = s.unicode_len();
    if n == 0 {
        return None;
    }
    let mut acc: u64 = 0;
    let mut i: usize = 0;
    while i < n
        invariant
            n == s@.len(),
            i <= n,
            all_digits(s@.take(i as int)),
            acc == dec_val(s@.take(i as int)),
        decreases n - i,
    {
        let c: char = s.get_char(i);
        let d: u32 = c as u32;
        if d < 48 || d > 57 {
            assert(!is_digit(s@[i as int]));
            return None;
        }
        let dv: u64 = (d - 48) as u64;
        proof {
            assert(s@.take(i + 1).drop_last() =~= s@.take(i as int));
            assert(s@.take(i + 1).last() == s@[i as int]);
        }
        if acc > (u64::MAX - dv) / 10 {
            proof {
                vstd::arithmetic::div_mod::lemma_fundamental_div_mod(
                    (u64::MAX - dv) as int,
                    10,
                );
                assert(dec_val(s@.take(i + 1)) > u64::MAX);
                if all_digits(s@) {
                    lemma_dec_val_prefix(s@, i + 1);
                }
            }
            return None;
        }
        proof {
            vstd::arithmetic::div_mod::lemma_fundamental_div_mod((u64::MAX - dv) as int, 10);
        }
        acc = acc * 10 + dv;
        i = i + 1;
    }
    proof {
        assert(s@.take(n as int) =~= s@);
    }
    Some(acc)
}

/// Parses a base-ten `u32`, accepting exactly the non-empty all-digit
/// strings whose value fits.
pub fn parse_u32(s: &str) -> (r: Option<u32>)
    ensures
        r is Some <==> (s@.len() > 0 && all_digits(s@) && dec_val(s@) <= u32::MAX),
        r is Some ==> r->0 == dec_val(s@),
{
    match parse_u64(s) {
        None => None,
        Some(v) => {
            if v > u32::MAX as u64 {
                None
            } else {
                Some(v as u32)
            }
        },
    }
}

/// Parses a base-ten `usize`, accepting exactly the non-empty all-digit
/// strings whose value fits.
pub fn parse_usize(s: &str) -> (r: Option<usize>)
    ensures
        r is Some <==> (s@.len() > 0 && all_digits(s@) && dec_val(s@) <= usize::MAX),
        r is Some ==> r->0 == dec_val(s@),
{
    match parse_u64(s) {
        None => None,
        Some(v) => {
            if v > usize::MAX as u64 {
                None
            } else {
                Some(v as usize)
            }
        },
    }
}

/// Whether `s` is a well-formed signed decimal literal: an optional `-` or
/// `+` sign followed by at least one digit.
pub open spec fn is_signed_literal(s: Seq<char>) -> bool {
    if s.len() > 0 && (s[0] == '-' || s[0] == '+') {
        s.len() > 1 && all_digits(s.drop_first())
    } else {
        s.len() > 0 && all_digits(s)
    }
}

/// The value of a signed decimal literal.
pub open spec fn signed_val(s: Seq<char>) -> int {
    if s.len() > 0 && s[0] == '-' {
        -dec_val(s.drop_first())
    } else if s.len() > 0 && s[0] == '+' {
        dec_val(s.drop_first())
    } else {
        dec_val(s)
    }
}

/// Parses a base-ten `i64` with an optional sign, accepting exactly the
/// well-formed literals whose value fits.
pub fn parse_i64(s: &str) -> (r: Option<i64>)
    ensures
        r is Some <==> (is_signed_literal(s@) && i64::MIN <= signed_val(s@) <= i64::MAX),
        r is Some ==> r->0 == signed_val(s@),
{
    let n: usize = s.unicode_len();
    if n == 0 {
        return None;
    }
    let c0: char = s.get_char(0);
    if c0 == '-' {
        let rest: &str = s.substring_char(1, n);
        proof {
            assert(rest@ =~= s@.drop_first());
        }
        match parse_u64(rest) {
            None => None,
            Some(mag) => {
                if mag <= i64::MAX as u64 {
                    Some(-(mag as i64))
                } else if mag == i64::MAX as u64 + 1 {
                    Some(i64::MIN)
                } else {
                    None
                }
            },
        }
    } else if c0 == '+' {
        let rest: &str = s.substring_char(1, n);
        proof {
            assert(rest@ =~= s@.drop_first());
        }
        match parse_u64(rest) {
            None => None,
            Some(mag) => {
                if mag <= i64::MAX as u64 {
                    Some(mag as i64)
                } else {
                    None
                }
            },
        }
    } else {
        match parse_u64(s) {
            None => None,
            Some(mag) => {
                if mag <= i64::MAX as u64 {
                    Some(mag as i64)
                } else {
                    None
                }
            },
        }
    }
}

/// Parses a base-ten `i32` with an optional sign, accepting exactly the
/// well-formed literals whose value fits.
pub fn parse_i32(s: &str) -> (r: Option<i32>)
    ensures
        r is Some <==> (is_signed_literal(s@) && i32::MIN <= signed_val(s@) <= i32::MAX),
        r is Some ==> r->0 == signed_val(s@),
{
    match parse_i64(s) {
        None => None,
        Some(v) => {
            if v < i32::MIN as i64 || v > i32::MAX as i64 {
                None
            } else {
                Some(v as i32)
            }
        },
    }
}

/// The character for a decimal digit value.
pub open spec fn digit_char(d: int) -> char {
    ((48 + d) as u8) as char
}

/// The lowercase hex digit character for a value below sixteen; agrees with
/// [`digit_char`] below ten.
pub open spec fn hex_digit(v: int) -> char {
    if v < 10 {
        digit_char(v)
    } else {
        ((87 + v) as u8) as char
    }
}

/// The one-character string holding the lowercase hex digit of a value below
/// sixteen.
pub(crate) fn hex_str(v: u8) -> (r: &'static str)
    requires
        v < 16,
    ensures
        r@.len() == 1,
        r@[0] == hex_digit(v as int),
{
    match v {
        0 => {
            proof {
                reveal_strlit("0");
            }
            "0"
        },
        1 => {
            proof {
                reveal_strlit("1");
            }
            "1"
        },
        2 => {
            proof {
                reveal_strlit("2");
            }
            "2"
        },
        3 => {
            proof {
                reveal_strlit("3");
            }
            "3"
        },
        4 => {
            proof {
                reveal_strlit("4");
            }
            "4"
        },
        5 => {
            proof {
                reveal_strlit("5");
            }
            "5"
        },
        6 => {
            proof {
                reveal_strlit("6");
            }
            "6"
        },
        7 => {
            proof {
                reveal_strlit("7");
            }
            "7"
        },
        8 => {
            proof {
                reveal_strlit("8");
            }
            "8"
        },
        9 => {
            proof {
                reveal_strlit("9");
            }
            "9"
        },
        10 => {
            proof {
                reveal_strlit("a");
            }
            "a"
        },
        11 => {
            proof {
                reveal_strlit("b");
            }
            "b"
        },
        12 => {
            proof {
                reveal_strlit("c");
            }
            "c"
        },
        13 => {
            proof {
                reveal_strlit("d");
            }
            "d"
        },
        14 => {
            proof {
                reveal_strlit("e");
            }
            "e"
        },
        _ => {
            proof {
                reveal_strlit("f");
            }
            "f"
        },
    }
}

/// The base-ten rendering of `n`, most significant digit first, no sign and
/// no leading zeros (`0` itself is the single digit `0`).
pub open spec fn dec_str(n: nat) -> Seq<char>
    decreases n,
{
    if n < 10 {
        seq![digit_char(n as int)]
    } else {
        dec_str(n / 10).push(digit_char((n % 10) as int))
    }
}

/// The base-ten rendering of a signed value: a `-` sign before the digits
/// when negative.
pub open spec fn int_str(n: int) -> Seq<char> {
    if n < 0 {
        seq!['-'] + dec_str((-n) as nat)
    } else {
        dec_str(n as nat)
    }
}

/// Renders `n` in base ten.
pub fn to_decimal(n: u64) -> (r: String)
    ensures
        r@ == dec_str(n as nat),
    decreases n,
{
    if n < 10 {
        let r = String::from_str(hex_str(n as u8));
        proof {
            assert(r@ =~= dec_str(n as nat));
        }
        r
    } else {
        let mut s = to_decimal(n / 10);
        s.append(hex_str((n % 10) as u8));
        proof {
            assert(s@ =~= dec_str(n as nat));
        }
        s
    }
}

/// Renders a signed value in base ten.
pub fn int_to_decimal(n: i64) -> (r: String)
    ensures
        r@ == int_str(n as int),
{
    if n >= 0 {
        to_decimal(n as u64)
    } else {
        let mag: u64 = if n == i64::MIN {
            9223372036854775808u64
        } else {
            (-n) as u64
        };
        proof {
            reveal_strlit("-");
        }
        let mut s = String::from_str("-");
        let digits = to_decimal(mag);
        s.append(digits.as_str());
        proof {
            assert(s@ =~= int_str(n as int));
        }
        s
    }
}

/// `s` split at every occurrence of `sep`, in order; adjacent separators and
/// separators at either end yield empty fields, and the empty string yields
/// one empty field.
pub open spec fn split_chars(s: Seq<char>, sep: char) -> Seq<Seq<char>>
    decreases s.len(),
{
    if s.len() == 0 {
        seq![Seq::<char>::empty()]
    } else if s[0] == sep {
        seq![Seq::<char>::empty()] + split_chars(s.drop_first(), sep)
    } else {
        let rest = split_chars(s.drop_first(), sep);
        seq![seq![s[0]] + rest[0]] + rest.drop_first()
    }
}

/// A split always has at least one field.
proof fn lemma_split_chars_len(s: Seq<char>, sep: char)
    ensures
        split_chars(s, sep).len() >= 1,
    decreases s.len(),
{
    if s.len() > 0 {
        lemma_split_chars_len(s.drop_first(), sep);
    }
}

/// A separator-free string is a single field.
proof fn lemma_split_chars_nosep(s: Seq<char>, sep: char)
    requires
        forall|i: int| 0 <= i < s.len() ==> s[i] != sep,
    ensures
        split_chars(s, sep) =~~= seq![s],
    decreases s.len(),
{
    if s.len() > 0 {
        lemma_split_chars_nosep(s.drop_first(), sep);
        assert(seq![s[0]] + s.drop_first() =~= s);
    }
}

/// Splitting at the first separator: the separator-free prefix is the first
/// field, and the rest of the split is the split of what follows the
/// separator.
proof fn lemma_split_chars_step(s: Seq<char>, sep: char, j: int)
    requires
        0 <= j < s.len(),
        s[j] == sep,
        forall|i: int| 0 <= i < j ==> s[i] != sep,
    ensures
        split_chars(s, sep) =~~= seq![s.take(j)] + split_chars(s.skip(j + 1), sep),
    decreases j,
{
    if j == 0 {
        assert(s.take(0) =~= Seq::<char>::empty());
        assert(s.skip(1) =~= s.drop_first());
    } else {
        let d = s.drop_first();
        lemma_split_chars_step(d, sep, j - 1);
        lemma_split_chars_len(d.skip(j), sep);
        assert(seq![s[0]] + d.take(j - 1) =~= s.take(j));
        assert(d.skip(j) =~= s.skip(j + 1));
    }
}

/// The fields of `s` split at every occurrence of `sep`, in order.
pub fn split_str(s: &str, sep: char) -> (r: Vec<String>)
    requires
        s.is_ascii(),
    ensures
        r@.len() == split_chars(s@, sep).len(),
        forall|k: int| 0 <= k < r@.len() ==> r@[k]@ == split_chars(s@, sep)[k],
{
    let n: usize = s.unicode_len();
    let mut r: Vec<String> = Vec::new();
    let mut start: usize = 0;
    let mut i: usize = 0;
    proof {
        assert(s@.skip(0) =~= s@);
        assert(r@.map_values(|x: String| x@) + split_chars(s@, sep) =~~= split_chars(s@, sep));
    }
    while i < n
        invariant
            s.is_ascii(),
            n == s@.len(),
            start <= i <= n,
            forall|k: int| start <= k < i ==> s@[k] != sep,
            r@.map_values(|x: String| x@) + split_chars(s@.skip(start as int), sep) =~~= split_chars(
                s@,
                sep,
            ),
        decreases n - i,
    {
        let c: char = s.get_char(i);
        if c == sep {
            let field: &str = s.substring_ascii(start, i);
            let ghost old_r = r@;
            r.push(String::from_str(field));
            proof {
                let t = s@.skip(start as int);
                lemma_split_chars_step(t, sep, i - start);
                assert(t.take(i - start) =~= s@.subrange(start as int, i as int));
                assert(t.skip(i - start + 1) =~= s@.skip(i + 1));
                assert(r@.map_values(|x: String| x@) =~= old_r.map_values(
                    |x: String| x@,
                ).push(field@));
            }
            start = i + 1;
        }
        i = i + 1;
    }
    let field: &str = s.substring_ascii(start, n);
    let ghost old_r = r@;
    r.push(String::from_str(field));
    proof {
        let t = s@.skip(start as int);
        lemma_split_chars_nosep(t, sep);
        assert(t =~= s@.subrange(start as int, n as int));
        assert(r@.map_values(|x: String| x@) =~= old_r.map_values(|x: String| x@).push(field@));
        assert(r@.map_values(|x: String| x@) =~~= split_chars(s@, sep));
    }
    r
}

/// The non-empty fields of `s` split at spaces, in order.
pub open spec fn words_of(s: Seq<char>) -> Seq<Seq<char>> {
    split_chars(s, ' ').filter(|w: Seq<char>| w.len() > 0)
}

/// The non-empty space-separated words of `s`, in order.
pub fn words_str(s: &str) -> (r: Vec<String>)
    requires
        s.is_ascii(),
    ensures
        r@.len() == words_of(s@).len(),
        forall|k: int| 0 <= k < r@.len() ==> r@[k]@ == words_of(s@)[k],
{
    let parts = split_str(s, ' ');
    let ghost all = split_chars(s@, ' ');
    let mut r: Vec<String> = Vec::new();
    let mut i: usize = 0;
    proof {
        assert(all.take(0) =~= Seq::<Seq<char>>::empty());
        reveal(Seq::filter);
    }
    while i < parts.len()
        invariant
            parts@.len() == all.len(),
            forall|k: int| 0 <= k < parts@.len() ==> parts@[k]@ == all[k],
            i <= parts@.len(),
            r@.map_values(|x: String| x@) =~~= all.take(i as int).filter(
                |w: Seq<char>| w.len() > 0,
            ),
        decreases parts@.len() - i,
    {
        let ghost old_r = r@;
        if !parts[i].as_str().is_empty() {
            let w = parts[i].clone();
            r.push(w);
        }
        proof {
            reveal(Seq::filter);
            assert(all.take(i + 1).drop_last() =~= all.take(i as int));
            assert(all.take(i + 1).last() == all[i as int]);
            if parts@[i as int]@.len() > 0 {
                assert(r@.map_values(|x: String| x@) =~= old_r.map_values(
                    |x: String| x@,
                ).push(parts@[i as int]@));
            }
        }
        i = i + 1;
    }
    proof {
        assert(all.take(parts@.len() as int) =~= all);
    }
    r
}

} // verus!
