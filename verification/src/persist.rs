//! The persisted value-table format.
//!
//! A trained table is written as plain text: a header line
//! `epsilon: <e>, alpha: <a>` recording the hyperparameters, then one line
//! per entry, `<board> <value>`, the board in its bracketed encoding and
//! each value as a decimal with six digits after the point. Loading rejects
//! any text that is not exactly of this shape.

use crate::codec::{decode, encode, spec_decode, spec_encode};
use crate::game::{Board, Cell, PlayerId};
use crate::player::RLPlayer;
use crate::table::ValueTable;
use crate::value::SCALE;
use vstd::arithmetic::div_mod::{lemma_div_denominator, lemma_fundamental_div_mod};
use vstd::prelude::*;
use vstd::slice::slice_subrange;

verus! {

broadcast use crate::game::lemma_board_view_len;

/// Errors from parsing a persisted table.
#[derive(Copy, Clone, PartialEq, Eq, Structural, Debug)]
pub enum ParseError {
    /// The first line is not `epsilon: <e>, alpha: <a>` with an epsilon in
    /// `[0, 1]` and an alpha in `(0, 1]`.
    BadHeader,
    /// An entry line is not `<board> <value>` with a value in `[0, 1]`.
    BadEntry,
}

/// Whether a byte is a decimal digit.
pub open spec fn is_digit(b: u8) -> bool {
    48 <= b <= 57
}

/// Whether every byte is a decimal digit.
pub open spec fn all_digits(t: Seq<u8>) -> bool {
    forall|i: int| 0 <= i < t.len() ==> is_digit(#[trigger] t[i])
}

/// The number a string of decimal digits stands for.
pub open spec fn digits_val(t: Seq<u8>) -> int
    decreases t.len(),
{
    if t.len() == 0 {
        0
    } else {
        digits_val(t.drop_last()) * 10 + (t.last() - 48)
    }
}

/// Ten to the `n`th power.
pub open spec fn pow10(n: int) -> int
    decreases n,
{
    if n <= 0 {
        1
    } else {
        10 * pow10(n - 1)
    }
}

/// The position of the first occurrence of `ch` at or after `i`, or -1.
pub open spec fn find(t: Seq<u8>, ch: u8, i: int) -> int
    recommends
        0 <= i <= t.len(),
    decreases t.len() - i,
{
    if i < 0 || i >= t.len() {
        -1
    } else if t[i] == ch {
        i
    } else {
        find(t, ch, i + 1)
    }
}

/// The byte standing for one decimal digit.
pub open spec fn digit_char(d: int) -> u8 {
    (48 + d) as u8
}

/// The canonical rendering of a fixed-point value in `[0, SCALE]`: the unit
/// digit, a point, and six fraction digits.
pub open spec fn spec_render_value(v: int) -> Seq<u8> {
    seq![
        digit_char(v / 1000000),
        46,
        digit_char((v / 100000) % 10),
        digit_char((v / 10000) % 10),
        digit_char((v / 1000) % 10),
        digit_char((v / 100) % 10),
        digit_char((v / 10) % 10),
        digit_char(v % 10),
    ]
}

/// The number a decimal token stands for, in millionths: digits, optionally
/// followed by a point and one to six fraction digits.
pub open spec fn spec_parse_value(t: Seq<u8>) -> Option<int> {
    let d = find(t, 46, 0);
    if d < 0 {
        if t.len() >= 1 && all_digits(t) {
            Some(digits_val(t) * (SCALE as int))
        } else {
            None
        }
    } else {
        let ip = t.subrange(0, d);
        let fp = t.subrange(d + 1, t.len() as int);
        if ip.len() >= 1 && 1 <= fp.len() <= 6 && all_digits(ip) && all_digits(fp) {
            Some(digits_val(ip) * (SCALE as int) + digits_val(fp) * pow10(6 - fp.len()))
        } else {
            None
        }
    }
}

/// Ten to any power is positive.
proof fn lemma_pow10_pos(n: int)
    ensures
        pow10(n) >= 1,
    decreases n,
{
    if n > 0 {
        lemma_pow10_pos(n - 1);
    }
}

/// Ten to a higher power is no smaller.
proof fn lemma_pow10_mono(a: int, b: int)
    requires
        a <= b,
    ensures
        pow10(a) <= pow10(b),
    decreases b - a,
{
    if a < b {
        lemma_pow10_mono(a, b - 1);
        lemma_pow10_pos(b - 1);
    }
}

/// Where `ch` first occurs at position `p`, the scan finds it.
proof fn lemma_find_from(t: Seq<u8>, ch: u8, i: int, p: int)
    requires
        0 <= i <= p < t.len(),
        t[p] == ch,
        forall|j: int| i <= j < p ==> t[j] != ch,
    ensures
        find(t, ch, i) == p,
    decreases p - i,
{
    if i < p {
        lemma_find_from(t, ch, i + 1, p);
    }
}

/// Where `ch` occurs nowhere at or after `i`, the scan finds nothing.
proof fn lemma_find_none(t: Seq<u8>, ch: u8, i: int)
    requires
        0 <= i,
        forall|j: int| i <= j < t.len() ==> t[j] != ch,
    ensures
        find(t, ch, i) == -1,
    decreases t.len() - i,
{
    if i < t.len() {
        lemma_find_none(t, ch, i + 1);
    }
}

/// A digit string's value is nonnegative and below ten to its length.
proof fn lemma_digits_val_bound(t: Seq<u8>)
    requires
        all_digits(t),
    ensures
        0 <= digits_val(t) < pow10(t.len() as int),
    decreases t.len(),
{
    if t.len() > 0 {
        assert(all_digits(t.drop_last())) by {
            assert(forall|i: int| 0 <= i < t.len() - 1 ==> t.drop_last()[i] == t[i]);
        }
        lemma_digits_val_bound(t.drop_last());
    }
}

/// A digit string that does not start with zero has a value of at least ten
/// to one less than its length.
proof fn lemma_digits_val_lower(t: Seq<u8>)
    requires
        all_digits(t),
        t.len() >= 1,
        t[0] != 48,
    ensures
        digits_val(t) >= pow10(t.len() - 1),
    decreases t.len(),
{
    if t.len() == 1 {
    } else {
        assert(all_digits(t.drop_last()) && t.drop_last()[0] == t[0]) by {
            assert(forall|i: int| 0 <= i < t.len() - 1 ==> t.drop_last()[i] == t[i]);
        }
        lemma_digits_val_lower(t.drop_last());
        assert(digits_val(t) >= digits_val(t.drop_last()) * 10);
    }
}

/// A leading zero does not change a digit string's value.
proof fn lemma_digits_leading_zero(t: Seq<u8>)
    requires
        t.len() >= 1,
        t[0] == 48,
    ensures
        digits_val(t) == digits_val(t.drop_first()),
    decreases t.len(),
{
    if t.len() == 1 {
        assert(t.drop_first() =~= Seq::<u8>::empty());
        assert(t.drop_last() =~= Seq::<u8>::empty());
        assert(digits_val(t) == digits_val(t.drop_last()) * 10 + (t.last() - 48));
        assert(t.last() == t[0]);
        assert(digits_val(t) == 0);
        assert(digits_val(t.drop_first()) == 0);
    } else {
        assert(t.drop_last()[0] == t[0]);
        lemma_digits_leading_zero(t.drop_last());
        assert(t.drop_last().drop_first() =~= t.drop_first().drop_last());
        assert(t.drop_first().last() == t.last());
        assert(t.drop_first().len() == t.len() - 1 >= 1);
        assert(digits_val(t.drop_last()) == digits_val(t.drop_last().drop_first()));
        assert(digits_val(t.drop_last().drop_first()) == digits_val(t.drop_first().drop_last()));
        assert(digits_val(t.drop_first()) == digits_val(t.drop_first().drop_last()) * 10 + (
        t.drop_first().last() - 48));
        assert(digits_val(t) == digits_val(t.drop_last()) * 10 + (t.last() - 48));
    }
}

/// The value of six explicit digit bytes.
proof fn lemma_digits_val6(a: u8, b: u8, c: u8, d: u8, e: u8, f: u8)
    ensures
        digits_val(seq![a, b, c, d, e, f]) == (((((a - 48) * 10 + (b - 48)) * 10 + (c - 48)) * 10
            + (d - 48)) * 10 + (e - 48)) * 10 + (f - 48),
{
    reveal_with_fuel(digits_val, 8);
    let s6 = seq![a, b, c, d, e, f];
    assert(s6.drop_last() =~= seq![a, b, c, d, e]);
    assert(seq![a, b, c, d, e].drop_last() =~= seq![a, b, c, d]);
    assert(seq![a, b, c, d].drop_last() =~= seq![a, b, c]);
    assert(seq![a, b, c].drop_last() =~= seq![a, b]);
    assert(seq![a, b].drop_last() =~= seq![a]);
    assert(seq![a].drop_last() =~= Seq::<u8>::empty());
    assert(digits_val(seq![a]) == a - 48);
}

/// Parsing the canonical rendering of a value gives the value back.
proof fn lemma_render_value_parse(v: int)
    requires
        0 <= v <= SCALE,
    ensures
        spec_render_value(v).len() == 8,
        all_digits(spec_render_value(v).subrange(2, 8)),
        is_digit(spec_render_value(v)[0]),
        spec_render_value(v)[1] == 46,
        forall|i: int|
            0 <= i < 8 ==> #[trigger] spec_render_value(v)[i] != 10 && spec_render_value(v)[i]
                != 32 && spec_render_value(v)[i] != 44,
        spec_parse_value(spec_render_value(v)) == Some(v),
{
    reveal_with_fuel(digits_val, 3);
    let t = spec_render_value(v);
    let q1 = v / 10;
    let q2 = v / 100;
    let q3 = v / 1000;
    let q4 = v / 10000;
    let q5 = v / 100000;
    let q6 = v / 1000000;
    lemma_div_denominator(v, 10, 10);
    lemma_div_denominator(v, 100, 10);
    lemma_div_denominator(v, 1000, 10);
    lemma_div_denominator(v, 10000, 10);
    lemma_div_denominator(v, 100000, 10);
    assert(q1 / 10 == q2 && q2 / 10 == q3 && q3 / 10 == q4 && q4 / 10 == q5 && q5 / 10 == q6);
    lemma_fundamental_div_mod(v, 10);
    lemma_fundamental_div_mod(q1, 10);
    lemma_fundamental_div_mod(q2, 10);
    lemma_fundamental_div_mod(q3, 10);
    lemma_fundamental_div_mod(q4, 10);
    lemma_fundamental_div_mod(q5, 10);
    lemma_fundamental_div_mod(v, 1000000);
    assert(v == q6 * 1000000 + (q5 % 10) * 100000 + (q4 % 10) * 10000 + (q3 % 10) * 1000 + (q2
        % 10) * 100 + (q1 % 10) * 10 + v % 10);
    assert(q6 == 0 || q6 == 1);
    // the rendering's shape
    assert(forall|i: int| 0 <= i < 8 ==> t[1] == 46 && (i != 1 ==> is_digit(#[trigger] t[i])));
    lemma_find_from(t, 46, 0, 1);
    let ip = t.subrange(0, 1);
    let fp = t.subrange(2, 8);
    assert(ip =~= seq![digit_char(q6)]);
    assert(fp =~= seq![
        digit_char(q5 % 10),
        digit_char(q4 % 10),
        digit_char(q3 % 10),
        digit_char(q2 % 10),
        digit_char(q1 % 10),
        digit_char(v % 10),
    ]);
    assert(ip.drop_last() =~= Seq::<u8>::empty());
    assert(digits_val(ip) == q6);
    lemma_digits_val6(
        digit_char(q5 % 10),
        digit_char(q4 % 10),
        digit_char(q3 % 10),
        digit_char(q2 % 10),
        digit_char(q1 % 10),
        digit_char(v % 10),
    );
    assert(digits_val(fp) == (q5 % 10) * 100000 + (q4 % 10) * 10000 + (q3 % 10) * 1000 + (q2 % 10)
        * 100 + (q1 % 10) * 10 + v % 10);
    assert(pow10(0) == 1);
    assert(digits_val(ip) * (SCALE as int) + digits_val(fp) * pow10(6 - fp.len()) == v);
}

/// Renders a fixed-point value as its canonical decimal token.
fn render_value(v: u64) -> (r: Vec<u8>)
    requires
        v <= SCALE,
    ensures
        r@ == spec_render_value(v as int),
{
    let mut out: Vec<u8> = Vec::new();
    out.push(48 + (v / 1000000) as u8);
    out.push(46);
    out.push(48 + (v / 100000 % 10) as u8);
    out.push(48 + (v / 10000 % 10) as u8);
    out.push(48 + (v / 1000 % 10) as u8);
    out.push(48 + (v / 100 % 10) as u8);
    out.push(48 + (v / 10 % 10) as u8);
    out.push(48 + (v % 10) as u8);
    proof {
        assert(out@ =~= spec_render_value(v as int));
    }
    out
}

/// The position of the first `ch` in `t[a..b)`, if any, with the scan's
/// outcome stated over that subrange.
fn find_in(t: &[u8], a: usize, b: usize, ch: u8) -> (r: Option<usize>)
    requires
        a <= b <= t@.len(),
    ensures
        match r {
            Some(p) => a <= p < b && t@[p as int] == ch && find(t@.subrange(a as int, b as int), ch, 0)
                == p - a,
            None => find(t@.subrange(a as int, b as int), ch, 0) == -1,
        },
{
    let ghost sub = t@.subrange(a as int, b as int);
    let mut i: usize = a;
    while i < b
        invariant
            a <= i <= b <= t@.len(),
            sub == t@.subrange(a as int, b as int),
            forall|j: int| a <= j < i ==> t@[j] != ch,
        decreases b - i,
    {
        if t[i] == ch {
            proof {
                assert(sub[i - a] == ch);
                assert(forall|j: int| 0 <= j < i - a ==> sub[j] != ch);
                lemma_find_from(sub, ch, 0, i - a);
            }
            return Some(i);
        }
        i += 1;
    }
    proof {
        assert(forall|j: int| 0 <= j < sub.len() ==> sub[j] != ch);
        lemma_find_none(sub, ch, 0);
    }
    None
}

/// Reads the digits of `t[a..b)` as a number; fails on any non-digit.
fn parse_digits(t: &[u8], a: usize, b: usize) -> (r: Option<u64>)
    requires
        a <= b <= t@.len(),
        b - a <= 7,
    ensures
        match r {
            Some(v) => all_digits(t@.subrange(a as int, b as int)) && v == digits_val(
                t@.subrange(a as int, b as int),
            ),
            None => !all_digits(t@.subrange(a as int, b as int)),
        },
{
    let ghost sub = t@.subrange(a as int, b as int);
    let mut acc: u64 = 0;
    let mut i: usize = a;
    while i < b
        invariant
            a <= i <= b <= t@.len(),
            b - a <= 7,
            sub == t@.subrange(a as int, b as int),
            all_digits(t@.subrange(a as int, i as int)),
            acc == digits_val(t@.subrange(a as int, i as int)),
            acc < pow10(i - a),
        decreases b - i,
    {
        let c = t[i];
        if c < 48 || c > 57 {
            proof {
                assert(sub[i - a] == c);
                assert(!is_digit(sub[i - a]));
            }
            return None;
        }
        proof {
            assert(t@.subrange(a as int, i as int + 1).drop_last() =~= t@.subrange(
                a as int,
                i as int,
            ));
            assert(t@.subrange(a as int, i as int + 1).last() == c);
            assert(forall|j: int|
                0 <= j < i + 1 - a ==> #[trigger] t@.subrange(a as int, i as int + 1)[j] == t@[a
                    + j]);
            assert(pow10(i - a + 1) == 10 * pow10(i - a));
            lemma_pow10_mono(i - a + 1, 7);
            reveal_with_fuel(pow10, 8);
            assert(pow10(7) == 10000000);
        }
        acc = acc * 10 + (c - 48) as u64;
        i += 1;
    }
    Some(acc)
}

/// Ten to a sum of powers is the product of the powers.
proof fn lemma_pow10_add(a: int, b: int)
    requires
        0 <= a,
        0 <= b,
    ensures
        pow10(a + b) == pow10(a) * pow10(b),
    decreases a,
{
    if a > 0 {
        lemma_pow10_add(a - 1, b);
        assert(pow10(a + b) == 10 * pow10(a - 1 + b));
        assert(pow10(a) * pow10(b) == 10 * (pow10(a - 1) * pow10(b))) by (nonlinear_arith)
            requires
                pow10(a) == 10 * pow10(a - 1),
        ;
    }
}

/// Ten to the sixth, in fixed point, is one whole unit.
proof fn lemma_pow10_vals()
    ensures
        pow10(0) == 1,
        pow10(1) == 10,
        pow10(2) == 100,
        pow10(3) == 1000,
        pow10(4) == 10000,
        pow10(5) == 100000,
        pow10(6) == 1000000,
        pow10(7) == 10000000,
{
    reveal_with_fuel(pow10, 9);
}

/// Ten to a small power, executably.
fn pow10_exec(n: usize) -> (r: u64)
    requires
        n <= 6,
    ensures
        r == pow10(n as int),
{
    proof {
        lemma_pow10_vals();
    }
    if n == 0 {
        1
    } else if n == 1 {
        10
    } else if n == 2 {
        100
    } else if n == 3 {
        1000
    } else if n == 4 {
        10000
    } else if n == 5 {
        100000
    } else {
        1000000
    }
}

/// Reads the units part of a token in `t[a..b)`: all digits, with a value
/// of at most one whole unit; fails otherwise.
fn parse_units(t: &[u8], a: usize, b: usize) -> (r: Option<u64>)
    requires
        a < b <= t@.len(),
    ensures
        match r {
            Some(v) => all_digits(t@.subrange(a as int, b as int)) && v == digits_val(
                t@.subrange(a as int, b as int),
            ) && v <= 1,
            None => !all_digits(t@.subrange(a as int, b as int)) || digits_val(
                t@.subrange(a as int, b as int),
            ) > 1,
        },
{
    let ghost sub = t@.subrange(a as int, b as int);
    // skip leading zeros, which do not change the value
    let mut a2: usize = a;
    while a2 < b && t[a2] == 48
        invariant
            a <= a2 <= b <= t@.len(),
            sub == t@.subrange(a as int, b as int),
            forall|j: int| a <= j < a2 ==> t@[j] == 48,
            digits_val(sub) == digits_val(t@.subrange(a2 as int, b as int)),
            all_digits(sub) <==> all_digits(t@.subrange(a2 as int, b as int)),
        decreases b - a2,
    {
        proof {
            let cur = t@.subrange(a2 as int, b as int);
            let nxt = t@.subrange(a2 as int + 1, b as int);
            assert(cur[0] == 48);
            lemma_digits_leading_zero(cur);
            assert(cur.drop_first() =~= nxt);
            if all_digits(cur) {
                assert forall|j: int| 0 <= j < nxt.len() implies is_digit(#[trigger] nxt[j]) by {
                    assert(nxt[j] == cur[j + 1]);
                }
            }
            if all_digits(nxt) {
                assert forall|j: int| 0 <= j < cur.len() implies is_digit(#[trigger] cur[j]) by {
                    if j > 0 {
                        assert(cur[j] == nxt[j - 1]);
                    } else {
                        assert(is_digit(cur[0]));
                    }
                }
            }
        }
        a2 += 1;
    }
    let ghost stripped = t@.subrange(a2 as int, b as int);
    if b - a2 > 7 {
        // too many significant digits for a value within one unit
        proof {
            if all_digits(sub) {
                assert(stripped[0] == t@[a2 as int]);
                assert(stripped[0] != 48);
                assert(is_digit(stripped[0]));
                lemma_digits_val_lower(stripped);
                lemma_pow10_mono(7, stripped.len() - 1);
                lemma_pow10_vals();
            }
        }
        return None;
    }
    match parse_digits(t, a2, b) {
        Some(v) => {
            if v > 1 {
                None
            } else {
                Some(v)
            }
        },
        None => None,
    }
}

/// `epsilon: ` — what the header line starts with.
pub open spec fn header_eps_prefix() -> Seq<u8> {
    seq![101u8, 112u8, 115u8, 105u8, 108u8, 111u8, 110u8, 58u8, 32u8]
}

/// `, alpha: ` — what separates the two header values.
pub open spec fn header_alpha_sep() -> Seq<u8> {
    seq![44u8, 32u8, 97u8, 108u8, 112u8, 104u8, 97u8, 58u8, 32u8]
}

/// The header line recording the hyperparameters.
pub open spec fn spec_render_header(e: int, a: int) -> Seq<u8> {
    header_eps_prefix() + spec_render_value(e) + header_alpha_sep() + spec_render_value(a)
}

/// The hyperparameters a header line stands for: `epsilon: <e>, alpha: <a>`
/// with an epsilon in `[0, 1]` and an alpha in `(0, 1]`.
pub open spec fn spec_parse_header(t: Seq<u8>) -> Option<(int, int)> {
    if t.len() < 9 || t.subrange(0, 9) != header_eps_prefix() {
        None
    } else {
        let c = find(t.subrange(9, t.len() as int), 44, 0);
        if c < 0 {
            None
        } else {
            let cp = 9 + c;
            if cp + 9 <= t.len() && t.subrange(cp, cp + 9) == header_alpha_sep() {
                let e = spec_parse_value(t.subrange(9, cp));
                let a = spec_parse_value(t.subrange(cp + 9, t.len() as int));
                if e is Some && a is Some && 0 <= e.unwrap() <= SCALE && 1 <= a.unwrap() <= SCALE {
                    Some((e.unwrap(), a.unwrap()))
                } else {
                    None
                }
            } else {
                None
            }
        }
    }
}

/// Reads the decimal token in `t[a..b)` as a fixed-point value; fails when
/// it is not a number of the accepted shape or lies outside `[0, 1]`.
fn parse_value(t: &[u8], a: usize, b: usize) -> (r: Option<u64>)
    requires
        a <= b <= t@.len(),
    ensures
        match r {
            Some(v) => v <= SCALE && spec_parse_value(t@.subrange(a as int, b as int)) == Some(
                v as int,
            ),
            None => spec_parse_value(t@.subrange(a as int, b as int)) is None || spec_parse_value(
                t@.subrange(a as int, b as int),
            ).unwrap() > SCALE as int,
        },
{
    let ghost sub = t@.subrange(a as int, b as int);
    proof {
        lemma_pow10_vals();
    }
    if a == b {
        return None;
    }
    match find_in(t, a, b, 46) {
        None => {
            match parse_units(t, a, b) {
                Some(v) => {
                    Some(v * 1000000)
                },
                None => {
                    proof {
                        if all_digits(sub) {
                            assert(digits_val(sub) > 1);
                            assert(digits_val(sub) * (SCALE as int) > SCALE as int)
                                by (nonlinear_arith)
                                requires
                                    digits_val(sub) > 1,
                        ;
                        }
                    }
                    None
                },
            }
        },
        Some(p) => {
            proof {
                assert(sub.subrange(0, p - a) =~= t@.subrange(a as int, p as int));
                assert(sub.subrange(p - a + 1, sub.len() as int) =~= t@.subrange(
                    p as int + 1,
                    b as int,
                ));
            }
            if p == a {
                return None;
            }
            let flen = b - p - 1;
            if flen < 1 || flen > 6 {
                return None;
            }
            let ghost fp = t@.subrange(p as int + 1, b as int);
            let units = match parse_units(t, a, p) {
                Some(u) => u,
                None => {
                    proof {
                        let ip = t@.subrange(a as int, p as int);
                        if spec_parse_value(sub) is Some {
                            assert(all_digits(ip));
                            assert(digits_val(ip) > 1);
                            lemma_digits_val_bound(fp);
                            lemma_pow10_pos(6 - fp.len());
                            assert(digits_val(ip) * (SCALE as int) > 2 * (SCALE as int) - 1)
                                by (nonlinear_arith)
                                requires
                                    digits_val(ip) > 1,
                            ;
                            assert(digits_val(fp) * pow10(6 - fp.len()) >= 0) by (nonlinear_arith)
                                requires
                                    digits_val(fp) >= 0,
                                    pow10(6 - fp.len()) >= 1,
                            ;
                        }
                    }
                    return None;
                },
            };
            let frac = match parse_digits(t, p + 1, b) {
                Some(f) => f,
                None => {
                    return None;
                },
            };
            let pw = pow10_exec(6 - flen);
            proof {
                lemma_digits_val_bound(fp);
                lemma_pow10_add(fp.len() as int, 6 - fp.len());
                assert(digits_val(fp) * pow10(6 - fp.len()) < pow10(6)) by (nonlinear_arith)
                    requires
                        0 <= digits_val(fp) < pow10(fp.len() as int),
                        pow10(6 - fp.len()) >= 1,
                        pow10(fp.len() as int) * pow10(6 - fp.len()) == pow10(6),
                ;
            }
            let val = units * 1000000 + frac * pw;
            if val > 1000000 {
                None
            } else {
                Some(val)
            }
        },
    }
}

/// Builds the header line for the given hyperparameters.
fn render_header(e: u64, a: u64) -> (r: Vec<u8>)
    requires
        e <= SCALE,
        a <= SCALE,
    ensures
        r@ == spec_render_header(e as int, a as int),
{
    let mut out: Vec<u8> = Vec::new();
    out.push(101);
    out.push(112);
    out.push(115);
    out.push(105);
    out.push(108);
    out.push(111);
    out.push(110);
    out.push(58);
    out.push(32);
    let mut ev = render_value(e);
    out.append(&mut ev);
    out.push(44);
    out.push(32);
    out.push(97);
    out.push(108);
    out.push(112);
    out.push(104);
    out.push(97);
    out.push(58);
    out.push(32);
    let mut av = render_value(a);
    out.append(&mut av);
    proof {
        assert(out@ =~= spec_render_header(e as int, a as int));
    }
    out
}

/// Reads the header line in `t[a..b)`.
fn parse_header(t: &[u8], a: usize, b: usize) -> (r: Option<(u64, u64)>)
    requires
        a <= b <= t@.len(),
    ensures
        match r {
            Some((e, al)) => spec_parse_header(t@.subrange(a as int, b as int)) == Some(
                (e as int, al as int),
            ) && e <= SCALE && 1 <= al <= SCALE,
            None => spec_parse_header(t@.subrange(a as int, b as int)) is None,
        },
{
    let ghost sub = t@.subrange(a as int, b as int);
    if b - a < 9 {
        return None;
    }
    proof {
        assert(forall|k: int| 0 <= k < 9 ==> #[trigger] sub.subrange(0, 9)[k] == t@[a + k]);
    }
    let prefix_ok = t[a] == 101 && t[a + 1] == 112 && t[a + 2] == 115 && t[a + 3] == 105 && t[a
        + 4] == 108 && t[a + 5] == 111 && t[a + 6] == 110 && t[a + 7] == 58 && t[a + 8] == 32;
    if !prefix_ok {
        proof {
            if sub.subrange(0, 9) == header_eps_prefix() {
                assert(false);
            }
        }
        return None;
    }
    proof {
        assert(sub.subrange(0, 9) =~= header_eps_prefix());
        assert(sub.subrange(9, sub.len() as int) =~= t@.subrange(a as int + 9, b as int));
    }
    let comma = match find_in(t, a + 9, b, 44) {
        Some(p) => p,
        None => {
            return None;
        },
    };
    if b - comma < 9 {
        return None;
    }
    proof {
        assert(forall|k: int|
            0 <= k < 9 ==> #[trigger] sub.subrange(comma - a, comma - a + 9)[k] == t@[comma + k]);
    }
    let sep_ok = t[comma] == 44 && t[comma + 1] == 32 && t[comma + 2] == 97 && t[comma + 3] == 108
        && t[comma + 4] == 112 && t[comma + 5] == 104 && t[comma + 6] == 97 && t[comma + 7] == 58
        && t[comma + 8] == 32;
    if !sep_ok {
        proof {
            if sub.subrange(comma - a, comma - a + 9) == header_alpha_sep() {
                assert(false);
            }
        }
        return None;
    }
    proof {
        assert(sub.subrange(comma - a, comma - a + 9) =~= header_alpha_sep());
        assert(sub.subrange(9, comma - a) =~= t@.subrange(a as int + 9, comma as int));
        assert(sub.subrange(comma - a + 9, sub.len() as int) =~= t@.subrange(
            comma as int + 9,
            b as int,
        ));
    }
    let e = match parse_value(t, a + 9, comma) {
        Some(v) => v,
        None => {
            return None;
        },
    };
    let al = match parse_value(t, comma + 9, b) {
        Some(v) => v,
        None => {
            return None;
        },
    };
    if al < 1 {
        return None;
    }
    Some((e, al))
}

/// One persisted entry line, without its newline: the encoded board, one
/// space, the value.
pub open spec fn spec_render_entry(b: Seq<Cell>, v: int) -> Seq<u8> {
    spec_encode(b) + seq![32u8] + spec_render_value(v)
}

/// The persisted entry lines, in table order, each ended by a newline.
pub open spec fn spec_render_entries(entries: Seq<(Board, u64)>) -> Seq<u8>
    decreases entries.len(),
{
    if entries.len() == 0 {
        Seq::empty()
    } else {
        spec_render_entry(entries[0].0@, entries[0].1 as int) + seq![10u8] + spec_render_entries(
            entries.drop_first(),
        )
    }
}

/// The whole persisted document: the header line, then the entry lines.
pub open spec fn spec_render_doc(e: int, a: int, entries: Seq<(Board, u64)>) -> Seq<u8> {
    spec_render_header(e, a) + seq![10u8] + spec_render_entries(entries)
}

/// The pair an entry line stands for: a board's grid and a value in
/// `[0, 1]`, separated by one space.
pub open spec fn spec_parse_entry(line: Seq<u8>) -> Option<(Seq<Cell>, int)> {
    let sp = find(line, 32, 0);
    if sp < 0 {
        None
    } else {
        let bs = spec_decode(line.subrange(0, sp));
        let vs = spec_parse_value(line.subrange(sp + 1, line.len() as int));
        if bs is Some && vs is Some && 0 <= vs.unwrap() <= SCALE {
            Some((bs.unwrap(), vs.unwrap()))
        } else {
            None
        }
    }
}

/// The entries a region of newline-separated lines stands for; a last line
/// may stand without a final newline.
pub open spec fn spec_parse_entries(t: Seq<u8>) -> Option<Seq<(Seq<Cell>, int)>>
    decreases t.len(),
{
    if t.len() == 0 {
        Some(Seq::empty())
    } else {
        let nl = find(t, 10, 0);
        if nl < 0 {
            match spec_parse_entry(t) {
                Some(e) => Some(seq![e]),
                None => None,
            }
        } else if nl < t.len() {
            let head = spec_parse_entry(t.subrange(0, nl));
            let rest = spec_parse_entries(t.subrange(nl + 1, t.len() as int));
            if head is Some && rest is Some {
                Some(seq![head.unwrap()] + rest.unwrap())
            } else {
                None
            }
        } else {
            None
        }
    }
}

/// The hyperparameters of a document's first line.
pub open spec fn doc_header(t: Seq<u8>) -> Option<(int, int)> {
    let nl = find(t, 10, 0);
    if nl < 0 {
        spec_parse_header(t)
    } else if nl < t.len() {
        spec_parse_header(t.subrange(0, nl))
    } else {
        None
    }
}

/// The entries of a document's remaining lines.
pub open spec fn doc_entries(t: Seq<u8>) -> Option<Seq<(Seq<Cell>, int)>> {
    let nl = find(t, 10, 0);
    if nl < 0 {
        Some(Seq::empty())
    } else if nl < t.len() {
        spec_parse_entries(t.subrange(nl + 1, t.len() as int))
    } else {
        None
    }
}

/// What a persisted document stands for: hyperparameters and entries, or
/// nothing when any line is malformed.
pub open spec fn spec_parse_doc(t: Seq<u8>) -> Option<(int, int, Seq<(Seq<Cell>, int)>)> {
    if doc_header(t) is Some && doc_entries(t) is Some {
        Some((doc_header(t).unwrap().0, doc_header(t).unwrap().1, doc_entries(t).unwrap()))
    } else {
        None
    }
}

/// The grids and values that stored entries stand for.
pub open spec fn entry_views(entries: Seq<(Board, u64)>) -> Seq<(Seq<Cell>, int)> {
    entries.map(|i: int, e: (Board, u64)| (e.0@, e.1 as int))
}

/// The map that a list of parsed entries builds up, later lines overriding
/// earlier ones with the same board.
pub open spec fn spec_entries_map(entries: Seq<(Seq<Cell>, int)>) -> Map<Seq<Cell>, u64>
    decreases entries.len(),
{
    if entries.len() == 0 {
        Map::empty()
    } else {
        spec_entries_map(entries.drop_last()).insert(entries.last().0, entries.last().1 as u64)
    }
}

/// Whether no two parsed entries name the same grid.
pub open spec fn views_distinct(entries: Seq<(Seq<Cell>, int)>) -> bool {
    forall|i: int, j: int| 0 <= i < j < entries.len() ==> entries[i].0 != entries[j].0
}

proof fn lemma_entries_map_push(entries: Seq<(Seq<Cell>, int)>, e: (Seq<Cell>, int))
    ensures
        spec_entries_map(entries.push(e)) == spec_entries_map(entries).insert(e.0, e.1 as u64),
{
    assert(entries.push(e).drop_last() =~= entries);
}

proof fn lemma_entries_map_contains(entries: Seq<(Seq<Cell>, int)>, k: Seq<Cell>)
    ensures
        spec_entries_map(entries).contains_key(k) <==> exists|i: int|
            0 <= i < entries.len() && (#[trigger] entries[i]).0 == k,
    decreases entries.len(),
{
    if entries.len() > 0 {
        lemma_entries_map_contains(entries.drop_last(), k);
        if entries.last().0 == k {
            assert(entries[entries.len() - 1].0 == k);
        } else if spec_entries_map(entries).contains_key(k) {
            let i = choose|i: int|
                0 <= i < entries.drop_last().len() && (#[trigger] entries.drop_last()[i]).0 == k;
            assert(entries[i].0 == k);
        } else if exists|i: int| 0 <= i < entries.len() && (#[trigger] entries[i]).0 == k {
            let i = choose|i: int| 0 <= i < entries.len() && (#[trigger] entries[i]).0 == k;
            assert(entries.drop_last()[i].0 == k);
        }
    }
}

/// Reads the entry line in `t[a..b)`.
fn parse_entry(t: &[u8], a: usize, b: usize) -> (r: Option<(Board, u64)>)
    requires
        a <= b <= t@.len(),
    ensures
        match r {
            Some((bd, v)) => v <= SCALE && spec_parse_entry(t@.subrange(a as int, b as int))
                == Some((bd@, v as int)),
            None => spec_parse_entry(t@.subrange(a as int, b as int)) is None,
        },
{
    let ghost sub = t@.subrange(a as int, b as int);
    let sp = match find_in(t, a, b, 32) {
        Some(p) => p,
        None => {
            return None;
        },
    };
    proof {
        assert(sub.subrange(0, sp - a) =~= t@.subrange(a as int, sp as int));
        assert(sub.subrange(sp - a + 1, sub.len() as int) =~= t@.subrange(sp as int + 1, b as int));
    }
    let board_bytes = slice_subrange(t, a, sp);
    let bd = match decode(board_bytes) {
        Ok(bd) => bd,
        Err(_) => {
            return None;
        },
    };
    let v = match parse_value(t, sp + 1, b) {
        Some(v) => v,
        None => {
            return None;
        },
    };
    Some((bd, v))
}

/// Renders an agent's hyperparameters and table as the persisted document.
pub fn saved_text(p: &RLPlayer) -> (r: Vec<u8>)
    requires
        p.wf(),
    ensures
        r@ == spec_render_doc(
            p.spec_epsilon() as int,
            p.spec_alpha() as int,
            p.estimates_seq(),
        ),
{
    proof {
        crate::player::lemma_player_wf_bounds(*p);
    }
    let mut out = render_header(p.epsilon(), p.alpha());
    out.push(10);
    let entries = p.get_estimates();
    let n = entries.len();
    let mut i: usize = 0;
    while i < n
        invariant
            n == entries@.len(),
            entries@ == p.estimates_seq(),
            forall|k: int| 0 <= k < n ==> (#[trigger] entries@[k]).1 <= SCALE,
            0 <= i <= n,
            out@ == spec_render_header(p.spec_epsilon() as int, p.spec_alpha() as int)
                + seq![10u8] + spec_render_entries(entries@.take(i as int)),
        decreases n - i,
    {
        let (bd, v) = entries[i];
        let mut eb = encode(&bd);
        out.append(&mut eb);
        out.push(32);
        let mut vv = render_value(v);
        out.append(&mut vv);
        out.push(10);
        proof {
            lemma_render_entries_push(entries@.take(i as int), entries@[i as int]);
            assert(entries@.take(i as int + 1) =~= entries@.take(i as int).push(
                entries@[i as int],
            ));
            assert(out@ =~= spec_render_header(p.spec_epsilon() as int, p.spec_alpha() as int)
                + seq![10u8] + spec_render_entries(entries@.take(i as int + 1)));
        }
        i += 1;
    }
    proof {
        assert(entries@.take(n as int) =~= entries@);
    }
    out
}

/// Appending one entry appends its rendered line.
proof fn lemma_render_entries_push(entries: Seq<(Board, u64)>, e: (Board, u64))
    ensures
        spec_render_entries(entries.push(e)) == spec_render_entries(entries) + spec_render_entry(
            e.0@,
            e.1 as int,
        ) + seq![10u8],
    decreases entries.len(),
{
    if entries.len() == 0 {
        assert(entries.push(e)[0] == e);
        assert(entries.push(e).drop_first() =~= Seq::<(Board, u64)>::empty());
        assert(spec_render_entries(entries.push(e).drop_first()) =~= Seq::<u8>::empty());
        assert(spec_render_entries(entries) =~= Seq::<u8>::empty());
        assert(spec_render_entries(entries.push(e)) =~= spec_render_entry(e.0@, e.1 as int)
            + seq![10u8]);
    } else {
        assert(entries.push(e)[0] == entries[0]);
        assert(entries.push(e).drop_first() =~= entries.drop_first().push(e));
        lemma_render_entries_push(entries.drop_first(), e);
        assert(spec_render_entries(entries.push(e)) =~= spec_render_entries(entries)
            + spec_render_entry(e.0@, e.1 as int) + seq![10u8]);
    }
}

/// Reads a persisted document: the hyperparameters and a table holding the
/// entry of every line, later lines overriding earlier ones with the same
/// board. When no line repeats a board, the table lists the entries in line
/// order.
pub fn parse_saved(t: &[u8]) -> (r: Result<(u64, u64, ValueTable), ParseError>)
    ensures
        match r {
            Ok((eps, alpha, table)) => {
                &&& spec_parse_doc(t@) is Some
                &&& spec_parse_doc(t@).unwrap().0 == eps as int
                &&& spec_parse_doc(t@).unwrap().1 == alpha as int
                &&& eps <= SCALE
                &&& 1 <= alpha <= SCALE
                &&& table.wf()
                &&& table.as_map() == spec_entries_map(spec_parse_doc(t@).unwrap().2)
                &&& (views_distinct(spec_parse_doc(t@).unwrap().2) ==> {
                    &&& table.entries_seq().len() == spec_parse_doc(t@).unwrap().2.len()
                    &&& forall|i: int|
                        0 <= i < table.entries_seq().len() ==> (
                        #[trigger] table.entries_seq()[i]).0@ == spec_parse_doc(
                            t@,
                        ).unwrap().2[i].0 && table.entries_seq()[i].1 as int == spec_parse_doc(
                            t@,
                        ).unwrap().2[i].1
                })
            },
            Err(ParseError::BadHeader) => doc_header(t@) is None,
            Err(ParseError::BadEntry) => doc_header(t@) is Some && doc_entries(t@) is None,
        },
{
    let n = t.len();
    proof {
        assert(t@.subrange(0, n as int) =~= t@);
    }
    let p0 = match find_in(t, 0, n, 10) {
        None => {
            // a lone header line, with no entries
            match parse_header(t, 0, n) {
                Some((eps, alpha)) => {
                    return Ok((eps, alpha, ValueTable::new()));
                },
                None => {
                    return Err(ParseError::BadHeader);
                },
            }
        },
        Some(p0) => p0,
    };
    let (eps, alpha) = match parse_header(t, 0, p0) {
        Some(x) => x,
        None => {
            proof {
                assert(t@.subrange(0, p0 as int) == t@.subrange(0, p0 as int));
            }
            return Err(ParseError::BadHeader);
        },
    };
    let ghost region = t@.subrange(p0 as int + 1, n as int);
    let mut table = ValueTable::new();
    let ghost mut parsed: Seq<(Seq<Cell>, int)> = Seq::empty();
    let mut pos: usize = p0 + 1;
    proof {
        assert(t@.subrange(pos as int, n as int) =~= region);
    }
    while pos < n
        invariant
            n == t@.len(),
            p0 < n,
            find(t@, 10, 0) == p0,
            region == t@.subrange(p0 as int + 1, n as int),
            p0 + 1 <= pos <= n,
            spec_parse_header(t@.subrange(0, p0 as int)) == Some((eps as int, alpha as int)),
            eps <= SCALE,
            1 <= alpha <= SCALE,
            table.wf(),
            table.as_map() == spec_entries_map(parsed),
            spec_parse_entries(region) is Some <==> spec_parse_entries(
                t@.subrange(pos as int, n as int),
            ) is Some,
            spec_parse_entries(t@.subrange(pos as int, n as int)) is Some
                ==> spec_parse_entries(region).unwrap() == parsed + spec_parse_entries(
                t@.subrange(pos as int, n as int),
            ).unwrap(),
            forall|i: int| 0 <= i < parsed.len() ==> 0 <= (#[trigger] parsed[i]).1 <= SCALE,
            views_distinct(parsed) ==> table.entries_seq().len() == parsed.len() && forall|i: int|
                0 <= i < parsed.len() ==> (#[trigger] table.entries_seq()[i]).0@ == parsed[i].0
                    && table.entries_seq()[i].1 as int == parsed[i].1,
        decreases n - pos,
    {
        let ghost suffix = t@.subrange(pos as int, n as int);
        let (bd, v, next) = match find_in(t, pos, n, 10) {
            Some(p) => {
                proof {
                    assert(suffix.subrange(0, p - pos) =~= t@.subrange(pos as int, p as int));
                    assert(suffix.subrange(p - pos + 1, suffix.len() as int) =~= t@.subrange(
                        p as int + 1,
                        n as int,
                    ));
                }
                match parse_entry(t, pos, p) {
                    Some((bd, v)) => (bd, v, p + 1),
                    None => {
                        return Err(ParseError::BadEntry);
                    },
                }
            },
            None => {
                match parse_entry(t, pos, n) {
                    Some((bd, v)) => (bd, v, n),
                    None => {
                        return Err(ParseError::BadEntry);
                    },
                }
            },
        };
        let ghost head = (bd@, v as int);
        proof {
            let rest = t@.subrange(next as int, n as int);
            if next == n {
                assert(rest =~= Seq::<u8>::empty());
                assert(spec_parse_entries(suffix) == Some(seq![head]));
                assert(parsed + seq![head] =~= parsed.push(head) + Seq::<(Seq<Cell>, int)>::empty());
            } else {
                assert(spec_parse_entries(suffix) is Some <==> spec_parse_entries(rest) is Some);
                if spec_parse_entries(rest) is Some {
                    assert(seq![head] + spec_parse_entries(rest).unwrap() =~= spec_parse_entries(
                        suffix,
                    ).unwrap());
                    assert(parsed + (seq![head] + spec_parse_entries(rest).unwrap())
                        =~= parsed.push(head) + spec_parse_entries(rest).unwrap());
                }
            }
            lemma_entries_map_push(parsed, head);
            lemma_entries_map_contains(parsed, head.0);
        }
        let ghost prev_parsed = parsed;
        let ghost prev_table = table;
        match table.lookup(&bd) {
            Some(_) => {
                let _ = table.set(&bd, v);
            },
            None => {
                table.insert(bd, v);
            },
        }
        proof {
            parsed = parsed.push(head);
            if views_distinct(parsed) {
                assert(views_distinct(prev_parsed)) by {
                    assert(forall|i: int, j: int|
                        0 <= i < j < prev_parsed.len() ==> parsed[i] == prev_parsed[i] && parsed[j]
                            == prev_parsed[j]);
                }
                assert(!spec_entries_map(prev_parsed).contains_key(head.0)) by {
                    if spec_entries_map(prev_parsed).contains_key(head.0) {
                        let i = choose|i: int|
                            0 <= i < prev_parsed.len() && (#[trigger] prev_parsed[i]).0 == head.0;
                        assert(parsed[i].0 == parsed[parsed.len() - 1].0);
                    }
                }
                assert(table.entries_seq() == prev_table.entries_seq().push((bd, v)));
            }
        }
        pos = next;
    }
    proof {
        assert(t@.subrange(pos as int, n as int) =~= Seq::<u8>::empty());
        assert(spec_parse_entries(t@.subrange(pos as int, n as int)) == Some(
            Seq::<(Seq<Cell>, int)>::empty(),
        ));
        assert(parsed + Seq::<(Seq<Cell>, int)>::empty() =~= parsed);
        assert(spec_parse_entries(region) == Some(parsed));
        assert(doc_entries(t@) == Some(parsed));
        assert(doc_header(t@) == Some((eps as int, alpha as int)));
    }
    Ok((eps, alpha, table))
}

/// Loads an agent playing as `id` from a persisted document: its table and
/// both hyperparameters come from the text.
pub fn load_player(id: PlayerId, text: &[u8]) -> (r: Result<RLPlayer, ParseError>)
    ensures
        match r {
            Ok(p) => {
                &&& spec_parse_doc(text@) is Some
                &&& p.wf()
                &&& p.id() == id
                &&& p.spec_epsilon() as int == spec_parse_doc(text@).unwrap().0
                &&& p.spec_alpha() as int == spec_parse_doc(text@).unwrap().1
                &&& p.estimates_map() == spec_entries_map(spec_parse_doc(text@).unwrap().2)
                &&& (views_distinct(spec_parse_doc(text@).unwrap().2) ==> {
                    &&& p.estimates_seq().len() == spec_parse_doc(text@).unwrap().2.len()
                    &&& forall|i: int|
                        0 <= i < p.estimates_seq().len() ==> (
                        #[trigger] p.estimates_seq()[i]).0@ == spec_parse_doc(
                            text@,
                        ).unwrap().2[i].0 && p.estimates_seq()[i].1 as int == spec_parse_doc(
                            text@,
                        ).unwrap().2[i].1
                })
            },
            Err(ParseError::BadHeader) => doc_header(text@) is None,
            Err(ParseError::BadEntry) => doc_header(text@) is Some && doc_entries(text@) is None,
        },
{
    match parse_saved(text) {
        Ok((eps, alpha, table)) => Ok(RLPlayer::assemble(id, table, eps, alpha)),
        Err(e) => Err(e),
    }
}

/// An encoded board is eleven bytes, none of them a newline, a space or a
/// comma.
proof fn lemma_encode_bytes(bv: Seq<Cell>)
    requires
        bv.len() == 9,
    ensures
        spec_encode(bv).len() == 11,
        forall|i: int|
            0 <= i < 11 ==> #[trigger] spec_encode(bv)[i] != 10 && spec_encode(bv)[i] != 32
                && spec_encode(bv)[i] != 44,
{
    let e = spec_encode(bv);
    assert forall|i: int| 0 <= i < 11 implies #[trigger] e[i] != 10 && e[i] != 32 && e[i]
        != 44 by {
        if 1 <= i <= 9 {
            assert(e[i] == crate::codec::cell_char(bv[i - 1]));
            assert(crate::codec::cell_char(bv[i - 1]) == 88 || crate::codec::cell_char(bv[i - 1])
                == 79 || crate::codec::cell_char(bv[i - 1]) == 95);
        }
    }
}

/// Parsing a rendered header line gives the hyperparameters back; the line
/// is 34 bytes and holds no newline.
proof fn lemma_header_round_trip(e: int, a: int)
    requires
        0 <= e <= SCALE,
        1 <= a <= SCALE,
    ensures
        spec_render_header(e, a).len() == 34,
        forall|i: int| 0 <= i < 34 ==> #[trigger] spec_render_header(e, a)[i] != 10,
        spec_parse_header(spec_render_header(e, a)) == Some((e, a)),
{
    let h = spec_render_header(e, a);
    lemma_render_value_parse(e);
    lemma_render_value_parse(a);
    assert(h.len() == 34);
    assert forall|i: int| 0 <= i < 34 implies #[trigger] h[i] != 10 by {
        if 9 <= i < 17 {
            assert(h[i] == spec_render_value(e)[i - 9]);
        } else if 26 <= i < 34 {
            assert(h[i] == spec_render_value(a)[i - 26]);
        }
    }
    assert(h.subrange(0, 9) =~= header_eps_prefix());
    // the first comma is the separator's
    assert forall|j: int| 0 <= j < 8 implies h.subrange(9, 34)[j] != 44 by {
        assert(h.subrange(9, 34)[j] == spec_render_value(e)[j]);
    }
    assert(h.subrange(9, 34)[8] == 44);
    lemma_find_from(h.subrange(9, 34), 44, 0, 8);
    assert(h.subrange(17, 26) =~= header_alpha_sep());
    assert(h.subrange(9, 17) =~= spec_render_value(e));
    assert(h.subrange(26, 34) =~= spec_render_value(a));
}

/// Parsing a rendered entry line gives the entry back; the line is 20 bytes
/// and holds no newline.
proof fn lemma_entry_round_trip(bv: Seq<Cell>, v: int)
    requires
        bv.len() == 9,
        0 <= v <= SCALE,
    ensures
        spec_render_entry(bv, v).len() == 20,
        forall|i: int| 0 <= i < 20 ==> #[trigger] spec_render_entry(bv, v)[i] != 10,
        spec_parse_entry(spec_render_entry(bv, v)) == Some((bv, v)),
{
    let line = spec_render_entry(bv, v);
    lemma_encode_bytes(bv);
    lemma_render_value_parse(v);
    assert(line.len() == 20);
    assert forall|i: int| 0 <= i < 20 implies #[trigger] line[i] != 10 by {
        if i < 11 {
            assert(line[i] == spec_encode(bv)[i]);
        } else if i >= 12 {
            assert(line[i] == spec_render_value(v)[i - 12]);
        }
    }
    // the first space separates board and value
    assert forall|j: int| 0 <= j < 11 implies line[j] != 32 by {
        assert(line[j] == spec_encode(bv)[j]);
    }
    assert(line[11] == 32);
    lemma_find_from(line, 32, 0, 11);
    assert(line.subrange(0, 11) =~= spec_encode(bv));
    crate::codec::lemma_decode_encode(bv);
    assert(line.subrange(12, 20) =~= spec_render_value(v));
}

/// Parsing rendered entry lines gives the entries back.
proof fn lemma_entries_round_trip(entries: Seq<(Board, u64)>)
    requires
        forall|i: int| 0 <= i < entries.len() ==> (#[trigger] entries[i]).1 <= SCALE,
    ensures
        spec_parse_entries(spec_render_entries(entries)) == Some(entry_views(entries)),
    decreases entries.len(),
{
    if entries.len() == 0 {
        assert(entry_views(entries) =~= Seq::<(Seq<Cell>, int)>::empty());
    } else {
        let t = spec_render_entries(entries);
        let head = entries[0];
        let line = spec_render_entry(head.0@, head.1 as int);
        let rest = spec_render_entries(entries.drop_first());
        lemma_entry_round_trip(head.0@, head.1 as int);
        assert(t =~= line + seq![10u8] + rest);
        assert(t.len() == 21 + rest.len());
        assert forall|j: int| 0 <= j < 20 implies t[j] != 10 by {
            assert(t[j] == line[j]);
        }
        assert(t[20] == 10);
        lemma_find_from(t, 10, 0, 20);
        assert(t.subrange(0, 20) =~= line);
        assert(t.subrange(21, t.len() as int) =~= rest);
        assert forall|i: int| 0 <= i < entries.drop_first().len() implies (
        #[trigger] entries.drop_first()[i]).1 <= SCALE by {
            assert(entries.drop_first()[i] == entries[i + 1]);
        }
        lemma_entries_round_trip(entries.drop_first());
        assert(seq![(head.0@, head.1 as int)] + entry_views(entries.drop_first()) =~= entry_views(
            entries,
        ));
    }
}

/// Saving and loading round-trip: parsing the rendered document of any
/// well-formed hyperparameters and entries yields exactly those
/// hyperparameters and, line for line, those entries.
pub proof fn lemma_saved_round_trip(eps: u64, alpha: u64, entries: Seq<(Board, u64)>)
    requires
        eps <= SCALE,
        1 <= alpha <= SCALE,
        forall|i: int| 0 <= i < entries.len() ==> (#[trigger] entries[i]).1 <= SCALE,
    ensures
        spec_parse_doc(spec_render_doc(eps as int, alpha as int, entries)) == Some(
            (eps as int, alpha as int, entry_views(entries)),
        ),
{
    let doc = spec_render_doc(eps as int, alpha as int, entries);
    let h = spec_render_header(eps as int, alpha as int);
    let body = spec_render_entries(entries);
    lemma_header_round_trip(eps as int, alpha as int);
    assert(doc =~= h + seq![10u8] + body);
    assert forall|j: int| 0 <= j < 34 implies doc[j] != 10 by {
        assert(doc[j] == h[j]);
    }
    assert(doc[34] == 10);
    lemma_find_from(doc, 10, 0, 34);
    assert(doc.subrange(0, 34) =~= h);
    assert(doc.subrange(35, doc.len() as int) =~= body);
    lemma_entries_round_trip(entries);
}

} // verus!
