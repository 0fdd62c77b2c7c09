//! Reading a decimal numeral — optional sign, digits, optional fraction,
//! optional exponent — as a 32-bit integer, truncating toward zero and
//! saturating at the integer bounds.

use vstd::prelude::*;

verus! {

/// Exponent accumulation saturates here; any true exponent at least this
/// large moves the decimal point past every digit either way.
pub const EXP_SAT: u128 = 1_000_000_000_000_000_000_000_000_000_000;

/// Magnitude accumulation saturates here, safely above the 32-bit range.
pub const MAG_SAT: i128 = 0x10_0000_0000;

pub open spec fn is_digit(c: char) -> bool {
    48 <= c as int && c as int <= 57
}

pub open spec fn digit_val(c: char) -> int {
    c as int - 48
}

pub open spec fn all_digits(s: Seq<char>) -> bool {
    forall|k: int| 0 <= k < s.len() ==> is_digit(#[trigger] s[k])
}

/// The value of a string of decimal digits.
pub open spec fn digits_val(s: Seq<char>) -> int
    decreases s.len(),
{
    if s.len() == 0 {
        0
    } else {
        digits_val(s.drop_last()) * 10 + digit_val(s.last())
    }
}

pub open spec fn pow10(e: nat) -> int
    decreases e,
{
    if e == 0 {
        1
    } else {
        10 * pow10((e - 1) as nat)
    }
}

/// The index of the first exponent marker `e` or `E`, or the length.
pub open spec fn exp_split(s: Seq<char>) -> int
    decreases s.len(),
{
    if s.len() == 0 {
        0
    } else if s[0] == 'e' || s[0] == 'E' {
        0
    } else {
        1 + exp_split(s.drop_first())
    }
}

/// The index of the first decimal point, or the length.
pub open spec fn dot_split(s: Seq<char>) -> int
    decreases s.len(),
{
    if s.len() == 0 {
        0
    } else if s[0] == '.' {
        0
    } else {
        1 + dot_split(s.drop_first())
    }
}

pub open spec fn sign_of(s: Seq<char>) -> int {
    if s.len() > 0 && s[0] == '-' {
        -1
    } else {
        1
    }
}

pub open spec fn after_sign(s: Seq<char>) -> Seq<char> {
    if s.len() > 0 && (s[0] == '-' || s[0] == '+') {
        s.drop_first()
    } else {
        s
    }
}

/// The part before the exponent marker, sign stripped.
pub open spec fn mantissa_of(s: Seq<char>) -> Seq<char> {
    after_sign(s).take(exp_split(after_sign(s)))
}

pub open spec fn has_exp(s: Seq<char>) -> bool {
    exp_split(after_sign(s)) < after_sign(s).len()
}

/// The part after the exponent marker.
pub open spec fn exp_part(s: Seq<char>) -> Seq<char> {
    after_sign(s).skip(exp_split(after_sign(s)) + 1)
}

pub open spec fn int_part(m: Seq<char>) -> Seq<char> {
    m.take(dot_split(m))
}

pub open spec fn frac_part(m: Seq<char>) -> Seq<char> {
    if dot_split(m) < m.len() {
        m.skip(dot_split(m) + 1)
    } else {
        Seq::empty()
    }
}

pub open spec fn valid_mantissa(m: Seq<char>) -> bool {
    &&& all_digits(int_part(m))
    &&& all_digits(frac_part(m))
    &&& int_part(m).len() + frac_part(m).len() > 0
}

pub open spec fn valid_exp(x: Seq<char>) -> bool {
    all_digits(after_sign(x)) && after_sign(x).len() > 0
}

pub open spec fn exp_val(x: Seq<char>) -> int {
    sign_of(x) * digits_val(after_sign(x))
}

/// A well-formed numeral: an optional sign, digits with an optional decimal
/// point among them, and an optional exponent with its own optional sign.
pub open spec fn valid_numeral(s: Seq<char>) -> bool {
    &&& valid_mantissa(mantissa_of(s))
    &&& (has_exp(s) ==> valid_exp(exp_part(s)))
}

/// All the numeral's digits, point and exponent left aside.
pub open spec fn all_mantissa_digits(s: Seq<char>) -> Seq<char> {
    int_part(mantissa_of(s)) + frac_part(mantissa_of(s))
}

/// Where the decimal point lands among the digits once the exponent is
/// applied.
pub open spec fn point_pos(s: Seq<char>) -> int {
    int_part(mantissa_of(s)).len() + if has_exp(s) {
        exp_val(exp_part(s))
    } else {
        0
    }
}

/// The numeral's magnitude truncated toward zero: the digits left of the
/// decimal point, once the point is shifted right by the exponent, read as
/// an integer; zeroes stand in where the point moves past the last digit.
pub open spec fn numeral_magnitude(s: Seq<char>) -> int {
    let d = all_mantissa_digits(s);
    let p = point_pos(s);
    if p <= 0 {
        0
    } else if p <= d.len() {
        digits_val(d.take(p))
    } else {
        digits_val(d) * pow10((p - d.len()) as nat)
    }
}

pub open spec fn numeral_val(s: Seq<char>) -> int {
    sign_of(s) * numeral_magnitude(s)
}

pub open spec fn clip_i32(v: int) -> i32 {
    if v > i32::MAX {
        i32::MAX
    } else if v < i32::MIN {
        i32::MIN
    } else {
        v as i32
    }
}

/// What a coordinate field is read as: its numeral's value, truncated
/// toward zero and saturated at the 32-bit bounds, or `None` where the
/// field is not a numeral.
pub open spec fn parsed_coord(s: Seq<char>) -> Option<i32> {
    if valid_numeral(s) {
        Some(clip_i32(numeral_val(s)))
    } else {
        None
    }
}

/// The coordinate that a parsed field contributes: a field that is missing
/// or malformed contributes zero.
pub open spec fn coord_or_zero(fields: Seq<Seq<char>>, k: int) -> i32 {
    if 0 <= k < fields.len() {
        match parsed_coord(fields[k]) {
            Some(v) => v,
            None => 0,
        }
    } else {
        0
    }
}

proof fn lemma_exp_split_at(s: Seq<char>, t: int)
    requires
        0 <= t <= s.len(),
        forall|l: int| 0 <= l < t ==> #[trigger] s[l] != 'e' && s[l] != 'E',
        t == s.len() || s[t] == 'e' || s[t] == 'E',
    ensures
        exp_split(s) == t,
    decreases t,
{
    if t == 0 {
    } else {
        lemma_exp_split_at(s.drop_first(), t - 1);
    }
}

proof fn lemma_dot_split_at(s: Seq<char>, t: int)
    requires
        0 <= t <= s.len(),
        forall|l: int| 0 <= l < t ==> #[trigger] s[l] != '.',
        t == s.len() || s[t] == '.',
    ensures
        dot_split(s) == t,
    decreases t,
{
    if t == 0 {
    } else {
        lemma_dot_split_at(s.drop_first(), t - 1);
    }
}

/// Where the first exponent marker sits: `exp_split` points at a marker, or
/// at the length when there is none, with no marker before it.
proof fn lemma_exp_split_props(s: Seq<char>)
    ensures
        0 <= exp_split(s) <= s.len(),
        exp_split(s) < s.len() ==> (s[exp_split(s)] == 'e' || s[exp_split(s)] == 'E'),
        forall|l: int| 0 <= l < exp_split(s) ==> #[trigger] s[l] != 'e' && s[l] != 'E',
    decreases s.len(),
{
    if s.len() == 0 {
    } else if s[0] == 'e' || s[0] == 'E' {
    } else {
        lemma_exp_split_props(s.drop_first());
        assert forall|l: int| 0 <= l < exp_split(s) implies #[trigger] s[l] != 'e' && s[l]
            != 'E' by {
            if l > 0 {
                assert(s.drop_first()[l - 1] == s[l]);
            }
        }
    }
}

proof fn lemma_exp_split_ge(s: Seq<char>, t: int)
    requires
        0 <= t <= s.len(),
        forall|l: int| 0 <= l < t ==> #[trigger] s[l] != 'e' && s[l] != 'E',
    ensures
        exp_split(s) >= t,
{
    lemma_exp_split_props(s);
    if exp_split(s) < t {
        assert(s[exp_split(s)] != 'e' && s[exp_split(s)] != 'E');
    }
}

proof fn lemma_digits_val_bounds(s: Seq<char>)
    requires
        all_digits(s),
    ensures
        0 <= digits_val(s) < pow10(s.len() as nat),
    decreases s.len(),
{
    if s.len() == 0 {
    } else {
        assert(all_digits(s.drop_last()));
        lemma_digits_val_bounds(s.drop_last());
        let p = pow10((s.len() - 1) as nat);
        assert(pow10(s.len() as nat) == 10 * p);
        assert(0 <= digits_val(s.drop_last()) * 10 && digits_val(s.drop_last()) * 10 + 10 <= 10
            * p) by (nonlinear_arith)
            requires
                0 <= digits_val(s.drop_last()) < p,
        ;
    }
}

proof fn lemma_pow10_pos(e: nat)
    ensures
        pow10(e) >= 1,
    decreases e,
{
    if e == 0 {
    } else {
        lemma_pow10_pos((e - 1) as nat);
    }
}

proof fn lemma_pow10_mono(a: nat, b: nat)
    requires
        a <= b,
    ensures
        1 <= pow10(a) <= pow10(b),
    decreases b,
{
    lemma_pow10_pos(a);
    if a < b {
        lemma_pow10_mono(a, (b - 1) as nat);
    }
}

/// The value of one more digit appended to a digit string.
proof fn lemma_digits_val_step(d: Seq<char>, t: int)
    requires
        0 <= t < d.len(),
    ensures
        digits_val(d.take(t + 1)) == digits_val(d.take(t)) * 10 + digit_val(d[t]),
{
    assert(d.take(t + 1).drop_last() =~= d.take(t));
    assert(d.take(t + 1).last() == d[t]);
}

/// The scanned mantissa: all digits around at most one point make it valid,
/// with the recorded digits and point position naming its parts.
proof fn mantissa_shape(s: Seq<char>, k: int, dot_pos: Option<int>, digs: Seq<char>, ilen: int)
    requires
        exp_split(after_sign(s)) == k,
        0 <= k <= after_sign(s).len(),
        match dot_pos {
            Option::None => {
                &&& (forall|l: int| 0 <= l < k ==> is_digit(#[trigger] after_sign(s)[l]))
                &&& digs =~= after_sign(s).take(k)
                &&& ilen == k
            },
            Option::Some(dp) => {
                &&& 0 <= dp < k
                &&& after_sign(s)[dp] == '.'
                &&& (forall|l: int|
                    0 <= l < k && l != dp ==> is_digit(#[trigger] after_sign(s)[l]))
                &&& digs =~= after_sign(s).take(dp) + after_sign(s).subrange(dp + 1, k)
                &&& ilen == dp
            },
        },
        digs.len() > 0,
    ensures
        valid_mantissa(mantissa_of(s)),
        digs == all_mantissa_digits(s),
        ilen == int_part(mantissa_of(s)).len(),
        has_exp(s) == (k < after_sign(s).len()),
    {
    let b = after_sign(s);
    let m = mantissa_of(s);
    assert(m =~= b.take(k));
    match dot_pos {
        Option::None => {
            lemma_dot_split_at(m, m.len() as int);
            assert(int_part(m) =~= m);
            assert(all_mantissa_digits(s) =~= m);
        },
        Option::Some(dp) => {
            lemma_dot_split_at(m, dp);
            assert(int_part(m) =~= b.take(dp));
            assert(frac_part(m) =~= b.subrange(dp + 1, k));
            assert(all_mantissa_digits(s) =~= b.take(dp) + b.subrange(dp + 1, k));
        },
    }
}

/// A scan that ends with no digits at all leaves no numeral.
proof fn mantissa_invalid_empty(s: Seq<char>, k: int, dot_pos: Option<int>)
    requires
        0 <= k <= after_sign(s).len(),
        k == after_sign(s).len() || after_sign(s)[k] == 'e' || after_sign(s)[k] == 'E',
        match dot_pos {
            Option::None => {
                &&& (forall|l: int| 0 <= l < k ==> is_digit(#[trigger] after_sign(s)[l]))
                &&& after_sign(s).take(k).len() == 0
            },
            Option::Some(dp) => {
                &&& 0 <= dp < k
                &&& after_sign(s)[dp] == '.'
                &&& (forall|l: int|
                    0 <= l < k && l != dp ==> is_digit(#[trigger] after_sign(s)[l]))
                &&& (after_sign(s).take(dp) + after_sign(s).subrange(dp + 1, k)).len() == 0
            },
        },
    ensures
        !valid_numeral(s),
{
    let b = after_sign(s);
    lemma_exp_split_at(b, k);
    let m = mantissa_of(s);
    assert(m =~= b.take(k));
    match dot_pos {
        Option::None => {
            assert(k == 0);
            lemma_dot_split_at(m, 0);
            assert(int_part(m).len() == 0);
            assert(frac_part(m).len() == 0);
        },
        Option::Some(dp) => {
            assert(dp == 0 && k == 1);
            lemma_dot_split_at(m, 0);
            assert(int_part(m).len() == 0);
            assert(frac_part(m) =~= m.skip(1));
            assert(frac_part(m).len() == 0);
        },
    }
}

/// A character that is neither a digit, a first point, nor an exponent
/// marker leaves no numeral.
proof fn mantissa_invalid_char(s: Seq<char>, k: int, dot_pos: Option<int>)
    requires
        0 <= k < after_sign(s).len(),
        !is_digit(after_sign(s)[k]),
        after_sign(s)[k] != 'e' && after_sign(s)[k] != 'E',
        match dot_pos {
            Option::None => {
                &&& after_sign(s)[k] != '.'
                &&& (forall|l: int| 0 <= l < k ==> is_digit(#[trigger] after_sign(s)[l]))
            },
            Option::Some(dp) => {
                &&& 0 <= dp < k
                &&& after_sign(s)[dp] == '.'
                &&& (forall|l: int|
                    0 <= l < k && l != dp ==> is_digit(#[trigger] after_sign(s)[l]))
            },
        },
    ensures
        !valid_numeral(s),
{
    let b = after_sign(s);
    lemma_exp_split_ge(b, k + 1);
    lemma_exp_split_le(b);
    let es = exp_split(b);
    let m = mantissa_of(s);
    assert(m.len() == es);
    assert(m[k] == b[k]);
    match dot_pos {
        Option::None => {
            // Every scanned character is a digit, so the point is not yet
            // seen; the bad character sits in the integer part.
            assert forall|l: int| 0 <= l < k + 1 implies #[trigger] m[l] != '.' by {
                assert(m[l] == b[l]);
            }
            lemma_dot_split_le(m);
            let ds = dot_split(m);
            if ds <= k {
                assert(m[ds] == '.');
                assert(false);
            }
            assert(int_part(m)[k] == m[k]);
            assert(!all_digits(int_part(m)));
        },
        Option::Some(dp) => {
            lemma_dot_split_at(m, dp);
            assert(dot_split(m) < m.len());
            assert(frac_part(m) =~= m.skip(dp + 1));
            assert(frac_part(m)[k - dp - 1] == m[k]);
            assert(!all_digits(frac_part(m)));
        },
    }
}

proof fn lemma_dot_split_le(s: Seq<char>)
    ensures
        0 <= dot_split(s) <= s.len(),
        dot_split(s) < s.len() ==> s[dot_split(s)] == '.',
    decreases s.len(),
{
    if s.len() == 0 {
    } else if s[0] == '.' {
    } else {
        lemma_dot_split_le(s.drop_first());
    }
}

proof fn lemma_exp_split_le(s: Seq<char>)
    ensures
        0 <= exp_split(s) <= s.len(),
    decreases s.len(),
{
    if s.len() == 0 {
    } else if s[0] == 'e' || s[0] == 'E' {
    } else {
        lemma_exp_split_le(s.drop_first());
    }
}

proof fn lemma_pow10_step(e: nat)
    ensures
        pow10(e + 1) == 10 * pow10(e),
{
    assert(pow10(e + 1) == 10 * pow10((e + 1 - 1) as nat));
}

/// The exec scan and the numeral agree on which side of the digits the
/// point lands, including where the exponent accumulator has saturated.
proof fn numeral_cases(
    s: Seq<char>,
    d: Seq<char>,
    p: int,
    e_acc: int,
    eneg: bool,
    seen_exp: bool,
    ilen: int,
    dlen: int,
)
    requires
        d == all_mantissa_digits(s),
        dlen == d.len(),
        ilen == int_part(mantissa_of(s)).len(),
        0 <= ilen <= dlen,
        dlen + 12 < EXP_SAT as int,
        seen_exp == has_exp(s),
        seen_exp ==> eneg == (sign_of(exp_part(s)) == -1),
        seen_exp ==> 0 <= e_acc <= 10 * (EXP_SAT as int),
        seen_exp ==> ((e_acc == digits_val(after_sign(exp_part(s))) && e_acc < EXP_SAT as int) || (
        e_acc >= EXP_SAT as int && digits_val(after_sign(exp_part(s))) >= EXP_SAT as int)),
        p == ilen + if seen_exp {
            if eneg {
                -e_acc
            } else {
                e_acc
            }
        } else {
            0int
        },
    ensures
        (p <= 0) == (point_pos(s) <= 0),
        p > 0 ==> ((p <= dlen) == (point_pos(s) <= dlen)),
        0 < p && p <= dlen ==> p == point_pos(s),
        p > dlen ==> ((p - dlen > 11) == (point_pos(s) - dlen > 11)),
        p > dlen && p - dlen <= 11 ==> p == point_pos(s),
{
    if !seen_exp {
        assert(point_pos(s) == ilen);
    } else {
        let xb = after_sign(exp_part(s));
        let ev = exp_val(exp_part(s));
        assert(sign_of(exp_part(s)) == -1 || sign_of(exp_part(s)) == 1);
        if eneg {
            assert(ev == -1 * digits_val(xb));
            assert(ev == -digits_val(xb));
        } else {
            assert(ev == 1 * digits_val(xb));
            assert(ev == digits_val(xb));
        }
        if e_acc < EXP_SAT as int {
            assert(e_acc == digits_val(xb));
            assert(p == point_pos(s));
        } else {
            assert(digits_val(xb) >= EXP_SAT as int);
            if eneg {
                assert(p <= ilen - EXP_SAT as int);
                assert(point_pos(s) == ilen - digits_val(xb));
                assert(p <= 0 && point_pos(s) <= 0);
            } else {
                assert(p >= e_acc >= EXP_SAT as int);
                assert(point_pos(s) == ilen + digits_val(xb));
                assert(p > dlen && point_pos(s) > dlen);
                assert(p - dlen > 11 && point_pos(s) - dlen > 11);
            }
        }
    }
}

/// A positive digit string shifted left by more than eleven places is past
/// every 32-bit value.
proof fn magnitude_saturated_by_shift(d: Seq<char>, shift: int)
    requires
        all_digits(d),
        digits_val(d) >= 1,
        shift > 11,
    ensures
        digits_val(d) * pow10(shift as nat) >= MAG_SAT,
{
    lemma_pow10_mono(12, shift as nat);
    assert(pow10(12) == 1000000000000) by {
        reveal_with_fuel(pow10, 13);
    }
    assert(digits_val(d) * pow10(shift as nat) >= pow10(shift as nat)) by (nonlinear_arith)
        requires
            digits_val(d) >= 1 && pow10(shift as nat) >= 1,
    ;
}

/// Reads a coordinate field: the value of the numeral, truncated toward
/// zero and saturated at the 32-bit bounds; a malformed field reads as zero.
#[verifier::rlimit(100)]
pub fn parse_coord(s: &str) -> (r: i32)
    ensures
        match parsed_coord(s@) {
            Some(v) => r == v,
            None => r == 0,
        },
{
    let n = s.unicode_len();
    // Sign.
    let mut i: usize = 0;
    let mut neg = false;
    if n > 0 {
        let c0 = s.get_char(0);
        if c0 == '-' {
            neg = true;
            i = 1;
        } else if c0 == '+' {
            i = 1;
        }
    }
    let ghost b = after_sign(s@);
    let ghost off = n - b.len();
    proof {
        assert(b =~= s@.skip(off as int));
        assert(off == i);
        assert(neg == (sign_of(s@) == -1));
    }
    // Mantissa: digits with at most one point, up to an exponent marker.
    let mut digs: Vec<char> = Vec::new();
    let mut ilen: usize = 0;
    let ghost mut dot_pos: Option<int> = None;
    let mut seen_dot = false;
    let mut seen_exp = false;
    while i < n && !seen_exp
        invariant
            n == s@.len(),
            off <= i <= n,
            b == after_sign(s@),
            b =~= s@.skip(off as int),
            off == n - b.len(),
            seen_dot == dot_pos is Some,
            !seen_exp ==> ({
                let k = i - off;
                &&& 0 <= k <= b.len()
                &&& match dot_pos {
                    Option::None => {
                        &&& (forall|l: int| 0 <= l < k ==> is_digit(#[trigger] b[l]))
                        &&& digs@ =~= b.take(k as int)
                        &&& ilen == k
                    },
                    Option::Some(dp) => {
                        &&& 0 <= dp < k
                        &&& b[dp] == '.'
                        &&& (forall|l: int| 0 <= l < k && l != dp ==> is_digit(#[trigger] b[l]))
                        &&& digs@ =~= b.take(dp) + b.subrange(dp + 1, k as int)
                        &&& ilen == dp
                    },
                }
            }),
            seen_exp ==> ({
                let k = i - 1 - off;
                &&& 0 <= k < b.len()
                &&& exp_split(b) == k
                &&& i - off <= b.len()
                &&& valid_mantissa(mantissa_of(s@))
                &&& digs@ == all_mantissa_digits(s@)
                &&& ilen == int_part(mantissa_of(s@)).len()
                &&& digs@.len() > 0
                &&& has_exp(s@)
                &&& exp_part(s@) =~= s@.skip(i as int)
            }),
            all_digits(digs@),
            ilen <= digs@.len(),
        decreases n - i,
    {
        let c = s.get_char(i);
        let ghost k = i - off;
        proof {
            assert(b[k as int] == c);
        }
        let u = c as u32;
        if 48 <= u && u <= 57 {
            digs.push(c);
            if !seen_dot {
                ilen = ilen + 1;
            }
            proof {
                match dot_pos {
                    Option::None => {
                        assert(digs@ =~= b.take(k + 1));
                    },
                    Option::Some(dp) => {
                        assert(digs@ =~= b.take(dp) + b.subrange(dp + 1, k + 1));
                    },
                }
            }
            i = i + 1;
        } else if c == '.' && !seen_dot {
            seen_dot = true;
            proof {
                dot_pos = Some(k as int);
                assert(digs@ =~= b.take(k as int) + b.subrange(k + 1, k + 1));
            }
            i = i + 1;
        } else if c == 'e' || c == 'E' {
            // End of the mantissa; check that it holds a digit at all.
            if digs.len() == 0 {
                proof {
                    mantissa_invalid_empty(s@, k as int, dot_pos);
                }
                return 0;
            }
            seen_exp = true;
            i = i + 1;
            proof {
                lemma_exp_split_at(b, k as int);
                mantissa_shape(s@, k as int, dot_pos, digs@, ilen as int);
                assert(exp_part(s@) =~= s@.skip(i as int));
            }
        } else {
            // Not a digit, point, or exponent marker: no numeral.
            proof {
                mantissa_invalid_char(s@, k as int, dot_pos);
            }
            return 0;
        }
    }
    if !seen_exp {
        // The whole input is the mantissa.
        let ghost k = b.len() as int;
        if digs.len() == 0 {
            proof {
                mantissa_invalid_empty(s@, k, dot_pos);
            }
            return 0;
        }
        proof {
            lemma_exp_split_at(b, k);
            mantissa_shape(s@, k, dot_pos, digs@, ilen as int);
        }
    }
    // Exponent, where one is marked.
    let mut e_acc: u128 = 0;
    let mut eneg = false;
    if seen_exp {
        let ghost x = exp_part(s@);
        if i < n {
            let c = s.get_char(i);
            if c == '-' {
                eneg = true;
                i = i + 1;
            } else if c == '+' {
                i = i + 1;
            }
        }
        let ghost xb = after_sign(x);
        let ghost xoff = n - xb.len();
        proof {
            assert(xb.len() <= x.len() <= n);
            assert(0 <= xoff);
            assert(xb =~= s@.skip(xoff as int));
            assert(xoff == i);
            assert(eneg == (sign_of(x) == -1));
        }
        if i == n {
            // An empty exponent: no numeral.
            proof {
                assert(after_sign(exp_part(s@)).len() == 0);
                assert(!valid_exp(exp_part(s@)));
            }
            return 0;
        }
        while i < n
            invariant
                n == s@.len(),
                0 <= xoff,
                xoff <= i <= n,
                has_exp(s@),
                x == exp_part(s@),
                xb == after_sign(x),
                xb =~= s@.skip(xoff as int),
                xoff == n - xb.len(),
                xb.len() > 0,
                all_digits(xb.take((i - xoff) as int)),
                e_acc <= 10 * EXP_SAT,
                (e_acc == digits_val(xb.take((i - xoff) as int)) && e_acc < EXP_SAT) || (e_acc
                    >= EXP_SAT && digits_val(xb.take((i - xoff) as int)) >= EXP_SAT),
            decreases n - i,
        {
            let c = s.get_char(i);
            let ghost t = (i - xoff) as int;
            proof {
                assert(0 <= t < xb.len());
                assert(s@[i as int] == c);
                assert(xb[t] == s@.skip(xoff as int)[t]);
                assert(s@.skip(xoff as int)[t] == s@[t + xoff]);
                assert(t + xoff == i);
                assert(xb[t] == c);
            }
            let u = c as u32;
            if !(48 <= u && u <= 57) {
                // A non-digit inside the exponent: no numeral.
                proof {
                    assert(!is_digit(after_sign(exp_part(s@))[t]));
                    assert(!valid_exp(exp_part(s@)));
                }
                return 0;
            }
            proof {
                lemma_digits_val_step(xb, t);
                lemma_digits_val_bounds(xb.take(t));
                if e_acc >= EXP_SAT {
                    assert(digits_val(xb.take(t + 1)) >= digits_val(xb.take(t)))
                        by (nonlinear_arith)
                        requires
                            digits_val(xb.take(t + 1)) == digits_val(xb.take(t)) * 10 + digit_val(
                                xb[t],
                            ),
                            digit_val(xb[t]) >= 0,
                            digits_val(xb.take(t)) >= 0,
                    ;
                }
            }
            if e_acc < EXP_SAT {
                e_acc = e_acc * 10 + ((u - 48) as u128);
            }
            i = i + 1;
        }
        proof {
            assert(xb.take(xb.len() as int) =~= xb);
            assert(valid_exp(exp_part(s@)));
        }
    }
    proof {
        assert(valid_numeral(s@));
    }
    // Where the decimal point lands once the exponent is applied.
    let dlen = digs.len();
    let e_signed: i128 = if eneg {
        -(e_acc as i128)
    } else {
        e_acc as i128
    };
    let p: i128 = if seen_exp {
        (ilen as i128) + e_signed
    } else {
        ilen as i128
    };
    let ghost d = digs@;
    let ghost pp = point_pos(s@);
    proof {
        numeral_cases(
            s@,
            d,
            p as int,
            e_acc as int,
            eneg,
            seen_exp,
            ilen as int,
            dlen as int,
        );
    }
    // Read the digits left of the point.
    let t: usize = if p <= 0 {
        0
    } else if p <= dlen as i128 {
        p as usize
    } else {
        dlen
    };
    let mut acc: i128 = 0;
    let mut w: usize = 0;
    while w < t
        invariant
            t <= dlen,
            dlen == d.len(),
            d == digs@,
            all_digits(d),
            w <= t,
            0 <= acc <= 10 * MAG_SAT,
            (acc == digits_val(d.take(w as int)) && acc < MAG_SAT) || (acc >= MAG_SAT && digits_val(
                d.take(w as int),
            ) >= MAG_SAT),
        decreases t - w,
    {
        let c = digs[w];
        let u = c as u32;
        proof {
            lemma_digits_val_step(d, w as int);
            lemma_digits_val_bounds(d.take(w as int));
            if acc >= MAG_SAT {
                assert(digits_val(d.take(w + 1)) >= digits_val(d.take(w as int)))
                    by (nonlinear_arith)
                    requires
                        digits_val(d.take(w + 1)) == digits_val(d.take(w as int)) * 10 + digit_val(
                            d[w as int],
                        ),
                        digit_val(d[w as int]) >= 0,
                        digits_val(d.take(w as int)) >= 0,
                ;
            }
        }
        if acc < MAG_SAT {
            acc = acc * 10 + ((u - 48) as i128);
        }
        w = w + 1;
    }
    // Zeroes stand in where the point moves past the last digit.
    if p > dlen as i128 && acc > 0 {
        proof {
            assert(d.take(dlen as int) =~= d);
        }
        let extra: i128 = p - (dlen as i128);
        if extra > 11 {
            proof {
                if acc < MAG_SAT {
                    assert(digits_val(d) == acc >= 1);
                } else {
                    lemma_digits_val_bounds(d);
                    assert(digits_val(d) >= MAG_SAT >= 1);
                }
                magnitude_saturated_by_shift(d, pp - dlen);
            }
            acc = MAG_SAT;
        } else {
            let mut z: i128 = 0;
            proof {
                assert(digits_val(d) * pow10(0) == digits_val(d)) by (nonlinear_arith)
                    requires
                        pow10(0) == 1,
                ;
            }
            while z < extra
                invariant
                    0 < extra <= 11,
                    0 <= z <= extra,
                    all_digits(d),
                    1 <= acc <= 10 * MAG_SAT,
                    (acc == digits_val(d) * pow10(z as nat) && acc < MAG_SAT) || (acc >= MAG_SAT
                        && digits_val(d) * pow10(z as nat) >= MAG_SAT),
                decreases extra - z,
            {
                proof {
                    lemma_pow10_mono(0, z as nat);
                    lemma_digits_val_bounds(d);
                    lemma_pow10_step(z as nat);
                    assert(digits_val(d) * pow10((z + 1) as nat) == (digits_val(d) * pow10(
                        z as nat,
                    )) * 10) by (nonlinear_arith)
                        requires
                            pow10((z + 1) as nat) == 10 * pow10(z as nat),
                    ;
                    if acc >= MAG_SAT {
                        assert(digits_val(d) * pow10(z as nat) >= 0) by (nonlinear_arith)
                            requires
                                digits_val(d) >= 0 && pow10(z as nat) >= 1,
                        ;
                        assert((digits_val(d) * pow10(z as nat)) * 10 >= digits_val(d) * pow10(
                            z as nat,
                        )) by (nonlinear_arith)
                            requires
                                digits_val(d) * pow10(z as nat) >= 0,
                        ;
                    }
                }
                if acc < MAG_SAT {
                    acc = acc * 10;
                }
                z = z + 1;
            }
        }
    }
    proof {
        // The accumulator matches the magnitude, or both have passed the
        // 32-bit range.
        let mag = numeral_magnitude(s@);
        if p <= 0 {
            assert(acc == 0 && mag == 0);
        } else if p <= dlen as i128 {
            assert(pp == p);
            assert(mag == digits_val(d.take(p as int)));
        } else {
            assert(d.take(dlen as int) =~= d);
            if acc == 0 {
                assert(acc == digits_val(d.take(w as int)));
                assert(digits_val(d) == 0);
                assert(mag == digits_val(d) * pow10((pp - dlen) as nat));
                assert(digits_val(d) * pow10((pp - dlen) as nat) == 0) by (nonlinear_arith)
                    requires
                        digits_val(d) == 0,
                ;
            } else if p - (dlen as i128) > 11 {
                assert(mag >= MAG_SAT);
            } else {
                assert(pp == p);
                assert(mag == digits_val(d) * pow10((p - dlen) as nat));
            }
        }
        assert((acc == mag && acc < MAG_SAT) || (acc >= MAG_SAT && mag >= MAG_SAT));
    }
    // Sign and 32-bit clip.
    let v: i128 = if neg {
        -acc
    } else {
        acc
    };
    if v > 2147483647 {
        2147483647i32
    } else if v < -2147483648 {
        -2147483648i32
    } else {
        v as i32
    }
}

} // verus!
