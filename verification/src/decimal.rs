//! Exact decimal formatting of funding rates.
//!
//! A funding rate arrives from the market-data endpoint as a plain decimal
//! string such as `"0.0001234"`.  The alert shows it as a percentage with
//! exactly four digits after the decimal point: the value is multiplied by
//! one hundred and rounded to four fractional digits, half away from zero
//! (`"0.0001234"` becomes `"0.0123"`, `"-0.0005"` becomes `"-0.0500"`).
//! Everything here is exact digit arithmetic; no floating point is involved.
use vstd::prelude::*;
use vstd::arithmetic::div_mod::lemma_fundamental_div_mod_converse;

verus! {

// ---------------------------------------------------------------------------
// Digit characters.
// ---------------------------------------------------------------------------
/// A decimal digit character `'0'..='9'`.
pub open spec fn is_digit(c: char) -> bool {
    48 <= c as u32 && c as u32 <= 57
}

/// Numeric value of a digit character.
pub open spec fn digit_val(c: char) -> int {
    c as u32 - 48
}

/// The digit character for a value in `0..=9`.
pub open spec fn char_of_digit(d: int) -> char {
    if d == 0 {
        '0'
    } else if d == 1 {
        '1'
    } else if d == 2 {
        '2'
    } else if d == 3 {
        '3'
    } else if d == 4 {
        '4'
    } else if d == 5 {
        '5'
    } else if d == 6 {
        '6'
    } else if d == 7 {
        '7'
    } else if d == 8 {
        '8'
    } else {
        '9'
    }
}

pub proof fn lemma_digit_char_roundtrip(d: int)
    requires
        0 <= d <= 9,
    ensures
        is_digit(char_of_digit(d)),
        digit_val(char_of_digit(d)) == d,
{
}

pub proof fn lemma_char_digit_roundtrip(c: char)
    requires
        is_digit(c),
    ensures
        0 <= digit_val(c) <= 9,
        char_of_digit(digit_val(c)) == c,
{
}

// ---------------------------------------------------------------------------
// The shape of a plain decimal string: an optional sign, then digits with at
// most one point and at least one digit (`"12"`, `"-0.5"`, `".5"`, `"3."`).
// ---------------------------------------------------------------------------
/// First index at or after `i` that does not hold a digit.
pub open spec fn scan_digits(s: Seq<char>, i: int) -> int
    decreases s.len() - i,
{
    if 0 <= i < s.len() && is_digit(s[i]) {
        scan_digits(s, i + 1)
    } else {
        i
    }
}

pub proof fn lemma_scan_digits_exact(s: Seq<char>, i: int, j: int)
    requires
        0 <= i <= j <= s.len(),
        forall|k: int| i <= k < j ==> is_digit(#[trigger] s[k]),
        j == s.len() || !is_digit(s[j]),
    ensures
        scan_digits(s, i) == j,
    decreases j - i,
{
    if i < j {
        assert(is_digit(s[i]));
        lemma_scan_digits_exact(s, i + 1, j);
    }
}

/// Length of the sign prefix: one for a leading `'+'` or `'-'`, else zero.
pub open spec fn sign_len(s: Seq<char>) -> int {
    if s.len() > 0 && (s[0] == '+' || s[0] == '-') {
        1
    } else {
        0
    }
}

/// End of the run of integer-part digits.
pub open spec fn int_end(s: Seq<char>) -> int {
    scan_digits(s, sign_len(s))
}

/// Whether `s` is a plain decimal numeral: an optional sign, digits, an
/// optional point followed by digits, with at least one digit in all.
pub open spec fn is_decimal_string(s: Seq<char>) -> bool {
    let p = sign_len(s);
    let ie = int_end(s);
    if ie == s.len() {
        ie > p
    } else {
        s[ie] == '.' && scan_digits(s, ie + 1) == s.len() && (ie > p || s.len() > ie + 1)
    }
}

pub open spec fn is_negative(s: Seq<char>) -> bool {
    s.len() > 0 && s[0] == '-'
}

/// The digits before the decimal point.
pub open spec fn int_digits(s: Seq<char>) -> Seq<char> {
    s.subrange(sign_len(s), int_end(s))
}

/// The digits after the decimal point, empty when there is no point.
pub open spec fn frac_digits(s: Seq<char>) -> Seq<char> {
    if int_end(s) == s.len() {
        Seq::<char>::empty()
    } else {
        s.subrange(int_end(s) + 1, s.len() as int)
    }
}

/// Value of a digit-character sequence read in base ten.
pub open spec fn digits_val(s: Seq<char>) -> int
    decreases s.len(),
{
    if s.len() == 0 {
        0
    } else {
        10 * digits_val(s.drop_last()) + digit_val(s.last())
    }
}

/// All digits of the numeral, read as one integer (the value scaled by
/// ten to the number of fractional digits).
pub open spec fn mantissa(s: Seq<char>) -> int {
    digits_val(int_digits(s) + frac_digits(s))
}

/// Number of fractional digits of the numeral.
pub open spec fn scale(s: Seq<char>) -> nat {
    frac_digits(s).len()
}

// ---------------------------------------------------------------------------
// The value of the formatted output, in ten-thousandths of a percent.
// ---------------------------------------------------------------------------
pub open spec fn pow10(n: nat) -> int
    decreases n,
{
    if n == 0 {
        1
    } else {
        10 * pow10((n - 1) as nat)
    }
}

pub proof fn lemma_pow10_pos(n: nat)
    ensures
        pow10(n) >= 1,
    decreases n,
{
    if n > 0 {
        lemma_pow10_pos((n - 1) as nat);
    }
}

/// The output shows the rate times one hundred with four fractional digits,
/// so its value in units of the last place is the mantissa shifted by six
/// places and rounded half away from zero.
pub open spec fn scaled_value(m: int, f: nat) -> int {
    if f <= 6 {
        m * pow10((6 - f) as nat)
    } else {
        let d = pow10((f - 6) as nat);
        if 2 * (m % d) >= d {
            m / d + 1
        } else {
            m / d
        }
    }
}

/// Canonical decimal digits of a non-negative integer, without leading
/// zeros (`"0"` for zero).
pub open spec fn digits_of(n: nat) -> Seq<char>
    decreases n,
{
    if n < 10 {
        seq![char_of_digit(n as int)]
    } else {
        digits_of(n / 10) + seq![char_of_digit(n as int % 10)]
    }
}

/// A value below ten thousand as exactly four digits.
pub open spec fn pad4(n: int) -> Seq<char> {
    seq![
        char_of_digit(n / 1000 % 10),
        char_of_digit(n / 100 % 10),
        char_of_digit(n / 10 % 10),
        char_of_digit(n % 10),
    ]
}

/// The formatted funding rate for a decimal numeral `s`: the sign, the
/// integer part of the scaled value, a point, and four fractional digits.
pub open spec fn formatted_rate(s: Seq<char>) -> Seq<char> {
    let n = scaled_value(mantissa(s), scale(s));
    let sign = if is_negative(s) {
        seq!['-']
    } else {
        Seq::<char>::empty()
    };
    sign + digits_of((n / 10000) as nat) + seq!['.'] + pad4(n % 10000)
}

// ---------------------------------------------------------------------------
// Digit vectors: the executable code works on vectors of digit values.
// ---------------------------------------------------------------------------
/// Every entry is a digit value.
pub open spec fn vals_ok(d: Seq<u8>) -> bool {
    forall|i: int| 0 <= i < d.len() ==> #[trigger] d[i] <= 9
}

/// Value of a digit-value sequence read in base ten.
pub open spec fn val_of(d: Seq<u8>) -> int
    decreases d.len(),
{
    if d.len() == 0 {
        0
    } else {
        10 * val_of(d.drop_last()) + d.last()
    }
}

/// The digit characters of a digit-value sequence.
pub open spec fn chars_of(d: Seq<u8>) -> Seq<char> {
    d.map_values(|x: u8| char_of_digit(x as int))
}

pub proof fn lemma_val_of_concat(a: Seq<u8>, b: Seq<u8>)
    ensures
        val_of(a + b) == val_of(a) * pow10(b.len()) + val_of(b),
    decreases b.len(),
{
    if b.len() == 0 {
        assert(a + b =~= a);
    } else {
        lemma_val_of_concat(a, b.drop_last());
        assert((a + b).drop_last() =~= a + b.drop_last());
        assert((a + b).last() == b.last());
        let va = val_of(a);
        let p = pow10((b.len() - 1) as nat);
        assert(10 * (va * p) == va * (10 * p)) by (nonlinear_arith);
    }
}

pub proof fn lemma_val_of_bound(d: Seq<u8>)
    requires
        vals_ok(d),
    ensures
        0 <= val_of(d) < pow10(d.len()),
    decreases d.len(),
{
    if d.len() == 0 {
    } else {
        assert(vals_ok(d.drop_last()));
        lemma_val_of_bound(d.drop_last());
        assert(d.last() <= 9);
    }
}

pub proof fn lemma_chars_of_val(d: Seq<u8>)
    requires
        vals_ok(d),
    ensures
        chars_of(d).len() == d.len(),
        forall|i: int| 0 <= i < d.len() ==> is_digit(#[trigger] chars_of(d)[i]),
        digits_val(chars_of(d)) == val_of(d),
    decreases d.len(),
{
    if d.len() == 0 {
    } else {
        assert(vals_ok(d.drop_last()));
        lemma_chars_of_val(d.drop_last());
        assert(chars_of(d).drop_last() =~= chars_of(d.drop_last()));
        lemma_digit_char_roundtrip(d.last() as int);
        assert(chars_of(d).last() == char_of_digit(d.last() as int));
    }
}

pub proof fn lemma_val_of_single(x: u8)
    ensures
        val_of(seq![x]) == x as int,
{
    assert(seq![x].drop_last() =~= Seq::<u8>::empty());
    assert(seq![x].last() == x);
    assert(val_of(seq![x]) == 10 * val_of(Seq::<u8>::empty()) + x);
}

pub proof fn lemma_val_of_snoc(d: Seq<u8>, x: u8)
    ensures
        val_of(d.push(x)) == 10 * val_of(d) + x,
{
    assert(d.push(x).drop_last() =~= d);
    assert(d.push(x).last() == x);
    assert(val_of(d.push(x)) == 10 * val_of(d.push(x).drop_last()) + d.push(x).last());
}

pub proof fn lemma_val_of_first(d: Seq<u8>)
    requires
        d.len() >= 1,
    ensures
        val_of(d) == d[0] * pow10((d.len() - 1) as nat) + val_of(d.drop_first()),
{
    assert(d =~= seq![d[0]] + d.drop_first());
    lemma_val_of_concat(seq![d[0]], d.drop_first());
    lemma_val_of_single(d[0]);
}

/// A digit sequence with a non-zero first digit is at least the power of ten
/// of its remaining length.
pub proof fn lemma_val_of_leading(d: Seq<u8>)
    requires
        vals_ok(d),
        d.len() >= 1,
        d[0] >= 1,
    ensures
        val_of(d) >= pow10((d.len() - 1) as nat),
{
    lemma_val_of_first(d);
    assert(vals_ok(d.drop_first()));
    lemma_val_of_bound(d.drop_first());
    lemma_pow10_pos((d.len() - 1) as nat);
    let p = pow10((d.len() - 1) as nat);
    assert(d[0] * p >= p) by (nonlinear_arith)
        requires
            d[0] >= 1,
            p >= 1,
    ;
}

/// Dropping a leading zero keeps the value.
pub proof fn lemma_drop_leading_zero(d: Seq<u8>)
    requires
        d.len() >= 1,
        d[0] == 0,
    ensures
        val_of(d) == val_of(d.drop_first()),
{
    lemma_val_of_first(d);
}

/// The canonical decimal rendering of a digit sequence without leading zeros
/// is the sequence itself.
pub proof fn lemma_render(d: Seq<u8>)
    requires
        vals_ok(d),
        d.len() >= 1,
        d[0] != 0 || d.len() == 1,
    ensures
        chars_of(d) == digits_of(val_of(d) as nat),
    decreases d.len(),
{
    lemma_val_of_bound(d);
    let v = val_of(d);
    if d.len() == 1 {
        assert(d =~= seq![d[0]]);
        lemma_val_of_single(d[0]);
        assert(v == d[0] as int);
        assert(chars_of(d) =~= seq![char_of_digit(d[0] as int)]);
    } else {
        let e = d.drop_last();
        assert(vals_ok(e));
        lemma_render(e);
        assert(v == 10 * val_of(e) + d.last());
        lemma_val_of_leading(e);
        lemma_pow10_pos((e.len() - 1) as nat);
        assert(val_of(e) >= 1);
        assert(v >= 10);
        lemma_fundamental_div_mod_converse(v, 10, val_of(e), d.last() as int);
        assert(v / 10 == val_of(e));
        assert(v % 10 == d.last() as int);
        assert(digits_of(v as nat) == digits_of((v as nat) / 10) + seq![char_of_digit(v % 10)]);
        assert((v as nat) / 10 == val_of(e));
        assert(chars_of(d) =~= chars_of(e) + seq![char_of_digit(d.last() as int)]);
    }
}

/// Four digit values render as the four-digit padded form of their value.
pub proof fn lemma_pad4(d: Seq<u8>)
    requires
        vals_ok(d),
        d.len() == 4,
    ensures
        0 <= val_of(d) < 10000,
        chars_of(d) == pad4(val_of(d)),
{
    let v = val_of(d);
    let s1 = seq![d[0]];
    let s2 = s1.push(d[1]);
    let s3 = s2.push(d[2]);
    assert(d =~= s3.push(d[3]));
    lemma_val_of_single(d[0]);
    lemma_val_of_snoc(s1, d[1]);
    lemma_val_of_snoc(s2, d[2]);
    lemma_val_of_snoc(s3, d[3]);
    assert(v == ((d[0] * 10 + d[1]) * 10 + d[2]) * 10 + d[3]);
    let r3 = (d[1] * 10 + d[2]) * 10 + d[3];
    assert(v == d[0] * 1000 + r3);
    assert(0 <= r3 < 1000);
    lemma_fundamental_div_mod_converse(v, 1000, d[0] as int, r3);
    let r2 = d[2] * 10 + d[3];
    assert(v == (d[0] * 10 + d[1]) * 100 + r2);
    assert(0 <= r2 < 100);
    lemma_fundamental_div_mod_converse(v, 100, d[0] * 10 + d[1], r2);
    assert(v == ((d[0] * 10 + d[1]) * 10 + d[2]) * 10 + d[3]);
    lemma_fundamental_div_mod_converse(v, 10, (d[0] * 10 + d[1]) * 10 + d[2], d[3] as int);
    assert(v / 1000 % 10 == d[0] as int) by {
        lemma_fundamental_div_mod_converse(d[0] as int, 10, 0, d[0] as int);
    }
    assert(v / 100 % 10 == d[1] as int) by {
        lemma_fundamental_div_mod_converse(d[0] * 10 + d[1], 10, d[0] as int, d[1] as int);
    }
    assert(v / 10 % 10 == d[2] as int) by {
        lemma_fundamental_div_mod_converse(
            (d[0] * 10 + d[1]) * 10 + d[2],
            10,
            d[0] * 10 + d[1],
            d[2] as int,
        );
    }
    assert(v % 10 == d[3] as int);
    assert(chars_of(d) =~= pad4(v));
}

/// Whether the dropped tail is at least half of its place decides the
/// rounding, and its first digit alone tells.
pub proof fn lemma_round_condition(t: Seq<u8>)
    requires
        vals_ok(t),
        t.len() >= 1,
    ensures
        (2 * val_of(t) >= pow10(t.len())) <==> t[0] >= 5,
{
    lemma_val_of_first(t);
    assert(vals_ok(t.drop_first()));
    lemma_val_of_bound(t.drop_first());
    let p = pow10((t.len() - 1) as nat);
    lemma_pow10_pos((t.len() - 1) as nat);
    assert(pow10(t.len()) == 10 * p);
    if t[0] >= 5 {
        assert(t[0] * p >= 5 * p) by (nonlinear_arith)
            requires
                t[0] >= 5,
                p >= 1,
        ;
    } else {
        assert(t[0] * p <= 4 * p) by (nonlinear_arith)
            requires
                t[0] <= 4,
                p >= 1,
        ;
    }
}

/// Value of a run of nines.
pub proof fn lemma_val_of_nines(d: Seq<u8>)
    requires
        forall|i: int| 0 <= i < d.len() ==> #[trigger] d[i] == 9,
    ensures
        val_of(d) == pow10(d.len()) - 1,
    decreases d.len(),
{
    if d.len() > 0 {
        lemma_val_of_nines(d.drop_last());
    }
}

/// Value of a run of zeros.
pub proof fn lemma_val_of_zeros(d: Seq<u8>)
    requires
        forall|i: int| 0 <= i < d.len() ==> #[trigger] d[i] == 0,
    ensures
        val_of(d) == 0,
    decreases d.len(),
{
    if d.len() > 0 {
        lemma_val_of_zeros(d.drop_last());
    }
}

/// Leading zeros do not change the value of a digit sequence.
pub proof fn lemma_strip_zeros(d: Seq<u8>, s: int, e: int)
    requires
        0 <= s <= e <= d.len(),
        forall|k: int| 0 <= k < s ==> #[trigger] d[k] == 0,
    ensures
        val_of(d.subrange(s, e)) == val_of(d.subrange(0, e)),
    decreases s,
{
    if s > 0 {
        lemma_strip_zeros(d, s - 1, e);
        let t = d.subrange(s - 1, e);
        lemma_drop_leading_zero(t);
        assert(t.drop_first() =~= d.subrange(s, e));
    }
}

pub proof fn lemma_pow10_small()
    ensures
        pow10(0) == 1,
        pow10(1) == 10,
        pow10(2) == 100,
        pow10(3) == 1000,
        pow10(4) == 10000,
{
    reveal_with_fuel(pow10, 5);
}

// ---------------------------------------------------------------------------
// Executable formatting.
// ---------------------------------------------------------------------------
/// The numeric value of a digit character, or nothing for any other character.
fn char_digit_value(c: char) -> (r: Option<u8>)
    ensures
        r is Some <==> is_digit(c),
        r matches Some(v) ==> v as int == digit_val(c) && v <= 9,
{
    let u = c as u32;
    if 48 <= u && u <= 57 {
        Some((u - 48) as u8)
    } else {
        None
    }
}

/// Appends the character of one digit value to a string.
pub(crate) fn push_digit_char(out: &mut String, d: u8)
    requires
        d <= 9,
    ensures
        final(out)@ == old(out)@ + seq![char_of_digit(d as int)],
{
    match d {
        0 => {
            proof {
                reveal_strlit("0");
                assert("0"@ =~= seq![char_of_digit(0)]);
            }
            out.append("0");
        },
        1 => {
            proof {
                reveal_strlit("1");
                assert("1"@ =~= seq![char_of_digit(1)]);
            }
            out.append("1");
        },
        2 => {
            proof {
                reveal_strlit("2");
                assert("2"@ =~= seq![char_of_digit(2)]);
            }
            out.append("2");
        },
        3 => {
            proof {
                reveal_strlit("3");
                assert("3"@ =~= seq![char_of_digit(3)]);
            }
            out.append("3");
        },
        4 => {
            proof {
                reveal_strlit("4");
                assert("4"@ =~= seq![char_of_digit(4)]);
            }
            out.append("4");
        },
        5 => {
            proof {
                reveal_strlit("5");
                assert("5"@ =~= seq![char_of_digit(5)]);
            }
            out.append("5");
        },
        6 => {
            proof {
                reveal_strlit("6");
                assert("6"@ =~= seq![char_of_digit(6)]);
            }
            out.append("6");
        },
        7 => {
            proof {
                reveal_strlit("7");
                assert("7"@ =~= seq![char_of_digit(7)]);
            }
            out.append("7");
        },
        8 => {
            proof {
                reveal_strlit("8");
                assert("8"@ =~= seq![char_of_digit(8)]);
            }
            out.append("8");
        },
        _ => {
            proof {
                reveal_strlit("9");
                assert("9"@ =~= seq![char_of_digit(d as int)]);
            }
            out.append("9");
        },
    }
}

/// Adds one to the number held in a digit vector, carrying as needed.
fn increment_digits(d: &mut Vec<u8>)
    requires
        vals_ok(old(d)@),
    ensures
        vals_ok(final(d)@),
        val_of(final(d)@) == val_of(old(d)@) + 1,
        old(d)@.len() <= final(d)@.len() <= old(d)@.len() + 1,
{
    let ghost orig = old(d)@;
    let olen = d.len();
    let mut j: usize = olen;
    loop
        invariant_except_break
            forall|k: int| 0 <= k < j ==> #[trigger] d@[k] == orig[k],
        invariant
            0 <= j <= olen,
            d@.len() == olen,
            orig.len() == olen,
            vals_ok(orig),
            vals_ok(d@),
            forall|k: int| j <= k < olen ==> #[trigger] d@[k] == 0,
            forall|k: int| j <= k < olen ==> #[trigger] orig[k] == 9,
        ensures
            d@.len() == olen,
            vals_ok(d@),
            forall|k: int| j <= k < olen ==> #[trigger] d@[k] == 0,
            forall|k: int| j <= k < olen ==> #[trigger] orig[k] == 9,
            j > 0 ==> (forall|k: int| 0 <= k < j - 1 ==> #[trigger] d@[k] == orig[k]) && orig[j
                - 1] < 9 && d@[j - 1] == orig[j - 1] + 1,
        decreases j,
    {
        if j == 0 {
            break ;
        }
        let x = d[j - 1];
        if x == 9 {
            d.set(j - 1, 0);
            j = j - 1;
        } else {
            d.set(j - 1, x + 1);
            break ;
        }
    }
    proof {
        if j == 0 {
            lemma_val_of_nines(orig);
            lemma_val_of_zeros(d@);
        } else {
            let front_old = orig.subrange(0, j - 1);
            let front_new = d@.subrange(0, j - 1);
            assert(front_new =~= front_old);
            let head_old = orig.subrange(0, j as int);
            let head_new = d@.subrange(0, j as int);
            assert(head_old =~= front_old.push(orig[j - 1]));
            assert(head_new =~= front_old.push((orig[j - 1] + 1) as u8));
            lemma_val_of_snoc(front_old, orig[j - 1]);
            lemma_val_of_snoc(front_old, (orig[j - 1] + 1) as u8);
            assert(val_of(head_new) == val_of(head_old) + 1);
            let tail_old = orig.subrange(j as int, olen as int);
            let tail_new = d@.subrange(j as int, olen as int);
            assert(orig =~= head_old + tail_old);
            assert(d@ =~= head_new + tail_new);
            lemma_val_of_concat(head_old, tail_old);
            lemma_val_of_concat(head_new, tail_new);
            lemma_val_of_nines(tail_old);
            lemma_val_of_zeros(tail_new);
            let p = pow10((olen - j) as nat);
            assert((val_of(head_old) + 1) * p == val_of(head_old) * p + p) by (nonlinear_arith);
        }
    }
    if j == 0 {
        let ghost prev = d@;
        d.insert(0, 1);
        proof {
            assert(d@ =~= seq![1u8] + prev);
            lemma_val_of_concat(seq![1u8], prev);
            lemma_val_of_single(1u8);
            lemma_val_of_zeros(prev);
        }
    }
}

/// Splits a decimal numeral into its sign and its digit values before and
/// after the point; yields nothing when the text is not a plain numeral.
fn parse_decimal(raw: &str) -> (r: Option<(bool, Vec<u8>, Vec<u8>)>)
    ensures
        r is Some <==> is_decimal_string(raw@),
        r matches Some((neg, ip, fp)) ==> neg == is_negative(raw@) && vals_ok(ip@) && vals_ok(fp@)
            && chars_of(ip@) == int_digits(raw@) && chars_of(fp@) == frac_digits(raw@),
{
    let n = raw.unicode_len();
    let mut i: usize = 0;
    let mut neg = false;
    if n > 0 {
        let c0 = raw.get_char(0);
        if c0 == '-' {
            neg = true;
            i = 1;
        } else if c0 == '+' {
            i = 1;
        }
    }
    let ghost p = i as int;
    proof {
        assert(sign_len(raw@) == p);
        assert(is_negative(raw@) == neg);
    }
    let mut ip: Vec<u8> = Vec::new();
    loop
        invariant
            p <= i as int <= raw@.len(),
            raw@.len() == n as int,
            ip@.len() == i as int - p,
            vals_ok(ip@),
            forall|k: int| 0 <= k < ip@.len() ==> is_digit(#[trigger] raw@[p + k]),
            forall|k: int| 0 <= k < ip@.len() ==> (#[trigger] ip@[k]) as int == digit_val(
                raw@[p + k],
            ),
        ensures
            p <= i as int <= raw@.len(),
            ip@.len() == i as int - p,
            vals_ok(ip@),
            forall|k: int| 0 <= k < ip@.len() ==> is_digit(#[trigger] raw@[p + k]),
            forall|k: int| 0 <= k < ip@.len() ==> (#[trigger] ip@[k]) as int == digit_val(
                raw@[p + k],
            ),
            i as int == raw@.len() || !is_digit(raw@[i as int]),
        decreases n - i,
    {
        if i >= n {
            break ;
        }
        let c = raw.get_char(i);
        match char_digit_value(c) {
            Some(v) => {
                ip.push(v);
                i = i + 1;
            },
            None => {
                break ;
            },
        }
    }
    proof {
        assert forall|k: int| p <= k < i as int implies is_digit(raw@[k]) by {
            assert(is_digit(raw@[p + (k - p)]));
        };
        lemma_scan_digits_exact(raw@, p, i as int);
        assert(int_end(raw@) == i as int);
        assert(chars_of(ip@) =~= int_digits(raw@)) by {
            assert forall|k: int| 0 <= k < ip@.len() implies chars_of(ip@)[k] == int_digits(
                raw@,
            )[k] by {
                lemma_char_digit_roundtrip(raw@[p + k]);
            };
        };
    }
    let ghost ie = i as int;
    let mut fp: Vec<u8> = Vec::new();
    if i < n {
        let c = raw.get_char(i);
        if c != '.' {
            return None;
        }
        i = i + 1;
        let ghost fs = i as int;
        loop
            invariant
                fs <= i as int <= raw@.len(),
                raw@.len() == n as int,
                fs == ie + 1,
                fp@.len() == i as int - fs,
                vals_ok(fp@),
                forall|k: int| 0 <= k < fp@.len() ==> is_digit(#[trigger] raw@[fs + k]),
                forall|k: int| 0 <= k < fp@.len() ==> (#[trigger] fp@[k]) as int == digit_val(
                    raw@[fs + k],
                ),
            ensures
                fs <= i as int <= raw@.len(),
                fp@.len() == i as int - fs,
                vals_ok(fp@),
                forall|k: int| 0 <= k < fp@.len() ==> is_digit(#[trigger] raw@[fs + k]),
                forall|k: int| 0 <= k < fp@.len() ==> (#[trigger] fp@[k]) as int == digit_val(
                    raw@[fs + k],
                ),
                i as int == raw@.len() || !is_digit(raw@[i as int]),
            decreases n - i,
        {
            if i >= n {
                break ;
            }
            let c2 = raw.get_char(i);
            match char_digit_value(c2) {
                Some(v) => {
                    fp.push(v);
                    i = i + 1;
                },
                None => {
                    break ;
                },
            }
        }
        proof {
            assert forall|k: int| fs <= k < i as int implies is_digit(raw@[k]) by {
                assert(is_digit(raw@[fs + (k - fs)]));
            };
            lemma_scan_digits_exact(raw@, fs, i as int);
        }
        if i < n {
            return None;
        }
        proof {
            assert(chars_of(fp@) =~= frac_digits(raw@)) by {
                assert forall|k: int| 0 <= k < fp@.len() implies chars_of(fp@)[k] == frac_digits(
                    raw@,
                )[k] by {
                    lemma_char_digit_roundtrip(raw@[fs + k]);
                };
            };
        }
        if ip.len() == 0 && fp.len() == 0 {
            return None;
        }
        Some((neg, ip, fp))
    } else {
        proof {
            assert(chars_of(fp@) =~= frac_digits(raw@));
        }
        if ip.len() == 0 {
            return None;
        }
        Some((neg, ip, fp))
    }
}

/// Shifts the number held in `digs`, read with `b` fractional digits, six
/// places left and rounds half away from zero: afterwards the vector holds
/// the scaled value of the incoming reading.
fn scale_digits(digs: &mut Vec<u8>, b: usize)
    requires
        vals_ok(old(digs)@),
        b <= old(digs)@.len(),
    ensures
        vals_ok(final(digs)@),
        val_of(final(digs)@) == scaled_value(val_of(old(digs)@), b as nat),
        final(digs)@.len() >= 6,
{
    let ghost m = val_of(old(digs)@);
    let a = digs.len() - b;
    proof {
        lemma_val_of_bound(old(digs)@);
    }
    if b <= 6 {
        let mut z = b;
        while z < 6
            invariant
                b <= z <= 6,
                vals_ok(digs@),
                digs@.len() == a + b + (z - b),
                val_of(digs@) == m * pow10((z - b) as nat),
                m >= 0,
            decreases 6 - z,
        {
            let ghost prevd = digs@;
            digs.push(0);
            z = z + 1;
            proof {
                lemma_val_of_snoc(prevd, 0);
                let pz = pow10((z - 1 - b) as nat);
                assert(pow10((z - b) as nat) == 10 * pz);
                assert(m * (10 * pz) == 10 * (m * pz)) by (nonlinear_arith);
            }
        }
        proof {
            assert(val_of(digs@) == scaled_value(m, b as nat));
            assert(digs@.len() >= 6);
        }
    } else {
        let drop_count = b - 6;
        let cut = digs.len() - drop_count;
        let first_dropped = digs[cut];
        let ghost kept = digs@.subrange(0, cut as int);
        let ghost tail = digs@.subrange(cut as int, digs@.len() as int);
        proof {
            assert(digs@ =~= kept + tail);
            assert(vals_ok(kept));
            assert(vals_ok(tail));
            lemma_val_of_concat(kept, tail);
            lemma_val_of_bound(tail);
            lemma_val_of_bound(kept);
            lemma_pow10_pos(drop_count as nat);
            lemma_fundamental_div_mod_converse(
                m,
                pow10(drop_count as nat),
                val_of(kept),
                val_of(tail),
            );
            lemma_round_condition(tail);
            assert(tail[0] == digs@[cut as int]);
        }
        digs.truncate(cut);
        if first_dropped >= 5 {
            increment_digits(digs);
        }
        proof {
            assert(val_of(digs@) == scaled_value(m, b as nat));
            assert(digs@.len() >= 6);
        }
    }
}

/// Renders a scaled value held as digits: an optional minus sign, the
/// digits above the last four without leading zeros, a point, and the last
/// four digits.
fn render_scaled(neg: bool, digs: &Vec<u8>) -> (out: String)
    requires
        vals_ok(digs@),
        digs@.len() >= 5,
    ensures
        out@ == (if neg {
            seq!['-']
        } else {
            Seq::<char>::empty()
        }) + digits_of((val_of(digs@) / 10000) as nat) + seq!['.'] + pad4(val_of(digs@) % 10000),
{
    let ghost nval = val_of(digs@);
    proof {
        lemma_val_of_bound(digs@);
    }
    let total = digs.len();
            let flen = total - 4;
            let mut start: usize = 0;
            while start + 1 < flen && digs[start] == 0
                invariant
                    0 <= start < flen,
                    flen == digs@.len() - 4,
                    digs@.len() >= 5,
                    vals_ok(digs@),
                    forall|k: int| 0 <= k < start ==> #[trigger] digs@[k] == 0,
                decreases flen - start,
            {
                start = start + 1;
            }
            let ghost intpart = digs@.subrange(start as int, flen as int);
            let ghost fracpart = digs@.subrange(flen as int, total as int);
            proof {
                assert(vals_ok(intpart));
                assert(vals_ok(fracpart));
                lemma_strip_zeros(digs@, start as int, flen as int);
                assert(digs@ =~= digs@.subrange(0, flen as int) + fracpart);
                lemma_val_of_concat(digs@.subrange(0, flen as int), fracpart);
                lemma_val_of_bound(fracpart);
                lemma_pow10_small();
                lemma_fundamental_div_mod_converse(
                    nval,
                    10000,
                    val_of(digs@.subrange(0, flen as int)),
                    val_of(fracpart),
                );
                lemma_render(intpart);
                lemma_pad4(fracpart);
            }
            let mut out = String::new();
            let ghost sign_chars: Seq<char> = if neg {
                seq!['-']
            } else {
                Seq::<char>::empty()
            };
            if neg {
                proof {
                    reveal_strlit("-");
                }
                out.append("-");
            }
            proof {
                assert(out@ =~= sign_chars);
            }
            let mut j = start;
            while j < flen
                invariant
                    start <= j <= flen,
                    flen == digs@.len() - 4,
                    digs@.len() >= 5,
                    vals_ok(digs@),
                    out@ == sign_chars + chars_of(digs@.subrange(start as int, j as int)),
                decreases flen - j,
            {
                let dj = digs[j];
                push_digit_char(&mut out, dj);
                proof {
                    assert(digs@.subrange(start as int, j as int + 1) =~= digs@.subrange(
                        start as int,
                        j as int,
                    ).push(digs@[j as int]));
                    assert(chars_of(digs@.subrange(start as int, j as int + 1)) =~= chars_of(
                        digs@.subrange(start as int, j as int),
                    ).push(char_of_digit(digs@[j as int] as int)));
                    assert(out@ =~= sign_chars + chars_of(
                        digs@.subrange(start as int, j as int + 1),
                    ));
                }
                j = j + 1;
            }
            proof {
                reveal_strlit(".");
            }
            out.append(".");
            proof {
                assert(out@ =~= sign_chars + chars_of(intpart) + seq!['.']);
            }
            let mut q = flen;
            while q < total
                invariant
                    flen <= q <= total,
                    total == digs@.len(),
                    flen == total - 4,
                    vals_ok(digs@),
                    out@ == sign_chars + chars_of(intpart) + seq!['.'] + chars_of(
                        digs@.subrange(flen as int, q as int),
                    ),
                decreases total - q,
            {
                let dq = digs[q];
                push_digit_char(&mut out, dq);
                proof {
                    assert(digs@.subrange(flen as int, q as int + 1) =~= digs@.subrange(
                        flen as int,
                        q as int,
                    ).push(digs@[q as int]));
                    assert(chars_of(digs@.subrange(flen as int, q as int + 1)) =~= chars_of(
                        digs@.subrange(flen as int, q as int),
                    ).push(char_of_digit(digs@[q as int] as int)));
                    assert(out@ =~= sign_chars + chars_of(intpart) + seq!['.'] + chars_of(
                        digs@.subrange(flen as int, q as int + 1),
                    ));
                }
                q = q + 1;
            }
            proof {
                assert(chars_of(intpart) == digits_of((nval / 10000) as nat)) by {
                    assert(val_of(intpart) == val_of(digs@.subrange(0, flen as int)));
                    assert(val_of(intpart) == nval / 10000);
                }
                assert(chars_of(fracpart) == pad4(nval % 10000)) by {
                    assert(val_of(fracpart) == nval % 10000);
                }
            }
            out
}

/// A funding rate as the alert shows it: the decimal numeral `raw` times one
/// hundred, rounded half away from zero to exactly four fractional digits.
/// Yields nothing when `raw` is not a plain decimal numeral.
pub fn format_funding_rate(raw: &str) -> (r: Option<String>)
    ensures
        r is Some <==> is_decimal_string(raw@),
        r matches Some(out) ==> out@ == formatted_rate(raw@),
{
    let parsed = parse_decimal(raw);
    match parsed {
        None => None,
        Some((neg, ip, fp)) => {
            let b = fp.len();
            let ghost m = mantissa(raw@);
            let mut digs = ip;
            let mut fp_moved = fp;
            digs.append(&mut fp_moved);
            proof {
                assert(vals_ok(digs@));
                assert(chars_of(digs@) =~= int_digits(raw@) + frac_digits(raw@));
                lemma_chars_of_val(digs@);
                assert(m == val_of(digs@));
                assert(scale(raw@) == b as nat);
            }
            scale_digits(&mut digs, b);
            let out = render_scaled(neg, &digs);
            proof {
                assert(out@ =~= formatted_rate(raw@));
            }
            Some(out)
        },
    }
}

} // verus!




