//! Fixed-point quantities: authority, job points, play time and the like.
//!
//! A save file writes such a quantity as a decimal fraction, with or
//! without an exponent of ten. Here it is held as a whole number of
//! millionths, so that reading, comparing, subtracting and writing it back
//! are exact. It is written back without exponent.
use vstd::prelude::*;
use vstd::string::*;
use vstd::utf8::is_ascii_chars;
use crate::text::all_digits;
use crate::text::digit_char;
use crate::text::digit_value;
use crate::text::digits_value;
use crate::text::integer_of_text;
use crate::text::is_digit;
use crate::text::lemma_digits_value_prefix;
use crate::text::lemma_digits_value_step;
use crate::text::lemma_nat_text;
use crate::text::nat_text;
use crate::text::push_nat;

verus! {

/// A quantity with six decimal places, as a count of millionths.
#[derive(Debug, Clone, Copy, PartialEq, Eq, Structural)]
pub struct Decimal {
    pub micros: i64,
}

/// Ten to the power `e`.
pub open spec fn pow10(e: nat) -> nat
    decreases e,
{
    if e == 0 {
        1
    } else {
        10 * pow10((e - 1) as nat)
    }
}

/// The first `width` decimal places that the digits `s` give, as a whole
/// number: a missing place counts as zero, places beyond `width` are dropped.
pub open spec fn frac_value(s: Seq<char>, width: nat) -> nat
    decreases width,
{
    if width == 0 || s.len() == 0 {
        0
    } else {
        digit_value(s[0]) * pow10((width - 1) as nat) + frac_value(
            s.drop_first(),
            (width - 1) as nat,
        )
    }
}

/// The digits after the decimal point of `f` out of `pow10(width)`, without
/// trailing zeros.
pub open spec fn frac_digits(f: nat, width: nat) -> Seq<char>
    decreases width,
{
    if width == 0 || f == 0 {
        Seq::<char>::empty()
    } else {
        seq![digit_char(f / pow10((width - 1) as nat))] + frac_digits(
            f % pow10((width - 1) as nat),
            (width - 1) as nat,
        )
    }
}

/// The place of the first `.` in `s`, or the length of `s` if it has none.
pub open spec fn first_dot(s: Seq<char>) -> int
    decreases s.len(),
{
    if s.len() == 0 || s[0] == '.' {
        0
    } else {
        1 + first_dot(s.drop_first())
    }
}

/// The digits after the first `.` of `s`; empty if there is no `.`.
pub open spec fn after_dot(s: Seq<char>) -> Seq<char> {
    if first_dot(s) < s.len() {
        s.skip(first_dot(s) + 1)
    } else {
        Seq::<char>::empty()
    }
}

/// The count of millionths that a text without exponent denotes: an
/// optional sign, digits, and optionally a `.` and more digits, with at
/// least one digit in all. Places beyond the sixth are dropped. `None` for
/// any other text and for a quantity that does not fit.
pub open spec fn plain_decimal_of_text(s: Seq<char>) -> Option<int> {
    let negative = s.len() > 0 && s[0] == '-';
    let signed = s.len() > 0 && (s[0] == '+' || s[0] == '-');
    let body = if signed {
        s.drop_first()
    } else {
        s
    };
    let whole = body.take(first_dot(body));
    let fraction = after_dot(body);
    let magnitude = digits_value(whole) * 1_000_000 + frac_value(fraction, 6);
    let value = if negative {
        -magnitude
    } else {
        magnitude as int
    };
    if all_digits(whole) && all_digits(fraction) && whole.len() + fraction.len() > 0 && i64::MIN
        <= value <= i64::MAX {
        Some(value)
    } else {
        None
    }
}

/// The largest exponent, either way, that a text may give.
pub const EXPONENT_LIMIT: i64 = 1000;

/// The place of the first `e` or `E` in `s`, or the length of `s` if it
/// has none.
pub open spec fn first_mark(s: Seq<char>) -> int
    decreases s.len(),
{
    if s.len() == 0 || s[0] == 'e' || s[0] == 'E' {
        0
    } else {
        1 + first_mark(s.drop_first())
    }
}

/// Whether a text starts with a minus sign.
pub open spec fn is_negative(s: Seq<char>) -> bool {
    s.len() > 0 && s[0] == '-'
}

/// A text without the sign that it may start with.
pub open spec fn unsigned_part(s: Seq<char>) -> Seq<char> {
    if s.len() > 0 && (s[0] == '+' || s[0] == '-') {
        s.drop_first()
    } else {
        s
    }
}

/// What stands between the sign and the first `.` of a text.
pub open spec fn whole_part(s: Seq<char>) -> Seq<char> {
    unsigned_part(s).take(first_dot(unsigned_part(s)))
}

/// What stands after the first `.` of a text.
pub open spec fn fraction_part(s: Seq<char>) -> Seq<char> {
    after_dot(unsigned_part(s))
}

/// The digits of a mantissa with `shift` places added at the end, or, for
/// a negative `shift`, that many taken away, as a number.
pub open spec fn shifted_value(digits: Seq<char>, shift: int) -> nat {
    if shift >= 0 {
        digits_value(digits) * pow10(shift as nat)
    } else if digits.len() + shift > 0 {
        digits_value(digits.take(digits.len() + shift))
    } else {
        0
    }
}

/// The count of millionths that a mantissa and an exponent of ten denote.
/// The mantissa is written as a text without exponent is; the digits are
/// shifted by the exponent and what falls beyond the sixth place is
/// dropped. `None` for a mantissa that is no number and for a quantity that
/// does not fit.
pub open spec fn scaled_decimal_of_text(s: Seq<char>, exponent: int) -> Option<int> {
    let digits = whole_part(s) + fraction_part(s);
    let magnitude = shifted_value(digits, exponent + 6 - fraction_part(s).len());
    let value = if is_negative(s) {
        -magnitude
    } else {
        magnitude as int
    };
    if all_digits(digits) && digits.len() > 0 && i64::MIN <= value <= i64::MAX {
        Some(value)
    } else {
        None
    }
}

/// The count of millionths that a text denotes. A text without `e` or `E`
/// is a sign, digits and decimal places as `plain_decimal_of_text` reads
/// them. Otherwise what stands before the first `e` or `E` is the
/// mantissa, and what stands after it is the exponent of ten, an integer
/// of at most `EXPONENT_LIMIT` either way.
pub open spec fn decimal_of_text(s: Seq<char>) -> Option<int> {
    let mark = first_mark(s);
    if mark == s.len() {
        plain_decimal_of_text(s)
    } else {
        match integer_of_text(s.skip(mark + 1), -EXPONENT_LIMIT as int, EXPONENT_LIMIT as int) {
            Some(exponent) => scaled_decimal_of_text(s.take(mark), exponent),
            None => None,
        }
    }
}

/// The text of a count of millionths: a minus sign if it is negative, the
/// whole part, and, unless the fraction is zero, a `.` and the decimal places
/// without trailing zeros.
pub open spec fn decimal_text(micros: int) -> Seq<char> {
    let magnitude = if micros < 0 {
        (-micros) as nat
    } else {
        micros as nat
    };
    let sign = if micros < 0 {
        seq!['-']
    } else {
        Seq::<char>::empty()
    };
    let tail = if magnitude % 1_000_000 == 0 {
        Seq::<char>::empty()
    } else {
        seq!['.'] + frac_digits(magnitude % 1_000_000, 6)
    };
    sign + nat_text(magnitude / 1_000_000) + tail
}

/// The first seven powers of ten.
pub proof fn lemma_pow10_values()
    ensures
        pow10(0) == 1,
        pow10(1) == 10,
        pow10(2) == 100,
        pow10(3) == 1_000,
        pow10(4) == 10_000,
        pow10(5) == 100_000,
        pow10(6) == 1_000_000,
{
    reveal_with_fuel(pow10, 8);
}

/// `first_dot` lies within the text, marks a `.` if it lies inside, and no
/// `.` comes before it.
pub proof fn lemma_first_dot(s: Seq<char>)
    ensures
        0 <= first_dot(s) <= s.len(),
        first_dot(s) < s.len() ==> s[first_dot(s)] == '.',
        forall|k: int| 0 <= k < first_dot(s) ==> #[trigger] s[k] != '.',
    decreases s.len(),
{
    if s.len() == 0 || s[0] == '.' {
    } else {
        let t = s.drop_first();
        lemma_first_dot(t);
        assert forall|k: int| 0 <= k < first_dot(s) implies #[trigger] s[k] != '.' by {
            if k > 0 {
                assert(t[k - 1] == s[k]);
            }
        }
    }
}

/// `first_mark` lies within the text, marks an `e` or `E` if it lies
/// inside, and none comes before it.
pub proof fn lemma_first_mark(s: Seq<char>)
    ensures
        0 <= first_mark(s) <= s.len(),
        first_mark(s) < s.len() ==> s[first_mark(s)] == 'e' || s[first_mark(s)] == 'E',
        forall|k: int| 0 <= k < first_mark(s) ==> #[trigger] s[k] != 'e' && s[k] != 'E',
    decreases s.len(),
{
    if s.len() == 0 || s[0] == 'e' || s[0] == 'E' {
    } else {
        let t = s.drop_first();
        lemma_first_mark(t);
        assert forall|k: int| 0 <= k < first_mark(s) implies #[trigger] s[k] != 'e' && s[k]
            != 'E' by {
            if k > 0 {
                assert(t[k - 1] == s[k]);
            }
        }
    }
}

/// A place with no `e` or `E` before it that is the end of the text or
/// holds one is `first_mark`.
pub proof fn lemma_first_mark_at(s: Seq<char>, i: int)
    requires
        0 <= i <= s.len(),
        forall|k: int| 0 <= k < i ==> #[trigger] s[k] != 'e' && s[k] != 'E',
        i < s.len() ==> s[i] == 'e' || s[i] == 'E',
    ensures
        first_mark(s) == i,
{
    lemma_first_mark(s);
    let d = first_mark(s);
    if d < i {
        assert(s[d] == 'e' || s[d] == 'E');
    } else if d > i {
        assert(s[i] != 'e' && s[i] != 'E');
    }
}

/// A place with no `.` before it that is the end of the text or holds a `.`
/// is `first_dot`.
pub proof fn lemma_first_dot_at(s: Seq<char>, i: int)
    requires
        0 <= i <= s.len(),
        forall|k: int| 0 <= k < i ==> #[trigger] s[k] != '.',
        i < s.len() ==> s[i] == '.',
    ensures
        first_dot(s) == i,
{
    lemma_first_dot(s);
    let d = first_dot(s);
    if d < i {
        assert(s[d] == '.');
    } else if d > i {
        assert(s[i] != '.');
    }
}

/// The decimal places of a fraction are digits, at most `width` of them, at
/// least one unless the fraction is zero, and denote the fraction.
pub proof fn lemma_frac_digits(f: nat, width: nat)
    requires
        f < pow10(width),
    ensures
        all_digits(frac_digits(f, width)),
        frac_digits(f, width).len() <= width,
        f > 0 ==> frac_digits(f, width).len() > 0,
        frac_value(frac_digits(f, width), width) == f,
    decreases width,
{
    if width == 0 || f == 0 {
    } else {
        let unit = pow10((width - 1) as nat);
        let d = f / unit;
        let rest = f % unit;
        assert(unit > 0) by {
            lemma_pow10_positive((width - 1) as nat);
        }
        assert(d < 10 && rest < unit && f == d * unit + rest) by (nonlinear_arith)
            requires
                unit > 0,
                f < 10 * unit,
                d == f / unit,
                rest == f % unit,
        ;
        lemma_frac_digits(rest, (width - 1) as nat);
        let tail = frac_digits(rest, (width - 1) as nat);
        let s = frac_digits(f, width);
        assert(s =~= seq![digit_char(d)] + tail);
        assert(s.drop_first() =~= tail);
        assert(s[0] == digit_char(d));
        assert(digit_value(digit_char(d)) == d);
        assert forall|i: int| 0 <= i < s.len() implies is_digit(#[trigger] s[i]) by {
            if i > 0 {
                assert(s[i] == tail[i - 1]);
            }
        }
    }
}

/// Powers of ten are positive.
pub proof fn lemma_pow10_positive(e: nat)
    ensures
        pow10(e) > 0,
    decreases e,
{
    if e > 0 {
        lemma_pow10_positive((e - 1) as nat);
    }
}

/// The decimal places that digits give stay below `pow10(width)`.
pub proof fn lemma_frac_value_bound(s: Seq<char>, width: nat)
    requires
        all_digits(s),
    ensures
        frac_value(s, width) < pow10(width),
    decreases width,
{
    if width == 0 || s.len() == 0 {
        lemma_pow10_positive(width);
    } else {
        let t = s.drop_first();
        assert forall|i: int| 0 <= i < t.len() implies is_digit(#[trigger] t[i]) by {
            assert(t[i] == s[i + 1]);
        }
        lemma_frac_value_bound(t, (width - 1) as nat);
        assert(is_digit(s[0]));
        let unit = pow10((width - 1) as nat);
        let d = digit_value(s[0]);
        assert(d * unit + frac_value(t, (width - 1) as nat) < 10 * unit) by (nonlinear_arith)
            requires
                d <= 9,
                frac_value(t, (width - 1) as nat) < unit,
        ;
    }
}

/// The text of a quantity has no `e` and no `E`.
pub proof fn lemma_decimal_text_unmarked(micros: int)
    ensures
        first_mark(decimal_text(micros)) == decimal_text(micros).len(),
{
    let magnitude = if micros < 0 {
        (-micros) as nat
    } else {
        micros as nat
    };
    let whole = nat_text(magnitude / 1_000_000);
    let places = frac_digits(magnitude % 1_000_000, 6);
    let s = decimal_text(micros);
    lemma_pow10_values();
    lemma_nat_text(magnitude / 1_000_000);
    lemma_frac_digits(magnitude % 1_000_000, 6);
    let sign = if micros < 0 {
        seq!['-']
    } else {
        Seq::<char>::empty()
    };
    let tail = if magnitude % 1_000_000 == 0 {
        Seq::<char>::empty()
    } else {
        seq!['.'] + places
    };
    assert(s == sign + whole + tail);
    assert forall|k: int| 0 <= k < s.len() implies #[trigger] s[k] != 'e' && s[k] != 'E' by {
        if k < sign.len() {
            assert(s[k] == '-');
        } else if k < sign.len() + whole.len() {
            assert(s[k] == whole[k - sign.len()]);
            assert(is_digit(whole[k - sign.len()]));
        } else {
            let j = k - sign.len() - whole.len();
            assert(s[k] == tail[j]);
            if j > 0 {
                assert(tail[j] == places[j - 1]);
                assert(is_digit(places[j - 1]));
            }
        }
    }
    lemma_first_mark_at(s, s.len() as int);
}

/// Reading the text of a quantity gives the quantity back.
pub proof fn lemma_decimal_of_decimal_text(micros: int)
    requires
        i64::MIN <= micros <= i64::MAX,
    ensures
        decimal_of_text(decimal_text(micros)) == Some(micros),
{
    lemma_decimal_text_unmarked(micros);
    lemma_plain_decimal_of_decimal_text(micros);
}

/// Reading the text of a quantity as a text without exponent gives the
/// quantity back.
pub proof fn lemma_plain_decimal_of_decimal_text(micros: int)
    requires
        i64::MIN <= micros <= i64::MAX,
    ensures
        plain_decimal_of_text(decimal_text(micros)) == Some(micros),
{
    lemma_pow10_values();
    let magnitude = if micros < 0 {
        (-micros) as nat
    } else {
        micros as nat
    };
    let w = magnitude / 1_000_000;
    let f = magnitude % 1_000_000;
    let whole = nat_text(w);
    let places = frac_digits(f, 6);
    let tail = if f == 0 {
        Seq::<char>::empty()
    } else {
        seq!['.'] + places
    };
    let s = decimal_text(micros);
    let body = whole + tail;
    lemma_nat_text(w);
    lemma_frac_digits(f, 6);
    assert(is_digit(whole[0]));
    if micros < 0 {
        assert(s =~= seq!['-'] + body);
        assert(s[0] == '-');
        assert(s.drop_first() =~= body);
    } else {
        assert(s =~= body);
        assert(s[0] == whole[0]);
    }
    assert forall|k: int| 0 <= k < whole.len() implies #[trigger] body[k] != '.' by {
        assert(body[k] == whole[k]);
        assert(is_digit(whole[k]));
    }
    if f != 0 {
        assert(body[whole.len() as int] == '.');
    }
    lemma_first_dot_at(body, whole.len() as int);
    assert(body.take(whole.len() as int) =~= whole);
    if f != 0 {
        assert(body.skip(whole.len() as int + 1) =~= places);
        assert(after_dot(body) == places);
    } else {
        assert(body =~= whole);
        assert(after_dot(body) =~= Seq::<char>::empty());
        assert(frac_value(Seq::<char>::empty(), 6) == 0);
    }
    assert(magnitude == w * 1_000_000 + f);
}

/// Powers of ten grow with the exponent.
pub proof fn lemma_pow10_grows(a: nat, b: nat)
    requires
        a <= b,
    ensures
        pow10(a) <= pow10(b),
    decreases b,
{
    if a < b {
        lemma_pow10_grows(a, (b - 1) as nat);
        lemma_pow10_positive((b - 1) as nat);
    }
}

/// A text with a character that is no digit, no sign and no `.` is no
/// quantity, whatever the exponent.
pub proof fn lemma_stray_character(s: Seq<char>, j: int)
    requires
        0 <= j < s.len(),
        !is_digit(s[j]),
        s[j] != '.',
        s[j] != '+',
        s[j] != '-',
    ensures
        plain_decimal_of_text(s) is None,
        !all_digits(whole_part(s) + fraction_part(s)),
{
    let signed = s.len() > 0 && (s[0] == '+' || s[0] == '-');
    let body = unsigned_part(s);
    lemma_first_dot(body);
    let dot = first_dot(body);
    let whole = whole_part(s);
    let fraction = fraction_part(s);
    let jb = if signed {
        j - 1
    } else {
        j
    };
    assert(body[jb] == s[j]);
    if jb < dot {
        assert(whole[jb] == body[jb]);
        assert((whole + fraction)[jb] == whole[jb]);
    } else {
        assert(fraction[jb - dot - 1] == body[jb]);
        assert((whole + fraction)[whole.len() + jb - dot - 1] == fraction[jb - dot - 1]);
    }
}

/// A text with a character that is no digit and no sign at its start is no
/// integer.
pub proof fn lemma_stray_in_integer(s: Seq<char>, j: int, min: int, max: int)
    requires
        0 <= j < s.len(),
        !is_digit(s[j]),
        s[j] != '+',
        s[j] != '-',
    ensures
        integer_of_text(s, min, max) is None,
{
    let signed = s.len() > 0 && (s[0] == '+' || (s[0] == '-' && min < 0));
    if signed {
        assert(s.drop_first()[j - 1] == s[j]);
    }
}

/// A text with a character outside ASCII is no quantity.
pub proof fn lemma_not_ascii_is_no_decimal(s: Seq<char>)
    requires
        !is_ascii_chars(s),
    ensures
        decimal_of_text(s) is None,
        plain_decimal_of_text(s) is None,
{
    let j = choose|j: int| 0 <= j < s.len() && !('\0' <= #[trigger] s[j] <= '\u{7f}');
    lemma_stray_character(s, j);
    lemma_first_mark(s);
    let mark = first_mark(s);
    if mark < s.len() {
        if j < mark {
            let t = s.take(mark);
            assert(t[j] == s[j]);
            lemma_stray_character(t, j);
            assert forall|e: int| (#[trigger] scaled_decimal_of_text(t, e)) is None by {}
        } else {
            let x = s.skip(mark + 1);
            assert(x[j - mark - 1] == s[j]);
            lemma_stray_in_integer(x, j - mark - 1, -EXPONENT_LIMIT as int, EXPONENT_LIMIT as int);
        }
    }
}

/// Digits after digits: the value of the first, shifted by the length of
/// the second, and the value of the second.
pub proof fn lemma_digits_value_concat(a: Seq<char>, b: Seq<char>)
    ensures
        digits_value(a + b) == digits_value(a) * pow10(b.len()) + digits_value(b),
    decreases b.len(),
{
    if b.len() == 0 {
        assert(a + b =~= a);
        assert(pow10(0) == 1);
        assert(digits_value(a) * pow10(0) == digits_value(a)) by (nonlinear_arith)
            requires
                pow10(0) == 1,
        ;
    } else {
        let rest = b.drop_last();
        assert((a + b).drop_last() =~= a + rest);
        assert((a + b).last() == b.last());
        lemma_digits_value_concat(a, rest);
        assert(pow10(b.len()) == 10 * pow10(rest.len()));
        assert((digits_value(a) * pow10(rest.len()) + digits_value(rest)) * 10 + digit_value(
            b.last(),
        ) == digits_value(a) * pow10(b.len()) + (digits_value(rest) * 10 + digit_value(b.last())))
            by (nonlinear_arith)
            requires
                pow10(b.len()) == 10 * pow10(rest.len()),
        ;
    }
}

/// The decimal places that digits give are the digits themselves, filled
/// up with zeros to `width` places, or cut after `width` places.
pub proof fn lemma_frac_value_as_digits(s: Seq<char>, width: nat)
    ensures
        s.len() <= width ==> frac_value(s, width) == digits_value(s) * pow10(
            (width - s.len()) as nat,
        ),
        s.len() >= width ==> frac_value(s, width) == digits_value(s.take(width as int)),
    decreases width,
{
    if width == 0 {
        assert(s.take(0) =~= Seq::<char>::empty());
        if s.len() == 0 {
            assert(pow10(0) == 1);
            assert(digits_value(s) * pow10(0) == 0) by (nonlinear_arith)
                requires
                    digits_value(s) == 0,
            ;
        }
    } else if s.len() == 0 {
        assert(digits_value(s) * pow10(width) == 0) by (nonlinear_arith)
            requires
                digits_value(s) == 0,
        ;
    } else {
        let head = seq![s[0]];
        let rest = s.drop_first();
        let w = (width - 1) as nat;
        lemma_frac_value_as_digits(rest, w);
        assert(head.drop_last() =~= Seq::<char>::empty());
        assert(digits_value(Seq::<char>::empty()) == 0);
        assert(head.last() == s[0]);
        assert(digits_value(head) == digit_value(s[0]));
        if s.len() == width {
            assert(s.take(width as int) =~= s);
            assert(pow10(0) == 1);
            assert(digits_value(s) * pow10(0) == digits_value(s)) by (nonlinear_arith)
                requires
                    pow10(0) == 1,
            ;
        }
        if s.len() <= width {
            assert(head + rest =~= s);
            lemma_digits_value_concat(head, rest);
            let d = digit_value(s[0]);
            let r = digits_value(rest);
            let p = pow10(rest.len());
            let q = pow10((w - rest.len()) as nat);
            lemma_pow10_sum(rest.len(), (w - rest.len()) as nat);
            assert((d * p + r) * q == d * (p * q) + r * q) by (nonlinear_arith);
        } else {
            let cut = rest.take(w as int);
            assert(head + cut =~= s.take(width as int));
            lemma_digits_value_concat(head, cut);
        }
    }
}

/// Ten to a sum is the product of the powers.
pub proof fn lemma_pow10_sum(a: nat, b: nat)
    ensures
        pow10(a) * pow10(b) == pow10(a + b),
    decreases a,
{
    if a == 0 {
        assert(pow10(0) == 1);
        assert(pow10(0) * pow10(b) == pow10(b)) by (nonlinear_arith)
            requires
                pow10(0) == 1,
        ;
    } else {
        lemma_pow10_sum((a - 1) as nat, b);
        assert(pow10(a) == 10 * pow10((a - 1) as nat));
        assert(pow10(a + b) == 10 * pow10((a - 1 + b) as nat));
        assert((10 * pow10((a - 1) as nat)) * pow10(b) == 10 * (pow10((a - 1) as nat) * pow10(b)))
            by (nonlinear_arith);
    }
}

/// A text without exponent denotes what it denotes with the exponent zero.
pub proof fn lemma_plain_is_scaled_by_zero(s: Seq<char>)
    ensures
        plain_decimal_of_text(s) == scaled_decimal_of_text(s, 0),
{
    let whole = whole_part(s);
    let fraction = fraction_part(s);
    let digits = whole + fraction;
    let shift = 6 - fraction.len();
    lemma_pow10_values();
    lemma_frac_value_as_digits(fraction, 6);
    lemma_digits_value_concat(whole, fraction);
    assert(all_digits(digits) <==> all_digits(whole) && all_digits(fraction)) by {
        if all_digits(digits) {
            assert forall|i: int| 0 <= i < whole.len() implies is_digit(#[trigger] whole[i]) by {
                assert(digits[i] == whole[i]);
            }
            assert forall|i: int| 0 <= i < fraction.len() implies is_digit(
                #[trigger] fraction[i],
            ) by {
                assert(digits[whole.len() + i] == fraction[i]);
            }
        }
        if all_digits(whole) && all_digits(fraction) {
            assert forall|i: int| 0 <= i < digits.len() implies is_digit(#[trigger] digits[i]) by {
                if i < whole.len() {
                    assert(digits[i] == whole[i]);
                } else {
                    assert(digits[i] == fraction[i - whole.len()]);
                }
            }
        }
    }
    let plain = digits_value(whole) * 1_000_000 + frac_value(fraction, 6);
    if shift >= 0 {
        let w = digits_value(whole);
        let f = digits_value(fraction);
        let p = pow10(fraction.len());
        let q = pow10(shift as nat);
        lemma_pow10_sum(fraction.len(), shift as nat);
        assert((w * p + f) * q == w * (p * q) + f * q) by (nonlinear_arith);
        assert(shifted_value(digits, shift) == plain);
    } else {
        let cut = fraction.take(6);
        assert(digits.take(digits.len() + shift) =~= whole + cut);
        lemma_digits_value_concat(whole, cut);
        assert(shifted_value(digits, shift) == plain);
    }
}

impl Decimal {
    /// The quantity of `units` whole units.
    pub fn from_units(units: i32) -> (r: Decimal)
        ensures
            r.micros == units * 1_000_000,
    {
        Decimal { micros: (units as i64) * 1_000_000 }
    }

    /// Whether this quantity is less than `other`.
    pub fn lt(&self, other: &Decimal) -> (r: bool)
        ensures
            r == (self.micros < other.micros),
    {
        self.micros < other.micros
    }

    /// This quantity less `other`, kept within what the type can hold.
    pub fn saturating_sub(&self, other: &Decimal) -> (r: Decimal)
        ensures
            r.micros == saturated(self.micros - other.micros),
    {
        let wide: i128 = (self.micros as i128) - (other.micros as i128);
        if wide > i64::MAX as i128 {
            Decimal { micros: i64::MAX }
        } else if wide < i64::MIN as i128 {
            Decimal { micros: i64::MIN }
        } else {
            Decimal { micros: wide as i64 }
        }
    }

    /// Reads a whole text as a quantity.
    pub fn parse(text: &str) -> (r: Option<Decimal>)
        ensures
            match r {
                Some(d) => decimal_of_text(text@) == Some(d.micros as int),
                None => decimal_of_text(text@) is None,
            },
    {
        broadcast use is_ascii_spec_bytes;

        let ghost s = text@;
        proof {
            lemma_first_mark(s);
        }
        if !text.is_ascii() {
            proof {
                lemma_not_ascii_is_no_decimal(s);
            }
            return None;
        }
        let bytes = text.as_bytes();
        let n = bytes.len();
        assert(n == s.len());
        assert(forall|k: int| 0 <= k < n ==> bytes@[k] == #[trigger] s[k] as u8);
        let mut mark: usize = 0;
        while mark < n && bytes[mark] != 101 && bytes[mark] != 69
            invariant
                mark <= n,
                n == s.len(),
                n == bytes@.len(),
                is_ascii_chars(s),
                forall|k: int| 0 <= k < n ==> bytes@[k] == #[trigger] s[k] as u8,
                forall|k: int| 0 <= k < mark ==> #[trigger] s[k] != 'e' && s[k] != 'E',
            decreases n - mark,
        {
            let ghost c = s[mark as int];
            assert(bytes@[mark as int] == c as u8);
            assert('\0' <= c <= '\u{7f}');
            mark = mark + 1;
        }
        proof {
            if mark < n {
                let c = s[mark as int];
                assert(bytes@[mark as int] == c as u8);
                assert('\0' <= c <= '\u{7f}');
                assert(c == 'e' || c == 'E');
            }
            lemma_first_mark_at(s, mark as int);
        }
        if mark == n {
            return Decimal::parse_plain(text);
        }
        let exponent_text = text.substring_ascii(mark + 1, n);
        assert(exponent_text@ =~= s.skip(mark + 1));
        let exponent = match crate::text::parse_integer(
            exponent_text,
            -(EXPONENT_LIMIT as i128),
            EXPONENT_LIMIT as i128,
        ) {
            Some(e) => e as i64,
            None => {
                return None;
            },
        };
        let mantissa = text.substring_ascii(0, mark);
        assert(mantissa@ =~= s.take(mark as int));
        Decimal::parse_scaled(mantissa, exponent)
    }

    /// Reads a whole text without exponent as a quantity.
    pub fn parse_plain(text: &str) -> (r: Option<Decimal>)
        ensures
            match r {
                Some(d) => plain_decimal_of_text(text@) == Some(d.micros as int),
                None => plain_decimal_of_text(text@) is None,
            },
    {
        broadcast use is_ascii_spec_bytes;

        let ghost s = text@;
        let ghost signed = s.len() > 0 && (s[0] == '+' || s[0] == '-');
        let ghost body = if signed {
            s.drop_first()
        } else {
            s
        };
        let ghost dot = first_dot(body);
        let ghost whole = body.take(dot);
        let ghost fraction = after_dot(body);
        proof {
            lemma_first_dot(body);
            lemma_pow10_values();
        }
        if !text.is_ascii() {
            proof {
                let j = choose|j: int| 0 <= j < s.len() && !('\0' <= #[trigger] s[j] <= '\u{7f}');
                let jb = if signed {
                    j - 1
                } else {
                    j
                };
                assert(body[jb] == s[j]);
                if jb < dot {
                    assert(whole[jb] == body[jb]);
                } else {
                    assert(fraction[jb - dot - 1] == body[jb]);
                }
            }
            return None;
        }
        let bytes = text.as_bytes();
        let n = bytes.len();
        assert(n == s.len());
        assert(forall|k: int| 0 <= k < n ==> bytes@[k] == #[trigger] s[k] as u8);
        if n == 0 {
            return None;
        }
        let first = bytes[0];
        assert(first == s[0] as u8);
        let negative = first == 45;
        let start: usize = if first == 43 || first == 45 {
            1
        } else {
            0
        };
        assert(negative == (s[0] == '-'));
        assert((start == 1) == signed);
        let mut i: usize = start;
        let mut acc: i128 = 0;
        assert(body.take(0) =~= Seq::<char>::empty());
        while i < n && bytes[i] != 46
            invariant
                start <= i <= n,
                start == 0 || start == 1,
                n == s.len(),
                n == bytes@.len(),
                s == text@,
                body == if start == 1 {
                    s.drop_first()
                } else {
                    s
                },
                n > 0,
                (start == 1) == (s[0] == '+' || s[0] == '-'),
                dot == first_dot(body),
                whole == body.take(dot),
                fraction == after_dot(body),
                0 <= dot <= body.len(),
                dot < body.len() ==> body[dot] == '.',
                forall|k: int| 0 <= k < n ==> bytes@[k] == #[trigger] s[k] as u8,
                is_ascii_chars(s),
                forall|k: int| 0 <= k < i - start ==> #[trigger] body[k] != '.',
                all_digits(body.take(i - start)),
                acc == digits_value(body.take(i - start)),
                0 <= acc <= 9_223_372_036_854,
            decreases n - i,
        {
            let b = bytes[i];
            let ghost c = s[i as int];
            assert(b == c as u8);
            assert('\0' <= c <= '\u{7f}');
            assert(c != '.');
            assert(body[i - start] == c);
            assert(dot > i - start);
            if b < 48 || b > 57 {
                assert(whole[i - start] == c);
                return None;
            }
            let d: i128 = (b - 48) as i128;
            assert(d == digit_value(c));
            proof {
                lemma_digits_value_step(body, i - start);
                assert forall|k: int| 0 <= k < body.take(i - start + 1).len() implies is_digit(
                    #[trigger] body.take(i - start + 1)[k],
                ) by {
                    if k < i - start {
                        assert(body.take(i - start)[k] == body[k]);
                    }
                }
            }
            acc = acc * 10 + d;
            if acc > 9_223_372_036_854 {
                proof {
                    assert(whole.take(i - start + 1) =~= body.take(i - start + 1));
                    lemma_digits_value_prefix(whole, i - start + 1);
                }
                return None;
            }
            i = i + 1;
        }
        proof {
            if i < n {
                assert(bytes@[i as int] == s[i as int] as u8);
                assert(s[i as int] == '.');
                assert(body[i - start] == s[i as int]);
            }
            lemma_first_dot_at(body, i - start);
        }
        let whole_len: usize = i - start;
        let mut frac_len: usize = 0;
        let mut facc: i128 = 0;
        if i < n {
            i = i + 1;
            let frac_start: usize = i;
            let mut unit: i128 = 1_000_000;
            let mut width: u8 = 6;
            assert(fraction =~= body.skip(dot + 1));
            assert(fraction.skip(0) =~= fraction);
            assert(fraction.take(0) =~= Seq::<char>::empty());
            while i < n
                invariant
                    frac_start <= i <= n,
                    n == s.len(),
                    n == bytes@.len(),
                    n > 0,
                    s == text@,
                    start == 0 || start == 1,
                    (start == 1) == (s[0] == '+' || s[0] == '-'),
                    body == if start == 1 {
                        s.drop_first()
                    } else {
                        s
                    },
                    fraction == after_dot(body),
                    fraction.len() == n - frac_start,
                    forall|k: int| 0 <= k < fraction.len() ==> fraction[k] == s[k + frac_start],
                    forall|k: int| 0 <= k < n ==> bytes@[k] == #[trigger] s[k] as u8,
                    is_ascii_chars(s),
                    all_digits(fraction.take(i - frac_start)),
                    frac_value(fraction, 6) == facc + frac_value(
                        fraction.skip(i - frac_start),
                        width as nat,
                    ),
                    width <= 6,
                    unit == pow10(width as nat),
                    0 <= facc,
                    facc + unit <= 1_000_000,
                decreases n - i,
            {
                let b = bytes[i];
                let ghost c = s[i as int];
                let ghost k = i - frac_start;
                assert(b == c as u8);
                assert('\0' <= c <= '\u{7f}');
                assert(fraction[k] == c);
                if b < 48 || b > 57 {
                    return None;
                }
                let d: i128 = (b - 48) as i128;
                assert(d == digit_value(c));
                proof {
                    assert(fraction.skip(k).drop_first() =~= fraction.skip(k + 1));
                    assert(fraction.skip(k)[0] == c);
                    assert forall|m: int| 0 <= m < fraction.take(k + 1).len() implies is_digit(
                        #[trigger] fraction.take(k + 1)[m],
                    ) by {
                        if m < k {
                            assert(fraction.take(k)[m] == fraction[m]);
                        }
                    }
                }
                if width > 0 {
                    proof {
                        lemma_pow10_positive((width - 1) as nat);
                    }
                    unit = unit / 10;
                    width = width - 1;
                    assert(unit == pow10(width as nat));
                    assert(d * unit <= 9 * unit) by (nonlinear_arith)
                        requires
                            0 <= d <= 9,
                            unit >= 0,
                    ;
                    facc = facc + d * unit;
                }
                i = i + 1;
            }
            assert(fraction.take(i - frac_start) =~= fraction);
            assert(frac_value(fraction.skip(i - frac_start), width as nat) == 0);
            frac_len = n - frac_start;
        } else {
            assert(frac_value(fraction, 6) == 0);
        }
        assert(whole =~= body.take(whole_len as int));
        if whole_len == 0 && frac_len == 0 {
            return None;
        }
        let magnitude: i128 = acc * 1_000_000 + facc;
        let value: i128 = if negative {
            -magnitude
        } else {
            magnitude
        };
        if value < i64::MIN as i128 || value > i64::MAX as i128 {
            None
        } else {
            Some(Decimal { micros: value as i64 })
        }
    }

    /// Reads a mantissa, which has no exponent of its own, as a quantity
    /// scaled by `exponent` powers of ten.
    fn parse_scaled(mantissa: &str, exponent: i64) -> (r: Option<Decimal>)
        requires
            mantissa.is_ascii(),
            -EXPONENT_LIMIT <= exponent <= EXPONENT_LIMIT,
        ensures
            match r {
                Some(d) => scaled_decimal_of_text(mantissa@, exponent as int) == Some(
                    d.micros as int,
                ),
                None => scaled_decimal_of_text(mantissa@, exponent as int) is None,
            },
    {
        let (negative, digits, places) = split_mantissa(mantissa);
        let text = digits.as_str();
        if !all_digit_text(text) {
            return None;
        }
        let total = text.unicode_len();
        if total == 0 {
            return None;
        }
        let shift: i128 = exponent as i128 + 6 - places as i128;
        let keep: usize = if shift >= 0 {
            total
        } else if total as i128 + shift > 0 {
            (total as i128 + shift) as usize
        } else {
            0
        };
        proof {
            if shift >= 0 {
                assert(text@.take(keep as int) =~= text@);
            } else if keep == 0 {
                assert(text@.take(0) =~= Seq::<char>::empty());
            }
        }
        let kept = match prefix_value(text, keep) {
            Some(v) => v,
            None => {
                proof {
                    if shift >= 0 {
                        lemma_pow10_positive(shift as nat);
                        assert(digits_value(text@) * pow10(shift as nat) >= digits_value(text@))
                            by (nonlinear_arith)
                            requires
                                pow10(shift as nat) >= 1,
                        ;
                    }
                }
                return None;
            },
        };
        let magnitude = if shift > 0 {
            match scale_up(kept, shift as u32) {
                Some(v) => v,
                None => {
                    return None;
                },
            }
        } else {
            proof {
                if shift == 0 {
                    assert(pow10(0) == 1);
                    assert(digits_value(text@) * pow10(0) == digits_value(text@))
                        by (nonlinear_arith)
                        requires
                            pow10(0) == 1,
                    ;
                }
            }
            kept
        };
        assert(magnitude == shifted_value(text@, shift as int));
        let value: i128 = if negative {
            -magnitude
        } else {
            magnitude
        };
        if value < i64::MIN as i128 || value > i64::MAX as i128 {
            None
        } else {
            Some(Decimal { micros: value as i64 })
        }
    }

    /// Appends the text of this quantity to `out`.
    pub fn push_text(&self, out: &mut String)
        ensures
            final(out)@ == old(out)@ + decimal_text(self.micros as int),
    {
        proof {
            lemma_pow10_values();
            reveal_strlit("-");
            reveal_strlit(".");
        }
        let ghost before = out@;
        let magnitude: u64 = if self.micros < 0 {
            out.append("-");
            ((-(self.micros + 1)) as u64) + 1
        } else {
            self.micros as u64
        };
        let ghost sign = if self.micros < 0 {
            seq!['-']
        } else {
            Seq::<char>::empty()
        };
        push_nat(out, magnitude / 1_000_000);
        let frac0: u64 = magnitude % 1_000_000;
        let ghost head = before + sign + nat_text((magnitude / 1_000_000) as nat);
        assert(out@ =~= head);
        if frac0 != 0 {
            out.append(".");
            let mut frac: u64 = frac0;
            let mut unit: u64 = 1_000_000;
            let mut width: u8 = 6;
            let ghost mut done = Seq::<char>::empty();
            while frac != 0
                invariant
                    width <= 6,
                    unit == pow10(width as nat),
                    frac < unit,
                    frac_digits(frac0 as nat, 6) == done + frac_digits(frac as nat, width as nat),
                    out@ == head + seq!['.'] + done,
                decreases width,
            {
                proof {
                    lemma_pow10_positive((width - 1) as nat);
                }
                unit = unit / 10;
                width = width - 1;
                assert(unit == pow10(width as nat));
                let d: u64 = frac / unit;
                assert(d < 10 && frac % unit < unit) by (nonlinear_arith)
                    requires
                        unit > 0,
                        frac < 10 * unit,
                        d == frac / unit,
                ;
                out.append(crate::text::digit_text(d as u8));
                proof {
                    let rest = (frac % unit) as nat;
                    assert(frac_digits(frac as nat, (width + 1) as nat) == seq![
                        digit_char(d as nat),
                    ] + frac_digits(rest, width as nat));
                    assert(done + (seq![digit_char(d as nat)] + frac_digits(rest, width as nat))
                        =~= done.push(digit_char(d as nat)) + frac_digits(rest, width as nat));
                    assert(head + seq!['.'] + done + seq![digit_char(d as nat)] =~= head + seq![
                        '.',
                    ] + done.push(digit_char(d as nat)));
                    done = done.push(digit_char(d as nat));
                }
                frac = frac % unit;
            }
            assert(frac_digits(0, width as nat) =~= Seq::<char>::empty());
            assert(done =~= frac_digits(frac0 as nat, 6));
            assert(out@ =~= before + decimal_text(self.micros as int));
        } else {
            assert(out@ =~= before + decimal_text(self.micros as int));
        }
    }

    /// The text of this quantity.
    pub fn to_text(&self) -> (r: String)
        ensures
            r@ == decimal_text(self.micros as int),
    {
        let mut out = String::new();
        self.push_text(&mut out);
        assert(out@ =~= decimal_text(self.micros as int));
        out
    }
}

/// What a text denotes as a quantity.
pub open spec fn decimal_field(s: Seq<char>) -> Option<Decimal> {
    match decimal_of_text(s) {
        Some(v) => Some(Decimal { micros: v as i64 }),
        None => None,
    }
}

/// Reads a whole text as a quantity.
pub fn parse_decimal(text: &str) -> (r: Option<Decimal>)
    ensures
        r == decimal_field(text@),
{
    Decimal::parse(text)
}

/// `v`, or the nearest count of millionths that a `Decimal` can hold.
pub open spec fn saturated(v: int) -> int {
    if v > i64::MAX {
        i64::MAX as int
    } else if v < i64::MIN {
        i64::MIN as int
    } else {
        v
    }
}

/// The sign of a mantissa, its digits without the `.`, and the number of
/// its decimal places.
fn split_mantissa(text: &str) -> (r: (bool, String, usize))
    requires
        text.is_ascii(),
    ensures
        r.0 == is_negative(text@),
        r.1@ == whole_part(text@) + fraction_part(text@),
        r.1.is_ascii(),
        r.2 == fraction_part(text@).len(),
{
    broadcast use is_ascii_spec_bytes;
    broadcast use vstd::utf8::is_ascii_chars_concat;

    let ghost s = text@;
    let ghost body = unsigned_part(s);
    let bytes = text.as_bytes();
    let n = bytes.len();
    assert(n == s.len());
    assert(forall|k: int| 0 <= k < n ==> bytes@[k] == #[trigger] s[k] as u8);
    let negative = n > 0 && bytes[0] == 45;
    let start: usize = if n > 0 && (bytes[0] == 43 || bytes[0] == 45) {
        1
    } else {
        0
    };
    proof {
        if n > 0 {
            assert(bytes@[0] == s[0] as u8);
        }
        assert(negative == is_negative(s));
        assert(body =~= s.skip(start as int));
    }
    let mut i: usize = start;
    while i < n && bytes[i] != 46
        invariant
            start <= i <= n,
            n == s.len(),
            n == bytes@.len(),
            body == s.skip(start as int),
            is_ascii_chars(s),
            forall|k: int| 0 <= k < n ==> bytes@[k] == #[trigger] s[k] as u8,
            forall|k: int| 0 <= k < i - start ==> #[trigger] body[k] != '.',
        decreases n - i,
    {
        let ghost c = s[i as int];
        assert(bytes@[i as int] == c as u8);
        assert('\0' <= c <= '\u{7f}');
        assert(body[i - start] == c);
        i = i + 1;
    }
    proof {
        if i < n {
            let c = s[i as int];
            assert(bytes@[i as int] == c as u8);
            assert('\0' <= c <= '\u{7f}');
            assert(body[i - start] == c);
        }
        lemma_first_dot_at(body, i - start);
    }
    let whole = text.substring_ascii(start, i);
    assert(whole@ =~= whole_part(s));
    let after: usize = if i < n {
        i + 1
    } else {
        n
    };
    let fraction = text.substring_ascii(after, n);
    assert(fraction@ =~= fraction_part(s));
    let mut digits = String::from_str(whole);
    digits.append(fraction);
    (negative, digits, n - after)
}

/// Whether a text holds digits only.
fn all_digit_text(text: &str) -> (r: bool)
    requires
        text.is_ascii(),
    ensures
        r == all_digits(text@),
{
    broadcast use is_ascii_spec_bytes;

    let ghost s = text@;
    let bytes = text.as_bytes();
    let n = bytes.len();
    assert(n == s.len());
    assert(forall|k: int| 0 <= k < n ==> bytes@[k] == #[trigger] s[k] as u8);
    let mut i: usize = 0;
    while i < n
        invariant
            i <= n,
            n == s.len(),
            n == bytes@.len(),
            s == text@,
            is_ascii_chars(s),
            forall|k: int| 0 <= k < n ==> bytes@[k] == #[trigger] s[k] as u8,
            forall|k: int| 0 <= k < i ==> is_digit(#[trigger] s[k]),
        decreases n - i,
    {
        let b = bytes[i];
        let ghost c = s[i as int];
        assert(b == c as u8);
        assert('\0' <= c <= '\u{7f}');
        if b < 48 || b > 57 {
            assert(!is_digit(s[i as int]));
            return false;
        }
        i = i + 1;
    }
    true
}

/// The number that the first `keep` digits of a text denote, if it is no
/// more than two to the power 63.
fn prefix_value(text: &str, keep: usize) -> (r: Option<i128>)
    requires
        text.is_ascii(),
        all_digits(text@),
        keep <= text@.len(),
    ensures
        match r {
            Some(v) => v == digits_value(text@.take(keep as int)) && v
                <= 9_223_372_036_854_775_808,
            None => digits_value(text@.take(keep as int)) > 9_223_372_036_854_775_808,
        },
{
    broadcast use is_ascii_spec_bytes;

    let ghost s = text@;
    let bytes = text.as_bytes();
    assert(bytes@.len() == s.len());
    assert(forall|k: int| 0 <= k < s.len() ==> bytes@[k] == #[trigger] s[k] as u8);
    let mut acc: i128 = 0;
    let mut t: usize = 0;
    assert(s.take(0) =~= Seq::<char>::empty());
    while t < keep
        invariant
            t <= keep <= s.len(),
            bytes@.len() == s.len(),
            s == text@,
            is_ascii_chars(s),
            all_digits(s),
            forall|k: int| 0 <= k < s.len() ==> bytes@[k] == #[trigger] s[k] as u8,
            acc == digits_value(s.take(t as int)),
            0 <= acc <= 9_223_372_036_854_775_808,
        decreases keep - t,
    {
        let b = bytes[t];
        let ghost c = s[t as int];
        assert(b == c as u8);
        assert(is_digit(c));
        let d: i128 = (b - 48) as i128;
        assert(d == digit_value(c));
        proof {
            lemma_digits_value_step(s, t as int);
        }
        acc = acc * 10 + d;
        if acc > 9_223_372_036_854_775_808 {
            proof {
                assert(s.take(keep as int).take(t + 1) =~= s.take(t + 1));
                lemma_digits_value_prefix(s.take(keep as int), t + 1);
            }
            return None;
        }
        t = t + 1;
    }
    Some(acc)
}

/// `v` times ten to the power `shift`, if it is no more than two to the
/// power 63.
fn scale_up(v: i128, shift: u32) -> (r: Option<i128>)
    requires
        0 <= v <= 9_223_372_036_854_775_808,
    ensures
        match r {
            Some(w) => w == v * pow10(shift as nat) && w <= 9_223_372_036_854_775_808,
            None => v * pow10(shift as nat) > 9_223_372_036_854_775_808,
        },
{
    let mut acc: i128 = v;
    let mut k: u32 = 0;
    assert(pow10(0) == 1);
    while k < shift && acc != 0
        invariant
            k <= shift,
            0 <= v,
            acc == v * pow10(k as nat),
            0 <= acc <= 9_223_372_036_854_775_808,
        decreases shift - k,
    {
        proof {
            assert(pow10((k + 1) as nat) == 10 * pow10(k as nat));
            assert(v * pow10((k + 1) as nat) == 10 * (v * pow10(k as nat))) by (nonlinear_arith)
                requires
                    pow10((k + 1) as nat) == 10 * pow10(k as nat),
            ;
        }
        acc = acc * 10;
        if acc > 9_223_372_036_854_775_808 {
            proof {
                lemma_pow10_grows((k + 1) as nat, shift as nat);
                assert(v * pow10(shift as nat) >= v * pow10((k + 1) as nat)) by (nonlinear_arith)
                    requires
                        v >= 0,
                        pow10(shift as nat) >= pow10((k + 1) as nat),
                ;
            }
            return None;
        }
        k = k + 1;
    }
    proof {
        if k < shift {
            lemma_pow10_positive(k as nat);
            assert(v == 0) by (nonlinear_arith)
                requires
                    v * pow10(k as nat) == 0,
                    pow10(k as nat) > 0,
                    v >= 0,
            ;
            assert(v * pow10(shift as nat) == 0) by (nonlinear_arith)
                requires
                    v == 0,
            ;
        }
    }
    Some(acc)
}

} // verus!
