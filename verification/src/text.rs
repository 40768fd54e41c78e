//! Decimal text of the integers that save files hold.
use vstd::prelude::*;
use vstd::string::*;
use vstd::utf8::encode_utf8;
use vstd::utf8::is_ascii_chars;

verus! {

/// Whether `c` is one of the ten decimal digits.
pub open spec fn is_digit(c: char) -> bool {
    '0' <= c && c <= '9'
}

/// The number that the digit `c` stands for.
pub open spec fn digit_value(c: char) -> nat
    recommends
        is_digit(c),
{
    (c as u32 - '0' as u32) as nat
}

/// The digit that stands for `d`, a number below ten.
pub open spec fn digit_char(d: nat) -> char
    recommends
        d < 10,
{
    if d == 0 {
        '0'
    } else if d == 1 {
        '1'
    } else if d == 2 {
        '2'
    } else if d == 3 {
        '3'
    } else if d == 4 {
        '4'
    } else if d == 5 {
        '5'
    } else if d == 6 {
        '6'
    } else if d == 7 {
        '7'
    } else if d == 8 {
        '8'
    } else {
        '9'
    }
}

/// Whether every character of `s` is a decimal digit.
pub open spec fn all_digits(s: Seq<char>) -> bool {
    forall|i: int| 0 <= i < s.len() ==> is_digit(#[trigger] s[i])
}

/// The number that a sequence of digits denotes, most significant digit first.
pub open spec fn digits_value(s: Seq<char>) -> nat
    decreases s.len(),
{
    if s.len() == 0 {
        0
    } else {
        digits_value(s.drop_last()) * 10 + digit_value(s.last())
    }
}

/// The digits of `n`, without leading zeros; `"0"` for zero.
pub open spec fn nat_text(n: nat) -> Seq<char>
    decreases n,
{
    if n < 10 {
        seq![digit_char(n)]
    } else {
        nat_text(n / 10).push(digit_char(n % 10))
    }
}

/// The text of `i`: a minus sign if it is negative, then the digits of its magnitude.
pub open spec fn int_text(i: int) -> Seq<char> {
    if i < 0 {
        seq!['-'] + nat_text((-i) as nat)
    } else {
        nat_text(i as nat)
    }
}

/// What a text denotes as an integer between `min` and `max`: an optional
/// sign (`-` only where `min` is negative), then at least one digit and
/// nothing else. `None` for any other text and for a number out of range.
pub open spec fn integer_of_text(s: Seq<char>, min: int, max: int) -> Option<int> {
    let negative = s.len() > 0 && s[0] == '-' && min < 0;
    let signed = s.len() > 0 && (s[0] == '+' || negative);
    let body = if signed {
        s.drop_first()
    } else {
        s
    };
    let magnitude = digits_value(body) as int;
    let value = if negative {
        -magnitude
    } else {
        magnitude
    };
    if body.len() > 0 && all_digits(body) && min <= value <= max {
        Some(value)
    } else {
        None
    }
}

/// A prefix of a digit sequence denotes no more than the whole.
pub proof fn lemma_digits_value_prefix(s: Seq<char>, k: int)
    requires
        0 <= k <= s.len(),
    ensures
        digits_value(s.take(k)) <= digits_value(s),
    decreases s.len(),
{
    if k == s.len() {
        assert(s.take(k) =~= s);
    } else {
        assert(s.drop_last().take(k) =~= s.take(k));
        lemma_digits_value_prefix(s.drop_last(), k);
    }
}

/// Appending one digit multiplies the value by ten and adds the digit.
pub proof fn lemma_digits_value_step(s: Seq<char>, k: int)
    requires
        0 <= k < s.len(),
    ensures
        digits_value(s.take(k + 1)) == digits_value(s.take(k)) * 10 + digit_value(s[k]),
{
    assert(s.take(k + 1).drop_last() =~= s.take(k));
    assert(s.take(k + 1).last() == s[k]);
}

/// The digits of a number are digits, at least one of them, and denote that number.
pub proof fn lemma_nat_text(n: nat)
    ensures
        nat_text(n).len() >= 1,
        all_digits(nat_text(n)),
        digits_value(nat_text(n)) == n,
    decreases n,
{
    if n < 10 {
        let s = nat_text(n);
        assert(s.drop_last() =~= Seq::<char>::empty());
        assert(digits_value(s.drop_last()) == 0);
        assert(digit_value(digit_char(n)) == n);
    } else {
        lemma_nat_text(n / 10);
        let s = nat_text(n);
        assert(s.drop_last() =~= nat_text(n / 10));
        assert(digit_value(digit_char(n % 10)) == n % 10);
        assert forall|i: int| 0 <= i < s.len() implies is_digit(#[trigger] s[i]) by {
            if i < s.len() - 1 {
                assert(s[i] == nat_text(n / 10)[i]);
            }
        }
    }
}

/// Reading the text of an integer gives the integer back.
pub proof fn lemma_integer_of_int_text(i: int, min: int, max: int)
    requires
        min <= i <= max,
    ensures
        integer_of_text(int_text(i), min, max) == Some(i),
{
    if i < 0 {
        lemma_nat_text((-i) as nat);
        assert(int_text(i).drop_first() =~= nat_text((-i) as nat));
    } else {
        lemma_nat_text(i as nat);
        let s = nat_text(i as nat);
        assert(is_digit(s[0]));
    }
}

/// Whether two texts are the same.
pub fn same_text(a: &str, b: &str) -> (r: bool)
    ensures
        r == (a@ == b@),
{
    broadcast use vstd::utf8::encode_utf8_decode_utf8;

    let x = a.as_bytes();
    let y = b.as_bytes();
    if x.len() != y.len() {
        return false;
    }
    let mut i: usize = 0;
    while i < x.len()
        invariant
            i <= x.len(),
            x.len() == y.len(),
            x@ == encode_utf8(a@),
            y@ == encode_utf8(b@),
            forall|k: int| 0 <= k < i ==> x@[k] == y@[k],
        decreases x.len() - i,
    {
        if x[i] != y[i] {
            return false;
        }
        i = i + 1;
    }
    assert(x@ =~= y@);
    assert(vstd::utf8::decode_utf8(encode_utf8(a@)) == a@);
    assert(vstd::utf8::decode_utf8(encode_utf8(b@)) == b@);
    true
}

/// The one-character text of a digit.
pub fn digit_text(d: u8) -> (r: &'static str)
    requires
        d < 10,
    ensures
        r@ == seq![digit_char(d as nat)],
{
    proof {
        reveal_strlit("0");
        reveal_strlit("1");
        reveal_strlit("2");
        reveal_strlit("3");
        reveal_strlit("4");
        reveal_strlit("5");
        reveal_strlit("6");
        reveal_strlit("7");
        reveal_strlit("8");
        reveal_strlit("9");
    }
    let r = match d {
        0 => "0",
        1 => "1",
        2 => "2",
        3 => "3",
        4 => "4",
        5 => "5",
        6 => "6",
        7 => "7",
        8 => "8",
        _ => "9",
    };
    assert(r@ =~= seq![digit_char(d as nat)]);
    r
}

/// Appends the digits of `v` to `out`.
pub fn push_nat(out: &mut String, v: u64)
    ensures
        final(out)@ == old(out)@ + nat_text(v as nat),
    decreases v,
{
    if v >= 10 {
        push_nat(out, v / 10);
    }
    out.append(digit_text((v % 10) as u8));
    proof {
        if v >= 10 {
            assert(final(out)@ =~= old(out)@ + nat_text(v as nat));
        } else {
            assert(final(out)@ =~= old(out)@ + nat_text(v as nat));
        }
    }
}

/// Appends the text of `v` to `out`.
pub fn push_int(out: &mut String, v: i64)
    ensures
        final(out)@ == old(out)@ + int_text(v as int),
{
    if v < 0 {
        proof {
            reveal_strlit("-");
        }
        out.append("-");
        let magnitude: u64 = ((-(v + 1)) as u64) + 1;
        push_nat(out, magnitude);
        assert(final(out)@ =~= old(out)@ + int_text(v as int));
    } else {
        push_nat(out, v as u64);
    }
}

/// Reads a whole text as an integer between `min` and `max`.
pub fn parse_integer(text: &str, min: i128, max: i128) -> (r: Option<i128>)
    requires
        -0x1_0000_0000_0000_0000 <= min <= 0,
        0 <= max <= 0x1_0000_0000_0000_0000,
    ensures
        match r {
            Some(v) => integer_of_text(text@, min as int, max as int) == Some(v as int),
            None => integer_of_text(text@, min as int, max as int) is None,
        },
{
    broadcast use is_ascii_spec_bytes;

    let ghost s = text@;
    if !text.is_ascii() {
        proof {
            let j = choose|j: int| 0 <= j < s.len() && !('\0' <= #[trigger] s[j] <= '\u{7f}');
            let signed = s.len() > 0 && (s[0] == '+' || (s[0] == '-' && min < 0));
            if signed {
                assert(s.drop_first()[j - 1] == s[j]);
            }
        }
        return None;
    }
    let bytes = text.as_bytes();
    let n = bytes.len();
    assert(n == s.len());
    assert(forall|i: int| 0 <= i < n ==> bytes@[i] == #[trigger] s[i] as u8);
    if n == 0 {
        return None;
    }
    let first = bytes[0];
    assert(first == s[0] as u8);
    let negative = first == 45 && min < 0;
    let start: usize = if first == 43 || negative {
        1
    } else {
        0
    };
    assert(negative == (s[0] == '-' && min < 0));
    assert((first == 43) == (s[0] == '+'));
    let ghost body = if start == 1 {
        s.drop_first()
    } else {
        s
    };
    if start == n {
        return None;
    }
    let limit: i128 = if -min > max {
        -min
    } else {
        max
    };
    let mut acc: i128 = 0;
    let mut i: usize = start;
    assert(body.take(0) =~= Seq::<char>::empty());
    while i < n
        invariant
            start <= i <= n,
            n == s.len(),
            n == bytes@.len(),
            n > 0,
            s == text@,
            (start == 1) == (s[0] == '+' || (s[0] == '-' && min < 0)),
            start == 0 || start == 1,
            body == if start == 1 {
                s.drop_first()
            } else {
                s
            },
            forall|k: int| 0 <= k < n ==> bytes@[k] == #[trigger] s[k] as u8,
            is_ascii_chars(s),
            all_digits(body.take(i - start)),
            acc == digits_value(body.take(i - start)),
            0 <= acc <= limit,
            0 <= limit <= 0x1_0000_0000_0000_0000,
            limit >= max,
            limit >= -min,
        decreases n - i,
    {
        let b = bytes[i];
        let ghost c = s[i as int];
        assert(b == c as u8);
        assert('\0' <= c <= '\u{7f}');
        if b < 48 || b > 57 {
            assert(!is_digit(body[i - start]));
            return None;
        }
        assert(is_digit(c));
        let d: i128 = (b - 48) as i128;
        assert(d == digit_value(c));
        proof {
            lemma_digits_value_step(body, i - start);
            assert forall|k: int| 0 <= k < body.take(i - start + 1).len() implies is_digit(
                #[trigger] body.take(i - start + 1)[k],
            ) by {
                if k < i - start {
                    assert(body.take(i - start)[k] == body[k]);
                }
            }
        }
        acc = acc * 10 + d;
        if acc > limit {
            proof {
                lemma_digits_value_prefix(body, i - start + 1);
            }
            return None;
        }
        i = i + 1;
    }
    assert(body.take(i - start) =~= body);
    let value: i128 = if negative {
        -acc
    } else {
        acc
    };
    if value < min || value > max {
        None
    } else {
        Some(value)
    }
}

/// What a text denotes as an `i8`.
pub open spec fn i8_of_text(s: Seq<char>) -> Option<i8> {
    match integer_of_text(s, i8::MIN as int, i8::MAX as int) {
        Some(v) => Some(v as i8),
        None => None,
    }
}

/// What a text denotes as an `i32`.
pub open spec fn i32_of_text(s: Seq<char>) -> Option<i32> {
    match integer_of_text(s, i32::MIN as int, i32::MAX as int) {
        Some(v) => Some(v as i32),
        None => None,
    }
}

/// What a text denotes as a `u16`.
pub open spec fn u16_of_text(s: Seq<char>) -> Option<u16> {
    match integer_of_text(s, 0, u16::MAX as int) {
        Some(v) => Some(v as u16),
        None => None,
    }
}

/// What a text denotes as a `u64`.
pub open spec fn u64_of_text(s: Seq<char>) -> Option<u64> {
    match integer_of_text(s, 0, u64::MAX as int) {
        Some(v) => Some(v as u64),
        None => None,
    }
}

/// Reads a whole text as an `i8`.
pub fn parse_i8(text: &str) -> (r: Option<i8>)
    ensures
        r == i8_of_text(text@),
{
    match parse_integer(text, i8::MIN as i128, i8::MAX as i128) {
        Some(v) => Some(v as i8),
        None => None,
    }
}

/// Reads a whole text as an `i32`.
pub fn parse_i32(text: &str) -> (r: Option<i32>)
    ensures
        r == i32_of_text(text@),
{
    match parse_integer(text, i32::MIN as i128, i32::MAX as i128) {
        Some(v) => Some(v as i32),
        None => None,
    }
}

/// Reads a whole text as a `u16`.
pub fn parse_u16(text: &str) -> (r: Option<u16>)
    ensures
        r == u16_of_text(text@),
{
    match parse_integer(text, 0, u16::MAX as i128) {
        Some(v) => Some(v as u16),
        None => None,
    }
}

/// Reads a whole text as a `u64`.
pub fn parse_u64(text: &str) -> (r: Option<u64>)
    ensures
        r == u64_of_text(text@),
{
    match parse_integer(text, 0, u64::MAX as i128) {
        Some(v) => Some(v as u64),
        None => None,
    }
}

} // verus!
