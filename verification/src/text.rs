//! Decimal numbers and small pieces of text.

use vstd::prelude::*;

verus! {

/// Whether two texts hold the same characters.
pub fn same_text(a: &str, b: &str) -> (r: bool)
    ensures
        r == (a@ == b@),
{
    let x: String = a.to_owned();
    let y: String = b.to_owned();
    x == y
}

/// The characters of a text.
pub fn chars_of(s: &str) -> (r: Vec<char>)
    ensures
        r@ == s@,
{
    let mut out: Vec<char> = Vec::new();
    for c in it: s.chars()
        invariant
            it.seq() == s@,
            out@ == it.seq().take(it.index()),
            it.index() == it.seq().len() ==> out@ =~= s@,
    {
        assert(it.seq().take(it.index() + 1) =~= it.seq().take(it.index()).push(c));
        out.push(c);
    }
    out
}

/// Whether a text starts with a prefix.
pub fn has_prefix(s: &str, prefix: &str) -> (r: bool)
    ensures
        r == prefix@.is_prefix_of(s@),
{
    let a: Vec<char> = chars_of(s);
    let b: Vec<char> = chars_of(prefix);
    if b.len() > a.len() {
        return false;
    }
    let mut i: usize = 0;
    while i < b.len()
        invariant
            i <= b.len() <= a.len(),
            a@ == s@,
            b@ == prefix@,
            forall|k: int| 0 <= k < i ==> a@[k] == b@[k],
        decreases b.len() - i,
    {
        if a[i] != b[i] {
            assert(s@.subrange(0, prefix@.len() as int)[i as int] == s@[i as int]);
            return false;
        }
        i = i + 1;
    }
    assert(prefix@ =~= s@.subrange(0, prefix@.len() as int));
    true
}

/// Whether a character is an ASCII digit.
pub open spec fn is_digit(c: char) -> bool {
    '0' <= c <= '9'
}

/// The value of an ASCII digit.
pub open spec fn digit_value(c: char) -> nat {
    (c as int - '0' as int) as nat
}

/// A non-empty run of ASCII digits.
pub open spec fn all_digits(s: Seq<char>) -> bool {
    s.len() > 0 && forall|i: int| 0 <= i < s.len() ==> is_digit(#[trigger] s[i])
}

/// The number that a run of digits writes.
pub open spec fn digits_value(s: Seq<char>) -> nat
    decreases s.len(),
{
    if s.len() == 0 {
        0
    } else {
        digits_value(s.drop_last()) * 10 + digit_value(s.last())
    }
}

/// The unsigned number that a text writes, if it is one of at most `max`: ASCII
/// digits, with an optional plus sign in front.
pub open spec fn unsigned_value(s: Seq<char>, max: nat) -> Option<nat> {
    let body = if s.len() > 0 && s[0] == '+' {
        s.skip(1)
    } else {
        s
    };
    if all_digits(body) && digits_value(body) <= max {
        Some(digits_value(body))
    } else {
        None
    }
}

/// The signed 128-bit number that a text writes, if it is one: ASCII digits,
/// with an optional sign in front.
pub open spec fn signed_value(s: Seq<char>) -> Option<i128> {
    let negative = s.len() > 0 && s[0] == '-';
    let body = if s.len() > 0 && (s[0] == '+' || s[0] == '-') {
        s.skip(1)
    } else {
        s
    };
    let value = if negative {
        -(digits_value(body) as int)
    } else {
        digits_value(body) as int
    };
    if all_digits(body) && i128::MIN <= value <= i128::MAX {
        Some(value as i128)
    } else {
        None
    }
}

proof fn lemma_longer_is_larger(s: Seq<char>, n: int)
    requires
        0 <= n <= s.len(),
    ensures
        digits_value(s.take(n)) <= digits_value(s),
    decreases s.len(),
{
    if n < s.len() {
        assert(s.drop_last().take(n) == s.take(n));
        lemma_longer_is_larger(s.drop_last(), n);
    } else {
        assert(s.take(n) == s);
    }
}

/// The number that the characters from `from` on write, up to 128 bits.
fn parse_digits(chars: &Vec<char>, from: usize) -> (r: Option<u128>)
    requires
        from <= chars@.len(),
    ensures
        ({
            let body = chars@.skip(from as int);
            match r {
                Some(v) => all_digits(body) && digits_value(body) == v,
                None => !all_digits(body) || digits_value(body) > u128::MAX,
            }
        }),
{
    let ghost body = chars@.skip(from as int);
    if from == chars.len() {
        return None;
    }
    let mut value: u128 = 0;
    let mut i: usize = from;
    assert(body.take(0) == Seq::<char>::empty());
    while i < chars.len()
        invariant
            from <= i <= chars@.len(),
            body == chars@.skip(from as int),
            value == digits_value(body.take(i - from)),
            forall|k: int| 0 <= k < i - from ==> is_digit(#[trigger] body[k]),
        decreases chars@.len() - i,
    {
        let c: char = chars[i];
        let ghost n = i - from;
        assert(body[n] == c);
        if !('0' <= c && c <= '9') {
            return None;
        }
        proof {
            assert(body.take(n + 1).drop_last() == body.take(n));
            assert(body.take(n + 1).last() == c);
            lemma_longer_is_larger(body, n + 1);
        }
        let digit: u128 = (c as u32 - '0' as u32) as u128;
        let scaled: u128 = match value.checked_mul(10) {
            Some(v) => v,
            None => {
                return None;
            },
        };
        value = match scaled.checked_add(digit) {
            Some(v) => v,
            None => {
                return None;
            },
        };
        i = i + 1;
    }
    assert(body.take(i - from) == body);
    Some(value)
}

/// Reads an unsigned 64-bit number.
pub fn parse_u64(s: &str) -> (r: Option<u64>)
    ensures
        r == (match unsigned_value(s@, u64::MAX as nat) {
            Some(v) => Some(v as u64),
            None => None,
        }),
{
    let chars: Vec<char> = chars_of(s);
    let from: usize = if chars.len() > 0 && chars[0] == '+' {
        1
    } else {
        0
    };
    assert(s@.skip(0) == s@);
    match parse_digits(&chars, from) {
        Some(v) => if v <= u64::MAX as u128 {
            Some(v as u64)
        } else {
            None
        },
        None => None,
    }
}

/// Reads a signed 128-bit number.
pub fn parse_i128(s: &str) -> (r: Option<i128>)
    ensures
        r == signed_value(s@),
{
    let chars: Vec<char> = chars_of(s);
    let negative: bool = chars.len() > 0 && chars[0] == '-';
    let from: usize = if chars.len() > 0 && (chars[0] == '+' || chars[0] == '-') {
        1
    } else {
        0
    };
    assert(s@.skip(0) == s@);
    match parse_digits(&chars, from) {
        None => None,
        Some(v) => if negative {
            if v <= i128::MAX as u128 {
                Some(-(v as i128))
            } else if v == 0x8000_0000_0000_0000_0000_0000_0000_0000 {
                Some(i128::MIN)
            } else {
                None
            }
        } else if v <= i128::MAX as u128 {
            Some(v as i128)
        } else {
            None
        },
    }
}

/// The decimal digit of a value below ten.
pub open spec fn digit_char(n: nat) -> char {
    ('0' as int + n as int) as char
}

/// The decimal text of a number, without leading zeros.
pub open spec fn decimal_text(n: nat) -> Seq<char>
    decreases n,
{
    if n < 10 {
        seq![digit_char(n)]
    } else {
        decimal_text(n / 10).push(digit_char(n % 10))
    }
}

fn digit_text(n: u32) -> (r: &'static str)
    requires
        n < 10,
    ensures
        r@ == seq![digit_char(n as nat)],
{
    proof {
        reveal_strlit("0");
        reveal_strlit("1");
        reveal_strlit("2");
        reveal_strlit("3");
        reveal_strlit("4");
        reveal_strlit("5");
        reveal_strlit("6");
        reveal_strlit("7");
        reveal_strlit("8");
        reveal_strlit("9");
    }
    match n {
        0 => "0",
        1 => "1",
        2 => "2",
        3 => "3",
        4 => "4",
        5 => "5",
        6 => "6",
        7 => "7",
        8 => "8",
        _ => "9",
    }
}

/// Writes a number in decimal.
pub fn decimal(n: u32) -> (r: String)
    ensures
        r@ == decimal_text(n as nat),
    decreases n,
{
    if n < 10 {
        digit_text(n).to_owned()
    } else {
        let mut s: String = decimal(n / 10);
        s.append(digit_text(n % 10));
        assert(s@ =~= decimal_text((n / 10) as nat).push(digit_char((n % 10) as nat)));
        s
    }
}

/// Reading a written number gives it back.
pub proof fn law_decimal_round_trips(n: nat, max: nat)
    requires
        n <= max,
    ensures
        unsigned_value(decimal_text(n), max) == Some(n),
{
    lemma_decimal_digits(n);
}

/// Reading a signed number gives it back, and a plus sign changes nothing.
pub proof fn law_signed_numbers_round_trip(v: i128)
    ensures
        v >= 0 ==> signed_value(decimal_text(v as nat)) == Some(v),
        v >= 0 ==> signed_value(seq!['+'] + decimal_text(v as nat)) == Some(v),
        v <= 0 ==> signed_value(seq!['-'] + decimal_text((-(v as int)) as nat)) == Some(v),
{
    let n = if v < 0 {
        (-(v as int)) as nat
    } else {
        v as nat
    };
    lemma_decimal_digits(n);
    let digits = decimal_text(n);
    assert(is_digit(digits[0]));
    assert((seq!['+'] + digits).skip(1) =~= digits);
    assert((seq!['-'] + digits).skip(1) =~= digits);
}

/// A text that is read as a signed number is digits behind at most one sign, and its
/// sign is that of the number.
pub proof fn law_signed_numbers_are_digits_behind_a_sign(s: Seq<char>)
    requires
        signed_value(s) is Some,
    ensures
        s.len() > 0,
        is_digit(s[0]) || ((s[0] == '+' || s[0] == '-') && s.len() > 1),
        forall|i: int| 1 <= i < s.len() ==> is_digit(#[trigger] s[i]),
        signed_value(s)->0 < 0 ==> s[0] == '-',
        signed_value(s)->0 > 0 ==> s[0] != '-',
{
    let signed = s.len() > 0 && (s[0] == '+' || s[0] == '-');
    let body = if signed {
        s.skip(1)
    } else {
        s
    };
    assert(is_digit(body[0]));
    assert forall|i: int| 1 <= i < s.len() implies is_digit(#[trigger] s[i]) by {
        let k = if signed {
            i - 1
        } else {
            i
        };
        assert(s[i] == body[k]);
    }
}

/// Written numbers consist of digits.
pub proof fn lemma_decimal_digits(n: nat)
    ensures
        all_digits(decimal_text(n)),
        digits_value(decimal_text(n)) == n,
    decreases n,
{
    let text = decimal_text(n);
    if n < 10 {
        assert(text.drop_last() == Seq::<char>::empty());
        assert(text.last() == digit_char(n));
        assert(digits_value(text.drop_last()) == 0);
    } else {
        lemma_decimal_digits(n / 10);
        let head = decimal_text(n / 10);
        assert(text.drop_last() == head);
        assert(text.last() == digit_char(n % 10));
        assert forall|i: int| 0 <= i < text.len() implies is_digit(#[trigger] text[i]) by {
            if i < head.len() {
                assert(is_digit(head[i]));
            }
        }
    }
}

/// Different numbers are written differently.
pub proof fn law_decimal_is_injective(a: nat, b: nat)
    requires
        decimal_text(a) == decimal_text(b),
    ensures
        a == b,
{
    lemma_decimal_digits(a);
    lemma_decimal_digits(b);
}

/// Ten to a power.
pub open spec fn ten_to(k: nat) -> int
    decreases k,
{
    if k == 0 {
        1
    } else {
        10 * ten_to((k - 1) as nat)
    }
}

/// The last `k` decimal digits of a number, zeros in front included.
pub open spec fn padded_text(n: nat, k: nat) -> Seq<char>
    decreases k,
{
    if k == 0 {
        Seq::empty()
    } else {
        padded_text(n / 10, (k - 1) as nat).push(digit_char(n % 10))
    }
}

/// Writes the last `k` decimal digits of a number, zeros in front included.
pub fn padded(n: u128, k: u32) -> (r: String)
    ensures
        r@ == padded_text(n as nat, k as nat),
    decreases k,
{
    if k == 0 {
        proof {
            reveal_strlit("");
        }
        let s: String = "".to_owned();
        assert(s@ =~= Seq::<char>::empty());
        s
    } else {
        let mut s: String = padded(n / 10, k - 1);
        s.append(digit_text((n % 10) as u32));
        assert(s@ =~= padded_text((n / 10) as nat, (k - 1) as nat).push(digit_char((n % 10) as nat)));
        s
    }
}

/// So many digits are written as were asked for.
pub proof fn lemma_padded_length(n: nat, k: nat)
    ensures
        padded_text(n, k).len() == k,
    decreases k,
{
    if k > 0 {
        lemma_padded_length(n / 10, (k - 1) as nat);
    }
}

/// Different numbers of so many digits are written differently.
pub proof fn law_padding_is_injective(a: nat, b: nat, k: nat)
    requires
        a < ten_to(k),
        b < ten_to(k),
        padded_text(a, k) == padded_text(b, k),
    ensures
        a == b,
    decreases k,
{
    if k > 0 {
        let (x, y) = (padded_text(a / 10, (k - 1) as nat), padded_text(b / 10, (k - 1) as nat));
        assert(x == x.push(digit_char(a % 10)).drop_last());
        assert(y == y.push(digit_char(b % 10)).drop_last());
        assert(x.push(digit_char(a % 10)).last() == digit_char(a % 10));
        assert(y.push(digit_char(b % 10)).last() == digit_char(b % 10));
        law_padding_is_injective(a / 10, b / 10, (k - 1) as nat);
    }
}

} // verus!
