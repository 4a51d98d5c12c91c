//! Building and reading the strings the game works with: identifiers, event texts and
//! numbers stored as text.

use vstd::prelude::*;
use vstd::string::*;

verus! {

/// The character of the decimal digit `d`.
pub open spec fn digit_char(d: nat) -> char {
    if d == 0 {
        '0'
    } else if d == 1 {
        '1'
    } else if d == 2 {
        '2'
    } else if d == 3 {
        '3'
    } else if d == 4 {
        '4'
    } else if d == 5 {
        '5'
    } else if d == 6 {
        '6'
    } else if d == 7 {
        '7'
    } else if d == 8 {
        '8'
    } else {
        '9'
    }
}

/// The decimal notation of `n`, without leading zeros.
pub open spec fn decimal(n: nat) -> Seq<char>
    decreases n,
{
    if n < 10 {
        seq![digit_char(n)]
    } else {
        decimal(n / 10).push(digit_char(n % 10))
    }
}

fn digit_str(d: u64) -> (s: &'static str)
    requires
        d < 10,
    ensures
        s@ == seq![digit_char(d as nat)],
{
    proof {
        reveal_strlit("0");
        reveal_strlit("1");
        reveal_strlit("2");
        reveal_strlit("3");
        reveal_strlit("4");
        reveal_strlit("5");
        reveal_strlit("6");
        reveal_strlit("7");
        reveal_strlit("8");
        reveal_strlit("9");
    }
    let s = if d == 0 {
        "0"
    } else if d == 1 {
        "1"
    } else if d == 2 {
        "2"
    } else if d == 3 {
        "3"
    } else if d == 4 {
        "4"
    } else if d == 5 {
        "5"
    } else if d == 6 {
        "6"
    } else if d == 7 {
        "7"
    } else if d == 8 {
        "8"
    } else {
        "9"
    };
    assert(s@ =~= seq![digit_char(d as nat)]);
    s
}

/// Writes `n` in decimal.
pub fn u64_to_string(n: u64) -> (s: String)
    ensures
        s@ == decimal(n as nat),
    decreases n,
{
    if n < 10 {
        String::from_str(digit_str(n))
    } else {
        let mut s = u64_to_string(n / 10);
        s.append(digit_str(n % 10));
        assert(s@ =~= decimal(n as nat));
        s
    }
}

/// An identifier made of a prefix and a running number, such as `consumable_7`.
pub fn numbered_id(prefix: &str, n: u64) -> (s: String)
    ensures
        s@ == prefix@ + decimal(n as nat),
{
    let mut s = String::from_str(prefix);
    let digits = u64_to_string(n);
    s.append(digits.as_str());
    s
}

/// Whether two strings hold the same text.
pub fn same_text(a: &String, b: &str) -> (r: bool)
    ensures
        r == (a@ == b@),
{
    let other = String::from_str(b);
    *a == other
}

/// Whether all characters are decimal digits.
pub open spec fn all_digits(s: Seq<char>) -> bool {
    forall|i: int| 0 <= i < s.len() ==> 48 <= (#[trigger] s[i]) as u32 <= 57
}

/// The number that a string of decimal digits writes.
pub open spec fn digits_value(s: Seq<char>) -> int
    decreases s.len(),
{
    if s.len() == 0 {
        0
    } else {
        10 * digits_value(s.drop_last()) + (s.last() as u32 - 48)
    }
}

/// The number that a text writes: decimal digits after an optional `+` or, for a signed
/// number, `-`. A text without digits or with any other character writes no number.
pub open spec fn parse_number(s: Seq<char>, signed: bool) -> Option<int> {
    if s.len() == 0 {
        None
    } else {
        let negative = signed && s[0] == '-';
        let body = if s[0] == '+' || negative {
            s.skip(1)
        } else {
            s
        };
        if body.len() == 0 || !all_digits(body) {
            None
        } else if negative {
            Some(-digits_value(body))
        } else {
            Some(digits_value(body))
        }
    }
}

/// The number that a text writes, where it lies between `lowest` and `highest`.
pub open spec fn parse_within(s: Seq<char>, signed: bool, lowest: int, highest: int) -> Option<int> {
    match parse_number(s, signed) {
        Some(v) => if lowest <= v <= highest {
            Some(v)
        } else {
            None
        },
        None => None,
    }
}

/// The signed 32-bit number that a text writes.
pub open spec fn parse_i32(s: Seq<char>) -> Option<i32> {
    match parse_within(s, true, i32::MIN as int, i32::MAX as int) {
        Some(v) => Some(v as i32),
        None => None,
    }
}

/// The unsigned 32-bit number that a text writes.
pub open spec fn parse_u32(s: Seq<char>) -> Option<u32> {
    match parse_within(s, false, 0, u32::MAX as int) {
        Some(v) => Some(v as u32),
        None => None,
    }
}

proof fn lemma_digits_grow(s: Seq<char>, k: int)
    requires
        all_digits(s),
        0 <= k <= s.len(),
    ensures
        0 <= digits_value(s.take(k)) <= digits_value(s),
    decreases s.len() - k,
{
    lemma_digits_nonnegative(s.take(k));
    if k < s.len() {
        lemma_digits_grow(s, k + 1);
        assert(s.take(k + 1).drop_last() =~= s.take(k));
    } else {
        assert(s.take(k) =~= s);
    }
}

proof fn lemma_digits_nonnegative(s: Seq<char>)
    requires
        all_digits(s),
    ensures
        0 <= digits_value(s),
    decreases s.len(),
{
    if s.len() > 0 {
        lemma_digits_nonnegative(s.drop_last());
    }
}

/// Reads the number that a text writes, where it lies between `lowest` and `highest`.
pub fn read_number(s: &str, signed: bool, lowest: i64, highest: i64) -> (r: Option<i64>)
    requires
        -0x1_0000_0000 <= lowest <= 0 <= highest <= 0x1_0000_0000,
    ensures
        match r {
            Some(v) => parse_within(s@, signed, lowest as int, highest as int) == Some(v as int),
            None => parse_within(s@, signed, lowest as int, highest as int) is None,
        },
{
    let n = s.unicode_len();
    if n == 0 {
        return None;
    }
    let first = s.get_char(0);
    let negative = signed && first == '-';
    let start: usize = if first == '+' || negative {
        1
    } else {
        0
    };
    if start == n {
        return None;
    }
    let ghost body = if start == 1 {
        s@.skip(1)
    } else {
        s@
    };
    let limit: i64 = if highest >= -lowest {
        highest
    } else {
        -lowest
    };
    let mut value: i64 = 0;
    let mut beyond = false;
    let mut i: usize = start;
    assert(body.take(0) =~= Seq::empty());
    while i < n
        invariant
            start <= i <= n,
            n == s@.len(),
            start <= 1,
            negative == (signed && s@[0] == '-'),
            (start == 1) == (s@[0] == '+' || negative),
            body == (if start == 1 {
                s@.skip(1)
            } else {
                s@
            }),
            0 <= limit <= 0x1_0000_0000,
            all_digits(body.take(i - start)),
            0 <= value <= limit,
            !beyond ==> value == digits_value(body.take(i - start)),
            beyond ==> digits_value(body.take(i - start)) > limit,
        decreases n - i,
    {
        let c = s.get_char(i);
        let code = c as u32;
        assert(body[i - start] == c);
        if code < 48 || code > 57 {
            assert(!all_digits(body)) by {
                assert(!(48 <= body[i - start] as u32 <= 57));
            }
            return None;
        }
        proof {
            assert(body.take(i + 1 - start).drop_last() =~= body.take(i - start));
            lemma_digits_nonnegative(body.take(i - start));
        }
        if !beyond {
            let next = value * 10 + (code - 48) as i64;
            if next > limit {
                beyond = true;
            } else {
                value = next;
            }
        }
        i += 1;
    }
    proof {
        assert(body.take(n - start) =~= body);
    }
    if beyond {
        return None;
    }
    let number = if negative {
        -value
    } else {
        value
    };
    if lowest <= number && number <= highest {
        Some(number)
    } else {
        None
    }
}

/// Reads the signed 32-bit number that a text writes.
pub fn read_i32(s: &str) -> (r: Option<i32>)
    ensures
        r == parse_i32(s@),
{
    match read_number(s, true, -0x8000_0000, 0x7fff_ffff) {
        Some(v) => Some(v as i32),
        None => None,
    }
}

/// Reads the unsigned 32-bit number that a text writes.
pub fn read_u32(s: &str) -> (r: Option<u32>)
    ensures
        r == parse_u32(s@),
{
    match read_number(s, false, 0, 0xffff_ffff) {
        Some(v) => Some(v as u32),
        None => None,
    }
}

/// The text of an optional text.
pub open spec fn text_of(s: Option<&str>) -> Option<Seq<char>> {
    match s {
        Some(t) => Some(t@),
        None => None,
    }
}

/// The ten digits are written with ten different characters.
pub proof fn lemma_digit_char_differs(a: nat, b: nat)
    requires
        a < 10,
        b < 10,
        digit_char(a) == digit_char(b),
    ensures
        a == b,
{
}

/// Two numbers with one decimal notation are one number.
pub proof fn lemma_decimal_differs(a: nat, b: nat)
    requires
        decimal(a) == decimal(b),
    ensures
        a == b,
    decreases a,
{
    lemma_decimal_length(a / 10);
    lemma_decimal_length(b / 10);
    if a < 10 && b < 10 {
        assert(decimal(a)[0] == digit_char(a));
        assert(decimal(b)[0] == digit_char(b));
        lemma_digit_char_differs(a, b);
    } else if a >= 10 && b >= 10 {
        let front_a = decimal(a / 10);
        let front_b = decimal(b / 10);
        assert(decimal(a).drop_last() =~= front_a);
        assert(decimal(b).drop_last() =~= front_b);
        assert(decimal(a).last() == digit_char(a % 10));
        assert(decimal(b).last() == digit_char(b % 10));
        lemma_decimal_differs(a / 10, b / 10);
        lemma_digit_char_differs(a % 10, b % 10);
    } else if a < 10 {
        assert(decimal(a).len() == 1);
        assert(decimal(b).len() == decimal(b / 10).len() + 1);
    } else {
        assert(decimal(b).len() == 1);
        assert(decimal(a).len() == decimal(a / 10).len() + 1);
    }
}

/// A decimal notation has a digit at least.
pub proof fn lemma_decimal_length(n: nat)
    ensures
        decimal(n).len() >= 1,
    decreases n,
{
    if n >= 10 {
        lemma_decimal_length(n / 10);
    }
}

/// Two numbers with one numbered name are one number.
pub proof fn lemma_numbered_differs(prefix: Seq<char>, a: nat, b: nat)
    requires
        prefix + decimal(a) == prefix + decimal(b),
    ensures
        a == b,
{
    assert((prefix + decimal(a)).skip(prefix.len() as int) =~= decimal(a));
    assert((prefix + decimal(b)).skip(prefix.len() as int) =~= decimal(b));
    lemma_decimal_differs(a, b);
}

} // verus!
