//! Numbers in text.
use vstd::prelude::*;
use vstd::string::StringExecFns;

verus! {

/// The characters of a text.
pub fn chars_of(s: &str) -> (r: Vec<char>)
    ensures
        r@ == s@,
{
    let mut out: Vec<char> = Vec::new();
    for c in it: s.chars()
        invariant
            out@ == it.seq().take(it.index() as int),
            it.seq() == s@,
    {
        out.push(c);
        assert(it.seq().take(it.index() as int).push(c) =~= it.seq().take(it.index() as int + 1));
    }
    assert(s@.take(s@.len() as int) =~= s@);
    out
}

/// Whether two texts are equal.
pub fn same_text(a: &str, b: &str) -> (r: bool)
    ensures
        r == (a@ == b@),
{
    let x = chars_of(a);
    let y = chars_of(b);
    if x.len() != y.len() {
        return false;
    }
    let mut i: usize = 0;
    while i < x.len()
        invariant
            i <= x@.len() == y@.len(),
            x@ == a@,
            y@ == b@,
            forall|k: int| 0 <= k < i ==> x@[k] == #[trigger] y@[k],
        decreases x@.len() - i,
    {
        if x[i] != y[i] {
            assert(a@[i as int] != b@[i as int]);
            return false;
        }
        i = i + 1;
    }
    assert(a@ =~= b@);
    true
}

/// The character of a decimal digit.
pub open spec fn digit_char(d: int) -> char {
    (d + 48) as char
}

/// A number in decimal, without leading zeros.
pub open spec fn decimal_chars(n: nat) -> Seq<char>
    decreases n,
{
    if n < 10 {
        seq![digit_char(n as int)]
    } else {
        decimal_chars(n / 10).push(digit_char((n % 10) as int))
    }
}

fn digit_str(d: u64) -> (r: &'static str)
    requires
        d < 10,
    ensures
        r@ == seq![digit_char(d as int)],
{
    proof {
        reveal_strlit("0");
        reveal_strlit("1");
        reveal_strlit("2");
        reveal_strlit("3");
        reveal_strlit("4");
        reveal_strlit("5");
        reveal_strlit("6");
        reveal_strlit("7");
        reveal_strlit("8");
        reveal_strlit("9");
    }
    let r = match d {
        0 => "0",
        1 => "1",
        2 => "2",
        3 => "3",
        4 => "4",
        5 => "5",
        6 => "6",
        7 => "7",
        8 => "8",
        _ => "9",
    };
    assert(r@ =~= seq![digit_char(d as int)]);
    r
}

/// Writes a number in decimal.
pub fn decimal(n: u64) -> (r: String)
    ensures
        r@ == decimal_chars(n as nat),
    decreases n,
{
    if n < 10 {
        digit_str(n).to_owned()
    } else {
        let head = decimal(n / 10);
        let tail = digit_str(n % 10);
        let r = head.concat(tail);
        assert(r@ =~= decimal_chars(n as nat));
        r
    }
}

/// The number that decimal digits stand for, or `None` if there is another
/// character among them.
pub open spec fn digits_value(s: Seq<char>) -> Option<nat>
    decreases s.len(),
{
    if s.len() == 0 {
        Some(0)
    } else {
        let d = s.last() as int - 48;
        match digits_value(s.drop_last()) {
            Some(v) => if 0 <= d <= 9 {
                Some(10 * v + d as nat)
            } else {
                None
            },
            None => None,
        }
    }
}

/// The number that a text stands for: one digit or more, perhaps behind a plus
/// sign, and no more than `max`.
pub open spec fn parsed_number(s: Seq<char>, max: nat) -> Option<nat> {
    let digits = if s.len() > 0 && s[0] == '+' {
        s.skip(1)
    } else {
        s
    };
    match digits_value(digits) {
        Some(v) => if digits.len() > 0 && v <= max {
            Some(v)
        } else {
            None
        },
        None => None,
    }
}

proof fn lemma_digits_prefix(s: Seq<char>, i: int)
    requires
        0 <= i <= s.len(),
        digits_value(s) is Some,
    ensures
        digits_value(s.take(i)) is Some,
        digits_value(s.take(i))->0 <= digits_value(s)->0,
    decreases s.len(),
{
    if i == s.len() {
        assert(s.take(i) =~= s);
    } else {
        lemma_digits_prefix(s.drop_last(), i);
        assert(s.drop_last().take(i) =~= s.take(i));
    }
}

/// Reads a number from text, as command lines and settings have it.
pub fn parse_number(s: &str) -> (r: Option<usize>)
    ensures
        match parsed_number(s@, usize::MAX as nat) {
            Some(v) => r matches Some(n) && n == v,
            None => r is None,
        },
{
    let len: usize = s.unicode_len();
    let mut start: usize = 0;
    if len > 0 && s.get_char(0) == '+' {
        start = 1;
    }
    let ghost digits = s@.skip(start as int);
    assert(s@.skip(0) =~= s@);
    if start == len {
        return None;
    }
    let mut value: usize = 0;
    let mut i: usize = start;
    while i < len
        invariant
            start <= i <= len == s@.len(),
            digits == s@.skip(start as int),
            parsed_number(s@, usize::MAX as nat) == (match digits_value(digits) {
                Some(v) => if digits.len() > 0 && v <= usize::MAX {
                    Some(v)
                } else {
                    None
                },
                None => None,
            }),
            digits_value(digits.take(i - start)) == Some(value as nat),
        decreases len - i,
    {
        let c: char = s.get_char(i);
        let ghost k = i - start;
        proof {
            assert(digits.take(k + 1).drop_last() =~= digits.take(k));
            assert(digits.take(k + 1).last() == c);
            if digits_value(digits) is Some {
                lemma_digits_prefix(digits, k + 1);
            }
        }
        let code: u32 = c as u32;
        if code < 48 || code > 57 {
            return None;
        }
        let d: usize = (code - 48) as usize;
        match value.checked_mul(10) {
            None => {
                return None;
            },
            Some(tens) => match tens.checked_add(d) {
                None => {
                    return None;
                },
                Some(v) => {
                    value = v;
                },
            },
        }
        i = i + 1;
    }
    assert(digits.take(len - start) =~= digits);
    Some(value)
}

/// A number that was written in decimal is read back, whether or not a plus sign
/// is put in front of it.
pub proof fn law_decimal_is_read_back(n: nat, max: nat)
    requires
        n <= max,
    ensures
        parsed_number(decimal_chars(n), max) == Some(n),
        parsed_number(seq!['+'] + decimal_chars(n), max) == Some(n),
{
    let s = decimal_chars(n);
    lemma_decimal(n);
    let signed = seq!['+'] + s;
    assert(signed.skip(1) =~= s);
    assert(s[0] != '+');
}

pub proof fn lemma_decimal(n: nat)
    ensures
        digits_value(decimal_chars(n)) == Some(n),
        decimal_chars(n).len() > 0,
        forall|i: int|
            0 <= i < decimal_chars(n).len() ==> 48 <= #[trigger] decimal_chars(n)[i] as int <= 57,
        n > 0 ==> decimal_chars(n)[0] as int > 48,
    decreases n,
{
    let s = decimal_chars(n);
    if n < 10 {
        assert(s.drop_last() =~= Seq::<char>::empty());
        assert(digits_value(s.drop_last()) == Some(0nat));
    } else {
        lemma_decimal(n / 10);
        assert(s.drop_last() =~= decimal_chars(n / 10));
        assert(s[0] == decimal_chars(n / 10)[0]);
    }
}

/// A number in decimal has only digits, and no zero in front unless it is zero.
pub proof fn law_decimal_has_no_leading_zeros(n: u64, r: String)
    requires
        call_ensures(decimal, (n,), r),
    ensures
        r@.len() > 0,
        forall|i: int| 0 <= i < r@.len() ==> '0' <= #[trigger] r@[i] && r@[i] <= '9',
        r@[0] == '0' ==> n == 0 && r@.len() == 1,
        digits_value(r@) == Some(n as nat),
{
    lemma_decimal(n as nat);
}

/// A text is a number exactly if it has digits only, at least one, perhaps behind
/// a plus sign, and a further digit behind it multiplies it by ten.
pub proof fn law_numbers_in_text(s: Seq<char>, c: char, max: nat)
    requires
        s.len() > 0,
        s != seq!['+'],
        parsed_number(s, max) is Some,
    ensures
        ({
            let d = c as int - 48;
            let v = (parsed_number(s, max)->0) as int;
            if 0 <= d <= 9 && 10 * v + d <= max {
                parsed_number(s.push(c), max) == Some((10 * v + d) as nat)
            } else {
                parsed_number(s.push(c), max) is None
            }
        }),
{
    let longer = s.push(c);
    let digits = if s[0] == '+' {
        s.skip(1)
    } else {
        s
    };
    let more = if longer[0] == '+' {
        longer.skip(1)
    } else {
        longer
    };
    assert(more =~= digits.push(c));
    assert(more.drop_last() =~= digits);
}

/// Nothing but digits can be read as a number.
pub proof fn law_only_digits_are_numbers(s: &str, r: Option<usize>, i: int)
    requires
        call_ensures(parse_number, (s,), r),
        0 <= i < s@.len(),
        !('0' <= s@[i] && s@[i] <= '9'),
        i > 0 || s@[0] != '+' || s@.len() == 1,
    ensures
        r is None,
{
    let digits = if s@[0] == '+' {
        s@.skip(1)
    } else {
        s@
    };
    let k = if s@[0] == '+' {
        i - 1
    } else {
        i
    };
    if digits.len() > 0 {
        assert(digits[k] == s@[i]);
        lemma_not_a_digit(digits, k);
    }
}

proof fn lemma_not_a_digit(s: Seq<char>, k: int)
    requires
        0 <= k < s.len(),
        !('0' <= s[k] && s[k] <= '9'),
    ensures
        digits_value(s) is None,
    decreases s.len(),
{
    if k < s.len() - 1 {
        assert(s.drop_last()[k] == s[k]);
        lemma_not_a_digit(s.drop_last(), k);
    }
}

} // verus!
