//! Text: decimal notation and the messages built from it.
use vstd::prelude::*;
use vstd::string::StringExecFns;

verus! {

/// The decimal digit of `d`, for `d` under ten.
pub open spec fn digit(d: nat) -> char {
    (48 + d) as u8 as char
}

/// The decimal notation of `n`, without leading zeros.
pub open spec fn decimal(n: nat) -> Seq<char>
    decreases n,
{
    if n < 10 {
        seq![digit(n)]
    } else {
        decimal(n / 10).push(digit(n % 10))
    }
}

fn digit_text(d: u64) -> (s: &'static str)
    requires
        d < 10,
    ensures
        s@ == seq![digit(d as nat)],
{
    proof {
        reveal_strlit("0");
        reveal_strlit("1");
        reveal_strlit("2");
        reveal_strlit("3");
        reveal_strlit("4");
        reveal_strlit("5");
        reveal_strlit("6");
        reveal_strlit("7");
        reveal_strlit("8");
        reveal_strlit("9");
    }
    let s = match d {
        0 => "0",
        1 => "1",
        2 => "2",
        3 => "3",
        4 => "4",
        5 => "5",
        6 => "6",
        7 => "7",
        8 => "8",
        _ => "9",
    };
    proof {
        assert(s@ =~= seq![digit(d as nat)]);
    }
    s
}

/// Append the decimal notation of `n`.
pub fn append_decimal(s: &mut String, n: u64)
    ensures
        final(s)@ == old(s)@ + decimal(n as nat),
    decreases n,
{
    if n >= 10 {
        append_decimal(s, n / 10);
    }
    s.append(digit_text(n % 10));
    proof {
        assert(s@ =~= old(s)@ + decimal(n as nat));
    }
}

/// The decimal notation of `n`.
pub fn decimal_text(n: u64) -> (s: String)
    ensures
        s@ == decimal(n as nat),
{
    let mut s = String::new();
    append_decimal(&mut s, n);
    proof {
        assert(s@ =~= decimal(n as nat));
    }
    s
}

/// The number that `text` writes in decimal: one or more digits, after an
/// optional plus sign, with a value that fits in 64 bits.
pub open spec fn decimal_value(text: Seq<char>) -> Option<u64> {
    let digits = if text.len() > 0 && text[0] == '+' {
        text.drop_first()
    } else {
        text
    };
    if digits.len() > 0 && all_digits(digits) && value_of(digits) <= u64::MAX {
        Some(value_of(digits) as u64)
    } else {
        None
    }
}

pub open spec fn is_digit(c: char) -> bool {
    48 <= c as u32 <= 57
}

pub open spec fn all_digits(digits: Seq<char>) -> bool {
    forall|i: int| 0 <= i < digits.len() ==> is_digit(#[trigger] digits[i])
}

/// The value of a string of decimal digits.
pub open spec fn value_of(digits: Seq<char>) -> nat
    decreases digits.len(),
{
    if digits.len() == 0 {
        0
    } else {
        10 * value_of(digits.drop_last()) + ((digits.last() as u32 - 48) as nat)
    }
}

proof fn lemma_value_grows(digits: Seq<char>, i: int)
    requires
        0 <= i <= digits.len(),
        all_digits(digits),
    ensures
        value_of(digits.take(i)) <= value_of(digits),
    decreases digits.len() - i,
{
    if i < digits.len() {
        let next = digits.take(i + 1);
        assert(next.drop_last() =~= digits.take(i));
        assert(is_digit(digits[i]));
        assert(next.last() == digits[i]);
        lemma_value_grows(digits, i + 1);
    } else {
        assert(digits.take(i) =~= digits);
    }
}

/// Read a number in decimal notation.
pub fn parse_decimal(text: &str) -> (r: Option<u64>)
    ensures
        r == decimal_value(text@),
{
    let n: usize = text.unicode_len();
    let start: usize = if n > 0 && text.get_char(0) == '+' {
        1
    } else {
        0
    };
    let ghost digits = if start == 1 {
        text@.drop_first()
    } else {
        text@
    };
    proof {
        assert(forall|i: int| start <= i < text@.len() ==> text@[i] == digits[i - start]);
        assert(digits.len() == text@.len() - start);
    }
    if start == n {
        return None;
    }
    let mut value: u64 = 0;
    let mut i: usize = start;
    while i < n
        invariant
            n == text@.len(),
            start <= i <= n,
            start < n,
            digits.len() == n - start,
            forall|j: int| start <= j < n ==> text@[j] == digits[j - start],
            all_digits(digits.take(i - start)),
            value == value_of(digits.take(i - start)),
            decimal_value(text@) == (if all_digits(digits) && value_of(digits) <= u64::MAX {
                Some(value_of(digits) as u64)
            } else {
                None
            }),
        decreases n - i,
    {
        let c: char = text.get_char(i);
        let code: u32 = c as u32;
        let ghost next = digits.take(i - start + 1);
        proof {
            assert(next.drop_last() =~= digits.take(i - start));
            assert(next.last() == c);
        }
        if code < 48 || code > 57 {
            proof {
                assert(!is_digit(digits[i - start]));
            }
            return None;
        }
        let d: u64 = (code - 48) as u64;
        if value > (u64::MAX - d) / 10 {
            proof {
                assert(10 * value + d > u64::MAX);
                if all_digits(digits) {
                    lemma_value_grows(digits, i - start + 1);
                }
            }
            return None;
        }
        value = value * 10 + d;
        i = i + 1;
        proof {
            assert forall|j: int| 0 <= j < next.len() implies is_digit(#[trigger] next[j]) by {
                if j < next.len() - 1 {
                    assert(next[j] == next.drop_last()[j]);
                }
            }
        }
    }
    proof {
        assert(digits.take(n - start) =~= digits);
    }
    Some(value)
}

/// Decimal notation is made of digits and writes its number.
pub proof fn lemma_decimal(n: nat)
    ensures
        decimal(n).len() > 0,
        all_digits(decimal(n)),
        value_of(decimal(n)) == n,
    decreases n,
{
    if n < 10 {
        let s = decimal(n);
        assert(s.drop_last() =~= Seq::<char>::empty());
        assert(value_of(Seq::<char>::empty()) == 0);
        assert(s.last() as u32 == 48 + n);
    } else {
        lemma_decimal(n / 10);
        let s = decimal(n);
        assert(s.drop_last() =~= decimal(n / 10));
        assert forall|i: int| 0 <= i < s.len() implies is_digit(#[trigger] s[i]) by {
            if i < s.len() - 1 {
                assert(s[i] == decimal(n / 10)[i]);
            }
        }
    }
}

/// Reading what [`decimal_text`] writes gives the number back.
pub proof fn lemma_decimal_round_trip(n: u64)
    ensures
        decimal_value(decimal(n as nat)) == Some(n),
{
    lemma_decimal(n as nat);
    let s = decimal(n as nat);
    assert(is_digit(s[0]));
}

/// A text in double quotes, with escapes, as `{:?}` writes it.
pub uninterp spec fn quoted(text: Seq<char>) -> Seq<char>;

/// `<str as std::fmt::Debug>::fmt`: the quoted form is a function of the text
/// alone.
#[verifier::external_body]
pub(crate) fn quote(text: &str) -> (s: String)
    ensures
        s@ == quoted(text@),
{
    format!("{:?}", text)
}

/// A number is read exactly from one or more decimal digits, with or without a plus sign
/// before them, whose value fits in 64 bits. A digit more at the end makes ten times the
/// value and the digit.
pub proof fn law_decimal_reads(digits: Seq<char>)
    requires
        forall|i: int| 0 <= i < digits.len() ==> '0' <= #[trigger] digits[i] <= '9',
    ensures
        ({
            let value = digits.fold_left(0int, |n: int, c: char| 10 * n + (c as int - '0' as int));
            &&& digits.len() > 0 && value <= u64::MAX ==> decimal_value(digits) == Some(value as u64) && decimal_value(
                seq!['+'] + digits,
            ) == Some(value as u64)
            &&& digits.len() == 0 || value > u64::MAX ==> decimal_value(digits) is None && decimal_value(
                seq!['+'] + digits,
            ) is None
        }),
{
    lemma_value_is_fold(digits, |n: int, c: char| 10 * n + (c as int - '0' as int));
    let signed = seq!['+'] + digits;
    assert(signed.drop_first() =~= digits);
    assert forall|i: int| 0 <= i < digits.len() implies is_digit(#[trigger] digits[i]) by {
        assert('0' <= digits[i] <= '9');
    }
    if digits.len() > 0 {
        assert('0' <= digits[0] <= '9');
    }
}

/// A text that holds anything but digits, after a plus sign or without one, is no number.
pub proof fn law_only_digits_are_read(text: Seq<char>, i: int)
    requires
        0 <= i < text.len(),
        !(48 <= text[i] as u32 <= 57),
        text[i] != '+' || i > 0,
    ensures
        decimal_value(text) is None,
{
    if text[0] == '+' {
        assert(text.drop_first()[i - 1] == text[i]);
        assert(!is_digit(text.drop_first()[i - 1]));
    } else {
        assert(!is_digit(text[i]));
    }
}

proof fn lemma_value_is_fold(digits: Seq<char>, plus: spec_fn(int, char) -> int)
    requires
        forall|i: int| 0 <= i < digits.len() ==> '0' <= #[trigger] digits[i] <= '9',
        forall|n: int, c: char| #[trigger] plus(n, c) == 10 * n + (c as int - '0' as int),
    ensures
        value_of(digits) == digits.fold_left(0int, plus),
    decreases digits.len(),
{
    if digits.len() > 0 {
        let init = digits.drop_last();
        assert forall|i: int| 0 <= i < init.len() implies '0' <= #[trigger] init[i] <= '9' by {
            assert(init[i] == digits[i]);
        }
        assert('0' <= digits[digits.len() - 1] <= '9');
        lemma_value_is_fold(init, plus);
    }
}

/// Decimal notation has no zero in front, but for the number 0 itself.
pub proof fn law_decimal_is_short(n: nat)
    ensures
        n > 0 ==> decimal(n)[0] != '0',
        n == 0 ==> decimal(n) == seq!['0'],
        decimal(n).len() > 0,
    decreases n,
{
    lemma_decimal(n);
    if n >= 10 {
        law_decimal_is_short(n / 10);
        lemma_decimal(n / 10);
    }
}

} // verus!
