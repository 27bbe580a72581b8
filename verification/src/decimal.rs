//! Decimal numbers in text: reading them from bytes and writing them as characters.

use vstd::prelude::*;
use vstd::string::StringExecFns;

verus! {

/// Whether the byte is an ASCII digit.
pub open spec fn is_digit(b: u8) -> bool {
    48 <= b <= 57
}

/// Whether every byte is an ASCII digit.
pub open spec fn all_digits(s: Seq<u8>) -> bool {
    forall|i: int| 0 <= i < s.len() ==> is_digit(#[trigger] s[i])
}

/// The number that a run of digits spells.
pub open spec fn digits_value(s: Seq<u8>) -> nat
    decreases s.len(),
{
    if s.len() == 0 {
        0
    } else {
        digits_value(s.drop_last()) * 10 + (s.last() - 48) as nat
    }
}

/// The number that a run of digits spells, if it is a run of at least one digit and the
/// number is at most `max`.
pub open spec fn read_digits(s: Seq<u8>, max: nat) -> Option<nat> {
    if s.len() > 0 && all_digits(s) && digits_value(s) <= max {
        Some(digits_value(s))
    } else {
        None
    }
}

/// An unsigned number: digits, after an optional `+`.
pub open spec fn parse_unsigned(s: Seq<u8>, max: nat) -> Option<nat> {
    if s.len() > 0 && s[0] == 43 {
        read_digits(s.skip(1), max)
    } else {
        read_digits(s, max)
    }
}

/// A signed number between `-below` and `max`: digits, after an optional `+` or `-`.
pub open spec fn parse_signed(s: Seq<u8>, below: nat, max: nat) -> Option<int> {
    if s.len() > 0 && s[0] == 45 {
        match read_digits(s.skip(1), below) {
            Some(n) => Some(-(n as int)),
            None => None,
        }
    } else {
        match parse_unsigned(s, max) {
            Some(n) => Some(n as int),
            None => None,
        }
    }
}

/// The character of a digit.
pub open spec fn digit_char(d: nat) -> char {
    if d == 0 {
        '0'
    } else if d == 1 {
        '1'
    } else if d == 2 {
        '2'
    } else if d == 3 {
        '3'
    } else if d == 4 {
        '4'
    } else if d == 5 {
        '5'
    } else if d == 6 {
        '6'
    } else if d == 7 {
        '7'
    } else if d == 8 {
        '8'
    } else {
        '9'
    }
}

/// A number in decimal, without leading zeros.
pub open spec fn decimal(n: nat) -> Seq<char>
    decreases n,
{
    if n < 10 {
        seq![digit_char(n)]
    } else {
        decimal(n / 10).push(digit_char(n % 10))
    }
}

/// A signed number in decimal, with `-` before a negative one.
pub open spec fn signed_decimal(n: int) -> Seq<char> {
    if n < 0 {
        seq!['-'] + decimal((-n) as nat)
    } else {
        decimal(n as nat)
    }
}

/// The bytes of a text of ASCII characters.
pub open spec fn ascii_bytes(text: Seq<char>) -> Seq<u8> {
    Seq::new(text.len(), |i: int| text[i] as u8)
}

/// A longer run of digits spells a number that is no smaller.
pub proof fn lemma_digits_value_grows(s: Seq<u8>, k: int)
    requires
        0 <= k <= s.len(),
    ensures
        digits_value(s.take(k)) <= digits_value(s),
    decreases s.len() - k,
{
    if k < s.len() {
        lemma_digits_value_grows(s, k + 1);
        assert(s.take(k + 1).drop_last() =~= s.take(k));
    } else {
        assert(s.take(k) =~= s);
    }
}

/// The decimal text of a number is a run of digits that spells the number.
pub proof fn lemma_decimal_round_trip(n: nat)
    ensures
        decimal(n).len() > 0,
        all_digits(ascii_bytes(decimal(n))),
        digits_value(ascii_bytes(decimal(n))) == n,
        ascii_bytes(decimal(n))[0] != 43,
        ascii_bytes(decimal(n))[0] != 45,
    decreases n,
{
    let text = decimal(n);
    let bytes = ascii_bytes(text);
    if n < 10 {
        assert(bytes.drop_last() =~= Seq::<u8>::empty());
        assert(bytes.last() == digit_char(n) as u8);
        assert(digits_value(bytes.drop_last()) == 0);
    } else {
        lemma_decimal_round_trip(n / 10);
        let shorter = ascii_bytes(decimal(n / 10));
        assert(bytes.drop_last() =~= shorter);
        assert(bytes.last() == digit_char(n % 10) as u8);
        assert(bytes[0] == shorter[0]);
        assert forall|i: int| 0 <= i < bytes.len() implies is_digit(#[trigger] bytes[i]) by {
            if i < shorter.len() {
                assert(bytes[i] == shorter[i]);
            }
        }
    }
}

/// The decimal text of a number consists of digits.
pub proof fn lemma_decimal_is_ascii(n: nat)
    ensures
        forall|i: int| 0 <= i < decimal(n).len() ==> '0' <= #[trigger] decimal(n)[i] <= '9',
    decreases n,
{
    let text = decimal(n);
    if n >= 10 {
        lemma_decimal_is_ascii(n / 10);
        let shorter = decimal(n / 10);
        assert forall|i: int| 0 <= i < text.len() implies '0' <= #[trigger] text[i] <= '9' by {
            if i < shorter.len() {
                assert(text[i] == shorter[i]);
            } else {
                assert(text[i] == digit_char(n % 10));
            }
        }
    } else {
        assert(text[0] == digit_char(n));
    }
}

/// Reads the run of digits `bytes[start..end]`.
pub fn scan_digits(bytes: &[u8], start: usize, end: usize, max: u64) -> (r: Option<u64>)
    requires
        start <= end <= bytes@.len(),
    ensures
        r matches Some(n) ==> read_digits(bytes@.subrange(start as int, end as int), max as nat)
            == Some(n as nat),
        r is None ==> read_digits(bytes@.subrange(start as int, end as int), max as nat) is None,
{
    let ghost run = bytes@.subrange(start as int, end as int);
    if start == end {
        return None;
    }
    let mut acc: u64 = 0;
    let mut i: usize = start;
    proof {
        assert(run.take(0) =~= Seq::<u8>::empty());
    }
    while i < end
        invariant
            start <= i <= end <= bytes@.len(),
            run == bytes@.subrange(start as int, end as int),
            all_digits(run.take(i - start)),
            acc == digits_value(run.take(i - start)),
            acc <= max,
        decreases end - i,
    {
        let b = bytes[i];
        proof {
            assert(run[i - start] == b);
            assert(run.take(i - start + 1).drop_last() =~= run.take(i - start));
            assert(run.take(i - start + 1).last() == b);
        }
        if b < 48 || b > 57 {
            return None;
        }
        let next: u128 = acc as u128 * 10 + (b - 48) as u128;
        if next > max as u128 {
            proof {
                if all_digits(run) {
                    lemma_digits_value_grows(run, i - start + 1);
                }
            }
            return None;
        }
        acc = next as u64;
        proof {
            assert forall|k: int| 0 <= k < i - start + 1 implies is_digit(
                #[trigger] run.take(i - start + 1)[k],
            ) by {
                if k < i - start {
                    assert(run.take(i - start)[k] == run.take(i - start + 1)[k]);
                }
            }
        }
        i += 1;
    }
    proof {
        assert(run.take(i - start) =~= run);
    }
    Some(acc)
}

/// Reads the unsigned number `bytes[start..end]`.
pub fn scan_unsigned(bytes: &[u8], start: usize, end: usize, max: u64) -> (r: Option<u64>)
    requires
        start <= end <= bytes@.len(),
    ensures
        r matches Some(n) ==> parse_unsigned(bytes@.subrange(start as int, end as int), max as nat)
            == Some(n as nat),
        r is None ==> parse_unsigned(bytes@.subrange(start as int, end as int), max as nat)
            is None,
{
    let ghost run = bytes@.subrange(start as int, end as int);
    if start < end && bytes[start] == 43 {
        proof {
            assert(run[0] == 43);
            assert(run.skip(1) =~= bytes@.subrange(start + 1, end as int));
        }
        scan_digits(bytes, start + 1, end, max)
    } else {
        proof {
            if start < end {
                assert(run[0] == bytes@[start as int]);
            }
        }
        scan_digits(bytes, start, end, max)
    }
}

/// Reads the signed number `bytes[start..end]`, which lies between `-below` and `max`.
pub fn scan_signed(bytes: &[u8], start: usize, end: usize, below: u64, max: u64) -> (r: Option<
    i128,
>)
    requires
        start <= end <= bytes@.len(),
    ensures
        r matches Some(n) ==> parse_signed(
            bytes@.subrange(start as int, end as int),
            below as nat,
            max as nat,
        ) == Some(n as int),
        r is None ==> parse_signed(
            bytes@.subrange(start as int, end as int),
            below as nat,
            max as nat,
        ) is None,
{
    let ghost run = bytes@.subrange(start as int, end as int);
    if start < end && bytes[start] == 45 {
        proof {
            assert(run[0] == 45);
            assert(run.skip(1) =~= bytes@.subrange(start + 1, end as int));
        }
        match scan_digits(bytes, start + 1, end, below) {
            Some(n) => Some(-(n as i128)),
            None => None,
        }
    } else {
        proof {
            if start < end {
                assert(run[0] == bytes@[start as int]);
            }
        }
        match scan_unsigned(bytes, start, end, max) {
            Some(n) => Some(n as i128),
            None => None,
        }
    }
}

/// The text of one digit.
fn digit_text(d: u64) -> (text: &'static str)
    requires
        d < 10,
    ensures
        text@ == seq![digit_char(d as nat)],
{
    proof {
        reveal_strlit("0");
        reveal_strlit("1");
        reveal_strlit("2");
        reveal_strlit("3");
        reveal_strlit("4");
        reveal_strlit("5");
        reveal_strlit("6");
        reveal_strlit("7");
        reveal_strlit("8");
        reveal_strlit("9");
    }
    let text = if d == 0 {
        "0"
    } else if d == 1 {
        "1"
    } else if d == 2 {
        "2"
    } else if d == 3 {
        "3"
    } else if d == 4 {
        "4"
    } else if d == 5 {
        "5"
    } else if d == 6 {
        "6"
    } else if d == 7 {
        "7"
    } else if d == 8 {
        "8"
    } else {
        "9"
    };
    assert(text@ =~= seq![digit_char(d as nat)]);
    text
}

/// Appends a number in decimal.
pub fn push_decimal(out: &mut String, n: u64)
    ensures
        final(out)@ == old(out)@ + decimal(n as nat),
    decreases n,
{
    if n >= 10 {
        push_decimal(out, n / 10);
    }
    out.append(digit_text(n % 10));
    proof {
        if n >= 10 {
            assert(out@ =~= old(out)@ + decimal(n as nat));
        }
    }
}

/// Appends a signed number in decimal.
pub fn push_signed_decimal(out: &mut String, n: i64)
    requires
        n > i64::MIN,
    ensures
        final(out)@ == old(out)@ + signed_decimal(n as int),
{
    if n < 0 {
        proof {
            reveal_strlit("-");
        }
        out.append("-");
        push_decimal(out, (-n) as u64);
        proof {
            assert("-"@ =~= seq!['-']);
            assert(out@ =~= old(out)@ + signed_decimal(n as int));
        }
    } else {
        push_decimal(out, n as u64);
    }
}

} // verus!
