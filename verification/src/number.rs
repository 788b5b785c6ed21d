//! Decimal numbers in text.
use vstd::prelude::*;

verus! {

/// A decimal digit.
pub open spec fn is_digit(c: char) -> bool {
    '0' <= c <= '9'
}

/// The value of a run of decimal digits.
pub open spec fn decimal(s: Seq<char>) -> int
    decreases s.len(),
{
    if s.len() == 0 {
        0
    } else {
        10 * decimal(s.drop_last()) + (s.last() as int - 48)
    }
}

/// One or more decimal digits and nothing else.
pub open spec fn is_decimal(s: Seq<char>) -> bool {
    s.len() > 0 && forall|i: int| 0 <= i < s.len() ==> is_digit(#[trigger] s[i])
}

/// The number that a text without a minus sign stands for: digits, with a plus
/// sign before them or not.
pub open spec fn unsigned(s: Seq<char>) -> Option<int> {
    let t = if s.len() > 0 && s[0] == '+' {
        s.drop_first()
    } else {
        s
    };
    if is_decimal(t) {
        Some(decimal(t))
    } else {
        None
    }
}

/// The number that a text stands for: digits, with a sign before them or not.
pub open spec fn signed(s: Seq<char>) -> Option<int> {
    if s.len() > 0 && s[0] == '-' {
        if is_decimal(s.drop_first()) {
            Some(-decimal(s.drop_first()))
        } else {
            None
        }
    } else {
        unsigned(s)
    }
}

/// A number, where it lies within `lo ..= hi`.
pub open spec fn within(n: Option<int>, lo: int, hi: int) -> Option<int> {
    match n {
        Some(v) => if lo <= v <= hi {
            Some(v)
        } else {
            None
        },
        None => None,
    }
}

/// Digits only raise a value.
proof fn lemma_decimal_grows(s: Seq<char>, n: int)
    requires
        0 <= n <= s.len(),
        forall|i: int| 0 <= i < s.len() ==> is_digit(#[trigger] s[i]),
    ensures
        0 <= decimal(s.take(n)) <= decimal(s),
    decreases s.len(),
{
    if n == s.len() {
        assert(s.take(n) =~= s);
        if n > 0 {
            assert(is_digit(s[n - 1]));
            let t = s.drop_last();
            assert forall|i: int| 0 <= i < t.len() implies is_digit(#[trigger] t[i]) by {
                assert(is_digit(s[i]));
            }
            lemma_decimal_grows(t, n - 1);
        }
    } else {
        let t = s.drop_last();
        assert forall|i: int| 0 <= i < t.len() implies is_digit(#[trigger] t[i]) by {
            assert(is_digit(s[i]));
        }
        lemma_decimal_grows(t, n);
        assert(t.take(n) =~= s.take(n));
        assert(is_digit(s[s.len() - 1]));
    }
}

proof fn lemma_unsigned_natural(s: Seq<char>)
    ensures
        unsigned(s) matches Some(v) ==> v >= 0,
{
    if unsigned(s) is Some {
        if s.len() > 0 && s[0] == '+' {
            lemma_decimal_grows(s.drop_first(), 0);
        } else {
            lemma_decimal_grows(s, 0);
        }
    }
}

/// The value of the digits from place `from` on, where they are digits and their
/// value is at most `max`.
fn digits(s: &[char], from: usize, max: u64) -> (r: Option<u64>)
    requires
        from <= s.len(),
    ensures
        r is Some <==> is_decimal(s@.skip(from as int)) && decimal(s@.skip(from as int)) <= max,
        r matches Some(v) ==> v == decimal(s@.skip(from as int)),
{
    let ghost t = s@.skip(from as int);
    if from == s.len() {
        return None;
    }
    let mut value: u64 = 0;
    let mut i: usize = from;
    assert(t.take(0) =~= seq![]);
    while i < s.len()
        invariant
            from <= i <= s.len(),
            t == s@.skip(from as int),
            forall|k: int| 0 <= k < i - from ==> is_digit(#[trigger] t[k]),
            value == decimal(t.take(i - from)),
            value <= max,
        decreases s.len() - i,
    {
        let c: char = s[i];
        assert(c == t[i - from]);
        if !('0' <= c && c <= '9') {
            assert(!is_digit(t[i - from]));
            return None;
        }
        let d: u64 = (c as u32 - 48) as u64;
        proof {
            let next = t.take(i - from + 1);
            assert(next.drop_last() =~= t.take(i - from));
            assert(decimal(next) == 10 * value + d);
        }
        if d > max || value > (max - d) / 10 {
            proof {
                if is_decimal(t) {
                    lemma_decimal_grows(t, i - from + 1);
                }
            }
            return None;
        }
        value = 10 * value + d;
        i = i + 1;
    }
    proof {
        assert(t.take(i - from) =~= t);
    }
    Some(value)
}

/// An unsigned number of at most `max`.
pub fn parse_unsigned(s: &[char], max: u64) -> (r: Option<u64>)
    ensures
        r is Some <==> within(unsigned(s@), 0, max as int) is Some,
        r matches Some(v) ==> unsigned(s@) == Some(v as int),
{
    proof {
        lemma_unsigned_natural(s@);
    }
    if s.len() > 0 && s[0] == '+' {
        assert(s@.skip(1) =~= s@.drop_first());
        digits(s, 1, max)
    } else {
        assert(s@.skip(0) =~= s@);
        digits(s, 0, max)
    }
}

/// A number of machine size.
pub fn parse_usize(s: &[char]) -> (r: Option<usize>)
    ensures
        r is Some <==> within(unsigned(s@), 0, usize::MAX as int) is Some,
        r matches Some(v) ==> unsigned(s@) == Some(v as int),
{
    match parse_unsigned(s, usize::MAX as u64) {
        Some(v) => Some(v as usize),
        None => None,
    }
}

/// A number of 32 bits.
pub fn parse_u32(s: &[char]) -> (r: Option<u32>)
    ensures
        r is Some <==> within(unsigned(s@), 0, u32::MAX as int) is Some,
        r matches Some(v) ==> unsigned(s@) == Some(v as int),
{
    match parse_unsigned(s, u32::MAX as u64) {
        Some(v) => Some(v as u32),
        None => None,
    }
}

/// A number of 64 bits.
pub fn parse_u64(s: &[char]) -> (r: Option<u64>)
    ensures
        r is Some <==> within(unsigned(s@), 0, u64::MAX as int) is Some,
        r matches Some(v) ==> unsigned(s@) == Some(v as int),
{
    parse_unsigned(s, u64::MAX)
}

/// A signed number of 32 bits.
pub fn parse_i32(s: &[char]) -> (r: Option<i32>)
    ensures
        r is Some <==> within(signed(s@), i32::MIN as int, i32::MAX as int) is Some,
        r matches Some(v) ==> signed(s@) == Some(v as int),
{
    if s.len() > 0 && s[0] == '-' {
        assert(s@.skip(1) =~= s@.drop_first());
        proof {
            if is_decimal(s@.drop_first()) {
                lemma_decimal_grows(s@.drop_first(), 0);
            }
        }
        match digits(s, 1, 0x8000_0000) {
            Some(v) => Some((-(v as i64)) as i32),
            None => None,
        }
    } else {
        proof {
            lemma_unsigned_natural(s@);
        }
        match parse_unsigned(s, 0x7fff_ffff) {
            Some(v) => Some(v as i32),
            None => None,
        }
    }
}

// ------------------------------------------------------------------- reading back

/// The digit with the value `d`.
pub open spec fn digit(d: int) -> char {
    if d == 0 {
        '0'
    } else if d == 1 {
        '1'
    } else if d == 2 {
        '2'
    } else if d == 3 {
        '3'
    } else if d == 4 {
        '4'
    } else if d == 5 {
        '5'
    } else if d == 6 {
        '6'
    } else if d == 7 {
        '7'
    } else if d == 8 {
        '8'
    } else {
        '9'
    }
}

/// A number, written out in decimal digits.
pub open spec fn written(n: nat) -> Seq<char>
    decreases n,
{
    if n < 10 {
        seq![digit(n as int)]
    } else {
        written(n / 10).push(digit(n as int % 10))
    }
}

/// A number that is written out is read back, with a sign before it or not.
pub proof fn written_numbers_are_read_back(n: nat)
    ensures
        is_decimal(written(n)),
        decimal(written(n)) == n,
        unsigned(written(n)) == Some(n as int),
        unsigned(seq!['+'] + written(n)) == Some(n as int),
        signed(written(n)) == Some(n as int),
        signed(seq!['+'] + written(n)) == Some(n as int),
        signed(seq!['-'] + written(n)) == Some(-(n as int)),
        unsigned(seq!['-'] + written(n)) is None,
{
    lemma_written(n);
    let s = written(n);
    assert(is_digit(s[0]));
    assert((seq!['+'] + s).drop_first() =~= s);
    assert((seq!['-'] + s).drop_first() =~= s);
    assert(!is_digit((seq!['-'] + s)[0]));
}

proof fn lemma_written(n: nat)
    ensures
        is_decimal(written(n)),
        decimal(written(n)) == n,
    decreases n,
{
    let s = written(n);
    if n < 10 {
        assert(s.drop_last() =~= seq![]);
        assert(decimal(s.drop_last()) == 0);
    } else {
        lemma_written(n / 10);
        assert(s.drop_last() =~= written(n / 10));
        assert forall|i: int| 0 <= i < s.len() implies is_digit(#[trigger] s[i]) by {
            if i < s.len() - 1 {
                assert(s[i] == written(n / 10)[i]);
            }
        }
    }
}

/// Zeros before a number change nothing.
pub proof fn leading_zeros_count_nothing(s: Seq<char>)
    ensures
        decimal(seq!['0'] + s) == decimal(s),
    decreases s.len(),
{
    let t = seq!['0'] + s;
    if s.len() == 0 {
        assert(t =~= seq!['0']);
        assert(t.drop_last() =~= seq![]);
        assert(decimal(t.drop_last()) == 0);
    } else {
        leading_zeros_count_nothing(s.drop_last());
        assert(t.drop_last() =~= seq!['0'] + s.drop_last());
        assert(t.last() == s.last());
    }
}

/// Only a text of digits, with one sign before them or none, is read as a number.
pub proof fn only_digits_are_numbers(s: Seq<char>, i: int)
    requires
        0 <= i < s.len(),
        !is_digit(s[i]),
        i > 0 || (s[0] != '+' && s[0] != '-') || s.len() == 1,
    ensures
        signed(s) is None,
        unsigned(s) is None,
{
    let t = s.drop_first();
    if s[0] == '+' || s[0] == '-' {
        if i > 0 {
            assert(t[i - 1] == s[i]);
        }
    }
    assert(!is_decimal(s));
    if i > 0 {
        assert(t[i - 1] == s[i]);
        assert(!is_decimal(t));
    }
}

} // verus!
