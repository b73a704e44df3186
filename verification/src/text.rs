//! Decimal formatting and parsing for the textual command form, plus the
//! scan that locates field separators.
use vstd::prelude::*;
use vstd::string::StrSliceExecFns;
use vstd::string::StringExecFns;

verus! {

pub open spec fn char_is_digit(c: char) -> bool {
    '0' <= c && c <= '9'
}

/// The digit character for a value below ten.
pub open spec fn spec_digit_char(d: int) -> char {
    if d == 0 { '0' }
    else if d == 1 { '1' }
    else if d == 2 { '2' }
    else if d == 3 { '3' }
    else if d == 4 { '4' }
    else if d == 5 { '5' }
    else if d == 6 { '6' }
    else if d == 7 { '7' }
    else if d == 8 { '8' }
    else { '9' }
}

/// The value of a digit character; ten for anything that is no digit.
pub open spec fn spec_digit_val(c: char) -> nat {
    if c == '0' { 0 }
    else if c == '1' { 1 }
    else if c == '2' { 2 }
    else if c == '3' { 3 }
    else if c == '4' { 4 }
    else if c == '5' { 5 }
    else if c == '6' { 6 }
    else if c == '7' { 7 }
    else if c == '8' { 8 }
    else if c == '9' { 9 }
    else { 10 }
}

pub open spec fn all_digits(s: Seq<char>) -> bool {
    forall|i: int| 0 <= i < s.len() ==> char_is_digit(#[trigger] s[i])
}

/// The canonical decimal form of a number: no sign, no leading zero except
/// for zero itself.
pub open spec fn spec_dec_digits(n: nat) -> Seq<char>
    decreases n,
{
    if n < 10 {
        seq![spec_digit_char(n as int)]
    } else {
        spec_dec_digits(n / 10) + seq![spec_digit_char((n % 10) as int)]
    }
}

/// The number a digit string denotes.
pub open spec fn spec_dec_value(s: Seq<char>) -> nat
    decreases s.len(),
{
    if s.len() == 0 {
        0
    } else {
        spec_dec_value(s.drop_last()) * 10 + spec_digit_val(s.last())
    }
}

/// What parsing a digit run returns: the value when the whole run is
/// digits and fits, nothing otherwise.
pub open spec fn spec_parse_digits(s: Seq<char>) -> Option<u32> {
    if s.len() >= 1 && all_digits(s) && spec_dec_value(s) <= u32::MAX {
        Some(spec_dec_value(s) as u32)
    } else {
        None
    }
}

/// What parsing an unsigned 32-bit decimal field returns: an optional
/// leading plus sign, then a digit run that fits, as the platform's
/// standard integer parser accepts it.
pub open spec fn spec_parse_u32(s: Seq<char>) -> Option<u32> {
    if s.len() >= 1 && s[0] == '+' {
        spec_parse_digits(s.drop_first())
    } else {
        spec_parse_digits(s)
    }
}

pub proof fn lemma_dec_digits_shape(n: nat)
    ensures
        spec_dec_digits(n).len() >= 1,
        all_digits(spec_dec_digits(n)),
    decreases n,
{
    if n >= 10 {
        lemma_dec_digits_shape(n / 10);
    }
}

proof fn lemma_digit_val_of_char(d: int)
    requires
        0 <= d < 10,
    ensures
        spec_digit_val(spec_digit_char(d)) == d,
{
}

/// Formatting then evaluating a decimal gives the number back.
pub proof fn lemma_dec_round_trip(n: nat)
    ensures
        spec_dec_value(spec_dec_digits(n)) == n,
    decreases n,
{
    if n < 10 {
        let s = spec_dec_digits(n);
        lemma_digit_val_of_char(n as int);
        assert(s.drop_last() =~= Seq::<char>::empty());
        assert(spec_dec_value(Seq::<char>::empty()) == 0);
        assert(s.last() == spec_digit_char(n as int));
        assert(spec_dec_value(s) == spec_dec_value(s.drop_last()) * 10 + spec_digit_val(s.last()));
    } else {
        lemma_dec_round_trip(n / 10);
        lemma_digit_val_of_char((n % 10) as int);
        let s = spec_dec_digits(n);
        assert(s.drop_last() =~= spec_dec_digits(n / 10));
        assert(s.last() == spec_digit_char((n % 10) as int));
    }
}

/// Evaluating a digit run never gives less than evaluating a prefix of it.
pub proof fn lemma_dec_value_prefix_le(s: Seq<char>, i: int)
    requires
        0 <= i <= s.len(),
    ensures
        spec_dec_value(s.subrange(0, i)) <= spec_dec_value(s),
    decreases s.len(),
{
    if i == s.len() {
        assert(s.subrange(0, i) =~= s);
    } else {
        let t = s.drop_last();
        assert(s.subrange(0, i) =~= t.subrange(0, i));
        lemma_dec_value_prefix_le(t, i);
    }
}

/// The digit character for a value below ten, as a one-character string.
fn digit_str(d: u8) -> (r: &'static str)
    requires
        d < 10,
    ensures
        r@ == seq![spec_digit_char(d as int)],
{
    proof {
        reveal_strlit("0");
        reveal_strlit("1");
        reveal_strlit("2");
        reveal_strlit("3");
        reveal_strlit("4");
        reveal_strlit("5");
        reveal_strlit("6");
        reveal_strlit("7");
        reveal_strlit("8");
        reveal_strlit("9");
    }
    let r: &'static str = match d {
        0 => "0",
        1 => "1",
        2 => "2",
        3 => "3",
        4 => "4",
        5 => "5",
        6 => "6",
        7 => "7",
        8 => "8",
        _ => "9",
    };
    proof {
        assert(r@ =~= seq![spec_digit_char(d as int)]);
    }
    r
}

/// The value of a digit character.
fn char_to_digit(c: char) -> (d: u8)
    requires
        char_is_digit(c),
    ensures
        d < 10,
        spec_digit_val(c) == d,
        spec_digit_char(d as int) == c,
{
    match c {
        '0' => 0,
        '1' => 1,
        '2' => 2,
        '3' => 3,
        '4' => 4,
        '5' => 5,
        '6' => 6,
        '7' => 7,
        '8' => 8,
        _ => 9,
    }
}

/// Canonical decimal form of a 32-bit number.
pub fn u32_to_dec_string(n: u32) -> (s: String)
    ensures
        s@ == spec_dec_digits(n as nat),
    decreases n,
{
    if n < 10 {
        let d = digit_str(n as u8);
        String::from_str(d)
    } else {
        let mut s = u32_to_dec_string(n / 10);
        s.append(digit_str((n % 10) as u8));
        s
    }
}

/// Parse a whole string as an unsigned 32-bit decimal number, with an
/// optional leading plus sign.
pub fn parse_u32_str(s: &str) -> (r: Option<u32>)
    ensures
        r == spec_parse_u32(s@),
{
    let n = s.unicode_len();
    if n == 0 {
        return None;
    }
    let start: usize = if s.get_char(0) == '+' { 1 } else { 0 };
    let ghost digits = s@.subrange(start as int, n as int);
    proof {
        if s@[0] == '+' {
            assert(digits =~= s@.drop_first());
        } else {
            assert(digits =~= s@);
        }
    }
    if n == start {
        return None;
    }
    let mut acc: u64 = 0;
    let mut i: usize = start;
    while i < n
        invariant
            start <= i <= n,
            start <= 1,
            n == s@.len(),
            digits == s@.subrange(start as int, n as int),
            digits.len() == n - start,
            (s@[0] == '+') <==> start == 1,
            all_digits(digits.subrange(0, i - start)),
            acc == spec_dec_value(digits.subrange(0, i - start)),
            acc <= u32::MAX,
        decreases n - i,
    {
        let c = s.get_char(i);
        proof {
            assert(digits[i - start] == s@[i as int]);
        }
        if !('0' <= c && c <= '9') {
            proof {
                assert(!char_is_digit(digits[i - start]));
                assert(spec_parse_digits(digits) is None);
                if s@[0] == '+' {
                    assert(digits =~= s@.drop_first());
                } else {
                    assert(digits =~= s@);
                }
            }
            return None;
        }
        let d = char_to_digit(c);
        acc = acc * 10 + (d as u64);
        proof {
            let pre = digits.subrange(0, i - start);
            let cur = digits.subrange(0, i + 1 - start);
            assert(cur.drop_last() =~= pre);
            assert(cur.last() == c);
        }
        i = i + 1;
        if acc > u32::MAX as u64 {
            proof {
                lemma_dec_value_prefix_le(digits, i - start);
                assert(digits.subrange(0, digits.len() as int) =~= digits);
                assert(spec_dec_value(digits) > u32::MAX);
                assert(spec_parse_digits(digits) is None);
                if s@[0] == '+' {
                    assert(digits =~= s@.drop_first());
                } else {
                    assert(digits =~= s@);
                }
            }
            return None;
        }
    }
    proof {
        assert(digits.subrange(0, digits.len() as int) =~= digits);
        if s@[0] == '+' {
            assert(digits =~= s@.drop_first());
        } else {
            assert(digits =~= s@);
        }
    }
    Some(acc as u32)
}

/// Index of the first separator at or after `from`, or the length when the
/// rest of the string holds none.
pub fn find_pipe(s: &str, from: usize) -> (r: usize)
    requires
        from <= s@.len(),
    ensures
        from <= r <= s@.len(),
        forall|k: int| from <= k < r ==> s@[k] != '|',
        r < s@.len() ==> s@[r as int] == '|',
{
    let n = s.unicode_len();
    let mut i: usize = from;
    while i < n
        invariant
            from <= i <= n,
            n == s@.len(),
            forall|k: int| from <= k < i ==> s@[k] != '|',
        decreases n - i,
    {
        if s.get_char(i) == '|' {
            return i;
        }
        i = i + 1;
    }
    i
}

} // verus!
