//! Whole numbers in decimal notation.
use vstd::prelude::*;

verus! {

/// Whether `c` is a decimal digit.
pub open spec fn is_digit(c: char) -> bool {
    '0' <= c && c <= '9'
}

/// Whether `s` is made of decimal digits, at least one.
pub open spec fn all_digits(s: Seq<char>) -> bool {
    s.len() > 0 && forall|i: int| 0 <= i < s.len() ==> is_digit(#[trigger] s[i])
}

/// The number that the digits `s` stand for.
pub open spec fn value(s: Seq<char>) -> nat
    decreases s.len(),
{
    if s.len() == 0 {
        0
    } else {
        10 * value(s.drop_last()) + (s.last() as nat - '0' as nat) as nat
    }
}

/// The number that `s` stands for, if `s` is made of digits, after a `+` or not,
/// and the number is at most `max`.
pub open spec fn unsigned(s: Seq<char>, max: nat) -> Option<nat> {
    let digits = if s.len() > 0 && s[0] == '+' {
        s.drop_first()
    } else {
        s
    };
    if all_digits(digits) && value(digits) <= max {
        Some(value(digits))
    } else {
        None
    }
}

/// The number that `s` stands for, if `s` is made of digits, after a sign or not,
/// and the number is an `i64`.
pub open spec fn signed(s: Seq<char>) -> Option<int> {
    if s.len() > 0 && s[0] == '-' {
        let digits = s.drop_first();
        if all_digits(digits) && value(digits) <= 0x8000_0000_0000_0000 {
            Some(-value(digits))
        } else {
            None
        }
    } else {
        match unsigned(s, 0x7fff_ffff_ffff_ffff) {
            Some(n) => Some(n as int),
            None => None,
        }
    }
}

/// More digits never make a number smaller.
proof fn lemma_value_grows(s: Seq<char>, n: int)
    requires
        0 <= n <= s.len(),
    ensures
        value(s.take(n)) <= value(s),
    decreases s.len(),
{
    if n == s.len() {
        assert(s.take(n) =~= s);
    } else {
        lemma_value_grows(s.drop_last(), n);
        assert(s.drop_last().take(n) =~= s.take(n));
    }
}

/// Tells whether `s` is made of decimal digits, at least one.
pub fn is_digits(s: &[char]) -> (r: bool)
    ensures
        r == all_digits(s@),
{
    let mut i: usize = 0;
    while i < s.len()
        invariant
            i <= s.len(),
            forall|j: int| 0 <= j < i ==> is_digit(#[trigger] s@[j]),
        decreases s.len() - i,
    {
        if !('0' <= s[i] && s[i] <= '9') {
            assert(!is_digit(s@[i as int]));
            return false;
        }
        i += 1;
    }
    s.len() > 0
}

fn digits_value(s: &[char]) -> (r: Option<u64>)
    ensures
        r == (if all_digits(s@) && value(s@) <= u64::MAX {
            Some(value(s@) as u64)
        } else {
            None
        }),
{
    if s.len() == 0 {
        return None;
    }
    let mut n: u64 = 0;
    let mut i: usize = 0;
    while i < s.len()
        invariant
            i <= s.len(),
            s.len() > 0,
            n == value(s@.take(i as int)),
            forall|j: int| 0 <= j < i ==> is_digit(#[trigger] s@[j]),
        decreases s.len() - i,
    {
        let c = s[i];
        if !('0' <= c && c <= '9') {
            assert(!is_digit(s@[i as int]));
            return None;
        }
        let d: u64 = (c as u8 - '0' as u8) as u64;
        proof {
            assert(s@.take(i + 1).drop_last() =~= s@.take(i as int));
            lemma_value_grows(s@, i + 1);
        }
        if n > (u64::MAX - d) / 10 {
            return None;
        }
        n = 10 * n + d;
        i += 1;
    }
    proof {
        assert(s@.take(s@.len() as int) =~= s@);
    }
    Some(n)
}

/// Reads a number that is at most `max`.
pub fn unsigned_of(s: &[char], max: u64) -> (r: Option<u64>)
    ensures
        match r {
            Some(n) => unsigned(s@, max as nat) == Some(n as nat),
            None => unsigned(s@, max as nat) is None,
        },
{
    let digits = if s.len() > 0 && s[0] == '+' {
        proof {
            assert(s@.subrange(1, s@.len() as int) =~= s@.drop_first());
        }
        digits_value(&s[1..s.len()])
    } else {
        digits_value(s)
    };
    match digits {
        Some(n) => if n <= max {
            Some(n)
        } else {
            None
        },
        None => None,
    }
}

/// Reads a number that may have a sign.
pub fn signed_of(s: &[char]) -> (r: Option<i64>)
    ensures
        match r {
            Some(n) => signed(s@) == Some(n as int),
            None => signed(s@) is None,
        },
{
    if s.len() > 0 && s[0] == '-' {
        proof {
            assert(s@.subrange(1, s@.len() as int) =~= s@.drop_first());
        }
        match digits_value(&s[1..s.len()]) {
            Some(n) => if n < 0x8000_0000_0000_0000 {
                Some(-(n as i64))
            } else if n == 0x8000_0000_0000_0000 {
                Some(i64::MIN)
            } else {
                None
            },
            None => None,
        }
    } else {
        match unsigned_of(s, 0x7fff_ffff_ffff_ffff) {
            Some(n) => Some(n as i64),
            None => None,
        }
    }
}

/// The digits of `n`.
pub open spec fn decimal(n: nat) -> Seq<char>
    decreases n,
{
    if n < 10 {
        seq![('0' as nat + n) as char]
    } else {
        decimal(n / 10).push(('0' as nat + n % 10) as char)
    }
}

/// Writes a number.
pub fn decimal_of(n: u16) -> (r: Vec<char>)
    ensures
        r@ == decimal(n as nat),
    decreases n,
{
    let digit: char = (48 + (n % 10) as u8) as char;
    let mut r: Vec<char> = if n < 10 {
        Vec::new()
    } else {
        decimal_of(n / 10)
    };
    r.push(digit);
    assert(n < 10 ==> r@ =~= decimal(n as nat));
    r
}

/// A number that is written and read again is the same.
pub proof fn written_number_is_read_back(n: nat)
    ensures
        all_digits(decimal(n)),
        value(decimal(n)) == n,
    decreases n,
{
    reveal_with_fuel(value, 2);
    if n < 10 {
        assert(decimal(n).drop_last() =~= Seq::<char>::empty());
    } else {
        let init = decimal(n / 10);
        written_number_is_read_back(n / 10);
        assert(decimal(n).drop_last() =~= init);
        assert forall|i: int| 0 <= i < decimal(n).len() implies is_digit(
            #[trigger] decimal(n)[i],
        ) by {
            if i < init.len() {
                assert(decimal(n)[i] == init[i]);
            }
        }
    }
}

/// Digits count ten times as much for each place.
pub proof fn digits_count_by_their_place(s: Seq<char>, c: char)
    requires
        '0' <= c && c <= '9',
    ensures
        value(Seq::empty()) == 0,
        value(s.push(c)) == 10 * value(s) + (c as int - 48),
{
    assert(s.push(c).drop_last() =~= s);
}

/// A number without a sign is read from its digits, and from these after a `+`; it
/// is refused above the limit, and so is any other text.
pub proof fn unsigned_number_is_its_digits(s: Seq<char>, max: nat)
    ensures
        match unsigned(s, max) {
            Some(n) => exists|d: Seq<char>|
                {
                    &&& s == d || s == seq!['+'] + d
                    &&& d.len() > 0
                    &&& forall|i: int| 0 <= i < d.len() ==> '0' <= #[trigger] d[i] && d[i] <= '9'
                    &&& #[trigger] value(d) == n
                    &&& n <= max
                },
            None => forall|d: Seq<char>|
                {
                    &&& s == d || s == seq!['+'] + d
                    &&& d.len() > 0
                    &&& forall|i: int| 0 <= i < d.len() ==> '0' <= #[trigger] d[i] && d[i] <= '9'
                } ==> #[trigger] value(d) > max,
        },
{
    let plus = s.len() > 0 && s[0] == '+';
    let digits = if plus {
        s.drop_first()
    } else {
        s
    };
    if plus {
        assert(s =~= seq!['+'] + digits);
    }
    match unsigned(s, max) {
        Some(n) => {
            assert(forall|i: int| 0 <= i < digits.len() ==> is_digit(#[trigger] digits[i]));
            assert(value(digits) == n);
        },
        None => {
            assert forall|d: Seq<char>|
                {
                    &&& s == d || s == seq!['+'] + d
                    &&& d.len() > 0
                    &&& forall|i: int| 0 <= i < d.len() ==> '0' <= #[trigger] d[i] && d[i] <= '9'
                } implies #[trigger] value(d) > max by {
                if s == d {
                    assert('0' <= d[0]);
                } else {
                    assert(s[0] == '+');
                    assert(d =~= digits);
                }
                assert(d == digits);
                assert(all_digits(d));
            }
        },
    }
}

/// A number with a sign before it is the number without, or its opposite after a
/// `-`; it is refused outside the range of an `i64`.
pub proof fn signed_number_is_its_digits(d: Seq<char>)
    requires
        d.len() > 0,
        forall|i: int| 0 <= i < d.len() ==> '0' <= #[trigger] d[i] && d[i] <= '9',
    ensures
        value(d) <= 9_223_372_036_854_775_807 ==> signed(d) == Some(value(d) as int) && signed(
            seq!['+'] + d,
        ) == Some(value(d) as int),
        value(d) > 9_223_372_036_854_775_807 ==> signed(d) is None && signed(seq!['+'] + d) is None,
        value(d) <= 9_223_372_036_854_775_808 ==> signed(seq!['-'] + d) == Some(-(value(d) as int)),
        value(d) > 9_223_372_036_854_775_808 ==> signed(seq!['-'] + d) is None,
{
    assert('0' <= d[0]);
    assert(all_digits(d));
    assert((seq!['+'] + d).drop_first() =~= d);
    assert((seq!['-'] + d).drop_first() =~= d);
}

} // verus!
