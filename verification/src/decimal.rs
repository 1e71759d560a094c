//! Decimal text of integers, written and read as std writes and reads it.
use vstd::prelude::*;

use crate::text::{chars_of, push_char};

verus! {

/// The character of a decimal digit.
pub open spec fn digit_char(d: int) -> char {
    (48 + d) as char
}

/// Whether a character is an ASCII decimal digit.
pub open spec fn is_digit(c: char) -> bool {
    '0' <= c <= '9'
}

/// The value of an ASCII decimal digit.
pub open spec fn digit_value(c: char) -> int {
    c as int - 48
}

/// The decimal digits of `n`, most significant first, without leading zeros.
pub open spec fn digits_of(n: nat) -> Seq<char>
    decreases n,
{
    if n < 10 {
        seq![digit_char(n as int)]
    } else {
        digits_of(n / 10).push(digit_char((n % 10) as int))
    }
}

/// The decimal text of an integer, with a `-` in front of a negative one.
pub open spec fn int_text(n: int) -> Seq<char> {
    if n < 0 {
        seq!['-'] + digits_of((-n) as nat)
    } else {
        digits_of(n as nat)
    }
}

/// The value of a string of decimal digits.
pub open spec fn digits_value(ds: Seq<char>) -> int
    decreases ds.len(),
{
    if ds.len() == 0 {
        0
    } else {
        digits_value(ds.drop_last()) * 10 + digit_value(ds.last())
    }
}

/// Whether every character is a decimal digit.
pub open spec fn all_digits(ds: Seq<char>) -> bool {
    forall|i: int| 0 <= i < ds.len() ==> is_digit(#[trigger] ds[i])
}

/// What `str::parse` makes of `s` for an integer type with the bounds
/// `min` and `max`: an optional `+` (or `-`, where `signed`) followed by one
/// or more decimal digits, whose value lies within the bounds; `None`
/// for anything else.
pub open spec fn parse_int_spec(s: Seq<char>, signed: bool, min: int, max: int) -> Option<int> {
    if s.len() == 0 {
        None
    } else {
        let neg = signed && s[0] == '-';
        let ds = if s[0] == '+' || neg {
            s.drop_first()
        } else {
            s
        };
        if ds.len() == 0 || !all_digits(ds) {
            None
        } else {
            let v = if neg {
                -digits_value(ds)
            } else {
                digits_value(ds)
            };
            if min <= v <= max {
                Some(v)
            } else {
                None
            }
        }
    }
}

/// What `str::parse::<i32>` makes of `s`.
pub open spec fn parse_i32_spec(s: Seq<char>) -> Option<int> {
    parse_int_spec(s, true, i32::MIN as int, i32::MAX as int)
}

/// What `str::parse::<usize>` makes of `s`.
pub open spec fn parse_usize_spec(s: Seq<char>) -> Option<int> {
    parse_int_spec(s, false, 0, usize::MAX as int)
}

fn digit_to_char(d: u64) -> (c: char)
    requires
        d < 10,
    ensures
        c == digit_char(d as int),
{
    let b: u8 = 48 + d as u8;
    b as char
}

fn push_digits(s: &mut String, n: u64)
    ensures
        final(s)@ == old(s)@ + digits_of(n as nat),
    decreases n,
{
    if n >= 10 {
        push_digits(s, n / 10);
    }
    let ghost mid = s@;
    push_char(s, digit_to_char(n % 10));
    proof {
        if n >= 10 {
            assert(old(s)@ + digits_of((n / 10) as nat) + seq![digit_char((n % 10) as int)]
                =~= old(s)@ + digits_of(n as nat));
        } else {
            assert(old(s)@ + seq![digit_char(n as int)] =~= old(s)@.push(digit_char(n as int)));
        }
    }
}

/// The decimal text of `n`, as `i32::to_string` writes it.
pub fn i32_text(n: i32) -> (r: String)
    ensures
        r@ == int_text(n as int),
{
    let mut r = String::new();
    if n < 0 {
        push_char(&mut r, '-');
        let m: i64 = -(n as i64);
        push_digits(&mut r, m as u64);
    } else {
        push_digits(&mut r, n as u64);
    }
    assert(r@ =~= int_text(n as int));
    r
}

/// The decimal text of `n`, as `usize::to_string` writes it.
pub fn usize_text(n: usize) -> (r: String)
    ensures
        r@ == int_text(n as int),
{
    let mut r = String::new();
    push_digits(&mut r, n as u64);
    assert(r@ =~= int_text(n as int));
    r
}

/// The value of the decimal digits `ds[from..]`, capped at `cap + 1`, or
/// `None` where one of them is not a digit.
fn digits_magnitude(ds: &Vec<char>, from: usize, cap: u128) -> (r: Option<u128>)
    requires
        from <= ds@.len(),
        cap < 0x1_0000_0000_0000_0000_0000_0000,
    ensures
        r is None <==> !all_digits(ds@.skip(from as int)),
        r matches Some(v) ==> {
            ||| v <= cap && v == digits_value(ds@.skip(from as int))
            ||| v == cap + 1 && digits_value(ds@.skip(from as int)) > cap
        },
{
    let mut acc: u128 = 0;
    let mut i = from;
    let ghost tail = ds@.skip(from as int);
    assert(ds@.subrange(from as int, from as int) =~= Seq::<char>::empty());
    while i < ds.len()
        invariant
            from <= i <= ds@.len(),
            cap < 0x1_0000_0000_0000_0000_0000_0000,
            tail == ds@.skip(from as int),
            all_digits(ds@.subrange(from as int, i as int)),
            (acc <= cap && acc == digits_value(ds@.subrange(from as int, i as int))) || (acc
                == cap + 1 && digits_value(ds@.subrange(from as int, i as int)) > cap),
        decreases ds@.len() - i,
    {
        let c = ds[i];
        let ghost pre = ds@.subrange(from as int, i as int);
        let ghost next = ds@.subrange(from as int, i + 1);
        assert(next.drop_last() == pre);
        assert(next.last() == c);
        if !('0' <= c && c <= '9') {
            assert(tail[i - from] == c);
            return None;
        }
        let d: u128 = (c as u32 - 48) as u128;
        assert(d == digit_value(c));
        if acc > cap {
            assert(digits_value(next) > cap);
        } else {
            let v = acc * 10 + d;
            if v > cap {
                acc = cap + 1;
            } else {
                acc = v;
            }
        }
        assert forall|k: int| 0 <= k < next.len() implies is_digit(#[trigger] next[k]) by {
            if k < pre.len() {
                assert(next[k] == pre[k]);
            }
        }
        i += 1;
    }
    assert(ds@.subrange(from as int, i as int) == tail);
    Some(acc)
}

/// Reads an `i32` from its decimal text, as `str::parse::<i32>` does.
pub fn parse_i32(s: &str) -> (r: Option<i32>)
    ensures
        match r {
            Some(v) => parse_i32_spec(s@) == Some(v as int),
            None => parse_i32_spec(s@) is None,
        },
{
    let cs = chars_of(s);
    parse_i32_chars(&cs)
}

/// Reads an `i32` from the characters of its decimal text.
pub fn parse_i32_chars(cs: &Vec<char>) -> (r: Option<i32>)
    ensures
        match r {
            Some(v) => parse_i32_spec(cs@) == Some(v as int),
            None => parse_i32_spec(cs@) is None,
        },
{
    if cs.len() == 0 {
        return None;
    }
    let neg = cs[0] == '-';
    let from: usize = if cs[0] == '+' || neg {
        1
    } else {
        0
    };
    assert(cs@.skip(0) == cs@);
    if from == cs.len() {
        return None;
    }
    match digits_magnitude(cs, from, 2147483648) {
        None => None,
        Some(m) => {
            if neg {
                if m <= 2147483648 {
                    Some((-(m as i128)) as i32)
                } else {
                    None
                }
            } else if m <= 2147483647 {
                Some(m as i32)
            } else {
                None
            }
        },
    }
}

/// Reads a `usize` from its decimal text, as `str::parse::<usize>` does.
pub fn parse_usize(s: &str) -> (r: Option<usize>)
    ensures
        match r {
            Some(v) => parse_usize_spec(s@) == Some(v as int),
            None => parse_usize_spec(s@) is None,
        },
{
    let cs = chars_of(s);
    if cs.len() == 0 {
        return None;
    }
    let from: usize = if cs[0] == '+' {
        1
    } else {
        0
    };
    assert(cs@.skip(0) == cs@);
    if from == cs.len() {
        return None;
    }
    match digits_magnitude(&cs, from, usize::MAX as u128) {
        None => None,
        Some(m) => {
            if m <= usize::MAX as u128 {
                Some(m as usize)
            } else {
                None
            }
        },
    }
}


/// The decimal digits of a number are digits, at least one, and read back
/// as the number.
pub proof fn lemma_digits_of(n: nat)
    ensures
        digits_of(n).len() >= 1,
        all_digits(digits_of(n)),
        digits_value(digits_of(n)) == n,
    decreases n,
{
    let d = digit_char((n % 10) as int);
    assert(digit_value(d) == n % 10);
    if n >= 10 {
        lemma_digits_of(n / 10);
        let p = digits_of(n / 10);
        assert(digits_of(n).drop_last() == p);
        assert(digits_of(n).last() == d);
        assert(digits_value(digits_of(n)) == digits_value(p) * 10 + digit_value(d));
        assert(n == (n / 10) * 10 + n % 10);
        assert forall|i: int| 0 <= i < digits_of(n).len() implies is_digit(
            #[trigger] digits_of(n)[i],
        ) by {
            if i < p.len() {
                assert(digits_of(n)[i] == p[i]);
            }
        }
    } else {
        assert(digits_of(n).drop_last() =~= Seq::<char>::empty());
        assert(digits_value(Seq::<char>::empty()) == 0);
        assert(n % 10 == n);
    }
}

/// Reading back the decimal text of an `i32` gives the same number.
pub proof fn lemma_i32_text_round_trip(n: i32)
    ensures
        parse_i32_spec(int_text(n as int)) == Some(n as int),
{
    let t = int_text(n as int);
    if n < 0 {
        lemma_digits_of((-n) as nat);
        assert(t.drop_first() =~= digits_of((-n) as nat));
    } else {
        lemma_digits_of(n as nat);
        assert(is_digit(t[0]));
    }
}

}
