//! Decimal text of unsigned numbers, as stored in metadata attributes and
//! block file names.
use vstd::prelude::*;
use crate::metadata::{chars_of, string_of};

verus! {

/// The character of a decimal digit.
pub open spec fn digit_char(d: nat) -> char {
    ((d + 48) as u8) as char
}

/// Whether `c` is a decimal digit.
pub open spec fn is_digit(c: char) -> bool {
    '0' <= c && c <= '9'
}

/// Decimal text of `n`, without leading zeros.
pub open spec fn decimal_text(n: nat) -> Seq<char>
    decreases n,
{
    if n < 10 {
        seq![digit_char(n)]
    } else {
        decimal_text(n / 10).push(digit_char(n % 10))
    }
}

/// Whether `s` is a non-empty string of decimal digits.
pub open spec fn is_decimal(s: Seq<char>) -> bool {
    s.len() > 0 && forall|i: int| 0 <= i < s.len() ==> is_digit(#[trigger] s[i])
}

/// The value of a string of decimal digits.
pub open spec fn decimal_value(s: Seq<char>) -> nat
    decreases s.len(),
{
    if s.len() == 0 {
        0
    } else {
        decimal_value(s.drop_last()) * 10 + ((s.last() as u32) - 48) as nat
    }
}

fn push_decimal(n: u64, out: &mut Vec<char>)
    ensures
        final(out)@ == old(out)@ + decimal_text(n as nat),
    decreases n,
{
    if n >= 10 {
        push_decimal(n / 10, out);
    }
    let d = (n % 10) as u8;
    out.push((48u8 + d) as char);
    assert(out@ =~= old(out)@ + decimal_text(n as nat));
}

/// Decimal text of a number.
pub fn decimal(n: u64) -> (r: String)
    ensures
        r@ == decimal_text(n as nat),
{
    let mut t: Vec<char> = Vec::new();
    push_decimal(n, &mut t);
    assert(t@ =~= decimal_text(n as nat));
    string_of(t.as_slice())
}

proof fn lemma_value_grows(s: Seq<char>, k: int)
    requires
        0 <= k <= s.len(),
        forall|i: int| 0 <= i < s.len() ==> is_digit(#[trigger] s[i]),
    ensures
        decimal_value(s.take(k)) <= decimal_value(s),
    decreases s.len() - k,
{
    if k < s.len() {
        assert(s.take(k + 1).drop_last() =~= s.take(k));
        assert(is_digit(s[k]));
        lemma_value_grows(s, k + 1);
    } else {
        assert(s.take(k) =~= s);
    }
}

/// Reads decimal text: `None` unless it is a non-empty run of digits whose
/// value fits in 32 bits.
pub fn parse_decimal(text: &str) -> (r: Option<u32>)
    ensures
        match r {
            Some(n) => is_decimal(text@) && decimal_value(text@) == n,
            None => !is_decimal(text@) || decimal_value(text@) > u32::MAX,
        },
{
    let c = chars_of(text);
    if c.len() == 0 {
        return None;
    }
    let mut acc: u64 = 0;
    let mut i: usize = 0;
    while i < c.len()
        invariant
            i <= c@.len(),
            c@ == text@,
            forall|k: int| 0 <= k < i ==> is_digit(#[trigger] c@[k]),
            acc == decimal_value(c@.take(i as int)),
            acc <= u32::MAX,
        decreases c@.len() - i,
    {
        assert(c@.take(i + 1).drop_last() =~= c@.take(i as int));
        let ch = c[i];
        if !('0' <= ch && ch <= '9') {
            return None;
        }
        acc = acc * 10 + ((ch as u32) - 48) as u64;
        i += 1;
        if acc > 0xffff_ffff {
            proof {
                if is_decimal(text@) {
                    lemma_value_grows(c@, i as int);
                }
            }
            return None;
        }
    }
    assert(c@.take(i as int) =~= c@);
    Some(acc as u32)
}

} // verus!
