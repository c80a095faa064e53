//! Numbers as their digits: decimal for the counters of a file name, hex for
//! its content identifier.

use vstd::prelude::*;

verus! {

/// Whether `c` is one of `0` to `9`.
pub open spec fn is_digit(c: char) -> bool {
    '0' <= c && c <= '9'
}

/// Whether `c` is a hex digit, in either case.
pub open spec fn is_hex(c: char) -> bool {
    is_digit(c) || ('a' <= c && c <= 'f') || ('A' <= c && c <= 'F')
}

/// Whether `c` is a hex digit that is not an upper-case letter.
pub open spec fn is_lower_hex(c: char) -> bool {
    is_digit(c) || ('a' <= c && c <= 'f')
}

/// Whether `s` is made of decimal digits.
pub open spec fn all_digits(s: Seq<char>) -> bool {
    forall|i: int| 0 <= i < s.len() ==> is_digit(#[trigger] s[i])
}

/// Whether `s` is made of hex digits without upper-case letters.
pub open spec fn all_lower_hex(s: Seq<char>) -> bool {
    forall|i: int| 0 <= i < s.len() ==> is_lower_hex(#[trigger] s[i])
}

/// What the hex digit `c` counts for; a decimal digit counts the same.
pub open spec fn digit_value(c: char) -> nat {
    if is_digit(c) {
        (c as nat - '0' as nat) as nat
    } else if 'a' <= c && c <= 'f' {
        (c as nat - 'a' as nat + 10) as nat
    } else if 'A' <= c && c <= 'F' {
        (c as nat - 'A' as nat + 10) as nat
    } else {
        0
    }
}

/// The lower-case digit that counts for `d`, which is below 16.
pub open spec fn digit_char(d: nat) -> char {
    if d < 10 {
        ('0' as nat + d) as char
    } else {
        ('a' as nat + d - 10) as char
    }
}

/// The number that the decimal digits `s` spell.
pub open spec fn decimal_value(s: Seq<char>) -> nat
    decreases s.len(),
{
    if s.len() == 0 {
        0
    } else {
        decimal_value(s.drop_last()) * 10 + digit_value(s.last())
    }
}

/// `v` in decimal digits, with zeros in front up to `width` digits.
pub open spec fn decimal_text(v: nat, width: nat) -> Seq<char>
    decreases v, width,
{
    if v < 10 && width <= 1 {
        seq![digit_char(v)]
    } else {
        decimal_text(v / 10, if width > 0 { (width - 1) as nat } else { 0 }).push(digit_char(v % 10))
    }
}

/// The number that the hex digits `s` spell.
pub open spec fn hex_value(s: Seq<char>) -> nat
    decreases s.len(),
{
    if s.len() == 0 {
        0
    } else {
        hex_value(s.drop_last()) * 16 + digit_value(s.last())
    }
}

/// The last `width` lower-case hex digits of `v`.
pub open spec fn hex_text(v: nat, width: nat) -> Seq<char>
    decreases width,
{
    if width == 0 {
        Seq::empty()
    } else {
        hex_text(v / 16, (width - 1) as nat).push(digit_char(v % 16))
    }
}

/// 10 to the power `n`.
pub open spec fn pow10(n: nat) -> nat
    decreases n,
{
    if n == 0 {
        1
    } else {
        10 * pow10((n - 1) as nat)
    }
}

/// 16 to the power `n`.
pub open spec fn pow16(n: nat) -> nat
    decreases n,
{
    if n == 0 {
        1
    } else {
        16 * pow16((n - 1) as nat)
    }
}

/// A digit below 16 and its character stand for each other.
pub proof fn lemma_digit_char(d: nat)
    requires
        d < 16,
    ensures
        is_lower_hex(digit_char(d)),
        d < 10 ==> is_digit(digit_char(d)),
        digit_value(digit_char(d)) == d,
{
}

/// A character counts for less than 16, a decimal digit for less than 10,
/// and a digit that is not an upper-case letter is the character of what it
/// counts for.
pub proof fn lemma_digit_value(c: char)
    ensures
        digit_value(c) < 16,
        is_digit(c) ==> digit_value(c) < 10,
        is_lower_hex(c) ==> digit_char(digit_value(c)) == c,
{
}

/// Digits spell a number below the power of ten that their count gives.
pub proof fn lemma_decimal_value_bound(s: Seq<char>)
    requires
        all_digits(s),
    ensures
        decimal_value(s) < pow10(s.len()),
    decreases s.len(),
{
    if s.len() > 0 {
        lemma_decimal_value_bound(s.drop_last());
        lemma_digit_value(s.last());
    }
}

/// The digits of a number spell it, and are at least as many as asked for.
pub proof fn lemma_decimal_text(v: nat, width: nat)
    ensures
        all_digits(decimal_text(v, width)),
        decimal_text(v, width).len() >= width,
        decimal_text(v, width).len() >= 1,
        v < pow10(width) && width >= 1 ==> decimal_text(v, width).len() == width,
        decimal_value(decimal_text(v, width)) == v,
    decreases v, width,
{
    let text = decimal_text(v, width);
    if v < 10 && width <= 1 {
        lemma_digit_char(v);
        assert(text.drop_last() =~= Seq::<char>::empty());
        assert(decimal_value(text.drop_last()) == 0);
    } else {
        let rest = decimal_text(v / 10, if width > 0 { (width - 1) as nat } else { 0 });
        lemma_decimal_text(v / 10, if width > 0 { (width - 1) as nat } else { 0 });
        lemma_digit_char(v % 10);
        assert(text.drop_last() =~= rest);
    }
}

/// Digits are the text of the number that they spell, at their own width.
pub proof fn lemma_decimal_value_text(s: Seq<char>)
    requires
        all_digits(s),
        s.len() >= 1,
    ensures
        decimal_text(decimal_value(s), s.len()) == s,
    decreases s.len(),
{
    let v = decimal_value(s);
    lemma_digit_value(s.last());
    if s.len() == 1 {
        assert(s.drop_last() =~= Seq::<char>::empty());
        assert(decimal_value(s.drop_last()) == 0);
        assert(s =~= seq![s.last()]);
    } else {
        lemma_decimal_value_text(s.drop_last());
        assert(s =~= s.drop_last().push(s.last()));
    }
}

/// Hex digits spell a number below the power of 16 that their count gives.
pub proof fn lemma_hex_value_bound(s: Seq<char>)
    ensures
        hex_value(s) < pow16(s.len()),
    decreases s.len(),
{
    if s.len() > 0 {
        lemma_hex_value_bound(s.drop_last());
        lemma_digit_value(s.last());
    }
}

/// The hex digits of a number that fits the width spell it.
pub proof fn lemma_hex_text(v: nat, width: nat)
    requires
        v < pow16(width),
    ensures
        all_lower_hex(hex_text(v, width)),
        hex_text(v, width).len() == width,
        hex_value(hex_text(v, width)) == v,
    decreases width,
{
    if width > 0 {
        lemma_hex_text(v / 16, (width - 1) as nat);
        lemma_digit_char(v % 16);
        assert(hex_text(v, width).drop_last() =~= hex_text(v / 16, (width - 1) as nat));
    }
}

/// Lower-case hex digits are the text of the number that they spell.
pub proof fn lemma_hex_value_text(s: Seq<char>)
    requires
        all_lower_hex(s),
    ensures
        hex_text(hex_value(s), s.len()) == s,
    decreases s.len(),
{
    if s.len() > 0 {
        lemma_digit_value(s.last());
        lemma_hex_value_text(s.drop_last());
        assert(s =~= s.drop_last().push(s.last()));
    } else {
        assert(s =~= Seq::<char>::empty());
    }
}

/// The number spelled by the first digits of a text is at most the number
/// spelled by all of them.
pub proof fn lemma_decimal_value_grows(s: Seq<char>, k: int)
    requires
        0 <= k <= s.len(),
    ensures
        decimal_value(s.take(k)) <= decimal_value(s),
    decreases s.len() - k,
{
    if k < s.len() {
        lemma_decimal_value_grows(s, k + 1);
        assert(s.take(k + 1).drop_last() =~= s.take(k));
    } else {
        assert(s.take(k) =~= s);
    }
}

/// `String::push` of the standard library: the text afterwards is the text
/// before with `c` at its end.
pub assume_specification[ String::push ](text: &mut String, c: char)
    ensures
        final(text)@ == old(text)@.push(c),
;

/// What `text` reads as: the number that it spells, where it is made of one
/// or more decimal digits and the number fits in 32 bits.
pub open spec fn read_decimal(text: Seq<char>) -> Option<u32> {
    if text.len() > 0 && all_digits(text) && decimal_value(text) <= u32::MAX {
        Some(decimal_value(text) as u32)
    } else {
        None
    }
}

/// Reads a number from its decimal digits.
pub fn parse_decimal(text: &str) -> (r: Option<u32>)
    ensures
        r == read_decimal(text@),
{
    let mut value: u32 = 0;
    let mut empty = true;
    let digits = text.chars();
    for c in iter: digits
        invariant
            iter.seq() == text@,
            empty == (iter.index() == 0),
            all_digits(text@.take(iter.index() as int)),
            value == decimal_value(text@.take(iter.index() as int)),
    {
        let ghost seen = text@.take(iter.index() as int);
        let ghost next = text@.take(iter.index() + 1);
        assert(next.drop_last() =~= seen && next.last() == c);
        if !('0' <= c && c <= '9') {
            return None;
        }
        let d: u32 = c as u32 - '0' as u32;
        if value > (u32::MAX - d) / 10 {
            proof {
                lemma_decimal_value_grows(text@, iter.index() + 1);
            }
            return None;
        }
        value = value * 10 + d;
        empty = false;
    }
    assert(text@.take(text@.len() as int) =~= text@);
    if empty {
        None
    } else {
        Some(value)
    }
}

/// Writes `value` at the end of `out` in decimal digits, with zeros in front
/// up to `width` digits.
pub fn push_decimal(out: &mut String, value: u32, width: usize)
    ensures
        final(out)@ == old(out)@ + decimal_text(value as nat, width as nat),
    decreases value, width,
{
    if value < 10 && width <= 1 {
        out.push((48u8 + value as u8) as char);
        assert(final(out)@ =~= old(out)@ + decimal_text(value as nat, width as nat));
    } else {
        let narrower = if width > 0 {
            width - 1
        } else {
            0
        };
        push_decimal(out, value / 10, narrower);
        out.push((48u8 + (value % 10) as u8) as char);
        assert(final(out)@ =~= old(out)@ + decimal_text(value as nat, width as nat));
    }
}

} // verus!
