//! Characters and strings: the few operations on `String` that the rest of
//! the library builds on.

use vstd::prelude::*;

verus! {

/// `String::push`: afterwards the string is what it was, with `c` added at
/// its end.
#[verifier::external_body]
pub(crate) fn push_char(s: &mut String, c: char)
    ensures
        final(s)@ == old(s)@.push(c),
{
    s.push(c);
}

/// Whether two runs of bytes hold the same bytes.
pub fn same_bytes(a: &[u8], b: &[u8]) -> (same: bool)
    ensures
        same == (a@ == b@),
{
    if a.len() != b.len() {
        return false;
    }
    let mut i: usize = 0;
    while i < a.len()
        invariant
            a.len() == b.len(),
            i <= a.len(),
            forall|j: int| 0 <= j < i ==> a@[j] == b@[j],
        decreases a.len() - i,
    {
        if a[i] != b[i] {
            return false;
        }
        i += 1;
    }
    assert(a@ =~= b@);
    true
}

/// The fields of `s`: what stands before, between and after its
/// separators. There is one field more than there are separators, and a
/// field may be empty.
pub open spec fn fields<T>(s: Seq<T>, separator: T) -> Seq<Seq<T>>
    decreases s.len(),
{
    if s.len() == 0 {
        seq![Seq::empty()]
    } else if s.last() == separator {
        fields(s.drop_last(), separator).push(Seq::empty())
    } else {
        let before = fields(s.drop_last(), separator);
        before.drop_last().push(before.last().push(s.last()))
    }
}

/// There is a field, whatever the text.
pub proof fn lemma_fields_len<T>(s: Seq<T>, separator: T)
    ensures
        fields(s, separator).len() > 0,
    decreases s.len(),
{
    if s.len() > 0 {
        lemma_fields_len(s.drop_last(), separator);
    }
}

/// The texts of a list of strings.
pub open spec fn texts_of(list: Seq<String>) -> Seq<Seq<char>> {
    Seq::new(list.len(), |i: int| list[i]@)
}

/// The contents of a list of byte strings.
pub open spec fn bytes_of(list: Seq<Vec<u8>>) -> Seq<Seq<u8>> {
    Seq::new(list.len(), |i: int| list[i]@)
}

/// Splits `s` into its fields.
pub fn split_bytes(s: &[u8], separator: u8) -> (list: Vec<Vec<u8>>)
    ensures
        bytes_of(list@) == fields(s@, separator),
{
    let mut list: Vec<Vec<u8>> = Vec::new();
    let mut field: Vec<u8> = Vec::new();
    let mut i: usize = 0;
    assert(s@.take(0).len() == 0);
    assert(bytes_of(list@).push(field@) =~= seq![Seq::<u8>::empty()]);
    while i < s.len()
        invariant
            i <= s.len(),
            bytes_of(list@).push(field@) == fields(s@.take(i as int), separator),
        decreases s.len() - i,
    {
        let ghost done = bytes_of(list@);
        let ghost now = s@.take(i + 1);
        assert(now.drop_last() == s@.take(i as int));
        assert(now.last() == s@[i as int]);
        assert(done.push(field@).drop_last() == done);
        if s[i] == separator {
            let ghost closed = field@;
            list.push(field);
            field = Vec::new();
            assert(bytes_of(list@) =~= done.push(closed));
        } else {
            field.push(s[i]);
        }
        i += 1;
    }
    assert(s@.take(s.len() as int) == s@);
    let ghost done = bytes_of(list@);
    let ghost closed = field@;
    list.push(field);
    assert(bytes_of(list@) =~= done.push(closed));
    list
}

/// The contents of a list of strings of 16-bit units.
pub open spec fn units_of(list: Seq<Vec<u16>>) -> Seq<Seq<u16>> {
    Seq::new(list.len(), |i: int| list[i]@)
}

/// Splits `s`, a string of 16-bit units, into its fields.
pub fn split_units(s: &[u16], separator: u16) -> (list: Vec<Vec<u16>>)
    ensures
        units_of(list@) == fields(s@, separator),
{
    let mut list: Vec<Vec<u16>> = Vec::new();
    let mut field: Vec<u16> = Vec::new();
    let mut i: usize = 0;
    assert(s@.take(0).len() == 0);
    assert(units_of(list@).push(field@) =~= seq![Seq::<u16>::empty()]);
    while i < s.len()
        invariant
            i <= s.len(),
            units_of(list@).push(field@) == fields(s@.take(i as int), separator),
        decreases s.len() - i,
    {
        let ghost done = units_of(list@);
        let ghost now = s@.take(i + 1);
        assert(now.drop_last() == s@.take(i as int));
        assert(now.last() == s@[i as int]);
        assert(done.push(field@).drop_last() == done);
        if s[i] == separator {
            let ghost closed = field@;
            list.push(field);
            field = Vec::new();
            assert(units_of(list@) =~= done.push(closed));
        } else {
            field.push(s[i]);
        }
        i += 1;
    }
    assert(s@.take(s.len() as int) == s@);
    let ghost done = units_of(list@);
    let ghost closed = field@;
    list.push(field);
    assert(units_of(list@) =~= done.push(closed));
    list
}

/// The bytes as text, with `U+FFFD` for what is not UTF-8 in them.
pub uninterp spec fn utf8_lossy(bytes: Seq<u8>) -> Seq<char>;

/// `String::from_utf8_lossy`: the bytes as text. Bytes that are UTF-8 are
/// the text that they encode; of other bytes the text holds `U+FFFD` in
/// place of what is not UTF-8.
#[verifier::external_body]
pub(crate) fn string_from_utf8_lossy(bytes: &[u8]) -> (s: String)
    ensures
        s@ == utf8_lossy(bytes@),
        vstd::utf8::valid_utf8(bytes@) ==> s@ == vstd::utf8::decode_utf8(bytes@),
{
    String::from_utf8_lossy(bytes).into_owned()
}

/// The parts, with the separator between one and the next.
pub open spec fn joined(parts: Seq<Seq<char>>, separator: char) -> Seq<char>
    decreases parts.len(),
{
    if parts.len() == 0 {
        Seq::empty()
    } else if parts.len() == 1 {
        parts[0]
    } else {
        joined(parts.drop_last(), separator).push(separator) + parts.last()
    }
}

/// Whether `b` is a decimal digit in ASCII.
pub open spec fn is_digit(b: u8) -> bool {
    0x30 <= b <= 0x39
}

/// Whether every byte of `s` is a decimal digit.
pub open spec fn all_digits(s: Seq<u8>) -> bool {
    forall|i: int| 0 <= i < s.len() ==> is_digit(#[trigger] s[i])
}

/// The number that the decimal digits of `s` write.
pub open spec fn digits_value(s: Seq<u8>) -> nat
    decreases s.len(),
{
    if s.len() == 0 {
        0
    } else {
        (digits_value(s.drop_last()) * 10 + (s.last() - 0x30)) as nat
    }
}

/// The number that `s` writes, where it writes one that a `usize` holds:
/// decimal digits, at least one, with or without a plus sign before them.
pub open spec fn number_of(s: Seq<u8>) -> Option<usize> {
    let digits = if s.len() > 0 && s[0] == 0x2B {
        s.skip(1)
    } else {
        s
    };
    if digits.len() > 0 && all_digits(digits) && digits_value(digits) <= usize::MAX {
        Some(digits_value(digits) as usize)
    } else {
        None
    }
}

/// The digits of a number write no less than those of them that come
/// first.
pub proof fn lemma_digits_grow(s: Seq<u8>, n: int)
    requires
        all_digits(s),
        0 <= n <= s.len(),
    ensures
        digits_value(s.take(n)) <= digits_value(s),
    decreases s.len() - n,
{
    if n < s.len() {
        let shorter = s.drop_last();
        assert forall|i: int| 0 <= i < shorter.len() implies is_digit(#[trigger] shorter[i]) by {
            assert(shorter[i] == s[i]);
        }
        assert(is_digit(s[s.len() - 1]));
        lemma_digits_grow(shorter, n);
        assert(shorter.take(n) == s.take(n));
    } else {
        assert(s.take(n) == s);
    }
}

/// Reads a number in decimal digits, with or without a plus sign before
/// them.
pub fn parse_usize(s: &[u8]) -> (number: Option<usize>)
    ensures
        number == number_of(s@),
{
    let start: usize = if s.len() > 0 && s[0] == 0x2B {
        1
    } else {
        0
    };
    let ghost digits = s@.skip(start as int);
    if start == s.len() {
        return None;
    }
    let mut value: usize = 0;
    let mut i: usize = start;
    assert(digits.take(0).len() == 0);
    assert(s@.skip(0) == s@);
    while i < s.len()
        invariant
            start <= i <= s.len(),
            start < s.len(),
            digits == s@.skip(start as int),
            digits == if s@.len() > 0 && s@[0] == 0x2B {
                s@.skip(1)
            } else {
                s@
            },
            all_digits(digits.take(i - start)),
            value == digits_value(digits.take(i - start)),
        decreases s.len() - i,
    {
        let ghost before = digits.take(i - start);
        let ghost now = digits.take(i - start + 1);
        assert(now.drop_last() == before);
        assert(now.last() == s@[i as int]);
        let b = s[i];
        if b < 0x30 || b > 0x39 {
            assert(!is_digit(digits[i - start]));
            return None;
        }
        assert(all_digits(now)) by {
            assert forall|k: int| 0 <= k < now.len() implies is_digit(#[trigger] now[k]) by {
                if k < before.len() {
                    assert(now[k] == before[k]);
                }
            }
        }
        let next = match value.checked_mul(10) {
            Some(tens) => tens.checked_add((b - 0x30) as usize),
            None => None,
        };
        match next {
            Some(n) => {
                value = n;
            },
            None => {
                proof {
                    if all_digits(digits) {
                        lemma_digits_grow(digits, i - start + 1);
                    }
                }
                return None;
            },
        }
        i += 1;
    }
    assert(digits.take(s.len() - start) == digits);
    Some(value)
}

/// The decimal digit for `d`.
pub open spec fn digit(d: nat) -> char
    recommends
        d < 10,
{
    ((0x30 + d) as u8) as char
}

/// The number `n` in decimal digits.
pub open spec fn decimal(n: nat) -> Seq<char>
    decreases n,
{
    if n < 10 {
        seq![digit(n)]
    } else {
        decimal(n / 10).push(digit(n % 10))
    }
}

/// Writes `n` in decimal digits at the end of `s`.
pub fn push_decimal(s: &mut String, n: usize)
    ensures
        final(s)@ == old(s)@ + decimal(n as nat),
    decreases n,
{
    if n >= 10 {
        push_decimal(s, n / 10);
    }
    let d: u8 = (n % 10) as u8;
    push_char(s, (0x30 + d) as char);
    assert(s@ =~= old(s)@ + decimal(n as nat));
}

/// The characters that Unicode takes for white space: those that it calls
/// `White_Space`.
pub open spec fn is_space(c: char) -> bool {
    let u = c as u32;
    ||| 0x09 <= u <= 0x0D
    ||| u == 0x20
    ||| u == 0x85
    ||| u == 0xA0
    ||| u == 0x1680
    ||| 0x2000 <= u <= 0x200A
    ||| u == 0x2028
    ||| u == 0x2029
    ||| u == 0x202F
    ||| u == 0x205F
    ||| u == 0x3000
}

/// Whether `c` is white space.
pub fn is_whitespace(c: char) -> (b: bool)
    ensures
        b == is_space(c),
{
    let u: u32 = c as u32;
    (0x09 <= u && u <= 0x0D) || u == 0x20 || u == 0x85 || u == 0xA0 || u == 0x1680 || (0x2000 <= u
        && u <= 0x200A) || u == 0x2028 || u == 0x2029 || u == 0x202F || u == 0x205F || u == 0x3000
}

} // verus!
