//! The little grammar of the container runtime's port descriptions: decimal
//! port numbers and `PORT/PROTOCOL` keys.

use vstd::prelude::*;

verus! {

/// The value of an ASCII decimal digit.
pub open spec fn digit_value(c: char) -> Option<u8> {
    if c == '0' {
        Some(0u8)
    } else if c == '1' {
        Some(1u8)
    } else if c == '2' {
        Some(2u8)
    } else if c == '3' {
        Some(3u8)
    } else if c == '4' {
        Some(4u8)
    } else if c == '5' {
        Some(5u8)
    } else if c == '6' {
        Some(6u8)
    } else if c == '7' {
        Some(7u8)
    } else if c == '8' {
        Some(8u8)
    } else if c == '9' {
        Some(9u8)
    } else {
        None
    }
}

/// Every character is an ASCII decimal digit.
pub open spec fn is_digits(s: Seq<char>) -> bool {
    forall|i: int| 0 <= i < s.len() ==> (#[trigger] digit_value(s[i])) is Some
}

/// The number that a string of digits denotes, most significant digit first.
/// A character that is no digit counts as zero.
pub open spec fn decimal_value(s: Seq<char>) -> nat
    decreases s.len(),
{
    if s.len() == 0 {
        0
    } else {
        let last: nat = match digit_value(s.last()) {
            Some(d) => d as nat,
            None => 0,
        };
        decimal_value(s.drop_last()) * 10 + last
    }
}

/// The text without one leading plus sign.
pub open spec fn unsigned_part(s: Seq<char>) -> Seq<char> {
    if s.len() > 0 && s[0] == '+' {
        s.subrange(1, s.len() as int)
    } else {
        s
    }
}

/// A port number in decimal notation: an optional `+`, then one or more
/// digits whose value fits in 16 bits. Leading zeros are accepted; a sign
/// alone, a minus sign, blanks or any other character are not.
pub open spec fn port_number(s: Seq<char>) -> Option<u16> {
    let digits = unsigned_part(s);
    if digits.len() > 0 && is_digits(digits) && decimal_value(digits) <= u16::MAX {
        Some(decimal_value(digits) as u16)
    } else {
        None
    }
}

/// A prefix of a numeral denotes no more than the numeral.
pub proof fn lemma_decimal_value_prefix(s: Seq<char>, k: int)
    requires
        0 <= k <= s.len(),
    ensures
        decimal_value(s.subrange(0, k)) <= decimal_value(s),
    decreases s.len(),
{
    if k == s.len() {
        assert(s.subrange(0, k) =~= s);
    } else {
        lemma_decimal_value_prefix(s.drop_last(), k);
        assert(s.drop_last().subrange(0, k) =~= s.subrange(0, k));
    }
}

/// Reads one decimal digit.
pub fn digit_of(c: char) -> (d: Option<u8>)
    ensures
        d == digit_value(c),
{
    if c == '0' {
        Some(0u8)
    } else if c == '1' {
        Some(1u8)
    } else if c == '2' {
        Some(2u8)
    } else if c == '3' {
        Some(3u8)
    } else if c == '4' {
        Some(4u8)
    } else if c == '5' {
        Some(5u8)
    } else if c == '6' {
        Some(6u8)
    } else if c == '7' {
        Some(7u8)
    } else if c == '8' {
        Some(8u8)
    } else if c == '9' {
        Some(9u8)
    } else {
        None
    }
}

/// Parses a port number; `None` for any text that is not one.
pub fn parse_port(text: &str) -> (port: Option<u16>)
    ensures
        port == port_number(text@),
{
    let n: usize = text.unicode_len();
    let start: usize = if n > 0 && text.get_char(0) == '+' {
        1
    } else {
        0
    };
    let ghost digits = unsigned_part(text@);
    assert(digits =~= text@.subrange(start as int, n as int));
    if start == n {
        return None;
    }
    let mut acc: u32 = 0;
    let mut i: usize = start;
    while i < n
        invariant
            start <= i <= n,
            n == text@.len(),
            digits == unsigned_part(text@),
            digits == text@.subrange(start as int, n as int),
            is_digits(digits.subrange(0, i - start)),
            acc == decimal_value(digits.subrange(0, i - start)),
            acc <= u16::MAX,
        decreases n - i,
    {
        let c: char = text.get_char(i);
        let ghost seen = digits.subrange(0, i - start);
        let ghost next = digits.subrange(0, i + 1 - start);
        proof {
            assert(next.drop_last() =~= seen);
            assert(next.last() == c);
            assert(digits[i - start] == c);
        }
        match digit_of(c) {
            None => {
                assert(digit_value(digits[i - start]) is None);
                return None;
            },
            Some(d) => {
                let value: u32 = acc * 10 + d as u32;
                assert(value == decimal_value(next));
                if value > 65535 {
                    proof {
                        lemma_decimal_value_prefix(digits, i + 1 - start);
                    }
                    return None;
                }
                acc = value;
                proof {
                    assert forall|k: int| 0 <= k < next.len() implies (#[trigger] digit_value(
                        next[k],
                    )) is Some by {
                        if k < seen.len() {
                            assert(next[k] == seen[k]);
                        }
                    }
                }
            },
        }
        i += 1;
    }
    assert(digits.subrange(0, n - start) =~= digits);
    Some(acc as u16)
}

/// Whether two texts hold the same characters.
pub fn same_text(a: &str, b: &str) -> (same: bool)
    ensures
        same == (a@ == b@),
{
    let n: usize = a.unicode_len();
    if b.unicode_len() != n {
        return false;
    }
    let mut i: usize = 0;
    while i < n
        invariant
            i <= n,
            n == a@.len(),
            n == b@.len(),
            forall|k: int| 0 <= k < i ==> a@[k] == b@[k],
        decreases n - i,
    {
        if a.get_char(i) != b.get_char(i) {
            return false;
        }
        i += 1;
    }
    assert(a@ =~= b@);
    true
}

/// `i` is the position of the only `sep` in `s`.
pub open spec fn splits_at(s: Seq<char>, sep: char, i: int) -> bool {
    &&& 0 <= i < s.len()
    &&& s[i] == sep
    &&& forall|j: int| 0 <= j < s.len() && j != i ==> s[j] != sep
}

/// The two parts of a text that holds the separator exactly once: what
/// stands before it and what stands after it. `None` for a text with no
/// separator or with more than one.
pub open spec fn split_pair(s: Seq<char>, sep: char) -> Option<(Seq<char>, Seq<char>)> {
    if exists|i: int| splits_at(s, sep, i) {
        let i = choose|i: int| splits_at(s, sep, i);
        Some((s.subrange(0, i), s.subrange(i + 1, s.len() as int)))
    } else {
        None
    }
}

/// A text splits into `left` and `right` exactly when it is `left`, the
/// separator, `right`, and neither part holds the separator.
pub proof fn lemma_split_pair_joins(s: Seq<char>, sep: char, left: Seq<char>, right: Seq<char>)
    ensures
        split_pair(s, sep) == Some((left, right)) <==> (s == left + seq![sep] + right
            && !left.contains(sep) && !right.contains(sep)),
{
    let joined = left + seq![sep] + right;
    if split_pair(s, sep) == Some((left, right)) {
        let i = choose|i: int| splits_at(s, sep, i);
        assert(s =~= joined);
        if left.contains(sep) {
            let j = choose|j: int| 0 <= j < left.len() && left[j] == sep;
            assert(s[j] == sep);
        }
        if right.contains(sep) {
            let j = choose|j: int| 0 <= j < right.len() && right[j] == sep;
            assert(s[i + 1 + j] == sep);
        }
    }
    if s == joined && !left.contains(sep) && !right.contains(sep) {
        let i = left.len() as int;
        assert forall|j: int| 0 <= j < s.len() && j != i implies s[j] != sep by {
            if j < i {
                assert(left[j] == s[j]);
            } else {
                assert(right[j - i - 1] == s[j]);
            }
        }
        assert(splits_at(s, sep, i));
        let k = choose|k: int| splits_at(s, sep, k);
        assert(k == i);
        assert(s.subrange(0, i) =~= left);
        assert(s.subrange(i + 1, s.len() as int) =~= right);
    }
}

/// Splits a text at its only separator.
pub fn split_once_only<'a>(text: &'a str, sep: char) -> (parts: Option<(&'a str, &'a str)>)
    ensures
        match parts {
            Some((left, right)) => split_pair(text@, sep) == Some((left@, right@)),
            None => split_pair(text@, sep) is None,
        },
{
    let n: usize = text.unicode_len();
    let mut at: usize = 0;
    while at < n && text.get_char(at) != sep
        invariant
            at <= n,
            n == text@.len(),
            forall|j: int| 0 <= j < at ==> text@[j] != sep,
        decreases n - at,
    {
        at += 1;
    }
    if at == n {
        assert(forall|i: int| !splits_at(text@, sep, i));
        return None;
    }
    let mut j: usize = at + 1;
    while j < n
        invariant
            at < j <= n,
            n == text@.len(),
            text@[at as int] == sep,
            forall|k: int| at < k < j ==> text@[k] != sep,
        decreases n - j,
    {
        if text.get_char(j) == sep {
            assert forall|i: int| !splits_at(text@, sep, i) by {
                if i == at {
                    assert(text@[j as int] == sep);
                } else {
                    assert(text@[at as int] == sep);
                }
            }
            return None;
        }
        j += 1;
    }
    assert(splits_at(text@, sep, at as int));
    let left = text.substring_char(0, at);
    let right = text.substring_char(at + 1, n);
    Some((left, right))
}

} // verus!
