//! Telling code from literals, byte by byte: strings, raw strings and
//! characters as Rust writes them.
use vstd::prelude::*;

verus! {

/// What the code just before a byte may begin.
#[derive(Clone, Copy, PartialEq, Eq, Structural)]
pub enum Prefix {
    /// Nothing: no word ends here.
    Nothing,
    /// A word that is no prefix of a literal.
    Word,
    /// A word that is `b` or `c`, which may stand before an `r`.
    Letter,
    /// A word that is `r`, `br` or `cr`: a raw string may follow.
    Raw,
    /// Such a word and this many `#`.
    Hashes(usize),
}

/// What a byte of source text without comments belongs to.
#[derive(Clone, Copy, PartialEq, Eq, Structural)]
pub enum Literal {
    /// Code, behind a prefix.
    Code(Prefix),
    /// A string.
    Text,
    /// The byte after a backslash in a string.
    Escaped,
    /// A raw string that ends in a quote and this many `#`.
    RawText(usize),
    /// Such a raw string, behind a quote and so many `#` of the end.
    RawEnd(usize, usize),
    /// A character.
    Char,
    /// The byte after a backslash in a character.
    CharEscaped,
}

pub open spec fn byte_is(bytes: Seq<u8>, i: int, byte: u8) -> bool {
    0 <= i < bytes.len() && bytes[i] == byte
}

/// A byte beyond ASCII stands at `i`.
pub open spec fn wide_at(bytes: Seq<u8>, i: int) -> bool {
    0 <= i < bytes.len() && bytes[i] >= 0x80
}

/// A hexadecimal digit or an underscore.
pub open spec fn scalar_byte(byte: u8) -> bool {
    (0x30 <= byte && byte <= 0x39) || (0x41 <= byte && byte <= 0x46) || byte == 0x5f || (0x61
        <= byte && byte <= 0x66)
}

/// A hexadecimal digit stands at `i`.
pub open spec fn hex_at(bytes: Seq<u8>, i: int) -> bool {
    0 <= i < bytes.len() && scalar_byte(bytes[i]) && bytes[i] != 0x5f
}

/// Where the hexadecimal digits and underscores from `i` on end.
pub open spec fn scalar_end(bytes: Seq<u8>, i: int) -> int
    decreases bytes.len() - i,
{
    if 0 <= i < bytes.len() && scalar_byte(bytes[i]) {
        scalar_end(bytes, i + 1)
    } else {
        i
    }
}

/// The quote that closes a character whose escape begins with the backslash at
/// `i`: the escape is one character, `x` and two digits, or `u` and a number in
/// braces.
pub open spec fn escape_end(bytes: Seq<u8>, i: int) -> Option<int> {
    if i + 2 < bytes.len() && bytes[i + 1] != 0x0a && bytes[i + 2] == 0x27 {
        Some(i + 2)
    } else if byte_is(bytes, i + 1, 0x78) && hex_at(bytes, i + 2) && hex_at(bytes, i + 3)
        && byte_is(bytes, i + 4, 0x27) {
        Some(i + 4)
    } else if byte_is(bytes, i + 1, 0x75) && byte_is(bytes, i + 2, 0x7b) {
        let end = scalar_end(bytes, i + 3);
        if byte_is(bytes, end, 0x7d) && byte_is(bytes, end + 1, 0x27) {
            Some(end + 1)
        } else {
            None
        }
    } else {
        None
    }
}

/// The quote that closes a character which the quote at `i` begins: between them
/// stands one character or one escape. Any other quote begins a lifetime, or
/// nothing.
pub open spec fn char_end(bytes: Seq<u8>, i: int) -> Option<int> {
    if !byte_is(bytes, i, 0x27) || i + 1 >= bytes.len() {
        None
    } else {
        let first = bytes[i + 1];
        if first == 0x5c {
            escape_end(bytes, i + 1)
        } else if first == 0x27 || first == 0x0a {
            None
        } else if first < 0x80 {
            if byte_is(bytes, i + 2, 0x27) {
                Some(i + 2)
            } else {
                None
            }
        } else if first < 0xe0 {
            if wide_at(bytes, i + 2) && byte_is(bytes, i + 3, 0x27) {
                Some(i + 3)
            } else {
                None
            }
        } else if first < 0xf0 {
            if wide_at(bytes, i + 2) && wide_at(bytes, i + 3) && byte_is(bytes, i + 4, 0x27) {
                Some(i + 4)
            } else {
                None
            }
        } else {
            if wide_at(bytes, i + 2) && wide_at(bytes, i + 3) && wide_at(bytes, i + 4) && byte_is(
                bytes,
                i + 5,
                0x27,
            ) {
                Some(i + 5)
            } else {
                None
            }
        }
    }
}

/// The quote at `i` begins a character and not a lifetime.
pub open spec fn char_opens(bytes: Seq<u8>, i: int) -> bool {
    char_end(bytes, i) is Some
}

/// Digits and underscores reach up to their end, within the text.
pub proof fn lemma_scalar_end(bytes: Seq<u8>, i: int)
    requires
        0 <= i <= bytes.len(),
    ensures
        i <= scalar_end(bytes, i) <= bytes.len(),
        forall|k: int| i <= k < scalar_end(bytes, i) ==> scalar_byte(#[trigger] bytes[k]),
    decreases bytes.len() - i,
{
    if i < bytes.len() && scalar_byte(bytes[i]) {
        lemma_scalar_end(bytes, i + 1);
    }
}

/// Two texts that agree up to the end of the digits in one have the same end.
pub proof fn lemma_same_scalar_end(a: Seq<u8>, b: Seq<u8>, i: int)
    requires
        a.len() == b.len(),
        0 <= i <= a.len(),
        scalar_end(a, i) < a.len(),
        forall|k: int| i <= k <= scalar_end(a, i) ==> #[trigger] a[k] == b[k],
    ensures
        scalar_end(b, i) == scalar_end(a, i),
    decreases a.len() - i,
{
    lemma_scalar_end(a, i);
    assert(a[i] == b[i]);
    if scalar_byte(a[i]) {
        lemma_same_scalar_end(a, b, i + 1);
    }
}

/// A letter, a digit, an underscore, or part of a character beyond ASCII.
pub open spec fn word_byte(byte: u8) -> bool {
    (0x30 <= byte && byte <= 0x39) || (0x41 <= byte && byte <= 0x5a) || byte == 0x5f || (0x61
        <= byte && byte <= 0x7a) || byte >= 0x80
}

/// The prefix behind a byte of code that begins no literal.
pub open spec fn prefix_after(prefix: Prefix, byte: u8) -> Prefix {
    if byte == 0x23 {
        match prefix {
            Prefix::Raw => Prefix::Hashes(1),
            Prefix::Hashes(count) => Prefix::Hashes((count + 1) as usize),
            _ => Prefix::Nothing,
        }
    } else if byte == 0x72 && (prefix == Prefix::Nothing || prefix == Prefix::Letter) {
        Prefix::Raw
    } else if (byte == 0x62 || byte == 0x63) && prefix == Prefix::Nothing {
        Prefix::Letter
    } else if word_byte(byte) {
        Prefix::Word
    } else {
        Prefix::Nothing
    }
}

/// What the byte after `i` belongs to, where the byte at `i` belongs to
/// `literal`.
pub open spec fn literal_after(literal: Literal, bytes: Seq<u8>, i: int) -> Literal {
    let byte = bytes[i];
    match literal {
        Literal::Code(prefix) => if byte == 0x22 {
            match prefix {
                Prefix::Raw => Literal::RawText(0),
                Prefix::Hashes(count) => Literal::RawText(count),
                _ => Literal::Text,
            }
        } else if byte == 0x27 {
            if char_opens(bytes, i) {
                Literal::Char
            } else {
                Literal::Code(Prefix::Word)
            }
        } else {
            Literal::Code(prefix_after(prefix, byte))
        },
        Literal::Text => if byte == 0x5c {
            Literal::Escaped
        } else if byte == 0x22 {
            Literal::Code(Prefix::Word)
        } else {
            Literal::Text
        },
        Literal::Escaped => Literal::Text,
        Literal::RawText(hashes) => if byte != 0x22 {
            Literal::RawText(hashes)
        } else if hashes == 0 {
            Literal::Code(Prefix::Word)
        } else {
            Literal::RawEnd(hashes, 0)
        },
        Literal::RawEnd(hashes, seen) => if byte == 0x23 {
            if seen + 1 >= hashes {
                Literal::Code(Prefix::Word)
            } else {
                Literal::RawEnd(hashes, (seen + 1) as usize)
            }
        } else if byte == 0x22 {
            Literal::RawEnd(hashes, 0)
        } else {
            Literal::RawText(hashes)
        },
        Literal::Char => if byte == 0x5c {
            Literal::CharEscaped
        } else if byte == 0x27 {
            Literal::Code(Prefix::Word)
        } else {
            Literal::Char
        },
        Literal::CharEscaped => Literal::Char,
    }
}

/// No more `#` are counted than bytes were read.
pub open spec fn counts_within(literal: Literal, read: int) -> bool {
    match literal {
        Literal::Code(Prefix::Hashes(count)) => count <= read,
        Literal::RawText(hashes) => hashes <= read,
        Literal::RawEnd(hashes, seen) => hashes <= read && seen < hashes,
        _ => true,
    }
}

fn has_byte(bytes: &[u8], i: usize, byte: u8) -> (yes: bool)
    ensures
        yes == byte_is(bytes@, i as int, byte),
{
    i < bytes.len() && bytes[i] == byte
}

fn has_wide(bytes: &[u8], i: usize) -> (yes: bool)
    ensures
        yes == wide_at(bytes@, i as int),
{
    i < bytes.len() && bytes[i] >= 0x80
}

fn has_hex(bytes: &[u8], i: usize) -> (yes: bool)
    ensures
        yes == hex_at(bytes@, i as int),
{
    if i >= bytes.len() {
        return false;
    }
    let byte = bytes[i];
    (0x30 <= byte && byte <= 0x39) || (0x41 <= byte && byte <= 0x46) || (0x61 <= byte && byte
        <= 0x66)
}

/// Whether an escape that begins with the backslash at an index, and the quote
/// behind it, are complete.
fn closes_escape(bytes: &[u8], i: usize) -> (yes: bool)
    requires
        i < bytes@.len(),
    ensures
        yes == escape_end(bytes@, i as int) is Some,
{
    let length: usize = bytes.len();
    if length - i < 3 {
        return false;
    }
    let kind = bytes[i + 1];
    if kind != 0x0a && bytes[i + 2] == 0x27 {
        return true;
    }
    if kind == 0x78 {
        return length - i >= 5 && has_hex(bytes, i + 2) && has_hex(bytes, i + 3) && has_byte(
            bytes,
            i + 4,
            0x27,
        );
    }
    if kind != 0x75 || bytes[i + 2] != 0x7b {
        return false;
    }
    let mut end: usize = i + 3;
    while end < length && (bytes[end] == 0x5f || has_hex(bytes, end))
        invariant
            length == bytes@.len(),
            i + 3 <= end <= length,
            scalar_end(bytes@, i + 3) == scalar_end(bytes@, end as int),
        decreases length - end,
    {
        end += 1;
    }
    length - end >= 2 && has_byte(bytes, end, 0x7d) && has_byte(bytes, end + 1, 0x27)
}

/// Whether the quote at an index begins a character.
fn opens_char(bytes: &[u8], i: usize) -> (yes: bool)
    requires
        i < bytes@.len(),
        bytes@[i as int] == 0x27,
    ensures
        yes == char_opens(bytes@, i as int),
{
    let length: usize = bytes.len();
    if length - i < 2 {
        return false;
    }
    let first = bytes[i + 1];
    if first == 0x5c {
        closes_escape(bytes, i + 1)
    } else if first == 0x27 || first == 0x0a || length - i < 3 {
        false
    } else if first < 0x80 {
        has_byte(bytes, i + 2, 0x27)
    } else if !has_wide(bytes, i + 2) || length - i < 4 {
        false
    } else if first < 0xe0 {
        has_byte(bytes, i + 3, 0x27)
    } else if !has_wide(bytes, i + 3) || length - i < 5 {
        false
    } else if first < 0xf0 {
        has_byte(bytes, i + 4, 0x27)
    } else if !has_wide(bytes, i + 4) || length - i < 6 {
        false
    } else {
        has_byte(bytes, i + 5, 0x27)
    }
}

fn next_prefix(prefix: Prefix, byte: u8, read: usize) -> (next: Prefix)
    requires
        read < usize::MAX,
        prefix matches Prefix::Hashes(count) ==> count <= read,
    ensures
        next == prefix_after(prefix, byte),
        next matches Prefix::Hashes(count) ==> count <= read + 1,
{
    if byte == 0x23 {
        match prefix {
            Prefix::Raw => Prefix::Hashes(1),
            Prefix::Hashes(count) => Prefix::Hashes(count + 1),
            _ => Prefix::Nothing,
        }
    } else if byte == 0x72 && (prefix == Prefix::Nothing || prefix == Prefix::Letter) {
        Prefix::Raw
    } else if (byte == 0x62 || byte == 0x63) && prefix == Prefix::Nothing {
        Prefix::Letter
    } else if (0x30 <= byte && byte <= 0x39) || (0x41 <= byte && byte <= 0x5a) || byte == 0x5f || (
    0x61 <= byte && byte <= 0x7a) || byte >= 0x80 {
        Prefix::Word
    } else {
        Prefix::Nothing
    }
}

/// What the next byte belongs to. So many bytes were read before this one.
pub fn next_literal(literal: Literal, bytes: &[u8], i: usize, read: usize) -> (next: Literal)
    requires
        i < bytes@.len(),
        read < usize::MAX,
        counts_within(literal, read as int),
    ensures
        next == literal_after(literal, bytes@, i as int),
        counts_within(next, read + 1),
{
    let byte = bytes[i];
    match literal {
        Literal::Code(prefix) => if byte == 0x22 {
            match prefix {
                Prefix::Raw => Literal::RawText(0),
                Prefix::Hashes(count) => Literal::RawText(count),
                _ => Literal::Text,
            }
        } else if byte == 0x27 {
            if opens_char(bytes, i) {
                Literal::Char
            } else {
                Literal::Code(Prefix::Word)
            }
        } else {
            Literal::Code(next_prefix(prefix, byte, read))
        },
        Literal::Text => if byte == 0x5c {
            Literal::Escaped
        } else if byte == 0x22 {
            Literal::Code(Prefix::Word)
        } else {
            Literal::Text
        },
        Literal::Escaped => Literal::Text,
        Literal::RawText(hashes) => if byte != 0x22 {
            Literal::RawText(hashes)
        } else if hashes == 0 {
            Literal::Code(Prefix::Word)
        } else {
            Literal::RawEnd(hashes, 0)
        },
        Literal::RawEnd(hashes, seen) => if byte == 0x23 {
            if seen + 1 >= hashes {
                Literal::Code(Prefix::Word)
            } else {
                Literal::RawEnd(hashes, seen + 1)
            }
        } else if byte == 0x22 {
            Literal::RawEnd(hashes, 0)
        } else {
            Literal::RawText(hashes)
        },
        Literal::Char => if byte == 0x5c {
            Literal::CharEscaped
        } else if byte == 0x27 {
            Literal::Code(Prefix::Word)
        } else {
            Literal::Char
        },
        Literal::CharEscaped => Literal::Char,
    }
}

} // verus!
