//! Scanning source text byte by byte: masking comments and finding the bracket
//! that closes a block.
use crate::literals::{
    byte_is, char_end, char_opens, counts_within, lemma_same_scalar_end, lemma_scalar_end,
    literal_after, next_literal, Literal, Prefix,
};
use vstd::prelude::*;
use vstd::string::*;
use vstd::utf8::*;

verus! {

/// What a byte of source text belongs to.
#[derive(Clone, Copy, PartialEq, Eq, Structural)]
pub enum Mode {
    /// Code or a literal.
    Plain(Literal),
    /// A line comment.
    Line,
    /// A block comment with this many open `/*`.
    Block(usize),
    /// The second byte of a `/*` or `*/`, after which this many are open.
    Mark(usize),
}

/// A `//` stands at `i`.
pub open spec fn line_opens(bytes: Seq<u8>, i: int) -> bool {
    byte_is(bytes, i, 0x2f) && byte_is(bytes, i + 1, 0x2f)
}

/// A `/*` stands at `i`.
pub open spec fn block_opens(bytes: Seq<u8>, i: int) -> bool {
    byte_is(bytes, i, 0x2f) && byte_is(bytes, i + 1, 0x2a)
}

/// A `*/` stands at `i`.
pub open spec fn block_closes(bytes: Seq<u8>, i: int) -> bool {
    byte_is(bytes, i, 0x2a) && byte_is(bytes, i + 1, 0x2f)
}

/// The mode of code with no word before it.
pub open spec fn fresh_code() -> Mode {
    Mode::Plain(Literal::Code(Prefix::Nothing))
}

/// The mode of the byte after `i`, where the byte at `i` has mode `mode`.
pub open spec fn mode_after(mode: Mode, bytes: Seq<u8>, i: int) -> Mode {
    match mode {
        Mode::Plain(literal) => if literal is Code && line_opens(bytes, i) {
            Mode::Line
        } else if literal is Code && block_opens(bytes, i) {
            Mode::Mark(1)
        } else {
            Mode::Plain(literal_after(literal, bytes, i))
        },
        Mode::Line => if bytes[i] == 0x0a {
            fresh_code()
        } else {
            Mode::Line
        },
        Mode::Block(depth) => if block_opens(bytes, i) {
            Mode::Mark((depth + 1) as usize)
        } else if block_closes(bytes, i) {
            Mode::Mark((depth - 1) as usize)
        } else {
            Mode::Block(depth)
        },
        Mode::Mark(depth) => if depth == 0 {
            fresh_code()
        } else {
            Mode::Block(depth)
        },
    }
}

/// The mode of the byte at `i`: the text starts as code.
pub open spec fn mode_at(bytes: Seq<u8>, i: int) -> Mode
    decreases i,
{
    if i <= 0 {
        fresh_code()
    } else {
        mode_after(mode_at(bytes, i - 1), bytes, i - 1)
    }
}

/// Whether the byte at `i` belongs to a comment. The newline that ends a line
/// comment does not.
pub open spec fn in_comment(bytes: Seq<u8>, i: int) -> bool {
    match mode_at(bytes, i) {
        Mode::Plain(literal) => literal is Code && (line_opens(bytes, i) || block_opens(bytes, i)),
        Mode::Line => bytes[i] != 0x0a,
        Mode::Block(_) => true,
        Mode::Mark(_) => true,
    }
}

/// The text with every byte of a comment replaced by a space, but for newlines.
pub open spec fn masked(bytes: Seq<u8>) -> Seq<u8> {
    Seq::new(
        bytes.len(),
        |i: int|
            if in_comment(bytes, i) && bytes[i] != 0x0a {
                0x20u8
            } else {
                bytes[i]
            },
    )
}

/// No more comments are open than bytes were read for them.
proof fn lemma_depth_bounded(bytes: Seq<u8>, i: int)
    requires
        0 <= i <= bytes.len(),
        bytes.len() <= usize::MAX,
    ensures
        match mode_at(bytes, i) {
            Mode::Block(depth) => 1 <= depth && depth < i,
            Mode::Mark(depth) => depth <= i && i < bytes.len(),
            _ => true,
        },
    decreases i,
{
    if i > 0 {
        lemma_depth_bounded(bytes, i - 1);
    }
}

/// The bytes of a character beyond ASCII are all in one comment or all in none.
proof fn lemma_wide_bytes_together(bytes: Seq<u8>, i: int, j: int)
    requires
        0 <= i <= j < bytes.len(),
        forall|k: int| i <= k <= j ==> bytes[k] >= 0x80,
    ensures
        in_comment(bytes, j) == in_comment(bytes, i),
    decreases j,
{
    if i < j {
        lemma_wide_bytes_together(bytes, i, j - 1);
        assert(bytes[j - 1] >= 0x80);
        assert(bytes[j] >= 0x80);
        if j - 1 > 0 {
            assert(bytes.len() > 0);
        }
        match mode_at(bytes, j - 1) {
            Mode::Mark(_) => {
                // the second byte of a mark is ASCII
                lemma_mark_is_ascii(bytes, j - 1);
            },
            _ => {},
        }
    }
}

proof fn lemma_mark_is_ascii(bytes: Seq<u8>, i: int)
    requires
        0 <= i,
        mode_at(bytes, i) is Mark,
    ensures
        i < bytes.len(),
        bytes[i] < 0x80,
{
}

/// Spaces in front of valid UTF-8 leave it valid.
proof fn lemma_spaces_then_valid(bytes: Seq<u8>, n: int)
    requires
        0 <= n <= bytes.len(),
        forall|k: int| 0 <= k < n ==> #[trigger] bytes[k] == 0x20,
        valid_utf8(bytes.skip(n)),
    ensures
        valid_utf8(bytes),
    decreases n,
{
    if n == 0 {
        assert(bytes.skip(0) =~= bytes);
    } else {
        let rest = bytes.skip(1);
        assert(rest.skip(n - 1) =~= bytes.skip(n));
        assert forall|k: int| 0 <= k < n - 1 implies #[trigger] rest[k] == 0x20 by {
            assert(rest[k] == bytes[k + 1]);
        }
        lemma_spaces_then_valid(rest, n - 1);
        assert(bytes[0] == 0x20);
        assert(codepoint_width_1(0x20) == 0x20) by (bit_vector);
        assert(pop_first_scalar(bytes) =~= rest);
    }
}

/// From a character boundary on, the masked text is valid UTF-8.
proof fn lemma_masked_valid_from(bytes: Seq<u8>, i: int)
    requires
        0 <= i <= bytes.len(),
        valid_utf8(bytes.skip(i)),
    ensures
        valid_utf8(masked(bytes).skip(i)),
    decreases bytes.len() - i,
{
    let rest = bytes.skip(i);
    let out = masked(bytes);
    let tail = out.skip(i);
    if i < bytes.len() {
        let n = length_of_first_scalar(rest);
        assert(valid_first_scalar(rest));
        assert(pop_first_scalar(rest) =~= bytes.skip(i + n));
        lemma_masked_valid_from(bytes, i + n);
        assert(rest[0] == bytes[i]);
        if n == 1 {
            let b = tail[0];
            assert(b == 0x20 || b == bytes[i]);
            assert(is_leading_byte_width_1(b));
            assert(b <= 0x7f ==> codepoint_width_1(b) <= 0x7f) by (bit_vector);
            assert(valid_first_scalar(tail));
            assert(pop_first_scalar(tail) =~= out.skip(i + 1));
        } else {
            assert forall|k: int| i <= k < i + n implies #[trigger] bytes[k] >= 0x80 by {
                assert(bytes[k] == rest[k - i]);
            }
            assert forall|k: int| i <= k < i + n implies in_comment(bytes, k) == in_comment(
                bytes,
                i,
            ) by {
                lemma_wide_bytes_together(bytes, i, k);
            }
            if in_comment(bytes, i) {
                assert forall|k: int| 0 <= k < n implies #[trigger] tail[k] == 0x20 by {
                    assert(in_comment(bytes, i + k) == in_comment(bytes, i));
                    assert(bytes[i + k] >= 0x80);
                }
                assert(tail.skip(n) =~= out.skip(i + n));
                lemma_spaces_then_valid(tail, n);
            } else {
                assert forall|k: int| 0 <= k < n implies #[trigger] tail[k] == rest[k] by {
                    assert(in_comment(bytes, i + k) == in_comment(bytes, i));
                }
                assert(valid_first_scalar(tail));
                assert(length_of_first_scalar(tail) == n);
                assert(pop_first_scalar(tail) =~= out.skip(i + n));
            }
        }
    }
}

/// The error of a failed `String::from_utf8`.
#[verifier::external_type_specification]
#[verifier::external_body]
pub struct ExFromUtf8Error(std::string::FromUtf8Error);

/// `String::from_utf8` succeeds on valid UTF-8, and on nothing else, and gives
/// the string whose encoding the bytes are.
pub assume_specification[ String::from_utf8 ](bytes: Vec<u8>) -> (res: Result<
    String,
    std::string::FromUtf8Error,
>)
    ensures
        res is Ok <==> valid_utf8(bytes@),
        res matches Ok(text) ==> encode_utf8(text@) == bytes@,
;

/// Return a copy of `text` with the bytes of every comment replaced by spaces,
/// keeping newlines and the total length, so that byte offsets stay valid.
/// Literals are left untouched, a `//` or `/*` inside one opens no comment, and
/// block comments nest. A quote in a character begins no string, and a backslash
/// in a raw string escapes nothing.
pub fn mask_comments(text: &str) -> (mask: String)
    ensures
        encode_utf8(mask@) == masked(text.spec_bytes()),
{
    let bytes = text.as_bytes();
    let mut out: Vec<u8> = Vec::new();
    let mut mode = Mode::Plain(Literal::Code(Prefix::Nothing));
    let mut index: usize = 0;
    let length: usize = bytes.len();
    let ghost all = text.spec_bytes();
    while index < length
        invariant
            bytes@ == all,
            length == all.len(),
            index <= all.len(),
            mode == mode_at(all, index as int),
            mode matches Mode::Plain(literal) ==> counts_within(literal, index as int),
            out@ == masked(all).take(index as int),
        decreases all.len() - index,
    {
        proof {
            lemma_depth_bounded(all, index as int);
        }
        let byte = bytes[index];
        let next: Option<u8> = if index + 1 < length {
            Some(bytes[index + 1])
        } else {
            None
        };
        let starts_line = byte == 0x2f && next == Some(0x2fu8);
        let starts_block = byte == 0x2f && next == Some(0x2au8);
        let ends_block = byte == 0x2a && next == Some(0x2fu8);
        let in_code = matches!(mode, Mode::Plain(Literal::Code(_)));
        let hidden = match mode {
            Mode::Plain(_) => in_code && (starts_line || starts_block),
            Mode::Line => byte != 0x0a,
            Mode::Block(_) => true,
            Mode::Mark(_) => true,
        };
        if hidden && byte != 0x0a {
            out.push(0x20);
        } else {
            out.push(byte);
        }
        mode = match mode {
            Mode::Plain(literal) => if in_code && starts_line {
                Mode::Line
            } else if in_code && starts_block {
                Mode::Mark(1)
            } else {
                Mode::Plain(next_literal(literal, bytes, index, index))
            },
            Mode::Line => if byte == 0x0a {
                Mode::Plain(Literal::Code(Prefix::Nothing))
            } else {
                Mode::Line
            },
            Mode::Block(depth) => if starts_block {
                Mode::Mark(depth + 1)
            } else if ends_block {
                Mode::Mark(depth - 1)
            } else {
                Mode::Block(depth)
            },
            Mode::Mark(depth) => if depth == 0 {
                Mode::Plain(Literal::Code(Prefix::Nothing))
            } else {
                Mode::Block(depth)
            },
        };
        index += 1;
        assert(out@ =~= masked(all).take(index as int));
    }
    proof {
        assert(out@ =~= masked(all));
        encode_utf8_valid_utf8(text@);
        law_masked_is_utf8(text@);
    }
    match String::from_utf8(out) {
        Ok(mask) => mask,
        Err(_) => text.to_string(),
    }
}

/// Masking the comments of a text leaves valid UTF-8, also where comments hold
/// characters beyond ASCII.
pub proof fn law_masked_is_utf8(text: Seq<char>)
    ensures
        valid_utf8(masked(encode_utf8(text))),
{
    let bytes = encode_utf8(text);
    encode_utf8_valid_utf8(text);
    assert(bytes.skip(0) =~= bytes);
    lemma_masked_valid_from(bytes, 0);
    assert(masked(bytes).skip(0) =~= masked(bytes));
}

/// Masking keeps the length and every newline, and changes no byte that does
/// not belong to a comment.
pub proof fn law_masked_keeps_offsets(bytes: Seq<u8>)
    ensures
        masked(bytes).len() == bytes.len(),
        forall|i: int|
            0 <= i < bytes.len() ==> (#[trigger] masked(bytes)[i] == 0x0a <==> bytes[i] == 0x0a),
        forall|i: int|
            0 <= i < bytes.len() && !in_comment(bytes, i) ==> #[trigger] masked(bytes)[i]
                == bytes[i],
{
}

/// What remains once the comments are gone.
spec fn without_comment(mode: Mode) -> Mode {
    match mode {
        Mode::Plain(literal) => Mode::Plain(literal),
        _ => fresh_code(),
    }
}

/// What stands between the quotes of a character: no quote and no backslash but
/// those of its escape.
pub proof fn lemma_char_inside(bytes: Seq<u8>, i: int)
    requires
        0 <= i,
        char_end(bytes, i) is Some,
    ensures
        ({
            let end = char_end(bytes, i)->0;
            let escaped = bytes[i + 1] == 0x5c;
            &&& i + 2 <= end < bytes.len()
            &&& escaped ==> i + 3 <= end
            &&& bytes[i] == 0x27 && bytes[end] == 0x27
            &&& bytes[i + 1] != 0x27
            &&& forall|k: int|
                i + 2 <= k < end && !(escaped && k == i + 2) ==> (#[trigger] bytes[k]) != 0x27
                    && bytes[k] != 0x5c
            &&& forall|k: int| i <= k < end ==> !#[trigger] line_opens(bytes, k)
        }),
{
    let end = char_end(bytes, i)->0;
    if bytes[i + 1] == 0x5c && byte_is(bytes, i + 2, 0x75) && byte_is(bytes, i + 3, 0x7b) {
        lemma_scalar_end(bytes, i + 4);
    }
    assert forall|k: int| i <= k < end implies !#[trigger] line_opens(bytes, k) by {
        if line_opens(bytes, k) {
            assert(bytes[k] == 0x2f && bytes[k + 1] == 0x2f);
        }
    }
}

/// A character lasts up to its closing quote, and code follows it.
proof fn lemma_char_run(bytes: Seq<u8>, i: int, k: int)
    requires
        0 <= i,
        mode_at(bytes, i) matches Mode::Plain(literal) && literal is Code,
        char_end(bytes, i) is Some,
        i < k <= char_end(bytes, i)->0,
    ensures
        mode_at(bytes, k) == Mode::Plain(
            if bytes[i + 1] == 0x5c && k == i + 2 {
                Literal::CharEscaped
            } else {
                Literal::Char
            },
        ),
        !in_comment(bytes, k),
        k == char_end(bytes, i)->0 ==> mode_at(bytes, k + 1) == Mode::Plain(
            Literal::Code(Prefix::Word),
        ),
    decreases k,
{
    lemma_char_inside(bytes, i);
    assert(mode_at(bytes, k) == mode_after(mode_at(bytes, k - 1), bytes, k - 1));
    if k > i + 1 {
        lemma_char_run(bytes, i, k - 1);
    }
    assert(mode_at(bytes, k + 1) == mode_after(mode_at(bytes, k), bytes, k));
}

/// Masking neither makes nor unmakes a character.
proof fn lemma_masked_char(bytes: Seq<u8>, i: int)
    requires
        0 <= i < bytes.len(),
        mode_at(bytes, i) matches Mode::Plain(literal) && literal is Code,
        bytes[i] == 0x27,
    ensures
        char_opens(masked(bytes), i) == char_opens(bytes, i),
{
    let out = masked(bytes);
    assert(out[i] == 0x27);
    assert forall|k: int| 0 <= k < bytes.len() implies #[trigger] out[k] == bytes[k] || (out[k]
        == 0x20 && in_comment(bytes, k)) by {}
    if char_opens(bytes, i) {
        let end = char_end(bytes, i)->0;
        lemma_char_inside(bytes, i);
        assert forall|k: int| i <= k <= end implies #[trigger] out[k] == bytes[k] by {
            if k > i {
                lemma_char_run(bytes, i, k);
            }
        }
        lemma_same_char(bytes, out, i);
    } else if char_opens(out, i) {
        let end = char_end(out, i)->0;
        lemma_char_inside(out, i);
        assert(mode_at(bytes, i + 1) == mode_after(mode_at(bytes, i), bytes, i));
        assert(mode_at(bytes, i + 2) == mode_after(mode_at(bytes, i + 1), bytes, i + 1));
        assert(mode_at(bytes, i + 3) == mode_after(mode_at(bytes, i + 2), bytes, i + 2));
        if in_comment(bytes, i + 1) {
            assert(out[i + 1] == 0x20);
            assert(out[i + 2] == 0x20);
            assert(false);
        }
        if out[i + 1] == 0x5c && in_comment(bytes, i + 2) {
            assert(out[i + 2] == 0x20);
            assert(out[i + 3] == 0x20);
            assert(false);
        }
        assert forall|k: int| i <= k <= end implies #[trigger] bytes[k] == out[k] by {
            if out[i + 1] == 0x5c && byte_is(out, i + 2, 0x75) && byte_is(out, i + 3, 0x7b) {
                lemma_scalar_end(out, i + 4);
            }
        }
        lemma_same_char(out, bytes, i);
        assert(false);
    }
}

/// Two texts that agree on a character both have it.
proof fn lemma_same_char(a: Seq<u8>, b: Seq<u8>, i: int)
    requires
        0 <= i,
        a.len() == b.len(),
        char_end(a, i) is Some,
        forall|k: int| i <= k <= char_end(a, i)->0 ==> #[trigger] a[k] == b[k],
    ensures
        char_end(b, i) == char_end(a, i),
{
    let end = char_end(a, i)->0;
    lemma_char_inside(a, i);
    assert(a[i] == b[i] && a[i + 1] == b[i + 1] && a[i + 2] == b[i + 2]);
    assert(a[end] == b[end]);
    if end >= i + 3 {
        assert(a[i + 3] == b[i + 3]);
    }
    if end >= i + 4 {
        assert(a[i + 4] == b[i + 4]);
    }
    if end >= i + 5 {
        assert(a[i + 5] == b[i + 5]);
    }
    if a[i + 1] == 0x5c && end > i + 3 && a[i + 2] == 0x75 {
        lemma_scalar_end(a, i + 4);
        lemma_same_scalar_end(a, b, i + 4);
    }
}

/// The byte at `i` stands in a character.
spec fn in_char(bytes: Seq<u8>, i: int) -> bool {
    mode_at(bytes, i) == Mode::Plain(Literal::Char) || mode_at(bytes, i) == Mode::Plain(
        Literal::CharEscaped,
    )
}

/// What stands in a character stands between its quotes.
proof fn lemma_char_begins(bytes: Seq<u8>, k: int) -> (i: int)
    requires
        0 <= k,
        in_char(bytes, k),
    ensures
        0 <= i < k,
        mode_at(bytes, i) matches Mode::Plain(literal) && literal is Code,
        char_end(bytes, i) is Some,
        k <= char_end(bytes, i)->0,
    decreases k,
{
    assert(k > 0);
    assert(mode_at(bytes, k) == mode_after(mode_at(bytes, k - 1), bytes, k - 1));
    if in_char(bytes, k - 1) {
        let i = lemma_char_begins(bytes, k - 1);
        lemma_char_run(bytes, i, k - 1);
        i
    } else {
        lemma_char_inside(bytes, k - 1);
        k - 1
    }
}

/// No `//` stands in a character.
proof fn lemma_no_comment_in_char(bytes: Seq<u8>, k: int)
    requires
        0 <= k,
        in_char(bytes, k),
    ensures
        !line_opens(bytes, k),
{
    let i = lemma_char_begins(bytes, k);
    lemma_char_inside(bytes, i);
}

/// A `//` stands at or before the byte at `i`, on the same line.
pub open spec fn behind_slashes(bytes: Seq<u8>, i: int) -> bool {
    exists|j: int| 0 <= j <= i && #[trigger] line_opens(bytes, j) && no_newline(bytes, j, i)
}

/// No newline stands from `a` up to and at `b`.
pub open spec fn no_newline(bytes: Seq<u8>, a: int, b: int) -> bool {
    forall|k: int| a <= k <= b ==> #[trigger] bytes[k] != 0x0a
}

/// Without strings and block comments, what follows a `//` on its line is a line
/// comment, and the rest is code or stands in a character.
proof fn lemma_line_modes(bytes: Seq<u8>, i: int)
    requires
        0 <= i <= bytes.len(),
        !bytes.contains(0x22),
        forall|k: int| !#[trigger] block_opens(bytes, k),
    ensures
        mode_at(bytes, i) == Mode::Line <==> i > 0 && behind_slashes(bytes, i - 1),
        match mode_at(bytes, i) {
            Mode::Plain(literal) => literal is Code || in_char(bytes, i),
            Mode::Line => true,
            _ => false,
        },
    decreases i,
{
    if i > 0 {
        let at = i - 1;
        lemma_line_modes(bytes, at);
        assert(bytes.contains(bytes[at]));
        assert(!block_opens(bytes, at));
        assert(mode_at(bytes, i) == mode_after(mode_at(bytes, at), bytes, at));
        if in_char(bytes, at) {
            lemma_no_comment_in_char(bytes, at);
        }
        if behind_slashes(bytes, at) {
            let j = choose|j: int|
                0 <= j <= at && #[trigger] line_opens(bytes, j) && no_newline(bytes, j, at);
            assert(bytes[at] != 0x0a);
            if j < at {
                assert(no_newline(bytes, j, at - 1));
                assert(behind_slashes(bytes, at - 1));
            }
        }
        if mode_at(bytes, i) == Mode::Line {
            if mode_at(bytes, at) == Mode::Line {
                let j = choose|j: int|
                    0 <= j <= at - 1 && #[trigger] line_opens(bytes, j) && no_newline(
                        bytes,
                        j,
                        at - 1,
                    );
                assert(no_newline(bytes, j, at));
            } else {
                assert(line_opens(bytes, at));
                assert(no_newline(bytes, at, at));
            }
            assert(behind_slashes(bytes, at));
        }
    }
}

/// In a text without double quotes and without `/*`, every `//` is masked with
/// what follows it on its line, and nothing else is.
pub proof fn law_line_comments_are_masked(bytes: Seq<u8>)
    requires
        !bytes.contains(0x22),
        forall|k: int| !#[trigger] block_opens(bytes, k),
    ensures
        forall|i: int|
            0 <= i < bytes.len() ==> #[trigger] masked(bytes)[i] == if behind_slashes(bytes, i) {
                0x20u8
            } else {
                bytes[i]
            },
{
    assert forall|i: int| 0 <= i < bytes.len() implies #[trigger] masked(bytes)[i]
        == if behind_slashes(bytes, i) {
        0x20u8
    } else {
        bytes[i]
    } by {
        lemma_line_modes(bytes, i);
        lemma_line_modes(bytes, i + 1);
        assert(!block_opens(bytes, i));
        assert(mode_at(bytes, i + 1) == mode_after(mode_at(bytes, i), bytes, i));
        if in_char(bytes, i) {
            lemma_no_comment_in_char(bytes, i);
        }
    }
}

proof fn lemma_masked_modes(bytes: Seq<u8>, i: int)
    requires
        0 <= i <= bytes.len(),
    ensures
        mode_at(masked(bytes), i) == without_comment(mode_at(bytes, i)),
    decreases i,
{
    if i > 0 {
        lemma_masked_modes(bytes, i - 1);
        let out = masked(bytes);
        assert(out[i - 1] == 0x20 || out[i - 1] == bytes[i - 1]);
        if i < bytes.len() {
            assert(out[i] == 0x20 || out[i] == bytes[i]);
        }
        if let Mode::Plain(literal) = mode_at(bytes, i - 1) {
            if literal is Code && bytes[i - 1] == 0x27 {
                lemma_masked_char(bytes, i - 1);
            }
        }
    }
}

/// A masked text holds no comments: masking it again changes nothing.
pub proof fn law_masking_twice(bytes: Seq<u8>)
    ensures
        masked(masked(bytes)) == masked(bytes),
        forall|i: int| 0 <= i < bytes.len() ==> !#[trigger] in_comment(masked(bytes), i),
{
    let out = masked(bytes);
    assert forall|i: int| 0 <= i < bytes.len() implies !#[trigger] in_comment(out, i) by {
        lemma_masked_modes(bytes, i);
        assert(out[i] == 0x20 || out[i] == bytes[i]);
        if i + 1 < bytes.len() {
            assert(out[i + 1] == 0x20 || out[i + 1] == bytes[i + 1]);
        }
    }
    assert(masked(out) =~= out);
}

/// Where a bracket scan stands: how many brackets are open, and what the next
/// byte belongs to.
pub struct Brackets {
    pub depth: int,
    pub literal: Literal,
}

/// The state of a scan that began behind an opening bracket at `start`, before
/// the byte at `i`.
pub open spec fn brackets_at(bytes: Seq<u8>, start: int, i: int) -> Brackets
    decreases i - start,
{
    if i <= start {
        Brackets { depth: 1, literal: Literal::Code(Prefix::Nothing) }
    } else {
        let before = brackets_at(bytes, start, i - 1);
        let byte = bytes[i - 1];
        Brackets {
            depth: if before.literal is Code && byte == 0x5b {
                before.depth + 1
            } else if before.literal is Code && byte == 0x5d {
                before.depth - 1
            } else {
                before.depth
            },
            literal: literal_after(before.literal, bytes, i - 1),
        }
    }
}

/// The byte at `i` is the `]` that closes the bracket before `start`: it stands
/// in no literal.
pub open spec fn closes_at(bytes: Seq<u8>, start: int, i: int) -> bool {
    let state = brackets_at(bytes, start, i);
    start <= i < bytes.len() && bytes[i] == 0x5d && state.literal is Code && state.depth == 1
}

/// The first position from `i` on that closes the bracket before `start`.
pub open spec fn close_from(bytes: Seq<u8>, start: int, i: int) -> Option<int>
    decreases bytes.len() - i,
{
    if i >= bytes.len() {
        None
    } else if closes_at(bytes, start, i) {
        Some(i)
    } else {
        close_from(bytes, start, i + 1)
    }
}

/// The position of the `]` that closes the bracket before `start`.
pub open spec fn close_of(bytes: Seq<u8>, start: int) -> Option<int> {
    close_from(bytes, start, start)
}

/// Given the byte offset just past an opening `[`, return the offset of the `]`
/// that closes it. Brackets inside literals are ignored, and nesting is balanced
/// by depth.
pub fn matching_close(text: &str, content_start: usize) -> (close: Option<usize>)
    requires
        is_char_boundary(text.spec_bytes(), content_start as int),
    ensures
        match close {
            Some(end) => close_of(text.spec_bytes(), content_start as int) == Some(end as int),
            None => close_of(text.spec_bytes(), content_start as int) is None,
        },
{
    let bytes = text.as_bytes();
    let mut nested: usize = 0;
    let mut literal = Literal::Code(Prefix::Nothing);
    let mut index: usize = content_start;
    let length: usize = bytes.len();
    let ghost all = text.spec_bytes();
    let ghost start = content_start as int;
    proof {
        encode_utf8_valid_utf8(text@);
        lemma_boundary_in_bounds(all, start);
    }
    while index < length
        invariant
            bytes@ == all,
            all == text.spec_bytes(),
            length == all.len(),
            start <= index <= all.len(),
            brackets_at(all, start, index as int) == (Brackets { depth: nested + 1, literal }),
            counts_within(literal, index as int),
            nested <= index - start,
            start == content_start,
            close_of(all, start) == close_from(all, start, index as int),
        decreases all.len() - index,
    {
        let byte = bytes[index];
        let in_code = matches!(literal, Literal::Code(_));
        if in_code && byte == 0x5b {
            nested += 1;
        } else if in_code && byte == 0x5d {
            if nested == 0 {
                assert(closes_at(all, start, index as int));
                return Some(index);
            }
            nested -= 1;
        }
        literal = next_literal(literal, bytes, index, index);
        index += 1;
    }
    None
}

/// A character boundary lies within the text.
pub proof fn lemma_boundary_in_bounds(bytes: Seq<u8>, i: int)
    requires
        valid_utf8(bytes),
        is_char_boundary(bytes, i),
    ensures
        0 <= i <= bytes.len(),
    decreases bytes.len(),
{
    if i == 0 || i < 0 || bytes.len() < i {
    } else {
        lemma_boundary_in_bounds(pop_first_scalar(bytes), i - length_of_first_scalar(bytes));
    }
}

/// The closing bracket that is found lies at or behind the start, is a `]`, is
/// a character boundary, and no earlier one closes the same bracket.
pub proof fn law_close_is_first(bytes: Seq<u8>, start: int)
    requires
        valid_utf8(bytes),
        0 <= start,
    ensures
        match close_of(bytes, start) {
            Some(end) => closes_at(bytes, start, end) && is_char_boundary(bytes, end) && forall|i: int|
                start <= i < end ==> !#[trigger] closes_at(bytes, start, i),
            None => forall|i: int| start <= i < bytes.len() ==> !#[trigger] closes_at(bytes, start, i),
        },
{
    lemma_close_from(bytes, start, start);
    if let Some(end) = close_of(bytes, start) {
        is_char_boundary_iff_not_is_continuation_byte(bytes, end);
    }
}

proof fn lemma_close_from(bytes: Seq<u8>, start: int, i: int)
    requires
        start <= i,
    ensures
        match close_from(bytes, start, i) {
            Some(end) => i <= end && closes_at(bytes, start, end) && forall|k: int|
                i <= k < end ==> !#[trigger] closes_at(bytes, start, k),
            None => forall|k: int| i <= k < bytes.len() ==> !#[trigger] closes_at(bytes, start, k),
        },
    decreases bytes.len() - i,
{
    if i < bytes.len() && !closes_at(bytes, start, i) {
        lemma_close_from(bytes, start, i + 1);
    }
}

/// How many brackets are open before the byte at `i`, where each counts: the one
/// before `start`, and those behind it that are not closed.
pub open spec fn open_brackets(bytes: Seq<u8>, start: int, i: int) -> int
    decreases i - start,
{
    if i <= start {
        1
    } else if bytes[i - 1] == 0x5b {
        open_brackets(bytes, start, i - 1) + 1
    } else if bytes[i - 1] == 0x5d {
        open_brackets(bytes, start, i - 1) - 1
    } else {
        open_brackets(bytes, start, i - 1)
    }
}

/// Where neither a string nor a character begins, every bracket counts, whatever
/// quotes and backslashes stand between.
pub proof fn law_every_bracket_counts(bytes: Seq<u8>, start: int, i: int)
    requires
        0 <= start <= i < bytes.len(),
        forall|k: int| start <= k < bytes.len() ==> #[trigger] bytes[k] != 0x22,
        forall|k: int| start <= k < bytes.len() ==> !#[trigger] char_opens(bytes, k),
    ensures
        closes_at(bytes, start, i) <==> bytes[i] == 0x5d && open_brackets(bytes, start, i) == 1,
{
    lemma_all_code(bytes, start, i);
}

proof fn lemma_all_code(bytes: Seq<u8>, start: int, i: int)
    requires
        0 <= start <= i <= bytes.len(),
        forall|k: int| start <= k < bytes.len() ==> #[trigger] bytes[k] != 0x22,
        forall|k: int| start <= k < bytes.len() ==> !#[trigger] char_opens(bytes, k),
    ensures
        brackets_at(bytes, start, i).literal is Code,
        brackets_at(bytes, start, i).depth == open_brackets(bytes, start, i),
    decreases i - start,
{
    if i > start {
        lemma_all_code(bytes, start, i - 1);
        assert(bytes[i - 1] != 0x22);
        assert(!char_opens(bytes, i - 1));
    }
}

} // verus!
