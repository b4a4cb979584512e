//! What masking and the search for a closing bracket make of a text that is put
//! together from code, comments and literals.
use crate::literals::{
    byte_is, char_end, char_opens, escape_end, hex_at, literal_after, scalar_byte, scalar_end,
    wide_at, Literal, Prefix,
};
use crate::scan::{
    block_closes, block_opens, brackets_at, close_from, close_of, closes_at, fresh_code, in_comment,
    line_opens, masked, mode_after, mode_at, Mode,
};
use vstd::prelude::*;

verus! {

/// Code without quotes and slashes: letters, brackets, numbers, white space and
/// what else stands between literals and comments.
pub open spec fn plain_code(code: Seq<u8>) -> bool {
    forall|i: int|
        0 <= i < code.len() ==> (#[trigger] code[i]) != 0x22 && code[i] != 0x27 && code[i] != 0x2f
}

/// Bytes that are blanked out: each is a space, but newlines stay.
pub open spec fn blanked(bytes: Seq<u8>) -> Seq<u8> {
    Seq::new(
        bytes.len(),
        |i: int|
            if bytes[i] == 0x0a {
                0x0au8
            } else {
                0x20u8
            },
    )
}

/// As many spaces.
pub open spec fn spaces(count: nat) -> Seq<u8> {
    Seq::new(count, |i: int| 0x20u8)
}

/// A letter, a digit or an underscore.
pub open spec fn letter(byte: u8) -> bool {
    ||| 0x61 <= byte <= 0x7a
    ||| 0x41 <= byte <= 0x5a
    ||| 0x30 <= byte <= 0x39
    ||| byte == 0x5f
}

/// A digit of a number to the base sixteen.
pub open spec fn sixteenth(byte: u8) -> bool {
    0x30 <= byte <= 0x39 || 0x61 <= byte <= 0x66 || 0x41 <= byte <= 0x46
}

/// What follows a literal begins no new word with it.
pub open spec fn parted(rest: Seq<u8>) -> bool {
    rest.len() == 0 || (rest[0] < 0x80 && !letter(rest[0]))
}

/// Code behind which a quote begins a plain string: it ends in no `#`, and in an
/// `r` only where that is the end of a longer word.
pub open spec fn ends_plainly(code: Seq<u8>) -> bool {
    ||| code.len() == 0
    ||| code.last() != 0x23 && code.last() != 0x72
    ||| code.last() == 0x72 && code.len() >= 2 && letter(code[code.len() - 2]) && code[code.len()
        - 2] != 0x62 && code[code.len() - 2] != 0x63
}

/// Whether a quote behind these bytes begins a plain string.
spec fn plain_prefix(literal: Literal) -> bool {
    match literal {
        Literal::Code(prefix) => !(prefix is Raw) && !(prefix is Hashes),
        _ => false,
    }
}

proof fn lemma_scalar_behind(whole: Seq<u8>, n: int, rest: Seq<u8>, k: int)
    requires
        0 <= n <= whole.len(),
        whole.skip(n) == rest,
        0 <= k,
    ensures
        scalar_end(whole, n + k) == n + scalar_end(rest, k),
    decreases rest.len() - k,
{
    if k < rest.len() {
        assert(rest[k] == whole[n + k]);
        if scalar_byte(rest[k]) {
            lemma_scalar_behind(whole, n, rest, k + 1);
        }
    }
}

/// What follows a place does not depend on what stands before it.
proof fn lemma_ahead(whole: Seq<u8>, n: int, rest: Seq<u8>, k: int)
    requires
        0 <= n <= whole.len(),
        whole.skip(n) == rest,
        0 <= k < rest.len(),
    ensures
        whole[n + k] == rest[k],
        line_opens(whole, n + k) == line_opens(rest, k),
        block_opens(whole, n + k) == block_opens(rest, k),
        block_closes(whole, n + k) == block_closes(rest, k),
        char_opens(whole, n + k) == char_opens(rest, k),
        forall|literal: Literal| #[trigger]
            literal_after(literal, whole, n + k) == literal_after(literal, rest, k),
        forall|mode: Mode| #[trigger] mode_after(mode, whole, n + k) == mode_after(mode, rest, k),
{
    assert forall|j: int| 0 <= j < rest.len() implies whole[n + j] == #[trigger] rest[j] by {}
    assert(whole.len() == n + rest.len());
    assert forall|j: int, b: u8| 0 <= j implies #[trigger] byte_is(rest, j, b) == byte_is(
        whole,
        n + j,
        b,
    ) by {
        if j < rest.len() {
            assert(rest[j] == whole[n + j]);
        }
    }
    assert forall|j: int| 0 <= j implies #[trigger] wide_at(rest, j) == wide_at(whole, n + j) by {
        if j < rest.len() {
            assert(rest[j] == whole[n + j]);
        }
    }
    assert forall|j: int| 0 <= j implies #[trigger] hex_at(rest, j) == hex_at(whole, n + j) by {
        if j < rest.len() {
            assert(rest[j] == whole[n + j]);
        }
    }
    assert(byte_is(rest, k, 0x2f) == byte_is(whole, n + k, 0x2f));
    assert(byte_is(rest, k + 1, 0x2f) == byte_is(whole, n + k + 1, 0x2f));
    assert(byte_is(rest, k, 0x2a) == byte_is(whole, n + k, 0x2a));
    assert(byte_is(rest, k + 1, 0x2a) == byte_is(whole, n + k + 1, 0x2a));
    assert(byte_is(rest, k, 0x27) == byte_is(whole, n + k, 0x27));
    if k + 1 < rest.len() {
        assert(rest[k + 1] == whole[n + k + 1]);
        assert(byte_is(rest, k + 2, 0x27) == byte_is(whole, n + (k + 2), 0x27));
        assert(byte_is(rest, k + 3, 0x27) == byte_is(whole, n + (k + 3), 0x27));
        assert(byte_is(rest, k + 4, 0x27) == byte_is(whole, n + (k + 4), 0x27));
        assert(byte_is(rest, k + 5, 0x27) == byte_is(whole, n + (k + 5), 0x27));
        assert(byte_is(rest, k + 2, 0x78) == byte_is(whole, n + (k + 2), 0x78));
        assert(byte_is(rest, k + 2, 0x75) == byte_is(whole, n + (k + 2), 0x75));
        assert(byte_is(rest, k + 3, 0x7b) == byte_is(whole, n + (k + 3), 0x7b));
        assert(wide_at(rest, k + 2) == wide_at(whole, n + (k + 2)));
        assert(wide_at(rest, k + 3) == wide_at(whole, n + (k + 3)));
        assert(wide_at(rest, k + 4) == wide_at(whole, n + (k + 4)));
        assert(hex_at(rest, k + 3) == hex_at(whole, n + (k + 3)));
        assert(hex_at(rest, k + 4) == hex_at(whole, n + (k + 4)));
        if k + 3 < rest.len() {
            assert(rest[k + 2] == whole[n + k + 2]);
            assert(rest[k + 3] == whole[n + k + 3]);
        }
        lemma_scalar_behind(whole, n, rest, k + 4);
        let end = scalar_end(rest, k + 4);
        crate::literals::lemma_scalar_end(rest, if k + 4 <= rest.len() {
            k + 4
        } else {
            rest.len() as int
        });
        if end >= 0 {
            assert(byte_is(rest, end, 0x7d) == byte_is(whole, n + end, 0x7d));
            assert(byte_is(rest, end + 1, 0x27) == byte_is(whole, n + (end + 1), 0x27));
        }
        assert((escape_end(rest, k + 1) is Some) == (escape_end(whole, n + k + 1) is Some));
    }
}

/// Where a text goes on as a text of its own would begin, it goes on as that.
proof fn lemma_modes_behind(whole: Seq<u8>, n: int, rest: Seq<u8>, first: int, k: int)
    requires
        0 <= n <= whole.len(),
        whole.skip(n) == rest,
        0 <= first <= k <= rest.len(),
        mode_at(whole, n + first) == mode_at(rest, first),
    ensures
        mode_at(whole, n + k) == mode_at(rest, k),
    decreases k,
{
    if k > first {
        lemma_modes_behind(whole, n, rest, first, k - 1);
        lemma_ahead(whole, n, rest, k - 1);
        assert(mode_at(whole, n + k) == mode_after(mode_at(whole, n + k - 1), whole, n + k - 1));
        assert(mode_at(rest, k) == mode_after(mode_at(rest, k - 1), rest, k - 1));
    }
}

/// A place in code at which a text can go on as if it began there.
spec fn anew(mode: Mode, rest: Seq<u8>) -> bool {
    ||| mode == fresh_code()
    ||| mode == Mode::Plain(Literal::Code(Prefix::Word)) && parted(rest)
}

proof fn lemma_masked_behind(whole: Seq<u8>, n: int, rest: Seq<u8>)
    requires
        0 <= n <= whole.len(),
        whole.skip(n) == rest,
        anew(mode_at(whole, n), rest),
    ensures
        masked(whole).skip(n) == masked(rest),
{
    if rest.len() > 0 {
        lemma_ahead(whole, n, rest, 0);
        assert(mode_at(rest, 0) == fresh_code());
        assert(mode_at(whole, n + 1) == mode_after(mode_at(whole, n), whole, n));
        assert(mode_at(rest, 1) == mode_after(mode_at(rest, 0), rest, 0));
        assert(mode_at(whole, n + 1) == mode_at(rest, 1));
    }
    assert forall|k: int| 0 <= k < rest.len() implies #[trigger] masked(whole).skip(n)[k] == masked(
        rest,
    )[k] by {
        lemma_ahead(whole, n, rest, k);
        if k > 0 {
            lemma_modes_behind(whole, n, rest, 1, k);
        }
        assert(in_comment(whole, n + k) == in_comment(rest, k));
    }
    assert(masked(whole).skip(n) =~= masked(rest));
}

/// What a byte belongs to, from a place on, in a text without comments.
spec fn literal_from(literal: Literal, bytes: Seq<u8>, a: int, b: int) -> Literal
    decreases b - a,
{
    if b <= a {
        literal
    } else {
        literal_after(literal_from(literal, bytes, a, b - 1), bytes, b - 1)
    }
}

proof fn lemma_plain_modes(bytes: Seq<u8>, a: int, b: int, literal: Literal)
    requires
        0 <= a <= b <= bytes.len(),
        mode_at(bytes, a) == Mode::Plain(literal),
        forall|k: int|
            a <= k < b && #[trigger] literal_from(literal, bytes, a, k) is Code ==> bytes[k] != 0x2f,
    ensures
        mode_at(bytes, b) == Mode::Plain(literal_from(literal, bytes, a, b)),
        forall|k: int| a <= k < b ==> !#[trigger] in_comment(bytes, k),
    decreases b - a,
{
    if b > a {
        lemma_plain_modes(bytes, a, b - 1, literal);
        assert(literal_from(literal, bytes, a, b - 1) is Code ==> bytes[b - 1] != 0x2f);
        assert(mode_at(bytes, b) == mode_after(mode_at(bytes, b - 1), bytes, b - 1));
        assert(!in_comment(bytes, b - 1));
    }
}

proof fn lemma_plain_brackets(bytes: Seq<u8>, start: int, a: int, b: int, literal: Literal)
    requires
        0 <= start <= a <= b <= bytes.len(),
        brackets_at(bytes, start, a).literal == literal,
    ensures
        brackets_at(bytes, start, b).literal == literal_from(literal, bytes, a, b),
        (forall|k: int|
            a <= k < b && #[trigger] literal_from(literal, bytes, a, k) is Code ==> bytes[k] != 0x5b
                && bytes[k] != 0x5d) ==> brackets_at(bytes, start, b).depth == brackets_at(
            bytes,
            start,
            a,
        ).depth,
    decreases b - a,
{
    if b > a {
        lemma_plain_brackets(bytes, start, a, b - 1, literal);
        if forall|k: int|
            a <= k < b && #[trigger] literal_from(literal, bytes, a, k) is Code ==> bytes[k] != 0x5b
                && bytes[k] != 0x5d {
            assert(literal_from(literal, bytes, a, b - 1) is Code ==> bytes[b - 1] != 0x5b && bytes[b
                - 1] != 0x5d);
        }
    }
}

/// Plain code is code throughout.
proof fn lemma_code_run(bytes: Seq<u8>, b: int)
    requires
        0 <= b <= bytes.len(),
        forall|k: int|
            0 <= k < b ==> (#[trigger] bytes[k]) != 0x22 && bytes[k] != 0x27 && bytes[k] != 0x2f,
    ensures
        literal_from(Literal::Code(Prefix::Nothing), bytes, 0, b) is Code,
        forall|k: int|
            0 <= k <= b ==> #[trigger] literal_from(
                Literal::Code(Prefix::Nothing),
                bytes,
                0,
                k,
            ) is Code,
        ends_plainly(bytes.take(b)) ==> plain_prefix(
            literal_from(Literal::Code(Prefix::Nothing), bytes, 0, b),
        ),
        b > 0 && letter(bytes[b - 1]) && bytes[b - 1] != 0x62 && bytes[b - 1] != 0x63 ==> {
            let literal = literal_from(Literal::Code(Prefix::Nothing), bytes, 0, b);
            literal == Literal::Code(Prefix::Raw) || literal == Literal::Code(Prefix::Word)
        },
    decreases b,
{
    if b > 0 {
        lemma_code_run(bytes, b - 1);
        assert(bytes[b - 1] != 0x22 && bytes[b - 1] != 0x27);
        assert(bytes.take(b).last() == bytes[b - 1]);
        if b > 1 {
            assert(bytes.take(b)[b - 2] == bytes[b - 2]);
        }
    }
}

proof fn lemma_code_mode(whole: Seq<u8>, code: Seq<u8>, more: Seq<u8>)
    requires
        plain_code(code),
        whole == code + more,
    ensures
        mode_at(whole, code.len() as int) == Mode::Plain(
            literal_from(Literal::Code(Prefix::Nothing), whole, 0, code.len() as int),
        ),
        mode_at(whole, code.len() as int) matches Mode::Plain(literal) && literal is Code,
        ends_plainly(code) ==> plain_prefix(
            literal_from(Literal::Code(Prefix::Nothing), whole, 0, code.len() as int),
        ),
        forall|k: int| 0 <= k < code.len() ==> !#[trigger] in_comment(whole, k),
        forall|k: int|
            0 <= k <= code.len() ==> #[trigger] literal_from(
                Literal::Code(Prefix::Nothing),
                whole,
                0,
                k,
            ) is Code,
{
    let n = code.len() as int;
    assert forall|k: int| 0 <= k < n implies (#[trigger] whole[k]) != 0x22 && whole[k] != 0x27
        && whole[k] != 0x2f by {
        assert(whole[k] == code[k]);
    }
    lemma_code_run(whole, n);
    assert(mode_at(whole, 0) == Mode::Plain(Literal::Code(Prefix::Nothing)));
    lemma_plain_modes(whole, 0, n, Literal::Code(Prefix::Nothing));
    assert(whole.take(n) =~= code);
}

/// Masking leaves plain code alone.
pub proof fn law_code_is_not_masked(code: Seq<u8>)
    requires
        plain_code(code),
    ensures
        masked(code) == code,
{
    assert(code + Seq::<u8>::empty() =~= code);
    lemma_code_mode(code, code, Seq::empty());
    assert(masked(code) =~= code);
}

proof fn lemma_masked_parts(whole: Seq<u8>, code: Seq<u8>, piece: Seq<u8>, shown: Seq<u8>, rest: Seq<u8>)
    requires
        plain_code(code),
        whole == code + piece + rest,
        shown.len() == piece.len(),
        forall|k: int|
            0 <= k < piece.len() ==> #[trigger] masked(whole)[code.len() + k] == shown[k],
        anew(mode_at(whole, (code.len() + piece.len()) as int), rest),
    ensures
        masked(whole) == code + shown + masked(rest),
{
    let n = code.len() as int;
    let m = n + piece.len();
    assert(whole == code + (piece + rest)) by {
        assert(code + piece + rest =~= code + (piece + rest));
    }
    lemma_code_mode(whole, code, piece + rest);
    assert(whole.skip(m) =~= rest);
    lemma_masked_behind(whole, m, rest);
    let right = code + shown + masked(rest);
    assert forall|i: int| 0 <= i < whole.len() implies #[trigger] masked(whole)[i] == right[i] by {
        if i < n {
            assert(!in_comment(whole, i));
            assert(whole[i] == code[i]);
        } else if i < m {
            assert(masked(whole)[n + (i - n)] == shown[i - n]);
        } else {
            assert(masked(whole).skip(m)[i - m] == masked(rest)[i - m]);
        }
    }
    assert(masked(whole) =~= right);
}

/// A line comment reaches from its slashes to the end of its line, whatever
/// stands in between; what follows is scanned as a text of its own.
pub proof fn law_line_comment(code: Seq<u8>, inner: Seq<u8>, rest: Seq<u8>)
    requires
        plain_code(code),
        !inner.contains(0x0a),
        rest.len() == 0 || rest[0] == 0x0a,
    ensures
        masked(code + (seq![0x2fu8, 0x2fu8] + inner) + rest) == code + spaces(2 + inner.len())
            + masked(rest),
{
    let piece = seq![0x2fu8, 0x2fu8] + inner;
    let whole = code + piece + rest;
    let n = code.len() as int;
    let m = n + piece.len();
    assert(whole =~= code + (piece + rest));
    lemma_code_mode(whole, code, piece + rest);
    assert(whole[n] == 0x2f && whole[n + 1] == 0x2f);
    assert(line_opens(whole, n));
    assert(mode_at(whole, n + 1) == Mode::Line);
    assert forall|k: int| n < k <= m implies mode_at(whole, k) == Mode::Line by {
        lemma_line_run(whole, n + 1, m, k);
    }
    assert forall|k: int| 0 <= k < piece.len() implies #[trigger] masked(whole)[n + k] == spaces(
        2 + inner.len(),
    )[k] by {
        assert(whole[n + k] == piece[k]);
        if k >= 2 {
            assert(inner.contains(inner[k - 2]));
        }
        assert(mode_at(whole, n + k) == Mode::Line || k == 0);
        assert(in_comment(whole, n + k));
    }
    if rest.len() == 0 {
        assert(masked(whole) =~= code + spaces(2 + inner.len()) + masked(rest)) by {
            assert forall|i: int| 0 <= i < whole.len() implies #[trigger] masked(whole)[i] == (code
                + spaces(2 + inner.len()) + masked(rest))[i] by {
                if i < n {
                    assert(!in_comment(whole, i));
                } else {
                    assert(masked(whole)[n + (i - n)] == spaces(2 + inner.len())[i - n]);
                }
            }
        }
    } else {
        // the newline ends the comment, and code goes on behind it
        let tail = rest.drop_first();
        assert(whole[m] == 0x0a);
        assert(mode_at(whole, m) == Mode::Line);
        assert(mode_at(whole, m + 1) == mode_after(mode_at(whole, m), whole, m));
        assert(mode_at(whole, m + 1) == fresh_code());
        assert(whole.skip(m + 1) =~= tail);
        lemma_masked_behind(whole, m + 1, tail);
        assert(mode_at(rest, 0) == fresh_code());
        assert(mode_at(rest, 1) == mode_after(mode_at(rest, 0), rest, 0));
        assert(mode_at(rest, 1) == fresh_code());
        assert(rest.skip(1) =~= tail);
        lemma_masked_behind(rest, 1, tail);
        let right = code + spaces(2 + inner.len()) + masked(rest);
        assert forall|i: int| 0 <= i < whole.len() implies #[trigger] masked(whole)[i]
            == right[i] by {
            if i < n {
                assert(!in_comment(whole, i));
            } else if i < m {
                assert(masked(whole)[n + (i - n)] == spaces(2 + inner.len())[i - n]);
            } else if i == m {
                assert(whole[i] == 0x0a);
                assert(masked(rest)[0] == 0x0a);
            } else {
                assert(masked(whole).skip(m + 1)[i - m - 1] == masked(tail)[i - m - 1]);
                assert(masked(rest).skip(1)[i - m - 1] == masked(tail)[i - m - 1]);
            }
        }
        assert(masked(whole) =~= right);
    }
}

proof fn lemma_line_run(bytes: Seq<u8>, a: int, b: int, k: int)
    requires
        0 < a <= k <= b <= bytes.len(),
        mode_at(bytes, a) == Mode::Line,
        forall|j: int| a <= j < b ==> #[trigger] bytes[j] != 0x0a,
    ensures
        mode_at(bytes, k) == Mode::Line,
    decreases k,
{
    if k > a {
        lemma_line_run(bytes, a, b, k - 1);
        assert(bytes[k - 1] != 0x0a);
        assert(mode_at(bytes, k) == mode_after(mode_at(bytes, k - 1), bytes, k - 1));
    }
}

/// What stands in a block comment holds no mark that opens or closes one, up to
/// the mark that follows it.
pub open spec fn no_marks(inner: Seq<u8>, mark: Seq<u8>) -> bool {
    let text = inner + mark;
    forall|k: int|
        0 <= k < inner.len() ==> !((#[trigger] text[k]) == 0x2f && text[k + 1] == 0x2a) && !(text[k]
            == 0x2a && text[k + 1] == 0x2f)
}

proof fn lemma_block_run(bytes: Seq<u8>, a: int, b: int, depth: usize, k: int)
    requires
        0 < a <= k <= b <= bytes.len(),
        mode_at(bytes, a) == Mode::Block(depth),
        forall|j: int|
            a <= j < b ==> !(#[trigger] block_opens(bytes, j)) && !block_closes(bytes, j),
    ensures
        mode_at(bytes, k) == Mode::Block(depth),
    decreases k,
{
    if k > a {
        lemma_block_run(bytes, a, b, depth, k - 1);
        assert(!block_opens(bytes, k - 1));
        assert(mode_at(bytes, k) == mode_after(mode_at(bytes, k - 1), bytes, k - 1));
    }
}

/// A stretch without marks in a text.
proof fn lemma_stretch(bytes: Seq<u8>, a: int, inner: Seq<u8>, mark: Seq<u8>, j: int)
    requires
        mark.len() == 2,
        0 <= a <= j < a + inner.len(),
        a + inner.len() + 2 <= bytes.len(),
        bytes.subrange(a, a + inner.len() + 2) == inner + mark,
        no_marks(inner, mark),
    ensures
        !block_opens(bytes, j),
        !block_closes(bytes, j),
{
    let whole = inner + mark;
    let k = j - a;
    assert(bytes.subrange(a, a + inner.len() + 2)[k] == bytes[j]);
    assert(bytes.subrange(a, a + inner.len() + 2)[k + 1] == bytes[j + 1]);
    assert(whole[k] == bytes[j] && whole[k + 1] == bytes[j + 1]);
    assert(!(whole[k] == 0x2f && whole[k + 1] == 0x2a));
    assert(!(whole[k] == 0x2a && whole[k + 1] == 0x2f));
}

/// A block comment reaches from its `/*` to its `*/`, whatever else stands in
/// between: quotes, slashes, newlines. Its bytes become spaces but for newlines,
/// and what follows is scanned as a text of its own.
pub proof fn law_block_comment(code: Seq<u8>, inner: Seq<u8>, rest: Seq<u8>)
    requires
        plain_code(code),
        no_marks(inner, seq![0x2au8, 0x2fu8]),
    ensures
        masked(code + (seq![0x2fu8, 0x2au8] + inner + seq![0x2au8, 0x2fu8]) + rest) == code
            + blanked(seq![0x2fu8, 0x2au8] + inner + seq![0x2au8, 0x2fu8]) + masked(rest),
{
    let open = seq![0x2fu8, 0x2au8];
    let close = seq![0x2au8, 0x2fu8];
    let piece = open + inner + close;
    let whole = code + piece + rest;
    let n = code.len() as int;
    let a = n + 2;
    let b = a + inner.len();
    assert(whole =~= code + (piece + rest));
    lemma_code_mode(whole, code, piece + rest);
    assert(whole[n] == 0x2f && whole[n + 1] == 0x2a);
    assert(block_opens(whole, n) && !line_opens(whole, n));
    assert(mode_at(whole, n + 1) == mode_after(mode_at(whole, n), whole, n));
    assert(mode_at(whole, n + 1) == Mode::Mark(1));
    assert(mode_at(whole, a) == mode_after(mode_at(whole, n + 1), whole, n + 1));
    assert(mode_at(whole, a) == Mode::Block(1));
    assert(whole.subrange(a, b + 2) =~= inner + close);
    assert forall|j: int| a <= j < b implies !(#[trigger] block_opens(whole, j)) && !block_closes(
        whole,
        j,
    ) by {
        lemma_stretch(whole, a, inner, close, j);
    }
    assert forall|k: int| a <= k <= b implies mode_at(whole, k) == Mode::Block(1) by {
        lemma_block_run(whole, a, b, 1, k);
    }
    assert(whole[b] == 0x2a && whole[b + 1] == 0x2f);
    assert(block_closes(whole, b) && !block_opens(whole, b));
    assert(mode_at(whole, b) == Mode::Block(1));
    assert(mode_at(whole, b + 1) == mode_after(mode_at(whole, b), whole, b));
    assert(mode_at(whole, b + 1) == Mode::Mark(0));
    assert(mode_at(whole, b + 2) == mode_after(mode_at(whole, b + 1), whole, b + 1));
    assert(mode_at(whole, b + 2) == fresh_code());
    assert forall|k: int| 0 <= k < piece.len() implies #[trigger] masked(whole)[n + k] == blanked(
        piece,
    )[k] by {
        assert(whole[n + k] == piece[k]);
        if a <= n + k && n + k <= b {
            assert(mode_at(whole, n + k) == Mode::Block(1));
        }
        assert(in_comment(whole, n + k));
    }
    lemma_masked_parts(whole, code, piece, blanked(piece), rest);
}

/// A block comment that is not closed reaches to the end.
pub proof fn law_open_comment(code: Seq<u8>, inner: Seq<u8>)
    requires
        plain_code(code),
        forall|k: int|
            0 <= k < inner.len() - 1 ==> !((#[trigger] inner[k]) == 0x2f && inner[k + 1] == 0x2a)
                && !(inner[k] == 0x2a && inner[k + 1] == 0x2f),
    ensures
        masked(code + (seq![0x2fu8, 0x2au8] + inner)) == code + blanked(
            seq![0x2fu8, 0x2au8] + inner,
        ),
{
    let piece = seq![0x2fu8, 0x2au8] + inner;
    let whole = code + piece;
    let n = code.len() as int;
    let a = n + 2;
    let b = a + inner.len();
    lemma_code_mode(whole, code, piece);
    assert(whole[n] == 0x2f && whole[n + 1] == 0x2a);
    assert(block_opens(whole, n) && !line_opens(whole, n));
    assert(mode_at(whole, n + 1) == mode_after(mode_at(whole, n), whole, n));
    assert(mode_at(whole, a) == mode_after(mode_at(whole, n + 1), whole, n + 1));
    assert(mode_at(whole, a) == Mode::Block(1));
    assert forall|j: int| a <= j < b implies !(#[trigger] block_opens(whole, j)) && !block_closes(
        whole,
        j,
    ) by {
        assert(whole[j] == inner[j - a]);
        if j + 1 < b {
            assert(whole[j + 1] == inner[j - a + 1]);
            assert(!(inner[j - a] == 0x2f && inner[j - a + 1] == 0x2a));
        }
    }
    let right = code + blanked(piece);
    assert forall|i: int| 0 <= i < whole.len() implies #[trigger] masked(whole)[i] == right[i] by {
        if i < n {
            assert(!in_comment(whole, i));
            assert(whole[i] == code[i]);
        } else {
            assert(whole[i] == piece[i - n]);
            if i >= a {
                lemma_block_run(whole, a, b, 1, i);
            }
            assert(in_comment(whole, i));
        }
    }
    assert(masked(whole) =~= right);
}

/// Block comments nest: the comment ends at the `*/` that balances its `/*`.
#[verifier::rlimit(40)]
pub proof fn law_nested_comment(
    code: Seq<u8>,
    first: Seq<u8>,
    inner: Seq<u8>,
    last: Seq<u8>,
    rest: Seq<u8>,
)
    requires
        plain_code(code),
        no_marks(first, seq![0x2fu8, 0x2au8]),
        no_marks(inner, seq![0x2au8, 0x2fu8]),
        no_marks(last, seq![0x2au8, 0x2fu8]),
    ensures
        ({
            let open = seq![0x2fu8, 0x2au8];
            let close = seq![0x2au8, 0x2fu8];
            let piece = open + first + open + inner + close + last + close;
            masked(code + piece + rest) == code + blanked(piece) + masked(rest)
        }),
{
    let open = seq![0x2fu8, 0x2au8];
    let close = seq![0x2au8, 0x2fu8];
    let piece = open + first + open + inner + close + last + close;
    let whole = code + piece + rest;
    let n = code.len() as int;
    let a = n + 2;
    let b = a + first.len();
    let c = b + 2;
    let d = c + inner.len();
    let e = d + 2;
    let f = e + last.len();
    assert(whole =~= code + (piece + rest));
    lemma_code_mode(whole, code, piece + rest);
    assert(whole[n] == 0x2f && whole[n + 1] == 0x2a);
    assert(block_opens(whole, n) && !line_opens(whole, n));
    assert(mode_at(whole, n + 1) == mode_after(mode_at(whole, n), whole, n));
    assert(mode_at(whole, a) == mode_after(mode_at(whole, n + 1), whole, n + 1));
    assert(mode_at(whole, a) == Mode::Block(1));
    assert(whole.subrange(a, b + 2) =~= first + open);
    assert forall|j: int| a <= j < b implies !(#[trigger] block_opens(whole, j)) && !block_closes(
        whole,
        j,
    ) by {
        lemma_stretch(whole, a, first, open, j);
    }
    assert forall|k: int| a <= k <= b implies mode_at(whole, k) == Mode::Block(1) by {
        lemma_block_run(whole, a, b, 1, k);
    }
    assert(whole[b] == 0x2f && whole[b + 1] == 0x2a);
    assert(block_opens(whole, b));
    assert(mode_at(whole, b) == Mode::Block(1));
    assert(mode_at(whole, b + 1) == mode_after(mode_at(whole, b), whole, b));
    assert(mode_at(whole, b + 1) == Mode::Mark(2));
    assert(mode_at(whole, c) == mode_after(mode_at(whole, b + 1), whole, b + 1));
    assert(mode_at(whole, c) == Mode::Block(2));
    assert(whole.subrange(c, d + 2) =~= inner + close);
    assert forall|j: int| c <= j < d implies !(#[trigger] block_opens(whole, j)) && !block_closes(
        whole,
        j,
    ) by {
        lemma_stretch(whole, c, inner, close, j);
    }
    assert forall|k: int| c <= k <= d implies mode_at(whole, k) == Mode::Block(2) by {
        lemma_block_run(whole, c, d, 2, k);
    }
    assert(whole[d] == 0x2a && whole[d + 1] == 0x2f);
    assert(block_closes(whole, d) && !block_opens(whole, d));
    assert(mode_at(whole, d) == Mode::Block(2));
    assert(mode_at(whole, d + 1) == mode_after(mode_at(whole, d), whole, d));
    assert(mode_at(whole, d + 1) == Mode::Mark(1));
    assert(mode_at(whole, e) == mode_after(mode_at(whole, d + 1), whole, d + 1));
    assert(mode_at(whole, e) == Mode::Block(1));
    assert(whole.subrange(e, f + 2) =~= last + close);
    assert forall|j: int| e <= j < f implies !(#[trigger] block_opens(whole, j)) && !block_closes(
        whole,
        j,
    ) by {
        lemma_stretch(whole, e, last, close, j);
    }
    assert forall|k: int| e <= k <= f implies mode_at(whole, k) == Mode::Block(1) by {
        lemma_block_run(whole, e, f, 1, k);
    }
    assert(whole[f] == 0x2a && whole[f + 1] == 0x2f);
    assert(block_closes(whole, f) && !block_opens(whole, f));
    assert(mode_at(whole, f) == Mode::Block(1));
    assert(mode_at(whole, f + 1) == mode_after(mode_at(whole, f), whole, f));
    assert(mode_at(whole, f + 1) == Mode::Mark(0));
    assert(mode_at(whole, f + 2) == mode_after(mode_at(whole, f + 1), whole, f + 1));
    assert(mode_at(whole, f + 2) == fresh_code());
    assert forall|k: int| 0 <= k < piece.len() implies #[trigger] masked(whole)[n + k] == blanked(
        piece,
    )[k] by {
        let i = n + k;
        assert(whole[i] == piece[k]);
        if a <= i && i <= b {
            assert(mode_at(whole, i) == Mode::Block(1));
        } else if c <= i && i <= d {
            assert(mode_at(whole, i) == Mode::Block(2));
        } else if e <= i && i <= f {
            assert(mode_at(whole, i) == Mode::Block(1));
        }
        assert(in_comment(whole, i));
    }
    lemma_masked_parts(whole, code, piece, blanked(piece), rest);
}

/// A literal that begins at `a` and whose last byte is at `e`: code goes on behind
/// it, and nothing of it but its first bytes, which hold neither a slash nor a
/// bracket, is code.
spec fn literal_run(bytes: Seq<u8>, from: Literal, a: int, e: int) -> bool {
    &&& 0 <= a <= e < bytes.len()
    &&& literal_from(from, bytes, a, e + 1) == Literal::Code(Prefix::Word)
    &&& forall|k: int|
        a <= k <= e && #[trigger] literal_from(from, bytes, a, k) is Code ==> bytes[k] != 0x2f
            && bytes[k] != 0x5b && bytes[k] != 0x5d
}

proof fn lemma_literal_kept(whole: Seq<u8>, code: Seq<u8>, piece: Seq<u8>, rest: Seq<u8>)
    requires
        plain_code(code),
        piece.len() > 0,
        parted(rest),
        whole == code + piece + rest,
        literal_run(
            whole,
            literal_from(Literal::Code(Prefix::Nothing), whole, 0, code.len() as int),
            code.len() as int,
            code.len() + piece.len() - 1,
        ),
    ensures
        masked(whole) == code + piece + masked(rest),
        close_of(whole, 0) == close_of(code + spaces(piece.len()) + rest, 0),
{
    let n = code.len() as int;
    let m = n + piece.len();
    let literal = literal_from(Literal::Code(Prefix::Nothing), whole, 0, n);
    assert(whole =~= code + (piece + rest));
    lemma_code_mode(whole, code, piece + rest);
    lemma_plain_modes(whole, n, m, literal);
    assert forall|k: int| 0 <= k < piece.len() implies #[trigger] masked(whole)[n + k]
        == piece[k] by {
        assert(!in_comment(whole, n + k));
        assert(whole[n + k] == piece[k]);
    }
    lemma_masked_parts(whole, code, piece, piece, rest);
    lemma_close_same(whole, code, piece, rest);
}

/// Where a literal is blanked out, the same bracket closes.
proof fn lemma_close_same(whole: Seq<u8>, code: Seq<u8>, piece: Seq<u8>, rest: Seq<u8>)
    requires
        plain_code(code),
        piece.len() > 0,
        parted(rest),
        whole == code + piece + rest,
        literal_run(
            whole,
            literal_from(Literal::Code(Prefix::Nothing), whole, 0, code.len() as int),
            code.len() as int,
            code.len() + piece.len() - 1,
        ),
    ensures
        close_of(whole, 0) == close_of(code + spaces(piece.len()) + rest, 0),
{
    let gap = spaces(piece.len());
    let blank = code + gap + rest;
    let n = code.len() as int;
    let m = n + piece.len();
    let start = Literal::Code(Prefix::Nothing);
    let literal = literal_from(start, whole, 0, n);
    assert(whole =~= code + (piece + rest));
    assert(blank =~= code + (gap + rest));
    lemma_code_mode(whole, code, piece + rest);
    lemma_code_mode(blank, code, gap + rest);
    assert forall|i: int| 0 <= i <= n implies brackets_at(whole, 0, i) == #[trigger] brackets_at(
        blank,
        0,
        i,
    ) by {
        lemma_same_brackets(whole, blank, code, i);
    }
    lemma_same_brackets(whole, blank, code, n);
    // the gap
    assert forall|k: int| n <= k <= m implies (#[trigger] brackets_at(blank, 0, k)).literal is Code
        && brackets_at(blank, 0, k).depth == brackets_at(blank, 0, n).depth by {
        lemma_gap(blank, n, m, k);
    }
    lemma_gap(blank, n, m, m);
    // the literal
    lemma_plain_brackets(whole, 0, 0, n, start);
    assert forall|k: int| n <= k <= m implies (#[trigger] brackets_at(whole, 0, k)).literal
        == literal_from(literal, whole, n, k) && brackets_at(whole, 0, k).depth == brackets_at(
        whole,
        0,
        n,
    ).depth by {
        lemma_plain_brackets(whole, 0, n, k, literal);
    }
    assert(whole.skip(m) =~= rest);
    assert(blank.skip(m) =~= rest);
    let before = brackets_at(whole, 0, m);
    let other = brackets_at(blank, 0, m);
    assert(before.literal == Literal::Code(Prefix::Word));
    assert(other.literal == Literal::Code(Prefix::Nothing));
    assert(before.depth == other.depth);
    assert forall|i: int| m < i <= whole.len() implies brackets_at(whole, 0, i)
        == #[trigger] brackets_at(blank, 0, i) by {
        lemma_tail_brackets(whole, blank, m, rest, i);
    }
    assert forall|i: int| 0 <= i < whole.len() implies closes_at(whole, 0, i)
        == #[trigger] closes_at(blank, 0, i) by {
        if i < n {
            assert(brackets_at(whole, 0, i) == brackets_at(blank, 0, i));
            assert(whole[i] == code[i] && blank[i] == code[i]);
        } else if i < m {
            assert(brackets_at(whole, 0, i).literal == literal_from(literal, whole, n, i));
            assert(blank[i] == 0x20);
        } else {
            assert(whole[i] == rest[i - m] && blank[i] == rest[i - m]);
            if i > m {
                assert(brackets_at(whole, 0, i) == brackets_at(blank, 0, i));
            }
        }
    }
    lemma_same_close(whole, blank, 0);
}

proof fn lemma_same_brackets(a: Seq<u8>, b: Seq<u8>, code: Seq<u8>, i: int)
    requires
        plain_code(code),
        0 <= i <= code.len(),
        code.len() <= a.len(),
        code.len() <= b.len(),
        forall|k: int| 0 <= k < code.len() ==> a[k] == #[trigger] code[k] && b[k] == code[k],
    ensures
        brackets_at(a, 0, i) == brackets_at(b, 0, i),
        brackets_at(a, 0, i).literal is Code,
    decreases i,
{
    if i > 0 {
        lemma_same_brackets(a, b, code, i - 1);
        assert(a[i - 1] == code[i - 1] && b[i - 1] == code[i - 1]);
    }
}

proof fn lemma_gap(bytes: Seq<u8>, n: int, m: int, k: int)
    requires
        0 <= n <= k <= m <= bytes.len(),
        forall|j: int| n <= j < m ==> #[trigger] bytes[j] == 0x20,
        brackets_at(bytes, 0, n).literal is Code,
    ensures
        brackets_at(bytes, 0, k).literal is Code,
        k > n ==> brackets_at(bytes, 0, k).literal == Literal::Code(Prefix::Nothing),
        brackets_at(bytes, 0, k).depth == brackets_at(bytes, 0, n).depth,
    decreases k,
{
    if k > n {
        lemma_gap(bytes, n, m, k - 1);
        assert(bytes[k - 1] == 0x20);
    }
}

proof fn lemma_tail_brackets(whole: Seq<u8>, blank: Seq<u8>, m: int, rest: Seq<u8>, i: int)
    requires
        0 <= m < i <= whole.len(),
        whole.len() == blank.len(),
        whole.skip(m) == rest,
        blank.skip(m) == rest,
        parted(rest),
        brackets_at(whole, 0, m).literal == Literal::Code(Prefix::Word),
        brackets_at(blank, 0, m).literal == Literal::Code(Prefix::Nothing),
        brackets_at(whole, 0, m).depth == brackets_at(blank, 0, m).depth,
    ensures
        brackets_at(whole, 0, i) == brackets_at(blank, 0, i),
    decreases i,
{
    let k = i - 1 - m;
    lemma_ahead(whole, m, rest, k);
    lemma_ahead(blank, m, rest, k);
    if i - 1 > m {
        lemma_tail_brackets(whole, blank, m, rest, i - 1);
    }
    assert(whole[i - 1] == rest[k] && blank[i - 1] == rest[k]);
    let left = brackets_at(whole, 0, i - 1).literal;
    let right = brackets_at(blank, 0, i - 1).literal;
    assert(literal_after(left, whole, m + k) == literal_after(left, rest, k));
    assert(literal_after(right, blank, m + k) == literal_after(right, rest, k));
}

proof fn lemma_same_close(a: Seq<u8>, b: Seq<u8>, i: int)
    requires
        a.len() == b.len(),
        0 <= i,
        forall|k: int| 0 <= k < a.len() ==> closes_at(a, 0, k) == #[trigger] closes_at(b, 0, k),
    ensures
        close_from(a, 0, i) == close_from(b, 0, i),
    decreases a.len() - i,
{
    if i < a.len() {
        assert(closes_at(a, 0, i) == closes_at(b, 0, i));
        lemma_same_close(a, b, i + 1);
    }
}

/// What stands between the quotes of a string: no quote but behind a backslash,
/// which takes the next byte with it.
pub open spec fn string_body(inner: Seq<u8>) -> bool
    decreases inner.len(),
{
    if inner.len() == 0 {
        true
    } else if inner[0] == 0x22 {
        false
    } else if inner[0] == 0x5c {
        inner.len() >= 2 && string_body(inner.skip(2))
    } else {
        string_body(inner.skip(1))
    }
}

proof fn lemma_string_run(bytes: Seq<u8>, from: Literal, a: int, b: int, e: int)
    requires
        0 <= a < b <= e < bytes.len(),
        literal_from(from, bytes, a, b) == Literal::Text,
        string_body(bytes.subrange(b, e)),
        bytes[e] == 0x22,
    ensures
        forall|k: int|
            b <= k <= e ==> {
                let literal = #[trigger] literal_from(from, bytes, a, k);
                literal == Literal::Text || literal == Literal::Escaped
            },
        literal_from(from, bytes, a, e + 1) == Literal::Code(Prefix::Word),
    decreases e - b,
{
    let inner = bytes.subrange(b, e);
    if b < e {
        assert(inner[0] == bytes[b]);
        assert(literal_from(from, bytes, a, b + 1) == literal_after(Literal::Text, bytes, b));
        if inner[0] == 0x5c {
            assert(inner.skip(2) =~= bytes.subrange(b + 2, e));
            assert(literal_from(from, bytes, a, b + 1) == Literal::Escaped);
            assert(literal_from(from, bytes, a, b + 2) == literal_after(
                literal_from(from, bytes, a, b + 1),
                bytes,
                b + 1,
            ));
            lemma_string_run(bytes, from, a, b + 2, e);
        } else {
            assert(inner.skip(1) =~= bytes.subrange(b + 1, e));
            lemma_string_run(bytes, from, a, b + 1, e);
        }
    } else {
        assert(literal_from(from, bytes, a, e + 1) == literal_after(Literal::Text, bytes, e));
    }
}

/// A string is left as it is, whatever comments and brackets seem to stand in it,
/// and ends at its first quote without a backslash.
pub proof fn law_string_is_kept(code: Seq<u8>, inner: Seq<u8>, rest: Seq<u8>)
    requires
        plain_code(code),
        ends_plainly(code),
        string_body(inner),
        parted(rest),
    ensures
        ({
            let piece = seq![0x22u8] + inner + seq![0x22u8];
            &&& masked(code + piece + rest) == code + piece + masked(rest)
            &&& close_of(code + piece + rest, 0) == close_of(
                code + spaces(piece.len()) + rest,
                0,
            )
        }),
{
    let piece = seq![0x22u8] + inner + seq![0x22u8];
    let whole = code + piece + rest;
    let n = code.len() as int;
    let e = n + piece.len() - 1;
    assert(whole =~= code + (piece + rest));
    lemma_code_mode(whole, code, piece + rest);
    let from = literal_from(Literal::Code(Prefix::Nothing), whole, 0, n);
    assert(plain_prefix(from));
    assert(whole[n] == 0x22 && whole[e] == 0x22);
    assert(literal_from(from, whole, n, n) == from);
    assert(literal_from(from, whole, n, n + 1) == literal_after(from, whole, n));
    assert(whole.subrange(n + 1, e) =~= inner);
    lemma_string_run(whole, from, n, n + 1, e);
    assert(literal_run(whole, from, n, e));
    lemma_literal_kept(whole, code, piece, rest);
}

proof fn lemma_open_run(bytes: Seq<u8>, from: Literal, a: int, b: int)
    requires
        0 <= a < b <= bytes.len(),
        literal_from(from, bytes, a, b) == Literal::Text,
        string_body(bytes.skip(b)),
    ensures
        forall|k: int|
            b <= k <= bytes.len() ==> {
                let literal = #[trigger] literal_from(from, bytes, a, k);
                literal == Literal::Text || literal == Literal::Escaped
            },
    decreases bytes.len() - b,
{
    let inner = bytes.skip(b);
    if b < bytes.len() {
        assert(inner[0] == bytes[b]);
        assert(literal_from(from, bytes, a, b + 1) == literal_after(Literal::Text, bytes, b));
        if inner[0] == 0x5c {
            assert(inner.skip(2) =~= bytes.skip(b + 2));
            assert(literal_from(from, bytes, a, b + 1) == Literal::Escaped);
            assert(literal_from(from, bytes, a, b + 2) == literal_after(
                literal_from(from, bytes, a, b + 1),
                bytes,
                b + 1,
            ));
            lemma_open_run(bytes, from, a, b + 2);
        } else {
            assert(inner.skip(1) =~= bytes.skip(b + 1));
            lemma_open_run(bytes, from, a, b + 1);
        }
    }
}

/// A string that is not closed reaches to the end: nothing in it is a comment.
pub proof fn law_open_string(code: Seq<u8>, inner: Seq<u8>)
    requires
        plain_code(code),
        ends_plainly(code),
        string_body(inner),
    ensures
        masked(code + (seq![0x22u8] + inner)) == code + (seq![0x22u8] + inner),
{
    let piece = seq![0x22u8] + inner;
    let whole = code + piece;
    let n = code.len() as int;
    lemma_code_mode(whole, code, piece);
    let from = literal_from(Literal::Code(Prefix::Nothing), whole, 0, n);
    assert(plain_prefix(from));
    assert(whole[n] == 0x22);
    assert(literal_from(from, whole, n, n) == from);
    assert(literal_from(from, whole, n, n + 1) == literal_after(from, whole, n));
    assert(whole.skip(n + 1) =~= inner);
    lemma_open_run(whole, from, n, n + 1);
    lemma_plain_modes(whole, n, whole.len() as int, from);
    assert(masked(whole) =~= whole);
}

/// A quote before a name that no quote ends is that of a lifetime: code goes on
/// behind it.
pub proof fn law_lifetime(code: Seq<u8>, name: Seq<u8>, rest: Seq<u8>)
    requires
        plain_code(code),
        name.len() > 0,
        forall|i: int| 0 <= i < name.len() ==> letter(#[trigger] name[i]),
        parted(rest),
        rest.len() == 0 || rest[0] != 0x27,
    ensures
        ({
            let piece = seq![0x27u8] + name;
            &&& masked(code + piece + rest) == code + piece + masked(rest)
            &&& close_of(code + piece + rest, 0) == close_of(
                code + spaces(piece.len()) + rest,
                0,
            )
        }),
{
    let piece = seq![0x27u8] + name;
    let whole = code + piece + rest;
    let n = code.len() as int;
    let e = n + piece.len() - 1;
    assert(whole =~= code + (piece + rest));
    lemma_code_mode(whole, code, piece + rest);
    let from = literal_from(Literal::Code(Prefix::Nothing), whole, 0, n);
    assert(whole[n] == 0x27 && whole[n + 1] == name[0]);
    assert(letter(name[0]));
    assert(!char_opens(whole, n)) by {
        if n + 2 < whole.len() {
            if name.len() > 1 {
                assert(whole[n + 2] == name[1]);
                assert(letter(name[1]));
            } else {
                assert(whole[n + 2] == rest[0]);
            }
        }
    }
    assert(literal_from(from, whole, n, n) == from);
    assert(literal_from(from, whole, n, n + 1) == literal_after(from, whole, n));
    assert forall|k: int| n < k <= e + 1 implies #[trigger] literal_from(from, whole, n, k)
        == Literal::Code(Prefix::Word) by {
        lemma_word_run(whole, from, n, e + 1, k);
    }
    assert forall|k: int| n <= k <= e && #[trigger] literal_from(from, whole, n, k) is Code implies
        whole[k] != 0x2f && whole[k] != 0x5b && whole[k] != 0x5d by {
        if k > n {
            assert(whole[k] == name[k - n - 1]);
            assert(letter(name[k - n - 1]));
        }
    }
    assert(literal_run(whole, from, n, e));
    lemma_literal_kept(whole, code, piece, rest);
}

proof fn lemma_word_run(bytes: Seq<u8>, from: Literal, a: int, b: int, k: int)
    requires
        0 <= a < k <= b <= bytes.len(),
        literal_from(from, bytes, a, a + 1) == Literal::Code(Prefix::Word),
        forall|j: int| a < j < b ==> letter(#[trigger] bytes[j]),
    ensures
        literal_from(from, bytes, a, k) == Literal::Code(Prefix::Word),
    decreases k,
{
    if k > a + 1 {
        lemma_word_run(bytes, from, a, b, k - 1);
        assert(letter(bytes[k - 1]));
        assert(literal_from(from, bytes, a, k) == literal_after(
            literal_from(from, bytes, a, k - 1),
            bytes,
            k - 1,
        ));
    }
}

/// As many `#`.
pub open spec fn hashes(count: nat) -> Seq<u8> {
    Seq::new(count, |i: int| 0x23u8)
}

/// What stands in a raw string with this many `#`: no quote with as many of them
/// behind it.
pub open spec fn raw_body(inner: Seq<u8>, count: nat) -> bool {
    let text = inner + seq![0x22u8] + hashes(count);
    forall|k: int|
        0 <= k < inner.len() && #[trigger] text[k] == 0x22 ==> exists|m: int|
            0 < m <= count && #[trigger] text[k + m] != 0x23
}

/// Code behind which a new word begins.
pub open spec fn ends_apart(code: Seq<u8>) -> bool {
    code.len() == 0 || (code.last() < 0x80 && !letter(code.last()) && code.last() != 0x23)
}

/// The letters that a raw string begins with.
pub open spec fn raw_lead(lead: Seq<u8>) -> bool {
    lead == seq![0x72u8] || lead == seq![0x62u8, 0x72u8] || lead == seq![0x63u8, 0x72u8]
}

/// Where in a raw string a byte stands: in its text, or behind a quote and some of
/// the `#` that would end it.
spec fn raw_at(bytes: Seq<u8>, literal: Literal, count: usize, b: int, k: int) -> bool {
    match literal {
        Literal::RawText(needed) => needed == count,
        Literal::RawEnd(needed, seen) => {
            &&& needed == count
            &&& seen < count
            &&& b <= k - 1 - seen
            &&& bytes[k - 1 - seen] == 0x22
            &&& forall|j: int| k - seen <= j < k ==> #[trigger] bytes[j] == 0x23
        },
        _ => false,
    }
}

proof fn lemma_raw_inside(bytes: Seq<u8>, from: Literal, a: int, b: int, q: int, count: usize, k: int)
    requires
        0 <= a < b <= k <= q,
        q + count < bytes.len(),
        literal_from(from, bytes, a, b) == Literal::RawText(count),
        forall|i: int|
            b <= i < q && #[trigger] bytes[i] == 0x22 ==> exists|m: int|
                0 < m <= count && #[trigger] bytes[i + m] != 0x23,
    ensures
        raw_at(bytes, literal_from(from, bytes, a, k), count, b, k),
    decreases k,
{
    if k > b {
        lemma_raw_inside(bytes, from, a, b, q, count, k - 1);
        let before = literal_from(from, bytes, a, k - 1);
        let byte = bytes[k - 1];
        assert(literal_from(from, bytes, a, k) == literal_after(before, bytes, k - 1));
        if let Literal::RawEnd(needed, seen) = before {
            let quote = k - 2 - seen;
            assert(bytes[quote] == 0x22);
            if byte == 0x23 && seen + 1 >= needed {
                let m = choose|m: int| 0 < m <= count && #[trigger] bytes[quote + m] != 0x23;
                assert(bytes[quote + m] == 0x23);
            }
        } else if byte == 0x22 && count == 0 {
            let m = choose|m: int| 0 < m <= count && #[trigger] bytes[k - 1 + m] != 0x23;
        }
    }
}

proof fn lemma_raw_end(bytes: Seq<u8>, from: Literal, a: int, q: int, count: usize, k: int)
    requires
        0 <= a < q,
        0 < k <= count,
        q + count < bytes.len(),
        literal_from(from, bytes, a, q + 1) == Literal::RawEnd(count, 0),
        forall|j: int| q < j <= q + count ==> #[trigger] bytes[j] == 0x23,
    ensures
        literal_from(from, bytes, a, q + k) == Literal::RawEnd(count, (k - 1) as usize),
    decreases k,
{
    if k > 1 {
        lemma_raw_end(bytes, from, a, q, count, k - 1);
        assert(bytes[q + k - 1] == 0x23);
        assert(literal_from(from, bytes, a, q + k) == literal_after(
            literal_from(from, bytes, a, q + k - 1),
            bytes,
            q + k - 1,
        ));
    }
}

proof fn lemma_raw_begins(bytes: Seq<u8>, a: int, lead: Seq<u8>, count: usize, k: int)
    requires
        0 <= a,
        raw_lead(lead),
        0 <= k <= lead.len() + count,
        a + lead.len() + count <= bytes.len(),
        forall|i: int| 0 <= i < lead.len() ==> bytes[a + i] == #[trigger] lead[i],
        forall|i: int| a + lead.len() <= i < a + lead.len() + count ==> #[trigger] bytes[i] == 0x23,
    ensures
        ({
            let literal = literal_from(Literal::Code(Prefix::Nothing), bytes, a, a + k);
            &&& literal is Code
            &&& k == 1 && lead.len() == 2 ==> literal == Literal::Code(Prefix::Letter)
            &&& k == lead.len() ==> literal == Literal::Code(Prefix::Raw)
            &&& k > lead.len() ==> literal == Literal::Code(
                Prefix::Hashes((k - lead.len()) as usize),
            )
        }),
    decreases k,
{
    if k > 0 {
        lemma_raw_begins(bytes, a, lead, count, k - 1);
        let start = Literal::Code(Prefix::Nothing);
        assert(literal_from(start, bytes, a, a + k) == literal_after(
            literal_from(start, bytes, a, a + k - 1),
            bytes,
            a + k - 1,
        ));
        if k <= lead.len() {
            assert(bytes[a + (k - 1)] == lead[k - 1]);
        } else {
            assert(bytes[a + k - 1] == 0x23);
        }
    }
}

/// A raw string is left as it is, backslashes, comments and brackets included, and
/// ends at its first quote that has as many `#` behind it as stand before it.
pub proof fn law_raw_string_is_kept(
    code: Seq<u8>,
    lead: Seq<u8>,
    count: usize,
    inner: Seq<u8>,
    rest: Seq<u8>,
)
    requires
        plain_code(code),
        ends_apart(code),
        raw_lead(lead),
        raw_body(inner, count as nat),
        parted(rest),
    ensures
        ({
            let piece = lead + hashes(count as nat) + seq![0x22u8] + inner + seq![0x22u8] + hashes(
                count as nat,
            );
            &&& masked(code + piece + rest) == code + piece + masked(rest)
            &&& close_of(code + piece + rest, 0) == close_of(
                code + spaces(piece.len()) + rest,
                0,
            )
        }),
{
    let marks = hashes(count as nat);
    let piece = lead + marks + seq![0x22u8] + inner + seq![0x22u8] + marks;
    let whole = code + piece + rest;
    let a = code.len() as int;
    assert(whole =~= code + (piece + rest));
    lemma_code_mode(whole, code, piece + rest);
    let from = literal_from(Literal::Code(Prefix::Nothing), whole, 0, a);
    assert(from == Literal::Code(Prefix::Nothing)) by {
        if a > 0 {
            assert(whole[a - 1] == code.last());
            assert(literal_from(Literal::Code(Prefix::Nothing), whole, 0, a - 1) is Code);
            assert(code[a - 1] != 0x22 && code[a - 1] != 0x27);
        }
    }
    lemma_raw_stands(whole, code, lead, count, inner, rest);
    lemma_literal_kept(whole, code, piece, rest);
}

#[verifier::rlimit(40)]
proof fn lemma_raw_stands(
    whole: Seq<u8>,
    code: Seq<u8>,
    lead: Seq<u8>,
    count: usize,
    inner: Seq<u8>,
    rest: Seq<u8>,
)
    requires
        raw_lead(lead),
        raw_body(inner, count as nat),
        whole == code + (lead + hashes(count as nat) + seq![0x22u8] + inner + seq![0x22u8] + hashes(
            count as nat,
        )) + rest,
    ensures
        literal_run(
            whole,
            Literal::Code(Prefix::Nothing),
            code.len() as int,
            code.len() + lead.len() + count + 1 + inner.len() + count,
        ),
{
    let from = Literal::Code(Prefix::Nothing);
    let a = code.len() as int;
    let c = a + lead.len() + count;
    let b = c + 1;
    let q = b + inner.len();
    let e = q + count;
    let text = inner + seq![0x22u8] + hashes(count as nat);
    assert forall|i: int| 0 <= i < lead.len() implies whole[a + i] == #[trigger] lead[i] by {}
    assert forall|i: int| a + lead.len() <= i < c implies #[trigger] whole[i] == 0x23 by {}
    assert(whole[c] == 0x22);
    assert(whole[q] == 0x22);
    assert forall|j: int| q < j <= e implies #[trigger] whole[j] == 0x23 by {}
    assert forall|k: int| a <= k <= c implies #[trigger] literal_from(from, whole, a, k) is Code by {
        lemma_raw_begins(whole, a, lead, count, k - a);
    }
    lemma_raw_begins(whole, a, lead, count, c - a);
    assert(literal_from(from, whole, a, b) == literal_after(
        literal_from(from, whole, a, c),
        whole,
        c,
    ));
    assert(literal_from(from, whole, a, b) == Literal::RawText(count));
    assert forall|i: int| b <= i < q && #[trigger] whole[i] == 0x22 implies exists|m: int|
        0 < m <= count && #[trigger] whole[i + m] != 0x23 by {
        assert(whole[i] == text[i - b]);
        let m = choose|m: int| 0 < m <= count && #[trigger] text[i - b + m] != 0x23;
        assert(whole[i + m] == text[i - b + m]);
    }
    assert forall|k: int| b <= k <= q implies !(#[trigger] literal_from(from, whole, a, k)
        is Code) by {
        lemma_raw_inside(whole, from, a, b, q, count, k);
    }
    lemma_raw_inside(whole, from, a, b, q, count, q);
    assert(literal_from(from, whole, a, q + 1) == literal_after(
        literal_from(from, whole, a, q),
        whole,
        q,
    ));
    if count > 0 {
        assert(literal_from(from, whole, a, q + 1) == Literal::RawEnd(count, 0));
        assert forall|k: int| q < k <= e implies !(#[trigger] literal_from(from, whole, a, k)
            is Code) by {
            lemma_raw_end(whole, from, a, q, count, k - q);
        }
        lemma_raw_end(whole, from, a, q, count, count as int);
        assert(whole[e] == 0x23);
        assert(literal_from(from, whole, a, e + 1) == literal_after(
            literal_from(from, whole, a, e),
            whole,
            e,
        ));
    }
    assert forall|k: int| a <= k <= e && #[trigger] literal_from(from, whole, a, k) is Code implies
        whole[k] != 0x2f && whole[k] != 0x5b && whole[k] != 0x5d by {
        assert(k <= c);
        if k < a + lead.len() {
            assert(whole[a + (k - a)] == lead[k - a]);
        }
    }
}

/// A character is left as it is, whatever it is.
pub proof fn law_character_is_kept(code: Seq<u8>, piece: Seq<u8>, rest: Seq<u8>)
    requires
        plain_code(code),
        parted(rest),
        char_end(piece, 0) == Some(piece.len() - 1),
    ensures
        masked(code + piece + rest) == code + piece + masked(rest),
        close_of(code + piece + rest, 0) == close_of(code + spaces(piece.len()) + rest, 0),
{
    let whole = code + piece + rest;
    let n = code.len() as int;
    let e = n + piece.len() - 1;
    assert(whole =~= code + (piece + rest));
    lemma_code_mode(whole, code, piece + rest);
    let from = literal_from(Literal::Code(Prefix::Nothing), whole, 0, n);
    assert(from is Code);
    lemma_char_stands(whole, code, piece, rest, from);
    lemma_literal_kept(whole, code, piece, rest);
}

proof fn lemma_char_stands(
    whole: Seq<u8>,
    code: Seq<u8>,
    piece: Seq<u8>,
    rest: Seq<u8>,
    from: Literal,
)
    requires
        whole == code + piece + rest,
        char_end(piece, 0) == Some(piece.len() - 1),
        from is Code,
    ensures
        literal_run(whole, from, code.len() as int, code.len() + piece.len() - 1),
{
    let n = code.len() as int;
    let e = n + piece.len() - 1;
    assert(whole.len() > e && piece.len() >= 3 && piece[0] == 0x27 && piece[piece.len() - 1]
        == 0x27) by {
        crate::scan::lemma_char_inside(piece, 0);
    }
    assert(whole[n] == piece[0]);
    assert(whole[e] == piece[piece.len() - 1]);
    assert(char_opens(whole, n)) by {
        assert(whole.skip(n) =~= piece + rest);
        lemma_char_kept(piece, rest);
        lemma_ahead(whole, n, piece + rest, 0);
    }
    assert(literal_from(from, whole, n, n) == from);
    assert(literal_from(from, whole, n, n + 1) == literal_after(from, whole, n));
    assert(literal_from(from, whole, n, n + 1) == Literal::Char);
    assert forall|k: int| n < k <= e implies {
        let literal = #[trigger] literal_from(from, whole, n, k);
        literal == Literal::Char || literal == Literal::CharEscaped && k < e
    } by {
        assert forall|j: int| 0 <= j < piece.len() implies whole[n + j] == #[trigger] piece[j] by {}
        crate::scan::lemma_char_inside(piece, 0);
        lemma_char_literals(whole, piece, n, from, k);
    }
    assert(literal_from(from, whole, n, e) == Literal::Char);
    assert(literal_from(from, whole, n, e + 1) == literal_after(
        literal_from(from, whole, n, e),
        whole,
        e,
    ));
}

proof fn lemma_char_literals(whole: Seq<u8>, piece: Seq<u8>, n: int, from: Literal, k: int)
    requires
        0 <= n,
        char_end(piece, 0) == Some(piece.len() - 1),
        n + piece.len() <= whole.len(),
        forall|j: int| 0 <= j < piece.len() ==> whole[n + j] == #[trigger] piece[j],
        literal_from(from, whole, n, n + 1) == Literal::Char,
        n < k < n + piece.len(),
    ensures
        literal_from(from, whole, n, k) == (if piece[1] == 0x5c && k == n + 2 {
            Literal::CharEscaped
        } else {
            Literal::Char
        }),
    decreases k,
{
    crate::scan::lemma_char_inside(piece, 0);
    if k > n + 1 {
        lemma_char_literals(whole, piece, n, from, k - 1);
        assert(whole[n + (k - 1 - n)] == piece[k - 1 - n]);
        assert(literal_from(from, whole, n, k) == literal_after(
            literal_from(from, whole, n, k - 1),
            whole,
            k - 1,
        ));
    }
}

/// A character stays one whatever follows it.
proof fn lemma_char_kept(piece: Seq<u8>, rest: Seq<u8>)
    requires
        char_end(piece, 0) == Some(piece.len() - 1),
    ensures
        char_end(piece + rest, 0) == Some(piece.len() - 1),
{
    let whole = piece + rest;
    crate::scan::lemma_char_inside(piece, 0);
    assert forall|j: int| 0 <= j < piece.len() implies whole[j] == #[trigger] piece[j] by {}
    assert(whole[0] == piece[0] && whole[1] == piece[1] && whole[2] == piece[2]);
    let e = piece.len() - 1;
    assert(whole[e] == piece[e]);
    if e >= 3 {
        assert(whole[3] == piece[3]);
    }
    if e >= 4 {
        assert(whole[4] == piece[4]);
    }
    if e >= 5 {
        assert(whole[5] == piece[5]);
    }
    if piece[1] == 0x5c && e > 3 && piece[2] == 0x75 {
        crate::literals::lemma_scalar_end(piece, 4);
        lemma_scalar_longer(piece, rest, 4);
    }
}

proof fn lemma_scalar_longer(a: Seq<u8>, rest: Seq<u8>, i: int)
    requires
        0 <= i <= a.len(),
        scalar_end(a, i) < a.len(),
    ensures
        scalar_end(a + rest, i) == scalar_end(a, i),
    decreases a.len() - i,
{
    crate::literals::lemma_scalar_end(a, i);
    assert((a + rest)[i] == a[i]);
    if scalar_byte(a[i]) {
        lemma_scalar_longer(a, rest, i + 1);
    }
}

/// What a character is: one byte of ASCII between quotes that is no quote, no
/// backslash and no newline, or an escape of one byte, of two digits, or of a
/// number in braces. A quote, a letter and no quote behind it are no character.
pub proof fn law_what_a_character_is(c: u8, d: u8, digits: Seq<u8>, rest: Seq<u8>)
    requires
        forall|i: int|
            0 <= i < digits.len() ==> sixteenth(#[trigger] digits[i]) || digits[i] == 0x5f,
    ensures
        c < 0x80 && c != 0x27 && c != 0x5c && c != 0x0a ==> char_end(
            seq![0x27u8, c, 0x27u8] + rest,
            0,
        ) == Some(2int),
        c != 0x0a ==> char_end(seq![0x27u8, 0x5cu8, c, 0x27u8] + rest, 0) == Some(3int),
        sixteenth(c) && sixteenth(d) ==> char_end(
            seq![0x27u8, 0x5cu8, 0x78u8, c, d, 0x27u8] + rest,
            0,
        ) == Some(5int),
        char_end(
            seq![0x27u8, 0x5cu8, 0x75u8, 0x7bu8] + digits + seq![0x7du8, 0x27u8] + rest,
            0,
        ) == Some((digits.len() + 5) as int),
        c < 0x80 && c != 0x5c && (rest.len() == 0 || rest[0] != 0x27) ==> char_end(
            seq![0x27u8, c] + rest,
            0,
        ) is None,
{
    let braces = seq![0x27u8, 0x5cu8, 0x75u8, 0x7bu8] + digits + seq![0x7du8, 0x27u8] + rest;
    assert(braces[0] == 0x27 && braces[1] == 0x5c && braces[2] == 0x75 && braces[3] == 0x7b);
    assert forall|k: int| 0 <= k < digits.len() implies braces[4 + k] == #[trigger] digits[k] by {}
    assert(braces[4 + digits.len() as int] == 0x7d);
    assert(braces[5 + digits.len() as int] == 0x27);
    assert(scalar_end(braces, 4) == 4 + digits.len()) by {
        lemma_scalar_upto(braces, 4, 4 + digits.len() as int);
    }
    let one = seq![0x27u8, c, 0x27u8] + rest;
    assert(one[0] == 0x27 && one[1] == c && one[2] == 0x27);
    let escape = seq![0x27u8, 0x5cu8, c, 0x27u8] + rest;
    assert(escape[0] == 0x27 && escape[1] == 0x5c && escape[2] == c && escape[3] == 0x27);
    let hex = seq![0x27u8, 0x5cu8, 0x78u8, c, d, 0x27u8] + rest;
    assert(hex[0] == 0x27 && hex[1] == 0x5c && hex[2] == 0x78 && hex[3] == c && hex[4] == d
        && hex[5] == 0x27);
    let life = seq![0x27u8, c] + rest;
    assert(life[0] == 0x27 && life[1] == c);
    if rest.len() > 0 {
        assert(life[2] == rest[0]);
    }
}

/// A byte of a character of several bytes that is not its first.
pub open spec fn follows(byte: u8) -> bool {
    0x80 <= byte <= 0xbf
}

/// A character of two, three or four bytes between quotes is a character.
pub proof fn law_wide_characters(first: u8, b: u8, c: u8, d: u8, rest: Seq<u8>)
    requires
        follows(b),
        follows(c),
        follows(d),
    ensures
        0xc0 <= first <= 0xdf ==> char_end(seq![0x27u8, first, b, 0x27u8] + rest, 0) == Some(3int),
        0xe0 <= first <= 0xef ==> char_end(seq![0x27u8, first, b, c, 0x27u8] + rest, 0) == Some(
            4int,
        ),
        0xf0 <= first <= 0xf7 ==> char_end(seq![0x27u8, first, b, c, d, 0x27u8] + rest, 0) == Some(
            5int,
        ),
{
    let two = seq![0x27u8, first, b, 0x27u8] + rest;
    assert(two[0] == 0x27 && two[1] == first && two[2] == b && two[3] == 0x27);
    let three = seq![0x27u8, first, b, c, 0x27u8] + rest;
    assert(three[0] == 0x27 && three[1] == first && three[2] == b && three[3] == c && three[4]
        == 0x27);
    let four = seq![0x27u8, first, b, c, d, 0x27u8] + rest;
    assert(four[0] == 0x27 && four[1] == first && four[2] == b && four[3] == c && four[4] == d
        && four[5] == 0x27);
}

proof fn lemma_scalar_upto(bytes: Seq<u8>, i: int, end: int)
    requires
        0 <= i <= end < bytes.len(),
        forall|k: int| i <= k < end ==> scalar_byte(#[trigger] bytes[k]),
        !scalar_byte(bytes[end]),
    ensures
        scalar_end(bytes, i) == end,
    decreases end - i,
{
    if i < end {
        assert(scalar_byte(bytes[i]));
        lemma_scalar_upto(bytes, i + 1, end);
    }
}

/// Where a list stands does not matter: the bracket that closes it is the one that
/// closes it in a text of its own.
pub proof fn law_list_stands_anywhere(front: Seq<u8>, list: Seq<u8>)
    ensures
        close_of(front + list, front.len() as int) == match close_of(list, 0) {
            Some(end) => Some(front.len() + end),
            None => None,
        },
{
    lemma_close_behind(front, list, 0);
}

proof fn lemma_brackets_behind(front: Seq<u8>, list: Seq<u8>, k: int)
    requires
        0 <= k <= list.len(),
    ensures
        brackets_at(front + list, front.len() as int, front.len() + k) == brackets_at(list, 0, k),
    decreases k,
{
    if k > 0 {
        let whole = front + list;
        lemma_brackets_behind(front, list, k - 1);
        assert(whole.skip(front.len() as int) =~= list);
        lemma_ahead(whole, front.len() as int, list, k - 1);
    }
}

proof fn lemma_close_behind(front: Seq<u8>, list: Seq<u8>, k: int)
    requires
        0 <= k <= list.len(),
    ensures
        close_from(front + list, front.len() as int, front.len() + k) == match close_from(
            list,
            0,
            k,
        ) {
            Some(end) => Some(front.len() + end),
            None => None,
        },
    decreases list.len() - k,
{
    let whole = front + list;
    if k < list.len() {
        lemma_brackets_behind(front, list, k);
        assert(whole[front.len() + k] == list[k]);
        assert(closes_at(whole, front.len() as int, front.len() + k) == closes_at(list, 0, k));
        lemma_close_behind(front, list, k + 1);
    }
}

} // verus!
