//! Strings as sequences of characters and as UTF-8 bytes: the small operations
//! that the rest of the library is written in.
use vstd::prelude::*;
use vstd::string::*;
use vstd::utf8::*;

verus! {

/// The characters of each string of a list.
pub open spec fn strings(list: Seq<String>) -> Seq<Seq<char>> {
    list.map_values(|s: String| s@)
}

/// The characters of an optional string.
pub open spec fn text_of(value: Option<String>) -> Option<Seq<char>> {
    match value {
        Some(text) => Some(text@),
        None => None,
    }
}

/// The UTF-8 encoding of a concatenation is the concatenation of the encodings.
pub proof fn lemma_encode_concat(a: Seq<char>, b: Seq<char>)
    ensures
        encode_utf8(a + b) == encode_utf8(a) + encode_utf8(b),
    decreases a.len(),
{
    if a.len() == 0 {
        assert(a + b =~= b);
        assert(encode_utf8(a) + encode_utf8(b) =~= encode_utf8(b));
    } else {
        lemma_encode_concat(a.drop_first(), b);
        assert((a + b).drop_first() =~= a.drop_first() + b);
        assert(encode_utf8(a + b) =~= encode_utf8(a) + encode_utf8(b));
    }
}

/// Two texts with the same UTF-8 encoding are the same text.
pub proof fn lemma_encode_injective(a: Seq<char>, b: Seq<char>)
    requires
        encode_utf8(a) == encode_utf8(b),
    ensures
        a == b,
{
    encode_utf8_decode_utf8(a);
    encode_utf8_decode_utf8(b);
}

/// The characters of a string, one per item.
pub fn chars_of(s: &str) -> (chars: Vec<char>)
    ensures
        chars@ == s@,
{
    let mut chars: Vec<char> = Vec::new();
    for c in it: s.chars()
        invariant
            it.seq() == s@,
            chars@ == s@.take(it.index() as int),
    {
        chars.push(c);
        assert(chars@ =~= s@.take(it.index() as int + 1));
    }
    assert(chars@ =~= s@);
    chars
}

/// A decimal digit.
pub open spec fn digit(d: nat) -> char {
    (48 + d) as char
}

/// The decimal notation of a number, without leading zeros.
pub open spec fn decimal(n: nat) -> Seq<char>
    decreases n,
{
    if n < 10 {
        seq![digit(n)]
    } else {
        decimal(n / 10).push(digit(n % 10))
    }
}

fn digit_text(d: u64) -> (text: &'static str)
    requires
        d < 10,
    ensures
        text@ == seq![digit(d as nat)],
{
    proof {
        reveal_strlit("0");
        reveal_strlit("1");
        reveal_strlit("2");
        reveal_strlit("3");
        reveal_strlit("4");
        reveal_strlit("5");
        reveal_strlit("6");
        reveal_strlit("7");
        reveal_strlit("8");
        reveal_strlit("9");
    }
    let text: &'static str = if d == 0 {
        "0"
    } else if d == 1 {
        "1"
    } else if d == 2 {
        "2"
    } else if d == 3 {
        "3"
    } else if d == 4 {
        "4"
    } else if d == 5 {
        "5"
    } else if d == 6 {
        "6"
    } else if d == 7 {
        "7"
    } else if d == 8 {
        "8"
    } else {
        "9"
    };
    assert(text@ =~= seq![digit(d as nat)]);
    text
}

/// The decimal notation of `n`.
pub fn decimal_text(n: u64) -> (text: String)
    ensures
        text@ == decimal(n as nat),
    decreases n,
{
    if n < 10 {
        digit_text(n).to_string()
    } else {
        let mut text = decimal_text(n / 10);
        text.append(digit_text(n % 10));
        assert(text@ =~= decimal((n / 10) as nat).push(digit((n % 10) as nat)));
        text
    }
}

/// Byte strings in lexicographic order: `a` comes strictly before `b`.
pub open spec fn bytes_before(a: Seq<u8>, b: Seq<u8>) -> bool
    decreases a.len(),
{
    if b.len() == 0 {
        false
    } else if a.len() == 0 {
        true
    } else if a[0] != b[0] {
        a[0] < b[0]
    } else {
        bytes_before(a.drop_first(), b.drop_first())
    }
}

/// Strings are ordered by the bytes of their UTF-8 encoding.
pub open spec fn text_before(a: Seq<char>, b: Seq<char>) -> bool {
    bytes_before(encode_utf8(a), encode_utf8(b))
}

proof fn lemma_bytes_order(a: Seq<u8>, b: Seq<u8>)
    ensures
        !(bytes_before(a, b) && bytes_before(b, a)),
        !bytes_before(a, b) && !bytes_before(b, a) ==> a == b,
    decreases a.len(),
{
    if a.len() > 0 && b.len() > 0 && a[0] == b[0] {
        lemma_bytes_order(a.drop_first(), b.drop_first());
        if !bytes_before(a, b) && !bytes_before(b, a) {
            assert(a =~= seq![a[0]] + a.drop_first());
            assert(b =~= seq![b[0]] + b.drop_first());
        }
    } else if a.len() == 0 && b.len() == 0 {
        assert(a =~= b);
    }
}

/// The order of strings is strict and total: of two different strings exactly
/// one comes before the other, and no string comes before itself.
pub proof fn law_text_order(a: Seq<char>, b: Seq<char>)
    ensures
        a != b ==> text_before(a, b) != text_before(b, a),
        !text_before(a, a),
{
    lemma_bytes_order(encode_utf8(a), encode_utf8(b));
    lemma_bytes_order(encode_utf8(a), encode_utf8(a));
    if a != b && !text_before(a, b) && !text_before(b, a) {
        lemma_encode_injective(a, b);
    }
}

/// Whether `a` comes strictly before `b`.
pub fn comes_before(a: &str, b: &str) -> (before: bool)
    ensures
        before == text_before(a@, b@),
{
    let left = a.as_bytes();
    let right = b.as_bytes();
    let mut i: usize = 0;
    assert(left@.skip(0) =~= left@);
    assert(right@.skip(0) =~= right@);
    while i < left.len() && i < right.len() && left[i] == right[i]
        invariant
            i <= left@.len(),
            i <= right@.len(),
            bytes_before(left@, right@) == bytes_before(left@.skip(i as int), right@.skip(i as int)),
        decreases left@.len() - i,
    {
        assert(left@.skip(i as int).drop_first() =~= left@.skip(i + 1));
        assert(right@.skip(i as int).drop_first() =~= right@.skip(i + 1));
        i += 1;
    }
    if i >= right.len() {
        false
    } else if i >= left.len() {
        true
    } else {
        left[i] < right[i]
    }
}

/// Whether two strings are equal.
pub fn same_text(a: &str, b: &str) -> (same: bool)
    ensures
        same == (a@ == b@),
{
    let left = a.as_bytes();
    let right = b.as_bytes();
    if left.len() != right.len() {
        return false;
    }
    let mut i: usize = 0;
    while i < left.len()
        invariant
            left@.len() == right@.len(),
            left@ == a.spec_bytes(),
            right@ == b.spec_bytes(),
            i <= left@.len(),
            forall|j: int| 0 <= j < i ==> left@[j] == right@[j],
        decreases left@.len() - i,
    {
        if left[i] != right[i] {
            return false;
        }
        i += 1;
    }
    proof {
        assert(left@ =~= right@);
        lemma_encode_injective(a@, b@);
    }
    true
}

/// Whether a list holds a string.
pub fn has_text(list: &Vec<String>, wanted: &str) -> (found: bool)
    ensures
        found == strings(list@).contains(wanted@),
{
    let mut i: usize = 0;
    while i < list.len()
        invariant
            i <= list@.len(),
            forall|j: int| 0 <= j < i ==> list@[j]@ != wanted@,
        decreases list@.len() - i,
    {
        if same_text(list[i].as_str(), wanted) {
            assert(strings(list@)[i as int] == wanted@);
            return true;
        }
        i += 1;
    }
    assert forall|j: int| 0 <= j < strings(list@).len() implies strings(list@)[j] != wanted@ by {
        assert(list@[j]@ != wanted@);
    }
    false
}

/// The strings of a list with a separator between each two of them.
pub open spec fn joined(parts: Seq<Seq<char>>, separator: Seq<char>) -> Seq<char>
    decreases parts.len(),
{
    if parts.len() == 0 {
        Seq::empty()
    } else if parts.len() == 1 {
        parts[0]
    } else {
        joined(parts.drop_last(), separator) + separator + parts.last()
    }
}

/// Join the strings of a list.
pub fn join_texts(parts: &Vec<String>, separator: &str) -> (text: String)
    ensures
        text@ == joined(strings(parts@), separator@),
{
    let mut text = String::new();
    let mut i: usize = 0;
    let ghost all = strings(parts@);
    while i < parts.len()
        invariant
            i <= parts@.len(),
            all == strings(parts@),
            text@ == joined(all.take(i as int), separator@),
        decreases parts@.len() - i,
    {
        proof {
            assert(all.take(i + 1).drop_last() =~= all.take(i as int));
            assert(all.take(i + 1).last() == parts@[i as int]@);
        }
        if i > 0 {
            text.append(separator);
        }
        text.append(parts[i].as_str());
        assert(text@ =~= joined(all.take(i + 1), separator@));
        i += 1;
    }
    assert(all.take(i as int) =~= all);
    text
}

/// Whether a character is white space, as Unicode's `White_Space` property says.
pub open spec fn is_white(c: char) -> bool {
    let n = c as u32;
    c == ' ' || (9 <= n && n <= 13) || n == 0x85 || n == 0xa0 || n == 0x1680 || (0x2000 <= n && n
        <= 0x200a) || n == 0x2028 || n == 0x2029 || n == 0x202f || n == 0x205f || n == 0x3000
}

/// `char::is_whitespace` tells whether a character has Unicode's `White_Space`
/// property: those that do are the space, the controls from tab to carriage
/// return, the next line, and the spaces and separators beyond ASCII.
pub assume_specification[ char::is_whitespace ](c: char) -> (white: bool)
    ensures
        white == is_white(c),
;

/// The number of characters before the first white space.
pub open spec fn word_length(s: Seq<char>) -> nat
    decreases s.len(),
{
    if s.len() == 0 || is_white(s[0]) {
        0
    } else {
        1 + word_length(s.drop_first())
    }
}

/// The maximal runs of characters that are not white space, in order.
pub open spec fn words(s: Seq<char>) -> Seq<Seq<char>>
    decreases s.len(),
    via words_decreases
{
    if s.len() == 0 {
        Seq::empty()
    } else if is_white(s[0]) {
        words(s.drop_first())
    } else {
        let n = word_length(s) as int;
        seq![s.take(n)] + words(s.skip(n))
    }
}

#[via_fn]
proof fn words_decreases(s: Seq<char>) {
    lemma_word_length(s);
}

/// The word length counts characters of `s`, all of which are not white space
/// and the next of which, if there is one, is.
pub proof fn lemma_word_length(s: Seq<char>)
    ensures
        word_length(s) <= s.len(),
        s.len() > 0 && !is_white(s[0]) ==> word_length(s) > 0,
        forall|i: int| 0 <= i < word_length(s) ==> !is_white(#[trigger] s[i]),
        word_length(s) < s.len() ==> is_white(s[word_length(s) as int]),
    decreases s.len(),
{
    if s.len() > 0 && !is_white(s[0]) {
        let rest = s.drop_first();
        lemma_word_length(rest);
        assert forall|i: int| 0 <= i < word_length(s) implies !is_white(#[trigger] s[i]) by {
            if i > 0 {
                assert(rest[i - 1] == s[i]);
            }
        }
    }
}

proof fn lemma_word_length_is(s: Seq<char>, n: nat)
    requires
        n <= s.len(),
        forall|i: int| 0 <= i < n ==> !is_white(#[trigger] s[i]),
        n < s.len() ==> is_white(s[n as int]),
    ensures
        word_length(s) == n,
    decreases n,
{
    if n > 0 {
        let rest = s.drop_first();
        assert forall|i: int| 0 <= i < n - 1 implies !is_white(#[trigger] rest[i]) by {
            assert(rest[i] == s[i + 1]);
        }
        assert(!is_white(s[0]));
        lemma_word_length_is(rest, (n - 1) as nat);
    }
}

/// Split a text at its white space.
pub fn split_words(text: &str) -> (parts: Vec<String>)
    ensures
        strings(parts@) == words(text@),
{
    let chars = chars_of(text);
    let mut parts: Vec<String> = Vec::new();
    let mut i: usize = 0;
    let ghost all = text@;
    assert(all.skip(0) =~= all);
    while i < chars.len()
        invariant
            i <= chars@.len(),
            chars@ == text@,
            all == text@,
            words(all) == strings(parts@) + words(all.skip(i as int)),
        decreases chars@.len() - i,
    {
        if chars[i].is_whitespace() {
            assert(all.skip(i as int).drop_first() =~= all.skip(i + 1));
            i += 1;
        } else {
            let start = i;
            while i < chars.len() && !chars[i].is_whitespace()
                invariant
                    start <= i <= chars@.len(),
                    chars@ == text@,
                    all == text@,
                    forall|j: int| start <= j < i ==> !is_white(#[trigger] chars@[j]),
                decreases chars@.len() - i,
            {
                i += 1;
            }
            let part = text.substring_char(start, i).to_string();
            proof {
                let rest = all.skip(start as int);
                let n = (i - start) as nat;
                assert forall|j: int| 0 <= j < n implies !is_white(#[trigger] rest[j]) by {
                    assert(rest[j] == chars@[start + j]);
                }
                lemma_word_length_is(rest, n);
                assert(rest.take(n as int) =~= all.subrange(start as int, i as int));
                assert(rest.skip(n as int) =~= all.skip(i as int));
                assert(!is_white(rest[0]));
                assert(words(rest) == seq![rest.take(n as int)] + words(rest.skip(n as int)));
            }
            let ghost before = parts@;
            parts.push(part);
            assert(strings(parts@) =~= strings(before) + seq![part@]);
            assert(strings(parts@) + words(all.skip(i as int)) =~= strings(before) + words(all.skip(start as int)));
        }
    }
    assert(all.skip(i as int) =~= Seq::empty());
    assert(strings(parts@) + words(all.skip(i as int)) =~= strings(parts@));
    parts
}

/// The number of leading characters that are white space.
pub open spec fn white_prefix(s: Seq<char>) -> nat
    decreases s.len(),
{
    if s.len() == 0 || !is_white(s[0]) {
        0
    } else {
        1 + white_prefix(s.drop_first())
    }
}

/// A text without the white space at its end.
pub open spec fn trimmed_end(s: Seq<char>) -> Seq<char>
    decreases s.len(),
{
    if s.len() == 0 || !is_white(s.last()) {
        s
    } else {
        trimmed_end(s.drop_last())
    }
}

/// A text without the white space at its ends.
pub open spec fn trimmed(s: Seq<char>) -> Seq<char> {
    trimmed_end(s.skip(white_prefix(s) as int))
}

/// Remove the white space at both ends of a text.
pub fn trim_text(text: &str) -> (inner: String)
    ensures
        inner@ == trimmed(text@),
{
    let chars = chars_of(text);
    let mut start: usize = 0;
    assert(text@.skip(0) =~= text@);
    while start < chars.len() && chars[start].is_whitespace()
        invariant
            start <= chars@.len(),
            chars@ == text@,
            white_prefix(text@) == start + white_prefix(text@.skip(start as int)),
        decreases chars@.len() - start,
    {
        assert(text@.skip(start as int).drop_first() =~= text@.skip(start + 1));
        start += 1;
    }
    assert(white_prefix(text@.skip(start as int)) == 0);
    let mut end: usize = chars.len();
    assert(text@.subrange(start as int, end as int) =~= text@.skip(start as int));
    while start < end && chars[end - 1].is_whitespace()
        invariant
            start <= end <= chars@.len(),
            chars@ == text@,
            trimmed_end(text@.skip(start as int)) == trimmed_end(text@.subrange(start as int, end as int)),
        decreases end,
    {
        assert(text@.subrange(start as int, end as int).drop_last() =~= text@.subrange(
            start as int,
            end - 1,
        ));
        end -= 1;
    }
    text.substring_char(start, end).to_string()
}

/// The position of the first occurrence of a character, or the length.
pub open spec fn first_position(s: Seq<char>, wanted: char) -> nat
    decreases s.len(),
{
    if s.len() == 0 || s[0] == wanted {
        0
    } else {
        1 + first_position(s.drop_first(), wanted)
    }
}

/// A first occurrence stands within the text.
pub proof fn lemma_position_within(s: Seq<char>, wanted: char)
    ensures
        first_position(s, wanted) <= s.len(),
    decreases s.len(),
{
    if s.len() > 0 && s[0] != wanted {
        lemma_position_within(s.drop_first(), wanted);
    }
}

/// Before a first occurrence the character does not occur, and at it it does.
pub proof fn lemma_position_is_first(s: Seq<char>, wanted: char)
    ensures
        forall|i: int| 0 <= i < first_position(s, wanted) ==> #[trigger] s[i] != wanted,
        first_position(s, wanted) < s.len() ==> s[first_position(s, wanted) as int] == wanted,
    decreases s.len(),
{
    if s.len() > 0 && s[0] != wanted {
        let rest = s.drop_first();
        lemma_position_is_first(rest, wanted);
        lemma_position_within(rest, wanted);
        assert forall|i: int| 0 <= i < first_position(s, wanted) implies #[trigger] s[i] != wanted by {
            if i > 0 {
                assert(rest[i - 1] == s[i]);
            }
        }
    }
}

/// One text begins with another.
pub open spec fn starts_with(text: Seq<char>, front: Seq<char>) -> bool {
    text.len() >= front.len() && text.take(front.len() as int) == front
}

/// The position of the last occurrence of a character, or minus one.
pub open spec fn last_position(s: Seq<char>, wanted: char) -> int
    decreases s.len(),
{
    if s.len() == 0 {
        -1
    } else if s.last() == wanted {
        s.len() - 1
    } else {
        last_position(s.drop_last(), wanted)
    }
}

/// The first occurrence of a character stands behind a text that does not hold
/// it.
pub proof fn lemma_first_position(front: Seq<char>, wanted: char, back: Seq<char>)
    requires
        !front.contains(wanted),
    ensures
        first_position(front + seq![wanted] + back, wanted) == front.len(),
    decreases front.len(),
{
    let whole = front + seq![wanted] + back;
    if front.len() == 0 {
        assert(whole[0] == wanted);
    } else {
        let rest = front.drop_first();
        assert(front.contains(front[0]));
        assert(whole[0] == front[0]);
        assert(whole.drop_first() =~= rest + seq![wanted] + back);
        assert forall|i: int| 0 <= i < rest.len() implies rest[i] != wanted by {
            assert(front.contains(front[i + 1]));
        }
        lemma_first_position(rest, wanted, back);
    }
}

/// A text that does not hold a character has no first occurrence of it.
pub proof fn lemma_no_position(s: Seq<char>, wanted: char)
    requires
        !s.contains(wanted),
    ensures
        first_position(s, wanted) == s.len(),
    decreases s.len(),
{
    if s.len() > 0 {
        let rest = s.drop_first();
        assert(s.contains(s[0]));
        assert forall|i: int| 0 <= i < rest.len() implies rest[i] != wanted by {
            assert(s.contains(s[i + 1]));
        }
        lemma_no_position(rest, wanted);
    }
}

/// What stands before and after the first occurrence of a character, or
/// nothing where it does not occur.
pub open spec fn split_once_at(s: Seq<char>, wanted: char) -> Option<(Seq<char>, Seq<char>)> {
    let n = first_position(s, wanted) as int;
    if n < s.len() {
        Some((s.take(n), s.skip(n + 1)))
    } else {
        None
    }
}

/// Split a text at the first occurrence of a character.
pub fn split_once_text(text: &str, wanted: char) -> (split: Option<(String, String)>)
    ensures
        match split {
            Some(pair) => split_once_at(text@, wanted) == Some((pair.0@, pair.1@)),
            None => split_once_at(text@, wanted) is None,
        },
{
    let chars = chars_of(text);
    let mut i: usize = 0;
    assert(text@.skip(0) =~= text@);
    while i < chars.len() && chars[i] != wanted
        invariant
            i <= chars@.len(),
            chars@ == text@,
            first_position(text@, wanted) == i + first_position(text@.skip(i as int), wanted),
        decreases chars@.len() - i,
    {
        assert(text@.skip(i as int).drop_first() =~= text@.skip(i + 1));
        i += 1;
    }
    if i < chars.len() {
        let head = text.substring_char(0, i).to_string();
        let tail = text.substring_char(i + 1, chars.len()).to_string();
        assert(head@ =~= text@.take(i as int));
        assert(tail@ =~= text@.skip(i + 1));
        Some((head, tail))
    } else {
        None
    }
}

} // verus!
