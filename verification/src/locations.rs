//! How the parts of a path stand in its URL, and what its name and extension are.
use crate::paths::{escaped_byte, extension_in, hex_digit, name_in, percent_encoded, url_parts};
use crate::text::{lemma_first_position, lemma_no_position};
use crate::wording::law_last_position;
use vstd::prelude::*;
use vstd::string::*;
use vstd::utf8::*;

verus! {

/// The number that a digit to the base sixteen stands for.
pub open spec fn sixteen(digit: char) -> int {
    if digit <= '9' {
        digit as u32 - 48
    } else {
        digit as u32 - 55
    }
}

/// The bytes that a part of a URL stands for: of a percent sign and two digits, the
/// byte of that number, and of any other character its own.
pub open spec fn decoded(text: Seq<char>) -> Seq<u8>
    decreases text.len(),
{
    if text.len() == 0 {
        Seq::empty()
    } else if text[0] == '%' && text.len() >= 3 {
        seq![(sixteen(text[1]) * 16 + sixteen(text[2])) as u8] + decoded(text.skip(3))
    } else {
        seq![text[0] as u8] + decoded(text.drop_first())
    }
}

proof fn lemma_digit(n: u8)
    requires
        n < 16,
    ensures
        sixteen(hex_digit(n)) == n,
        '0' <= hex_digit(n) <= '9' || 'A' <= hex_digit(n) <= 'F',
{
}

/// A part of a URL stands for the bytes that it was made from, and holds nothing that
/// would end it or that a URL cannot hold.
pub proof fn law_percent_encoded(bytes: Seq<u8>)
    ensures
        decoded(percent_encoded(bytes)) == bytes,
        forall|i: int|
            0 <= i < percent_encoded(bytes).len() ==> {
                let c = #[trigger] percent_encoded(bytes)[i];
                &&& '!' <= c <= '~'
                &&& c != '/' && c != '?' && c != '#' && c != '\\' && c != '"' && c != '<' && c != '>'
            },
    decreases bytes.len(),
{
    let text = percent_encoded(bytes);
    if bytes.len() == 0 {
        assert(decoded(text) =~= bytes);
    } else {
        let first = bytes[0];
        let rest = percent_encoded(bytes.drop_first());
        law_percent_encoded(bytes.drop_first());
        if escaped_byte(first) {
            let high = (first / 16) as u8;
            let low = (first % 16) as u8;
            lemma_digit(high);
            lemma_digit(low);
            let lead = seq!['%', hex_digit(high), hex_digit(low)];
            assert(text =~= lead + rest);
            assert(text.skip(3) =~= rest);
            assert(text[0] == '%' && text[1] == lead[1] && text[2] == lead[2]);
            assert(sixteen(text[1]) * 16 + sixteen(text[2]) == first);
            assert forall|i: int| 0 <= i < text.len() implies ({
                let c = #[trigger] text[i];
                &&& '!' <= c <= '~'
                &&& c != '/' && c != '?' && c != '#' && c != '\\' && c != '"' && c != '<' && c != '>'
            }) by {
                if i >= 3 {
                    assert(text[i] == rest[i - 3]);
                }
            }
        } else {
            assert(text =~= seq![first as char] + rest);
            assert(text.drop_first() =~= rest);
            assert((first as char) as u8 == first);
            assert(text[0] != '%');
            assert forall|i: int| 0 <= i < text.len() implies ({
                let c = #[trigger] text[i];
                &&& '!' <= c <= '~'
                &&& c != '/' && c != '?' && c != '#' && c != '\\' && c != '"' && c != '<' && c != '>'
            }) by {
                if i >= 1 {
                    assert(text[i] == rest[i - 1]);
                }
            }
        }
        assert(decoded(text) =~= bytes) by {
            assert(seq![first] + bytes.drop_first() =~= bytes);
        }
    }
}

/// The parts of a path stand in its URL one by one, each behind a slash; a part that
/// is empty or a single dot does not.
pub proof fn law_url_parts(part: Seq<char>, back: Seq<char>)
    requires
        part.len() > 0,
        !part.contains('/'),
        back.len() == 0 || back[0] == '/',
    ensures
        url_parts(Seq::empty()) == Seq::<char>::empty(),
        url_parts(seq!['/'] + back) == url_parts(back),
        part == seq!['.'] ==> url_parts(part + back) == url_parts(back),
        part != seq!['.'] ==> url_parts(part + back) == seq!['/'] + percent_encoded(
            encode_utf8(part),
        ) + url_parts(back),
{
    reveal_strlit(".");
    reveal_strlit("/");
    assert("."@ =~= seq!['.']);
    assert("/"@ =~= seq!['/']);
    let slash = seq!['/'] + back;
    assert(slash[0] == '/');
    assert(slash.drop_first() =~= back);
    let path = part + back;
    assert(part.contains(part[0]));
    assert(path[0] == part[0]);
    let end = part.len() as int;
    if back.len() > 0 {
        assert(path =~= part + seq!['/'] + back.drop_first());
        lemma_first_position(part, '/', back.drop_first());
    } else {
        assert(path =~= part);
        lemma_no_position(part, '/');
    }
    assert(path.take(end) =~= part);
    assert(path.skip(end) =~= back);
}

/// The name of a path is what stands behind its last slash, and its extension what
/// stands behind the last dot of the name, where that is not the first of it.
pub proof fn law_names(
    folders: Seq<char>,
    stem: Seq<char>,
    extension: Seq<char>,
    bare: Seq<char>,
)
    requires
        !stem.contains('/'),
        !extension.contains('/'),
        !extension.contains('.'),
        !bare.contains('.'),
    ensures
        name_in(folders + seq!['/'] + (stem + seq!['.'] + extension)) == stem + seq!['.']
            + extension,
        stem.len() > 0 ==> extension_in(stem + seq!['.'] + extension) == Some(extension),
        extension_in(seq!['.'] + bare) is None,
        extension_in(bare) is None,
{
    let name = stem + seq!['.'] + extension;
    assert forall|i: int| 0 <= i < name.len() implies name[i] != '/' by {
        if i < stem.len() {
            assert(stem.contains(stem[i]));
        } else if i > stem.len() {
            assert(extension.contains(extension[i - stem.len() - 1]));
        }
    }
    law_last_position(folders, '/', name);
    let path = folders + seq!['/'] + name;
    assert(path.skip(folders.len() as int + 1) =~= name);
    law_last_position(stem, '.', extension);
    assert(name.skip(stem.len() as int + 1) =~= extension);
    law_last_position(Seq::empty(), '.', bare);
    assert(Seq::<char>::empty() + seq!['.'] + bare =~= seq!['.'] + bare);
}

} // verus!
