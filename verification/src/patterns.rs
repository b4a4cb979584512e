//! Regular expressions: the patterns of the configuration, and what the
//! messages of the server say.
use crate::text::{
    first_position, last_position, lemma_first_position, lemma_no_position, starts_with, strings,
    white_prefix,
};
use vstd::prelude::*;
use vstd::string::*;
use vstd::utf8::*;

verus! {

/// What is wrong with a pattern; nothing, if it is a regular expression.
pub uninterp spec fn regex_error(pattern: Seq<char>) -> Option<Seq<char>>;

/// The byte ranges of the successive matches of a pattern in a text.
pub uninterp spec fn regex_matches(pattern: Seq<char>, text: Seq<char>) -> Seq<(int, int)>;

/// For each successive match of a pattern in a text, what its first group
/// matched, if that took part in the match.
pub uninterp spec fn regex_groups(pattern: Seq<char>, text: Seq<char>) -> Seq<Option<Seq<char>>>;

/// The pattern that finds the replacement in a canonical suggestion.
pub open spec fn replacement_pattern() -> Seq<char> {
    "can be written as `(.+)`"@
}

/// The pattern that finds a class name in a conflict message.
pub open spec fn quoted_pattern() -> Seq<char> {
    "'([^']+)'"@
}

/// What a text holds in single quotes, one after the other: a quote, what
/// follows it up to the next quote, and that quote. Two quotes in a row hold
/// nothing, and the second may begin anew.
pub open spec fn quoted_parts(text: Seq<char>) -> Seq<Seq<char>>
    decreases text.len(),
{
    let open = first_position(text, '\'') as int;
    if open >= text.len() {
        Seq::empty()
    } else {
        let rest = text.skip(open + 1);
        let close = first_position(rest, '\'') as int;
        if close >= rest.len() {
            Seq::empty()
        } else if close == 0 {
            quoted_parts(rest)
        } else {
            seq![rest.take(close)] + quoted_parts(rest.skip(close + 1))
        }
    }
}

/// The words before the replacement in a canonical suggestion.
pub open spec fn replacement_lead() -> Seq<char> {
    "can be written as `"@
}

/// What a text offers as a replacement: what follows the first such words up to
/// the last backtick of the line, if that is anything.
pub open spec fn replacement_part(text: Seq<char>) -> Option<Seq<char>>
    decreases text.len(),
{
    let rest = text.skip(replacement_lead().len() as int);
    let line = rest.take(first_position(rest, '\n') as int);
    let end = last_position(line, '`');
    if text.len() == 0 {
        None
    } else if starts_with(text, replacement_lead()) && end > 0 {
        Some(line.take(end))
    } else {
        replacement_part(text.drop_first())
    }
}

/// The pattern that finds the opening bracket of a `tw!` block.
pub open spec fn macro_pattern() -> Seq<char> {
    "tw!\\s*\\["@
}

/// Where an opening of a `tw!` block ends that stands at the beginning of a text:
/// behind the bracket that follows the name and any white space.
pub open spec fn macro_end(text: Seq<char>) -> Option<int> {
    let bracket = 3 + white_prefix(text.skip(3)) as int;
    if starts_with(text, "tw!"@) && bracket < text.len() && text[bracket] == '[' {
        Some(bracket + 1)
    } else {
        None
    }
}

/// The byte ranges of the openings of `tw!` blocks in a text that begins at an
/// offset.
pub open spec fn macros_from(text: Seq<char>, offset: int) -> Seq<(int, int)>
    decreases text.len(),
{
    if text.len() == 0 {
        Seq::empty()
    } else {
        match macro_end(text) {
            Some(end) => {
                let behind = offset + encode_utf8(text.take(end)).len();
                seq![(offset, behind)] + macros_from(text.skip(end), behind)
            },
            None => macros_from(text.drop_first(), offset + encode_utf8(text.take(1)).len()),
        }
    }
}

/// The pattern that finds a string.
pub open spec fn string_pattern() -> Seq<char> {
    "\"([^\"]*)\""@
}

/// What a text holds in double quotes, one after the other: a quote, what
/// follows it up to the next quote, and that quote.
pub open spec fn string_parts(text: Seq<char>) -> Seq<Seq<char>>
    decreases text.len(),
{
    let open = first_position(text, '"') as int;
    if open >= text.len() {
        Seq::empty()
    } else {
        let rest = text.skip(open + 1);
        let close = first_position(rest, '"') as int;
        if close >= rest.len() {
            Seq::empty()
        } else {
            seq![rest.take(close)] + string_parts(rest.skip(close + 1))
        }
    }
}

/// A pattern that compiles.
pub open spec fn usable(pattern: Seq<char>) -> bool {
    regex_error(pattern) is None || pattern == replacement_pattern() || pattern == quoted_pattern()
}

/// The characters of each optional string of a list.
pub open spec fn optional_strings(list: Seq<Option<String>>) -> Seq<Option<Seq<char>>> {
    list.map_values(
        |o: Option<String>|
            match o {
                Some(s) => Some(s@),
                None => None,
            },
    )
}

/// The byte ranges of a list, as integers.
pub open spec fn spans(list: Seq<(usize, usize)>) -> Seq<(int, int)> {
    list.map_values(|m: (usize, usize)| (m.0 as int, m.1 as int))
}

/// `regex::Regex::new` fails on a pattern that is no regular expression, or
/// that compiles to one that is too large. Whether it fails, and with which
/// message, depends on the pattern alone; at the limit of size it also rests on
/// how wide a pointer is.
#[verifier::external_body]
pub(crate) fn pattern_error(pattern: &str) -> (error: Option<String>)
    ensures
        match error {
            Some(message) => regex_error(pattern@) == Some(message@),
            None => regex_error(pattern@) is None,
        },
{
    regex::Regex::new(pattern).err().map(|error| error.to_string())
}

/// `regex::Regex::find_iter` yields the successive matches of a pattern, which
/// depend on the pattern and the text alone. The matches lie in the text, do
/// not overlap, come in order, and begin and end at character boundaries; an
/// empty match at the end of the one before is skipped, so that no two end at
/// the same place. For the pattern of a `tw!` block it is stated what it matches:
/// a match begins as far left as it can, and `\s` is Unicode's white space.
#[verifier::external_body]
pub(crate) fn find_all(pattern: &str, text: &str) -> (found: Vec<(usize, usize)>)
    requires
        usable(pattern@),
    ensures
        spans(found@) == regex_matches(pattern@, text@),
        forall|i: int|
            0 <= i < found@.len() ==> (#[trigger] found@[i]).0 <= found@[i].1
                && found@[i].1 <= text.spec_bytes().len() && is_char_boundary(
                text.spec_bytes(),
                found@[i].0 as int,
            ) && is_char_boundary(text.spec_bytes(), found@[i].1 as int),
        forall|i: int, j: int|
            0 <= i < j < found@.len() ==> (#[trigger] found@[i]).1 <= (#[trigger] found@[j]).0
                && found@[i].1 < found@[j].1,
        pattern@ == macro_pattern() ==> spans(found@) == macros_from(text@, 0),
{
    let regex = regex::Regex::new(pattern).unwrap();
    regex.find_iter(text).map(|found| (found.start(), found.end())).collect()
}

/// `regex::Regex::captures_iter` yields the groups of the successive matches of
/// a pattern, which depend on the pattern and the text alone. The first group
/// of each is handed out; a group need not take part in a match. For the two
/// patterns that read the server's messages, and for that of a string, it is
/// stated what they match: a match begins as far left as it can, `[^']+` and
/// `[^"]*` take what is no quote, and `.+` takes as much of a line as it can.
#[verifier::external_body]
pub(crate) fn first_groups(pattern: &str, text: &str) -> (groups: Vec<Option<String>>)
    requires
        usable(pattern@),
    ensures
        optional_strings(groups@) == regex_groups(pattern@, text@),
        pattern@ == quoted_pattern() ==> present(optional_strings(groups@)) == quoted_parts(text@),
        pattern@ == replacement_pattern() ==> first_group(optional_strings(groups@))
            == replacement_part(text@),
        pattern@ == string_pattern() ==> present(optional_strings(groups@)) == string_parts(text@),
{
    let regex = regex::Regex::new(pattern).unwrap();
    regex.captures_iter(text).map(|c| c.get(1).map(|group| group.as_str().to_string())).collect()
}

/// What the groups that took part matched.
pub open spec fn present(groups: Seq<Option<Seq<char>>>) -> Seq<Seq<char>>
    decreases groups.len(),
{
    if groups.len() == 0 {
        Seq::empty()
    } else {
        match groups.last() {
            Some(text) => present(groups.drop_last()).push(text),
            None => present(groups.drop_last()),
        }
    }
}

/// The groups that took part in their match, in order.
pub fn present_groups(groups: &Vec<Option<String>>) -> (texts: Vec<String>)
    ensures
        strings(texts@) == present(optional_strings(groups@)),
{
    let mut texts: Vec<String> = Vec::new();
    let mut i: usize = 0;
    let ghost all = optional_strings(groups@);
    while i < groups.len()
        invariant
            i <= groups@.len(),
            all == optional_strings(groups@),
            strings(texts@) == present(all.take(i as int)),
        decreases groups@.len() - i,
    {
        proof {
            assert(all.take(i + 1).drop_last() =~= all.take(i as int));
            assert(all.take(i + 1).last() == all[i as int]);
        }
        let ghost before = texts@;
        if let Some(text) = &groups[i] {
            texts.push(text.clone());
            assert(strings(texts@) =~= strings(before).push(text@));
        }
        i += 1;
    }
    assert(all.take(i as int) =~= all);
    texts
}

/// What the first match's group matched.
pub open spec fn first_group(groups: Seq<Option<Seq<char>>>) -> Option<Seq<char>> {
    if groups.len() == 0 {
        None
    } else {
        groups[0]
    }
}

/// What the first match's group matched.
pub fn first_of_groups(groups: Vec<Option<String>>) -> (text: Option<String>)
    ensures
        match text {
            Some(s) => first_group(optional_strings(groups@)) == Some(s@),
            None => first_group(optional_strings(groups@)) is None,
        },
{
    if groups.len() == 0 {
        return None;
    }
    assert(optional_strings(groups@)[0] == match groups@[0] {
        Some(s) => Some(s@),
        None => None,
    });
    match &groups[0] {
        Some(s) => Some(s.clone()),
        None => None,
    }
}

/// The replacement text from a canonical-suggestion message
/// (``The class `X` can be written as `Y` `` gives `Y`).
pub fn canonical_replacement(message: &str) -> (replacement: Option<String>)
    ensures
        match replacement {
            Some(text) => replacement_part(message@) == Some(text@),
            None => replacement_part(message@) is None,
        },
{
    first_of_groups(first_groups("can be written as `(.+)`", message))
}

/// The first two of some names.
pub open spec fn first_pair(names: Seq<Seq<char>>) -> Option<(Seq<char>, Seq<char>)> {
    if names.len() < 2 {
        None
    } else {
        Some((names[0], names[1]))
    }
}

pub open spec fn pair_view(pair: Option<(String, String)>) -> Option<(Seq<char>, Seq<char>)> {
    match pair {
        Some(names) => Some((names.0@, names.1@)),
        None => None,
    }
}

/// The first two groups that took part in their match.
pub fn pair_of_groups(groups: Vec<Option<String>>) -> (pair: Option<(String, String)>)
    ensures
        pair_view(pair) == first_pair(present(optional_strings(groups@))),
{
    let names = present_groups(&groups);
    assert(strings(names@).len() == names@.len());
    if names.len() < 2 {
        None
    } else {
        assert(strings(names@)[0] == names@[0]@);
        assert(strings(names@)[1] == names@[1]@);
        Some((names[0].clone(), names[1].clone()))
    }
}

/// The two class names that a conflict message quotes.
pub open spec fn conflict_in(message: Seq<char>) -> Option<(Seq<char>, Seq<char>)> {
    first_pair(quoted_parts(message))
}

/// The two class names in a conflict message
/// (`'A' applies the same CSS properties as 'B'.` gives `("A", "B")`).
pub fn conflict_pair(message: &str) -> (pair: Option<(String, String)>)
    ensures
        pair_view(pair) == conflict_in(message@),
{
    pair_of_groups(first_groups("'([^']+)'", message))
}

/// A message that quotes two names gives these, in their order, whatever stands
/// between and behind them.
pub proof fn law_conflict_message(
    front: Seq<char>,
    a: Seq<char>,
    middle: Seq<char>,
    b: Seq<char>,
    back: Seq<char>,
)
    requires
        !front.contains('\''),
        a.len() > 0 && !a.contains('\''),
        !middle.contains('\''),
        b.len() > 0 && !b.contains('\''),
    ensures
        conflict_in(
            front + seq!['\''] + a + seq!['\''] + middle + seq!['\''] + b + seq!['\''] + back,
        ) == Some((a, b)),
{
    let quote = seq!['\''];
    let second = middle + quote + (b + quote + back);
    let first = front + quote + (a + quote + second);
    assert(front + quote + a + quote + middle + quote + b + quote + back =~= first);
    lemma_quoted_part(middle, b, back);
    lemma_quoted_part(front, a, second);
    let names = quoted_parts(first);
    assert(names == seq![a] + (seq![b] + quoted_parts(back)));
    assert(names[0] == a && names[1] == b);
}

/// What stands in the first quotes comes first.
proof fn lemma_quoted_part(front: Seq<char>, name: Seq<char>, back: Seq<char>)
    requires
        !front.contains('\''),
        name.len() > 0 && !name.contains('\''),
    ensures
        quoted_parts(front + seq!['\''] + (name + seq!['\''] + back)) == seq![name]
            + quoted_parts(back),
{
    let rest = name + seq!['\''] + back;
    let text = front + seq!['\''] + rest;
    lemma_first_position(front, '\'', rest);
    lemma_first_position(name, '\'', back);
    assert(text.skip(front.len() as int + 1) =~= rest);
    assert(rest.take(name.len() as int) =~= name);
    assert(rest.skip(name.len() as int + 1) =~= back);
}

/// A suggestion gives what stands behind its words and before the backtick that
/// ends it.
pub proof fn law_canonical_message(front: Seq<char>, replacement: Seq<char>)
    requires
        replacement.len() > 0 && !replacement.contains('\n'),
        forall|i: int|
            0 <= i < front.len() ==> !starts_with(
                #[trigger] (front + replacement_lead() + replacement + seq!['`']).skip(i),
                replacement_lead(),
            ),
    ensures
        replacement_part(front + replacement_lead() + replacement + seq!['`']) == Some(
            replacement,
        ),
    decreases front.len(),
{
    let lead = replacement_lead();
    let text = front + lead + replacement + seq!['`'];
    if front.len() == 0 {
        let rest = replacement + seq!['`'];
        reveal_strlit("can be written as `");
        assert(text.take(lead.len() as int) =~= lead);
        assert(text.skip(lead.len() as int) =~= rest);
        assert(!rest.contains('\n')) by {
            assert forall|i: int| 0 <= i < rest.len() implies rest[i] != '\n' by {
                if i < replacement.len() {
                    assert(replacement.contains(replacement[i]));
                }
            }
        }
        lemma_no_position(rest, '\n');
        assert(rest.take(rest.len() as int) =~= rest);
        assert(last_position(rest, '`') == replacement.len());
        assert(rest.take(replacement.len() as int) =~= replacement);
    } else {
        let shorter = front.drop_first();
        let next = shorter + lead + replacement + seq!['`'];
        assert(text.drop_first() =~= next);
        assert(text.skip(0) =~= text);
        assert(!starts_with(text.skip(0), lead));
        assert forall|i: int| 0 <= i < shorter.len() implies !starts_with(
            #[trigger] next.skip(i),
            lead,
        ) by {
            assert(text.skip(i + 1) =~= next.skip(i));
        }
        law_canonical_message(shorter, replacement);
    }
}

/// The suggestion that one class can be written as another gives the other,
/// whatever class it speaks of.
pub proof fn law_canonical_suggestion(class: Seq<char>, replacement: Seq<char>)
    requires
        !class.contains(' '),
        replacement.len() > 0 && !replacement.contains('\n'),
    ensures
        replacement_part(
            "The class `"@ + class + "` "@ + replacement_lead() + replacement + seq!['`'],
        ) == Some(replacement),
{
    let head = "The class `"@;
    let lead = replacement_lead();
    let front = head + class + "` "@;
    let text = front + lead + replacement + seq!['`'];
    reveal_strlit("The class `");
    reveal_strlit("` ");
    reveal_strlit("can be written as `");
    assert forall|i: int| 0 <= i < front.len() implies !starts_with(
        #[trigger] text.skip(i),
        lead,
    ) by {
        if starts_with(text.skip(i), lead) {
            let shown = text.skip(i).take(lead.len() as int);
            let end = head.len() + class.len();
            assert(shown[0] == text[i] && shown[1] == text[i + 1]);
            assert(shown[2] == text[i + 2] && shown[3] == text[i + 3]);
            assert(lead[0] == 'c' && lead[1] == 'a' && lead[2] == 'n' && lead[3] == ' ');
            assert(text[end as int] == '`' && text[end as int + 1] == ' ');
            if i < head.len() {
                assert(text[i] == head[i]);
                assert(i == 4);
                assert(text[5] == head[5]);
            } else if i + 3 < end {
                assert(text[i + 3] == class[i + 3 - head.len()]);
                assert(class.contains(class[i + 3 - head.len()]));
            }
        }
    }
    law_canonical_message(front, replacement);
}

} // verus!
