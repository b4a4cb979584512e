//! Where class lists are found in a source, and how they are written into it.
use crate::blocks::{items_at, BlockKey};
use crate::cli::ClassRegexView;
use crate::finding::FindingView;
use crate::fix::{current_text, noted_all, value_column, FixNotes};
use crate::groups::{blocks_in, first_container, line_at, lists_in, source_lists, GroupView};
use crate::layout::{
    blank, class_lines, formatted, indent_at, last_line, law_join_and_split, leading_blanks,
    resolved, unrepeated, value_after, value_edits_last_first, without_repeats, ValueEditView,
};
use crate::palette::PaletteView;
use crate::patterns::{
    macro_end, macros_from, present, quoted_parts, regex_groups, replacement_part, string_parts,
};
use crate::positions::newlines_in;
use crate::scan::{close_of, masked};
use crate::text::{
    first_position, joined, lemma_encode_concat, lemma_first_position, lemma_no_position,
    starts_with, white_prefix, words,
};
use crate::wording::{all_white, law_joined, law_last_position, law_line_of, law_words, solid};
use crate::written::{blanks, macro_name_at, without_macro};
use vstd::prelude::*;
use vstd::string::*;
use vstd::utf8::*;

verus! {

proof fn lemma_position_behind(front: Seq<char>, wanted: char, back: Seq<char>)
    requires
        !front.contains(wanted),
    ensures
        first_position(front + back, wanted) == front.len() + first_position(back, wanted),
    decreases front.len(),
{
    let whole = front + back;
    if front.len() == 0 {
        assert(whole =~= back);
    } else {
        let rest = front.drop_first();
        assert(front.contains(front[0]));
        assert(whole[0] == front[0]);
        assert(whole.drop_first() =~= rest + back);
        assert forall|i: int| 0 <= i < rest.len() implies rest[i] != wanted by {
            assert(front.contains(front[i + 1]));
        }
        lemma_position_behind(rest, wanted, back);
    }
}

/// Each string of a list is found, in its order and with all that stands between
/// its quotes; what stands between the strings is passed over.
pub proof fn law_every_string_is_found(front: Seq<char>, name: Seq<char>, back: Seq<char>)
    requires
        !front.contains('"'),
        !name.contains('"'),
    ensures
        string_parts(front + seq!['"'] + name + seq!['"'] + back) == seq![name] + string_parts(back),
        string_parts(front) == Seq::<Seq<char>>::empty(),
        string_parts(front + seq!['"'] + name) == Seq::<Seq<char>>::empty(),
{
    let whole = front + seq!['"'] + name + seq!['"'] + back;
    let n = front.len() as int;
    let quoted = name + seq!['"'] + back;
    assert(whole =~= front + seq!['"'] + quoted);
    lemma_first_position(front, '"', quoted);
    assert(whole.skip(n + 1) =~= quoted);
    lemma_first_position(name, '"', back);
    assert(quoted.take(name.len() as int) =~= name);
    assert(quoted.skip(name.len() as int + 1) =~= back);
    lemma_no_position(front, '"');
    let open = front + seq!['"'] + name;
    lemma_first_position(front, '"', name);
    assert(open.skip(n + 1) =~= name);
    lemma_no_position(name, '"');
}

/// Each name in a message is found, in its order.
pub proof fn law_every_name_is_found(front: Seq<char>, name: Seq<char>, back: Seq<char>)
    requires
        !front.contains('\''),
        name.len() > 0,
        !name.contains('\''),
    ensures
        quoted_parts(front + seq!['\''] + name + seq!['\''] + back) == seq![name] + quoted_parts(
            back,
        ),
        quoted_parts(front) == Seq::<Seq<char>>::empty(),
        quoted_parts(front + seq!['\''] + name) == Seq::<Seq<char>>::empty(),
{
    let whole = front + seq!['\''] + name + seq!['\''] + back;
    let n = front.len() as int;
    let quoted = name + seq!['\''] + back;
    assert(whole =~= front + seq!['\''] + quoted);
    lemma_first_position(front, '\'', quoted);
    assert(whole.skip(n + 1) =~= quoted);
    lemma_first_position(name, '\'', back);
    assert(quoted.take(name.len() as int) =~= name);
    assert(quoted.skip(name.len() as int + 1) =~= back);
    lemma_no_position(front, '\'');
    let open = front + seq!['\''] + name;
    lemma_first_position(front, '\'', name);
    assert(open.skip(n + 1) =~= name);
    lemma_no_position(name, '\'');
}

/// The words that lead to a suggestion stand at a place of a text.
pub open spec fn suggests_at(text: Seq<char>, i: int) -> bool {
    let lead = "can be written as `"@;
    0 <= i && i + lead.len() <= text.len() && text.subrange(i, i + lead.len()) == lead
}

/// A suggestion gives what stands behind its words and before the last backtick of
/// its line, whatever follows that, and a message without its words gives nothing.
pub proof fn law_suggestion_is_read(
    front: Seq<char>,
    replacement: Seq<char>,
    tail: Seq<char>,
    back: Seq<char>,
)
    requires
        replacement.len() > 0 && !replacement.contains('\n'),
        !tail.contains('`') && !tail.contains('\n'),
        back.len() == 0 || back[0] == '\n',
        forall|i: int|
            0 <= i < front.len() ==> !#[trigger] suggests_at(
                front + "can be written as `"@ + replacement + seq!['`'] + tail + back,
                i,
            ),
    ensures
        replacement_part(
            front + "can be written as `"@ + replacement + seq!['`'] + tail + back,
        ) == Some(replacement),
    decreases front.len(),
{
    let lead = "can be written as `"@;
    reveal_strlit("can be written as `");
    let text = front + lead + replacement + seq!['`'] + tail + back;
    if front.len() == 0 {
        let line = replacement + seq!['`'] + tail;
        let rest = line + back;
        assert(text.take(lead.len() as int) =~= lead);
        assert(text.skip(lead.len() as int) =~= rest);
        assert forall|i: int| 0 <= i < line.len() implies line[i] != '\n' by {
            if i < replacement.len() {
                assert(replacement.contains(replacement[i]));
            } else if i > replacement.len() {
                assert(tail.contains(tail[i - replacement.len() - 1]));
            }
        }
        lemma_position_behind(line, '\n', back);
        assert(first_position(back, '\n') == 0);
        assert(rest.take(line.len() as int) =~= line);
        law_last_position(replacement, '`', tail);
        assert(line.take(replacement.len() as int) =~= replacement);
    } else {
        let shorter = front.drop_first();
        let next = shorter + lead + replacement + seq!['`'] + tail + back;
        assert(text.drop_first() =~= next);
        assert(!suggests_at(text, 0));
        assert(text.subrange(0, lead.len() as int) =~= text.take(lead.len() as int));
        assert forall|i: int| 0 <= i < shorter.len() implies !#[trigger] suggests_at(next, i) by {
            assert(!suggests_at(text, i + 1));
            assert(i + lead.len() <= next.len());
            assert(text.subrange(i + 1, i + 1 + lead.len()) =~= next.subrange(i, i + lead.len()));
        }
        law_suggestion_is_read(shorter, replacement, tail, back);
    }
}

/// A message without the words that lead to a suggestion suggests nothing.
pub proof fn law_no_suggestion(text: Seq<char>)
    requires
        forall|i: int| !#[trigger] suggests_at(text, i),
    ensures
        replacement_part(text) is None,
    decreases text.len(),
{
    if text.len() > 0 {
        let lead = "can be written as `"@;
        let next = text.drop_first();
        assert(!suggests_at(text, 0));
        if text.len() >= lead.len() {
            assert(text.subrange(0, lead.len() as int) =~= text.take(lead.len() as int));
        }
        assert forall|i: int| !#[trigger] suggests_at(next, i) by {
            assert(!suggests_at(text, i + 1));
            if suggests_at(next, i) {
                assert(text.subrange(i + 1, i + 1 + lead.len()) =~= next.subrange(
                    i,
                    i + lead.len(),
                ));
            }
        }
        law_no_suggestion(next);
    }
}

/// What took part in a match is kept, and nothing else.
pub proof fn law_present(
    a: Seq<Option<Seq<char>>>,
    b: Seq<Option<Seq<char>>>,
    text: Seq<char>,
)
    ensures
        present(a + b) == present(a) + present(b),
        present(seq![Some(text)]) == seq![text],
        present(seq![None::<Seq<char>>]) == Seq::<Seq<char>>::empty(),
        present(Seq::empty()) == Seq::<Seq<char>>::empty(),
    decreases b.len(),
{
    let one = seq![Some(text)];
    assert(one.drop_last() =~= Seq::empty());
    assert(present(one.drop_last()) =~= Seq::empty());
    assert(present(one) =~= seq![text]);
    let none = seq![None::<Seq<char>>];
    assert(none.drop_last() =~= Seq::empty());
    assert(present(none.drop_last()) =~= Seq::empty());
    if b.len() == 0 {
        assert(a + b =~= a);
        assert(present(a) + present(b) =~= present(a));
    } else {
        assert((a + b).drop_last() =~= a + b.drop_last());
        law_present(a, b.drop_last(), text);
        assert(present(a + b) =~= present(a) + present(b));
    }
}

/// The blocks of a source are those of each opening, one opening after the other.
/// An opening has a block where its bracket closes and classes stand in it: in the
/// line of the opening, from behind the opening up to the closing bracket.
pub proof fn law_each_opening_has_its_block(
    item: Seq<char>,
    file: Seq<char>,
    bytes: Seq<u8>,
    a: Seq<(int, int)>,
    b: Seq<(int, int)>,
    opener: (int, int),
    end: int,
)
    requires
        0 <= opener.0 <= bytes.len(),
        newlines_in(bytes.take(opener.0)) < u32::MAX,
    ensures
        blocks_in(item, file, bytes, a + b) == blocks_in(item, file, bytes, a) + blocks_in(
            item,
            file,
            bytes,
            b,
        ),
        close_of(bytes, opener.1) is None ==> blocks_in(item, file, bytes, seq![opener])
            == Seq::<GroupView>::empty(),
        close_of(bytes, opener.1) == Some(end) ==> {
            let classes = present(
                regex_groups(item, decode_utf8(bytes.subrange(opener.1, end))),
            );
            blocks_in(item, file, bytes, seq![opener]) == if classes.len() == 0 {
                Seq::empty()
            } else {
                seq![
                    GroupView {
                        file,
                        line: (newlines_in(bytes.take(opener.0)) + 1) as u32,
                        start: opener.1,
                        end,
                        classes,
                    },
                ]
            }
        },
    decreases b.len(),
{
    law_line_of(bytes, opener.0);
    let one = seq![opener];
    assert(one.drop_last() =~= Seq::empty());
    assert(blocks_in(item, file, bytes, one.drop_last()) =~= Seq::empty());
    if close_of(bytes, opener.1) == Some(end) {
        assert(line_at(bytes, opener.0) == (newlines_in(bytes.take(opener.0)) + 1) as u32);
        let classes = present(regex_groups(item, decode_utf8(bytes.subrange(opener.1, end))));
        assert(blocks_in(item, file, bytes, one) =~= if classes.len() == 0 {
            Seq::empty()
        } else {
            seq![
                GroupView {
                    file,
                    line: (newlines_in(bytes.take(opener.0)) + 1) as u32,
                    start: opener.1,
                    end,
                    classes,
                },
            ]
        });
    }
    if b.len() == 0 {
        assert(a + b =~= a);
        assert(blocks_in(item, file, bytes, a) + blocks_in(item, file, bytes, b) =~= blocks_in(
            item,
            file,
            bytes,
            a,
        ));
    } else {
        assert((a + b).drop_last() =~= a + b.drop_last());
        law_each_opening_has_its_block(item, file, bytes, a, b.drop_last(), opener, end);
        assert(blocks_in(item, file, bytes, a + b) =~= blocks_in(item, file, bytes, a) + blocks_in(
            item,
            file,
            bytes,
            b,
        ));
    }
}

/// The lists of a source are those of each opening, one opening after the other.
/// An opening has a list where its bracket closes and strings stand in it: in the
/// line of the opening, from behind the opening up to the closing bracket.
pub proof fn law_each_opening_has_its_list(
    file: Seq<char>,
    bytes: Seq<u8>,
    a: Seq<(int, int)>,
    b: Seq<(int, int)>,
    opener: (int, int),
    end: int,
)
    requires
        0 <= opener.0 <= bytes.len(),
        newlines_in(bytes.take(opener.0)) < u32::MAX,
    ensures
        lists_in(file, bytes, a + b) == lists_in(file, bytes, a) + lists_in(file, bytes, b),
        close_of(bytes, opener.1) is None ==> lists_in(file, bytes, seq![opener]) == Seq::<
            GroupView,
        >::empty(),
        close_of(bytes, opener.1) == Some(end) ==> {
            let classes = string_parts(decode_utf8(bytes.subrange(opener.1, end)));
            lists_in(file, bytes, seq![opener]) == if classes.len() == 0 {
                Seq::empty()
            } else {
                seq![
                    GroupView {
                        file,
                        line: (newlines_in(bytes.take(opener.0)) + 1) as u32,
                        start: opener.1,
                        end,
                        classes,
                    },
                ]
            }
        },
    decreases b.len(),
{
    law_line_of(bytes, opener.0);
    let one = seq![opener];
    assert(one.drop_last() =~= Seq::empty());
    assert(lists_in(file, bytes, one.drop_last()) =~= Seq::empty());
    if close_of(bytes, opener.1) == Some(end) {
        assert(line_at(bytes, opener.0) == (newlines_in(bytes.take(opener.0)) + 1) as u32);
        let classes = string_parts(decode_utf8(bytes.subrange(opener.1, end)));
        assert(lists_in(file, bytes, one) =~= if classes.len() == 0 {
            Seq::empty()
        } else {
            seq![
                GroupView {
                    file,
                    line: (newlines_in(bytes.take(opener.0)) + 1) as u32,
                    start: opener.1,
                    end,
                    classes,
                },
            ]
        });
    }
    if b.len() == 0 {
        assert(a + b =~= a);
        assert(lists_in(file, bytes, a) + lists_in(file, bytes, b) =~= lists_in(file, bytes, a));
    } else {
        assert((a + b).drop_last() =~= a + b.drop_last());
        law_each_opening_has_its_list(file, bytes, a, b.drop_last(), opener, end);
        assert(lists_in(file, bytes, a + b) =~= lists_in(file, bytes, a) + lists_in(file, bytes, b));
    }
}

/// What stands in comments opens no list, closes none and is no class: sources that
/// are the same without their comments have the same lists.
pub proof fn law_no_lists_in_comments(file: Seq<char>, a: Seq<char>, b: Seq<char>)
    requires
        masked(encode_utf8(a)) == masked(encode_utf8(b)),
    ensures
        source_lists(file, a) == source_lists(file, b),
{
}

proof fn lemma_macros_behind(front: Seq<char>, text: Seq<char>, offset: int)
    requires
        without_macro(front),
        text.len() > 0 && text[0] == 't',
    ensures
        macros_from(front + text, offset) == macros_from(text, offset + encode_utf8(front).len()),
    decreases front.len(),
{
    let whole = front + text;
    if front.len() == 0 {
        assert(whole =~= text);
    } else {
        let rest = front.drop_first();
        reveal_strlit("tw!");
        if starts_with(whole, "tw!"@) {
            assert(whole.take(3)[0] == whole[0] && whole.take(3)[1] == whole[1] && whole.take(3)[2]
                == whole[2]);
            assert(whole[1] == 'w' && whole[2] == '!');
            assert(front.len() >= 3);
            assert(macro_name_at(front, 0));
        }
        assert forall|i: int| !#[trigger] macro_name_at(rest, i) by {
            if macro_name_at(rest, i) {
                assert(macro_name_at(front, i + 1));
            }
        }
        assert(whole.drop_first() =~= rest + text);
        assert(front =~= whole.take(1) + rest);
        lemma_encode_concat(whole.take(1), rest);
        lemma_macros_behind(rest, text, offset + encode_utf8(whole.take(1)).len());
    }
}

proof fn lemma_white_run(white: Seq<char>, back: Seq<char>)
    requires
        all_white(white),
    ensures
        white_prefix(white + seq!['['] + back) == white.len(),
    decreases white.len(),
{
    let whole = white + seq!['['] + back;
    if white.len() == 0 {
        assert(whole[0] == '[');
    } else {
        assert(whole[0] == white[0]);
        assert(whole.drop_first() =~= white.drop_first() + seq!['['] + back);
        lemma_white_run(white.drop_first(), back);
    }
}

/// An opening reaches from the name of the macro to behind its bracket, with any
/// white space in between, and the search goes on behind it.
pub proof fn law_every_opening_is_found(
    front: Seq<char>,
    white: Seq<char>,
    back: Seq<char>,
    offset: int,
)
    requires
        without_macro(front),
        all_white(white),
    ensures
        ({
            let opening = "tw!"@ + white + "["@;
            let start = offset + encode_utf8(front).len();
            let end = start + encode_utf8(opening).len();
            macros_from(front + opening + back, offset) == seq![(start, end)] + macros_from(
                back,
                end,
            )
        }),
{
    reveal_strlit("tw!");
    reveal_strlit("[");
    let opening = "tw!"@ + white + "["@;
    let text = opening + back;
    let start = offset + encode_utf8(front).len();
    assert(front + opening + back =~= front + text);
    lemma_macros_behind(front, text, offset);
    assert(text.take(3) =~= "tw!"@);
    assert(text.skip(3) =~= white + seq!['['] + back);
    lemma_white_run(white, back);
    let bracket = 3 + white.len() as int;
    assert(text[bracket] == '[');
    assert(macro_end(text) == Some(bracket + 1));
    assert(text.take(bracket + 1) =~= opening);
    assert(text.skip(bracket + 1) =~= back);
}

/// The patterns of a run are those of the first entry with a container.
pub proof fn law_first_container(
    front: Seq<ClassRegexView>,
    container: Seq<char>,
    class: Seq<char>,
    back: Seq<ClassRegexView>,
)
    requires
        forall|i: int| 0 <= i < front.len() ==> (#[trigger] front[i]) is Simple,
    ensures
        first_container(front + seq![ClassRegexView::Container { container, class }] + back)
            == Some((container, class)),
        first_container(front) is None,
    decreases front.len(),
{
    let whole = front + seq![ClassRegexView::Container { container, class }] + back;
    if front.len() > 0 {
        let rest = front.drop_first();
        assert(whole[0] == front[0]);
        assert(whole.drop_first() =~= rest + seq![ClassRegexView::Container { container, class }]
            + back);
        assert forall|i: int| 0 <= i < rest.len() implies (#[trigger] rest[i]) is Simple by {
            assert(rest[i] == front[i + 1]);
        }
        law_first_container(rest, container, class, back);
    } else {
        assert(whole[0] == ClassRegexView::Container { container, class });
    }
}

/// A list is written with each class in a line of its own, in their order, four
/// spaces further in than the line of its block, and the bracket below the block.
pub proof fn law_one_class_to_a_line(class: Seq<char>, more: Seq<Seq<char>>, indent: Seq<char>)
    ensures
        formatted(Seq::empty(), indent) == "\n"@ + indent,
        formatted(seq![class] + more, indent) == "\n"@ + indent + "    \""@ + class + "\","@
            + formatted(more, indent),
    decreases more.len(),
{
    reveal_strlit("    ");
    reveal_strlit("\"");
    reveal_strlit("    \"");
    assert("    \""@ =~= "    "@ + "\""@);
    assert(class_lines(Seq::empty(), indent) =~= Seq::empty());
    assert(formatted(Seq::empty(), indent) =~= "\n"@ + indent);
    let whole = seq![class] + more;
    let line = "\n"@ + indent + "    \""@ + class + "\","@;
    if more.len() == 0 {
        assert(whole.drop_last() =~= Seq::empty());
        assert(class_lines(whole.drop_last(), indent) =~= Seq::empty());
        assert(whole.last() == class);
        assert(more =~= Seq::empty());
        assert(formatted(whole, indent) =~= line + formatted(more, indent));
    } else {
        let fewer = more.drop_last();
        assert(whole.drop_last() =~= seq![class] + fewer);
        assert(whole.last() == more.last());
        law_one_class_to_a_line(class, fewer, indent);
        let end = "\n"@ + indent;
        let before = class_lines(seq![class] + fewer, indent);
        assert(before + end =~= formatted(seq![class] + fewer, indent));
        assert(line + class_lines(fewer, indent) + end =~= line + formatted(fewer, indent));
        assert(before =~= line + class_lines(fewer, indent)) by {
            let left = before + end;
            let right = line + class_lines(fewer, indent) + end;
            assert(left == right);
            assert(before =~= left.take(left.len() - end.len()));
            assert(line + class_lines(fewer, indent) =~= right.take(right.len() - end.len()));
        }
        assert(formatted(whole, indent) =~= line + formatted(more, indent));
    }
}

proof fn lemma_last_line(front: Seq<char>, line: Seq<char>)
    requires
        front.len() == 0 || front.last() == '\n',
        !line.contains('\n'),
    ensures
        last_line(front + line) == line,
    decreases line.len(),
{
    let whole = front + line;
    if line.len() == 0 {
        assert(whole =~= front);
        assert(last_line(whole) =~= line);
    } else {
        assert(line.contains(line.last()));
        assert(whole.last() == line.last());
        assert(whole.drop_last() =~= front + line.drop_last());
        assert forall|i: int| 0 <= i < line.drop_last().len() implies line.drop_last()[i]
            != '\n' by {
            assert(line.contains(line[i]));
        }
        lemma_last_line(front, line.drop_last());
        assert(line.drop_last().push(line.last()) =~= line);
    }
}

proof fn lemma_leading_blanks(indent: Seq<char>, code: Seq<char>)
    requires
        blanks(indent),
        code.len() == 0 || !blank(code[0]),
    ensures
        leading_blanks(indent + code) == indent,
    decreases indent.len(),
{
    let whole = indent + code;
    if indent.len() == 0 {
        assert(whole =~= code);
        assert(leading_blanks(whole) =~= indent);
    } else {
        assert(blank(indent[0]));
        assert(whole[0] == indent[0]);
        assert(whole.drop_first() =~= indent.drop_first() + code);
        assert forall|i: int| 0 <= i < indent.drop_first().len() implies blank(
            #[trigger] indent.drop_first()[i],
        ) by {
            assert(indent.drop_first()[i] == indent[i + 1]);
        }
        lemma_leading_blanks(indent.drop_first(), code);
        assert(seq![indent[0]] + indent.drop_first() =~= indent);
    }
}

/// A block is set as far in as the line that it begins in: by the spaces and tabs
/// that this line begins with.
pub proof fn law_indent(front: Seq<char>, indent: Seq<char>, code: Seq<char>, back: Seq<char>)
    requires
        front.len() == 0 || front.last() == '\n',
        forall|i: int| 0 <= i < indent.len() ==> (#[trigger] indent[i]) == ' ' || indent[i] == '\t',
        code.len() == 0 || (code[0] != ' ' && code[0] != '\t'),
        !code.contains('\n'),
    ensures
        indent_at(
            encode_utf8(front + indent + code + back),
            encode_utf8(front + indent + code).len() as int,
        ) == indent,
{
    let before = front + indent + code;
    let line = indent + code;
    lemma_encode_concat(before, back);
    assert(encode_utf8(before + back).take(encode_utf8(before).len() as int) =~= encode_utf8(before));
    encode_utf8_decode_utf8(before);
    assert(before =~= front + line);
    assert forall|i: int| 0 <= i < line.len() implies line[i] != '\n' by {
        if i >= indent.len() {
            assert(code.contains(code[i - indent.len()]));
        } else {
            assert(line[i] == indent[i]);
        }
    }
    lemma_last_line(front, line);
    lemma_leading_blanks(indent, code);
}

/// An edit replaces what stands between its columns; where they lie behind the end,
/// the end stands for them, and where the second lies before the first, nothing goes.
pub proof fn law_value_edit(a: Seq<char>, b: Seq<char>, c: Seq<char>, start: int, end: int, new: Seq<char>)
    requires
        0 <= start,
        0 <= end,
    ensures
        value_after(
            a + b + c,
            ValueEditView {
                start: a.len() as int,
                end: (a.len() + b.len()) as int,
                replacement: new,
            },
        ) == a + new + c,
        start >= a.len() ==> value_after(a, ValueEditView { start, end, replacement: new }) == a
            + new,
        end >= a.len() + b.len() ==> value_after(
            a + b,
            ValueEditView { start: a.len() as int, end, replacement: new },
        ) == a + new,
        end <= a.len() ==> value_after(
            a + b,
            ValueEditView { start: a.len() as int, end, replacement: new },
        ) == a + new + b,
{
    let whole = a + b + c;
    assert(whole.take(a.len() as int) =~= a);
    assert(whole.skip((a.len() + b.len()) as int) =~= c);
    if start >= a.len() {
        assert(a.take(a.len() as int) =~= a);
        assert(a.skip(a.len() as int) =~= Seq::empty());
        assert(value_after(a, ValueEditView { start, end, replacement: new }) =~= a + new);
    }
    let two = a + b;
    assert(two.take(a.len() as int) =~= a);
    if end >= two.len() {
        assert(two.skip(two.len() as int) =~= Seq::empty());
        assert(value_after(
            two,
            ValueEditView { start: a.len() as int, end, replacement: new },
        ) =~= a + new);
    }
    if end <= a.len() {
        assert(two.skip(a.len() as int) =~= b);
    }
}

/// A list without edits is written without the classes that it has already named,
/// and counts as unrepeated where each is named once.
pub proof fn law_repeats_are_dropped(classes: Seq<Seq<char>>)
    requires
        forall|i: int|
            0 <= i < classes.len() ==> (#[trigger] classes[i]).len() > 0 && solid(classes[i]),
    ensures
        resolved(classes, Seq::empty()) == without_repeats(classes),
        unrepeated(classes) <==> classes.no_duplicates(),
{
    assert forall|i: int| 0 <= i < classes.len() implies (#[trigger] classes[i]).len() > 0
        && crate::text::word_length(classes[i]) == classes[i].len() by {
        crate::wording::lemma_solid_length(classes[i], Seq::empty());
        assert(classes[i] + Seq::<char>::empty() =~= classes[i]);
    }
    law_join_and_split(classes);
    let none = Seq::<ValueEditView>::empty();
    assert(value_edits_last_first(none) =~= none);
}

/// The classes of a list, string by string.
pub open spec fn all_words(literals: Seq<Seq<char>>) -> Seq<Seq<char>>
    decreases literals.len(),
{
    if literals.len() == 0 {
        Seq::empty()
    } else {
        words(literals[0]) + all_words(literals.drop_first())
    }
}

proof fn lemma_all_words(literals: Seq<Seq<char>>)
    ensures
        words(joined(literals, " "@)) == all_words(literals),
    decreases literals.len(),
{
    reveal_strlit(" ");
    assert(" "@ =~= seq![' ']);
    if literals.len() == 0 {
        law_words(Seq::empty(), ' ', Seq::empty());
        assert(joined(literals, " "@) =~= Seq::empty());
    } else {
        let first = seq![literals[0]];
        let rest = literals.drop_first();
        assert(literals =~= first + rest);
        lemma_all_words(rest);
        law_joined(first, rest, literals[0], " "@);
        if rest.len() == 0 {
            assert(literals =~= first);
            assert(all_words(rest) =~= Seq::empty());
            assert(words(literals[0]) + all_words(rest) =~= words(literals[0]));
        } else {
            law_words(literals[0], ' ', joined(rest, " "@));
            assert(literals[0] + " "@ + joined(rest, " "@) =~= literals[0] + seq![' '] + joined(
                rest,
                " "@,
            ));
        }
    }
}

/// A list repeats a class wherever it is named twice, in one string or in two, and
/// without edits it is written without the repeats.
pub proof fn law_repeats_across_strings(literals: Seq<Seq<char>>)
    ensures
        unrepeated(literals) <==> all_words(literals).no_duplicates(),
        resolved(literals, Seq::empty()) == without_repeats(all_words(literals)),
{
    lemma_all_words(literals);
    let none = Seq::<ValueEditView>::empty();
    assert(value_edits_last_first(none) =~= none);
}

/// A character begins where a part of a text ends.
pub proof fn lemma_boundary(a: Seq<char>, b: Seq<char>)
    ensures
        is_char_boundary(encode_utf8(a + b), encode_utf8(a).len() as int),
{
    let whole = encode_utf8(a + b);
    let tail = encode_utf8(b);
    let p = encode_utf8(a).len() as int;
    lemma_encode_concat(a, b);
    encode_utf8_valid_utf8(a + b);
    encode_utf8_valid_utf8(b);
    is_char_boundary_start_end_of_seq(whole);
    if p < whole.len() {
        assert(whole[p] == tail[0]);
        is_char_boundary_start_end_of_seq(tail);
        is_char_boundary_iff_not_is_continuation_byte(tail, 0);
        is_char_boundary_iff_not_is_continuation_byte(whole, p);
    }
}

/// The text of a span is what stands there.
pub proof fn law_current_text(a: Seq<char>, b: Seq<char>, c: Seq<char>)
    ensures
        current_text(
            encode_utf8(a + b + c),
            encode_utf8(a).len() as int,
            (encode_utf8(a).len() + encode_utf8(b).len()) as int,
        ) == b,
{
    let bytes = encode_utf8(a + b + c);
    let start = encode_utf8(a).len() as int;
    let end = start + encode_utf8(b).len();
    lemma_encode_concat(a + b, c);
    lemma_encode_concat(a, b);
    assert(bytes.subrange(start, end) =~= encode_utf8(b));
    encode_utf8_decode_utf8(b);
    assert(a + b + c =~= a + (b + c));
    lemma_boundary(a, b + c);
    lemma_boundary(a + b, c);
}

/// A column of a line of the document is one of its class value by as much as stands
/// before the value, and the value's first where it lies before that.
pub proof fn law_value_column(column: u32)
    ensures
        ({
            let before = "<div class=\""@.len();
            &&& column >= before ==> value_column(column) == column - before
            &&& column <= before ==> value_column(column) == 0
        }),
{
    reveal_strlit("<div class=\"");
}

/// What is found in a chunk leaves the edits of other blocks as they are.
pub proof fn law_other_blocks_are_left(
    notes: FixNotes,
    chunk: Seq<GroupView>,
    labels: Seq<Seq<char>>,
    palette: PaletteView,
    findings: Seq<FindingView>,
    key: BlockKey,
)
    requires
        forall|i: int|
            0 <= i < chunk.len() ==> ((#[trigger] chunk[i]).file, chunk[i].start) != key,
    ensures
        items_at(noted_all(notes, chunk, labels, palette, findings).edits, key) == items_at(
            notes.edits,
            key,
        ),
    decreases findings.len(),
{
    if findings.len() > 0 {
        law_other_blocks_are_left(notes, chunk, labels, palette, findings.drop_last(), key);
        let before = noted_all(notes, chunk, labels, palette, findings.drop_last());
        let last = findings.last();
        if last.line < chunk.len() {
            let group = chunk[last.line as int];
            assert((group.file, group.start) != key);
        }
    }
}

} // verus!
