//! The class list of a block: which classes it holds once suggestions are
//! applied, and how it is written back.
use crate::edits::falling;
use crate::groups::ClassGroup;
use crate::order::{arranged, ascending, ascending_order, index_values, key_values};
use crate::text::{
    chars_of, has_text, is_white, join_texts, joined, split_words, strings, word_length, words,
    lemma_word_length,
};
use vstd::prelude::*;
use vstd::string::*;
use vstd::utf8::*;

verus! {

/// A space or a tab.
pub open spec fn blank(c: char) -> bool {
    c == ' ' || c == '\t'
}

/// The blanks at the start of a line.
pub open spec fn leading_blanks(line: Seq<char>) -> Seq<char>
    decreases line.len(),
{
    if line.len() == 0 || !blank(line[0]) {
        Seq::empty()
    } else {
        seq![line[0]] + leading_blanks(line.drop_first())
    }
}

/// The blanks at the start of a line.
pub fn leading_whitespace(line: &str) -> (blanks: String)
    ensures
        blanks@ == leading_blanks(line@),
{
    let chars = chars_of(line);
    let mut i: usize = 0;
    assert(line@.skip(0) =~= line@);
    assert(line@.take(0) + leading_blanks(line@.skip(0)) =~= leading_blanks(line@));
    while i < chars.len() && (chars[i] == ' ' || chars[i] == '\t')
        invariant
            i <= chars@.len(),
            chars@ == line@,
            leading_blanks(line@) == line@.take(i as int) + leading_blanks(line@.skip(i as int)),
        decreases chars@.len() - i,
    {
        proof {
            let rest = line@.skip(i as int);
            assert(rest.drop_first() =~= line@.skip(i + 1));
            assert(line@.take(i as int) + (seq![rest[0]] + leading_blanks(rest.drop_first()))
                =~= line@.take(i + 1) + leading_blanks(line@.skip(i + 1)));
        }
        i += 1;
    }
    let blanks = line.substring_char(0, i).to_string();
    proof {
        assert(leading_blanks(line@.skip(i as int)) =~= Seq::empty());
        assert(line@.take(i as int) + Seq::<char>::empty() =~= line@.take(i as int));
        assert(blanks@ =~= line@.take(i as int));
    }
    blanks
}

/// What follows the last newline.
pub open spec fn last_line(text: Seq<char>) -> Seq<char>
    decreases text.len(),
{
    if text.len() == 0 || text.last() == '\n' {
        Seq::empty()
    } else {
        last_line(text.drop_last()).push(text.last())
    }
}

/// The indentation of the line that holds a byte offset, as far as the text
/// before the offset shows it.
pub open spec fn indent_at(bytes: Seq<u8>, offset: int) -> Seq<char> {
    leading_blanks(last_line(decode_utf8(bytes.take(offset))))
}

/// The indentation of a block's line, so a rewrite can match the surrounding
/// layout.
pub struct BlockLayout {
    pub indent: String,
}

impl BlockLayout {
    pub fn at(text: &str, list_start: usize) -> (layout: BlockLayout)
        requires
            is_char_boundary(text.spec_bytes(), list_start as int),
        ensures
            layout.indent@ == indent_at(text.spec_bytes(), list_start as int),
    {
        proof {
            encode_utf8_valid_utf8(text@);
            crate::scan::lemma_boundary_in_bounds(text.spec_bytes(), list_start as int);
        }
        let (prefix, _) = text.split_at(list_start);
        proof {
            encode_utf8_decode_utf8(prefix@);
            assert(text.spec_bytes().take(list_start as int) =~= text.spec_bytes().subrange(
                0,
                list_start as int,
            ));
        }
        let chars = chars_of(prefix);
        let total: usize = chars.len();
        let mut line_start: usize = total;
        let ghost all = prefix@;
        assert(all.take(total as int) =~= all);
        assert(all.subrange(total as int, total as int) =~= Seq::empty());
        assert(last_line(all.take(total as int)) + Seq::<char>::empty() =~= last_line(all));
        while line_start > 0 && chars[line_start - 1] != '\n'
            invariant
                line_start <= total,
                total == chars@.len(),
                chars@ == all,
                last_line(all) == last_line(all.take(line_start as int)) + all.subrange(
                    line_start as int,
                    total as int,
                ),
            decreases line_start,
        {
            proof {
                let front = all.take(line_start as int);
                assert(front.drop_last() =~= all.take(line_start - 1));
                assert(last_line(front) == last_line(front.drop_last()).push(front.last()));
                assert(last_line(front) + all.subrange(line_start as int, total as int)
                    =~= last_line(all.take(line_start - 1)) + all.subrange(
                    line_start - 1,
                    total as int,
                ));
            }
            line_start -= 1;
        }
        let line = prefix.substring_char(line_start, total);
        proof {
            assert(last_line(all.take(line_start as int)) =~= Seq::empty());
            assert(Seq::<char>::empty() + line@ =~= line@);
        }
        BlockLayout { indent: leading_whitespace(line) }
    }
}

/// The lines of a class list: each class quoted, with a comma, on a line of its
/// own, one level deeper than the block.
pub open spec fn class_lines(classes: Seq<Seq<char>>, indent: Seq<char>) -> Seq<char>
    decreases classes.len(),
{
    if classes.len() == 0 {
        Seq::empty()
    } else {
        class_lines(classes.drop_last(), indent) + "\n"@ + indent + "    "@ + "\""@
            + classes.last() + "\","@
    }
}

/// A class list as it is written into its block.
pub open spec fn formatted(classes: Seq<Seq<char>>, indent: Seq<char>) -> Seq<char> {
    class_lines(classes, indent) + "\n"@ + indent
}

/// Render the class list back into the block with EVERY class on its own line,
/// indented one level past the block.
pub fn format_class_list(classes: &Vec<String>, layout: &BlockLayout) -> (rendered: String)
    ensures
        rendered@ == formatted(strings(classes@), layout.indent@),
{
    let mut rendered = String::new();
    let mut i: usize = 0;
    let ghost all = strings(classes@);
    while i < classes.len()
        invariant
            i <= classes@.len(),
            all == strings(classes@),
            rendered@ == class_lines(all.take(i as int), layout.indent@),
        decreases classes@.len() - i,
    {
        proof {
            assert(all.take(i + 1).drop_last() =~= all.take(i as int));
            assert(all.take(i + 1).last() == classes@[i as int]@);
        }
        rendered.append("\n");
        rendered.append(layout.indent.as_str());
        rendered.append("    ");
        rendered.append("\"");
        rendered.append(classes[i].as_str());
        rendered.append("\",");
        i += 1;
    }
    assert(all.take(i as int) =~= all);
    rendered.append("\n");
    rendered.append(layout.indent.as_str());
    rendered
}

/// A replacement of a range of the characters of a block's class value.
#[derive(Debug)]
pub struct ValueEdit {
    pub start: usize,
    pub end: usize,
    pub replacement: String,
}

pub struct ValueEditView {
    pub start: int,
    pub end: int,
    pub replacement: Seq<char>,
}

impl View for ValueEdit {
    type V = ValueEditView;

    open spec fn view(&self) -> ValueEditView {
        ValueEditView {
            start: self.start as int,
            end: self.end as int,
            replacement: self.replacement@,
        }
    }
}

pub open spec fn value_edit_views(list: Seq<ValueEdit>) -> Seq<ValueEditView> {
    list.map_values(|e: ValueEdit| e@)
}

pub open spec fn at_most(a: int, b: int) -> int {
    if a <= b {
        a
    } else {
        b
    }
}

/// The value after one replacement, whose range is cut to the value.
pub open spec fn value_after(value: Seq<char>, edit: ValueEditView) -> Seq<char> {
    let start = at_most(edit.start, value.len() as int);
    let cut = at_most(edit.end, value.len() as int);
    let end = if cut < start {
        start
    } else {
        cut
    };
    value.take(start) + edit.replacement + value.skip(end)
}

/// The value after some replacements, one after the other.
pub open spec fn value_after_all(value: Seq<char>, edits: Seq<ValueEditView>) -> Seq<char>
    decreases edits.len(),
{
    if edits.len() == 0 {
        value
    } else {
        value_after(value_after_all(value, edits.drop_last()), edits.last())
    }
}

/// The replacements from the last start to the first, those with equal starts
/// in the order in which they are given.
pub open spec fn value_edits_last_first(edits: Seq<ValueEditView>) -> Seq<ValueEditView> {
    arranged(edits, ascending(edits.map_values(|e: ValueEditView| falling(e.start))))
}

/// The items of a list without those that occurred before.
pub open spec fn without_repeats(list: Seq<Seq<char>>) -> Seq<Seq<char>>
    decreases list.len(),
{
    if list.len() == 0 {
        Seq::empty()
    } else {
        let before = without_repeats(list.drop_last());
        if before.contains(list.last()) {
            before
        } else {
            before.push(list.last())
        }
    }
}

/// A block's classes after its edits: the classes stand in one value, separated
/// by spaces, the edits are applied to the value, and of the classes in the
/// result each is kept where it first occurs.
pub open spec fn resolved(classes: Seq<Seq<char>>, edits: Seq<ValueEditView>) -> Seq<Seq<char>> {
    without_repeats(
        words(value_after_all(joined(classes, " "@), value_edits_last_first(edits))),
    )
}

fn edit_value(value: &str, edit: &ValueEdit) -> (after: String)
    ensures
        after@ == value_after(value@, edit@),
{
    let length: usize = value.unicode_len();
    let start = if edit.start <= length {
        edit.start
    } else {
        length
    };
    let cut = if edit.end <= length {
        edit.end
    } else {
        length
    };
    let end = if cut < start {
        start
    } else {
        cut
    };
    let mut after = value.substring_char(0, start).to_string();
    after.append(edit.replacement.as_str());
    after.append(value.substring_char(end, length));
    assert(value@.subrange(0, start as int) =~= value@.take(start as int));
    assert(value@.subrange(end as int, length as int) =~= value@.skip(end as int));
    after
}

/// Drop the items of a list that occurred before.
fn drop_repeats(list: &Vec<String>) -> (kept: Vec<String>)
    ensures
        strings(kept@) == without_repeats(strings(list@)),
{
    let mut kept: Vec<String> = Vec::new();
    let mut i: usize = 0;
    let ghost all = strings(list@);
    assert(strings(kept@) =~= Seq::empty());
    while i < list.len()
        invariant
            i <= list@.len(),
            all == strings(list@),
            strings(kept@) == without_repeats(all.take(i as int)),
        decreases list@.len() - i,
    {
        proof {
            assert(all.take(i + 1).drop_last() =~= all.take(i as int));
            assert(all.take(i + 1).last() == list@[i as int]@);
        }
        let ghost before = kept@;
        if !has_text(&kept, list[i].as_str()) {
            kept.push(list[i].clone());
            assert(strings(kept@) =~= strings(before).push(list@[i as int]@));
        }
        i += 1;
    }
    assert(all.take(i as int) =~= all);
    kept
}

/// Compute a block's resolved class list: apply value edits, then drop exact
/// duplicates (order-preserving).
pub fn resolve_classes(group: &ClassGroup, edits: &Vec<ValueEdit>) -> (classes: Vec<String>)
    ensures
        strings(classes@) == resolved(strings(group.classes@), value_edit_views(edits@)),
{
    let mut value = join_texts(&group.classes, " ");
    let mut keys: Vec<u64> = Vec::new();
    let mut i: usize = 0;
    while i < edits.len()
        invariant
            i <= edits@.len(),
            keys@.len() == i,
            forall|j: int| 0 <= j < i ==> #[trigger] keys@[j] == falling(edits@[j].start as int),
        decreases edits@.len() - i,
    {
        keys.push(u64::MAX - edits[i].start as u64);
        i += 1;
    }
    let ghost views = value_edit_views(edits@);
    assert(key_values(keys@) =~= views.map_values(|e: ValueEditView| falling(e.start)));
    let order = ascending_order(&keys);
    let ghost list = arranged(views, index_values(order@));
    let ghost whole = value@;
    let mut k: usize = 0;
    while k < order.len()
        invariant
            k <= order@.len(),
            order@.len() == edits@.len(),
            forall|a: int| 0 <= a < order@.len() ==> (#[trigger] order@[a]) < edits@.len(),
            views == value_edit_views(edits@),
            list == arranged(views, index_values(order@)),
            value@ == value_after_all(whole, list.take(k as int)),
        decreases order@.len() - k,
    {
        proof {
            assert(list.take(k + 1).drop_last() =~= list.take(k as int));
            assert(list.take(k + 1).last() == edits@[order@[k as int] as int]@);
        }
        value = edit_value(value.as_str(), &edits[order[k]]);
        k += 1;
    }
    assert(list.take(k as int) =~= list);
    let parts = split_words(value.as_str());
    drop_repeats(&parts)
}

/// Where an item of a list occurs first, or the length.
pub open spec fn first_occurrence(list: Seq<Seq<char>>, item: Seq<char>) -> int
    decreases list.len(),
{
    if list.len() == 0 || list[0] == item {
        0
    } else {
        1 + first_occurrence(list.drop_first(), item)
    }
}

proof fn lemma_first_occurrence(list: Seq<Seq<char>>, item: Seq<char>)
    ensures
        0 <= first_occurrence(list, item) <= list.len(),
        first_occurrence(list, item) < list.len() <==> list.contains(item),
        list.len() > 0 ==> first_occurrence(list, item) == if list.drop_last().contains(item) {
            first_occurrence(list.drop_last(), item)
        } else if list.last() == item {
            list.len() - 1
        } else {
            list.len() as int
        },
    decreases list.len(),
{
    if list.len() > 0 {
        let tail = list.drop_first();
        let rest = list.drop_last();
        lemma_first_occurrence(tail, item);
        assert(list.contains(item) <==> list[0] == item || tail.contains(item)) by {
            if tail.contains(item) {
                let i = choose|i: int| 0 <= i < tail.len() && tail[i] == item;
                assert(list[i + 1] == item);
            }
            if list.contains(item) && list[0] != item {
                let i = choose|i: int| 0 <= i < list.len() && list[i] == item;
                assert(tail[i - 1] == item);
            }
        }
        if list.len() > 1 {
            assert(rest.drop_first() =~= tail.drop_last());
            assert(tail.last() == list.last());
            assert(rest[0] == list[0]);
            assert(rest.contains(item) <==> rest[0] == item || rest.drop_first().contains(item)) by {
                if rest.drop_first().contains(item) {
                    let i = choose|i: int|
                        0 <= i < rest.drop_first().len() && rest.drop_first()[i] == item;
                    assert(rest[i + 1] == item);
                }
                if rest.contains(item) && rest[0] != item {
                    let i = choose|i: int| 0 <= i < rest.len() && rest[i] == item;
                    assert(rest.drop_first()[i - 1] == item);
                }
            }
        } else {
            assert(rest.len() == 0);
            assert(tail.len() == 0);
        }
    }
}

/// The list without repeats holds what the list holds, each item once, in the
/// order of first occurrence.
pub proof fn law_without_repeats(list: Seq<Seq<char>>)
    ensures
        without_repeats(list).no_duplicates(),
        forall|item: Seq<char>| without_repeats(list).contains(item) <==> list.contains(item),
        forall|i: int, j: int|
            0 <= i < j < without_repeats(list).len() ==> first_occurrence(
                list,
                #[trigger] without_repeats(list)[i],
            ) < first_occurrence(list, #[trigger] without_repeats(list)[j]),
        list.no_duplicates() ==> without_repeats(list) == list,
    decreases list.len(),
{
    if list.len() > 0 {
        let rest = list.drop_last();
        let before = without_repeats(rest);
        let last = list.last();
        law_without_repeats(rest);
        assert forall|item: Seq<char>| list.contains(item) <==> rest.contains(item) || item
            == last by {
            if list.contains(item) {
                let i = choose|i: int| 0 <= i < list.len() && list[i] == item;
                if i < rest.len() {
                    assert(rest[i] == item);
                }
            }
            if rest.contains(item) {
                let i = choose|i: int| 0 <= i < rest.len() && rest[i] == item;
                assert(list[i] == item);
            }
            assert(list[list.len() - 1] == last);
        }
        assert forall|item: Seq<char>| without_repeats(list).contains(item) <==> before.contains(
            item,
        ) || item == last by {
            let after = before.push(last);
            assert(after[after.len() - 1] == last);
            if before.contains(item) {
                let i = choose|i: int| 0 <= i < before.len() && before[i] == item;
                assert(after[i] == item);
            }
        }
        let kept = without_repeats(list);
        assert forall|i: int, j: int| 0 <= i < j < kept.len() implies first_occurrence(
            list,
            #[trigger] kept[i],
        ) < first_occurrence(list, #[trigger] kept[j]) by {
            lemma_first_occurrence(list, kept[i]);
            lemma_first_occurrence(list, kept[j]);
            lemma_first_occurrence(rest, kept[i]);
            assert(kept[i] == before[i]);
            assert(before.contains(before[i]));
            if j < before.len() {
                assert(kept[j] == before[j]);
                assert(before.contains(before[j]));
            } else {
                assert(kept[j] == last);
                assert(!rest.contains(last));
            }
        }
        if list.no_duplicates() {
            assert(rest.no_duplicates());
            assert(!rest.contains(last)) by {
                if rest.contains(last) {
                    let i = choose|i: int| 0 <= i < rest.len() && rest[i] == last;
                    assert(list[i] == list[list.len() - 1]);
                }
            }
            assert(before.push(last) =~= list);
        }
    }
}

/// A list loses something with its repeats if and only if it has some.
proof fn lemma_repeats_shorten(list: Seq<Seq<char>>)
    ensures
        without_repeats(list).len() <= list.len(),
        without_repeats(list).len() == list.len() <==> list.no_duplicates(),
    decreases list.len(),
{
    law_without_repeats(list);
    if list.len() > 0 {
        let rest = list.drop_last();
        let last = list.last();
        lemma_repeats_shorten(rest);
        law_without_repeats(rest);
        if list.no_duplicates() {
            assert(rest.no_duplicates());
        } else if rest.no_duplicates() {
            let (i, j) = choose|i: int, j: int|
                0 <= i < j < list.len() && #[trigger] list[i] == #[trigger] list[j];
            if j < rest.len() {
                assert(rest[i] == rest[j]);
            }
            assert(rest[i] == last);
            assert(rest.contains(last));
        }
    }
}

/// No class of a block occurs twice.
pub open spec fn unrepeated(classes: Seq<Seq<char>>) -> bool {
    words(joined(classes, " "@)).no_duplicates()
}

/// Whether a class of a block occurs twice.
pub fn has_repeats(group: &ClassGroup) -> (yes: bool)
    ensures
        yes == !unrepeated(strings(group.classes@)),
{
    let value = join_texts(&group.classes, " ");
    let parts = split_words(value.as_str());
    let kept = drop_repeats(&parts);
    proof {
        lemma_repeats_shorten(strings(parts@));
        assert(strings(kept@).len() == kept@.len());
        assert(strings(parts@).len() == parts@.len());
    }
    kept.len() < parts.len()
}

/// Class names: no name is empty or holds white space.
pub open spec fn plain_names(classes: Seq<Seq<char>>) -> bool {
    forall|i: int|
        0 <= i < classes.len() ==> (#[trigger] classes[i]).len() > 0 && word_length(classes[i])
            == classes[i].len()
}

proof fn lemma_word_length_append(a: Seq<char>, b: Seq<char>)
    requires
        word_length(a) == a.len(),
    ensures
        word_length(a + b) == a.len() + word_length(b),
    decreases a.len(),
{
    if a.len() == 0 {
        assert(a + b =~= b);
    } else {
        assert((a + b).drop_first() =~= a.drop_first() + b);
        lemma_word_length_append(a.drop_first(), b);
    }
}

/// One more word behind a space is one more word.
proof fn lemma_words_append(text: Seq<char>, name: Seq<char>)
    requires
        name.len() > 0,
        word_length(name) == name.len(),
    ensures
        words(text + " "@ + name) == words(text).push(name),
    decreases text.len(),
{
    reveal_strlit(" ");
    let whole = text + " "@ + name;
    if text.len() == 0 {
        assert(whole =~= seq![' '] + name);
        assert(whole.drop_first() =~= name);
        lemma_words_single(name);
        assert(words(text).push(name) =~= seq![name]);
    } else if is_white(text[0]) {
        assert(whole.drop_first() =~= text.drop_first() + " "@ + name);
        lemma_words_append(text.drop_first(), name);
    } else {
        lemma_word_length(text);
        let n = word_length(text) as int;
        let front = text.take(n);
        let back = text.skip(n);
        lemma_word_length_front(text);
        assert(whole =~= front + (back + " "@ + name));
        lemma_word_length_append(front, back + " "@ + name);
        let tail = back + " "@ + name;
        if back.len() > 0 {
            assert(tail[0] == text[n]);
        } else {
            assert(tail[0] == ' ');
        }
        assert(is_white(tail[0]));
        assert(word_length(tail) == 0);
        assert(word_length(whole) == n);
        assert(whole.take(n) =~= front);
        assert(whole.skip(n) =~= tail);
        lemma_words_append(back, name);
        assert(words(whole) =~= words(text).push(name));
    }
}

proof fn lemma_word_length_front(text: Seq<char>)
    ensures
        word_length(text.take(word_length(text) as int)) == word_length(text),
    decreases text.len(),
{
    lemma_word_length(text);
    if text.len() > 0 && !is_white(text[0]) {
        let rest = text.drop_first();
        lemma_word_length_front(rest);
        lemma_word_length(rest);
        assert(text.take(word_length(text) as int).drop_first() =~= rest.take(
            word_length(rest) as int,
        ));
    }
}

/// A plain name is one word.
pub proof fn lemma_words_single(name: Seq<char>)
    requires
        name.len() > 0,
        word_length(name) == name.len(),
    ensures
        words(name) == seq![name],
{
    lemma_word_length(name);
    assert(name.take(name.len() as int) =~= name);
    assert(name.skip(name.len() as int) =~= Seq::empty());
    assert(words(name.skip(name.len() as int)) =~= Seq::empty());
    assert(!is_white(name[0]));
    assert(words(name) =~= seq![name]);
}

/// Names joined by spaces and split at white space are the names again.
pub proof fn law_join_and_split(classes: Seq<Seq<char>>)
    requires
        plain_names(classes),
    ensures
        words(joined(classes, " "@)) == classes,
    decreases classes.len(),
{
    if classes.len() == 0 {
        assert(words(joined(classes, " "@)) =~= classes);
    } else if classes.len() == 1 {
        lemma_words_single(classes[0]);
        assert(seq![classes[0]] =~= classes);
    } else {
        let rest = classes.drop_last();
        assert(plain_names(rest)) by {
            assert forall|i: int| 0 <= i < rest.len() implies (#[trigger] rest[i]).len() > 0
                && word_length(rest[i]) == rest[i].len() by {
                assert(rest[i] == classes[i]);
            }
        }
        law_join_and_split(rest);
        assert(classes.last() == classes[classes.len() - 1]);
        lemma_words_append(joined(rest, " "@), classes.last());
        assert(rest.push(classes.last()) =~= classes);
    }
}

/// Without edits, a list of distinct plain names is resolved to itself.
pub proof fn law_resolved_without_edits(classes: Seq<Seq<char>>)
    requires
        plain_names(classes),
        classes.no_duplicates(),
    ensures
        resolved(classes, Seq::empty()) == classes,
{
    let none = Seq::<ValueEditView>::empty();
    crate::order::law_ascending(none.map_values(|e: ValueEditView| falling(e.start)));
    assert(value_edits_last_first(none).len() == 0);
    law_join_and_split(classes);
    law_without_repeats(classes);
}

/// The words of a text are plain names.
pub proof fn lemma_words_are_plain(text: Seq<char>)
    ensures
        plain_names(words(text)),
    decreases text.len(),
{
    if text.len() > 0 {
        if is_white(text[0]) {
            lemma_words_are_plain(text.drop_first());
        } else {
            lemma_word_length(text);
            lemma_word_length_front(text);
            let n = word_length(text) as int;
            let rest = words(text.skip(n));
            lemma_words_are_plain(text.skip(n));
            let all = words(text);
            assert(all == seq![text.take(n)] + rest);
            assert forall|i: int| 0 <= i < all.len() implies (#[trigger] all[i]).len() > 0
                && word_length(all[i]) == all[i].len() by {
                if i > 0 {
                    assert(all[i] == rest[i - 1]);
                }
            }
        }
    }
}

/// A resolved class list holds distinct plain names, so that resolving it again
/// without edits changes nothing.
pub proof fn law_resolved_is_stable(classes: Seq<Seq<char>>, edits: Seq<ValueEditView>)
    ensures
        resolved(classes, edits).no_duplicates(),
        plain_names(resolved(classes, edits)),
        resolved(resolved(classes, edits), Seq::empty()) == resolved(classes, edits),
{
    let all = words(value_after_all(joined(classes, " "@), value_edits_last_first(edits)));
    let list = resolved(classes, edits);
    law_without_repeats(all);
    lemma_words_are_plain(
        value_after_all(joined(classes, " "@), value_edits_last_first(edits)),
    );
    assert forall|i: int| 0 <= i < list.len() implies (#[trigger] list[i]).len() > 0 && word_length(
        list[i],
    ) == list[i].len() by {
        assert(list.contains(list[i]));
        assert(all.contains(list[i]));
        let k = choose|k: int| 0 <= k < all.len() && all[k] == list[i];
        assert(all[k].len() > 0);
    }
    law_resolved_without_edits(list);
}

/// What stands before a class in its block's value.
pub open spec fn value_front(classes: Seq<Seq<char>>, k: int) -> Seq<char> {
    if k == 0 {
        Seq::empty()
    } else {
        joined(classes.take(k), " "@) + " "@
    }
}

spec fn value_back(classes: Seq<Seq<char>>, k: int) -> Seq<char>
    decreases classes.len(),
{
    if classes.len() == 0 || k >= classes.len() - 1 {
        Seq::empty()
    } else {
        value_back(classes.drop_last(), k) + " "@ + classes.last()
    }
}

proof fn lemma_value_parts(classes: Seq<Seq<char>>, k: int)
    requires
        0 <= k < classes.len(),
    ensures
        joined(classes, " "@) == value_front(classes, k) + classes[k] + value_back(classes, k),
    decreases classes.len(),
{
    let rest = classes.drop_last();
    if k < classes.len() - 1 {
        lemma_value_parts(rest, k);
        assert(rest.take(k) =~= classes.take(k));
        assert(value_front(classes, k) + classes[k] + value_back(rest, k) + " "@ + classes.last()
            =~= value_front(classes, k) + classes[k] + value_back(classes, k));
    } else {
        assert(classes.take(k) =~= rest);
        assert(value_front(classes, k) + classes[k] =~= value_front(classes, k) + classes[k]
            + value_back(classes, k));
        if k == 0 {
            assert(value_front(classes, k) + classes[k] =~= classes[0]);
        }
    }
}

proof fn lemma_value_back(classes: Seq<Seq<char>>, k: int, name: Seq<char>)
    requires
        0 <= k < classes.len(),
    ensures
        value_back(classes.update(k, name), k) == value_back(classes, k),
    decreases classes.len(),
{
    if k < classes.len() - 1 {
        lemma_value_back(classes.drop_last(), k, name);
        assert(classes.update(k, name).drop_last() =~= classes.drop_last().update(k, name));
    }
}

/// The edit that replaces a class of a block by another: its range is where the
/// class stands in the block's value.
pub open spec fn class_edit(classes: Seq<Seq<char>>, k: int, name: Seq<char>) -> ValueEditView {
    ValueEditView {
        start: value_front(classes, k).len() as int,
        end: (value_front(classes, k).len() + classes[k].len()) as int,
        replacement: name,
    }
}

/// An edit of the range of a class replaces that class in the value.
pub proof fn law_edit_replaces_class(classes: Seq<Seq<char>>, k: int, name: Seq<char>)
    requires
        0 <= k < classes.len(),
    ensures
        value_after(joined(classes, " "@), class_edit(classes, k, name)) == joined(
            classes.update(k, name),
            " "@,
        ),
{
    let front = value_front(classes, k);
    let back = value_back(classes, k);
    let value = joined(classes, " "@);
    let after = classes.update(k, name);
    lemma_value_parts(classes, k);
    lemma_value_parts(after, k);
    lemma_value_back(classes, k, name);
    assert(after.take(k) =~= classes.take(k));
    assert(value.take(front.len() as int) =~= front);
    assert(value.skip((front.len() + classes[k].len()) as int) =~= back);
}

/// Some classes of a block and what each is to be replaced by, in the order in
/// which they stand.
pub open spec fn picks_in_order(picks: Seq<(int, Seq<char>)>, length: nat) -> bool {
    &&& forall|i: int| 0 <= i < picks.len() ==> 0 <= (#[trigger] picks[i]).0 < length
    &&& forall|i: int, j: int|
        0 <= i < j < picks.len() ==> (#[trigger] picks[i]).0 < (#[trigger] picks[j]).0
}

/// The classes with some of them replaced.
pub open spec fn replaced(
    classes: Seq<Seq<char>>,
    picks: Seq<(int, Seq<char>)>,
) -> Seq<Seq<char>>
    decreases picks.len(),
{
    if picks.len() == 0 {
        classes
    } else {
        replaced(classes, picks.drop_first()).update(picks[0].0, picks[0].1)
    }
}

/// The edits that replace some classes of a block.
pub open spec fn class_edits(
    classes: Seq<Seq<char>>,
    picks: Seq<(int, Seq<char>)>,
) -> Seq<ValueEditView> {
    picks.map_values(|p: (int, Seq<char>)| class_edit(classes, p.0, p.1))
}

/// A list turned round.
spec fn turned(edits: Seq<ValueEditView>) -> Seq<ValueEditView> {
    Seq::new(edits.len(), |a: int| edits[edits.len() - 1 - a])
}

proof fn lemma_replaced(classes: Seq<Seq<char>>, picks: Seq<(int, Seq<char>)>)
    requires
        picks_in_order(picks, classes.len()),
    ensures
        replaced(classes, picks).len() == classes.len(),
        forall|k: int|
            0 <= k < classes.len() && (picks.len() == 0 || k < picks[0].0) ==> (#[trigger] replaced(
                classes,
                picks,
            )[k]) == classes[k],
        value_after_all(joined(classes, " "@), turned(class_edits(classes, picks))) == joined(
            replaced(classes, picks),
            " "@,
        ),
    decreases picks.len(),
{
    let edits = class_edits(classes, picks);
    let list = turned(edits);
    if picks.len() > 0 {
        let rest = picks.drop_first();
        assert(picks_in_order(rest, classes.len())) by {
            assert forall|i: int| 0 <= i < rest.len() implies 0 <= (#[trigger] rest[i]).0
                < classes.len() by {
                assert(rest[i] == picks[i + 1]);
            }
            assert forall|i: int, j: int| 0 <= i < j < rest.len() implies (#[trigger] rest[i]).0 < (
            #[trigger] rest[j]).0 by {
                assert(rest[i] == picks[i + 1] && rest[j] == picks[j + 1]);
            }
        }
        lemma_replaced(classes, rest);
        let later = replaced(classes, rest);
        let k = picks[0].0;
        if rest.len() > 0 {
            assert(rest[0] == picks[1]);
            assert(picks[0].0 < picks[1].0);
        }
        assert(list.drop_last() =~= turned(class_edits(classes, rest)));
        assert(list.last() == class_edit(classes, k, picks[0].1));
        assert(later[k] == classes[k]);
        assert(later.take(k) =~= classes.take(k));
        assert(class_edit(later, k, picks[0].1) == class_edit(classes, k, picks[0].1));
        law_edit_replaces_class(later, k, picks[0].1);
    }
}

/// A class further back begins further back in the value.
pub proof fn lemma_front_grows(classes: Seq<Seq<char>>, a: int, b: int)
    requires
        0 <= a < b < classes.len(),
    ensures
        value_front(classes, a).len() < value_front(classes, b).len(),
{
    let front = classes.take(b);
    lemma_value_parts(front, a);
    assert(front.take(a) =~= classes.take(a));
    reveal_strlit(" ");
}

/// Each suggestion for a class of a block is applied to that class and to no
/// other, however many come and however long the replacements are; of the
/// result each class is kept where it first occurs.
pub proof fn law_suggestions_are_applied(
    classes: Seq<Seq<char>>,
    picks: Seq<(int, Seq<char>)>,
)
    requires
        picks_in_order(picks, classes.len()),
        plain_names(replaced(classes, picks)),
    ensures
        resolved(classes, class_edits(classes, picks)) == without_repeats(
            replaced(classes, picks),
        ),
{
    let edits = class_edits(classes, picks);
    let keys = edits.map_values(|e: ValueEditView| falling(e.start));
    assert forall|i: int, j: int| 0 <= i < j < keys.len() implies (#[trigger] keys[i]) > (
    #[trigger] keys[j]) by {
        assert(picks[i].0 < picks[j].0);
        lemma_front_grows(classes, picks[i].0, picks[j].0);
    }
    crate::order::law_falling_keys(keys);
    assert(value_edits_last_first(edits) =~= turned(edits));
    lemma_replaced(classes, picks);
    law_join_and_split(replaced(classes, picks));
}

} // verus!
