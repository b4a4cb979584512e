//! The synthetic document that a chunk of blocks is diagnosed in: one line per
//! block, so that a diagnostic's line names its block.
use crate::groups::{group_views, ClassGroup, GroupView};
use crate::text::{first_position, join_texts, joined, strings};
use vstd::prelude::*;
use vstd::string::*;

verus! {

/// Column where the class value starts in `<div class="…">`.
pub const CLASS_VALUE_COLUMN: u32 = 12;

/// A block's classes in one value.
pub open spec fn class_value(group: GroupView) -> Seq<char> {
    joined(group.classes, " "@)
}

/// The line of a block.
pub open spec fn block_line(group: GroupView) -> Seq<char> {
    "<div class=\""@ + class_value(group) + "\"></div>"@
}

pub open spec fn block_lines(chunk: Seq<GroupView>) -> Seq<Seq<char>> {
    chunk.map_values(|g: GroupView| block_line(g))
}

/// The document of a chunk.
pub open spec fn document_of(chunk: Seq<GroupView>) -> Seq<char> {
    joined(block_lines(chunk), "\n"@)
}

/// One synthetic HTML document for a chunk: block `i` becomes a `class="…"` on
/// line `i`.
pub fn build_document(chunk: &Vec<ClassGroup>) -> (document: String)
    ensures
        document@ == document_of(group_views(chunk@)),
{
    let mut lines: Vec<String> = Vec::new();
    let mut i: usize = 0;
    let ghost all = group_views(chunk@);
    while i < chunk.len()
        invariant
            i <= chunk@.len(),
            all == group_views(chunk@),
            lines@.len() == i,
            forall|j: int| 0 <= j < i ==> (#[trigger] lines@[j])@ == block_line(all[j]),
        decreases chunk@.len() - i,
    {
        let mut line = "<div class=\"".to_string();
        line.append(join_texts(&chunk[i].classes, " ").as_str());
        line.append("\"></div>");
        assert(all[i as int] == chunk@[i as int]@);
        lines.push(line);
        i += 1;
    }
    assert(strings(lines@) =~= block_lines(all));
    join_texts(&lines, "\n")
}

/// The lines of a text.
pub open spec fn lines_of(text: Seq<char>) -> Seq<Seq<char>>
    decreases text.len(),
    via lines_of_decreases
{
    let n = first_position(text, '\n') as int;
    if n < text.len() {
        seq![text.take(n)] + lines_of(text.skip(n + 1))
    } else {
        seq![text]
    }
}

#[via_fn]
proof fn lines_of_decreases(text: Seq<char>) {
}

/// A text without a newline in it.
pub open spec fn one_line(text: Seq<char>) -> bool {
    first_position(text, '\n') == text.len()
}

proof fn lemma_first_position_append(a: Seq<char>, b: Seq<char>)
    ensures
        one_line(a) ==> first_position(a + b, '\n') == a.len() + first_position(b, '\n'),
        !one_line(a) ==> first_position(a + b, '\n') == first_position(a, '\n')
            && first_position(a, '\n') < a.len(),
    decreases a.len(),
{
    if a.len() == 0 {
        assert(a + b =~= b);
    } else if a[0] != '\n' {
        assert((a + b).drop_first() =~= a.drop_first() + b);
        lemma_first_position_append(a.drop_first(), b);
    }
}

proof fn lemma_lines_append(text: Seq<char>, line: Seq<char>)
    requires
        one_line(line),
    ensures
        lines_of(text + "\n"@ + line) == lines_of(text).push(line),
    decreases text.len(),
{
    reveal_strlit("\n");
    let whole = text + "\n"@ + line;
    let tail = "\n"@ + line;
    assert(whole =~= text + tail);
    lemma_first_position_append(text, tail);
    let n = first_position(whole, '\n') as int;
    if one_line(text) {
        assert(n == text.len());
        assert(whole.take(n) =~= text);
        assert(whole.skip(n + 1) =~= line);
        assert(lines_of(line) == seq![line]);
        assert(lines_of(whole) =~= lines_of(text).push(line));
    } else {
        let rest = text.skip(n + 1);
        assert(whole.take(n) =~= text.take(n));
        assert(whole.skip(n + 1) =~= rest + "\n"@ + line);
        lemma_lines_append(rest, line);
        assert(lines_of(whole) =~= lines_of(text).push(line));
    }
}

/// Line `i` of a chunk's document is the line of its block `i`, as long as no
/// class holds a newline: a diagnostic's line maps straight back to a block.
pub proof fn law_line_names_block(chunk: Seq<GroupView>)
    requires
        chunk.len() > 0,
        forall|i: int| 0 <= i < chunk.len() ==> one_line(class_value(#[trigger] chunk[i])),
    ensures
        lines_of(document_of(chunk)) == block_lines(chunk),
    decreases chunk.len(),
{
    let lines = block_lines(chunk);
    let last = chunk.last();
    lemma_block_is_one_line(last);
    if chunk.len() == 1 {
        assert(lines =~= seq![block_line(last)]);
    } else {
        let rest = chunk.drop_last();
        assert forall|i: int| 0 <= i < rest.len() implies one_line(
            class_value(#[trigger] rest[i]),
        ) by {
            assert(rest[i] == chunk[i]);
        }
        law_line_names_block(rest);
        assert(lines.drop_last() =~= block_lines(rest));
        assert(lines.last() == block_line(last));
        lemma_lines_append(document_of(rest), block_line(last));
        assert(block_lines(rest).push(block_line(last)) =~= lines);
    }
}

proof fn lemma_one_line_append(a: Seq<char>, b: Seq<char>)
    requires
        one_line(a),
        one_line(b),
    ensures
        one_line(a + b),
{
    lemma_first_position_append(a, b);
}

proof fn lemma_block_is_one_line(group: GroupView)
    requires
        one_line(class_value(group)),
    ensures
        one_line(block_line(group)),
{
    reveal_strlit("<div class=\"");
    reveal_strlit("\"></div>");
    lemma_no_newline("<div class=\""@);
    lemma_no_newline("\"></div>"@);
    lemma_one_line_append("<div class=\""@, class_value(group));
    lemma_one_line_append("<div class=\""@ + class_value(group), "\"></div>"@);
}

proof fn lemma_no_newline(text: Seq<char>)
    requires
        forall|i: int| 0 <= i < text.len() ==> #[trigger] text[i] != '\n',
    ensures
        one_line(text),
    decreases text.len(),
{
    if text.len() > 0 {
        assert(text[0] != '\n');
        let rest = text.drop_first();
        assert forall|i: int| 0 <= i < rest.len() implies #[trigger] rest[i] != '\n' by {
            assert(rest[i] == text[i + 1]);
        }
        lemma_no_newline(rest);
    }
}

/// In a block's line the class value starts at `CLASS_VALUE_COLUMN`.
pub proof fn law_class_value_column(group: GroupView)
    ensures
        block_line(group).len() >= CLASS_VALUE_COLUMN + class_value(group).len(),
        forall|k: int|
            0 <= k < class_value(group).len() ==> block_line(group)[CLASS_VALUE_COLUMN + k]
                == #[trigger] class_value(group)[k],
{
    reveal_strlit("<div class=\"");
}

/// No class block was found at all.
#[derive(Debug)]
pub struct NothingMatched;

impl NothingMatched {
    /// The message for the user.
    pub fn message(&self) -> (text: String)
        ensures
            text@
                == "no class blocks matched --class-container: nothing was linted. The regex must match only the macro opener (e.g. `tw!\\s*\\[`); tw-lint scans for the closing bracket itself."@,
    {
        "no class blocks matched --class-container: nothing was linted. The regex must match only the macro opener (e.g. `tw!\\s*\\[`); tw-lint scans for the closing bracket itself.".to_string()
    }
}

/// Refuse to report "clean" when nothing was extracted: a corpus without blocks
/// almost always means that the `--class-container` pattern does not match the
/// macro.
pub fn ensure_blocks_matched(total_blocks: usize) -> (res: Result<(), NothingMatched>)
    ensures
        res is Err <==> total_blocks == 0,
{
    if total_blocks == 0 {
        Err(NothingMatched)
    } else {
        Ok(())
    }
}

} // verus!
