//! Fixing a corpus: the first pass records the suggestions of each block, the
//! second rewrites the sources from them.
use crate::blocks::{item_views, items_at, BlockItems, BlockKey};
use crate::check::{chunk_labels, header, labels_fit, print_file_header};
use crate::document::{ensure_blocks_matched, NothingMatched, CLASS_VALUE_COLUMN};
use crate::edits::{
    apply_splices, last_first, law_one_after_another, one_after_another, rebuilt, replaceable,
    splice_views, spliced_all, Splice, SpliceView,
};
use crate::finding::{
    by_position, classified_all, classify_by_position, finding_views, Finding, FindingView, Kind,
    KindView,
};
use crate::groups::{
    group_views, source_blocks, text_between, ClassGroup, GroupMatcher, GroupView,
};
use crate::layout::{
    class_edit, format_class_list, formatted, has_repeats, indent_at, law_join_and_split,
    law_resolved_is_stable, law_resolved_without_edits, plain_names, resolve_classes, resolved,
    unrepeated, value_edit_views, BlockLayout, ValueEdit, ValueEditView,
};
use crate::palette::{Palette, PaletteView};
use crate::protocol::{diagnostic_views, Diagnostic};
use crate::sweep::{
    all_diagnosed, capped, fresh_sweep, sweep_ended, sweep_next, sweep_step, sweep_with, Step, Sweep, SweepView,
};
use crate::text::{decimal, decimal_text, same_text, strings, text_of};
use vstd::prelude::*;
use vstd::string::*;
use vstd::utf8::*;

verus! {

/// The column of a line as a place in its class value; what lies before the
/// value is its beginning.
pub open spec fn value_column(column: u32) -> int {
    if column >= CLASS_VALUE_COLUMN {
        column - CLASS_VALUE_COLUMN
    } else {
        0
    }
}

/// What the first pass of a fix has recorded, counted and shown so far.
pub struct FixNotes {
    pub last_file: Option<Seq<char>>,
    pub edits: Map<BlockKey, Seq<ValueEditView>>,
    pub applied: nat,
    pub conflicts: nat,
    pub out: Seq<char>,
}

/// The notes after one more finding: a suggestion with a replacement becomes an
/// edit of its block, anything else that fails a check is a conflict that is
/// left.
pub open spec fn noted(
    notes: FixNotes,
    chunk: Seq<GroupView>,
    labels: Seq<Seq<char>>,
    palette: PaletteView,
    finding: FindingView,
) -> FixNotes {
    if finding.line >= chunk.len() {
        notes
    } else {
        let group = chunk[finding.line as int];
        let label = labels[finding.line as int];
        match finding.kind {
            KindView::Canonical(Some(replacement)) => {
                let key = (group.file, group.start);
                let edit = ValueEditView {
                    start: value_column(finding.start),
                    end: value_column(finding.end),
                    replacement,
                };
                FixNotes {
                    last_file: Some(group.file),
                    edits: notes.edits.insert(key, items_at(notes.edits, key).push(edit)),
                    applied: capped(notes.applied + 1),
                    out: notes.out + header(palette, label, group.file, notes.last_file) + "  "@
                        + palette.warn + "fix"@ + palette.reset + " "@ + palette.dim + decimal(
                        group.line as nat,
                    ) + palette.reset + "  "@ + finding.message + "\n"@,
                    ..notes
                }
            },
            KindView::Canonical(None) => notes,
            KindView::Fatal(_) => FixNotes { conflicts: capped(notes.conflicts + 1), ..notes },
            KindView::Minor => notes,
        }
    }
}

/// The notes after some more findings.
pub open spec fn noted_all(
    notes: FixNotes,
    chunk: Seq<GroupView>,
    labels: Seq<Seq<char>>,
    palette: PaletteView,
    findings: Seq<FindingView>,
) -> FixNotes
    decreases findings.len(),
{
    if findings.len() == 0 {
        notes
    } else {
        noted(
            noted_all(notes, chunk, labels, palette, findings.drop_last()),
            chunk,
            labels,
            palette,
            findings.last(),
        )
    }
}

/// The part of a text between two offsets, or nothing where they do not fit it.
pub open spec fn current_text(bytes: Seq<u8>, start: int, end: int) -> Seq<char> {
    if replaceable(bytes, start, end) {
        decode_utf8(bytes.subrange(start, end))
    } else {
        Seq::empty()
    }
}

/// A block's class list as a fix writes it.
pub open spec fn fixed_list(
    bytes: Seq<u8>,
    group: GroupView,
    edits: Seq<ValueEditView>,
) -> Seq<char> {
    formatted(resolved(group.classes, edits), indent_at(bytes, group.start))
}

/// What the second pass of a fix has made of a source so far. The blocks fit as
/// long as each class list starts at a character of the text.
pub struct RewriteNotes {
    pub edits: Map<BlockKey, Seq<ValueEditView>>,
    pub splices: Seq<SpliceView>,
    pub reformatted: nat,
    pub fits: bool,
}

/// The notes after one more block of a source: its edits are used up. A block
/// without edits in which no class occurs twice is kept as it is; of any other
/// the list is replaced where it reads differently. A replacement without an
/// edit is a reformatting.
pub open spec fn rewritten(
    notes: RewriteNotes,
    file: Seq<char>,
    bytes: Seq<u8>,
    group: GroupView,
) -> RewriteNotes {
    let key = (file, group.start);
    let edits = items_at(notes.edits, key);
    let rest = notes.edits.remove(key);
    if !is_char_boundary(bytes, group.start) {
        RewriteNotes { edits: rest, fits: false, ..notes }
    } else if edits.len() == 0 && unrepeated(group.classes) {
        RewriteNotes { edits: rest, ..notes }
    } else {
        let list = fixed_list(bytes, group, edits);
        if list == current_text(bytes, group.start, group.end) {
            RewriteNotes { edits: rest, ..notes }
        } else {
            RewriteNotes {
                edits: rest,
                splices: notes.splices.push(
                    SpliceView { start: group.start, end: group.end, text: list },
                ),
                reformatted: if edits.len() == 0 {
                    capped(notes.reformatted + 1)
                } else {
                    notes.reformatted
                },
                ..notes
            }
        }
    }
}

/// The notes after some more blocks of a source.
pub open spec fn rewritten_all(
    notes: RewriteNotes,
    file: Seq<char>,
    bytes: Seq<u8>,
    groups: Seq<GroupView>,
) -> RewriteNotes
    decreases groups.len(),
{
    if groups.len() == 0 {
        notes
    } else {
        rewritten(
            rewritten_all(notes, file, bytes, groups.drop_last()),
            file,
            bytes,
            groups.last(),
        )
    }
}

/// What becomes of a source.
#[derive(Debug)]
pub enum Rewrite {
    /// Nothing is to be changed.
    Keep,
    /// The source is to be replaced by this text.
    Write(String),
    /// The span of a block does not fit the text.
    Misfit,
}

pub enum RewriteView {
    Keep,
    Write(Seq<u8>),
    Misfit,
}

impl View for Rewrite {
    type V = RewriteView;

    open spec fn view(&self) -> RewriteView {
        match self {
            Rewrite::Keep => RewriteView::Keep,
            Rewrite::Write(text) => RewriteView::Write(encode_utf8(text@)),
            Rewrite::Misfit => RewriteView::Misfit,
        }
    }
}

/// What becomes of a source after some replacements, the last one first.
pub open spec fn outcome(bytes: Seq<u8>, splices: Seq<SpliceView>) -> RewriteView {
    if splices.len() == 0 {
        RewriteView::Keep
    } else {
        match spliced_all(bytes, last_first(splices)) {
            Some(after) => RewriteView::Write(after),
            None => RewriteView::Misfit,
        }
    }
}

/// Make the replacements of a source.
pub fn rewrite_text(text: &str, splices: &Vec<Splice>) -> (rewrite: Rewrite)
    ensures
        rewrite@ == outcome(text.spec_bytes(), splice_views(splices@)),
{
    assert(splice_views(splices@).len() == splices@.len());
    if splices.is_empty() {
        Rewrite::Keep
    } else {
        match apply_splices(text, splices) {
            Some(after) => Rewrite::Write(after),
            None => Rewrite::Misfit,
        }
    }
}

/// The part of a text between two offsets, or nothing where they do not fit it.
pub fn text_at(text: &str, start: usize, end: usize) -> (part: &str)
    ensures
        part@ == current_text(text.spec_bytes(), start as int, end as int),
{
    if start <= end && text.is_char_boundary(start) && text.is_char_boundary(end) {
        text_between(text, start, end)
    } else {
        proof {
            reveal_strlit("");
        }
        let none = "";
        assert(none@ =~= Seq::empty());
        none
    }
}

/// The suggestions and counts of a fix.
pub struct FixRecord {
    last_file: Option<String>,
    edits: BlockItems<ValueEdit>,
    applied: usize,
    reformatted: usize,
    conflicts: usize,
}

pub struct FixRecordView {
    pub last_file: Option<Seq<char>>,
    pub edits: Map<BlockKey, Seq<ValueEditView>>,
    pub applied: nat,
    pub reformatted: nat,
    pub conflicts: nat,
}

impl View for FixRecord {
    type V = FixRecordView;

    closed spec fn view(&self) -> FixRecordView {
        FixRecordView {
            last_file: text_of(self.last_file),
            edits: self.edits@,
            applied: self.applied as nat,
            reformatted: self.reformatted as nat,
            conflicts: self.conflicts as nat,
        }
    }
}

/// The beginning of a fix.
pub open spec fn fresh_record() -> FixRecordView {
    FixRecordView {
        last_file: None,
        edits: Map::empty(),
        applied: 0,
        reformatted: 0,
        conflicts: 0,
    }
}

/// The notes of a new chunk.
pub open spec fn chunk_notes(record: FixRecordView) -> FixNotes {
    FixNotes {
        last_file: record.last_file,
        edits: record.edits,
        applied: record.applied,
        conflicts: record.conflicts,
        out: Seq::empty(),
    }
}

/// The record with a chunk's notes.
pub open spec fn with_notes(record: FixRecordView, notes: FixNotes) -> FixRecordView {
    FixRecordView {
        last_file: notes.last_file,
        edits: notes.edits,
        applied: notes.applied,
        conflicts: notes.conflicts,
        ..record
    }
}

/// The notes of a new source.
pub open spec fn source_notes(record: FixRecordView) -> RewriteNotes {
    RewriteNotes {
        edits: record.edits,
        splices: Seq::empty(),
        reformatted: record.reformatted,
        fits: true,
    }
}

/// What a fix makes of a source with some blocks.
pub open spec fn source_rewrite(
    record: FixRecordView,
    file: Seq<char>,
    text: Seq<char>,
    groups: Seq<GroupView>,
) -> RewriteView {
    let bytes = encode_utf8(text);
    let notes = rewritten_all(source_notes(record), file, bytes, groups);
    if notes.fits {
        outcome(bytes, notes.splices)
    } else {
        RewriteView::Misfit
    }
}

/// The record after a source with some blocks was rewritten.
pub open spec fn record_after(
    record: FixRecordView,
    file: Seq<char>,
    text: Seq<char>,
    groups: Seq<GroupView>,
) -> FixRecordView {
    let notes = rewritten_all(source_notes(record), file, encode_utf8(text), groups);
    FixRecordView { edits: notes.edits, reformatted: notes.reformatted, ..record }
}

impl FixRecord {
    pub fn new() -> (record: FixRecord)
        ensures
            record@ == fresh_record(),
    {
        FixRecord {
            last_file: None,
            edits: BlockItems::new(),
            applied: 0,
            reformatted: 0,
            conflicts: 0,
        }
    }

    /// Record what one chunk's findings suggest; gives the text to print.
    pub fn note_fix_chunk(
        &mut self,
        chunk: &Vec<ClassGroup>,
        labels: &Vec<String>,
        palette: &Palette,
        findings: &Vec<Finding>,
    ) -> (out: String)
        requires
            labels@.len() == chunk@.len(),
        ensures
            out@ == noted_all(
                chunk_notes(old(self)@),
                group_views(chunk@),
                strings(labels@),
                palette@,
                finding_views(findings@),
            ).out,
            final(self)@ == with_notes(
                old(self)@,
                noted_all(
                    chunk_notes(old(self)@),
                    group_views(chunk@),
                    strings(labels@),
                    palette@,
                    finding_views(findings@),
                ),
            ),
    {
        let mut out = String::new();
        let mut i: usize = 0;
        let ghost all = finding_views(findings@);
        let ghost groups = group_views(chunk@);
        let ghost names = strings(labels@);
        let ghost start = chunk_notes(self@);
        let ghost kept = self@.reformatted;
        while i < findings.len()
            invariant
                i <= findings@.len(),
                labels@.len() == chunk@.len(),
                all == finding_views(findings@),
                groups == group_views(chunk@),
                names == strings(labels@),
                self@.reformatted == kept,
                noted_all(start, groups, names, palette@, all.take(i as int)) == (FixNotes {
                    last_file: text_of(self.last_file),
                    edits: self.edits@,
                    applied: self.applied as nat,
                    conflicts: self.conflicts as nat,
                    out: out@,
                }),
            decreases findings@.len() - i,
        {
            let finding = &findings[i];
            let ghost before = noted_all(start, groups, names, palette@, all.take(i as int));
            proof {
                assert(all.take(i + 1).drop_last() =~= all.take(i as int));
                assert(all.take(i + 1).last() == finding@);
            }
            let at: usize = finding.line as usize;
            if at < chunk.len() {
                let group = &chunk[at];
                let label = labels[at].as_str();
                assert(groups[at as int] == group@);
                assert(names[at as int] == label@);
                match &finding.kind {
                    Kind::Canonical(Some(replacement)) => {
                        let edit = ValueEdit {
                            start: finding.start.saturating_sub(CLASS_VALUE_COLUMN) as usize,
                            end: finding.end.saturating_sub(CLASS_VALUE_COLUMN) as usize,
                            replacement: replacement.clone(),
                        };
                        self.edits.record(group.file.as_str(), group.list_span.start, edit);
                        print_file_header(
                            &mut out,
                            palette,
                            label,
                            group.file.as_str(),
                            &mut self.last_file,
                        );
                        out.append("  ");
                        out.append(palette.warn);
                        out.append("fix");
                        out.append(palette.reset);
                        out.append(" ");
                        out.append(palette.dim);
                        out.append(decimal_text(group.line as u64).as_str());
                        out.append(palette.reset);
                        out.append("  ");
                        out.append(finding.message.as_str());
                        out.append("\n");
                        self.applied = self.applied.saturating_add(1);
                        assert(out@ =~= noted(before, groups, names, palette@, finding@).out);
                    },
                    Kind::Canonical(None) => {},
                    Kind::Fatal(_) => {
                        self.conflicts = self.conflicts.saturating_add(1);
                    },
                    Kind::Minor => {},
                }
            }
            i += 1;
        }
        assert(all.take(i as int) =~= all);
        out
    }

    /// Rewrite a source with some blocks: apply their edits, drop repeated
    /// classes, and write each list that changes one class per line.
    pub fn rewrite_blocks(&mut self, file: &str, text: &str, blocks: &Vec<ClassGroup>) -> (rewrite:
        Rewrite)
        ensures
            rewrite@ == source_rewrite(old(self)@, file@, text@, group_views(blocks@)),
            final(self)@ == record_after(old(self)@, file@, text@, group_views(blocks@)),
    {
        let mut splices: Vec<Splice> = Vec::new();
        let mut fits = true;
        let mut i: usize = 0;
        let ghost bytes = text.spec_bytes();
        let ghost all = group_views(blocks@);
        let ghost start = source_notes(self@);
        let ghost before_all = self@;
        proof {
            encode_utf8_valid_utf8(text@);
        }
        assert(splice_views(splices@) =~= Seq::empty());
        while i < blocks.len()
            invariant
                i <= blocks@.len(),
                bytes == text.spec_bytes(),
                valid_utf8(bytes),
                all == group_views(blocks@),
                self@.last_file == before_all.last_file,
                self@.applied == before_all.applied,
                self@.conflicts == before_all.conflicts,
                rewritten_all(start, file@, bytes, all.take(i as int)) == (RewriteNotes {
                    edits: self.edits@,
                    splices: splice_views(splices@),
                    reformatted: self.reformatted as nat,
                    fits,
                }),
            decreases blocks@.len() - i,
        {
            let group = &blocks[i];
            let ghost before = rewritten_all(start, file@, bytes, all.take(i as int));
            proof {
                assert(all.take(i + 1).drop_last() =~= all.take(i as int));
                assert(all.take(i + 1).last() == group@);
            }
            let first = group.list_span.start;
            let last = group.list_span.end;
            let edits = self.edits.take(file, first);
            assert(value_edit_views(edits@) =~= item_views(edits@));
            assert(value_edit_views(edits@).len() == edits@.len());
            if text.is_char_boundary(first) {
                if !edits.is_empty() || has_repeats(group) {
                    let classes = resolve_classes(group, &edits);
                    let layout = BlockLayout::at(text, first);
                    let list = format_class_list(&classes, &layout);
                    assert(list@ == fixed_list(bytes, group@, value_edit_views(edits@)));
                    if !same_text(list.as_str(), text_at(text, first, last)) {
                        let ghost old_splices = splices@;
                        let splice = Splice { start: first, end: last, text: list };
                        splices.push(splice);
                        assert(splice_views(splices@) =~= splice_views(old_splices).push(splice@));
                        if edits.is_empty() {
                            self.reformatted = self.reformatted.saturating_add(1);
                        }
                    }
                }
            } else {
                fits = false;
            }
            i += 1;
        }
        assert(all.take(i as int) =~= all);
        if fits {
            rewrite_text(text, &splices)
        } else {
            Rewrite::Misfit
        }
    }
}

/// A suggestion for a class of a block, at the columns where the block's line
/// holds that class, is recorded as the edit that replaces the class.
pub proof fn law_suggestion_is_recorded(
    notes: FixNotes,
    chunk: Seq<GroupView>,
    labels: Seq<Seq<char>>,
    palette: PaletteView,
    finding: FindingView,
    k: int,
    name: Seq<char>,
)
    requires
        finding.line < chunk.len(),
        0 <= k < chunk[finding.line as int].classes.len(),
        finding.kind == KindView::Canonical(Some(name)),
        finding.start == CLASS_VALUE_COLUMN + class_edit(
            chunk[finding.line as int].classes,
            k,
            name,
        ).start,
        finding.end == CLASS_VALUE_COLUMN + class_edit(
            chunk[finding.line as int].classes,
            k,
            name,
        ).end,
    ensures
        ({
            let group = chunk[finding.line as int];
            let key = (group.file, group.start);
            items_at(noted(notes, chunk, labels, palette, finding).edits, key) == items_at(
                notes.edits,
                key,
            ).push(class_edit(group.classes, k, name))
        }),
{
}

/// A block for which nothing is suggested and in which no class occurs twice is
/// kept as it is, in whatever shape it stands and whatever comments it holds.
pub proof fn law_unflagged_block_is_kept(
    notes: RewriteNotes,
    file: Seq<char>,
    bytes: Seq<u8>,
    group: GroupView,
)
    requires
        items_at(notes.edits, (file, group.start)).len() == 0,
        unrepeated(group.classes) || resolved(group.classes, Seq::empty()) == group.classes,
    ensures
        rewritten(notes, file, bytes, group).splices == notes.splices,
        rewritten(notes, file, bytes, group).reformatted == notes.reformatted,
{
    if !unrepeated(group.classes) {
        law_resolved_is_stable(group.classes, Seq::empty());
        law_join_and_split(group.classes);
    }
}

/// A list that already reads as a fix would write it, and has no edits, is
/// kept.
pub proof fn law_formatted_block_is_kept(
    notes: RewriteNotes,
    file: Seq<char>,
    bytes: Seq<u8>,
    group: GroupView,
)
    requires
        is_char_boundary(bytes, group.start),
        items_at(notes.edits, (file, group.start)).len() == 0,
        plain_names(group.classes),
        group.classes.no_duplicates(),
        current_text(bytes, group.start, group.end) == formatted(
            group.classes,
            indent_at(bytes, group.start),
        ),
    ensures
        rewritten(notes, file, bytes, group).splices == notes.splices,
        rewritten(notes, file, bytes, group).reformatted == notes.reformatted,
{
    law_resolved_without_edits(group.classes);
    law_unflagged_block_is_kept(notes, file, bytes, group);
}

/// A list that a fix has written is kept by the next one: once a block reads as
/// its fixed list does, and nothing new is suggested for it, nothing changes.
pub proof fn law_fixed_block_is_kept(
    notes: RewriteNotes,
    file: Seq<char>,
    bytes: Seq<u8>,
    group: GroupView,
    classes: Seq<Seq<char>>,
    edits: Seq<ValueEditView>,
)
    requires
        is_char_boundary(bytes, group.start),
        items_at(notes.edits, (file, group.start)).len() == 0,
        group.classes == resolved(classes, edits),
        current_text(bytes, group.start, group.end) == formatted(
            resolved(classes, edits),
            indent_at(bytes, group.start),
        ),
    ensures
        rewritten(notes, file, bytes, group).splices == notes.splices,
        rewritten(notes, file, bytes, group).reformatted == notes.reformatted,
{
    law_resolved_is_stable(classes, edits);
    law_formatted_block_is_kept(notes, file, bytes, group);
}

/// Each replacement of a fix is the class list of one of the source's blocks.
pub proof fn law_fix_replaces_lists(
    notes: RewriteNotes,
    file: Seq<char>,
    bytes: Seq<u8>,
    groups: Seq<GroupView>,
)
    requires
        notes.splices.len() == 0,
    ensures
        forall|i: int|
            0 <= i < rewritten_all(notes, file, bytes, groups).splices.len() ==> exists|k: int|
                0 <= k < groups.len() && (#[trigger] rewritten_all(
                    notes,
                    file,
                    bytes,
                    groups,
                ).splices[i]).start == (#[trigger] groups[k]).start && rewritten_all(
                    notes,
                    file,
                    bytes,
                    groups,
                ).splices[i].end == groups[k].end,
    decreases groups.len(),
{
    if groups.len() > 0 {
        let rest = groups.drop_last();
        law_fix_replaces_lists(notes, file, bytes, rest);
        let before = rewritten_all(notes, file, bytes, rest).splices;
        let after = rewritten_all(notes, file, bytes, groups).splices;
        assert forall|i: int| 0 <= i < after.len() implies exists|k: int|
            0 <= k < groups.len() && (#[trigger] after[i]).start == (#[trigger] groups[k]).start
                && after[i].end == groups[k].end by {
            if i < before.len() {
                assert(after[i] == before[i]);
                let k = choose|k: int|
                    0 <= k < rest.len() && before[i].start == (#[trigger] rest[k]).start
                        && before[i].end == rest[k].end;
                assert(groups[k] == rest[k]);
            } else {
                let k = groups.len() - 1;
                assert(after[i].start == groups[k].start);
            }
        }
    }
}

/// The class lists of a source's blocks stand one after the other in its text.
pub open spec fn lists_apart(bytes: Seq<u8>, groups: Seq<GroupView>) -> bool {
    &&& forall|i: int|
        0 <= i < groups.len() ==> replaceable(bytes, (#[trigger] groups[i]).start, groups[i].end)
    &&& forall|i: int, j: int|
        0 <= i < j < groups.len() ==> (#[trigger] groups[i]).start < (#[trigger] groups[j]).start
            && groups[i].end <= groups[j].start
}

/// The replacements of lists that stand one after the other do so too.
pub proof fn lemma_fix_in_order(
    notes: RewriteNotes,
    file: Seq<char>,
    bytes: Seq<u8>,
    groups: Seq<GroupView>,
)
    requires
        notes.splices.len() == 0,
        notes.fits,
        lists_apart(bytes, groups),
    ensures
        rewritten_all(notes, file, bytes, groups).fits,
        one_after_another(bytes, rewritten_all(notes, file, bytes, groups).splices),
    decreases groups.len(),
{
    if groups.len() > 0 {
        let rest = groups.drop_last();
        let last = groups.len() - 1;
        assert(lists_apart(bytes, rest)) by {
            assert forall|i: int| 0 <= i < rest.len() implies replaceable(
                bytes,
                (#[trigger] rest[i]).start,
                rest[i].end,
            ) by {
                assert(rest[i] == groups[i]);
            }
            assert forall|i: int, j: int| 0 <= i < j < rest.len() implies (
            #[trigger] rest[i]).start < (#[trigger] rest[j]).start && rest[i].end
                <= rest[j].start by {
                assert(rest[i] == groups[i] && rest[j] == groups[j]);
            }
        }
        lemma_fix_in_order(notes, file, bytes, rest);
        law_fix_replaces_lists(notes, file, bytes, rest);
        let before = rewritten_all(notes, file, bytes, rest).splices;
        let after = rewritten_all(notes, file, bytes, groups).splices;
        assert(replaceable(bytes, groups[last].start, groups[last].end));
        if after.len() > before.len() {
            let n = before.len() as int;
            assert forall|i: int| 0 <= i < after.len() implies replaceable(
                bytes,
                (#[trigger] after[i]).start,
                after[i].end,
            ) by {
                if i < n {
                    assert(after[i] == before[i]);
                }
            }
            assert forall|i: int, j: int| 0 <= i < j < after.len() implies (
            #[trigger] after[i]).start < (#[trigger] after[j]).start && after[i].end
                <= after[j].start by {
                assert(after[i] == before[i]);
                if j < n {
                    assert(after[j] == before[j]);
                } else {
                    let k = choose|k: int|
                        0 <= k < rest.len() && before[i].start == (#[trigger] rest[k]).start
                            && before[i].end == rest[k].end;
                    assert(rest[k] == groups[k]);
                    assert(groups[k].start < groups[last].start);
                }
            }
        }
    }
}

/// A fix replaces class lists of the source's blocks and nothing else: where the
/// lists stand one after the other, the source is rewritten with everything
/// outside the replaced lists kept byte by byte, or kept as a whole.
pub proof fn law_fix_keeps_the_rest(
    record: FixRecordView,
    file: Seq<char>,
    text: Seq<char>,
    groups: Seq<GroupView>,
)
    requires
        lists_apart(encode_utf8(text), groups),
    ensures
        ({
            let bytes = encode_utf8(text);
            let splices = rewritten_all(source_notes(record), file, bytes, groups).splices;
            source_rewrite(record, file, text, groups) == if splices.len() == 0 {
                RewriteView::Keep
            } else {
                RewriteView::Write(rebuilt(bytes, last_first(splices), bytes.len() as int))
            }
        }),
{
    let bytes = encode_utf8(text);
    let splices = rewritten_all(source_notes(record), file, bytes, groups).splices;
    lemma_fix_in_order(source_notes(record), file, bytes, groups);
    law_one_after_another(text, splices);
}

/// What a fix says at its end.
pub open spec fn fix_summary(palette: PaletteView, record: FixRecordView) -> Seq<char> {
    "\n"@ + palette.bold + "✓ "@ + decimal(record.applied) + " fixed  "@ + decimal(
        record.reformatted,
    ) + " reformatted  "@ + palette.error + decimal(record.conflicts) + " conflicts left"@
        + palette.reset + "\n"@
}

/// A fix of a corpus. In the first pass hand in the sources, the diagnostics of
/// the documents that it asks for, and the end of the sources; in the second
/// pass hand in the sources again, and write what each becomes.
pub struct FixRun {
    matcher: GroupMatcher,
    root: String,
    palette: Palette,
    sweep: Sweep,
    record: FixRecord,
}

pub struct FixView {
    pub opener: Seq<char>,
    pub item: Seq<char>,
    pub root: Seq<char>,
    pub palette: PaletteView,
    pub sweep: SweepView,
    pub record: FixRecordView,
}

impl View for FixRun {
    type V = FixView;

    closed spec fn view(&self) -> FixView {
        FixView {
            opener: self.matcher.opener_pattern(),
            item: self.matcher.item_pattern(),
            root: self.root@,
            palette: self.palette@,
            sweep: self.sweep@,
            record: self.record@,
        }
    }
}

impl FixRun {
    pub fn new(matcher: GroupMatcher, root: String, palette: Palette) -> (run: FixRun)
        ensures
            run@ == (FixView {
                opener: matcher.opener_pattern(),
                item: matcher.item_pattern(),
                root: root@,
                palette: palette@,
                sweep: fresh_sweep(),
                record: fresh_record(),
            }),
    {
        FixRun { matcher, root, palette, sweep: Sweep::new(), record: FixRecord::new() }
    }

    /// First pass: hand in the blocks of a source.
    pub fn on_blocks(&mut self, blocks: Vec<ClassGroup>) -> (step: Step)
        ensures
            final(self)@ == (FixView {
                sweep: sweep_next(sweep_with(old(self)@.sweep, group_views(blocks@))),
                ..old(self)@
            }),
            step@ == sweep_step(sweep_with(old(self)@.sweep, group_views(blocks@))),
    {
        self.sweep.add_source(blocks);
        self.sweep.next_step()
    }

    /// First pass: hand in a source.
    pub fn on_source(&mut self, file: &str, text: &str) -> (step: Step)
        ensures
            ({
                let blocks = source_blocks(old(self)@.opener, old(self)@.item, file@, text@);
                &&& final(self)@ == (FixView {
                    sweep: sweep_next(sweep_with(old(self)@.sweep, blocks)),
                    ..old(self)@
                })
                &&& step@ == sweep_step(sweep_with(old(self)@.sweep, blocks))
            }),
    {
        let blocks = self.matcher.extract(file, text);
        self.on_blocks(blocks)
    }

    /// First pass: hand in the end of the sources.
    pub fn on_sources_end(&mut self) -> (step: Step)
        ensures
            final(self)@ == (FixView {
                sweep: sweep_next(sweep_ended(old(self)@.sweep)),
                ..old(self)@
            }),
            step@ == sweep_step(sweep_ended(old(self)@.sweep)),
    {
        self.sweep.end_sources();
        self.sweep.next_step()
    }

    /// First pass: hand in the diagnostics of the document; gives the text to
    /// print. The labels are what the platform calls the paths of the blocks
    /// relative to the root.
    pub fn on_diagnostics(&mut self, diagnostics: &Vec<Diagnostic>) -> (answer: (String, Step))
        ensures
            exists|labels: Seq<Seq<char>>| #[trigger]
                labels_fit(labels, old(self)@.sweep.chunk, old(self)@.root) && {
                    let notes = noted_all(
                        chunk_notes(old(self)@.record),
                        old(self)@.sweep.chunk,
                        labels,
                        old(self)@.palette,
                        classified_all(by_position(diagnostic_views(diagnostics@))),
                    );
                    &&& answer.0@ == notes.out
                    &&& final(self)@ == (FixView {
                        sweep: sweep_next(old(self)@.sweep),
                        record: with_notes(old(self)@.record, notes),
                        ..old(self)@
                    })
                },
            answer.1@ == sweep_step(old(self)@.sweep),
    {
        let findings = classify_by_position(diagnostics);
        let labels = chunk_labels(self.sweep.chunk(), self.root.as_str());
        let out = self.record.note_fix_chunk(
            self.sweep.chunk(),
            &labels,
            &self.palette,
            &findings,
        );
        let step = self.sweep.next_step();
        assert(labels_fit(strings(labels@), old(self)@.sweep.chunk, old(self)@.root));
        (out, step)
    }

    /// The end of the first pass: there is nothing to fix where no block was
    /// found.
    pub fn ensure_matched(&self) -> (res: Result<(), NothingMatched>)
        ensures
            res is Err <==> self@.sweep.total == 0,
    {
        ensure_blocks_matched(self.sweep.total())
    }

    /// Second pass: what becomes of a source.
    pub fn rewrite_source(&mut self, file: &str, text: &str) -> (rewrite: Rewrite)
        ensures
            ({
                let blocks = source_blocks(old(self)@.opener, old(self)@.item, file@, text@);
                &&& rewrite@ == source_rewrite(old(self)@.record, file@, text@, blocks)
                &&& final(self)@ == (FixView {
                    record: record_after(old(self)@.record, file@, text@, blocks),
                    ..old(self)@
                })
            }),
    {
        let blocks = self.matcher.extract(file, text);
        self.record.rewrite_blocks(file, text, &blocks)
    }

    /// Second pass: what becomes of a source. As long as a block is not diagnosed,
    /// or where there was none, nothing is said and nothing changes, so that no
    /// source is written before the first pass is over.
    pub fn rewrite_diagnosed(&mut self, file: &str, text: &str) -> (rewrite: Option<Rewrite>)
        ensures
            rewrite is Some <==> all_diagnosed(old(self)@.sweep),
            match rewrite {
                Some(made) => {
                    let blocks = source_blocks(old(self)@.opener, old(self)@.item, file@, text@);
                    &&& made@ == source_rewrite(old(self)@.record, file@, text@, blocks)
                    &&& final(self)@ == (FixView {
                        record: record_after(old(self)@.record, file@, text@, blocks),
                        ..old(self)@
                    })
                },
                None => final(self)@ == old(self)@,
            },
    {
        if self.sweep.is_through() {
            Some(self.rewrite_source(file, text))
        } else {
            None
        }
    }

    /// The end of a fix: the text to print.
    pub fn finish(self) -> (text: String)
        ensures
            text@ == fix_summary(self@.palette, self@.record),
    {
        let mut text = "\n".to_string();
        text.append(self.palette.bold);
        text.append("✓ ");
        text.append(decimal_text(self.record.applied as u64).as_str());
        text.append(" fixed  ");
        text.append(decimal_text(self.record.reformatted as u64).as_str());
        text.append(" reformatted  ");
        text.append(self.palette.error);
        text.append(decimal_text(self.record.conflicts as u64).as_str());
        text.append(" conflicts left");
        text.append(self.palette.reset);
        text.append("\n");
        text
    }
}

} // verus!
