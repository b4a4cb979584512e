//! The first pass over a corpus: blocks are collected source by source and
//! handed out in chunks, across source boundaries, so that each chunk is
//! diagnosed in one document.
use crate::document::{build_document, document_of};
use crate::groups::{group_views, ClassGroup, GroupView};
use vstd::prelude::*;
use vstd::string::*;

verus! {

/// Blocks per synthetic document. Only ever one document is open at a time, so
/// this bounds the size of what is validated at once, not total memory. The
/// server waits a fixed time after each change before it validates: with small
/// chunks that waiting dominates, while validation itself grows faster than the
/// number of blocks.
pub const CHUNK_SIZE: usize = 2000;

/// What is to be done next in a sweep.
#[derive(Debug)]
pub enum Step {
    /// Hand in the next source, or the end of the sources.
    NextSource,
    /// Put this text into the document and hand in its diagnostics.
    Diagnose(String),
    /// Close the document: every block has been diagnosed.
    Close,
}

pub enum StepView {
    NextSource,
    Diagnose(Seq<char>),
    Close,
}

impl View for Step {
    type V = StepView;

    open spec fn view(&self) -> StepView {
        match self {
            Step::NextSource => StepView::NextSource,
            Step::Diagnose(document) => StepView::Diagnose(document@),
            Step::Close => StepView::Close,
        }
    }
}

/// A sweep: the blocks that wait, the chunk that is being diagnosed, how many
/// blocks there were, and whether the sources have ended.
pub struct Sweep {
    pending: Vec<ClassGroup>,
    chunk: Vec<ClassGroup>,
    total: usize,
    ended: bool,
}

pub struct SweepView {
    pub pending: Seq<GroupView>,
    pub chunk: Seq<GroupView>,
    pub total: nat,
    pub ended: bool,
}

impl View for Sweep {
    type V = SweepView;

    closed spec fn view(&self) -> SweepView {
        SweepView {
            pending: group_views(self.pending@),
            chunk: group_views(self.chunk@),
            total: self.total as nat,
            ended: self.ended,
        }
    }
}

/// A count that stops at the largest number.
pub open spec fn capped(n: nat) -> nat {
    if n <= usize::MAX {
        n
    } else {
        usize::MAX as nat
    }
}

/// The beginning of a sweep.
pub open spec fn fresh_sweep() -> SweepView {
    SweepView { pending: Seq::empty(), chunk: Seq::empty(), total: 0, ended: false }
}

/// The sweep after the blocks of one more source.
pub open spec fn sweep_with(sweep: SweepView, blocks: Seq<GroupView>) -> SweepView {
    SweepView {
        pending: sweep.pending + blocks,
        total: capped(sweep.total + blocks.len()),
        ..sweep
    }
}

/// The sweep once the sources have ended.
pub open spec fn sweep_ended(sweep: SweepView) -> SweepView {
    SweepView { ended: true, ..sweep }
}

/// Whether a chunk can be handed out: it is full, or it is the last.
pub open spec fn chunk_ready(sweep: SweepView) -> bool {
    sweep.pending.len() >= CHUNK_SIZE || (sweep.ended && sweep.pending.len() > 0)
}

/// The number of blocks in the next chunk.
pub open spec fn chunk_length(sweep: SweepView) -> int {
    if sweep.pending.len() >= CHUNK_SIZE {
        CHUNK_SIZE as int
    } else {
        sweep.pending.len() as int
    }
}

/// The sweep after the next step.
pub open spec fn sweep_next(sweep: SweepView) -> SweepView {
    if chunk_ready(sweep) {
        SweepView {
            chunk: sweep.pending.take(chunk_length(sweep)),
            pending: sweep.pending.skip(chunk_length(sweep)),
            ..sweep
        }
    } else {
        SweepView { chunk: Seq::empty(), ..sweep }
    }
}

/// The next step of a sweep.
pub open spec fn sweep_step(sweep: SweepView) -> StepView {
    if chunk_ready(sweep) {
        StepView::Diagnose(document_of(sweep.pending.take(chunk_length(sweep))))
    } else if sweep.ended {
        StepView::Close
    } else {
        StepView::NextSource
    }
}

/// Every block has been diagnosed, and there was one: the sources have ended, no
/// block waits and no chunk is out.
pub open spec fn all_diagnosed(sweep: SweepView) -> bool {
    sweep.ended && sweep.pending.len() == 0 && sweep.chunk.len() == 0 && sweep.total > 0
}

/// A sweep that found a block is through once it asks for the document to be
/// closed, and not before.
pub proof fn law_diagnosed_at_the_close(sweep: SweepView)
    ensures
        all_diagnosed(sweep_next(sweep)) <==> sweep_step(sweep) == StepView::Close && sweep.total
            > 0,
{
}

impl Sweep {
    pub fn new() -> (sweep: Sweep)
        ensures
            sweep@ == fresh_sweep(),
    {
        let sweep = Sweep { pending: Vec::new(), chunk: Vec::new(), total: 0, ended: false };
        assert(sweep@.pending =~= Seq::empty());
        assert(sweep@.chunk =~= Seq::empty());
        sweep
    }

    /// The number of blocks that were handed in.
    pub fn total(&self) -> (total: usize)
        ensures
            total == self@.total,
    {
        self.total
    }

    /// Whether every block has been diagnosed, and there was one.
    pub fn is_through(&self) -> (through: bool)
        ensures
            through == all_diagnosed(self@),
    {
        assert(self@.pending.len() == self.pending@.len());
        assert(self@.chunk.len() == self.chunk@.len());
        self.ended && self.pending.is_empty() && self.chunk.is_empty() && self.total > 0
    }

    /// The chunk that is being diagnosed.
    pub fn chunk(&self) -> (chunk: &Vec<ClassGroup>)
        ensures
            group_views(chunk@) == self@.chunk,
    {
        &self.chunk
    }

    /// Hand in the blocks of a source.
    pub fn add_source(&mut self, blocks: Vec<ClassGroup>)
        ensures
            final(self)@ == sweep_with(old(self)@, group_views(blocks@)),
    {
        let mut blocks = blocks;
        let ghost more = group_views(blocks@);
        let ghost before = self@;
        self.total = self.total.saturating_add(blocks.len());
        self.pending.append(&mut blocks);
        assert(self@.pending =~= before.pending + more);
    }

    /// Hand in the end of the sources.
    pub fn end_sources(&mut self)
        ensures
            final(self)@ == sweep_ended(old(self)@),
    {
        self.ended = true;
    }

    /// Go on: hand out the next chunk's document, or say what else is needed.
    /// Between sources fewer blocks wait than make a chunk.
    pub fn next_step(&mut self) -> (step: Step)
        ensures
            final(self)@ == sweep_next(old(self)@),
            step@ == sweep_step(old(self)@),
            final(self)@.chunk.len() <= CHUNK_SIZE,
            step is NextSource ==> final(self)@.pending.len() < CHUNK_SIZE,
            step is Close ==> final(self)@.pending.len() == 0,
    {
        let ghost before = self@;
        let length: usize = self.pending.len();
        if length >= CHUNK_SIZE || (self.ended && length > 0) {
            let n: usize = if length >= CHUNK_SIZE {
                CHUNK_SIZE
            } else {
                length
            };
            let mut chunk: Vec<ClassGroup> = Vec::new();
            std::mem::swap(&mut chunk, &mut self.pending);
            let rest = chunk.split_off(n);
            self.pending = rest;
            self.chunk = chunk;
            assert(self@.chunk =~= before.pending.take(n as int));
            assert(self@.pending =~= before.pending.skip(n as int));
            Step::Diagnose(build_document(&self.chunk))
        } else {
            self.chunk = Vec::new();
            assert(self@.chunk =~= Seq::empty());
            assert(self@.pending == before.pending);
            if self.ended {
                Step::Close
            } else {
                Step::NextSource
            }
        }
    }
}

/// The chunks that a sweep hands out before it needs something else.
pub open spec fn drained_chunks(sweep: SweepView) -> Seq<Seq<GroupView>>
    decreases sweep.pending.len(),
{
    if chunk_ready(sweep) {
        seq![sweep_next(sweep).chunk] + drained_chunks(sweep_next(sweep))
    } else {
        Seq::empty()
    }
}

/// The sweep after it has handed out these chunks.
pub open spec fn drained(sweep: SweepView) -> SweepView
    decreases sweep.pending.len(),
{
    if chunk_ready(sweep) {
        drained(sweep_next(sweep))
    } else {
        sweep_next(sweep)
    }
}

/// All chunks of a sweep over some sources: after each source the chunks that
/// are full, at the end what is left.
pub open spec fn swept(sweep: SweepView, sources: Seq<Seq<GroupView>>) -> Seq<Seq<GroupView>>
    decreases sources.len(),
{
    if sources.len() == 0 {
        drained_chunks(sweep_ended(sweep))
    } else {
        let with = sweep_with(sweep, sources[0]);
        drained_chunks(with) + swept(drained(with), sources.drop_first())
    }
}

/// A list in chunks: all but the last are full, and none is empty.
pub open spec fn chunked(blocks: Seq<GroupView>) -> Seq<Seq<GroupView>>
    decreases blocks.len(),
{
    if blocks.len() == 0 {
        Seq::empty()
    } else if blocks.len() < CHUNK_SIZE {
        seq![blocks]
    } else {
        seq![blocks.take(CHUNK_SIZE as int)] + chunked(blocks.skip(CHUNK_SIZE as int))
    }
}

/// The lists of a list, one after the other.
pub open spec fn flattened(lists: Seq<Seq<GroupView>>) -> Seq<GroupView>
    decreases lists.len(),
{
    if lists.len() == 0 {
        Seq::empty()
    } else {
        lists[0] + flattened(lists.drop_first())
    }
}

proof fn lemma_chunked_flat(blocks: Seq<GroupView>)
    ensures
        flattened(chunked(blocks)) == blocks,
        forall|i: int|
            0 <= i < chunked(blocks).len() ==> 0 < (#[trigger] chunked(blocks)[i]).len()
                <= CHUNK_SIZE,
        forall|i: int|
            0 <= i < chunked(blocks).len() - 1 ==> (#[trigger] chunked(blocks)[i]).len()
                == CHUNK_SIZE,
    decreases blocks.len(),
{
    let n = CHUNK_SIZE as int;
    if blocks.len() == 0 {
        assert(flattened(chunked(blocks)) =~= blocks);
    } else if blocks.len() < CHUNK_SIZE {
        let all = chunked(blocks);
        assert(all.drop_first() =~= Seq::empty());
        assert(flattened(all.drop_first()) =~= Seq::empty());
        assert(flattened(all) =~= blocks);
    } else {
        let rest = chunked(blocks.skip(n));
        lemma_chunked_flat(blocks.skip(n));
        let all = chunked(blocks);
        assert(all == seq![blocks.take(n)] + rest);
        assert(all.drop_first() =~= rest);
        assert(flattened(all) =~= blocks);
        assert forall|i: int| 0 <= i < all.len() implies 0 < (#[trigger] all[i]).len()
            <= CHUNK_SIZE by {
            if i > 0 {
                assert(all[i] == rest[i - 1]);
            }
        }
        assert forall|i: int| 0 <= i < all.len() - 1 implies (#[trigger] all[i]).len()
            == CHUNK_SIZE by {
            if i > 0 {
                assert(all[i] == rest[i - 1]);
            }
        }
    }
}

/// Before the end of the sources, handing out the full chunks of what waits
/// leaves the rest for later.
proof fn lemma_drained(sweep: SweepView, more: Seq<GroupView>)
    requires
        !sweep.ended,
    ensures
        drained(sweep).pending.len() < CHUNK_SIZE,
        !drained(sweep).ended,
        chunked(sweep.pending + more) == drained_chunks(sweep) + chunked(
            drained(sweep).pending + more,
        ),
    decreases sweep.pending.len(),
{
    let n = CHUNK_SIZE as int;
    let whole = sweep.pending + more;
    if chunk_ready(sweep) {
        let next = sweep_next(sweep);
        lemma_drained(next, more);
        assert(whole.take(n) =~= sweep.pending.take(n));
        assert(whole.skip(n) =~= next.pending + more);
        assert(chunked(whole) == seq![whole.take(n)] + chunked(whole.skip(n)));
        assert(seq![whole.take(n)] + (drained_chunks(next) + chunked(drained(next).pending + more))
            =~= (seq![next.chunk] + drained_chunks(next)) + chunked(drained(next).pending + more));
    } else {
        assert(Seq::<Seq<GroupView>>::empty() + chunked(whole) =~= chunked(whole));
    }
}

proof fn lemma_swept(sweep: SweepView, sources: Seq<Seq<GroupView>>)
    requires
        !sweep.ended,
        sweep.pending.len() < CHUNK_SIZE,
    ensures
        swept(sweep, sources) == chunked(sweep.pending + flattened(sources)),
    decreases sources.len(),
{
    if sources.len() == 0 {
        let end = sweep_ended(sweep);
        assert(sweep.pending + flattened(sources) =~= sweep.pending);
        if sweep.pending.len() > 0 {
            let next = sweep_next(end);
            assert(next.chunk =~= sweep.pending);
            assert(drained_chunks(next) =~= Seq::empty());
            assert(drained_chunks(end) =~= seq![sweep.pending]);
        }
        assert(swept(sweep, sources) =~= chunked(sweep.pending));
    } else {
        let with = sweep_with(sweep, sources[0]);
        let rest = flattened(sources.drop_first());
        lemma_drained(with, rest);
        lemma_swept(drained(with), sources.drop_first());
        assert(sweep.pending + flattened(sources) =~= with.pending + rest);
    }
}

/// A sweep hands out every block of every source exactly once and in order, in
/// chunks that are full but for the last and never empty, wherever the sources
/// begin and end.
pub proof fn law_sweep_hands_out_every_block(sources: Seq<Seq<GroupView>>)
    ensures
        swept(fresh_sweep(), sources) == chunked(flattened(sources)),
        flattened(swept(fresh_sweep(), sources)) == flattened(sources),
        forall|i: int|
            0 <= i < swept(fresh_sweep(), sources).len() ==> 0 < (#[trigger] swept(
                fresh_sweep(),
                sources,
            )[i]).len() <= CHUNK_SIZE,
        forall|i: int|
            0 <= i < swept(fresh_sweep(), sources).len() - 1 ==> (#[trigger] swept(
                fresh_sweep(),
                sources,
            )[i]).len() == CHUNK_SIZE,
{
    lemma_swept(fresh_sweep(), sources);
    assert(fresh_sweep().pending + flattened(sources) =~= flattened(sources));
    lemma_chunked_flat(flattened(sources));
}

} // verus!
