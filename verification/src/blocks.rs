//! What is recorded of blocks between two passes. A block's identity is its
//! file together with the byte offset where its class list starts.
use crate::text::same_text;
use vstd::prelude::*;
use vstd::string::*;

verus! {

/// A block's identity: its file and where its class list starts.
pub type BlockKey = (Seq<char>, int);

/// The items that were recorded of each block, in the order in which they were
/// recorded.
pub struct BlockItems<T> {
    entries: Vec<(String, usize, Vec<T>)>,
}

/// The views of a list's items.
pub open spec fn item_views<T: View>(items: Seq<T>) -> Seq<T::V> {
    items.map_values(|t: T| t@)
}

spec fn key_of<T>(entry: (String, usize, Vec<T>)) -> BlockKey {
    (entry.0@, entry.1 as int)
}

spec fn keys_differ<T>(entries: Seq<(String, usize, Vec<T>)>) -> bool {
    forall|i: int, j: int|
        0 <= i < j < entries.len() ==> key_of(#[trigger] entries[i]) != key_of(
            #[trigger] entries[j],
        )
}

spec fn entries_map<T: View>(entries: Seq<(String, usize, Vec<T>)>) -> Map<BlockKey, Seq<T::V>> {
    Map::new(
        |key: BlockKey| exists|i: int| 0 <= i < entries.len() && key_of(#[trigger] entries[i]) == key,
        |key: BlockKey|
            item_views(
                entries[choose|i: int|
                    0 <= i < entries.len() && key_of(#[trigger] entries[i]) == key].2@,
            ),
    )
}

/// What a map holds for a key, or nothing.
pub open spec fn items_at<V>(map: Map<BlockKey, Seq<V>>, key: BlockKey) -> Seq<V> {
    if map.dom().contains(key) {
        map[key]
    } else {
        Seq::empty()
    }
}

impl<T: View> View for BlockItems<T> {
    type V = Map<BlockKey, Seq<T::V>>;

    closed spec fn view(&self) -> Map<BlockKey, Seq<T::V>> {
        entries_map(self.entries@)
    }
}

proof fn lemma_entry<T: View>(entries: Seq<(String, usize, Vec<T>)>, at: int)
    requires
        keys_differ(entries),
        0 <= at < entries.len(),
    ensures
        entries_map(entries).dom().contains(key_of(entries[at])),
        entries_map(entries)[key_of(entries[at])] == item_views(entries[at].2@),
{
    let key = key_of(entries[at]);
    let i = choose|i: int| 0 <= i < entries.len() && key_of(#[trigger] entries[i]) == key;
    assert(i == at);
}

/// An entry that is appended adds its key to the map.
proof fn lemma_entry_added<T: View>(
    entries: Seq<(String, usize, Vec<T>)>,
    entry: (String, usize, Vec<T>),
)
    requires
        keys_differ(entries),
        !entries_map(entries).dom().contains(key_of(entry)),
    ensures
        keys_differ(entries.push(entry)),
        entries_map(entries.push(entry)) == entries_map(entries).insert(
            key_of(entry),
            item_views(entry.2@),
        ),
{
    let after = entries.push(entry);
    let n = entries.len() as int;
    assert forall|i: int, j: int| 0 <= i < j < after.len() implies key_of(#[trigger] after[i])
        != key_of(#[trigger] after[j]) by {
        assert(after[i] == entries[i]);
        if j < n {
            assert(after[j] == entries[j]);
        } else {
            assert(entries_map(entries).dom().contains(key_of(entries[i])));
        }
    }
    let left = entries_map(after);
    let right = entries_map(entries).insert(key_of(entry), item_views(entry.2@));
    assert forall|key: BlockKey| left.dom().contains(key) == right.dom().contains(key) by {
        if left.dom().contains(key) {
            let i = choose|i: int| 0 <= i < after.len() && key_of(#[trigger] after[i]) == key;
            if i < n {
                assert(key_of(entries[i]) == key);
            }
        }
        if right.dom().contains(key) {
            if key == key_of(entry) {
                assert(key_of(after[n]) == key);
            } else {
                let i = choose|i: int| 0 <= i < n && key_of(#[trigger] entries[i]) == key;
                assert(key_of(after[i]) == key);
            }
        }
    }
    assert forall|key: BlockKey| #[trigger] left.dom().contains(key) implies left[key]
        == right[key] by {
        let i = choose|i: int| 0 <= i < after.len() && key_of(#[trigger] after[i]) == key;
        lemma_entry(after, i);
        if i < n {
            assert(after[i] == entries[i]);
            lemma_entry(entries, i);
            assert(key != key_of(entry));
        }
    }
    assert(left =~= right);
}

/// An entry that is taken out, the last one in its place, takes its key with
/// it.
proof fn lemma_entry_removed<T: View>(entries: Seq<(String, usize, Vec<T>)>, at: int)
    requires
        keys_differ(entries),
        0 <= at < entries.len(),
    ensures
        keys_differ(entries.update(at, entries.last()).drop_last()),
        entries_map(entries.update(at, entries.last()).drop_last()) == entries_map(
            entries,
        ).remove(key_of(entries[at])),
{
    let after = entries.update(at, entries.last()).drop_last();
    let n = entries.len() - 1;
    assert forall|i: int| 0 <= i < n implies #[trigger] after[i] == (if i == at {
        entries[n]
    } else {
        entries[i]
    }) by {}
    assert forall|i: int, j: int| 0 <= i < j < after.len() implies key_of(#[trigger] after[i])
        != key_of(#[trigger] after[j]) by {
        let a = if i == at { n } else { i };
        let b = if j == at { n } else { j };
        assert(after[i] == entries[a] && after[j] == entries[b]);
        if a < b {
            assert(key_of(entries[a]) != key_of(entries[b]));
        } else {
            assert(key_of(entries[b]) != key_of(entries[a]));
        }
    }
    let left = entries_map(after);
    let right = entries_map(entries).remove(key_of(entries[at]));
    assert forall|key: BlockKey| left.dom().contains(key) == right.dom().contains(key) by {
        if left.dom().contains(key) {
            let i = choose|i: int| 0 <= i < after.len() && key_of(#[trigger] after[i]) == key;
            let a = if i == at { n } else { i };
            assert(after[i] == entries[a]);
            assert(key_of(entries[a]) == key);
            if a < at {
                assert(key_of(entries[a]) != key_of(entries[at]));
            } else {
                assert(key_of(entries[at]) != key_of(entries[a]));
            }
        }
        if right.dom().contains(key) {
            let i = choose|i: int| 0 <= i < entries.len() && key_of(#[trigger] entries[i]) == key;
            assert(i != at);
            if i == n {
                assert(key_of(after[at]) == key);
            } else {
                assert(key_of(after[i]) == key);
            }
        }
    }
    assert forall|key: BlockKey| #[trigger] left.dom().contains(key) implies left[key]
        == right[key] by {
        let i = choose|i: int| 0 <= i < after.len() && key_of(#[trigger] after[i]) == key;
        lemma_entry(after, i);
        let a = if i == at { n } else { i };
        assert(after[i] == entries[a]);
        lemma_entry(entries, a);
    }
    assert(left =~= right);
}

impl<T> BlockItems<T> {
    #[verifier::type_invariant]
    closed spec fn distinct(self) -> bool {
        keys_differ(self.entries@)
    }
}

impl<T: View> BlockItems<T> {
    pub fn new() -> (items: BlockItems<T>)
        ensures
            items@ == Map::<BlockKey, Seq<T::V>>::empty(),
    {
        let items = BlockItems { entries: Vec::new() };
        assert(items@ =~= Map::<BlockKey, Seq<T::V>>::empty());
        items
    }

    /// Take out what was recorded of a block.
    pub fn take(&mut self, file: &str, start: usize) -> (items: Vec<T>)
        ensures
            item_views(items@) == items_at(old(self)@, (file@, start as int)),
            final(self)@ == old(self)@.remove((file@, start as int)),
    {
        proof {
            use_type_invariant(&*self);
        }
        let ghost key = (file@, start as int);
        let ghost before = self.entries@;
        let mut entries: Vec<(String, usize, Vec<T>)> = Vec::new();
        std::mem::swap(&mut entries, &mut self.entries);
        let mut i: usize = 0;
        while i < entries.len()
            invariant
                i <= entries@.len(),
                entries@ == before,
                keys_differ(before),
                key == (file@, start as int),
                self.entries@.len() == 0,
                forall|j: int| 0 <= j < i ==> key_of(#[trigger] before[j]) != key,
                old(self)@ == entries_map(before),
            decreases entries@.len() - i,
        {
            if entries[i].1 == start && same_text(entries[i].0.as_str(), file) {
                proof {
                    assert(key_of(before[i as int]) == key);
                    lemma_entry(before, i as int);
                    lemma_entry_removed(before, i as int);
                }
                let entry = entries.swap_remove(i);
                assert(entries@ =~= before.update(i as int, before.last()).drop_last());
                self.entries = entries;
                return entry.2;
            }
            i += 1;
        }
        proof {
            assert(!entries_map(before).dom().contains(key));
            assert(entries_map(before).remove(key) =~= entries_map(before));
        }
        self.entries = entries;
        let none: Vec<T> = Vec::new();
        assert(item_views(none@) =~= Seq::<T::V>::empty());
        none
    }

    /// Record one more item of a block.
    pub fn record(&mut self, file: &str, start: usize, item: T)
        ensures
            final(self)@ == old(self)@.insert(
                (file@, start as int),
                items_at(old(self)@, (file@, start as int)).push(item@),
            ),
    {
        let ghost key = (file@, start as int);
        let mut items = self.take(file, start);
        let ghost listed = items@;
        items.push(item);
        assert(item_views(items@) =~= item_views(listed).push(item@));
        proof {
            use_type_invariant(&*self);
        }
        let mut entries: Vec<(String, usize, Vec<T>)> = Vec::new();
        std::mem::swap(&mut entries, &mut self.entries);
        let entry = (file.to_string(), start, items);
        let ghost rest = entries@;
        proof {
            assert(key_of(entry) == key);
            assert(!entries_map(rest).dom().contains(key));
            lemma_entry_added(rest, entry);
        }
        entries.push(entry);
        self.entries = entries;
        assert(self@ =~= old(self)@.insert(
            key,
            items_at(old(self)@, key).push(item@),
        ));
    }
}

} // verus!
