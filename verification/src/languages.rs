//! The map from language ids to the languages that they are served as.
use crate::text::{bytes_before, comes_before, law_text_order, same_text, text_before};
use vstd::prelude::*;
use vstd::string::*;
use vstd::utf8::*;

verus! {

/// The pairs of a language list, as characters.
pub open spec fn pair_views(entries: Seq<(String, String)>) -> Seq<(Seq<char>, Seq<char>)> {
    entries.map_values(|e: (String, String)| (e.0@, e.1@))
}

/// The keys are in order, so that none occurs twice.
pub open spec fn keys_increase(pairs: Seq<(Seq<char>, Seq<char>)>) -> bool {
    forall|i: int, j: int|
        0 <= i < j < pairs.len() ==> text_before(#[trigger] pairs[i].0, #[trigger] pairs[j].0)
}

/// The map that a list of pairs stands for.
pub open spec fn pairs_map(pairs: Seq<(Seq<char>, Seq<char>)>) -> Map<Seq<char>, Seq<char>> {
    Map::new(
        |key: Seq<char>| exists|i: int| 0 <= i < pairs.len() && #[trigger] pairs[i].0 == key,
        |key: Seq<char>|
            pairs[choose|i: int| 0 <= i < pairs.len() && #[trigger] pairs[i].0 == key].1,
    )
}

/// Which language id is served as which language, ordered by id.
#[derive(Debug)]
pub struct Languages {
    entries: Vec<(String, String)>,
}

impl View for Languages {
    type V = Map<Seq<char>, Seq<char>>;

    closed spec fn view(&self) -> Map<Seq<char>, Seq<char>> {
        pairs_map(pair_views(self.entries@))
    }
}

impl Languages {
    #[verifier::type_invariant]
    closed spec fn ordered(self) -> bool {
        keys_increase(pair_views(self.entries@))
    }

    pub fn new() -> (languages: Languages)
        ensures
            languages@ == Map::<Seq<char>, Seq<char>>::empty(),
    {
        let languages = Languages { entries: Vec::new() };
        assert(languages@ =~= Map::<Seq<char>, Seq<char>>::empty());
        languages
    }

    /// The pairs, ordered by id.
    pub fn entries(&self) -> (entries: &Vec<(String, String)>)
        ensures
            keys_increase(pair_views(entries@)),
            self@ == pairs_map(pair_views(entries@)),
    {
        proof {
            use_type_invariant(self);
        }
        &self.entries
    }

    /// The position of a key, or the one where it would have to stand.
    fn position(&self, key: &str) -> (at: usize)
        ensures
            at <= self.entries@.len(),
            forall|j: int| 0 <= j < at ==> text_before(#[trigger] self.entries@[j].0@, key@),
            at < self.entries@.len() ==> !text_before(self.entries@[at as int].0@, key@),
    {
        let mut at: usize = 0;
        while at < self.entries.len() && comes_before(self.entries[at].0.as_str(), key)
            invariant
                at <= self.entries@.len(),
                forall|j: int| 0 <= j < at ==> text_before(#[trigger] self.entries@[j].0@, key@),
            decreases self.entries@.len() - at,
        {
            at += 1;
        }
        at
    }

    pub fn get(&self, key: &str) -> (value: Option<&String>)
        ensures
            match value {
                Some(text) => self@.dom().contains(key@) && self@[key@] == text@,
                None => !self@.dom().contains(key@),
            },
    {
        proof {
            use_type_invariant(self);
        }
        let at = self.position(key);
        let ghost pairs = pair_views(self.entries@);
        if at < self.entries.len() && same_text(self.entries[at].0.as_str(), key) {
            proof {
                assert(pairs[at as int].0 == key@);
                lemma_key_unique(pairs, at as int);
            }
            Some(&self.entries[at].1)
        } else {
            proof {
                assert forall|i: int| 0 <= i < pairs.len() implies #[trigger] pairs[i].0 != key@ by {
                    lemma_key_absent(pairs, at as int, key@, i);
                }
            }
            None
        }
    }

    pub fn contains_key(&self, key: &str) -> (found: bool)
        ensures
            found == self@.dom().contains(key@),
    {
        self.get(key).is_some()
    }

    /// Map `key` to `value`, in place of what it was mapped to before.
    pub fn insert(&mut self, key: String, value: String)
        ensures
            final(self)@ == old(self)@.insert(key@, value@),
    {
        proof {
            use_type_invariant(&*self);
        }
        let at = self.position(key.as_str());
        let ghost before = pair_views(self.entries@);
        let ghost item = (key@, value@);
        let mut entries: Vec<(String, String)> = Vec::new();
        std::mem::swap(&mut entries, &mut self.entries);
        if at < entries.len() && same_text(entries[at].0.as_str(), key.as_str()) {
            let _ = entries.remove(at);
            entries.insert(at, (key, value));
            proof {
                let after = pair_views(entries@);
                assert(after =~= before.update(at as int, item));
                lemma_map_updated(before, at as int, item);
            }
        } else {
            entries.insert(at, (key, value));
            proof {
                let after = pair_views(entries@);
                assert(after =~= before.insert(at as int, item));
                assert(forall|j: int| 0 <= j < at ==> text_before(#[trigger] before[j].0, item.0));
                lemma_map_inserted(before, at as int, item);
            }
        }
        self.entries = entries;
    }
}

proof fn lemma_before_transitive(a: Seq<u8>, b: Seq<u8>, c: Seq<u8>)
    requires
        bytes_before(a, b),
        bytes_before(b, c),
    ensures
        bytes_before(a, c),
    decreases a.len(),
{
    if a.len() > 0 && b.len() > 0 && c.len() > 0 && a[0] == b[0] && b[0] == c[0] {
        lemma_before_transitive(a.drop_first(), b.drop_first(), c.drop_first());
    }
}

proof fn lemma_text_transitive(a: Seq<char>, b: Seq<char>, c: Seq<char>)
    requires
        text_before(a, b),
        text_before(b, c),
    ensures
        text_before(a, c),
{
    lemma_before_transitive(
        encode_utf8(a),
        encode_utf8(b),
        encode_utf8(c),
    );
}

/// In an ordered list the value at a key's position is the map's value.
proof fn lemma_key_unique(pairs: Seq<(Seq<char>, Seq<char>)>, at: int)
    requires
        keys_increase(pairs),
        0 <= at < pairs.len(),
    ensures
        pairs_map(pairs).dom().contains(pairs[at].0),
        pairs_map(pairs)[pairs[at].0] == pairs[at].1,
{
    let key = pairs[at].0;
    let i = choose|i: int| 0 <= i < pairs.len() && #[trigger] pairs[i].0 == key;
    law_text_order(key, key);
    assert(i == at);
}

proof fn lemma_key_absent(pairs: Seq<(Seq<char>, Seq<char>)>, at: int, key: Seq<char>, i: int)
    requires
        keys_increase(pairs),
        0 <= at <= pairs.len(),
        forall|j: int| 0 <= j < at ==> text_before(#[trigger] pairs[j].0, key),
        at < pairs.len() ==> !text_before(pairs[at].0, key) && pairs[at].0 != key,
        0 <= i < pairs.len(),
    ensures
        pairs[i].0 != key,
        i >= at ==> text_before(key, pairs[i].0),
{
    law_text_order(key, key);
    if i >= at {
        law_text_order(pairs[at].0, key);
        if i > at {
            lemma_text_transitive(key, pairs[at].0, pairs[i].0);
        }
    }
}

proof fn lemma_map_updated(
    pairs: Seq<(Seq<char>, Seq<char>)>,
    at: int,
    item: (Seq<char>, Seq<char>),
)
    requires
        keys_increase(pairs),
        0 <= at < pairs.len(),
        pairs[at].0 == item.0,
    ensures
        keys_increase(pairs.update(at, item)),
        pairs_map(pairs.update(at, item)) == pairs_map(pairs).insert(item.0, item.1),
{
    let after = pairs.update(at, item);
    assert forall|i: int| 0 <= i < pairs.len() implies #[trigger] after[i].0 == pairs[i].0 by {}
    assert(keys_increase(after));
    let left = pairs_map(after);
    let right = pairs_map(pairs).insert(item.0, item.1);
    assert forall|key: Seq<char>| left.dom().contains(key) == right.dom().contains(key) by {
        if left.dom().contains(key) {
            let i = choose|i: int| 0 <= i < after.len() && #[trigger] after[i].0 == key;
            assert(pairs[i].0 == key);
        }
        if right.dom().contains(key) {
            if key == item.0 {
                assert(after[at].0 == key);
            } else {
                let i = choose|i: int| 0 <= i < pairs.len() && #[trigger] pairs[i].0 == key;
                assert(after[i].0 == key);
            }
        }
    }
    assert forall|key: Seq<char>| #[trigger] left.dom().contains(key) implies left[key]
        == right[key] by {
        let i = choose|i: int| 0 <= i < after.len() && #[trigger] after[i].0 == key;
        lemma_key_unique(after, i);
        lemma_key_unique(pairs, i);
        law_text_order(key, key);
    }
    assert(left =~= right);
}

proof fn lemma_map_inserted(
    pairs: Seq<(Seq<char>, Seq<char>)>,
    at: int,
    item: (Seq<char>, Seq<char>),
)
    requires
        keys_increase(pairs),
        0 <= at <= pairs.len(),
        forall|j: int| 0 <= j < at ==> text_before(#[trigger] pairs[j].0, item.0),
        at < pairs.len() ==> !text_before(pairs[at].0, item.0) && pairs[at].0 != item.0,
    ensures
        keys_increase(pairs.insert(at, item)),
        pairs_map(pairs.insert(at, item)) == pairs_map(pairs).insert(item.0, item.1),
{
    let after = pairs.insert(at, item);
    assert forall|i: int| 0 <= i < pairs.len() implies #[trigger] pairs[i].0 != item.0 && (i >= at
        ==> text_before(item.0, pairs[i].0)) by {
        lemma_key_absent(pairs, at, item.0, i);
    }
    assert forall|i: int, j: int| 0 <= i < j < after.len() implies text_before(
        #[trigger] after[i].0,
        #[trigger] after[j].0,
    ) by {
        if j < at {
            assert(after[i] == pairs[i] && after[j] == pairs[j]);
        } else if j == at {
            assert(after[i] == pairs[i]);
        } else if i == at {
            assert(after[j] == pairs[j - 1]);
        } else if i < at {
            assert(after[i] == pairs[i] && after[j] == pairs[j - 1]);
        } else {
            assert(after[i] == pairs[i - 1] && after[j] == pairs[j - 1]);
        }
    }
    let left = pairs_map(after);
    let right = pairs_map(pairs).insert(item.0, item.1);
    assert forall|key: Seq<char>| left.dom().contains(key) == right.dom().contains(key) by {
        if left.dom().contains(key) && key != item.0 {
            let i = choose|i: int| 0 <= i < after.len() && #[trigger] after[i].0 == key;
            if i < at {
                assert(pairs[i].0 == key);
            } else {
                assert(pairs[i - 1].0 == key);
            }
        }
        if right.dom().contains(key) {
            if key == item.0 {
                assert(after[at].0 == key);
            } else {
                let i = choose|i: int| 0 <= i < pairs.len() && #[trigger] pairs[i].0 == key;
                if i < at {
                    assert(after[i].0 == key);
                } else {
                    assert(after[i + 1].0 == key);
                }
            }
        }
    }
    assert forall|key: Seq<char>| #[trigger] left.dom().contains(key) implies left[key]
        == right[key] by {
        let i = choose|i: int| 0 <= i < after.len() && #[trigger] after[i].0 == key;
        lemma_key_unique(after, i);
        if i < at {
            assert(after[i] == pairs[i]);
            lemma_key_unique(pairs, i);
        } else if i > at {
            assert(after[i] == pairs[i - 1]);
            lemma_key_unique(pairs, i - 1);
        }
    }
    assert(left =~= right);
}

impl Clone for Languages {
    fn clone(&self) -> (other: Languages)
        ensures
            other@ == self@,
    {
        proof {
            use_type_invariant(self);
        }
        let mut entries: Vec<(String, String)> = Vec::new();
        let mut i: usize = 0;
        while i < self.entries.len()
            invariant
                i <= self.entries@.len(),
                entries@.len() == i,
                forall|j: int|
                    0 <= j < i ==> (#[trigger] entries@[j]).0@ == self.entries@[j].0@
                        && entries@[j].1@ == self.entries@[j].1@,
            decreases self.entries@.len() - i,
        {
            let entry = &self.entries[i];
            entries.push((entry.0.clone(), entry.1.clone()));
            i += 1;
        }
        assert(pair_views(entries@) =~= pair_views(self.entries@));
        Languages { entries }
    }
}

} // verus!
