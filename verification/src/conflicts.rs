//! Conflicts between two classes of a block. The server reports each one twice,
//! once from either side, and it is shown once.
use crate::text::{comes_before, law_text_order, same_text, text_before};
use vstd::prelude::*;
use vstd::string::*;

verus! {

/// Two names, the first in order first.
pub open spec fn in_order(a: Seq<char>, b: Seq<char>) -> (Seq<char>, Seq<char>) {
    if text_before(b, a) {
        (b, a)
    } else {
        (a, b)
    }
}

/// The two names of a conflict in order, so that both directions in which it is
/// reported give the same text.
pub open spec fn conflict_key(a: Seq<char>, b: Seq<char>) -> Seq<char> {
    in_order(a, b).0 + "\0"@ + in_order(a, b).1
}

/// Whether a conflict is reported as "A vs B" or "B vs A" makes no difference.
pub proof fn law_conflict_key_symmetric(a: Seq<char>, b: Seq<char>)
    ensures
        in_order(a, b) == in_order(b, a),
        conflict_key(a, b) == conflict_key(b, a),
{
    law_text_order(a, b);
    law_text_order(b, a);
}

/// Put two names in order.
pub fn order_names(a: &str, b: &str) -> (names: (String, String))
    ensures
        (names.0@, names.1@) == in_order(a@, b@),
{
    if comes_before(b, a) {
        (b.to_string(), a.to_string())
    } else {
        (a.to_string(), b.to_string())
    }
}

/// A conflict that was seen: its file, a place in it, and its names.
pub type SeenView = (Seq<char>, int, Seq<char>);

spec fn entry_view(entry: (String, usize, String)) -> SeenView {
    (entry.0@, entry.1 as int, entry.2@)
}

/// The conflicts that were seen so far.
pub struct SeenConflicts {
    entries: Vec<(String, usize, String)>,
}

impl View for SeenConflicts {
    type V = Seq<SeenView>;

    closed spec fn view(&self) -> Seq<SeenView> {
        self.entries@.map_values(|e: (String, usize, String)| entry_view(e))
    }
}

impl SeenConflicts {
    pub fn new() -> (seen: SeenConflicts)
        ensures
            seen@ == Seq::<SeenView>::empty(),
    {
        let seen = SeenConflicts { entries: Vec::new() };
        assert(seen@ =~= Seq::empty());
        seen
    }

    fn contains(&self, file: &str, place: usize, key: &str) -> (found: bool)
        ensures
            found == self@.contains((file@, place as int, key@)),
    {
        let mut i: usize = 0;
        let ghost wanted = (file@, place as int, key@);
        while i < self.entries.len()
            invariant
                i <= self.entries@.len(),
                wanted == (file@, place as int, key@),
                forall|j: int| 0 <= j < i ==> entry_view(#[trigger] self.entries@[j]) != wanted,
            decreases self.entries@.len() - i,
        {
            let entry = &self.entries[i];
            if entry.1 == place && same_text(entry.0.as_str(), file) && same_text(
                entry.2.as_str(),
                key,
            ) {
                assert(self@[i as int] == wanted);
                return true;
            }
            i += 1;
        }
        assert forall|j: int| 0 <= j < self@.len() implies self@[j] != wanted by {
            assert(entry_view(self.entries@[j]) != wanted);
        }
        false
    }

    /// Note a conflict; says whether it had not been seen.
    pub fn insert(&mut self, file: &str, place: usize, names: &(String, String)) -> (new: bool)
        ensures
            ({
                let entry = (file@, place as int, names.0@ + "\0"@ + names.1@);
                &&& new == !old(self)@.contains(entry)
                &&& final(self)@ == if new {
                    old(self)@.push(entry)
                } else {
                    old(self)@
                }
            }),
    {
        let mut key = names.0.clone();
        key.append("\0");
        key.append(names.1.as_str());
        if self.contains(file, place, key.as_str()) {
            false
        } else {
            let ghost before = self.entries@;
            let entry = (file.to_string(), place, key);
            self.entries.push(entry);
            assert(self@ =~= old(self)@.push(entry_view(entry)));
            true
        }
    }
}

} // verus!
