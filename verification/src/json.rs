//! JSON values, as they stand in the messages of the protocol.
use crate::text::{decimal, decimal_text, same_text};
use vstd::prelude::*;
use vstd::string::*;

verus! {

/// A JSON value; a number is held as it is written. The entries of an object
/// stand in their order.
#[derive(Debug)]
pub enum Json {
    Null,
    Bool(bool),
    Number(String),
    Text(String),
    Array(Vec<Json>),
    Object(Vec<Entry>),
}

/// An entry of an object.
#[derive(Debug)]
pub struct Entry {
    pub key: String,
    pub value: Json,
}

pub enum JsonView {
    Null,
    Bool(bool),
    Number(Seq<char>),
    Text(Seq<char>),
    Array(Seq<JsonView>),
    Object(Seq<EntryView>),
}

pub struct EntryView {
    pub key: Seq<char>,
    pub value: JsonView,
}

impl View for Json {
    type V = JsonView;

    open spec fn view(&self) -> JsonView
        decreases self,
    {
        match self {
            Json::Null => JsonView::Null,
            Json::Bool(value) => JsonView::Bool(*value),
            Json::Number(value) => JsonView::Number(value@),
            Json::Text(value) => JsonView::Text(value@),
            Json::Array(items) => JsonView::Array(
                Seq::new(
                    items@.len(),
                    |i: int|
                        if 0 <= i < items@.len() {
                            items@[i].view()
                        } else {
                            JsonView::Null
                        },
                ),
            ),
            Json::Object(entries) => JsonView::Object(
                Seq::new(
                    entries@.len(),
                    |i: int|
                        if 0 <= i < entries@.len() {
                            EntryView { key: entries@[i].key@, value: entries@[i].value.view() }
                        } else {
                            EntryView { key: Seq::empty(), value: JsonView::Null }
                        },
                ),
            ),
        }
    }
}

pub open spec fn json_views(items: Seq<Json>) -> Seq<JsonView> {
    items.map_values(|v: Json| v@)
}

impl View for Entry {
    type V = EntryView;

    open spec fn view(&self) -> EntryView {
        EntryView { key: self.key@, value: self.value@ }
    }
}

pub open spec fn entry_views(entries: Seq<Entry>) -> Seq<EntryView> {
    entries.map_values(|e: Entry| e@)
}

/// An array is seen as its items are.
pub proof fn lemma_array_view(items: Vec<Json>)
    ensures
        Json::Array(items)@ == JsonView::Array(json_views(items@)),
{
    assert(Json::Array(items)@->Array_0 =~= json_views(items@));
}

/// An object is seen as its entries are.
pub proof fn lemma_object_view(entries: Vec<Entry>)
    ensures
        Json::Object(entries)@ == JsonView::Object(entry_views(entries@)),
{
    assert(Json::Object(entries)@->Object_0 =~= entry_views(entries@));
}

fn copy_items(items: &Vec<Json>) -> (copies: Vec<Json>)
    ensures
        json_views(copies@) == json_views(items@),
    decreases items,
{
    let mut copies: Vec<Json> = Vec::new();
    let mut i: usize = 0;
    while i < items.len()
        invariant
            i <= items@.len(),
            copies@.len() == i,
            forall|j: int| 0 <= j < i ==> (#[trigger] copies@[j])@ == items@[j]@,
        decreases items@.len() - i,
    {
        assert(decreases_to!(items => items@[i as int]));
        copies.push(items[i].copy());
        i += 1;
    }
    assert(json_views(copies@) =~= json_views(items@));
    copies
}

fn copy_entries(entries: &Vec<Entry>) -> (copies: Vec<Entry>)
    ensures
        entry_views(copies@) == entry_views(entries@),
    decreases entries,
{
    let mut copies: Vec<Entry> = Vec::new();
    let mut i: usize = 0;
    while i < entries.len()
        invariant
            i <= entries@.len(),
            copies@.len() == i,
            forall|j: int|
                0 <= j < i ==> (#[trigger] copies@[j])@ == entries@[j]@,
        decreases entries@.len() - i,
    {
        let entry = &entries[i];
        assert(decreases_to!(entries => entries@[i as int].value));
        copies.push(Entry { key: entry.key.clone(), value: entry.value.copy() });
        i += 1;
    }
    assert(entry_views(copies@) =~= entry_views(entries@));
    copies
}

impl Json {
    /// A copy of a value.
    pub fn copy(&self) -> (other: Json)
        ensures
            other@ == self@,
        decreases self,
    {
        match self {
            Json::Null => Json::Null,
            Json::Bool(value) => Json::Bool(*value),
            Json::Number(value) => Json::Number(value.clone()),
            Json::Text(value) => Json::Text(value.clone()),
            Json::Array(items) => {
                let copies = copy_items(items);
                proof {
                    lemma_array_view(*items);
                    lemma_array_view(copies);
                }
                Json::Array(copies)
            },
            Json::Object(entries) => {
                let copies = copy_entries(entries);
                proof {
                    lemma_object_view(*entries);
                    lemma_object_view(copies);
                }
                Json::Object(copies)
            },
        }
    }
}

/// An entry of an object.
pub open spec fn field(key: Seq<char>, value: JsonView) -> EntryView {
    EntryView { key, value }
}

/// The position of the first entry with a key, or the number of entries.
pub open spec fn key_position(entries: Seq<EntryView>, key: Seq<char>) -> nat
    decreases entries.len(),
{
    if entries.len() == 0 || entries[0].key == key {
        0
    } else {
        1 + key_position(entries.drop_first(), key)
    }
}

/// The value of a key in an object.
pub open spec fn value_at(json: JsonView, key: Seq<char>) -> Option<JsonView> {
    match json {
        JsonView::Object(entries) => {
            let at = key_position(entries, key);
            if at < entries.len() {
                Some(entries[at as int].value)
            } else {
                None
            }
        },
        _ => None,
    }
}

/// The view of an optional value.
pub open spec fn optional_json(json: Option<Json>) -> Option<JsonView> {
    match json {
        Some(value) => Some(value@),
        None => None,
    }
}

impl Json {
    pub fn text(value: &str) -> (json: Json)
        ensures
            json@ == JsonView::Text(value@),
    {
        Json::Text(value.to_string())
    }

    pub fn number(value: u64) -> (json: Json)
        ensures
            json@ == JsonView::Number(decimal(value as nat)),
    {
        Json::Number(decimal_text(value))
    }

    /// An array of one value.
    pub fn single(value: Json) -> (json: Json)
        ensures
            json@ == JsonView::Array(seq![value@]),
    {
        let mut items: Vec<Json> = Vec::new();
        items.push(value);
        proof {
            lemma_array_view(items);
            assert(json_views(items@) =~= seq![value@]);
        }
        Json::Array(items)
    }

    /// The value of a key in an object.
    pub fn get(&self, key: &str) -> (value: Option<&Json>)
        ensures
            value_at(self@, key@) == match value {
                Some(json) => Some(json@),
                None => None,
            },
    {
        match self {
            Json::Object(entries) => {
                proof {
                    lemma_object_view(*entries);
                }
                let ghost all = entry_views(entries@);
                let mut i: usize = 0;
                assert(all.skip(0) =~= all);
                while i < entries.len()
                    invariant
                        i <= entries@.len(),
                        all == entry_views(entries@),
                        self@ == JsonView::Object(all),
                        key_position(all, key@) == i + key_position(all.skip(i as int), key@),
                    decreases entries@.len() - i,
                {
                    assert(all.skip(i as int)[0] == entries@[i as int]@);
                    if same_text(entries[i].key.as_str(), key) {
                        return Some(&entries[i].value);
                    }
                    assert(all.skip(i as int).drop_first() =~= all.skip(i + 1));
                    i += 1;
                }
                None
            },
            _ => None,
        }
    }

    /// Whether a value is a given text.
    pub fn is_text(&self, text: &str) -> (yes: bool)
        ensures
            yes == (self@ == JsonView::Text(text@)),
    {
        match self {
            Json::Text(value) => same_text(value.as_str(), text),
            _ => false,
        }
    }
}

/// The entries of an object that is being written.
pub struct Fields {
    entries: Vec<Entry>,
}

impl View for Fields {
    type V = Seq<EntryView>;

    closed spec fn view(&self) -> Seq<EntryView> {
        entry_views(self.entries@)
    }
}

impl Fields {
    pub fn new() -> (fields: Fields)
        ensures
            fields@ == Seq::<EntryView>::empty(),
    {
        let fields = Fields { entries: Vec::new() };
        assert(fields@ =~= Seq::empty());
        fields
    }

    /// The fields with one more.
    pub fn with(self, key: &str, value: Json) -> (fields: Fields)
        ensures
            fields@ == self@.push(field(key@, value@)),
    {
        let mut entries = self.entries;
        let entry = Entry { key: key.to_string(), value };
        let ghost before = entries@;
        entries.push(entry);
        assert(entry_views(entries@) =~= entry_views(before).push(entry@));
        Fields { entries }
    }

    /// The object with these fields.
    pub fn object(self) -> (json: Json)
        ensures
            json@ == JsonView::Object(self@),
    {
        proof {
            lemma_object_view(self.entries);
        }
        Json::Object(self.entries)
    }
}

} // verus!
