//! JSON values, and the trees that contracts speak of.
use serde_json::Number;
use vstd::prelude::*;

verus! {

/// A JSON number of `serde_json`. It is carried through and never looked into.
#[verifier::external_type_specification]
#[verifier::external_body]
pub struct ExNumber(serde_json::Number);

/// `Number::clone` gives back the same number: the impl is derived, and the number is one
/// `Copy` value inside.
pub assume_specification[ <serde_json::Number as Clone>::clone ](number: &serde_json::Number) -> (r:
    serde_json::Number)
    ensures
        r == *number,
;

/// A JSON value. An object is the list of its entries; in a well-formed one no key occurs twice.
#[derive(Debug, PartialEq)]
pub enum Json {
    Null,
    Bool(bool),
    Number(Number),
    Text(String),
    Array(Vec<Json>),
    Object(Vec<(String, Json)>),
}

/// What a JSON value holds.
#[verifier::ext_equal]
pub enum JsonTree {
    Null,
    Bool(bool),
    Number(Number),
    Text(Seq<char>),
    Array(Seq<JsonTree>),
    Object(Seq<(Seq<char>, JsonTree)>),
}

/// Whether no key occurs twice.
pub open spec fn keys_distinct(entries: Seq<(Seq<char>, JsonTree)>) -> bool {
    forall|i: int, j: int|
        0 <= i < j < entries.len() ==> #[trigger] entries[i].0 != #[trigger] entries[j].0
}

/// The value of the first entry under `key`.
pub open spec fn lookup(entries: Seq<(Seq<char>, JsonTree)>, key: Seq<char>) -> Option<JsonTree>
    decreases entries.len(),
{
    if entries.len() == 0 {
        None
    } else if entries[0].0 == key {
        Some(entries[0].1)
    } else {
        lookup(entries.drop_first(), key)
    }
}

impl JsonTree {
    /// Whether no object in the tree has a key twice.
    pub open spec fn wf(self) -> bool
        decreases self,
    {
        match self {
            JsonTree::Array(items) => forall|i: int|
                0 <= i < items.len() ==> (#[trigger] items[i]).wf(),
            JsonTree::Object(entries) => {
                &&& keys_distinct(entries)
                &&& forall|i: int| 0 <= i < entries.len() ==> (#[trigger] entries[i]).1.wf()
            },
            _ => true,
        }
    }

    /// The value under `key`, if this is an object that has one.
    pub open spec fn field(self, key: Seq<char>) -> Option<JsonTree> {
        match self {
            JsonTree::Object(entries) => lookup(entries, key),
            _ => None,
        }
    }

    /// The characters, if this is a string.
    pub open spec fn text(self) -> Option<Seq<char>> {
        match self {
            JsonTree::Text(s) => Some(s),
            _ => None,
        }
    }
}

/// The trees of the values of an array.
pub open spec fn trees(items: Seq<Json>) -> Seq<JsonTree> {
    Seq::new(items.len(), |i: int| items[i]@)
}

/// The keys and trees of the entries of an object.
pub open spec fn entry_trees(entries: Seq<(String, Json)>) -> Seq<(Seq<char>, JsonTree)> {
    Seq::new(entries.len(), |i: int| (entries[i].0@, entries[i].1@))
}

/// The tree of an optional value.
pub open spec fn tree_of(json: Option<&Json>) -> Option<JsonTree> {
    match json {
        Some(j) => Some(j@),
        None => None,
    }
}

/// The characters of each string.
pub open spec fn texts(strings: Seq<String>) -> Seq<Seq<char>> {
    Seq::new(strings.len(), |i: int| strings[i]@)
}

impl Json {
    /// What this value holds.
    pub open spec fn tree(&self) -> JsonTree
        decreases self,
    {
        match self {
            Json::Null => JsonTree::Null,
            Json::Bool(b) => JsonTree::Bool(*b),
            Json::Number(n) => JsonTree::Number(*n),
            Json::Text(s) => JsonTree::Text(s@),
            Json::Array(items) => JsonTree::Array(Json::item_trees(items@)),
            Json::Object(entries) => JsonTree::Object(Json::field_trees(entries@)),
        }
    }

    /// What each of these values holds.
    pub open spec fn item_trees(items: Seq<Json>) -> Seq<JsonTree>
        decreases items,
    {
        if items.len() == 0 {
            Seq::empty()
        } else {
            Json::item_trees(items.drop_last()).push(items.last().tree())
        }
    }

    /// What each of these entries holds, with its key.
    pub open spec fn field_trees(entries: Seq<(String, Json)>) -> Seq<(Seq<char>, JsonTree)>
        decreases entries,
    {
        if entries.len() == 0 {
            Seq::empty()
        } else {
            Json::field_trees(entries.drop_last()).push(
                (entries.last().0@, entries.last().1.tree()),
            )
        }
    }
}

impl View for Json {
    type V = JsonTree;

    open spec fn view(&self) -> JsonTree {
        self.tree()
    }
}

proof fn lemma_item_trees(items: Seq<Json>)
    ensures
        Json::item_trees(items) =~= trees(items),
    decreases items.len(),
{
    if items.len() > 0 {
        lemma_item_trees(items.drop_last());
    }
}

proof fn lemma_field_trees(entries: Seq<(String, Json)>)
    ensures
        Json::field_trees(entries) =~= entry_trees(entries),
    decreases entries.len(),
{
    if entries.len() > 0 {
        lemma_field_trees(entries.drop_last());
    }
}

/// The tree of an array is made of the trees of its values.
pub broadcast proof fn lemma_array_tree(items: Vec<Json>)
    ensures
        #[trigger] Json::Array(items)@ == JsonTree::Array(trees(items@)),
{
    lemma_item_trees(items@);
}

/// The tree of an object is made of its keys and the trees of its values.
pub broadcast proof fn lemma_object_tree(entries: Vec<(String, Json)>)
    ensures
        #[trigger] Json::Object(entries)@ == JsonTree::Object(entry_trees(entries@)),
{
    lemma_field_trees(entries@);
}

impl Json {
    /// A copy with the same tree.
    fn copy(&self) -> (r: Json)
        ensures
            r@ == self@,
        decreases self,
    {
        broadcast use {lemma_array_tree, lemma_object_tree};

        match self {
            Json::Null => Json::Null,
            Json::Bool(b) => Json::Bool(*b),
            Json::Number(n) => Json::Number(n.clone()),
            Json::Text(s) => Json::Text(s.clone()),
            Json::Array(items) => {
                let mut copy: Vec<Json> = Vec::new();
                let mut i: usize = 0;
                while i < items.len()
                    invariant
                        self == Json::Array(*items),
                        i <= items@.len(),
                        copy@.len() == i,
                        forall|k: int| 0 <= k < i ==> (#[trigger] copy@[k])@ == items@[k]@,
                    decreases items.len() - i,
                {
                    assert(decreases_to!(self => self->Array_0));
                    copy.push(items[i].copy());
                    i += 1;
                }
                assert(trees(copy@) =~= trees(items@));
                Json::Array(copy)
            },
            Json::Object(entries) => {
                let mut copy: Vec<(String, Json)> = Vec::new();
                let mut i: usize = 0;
                while i < entries.len()
                    invariant
                        self == Json::Object(*entries),
                        i <= entries@.len(),
                        copy@.len() == i,
                        forall|k: int|
                            0 <= k < i ==> (#[trigger] copy@[k]).0@ == entries@[k].0@
                                && copy@[k].1@ == entries@[k].1@,
                    decreases entries.len() - i,
                {
                    assert(decreases_to!(self => self->Object_0));
                    assert(decreases_to!(entries => entries[i as int]));
                    copy.push((entries[i].0.clone(), entries[i].1.copy()));
                    i += 1;
                }
                assert(entry_trees(copy@) =~= entry_trees(entries@));
                Json::Object(copy)
            },
        }
    }
}

impl Clone for Json {
    fn clone(&self) -> (r: Self)
        ensures
            r@ == self@,
    {
        self.copy()
    }
}

impl Json {
    /// The value of the first entry under `key`, if this is an object that has one.
    pub fn get(&self, key: &str) -> (r: Option<&Json>)
        ensures
            tree_of(r) == self@.field(key@),
    {
        broadcast use lemma_object_tree;

        match self {
            Json::Object(entries) => {
                let wanted = key.to_owned();
                let ghost all = entry_trees(entries@);
                let mut i: usize = 0;
                assert(all.skip(0) =~= all);
                while i < entries.len()
                    invariant
                        wanted@ == key@,
                        all == entry_trees(entries@),
                        self@ == JsonTree::Object(all),
                        i <= entries@.len(),
                        lookup(all, key@) == lookup(all.skip(i as int), key@),
                    decreases entries.len() - i,
                {
                    if entries[i].0 == wanted {
                        return Some(&entries[i].1);
                    }
                    assert(all.skip(i as int).drop_first() =~= all.skip(i + 1));
                    i += 1;
                }
                None
            },
            _ => None,
        }
    }

    /// The string, if this is one.
    pub fn as_str(&self) -> (r: Option<&str>)
        ensures
            match r {
                Some(s) => self@.text() == Some(s@),
                None => self@.text() is None,
            },
    {
        match self {
            Json::Text(s) => Some(s.as_str()),
            _ => None,
        }
    }

    /// The values, if this is an array.
    pub fn as_array(&self) -> (r: Option<&Vec<Json>>)
        ensures
            match r {
                Some(items) => self@ == JsonTree::Array(trees(items@)),
                None => self@ !is Array,
            },
    {
        broadcast use lemma_array_tree;

        match self {
            Json::Array(items) => Some(items),
            _ => None,
        }
    }

    /// The entries, if this is an object.
    pub fn as_object(&self) -> (r: Option<&Vec<(String, Json)>>)
        ensures
            match r {
                Some(entries) => self@ == JsonTree::Object(entry_trees(entries@)),
                None => self@ !is Object,
            },
    {
        broadcast use lemma_object_tree;

        match self {
            Json::Object(entries) => Some(entries),
            _ => None,
        }
    }
}

/// Whether the first entry of an object under `key` holds `value`.
pub open spec fn entry_is(object: JsonTree, key: Seq<char>, value: JsonTree) -> bool {
    object is Object && exists|i: int|
        {
            &&& 0 <= i < object->Object_0.len()
            &&& #[trigger] object->Object_0[i] == (key, value)
            &&& forall|j: int| 0 <= j < i ==> (#[trigger] object->Object_0[j]).0 != key
        }
}

proof fn lemma_lookup_first(entries: Seq<(Seq<char>, JsonTree)>, key: Seq<char>, i: int)
    requires
        0 <= i < entries.len(),
        entries[i].0 == key,
        forall|j: int| 0 <= j < i ==> (#[trigger] entries[j]).0 != key,
    ensures
        lookup(entries, key) == Some(entries[i].1),
    decreases i,
{
    if i > 0 {
        assert(entries[0].0 != key);
        let rest = entries.drop_first();
        assert forall|j: int| 0 <= j < i - 1 implies (#[trigger] rest[j]).0 != key by {
            assert(rest[j] == entries[j + 1]);
        }
        lemma_lookup_first(rest, key, i - 1);
    }
}

/// A key that is looked up stands at some place, the first of its kind, with what was found.
pub proof fn lemma_lookup_place(entries: Seq<(Seq<char>, JsonTree)>, key: Seq<char>) -> (i: int)
    requires
        lookup(entries, key) is Some,
    ensures
        0 <= i < entries.len(),
        entries[i] == (key, lookup(entries, key)->0),
        forall|j: int| 0 <= j < i ==> (#[trigger] entries[j]).0 != key,
    decreases entries.len(),
{
    if entries[0].0 == key {
        0
    } else {
        let rest = entries.drop_first();
        let i = lemma_lookup_place(rest, key);
        assert forall|j: int| 0 <= j < i + 1 implies (#[trigger] entries[j]).0 != key by {
            if j > 0 {
                assert(rest[j - 1] == entries[j]);
            }
        }
        i + 1
    }
}

/// A value is found under a key if and only if the first entry under that key holds it, whatever
/// the other entries are.
pub proof fn law_field_is_the_first_entry(object: JsonTree, key: Seq<char>, value: JsonTree)
    ensures
        object.field(key) == Some(value) <==> entry_is(object, key, value),
{
    if object is Object {
        let entries = object->Object_0;
        if object.field(key) == Some(value) {
            let i = lemma_lookup_place(entries, key);
            assert(entries[i] == (key, value));
        }
        if entry_is(object, key, value) {
            let i = choose|i: int|
                {
                    &&& 0 <= i < entries.len()
                    &&& #[trigger] entries[i] == (key, value)
                    &&& forall|j: int| 0 <= j < i ==> (#[trigger] entries[j]).0 != key
                };
            lemma_lookup_first(entries, key, i);
        }
    }
}

/// Of an object whose keys are distinct, a value is found under a key if and only if the two are
/// one of its entries, in whatever place.
pub proof fn law_field_of_distinct_keys(
    entries: Seq<(Seq<char>, JsonTree)>,
    key: Seq<char>,
    value: JsonTree,
)
    requires
        keys_distinct(entries),
    ensures
        JsonTree::Object(entries).field(key) == Some(value) <==> entries.contains((key, value)),
{
    let object = JsonTree::Object(entries);
    law_field_is_the_first_entry(object, key, value);
    if entries.contains((key, value)) {
        let i = entries.index_of((key, value));
        assert forall|j: int| 0 <= j < i implies (#[trigger] entries[j]).0 != key by {
            assert(entries[j].0 != entries[i].0);
        }
        assert(object->Object_0[i] == (key, value));
    }
    if entry_is(object, key, value) {
        let i = choose|i: int|
            {
                &&& 0 <= i < entries.len()
                &&& #[trigger] entries[i] == (key, value)
                &&& forall|j: int| 0 <= j < i ==> (#[trigger] entries[j]).0 != key
            };
        assert(entries.contains(entries[i]));
    }
}

/// A value and its tree are of the same kind and hold the same: nothing is added, left out or
/// moved.
pub proof fn law_tree_holds_what_the_value_holds(json: Json)
    ensures
        match json {
            Json::Null => json@ is Null,
            Json::Bool(b) => json@ is Bool && json@->Bool_0 == b,
            Json::Number(n) => json@ is Number && json@->Number_0 == n,
            Json::Text(s) => json@ is Text && json@->Text_0 == s@ && json@.text() == Some(s@),
            Json::Array(items) => {
                &&& json@ is Array
                &&& json@->Array_0.len() == items@.len()
                &&& forall|i: int|
                    0 <= i < items@.len() ==> #[trigger] json@->Array_0[i] == items@[i]@
            },
            Json::Object(entries) => {
                &&& json@ is Object
                &&& json@->Object_0.len() == entries@.len()
                &&& forall|i: int|
                    0 <= i < entries@.len() ==> (#[trigger] json@->Object_0[i]).0 == entries@[i].0@
                        && json@->Object_0[i].1 == entries@[i].1@
            },
        },
        json !is Text ==> json@.text() is None,
{
    match json {
        Json::Array(items) => lemma_array_tree(items),
        Json::Object(entries) => lemma_object_tree(entries),
        _ => {},
    }
}

/// Lists of values, of entries and of strings are taken item by item, in their order.
pub proof fn law_lists_are_taken_item_by_item(
    items: Seq<Json>,
    entries: Seq<(String, Json)>,
    strings: Seq<String>,
    i: int,
)
    ensures
        trees(items).len() == items.len(),
        entry_trees(entries).len() == entries.len(),
        texts(strings).len() == strings.len(),
        0 <= i < items.len() ==> trees(items)[i] == items[i]@,
        0 <= i < entries.len() ==> entry_trees(entries)[i].0 == entries[i].0@ && entry_trees(
            entries,
        )[i].1 == entries[i].1@,
        0 <= i < strings.len() ==> texts(strings)[i] == strings[i]@,
        tree_of(None) is None,
        0 <= i < items.len() ==> tree_of(Some(&items[i])) == Some(items[i]@),
{
}

} // verus!
