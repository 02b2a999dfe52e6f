//! Property lists: the tree that a plist document holds.
//!
//! The `plist` crate reads the documents. What the event database looks at in one is carried
//! by [`Plist`], a tree of plain values.

use vstd::prelude::*;

use crate::text::same_text;
use crate::xml::{last_day_date, has_last_day_date};

verus! {

/// `plist::Value`: any value of a plist document.
#[verifier::external_type_specification]
#[verifier::external_body]
pub struct ExPlistValue(plist::Value);

/// `plist::Dictionary`: a map from strings to values that keeps the order of insertion.
#[verifier::external_type_specification]
#[verifier::external_body]
pub struct ExPlistDictionary(plist::Dictionary);

/// `plist::Error`: why a document could not be read.
#[verifier::external_type_specification]
#[verifier::external_body]
pub struct ExPlistError(plist::Error);

/// The tree of a plist value, in the terms that contracts speak of.
///
/// Values that are no dictionary, no string and no integer of 64 unsigned bits are alike.
pub enum PlistTree {
    Dictionary(Seq<(Seq<char>, PlistTree)>),
    Text(Seq<char>),
    Unsigned(u64),
    Other,
}

/// The tree of a plist value.
#[derive(Debug)]
pub enum Plist {
    /// The entries of a dictionary, in its own order.
    Dictionary(Vec<(String, Plist)>),
    /// A string.
    Text(String),
    /// An integer that 64 unsigned bits can hold.
    Unsigned(u64),
    /// Any other value.
    Other,
}

impl View for Plist {
    type V = PlistTree;

    open spec fn view(&self) -> PlistTree
        decreases self,
    {
        match self {
            Plist::Dictionary(entries) => PlistTree::Dictionary(
                Seq::new(
                    entries@.len(),
                    |i: int|
                        if 0 <= i < entries@.len() {
                            (entries@[i].0@, entries@[i].1.view())
                        } else {
                            arbitrary()
                        },
                ),
            ),
            Plist::Text(s) => PlistTree::Text(s@),
            Plist::Unsigned(n) => PlistTree::Unsigned(*n),
            Plist::Other => PlistTree::Other,
        }
    }
}

/// The tree of what a `plist::Value` holds.
pub uninterp spec fn value_tree(v: plist::Value) -> PlistTree;

/// The keys of a `plist::Dictionary` with the trees of their values, in the dictionary's order.
pub uninterp spec fn dictionary_entries(d: plist::Dictionary) -> Seq<(Seq<char>, PlistTree)>;

/// The tree of the document that some bytes encode, or `None` if they encode none. It is the same
/// on all systems whose times are counted in 64 bits from 1970 on, as those of macOS are: what a
/// date can be is bounded by the system's times too.
pub uninterp spec fn document_tree(bytes: Seq<u8>) -> Option<PlistTree>;

/// `plist::Value::as_dictionary` gives the dictionary of a value that is one, and nothing of
/// any other value.
pub assume_specification[ plist::Value::as_dictionary ](v: &plist::Value) -> (r: Option<
    &plist::Dictionary,
>)
    ensures
        r is Some <==> value_tree(*v) is Dictionary,
        r matches Some(d) ==> value_tree(*v) == PlistTree::Dictionary(dictionary_entries(*d)),
;

/// `plist::Value::as_string` gives the text of a value that is a string, and nothing of any
/// other value.
pub assume_specification[ plist::Value::as_string ](v: &plist::Value) -> (r: Option<&str>)
    ensures
        r is Some <==> value_tree(*v) is Text,
        r matches Some(s) ==> value_tree(*v) == PlistTree::Text(s@),
;

/// `plist::Value::as_unsigned_integer` gives the number of a value that is an integer in the
/// range of `u64`, and nothing of any other value.
pub assume_specification[ plist::Value::as_unsigned_integer ](v: &plist::Value) -> (r: Option<
    u64,
>)
    ensures
        r is Some <==> value_tree(*v) is Unsigned,
        r matches Some(n) ==> value_tree(*v) == PlistTree::Unsigned(n),
;

/// Calls `plist::Dictionary::iter`, which gives each entry once, in the dictionary's order. No
/// two entries have the same key.
#[verifier::external_body]
fn entries_of(d: &plist::Dictionary) -> (r: Vec<(&String, &plist::Value)>)
    ensures
        r@.len() == dictionary_entries(*d).len(),
        forall|i: int|
            0 <= i < r@.len() ==> #[trigger] dictionary_entries(*d)[i] == (
                r@[i].0@,
                value_tree(*r@[i].1),
            ),
        forall|i: int, j: int|
            0 <= i < j < r@.len() ==> (#[trigger] r@[i]).0@ != (#[trigger] r@[j]).0@,
{
    d.iter().collect()
}

/// Calls `plist::Value::from_reader` on the bytes. Whether they encode a document, in any of
/// the encodings that it knows, and what that document holds depends on the bytes alone. What
/// the error says is left open. It panics where it comes to a date that lies behind the year 9999
/// in UTC, so documents that it comes to one in are left out.
#[verifier::external_body]
fn read_document(bytes: &[u8]) -> (r: Result<plist::Value, plist::Error>)
    requires
        !last_day_date(bytes@),
    ensures
        r is Ok <==> document_tree(bytes@) is Some,
        r matches Ok(v) ==> document_tree(bytes@) == Some(value_tree(v)),
{
    plist::Value::from_reader(std::io::Cursor::new(bytes))
}

/// Why bytes could not be read as a document.
#[derive(Debug)]
pub enum ParseFailure {
    /// They encode none.
    Document(plist::Error),
    /// They hold a date that lies behind the year 9999 in UTC.
    LastDay,
}

/// The tree of the document that is read from bytes, or `None` if none is: they encode none, or
/// reading them comes to a date that lies behind the year 9999 in UTC.
pub open spec fn document_in(bytes: Seq<u8>) -> Option<PlistTree> {
    if last_day_date(bytes) {
        None
    } else {
        document_tree(bytes)
    }
}

/// Whether no dictionary of a tree has two entries with the same key.
pub open spec fn keys_distinct(t: PlistTree) -> bool
    decreases t,
{
    match t {
        PlistTree::Dictionary(entries) => {
            &&& forall|i: int, j: int|
                0 <= i < j < entries.len() ==> (#[trigger] entries[i]).0 != (#[trigger] entries[j]).0
            &&& forall|i: int| 0 <= i < entries.len() ==> keys_distinct((#[trigger] entries[i]).1)
        },
        _ => true,
    }
}

/// The plain tree of a `plist::Value`.
fn tree_of(v: &plist::Value) -> (r: Plist)
    ensures
        r@ == value_tree(*v),
        keys_distinct(r@),
    decreases value_tree(*v),
{
    if let Some(d) = v.as_dictionary() {
        let from = entries_of(d);
        let mut entries: Vec<(String, Plist)> = Vec::new();
        for i in 0..from.len()
            invariant
                value_tree(*v) == PlistTree::Dictionary(dictionary_entries(*d)),
                from@.len() == dictionary_entries(*d).len(),
                forall|i: int|
                    0 <= i < from@.len() ==> #[trigger] dictionary_entries(*d)[i] == (
                        from@[i].0@,
                        value_tree(*from@[i].1),
                    ),
                entries@.len() == i,
                forall|j: int|
                    0 <= j < i ==> dictionary_entries(*d)[j] == (
                        (#[trigger] entries@[j]).0@,
                        entries@[j].1@,
                    ) && keys_distinct(entries@[j].1@),
        {
            let (key, value) = from[i];
            assert(dictionary_entries(*d)[i as int] == (key@, value_tree(*value)));
            assert(decreases_to!(value_tree(*v) => value_tree(*v)->Dictionary_0));
            assert(decreases_to!(
                value_tree(*v)->Dictionary_0 => value_tree(*v)->Dictionary_0[i as int]
            ));
            assert(decreases_to!(
                dictionary_entries(*d)[i as int] => dictionary_entries(*d)[i as int].1
            ));
            let tree = tree_of(value);
            entries.push((key.clone(), tree));
        }
        let r = Plist::Dictionary(entries);
        assert(r@->Dictionary_0 =~= dictionary_entries(*d));
        r
    } else if let Some(s) = v.as_string() {
        Plist::Text(s.to_owned())
    } else if let Some(n) = v.as_unsigned_integer() {
        Plist::Unsigned(n)
    } else {
        Plist::Other
    }
}

/// The entries of a dictionary, in the terms that contracts speak of.
pub open spec fn entry_trees(entries: Seq<(String, Plist)>) -> Seq<(Seq<char>, PlistTree)> {
    Seq::new(entries.len(), |i: int| (entries[i].0@, entries[i].1@))
}

/// The value of the first entry with the given key.
pub open spec fn lookup(entries: Seq<(Seq<char>, PlistTree)>, key: Seq<char>) -> Option<PlistTree>
    decreases entries.len(),
{
    if entries.len() == 0 {
        None
    } else if entries[0].0 == key {
        Some(entries[0].1)
    } else {
        lookup(entries.drop_first(), key)
    }
}

/// The text under a key, if a string stands there.
pub open spec fn text_at(entries: Seq<(Seq<char>, PlistTree)>, key: Seq<char>) -> Option<
    Seq<char>,
> {
    match lookup(entries, key) {
        Some(PlistTree::Text(s)) => Some(s),
        _ => None,
    }
}

/// The number under a key, if an integer in the range of `u64` stands there.
pub open spec fn unsigned_at(entries: Seq<(Seq<char>, PlistTree)>, key: Seq<char>) -> Option<u64> {
    match lookup(entries, key) {
        Some(PlistTree::Unsigned(n)) => Some(n),
        _ => None,
    }
}

/// The entries of the dictionary under a key, if one stands there.
pub open spec fn dictionary_at(entries: Seq<(Seq<char>, PlistTree)>, key: Seq<char>) -> Option<
    Seq<(Seq<char>, PlistTree)>,
> {
    match lookup(entries, key) {
        Some(PlistTree::Dictionary(inner)) => Some(inner),
        _ => None,
    }
}

/// Looks a key up in a dictionary.
pub fn get<'a>(entries: &'a Vec<(String, Plist)>, key: &str) -> (r: Option<&'a Plist>)
    ensures
        r is Some <==> lookup(entry_trees(entries@), key@) is Some,
        r matches Some(p) ==> lookup(entry_trees(entries@), key@) == Some(p@),
{
    let ghost trees = entry_trees(entries@);
    assert(trees.skip(0) =~= trees);
    for i in 0..entries.len()
        invariant
            trees == entry_trees(entries@),
            lookup(trees, key@) == lookup(trees.skip(i as int), key@),
    {
        assert(trees.skip(i as int).drop_first() =~= trees.skip(i + 1));
        if same_text(entries[i].0.as_str(), key) {
            return Some(&entries[i].1);
        }
    }
    None
}

/// Looks up the text under a key.
pub fn get_text<'a>(entries: &'a Vec<(String, Plist)>, key: &str) -> (r: Option<&'a str>)
    ensures
        r is Some <==> text_at(entry_trees(entries@), key@) is Some,
        r matches Some(s) ==> text_at(entry_trees(entries@), key@) == Some(s@),
{
    match get(entries, key) {
        Some(p) => p.as_string(),
        None => None,
    }
}

/// Looks up the number under a key.
pub fn get_unsigned(entries: &Vec<(String, Plist)>, key: &str) -> (r: Option<u64>)
    ensures
        r == unsigned_at(entry_trees(entries@), key@),
{
    match get(entries, key) {
        Some(p) => p.as_unsigned_integer(),
        None => None,
    }
}

/// Looks up the dictionary under a key.
pub fn get_dictionary<'a>(entries: &'a Vec<(String, Plist)>, key: &str) -> (r: Option<
    &'a Vec<(String, Plist)>,
>)
    ensures
        r is Some <==> dictionary_at(entry_trees(entries@), key@) is Some,
        r matches Some(d) ==> dictionary_at(entry_trees(entries@), key@) == Some(
            entry_trees(d@),
        ),
{
    match get(entries, key) {
        Some(p) => p.as_dictionary(),
        None => None,
    }
}

impl Plist {
    /// The entries of a dictionary.
    pub fn as_dictionary(&self) -> (r: Option<&Vec<(String, Plist)>>)
        ensures
            r is Some <==> self@ is Dictionary,
            r matches Some(d) ==> self@ == PlistTree::Dictionary(entry_trees(d@)),
    {
        match self {
            Plist::Dictionary(d) => {
                proof {
                    reveal_with_fuel(<Plist as View>::view, 2);
                    assert(self@->Dictionary_0 =~= entry_trees(d@));
                }
                Some(d)
            },
            _ => None,
        }
    }

    /// The text of a string.
    pub fn as_string(&self) -> (r: Option<&str>)
        ensures
            r is Some <==> self@ is Text,
            r matches Some(s) ==> self@ == PlistTree::Text(s@),
    {
        match self {
            Plist::Text(s) => Some(s.as_str()),
            _ => None,
        }
    }

    /// The number of an integer that 64 unsigned bits can hold.
    pub fn as_unsigned_integer(&self) -> (r: Option<u64>)
        ensures
            r is Some <==> self@ is Unsigned,
            r matches Some(n) ==> self@ == PlistTree::Unsigned(n),
    {
        match self {
            Plist::Unsigned(n) => Some(*n),
            _ => None,
        }
    }

    /// Reads a plist document of any encoding.
    pub fn from_bytes(bytes: &[u8]) -> (r: Result<Plist, ParseFailure>)
        ensures
            r is Ok <==> document_in(bytes@) is Some,
            r matches Ok(p) ==> document_in(bytes@) == Some(p@) && keys_distinct(p@),
            r matches Err(ParseFailure::LastDay) <==> last_day_date(bytes@),
    {
        if has_last_day_date(bytes) {
            return Err(ParseFailure::LastDay);
        }
        match read_document(bytes) {
            Ok(v) => Ok(tree_of(&v)),
            Err(e) => Err(ParseFailure::Document(e)),
        }
    }
}

/// Contracts speak of a tree by what it holds: the keys and trees of a dictionary in their order,
/// the characters of a text, and the number of an integer.
pub proof fn lemma_trees_show_values(entries: Vec<(String, Plist)>, text: String, n: u64)
    ensures
        Plist::Dictionary(entries)@ matches PlistTree::Dictionary(trees) && trees.len()
            == entries@.len() && (forall|i: int|
            0 <= i < entries@.len() ==> (#[trigger] trees[i]).0 == entries@[i].0@ && trees[i].1
                == entries@[i].1@),
        Plist::Text(text)@ == PlistTree::Text(text@),
        Plist::Unsigned(n)@ == PlistTree::Unsigned(n),
        Plist::Other@ == PlistTree::Other,
{
    reveal_with_fuel(<Plist as View>::view, 2);
}

/// Contracts speak of a dictionary's entries by their keys and trees, in their order.
pub proof fn lemma_entries_show_keys_and_trees(entries: Seq<(String, Plist)>, i: int)
    ensures
        entry_trees(entries).len() == entries.len(),
        0 <= i < entries.len() ==> entry_trees(entries)[i].0 == entries[i].0@ && entry_trees(
            entries,
        )[i].1 == entries[i].1@,
{
}

} // verus!
