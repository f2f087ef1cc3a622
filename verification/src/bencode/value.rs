//! Bencode values: the mathematical value, its form in memory, and the errors
//! of decoding.

use vstd::prelude::*;

verus! {

/// A bencode value as a mathematical object. A dictionary is the sequence of
/// its entries in the order in which they were met.
pub enum Bencode {
    Integer(i64),
    ByteString(Seq<u8>),
    List(Seq<Bencode>),
    Dictionary(Seq<(Seq<u8>, Bencode)>),
}

/// A bencode value in memory. A dictionary holds its entries in the order in
/// which they were met; the decoder gives none with a repeated key.
#[derive(Debug, PartialEq, Eq)]
pub enum Value {
    Integer(i64),
    ByteString(Vec<u8>),
    List(Vec<Value>),
    Dictionary(Vec<(Vec<u8>, Value)>),
}

/// Why an input is no bencode, or no bencode of the expected shape.
#[derive(Debug, Clone, Copy, PartialEq, Eq)]
pub enum ParseError {
    /// The input ends where a value or a closing `e` is due.
    UnexpectedEnd,
    /// The leading byte opens no value.
    UnhandledValue,
    /// A string does not begin with decimal digits and a colon.
    InvalidLength,
    /// A string declares more bytes than the input has left.
    LengthExceedsInput,
    /// What stands between `i` and `e` is no decimal integer of 64 bits.
    InvalidInteger,
    /// A dictionary key is no byte string.
    NonStringKey,
    /// A dictionary lacks a field that is required.
    MissingField,
    /// A field holds a value of another kind, or a number out of range.
    WrongKind,
    /// A field that holds text is not UTF-8.
    InvalidText,
    /// A string of records of fixed length ends within a record.
    PartialRecord,
}

/// The keys of a sequence of entries, in order.
pub open spec fn keys(entries: Seq<(Seq<u8>, Bencode)>) -> Seq<Seq<u8>> {
    Seq::new(entries.len(), |i: int| entries[i].0)
}

/// Whether no key occurs twice.
pub open spec fn keys_unique(entries: Seq<(Seq<u8>, Bencode)>) -> bool {
    forall|i: int, j: int|
        0 <= i < j < entries.len() ==> (#[trigger] entries[i]).0 != (#[trigger] entries[j]).0
}

/// The value that the entries give to `key`, if any: that of the first entry
/// with this key.
pub open spec fn lookup(entries: Seq<(Seq<u8>, Bencode)>, key: Seq<u8>) -> Option<Bencode> {
    match keys(entries).index_of_first(key) {
        Some(i) => Some(entries[i].1),
        None => None,
    }
}

/// The entries after `key` has been given `value`: an entry with this key
/// keeps its place and takes the value, a new key goes to the end.
pub open spec fn insert_entry(
    entries: Seq<(Seq<u8>, Bencode)>,
    key: Seq<u8>,
    value: Bencode,
) -> Seq<(Seq<u8>, Bencode)> {
    match keys(entries).index_of_first(key) {
        Some(i) => entries.update(i, (key, value)),
        None => entries.push((key, value)),
    }
}

impl Bencode {
    /// The value that a dictionary gives to `key`; none where the key is
    /// absent or the value is no dictionary.
    pub open spec fn field(self, key: Seq<u8>) -> Option<Bencode> {
        match self {
            Bencode::Dictionary(entries) => lookup(entries, key),
            _ => None,
        }
    }

    /// Whether no dictionary in the value, at any depth, holds a key twice.
    pub open spec fn wf(self) -> bool
        decreases self,
    {
        match self {
            Bencode::Integer(_) => true,
            Bencode::ByteString(_) => true,
            Bencode::List(items) => forall|i: int|
                0 <= i < items.len() ==> (#[trigger] items[i]).wf(),
            Bencode::Dictionary(entries) => {
                &&& keys_unique(entries)
                &&& forall|i: int| 0 <= i < entries.len() ==> (#[trigger] entries[i]).1.wf()
            },
        }
    }
}

/// The mathematical value of a value in memory.
pub open spec fn value_view(value: Value) -> Bencode
    decreases value,
{
    match value {
        Value::Integer(n) => Bencode::Integer(n),
        Value::ByteString(bytes) => Bencode::ByteString(bytes@),
        Value::List(items) => Bencode::List(items_view(items@)),
        Value::Dictionary(entries) => Bencode::Dictionary(entries_view(entries@)),
    }
}

/// The mathematical values of a sequence of values in memory.
pub open spec fn items_view(items: Seq<Value>) -> Seq<Bencode>
    decreases items,
{
    if items.len() == 0 {
        Seq::empty()
    } else {
        items_view(items.drop_last()).push(value_view(items.last()))
    }
}

/// The mathematical entries of a sequence of entries in memory.
pub open spec fn entries_view(entries: Seq<(Vec<u8>, Value)>) -> Seq<(Seq<u8>, Bencode)>
    decreases entries,
{
    if entries.len() == 0 {
        Seq::empty()
    } else {
        entries_view(entries.drop_last()).push((entries.last().0@, value_view(entries.last().1)))
    }
}

impl View for Value {
    type V = Bencode;

    open spec fn view(&self) -> Bencode {
        value_view(*self)
    }
}

/// The views of items are the views item by item.
pub proof fn lemma_items_view(items: Seq<Value>)
    ensures
        items_view(items).len() == items.len(),
        forall|i: int| 0 <= i < items.len() ==> (#[trigger] items_view(items)[i]) == items[i]@,
    decreases items.len(),
{
    if items.len() > 0 {
        lemma_items_view(items.drop_last());
    }
}

/// The views of entries are the views entry by entry.
pub proof fn lemma_entries_view(entries: Seq<(Vec<u8>, Value)>)
    ensures
        entries_view(entries).len() == entries.len(),
        forall|i: int|
            0 <= i < entries.len() ==> (#[trigger] entries_view(entries)[i]) == (
                entries[i].0@,
                entries[i].1@,
            ),
    decreases entries.len(),
{
    if entries.len() > 0 {
        lemma_entries_view(entries.drop_last());
    }
}

/// The views of items with one more item at the end.
pub proof fn lemma_items_view_push(items: Seq<Value>, item: Value)
    ensures
        items_view(items.push(item)) == items_view(items).push(item@),
{
    assert(items.push(item).drop_last() =~= items);
}

/// The views of entries with one more entry at the end.
pub proof fn lemma_entries_view_push(entries: Seq<(Vec<u8>, Value)>, key: Vec<u8>, value: Value)
    ensures
        entries_view(entries.push((key, value))) == entries_view(entries).push((key@, value@)),
{
    assert(entries.push((key, value)).drop_last() =~= entries);
}

/// The views of entries with one entry replaced.
pub proof fn lemma_entries_view_update(
    entries: Seq<(Vec<u8>, Value)>,
    i: int,
    key: Vec<u8>,
    value: Value,
)
    requires
        0 <= i < entries.len(),
    ensures
        entries_view(entries.update(i, (key, value))) == entries_view(entries).update(
            i,
            (key@, value@),
        ),
{
    lemma_entries_view(entries);
    lemma_entries_view(entries.update(i, (key, value)));
}

/// The place of `key` among the keys is `i` where `i` is the first index that
/// holds it.
pub proof fn lemma_first_index<A>(s: Seq<A>, needle: A, i: int)
    requires
        0 <= i < s.len(),
        s[i] == needle,
        forall|j: int| 0 <= j < i ==> s[j] != needle,
    ensures
        s.index_of_first(needle) == Some(i),
{
    s.index_of_first_ensures(needle);
}

/// A needle that no index holds has no place.
pub proof fn lemma_no_index<A>(s: Seq<A>, needle: A)
    requires
        forall|j: int| 0 <= j < s.len() ==> s[j] != needle,
    ensures
        s.index_of_first(needle) is None,
{
    s.index_of_first_ensures(needle);
}

/// Whether two byte strings are equal.
pub fn bytes_eq(a: &[u8], b: &[u8]) -> (res: bool)
    ensures
        res == (a@ == b@),
{
    if a.len() != b.len() {
        return false;
    }
    let mut i: usize = 0;
    while i < a.len()
        invariant
            i <= a.len() == b.len(),
            forall|j: int| 0 <= j < i ==> a@[j] == b@[j],
        decreases a.len() - i,
    {
        if a[i] != b[i] {
            return false;
        }
        i += 1;
    }
    assert(a@ =~= b@);
    true
}

impl Value {
    /// Looks `key` up in a dictionary: gives the value of the first entry with
    /// this key, and nothing where there is none or `self` is no dictionary.
    pub fn lookup(&self, key: &[u8]) -> (res: Option<&Value>)
        ensures
            match self@.field(key@) {
                Some(value) => res matches Some(found) && found@ == value,
                None => res is None,
            },
    {
        match self {
            Value::Dictionary(entries) => {
                let mut i: usize = 0;
                proof {
                    lemma_entries_view(entries@);
                }
                while i < entries.len()
                    invariant
                        i <= entries.len(),
                        self == Value::Dictionary(*entries),
                        forall|j: int|
                            0 <= j < i ==> keys(entries_view(entries@))[j] != key@,
                    decreases entries.len() - i,
                {
                    proof {
                        lemma_entries_view(entries@);
                    }
                    if bytes_eq(entries[i].0.as_slice(), key) {
                        proof {
                            lemma_first_index(keys(entries_view(entries@)), key@, i as int);
                        }
                        return Some(&entries[i].1);
                    }
                    i += 1;
                }
                proof {
                    lemma_no_index(keys(entries_view(entries@)), key@);
                }
                None
            },
            _ => None,
        }
    }
}

} // verus!
