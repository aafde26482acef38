//! CBOR message bodies: the values they hold and what the handshake reads of
//! them. The byte encoding is the `ciborium` crate's.

use ciborium::value::Value as Item;
use vstd::prelude::*;
use vstd::utf8::*;
use crate::frame::FrameError;
use crate::text::same;

verus! {

/// A CBOR data item.
#[derive(Debug, PartialEq, Eq)]
pub enum Value {
    /// An integer whose magnitude CBOR writes in at most 64 bits.
    Integer(i128),
    Bytes(Vec<u8>),
    /// A float, by its IEEE 754 bits.
    Float(u64),
    Text(String),
    Bool(bool),
    Null,
    Tag(u64, Box<Value>),
    Array(Vec<Value>),
    /// Keys and values in the order they are written.
    Dict(Vec<(Value, Value)>),
}

/// What a CBOR data item says.
pub enum Cbor {
    Integer(int),
    Bytes(Seq<u8>),
    /// A number, by its IEEE 754 bits.
    Float(u64),
    /// A float that is no number, whatever its bits.
    Nan,
    Text(Seq<char>),
    Bool(bool),
    Null,
    Tag(u64, Box<Cbor>),
    Array(Seq<Cbor>),
    Dict(Seq<(Cbor, Cbor)>),
}

/// What a float of these bits says.
pub open spec fn float_says(bits: u64) -> Cbor {
    if bits % 0x8000_0000_0000_0000 > 0x7ff0_0000_0000_0000 { Cbor::Nan } else { Cbor::Float(bits) }
}

impl Value {
    /// What the value says.
    pub open spec fn view(&self) -> Cbor
        decreases self,
    {
        match self {
            Value::Integer(i) => Cbor::Integer(*i as int),
            Value::Bytes(b) => Cbor::Bytes(b@),
            Value::Float(f) => float_says(*f),
            Value::Text(t) => Cbor::Text(t@),
            Value::Bool(b) => Cbor::Bool(*b),
            Value::Null => Cbor::Null,
            Value::Tag(t, v) => Cbor::Tag(*t, Box::new(v.view())),
            Value::Array(items) => Cbor::Array(
                Seq::new(
                    items@.len(),
                    |i: int|
                        if 0 <= i < items@.len() {
                            items@[i].view()
                        } else {
                            Cbor::Null
                        },
                ),
            ),
            Value::Dict(entries) => Cbor::Dict(
                Seq::new(
                    entries@.len(),
                    |i: int|
                        if 0 <= i < entries@.len() {
                            (entries@[i].0.view(), entries@[i].1.view())
                        } else {
                            (Cbor::Null, Cbor::Null)
                        },
                ),
            ),
        }
    }
}

/// Whether every integer in `c` is one that CBOR writes without a big-integer
/// tag: at least -2^64 and below 2^64.
pub open spec fn fits(c: Cbor) -> bool
    decreases c,
{
    match c {
        Cbor::Integer(i) => -0x1_0000_0000_0000_0000 <= i < 0x1_0000_0000_0000_0000,
        Cbor::Tag(_, v) => fits(*v),
        Cbor::Array(items) => forall|i: int| 0 <= i < items.len() ==> fits(#[trigger] items[i]),
        Cbor::Dict(entries) => forall|i: int|
            0 <= i < entries.len() ==> fits((#[trigger] entries[i]).0) && fits(entries[i].1),
        _ => true,
    }
}

/// Whether `c` is made of unsigned integers below 2^64, byte strings, texts,
/// booleans and nulls, in arrays and maps nested at most `depth` deep.
pub open spec fn plain(c: Cbor, depth: nat) -> bool
    decreases depth,
{
    match c {
        Cbor::Integer(i) => 0 <= i < 0x1_0000_0000_0000_0000,
        Cbor::Float(_) => false,
        Cbor::Nan => false,
        Cbor::Tag(_, _) => false,
        Cbor::Array(items) => depth > 0 && forall|i: int|
            0 <= i < items.len() ==> plain(#[trigger] items[i], (depth - 1) as nat),
        Cbor::Dict(entries) => depth > 0 && forall|i: int|
            0 <= i < entries.len() ==> plain((#[trigger] entries[i]).0, (depth - 1) as nat)
                && plain(entries[i].1, (depth - 1) as nat),
        _ => true,
    }
}

/// Whether no float in `c` is a NaN.
pub open spec fn nan_free(c: Cbor) -> bool
    decreases c,
{
    match c {
        Cbor::Nan => false,
        Cbor::Tag(_, v) => nan_free(*v),
        Cbor::Array(items) => forall|i: int| 0 <= i < items.len() ==> nan_free(#[trigger] items[i]),
        Cbor::Dict(entries) => forall|i: int|
            0 <= i < entries.len() ==> nan_free((#[trigger] entries[i]).0) && nan_free(entries[i].1),
        _ => true,
    }
}

/// Plain items hold no floats.
pub proof fn lemma_plain_is_nan_free(c: Cbor, depth: nat)
    requires
        plain(c, depth),
    ensures
        nan_free(c),
    decreases depth,
{
    match c {
        Cbor::Array(items) => {
            assert forall|i: int| 0 <= i < items.len() implies nan_free(#[trigger] items[i]) by {
                lemma_plain_is_nan_free(items[i], (depth - 1) as nat);
            }
        },
        Cbor::Dict(entries) => {
            assert forall|i: int| 0 <= i < entries.len() implies nan_free(
                (#[trigger] entries[i]).0,
            ) && nan_free(entries[i].1) by {
                lemma_plain_is_nan_free(entries[i].0, (depth - 1) as nat);
                lemma_plain_is_nan_free(entries[i].1, (depth - 1) as nat);
            }
        },
        _ => {},
    }
}

/// A bound on the bytes that `c` is written as: nine for the head of each item,
/// and what texts and byte strings hold.
pub open spec fn cbor_size(c: Cbor) -> nat
    decreases c, 0nat,
{
    match c {
        Cbor::Bytes(b) => 9 + b.len(),
        Cbor::Text(t) => 9 + encode_utf8(t).len(),
        Cbor::Tag(_, v) => 9 + cbor_size(*v),
        Cbor::Array(items) => 9 + items_size(items, items.len()),
        Cbor::Dict(entries) => 9 + entries_size(entries, entries.len()),
        _ => 9,
    }
}

/// The bound for the first `n` items of an array.
pub open spec fn items_size(items: Seq<Cbor>, n: nat) -> nat
    decreases items, n,
{
    if n == 0 || n > items.len() {
        0
    } else {
        items_size(items, (n - 1) as nat) + cbor_size(items[n - 1])
    }
}

/// The bound for the first `n` entries of a map.
pub open spec fn entries_size(entries: Seq<(Cbor, Cbor)>, n: nat) -> nat
    decreases entries, n,
{
    if n == 0 || n > entries.len() {
        0
    } else {
        entries_size(entries, (n - 1) as nat) + cbor_size(entries[n - 1].0) + cbor_size(
            entries[n - 1].1,
        )
    }
}

/// The `ciborium` crate's own data item.
#[verifier::external_type_specification]
#[verifier::external_body]
pub struct ExItem(Item);

/// What a `ciborium` data item says.
pub uninterp spec fn item_says(item: Item) -> Cbor;

/// What the data item at the front of `bytes` says, if one can be read there.
pub uninterp spec fn cbor_decoded(bytes: Seq<u8>) -> Option<Cbor>;

/// The bytes that a data item is written as.
pub uninterp spec fn cbor_encoded(c: Cbor) -> Seq<u8>;

/// Takes a `ciborium::value::Value` apart, variant by variant. Trusted: the
/// value handed back says what the item says.
#[verifier::external_body]
fn value_of(item: Item) -> (r: Value)
    ensures
        r@ == item_says(item),
        fits(r@),
{
    match item {
        Item::Integer(i) => Value::Integer(i.into()),
        Item::Bytes(b) => Value::Bytes(b),
        Item::Float(f) => Value::Float(f.to_bits()),
        Item::Text(t) => Value::Text(t),
        Item::Bool(b) => Value::Bool(b),
        Item::Tag(t, v) => Value::Tag(t, Box::new(value_of(*v))),
        Item::Array(a) => Value::Array(a.into_iter().map(value_of).collect()),
        Item::Map(m) => Value::Dict(m.into_iter().map(|(k, v)| (value_of(k), value_of(v))).collect()),
        _ => Value::Null,
    }
}

/// Calls `ciborium::de::from_reader` on the nine bytes that CBOR writes a float
/// of these bits in. Trusted: the item is that float.
#[verifier::external_body]
fn float_item(bits: u64) -> (r: Item)
    ensures
        item_says(r) == float_says(bits),
{
    let mut bytes = vec![0xfb];
    bytes.extend_from_slice(&bits.to_be_bytes());
    ciborium::de::from_reader(bytes.as_slice()).expect("a float in nine bytes")
}

/// Builds a `ciborium::value::Value`, variant by variant. Trusted: the item says
/// what the value says.
#[verifier::external_body]
fn item_of(value: &Value) -> (r: Item)
    requires
        fits(value@),
    ensures
        item_says(r) == value@,
{
    match value {
        Value::Integer(i) => Item::from(*i),
        Value::Bytes(b) => Item::Bytes(b.clone()),
        Value::Float(f) => float_item(*f),
        Value::Text(t) => Item::Text(t.clone()),
        Value::Bool(b) => Item::Bool(*b),
        Value::Null => Item::Null,
        Value::Tag(t, v) => Item::Tag(*t, Box::new(item_of(v))),
        Value::Array(a) => Item::Array(a.iter().map(item_of).collect()),
        Value::Dict(m) => Item::Map(m.iter().map(|(k, v)| (item_of(k), item_of(v))).collect()),
    }
}

/// Calls `ciborium::de::from_reader` on `bytes`. Trusted: whether a data item
/// is read, and what it says, depends on `bytes` alone.
#[verifier::external_body]
fn read_item(bytes: &[u8]) -> (r: Option<Item>)
    ensures
        match r {
            Some(item) => cbor_decoded(bytes@) == Some(item_says(item)),
            None => cbor_decoded(bytes@) is None,
        },
{
    ciborium::de::from_reader(bytes).ok()
}

/// Calls `ciborium::ser::into_writer` on a vector, which takes every write.
/// Trusted: the bytes depend on what the item says alone, unless it holds a NaN,
/// of which nothing is said; there are at most nine for the head of each item, besides what texts and byte strings
/// hold; and an item without floats, tags and negative integers, nested no
/// deeper than sixteen, is read back as it was.
#[verifier::external_body]
fn write_item(item: &Item) -> (r: Vec<u8>)
    ensures
        nan_free(item_says(*item)) ==> r@ == cbor_encoded(item_says(*item)),
        r@.len() <= cbor_size(item_says(*item)),
        plain(item_says(*item), 16) ==> cbor_decoded(r@) == Some(item_says(*item)),
{
    let mut out = Vec::new();
    ciborium::ser::into_writer(item, &mut out).expect("a vector takes every write");
    out
}

/// The text value that reads `s`.
pub fn text(s: &str) -> (r: Value)
    ensures
        r@ == Cbor::Text(s@),
{
    Value::Text(s.to_owned())
}

/// The bytes that `value` is written as. Those of a NaN are left open: which of
/// its bits survive a conversion between widths is up to the machine.
pub fn encode(value: &Value) -> (r: Vec<u8>)
    requires
        fits(value@),
    ensures
        nan_free(value@) ==> r@ == cbor_encoded(value@),
        r@.len() <= cbor_size(value@),
        plain(value@, 16) ==> cbor_decoded(r@) == Some(value@),
{
    write_item(&item_of(value))
}

/// The value at the front of `bytes`.
pub fn decode(bytes: &[u8]) -> (r: Result<Value, FrameError>)
    ensures
        match r {
            Ok(value) => cbor_decoded(bytes@) == Some(value@) && fits(value@),
            Err(e) => cbor_decoded(bytes@) is None && e == FrameError::Malformed,
        },
{
    match read_item(bytes) {
        Some(item) => Ok(value_of(item)),
        None => Err(FrameError::Malformed),
    }
}

/// What stands behind the first entry whose key is the text `key`.
pub open spec fn entry_of(entries: Seq<(Cbor, Cbor)>, key: Seq<char>) -> Option<Cbor>
    decreases entries.len(),
{
    if entries.len() == 0 {
        None
    } else if entries[0].0 == Cbor::Text(key) {
        Some(entries[0].1)
    } else {
        entry_of(entries.drop_first(), key)
    }
}

/// What stands behind the text `key` in `c`; nothing if `c` is no map.
pub open spec fn lookup(c: Cbor, key: Seq<char>) -> Option<Cbor> {
    match c {
        Cbor::Dict(entries) => entry_of(entries, key),
        _ => None,
    }
}

/// The text behind `key`.
pub open spec fn text_at(c: Cbor, key: Seq<char>) -> Option<Seq<char>> {
    match lookup(c, key) {
        Some(Cbor::Text(t)) => Some(t),
        _ => None,
    }
}

/// The byte string behind `key`.
pub open spec fn bytes_at(c: Cbor, key: Seq<char>) -> Option<Seq<u8>> {
    match lookup(c, key) {
        Some(Cbor::Bytes(b)) => Some(b),
        _ => None,
    }
}

/// What stands behind the first entry of `value` whose key is the text `key`.
pub fn map_get<'a>(value: &'a Value, key: &str) -> (r: Option<&'a Value>)
    ensures
        match r {
            Some(v) => lookup(value@, key@) == Some(v@),
            None => lookup(value@, key@) is None,
        },
{
    match value {
        Value::Dict(entries) => {
            let ghost all = value@->Dict_0;
            let mut i: usize = 0;
            assert(all.skip(0) == all);
            while i < entries.len()
                invariant
                    i <= entries@.len(),
                    value@ == Cbor::Dict(all),
                    all.len() == entries@.len(),
                    forall|j: int|
                        0 <= j < all.len() ==> #[trigger] all[j] == (entries@[j].0@, entries@[j].1@),
                    entry_of(all, key@) == entry_of(all.skip(i as int), key@),
                decreases entries@.len() - i,
            {
                let ghost rest = all.skip(i as int);
                assert(rest[0] == all[i as int]);
                assert(rest.drop_first() == all.skip(i + 1));
                if let Value::Text(t) = &entries[i].0 {
                    if same(t.as_str(), key) {
                        return Some(&entries[i].1);
                    }
                }
                i = i + 1;
            }
            None
        },
        _ => None,
    }
}

/// The text behind `key`, if that is what stands there.
pub fn get_text(value: &Value, key: &str) -> (r: Option<String>)
    ensures
        match r {
            Some(t) => text_at(value@, key@) == Some(t@),
            None => text_at(value@, key@) is None,
        },
{
    match map_get(value, key) {
        Some(Value::Text(t)) => Some(t.clone()),
        _ => None,
    }
}

/// The byte string behind `key`, if that is what stands there.
pub fn get_bytes(value: &Value, key: &str) -> (r: Option<Vec<u8>>)
    ensures
        match r {
            Some(b) => bytes_at(value@, key@) == Some(b@),
            None => bytes_at(value@, key@) is None,
        },
{
    match map_get(value, key) {
        Some(Value::Bytes(b)) => Some(b.clone()),
        _ => None,
    }
}

/// A lookup finds what stands behind the first entry whose key is the text, and
/// finds nothing exactly if no entry has that key; what is no map has none.
pub proof fn lookups_find_the_first_entry(c: Cbor, entries: Seq<(Cbor, Cbor)>, key: Seq<char>)
    ensures
        !(c is Dict) ==> lookup(c, key) is None,
        lookup(Cbor::Dict(entries), key) is None <==> forall|i: int|
            0 <= i < entries.len() ==> (#[trigger] entries[i]).0 != Cbor::Text(key),
        lookup(Cbor::Dict(entries), key) matches Some(v) ==> exists|i: int|
            0 <= i < entries.len() && #[trigger] entries[i] == (Cbor::Text(key), v) && forall|j: int|
                0 <= j < i ==> (#[trigger] entries[j]).0 != Cbor::Text(key),
        text_at(c, key) == (match lookup(c, key) {
            Some(Cbor::Text(t)) => Some(t),
            _ => None,
        }),
        bytes_at(c, key) == (match lookup(c, key) {
            Some(Cbor::Bytes(b)) => Some(b),
            _ => None,
        }),
    decreases entries.len(),
{
    if entries.len() > 0 {
        let rest = entries.drop_first();
        lookups_find_the_first_entry(c, rest, key);
        assert(forall|j: int| 0 <= j < rest.len() ==> rest[j] == entries[j + 1]);
        if entries[0].0 == Cbor::Text(key) {
            assert(entries[0] == (Cbor::Text(key), entries[0].1));
        } else if entry_of(rest, key) is Some {
            let v = entry_of(rest, key)->0;
            let i = choose|i: int|
                0 <= i < rest.len() && #[trigger] rest[i] == (Cbor::Text(key), v) && forall|j: int|
                    0 <= j < i ==> (#[trigger] rest[j]).0 != Cbor::Text(key);
            assert(entries[i + 1] == (Cbor::Text(key), v));
            assert forall|j: int| 0 <= j < i + 1 implies (#[trigger] entries[j]).0 != Cbor::Text(
                key,
            ) by {
                if j > 0 {
                    assert(rest[j - 1] == entries[j]);
                }
            }
        } else {
            assert forall|j: int| 0 <= j < entries.len() implies (#[trigger] entries[j]).0
                != Cbor::Text(key) by {
                if j > 0 {
                    assert(rest[j - 1] == entries[j]);
                }
            }
        }
    }
}

/// A value says what it holds, item by item; and it can be written unless it
/// holds an integer that takes more than 64 bits and a sign.
pub proof fn values_say_what_they_hold(
    value: Value,
    items: Vec<Value>,
    entries: Vec<(Value, Value)>,
    i: int,
)
    ensures
        value matches Value::Integer(n) ==> value@ == Cbor::Integer(n as int) && (fits(value@) <==> (
        -0x1_0000_0000_0000_0000 <= n < 0x1_0000_0000_0000_0000)),
        value matches Value::Bytes(b) ==> value@ == Cbor::Bytes(b@) && fits(value@),
        value matches Value::Text(t) ==> value@ == Cbor::Text(t@) && fits(value@),
        value matches Value::Bool(b) ==> value@ == Cbor::Bool(b) && fits(value@),
        value is Null ==> value@ is Null && fits(value@),
        Value::Array(items)@ matches Cbor::Array(said) && said.len() == items@.len() && (0 <= i
            < items@.len() ==> said[i] == items@[i]@),
        (forall|k: int| 0 <= k < items@.len() ==> fits((#[trigger] items@[k])@)) ==> fits(
            Value::Array(items)@,
        ),
        Value::Dict(entries)@ matches Cbor::Dict(said) && said.len() == entries@.len() && (0 <= i
            < entries@.len() ==> said[i] == (entries@[i].0@, entries@[i].1@)),
        (forall|k: int|
            0 <= k < entries@.len() ==> fits((#[trigger] entries@[k]).0@) && fits(entries@[k].1@))
            ==> fits(Value::Dict(entries)@),
{
    let array = Value::Array(items);
    let dict = Value::Dict(entries);
    let said = array@->Array_0;
    let pairs = dict@->Dict_0;
    if forall|k: int| 0 <= k < items@.len() ==> fits((#[trigger] items@[k])@) {
        assert forall|k: int| 0 <= k < said.len() implies fits(#[trigger] said[k]) by {
            assert(said[k] == items@[k]@);
        }
    }
    if forall|k: int|
        0 <= k < entries@.len() ==> fits((#[trigger] entries@[k]).0@) && fits(entries@[k].1@) {
        assert forall|k: int| 0 <= k < pairs.len() implies fits((#[trigger] pairs[k]).0) && fits(
            pairs[k].1,
        ) by {
            assert(pairs[k] == (entries@[k].0@, entries@[k].1@));
        }
    }
}

} // verus!
