//! The decoded value tree, its error type, and read-only accessors.

use vstd::prelude::*;

verus! {

use crate::model::{SpecValue, assoc_lookup, lemma_key_index, lemma_key_index_is};

/// The reasons a decode can fail.
#[derive(Debug, Clone, Copy, PartialEq, Eq, Structural)]
pub enum ConvertError {
    /// A declared length or an expected numeral extends past the bytes at hand.
    BufferTooShort,
    /// A marker or terminator byte is missing or misplaced, a leading byte is
    /// unknown, or a dictionary key is not a string token.
    InvalidFormat,
    /// Bytes required to be ASCII are not.
    InvalidEncoding,
    /// A numeral does not denote a signed 32-bit integer.
    PayloadTooBig,
    /// A token was expected but the slice was empty, or bytes remain after a
    /// complete top-level value.
    EOF,
}

/// A decoded value: an integer, an ASCII string, an ordered list, or a
/// dictionary of string keys. Dictionary entries stand in first-occurrence
/// order and their keys are unique.
///
/// Strings and keys are owned copies of the decoded bytes rather than views
/// into the input buffer, so a decoded tree outlives the buffer it came from.
#[derive(Debug, PartialEq, Eq)]
pub enum BencodeType {
    Integer(i32),
    String(String),
    List(Vec<BencodeType>),
    Dictionary(Vec<(String, BencodeType)>),
}

/// The model of a sequence of decoded values, element by element.
pub open spec fn seq_view(items: Seq<BencodeType>) -> Seq<SpecValue>
    decreases items,
{
    if items.len() == 0 {
        Seq::empty()
    } else {
        seq_view(items.subrange(0, items.len() - 1)).push(items[items.len() - 1]@)
    }
}

/// The model of a sequence of dictionary entries, entry by entry.
pub open spec fn entries_view(entries: Seq<(String, BencodeType)>) -> Seq<(Seq<char>, SpecValue)>
    decreases entries,
{
    if entries.len() == 0 {
        Seq::empty()
    } else {
        entries_view(entries.subrange(0, entries.len() - 1)).push(
            (entries[entries.len() - 1].0@, entries[entries.len() - 1].1@),
        )
    }
}

/// `entries_view` models each entry in place.
pub proof fn lemma_entries_view(entries: Seq<(String, BencodeType)>)
    ensures
        entries_view(entries).len() == entries.len(),
        forall|i: int|
            0 <= i < entries.len() ==> entries_view(entries)[i] == (
            entries[i].0@,
            entries[i].1@,
            ),
    decreases entries.len(),
{
    if entries.len() > 0 {
        let pre = entries.subrange(0, entries.len() - 1);
        lemma_entries_view(pre);
        assert(entries_view(entries) == entries_view(pre).push(
            (entries[entries.len() - 1].0@, entries[entries.len() - 1].1@),
        ));
        assert forall|i: int|
            0 <= i < entries.len() implies entries_view(entries)[i] == (
        entries[i].0@,
        entries[i].1@,
        ) by {
            if i < entries.len() - 1 {
                assert(entries_view(entries)[i] == entries_view(pre)[i]);
                assert(pre[i] == entries[i]);
            }
        }
    }
}

impl View for BencodeType {
    type V = SpecValue;

    open spec fn view(&self) -> SpecValue
        decreases self,
    {
        match self {
            BencodeType::Integer(x) => SpecValue::Int(*x as int),
            BencodeType::String(s) => SpecValue::Str(s@),
            BencodeType::List(items) => SpecValue::List(seq_view(items@)),
            BencodeType::Dictionary(entries) => SpecValue::Dict(entries_view(entries@)),
        }
    }
}

impl BencodeType {
    /// The integer a value holds, if it is one.
    pub fn as_int(&self) -> (r: Option<i32>)
        ensures
            match r {
                Some(x) => self@ == SpecValue::Int(x as int),
                None => !(self@ is Int),
            },
    {
        match self {
            BencodeType::Integer(x) => Some(*x),
            _ => None,
        }
    }

    /// The string a value holds, if it is one.
    pub fn as_str(&self) -> (r: Option<&str>)
        ensures
            match r {
                Some(s) => self@ == SpecValue::Str(s@),
                None => !(self@ is Str),
            },
    {
        match self {
            BencodeType::String(s) => Some(s.as_str()),
            _ => None,
        }
    }

    /// The elements a value holds, if it is a list.
    pub fn as_list(&self) -> (r: Option<&Vec<BencodeType>>)
        ensures
            match r {
                Some(items) => self@ == SpecValue::List(seq_view(items@)),
                None => !(self@ is List),
            },
    {
        match self {
            BencodeType::List(items) => Some(items),
            _ => None,
        }
    }

    /// The entries a value holds, if it is a dictionary.
    pub fn as_dict(&self) -> (r: Option<&Vec<(String, BencodeType)>>)
        ensures
            match r {
                Some(entries) => self@ == SpecValue::Dict(entries_view(entries@)),
                None => !(self@ is Dict),
            },
    {
        match self {
            BencodeType::Dictionary(entries) => Some(entries),
            _ => None,
        }
    }
}

/// The value bound to `key` among dictionary entries, if any.
pub fn dict_get<'a>(entries: &'a Vec<(String, BencodeType)>, key: &str) -> (r: Option<
    &'a BencodeType,
>)
    ensures
        match r {
            Some(v) => assoc_lookup(entries_view(entries@), key@) == Some(v@),
            None => assoc_lookup(entries_view(entries@), key@) is None,
        },
{
    let ghost model = entries_view(entries@);
    proof {
        lemma_entries_view(entries@);
    }
    let mut i: usize = 0;
    while i < entries.len()
        invariant
            0 <= i <= entries@.len(),
            model == entries_view(entries@),
            model.len() == entries@.len(),
            forall|j: int| 0 <= j < entries@.len() ==> model[j] == (entries@[j].0@, entries@[j].1@),
            forall|j: int| 0 <= j < i ==> model[j].0 != key@,
        decreases entries@.len() - i,
    {
        if crate::decode::str_eq(entries[i].0.as_str(), key) {
            proof {
                lemma_key_index_is(model, key@, i as int);
            }
            return Some(&entries[i].1);
        }
        i += 1;
    }
    proof {
        lemma_key_index(model, key@);
    }
    None
}

/// One decoded token and the unconsumed remainder of the input.
#[derive(Debug)]
pub struct ParseResult<'a> {
    pub value: BencodeType,
    pub next: &'a [u8],
}

impl<'a> ParseResult<'a> {
    /// Pairs a decoded value with the remainder it leaves behind.
    pub fn new(value: BencodeType, next: &'a [u8]) -> (r: ParseResult<'a>)
        ensures
            r.value == value,
            r.next == next,
    {
        ParseResult { value, next }
    }

    /// The token consumed the whole input.
    pub fn done(&self) -> (r: bool)
        ensures
            r == (self.next@.len() == 0),
    {
        self.next.is_empty()
    }
}

} // verus!
