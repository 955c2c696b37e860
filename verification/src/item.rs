//! Items as a caller hands them to a build, before they are known to be
//! well-formed.

use crate::error::Failure;
use vstd::prelude::*;

verus! {

/// One field of an item.
#[derive(Debug)]
pub enum Field {
    /// A byte string.
    Bytes(Vec<u8>),
    /// An integer that fits 64 bits without a sign.
    Int(u64),
    /// Anything else.
    Other,
}

/// An item offered to a map build.
#[derive(Debug)]
pub enum Item {
    /// A sequence of fields.
    Fields(Vec<Field>),
    /// Something that is no sequence.
    Other,
}

/// The number of fields of a map item: a key and a value.
pub const ITEM_ARITY: usize = 2;

/// The entry that a map item stands for: an item of exactly two fields, a
/// byte string and then an integer. `ItemArity` for an item that is no
/// sequence of two fields, `ItemKey` where the first is no byte string,
/// `ItemValue` where the second is no integer.
pub open spec fn item_entry(item: Item) -> Result<(Seq<u8>, u64), Failure> {
    match item {
        Item::Other => Err(Failure::ItemArity),
        Item::Fields(fields) => if fields@.len() != ITEM_ARITY {
            Err(Failure::ItemArity)
        } else {
            match (fields@[0], fields@[1]) {
                (Field::Bytes(k), Field::Int(v)) => Ok((k@, v)),
                (Field::Bytes(_), _) => Err(Failure::ItemValue),
                _ => Err(Failure::ItemKey),
            }
        },
    }
}

/// The key that a set item stands for: a byte string. `ItemKey` for
/// anything else.
pub open spec fn field_key(field: Field) -> Result<Seq<u8>, Failure> {
    match field {
        Field::Bytes(k) => Ok(k@),
        _ => Err(Failure::ItemKey),
    }
}

/// An entry as executable code holds it stands for the entry `x`.
pub open spec fn same_parsed(r: Result<(&[u8], u64), Failure>, x: Result<(Seq<u8>, u64), Failure>)
    -> bool {
    match (r, x) {
        (Ok((k, v)), Ok(e)) => k@ == e.0 && v == e.1,
        (Err(a), Err(b)) => a == b,
        _ => false,
    }
}

/// Reads a map item as a key and a value.
pub fn parse_item(item: &Item) -> (r: Result<(&[u8], u64), Failure>)
    ensures
        same_parsed(r, item_entry(*item)),
{
    match item {
        Item::Other => Err(Failure::ItemArity),
        Item::Fields(fields) => {
            if fields.len() != ITEM_ARITY {
                return Err(Failure::ItemArity);
            }
            let key: &[u8] = match &fields[0] {
                Field::Bytes(k) => k.as_slice(),
                _ => {
                    return Err(Failure::ItemKey);
                },
            };
            let val: u64 = match &fields[1] {
                Field::Int(v) => *v,
                _ => {
                    return Err(Failure::ItemValue);
                },
            };
            Ok((key, val))
        },
    }
}

/// Reads a set item as a key.
pub fn parse_key(field: &Field) -> (r: Result<&[u8], Failure>)
    ensures
        match (r, field_key(*field)) {
            (Ok(k), Ok(e)) => k@ == e,
            (Err(a), Err(b)) => a == b,
            _ => false,
        },
{
    match field {
        Field::Bytes(k) => Ok(k.as_slice()),
        _ => Err(Failure::ItemKey),
    }
}

} // verus!
