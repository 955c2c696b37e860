//! The failures of the library, and the classes they are reported in.

use vstd::prelude::*;

verus! {

/// Why an operation failed.
#[derive(Debug, Clone, Copy, PartialEq, Eq, Structural)]
pub enum Failure {
    /// The bytes are no serialized container.
    InvalidData,
    /// The key is not in the map.
    KeyNotFound,
    /// A key does not come strictly after the key before it.
    OutOfOrder,
    /// The integer is above the largest that has an encoding.
    ValueTooLarge,
    /// There are no bytes to decode.
    Empty,
    /// There are fewer bytes than the last byte announces.
    Incomplete,
    /// An item is not made of exactly a key and a value.
    ItemArity,
    /// The key of an item is no byte string.
    ItemKey,
    /// The value of an item is no unsigned 64-bit integer.
    ItemValue,
    /// The buffer is read-only and was asked for as writable.
    BufferReadOnly,
    /// The length of the buffer does not fit a signed length.
    BufferTooLarge,
    /// The memory region offered as a buffer is not contiguous.
    NotContiguous,
    /// The transducer library failed.
    Runtime,
}

/// The classes in which failures are reported.
#[derive(Debug, Clone, Copy, PartialEq, Eq, Structural)]
pub enum FailureKind {
    InvalidData,
    KeyNotFound,
    ValueError,
    TypeError,
    BufferError,
    RuntimeError,
}

impl Failure {
    /// The class of this failure.
    pub open spec fn spec_kind(self) -> FailureKind {
        match self {
            Failure::InvalidData => FailureKind::InvalidData,
            Failure::KeyNotFound => FailureKind::KeyNotFound,
            Failure::OutOfOrder | Failure::ValueTooLarge | Failure::Empty | Failure::Incomplete => {
                FailureKind::ValueError
            },
            Failure::ItemArity | Failure::ItemKey | Failure::ItemValue => FailureKind::TypeError,
            Failure::BufferReadOnly | Failure::BufferTooLarge | Failure::NotContiguous => {
                FailureKind::BufferError
            },
            Failure::Runtime => FailureKind::RuntimeError,
        }
    }

    /// The class of this failure.
    pub fn kind(&self) -> (r: FailureKind)
        ensures
            r == self.spec_kind(),
    {
        match self {
            Failure::InvalidData => FailureKind::InvalidData,
            Failure::KeyNotFound => FailureKind::KeyNotFound,
            Failure::OutOfOrder | Failure::ValueTooLarge | Failure::Empty | Failure::Incomplete => {
                FailureKind::ValueError
            },
            Failure::ItemArity | Failure::ItemKey | Failure::ItemValue => FailureKind::TypeError,
            Failure::BufferReadOnly | Failure::BufferTooLarge | Failure::NotContiguous => {
                FailureKind::BufferError
            },
            Failure::Runtime => FailureKind::RuntimeError,
        }
    }
}

} // verus!
