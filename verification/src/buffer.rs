//! An owned, read-only region of bytes, as a build returns it, and the
//! answer it gives to a request for its memory.

use crate::error::Failure;
use vstd::prelude::*;

verus! {

/// The request asks for writable memory.
pub const REQUEST_WRITABLE: u32 = 0x0001;

/// The request asks for the format of the items.
pub const REQUEST_FORMAT: u32 = 0x0004;

/// The request asks for the shape of the region.
pub const REQUEST_ND: u32 = 0x0008;

/// The request asks for the strides of the region, which implies its shape.
pub const REQUEST_STRIDES: u32 = 0x0018;

/// A read-only buffer of bytes that owns its storage.
pub struct Buffer {
    data: Vec<u8>,
}

/// How a buffer describes its memory to one who asked for it: one dimension
/// of single bytes, read-only.
#[derive(Debug, Clone, Copy, PartialEq, Eq, Structural)]
pub struct BufferView {
    /// The number of bytes.
    pub len: isize,
    /// The memory may not be written.
    pub readonly: bool,
    /// The size of an item in bytes.
    pub itemsize: isize,
    /// The number of dimensions.
    pub ndim: i32,
    /// The format of an item, unsigned byte, is filled in.
    pub format: bool,
    /// The shape, one dimension of `len` items, is filled in.
    pub shape: bool,
    /// The strides, one of `itemsize` bytes, are filled in.
    pub strides: bool,
}

/// All bits of `mask` are set in `flags`.
pub open spec fn asks(flags: u32, mask: u32) -> bool {
    flags & mask == mask
}

impl Buffer {
    /// The bytes of the buffer.
    pub closed spec fn view(&self) -> Seq<u8> {
        self.data@
    }

    /// A buffer that owns `data`.
    pub fn new(data: Vec<u8>) -> (r: Self)
        ensures
            r@ == data@,
    {
        Buffer { data }
    }

    /// The number of bytes.
    pub fn len(&self) -> (r: usize)
        ensures
            r == self@.len(),
    {
        self.data.len()
    }

    /// The bytes, to read.
    pub fn as_slice(&self) -> (r: &[u8])
        ensures
            r@ == self@,
    {
        self.data.as_slice()
    }

    /// The bytes, given up by the buffer.
    pub fn into_vec(self) -> (r: Vec<u8>)
        ensures
            r@ == self@,
    {
        self.data
    }

    /// Answers a request for the memory of the buffer. A request for
    /// writable memory is refused with `BufferReadOnly`, and a buffer whose
    /// length does not fit a signed length with `BufferTooLarge`. Format,
    /// shape and strides are filled in exactly where the request asks for
    /// them.
    pub fn get_buffer(&self, flags: u32) -> (r: Result<BufferView, Failure>)
        ensures
            asks(flags, REQUEST_WRITABLE) ==> r == Err::<BufferView, Failure>(
                Failure::BufferReadOnly,
            ),
            !asks(flags, REQUEST_WRITABLE) && self@.len() > isize::MAX ==> r == Err::<
                BufferView,
                Failure,
            >(Failure::BufferTooLarge),
            !asks(flags, REQUEST_WRITABLE) && self@.len() <= isize::MAX ==> r == Ok::<
                BufferView,
                Failure,
            >(
                BufferView {
                    len: self@.len() as isize,
                    readonly: true,
                    itemsize: 1,
                    ndim: 1,
                    format: asks(flags, REQUEST_FORMAT),
                    shape: asks(flags, REQUEST_ND),
                    strides: asks(flags, REQUEST_STRIDES),
                },
            ),
    {
        if (flags & REQUEST_WRITABLE) == REQUEST_WRITABLE {
            return Err(Failure::BufferReadOnly);
        }
        let n = self.data.len();
        if n > isize::MAX as usize {
            return Err(Failure::BufferTooLarge);
        }
        Ok(
            BufferView {
                len: n as isize,
                readonly: true,
                itemsize: 1,
                ndim: 1,
                format: (flags & REQUEST_FORMAT) == REQUEST_FORMAT,
                shape: (flags & REQUEST_ND) == REQUEST_ND,
                strides: (flags & REQUEST_STRIDES) == REQUEST_STRIDES,
            },
        )
    }
}

/// Admits a region of memory as the bytes of a container only where it is
/// contiguous, in row-major or in column-major order; else fails with
/// `NotContiguous`.
pub fn check_contiguous(c_contiguous: bool, fortran_contiguous: bool) -> (r: Result<(), Failure>)
    ensures
        r == if c_contiguous || fortran_contiguous {
            Ok::<(), Failure>(())
        } else {
            Err::<(), Failure>(Failure::NotContiguous)
        },
{
    if c_contiguous || fortran_contiguous {
        Ok(())
    } else {
        Err(Failure::NotContiguous)
    }
}

} // verus!
