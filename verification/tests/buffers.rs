use ducer::buffer::{
    check_contiguous, Buffer, BufferView, REQUEST_FORMAT, REQUEST_ND, REQUEST_STRIDES,
    REQUEST_WRITABLE,
};
use ducer::destination::{destination, Destination};
use ducer::error::{Failure, FailureKind};

#[test]
fn buffer_holds_its_bytes() {
    let b = Buffer::new(vec![1, 2, 3]);
    assert_eq!(b.len(), 3);
    assert_eq!(b.as_slice(), &[1, 2, 3]);
    assert_eq!(b.into_vec(), vec![1, 2, 3]);
    assert_eq!(Buffer::new(Vec::new()).len(), 0);
}

#[test]
fn simple_request_gets_a_bare_view() {
    let b = Buffer::new(vec![1, 2, 3]);
    assert_eq!(
        b.get_buffer(0),
        Ok(BufferView {
            len: 3,
            readonly: true,
            itemsize: 1,
            ndim: 1,
            format: false,
            shape: false,
            strides: false,
        })
    );
}

#[test]
fn request_flags_fill_in_the_view() {
    let b = Buffer::new(vec![0; 10]);
    let v = b.get_buffer(REQUEST_FORMAT).unwrap();
    assert!(v.format && !v.shape && !v.strides);
    let v = b.get_buffer(REQUEST_ND).unwrap();
    assert!(!v.format && v.shape && !v.strides);
    let v = b.get_buffer(REQUEST_STRIDES).unwrap();
    assert!(!v.format && v.shape && v.strides);
    // the bit of the strides alone, without the shape, asks for neither
    let v = b.get_buffer(0x0010).unwrap();
    assert!(!v.shape && !v.strides);
    let v = b.get_buffer(REQUEST_STRIDES | REQUEST_FORMAT).unwrap();
    assert!(v.format && v.shape && v.strides);
    assert_eq!(v.len, 10);
}

#[test]
fn writable_request_is_refused() {
    let b = Buffer::new(vec![1]);
    assert_eq!(b.get_buffer(REQUEST_WRITABLE), Err(Failure::BufferReadOnly));
    assert_eq!(
        b.get_buffer(REQUEST_WRITABLE | REQUEST_ND),
        Err(Failure::BufferReadOnly)
    );
    assert_eq!(Failure::BufferReadOnly.kind(), FailureKind::BufferError);
    assert_eq!(Failure::BufferTooLarge.kind(), FailureKind::BufferError);
}

#[test]
fn regions_must_be_contiguous() {
    assert_eq!(check_contiguous(true, false), Ok(()));
    assert_eq!(check_contiguous(false, true), Ok(()));
    assert_eq!(check_contiguous(true, true), Ok(()));
    assert_eq!(check_contiguous(false, false), Err(Failure::NotContiguous));
    assert_eq!(Failure::NotContiguous.kind(), FailureKind::BufferError);
}

#[test]
fn memory_is_named_by_its_sentinel() {
    assert_eq!(destination(b":memory:"), Destination::Memory);
    assert_eq!(destination(b":memory"), Destination::File);
    assert_eq!(destination(b"memory:"), Destination::File);
    assert_eq!(destination(b""), Destination::File);
    assert_eq!(destination(b"/tmp/x.map"), Destination::File);
}

#[test]
fn failures_fall_in_classes() {
    assert_eq!(Failure::InvalidData.kind(), FailureKind::InvalidData);
    assert_eq!(Failure::KeyNotFound.kind(), FailureKind::KeyNotFound);
    assert_eq!(Failure::OutOfOrder.kind(), FailureKind::ValueError);
    assert_eq!(Failure::ItemArity.kind(), FailureKind::TypeError);
    assert_eq!(Failure::ItemKey.kind(), FailureKind::TypeError);
    assert_eq!(Failure::ItemValue.kind(), FailureKind::TypeError);
    assert_eq!(Failure::Runtime.kind(), FailureKind::RuntimeError);
}
