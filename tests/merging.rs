use dogma_rust::concat::{concatenate_numpy, parallel_concatenate_buffers, DType, RawBuffer};
use dogma_rust::error::ConcatError;
use dogma_rust::ragged::{shift_offsets, AwkwardArray};

#[test]
fn merge_shifts_offsets_and_keeps_seams() {
    let a = AwkwardArray::new(vec![1u8, 3, 2, 2], vec![0, 4]);
    let b = AwkwardArray::new(vec![2u8, 2, 2, 1], vec![0, 4]);
    let m = AwkwardArray::parallel_concatenate(&[a, b]);
    assert_eq!(m.content, vec![1, 3, 2, 2, 2, 2, 2, 1]);
    assert_eq!(m.cu_seqlens, vec![0, 4, 4, 8]);
}

#[test]
fn merge_counts_one_empty_entry_per_seam() {
    let arrs = vec![
        AwkwardArray::new(vec![1u8, 2], vec![0, 1, 2]),
        AwkwardArray::new(vec![], vec![0]),
        AwkwardArray::new(vec![3u8, 4, 5], vec![0, 3]),
        AwkwardArray::new(vec![6u8], vec![0, 1]),
    ];
    let m = AwkwardArray::parallel_concatenate(&arrs);
    assert_eq!(m.content, vec![1, 2, 3, 4, 5, 6]);
    assert_eq!(m.cu_seqlens, vec![0, 1, 2, 2, 2, 5, 5, 6]);
    let entries = m.cu_seqlens.len() - 1;
    let real_entries = 2 + 0 + 1 + 1;
    assert_eq!(entries - real_entries, arrs.len() - 1);
}

#[test]
fn merge_of_one_array_is_that_array() {
    let a = AwkwardArray::new(vec![7u32, 8, 9], vec![0, 2, 3]);
    let m = AwkwardArray::parallel_concatenate(&[a]);
    assert_eq!(m.content, vec![7, 8, 9]);
    assert_eq!(m.cu_seqlens, vec![0, 2, 3]);
}

#[test]
fn merge_of_nothing_is_empty() {
    let m = AwkwardArray::<u8>::parallel_concatenate(&[]);
    assert!(m.content.is_empty());
    assert!(m.cu_seqlens.is_empty());
}

#[test]
fn merge_is_associative_on_content() {
    let a = AwkwardArray::new(vec![1u8, 2], vec![0, 2]);
    let b = AwkwardArray::new(vec![3u8], vec![0, 1]);
    let c = AwkwardArray::new(vec![4u8, 5, 6], vec![0, 1, 3]);
    let ab = AwkwardArray::parallel_concatenate(&[
        AwkwardArray::new(a.content.clone(), a.cu_seqlens.clone()),
        AwkwardArray::new(b.content.clone(), b.cu_seqlens.clone()),
    ]);
    let left = AwkwardArray::parallel_concatenate(&[ab, AwkwardArray::new(c.content.clone(), c.cu_seqlens.clone())]);
    let all = AwkwardArray::parallel_concatenate(&[a, b, c]);
    assert_eq!(left.content, all.content);
    assert_eq!(all.content, vec![1, 2, 3, 4, 5, 6]);
}

#[test]
fn shift_moves_every_offset() {
    assert_eq!(shift_offsets(&vec![0, 3, 5], 10), vec![10, 13, 15]);
    assert_eq!(shift_offsets(&vec![], 4), Vec::<i64>::new());
}

#[test]
fn buffers_concatenate_in_order() {
    let a = [1u16, 2];
    let b: [u16; 0] = [];
    let c = [3u16, 4, 5];
    assert_eq!(parallel_concatenate_buffers(&[&a[..], &b[..], &c[..]]), vec![1, 2, 3, 4, 5]);
    assert_eq!(parallel_concatenate_buffers::<u8>(&[]), Vec::<u8>::new());
}

fn raw(kind: u8, itemsize: usize, contiguous: bool, data: Vec<u8>) -> RawBuffer {
    let len = data.len() / itemsize;
    RawBuffer { dtype: DType { kind, itemsize }, contiguous, data, len }
}

#[test]
fn raw_buffers_of_one_type_concatenate() {
    let r = concatenate_numpy(&[raw(b'i', 2, true, vec![1, 0, 2, 0]), raw(b'i', 2, true, vec![3, 0])]);
    assert_eq!(r.unwrap(), vec![1, 0, 2, 0, 3, 0]);
}

#[test]
fn mismatched_dtype_fails() {
    let r = concatenate_numpy(&[raw(b'i', 2, true, vec![1, 0]), raw(b'i', 4, true, vec![1, 0, 0, 0])]);
    assert_eq!(r.unwrap_err(), ConcatError::DtypeMismatch(1));
    let r = concatenate_numpy(&[raw(b'u', 1, true, vec![1]), raw(b'u', 1, true, vec![2]), raw(b'i', 1, true, vec![3])]);
    assert_eq!(r.unwrap_err(), ConcatError::DtypeMismatch(2));
}

#[test]
fn non_contiguous_fails() {
    let r = concatenate_numpy(&[raw(b'u', 1, false, vec![1]), raw(b'u', 1, true, vec![2])]);
    assert_eq!(r.unwrap_err(), ConcatError::NonContiguous(0));
    let r = concatenate_numpy(&[raw(b'u', 1, true, vec![1]), raw(b'f', 8, false, vec![0; 8])]);
    assert_eq!(r.unwrap_err(), ConcatError::DtypeMismatch(1));
}
