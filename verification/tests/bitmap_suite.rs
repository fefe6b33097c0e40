use frame_join::bitmap::{check, Bitmap, BitmapError};

#[test]
fn new_is_empty() {
    let b = Bitmap::new();
    assert_eq!(b.len(), 0);
    assert!(b.is_empty());
    assert_eq!(b.unset_bits(), 0);
    assert_eq!(b.set_bits(), 0);
}

#[test]
fn try_new_bit_order() {
    // The first bit is the least significant bit of the first byte.
    let b = Bitmap::try_new(vec![0b00001101], 5).unwrap();
    assert_eq!(b.iter(), vec![true, false, true, true, false]);
    assert_eq!(b.len(), 5);
    assert!(b.get_bit(0));
    assert!(!b.get_bit(1));
    assert!(b.get_bit(2));
    assert!(b.get_bit(3));
    assert!(!b.get_bit(4));
}

#[test]
fn try_new_rejects_oversized_length() {
    let r = Bitmap::try_new(vec![0xff], 9);
    assert!(matches!(r, Err(BitmapError::InvalidOperation)));
    assert!(Bitmap::try_new(vec![0xff], 8).is_ok());
}

#[test]
fn check_bounds() {
    assert!(check(&[0u8, 0u8], 3, 13).is_ok());
    assert!(check(&[0u8, 0u8], 3, 14).is_err());
}

#[test]
fn get_out_of_range_is_none() {
    let b = Bitmap::try_new(vec![0b1], 1).unwrap();
    assert_eq!(b.get(0), Some(true));
    assert_eq!(b.get(1), None);
}

#[test]
fn unset_bits_counts_zeros() {
    let b = Bitmap::try_new(vec![0b00001101], 5).unwrap();
    assert_eq!(b.unset_bits(), 2);
    assert_eq!(b.set_bits(), 3);
}

#[test]
fn lazy_counts_follow_cache() {
    let b = Bitmap::try_new(vec![0b00001101], 5).unwrap();
    // A freshly built bitmap has no cached count.
    assert_eq!(b.lazy_unset_bits(), None);
    assert_eq!(b.lazy_set_bits(), None);
    let z = Bitmap::new_zeroed(6);
    assert_eq!(z.lazy_unset_bits(), Some(6));
    assert_eq!(z.lazy_set_bits(), Some(0));
    let f = Bitmap::new_with_value(true, 6);
    assert_eq!(f.lazy_unset_bits(), Some(0));
    assert_eq!(f.lazy_set_bits(), Some(6));
}

#[test]
fn update_bit_count_caches() {
    let mut b = Bitmap::try_new(vec![0b00001101], 5).unwrap();
    b.update_bit_count(3);
    assert_eq!(b.lazy_unset_bits(), Some(2));
}

#[test]
fn new_zeroed_is_all_unset() {
    let b = Bitmap::new_zeroed(10);
    assert_eq!(b.len(), 10);
    assert_eq!(b.unset_bits(), 10);
    assert_eq!(b.iter(), vec![false; 10]);
}

#[test]
fn slice_narrows_view() {
    let mut b = Bitmap::try_new(vec![0b00001101], 5).unwrap();
    b.slice(1, 4);
    assert_eq!(b.len(), 4);
    assert_eq!(b.iter(), vec![false, true, true, false]);
    let (_, offset, len) = b.as_slice();
    assert_eq!(offset, 1);
    assert_eq!(len, 4);
}

#[test]
fn sliced_consumes_and_keeps_counts() {
    let b = Bitmap::try_new(vec![0b00001101], 5).unwrap();
    let s = b.sliced(2, 2);
    assert_eq!(s.iter(), vec![true, true]);
    assert_eq!(s.unset_bits(), 0);
}

#[test]
fn as_slice_reports_region() {
    let b = Bitmap::try_new(vec![0b00001101], 5).unwrap();
    let (bytes, offset, len) = b.as_slice();
    assert_eq!(bytes, &[0b00001101]);
    assert_eq!(offset, 0);
    assert_eq!(len, 5);
}

#[test]
fn as_slice_after_deep_slice_drops_whole_bytes() {
    let b = Bitmap::try_new(vec![0xAA, 0b11, 0x00], 24).unwrap();
    let s = b.sliced(8, 10);
    let (bytes, offset, len) = s.as_slice();
    assert_eq!(bytes, &[0b11, 0x00]);
    assert_eq!(offset, 0);
    assert_eq!(len, 10);
    assert_eq!(s.set_bits(), 2);
}

#[test]
fn from_u8_slice_and_vec_agree() {
    let a = Bitmap::from_u8_slice(&[0b101][..], 3);
    let b = Bitmap::from_u8_vec(vec![0b101], 3);
    assert_eq!(a.iter(), b.iter());
    assert_eq!(a.iter(), vec![true, false, true]);
    assert_eq!(a.lazy_unset_bits(), None);
}

#[test]
fn from_trusted_len_iter_round_trip() {
    let values = vec![true, false, true, true, false, false, true, false, true];
    let b = Bitmap::from_trusted_len_iter(&values);
    assert_eq!(b.len(), values.len());
    assert_eq!(b.iter(), values);
    assert_eq!(b.unset_bits(), 4);
}

#[test]
fn try_from_trusted_len_iter_all_ok() {
    let values: Vec<Result<bool, u8>> = vec![Ok(true), Ok(false), Ok(true)];
    let b = Bitmap::try_from_trusted_len_iter(values).unwrap();
    assert_eq!(b.iter(), vec![true, false, true]);
}

#[test]
fn try_from_trusted_len_iter_first_error() {
    let values: Vec<Result<bool, u8>> = vec![Ok(true), Err(7), Ok(false), Err(9)];
    let r = Bitmap::try_from_trusted_len_iter(values);
    assert_eq!(r.err(), Some(7));
}

#[test]
fn null_count_range_counts_window() {
    let b = Bitmap::try_new(vec![0b00001101], 5).unwrap();
    assert_eq!(b.null_count_range(0, 5), 2);
    assert_eq!(b.null_count_range(1, 3), 1);
    assert_eq!(b.null_count_range(4, 1), 1);
    assert_eq!(b.null_count_range(2, 2), 0);
}

#[test]
fn chunks_pack_bits_least_significant_first() {
    // 70 bits: one full 64-bit chunk and a 6-bit remainder.
    let mut values = vec![false; 70];
    values[0] = true;
    values[63] = true;
    values[64] = true;
    values[69] = true;
    let b = Bitmap::from_trusted_len_iter(&values);
    let (chunks, remainder, rem_len) = b.chunks();
    assert_eq!(chunks, vec![(1u64 << 63) | 1]);
    assert_eq!(remainder, 0b100001);
    assert_eq!(rem_len, 6);
    let (chunks64, remainder64, rem_len64) = b.fast_iter_u64();
    assert_eq!(chunks64, chunks);
    assert_eq!(remainder64, remainder);
    assert_eq!(rem_len64, rem_len);
}

#[test]
fn fast_iter_u32_packs_words() {
    let mut values = vec![false; 33];
    values[1] = true;
    values[31] = true;
    values[32] = true;
    let b = Bitmap::from_trusted_len_iter(&values);
    let (words, remainder, rem_len) = b.fast_iter_u32();
    assert_eq!(words, vec![(1u32 << 31) | 2]);
    assert_eq!(remainder, 1);
    assert_eq!(rem_len, 1);
}

#[test]
fn fast_iter_u56_packs_words() {
    let mut values = vec![false; 60];
    values[55] = true;
    values[56] = true;
    values[59] = true;
    let b = Bitmap::from_trusted_len_iter(&values);
    let (words, remainder, rem_len) = b.fast_iter_u56();
    assert_eq!(words, vec![1u64 << 55]);
    assert_eq!(remainder, 0b1001);
    assert_eq!(rem_len, 4);
}

#[test]
fn default_is_empty() {
    let b = Bitmap::default();
    assert_eq!(b.len(), 0);
}

#[test]
fn true_idx_iter_lists_set_positions() {
    let b = Bitmap::try_new(vec![0b00001101], 5).unwrap();
    assert_eq!(b.true_idx_iter(), vec![0, 2, 3]);
}
