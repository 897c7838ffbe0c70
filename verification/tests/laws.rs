use roaring::bitmap::RoaringBitmap;
use roaring::frozen::FrozenRoaringBitmapView;

fn header(containers: u32) -> [u8; 4] {
    (containers * 0x8000 + 13746).to_le_bytes()
}

fn mixed() -> RoaringBitmap {
    let mut rb = RoaringBitmap::new();
    rb.insert(3);
    rb.insert(8);
    for i in 0..5000 {
        rb.insert(0x10000 + 2 * i);
    }
    rb.insert_range(0x20000, 0x2ffff);
    rb.insert_range(0x3fff0, 0x3ffff);
    rb.optimize();
    rb
}

#[test]
fn the_bytes_of_a_small_bitmap() {
    let mut rb = RoaringBitmap::new();
    rb.insert(0x0001_0203);
    rb.insert(0x0001_0405);
    let mut expected = vec![0x03, 0x02, 0x05, 0x04];
    expected.extend_from_slice(&[1, 0, 1, 0, 3]);
    expected.extend_from_slice(&header(1));
    assert_eq!(rb.frozen_size_in_bytes(), 13);
    assert_eq!(rb.frozen_len(), 13);
    assert_eq!(rb.to_frozen_bytes(), expected);
}

#[test]
fn the_bytes_of_a_run() {
    let mut rb = RoaringBitmap::new();
    rb.insert_range(10, 29);
    assert!(rb.optimize());
    assert!(!rb.optimize());
    let mut expected = vec![10, 0, 19, 0];
    expected.extend_from_slice(&[0, 0, 1, 0, 2]);
    expected.extend_from_slice(&header(1));
    assert_eq!(rb.to_frozen_bytes(), expected);
}

#[test]
fn the_zones_stand_in_order() {
    let rb = mixed();
    let bytes = rb.to_frozen_bytes();
    let n = bytes.len();
    // One bitset, two runs, two values and four containers.
    assert_eq!(n, 8192 + 2 * 4 + 2 * 2 + 4 * 5 + 4);
    assert_eq!(bytes[0], 0b0101_0101);
    assert_eq!(bytes[8192..8204], [0, 0, 0xff, 0xff, 0xf0, 0xff, 15, 0, 3, 0, 8, 0]);
    assert_eq!(bytes[8204..8212], [0, 0, 1, 0, 2, 0, 3, 0]);
    assert_eq!(bytes[8212..8220], [1, 0, 0x87, 0x13, 1, 0, 1, 0]);
    assert_eq!(bytes[8220..8224], [3, 1, 2, 2]);
    assert_eq!(bytes[8224..], header(4));
}

#[test]
fn only_the_start_of_the_buffer_is_written() {
    let mut rb = RoaringBitmap::new();
    rb.insert(1);
    let size = rb.frozen_size_in_bytes();
    let mut buf = vec![0xaa; size + 3];
    rb.frozen_serialize_into(&mut buf);
    assert_eq!(buf[..size], rb.to_frozen_bytes()[..]);
    assert_eq!(buf[size..], [0xaa, 0xaa, 0xaa]);
}

#[test]
fn frozen_bitmaps_come_back() {
    let rb = mixed();
    let bytes = rb.to_frozen_bytes();
    let view = FrozenRoaringBitmapView::new_unaligned(&bytes).unwrap();
    let owned = view.to_roaring_bitmap();
    assert_eq!(owned, rb);
    assert_eq!(owned.to_frozen_bytes(), bytes);
}

#[test]
fn views_answer_as_the_bitmap_does() {
    let rb = mixed();
    let bytes = rb.to_frozen_bytes();
    let view = FrozenRoaringBitmapView::new_unaligned(&bytes).unwrap();
    assert_eq!(view.len(), 2 + 5000 + 65536 + 16);
    assert_eq!(view.len(), rb.len());
    assert_eq!(view.min(), Some(3));
    assert_eq!(view.max(), Some(0x3ffff));
    assert!(view.contains(view.min().unwrap()));
    assert!(view.contains(view.max().unwrap()));
    for v in (0..0x50000).step_by(7) {
        assert_eq!(view.contains(v), rb.contains(v));
    }
}

#[test]
fn padding_makes_no_difference() {
    let rb = mixed();
    let bytes = rb.to_frozen_bytes();
    let data = 8192 + 2 * 4 + 2 * 2;
    let mut padded = bytes[..data].to_vec();
    padded.extend_from_slice(&[7; 21]);
    padded.extend_from_slice(&bytes[data..]);
    let view = FrozenRoaringBitmapView::new_unaligned(&padded).unwrap();
    assert_eq!(view.to_roaring_bitmap(), rb);
    assert_eq!(view.max(), rb.max());
}

#[test]
fn a_run_container_without_runs_is_empty() {
    let mut bytes = vec![5, 0, 0, 0, 2];
    bytes.extend_from_slice(&header(1));
    let view = FrozenRoaringBitmapView::new_unaligned(&bytes).unwrap();
    assert!(view.is_empty());
    assert_eq!(view.len(), 0);
    assert_eq!(view.min(), None);
    assert_eq!(view.max(), None);
    assert!(!view.contains(5 * 0x10000));
    assert_eq!(view.to_roaring_bitmap().to_frozen_bytes(), bytes);
}

#[test]
fn empty_run_containers_are_passed_over() {
    // The containers 1 and 3 have no runs, the container 2 has one value.
    let mut bytes = vec![9, 0];
    bytes.extend_from_slice(&[1, 0, 2, 0, 3, 0]);
    bytes.extend_from_slice(&[0, 0, 0, 0, 0, 0]);
    bytes.extend_from_slice(&[2, 3, 2]);
    bytes.extend_from_slice(&header(3));
    let view = FrozenRoaringBitmapView::new_unaligned(&bytes).unwrap();
    assert!(!view.is_empty());
    assert_eq!(view.len(), 1);
    assert_eq!(view.min(), Some(0x20009));
    assert_eq!(view.max(), Some(0x20009));
}

#[test]
fn a_bitset_without_bits_has_no_minimum() {
    let mut bytes = vec![0u8; 8192];
    bytes.extend_from_slice(&[0, 0, 0, 0, 1]);
    bytes.extend_from_slice(&header(1));
    let view = FrozenRoaringBitmapView::new_unaligned(&bytes).unwrap();
    assert_eq!(view.min(), None);
    assert_eq!(view.max(), None);
    assert_eq!(view.len(), 1);
    assert!(!view.is_empty());
}

#[test]
fn a_run_that_goes_too_far_ends_at_the_last_integer() {
    let mut bytes = vec![0xf0, 0xff, 0xff, 0xff];
    bytes.extend_from_slice(&[0, 0, 1, 0, 2]);
    bytes.extend_from_slice(&header(1));
    let view = FrozenRoaringBitmapView::new_unaligned(&bytes).unwrap();
    assert_eq!(view.min(), Some(0xfff0));
    assert_eq!(view.max(), Some(0xffff));
    assert!(view.contains(0xffff));
    // The length is counted as it is written.
    assert_eq!(view.len(), 0x10000);
    assert_eq!(view.to_roaring_bitmap().len(), 16);
}

#[test]
fn unknown_type_codes_are_rejected() {
    for code in [0u8, 4, 255] {
        let mut bytes = vec![9, 0];
        bytes.extend_from_slice(&[1, 0, 0, 0, code]);
        bytes.extend_from_slice(&header(1));
        assert!(FrozenRoaringBitmapView::new_unaligned(&bytes).is_none());
    }
}

#[test]
fn missing_metadata_and_missing_data_are_rejected() {
    assert!(FrozenRoaringBitmapView::new_unaligned(&header(0)).is_some());
    assert!(FrozenRoaringBitmapView::new_unaligned(&header(1)).is_none());
    assert!(FrozenRoaringBitmapView::new_unaligned(&header(131071)).is_none());
    // A value is missing.
    let mut bytes = vec![1, 0, 0, 0, 3];
    bytes.extend_from_slice(&header(1));
    assert!(FrozenRoaringBitmapView::new_unaligned(&bytes).is_none());
}

#[test]
fn the_address_decides() {
    let mut rb = RoaringBitmap::new();
    rb.insert(1);
    let bytes = rb.to_frozen_bytes();
    assert!(FrozenRoaringBitmapView::new_at(0, &bytes).is_some());
    assert!(FrozenRoaringBitmapView::new_at(64, &bytes).is_some());
    assert!(FrozenRoaringBitmapView::new_at(1, &bytes).is_none());
    assert!(FrozenRoaringBitmapView::new_at(16, &bytes).is_none());
    assert!(FrozenRoaringBitmapView::new_at(32, &bytes[1..]).is_none());
    assert!(FrozenRoaringBitmapView::new_at(32, &bytes[..3]).is_none());
}

#[test]
fn bitmaps_are_sets() {
    let mut rb = RoaringBitmap::new();
    assert!(rb.is_empty());
    assert!(rb.insert(5));
    assert!(!rb.insert(5));
    assert_eq!(rb.insert_range(4, 6), 2);
    assert_eq!(rb.insert_range(6, 4), 0);
    assert_eq!(rb.len(), 3);
    assert_eq!(rb.min(), Some(4));
    assert_eq!(rb.max(), Some(6));
    assert!(rb.contains(6));
    assert!(!rb.contains(7));
    assert!(!rb.is_empty());
    rb.optimize();
    assert!(rb.insert(7));
    assert_eq!(rb.len(), 4);
}

#[test]
fn containers_are_looked_up_one_by_one() {
    let rb = mixed();
    let bytes = rb.to_frozen_bytes();
    let view = FrozenRoaringBitmapView::new_unaligned(&bytes).unwrap();
    for i in 0..4u32 {
        for x in (0..=u16::MAX).step_by(13) {
            assert_eq!(
                view.container_contains(i as usize, x),
                rb.contains(i * 0x10000 + x as u32)
            );
        }
    }
    assert!(view.container_contains(0, 8));
    assert!(!view.container_contains(0, 9));
    assert!(view.container_contains(3, 0xfff0));
    assert!(!view.container_contains(3, 0xffef));
}

#[test]
fn the_announced_size_is_enough_and_needed() {
    let rb = mixed();
    let size = rb.frozen_size_in_bytes();
    let mut buf = vec![0; size];
    rb.frozen_serialize_into(&mut buf);
    let view = FrozenRoaringBitmapView::new_unaligned(&buf).unwrap();
    assert_eq!(view.to_roaring_bitmap(), rb);
    for cut in 1..size {
        if let Some(view) = FrozenRoaringBitmapView::new_unaligned(&buf[..size - cut]) {
            assert_ne!(view.to_roaring_bitmap(), rb);
        }
    }
}

/// How many bytes the containers of a bitmap take up in the frozen format.
fn data_size(rb: &RoaringBitmap, containers: usize) -> usize {
    rb.frozen_size_in_bytes() - 4 - 5 * containers
}

#[test]
fn added_values_go_into_arrays_and_bitsets() {
    let mut rb = RoaringBitmap::new();
    for i in 0..4096u32 {
        assert!(rb.insert(2 * i));
        assert_eq!(data_size(&rb, 1), 2 * (i as usize + 1));
    }
    assert!(!rb.insert(0));
    assert_eq!(data_size(&rb, 1), 8192);
    assert!(rb.insert(1));
    assert_eq!(data_size(&rb, 1), 8192);
    assert!(rb.insert(3));
    assert_eq!(data_size(&rb, 1), 8192);
    assert!(rb.insert(0x1_0000));
    assert_eq!(data_size(&rb, 2), 8192 + 2);
    assert_eq!(rb.insert_range(0x2_0000, 0x2_0000 + 99), 100);
    assert_eq!(data_size(&rb, 3), 8192 + 2 + 200);
}

#[test]
fn runs_stay_runs() {
    let mut rb = RoaringBitmap::new();
    rb.insert_range(10, 1000);
    assert_eq!(data_size(&rb, 1), 2 * 991);
    assert!(rb.optimize());
    assert_eq!(data_size(&rb, 1), 4);
    assert!(rb.insert(1001));
    assert_eq!(data_size(&rb, 1), 4);
    assert!(rb.insert(5));
    assert_eq!(data_size(&rb, 1), 8);
    assert!(!rb.insert(5));
    assert_eq!(rb.insert_range(6, 9), 4);
    assert_eq!(data_size(&rb, 1), 4);
    assert_eq!(rb.len(), 997);
    assert_eq!((rb.min(), rb.max()), (Some(5), Some(1001)));
}

#[test]
fn the_order_of_insertion_leaves_no_trace() {
    let values: Vec<u32> = (0..6000u32).map(|i| i * 37 % 70_001).collect();
    let mut up = RoaringBitmap::new();
    let mut down = RoaringBitmap::new();
    for v in &values {
        up.insert(*v);
    }
    for v in values.iter().rev() {
        down.insert(*v);
    }
    assert_eq!(up, down);
    assert_eq!(up.to_frozen_bytes(), down.to_frozen_bytes());
    assert_eq!(data_size(&up, 2), 8192 + 2 * (6000 - 5640));
}
