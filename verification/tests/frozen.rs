use roaring::bitmap::RoaringBitmap;
use roaring::frozen::FrozenRoaringBitmapView;

fn create_comprehensive_bitmap() -> RoaringBitmap {
    let mut rb = RoaringBitmap::new();
    // An array container.
    rb.insert(1);
    rb.insert(100);

    // A bitset container: more than 4096 integers, no two of them consecutive.
    for i in (200_000..210_000).step_by(2) {
        rb.insert(i);
    }

    // Run containers.
    rb.insert_range(400_000, 500_000 - 1);
    rb.optimize();

    rb
}

#[test]
fn test_frozen_format_comprehensive() {
    let rb = create_comprehensive_bitmap();

    let size = rb.frozen_size_in_bytes();
    let mut buf = vec![0; size];
    rb.frozen_serialize_into(&mut buf);

    let view = FrozenRoaringBitmapView::new_unaligned(&buf).expect("Valid frozen bitmap");

    assert_eq!(view.len(), rb.len());
    assert_eq!(view.is_empty(), rb.is_empty());
    assert_eq!(view.min(), rb.min());
    assert_eq!(view.max(), rb.max());

    // The array container.
    assert!(view.contains(1));
    assert!(view.contains(100));
    assert!(!view.contains(2));

    // The bitset container.
    assert!(view.contains(200_000));
    assert!(view.contains(209_998));
    assert!(!view.contains(200_001));
    assert!(!view.contains(199_999));

    // The run containers.
    assert!(view.contains(400_000));
    assert!(view.contains(450_000));
    assert!(view.contains(499_999));
    assert!(!view.contains(399_999));
    assert!(!view.contains(500_000));

    let owned = view.to_roaring_bitmap();
    assert_eq!(owned, rb);
}

#[test]
fn test_frozen_format_empty() {
    let rb = RoaringBitmap::new();
    let mut buf = vec![0; rb.frozen_size_in_bytes()];
    rb.frozen_serialize_into(&mut buf);

    let view = FrozenRoaringBitmapView::new_unaligned(&buf).unwrap();
    assert!(!view.contains(0));
    assert!(!view.contains(100));
    assert_eq!(view.len(), 0);
    assert!(view.is_empty());
    assert_eq!(view.min(), None);
    assert_eq!(view.max(), None);

    let owned = view.to_roaring_bitmap();
    assert_eq!(owned, rb);
}

#[test]
fn test_frozen_alignment() {
    let mut rb = RoaringBitmap::new();
    rb.insert(1);
    let size = rb.frozen_size_in_bytes();

    // A buffer with room to move.
    let mut buf = vec![0; size + 64];

    // The first offset that is a multiple of 32.
    let aligned_offset = (32 - (buf.as_ptr() as usize % 32)) % 32;
    let target_slice = &mut buf[aligned_offset..aligned_offset + size];
    rb.frozen_serialize_into(target_slice);

    // At that offset there is a view.
    assert!(FrozenRoaringBitmapView::new(&buf[aligned_offset..aligned_offset + size]).is_some());

    // One byte further on there is none,
    let unaligned_offset = aligned_offset + 1;
    let target_slice = &mut buf[unaligned_offset..unaligned_offset + size];
    rb.frozen_serialize_into(target_slice);
    assert!(
        FrozenRoaringBitmapView::new(&buf[unaligned_offset..unaligned_offset + size]).is_none()
    );

    // unless the address is left out of account.
    assert!(FrozenRoaringBitmapView::new_unaligned(
        &buf[unaligned_offset..unaligned_offset + size]
    )
    .is_some());
}

#[test]
fn test_frozen_malformed_and_truncated() {
    let rb = create_comprehensive_bitmap();
    let size = rb.frozen_size_in_bytes();
    let mut buf = vec![0; size];
    rb.frozen_serialize_into(&mut buf);

    // Too short for a header.
    assert!(FrozenRoaringBitmapView::new_unaligned(&[]).is_none());
    assert!(FrozenRoaringBitmapView::new_unaligned(&[0, 1, 2]).is_none());

    // Another cookie.
    let mut bad_cookie = buf.clone();
    let cookie_idx = bad_cookie.len() - 4;
    bad_cookie[cookie_idx] = 0;
    assert!(FrozenRoaringBitmapView::new_unaligned(&bad_cookie).is_none());

    // The end cut off.
    assert!(FrozenRoaringBitmapView::new_unaligned(&buf[..size - 1]).is_none());
    assert!(FrozenRoaringBitmapView::new_unaligned(&buf[..size / 2]).is_none());
}

#[test]
fn test_frozen_extreme_values() {
    let mut rb = RoaringBitmap::new();
    rb.insert(0);
    rb.insert(u32::MAX);

    let mut buf = vec![0; rb.frozen_size_in_bytes()];
    rb.frozen_serialize_into(&mut buf);

    let view = FrozenRoaringBitmapView::new_unaligned(&buf).unwrap();
    assert_eq!(view.len(), 2);
    assert_eq!(view.min(), Some(0));
    assert_eq!(view.max(), Some(u32::MAX));
    assert!(view.contains(0));
    assert!(view.contains(u32::MAX));
    assert!(!view.contains(1));
    assert!(!view.contains(u32::MAX - 1));
}

#[test]
fn test_frozen_full_container() {
    let mut rb = RoaringBitmap::new();

    // A full container.
    rb.insert_range(0, 0xFFFF);

    // An array container.
    rb.insert(0x10000);

    // A run container.
    rb.insert_range(0x20000, 0x200FF);
    rb.optimize();

    let mut buf = vec![0; rb.frozen_size_in_bytes()];
    rb.frozen_serialize_into(&mut buf);

    let view = FrozenRoaringBitmapView::new_unaligned(&buf).unwrap();
    assert_eq!(view.len(), 65536 + 1 + 256);
    assert!(view.contains(0));
    assert!(view.contains(0xFFFF));
    assert!(view.contains(0x10000));
    assert!(view.contains(0x200FF));
    assert!(!view.contains(0x10001));
    assert!(!view.contains(0x20100));
}
