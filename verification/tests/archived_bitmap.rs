use rkyv::rancor::Error;
use rkyv::util::AlignedVec;
use rkyv::vec::ArchivedVec;
use roaring::archive::AccessError;
use roaring::archive::ArchivedRoaringBitmap;
use roaring::archive::InvalidFrozenBitmap;
use roaring::bitmap::RoaringBitmap;

#[test]
fn rkyv_roundtrip_empty() {
    let rb = RoaringBitmap::new();
    let bytes = rb.to_bytes().unwrap();
    let archived = ArchivedRoaringBitmap::access(&bytes).unwrap();
    assert_eq!(archived.len(), 0);
    let deserialized: RoaringBitmap = archived.deserialize().unwrap();
    assert_eq!(deserialized, rb);
}

#[test]
fn rkyv_roundtrip_basic() {
    let mut rb = RoaringBitmap::new();
    rb.insert(1);
    rb.insert(2);
    rb.insert(100_000);
    rb.insert_range(200_000, 300_000);

    let bytes = rb.to_bytes().unwrap();
    let archived = ArchivedRoaringBitmap::access(&bytes).unwrap();

    assert_eq!(archived.len(), rb.len());
    assert_eq!(archived.is_empty(), rb.is_empty());
    assert_eq!(archived.min(), rb.min());
    assert_eq!(archived.max(), rb.max());

    assert!(archived.contains(1));
    assert!(archived.contains(100_000));
    assert!(archived.contains(250_000));
    assert!(!archived.contains(3));

    let deserialized: RoaringBitmap = archived.deserialize().unwrap();
    assert_eq!(deserialized, rb);
}

#[test]
fn rkyv_archive_debug() {
    let mut rb = RoaringBitmap::new();
    rb.insert(1);
    let bytes = rb.to_bytes().unwrap();
    let archived = ArchivedRoaringBitmap::access(&bytes).unwrap();
    let archived = archived.debug_text();
    let _ = format!("{archived:?}");
    // Two bytes for the value, five for its container and four for the header.
    assert_eq!(archived, "ArchivedRoaringBitmap(<11 bytes>)");
}

#[test]
fn archive_is_that_of_the_frozen_bytes() {
    let mut rb = RoaringBitmap::new();
    rb.insert_range(5, 9);
    let bytes = rb.to_bytes().unwrap();
    let direct = rkyv::to_bytes::<Error>(&rb.to_frozen_bytes()).unwrap();
    assert_eq!(bytes.as_slice(), direct.as_slice());
    assert_ne!(bytes.as_slice(), rb.to_frozen_bytes().as_slice());
    let vec = rkyv::access::<ArchivedVec<u8>, Error>(&bytes).unwrap();
    assert_eq!(vec.as_slice(), rb.to_frozen_bytes().as_slice());
}

#[test]
fn the_layout_of_an_archive() {
    let mut rb = RoaringBitmap::new();
    rb.insert(1);
    let mut expected = rb.to_frozen_bytes();
    assert_eq!(expected.len(), 11);
    expected.push(0);
    expected.extend_from_slice(&(-12i32).to_le_bytes());
    expected.extend_from_slice(&11u32.to_le_bytes());
    assert_eq!(rb.to_bytes().unwrap().as_slice(), expected.as_slice());

    // The frozen form of a bitmap without integers needs no padding.
    let mut expected = RoaringBitmap::new().to_frozen_bytes();
    expected.extend_from_slice(&(-4i32).to_le_bytes());
    expected.extend_from_slice(&4u32.to_le_bytes());
    assert_eq!(RoaringBitmap::new().to_bytes().unwrap().as_slice(), expected.as_slice());

    for n in 0..40usize {
        let mut expected = vec![7u8; n];
        let bytes = rkyv::to_bytes::<Error>(&expected).unwrap();
        let root = (n + 3) / 4 * 4;
        expected.resize(root, 0);
        expected.extend_from_slice(&(-(root as i32)).to_le_bytes());
        expected.extend_from_slice(&(n as u32).to_le_bytes());
        assert_eq!(bytes.as_slice(), expected.as_slice());
    }
}

#[test]
fn access_rejects_a_malformed_archive() {
    let mut bytes: AlignedVec = AlignedVec::new();
    assert!(matches!(
        ArchivedRoaringBitmap::access(&bytes),
        Err(AccessError::MalformedArchive)
    ));
    bytes.extend_from_slice(&[0xff; 16]);
    assert!(matches!(
        ArchivedRoaringBitmap::access(&bytes),
        Err(AccessError::MalformedArchive)
    ));
}

#[test]
fn access_rejects_bytes_that_are_not_frozen() {
    let bytes = rkyv::to_bytes::<Error>(&vec![1u8, 2, 3, 4, 5]).unwrap();
    assert!(matches!(
        ArchivedRoaringBitmap::access(&bytes),
        Err(AccessError::InvalidFrozenBitmap)
    ));
}

#[test]
fn bytes_that_are_not_frozen_hold_nothing() {
    let bytes = rkyv::to_bytes::<Error>(&vec![1u8, 2, 3, 4, 5]).unwrap();
    let vec = rkyv::access::<ArchivedVec<u8>, Error>(&bytes).unwrap();
    let archived = ArchivedRoaringBitmap::from_archived_vec(vec);
    assert!(archived.as_view().is_none());
    assert!(!archived.contains(1));
    assert!(archived.is_empty());
    assert_eq!(archived.len(), 0);
    assert_eq!(archived.min(), None);
    assert_eq!(archived.max(), None);
    assert_eq!(archived.verify(), Err(InvalidFrozenBitmap));
    assert_eq!(archived.deserialize(), Err(InvalidFrozenBitmap));
    assert_eq!(archived.debug_text(), "ArchivedRoaringBitmap(<5 bytes>)");
}

#[test]
fn archived_bitmaps_are_equal_by_their_bytes() {
    let mut rb = RoaringBitmap::new();
    rb.insert(1);
    let mut other = RoaringBitmap::new();
    other.insert(1);
    let one = rb.to_bytes().unwrap();
    let two = other.to_bytes().unwrap();
    other.insert(2);
    let three = other.to_bytes().unwrap();
    other.insert_range(0, 99);
    let four = other.to_bytes().unwrap();
    let a = ArchivedRoaringBitmap::access(&one).unwrap();
    assert!(a == ArchivedRoaringBitmap::access(&two).unwrap());
    assert!(a != ArchivedRoaringBitmap::access(&three).unwrap());
    assert!(a != ArchivedRoaringBitmap::access(&four).unwrap());
}

#[test]
fn the_error_has_a_message() {
    assert_eq!(InvalidFrozenBitmap.message(), "invalid frozen roaring bitmap");
    assert_eq!(format!("{:?}", InvalidFrozenBitmap), "InvalidFrozenBitmap");
}

#[test]
fn optimized_bitmaps_come_back_as_they_were() {
    let mut rb = RoaringBitmap::new();
    rb.insert_range(0, 200_000);
    rb.insert(70_000_000);
    assert!(rb.optimize());
    let bytes = rb.to_bytes().unwrap();
    let archived = ArchivedRoaringBitmap::access(&bytes).unwrap();
    assert_eq!(archived.len(), 200_002);
    assert_eq!(archived.deserialize().unwrap(), rb);
    // Four runs of four bytes, one value of two, five bytes for each of five containers.
    assert_eq!(archived.debug_text(), "ArchivedRoaringBitmap(<47 bytes>)");
}

#[test]
fn the_bytes_may_stand_anywhere_before_the_end() {
    let empty = RoaringBitmap::new().to_frozen_bytes();
    let archive = |offset: i32, len: u32| {
        let mut bytes: AlignedVec = AlignedVec::new();
        bytes.extend_from_slice(&[9, 9, 9, 9]);
        bytes.extend_from_slice(&empty);
        bytes.extend_from_slice(&offset.to_le_bytes());
        bytes.extend_from_slice(&len.to_le_bytes());
        bytes
    };
    let good = archive(-4, 4);
    let archived = ArchivedRoaringBitmap::access(&good).unwrap();
    assert!(archived.is_empty());
    assert_eq!(archived.debug_text(), "ArchivedRoaringBitmap(<4 bytes>)");
    let code = |offset: i32, len: u32| match ArchivedRoaringBitmap::access(&archive(offset, len)) {
        Ok(_) => 0,
        Err(AccessError::InvalidFrozenBitmap) => 1,
        Err(AccessError::MalformedArchive) => 2,
    };
    assert_eq!(code(-8, 8), 0);
    assert_eq!(code(-3, 3), 1);
    assert_eq!(code(0, 0), 1);
    assert_eq!(code(-8, 0), 1);
    assert_eq!(code(-4, 5), 2);
    assert_eq!(code(-9, 4), 2);
    assert_eq!(code(1, 0), 2);
    assert_eq!(code(-4, u32::MAX), 2);
    assert_eq!(code(i32::MIN, 4), 2);
    assert_eq!(code(i32::MAX, 4), 2);
}

#[test]
fn the_end_of_an_archive_is_aligned() {
    let empty = RoaringBitmap::new().to_frozen_bytes();
    for pad in 0..8usize {
        let mut bytes: AlignedVec = AlignedVec::new();
        bytes.extend_from_slice(&empty);
        bytes.extend_from_slice(&vec![0; pad]);
        bytes.extend_from_slice(&(-4 - pad as i32).to_le_bytes());
        bytes.extend_from_slice(&4u32.to_le_bytes());
        assert_eq!(ArchivedRoaringBitmap::access(&bytes).is_ok(), pad % 4 == 0);
    }
}
