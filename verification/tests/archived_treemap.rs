use rkyv::rancor::Error;
use rkyv::util::AlignedVec;
use roaring::archive::AccessError;
use roaring::archive::ArchivedRoaringBitmap;
use roaring::archive::InvalidFrozenBitmap;
use roaring::bitmap::RoaringBitmap;
use roaring::layout::place_entries;
use roaring::rkyv_calls::ArchivedByteMap;
use roaring::treemap::RoaringTreemap;
use roaring::treemap_archive::first_of_entries;
use roaring::treemap_archive::last_of_entries;
use roaring::treemap_archive::none_in_entries;
use roaring::treemap_archive::same_entries;
use roaring::treemap_archive::thaw_entries;
use roaring::treemap_archive::total_of_entries;
use roaring::treemap_archive::verify_entries;
use roaring::treemap_archive::ArchivedRoaringTreemap;
use std::collections::BTreeMap;

#[test]
fn rkyv_rkyv_roundtrip_empty() {
    let rt = RoaringTreemap::new();
    let bytes = rt.to_bytes().unwrap();
    let archived = ArchivedRoaringTreemap::access(&bytes).unwrap();
    assert_eq!(archived.len(), 0);
    let deserialized: RoaringTreemap = archived.deserialize().unwrap();
    assert_eq!(deserialized, rt);
}

#[test]
fn rkyv_rkyv_roundtrip_basic() {
    let mut rt = RoaringTreemap::new();
    rt.insert(1);
    rt.insert(2);
    rt.insert(u32::MAX as u64 + 1);
    rt.insert(u32::MAX as u64 + 100_000);
    rt.insert_range(u32::MAX as u64 * 2, u32::MAX as u64 * 2 + 100_000);

    let bytes = rt.to_bytes().unwrap();
    let archived = ArchivedRoaringTreemap::access(&bytes).unwrap();

    assert_eq!(archived.len(), rt.len());
    assert_eq!(archived.is_empty(), rt.is_empty());
    assert_eq!(archived.min(), rt.min());
    assert_eq!(archived.max(), rt.max());

    assert!(archived.contains(1));
    assert!(archived.contains(u32::MAX as u64 + 100_000));
    assert!(!archived.contains(3));

    let deserialized: RoaringTreemap = archived.deserialize().unwrap();
    assert_eq!(deserialized, rt);
}

#[test]
fn rkyv_rkyv_archive_debug() {
    let mut rt = RoaringTreemap::new();
    rt.insert(1);
    let bytes = rt.to_bytes().unwrap();
    let archived = ArchivedRoaringTreemap::access(&bytes).unwrap();
    let archived = archived.debug_text();
    let _ = format!("{archived:?}");
    assert_eq!(archived, "ArchivedRoaringTreemap(<1 elements>)");
}

#[test]
fn treemaps_of_every_height_come_back() {
    for n in 0..80u64 {
        let mut rt = RoaringTreemap::new();
        for i in 0..n {
            rt.insert((i << 32) * 3 + i);
        }
        let bytes = rt.to_bytes().unwrap();
        let archived = ArchivedRoaringTreemap::access(&bytes).unwrap();
        assert_eq!(archived.len(), n);
        assert_eq!(archived.checked_len(), Some(n));
        assert_eq!(archived.is_empty(), n == 0);
        assert_eq!(archived.min(), rt.min());
        assert_eq!(archived.max(), rt.max());
        for i in 0..n {
            assert!(archived.contains((i << 32) * 3 + i));
            assert!(!archived.contains((i << 32) * 3 + i + 1));
            assert!(!archived.contains(((i << 32) * 3 + (1 << 32)) + i));
        }
        assert_eq!(archived.entries().len() as u64, n);
        assert_eq!(
            archived.debug_text(),
            format!("ArchivedRoaringTreemap(<{} elements>)", n)
        );
        assert_eq!(archived.deserialize().unwrap(), rt);
    }
}

#[test]
fn the_archive_is_that_of_the_frozen_bitmaps() {
    let mut rt = RoaringTreemap::new();
    rt.insert(7);
    rt.insert((3 << 32) + 5);
    let mut first = RoaringBitmap::new();
    first.insert(7);
    let mut second = RoaringBitmap::new();
    second.insert(5);
    let mut map: BTreeMap<u32, Vec<u8>> = BTreeMap::new();
    map.insert(0, first.to_frozen_bytes());
    map.insert(3, second.to_frozen_bytes());
    let bytes = rkyv::to_bytes::<Error>(&map).unwrap();
    assert!(rt.fits_archive());
    assert_eq!(rt.to_frozen_map(), Ok(map));
    assert_eq!(rt.to_bytes().unwrap().as_slice(), bytes.as_slice());
}

#[test]
fn access_rejects_a_malformed_archive_of_a_treemap() {
    let mut bytes: AlignedVec = AlignedVec::new();
    assert!(matches!(
        ArchivedRoaringTreemap::access(&bytes),
        Err(AccessError::MalformedArchive)
    ));
    bytes.extend_from_slice(&[0xff; 16]);
    assert!(matches!(
        ArchivedRoaringTreemap::access(&bytes),
        Err(AccessError::MalformedArchive)
    ));
}

#[test]
fn access_rejects_entries_that_are_not_frozen() {
    let mut first = RoaringBitmap::new();
    first.insert(7);
    let mut map: BTreeMap<u32, Vec<u8>> = BTreeMap::new();
    map.insert(1, first.to_frozen_bytes());
    map.insert(2, vec![1, 2, 3]);
    let bytes = rkyv::to_bytes::<Error>(&map).unwrap();
    assert!(matches!(
        ArchivedRoaringTreemap::access(&bytes),
        Err(AccessError::InvalidFrozenBitmap)
    ));
    let inner = rkyv::access::<ArchivedByteMap, Error>(&bytes).unwrap();
    let archived = ArchivedRoaringTreemap(inner);
    assert_eq!(archived.verify(), Err(InvalidFrozenBitmap));
    assert_eq!(archived.deserialize(), Err(InvalidFrozenBitmap));
    // The entry that is not frozen counts as empty.
    assert!(!archived.is_empty());
    assert_eq!(archived.len(), 1);
    assert_eq!(archived.min(), Some((1 << 32) + 7));
    assert_eq!(archived.max(), Some((1 << 32) + 7));
    assert!(!archived.contains(2 << 32));
}

#[test]
fn empty_entries_are_passed_over() {
    let mut one = RoaringBitmap::new();
    one.insert(9);
    let mut map: BTreeMap<u32, Vec<u8>> = BTreeMap::new();
    map.insert(1, RoaringBitmap::new().to_frozen_bytes());
    map.insert(4, one.to_frozen_bytes());
    map.insert(8, RoaringBitmap::new().to_frozen_bytes());
    let bytes = rkyv::to_bytes::<Error>(&map).unwrap();
    let archived = ArchivedRoaringTreemap::access(&bytes).unwrap();
    assert_eq!(archived.min(), Some((4 << 32) + 9));
    assert_eq!(archived.max(), Some((4 << 32) + 9));
    assert_eq!(archived.checked_min(), Ok(Some((4 << 32) + 9)));
    assert_eq!(archived.checked_max(), Ok(Some((4 << 32) + 9)));
    assert_eq!(archived.len(), 1);
    assert!(!archived.is_empty());
}

#[test]
fn only_empty_entries_have_no_ends() {
    let mut map: BTreeMap<u32, Vec<u8>> = BTreeMap::new();
    map.insert(1, RoaringBitmap::new().to_frozen_bytes());
    let bytes = rkyv::to_bytes::<Error>(&map).unwrap();
    let archived = ArchivedRoaringTreemap::access(&bytes).unwrap();
    assert_eq!(archived.min(), None);
    assert_eq!(archived.max(), None);
    assert_eq!(archived.len(), 0);
    assert!(archived.is_empty());
    let treemap = archived.deserialize().unwrap();
    assert!(treemap.is_empty());
    assert_eq!(treemap.len(), 0);
    assert_eq!(treemap.min(), None);
    assert_eq!(treemap.max(), None);
    assert_eq!(treemap.bitmap_count(), 1);
}

#[test]
fn a_bitset_without_bits_has_no_ends() {
    // One container: 8192 clear bytes, key 0, a count of one integer, the code for a bitset.
    let mut frozen = vec![0u8; 8192];
    frozen.extend_from_slice(&[0, 0, 0, 0, 1]);
    frozen.extend_from_slice(&(0x8000u32 + 13746).to_le_bytes());
    let mut map: BTreeMap<u32, Vec<u8>> = BTreeMap::new();
    map.insert(1, frozen);
    let bytes = rkyv::to_bytes::<Error>(&map).unwrap();
    let archived = ArchivedRoaringTreemap::access(&bytes).unwrap();
    assert_eq!(archived.checked_min(), Err(InvalidFrozenBitmap));
    assert_eq!(archived.checked_max(), Err(InvalidFrozenBitmap));
    assert_eq!(archived.len(), 1);
}

#[test]
fn archived_treemaps_are_equal_by_their_entries() {
    let mut rt = RoaringTreemap::new();
    rt.insert(1);
    rt.insert(1 << 40);
    let one = rt.to_bytes().unwrap();
    let two = rt.to_bytes().unwrap();
    rt.insert(2);
    let three = rt.to_bytes().unwrap();
    rt.insert(1 << 50);
    let four = rt.to_bytes().unwrap();
    let a = ArchivedRoaringTreemap::access(&one).unwrap();
    assert!(a == ArchivedRoaringTreemap::access(&two).unwrap());
    assert!(a != ArchivedRoaringTreemap::access(&three).unwrap());
    assert!(a != ArchivedRoaringTreemap::access(&four).unwrap());
}

#[test]
fn treemaps_are_sets() {
    let mut rt = RoaringTreemap::new();
    assert!(rt.is_empty());
    assert_eq!(rt.min(), None);
    assert_eq!(rt.max(), None);
    assert!(rt.insert(u64::MAX));
    assert!(!rt.insert(u64::MAX));
    assert!(rt.insert(0));
    assert_eq!(rt.insert_range(0, 9), 9);
    assert_eq!(rt.insert_range(9, 0), 0);
    assert_eq!(rt.insert_range(u64::MAX - 1, u64::MAX), 1);
    assert_eq!(rt.len(), 12);
    assert_eq!(rt.min(), Some(0));
    assert_eq!(rt.max(), Some(u64::MAX));
    assert!(rt.contains(9));
    assert!(!rt.contains(10));
    assert!(!rt.is_empty());
}

#[test]
fn entries_are_queried_without_an_archive() {
    let mut one = RoaringBitmap::new();
    one.insert(9);
    one.insert(4);
    let frozen = one.to_frozen_bytes();
    let empty = RoaringBitmap::new().to_frozen_bytes();
    let entries = [
        (2u32, empty.clone()),
        (5u32, frozen.clone()),
        (6u32, frozen.clone()),
        (7u32, empty.clone()),
    ];
    assert_eq!(verify_entries(&entries), Ok(()));
    assert!(!none_in_entries(&entries));
    assert!(none_in_entries(&entries[..1]));
    assert!(none_in_entries(&[]));
    assert_eq!(total_of_entries(&entries), Some(4));
    assert_eq!(first_of_entries(&entries), Ok(Some((5 << 32) + 4)));
    assert_eq!(last_of_entries(&entries), Ok(Some((6 << 32) + 9)));
    assert!(same_entries(&entries, &entries));
    assert!(!same_entries(&entries[1..2], &entries[2..3]));
    assert!(!same_entries(&entries[..1], &entries));
    let treemap = thaw_entries(&entries).unwrap();
    assert_eq!(treemap.bitmap_count(), 4);
    assert_eq!(treemap.len(), 4);
    assert_eq!(treemap.min(), Some((5 << 32) + 4));
    assert_eq!(treemap.max(), Some((6 << 32) + 9));
    assert!(!treemap.is_empty());
}

#[test]
fn of_entries_with_one_key_the_last_counts() {
    let mut one = RoaringBitmap::new();
    one.insert(9);
    let mut two = RoaringBitmap::new();
    two.insert(1);
    two.insert(2);
    let entries = [(5u32, one.to_frozen_bytes()), (5u32, two.to_frozen_bytes())];
    let treemap = thaw_entries(&entries).unwrap();
    assert_eq!(treemap.bitmap_count(), 1);
    assert_eq!(treemap.len(), 2);
    assert_eq!(treemap.min(), Some((5 << 32) + 1));
}

#[test]
fn overlong_runs_are_counted_as_they_are_written() {
    // Each run claims 65536 integers.
    let runs = 16384u16;
    let containers = 16u32;
    let mut frozen = Vec::new();
    for _ in 0..containers {
        for _ in 0..runs {
            frozen.extend_from_slice(&[0, 0, 0xff, 0xff]);
        }
    }
    for key in 0..containers {
        frozen.extend_from_slice(&(key as u16).to_le_bytes());
    }
    for _ in 0..containers {
        frozen.extend_from_slice(&runs.to_le_bytes());
    }
    for _ in 0..containers {
        frozen.push(2);
    }
    frozen.extend_from_slice(&(containers * 0x8000 + 13746).to_le_bytes());
    assert_eq!(ArchivedRoaringBitmap::from_bytes(&frozen).len(), 1 << 34);
    let entries = [(0u32, frozen.clone()), (1u32, frozen)];
    assert_eq!(total_of_entries(&entries), Some(1 << 35));
}

fn put(buf: &mut [u8], at: usize, v: i32) {
    buf[at..at + 4].copy_from_slice(&v.to_le_bytes());
}

/// An archive of a map with one node with children: five empty bitmaps with the keys 10 to 50,
/// and a leaf without entries in front of them where `with_leaf` is set.
fn archive_of_one_parent(with_leaf: bool) -> AlignedVec {
    let empty = RoaringBitmap::new().to_frozen_bytes();
    let mut buf = vec![0u8; 184];
    let node = 88;
    buf[node] = 1;
    for i in 0..5 {
        let data = 68 + 4 * i;
        buf[data..data + 4].copy_from_slice(&empty);
        put(&mut buf, node + 4 + 4 * i, 10 * (i as i32 + 1));
        let field = node + 24 + 8 * i;
        put(&mut buf, field, data as i32 - field as i32);
        put(&mut buf, field + 4, 4);
        put(&mut buf, node + 64 + 4 * i, 1);
    }
    put(&mut buf, node + 84, 1);
    if with_leaf {
        put(&mut buf, node + 64, -(node as i32 + 64));
    }
    put(&mut buf, 176, node as i32 - 176);
    put(&mut buf, 180, 5);
    let mut bytes = AlignedVec::new();
    bytes.extend_from_slice(&buf);
    bytes
}

#[test]
fn odd_trees_are_walked() {
    for with_leaf in [false, true] {
        let bytes = archive_of_one_parent(with_leaf);
        let archived = ArchivedRoaringTreemap::access(&bytes).unwrap();
        let keys: Vec<u32> = archived.entries().iter().map(|e| e.0).collect();
        assert_eq!(keys, [10, 20, 30, 40, 50]);
        assert_eq!(archived.len(), 0);
        assert!(archived.is_empty());
        assert_eq!(archived.min(), None);
        assert_eq!(archived.max(), None);
        assert!(archived == archived);
        assert_eq!(archived.deserialize().unwrap().bitmap_count(), 5);
        assert_eq!(archived.debug_text(), "ArchivedRoaringTreemap(<5 elements>)");
    }
}

#[test]
fn a_look_up_relies_on_the_order_of_the_keys() {
    let mut one = RoaringBitmap::new();
    one.insert(6);
    let frozen = one.to_frozen_bytes();
    assert_eq!(frozen.len(), 11);
    // Two bitmaps, and a leaf with the keys 9 and 3.
    let mut buf = vec![0u8; 24 + 68 + 8];
    let node = 24;
    for (i, key) in [9, 3].into_iter().enumerate() {
        let data = 11 * i;
        buf[data..data + 11].copy_from_slice(&frozen);
        put(&mut buf, node + 4 + 4 * i, key);
        let field = node + 24 + 8 * i;
        put(&mut buf, field, data as i32 - field as i32);
        put(&mut buf, field + 4, 11);
    }
    put(&mut buf, node + 64, 2);
    put(&mut buf, 92, node as i32 - 92);
    put(&mut buf, 96, 2);
    let mut bytes: AlignedVec = AlignedVec::new();
    bytes.extend_from_slice(&buf);
    let archived = ArchivedRoaringTreemap::access(&bytes).unwrap();
    let keys: Vec<u32> = archived.entries().iter().map(|e| e.0).collect();
    assert_eq!(keys, [9, 3]);
    assert_eq!(archived.len(), 2);
    assert!(archived.contains((9 << 32) + 6));
    assert!(!archived.contains((3 << 32) + 6));
    assert!(archived.deserialize().unwrap().contains((3 << 32) + 6));
}

fn number(buf: &[u8], at: usize) -> u32 {
    u32::from_le_bytes(buf[at..at + 4].try_into().unwrap())
}

/// How far back the offset at `at` reaches, or nothing where it points nowhere.
fn reach(buf: &[u8], at: usize) -> Option<usize> {
    let offset = number(buf, at) as i32;
    if offset == 1 {
        None
    } else {
        assert!(offset <= 0);
        Some(offset.unsigned_abs() as usize)
    }
}

/// How far back the offsets in a node and the nodes below it reach at most.
fn greatest_reach(buf: &[u8], node: usize) -> usize {
    let inner = buf[node] == 1;
    let entries = if inner { 5 } else { number(buf, node + 64) as usize };
    let mut greatest = 0;
    for i in 0..entries {
        greatest = greatest.max(reach(buf, node + 24 + 8 * i).unwrap());
    }
    if inner {
        for i in 0..6 {
            let at = node + 64 + 4 * i;
            if let Some(back) = reach(buf, at) {
                greatest = greatest.max(back).max(greatest_reach(buf, at - back));
            }
        }
    }
    greatest
}

#[test]
fn nodes_stand_where_they_are_placed() {
    for n in (0..500usize).chain([1290, 1295, 1296, 1300, 1330, 1500, 7775, 7776, 7800]) {
        for pattern in 0..4usize {
            let lens: Vec<usize> = (0..n)
                .map(|i| match pattern {
                    0 => 0,
                    1 => i * i % 7,
                    2 => 4,
                    _ => (i * 31 + 5) % 61,
                })
                .collect();
            let map: BTreeMap<u32, Vec<u8>> =
                lens.iter().enumerate().map(|(i, len)| (i as u32, vec![1; *len])).collect();
            let bytes = rkyv::to_bytes::<Error>(&map).unwrap();
            let lens: Vec<u64> = lens.iter().map(|len| *len as u64).collect();
            let place = place_entries(&lens).unwrap();
            assert_eq!(place.end as usize + 8, bytes.len());
            if n == 0 {
                assert_eq!(place.node, None);
                assert_eq!(place.reach, 0);
            } else {
                let root = bytes.len() - 8;
                let node = root - reach(&bytes, root).unwrap();
                assert_eq!(place.node, Some(node as u64));
                assert_eq!(place.reach as usize, greatest_reach(&bytes, node));
            }
        }
    }
}

#[test]
fn single_offsets_decide_what_fits() {
    // Of eleven entries, the first five and the seventh stand in nodes without children.
    let mut lens = vec![300_000_000u64; 11];
    for len in &mut lens[..5] {
        *len = 400_000_000;
    }
    lens[6] = 50_000_000;
    let place = place_entries(&lens).unwrap();
    assert_eq!(place.node, Some(3_550_000_000 + 68 + 68));
    assert_eq!(place.end, 3_550_000_000 + 68 + 68 + 88);
    assert_eq!(place.reach, 2_000_000_024);
    // The bytes of a single entry reach as far back as they are long, and to its offset.
    assert_eq!(place_entries(&[0x8000_0000 - 24]).unwrap().reach, 0x8000_0000);
    assert_eq!(place_entries(&[0x8000_0000 - 23]).unwrap().reach, 0x8000_0004);
    assert!(place_entries(&[u64::MAX, 1]).is_none());
    assert!(place_entries(&[0x2_0000_0000 - 68]).is_some());
    assert!(place_entries(&[0x2_0000_0000 - 67]).is_none());
}

#[test]
fn only_the_bitmaps_of_added_integers_are_made() {
    let mut rt = RoaringTreemap::new();
    assert!(rt.insert(5 << 32));
    assert_eq!(rt.bitmap_count(), 1);
    assert!(!rt.insert(5 << 32));
    assert!(rt.insert((5 << 32) + 1));
    assert_eq!(rt.bitmap_count(), 1);
    assert_eq!(rt.insert_range(9, 8), 0);
    assert_eq!(rt.bitmap_count(), 1);
    assert_eq!(rt.insert_range((7 << 32) - 2, (7 << 32) + 1), 4);
    assert_eq!(rt.bitmap_count(), 3);
    let map = rt.to_frozen_map().unwrap();
    assert_eq!(map.keys().copied().collect::<Vec<u32>>(), [5, 6, 7]);
    let mut low = RoaringBitmap::new();
    low.insert(0);
    low.insert(1);
    assert_eq!(map[&5], low.to_frozen_bytes());
    assert_eq!(map[&7], low.to_frozen_bytes());
}
