//! Archived treemaps: maps of frozen bitmaps inside `rkyv` archives, read in place.
use crate::archive::bytes_empty;
use crate::archive::bytes_find;
use crate::archive::bytes_first_is;
use crate::archive::bytes_last_is;
use crate::archive::bytes_total;
use crate::archive::AccessError;
use crate::archive::ArchivedRoaringBitmap;
use crate::archive::InvalidFrozenBitmap;
use crate::archive::TooLarge;
use crate::bitmap::RoaringBitmap;
use crate::format::frozen_bytes;
use crate::format::parse;
use crate::layout::place_entries;
use crate::layout::sizes;
use crate::layout::NUMBER_LIMIT;
use crate::model::lemma_first_container;
use crate::model::lemma_last_container;
use crate::model::ContainerModel;
use crate::parts::high64;
use crate::parts::lemma_join64;
use crate::parts::low64;
use crate::rkyv_calls::access_map;
use crate::rkyv_calls::aligned_bytes;
use crate::rkyv_calls::archive_map;
use crate::rkyv_calls::archived_entries;
use crate::rkyv_calls::byte_map;
use crate::rkyv_calls::entries_fit;
use crate::rkyv_calls::entry_lens;
use crate::rkyv_calls::has_key;
use crate::rkyv_calls::keys_ascend;
use crate::rkyv_calls::lists_map;
use crate::rkyv_calls::map_archive;
use crate::rkyv_calls::map_fits;
use crate::rkyv_calls::map_get;
use crate::rkyv_calls::map_len;
use crate::rkyv_calls::map_lookup;
use crate::rkyv_calls::map_visit;
use crate::rkyv_calls::read_map_archive;
use crate::rkyv_calls::reads_as;
use crate::rkyv_calls::ArchivedByteMap;
use crate::rkyv_calls::OFFSET_LIMIT;
use crate::rkyv_calls::ROOT_SIZE;
use crate::text::decimal;
use crate::text::push_decimal;
use crate::treemap::lists_bitmaps;
use crate::treemap::RoaringTreemap;
use crate::zones::lemma_total_min;
use rkyv::util::AlignedVec;
use std::collections::BTreeMap;
use vstd::prelude::*;

verus! {

/// How many integers the entries say that they hold.
pub open spec fn entries_total(es: Seq<(u32, Seq<u8>)>) -> int
    decreases es.len(),
{
    if es.len() == 0 {
        0
    } else {
        entries_total(es.drop_last()) + bytes_total(es.last().1)
    }
}

/// Whether an entry has the key of `v`, and a look-up in it comes out right.
pub open spec fn entry_finds(e: (u32, Seq<u8>), v: u64) -> bool {
    e.0 == high64(v) && bytes_find(e.1, low64(v))
}

/// Whether a look-up of `v` in one of the entries comes out right.
pub open spec fn entries_find(es: Seq<(u32, Seq<u8>)>, v: u64) -> bool {
    exists|i: int| 0 <= i < es.len() && #[trigger] entry_finds(es[i], v)
}

/// Whether the entry with index `i` is the first that is not empty.
pub open spec fn first_full(es: Seq<(u32, Seq<u8>)>, i: int) -> bool {
    &&& 0 <= i < es.len()
    &&& !bytes_empty(es[i].1)
    &&& forall|j: int| 0 <= j < i ==> bytes_empty((#[trigger] es[j]).1)
}

/// Whether the entry with index `i` is the last that is not empty.
pub open spec fn last_full(es: Seq<(u32, Seq<u8>)>, i: int) -> bool {
    &&& 0 <= i < es.len()
    &&& !bytes_empty(es[i].1)
    &&& forall|j: int| i < j < es.len() ==> bytes_empty((#[trigger] es[j]).1)
}

/// Whether all entries are empty.
pub open spec fn all_empty(es: Seq<(u32, Seq<u8>)>) -> bool {
    forall|j: int| 0 <= j < es.len() ==> bytes_empty((#[trigger] es[j]).1)
}

/// Whether `r` is what stands first in the first entry that is not empty, or nothing where
/// all are empty.
pub open spec fn entries_first_is(es: Seq<(u32, Seq<u8>)>, r: Option<u64>) -> bool {
    match r {
        Some(v) => exists|i: int| #[trigger]
            first_full(es, i) && es[i].0 == high64(v) && bytes_first_is(es[i].1, Some(low64(v))),
        None => all_empty(es),
    }
}

/// Whether `r` is what stands last in the last entry that is not empty, or nothing where all
/// are empty.
pub open spec fn entries_last_is(es: Seq<(u32, Seq<u8>)>, r: Option<u64>) -> bool {
    match r {
        Some(v) => exists|i: int| #[trigger]
            last_full(es, i) && es[i].0 == high64(v) && bytes_last_is(es[i].1, Some(low64(v))),
        None => all_empty(es),
    }
}

/// Whether nothing stands first in the first entry that is not empty: its first container that
/// is not empty is a bitset without bits.
pub open spec fn first_missing(es: Seq<(u32, Seq<u8>)>) -> bool {
    exists|i: int| #[trigger] first_full(es, i) && bytes_first_is(es[i].1, None)
}

/// Whether nothing stands last in the last entry that is not empty: its last container that is
/// not empty is a bitset without bits.
pub open spec fn last_missing(es: Seq<(u32, Seq<u8>)>) -> bool {
    exists|i: int| #[trigger] last_full(es, i) && bytes_last_is(es[i].1, None)
}

/// Whether every entry is a frozen bitmap.
pub open spec fn all_frozen(es: Seq<(u32, Seq<u8>)>) -> bool {
    forall|i: int| 0 <= i < es.len() ==> parse((#[trigger] es[i]).1) is Some
}

/// The containers of the entries. Of entries with the same key the last counts.
pub open spec fn thaw(es: Seq<(u32, Seq<u8>)>) -> Map<u32, Seq<ContainerModel>>
    decreases es.len(),
{
    if es.len() == 0 {
        Map::empty()
    } else {
        thaw(es.drop_last()).insert(es.last().0, parse(es.last().1)->0.containers())
    }
}

/// The frozen forms of containers.
pub open spec fn frozen_map(m: Map<u32, Seq<ContainerModel>>) -> Map<u32, Seq<u8>> {
    m.map_values(|ms: Seq<ContainerModel>| frozen_bytes(ms))
}

/// The first entries say that they hold no more integers than all.
proof fn lemma_entries_total(es: Seq<(u32, Seq<u8>)>, n: int)
    requires
        0 <= n <= es.len(),
    ensures
        entries_total(es.take(n)) <= entries_total(es),
    decreases es.len(),
{
    if n == es.len() {
        assert(es.take(n) =~= es);
    } else {
        assert(es.drop_last().take(n) =~= es.take(n));
        lemma_entries_total(es.drop_last(), n);
        if let Some(z) = parse(es.last().1) {
            lemma_total_min(z, z.count_containers() as int);
        }
    }
}

/// Two lists of the same map have the same keys up to any index.
proof fn lemma_same_keys(
    a: Seq<(u32, Seq<u8>)>,
    b: Seq<(u32, Seq<u8>)>,
    m: Map<u32, Seq<u8>>,
    n: int,
)
    requires
        lists_map(a, m),
        lists_map(b, m),
        0 <= n <= a.len(),
    ensures
        n <= b.len(),
        forall|i: int| 0 <= i < n ==> a[i] == b[i],
    decreases n,
{
    if n > 0 {
        lemma_same_keys(a, b, m, n - 1);
        let last = n - 1;
        assert(m.contains_key(a[last].0));
        let k = choose|k: int| 0 <= k < b.len() && (#[trigger] b[k]).0 == a[last].0;
        if k < last {
            assert(a[k] == b[k]);
            assert(a[k].0 < a[last].0);
        } else if last < k {
            assert(m.contains_key(b[last].0));
            let j = choose|j: int| 0 <= j < a.len() && (#[trigger] a[j]).0 == b[last].0;
            assert(b[last].0 < b[k].0);
            if j < last {
                assert(a[j] == b[j]);
                assert(b[j].0 < b[last].0);
            } else if last < j {
                assert(a[last].0 < a[j].0);
            }
        }
        assert(m[a[last].0] == a[last].1);
        assert(m[b[last].0] == b[last].1);
    }
}

/// A map has one list.
pub proof fn lemma_one_list(
    a: Seq<(u32, Seq<u8>)>,
    b: Seq<(u32, Seq<u8>)>,
    m: Map<u32, Seq<u8>>,
)
    requires
        lists_map(a, m),
        lists_map(b, m),
    ensures
        a == b,
{
    lemma_same_keys(a, b, m, a.len() as int);
    lemma_same_keys(b, a, m, b.len() as int);
    assert(a =~= b);
}

/// The frozen forms of bitmaps, with their keys.
pub open spec fn frozen_entries(s: Seq<(u32, &RoaringBitmap)>) -> Seq<(u32, Seq<u8>)> {
    Seq::new(s.len(), |i: int| (s[i].0, frozen_bytes(s[i].1.model())))
}

/// The frozen forms of the bitmaps of a treemap list its frozen map.
proof fn lemma_frozen_entries(s: Seq<(u32, &RoaringBitmap)>, t: RoaringTreemap)
    requires
        lists_bitmaps(s, t.bitmaps()),
    ensures
        lists_map(frozen_entries(s), frozen_map(t.models())),
{
    let es = frozen_entries(s);
    let m = frozen_map(t.models());
    assert forall|i: int| 0 <= i < es.len() implies m.contains_key((#[trigger] es[i]).0)
        && m[es[i].0] == es[i].1 by {
        assert(t.bitmaps().contains_key(s[i].0) && t.bitmaps()[s[i].0] == *s[i].1);
    }
    assert forall|k: u32| #[trigger] m.contains_key(k) implies has_key(es, k) by {
        assert(t.bitmaps().contains_key(k));
        let i = choose|i: int| 0 <= i < s.len() && (#[trigger] s[i]).0 == k;
        assert(es[i].0 == k);
    }
}

impl RoaringTreemap {
    /// The archive of the treemap. There is none of a treemap whose frozen bitmaps do not
    /// fit into one.
    pub fn to_bytes(&self) -> (r: Result<AlignedVec<16>, TooLarge>)
        requires
            self.freezable(),
        ensures
            match r {
                Ok(bytes) => {
                    &&& map_fits(frozen_map(self.models()))
                    &&& aligned_bytes(bytes) == map_archive(frozen_map(self.models()))
                    &&& reads_as(
                        read_map_archive(aligned_bytes(bytes)),
                        frozen_map(self.models()),
                    )
                },
                Err(_) => !map_fits(frozen_map(self.models())),
            },
    {
        if !self.fits_archive() {
            return Err(TooLarge);
        }
        match self.to_frozen_map() {
            Ok(map) => match archive_map(&map) {
                Ok(bytes) => Ok(bytes),
                Err(_) => Err(TooLarge),
            },
            Err(_) => {
                proof {
                    let frozen = frozen_map(self.models());
                    let es = choose|es: Seq<(u32, Seq<u8>)>| #[trigger]
                        lists_map(es, frozen) && entries_fit(es);
                    let k = choose|k: u32| #[trigger]
                        frozen.contains_key(k) && frozen[k].len() > usize::MAX;
                    assert(has_key(es, k));
                    let i = choose|i: int| 0 <= i < es.len() && (#[trigger] es[i]).0 == k;
                    assert(es[i].1.len() <= NUMBER_LIMIT);
                }
                Err(TooLarge)
            },
        }
    }

    /// Whether the frozen bitmaps fit into an archive.
    pub fn fits_archive(&self) -> (r: bool)
        requires
            self.freezable(),
        ensures
            r == map_fits(frozen_map(self.models())),
    {
        let entries: Vec<(u32, &RoaringBitmap)> = self.entries();
        let ghost es = frozen_entries(entries@);
        let ghost frozen = frozen_map(self.models());
        proof {
            lemma_frozen_entries(entries@, *self);
            assert forall|other: Seq<(u32, Seq<u8>)>| #[trigger]
                lists_map(other, frozen) implies other == es by {
                lemma_one_list(other, es, frozen);
            }
        }
        if entries.len() as u64 > NUMBER_LIMIT {
            return false;
        }
        let mut lens: Vec<u64> = Vec::new();
        let mut i: usize = 0;
        while i < entries.len()
            invariant
                i <= entries.len(),
                self.freezable(),
                lists_bitmaps(entries@, self.bitmaps()),
                es == frozen_entries(entries@),
                frozen == frozen_map(self.models()),
                forall|other: Seq<(u32, Seq<u8>)>| #[trigger]
                    lists_map(other, frozen) ==> other == es,
                lens@.len() == i,
                forall|j: int|
                    0 <= j < i ==> #[trigger] lens@[j] == es[j].1.len() && lens@[j] <= NUMBER_LIMIT,
            decreases entries.len() - i,
        {
            let bitmap: &RoaringBitmap = entries[i].1;
            proof {
                assert(self.bitmaps().contains_key(entries@[i as int].0));
                assert(*bitmap == self.bitmaps()[entries@[i as int].0]);
                assert(es[i as int].1 == frozen_bytes(bitmap.model()));
            }
            let len: u64 = bitmap.frozen_len();
            if len > NUMBER_LIMIT {
                return false;
            }
            lens.push(len);
            i = i + 1;
        }
        proof {
            assert(sizes(lens@) =~= entry_lens(es));
            assert forall|j: int| 0 <= j < es.len() implies (#[trigger] es[j]).1.len()
                <= NUMBER_LIMIT by {
                assert(lens@[j] == es[j].1.len());
            }
            assert(map_fits(frozen) == entries_fit(es));
        }
        match place_entries(lens.as_slice()) {
            Some(place) => {
                let root_fits: bool = match place.node {
                    Some(at) => at <= NUMBER_LIMIT,
                    None => true,
                };
                root_fits && place.reach <= OFFSET_LIMIT && place.end + ROOT_SIZE + 15
                    <= isize::MAX as u64
            },
            None => false,
        }
    }

    /// The frozen forms of the bitmaps. There are none where one of them is too long for a
    /// vector.
    pub fn to_frozen_map(&self) -> (r: Result<BTreeMap<u32, Vec<u8>>, TooLarge>)
        requires
            self.freezable(),
        ensures
            match r {
                Ok(map) => byte_map(map@) == frozen_map(self.models()),
                Err(_) => exists|k: u32| #[trigger]
                    frozen_map(self.models()).contains_key(k) && frozen_map(self.models())[k].len()
                        > usize::MAX,
            },
    {
        let entries: Vec<(u32, &RoaringBitmap)> = self.entries();
        let ghost es = frozen_entries(entries@);
        let ghost frozen = frozen_map(self.models());
        proof {
            lemma_frozen_entries(entries@, *self);
        }
        let mut map: BTreeMap<u32, Vec<u8>> = BTreeMap::new();
        let mut i: usize = 0;
        while i < entries.len()
            invariant
                i <= entries.len(),
                self.freezable(),
                lists_bitmaps(entries@, self.bitmaps()),
                es == frozen_entries(entries@),
                frozen == frozen_map(self.models()),
                lists_map(es, frozen),
                forall|k: u32| #[trigger]
                    map@.contains_key(k) <==> exists|j: int| 0 <= j < i && (#[trigger] es[j]).0
                        == k,
                forall|j: int| 0 <= j < i ==> map@[(#[trigger] es[j]).0]@ == es[j].1,
            decreases entries.len() - i,
        {
            let bitmap: &RoaringBitmap = entries[i].1;
            proof {
                assert(self.bitmaps().contains_key(entries@[i as int].0));
                assert(*bitmap == self.bitmaps()[entries@[i as int].0]);
                assert(frozen.contains_key(es[i as int].0));
            }
            if bitmap.frozen_len() > usize::MAX as u64 {
                return Err(TooLarge);
            }
            let ghost was = map@;
            map.insert(entries[i].0, bitmap.to_frozen_bytes());
            proof {
                assert forall|k: u32| #[trigger] map@.contains_key(k) <==> exists|j: int|
                    0 <= j < i + 1 && (#[trigger] es[j]).0 == k by {
                    if map@.contains_key(k) && k != es[i as int].0 {
                        assert(was.contains_key(k));
                        let j = choose|j: int| 0 <= j < i && (#[trigger] es[j]).0 == k;
                        assert(es[j].0 == k);
                    } else if k == es[i as int].0 {
                        assert(es[i as int].0 == k);
                    }
                    if exists|j: int| 0 <= j < i + 1 && (#[trigger] es[j]).0 == k {
                        let j = choose|j: int| 0 <= j < i + 1 && (#[trigger] es[j]).0 == k;
                        if j < i {
                            assert(was.contains_key(k));
                        }
                    }
                }
                assert forall|j: int| 0 <= j < i + 1 implies map@[(#[trigger] es[j]).0]@
                    == es[j].1 by {
                    if j < i {
                        assert(es[j].0 < es[i as int].0);
                    }
                }
            }
            i = i + 1;
        }
        proof {
            let bytes = byte_map(map@);
            assert forall|k: u32| bytes.contains_key(k) <==> frozen.contains_key(k) by {
                if bytes.contains_key(k) {
                    assert(map@.contains_key(k));
                    let j = choose|j: int| 0 <= j < i && (#[trigger] es[j]).0 == k;
                    assert(frozen.contains_key(es[j].0));
                }
                if frozen.contains_key(k) {
                    assert(has_key(es, k));
                    assert(map@.contains_key(k));
                }
            }
            assert forall|k: u32| #[trigger] bytes.contains_key(k) implies bytes[k]
                == frozen[k] by {
                assert(map@.contains_key(k));
                let j = choose|j: int| 0 <= j < i && (#[trigger] es[j]).0 == k;
                assert(map@[es[j].0]@ == es[j].1);
                assert(frozen[es[j].0] == es[j].1);
            }
            assert(bytes =~= frozen);
        }
        Ok(map)
    }
}

/// Where something stands first in a byte string, it is not the case that nothing does.
proof fn lemma_first_unique(s: Seq<u8>, r: Option<u32>)
    requires
        !bytes_empty(s),
        bytes_first_is(s, r),
        bytes_first_is(s, None),
    ensures
        r is None,
{
    let ms = parse(s)->0.containers();
    let i = lemma_first_container(ms);
    assert(ms[i].first_is(r) && ms[i].first_is(None));
}

/// Where something stands last in a byte string, it is not the case that nothing does.
proof fn lemma_last_unique(s: Seq<u8>, r: Option<u32>)
    requires
        !bytes_empty(s),
        bytes_last_is(s, r),
        bytes_last_is(s, None),
    ensures
        r is None,
{
    let ms = parse(s)->0.containers();
    let i = lemma_last_container(ms);
    assert(ms[i].last_is(r) && ms[i].last_is(None));
}

/// Entries as byte strings with their keys.
pub open spec fn byte_entries(s: Seq<(u32, Vec<u8>)>) -> Seq<(u32, Seq<u8>)> {
    Seq::new(s.len(), |i: int| (s[i].0, s[i].1@))
}

/// Checks that every entry is a frozen bitmap.
pub fn verify_entries(entries: &[(u32, Vec<u8>)]) -> (r: Result<
    (),
    InvalidFrozenBitmap,
>)
    ensures
        r is Ok <==> all_frozen(byte_entries(entries@)),
{
    let ghost es = byte_entries(entries@);
    let mut i: usize = 0;
    while i < entries.len()
        invariant
            i <= entries.len(),
            es == byte_entries(entries@),
            forall|j: int| 0 <= j < i ==> parse((#[trigger] es[j]).1) is Some,
        decreases entries.len() - i,
    {
        let rb = ArchivedRoaringBitmap::from_bytes(entries[i].1.as_slice());
        assert(rb@ == es[i as int].1);
        if rb.verify().is_err() {
            return Err(InvalidFrozenBitmap);
        }
        i = i + 1;
    }
    Ok(())
}

/// Whether all entries are empty.
pub fn none_in_entries(entries: &[(u32, Vec<u8>)]) -> (r: bool)
    ensures
        r == all_empty(byte_entries(entries@)),
{
    let ghost es = byte_entries(entries@);
    let mut i: usize = 0;
    while i < entries.len()
        invariant
            i <= entries.len(),
            es == byte_entries(entries@),
            forall|j: int| 0 <= j < i ==> bytes_empty((#[trigger] es[j]).1),
        decreases entries.len() - i,
    {
        let rb = ArchivedRoaringBitmap::from_bytes(entries[i].1.as_slice());
        assert(rb@ == es[i as int].1);
        if !rb.is_empty() {
            return false;
        }
        i = i + 1;
    }
    true
}

/// The number of integers in the entries, or nothing where it is too great for a `u64`.
pub fn total_of_entries(entries: &[(u32, Vec<u8>)]) -> (r: Option<u64>)
    ensures
        match r {
            Some(total) => total == entries_total(byte_entries(entries@)),
            None => entries_total(byte_entries(entries@)) > u64::MAX,
        },
{
    let ghost es = byte_entries(entries@);
    let mut total: u64 = 0;
    let mut i: usize = 0;
    while i < entries.len()
        invariant
            i <= entries.len(),
            es == byte_entries(entries@),
            total == entries_total(es.take(i as int)),
        decreases entries.len() - i,
    {
        let rb = ArchivedRoaringBitmap::from_bytes(entries[i].1.as_slice());
        let one: u64 = rb.len();
        proof {
            assert(rb@ == es[i as int].1);
            assert(es.take(i + 1).drop_last() =~= es.take(i as int));
            assert(es.take(i + 1).last() == es[i as int]);
        }
        match total.checked_add(one) {
            Some(sum) => {
                total = sum;
            },
            None => {
                proof {
                    lemma_entries_total(es, i + 1);
                }
                return None;
            },
        }
        i = i + 1;
    }
    assert(es.take(i as int) =~= es);
    Some(total)
}

/// What stands first in the first entry that is not empty. It is an error if nothing does.
pub fn first_of_entries(entries: &[(u32, Vec<u8>)]) -> (r: Result<
    Option<u64>,
    InvalidFrozenBitmap,
>)
    ensures
        match r {
            Ok(v) => !first_missing(byte_entries(entries@)) && entries_first_is(
                byte_entries(entries@),
                v,
            ),
            Err(_) => first_missing(byte_entries(entries@)),
        },
{
    let ghost es = byte_entries(entries@);
    let mut i: usize = 0;
    while i < entries.len()
        invariant
            i <= entries.len(),
            es == byte_entries(entries@),
            forall|j: int| 0 <= j < i ==> bytes_empty((#[trigger] es[j]).1),
        decreases entries.len() - i,
    {
        let rb = ArchivedRoaringBitmap::from_bytes(entries[i].1.as_slice());
        assert(rb@ == es[i as int].1);
        if !rb.is_empty() {
            let x: Option<u32> = rb.min();
            assert(first_full(es, i as int));
            return match x {
                Some(lo) => {
                    let hi: u32 = entries[i].0;
                    proof {
                        lemma_join64(hi, lo);
                        if first_missing(es) {
                            let k = choose|k: int| #[trigger]
                                first_full(es, k) && bytes_first_is(es[k].1, None);
                            if k < i {
                                assert(bytes_empty(es[k].1));
                            } else if i < k {
                                assert(bytes_empty(es[i as int].1));
                            }
                            lemma_first_unique(es[k].1, x);
                        }
                    }
                    Ok(Some(hi as u64 * 0x1_0000_0000 + lo as u64))
                },
                None => Err(InvalidFrozenBitmap),
            };
        }
        i = i + 1;
    }
    Ok(None)
}

/// What stands last in the last entry that is not empty. It is an error if nothing does.
pub fn last_of_entries(entries: &[(u32, Vec<u8>)]) -> (r: Result<
    Option<u64>,
    InvalidFrozenBitmap,
>)
    ensures
        match r {
            Ok(v) => !last_missing(byte_entries(entries@)) && entries_last_is(
                byte_entries(entries@),
                v,
            ),
            Err(_) => last_missing(byte_entries(entries@)),
        },
{
    let ghost es = byte_entries(entries@);
    let mut n: usize = entries.len();
    while n > 0
        invariant
            n <= entries.len(),
            es == byte_entries(entries@),
            forall|j: int| n <= j < es.len() ==> bytes_empty((#[trigger] es[j]).1),
        decreases n,
    {
        n = n - 1;
        let rb = ArchivedRoaringBitmap::from_bytes(entries[n].1.as_slice());
        assert(rb@ == es[n as int].1);
        if !rb.is_empty() {
            let x: Option<u32> = rb.max();
            assert(last_full(es, n as int));
            return match x {
                Some(lo) => {
                    let hi: u32 = entries[n].0;
                    proof {
                        lemma_join64(hi, lo);
                        if last_missing(es) {
                            let k = choose|k: int| #[trigger]
                                last_full(es, k) && bytes_last_is(es[k].1, None);
                            if k < n {
                                assert(bytes_empty(es[n as int].1));
                            } else if n < k {
                                assert(bytes_empty(es[k].1));
                            }
                            lemma_last_unique(es[k].1, x);
                        }
                    }
                    Ok(Some(hi as u64 * 0x1_0000_0000 + lo as u64))
                },
                None => Err(InvalidFrozenBitmap),
            };
        }
    }
    Ok(None)
}

/// Whether two lists of entries have the same keys and bytes.
pub fn same_entries(
    a: &[(u32, Vec<u8>)],
    b: &[(u32, Vec<u8>)],
) -> (r: bool)
    ensures
        r == (byte_entries(a@) == byte_entries(b@)),
{
    let ghost s = byte_entries(a@);
    let ghost t = byte_entries(b@);
    if a.len() != b.len() {
        assert(s.len() != t.len());
        return false;
    }
    let mut i: usize = 0;
    while i < a.len()
        invariant
            i <= a.len(),
            a.len() == b.len(),
            s == byte_entries(a@),
            t == byte_entries(b@),
            forall|j: int| 0 <= j < i ==> s[j] == t[j],
        decreases a.len() - i,
    {
        assert(s[i as int] == (a@[i as int].0, a@[i as int].1@));
        assert(t[i as int] == (b@[i as int].0, b@[i as int].1@));
        if a[i].0 != b[i].0 || ArchivedRoaringBitmap::from_bytes(a[i].1.as_slice())
            != ArchivedRoaringBitmap::from_bytes(b[i].1.as_slice()) {
            return false;
        }
        i = i + 1;
    }
    assert(s =~= t);
    true
}

/// The owned treemap of the entries. There is one exactly where every entry is a frozen
/// bitmap.
pub fn thaw_entries(entries: &[(u32, Vec<u8>)]) -> (r: Result<
    RoaringTreemap,
    InvalidFrozenBitmap,
>)
    ensures
        match r {
            Ok(t) => all_frozen(byte_entries(entries@)) && t.models() == thaw(
                byte_entries(entries@),
            ) && t.freezable(),
            Err(_) => !all_frozen(byte_entries(entries@)),
        },
{
    let mut map: BTreeMap<u32, RoaringBitmap> = BTreeMap::new();
    let ghost es = byte_entries(entries@);
    let mut i: usize = 0;
    assert(map@.map_values(|b: RoaringBitmap| b.model()) =~= thaw(es.take(0)));
    while i < entries.len()
        invariant
            i <= entries.len(),
            es == byte_entries(entries@),
            forall|j: int| 0 <= j < i ==> parse((#[trigger] es[j]).1) is Some,
            map@.map_values(|b: RoaringBitmap| b.model()) == thaw(es.take(i as int)),
            forall|k: u32| #[trigger] map@.contains_key(k) ==> map@[k].freezable(),
        decreases entries.len() - i,
    {
        let rb = ArchivedRoaringBitmap::from_bytes(entries[i].1.as_slice());
        assert(rb@ == es[i as int].1);
        let bitmap: RoaringBitmap = match rb.deserialize() {
            Ok(b) => b,
            Err(_) => {
                return Err(InvalidFrozenBitmap);
            },
        };
        let ghost was = map@;
        let ghost ms = bitmap.model();
        map.insert(entries[i].0, bitmap);
        proof {
            assert(es.take(i + 1).drop_last() =~= es.take(i as int));
            assert(es.take(i + 1).last() == es[i as int]);
            assert(map@.map_values(|b: RoaringBitmap| b.model()) =~= was.map_values(
                |b: RoaringBitmap| b.model(),
            ).insert(es[i as int].0, ms));
        }
        i = i + 1;
    }
    assert(es.take(i as int) =~= es);
    Ok(RoaringTreemap::from_map(map))
}

/// An archived treemap.
#[derive(Clone, Copy)]
pub struct ArchivedRoaringTreemap<'a>(pub &'a ArchivedByteMap);

/// The view of an archived treemap is its entries, in the order in which its nodes hold them.
impl<'a> View for ArchivedRoaringTreemap<'a> {
    type V = Seq<(u32, Seq<u8>)>;

    open spec fn view(&self) -> Seq<(u32, Seq<u8>)> {
        archived_entries(*self.0)
    }
}

impl<'a> ArchivedRoaringTreemap<'a> {
    /// The treemap in a buffer that holds the archive of one.
    pub fn access(bytes: &'a AlignedVec<16>) -> (r: Result<Self, AccessError>)
        ensures
            match read_map_archive(aligned_bytes(*bytes)) {
                None => r == Err::<Self, AccessError>(AccessError::MalformedArchive),
                Some(es) => if all_frozen(es) {
                    r matches Ok(archived) && archived@ == es
                } else {
                    r == Err::<Self, AccessError>(AccessError::InvalidFrozenBitmap)
                },
            },
    {
        match access_map(bytes) {
            Ok(map) => {
                let archived = ArchivedRoaringTreemap(map);
                match archived.verify() {
                    Ok(()) => Ok(archived),
                    Err(_) => Err(AccessError::InvalidFrozenBitmap),
                }
            },
            Err(_) => Err(AccessError::MalformedArchive),
        }
    }

    /// Checks that every entry is a frozen bitmap.
    pub fn verify(&self) -> (r: Result<(), InvalidFrozenBitmap>)
        ensures
            r is Ok <==> all_frozen(self@),
    {
        verify_entries(self.entries().as_slice())
    }

    /// The bytes of the bitmaps with their keys.
    pub fn entries(&self) -> (r: Vec<(u32, Vec<u8>)>)
        ensures
            byte_entries(r@) == self@,
    {
        let r: Vec<(u32, Vec<u8>)> = map_visit(self.0);
        assert(byte_entries(r@) =~= self@);
        r
    }

    /// Whether the treemap is empty: no bitmap in it holds anything.
    #[must_use]
    pub fn is_empty(&self) -> (r: bool)
        ensures
            r == all_empty(self@),
    {
        none_in_entries(self.entries().as_slice())
    }

    /// The number of integers in the treemap.
    #[must_use]
    pub fn len(&self) -> (r: u64)
        requires
            entries_total(self@) <= u64::MAX,
        ensures
            r == entries_total(self@),
    {
        match self.checked_len() {
            Some(total) => total,
            None => 0,
        }
    }

    /// The number of integers in the treemap, or nothing where it is too great for a `u64`.
    #[must_use]
    pub fn checked_len(&self) -> (r: Option<u64>)
        ensures
            match r {
                Some(total) => total == entries_total(self@),
                None => entries_total(self@) > u64::MAX,
            },
    {
        total_of_entries(self.entries().as_slice())
    }

    /// The minimum of the treemap.
    #[must_use]
    pub fn min(&self) -> (r: Option<u64>)
        requires
            !first_missing(self@),
        ensures
            entries_first_is(self@, r),
    {
        match self.checked_min() {
            Ok(r) => r,
            Err(_) => None,
        }
    }

    /// The minimum of the treemap. It is an error if the first bitmap that counts integers has
    /// none.
    pub fn checked_min(&self) -> (r: Result<Option<u64>, InvalidFrozenBitmap>)
        ensures
            match r {
                Ok(v) => !first_missing(self@) && entries_first_is(self@, v),
                Err(_) => first_missing(self@),
            },
    {
        first_of_entries(self.entries().as_slice())
    }

    /// The maximum of the treemap.
    #[must_use]
    pub fn max(&self) -> (r: Option<u64>)
        requires
            !last_missing(self@),
        ensures
            entries_last_is(self@, r),
    {
        match self.checked_max() {
            Ok(r) => r,
            Err(_) => None,
        }
    }

    /// The maximum of the treemap. It is an error if the last bitmap that counts integers has
    /// none.
    pub fn checked_max(&self) -> (r: Result<Option<u64>, InvalidFrozenBitmap>)
        ensures
            match r {
                Ok(v) => !last_missing(self@) && entries_last_is(self@, v),
                Err(_) => last_missing(self@),
            },
    {
        last_of_entries(self.entries().as_slice())
    }

    /// Whether the treemap contains `value`.
    #[must_use]
    pub fn contains(&self, value: u64) -> (r: bool)
        ensures
            r == match map_lookup(*self.0, high64(value)) {
                Some(s) => bytes_find(s, low64(value)),
                None => false,
            },
            r ==> entries_find(self@, value),
            keys_ascend(self@) ==> r == entries_find(self@, value),
    {
        let hi: u32 = (value / 0x1_0000_0000) as u32;
        let lo: u32 = (value % 0x1_0000_0000) as u32;
        match map_get(self.0, hi) {
            Some(vec) => {
                let rb = ArchivedRoaringBitmap::from_archived_vec(vec);
                let r: bool = rb.contains(lo);
                proof {
                    let k = choose|k: int| 0 <= k < self@.len() && self@[k] == (hi, rb@);
                    if r {
                        assert(entry_finds(self@[k], value));
                    }
                    if keys_ascend(self@) && entries_find(self@, value) {
                        let i = choose|i: int|
                            0 <= i < self@.len() && #[trigger] entry_finds(self@[i], value);
                        assert(i == k);
                    }
                }
                r
            },
            None => {
                proof {
                    if keys_ascend(self@) && entries_find(self@, value) {
                        let i = choose|i: int|
                            0 <= i < self@.len() && #[trigger] entry_finds(self@[i], value);
                        assert(self@[i].0 == hi);
                    }
                }
                false
            },
        }
    }

    /// The number of entries, as text.
    pub fn debug_text(&self) -> (r: String)
        ensures
            r@ == "ArchivedRoaringTreemap(<"@ + decimal(self@.len()) + " elements>)"@,
    {
        let mut r: String = "ArchivedRoaringTreemap(<".to_owned();
        push_decimal(&mut r, map_len(self.0) as u64);
        r.append(" elements>)");
        r
    }

    /// The treemap as an owned one. There is one exactly where every entry is a frozen bitmap.
    pub fn deserialize(&self) -> (r: Result<RoaringTreemap, InvalidFrozenBitmap>)
        ensures
            match r {
                Ok(t) => all_frozen(self@) && t.models() == thaw(self@) && t.freezable(),
                Err(_) => !all_frozen(self@),
            },
    {
        thaw_entries(self.entries().as_slice())
    }
}

/// Two archived treemaps are equal where their entries are.
impl<'a> PartialEq for ArchivedRoaringTreemap<'a> {
    fn eq(&self, other: &Self) -> (r: bool) {
        same_entries(self.entries().as_slice(), other.entries().as_slice())
    }
}

impl<'a> vstd::std_specs::cmp::PartialEqSpecImpl for ArchivedRoaringTreemap<'a> {
    open spec fn obeys_eq_spec() -> bool {
        true
    }

    open spec fn eq_spec(&self, other: &Self) -> bool {
        self@ == other@
    }
}

impl<'a> Eq for ArchivedRoaringTreemap<'a> {

}

} // verus!
