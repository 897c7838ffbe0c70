//! Reading a frozen bitmap in place.
use crate::bitmap::models;
use crate::bitmap::RoaringBitmap;
use crate::bits::highest_bit;
use crate::bits::lemma_first_bit;
use crate::bits::lemma_last_bit;
use crate::bits::lemma_no_bits;
use crate::bits::lowest_bit;
use crate::bits::test_bit;
use crate::bytes::read_u16;
use crate::bytes::read_u32;
use crate::bytes::read_u64;
use crate::bytes::u16_at;
use crate::bytes::u64_at;
use crate::format::has_metadata;
use crate::format::header_count;
use crate::format::interval_at;
use crate::format::is_frozen;
use crate::format::known_code;
use crate::format::parse;
use crate::format::split_zones;
use crate::format::Zones;
use crate::format::ARRAY_CONTAINER_TYPE;
use crate::format::BITSET_CONTAINER_TYPE;
use crate::format::FROZEN_COOKIE;
use crate::format::RUN_CONTAINER_TYPE;
use crate::model::containers_empty;
use crate::model::containers_first_is;
use crate::model::containers_last_is;
use crate::model::elements;
use crate::model::greatest_is;
use crate::model::high;
use crate::model::join;
use crate::model::least_is;
use crate::model::lemma_containers_empty;
use crate::model::lemma_containers_first;
use crate::model::lemma_containers_last;
use crate::model::lemma_join;
use crate::model::low;
use crate::model::ContainerModel;
use crate::model::Interval;
use crate::model::BITMAP_LENGTH;
use crate::search::bisect;
use crate::store::ArrayStore;
use crate::store::BitmapStore;
use crate::store::Container;
use crate::store::IntervalStore;
use crate::store::Store;
use crate::zones::lemma_container_inside;
use crate::zones::lemma_container_member;
use crate::zones::lemma_finds;
use crate::zones::lemma_parse_wf;
use crate::zones::lemma_total;
use crate::zones::lemma_zones_fit;
use vstd::prelude::*;

verus! {

/// A read-only view of a bitmap in the frozen format.
#[derive(Clone, Copy)]
pub struct FrozenRoaringBitmapView<'a> {
    num_containers: usize,
    keys: &'a [u8],
    counts: &'a [u8],
    typecodes: &'a [u8],
    bitset_zone: &'a [u8],
    run_zone: &'a [u8],
    array_zone: &'a [u8],
}

/// The view of a frozen bitmap is its parts.
impl<'a> View for FrozenRoaringBitmapView<'a> {
    type V = Zones;

    closed spec fn view(&self) -> Zones {
        Zones {
            keys: self.keys@,
            counts: self.counts@,
            typecodes: self.typecodes@,
            bitset_zone: self.bitset_zone@,
            run_zone: self.run_zone@,
            array_zone: self.array_zone@,
        }
    }
}

/// The address of the first byte of a slice, as `as_ptr` of the slice gives it. Nothing is
/// claimed of it: it depends on where the bytes were allocated.
#[verifier::external_body]
pub(crate) fn start_address(buf: &[u8]) -> usize {
    buf.as_ptr() as usize
}

/// Whether a slice may be said to start at the address.
pub closed spec fn starts_at(buf: &[u8], address: usize) -> bool {
    call_ensures(start_address, (buf,), address)
}

/// A slice may be said to start where [`start_address`] says.
pub(crate) proof fn lemma_starts_at(buf: &[u8], address: usize)
    ensures
        starts_at(buf, address) <==> call_ensures(start_address, (buf,), address),
{
}

impl<'a> FrozenRoaringBitmapView<'a> {
    #[verifier::type_invariant]
    spec fn inv(self) -> bool {
        &&& self.num_containers == self.typecodes@.len()
        &&& self@.wf()
    }

    /// Creates a view of a buffer that starts at a multiple of 32. Where the buffer starts is up
    /// to whoever allocated it: elsewhere there is no view.
    #[must_use]
    pub fn new(buf: &'a [u8]) -> (r: Option<Self>)
        ensures
            r matches Some(view) ==> parse(buf@) == Some(view@) && view@.wf(),
            exists|address: usize| #[trigger]
                starts_at(buf, address) && (r is Some <==> address % 32 == 0 && parse(
                    buf@,
                ) is Some),
    {
        let address: usize = start_address(buf);
        assert(starts_at(buf, address));
        Self::new_at(address, buf)
    }

    /// Creates a view of a buffer that starts at `address`. There is one exactly where the
    /// address is a multiple of 32 and the buffer holds a frozen bitmap.
    #[must_use]
    pub fn new_at(address: usize, buf: &'a [u8]) -> (r: Option<Self>)
        ensures
            address % 32 != 0 ==> r is None,
            address % 32 == 0 ==> match parse(buf@) {
                Some(z) => r matches Some(view) && view@ == z && z.wf(),
                None => r is None,
            },
    {
        if address % 32 != 0 {
            return None;
        }
        Self::new_unaligned(buf)
    }

    /// Creates a view of a buffer at any address. There is one exactly where the buffer holds
    /// a frozen bitmap.
    #[must_use]
    pub fn new_unaligned(buf: &'a [u8]) -> (r: Option<Self>)
        ensures
            match parse(buf@) {
                Some(z) => r matches Some(view) && view@ == z && z.wf(),
                None => r is None,
            },
    {
        let len: usize = buf.len();
        if len < 4 {
            return None;
        }
        let header: u32 = read_u32(buf, len - 4);
        if header % 0x8000 != FROZEN_COOKIE {
            return None;
        }
        let num_containers: usize = (header / 0x8000) as usize;
        let md_size: usize = 4 + num_containers * 5;
        if len < md_size {
            return None;
        }
        let keys_ptr: usize = len - 4 - num_containers * 5;
        let counts_ptr: usize = len - 4 - num_containers * 3;
        let typecodes_ptr: usize = len - 4 - num_containers;
        let ghost z = split_zones(buf@);
        let mut bitset_size: u64 = 0;
        let mut run_size: u64 = 0;
        let mut array_size: u64 = 0;
        let mut i: usize = 0;
        while i < num_containers
            invariant
                i <= num_containers,
                len == buf.len(),
                has_metadata(buf@),
                num_containers == header_count(buf@),
                num_containers < 0x2_0000,
                counts_ptr == len - 4 - num_containers * 3,
                typecodes_ptr == len - 4 - num_containers,
                z == split_zones(buf@),
                bitset_size == z.offset(BITSET_CONTAINER_TYPE, i as int),
                run_size == z.offset(RUN_CONTAINER_TYPE, i as int),
                array_size == z.offset(ARRAY_CONTAINER_TYPE, i as int),
                bitset_size <= i * 0x2000,
                run_size <= i * 0x4_0000,
                array_size <= i * 0x2_0000,
                forall|k: int|
                    typecodes_ptr <= k < typecodes_ptr + i ==> known_code(#[trigger] buf@[k]),
            decreases num_containers - i,
        {
            let tc: u8 = buf[typecodes_ptr + i];
            let count: u64 = read_u16(buf, counts_ptr + i * 2) as u64;
            assert(tc == z.typecodes[i as int]);
            assert(count == z.count(i as int));
            if tc == BITSET_CONTAINER_TYPE {
                bitset_size = bitset_size + BITMAP_LENGTH as u64 * 8;
            } else if tc == RUN_CONTAINER_TYPE {
                run_size = run_size + count * 4;
            } else if tc == ARRAY_CONTAINER_TYPE {
                array_size = array_size + (count + 1) * 2;
            } else {
                assert(!known_code(buf@[typecodes_ptr + i]));
                return None;
            }
            i = i + 1;
        }
        if (len as u64) < bitset_size + run_size + array_size + md_size as u64 {
            return None;
        }
        let b: usize = bitset_size as usize;
        let r: usize = b + run_size as usize;
        let a: usize = r + array_size as usize;
        proof {
            assert(is_frozen(buf@));
            lemma_parse_wf(buf@);
        }
        let view = FrozenRoaringBitmapView {
            num_containers,
            keys: &buf[keys_ptr..counts_ptr],
            counts: &buf[counts_ptr..typecodes_ptr],
            typecodes: &buf[typecodes_ptr..len - 4],
            bitset_zone: &buf[0..b],
            run_zone: &buf[b..r],
            array_zone: &buf[r..a],
        };
        Some(view)
    }

    /// Converts the view back into an owned bitmap.
    #[must_use]
    pub fn to_roaring_bitmap(&self) -> (r: RoaringBitmap)
        ensures
            r.model() == self@.containers(),
            r.freezable(),
            self@.valid() ==> r.wf(),
    {
        proof {
            use_type_invariant(self);
        }
        let ghost z = self@;
        let mut containers: Vec<Container> = Vec::new();
        let mut bitset_ptr: usize = 0;
        let mut run_ptr: usize = 0;
        let mut array_ptr: usize = 0;
        let mut i: usize = 0;
        while i < self.num_containers
            invariant
                i <= self.num_containers,
                z == self@,
                z.wf(),
                self.num_containers == z.count_containers(),
                bitset_ptr == z.offset(BITSET_CONTAINER_TYPE, i as int),
                run_ptr == z.offset(RUN_CONTAINER_TYPE, i as int),
                array_ptr == z.offset(ARRAY_CONTAINER_TYPE, i as int),
                containers@.len() == i,
                forall|j: int|
                    0 <= j < i ==> (#[trigger] containers@[j])@ == (ContainerModel {
                        key: z.key(j),
                        store: z.store(j),
                    }),
            decreases self.num_containers - i,
        {
            proof {
                lemma_container_inside(z, i as int);
            }
            let key: u16 = read_u16(self.keys, i * 2);
            let count: usize = read_u16(self.counts, i * 2) as usize;
            let tc: u8 = self.typecodes[i];
            let store: Store = if tc == BITSET_CONTAINER_TYPE {
                let words: Box<[u64; BITMAP_LENGTH]> = self.read_words(bitset_ptr);
                assert(words@ =~= z.words(i as int));
                assert(bitset_ptr + 8 * BITMAP_LENGTH <= self.bitset_zone.len());
                bitset_ptr = bitset_ptr + BITMAP_LENGTH * 8;
                Store::Bitmap(BitmapStore::from_unchecked(count as u64 + 1, words))
            } else if tc == RUN_CONTAINER_TYPE {
                let runs: Vec<Interval> = self.read_intervals(run_ptr, count);
                assert(runs@ =~= z.intervals(i as int));
                assert(run_ptr + 4 * count <= self.run_zone.len());
                run_ptr = run_ptr + count * 4;
                Store::Run(IntervalStore::from_vec_unchecked(runs))
            } else {
                let values: Vec<u16> = self.read_values(array_ptr, count + 1);
                assert(values@ =~= z.values(i as int));
                assert(array_ptr + 2 * (count + 1) <= self.array_zone.len());
                array_ptr = array_ptr + (count + 1) * 2;
                Store::Array(ArrayStore::from_vec_unchecked(values))
            };
            containers.push(Container { key, store });
            i = i + 1;
        }
        proof {
            assert(models(containers@) =~= z.containers());
            lemma_zones_fit(z);
        }
        RoaringBitmap::from_containers(containers)
    }

    /// The words of a bitset container.
    fn read_words(&self, at: usize) -> (r: Box<[u64; BITMAP_LENGTH]>)
        requires
            at + 8 * BITMAP_LENGTH <= self@.bitset_zone.len(),
        ensures
            forall|j: int|
                0 <= j < BITMAP_LENGTH ==> #[trigger] r@[j] == u64_at(
                    self@.bitset_zone,
                    at + 8 * j,
                ),
    {
        let mut words: Box<[u64; BITMAP_LENGTH]> = Box::new([0u64; BITMAP_LENGTH]);
        let mut j: usize = 0;
        while j < BITMAP_LENGTH
            invariant
                j <= BITMAP_LENGTH,
                at + 8 * BITMAP_LENGTH <= self.bitset_zone.len(),
                forall|k: int|
                    0 <= k < j ==> #[trigger] words@[k] == u64_at(
                        self@.bitset_zone,
                        at + 8 * k,
                    ),
            decreases BITMAP_LENGTH - j,
        {
            words[j] = read_u64(self.bitset_zone, at + j * 8);
            j = j + 1;
        }
        words
    }

    /// The intervals of a run container.
    fn read_intervals(&self, at: usize, count: usize) -> (r: Vec<Interval>)
        requires
            at + 4 * count <= self@.run_zone.len(),
        ensures
            r@.len() == count,
            forall|j: int|
                0 <= j < count ==> #[trigger] r@[j] == interval_at(self@.run_zone, at + 4 * j),
    {
        let mut runs: Vec<Interval> = Vec::with_capacity(count);
        let mut j: usize = 0;
        while j < count
            invariant
                j <= count,
                at + 4 * count <= self.run_zone.len(),
                runs@.len() == j,
                forall|k: int|
                    0 <= k < j ==> #[trigger] runs@[k] == interval_at(self@.run_zone, at + 4 * k),
            decreases count - j,
        {
            runs.push(self.read_interval(at + j * 4));
            j = j + 1;
        }
        runs
    }

    /// The interval whose bytes start at `at`.
    fn read_interval(&self, at: usize) -> (r: Interval)
        requires
            at + 4 <= self.run_zone.len(),
        ensures
            r == interval_at(self@.run_zone, at as int),
    {
        let start: u16 = read_u16(self.run_zone, at);
        let len: u16 = read_u16(self.run_zone, at + 2);
        Interval::new_unchecked(start, start.saturating_add(len))
    }

    /// The values of an array container.
    fn read_values(&self, at: usize, count: usize) -> (r: Vec<u16>)
        requires
            at + 2 * count <= self@.array_zone.len(),
        ensures
            r@.len() == count,
            forall|j: int|
                0 <= j < count ==> #[trigger] r@[j] == u16_at(self@.array_zone, at + 2 * j),
    {
        let mut values: Vec<u16> = Vec::with_capacity(count);
        let mut j: usize = 0;
        while j < count
            invariant
                j <= count,
                at + 2 * count <= self.array_zone.len(),
                values@.len() == j,
                forall|k: int|
                    0 <= k < j ==> #[trigger] values@[k] == u16_at(self@.array_zone, at + 2 * k),
            decreases count - j,
        {
            values.push(read_u16(self.array_zone, at + j * 2));
            j = j + 1;
        }
        values
    }

    /// Whether all containers are empty. Only a run container can be, one without runs.
    #[must_use]
    pub fn is_empty(&self) -> (r: bool)
        ensures
            r == containers_empty(self@.containers()),
            self@.valid() ==> r == (elements(self@.containers()) == Set::<u32>::empty()),
    {
        proof {
            use_type_invariant(self);
        }
        let ghost z = self@;
        let mut i: usize = 0;
        while i < self.num_containers
            invariant
                i <= self.num_containers,
                z == self@,
                z.wf(),
                self.num_containers == z.count_containers(),
                forall|j: int| 0 <= j < i ==> (#[trigger] z.containers()[j]).store.is_empty(),
            decreases self.num_containers - i,
        {
            proof {
                lemma_container_inside(z, i as int);
            }
            if self.typecodes[i] != RUN_CONTAINER_TYPE || read_u16(self.counts, i * 2) != 0 {
                proof {
                    assert(!z.containers()[i as int].store.is_empty());
                    if z.valid() {
                        lemma_containers_empty(z.containers());
                    }
                }
                return false;
            }
            i = i + 1;
        }
        proof {
            if z.valid() {
                lemma_containers_empty(z.containers());
            }
        }
        true
    }

    /// The number of integers in the bitmap, as its counts and intervals say.
    #[must_use]
    pub fn len(&self) -> (r: u64)
        ensures
            r == self@.total(self@.count_containers() as int),
            self@.valid() ==> r == elements(self@.containers()).len(),
    {
        proof {
            use_type_invariant(self);
            if self@.valid() {
                lemma_total(self@);
            }
        }
        let ghost z = self@;
        let mut total: u64 = 0;
        let mut run_offset: usize = 0;
        let mut i: usize = 0;
        while i < self.num_containers
            invariant
                i <= self.num_containers,
                z == self@,
                z.wf(),
                self.num_containers == z.count_containers(),
                run_offset == z.offset(RUN_CONTAINER_TYPE, i as int),
                total == z.total(i as int),
                total <= i * 0x1_0000_0000,
            decreases self.num_containers - i,
        {
            proof {
                lemma_container_inside(z, i as int);
            }
            let count: usize = read_u16(self.counts, i * 2) as usize;
            if self.typecodes[i] == RUN_CONTAINER_TYPE {
                let ghost before = total;
                let ghost start = run_offset;
                let mut j: usize = 0;
                while j < count
                    invariant
                        j <= count,
                        i < self.num_containers,
                        count == z.count(i as int),
                        count < 0x1_0000,
                        z == self@,
                        z.wf(),
                        self.num_containers == z.count_containers(),
                        start == z.offset(RUN_CONTAINER_TYPE, i as int),
                        start + 4 * count <= self.run_zone.len(),
                        run_offset == start + 4 * j,
                        total == before + z.run_total(i as int, j as int),
                        before <= i * 0x1_0000_0000,
                        total <= before + j * 0x1_0000,
                    decreases count - j,
                {
                    total = total + read_u16(self.run_zone, run_offset + 2) as u64 + 1;
                    run_offset = run_offset + 4;
                    j = j + 1;
                }
            } else {
                total = total + count as u64 + 1;
            }
            i = i + 1;
        }
        total
    }

    /// What stands first in the first container that is not empty: the minimum of a bitmap
    /// in order.
    #[must_use]
    pub fn min(&self) -> (r: Option<u32>)
        ensures
            containers_first_is(self@.containers(), r),
            self@.valid() ==> least_is(elements(self@.containers()), r),
    {
        let r: Option<u32> = self.first();
        proof {
            if self@.valid() {
                lemma_containers_first(self@.containers(), r);
            }
        }
        r
    }

    /// What stands first in the first container that is not empty.
    fn first(&self) -> (r: Option<u32>)
        ensures
            containers_first_is(self@.containers(), r),
    {
        proof {
            use_type_invariant(self);
        }
        let ghost z = self@;
        let ghost ms = z.containers();
        let mut i: usize = 0;
        while i < self.num_containers && self.typecodes[i] == RUN_CONTAINER_TYPE && read_u16(
            self.counts,
            i * 2,
        ) == 0
            invariant
                i <= self.num_containers,
                z == self@,
                ms == z.containers(),
                z.wf(),
                self.num_containers == z.count_containers(),
                forall|j: int| 0 <= j < i ==> (#[trigger] ms[j]).store.is_empty(),
                z.offset(BITSET_CONTAINER_TYPE, i as int) == 0,
                z.offset(RUN_CONTAINER_TYPE, i as int) == 0,
                z.offset(ARRAY_CONTAINER_TYPE, i as int) == 0,
            decreases self.num_containers - i,
        {
            i = i + 1;
        }
        if i == self.num_containers {
            assert(containers_empty(ms));
            return None;
        }
        proof {
            lemma_container_inside(z, i as int);
            assert(!ms[i as int].store.is_empty());
            assert forall|k: int|
                0 <= k < ms.len() && !(#[trigger] ms[k]).store.is_empty() && containers_empty(
                    ms.take(k),
                ) implies k == i by {
                if k > i {
                    assert(ms.take(k)[i as int].store.is_empty());
                }
            }
        }
        let key: u16 = read_u16(self.keys, i * 2);
        let tc: u8 = self.typecodes[i];
        if tc == BITSET_CONTAINER_TYPE {
            let ghost words = z.words(i as int);
            let mut j: usize = 0;
            while j < BITMAP_LENGTH
                invariant
                    j <= BITMAP_LENGTH,
                    words == z.words(i as int),
                    z == self@,
                    z.offset(BITSET_CONTAINER_TYPE, i as int) == 0,
                    8 * BITMAP_LENGTH <= self.bitset_zone.len(),
                    forall|k: int| 0 <= k < j ==> words[k] == 0,
                    key == z.key(i as int),
                    ms == z.containers(),
                    0 <= i < ms.len(),
                    z.typecodes[i as int] == BITSET_CONTAINER_TYPE,
                    !ms[i as int].store.is_empty(),
                    forall|k: int|
                        0 <= k < ms.len() && !(#[trigger] ms[k]).store.is_empty()
                            && containers_empty(ms.take(k)) ==> k == i,
                decreases BITMAP_LENGTH - j,
            {
                let word: u64 = read_u64(self.bitset_zone, j * 8);
                assert(word == words[j as int]);
                if word != 0 {
                    let b: u32 = lowest_bit(word);
                    let x: u16 = (64 * j) as u16 + b as u16;
                    proof {
                        lemma_first_bit(words, j as int, b as int);
                        lemma_join(key, x);
                    }
                    return Some(key as u32 * 0x1_0000 + x as u32);
                }
                j = j + 1;
            }
            proof {
                lemma_no_bits(words);
            }
            None
        } else if tc == RUN_CONTAINER_TYPE {
            let start: u16 = read_u16(self.run_zone, 0);
            proof {
                lemma_join(key, start);
                assert(z.intervals(i as int)[0].start == start);
            }
            Some(key as u32 * 0x1_0000 + start as u32)
        } else {
            let val: u16 = read_u16(self.array_zone, 0);
            proof {
                lemma_join(key, val);
                assert(z.values(i as int)[0] == val);
            }
            Some(key as u32 * 0x1_0000 + val as u32)
        }
    }

    /// What stands last in the last container that is not empty: the maximum of a bitmap in
    /// order.
    #[must_use]
    pub fn max(&self) -> (r: Option<u32>)
        ensures
            containers_last_is(self@.containers(), r),
            self@.valid() ==> greatest_is(elements(self@.containers()), r),
    {
        let r: Option<u32> = self.last();
        proof {
            if self@.valid() {
                lemma_containers_last(self@.containers(), r);
            }
        }
        r
    }

    /// What stands last in the last container that is not empty.
    fn last(&self) -> (r: Option<u32>)
        ensures
            containers_last_is(self@.containers(), r),
    {
        proof {
            use_type_invariant(self);
        }
        let ghost z = self@;
        let ghost ms = z.containers();
        let mut n: usize = self.num_containers;
        while n > 0 && self.typecodes[n - 1] == RUN_CONTAINER_TYPE && read_u16(
            self.counts,
            (n - 1) * 2,
        ) == 0
            invariant
                n <= self.num_containers,
                z == self@,
                ms == z.containers(),
                z.wf(),
                self.num_containers == z.count_containers(),
                forall|j: int| n <= j < ms.len() ==> (#[trigger] ms[j]).store.is_empty(),
            decreases n,
        {
            n = n - 1;
        }
        if n == 0 {
            assert(containers_empty(ms));
            return None;
        }
        let i: usize = n - 1;
        proof {
            lemma_container_inside(z, i as int);
            assert(!ms[i as int].store.is_empty());
            assert forall|k: int|
                0 <= k < ms.len() && !(#[trigger] ms[k]).store.is_empty() && containers_empty(
                    ms.skip(k + 1),
                ) implies k == i by {
                if k < i {
                    assert(ms.skip(k + 1)[i - k - 1].store.is_empty());
                }
            }
        }
        let key: u16 = read_u16(self.keys, i * 2);
        let tc: u8 = self.typecodes[i];
        let (bitset_offset, run_offset, array_offset) = self.offsets(i);
        let count: usize = read_u16(self.counts, i * 2) as usize;
        if tc == BITSET_CONTAINER_TYPE {
            let ghost words = z.words(i as int);
            let mut j: usize = BITMAP_LENGTH;
            while j > 0
                invariant
                    j <= BITMAP_LENGTH,
                    words == z.words(i as int),
                    z == self@,
                    bitset_offset == z.offset(BITSET_CONTAINER_TYPE, i as int),
                    bitset_offset + 8 * BITMAP_LENGTH <= self.bitset_zone.len(),
                    forall|k: int| j <= k < BITMAP_LENGTH ==> words[k] == 0,
                    key == z.key(i as int),
                    ms == z.containers(),
                    0 <= i < ms.len(),
                    z.typecodes[i as int] == BITSET_CONTAINER_TYPE,
                    !ms[i as int].store.is_empty(),
                    forall|k: int|
                        0 <= k < ms.len() && !(#[trigger] ms[k]).store.is_empty()
                            && containers_empty(ms.skip(k + 1)) ==> k == i,
                decreases j,
            {
                j = j - 1;
                let word: u64 = read_u64(self.bitset_zone, bitset_offset + j * 8);
                assert(word == words[j as int]);
                if word != 0 {
                    let b: u32 = highest_bit(word);
                    let x: u16 = (64 * j) as u16 + b as u16;
                    proof {
                        lemma_last_bit(words, j as int, b as int);
                        lemma_join(key, x);
                    }
                    return Some(key as u32 * 0x1_0000 + x as u32);
                }
            }
            proof {
                lemma_no_bits(words);
            }
            None
        } else if tc == RUN_CONTAINER_TYPE {
            assert(count > 0);
            assert(run_offset + 4 * count <= self.run_zone.len());
            let end: u16 = self.read_interval(run_offset + (count - 1) * 4).end;
            proof {
                lemma_join(key, end);
                assert(z.intervals(i as int).last().end == end);
            }
            Some(key as u32 * 0x1_0000 + end as u32)
        } else {
            assert(array_offset + 2 * (count + 1) <= self.array_zone.len());
            let val: u16 = read_u16(self.array_zone, array_offset + count * 2);
            proof {
                lemma_join(key, val);
                assert(z.values(i as int).last() == val);
            }
            Some(key as u32 * 0x1_0000 + val as u32)
        }
    }

    /// Where the container with index `i` starts in each of the three zones.
    fn offsets(&self, i: usize) -> (r: (usize, usize, usize))
        requires
            i < self@.count_containers(),
        ensures
            r.0 == self@.offset(BITSET_CONTAINER_TYPE, i as int),
            r.1 == self@.offset(RUN_CONTAINER_TYPE, i as int),
            r.2 == self@.offset(ARRAY_CONTAINER_TYPE, i as int),
    {
        proof {
            use_type_invariant(self);
        }
        let mut bitset_offset: usize = 0;
        let mut run_offset: usize = 0;
        let mut array_offset: usize = 0;
        let mut j: usize = 0;
        while j < i
            invariant
                j <= i < self.num_containers,
                self@.wf(),
                self.num_containers == self@.count_containers(),
                bitset_offset == self@.offset(BITSET_CONTAINER_TYPE, j as int),
                run_offset == self@.offset(RUN_CONTAINER_TYPE, j as int),
                array_offset == self@.offset(ARRAY_CONTAINER_TYPE, j as int),
            decreases i - j,
        {
            proof {
                lemma_container_inside(self@, j as int);
            }
            let count: usize = read_u16(self.counts, j * 2) as usize;
            let tc: u8 = self.typecodes[j];
            if tc == BITSET_CONTAINER_TYPE {
                assert(bitset_offset + 8 * BITMAP_LENGTH <= self.bitset_zone.len());
                bitset_offset = bitset_offset + BITMAP_LENGTH * 8;
            } else if tc == RUN_CONTAINER_TYPE {
                assert(run_offset + 4 * count <= self.run_zone.len());
                run_offset = run_offset + count * 4;
            } else {
                assert(array_offset + 2 * (count + 1) <= self.array_zone.len());
                array_offset = array_offset + (count + 1) * 2;
            }
            j = j + 1;
        }
        (bitset_offset, run_offset, array_offset)
    }

    /// Whether a look-up of `value` comes out right: whether a bitmap in order contains it.
    #[must_use]
    pub fn contains(&self, value: u32) -> (r: bool)
        ensures
            r == self@.finds(value),
            self@.valid() ==> r == elements(self@.containers()).contains(value),
    {
        proof {
            use_type_invariant(self);
        }
        let key: u16 = (value / 0x1_0000) as u16;
        let index: u16 = (value % 0x1_0000) as u16;
        let ghost z = self@;
        let ghost probe = z.key_probe(key);
        let mut left: usize = 0;
        let mut right: usize = self.num_containers;
        while left < right
            invariant
                left <= right <= self.num_containers,
                z == self@,
                z.wf(),
                self.num_containers == z.count_containers(),
                key == high(value),
                index == low(value),
                probe == z.key_probe(key),
                bisect(probe, 0, z.count_containers() as int) == bisect(
                    probe,
                    left as int,
                    right as int,
                ),
            decreases right - left,
        {
            let mid: usize = left + (right - left) / 2;
            let mid_key: u16 = read_u16(self.keys, mid * 2);
            assert(probe(mid as int) == mid_key - key);
            if mid_key < key {
                left = mid + 1;
            } else if mid_key > key {
                right = mid;
            } else {
                proof {
                    if z.valid() {
                        lemma_finds(z, value);
                    }
                }
                return self.container_contains(mid, index);
            }
        }
        proof {
            if z.valid() {
                lemma_finds(z, value);
            }
        }
        false
    }

    /// Whether a look-up of `index` in the container with index `i` comes out right: whether a
    /// bitmap in order contains it under the key of the container.
    #[must_use]
    pub fn container_contains(&self, i: usize, index: u16) -> (r: bool)
        requires
            i < self@.count_containers(),
        ensures
            r == self@.container_finds(i as int, index),
            self@.valid() ==> r == elements(self@.containers()).contains(
                join(self@.key(i as int), index),
            ),
    {
        let r: bool = self.find_in_container(i, index);
        proof {
            if self@.valid() {
                lemma_container_member(self@, i as int, index);
            }
        }
        r
    }

    /// Whether a look-up of `index` in the container with index `i` comes out right.
    fn find_in_container(&self, i: usize, index: u16) -> (r: bool)
        requires
            i < self@.count_containers(),
        ensures
            r == self@.container_finds(i as int, index),
    {
        proof {
            use_type_invariant(self);
            lemma_container_inside(self@, i as int);
        }
        let ghost z = self@;
        let tc: u8 = self.typecodes[i];
        let (bitset_offset, run_offset, array_offset) = self.offsets(i);
        let count: usize = read_u16(self.counts, i * 2) as usize;
        if tc == BITSET_CONTAINER_TYPE {
            let word_idx: usize = (index / 64) as usize;
            assert(bitset_offset + 8 * BITMAP_LENGTH <= self.bitset_zone.len());
            let word: u64 = read_u64(self.bitset_zone, bitset_offset + word_idx * 8);
            assert(word == z.words(i as int)[word_idx as int]);
            test_bit(word, (index % 64) as u32)
        } else if tc == RUN_CONTAINER_TYPE {
            let ghost probe = z.interval_probe(i as int, index);
            let mut left: usize = 0;
            let mut right: usize = count;
            while left < right
                invariant
                    left <= right <= count,
                    z == self@,
                    0 <= i < z.count_containers(),
                    z.typecodes[i as int] == RUN_CONTAINER_TYPE,
                    count == z.count(i as int),
                    run_offset == z.offset(RUN_CONTAINER_TYPE, i as int),
                    run_offset + 4 * count <= self.run_zone.len(),
                    probe == z.interval_probe(i as int, index),
                    bisect(probe, 0, count as int) == bisect(probe, left as int, right as int),
                decreases right - left,
            {
                let mid: usize = left + (right - left) / 2;
                let iv: Interval = self.read_interval(run_offset + mid * 4);
                assert(iv == z.intervals(i as int)[mid as int]);
                if index < iv.start {
                    assert(probe(mid as int) > 0);
                    right = mid;
                } else if index > iv.end {
                    assert(probe(mid as int) < 0);
                    left = mid + 1;
                } else {
                    assert(probe(mid as int) == 0);
                    return true;
                }
            }
            false
        } else {
            let ghost probe = z.value_probe(i as int, index);
            let mut left: usize = 0;
            let mut right: usize = count + 1;
            while left < right
                invariant
                    left <= right <= count + 1,
                    z == self@,
                    0 <= i < z.count_containers(),
                    z.typecodes[i as int] == ARRAY_CONTAINER_TYPE,
                    count == z.count(i as int),
                    array_offset == z.offset(ARRAY_CONTAINER_TYPE, i as int),
                    array_offset + 2 * (count + 1) <= self.array_zone.len(),
                    probe == z.value_probe(i as int, index),
                    bisect(probe, 0, count + 1) == bisect(probe, left as int, right as int),
                decreases right - left,
            {
                let mid: usize = left + (right - left) / 2;
                let val: u16 = read_u16(self.array_zone, array_offset + mid * 2);
                assert(val == z.values(i as int)[mid as int]);
                assert(probe(mid as int) == val - index);
                if val < index {
                    left = mid + 1;
                } else if val > index {
                    right = mid;
                } else {
                    return true;
                }
            }
            false
        }
    }
}

} // verus!
