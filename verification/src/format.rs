//! The frozen format: how containers are laid out in bytes, and what a buffer of
//! bytes stands for.
//!
//! A frozen bitmap is the words of the bitset containers, the intervals of the run
//! containers and the values of the array containers, followed by a key, a count and
//! a type code for each container and a header. All integers are little-endian.
use crate::bytes::u16_at;
use crate::bytes::u16_bytes;
use crate::bytes::u32_at;
use crate::bytes::u32_bytes;
use crate::bytes::u64_at;
use crate::bytes::u64_bytes;
use crate::model::bit;
use crate::model::containers_wf;
use crate::model::high;
use crate::model::low;
use crate::model::ContainerModel;
use crate::model::Interval;
use crate::model::StoreModel;
use crate::model::BITMAP_LENGTH;
use crate::search::bisect;
use vstd::prelude::*;

verus! {

/// The cookie in the header that identifies a frozen bitmap.
pub const FROZEN_COOKIE: u32 = 13746;

/// Type code for bitset containers.
pub const BITSET_CONTAINER_TYPE: u8 = 1;

/// Type code for run containers.
pub const RUN_CONTAINER_TYPE: u8 = 2;

/// Type code for array containers.
pub const ARRAY_CONTAINER_TYPE: u8 = 3;

/// The bytes of 16-bit integers, one behind the other.
pub open spec fn values_bytes(s: Seq<u16>) -> Seq<u8> {
    Seq::new(2 * s.len(), |k: int| u16_bytes(s[k / 2] as int)[k % 2])
}

/// The bytes of 64-bit words, one behind the other.
pub open spec fn words_bytes(s: Seq<u64>) -> Seq<u8> {
    Seq::new(8 * s.len(), |k: int| u64_bytes(s[k / 8] as int)[k % 8])
}

/// The bytes of an interval: its start, and its length less one.
pub open spec fn interval_bytes(v: Interval) -> Seq<u8> {
    u16_bytes(v.start as int) + u16_bytes(v.end - v.start)
}

/// The bytes of intervals, one behind the other.
pub open spec fn intervals_bytes(s: Seq<Interval>) -> Seq<u8> {
    Seq::new(4 * s.len(), |k: int| interval_bytes(s[k / 4])[k % 4])
}

/// The bytes that a store takes up in the zone of its kind.
pub open spec fn store_bytes(m: StoreModel) -> Seq<u8> {
    match m {
        StoreModel::Array(s) => values_bytes(s),
        StoreModel::Bitmap(_, words) => words_bytes(words),
        StoreModel::Run(s) => intervals_bytes(s),
    }
}

/// The type code of a store.
pub open spec fn type_code(m: StoreModel) -> u8 {
    match m {
        StoreModel::Array(_) => ARRAY_CONTAINER_TYPE,
        StoreModel::Bitmap(_, _) => BITSET_CONTAINER_TYPE,
        StoreModel::Run(_) => RUN_CONTAINER_TYPE,
    }
}

/// The count that is written for a store: its number of runs, or its number of
/// values less one.
pub open spec fn stored_count(m: StoreModel) -> int {
    match m {
        StoreModel::Array(s) => s.len() - 1,
        StoreModel::Bitmap(len, _) => len - 1,
        StoreModel::Run(s) => s.len() as int,
    }
}

/// The zone that holds the stores with the given type code.
pub open spec fn zone_bytes(ms: Seq<ContainerModel>, code: u8) -> Seq<u8>
    decreases ms.len(),
{
    if ms.len() == 0 {
        Seq::empty()
    } else {
        zone_bytes(ms.drop_last(), code) + if type_code(ms.last().store) == code {
            store_bytes(ms.last().store)
        } else {
            Seq::empty()
        }
    }
}

/// The keys of the containers.
pub open spec fn keys_bytes(ms: Seq<ContainerModel>) -> Seq<u8> {
    Seq::new(2 * ms.len(), |k: int| u16_bytes(ms[k / 2].key as int)[k % 2])
}

/// The counts of the containers.
pub open spec fn counts_bytes(ms: Seq<ContainerModel>) -> Seq<u8> {
    Seq::new(2 * ms.len(), |k: int| u16_bytes(stored_count(ms[k / 2].store))[k % 2])
}

/// The type codes of the containers.
pub open spec fn codes_bytes(ms: Seq<ContainerModel>) -> Seq<u8> {
    Seq::new(ms.len(), |k: int| type_code(ms[k].store))
}

/// The header: the number of containers above the cookie.
pub open spec fn header(n: int) -> int {
    n * 0x8000 + FROZEN_COOKIE
}

/// The three zones.
pub open spec fn data_bytes(ms: Seq<ContainerModel>) -> Seq<u8> {
    zone_bytes(ms, BITSET_CONTAINER_TYPE) + zone_bytes(ms, RUN_CONTAINER_TYPE) + zone_bytes(
        ms,
        ARRAY_CONTAINER_TYPE,
    )
}

/// The frozen form of containers, with further bytes between the zones and the metadata.
pub open spec fn padded_bytes(ms: Seq<ContainerModel>, pad: Seq<u8>) -> Seq<u8> {
    data_bytes(ms) + pad + keys_bytes(ms) + counts_bytes(ms) + codes_bytes(ms) + u32_bytes(
        header(ms.len() as int),
    )
}

/// The frozen form of containers.
pub open spec fn frozen_bytes(ms: Seq<ContainerModel>) -> Seq<u8> {
    data_bytes(ms) + keys_bytes(ms) + counts_bytes(ms) + codes_bytes(ms) + u32_bytes(
        header(ms.len() as int),
    )
}

/// Whether the fields of the format have room for a store.
pub open spec fn store_fits(m: StoreModel) -> bool {
    match m {
        StoreModel::Array(s) => 1 <= s.len() <= 0x1_0000,
        StoreModel::Bitmap(len, words) => 1 <= len <= 0x1_0000 && words.len() == BITMAP_LENGTH,
        StoreModel::Run(s) => s.len() < 0x1_0000 && forall|i: int|
            0 <= i < s.len() ==> (#[trigger] s[i]).start <= s[i].end,
    }
}

/// Whether the fields of the format have room for the containers.
pub open spec fn fits(ms: Seq<ContainerModel>) -> bool {
    &&& ms.len() < 0x2_0000
    &&& forall|i: int| 0 <= i < ms.len() ==> store_fits((#[trigger] ms[i]).store)
}

/// How many bytes of the zone for `code` belong to a container with type code `own`
/// and the given count.
pub open spec fn container_size(code: u8, own: u8, count: int) -> int {
    if own != code {
        0
    } else if code == BITSET_CONTAINER_TYPE {
        8 * BITMAP_LENGTH
    } else if code == RUN_CONTAINER_TYPE {
        4 * count
    } else {
        2 * (count + 1)
    }
}

/// The interval whose bytes start at `p`. One that would run past the last 16-bit
/// integer ends there.
pub open spec fn interval_at(zone: Seq<u8>, p: int) -> Interval {
    let end = u16_at(zone, p) + u16_at(zone, p + 2);
    Interval {
        start: u16_at(zone, p) as u16,
        end: if end <= u16::MAX {
            end as u16
        } else {
            u16::MAX
        },
    }
}

/// The parts of a frozen bitmap.
pub struct Zones {
    pub keys: Seq<u8>,
    pub counts: Seq<u8>,
    pub typecodes: Seq<u8>,
    pub bitset_zone: Seq<u8>,
    pub run_zone: Seq<u8>,
    pub array_zone: Seq<u8>,
}

/// Where the container with index `i` starts in the zone for `code`.
pub open spec fn zone_offset(typecodes: Seq<u8>, counts: Seq<u8>, code: u8, i: int) -> int
    decreases i,
{
    if i <= 0 {
        0
    } else {
        zone_offset(typecodes, counts, code, i - 1) + container_size(
            code,
            typecodes[i - 1],
            u16_at(counts, 2 * (i - 1)),
        )
    }
}

/// Whether a type code is one of the three.
pub open spec fn known_code(code: u8) -> bool {
    code == BITSET_CONTAINER_TYPE || code == RUN_CONTAINER_TYPE || code == ARRAY_CONTAINER_TYPE
}

impl Zones {
    /// The number of containers.
    pub open spec fn count_containers(self) -> nat {
        self.typecodes.len()
    }

    /// The key of a container.
    pub open spec fn key(self, i: int) -> u16 {
        u16_at(self.keys, 2 * i) as u16
    }

    /// The count of a container.
    pub open spec fn count(self, i: int) -> int {
        u16_at(self.counts, 2 * i)
    }

    /// Where a container starts in the zone for `code`.
    pub open spec fn offset(self, code: u8, i: int) -> int {
        zone_offset(self.typecodes, self.counts, code, i)
    }

    /// Whether the parts fit together: a key and a count for every type code, no type
    /// code but the three, and zones as long as the counts ask for.
    pub open spec fn wf(self) -> bool {
        let n = self.count_containers() as int;
        &&& n < 0x2_0000
        &&& self.keys.len() == 2 * n
        &&& self.counts.len() == 2 * n
        &&& forall|i: int| 0 <= i < n ==> known_code(#[trigger] self.typecodes[i])
        &&& self.bitset_zone.len() == self.offset(BITSET_CONTAINER_TYPE, n)
        &&& self.run_zone.len() == self.offset(RUN_CONTAINER_TYPE, n)
        &&& self.array_zone.len() == self.offset(ARRAY_CONTAINER_TYPE, n)
    }

    /// The words of a bitset container.
    pub open spec fn words(self, i: int) -> Seq<u64> {
        Seq::new(
            BITMAP_LENGTH as nat,
            |j: int|
                u64_at(self.bitset_zone, self.offset(BITSET_CONTAINER_TYPE, i) + 8 * j) as u64,
        )
    }

    /// The intervals of a run container.
    pub open spec fn intervals(self, i: int) -> Seq<Interval> {
        Seq::new(
            self.count(i) as nat,
            |j: int| interval_at(self.run_zone, self.offset(RUN_CONTAINER_TYPE, i) + 4 * j),
        )
    }

    /// The values of an array container.
    pub open spec fn values(self, i: int) -> Seq<u16> {
        Seq::new(
            (self.count(i) + 1) as nat,
            |j: int|
                u16_at(self.array_zone, self.offset(ARRAY_CONTAINER_TYPE, i) + 2 * j) as u16,
        )
    }

    /// The store of a container.
    pub open spec fn store(self, i: int) -> StoreModel {
        if self.typecodes[i] == BITSET_CONTAINER_TYPE {
            StoreModel::Bitmap((self.count(i) + 1) as u64, self.words(i))
        } else if self.typecodes[i] == RUN_CONTAINER_TYPE {
            StoreModel::Run(self.intervals(i))
        } else {
            StoreModel::Array(self.values(i))
        }
    }

    /// The containers.
    pub open spec fn containers(self) -> Seq<ContainerModel> {
        Seq::new(
            self.count_containers(),
            |i: int| ContainerModel { key: self.key(i), store: self.store(i) },
        )
    }

    /// Whether the interval with index `j` of a run container ends by the last 16-bit integer.
    pub open spec fn interval_fits(self, i: int, j: int) -> bool {
        let p = self.offset(RUN_CONTAINER_TYPE, i) + 4 * j;
        u16_at(self.run_zone, p) + u16_at(self.run_zone, p + 2) <= u16::MAX
    }

    /// Whether no interval runs past the last 16-bit integer.
    pub open spec fn unsaturated(self) -> bool {
        forall|i: int, j: int|
            0 <= i < self.count_containers() && self.typecodes[i] == RUN_CONTAINER_TYPE && 0 <= j
                < self.count(i) ==> #[trigger] self.interval_fits(i, j)
    }

    /// How many integers the first `n` intervals of a run container say that they cover.
    pub open spec fn run_total(self, i: int, n: int) -> int
        decreases n,
    {
        if n <= 0 {
            0
        } else {
            self.run_total(i, n - 1) + u16_at(
                self.run_zone,
                self.offset(RUN_CONTAINER_TYPE, i) + 4 * (n - 1) + 2,
            ) + 1
        }
    }

    /// How many integers the first `n` containers say that they hold.
    pub open spec fn total(self, n: int) -> int
        decreases n,
    {
        if n <= 0 {
            0
        } else {
            self.total(n - 1) + if self.typecodes[n - 1] == RUN_CONTAINER_TYPE {
                self.run_total(n - 1, self.count(n - 1))
            } else {
                self.count(n - 1) + 1
            }
        }
    }

    /// How the keys compare to `key`.
    pub open spec fn key_probe(self, key: u16) -> spec_fn(int) -> int {
        |i: int| self.key(i) - key
    }

    /// How the intervals of a run container compare to `x`.
    pub open spec fn interval_probe(self, i: int, x: u16) -> spec_fn(int) -> int {
        |j: int|
            if x < self.intervals(i)[j].start {
                1
            } else if x > self.intervals(i)[j].end {
                -1
            } else {
                0
            }
    }

    /// How the values of an array container compare to `x`.
    pub open spec fn value_probe(self, i: int, x: u16) -> spec_fn(int) -> int {
        |j: int| self.values(i)[j] - x
    }

    /// Whether a look-up of `x` in a container comes out right: at its bit, or by bisection
    /// of its intervals or values.
    pub open spec fn container_finds(self, i: int, x: u16) -> bool {
        if self.typecodes[i] == BITSET_CONTAINER_TYPE {
            bit(self.words(i), x)
        } else if self.typecodes[i] == RUN_CONTAINER_TYPE {
            bisect(self.interval_probe(i, x), 0, self.count(i)) is Some
        } else {
            bisect(self.value_probe(i, x), 0, self.count(i) + 1) is Some
        }
    }

    /// Whether a look-up of `v` comes out right: bisection of the keys ends at a container,
    /// and the look-up in that container comes out right.
    pub open spec fn finds(self, v: u32) -> bool {
        match bisect(self.key_probe(high(v)), 0, self.count_containers() as int) {
            Some(i) => self.container_finds(i, low(v)),
            None => false,
        }
    }

    /// Whether the parts are those of a bitmap in order.
    pub open spec fn valid(self) -> bool {
        &&& self.wf()
        &&& self.unsaturated()
        &&& containers_wf(self.containers())
    }
}

/// Whether a buffer ends in a header with the cookie and is long enough for the keys,
/// counts and type codes of as many containers as the header says.
pub open spec fn has_metadata(s: Seq<u8>) -> bool {
    &&& s.len() >= 4
    &&& u32_at(s, s.len() - 4) % 0x8000 == FROZEN_COOKIE
    &&& s.len() >= 4 + 5 * (u32_at(s, s.len() - 4) / 0x8000)
}

/// The number of containers that the header of a buffer says.
pub open spec fn header_count(s: Seq<u8>) -> int {
    u32_at(s, s.len() - 4) / 0x8000
}

/// The parts of a buffer with metadata. The zones stand at its start, one behind the
/// other, and the metadata at its end.
pub open spec fn split_zones(s: Seq<u8>) -> Zones {
    let n = header_count(s);
    let end = s.len() - 4;
    let counts = s.subrange(end - 3 * n, end - n);
    let typecodes = s.subrange(end - n, end);
    let b = zone_offset(typecodes, counts, BITSET_CONTAINER_TYPE, n);
    let r = b + zone_offset(typecodes, counts, RUN_CONTAINER_TYPE, n);
    let a = r + zone_offset(typecodes, counts, ARRAY_CONTAINER_TYPE, n);
    Zones {
        keys: s.subrange(end - 5 * n, end - 3 * n),
        counts,
        typecodes,
        bitset_zone: s.subrange(0, b),
        run_zone: s.subrange(b, r),
        array_zone: s.subrange(r, a),
    }
}

/// How many bytes the zones of a buffer with metadata take up.
pub open spec fn data_len(s: Seq<u8>) -> int {
    let n = header_count(s);
    let end = s.len() - 4;
    let counts = s.subrange(end - 3 * n, end - n);
    let typecodes = s.subrange(end - n, end);
    zone_offset(typecodes, counts, BITSET_CONTAINER_TYPE, n) + zone_offset(
        typecodes,
        counts,
        RUN_CONTAINER_TYPE,
        n,
    ) + zone_offset(typecodes, counts, ARRAY_CONTAINER_TYPE, n)
}

/// Whether a buffer holds a frozen bitmap: it has metadata, every type code is one of
/// the three, and it is long enough for the zones.
pub open spec fn is_frozen(s: Seq<u8>) -> bool {
    &&& has_metadata(s)
    &&& forall|k: int|
        s.len() - 4 - header_count(s) <= k < s.len() - 4 ==> known_code(#[trigger] s[k])
    &&& s.len() >= data_len(s) + 5 * header_count(s) + 4
}

/// What a buffer stands for.
pub open spec fn parse(s: Seq<u8>) -> Option<Zones> {
    if is_frozen(s) {
        Some(split_zones(s))
    } else {
        None
    }
}

} // verus!
