//! What frozen bitmaps are, told by their single bytes.
use crate::bytes::u16_at;
use crate::bytes::u16_bytes;
use crate::bytes::u32_at;
use crate::bytes::u32_bytes;
use crate::bytes::u64_at;
use crate::bytes::u64_bytes;
use crate::format::fits;
use crate::format::frozen_bytes;
use crate::format::interval_at;
use crate::format::known_code;
use crate::format::padded_bytes;
use crate::format::parse;
use crate::format::split_zones;
use crate::format::Zones;
use crate::format::RUN_CONTAINER_TYPE;
use crate::laws::law_round_trip;
use crate::model::bit;
use crate::model::word_bit;
use crate::model::ContainerModel;
use crate::model::StoreModel;
use crate::round_trip::lemma_parse_padded;
use crate::round_trip::zones_of;
use crate::zones::lemma_container_inside;
use crate::zones::lemma_parse_wf;
use vstd::prelude::*;

verus! {

/// The number in two bytes, the lesser one first.
pub open spec fn two_bytes(s: Seq<u8>, i: int) -> int {
    s[i] + 256 * s[i + 1]
}

/// The number in the last four bytes, the least one first.
pub open spec fn last_four(s: Seq<u8>) -> int {
    let end = s.len() as int;
    s[end - 4] + 256 * s[end - 3] + 65536 * s[end - 2] + 16777216 * s[end - 1]
}

/// Whether bit `b` of a byte is set, counted from the least.
pub open spec fn byte_bit(v: u8, b: u8) -> bool {
    (v >> b) & 1u8 == 1u8
}

/// How many containers the end of a buffer speaks of.
pub open spec fn containers_told(s: Seq<u8>) -> int {
    last_four(s) / 32768
}

/// The type code of a container, before the last four bytes.
pub open spec fn code_told(s: Seq<u8>, i: int) -> u8 {
    s[s.len() - 4 - containers_told(s) + i]
}

/// The count of a container, before the type codes.
pub open spec fn count_told(s: Seq<u8>, i: int) -> int {
    two_bytes(s, s.len() - 4 - 3 * containers_told(s) + 2 * i)
}

/// The key of a container, before the counts.
pub open spec fn key_told(s: Seq<u8>, i: int) -> int {
    two_bytes(s, s.len() - 4 - 5 * containers_told(s) + 2 * i)
}

/// How many bytes the first `n` containers with a type code take up: 8192 with the code 1, four
/// for each interval with the code 2, and two for each value with the code 3.
pub open spec fn bytes_told(s: Seq<u8>, code: u8, n: int) -> int
    decreases n,
{
    if n <= 0 {
        0
    } else {
        bytes_told(s, code, n - 1) + if code_told(s, n - 1) != code {
            0
        } else if code == 1 {
            8192
        } else if code == 2 {
            4 * count_told(s, n - 1)
        } else {
            2 * count_told(s, n - 1) + 2
        }
    }
}

/// Where the data of a container stand: all with the code 1 first, then all with the code 2, then
/// all with the code 3.
pub open spec fn place_told(s: Seq<u8>, i: int) -> int {
    let n = containers_told(s);
    if code_told(s, i) == 1 {
        bytes_told(s, 1, i)
    } else if code_told(s, i) == 2 {
        bytes_told(s, 1, n) + bytes_told(s, 2, i)
    } else {
        bytes_told(s, 1, n) + bytes_told(s, 2, n) + bytes_told(s, 3, i)
    }
}

/// Whether a buffer is long enough for what its end speaks of, and speaks of nothing unknown.
pub open spec fn frozen_told(s: Seq<u8>) -> bool {
    let n = containers_told(s);
    &&& s.len() >= 4
    &&& last_four(s) % 32768 == 13746
    &&& s.len() >= 4 + 5 * n
    &&& forall|i: int| 0 <= i < n ==> 1 <= #[trigger] code_told(s, i) <= 3
    &&& s.len() >= 4 + 5 * n + bytes_told(s, 1, n) + bytes_told(s, 2, n) + bytes_told(s, 3, n)
}

/// Whether the bytes of a container say that it has the given store.
pub open spec fn store_told(s: Seq<u8>, i: int, store: StoreModel) -> bool {
    let p = place_told(s, i);
    match store {
        StoreModel::Bitmap(len, words) => {
            &&& code_told(s, i) == 1
            &&& len == count_told(s, i) + 1
            &&& words.len() == 1024
            &&& forall|x: u16|
                #![trigger store.elements().contains(x)]
                store.elements().contains(x) <==> byte_bit(s[p + x as int / 8], (x % 8) as u8)
        },
        StoreModel::Run(runs) => {
            &&& code_told(s, i) == 2
            &&& runs.len() == count_told(s, i)
            &&& forall|j: int|
                0 <= j < runs.len() ==> {
                    let start = two_bytes(s, p + 4 * j);
                    let end = start + two_bytes(s, p + 4 * j + 2);
                    (#[trigger] runs[j]).start == start && runs[j].end == if end < 65535 {
                        end
                    } else {
                        65535
                    }
                }
        },
        StoreModel::Array(values) => {
            &&& code_told(s, i) == 3
            &&& values.len() == count_told(s, i) + 1
            &&& forall|j: int|
                0 <= j < values.len() ==> #[trigger] values[j] == two_bytes(s, p + 2 * j)
        },
    }
}

proof fn lemma_halves_bit(lo: u64, hi: u64, c: u64)
    by (bit_vector)
    requires
        lo < 0x1_0000_0000,
        hi < 0x1_0000_0000,
        c < 64,
    ensures
        c < 32 ==> (((lo + 0x1_0000_0000 * hi) as u64) >> c) & 1 == (lo >> c) & 1,
        c >= 32 ==> (((lo + 0x1_0000_0000 * hi) as u64) >> c) & 1 == (hi >> ((c - 32) as u64)) & 1,
{
}

proof fn lemma_bytes_bit(b0: u64, b1: u64, b2: u64, b3: u64, c: u64)
    by (bit_vector)
    requires
        b0 < 256,
        b1 < 256,
        b2 < 256,
        b3 < 256,
        c < 32,
    ensures
        c < 8 ==> (((b0 + 256 * b1 + 65536 * b2 + 16777216 * b3) as u64) >> c) & 1 == (b0 >> c) & 1,
        8 <= c < 16 ==> (((b0 + 256 * b1 + 65536 * b2 + 16777216 * b3) as u64) >> c) & 1 == (b1 >> (
        (c - 8) as u64)) & 1,
        16 <= c < 24 ==> (((b0 + 256 * b1 + 65536 * b2 + 16777216 * b3) as u64) >> c) & 1 == (b2
            >> ((c - 16) as u64)) & 1,
        24 <= c ==> (((b0 + 256 * b1 + 65536 * b2 + 16777216 * b3) as u64) >> c) & 1 == (b3 >> ((c
            - 24) as u64)) & 1,
{
}

proof fn lemma_byte_wide(v: u8, b: u8)
    by (bit_vector)
    requires
        b < 8,
    ensures
        (v >> b) & 1u8 == 1u8 <==> ((v as u64) >> (b as u64)) & 1 == 1,
{
}

/// The bits of the word in eight bytes are those of the bytes, the least byte first.
proof fn lemma_word_bytes(s: Seq<u8>, i: int, c: int)
    requires
        0 <= i,
        i + 8 <= s.len(),
        0 <= c < 64,
    ensures
        word_bit(u64_at(s, i) as u64, c) <==> byte_bit(s[i + c / 8], (c % 8) as u8),
{
    let lo = u32_at(s, i) as u64;
    let hi = u32_at(s, i + 4) as u64;
    lemma_halves_bit(lo, hi, c as u64);
    let at = if c < 32 {
        i
    } else {
        i + 4
    };
    let d = if c < 32 {
        c
    } else {
        c - 32
    };
    lemma_bytes_bit(s[at] as u64, s[at + 1] as u64, s[at + 2] as u64, s[at + 3] as u64, d as u64);
    lemma_byte_wide(s[i + c / 8], (c % 8) as u8);
    assert(i + c / 8 == at + d / 8 && c % 8 == d % 8);
}

/// What is told of a buffer with metadata is what stands in its parts.
proof fn lemma_told(s: Seq<u8>, z: Zones, n: int)
    requires
        s.len() >= 4 + 5 * n,
        n == containers_told(s),
        0 <= n,
        z.typecodes == s.subrange(s.len() - 4 - n, s.len() - 4),
        z.counts == s.subrange(s.len() - 4 - 3 * n, s.len() - 4 - n),
        z.keys == s.subrange(s.len() - 4 - 5 * n, s.len() - 4 - 3 * n),
    ensures
        forall|i: int| 0 <= i < n ==> #[trigger] z.typecodes[i] == code_told(s, i),
        forall|i: int| 0 <= i < n ==> #[trigger] z.count(i) == count_told(s, i),
        forall|i: int| 0 <= i < n ==> #[trigger] z.key(i) == key_told(s, i),
{
}

/// Offsets are what is told of the containers before.
proof fn lemma_offset_told(s: Seq<u8>, z: Zones, code: u8, i: int, n: int)
    requires
        s.len() >= 4 + 5 * n,
        n == containers_told(s),
        0 <= i <= n,
        1 <= code <= 3,
        z.typecodes == s.subrange(s.len() - 4 - n, s.len() - 4),
        z.counts == s.subrange(s.len() - 4 - 3 * n, s.len() - 4 - n),
        z.keys == s.subrange(s.len() - 4 - 5 * n, s.len() - 4 - 3 * n),
    ensures
        z.offset(code, i) == bytes_told(s, code, i),
    decreases i,
{
    if i > 0 {
        lemma_offset_told(s, z, code, i - 1, n);
        lemma_told(s, z, n);
        assert(z.typecodes[i - 1] == code_told(s, i - 1));
        assert(z.count(i - 1) == count_told(s, i - 1));
    }
}

/// **What is a frozen bitmap.** A buffer is opened exactly where its last four bytes hold the
/// cookie and the number of containers, every type code is known, and it is long enough.
pub proof fn law_opened(s: Seq<u8>)
    ensures
        parse(s) is Some <==> frozen_told(s),
        parse(s) matches Some(z) ==> z.containers().len() == containers_told(s),
{
    if s.len() >= 4 {
        let n = containers_told(s);
        assert(u32_at(s, s.len() - 4) == last_four(s));
        if s.len() >= 4 + 5 * n {
            let z = split_zones(s);
            lemma_told(s, z, n);
            lemma_offset_told(s, z, 1, n, n);
            lemma_offset_told(s, z, 2, n, n);
            lemma_offset_told(s, z, 3, n, n);
            let end = s.len() - 4;
            if parse(s) is Some {
                assert forall|i: int| 0 <= i < n implies 1 <= #[trigger] code_told(s, i) <= 3 by {
                    assert(known_code(s[end - n + i]));
                }
            }
            if frozen_told(s) {
                assert forall|k: int| end - n <= k < end implies known_code(#[trigger] s[k]) by {
                    assert(1 <= code_told(s, k - (end - n)) <= 3);
                }
            }
        }
    }
}

/// **What a container is.** The key, the kind and the values of each container of a frozen bitmap
/// stand in its bytes, all numbers with the lesser byte first, and the bits of a bitset in the
/// order of its bytes.
pub proof fn law_container_told(s: Seq<u8>, i: int)
    requires
        parse(s) is Some,
        0 <= i < containers_told(s),
    ensures
        ({
            let c = parse(s)->0.containers()[i];
            c.key == key_told(s, i) && store_told(s, i, c.store)
        }),
{
    let z = parse(s)->0;
    let n = containers_told(s);
    assert(u32_at(s, s.len() - 4) == last_four(s));
    lemma_parse_wf(s);
    lemma_container_inside(z, i);
    lemma_told(s, z, n);
    lemma_offset_told(s, z, 1, n, n);
    lemma_offset_told(s, z, 2, n, n);
    lemma_offset_told(s, z, 3, n, n);
    lemma_offset_told(s, z, 1, i, n);
    lemma_offset_told(s, z, 2, i, n);
    lemma_offset_told(s, z, 3, i, n);
    assert(z.typecodes[i] == code_told(s, i));
    assert(z.count(i) == count_told(s, i));
    assert(z.key(i) == key_told(s, i));
    let p = place_told(s, i);
    let store = z.containers()[i].store;
    match store {
        StoreModel::Bitmap(len, words) => {
            assert(words == z.words(i));
            assert forall|x: u16|
                #![trigger store.elements().contains(x)]
                store.elements().contains(x) <==> byte_bit(
                    s[p + x as int / 8],
                    (x % 8) as u8,
                ) by {
                let j = x as int / 64;
                let c = x as int % 64;
                assert(words[j] == u64_at(z.bitset_zone, p + 8 * j) as u64);
                lemma_word_bytes(z.bitset_zone, p + 8 * j, c);
                assert(store.elements().contains(x) <==> bit(words, x));
                assert(8 * j + c / 8 == x as int / 8);
                assert(c % 8 == x as int % 8);
                assert(z.bitset_zone[p + x as int / 8] == s[p + x as int / 8]);
            }
        },
        StoreModel::Run(runs) => {
            assert(runs == z.intervals(i));
            let b = bytes_told(s, 1, n);
            assert forall|j: int| 0 <= j < runs.len() implies {
                let start = two_bytes(s, p + 4 * j);
                let end = start + two_bytes(s, p + 4 * j + 2);
                (#[trigger] runs[j]).start == start && runs[j].end == if end < 65535 {
                    end
                } else {
                    65535
                }
            } by {
                assert(runs[j] == interval_at(z.run_zone, p - b + 4 * j));
                assert(z.run_zone[p - b + 4 * j] == s[p + 4 * j]);
                assert(z.run_zone[p - b + 4 * j + 1] == s[p + 4 * j + 1]);
                assert(z.run_zone[p - b + 4 * j + 2] == s[p + 4 * j + 2]);
                assert(z.run_zone[p - b + 4 * j + 3] == s[p + 4 * j + 3]);
            }
        },
        StoreModel::Array(values) => {
            assert(values == z.values(i));
            let b = bytes_told(s, 1, n) + bytes_told(s, 2, n);
            assert forall|j: int| 0 <= j < values.len() implies #[trigger] values[j] == two_bytes(
                s,
                p + 2 * j,
            ) by {
                assert(values[j] == u16_at(z.array_zone, p - b + 2 * j) as u16);
                assert(z.array_zone[p - b + 2 * j] == s[p + 2 * j]);
                assert(z.array_zone[p - b + 2 * j + 1] == s[p + 2 * j + 1]);
            }
        },
    }
}

/// What stands at the end of a buffer that parses.
proof fn lemma_ends(s: Seq<u8>, z: Zones)
    requires
        parse(s) == Some(z),
    ensures
        ({
            let n = containers_told(s);
            &&& 0 <= n
            &&& s.len() >= 4 + 5 * n
            &&& n == z.count_containers()
            &&& z.typecodes == s.subrange(s.len() - 4 - n, s.len() - 4)
            &&& z.counts == s.subrange(s.len() - 4 - 3 * n, s.len() - 4 - n)
            &&& z.keys == s.subrange(s.len() - 4 - 5 * n, s.len() - 4 - 3 * n)
        }),
{
    assert(u32_at(s, s.len() - 4) == last_four(s));
}

/// Where no interval is cut off, the lengths of intervals stand in the bytes.
proof fn lemma_lengths_told(s: Seq<u8>, z: Zones, i: int)
    requires
        parse(s) == Some(z),
        z.unsaturated(),
        0 <= i < containers_told(s),
        z.typecodes[i] == RUN_CONTAINER_TYPE,
    ensures
        forall|j: int|
            0 <= j < z.intervals(i).len() ==> (#[trigger] z.intervals(i)[j]).end - z.intervals(
                i,
            )[j].start == two_bytes(s, place_told(s, i) + 4 * j + 2),
{
    let n = containers_told(s);
    let p = place_told(s, i);
    lemma_ends(s, z);
    lemma_parse_wf(s);
    lemma_container_inside(z, i);
    lemma_told(s, z, n);
    lemma_offset_told(s, z, 1, n, n);
    lemma_offset_told(s, z, 2, n, n);
    lemma_offset_told(s, z, 2, i, n);
    let b = bytes_told(s, 1, n);
    let runs = z.intervals(i);
    assert(z.typecodes[i] == code_told(s, i));
    assert forall|j: int| 0 <= j < runs.len() implies (#[trigger] runs[j]).end - runs[j].start
        == two_bytes(s, p + 4 * j + 2) by {
        assert(z.interval_fits(i, j));
        assert(runs[j] == interval_at(z.run_zone, p - b + 4 * j));
        assert(z.run_zone[p - b + 4 * j] == s[p + 4 * j]);
        assert(z.run_zone[p - b + 4 * j + 1] == s[p + 4 * j + 1]);
        assert(z.run_zone[p - b + 4 * j + 2] == s[p + 4 * j + 2]);
        assert(z.run_zone[p - b + 4 * j + 3] == s[p + 4 * j + 3]);
    }
}

/// What a buffer says of the containers that it stands for.
proof fn lemma_stands_for(s: Seq<u8>, z: Zones, ms: Seq<ContainerModel>, i: int)
    requires
        parse(s) == Some(z),
        z.containers() == ms,
        z.unsaturated(),
        0 <= i < ms.len(),
    ensures
        containers_told(s) == ms.len(),
        key_told(s, i) == ms[i].key,
        store_told(s, i, ms[i].store),
        ms[i].store matches StoreModel::Run(runs) ==> forall|j: int|
            0 <= j < runs.len() ==> (#[trigger] runs[j]).end - runs[j].start == two_bytes(
                s,
                place_told(s, i) + 4 * j + 2,
            ),
{
    lemma_ends(s, z);
    law_container_told(s, i);
    assert(z.containers()[i].store == z.store(i));
    if z.typecodes[i] == RUN_CONTAINER_TYPE {
        lemma_lengths_told(s, z, i);
    }
}

/// **What is written.** The frozen form of containers says how many there are, and of each its
/// key, its kind and its values.
pub proof fn law_written(ms: Seq<ContainerModel>, i: int)
    requires
        fits(ms),
        0 <= i < ms.len(),
    ensures
        ({
            let s = frozen_bytes(ms);
            let p = place_told(s, i);
            &&& containers_told(s) == ms.len()
            &&& key_told(s, i) == ms[i].key
            &&& store_told(s, i, ms[i].store)
            &&& ms[i].store matches StoreModel::Run(runs) ==> forall|j: int|
                0 <= j < runs.len() ==> (#[trigger] runs[j]).end - runs[j].start == two_bytes(
                    s,
                    p + 4 * j + 2,
                )
        }),
{
    law_round_trip(ms);
    lemma_stands_for(frozen_bytes(ms), parse(frozen_bytes(ms))->0, ms, i);
}

/// The frozen form of containers is as long as its parts.
proof fn lemma_written_len(ms: Seq<ContainerModel>)
    ensures
        ({
            let z = zones_of(ms);
            &&& frozen_bytes(ms).len() == z.bitset_zone.len() + z.run_zone.len()
                + z.array_zone.len() + 5 * ms.len() + 4
            &&& z.count_containers() == ms.len()
        }),
{
}

/// **All that is written.** The frozen form of containers says how many there are, and is as long
/// as what it says, with no byte more.
pub proof fn law_written_whole(ms: Seq<ContainerModel>)
    requires
        fits(ms),
    ensures
        ({
            let s = frozen_bytes(ms);
            let n = ms.len() as int;
            &&& frozen_told(s)
            &&& containers_told(s) == n
            &&& s.len() == 4 + 5 * n + bytes_told(s, 1, n) + bytes_told(s, 2, n) + bytes_told(
                s,
                3,
                n,
            )
        }),
{
    let s = frozen_bytes(ms);
    let n = ms.len() as int;
    let z = zones_of(ms);
    lemma_parse_padded(ms, Seq::empty());
    assert(padded_bytes(ms, Seq::empty()) =~= s);
    lemma_written_len(ms);
    lemma_ends(s, z);
    law_opened(s);
    lemma_offset_told(s, z, 1, n, n);
    lemma_offset_told(s, z, 2, n, n);
    lemma_offset_told(s, z, 3, n, n);
}

/// **Lesser bytes first.** Numbers are written and read byte by byte, the least byte first.
pub proof fn law_byte_order(s: Seq<u8>, i: int, v: u64)
    requires
        0 <= i,
        i + 8 <= s.len(),
    ensures
        u16_at(s, i) == s[i] + 256 * s[i + 1],
        u32_at(s, i) == s[i] + 256 * s[i + 1] + 65536 * s[i + 2] + 16777216 * s[i + 3],
        u64_at(s, i) == u32_at(s, i) + 4294967296 * (s[i + 4] + 256 * s[i + 5] + 65536 * s[i + 6]
            + 16777216 * s[i + 7]),
        v <= u16::MAX ==> ({
            let t = u16_bytes(v as int);
            t.len() == 2 && t[0] + 256 * t[1] == v
        }),
        v <= u32::MAX ==> ({
            let t = u32_bytes(v as int);
            t.len() == 4 && t[0] + 256 * t[1] + 65536 * t[2] + 16777216 * t[3] == v
        }),
        ({
            let t = u64_bytes(v as int);
            t.len() == 8 && t[0] + 256 * t[1] + 65536 * t[2] + 16777216 * t[3] + 4294967296 * (t[4]
                + 256 * t[5] + 65536 * t[6] + 16777216 * t[7]) == v
        }),
{
}

/// How many integers the bytes of the first `m` intervals at `p` speak of.
pub open spec fn intervals_told(s: Seq<u8>, p: int, m: int) -> int
    decreases m,
{
    if m <= 0 {
        0
    } else {
        intervals_told(s, p, m - 1) + two_bytes(s, p + 4 * (m - 1) + 2) + 1
    }
}

/// How many integers the bytes of the first `n` containers speak of.
pub open spec fn integers_told(s: Seq<u8>, n: int) -> int
    decreases n,
{
    if n <= 0 {
        0
    } else {
        integers_told(s, n - 1) + if code_told(s, n - 1) == 2 {
            intervals_told(s, place_told(s, n - 1), count_told(s, n - 1))
        } else {
            count_told(s, n - 1) + 1
        }
    }
}

proof fn lemma_intervals_told(s: Seq<u8>, i: int, m: int)
    requires
        parse(s) is Some,
        0 <= i < containers_told(s),
        code_told(s, i) == 2,
        0 <= m <= count_told(s, i),
    ensures
        parse(s)->0.run_total(i, m) == intervals_told(s, place_told(s, i), m),
    decreases m,
{
    if m > 0 {
        lemma_intervals_told(s, i, m - 1);
        let z = parse(s)->0;
        let n = containers_told(s);
        let p = place_told(s, i);
        let b = bytes_told(s, 1, n);
        assert(u32_at(s, s.len() - 4) == last_four(s));
        lemma_parse_wf(s);
        lemma_container_inside(z, i);
        lemma_told(s, z, n);
        lemma_offset_told(s, z, 1, n, n);
        lemma_offset_told(s, z, 2, n, n);
        lemma_offset_told(s, z, 2, i, n);
        assert(z.typecodes[i] == code_told(s, i));
        assert(z.count(i) == count_told(s, i));
        assert(z.run_zone[p - b + 4 * (m - 1) + 2] == s[p + 4 * (m - 1) + 2]);
        assert(z.run_zone[p - b + 4 * (m - 1) + 3] == s[p + 4 * (m - 1) + 3]);
    }
}

/// **What is counted.** The count of a frozen bitmap is the sum of what the bytes of its
/// containers speak of, in order or not: of an interval its length, of other containers their
/// count.
pub proof fn law_counted(s: Seq<u8>, n: int)
    requires
        parse(s) is Some,
        0 <= n <= containers_told(s),
    ensures
        parse(s)->0.total(n) == integers_told(s, n),
    decreases n,
{
    if n > 0 {
        law_counted(s, n - 1);
        let z = parse(s)->0;
        let all = containers_told(s);
        assert(u32_at(s, s.len() - 4) == last_four(s));
        lemma_told(s, z, all);
        assert(z.typecodes[n - 1] == code_told(s, n - 1));
        assert(z.count(n - 1) == count_told(s, n - 1));
        if code_told(s, n - 1) == 2 {
            lemma_intervals_told(s, n - 1, count_told(s, n - 1));
        }
    }
}

} // verus!
