//! Reading a frozen bitmap gives back the containers that were written.
use crate::bytes::lemma_u16_bytes_at;
use crate::bytes::lemma_u16_round_trip;
use crate::bytes::lemma_u32_round_trip;
use crate::bytes::lemma_u64_bytes_at;
use crate::bytes::lemma_u64_round_trip;
use crate::bytes::u16_at;
use crate::bytes::u16_bytes;
use crate::bytes::u32_bytes;
use crate::bytes::u64_at;
use crate::bytes::u64_bytes;
use crate::format::codes_bytes;
use crate::format::container_size;
use crate::format::counts_bytes;
use crate::format::data_bytes;
use crate::format::fits;
use crate::format::header;
use crate::format::header_count;
use crate::format::interval_at;
use crate::format::interval_bytes;
use crate::format::intervals_bytes;
use crate::format::keys_bytes;
use crate::format::known_code;
use crate::format::padded_bytes;
use crate::format::parse;
use crate::format::split_zones;
use crate::format::store_bytes;
use crate::format::store_fits;
use crate::format::stored_count;
use crate::format::type_code;
use crate::format::values_bytes;
use crate::format::words_bytes;
use crate::format::zone_bytes;
use crate::format::zone_offset;
use crate::format::Zones;
use crate::format::ARRAY_CONTAINER_TYPE;
use crate::format::BITSET_CONTAINER_TYPE;
use crate::format::RUN_CONTAINER_TYPE;
use crate::model::ContainerModel;
use crate::model::Interval;
use crate::model::StoreModel;
use crate::zones::lemma_container_inside;
use crate::zones::lemma_offset_monotone;
use vstd::prelude::*;

verus! {

/// Values read back from their bytes.
proof fn lemma_values_read(zone: Seq<u8>, p: int, s: Seq<u16>, j: int)
    requires
        0 <= p,
        p + 2 * s.len() <= zone.len(),
        zone.subrange(p, p + 2 * s.len()) == values_bytes(s),
        0 <= j < s.len(),
    ensures
        u16_at(zone, p + 2 * j) == s[j],
{
    let part = zone.subrange(p, p + 2 * s.len());
    assert(zone.subrange(p + 2 * j, p + 2 * j + 2) =~= u16_bytes(s[j] as int)) by {
        assert(part[2 * j] == u16_bytes(s[j] as int)[0]);
        assert(part[2 * j + 1] == u16_bytes(s[j] as int)[1]);
    }
    lemma_u16_round_trip(zone, p + 2 * j, s[j] as int);
}

/// Words read back from their bytes.
proof fn lemma_words_read(zone: Seq<u8>, p: int, s: Seq<u64>, j: int)
    requires
        0 <= p,
        p + 8 * s.len() <= zone.len(),
        zone.subrange(p, p + 8 * s.len()) == words_bytes(s),
        0 <= j < s.len(),
    ensures
        u64_at(zone, p + 8 * j) == s[j],
{
    let part = zone.subrange(p, p + 8 * s.len());
    assert(zone.subrange(p + 8 * j, p + 8 * j + 8) =~= u64_bytes(s[j] as int)) by {
        assert forall|k: int| 0 <= k < 8 implies part[8 * j + k] == u64_bytes(s[j] as int)[k] by {
            assert((8 * j + k) / 8 == j && (8 * j + k) % 8 == k);
        }
        assert forall|k: int| 0 <= k < 8 implies zone.subrange(p + 8 * j, p + 8 * j + 8)[k]
            == u64_bytes(s[j] as int)[k] by {
            assert(zone.subrange(p + 8 * j, p + 8 * j + 8)[k] == part[8 * j + k]);
        }
    }
    lemma_u64_round_trip(zone, p + 8 * j, s[j] as int);
}

/// Intervals read back from their bytes.
proof fn lemma_intervals_read(zone: Seq<u8>, p: int, s: Seq<Interval>, j: int)
    requires
        0 <= p,
        p + 4 * s.len() <= zone.len(),
        zone.subrange(p, p + 4 * s.len()) == intervals_bytes(s),
        0 <= j < s.len(),
        s[j].start <= s[j].end,
    ensures
        interval_at(zone, p + 4 * j) == s[j],
        u16_at(zone, p + 4 * j) + u16_at(zone, p + 4 * j + 2) <= u16::MAX,
{
    let part = zone.subrange(p, p + 4 * s.len());
    let b = interval_bytes(s[j]);
    assert forall|k: int| 0 <= k < 4 implies part[4 * j + k] == b[k] by {
        assert((4 * j + k) / 4 == j && (4 * j + k) % 4 == k);
    }
    assert(zone[p + 4 * j] == part[4 * j + 0]);
    assert(zone[p + 4 * j + 1] == part[4 * j + 1]);
    assert(zone[p + 4 * j + 2] == part[4 * j + 2]);
    assert(zone[p + 4 * j + 3] == part[4 * j + 3]);
    assert(zone.subrange(p + 4 * j, p + 4 * j + 2) =~= u16_bytes(s[j].start as int));
    assert(zone.subrange(p + 4 * j + 2, p + 4 * j + 4) =~= u16_bytes(s[j].end - s[j].start));
    lemma_u16_round_trip(zone, p + 4 * j, s[j].start as int);
    lemma_u16_round_trip(zone, p + 4 * j + 2, s[j].end - s[j].start);
}

/// A store takes up as many bytes as its count asks for.
pub proof fn lemma_store_size(m: StoreModel, code: u8)
    requires
        store_fits(m),
    ensures
        known_code(type_code(m)),
        0 <= stored_count(m) < 0x1_0000,
        type_code(m) == code ==> store_bytes(m).len() == container_size(
            code,
            type_code(m),
            stored_count(m),
        ),
{
}

/// A zone holds the stores of its kind one behind the other.
pub proof fn lemma_zone_part(ms: Seq<ContainerModel>, code: u8, i: int)
    requires
        0 <= i < ms.len(),
    ensures
        zone_bytes(ms.take(i), code).len() <= zone_bytes(ms.take(i + 1), code).len(),
        zone_bytes(ms.take(i + 1), code).len() <= zone_bytes(ms, code).len(),
        type_code(ms[i].store) == code ==> zone_bytes(ms, code).subrange(
            zone_bytes(ms.take(i), code).len() as int,
            zone_bytes(ms.take(i + 1), code).len() as int,
        ) == store_bytes(ms[i].store),
    decreases ms.len(),
{
    let rest = ms.drop_last();
    if i == ms.len() - 1 {
        assert(ms.take(i) =~= rest);
        assert(ms.take(i + 1) =~= ms);
        if type_code(ms[i].store) == code {
            assert(zone_bytes(ms, code).subrange(
                zone_bytes(rest, code).len() as int,
                zone_bytes(ms, code).len() as int,
            ) =~= store_bytes(ms[i].store));
        }
    } else {
        lemma_zone_part(rest, code, i);
        assert(rest.take(i) =~= ms.take(i));
        assert(rest.take(i + 1) =~= ms.take(i + 1));
        assert(rest[i] == ms[i]);
        if type_code(ms[i].store) == code {
            let lo = zone_bytes(ms.take(i), code).len() as int;
            let hi = zone_bytes(ms.take(i + 1), code).len() as int;
            assert(zone_bytes(ms, code).subrange(lo, hi) =~= zone_bytes(rest, code).subrange(
                lo,
                hi,
            ));
        }
    }
}

/// The offsets that the counts ask for are those at which the stores stand.
proof fn lemma_offsets(
    ms: Seq<ContainerModel>,
    typecodes: Seq<u8>,
    counts: Seq<u8>,
    code: u8,
    i: int,
)
    requires
        fits(ms),
        typecodes == codes_bytes(ms),
        counts == counts_bytes(ms),
        0 <= i <= ms.len(),
    ensures
        zone_offset(typecodes, counts, code, i) == zone_bytes(ms.take(i), code).len(),
    decreases i,
{
    if i > 0 {
        lemma_offsets(ms, typecodes, counts, code, i - 1);
        assert(ms.take(i).drop_last() =~= ms.take(i - 1));
        assert(ms.take(i).last() == ms[i - 1]);
        lemma_store_size(ms[i - 1].store, code);
        lemma_count_read(ms, counts, i - 1);
    }
}

/// Counts read back from their bytes.
proof fn lemma_count_read(ms: Seq<ContainerModel>, counts: Seq<u8>, i: int)
    requires
        fits(ms),
        counts == counts_bytes(ms),
        0 <= i < ms.len(),
    ensures
        u16_at(counts, 2 * i) == stored_count(ms[i].store),
{
    let c = stored_count(ms[i].store);
    lemma_store_size(ms[i].store, 0);
    assert(counts.subrange(2 * i, 2 * i + 2) =~= u16_bytes(c)) by {
        assert(counts[2 * i] == u16_bytes(c)[0]);
        assert(counts[2 * i + 1] == u16_bytes(c)[1]);
    }
    lemma_u16_round_trip(counts, 2 * i, c);
}

/// Keys read back from their bytes.
proof fn lemma_key_read(ms: Seq<ContainerModel>, keys: Seq<u8>, i: int)
    requires
        keys == keys_bytes(ms),
        0 <= i < ms.len(),
    ensures
        u16_at(keys, 2 * i) == ms[i].key,
{
    let c = ms[i].key as int;
    assert(keys.subrange(2 * i, 2 * i + 2) =~= u16_bytes(c)) by {
        assert(keys[2 * i] == u16_bytes(c)[0]);
        assert(keys[2 * i + 1] == u16_bytes(c)[1]);
    }
    lemma_u16_round_trip(keys, 2 * i, c);
}

/// The parts of the frozen form of containers.
pub open spec fn zones_of(ms: Seq<ContainerModel>) -> Zones {
    Zones {
        keys: keys_bytes(ms),
        counts: counts_bytes(ms),
        typecodes: codes_bytes(ms),
        bitset_zone: zone_bytes(ms, BITSET_CONTAINER_TYPE),
        run_zone: zone_bytes(ms, RUN_CONTAINER_TYPE),
        array_zone: zone_bytes(ms, ARRAY_CONTAINER_TYPE),
    }
}

/// Zones, padding, keys, counts, type codes and a header, put one behind the other, are found
/// again by their lengths.
proof fn lemma_parts_found(
    d: Seq<u8>,
    pad: Seq<u8>,
    k: Seq<u8>,
    c: Seq<u8>,
    t: Seq<u8>,
    h: Seq<u8>,
)
    ensures
        ({
            let s = d + pad + k + c + t + h;
            let end = s.len() - h.len();
            &&& s.len() == d.len() + pad.len() + k.len() + c.len() + t.len() + h.len()
            &&& s.subrange(end, s.len() as int) == h
            &&& s.subrange(end - t.len(), end) == t
            &&& s.subrange(end - t.len() - c.len(), end - t.len()) == c
            &&& s.subrange(end - t.len() - c.len() - k.len(), end - t.len() - c.len()) == k
            &&& s.take(d.len() as int) == d
        }),
{
    let s = d + pad + k + c + t + h;
    let end = s.len() - h.len();
    assert(s.subrange(end, s.len() as int) =~= h);
    assert(s.subrange(end - t.len(), end) =~= t);
    assert(s.subrange(end - t.len() - c.len(), end - t.len()) =~= c);
    assert(s.subrange(end - t.len() - c.len() - k.len(), end - t.len() - c.len()) =~= k);
    assert(s.take(d.len() as int) =~= d);
}

/// Three zones at the start of a buffer are found again by their lengths.
proof fn lemma_zones_found(s: Seq<u8>, b: Seq<u8>, r: Seq<u8>, a: Seq<u8>)
    requires
        b.len() + r.len() + a.len() <= s.len(),
        s.take((b + r + a).len() as int) == b + r + a,
    ensures
        s.subrange(0, b.len() as int) == b,
        s.subrange(b.len() as int, (b.len() + r.len()) as int) == r,
        s.subrange((b.len() + r.len()) as int, (b.len() + r.len() + a.len()) as int) == a,
{
    let d = b + r + a;
    assert forall|i: int| 0 <= i < d.len() implies s[i] == d[i] by {
        assert(s.take(d.len() as int)[i] == s[i]);
    }
    assert(s.subrange(0, b.len() as int) =~= b);
    assert(s.subrange(b.len() as int, (b.len() + r.len()) as int) =~= r);
    assert(s.subrange((b.len() + r.len()) as int, (b.len() + r.len() + a.len()) as int) =~= a);
}

/// The type codes of containers are known.
proof fn lemma_codes_known(ms: Seq<ContainerModel>)
    requires
        fits(ms),
    ensures
        forall|i: int| 0 <= i < ms.len() ==> known_code(#[trigger] codes_bytes(ms)[i]),
{
    assert forall|i: int| 0 <= i < ms.len() implies known_code(#[trigger] codes_bytes(ms)[i]) by {
        lemma_store_size(ms[i].store, 0);
    }
}

/// The frozen form of containers falls apart into their keys, counts, type codes and
/// zones, whatever stands between the zones and the metadata.
pub proof fn lemma_parse_padded(ms: Seq<ContainerModel>, pad: Seq<u8>)
    requires
        fits(ms),
    ensures
        parse(padded_bytes(ms, pad)) == Some(zones_of(ms)),
        zones_of(ms).wf(),
{
    let s = padded_bytes(ms, pad);
    let n = ms.len() as int;
    let z = zones_of(ms);
    let h = u32_bytes(header(n));
    let end = s.len() - 4;
    assert(h.len() == 4);
    lemma_parts_found(data_bytes(ms), pad, z.keys, z.counts, z.typecodes, h);
    lemma_u32_round_trip(s, end, header(n));
    assert(header_count(s) == n);
    lemma_offsets(ms, z.typecodes, z.counts, BITSET_CONTAINER_TYPE, n);
    lemma_offsets(ms, z.typecodes, z.counts, RUN_CONTAINER_TYPE, n);
    lemma_offsets(ms, z.typecodes, z.counts, ARRAY_CONTAINER_TYPE, n);
    assert(ms.take(n) =~= ms);
    lemma_zones_found(s, z.bitset_zone, z.run_zone, z.array_zone);
    lemma_codes_known(ms);
    assert forall|k: int| end - n <= k < end implies known_code(#[trigger] s[k]) by {
        assert(s.subrange(end - n, end)[k - (end - n)] == s[k]);
        assert(known_code(z.typecodes[k - (end - n)]));
    }
    assert(split_zones(s) == z);
}

/// One container read back from the parts of the frozen form.
proof fn lemma_container_read(ms: Seq<ContainerModel>, i: int)
    requires
        fits(ms),
        0 <= i < ms.len(),
    ensures
        zones_of(ms).key(i) == ms[i].key,
        zones_of(ms).store(i) == ms[i].store,
        zones_of(ms).typecodes[i] == RUN_CONTAINER_TYPE ==> forall|j: int|
            0 <= j < zones_of(ms).count(i) ==> #[trigger] zones_of(ms).interval_fits(i, j),
{
    let z = zones_of(ms);
    let m = ms[i].store;
    let code = type_code(m);
    lemma_key_read(ms, z.keys, i);
    lemma_count_read(ms, z.counts, i);
    lemma_store_size(m, code);
    lemma_offsets(ms, z.typecodes, z.counts, code, i);
    lemma_offsets(ms, z.typecodes, z.counts, code, i + 1);
    lemma_zone_part(ms, code, i);
    let p = z.offset(code, i);
    assert(z.offset(code, i + 1) == p + store_bytes(m).len());
    match m {
        StoreModel::Array(s) => {
            assert forall|j: int| 0 <= j < s.len() implies z.values(i)[j] == s[j] by {
                lemma_values_read(z.array_zone, p, s, j);
            }
            assert(z.values(i) =~= s);
        },
        StoreModel::Bitmap(len, words) => {
            assert forall|j: int| 0 <= j < words.len() implies z.words(i)[j] == words[j] by {
                lemma_words_read(z.bitset_zone, p, words, j);
            }
            assert(z.words(i) =~= words);
        },
        StoreModel::Run(s) => {
            assert forall|j: int| 0 <= j < s.len() implies z.intervals(i)[j] == s[j] by {
                lemma_intervals_read(z.run_zone, p, s, j);
            }
            assert(z.intervals(i) =~= s);
            assert forall|j: int| 0 <= j < z.count(i) implies #[trigger] z.interval_fits(i, j) by {
                lemma_intervals_read(z.run_zone, p, s, j);
            }
        },
    }
}

/// The parts of the frozen form of containers stand for those containers.
pub proof fn lemma_zones_of(ms: Seq<ContainerModel>)
    requires
        fits(ms),
    ensures
        zones_of(ms).containers() == ms,
        zones_of(ms).unsaturated(),
{
    let z = zones_of(ms);
    assert forall|i: int| 0 <= i < ms.len() implies z.containers()[i] == ms[i] by {
        lemma_container_read(ms, i);
    }
    assert(z.containers() =~= ms);
    assert forall|i: int, j: int|
        0 <= i < z.count_containers() && z.typecodes[i] == RUN_CONTAINER_TYPE && 0 <= j < z.count(
            i,
        ) implies #[trigger] z.interval_fits(i, j) by {
        lemma_container_read(ms, i);
    }
}

/// The zone for a type code.
spec fn zone(z: Zones, code: u8) -> Seq<u8> {
    if code == BITSET_CONTAINER_TYPE {
        z.bitset_zone
    } else if code == RUN_CONTAINER_TYPE {
        z.run_zone
    } else {
        z.array_zone
    }
}

/// The bytes of a store that was read are the bytes that it was read from.
#[verifier::rlimit(40)]
proof fn lemma_store_written_again(z: Zones, i: int)
    requires
        z.wf(),
        z.unsaturated(),
        0 <= i < z.count_containers(),
    ensures
        type_code(z.store(i)) == z.typecodes[i],
        stored_count(z.store(i)) == z.count(i),
        store_bytes(z.store(i)) == zone(z, z.typecodes[i]).subrange(
            z.offset(z.typecodes[i], i),
            z.offset(z.typecodes[i], i + 1),
        ),
{
    lemma_container_inside(z, i);
    let code = z.typecodes[i];
    let from = zone(z, code);
    let p = z.offset(code, i);
    let part = from.subrange(p, z.offset(code, i + 1));
    assert(z.offset(code, i + 1) == p + container_size(code, code, z.count(i)));
    if code == BITSET_CONTAINER_TYPE {
        let s = z.words(i);
        assert forall|k: int| 0 <= k < part.len() implies words_bytes(s)[k] == part[k] by {
            lemma_u64_bytes_at(from, p + 8 * (k / 8));
            assert(s[k / 8] == u64_at(from, p + 8 * (k / 8)));
            assert(u64_bytes(s[k / 8] as int)[k % 8] == from.subrange(
                p + 8 * (k / 8),
                p + 8 * (k / 8) + 8,
            )[k % 8]);
        }
        assert(words_bytes(s) =~= part);
    } else if code == RUN_CONTAINER_TYPE {
        let s = z.intervals(i);
        assert forall|k: int| 0 <= k < part.len() implies intervals_bytes(s)[k] == part[k] by {
            let j = k / 4;
            let q = p + 4 * j;
            assert(z.interval_fits(i, j));
            lemma_u16_bytes_at(from, q);
            lemma_u16_bytes_at(from, q + 2);
            assert(s[j] == interval_at(from, q));
            assert(interval_bytes(s[j]) =~= from.subrange(q, q + 4));
            assert(interval_bytes(s[j])[k % 4] == from.subrange(q, q + 4)[k % 4]);
        }
        assert(intervals_bytes(s) =~= part);
    } else {
        let s = z.values(i);
        assert forall|k: int| 0 <= k < part.len() implies values_bytes(s)[k] == part[k] by {
            lemma_u16_bytes_at(from, p + 2 * (k / 2));
            assert(s[k / 2] == u16_at(from, p + 2 * (k / 2)));
            assert(u16_bytes(s[k / 2] as int)[k % 2] == from.subrange(
                p + 2 * (k / 2),
                p + 2 * (k / 2) + 2,
            )[k % 2]);
        }
        assert(values_bytes(s) =~= part);
    }
}

/// The stores of the first containers, written again, are the start of their zone.
proof fn lemma_zone_written_again(z: Zones, code: u8, n: int)
    requires
        z.wf(),
        z.unsaturated(),
        known_code(code),
        0 <= n <= z.count_containers(),
    ensures
        0 <= z.offset(code, n) <= zone(z, code).len(),
        zone_bytes(z.containers().take(n), code) == zone(z, code).take(z.offset(code, n)),
    decreases n,
{
    let ms = z.containers();
    lemma_offset_monotone(z, code, n, z.count_containers() as int);
    if n > 0 {
        lemma_zone_written_again(z, code, n - 1);
        lemma_store_written_again(z, n - 1);
        assert(ms.take(n).drop_last() =~= ms.take(n - 1));
        assert(ms.take(n).last() == ms[n - 1]);
        let lo = z.offset(code, n - 1);
        let hi = z.offset(code, n);
        lemma_offset_monotone(z, code, n - 1, n);
        assert(zone(z, code).take(hi) =~= zone(z, code).take(lo) + zone(z, code).subrange(lo, hi));
        assert(zone(z, code).subrange(lo, lo) =~= Seq::<u8>::empty());
    } else {
        assert(zone(z, code).take(0) =~= Seq::<u8>::empty());
    }
}

/// The parts that containers were read from are the parts that they are written as.
pub proof fn lemma_written_again(z: Zones)
    requires
        z.wf(),
        z.unsaturated(),
    ensures
        zones_of(z.containers()) == z,
{
    let ms = z.containers();
    let n = z.count_containers() as int;
    assert(ms.take(n) =~= ms);
    lemma_zone_written_again(z, BITSET_CONTAINER_TYPE, n);
    lemma_zone_written_again(z, RUN_CONTAINER_TYPE, n);
    lemma_zone_written_again(z, ARRAY_CONTAINER_TYPE, n);
    assert(zone_bytes(ms, BITSET_CONTAINER_TYPE) =~= z.bitset_zone);
    assert(zone_bytes(ms, RUN_CONTAINER_TYPE) =~= z.run_zone);
    assert(zone_bytes(ms, ARRAY_CONTAINER_TYPE) =~= z.array_zone);
    assert forall|k: int| 0 <= k < 2 * n implies keys_bytes(ms)[k] == z.keys[k]
        && counts_bytes(ms)[k] == z.counts[k] by {
        let i = k / 2;
        lemma_u16_bytes_at(z.keys, 2 * i);
        lemma_u16_bytes_at(z.counts, 2 * i);
        lemma_store_written_again(z, i);
        assert(u16_bytes(u16_at(z.keys, 2 * i))[k % 2] == z.keys.subrange(2 * i, 2 * i + 2)[k % 2]);
        assert(u16_bytes(u16_at(z.counts, 2 * i))[k % 2] == z.counts.subrange(
            2 * i,
            2 * i + 2,
        )[k % 2]);
        assert(ms[i].key == u16_at(z.keys, 2 * i));
    }
    assert(keys_bytes(ms) =~= z.keys);
    assert(counts_bytes(ms) =~= z.counts);
    assert forall|i: int| 0 <= i < n implies codes_bytes(ms)[i] == z.typecodes[i] by {
        lemma_store_written_again(z, i);
    }
    assert(codes_bytes(ms) =~= z.typecodes);
}

} // verus!
