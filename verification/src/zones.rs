//! Facts about the parts of a frozen bitmap: where its containers lie, and that counting
//! and looking up come out right where it is in order.
use crate::format::fits;
use crate::format::header_count;
use crate::format::interval_at;
use crate::format::known_code;
use crate::format::parse;
use crate::format::store_fits;
use crate::format::Zones;
use crate::format::ARRAY_CONTAINER_TYPE;
use crate::format::BITSET_CONTAINER_TYPE;
use crate::format::RUN_CONTAINER_TYPE;
use crate::model::containers_card;
use crate::model::containers_have;
use crate::model::covers;
use crate::model::elements;
use crate::model::high;
use crate::model::join;
use crate::model::lemma_containers_card;
use crate::model::lemma_join;
use crate::model::low;
use crate::model::run_card;
use crate::model::BITMAP_LENGTH;
use crate::search::bisect;
use crate::search::lemma_bisect_complete;
use crate::search::lemma_bisect_sound;
use vstd::prelude::*;

verus! {

/// Offsets never go down.
pub proof fn lemma_offset_monotone(z: Zones, code: u8, i: int, j: int)
    requires
        0 <= i <= j,
    ensures
        0 <= z.offset(code, i) <= z.offset(code, j),
    decreases j,
{
    if i < j {
        lemma_offset_monotone(z, code, i, j - 1);
    } else if 0 < i {
        lemma_offset_monotone(z, code, i - 1, j - 1);
    }
}

/// A container lies inside the zone of its kind.
pub proof fn lemma_container_inside(z: Zones, i: int)
    requires
        z.wf(),
        0 <= i < z.count_containers(),
    ensures
        known_code(z.typecodes[i]),
        0 <= z.count(i) < 0x1_0000,
        0 <= z.offset(BITSET_CONTAINER_TYPE, i),
        0 <= z.offset(RUN_CONTAINER_TYPE, i),
        0 <= z.offset(ARRAY_CONTAINER_TYPE, i),
        z.typecodes[i] == BITSET_CONTAINER_TYPE ==> z.offset(BITSET_CONTAINER_TYPE, i) + 8
            * BITMAP_LENGTH <= z.bitset_zone.len(),
        z.typecodes[i] == RUN_CONTAINER_TYPE ==> z.offset(RUN_CONTAINER_TYPE, i) + 4 * z.count(i)
            <= z.run_zone.len(),
        z.typecodes[i] == ARRAY_CONTAINER_TYPE ==> z.offset(ARRAY_CONTAINER_TYPE, i) + 2 * (z.count(
            i,
        ) + 1) <= z.array_zone.len(),
        z.offset(BITSET_CONTAINER_TYPE, i) <= z.offset(BITSET_CONTAINER_TYPE, i + 1)
            <= z.bitset_zone.len(),
        z.offset(RUN_CONTAINER_TYPE, i) <= z.offset(RUN_CONTAINER_TYPE, i + 1)
            <= z.run_zone.len(),
        z.offset(ARRAY_CONTAINER_TYPE, i) <= z.offset(ARRAY_CONTAINER_TYPE, i + 1)
            <= z.array_zone.len(),
{
    let n = z.count_containers() as int;
    lemma_offset_monotone(z, BITSET_CONTAINER_TYPE, i, i + 1);
    lemma_offset_monotone(z, RUN_CONTAINER_TYPE, i, i + 1);
    lemma_offset_monotone(z, ARRAY_CONTAINER_TYPE, i, i + 1);
    lemma_offset_monotone(z, BITSET_CONTAINER_TYPE, i + 1, n);
    lemma_offset_monotone(z, RUN_CONTAINER_TYPE, i + 1, n);
    lemma_offset_monotone(z, ARRAY_CONTAINER_TYPE, i + 1, n);
}

/// The parts of a frozen buffer fit together.
pub proof fn lemma_parse_wf(s: Seq<u8>)
    ensures
        parse(s) matches Some(z) ==> z.wf(),
{
    if let Some(z) = parse(s) {
        let n = header_count(s);
        let end = s.len() - 4;
        assert(0 <= n < 0x2_0000);
        lemma_offset_monotone(z, BITSET_CONTAINER_TYPE, 0, n);
        lemma_offset_monotone(z, RUN_CONTAINER_TYPE, 0, n);
        lemma_offset_monotone(z, ARRAY_CONTAINER_TYPE, 0, n);
        assert forall|i: int| 0 <= i < n implies known_code(#[trigger] z.typecodes[i]) by {
            assert(z.typecodes[i] == s[end - n + i]);
        }
    }
}

/// The intervals of a run container in order cover as many integers as they say.
pub proof fn lemma_run_total(z: Zones, i: int, n: int)
    requires
        z.wf(),
        z.unsaturated(),
        0 <= i < z.count_containers(),
        z.typecodes[i] == RUN_CONTAINER_TYPE,
        0 <= n <= z.count(i),
    ensures
        z.run_total(i, n) == run_card(z.intervals(i).take(n)),
    decreases n,
{
    if n > 0 {
        lemma_run_total(z, i, n - 1);
        let t = z.intervals(i).take(n);
        assert(t.drop_last() =~= z.intervals(i).take(n - 1));
        assert(z.interval_fits(i, n - 1));
        assert(t.last() == interval_at(
            z.run_zone,
            z.offset(RUN_CONTAINER_TYPE, i) + 4 * (n - 1),
        ));
    }
}

/// The containers of a bitmap in order hold as many integers as their counts say.
pub proof fn lemma_total_card(z: Zones, n: int)
    requires
        z.valid(),
        0 <= n <= z.count_containers(),
    ensures
        z.total(n) == containers_card(z.containers().take(n)),
    decreases n,
{
    if n > 0 {
        lemma_total_card(z, n - 1);
        let t = z.containers().take(n);
        assert(t.drop_last() =~= z.containers().take(n - 1));
        assert(t.last() == z.containers()[n - 1]);
        lemma_container_inside(z, n - 1);
        if z.typecodes[n - 1] == RUN_CONTAINER_TYPE {
            lemma_run_total(z, n - 1, z.count(n - 1));
            assert(z.intervals(n - 1).take(z.count(n - 1)) =~= z.intervals(n - 1));
        }
    }
}

/// The counts of a bitmap in order add up to the number of its integers.
pub proof fn lemma_total(z: Zones)
    requires
        z.valid(),
    ensures
        z.total(z.count_containers() as int) == elements(z.containers()).len(),
{
    let n = z.count_containers() as int;
    lemma_total_card(z, n);
    assert(z.containers().take(n) =~= z.containers());
    lemma_containers_card(z.containers());
}

/// A look-up in a container in order finds what the container holds.
pub proof fn lemma_container_finds(z: Zones, i: int, x: u16)
    requires
        z.wf(),
        0 <= i < z.count_containers(),
        z.store(i).wf(),
    ensures
        z.container_finds(i, x) <==> z.store(i).has(x),
{
    lemma_container_inside(z, i);
    if z.typecodes[i] == RUN_CONTAINER_TYPE {
        let s = z.intervals(i);
        let probe = z.interval_probe(i, x);
        lemma_bisect_sound(probe, 0, z.count(i));
        if covers(s, x) {
            let j = choose|j: int| 0 <= j < s.len() && (#[trigger] s[j]).start <= x <= s[j].end;
            assert forall|a: int, b: int|
                #![trigger probe(a), probe(b)]
                0 <= a < b < z.count(i) && probe(a) >= 0 implies probe(b) > 0 by {
                assert(s[a].start <= s[a].end && s[a].end + 1 < s[b].start);
            }
            assert(probe(j) == 0);
            lemma_bisect_complete(probe, 0, z.count(i), j);
        }
        if let Some(j) = bisect(probe, 0, z.count(i)) {
            assert(s[j].start <= x <= s[j].end);
        }
    } else if z.typecodes[i] == ARRAY_CONTAINER_TYPE {
        let s = z.values(i);
        let probe = z.value_probe(i, x);
        lemma_bisect_sound(probe, 0, z.count(i) + 1);
        if s.contains(x) {
            let j = choose|j: int| 0 <= j < s.len() && s[j] == x;
            assert forall|a: int, b: int|
                #![trigger probe(a), probe(b)]
                0 <= a < b < z.count(i) + 1 && probe(a) >= 0 implies probe(b) > 0 by {
                assert(s[a] < s[b]);
            }
            assert(probe(j) == 0);
            lemma_bisect_complete(probe, 0, z.count(i) + 1, j);
        }
        if let Some(j) = bisect(probe, 0, z.count(i) + 1) {
            assert(s[j] == x);
        }
    }
}

/// A look-up in one container of a bitmap in order finds what the bitmap holds under the key of
/// the container.
pub proof fn lemma_container_member(z: Zones, i: int, x: u16)
    requires
        z.valid(),
        0 <= i < z.count_containers(),
    ensures
        z.container_finds(i, x) <==> elements(z.containers()).contains(join(z.key(i), x)),
{
    let ms = z.containers();
    let v = join(z.key(i), x);
    assert(ms[i].store.wf());
    lemma_container_finds(z, i, x);
    lemma_join(z.key(i), x);
    if z.store(i).has(x) {
        assert(ms[i].has(v));
    }
    if containers_have(ms, v) {
        let k = choose|k: int| 0 <= k < ms.len() && (#[trigger] ms[k]).has(v);
        if k < i {
            assert(ms[k].key < ms[i].key);
        } else if i < k {
            assert(ms[i].key < ms[k].key);
        }
    }
}

/// A look-up in a bitmap in order finds what the bitmap holds.
pub proof fn lemma_finds(z: Zones, v: u32)
    requires
        z.valid(),
    ensures
        z.finds(v) <==> elements(z.containers()).contains(v),
{
    let ms = z.containers();
    let n = z.count_containers() as int;
    let probe = z.key_probe(high(v));
    lemma_bisect_sound(probe, 0, n);
    if let Some(i) = bisect(probe, 0, n) {
        assert(ms[i].key == high(v) && ms[i].store.wf());
        lemma_container_finds(z, i, low(v));
    }
    if containers_have(ms, v) {
        let i = choose|i: int| 0 <= i < ms.len() && (#[trigger] ms[i]).has(v);
        assert forall|a: int, b: int|
            #![trigger probe(a), probe(b)]
            0 <= a < b < n && probe(a) >= 0 implies probe(b) > 0 by {
            assert(ms[a].key < ms[b].key);
        }
        assert(probe(i) == 0);
        lemma_bisect_complete(probe, 0, n, i);
    } else if let Some(i) = bisect(probe, 0, n) {
        assert(!ms[i].has(v));
    }
}

/// The format has room for the containers of every frozen bitmap.
pub proof fn lemma_zones_fit(z: Zones)
    requires
        z.wf(),
    ensures
        fits(z.containers()),
{
    let ms = z.containers();
    assert forall|i: int| 0 <= i < ms.len() implies store_fits((#[trigger] ms[i]).store) by {
        lemma_container_inside(z, i);
        if z.typecodes[i] == RUN_CONTAINER_TYPE {
            let s = z.intervals(i);
            let p = z.offset(RUN_CONTAINER_TYPE, i);
            assert forall|j: int| 0 <= j < s.len() implies (#[trigger] s[j]).start <= s[j].end by {
                assert(s[j] == interval_at(z.run_zone, p + 4 * j));
            }
        }
    }
}

/// The intervals of a run container cover at least as many integers as there are intervals.
pub proof fn lemma_run_total_min(z: Zones, i: int, n: int)
    requires
        0 <= n,
    ensures
        n <= z.run_total(i, n),
    decreases n,
{
    if n > 0 {
        lemma_run_total_min(z, i, n - 1);
    }
}

/// The counts of the first containers do not add up to less than nothing.
pub proof fn lemma_total_min(z: Zones, n: int)
    ensures
        0 <= z.total(n),
    decreases n,
{
    if n > 0 {
        lemma_total_min(z, n - 1);
        lemma_run_total_min(z, n - 1, z.count(n - 1));
    }
}

} // verus!
