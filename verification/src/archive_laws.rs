//! What holds of archived bitmaps and treemaps as a whole.
use crate::archive::bytes_empty;
use crate::archive::bytes_find;
use crate::archive::bytes_first_is;
use crate::archive::bytes_last_is;
use crate::archive::bytes_total;
use crate::format::fits;
use crate::format::frozen_bytes;
use crate::format::parse;
use crate::laws::law_empty_counts_none;
use crate::laws::law_order_kept;
use crate::laws::law_queries_agree;
use crate::laws::law_round_trip;
use crate::model::containers_wf;
use crate::model::elements;
use crate::model::greatest_is;
use crate::model::least_is;
use crate::model::lemma_containers_card;
use crate::model::ContainerModel;
use crate::parts::greatest64_is;
use crate::parts::high64;
use crate::parts::least64_is;
use crate::parts::lemma_join64;
use crate::parts::lemma_parts_empty;
use crate::parts::lemma_parts_greatest;
use crate::parts::lemma_parts_least;
use crate::parts::lemma_parts_len;
use crate::parts::low64;
use crate::parts::part_has;
use crate::parts::parts_ascend;
use crate::parts::parts_have;
use crate::parts::parts_len;
use crate::parts::parts_set;
use crate::rkyv_calls::has_key;
use crate::rkyv_calls::keys_ascend;
use crate::rkyv_calls::lists_map;
use crate::rkyv_calls::read_map_archive;
use crate::rkyv_calls::read_vec_archive;
use crate::rkyv_calls::reads_as;
use crate::treemap::maps_have;
use crate::treemap::RoaringTreemap;
use crate::treemap_archive::all_empty;
use crate::treemap_archive::all_frozen;
use crate::treemap_archive::entries_find;
use crate::treemap_archive::entries_first_is;
use crate::treemap_archive::entries_last_is;
use crate::treemap_archive::entries_total;
use crate::treemap_archive::entry_finds;
use crate::treemap_archive::first_full;
use crate::treemap_archive::first_missing;
use crate::treemap_archive::frozen_map;
use crate::treemap_archive::last_full;
use crate::treemap_archive::last_missing;
use crate::treemap_archive::thaw;
use crate::zones::lemma_parse_wf;
use crate::zones::lemma_total_min;
use vstd::prelude::*;

verus! {

/// **Archives give bitmaps back.** An archive that reads as the frozen form of a bitmap is
/// accepted, and what is in it is the containers of that bitmap, in order where they were.
pub proof fn law_bitmap_archive(bytes: Seq<u8>, ms: Seq<ContainerModel>)
    requires
        fits(ms),
        read_vec_archive(bytes) == Some(frozen_bytes(ms)),
    ensures
        read_vec_archive(bytes) matches Some(s) && parse(s) matches Some(z) && z.containers() == ms
            && (containers_wf(ms) ==> z.valid()),
{
    law_round_trip(ms);
}

/// **Archived bitmaps answer alike.** The frozen form of a bitmap in order answers every
/// query as the set of the bitmap does.
pub proof fn law_archived_bitmap_agrees(ms: Seq<ContainerModel>)
    requires
        containers_wf(ms),
    ensures
        forall|v: u32| bytes_find(frozen_bytes(ms), v) <==> elements(ms).contains(v),
        bytes_total(frozen_bytes(ms)) == elements(ms).len(),
        bytes_empty(frozen_bytes(ms)) <==> elements(ms) == Set::<u32>::empty(),
        forall|r: Option<u32>| #[trigger]
            bytes_first_is(frozen_bytes(ms), r) ==> least_is(elements(ms), r),
        forall|r: Option<u32>| #[trigger]
            bytes_last_is(frozen_bytes(ms), r) ==> greatest_is(elements(ms), r),
{
    law_queries_agree(ms);
    law_order_kept(ms);
}

/// The containers of the first entries of a list of a frozen map.
proof fn lemma_thaw(m: Map<u32, Seq<ContainerModel>>, es: Seq<(u32, Seq<u8>)>, n: int)
    requires
        lists_map(es, frozen_map(m)),
        forall|k: u32| #[trigger] m.contains_key(k) ==> fits(m[k]),
        0 <= n <= es.len(),
    ensures
        forall|i: int|
            0 <= i < n ==> m.contains_key((#[trigger] es[i]).0) && parse(es[i].1) is Some,
        forall|k: u32| #[trigger]
            thaw(es.take(n)).contains_key(k) <==> exists|i: int|
                0 <= i < n && (#[trigger] es[i]).0 == k,
        forall|k: u32| #[trigger]
            thaw(es.take(n)).contains_key(k) ==> m.contains_key(k) && thaw(es.take(n))[k] == m[k],
    decreases n,
{
    if n > 0 {
        lemma_thaw(m, es, n - 1);
        let before = thaw(es.take(n - 1));
        let now = thaw(es.take(n));
        let last = es[n - 1];
        assert(es.take(n).drop_last() =~= es.take(n - 1));
        assert(es.take(n).last() == last);
        assert(frozen_map(m).contains_key(last.0) && frozen_map(m)[last.0] == last.1);
        assert(m.contains_key(last.0));
        law_round_trip(m[last.0]);
        assert forall|k: u32| #[trigger] now.contains_key(k) <==> exists|i: int|
            0 <= i < n && (#[trigger] es[i]).0 == k by {
            if now.contains_key(k) {
                if k == last.0 {
                    assert(es[n - 1].0 == k);
                } else {
                    assert(before.contains_key(k));
                    let i = choose|i: int| 0 <= i < n - 1 && (#[trigger] es[i]).0 == k;
                    assert(es[i].0 == k);
                }
            }
            if exists|i: int| 0 <= i < n && (#[trigger] es[i]).0 == k {
                let i = choose|i: int| 0 <= i < n && (#[trigger] es[i]).0 == k;
                if i < n - 1 {
                    assert(before.contains_key(k));
                }
            }
        }
    }
}

/// **Archives give treemaps back.** An archive that reads as the frozen forms of bitmaps is
/// accepted, and what is in it is the containers of those bitmaps.
pub proof fn law_treemap_archive(bytes: Seq<u8>, m: Map<u32, Seq<ContainerModel>>)
    requires
        forall|k: u32| #[trigger] m.contains_key(k) ==> fits(m[k]),
        reads_as(read_map_archive(bytes), frozen_map(m)),
    ensures
        read_map_archive(bytes) matches Some(es) && all_frozen(es) && keys_ascend(es) && thaw(es)
            == m,
{
    let es = read_map_archive(bytes)->0;
    lemma_thaw(m, es, es.len() as int);
    assert(es.take(es.len() as int) =~= es);
    assert forall|k: u32| thaw(es).contains_key(k) <==> m.contains_key(k) by {
        if m.contains_key(k) {
            assert(frozen_map(m).contains_key(k));
            assert(has_key(es, k));
        }
    }
    assert(thaw(es) =~= m);
}

/// **Same containers, same treemap.** Treemaps whose bitmaps have the same containers hold
/// the same integers, and one is in order where the other is.
pub proof fn law_same_models(a: RoaringTreemap, b: RoaringTreemap)
    requires
        a.models() == b.models(),
    ensures
        a@ == b@,
        a.wf() <==> b.wf(),
{
    assert forall|k: u32|
        #![trigger a.bitmaps().contains_key(k)]
        #![trigger b.bitmaps().contains_key(k)]
        (a.bitmaps().contains_key(k) <==> b.bitmaps().contains_key(k)) && (a.bitmaps().contains_key(
            k,
        ) ==> a.bitmaps()[k].model() == b.bitmaps()[k].model()) by {
        assert(a.models().contains_key(k) <==> a.bitmaps().contains_key(k));
        assert(b.models().contains_key(k) <==> b.bitmaps().contains_key(k));
        if a.bitmaps().contains_key(k) {
            assert(a.models()[k] == a.bitmaps()[k].model());
            assert(b.models()[k] == b.bitmaps()[k].model());
        }
    }
    assert forall|v: u64| a@.contains(v) <==> b@.contains(v) by {
        assert(a.bitmaps().contains_key(high64(v)) <==> b.bitmaps().contains_key(high64(v)));
    }
    assert(a@ =~= b@);
}

/// The sets that the entries of a list of frozen bitmaps stand for.
spec fn entry_parts(t: RoaringTreemap, es: Seq<(u32, Seq<u8>)>) -> Seq<(u32, Set<u32>)> {
    Seq::new(es.len(), |i: int| (es[i].0, elements(t.models()[es[i].0])))
}

/// One entry of a list of the frozen bitmaps of a treemap in order.
proof fn lemma_entry(t: RoaringTreemap, es: Seq<(u32, Seq<u8>)>, i: int)
    requires
        t.wf(),
        lists_map(es, frozen_map(t.models())),
        0 <= i < es.len(),
    ensures
        t.bitmaps().contains_key(es[i].0),
        t.models()[es[i].0] == t.bitmaps()[es[i].0].model(),
        containers_wf(t.models()[es[i].0]),
        es[i].1 == frozen_bytes(t.models()[es[i].0]),
        elements(t.models()[es[i].0]) == t.bitmaps()[es[i].0]@,
        elements(t.models()[es[i].0]).finite(),
{
    assert(frozen_map(t.models()).contains_key(es[i].0));
    assert(frozen_map(t.models())[es[i].0] == es[i].1);
    assert(t.bitmaps().contains_key(es[i].0));
    lemma_containers_card(t.models()[es[i].0]);
}

/// The parts of a list of the frozen bitmaps of a treemap in order hold its integers.
proof fn lemma_entry_parts(t: RoaringTreemap, es: Seq<(u32, Seq<u8>)>)
    requires
        t.wf(),
        lists_map(es, frozen_map(t.models())),
    ensures
        parts_ascend(entry_parts(t, es)),
        parts_set(entry_parts(t, es)) == t@,
        forall|i: int| 0 <= i < es.len() ==> (#[trigger] entry_parts(t, es)[i]).1.finite(),
{
    let parts = entry_parts(t, es);
    assert forall|i: int| 0 <= i < es.len() implies (#[trigger] parts[i]).1.finite() by {
        lemma_entry(t, es, i);
    }
    assert forall|v: u64| parts_have(parts, v) <==> maps_have(t.bitmaps(), v) by {
        if parts_have(parts, v) {
            let i = choose|i: int| 0 <= i < parts.len() && #[trigger] part_has(parts[i], v);
            lemma_entry(t, es, i);
        }
        if maps_have(t.bitmaps(), v) {
            assert(frozen_map(t.models()).contains_key(high64(v)));
            assert(has_key(es, high64(v)));
            let i = choose|i: int| 0 <= i < es.len() && (#[trigger] es[i]).0 == high64(v);
            lemma_entry(t, es, i);
            assert(part_has(parts[i], v));
        }
    }
    assert(parts_set(parts) =~= t@);
}

/// The counts of the first entries add up to the sizes of the first parts.
proof fn lemma_entry_totals(t: RoaringTreemap, es: Seq<(u32, Seq<u8>)>, n: int)
    requires
        t.wf(),
        lists_map(es, frozen_map(t.models())),
        0 <= n <= es.len(),
    ensures
        entries_total(es.take(n)) == parts_len(entry_parts(t, es).take(n)),
    decreases n,
{
    if n > 0 {
        lemma_entry_totals(t, es, n - 1);
        lemma_entry(t, es, n - 1);
        law_archived_bitmap_agrees(t.models()[es[n - 1].0]);
        let parts = entry_parts(t, es);
        assert(es.take(n).drop_last() =~= es.take(n - 1));
        assert(es.take(n).last() == es[n - 1]);
        assert(parts.take(n).drop_last() =~= parts.take(n - 1));
        assert(parts.take(n).last() == parts[n - 1]);
    }
}

/// **Empty means no integers.** Entries are all empty exactly where they count no integers, in
/// order or not.
pub proof fn law_empty_entries_count_none(es: Seq<(u32, Seq<u8>)>)
    ensures
        0 <= entries_total(es),
        all_empty(es) <==> entries_total(es) == 0,
    decreases es.len(),
{
    if es.len() > 0 {
        let rest = es.drop_last();
        let last = es[es.len() - 1];
        law_empty_entries_count_none(rest);
        if let Some(z) = parse(last.1) {
            lemma_parse_wf(last.1);
            lemma_total_min(z, z.count_containers() as int);
            law_empty_counts_none(z);
        }
        assert(bytes_empty(last.1) <==> bytes_total(last.1) == 0);
        assert(all_empty(es) <==> all_empty(rest) && bytes_empty(last.1)) by {
            assert(forall|j: int| 0 <= j < rest.len() ==> rest[j] == es[j]);
        }
    }
}

/// An entry of a list of the frozen bitmaps of a treemap in order is empty exactly where its
/// part is, and otherwise something stands first and last in it.
proof fn lemma_entry_ends(t: RoaringTreemap, es: Seq<(u32, Seq<u8>)>, i: int)
    requires
        t.wf(),
        lists_map(es, frozen_map(t.models())),
        0 <= i < es.len(),
    ensures
        bytes_empty(es[i].1) <==> entry_parts(t, es)[i].1 == Set::<u32>::empty(),
        forall|x: u32| bytes_find(es[i].1, x) <==> entry_parts(t, es)[i].1.contains(x),
        forall|r: Option<u32>| #[trigger]
            bytes_first_is(es[i].1, r) ==> least_is(entry_parts(t, es)[i].1, r),
        forall|r: Option<u32>| #[trigger]
            bytes_last_is(es[i].1, r) ==> greatest_is(entry_parts(t, es)[i].1, r),
{
    lemma_entry(t, es, i);
    law_archived_bitmap_agrees(t.models()[es[i].0]);
}

/// **Archived treemaps answer alike.** The entries that list the frozen bitmaps of a treemap
/// in order answer every query as the set of the treemap does, also where some bitmaps are
/// empty.
pub proof fn law_archived_treemap_agrees(t: RoaringTreemap, es: Seq<(u32, Seq<u8>)>)
    requires
        t.wf(),
        lists_map(es, frozen_map(t.models())),
    ensures
        forall|v: u64| entries_find(es, v) <==> t@.contains(v),
        entries_total(es) == t@.len(),
        all_empty(es) <==> t@ == Set::<u64>::empty(),
        !first_missing(es),
        !last_missing(es),
        forall|r: Option<u64>| #[trigger] entries_first_is(es, r) ==> least64_is(t@, r),
        forall|r: Option<u64>| #[trigger] entries_last_is(es, r) ==> greatest64_is(t@, r),
{
    let parts = entry_parts(t, es);
    lemma_entry_parts(t, es);
    lemma_entry_totals(t, es, es.len() as int);
    assert(es.take(es.len() as int) =~= es);
    assert(parts.take(es.len() as int) =~= parts);
    lemma_parts_len(parts);
    law_empty_entries_count_none(es);
    assert forall|i: int| 0 <= i < es.len() implies (bytes_empty((#[trigger] es[i]).1)
        <==> parts[i].1 == Set::<u32>::empty()) by {
        lemma_entry_ends(t, es, i);
    }
    assert forall|v: u64| entries_find(es, v) <==> t@.contains(v) by {
        assert(parts_set(parts).contains(v) <==> parts_have(parts, v));
        if entries_find(es, v) {
            let i = choose|i: int| 0 <= i < es.len() && #[trigger] entry_finds(es[i], v);
            lemma_entry_ends(t, es, i);
            assert(bytes_find(es[i].1, low64(v)));
            assert(part_has(parts[i], v));
        }
        if parts_have(parts, v) {
            let i = choose|i: int| 0 <= i < parts.len() && #[trigger] part_has(parts[i], v);
            lemma_entry_ends(t, es, i);
            assert(bytes_find(es[i].1, low64(v)));
            assert(entry_finds(es[i], v));
        }
    }
    if all_empty(es) {
        assert forall|j: int| 0 <= j < parts.len() implies (#[trigger] parts[j]).1 == Set::<
            u32,
        >::empty() by {
            assert(bytes_empty(es[j].1));
        }
        lemma_parts_empty(parts);
    } else {
        assert(t@.len() > 0);
    }
    assert forall|i: int| #[trigger] first_full(es, i) implies !bytes_first_is(
        es[i].1,
        None,
    ) by {
        lemma_entry_ends(t, es, i);
    }
    assert forall|i: int| #[trigger] last_full(es, i) implies !bytes_last_is(es[i].1, None) by {
        lemma_entry_ends(t, es, i);
    }
    assert forall|r: Option<u64>| #[trigger] entries_first_is(es, r) implies least64_is(
        t@,
        r,
    ) by {
        if let Some(v) = r {
            let i = choose|i: int| #[trigger]
                first_full(es, i) && es[i].0 == high64(v) && bytes_first_is(
                    es[i].1,
                    Some(low64(v)),
                );
            lemma_entry_ends(t, es, i);
            assert(least_is(parts[i].1, Some(low64(v))));
            assert forall|j: int| 0 <= j < i implies (#[trigger] parts[j]).1
                == Set::<u32>::empty() by {
                assert(bytes_empty(es[j].1));
            }
            lemma_parts_least(parts, i, low64(v));
            lemma_join64(high64(v), low64(v));
        }
    }
    assert forall|r: Option<u64>| #[trigger] entries_last_is(es, r) implies greatest64_is(
        t@,
        r,
    ) by {
        if let Some(v) = r {
            let i = choose|i: int| #[trigger]
                last_full(es, i) && es[i].0 == high64(v) && bytes_last_is(
                    es[i].1,
                    Some(low64(v)),
                );
            lemma_entry_ends(t, es, i);
            assert(greatest_is(parts[i].1, Some(low64(v))));
            assert forall|j: int| i < j < parts.len() implies (#[trigger] parts[j]).1
                == Set::<u32>::empty() by {
                assert(bytes_empty(es[j].1));
            }
            lemma_parts_greatest(parts, i, low64(v));
            lemma_join64(high64(v), low64(v));
        }
    }
}

} // verus!
