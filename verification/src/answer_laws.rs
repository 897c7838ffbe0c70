//! How the answers of treemaps and of archived bitmaps and treemaps hang together.
use crate::archive::bytes_first_is;
use crate::archive::bytes_last_is;
use crate::archive::AccessError;
use crate::archive::ArchivedRoaringBitmap;
use crate::archive::InvalidFrozenBitmap;
use crate::archive::TooLarge;
use crate::archive_laws::law_archived_bitmap_agrees;
use crate::archive_laws::law_archived_treemap_agrees;
use crate::archive_laws::law_empty_entries_count_none;
use crate::archive_laws::law_same_models;
use crate::archive_laws::law_treemap_archive;
use crate::bitmap::RoaringBitmap;
use crate::byte_laws::containers_told;
use crate::byte_laws::frozen_told;
use crate::byte_laws::integers_told;
use crate::byte_laws::law_counted;
use crate::byte_laws::law_opened;
use crate::format::fits;
use crate::format::frozen_bytes;
use crate::format::parse;
use crate::freeze::lemma_wf_fits;
use crate::laws::law_order_kept;
use crate::model::elements;
use crate::parts::high64;
use crate::parts::low64;
use crate::query_laws::law_members;
use crate::query_laws::member;
use crate::rkyv_calls::aligned_bytes;
use crate::rkyv_calls::keys_ascend;
use crate::rkyv_calls::lists_map;
use crate::rkyv_calls::read_map_archive;
use crate::treemap::RoaringTreemap;
use crate::treemap_archive::all_frozen;
use crate::treemap_archive::byte_entries;
use crate::treemap_archive::entries_find;
use crate::treemap_archive::entries_first_is;
use crate::treemap_archive::entries_last_is;
use crate::treemap_archive::entries_total;
use crate::treemap_archive::entry_finds;
use crate::treemap_archive::frozen_map;
use crate::treemap_archive::same_entries;
use crate::treemap_archive::thaw;
use crate::treemap_archive::ArchivedRoaringTreemap;
use crate::zones::lemma_finds;
use rkyv::util::AlignedVec;
use vstd::prelude::*;

verus! {

/// Whether a treemap holds `v`: the bitmap under its high 32 bits holds its low 32 bits.
pub open spec fn member64(t: RoaringTreemap, v: u64) -> bool {
    t.bitmaps().contains_key((v / 0x1_0000_0000) as u32) && member(
        t.bitmaps()[(v / 0x1_0000_0000) as u32].model(),
        (v % 0x1_0000_0000) as u32,
    )
}

/// **The set of a treemap.** A treemap holds what its bitmaps do, with their keys as high bits.
pub proof fn law_treemap_members(t: RoaringTreemap, v: u64)
    ensures
        t@.contains(v) <==> member64(t, v),
{
    if t.bitmaps().contains_key(high64(v)) {
        law_members(t.bitmaps()[high64(v)].model(), low64(v));
    }
}

/// **Answers of a treemap.** A treemap in order contains exactly what its bitmaps hold, counts
/// that, and has the least and the greatest of it as its ends.
pub proof fn law_treemap_answers(
    t: RoaringTreemap,
    v: u64,
    r: bool,
    min: Option<u64>,
    max: Option<u64>,
)
    requires
        t.wf(),
        call_ensures(RoaringTreemap::contains, (&t, v), r),
        call_ensures(RoaringTreemap::min, (&t,), min),
        call_ensures(RoaringTreemap::max, (&t,), max),
    ensures
        r <==> member64(t, v),
        r ==> min is Some && max is Some && min->0 <= v <= max->0,
        min matches Some(w) ==> member64(t, w),
        max matches Some(w) ==> member64(t, w),
        forall|n: u64|
            call_ensures(RoaringTreemap::len, (&t,), n) ==> n == Set::new(
                |w: u64| member64(t, w),
            ).len(),
        forall|e: bool| call_ensures(RoaringTreemap::is_empty, (&t,), e) && e ==> !r,
        forall|e: bool| call_ensures(RoaringTreemap::is_empty, (&t,), e) && !e ==> min is Some,
{
    assert forall|w: u64| t@.contains(w) <==> member64(t, w) by {
        law_treemap_members(t, w);
    }
    assert(t@ =~= Set::new(|w: u64| member64(t, w)));
}

/// **Everything in order can be frozen.** The frozen format has room for every bitmap and every
/// treemap in order, and for what an archive gives back.
pub proof fn law_freezable(b: RoaringBitmap, t: RoaringTreemap)
    ensures
        b.wf() ==> b.freezable() && fits(b.model()),
        t.wf() ==> t.freezable(),
{
    if b.wf() {
        lemma_wf_fits(b.model());
    }
}

/// **Adding one integer to a treemap.** Afterwards it holds that integer and what it held before,
/// and nothing else. Only the bitmap under the high bits of the integer has changed.
pub proof fn law_treemap_insert(t: &mut RoaringTreemap, v: u64, r: bool, w: u64, k: u32)
    requires
        call_ensures(RoaringTreemap::insert, (t, v), r),
    ensures
        member64(*final(t), w) <==> w == v || member64(*old(t), w),
        r <==> !member64(*old(t), v),
        final(t).wf(),
        final(t).bitmaps().contains_key(k) <==> k == v / 0x1_0000_0000
            || old(t).bitmaps().contains_key(k),
        k != v / 0x1_0000_0000 && old(t).bitmaps().contains_key(k) ==> final(t).bitmaps()[k]
            == old(t).bitmaps()[k],
{
    law_treemap_members(*final(t), w);
    law_treemap_members(*old(t), w);
    law_treemap_members(*old(t), v);
    assert(final(t)@.contains(w) <==> old(t)@.insert(v).contains(w));
}

/// **Adding a range to a treemap.** Afterwards it holds the integers of the range and what it held
/// before, and nothing else. It has a bitmap for every high half in the range besides those that
/// it had, and the others have not changed.
pub proof fn law_treemap_insert_range(
    t: &mut RoaringTreemap,
    start: u64,
    last: u64,
    r: u64,
    w: u64,
    k: u32,
)
    requires
        call_ensures(RoaringTreemap::insert_range, (t, start, last), r),
    ensures
        member64(*final(t), w) <==> start <= w <= last || member64(*old(t), w),
        r == Set::new(|x: u64| start <= x <= last && !member64(*old(t), x)).len(),
        final(t).wf(),
        ({
            let inside = start <= last && start / 0x1_0000_0000 <= k <= last / 0x1_0000_0000;
            &&& final(t).bitmaps().contains_key(k) <==> inside || old(t).bitmaps().contains_key(k)
            &&& !inside && old(t).bitmaps().contains_key(k) ==> final(t).bitmaps()[k]
                == old(t).bitmaps()[k]
        }),
{
    law_treemap_members(*final(t), w);
    law_treemap_members(*old(t), w);
    let range = Set::new(|x: u64| start <= x <= last);
    assert(final(t)@.contains(w) <==> old(t)@.union(range).contains(w));
    let added = Set::new(|x: u64| start <= x <= last && !member64(*old(t), x));
    assert forall|x: u64| added.contains(x) <==> final(t)@.difference(old(t)@).contains(x) by {
        law_treemap_members(*old(t), x);
        assert(final(t)@.contains(x) <==> old(t)@.union(range).contains(x));
    }
    assert(added =~= final(t)@.difference(old(t)@));
}

/// **Archived bitmaps are equal where their bytes are.**
pub proof fn law_bitmap_equal<'a>(
    a: ArchivedRoaringBitmap<'a>,
    b: ArchivedRoaringBitmap<'a>,
    r: bool,
)
    requires
        call_ensures(<ArchivedRoaringBitmap<'a> as PartialEq>::eq, (&a, &b), r),
    ensures
        r <==> a@.len() == b@.len() && forall|i: int|
            0 <= i < a@.len() ==> #[trigger] a@[i] == b@[i],
{
    if a@.len() == b@.len() && forall|i: int| 0 <= i < a@.len() ==> #[trigger] a@[i] == b@[i] {
        assert(a@ =~= b@);
    }
}

/// **Archived treemaps are equal where their entries are.** They are equal exactly where they have
/// as many entries, with the same keys and the same bytes. Equal ones find the same integers.
pub proof fn law_treemap_equal<'a>(
    a: ArchivedRoaringTreemap<'a>,
    b: ArchivedRoaringTreemap<'a>,
    r: bool,
)
    requires
        call_ensures(<ArchivedRoaringTreemap<'a> as PartialEq>::eq, (&a, &b), r),
    ensures
        r <==> a@.len() == b@.len() && forall|i: int|
            #![trigger a@[i]]
            0 <= i < a@.len() ==> a@[i].0 == b@[i].0 && a@[i].1.len() == b@[i].1.len() && forall|
                j: int,
            |
                0 <= j < a@[i].1.len() ==> #[trigger] a@[i].1[j] == b@[i].1[j],
        r ==> forall|v: u64| #[trigger] entries_find(a@, v) <==> entries_find(b@, v),
{
    if a@.len() == b@.len() && forall|i: int|
        #![trigger a@[i]]
        0 <= i < a@.len() ==> a@[i].0 == b@[i].0 && a@[i].1.len() == b@[i].1.len() && forall|
            j: int,
        |
            0 <= j < a@[i].1.len() ==> #[trigger] a@[i].1[j] == b@[i].1[j] {
        assert forall|i: int| 0 <= i < a@.len() implies a@[i] == b@[i] by {
            assert(a@[i].1 =~= b@[i].1);
        }
        assert(a@ =~= b@);
    }
}

/// **Comparing entries.** Lists of entries are the same exactly where they are as long, with the
/// same keys and the same bytes.
pub proof fn law_same_entries(a: &[(u32, Vec<u8>)], b: &[(u32, Vec<u8>)], r: bool)
    requires
        call_ensures(same_entries, (a, b), r),
    ensures
        r <==> a@.len() == b@.len() && forall|i: int|
            #![trigger a@[i]]
            0 <= i < a@.len() ==> a@[i].0 == b@[i].0 && a@[i].1@ == b@[i].1@,
{
    let s = byte_entries(a@);
    let t = byte_entries(b@);
    if s == t {
        assert(s.len() == a@.len() && t.len() == b@.len());
        assert forall|i: int| #![trigger a@[i]] 0 <= i < a@.len() implies a@[i].0 == b@[i].0
            && a@[i].1@ == b@[i].1@ by {
            assert(s[i] == t[i]);
        }
    }
    if a@.len() == b@.len() && forall|i: int|
        #![trigger a@[i]]
        0 <= i < a@.len() ==> a@[i].0 == b@[i].0 && a@[i].1@ == b@[i].1@ {
        assert forall|i: int| 0 <= i < s.len() implies s[i] == t[i] by {
            assert(a@[i].0 == b@[i].0);
        }
        assert(s =~= t);
    }
}

/// **Bytes that are no frozen bitmap hold nothing.** They are not verified, and contain, count and
/// give nothing.
pub proof fn law_not_frozen<'a>(a: ArchivedRoaringBitmap<'a>, v: u32)
    requires
        !frozen_told(a@),
    ensures
        forall|r: bool|
            call_ensures(ArchivedRoaringBitmap::<'a>::contains, (&a, v), r) ==> !r,
        forall|r: u64| call_ensures(ArchivedRoaringBitmap::<'a>::len, (&a,), r) ==> r == 0,
        forall|r: bool| call_ensures(ArchivedRoaringBitmap::<'a>::is_empty, (&a,), r) ==> r,
        forall|r: Option<u32>|
            call_ensures(ArchivedRoaringBitmap::<'a>::min, (&a,), r) ==> r is None,
        forall|r: Option<u32>|
            call_ensures(ArchivedRoaringBitmap::<'a>::max, (&a,), r) ==> r is None,
        forall|r: Result<(), InvalidFrozenBitmap>|
            call_ensures(ArchivedRoaringBitmap::<'a>::verify, (&a,), r) ==> r is Err,
        forall|r: Result<RoaringBitmap, InvalidFrozenBitmap>|
            call_ensures(ArchivedRoaringBitmap::<'a>::deserialize, (&a,), r) ==> r is Err,
{
    law_opened(a@);
}

/// **Bytes that are a frozen bitmap answer as such.** They are verified, count what their bytes
/// speak of, and in order they contain what their containers hold, with the ends of it.
pub proof fn law_archived_answers<'a>(a: ArchivedRoaringBitmap<'a>, v: u32)
    requires
        frozen_told(a@),
    ensures
        parse(a@) is Some,
        forall|r: u64|
            call_ensures(ArchivedRoaringBitmap::<'a>::len, (&a,), r) ==> r == integers_told(
                a@,
                containers_told(a@),
            ),
        forall|r: Result<(), InvalidFrozenBitmap>|
            call_ensures(ArchivedRoaringBitmap::<'a>::verify, (&a,), r) ==> r is Ok,
        forall|r: Result<RoaringBitmap, InvalidFrozenBitmap>|
            call_ensures(ArchivedRoaringBitmap::<'a>::deserialize, (&a,), r) ==> r is Ok
                && r->Ok_0.model() == parse(a@)->0.containers(),
        parse(a@)->0.valid() ==> forall|r: bool|
            call_ensures(ArchivedRoaringBitmap::<'a>::contains, (&a, v), r) ==> (r <==> member(
                parse(a@)->0.containers(),
                v,
            )),
{
    law_opened(a@);
    law_counted(a@, containers_told(a@));
    let z = parse(a@)->0;
    law_members(z.containers(), v);
    if z.valid() {
        lemma_finds(z, v);
    }
}

/// **Archives give bitmaps back.** The archive of a bitmap in order is accepted. What is accessed
/// there contains and counts what the bitmap does, has its ends, and is read as the bitmap.
pub proof fn law_archive_round_trip<'a>(
    b: RoaringBitmap,
    bytes: &'a AlignedVec<16>,
    r: Result<ArchivedRoaringBitmap<'a>, AccessError>,
    v: u32,
)
    requires
        b.wf(),
        call_ensures(RoaringBitmap::to_bytes, (&b,), Ok::<AlignedVec<16>, TooLarge>(*bytes)),
        call_ensures(ArchivedRoaringBitmap::<'a>::access, (bytes,), r),
    ensures
        r is Ok,
        r->Ok_0@ == frozen_bytes(b.model()),
        forall|q: bool|
            call_ensures(ArchivedRoaringBitmap::<'a>::contains, (&r->Ok_0, v), q) ==> (q
                <==> member(b.model(), v)),
        forall|n: u64, m: u64|
            call_ensures(ArchivedRoaringBitmap::<'a>::len, (&r->Ok_0,), n) && call_ensures(
                RoaringBitmap::len,
                (&b,),
                m,
            ) ==> n == m,
        forall|q: Result<RoaringBitmap, InvalidFrozenBitmap>|
            call_ensures(ArchivedRoaringBitmap::<'a>::deserialize, (&r->Ok_0,), q) ==> q is Ok
                && q->Ok_0.model() == b.model() && q->Ok_0.wf(),
{
    law_order_kept(b.model());
    law_archived_bitmap_agrees(b.model());
    law_members(b.model(), v);
}

/// **Archives keep the ends of bitmaps.** What is accessed in the archive of a bitmap in order
/// bounds what the bitmap holds, and is empty where the bitmap is.
pub proof fn law_archive_ends<'a>(
    b: RoaringBitmap,
    a: ArchivedRoaringBitmap<'a>,
    min: Option<u32>,
    max: Option<u32>,
    empty: bool,
    v: u32,
)
    requires
        b.wf(),
        a@ == frozen_bytes(b.model()),
        call_ensures(ArchivedRoaringBitmap::<'a>::min, (&a,), min),
        call_ensures(ArchivedRoaringBitmap::<'a>::max, (&a,), max),
        call_ensures(ArchivedRoaringBitmap::<'a>::is_empty, (&a,), empty),
    ensures
        member(b.model(), v) ==> !empty && min is Some && max is Some && min->0 <= v <= max->0,
        min matches Some(w) ==> member(b.model(), w),
        max matches Some(w) ==> member(b.model(), w),
        empty <==> min is None,
{
    law_archived_bitmap_agrees(b.model());
    law_members(b.model(), v);
    if let Some(w) = min {
        law_members(b.model(), w);
    }
    if let Some(w) = max {
        law_members(b.model(), w);
    }
    assert(bytes_first_is(a@, min));
    assert(bytes_last_is(a@, max));
    assert(elements(b.model()).contains(v) ==> elements(b.model()) != Set::<u32>::empty());
}

/// **Archives give treemaps back.** The archive of a treemap in order is accepted. What is
/// accessed there contains and counts what the treemap does, and is read as its bitmaps.
pub proof fn law_treemap_round_trip<'a>(
    t: RoaringTreemap,
    bytes: &'a AlignedVec<16>,
    r: Result<ArchivedRoaringTreemap<'a>, AccessError>,
    v: u64,
)
    requires
        t.wf(),
        call_ensures(RoaringTreemap::to_bytes, (&t,), Ok::<AlignedVec<16>, TooLarge>(*bytes)),
        call_ensures(ArchivedRoaringTreemap::<'a>::access, (bytes,), r),
    ensures
        r is Ok,
        lists_map(r->Ok_0@, frozen_map(t.models())),
        forall|i: int, j: int| 0 <= i < j < r->Ok_0@.len() ==> r->Ok_0@[i].0 < r->Ok_0@[j].0,
        forall|i: int|
            0 <= i < r->Ok_0@.len() ==> t.bitmaps().contains_key((#[trigger] r->Ok_0@[i]).0)
                && r->Ok_0@[i].1 == frozen_bytes(t.bitmaps()[r->Ok_0@[i].0].model()),
        r->Ok_0@.len() == t.bitmaps().dom().len(),
        forall|q: bool|
            call_ensures(ArchivedRoaringTreemap::<'a>::contains, (&r->Ok_0, v), q) ==> (q
                <==> member64(t, v)),
        forall|q: Result<RoaringTreemap, InvalidFrozenBitmap>|
            call_ensures(ArchivedRoaringTreemap::<'a>::deserialize, (&r->Ok_0,), q) ==> q is Ok
                && q->Ok_0.models() == t.models() && q->Ok_0@ == t@ && q->Ok_0.wf(),
{
    let m = t.models();
    assert forall|k: u32| #[trigger] m.contains_key(k) implies fits(m[k]) by {
        assert(t.bitmaps().contains_key(k));
        lemma_wf_fits(m[k]);
    }
    law_treemap_archive(aligned_bytes(*bytes), m);
    let es = read_map_archive(aligned_bytes(*bytes))->0;
    assert(lists_map(es, frozen_map(m)));
    law_archived_treemap_agrees(t, es);
    law_treemap_members(t, v);
    assert forall|q: Result<RoaringTreemap, InvalidFrozenBitmap>|
        call_ensures(ArchivedRoaringTreemap::<'a>::deserialize, (&r->Ok_0,), q) implies q is Ok
        && q->Ok_0.models() == t.models() && q->Ok_0@ == t@ && q->Ok_0.wf() by {
        law_same_models(q->Ok_0, t);
    }
    lemma_listed(es, t);
    assert forall|i: int| 0 <= i < es.len() implies t.bitmaps().contains_key((#[trigger] es[i]).0)
        && es[i].1 == frozen_bytes(t.bitmaps()[es[i].0].model()) by {
        assert(frozen_map(m).contains_key(es[i].0) && frozen_map(m)[es[i].0] == es[i].1);
        assert(m[es[i].0] == t.bitmaps()[es[i].0].model());
    }
}

/// A list of the frozen bitmaps of a treemap is as long as there are bitmaps.
proof fn lemma_listed(es: Seq<(u32, Seq<u8>)>, t: RoaringTreemap)
    requires
        lists_map(es, frozen_map(t.models())),
    ensures
        es.len() == t.bitmaps().dom().len(),
{
    let keys = Seq::new(es.len(), |i: int| es[i].0);
    assert(keys.no_duplicates()) by {
        assert forall|i: int, j: int| 0 <= i < keys.len() && 0 <= j < keys.len() && i
            != j implies keys[i] != keys[j] by {
            if i < j {
                assert(es[i].0 < es[j].0);
            } else {
                assert(es[j].0 < es[i].0);
            }
        }
    }
    keys.unique_seq_to_set();
    assert forall|k: u32| keys.to_set().contains(k) <==> t.bitmaps().dom().contains(k) by {
        if keys.contains(k) {
            let i = choose|i: int| 0 <= i < keys.len() && keys[i] == k;
            assert(frozen_map(t.models()).contains_key(es[i].0));
        }
        if t.bitmaps().contains_key(k) {
            assert(frozen_map(t.models()).contains_key(k));
            let i = choose|i: int| 0 <= i < es.len() && (#[trigger] es[i]).0 == k;
            assert(keys[i] == k);
        }
    }
    assert(keys.to_set() =~= t.bitmaps().dom());
}

/// **Archives keep the ends of treemaps.** What is accessed in the archive of a treemap in order
/// counts what the treemap holds and bounds it, and is empty where the treemap is.
pub proof fn law_treemap_ends<'a>(
    t: RoaringTreemap,
    a: ArchivedRoaringTreemap<'a>,
    min: Result<Option<u64>, InvalidFrozenBitmap>,
    max: Result<Option<u64>, InvalidFrozenBitmap>,
    empty: bool,
    n: Option<u64>,
    v: u64,
)
    requires
        t.wf(),
        lists_map(a@, frozen_map(t.models())),
        call_ensures(ArchivedRoaringTreemap::<'a>::checked_min, (&a,), min),
        call_ensures(ArchivedRoaringTreemap::<'a>::checked_max, (&a,), max),
        call_ensures(ArchivedRoaringTreemap::<'a>::is_empty, (&a,), empty),
        call_ensures(ArchivedRoaringTreemap::<'a>::checked_len, (&a,), n),
    ensures
        min is Ok && max is Ok,
        member64(t, v) ==> !empty && min->Ok_0 is Some && max->Ok_0 is Some && min->Ok_0->0 <= v
            <= max->Ok_0->0,
        min->Ok_0 matches Some(w) ==> member64(t, w),
        max->Ok_0 matches Some(w) ==> member64(t, w),
        empty <==> min->Ok_0 is None,
        empty <==> n == Some(0u64),
        n matches Some(c) ==> c == Set::new(|w: u64| member64(t, w)).len(),
        n is None ==> Set::new(|w: u64| member64(t, w)).len() > u64::MAX,
{
    law_archived_treemap_agrees(t, a@);
    law_empty_entries_count_none(a@);
    assert forall|w: u64| t@.contains(w) <==> member64(t, w) by {
        law_treemap_members(t, w);
    }
    assert(t@ =~= Set::new(|w: u64| member64(t, w)));
    assert(entries_first_is(a@, min->Ok_0));
    assert(entries_last_is(a@, max->Ok_0));
    assert(t@.contains(v) ==> t@ != Set::<u64>::empty());
}

/// **Adding an entry adds what it counts.** Without entries nothing is counted.
pub proof fn law_entries_counted(es: Seq<(u32, Seq<u8>)>, e: (u32, Seq<u8>))
    ensures
        entries_total(Seq::<(u32, Seq<u8>)>::empty()) == 0,
        frozen_told(e.1) ==> entries_total(es.push(e)) == entries_total(es) + integers_told(
            e.1,
            containers_told(e.1),
        ),
        !frozen_told(e.1) ==> entries_total(es.push(e)) == entries_total(es),
{
    assert(es.push(e).drop_last() =~= es);
    law_opened(e.1);
    if frozen_told(e.1) {
        law_counted(e.1, containers_told(e.1));
    }
}

/// **What entries thaw to.** A treemap that is read from entries with ascending keys has a bitmap
/// for each of them and no other, with the containers that its bytes stand for.
pub proof fn law_thawed<'a>(
    a: ArchivedRoaringTreemap<'a>,
    r: Result<RoaringTreemap, InvalidFrozenBitmap>,
    k: u32,
)
    requires
        keys_ascend(a@),
        call_ensures(ArchivedRoaringTreemap::<'a>::deserialize, (&a,), r),
    ensures
        r is Ok <==> forall|i: int| 0 <= i < a@.len() ==> frozen_told((#[trigger] a@[i]).1),
        r matches Ok(t) ==> {
            &&& t.bitmaps().contains_key(k) <==> exists|i: int|
                0 <= i < a@.len() && (#[trigger] a@[i]).0 == k
            &&& forall|i: int|
                0 <= i < a@.len() && (#[trigger] a@[i]).0 == k ==> t.bitmaps()[k].model()
                    == parse(a@[i].1)->0.containers()
        },
{
    let es = a@;
    assert forall|i: int| 0 <= i < es.len() implies (parse((#[trigger] es[i]).1) is Some
        <==> frozen_told(es[i].1)) by {
        law_opened(es[i].1);
    }
    if all_frozen(es) {
        assert forall|i: int| 0 <= i < es.len() implies frozen_told((#[trigger] es[i]).1) by {
            assert(parse(es[i].1) is Some);
        }
    }
    lemma_thawed(es, es.len() as int, k);
    assert(es.take(es.len() as int) =~= es);
    if let Ok(t) = r {
        assert(t.models() == thaw(es));
        assert(t.models().contains_key(k) <==> t.bitmaps().contains_key(k));
        if t.bitmaps().contains_key(k) {
            assert(t.models()[k] == t.bitmaps()[k].model());
        }
    }
}

/// What the first entries thaw to.
proof fn lemma_thawed(es: Seq<(u32, Seq<u8>)>, n: int, k: u32)
    requires
        keys_ascend(es),
        0 <= n <= es.len(),
    ensures
        thaw(es.take(n)).contains_key(k) <==> exists|i: int|
            0 <= i < n && (#[trigger] es[i]).0 == k,
        forall|i: int|
            0 <= i < n && (#[trigger] es[i]).0 == k ==> thaw(es.take(n))[k] == parse(
                es[i].1,
            )->0.containers(),
    decreases n,
{
    if n > 0 {
        lemma_thawed(es, n - 1, k);
        assert(es.take(n).drop_last() =~= es.take(n - 1));
        assert(es.take(n).last() == es[n - 1]);
        if es[n - 1].0 == k {
            assert forall|i: int| 0 <= i < n && (#[trigger] es[i]).0 == k implies i == n - 1 by {
                if i < n - 1 {
                    assert(es[i].0 < es[n - 1].0);
                }
            }
        } else if exists|i: int| 0 <= i < n - 1 && (#[trigger] es[i]).0 == k {
            let i = choose|i: int| 0 <= i < n - 1 && (#[trigger] es[i]).0 == k;
            assert(es[i].0 == k);
        }
    }
}

/// **Look-ups in an archived treemap.** With ascending keys, an archived treemap contains an
/// integer exactly where the bytes under its high half are a frozen bitmap that finds its low
/// half. Without, it does not contain what no such bytes find.
pub proof fn law_archived_contains<'a>(a: ArchivedRoaringTreemap<'a>, v: u64, r: bool)
    requires
        call_ensures(ArchivedRoaringTreemap::<'a>::contains, (&a, v), r),
    ensures
        ({
            let found = exists|i: int|
                0 <= i < a@.len() && (#[trigger] a@[i]).0 == v / 0x1_0000_0000 && parse(
                    a@[i].1,
                ) is Some && parse(a@[i].1)->0.finds((v % 0x1_0000_0000) as u32);
            &&& r ==> found
            &&& keys_ascend(a@) && found ==> r
        }),
{
    let lo = (v % 0x1_0000_0000) as u32;
    if r {
        let i = choose|i: int| 0 <= i < a@.len() && #[trigger] entry_finds(a@[i], v);
        assert(a@[i].0 == v / 0x1_0000_0000);
    }
    if exists|i: int|
        0 <= i < a@.len() && (#[trigger] a@[i]).0 == v / 0x1_0000_0000 && parse(a@[i].1) is Some
            && parse(a@[i].1)->0.finds(lo) {
        let i = choose|i: int|
            0 <= i < a@.len() && (#[trigger] a@[i]).0 == v / 0x1_0000_0000 && parse(a@[i].1) is Some
                && parse(a@[i].1)->0.finds(lo);
        assert(entry_finds(a@[i], v));
    }
}

} // verus!
