//! What the answers of archived bitmaps and treemaps are made of, in order or not.
use crate::archive::bytes_empty;
use crate::archive::bytes_first_is;
use crate::archive::bytes_last_is;
use crate::archive::AccessError;
use crate::archive::ArchivedRoaringBitmap;
use crate::archive::InvalidFrozenBitmap;
use crate::archive::TooLarge;
use crate::bitmap::forms_follow;
use crate::bitmap::has_container;
use crate::byte_laws::containers_told;
use crate::byte_laws::frozen_told;
use crate::byte_laws::integers_told;
use crate::byte_laws::law_counted;
use crate::byte_laws::law_opened;
use crate::format::frozen_bytes;
use crate::format::parse;
use crate::format::Zones;
use crate::frozen::FrozenRoaringBitmapView;
use crate::laws::law_empty_counts_none;
use crate::model::lemma_first_container;
use crate::model::lemma_last_container;
use crate::model::lemma_store_card;
use crate::model::StoreModel;
use crate::parts::high64;
use crate::parts::low64;
use crate::rkyv_calls::aligned_bytes;
use crate::rkyv_calls::byte_map;
use crate::rkyv_calls::read_map_archive;
use crate::rkyv_calls::read_vec_archive;
use crate::search::bisect;
use crate::treemap::bitmaps_follow;
use crate::treemap::key_in_range;
use crate::treemap::RoaringTreemap;
use crate::treemap_archive::all_frozen;
use crate::treemap_archive::byte_entries;
use crate::treemap_archive::first_full;
use crate::treemap_archive::first_missing;
use crate::treemap_archive::frozen_map;
use crate::treemap_archive::last_full;
use crate::treemap_archive::last_missing;
use crate::treemap_archive::thaw;
use crate::treemap_archive::ArchivedRoaringTreemap;
use crate::zones::lemma_container_inside;
use crate::zones::lemma_parse_wf;
use rkyv::util::AlignedVec;
use std::collections::BTreeMap;
use vstd::prelude::*;

verus! {

/// **Bisection.** It asks in the middle first, and goes on in the half that the answer points to.
pub proof fn law_bisect(probe: spec_fn(int) -> int, left: int, right: int)
    ensures
        left >= right ==> bisect(probe, left, right) is None,
        left < right ==> ({
            let mid = left + (right - left) / 2;
            &&& probe(mid) == 0 ==> bisect(probe, left, right) == Some(mid)
            &&& probe(mid) < 0 ==> bisect(probe, left, right) == bisect(probe, mid + 1, right)
            &&& probe(mid) > 0 ==> bisect(probe, left, right) == bisect(probe, left, mid)
        }),
{
}

/// **What is asked in a look-up.** Keys and values are compared with the high and the low bits of
/// the integer, and intervals by their ends.
pub proof fn law_look_up(z: Zones, v: u32, i: int, j: int)
    requires
        z.wf(),
        0 <= i < z.containers().len(),
    ensures
        ({
            let x = (v % 65536) as u16;
            let n = z.containers().len() as int;
            let keys = z.key_probe((v / 65536) as u16);
            let c = z.containers()[i];
            &&& keys(i) == c.key - v / 65536
            &&& bisect(keys, 0, n) is None ==> !z.finds(v)
            &&& bisect(keys, 0, n) == Some(i) ==> (z.finds(v) <==> z.container_finds(i, x))
            &&& match c.store {
                StoreModel::Bitmap(_, words) => z.container_finds(i, x) <==> (words[x as int / 64]
                    >> ((x % 64) as u64)) & 1 == 1,
                StoreModel::Run(runs) => {
                    let probe = z.interval_probe(i, x);
                    &&& z.container_finds(i, x) <==> bisect(probe, 0, runs.len() as int) is Some
                    &&& 0 <= j < runs.len() ==> {
                        &&& probe(j) > 0 <==> x < runs[j].start
                        &&& probe(j) < 0 <==> runs[j].start <= x && runs[j].end < x
                    }
                },
                StoreModel::Array(values) => {
                    let probe = z.value_probe(i, x);
                    &&& z.container_finds(i, x) <==> bisect(probe, 0, values.len() as int) is Some
                    &&& 0 <= j < values.len() ==> probe(j) == values[j] - x
                },
            }
        }),
{
    lemma_container_inside(z, i);
    let c = z.containers()[i];
    assert(c.store == z.store(i));
}

/// **Archived bitmaps answer as views do.** Where the bytes of an archived bitmap are a frozen
/// bitmap, in order or not, it answers as the view of them does.
pub proof fn law_answers_of_view<'a>(
    a: ArchivedRoaringBitmap<'a>,
    view: FrozenRoaringBitmapView<'a>,
    v: u32,
)
    requires
        parse(a@) == Some(view@),
    ensures
        forall|r: bool, q: bool|
            call_ensures(ArchivedRoaringBitmap::<'a>::contains, (&a, v), r) && call_ensures(
                FrozenRoaringBitmapView::<'a>::contains,
                (&view, v),
                q,
            ) ==> r == q,
        forall|r: u64, q: u64|
            call_ensures(ArchivedRoaringBitmap::<'a>::len, (&a,), r) && call_ensures(
                FrozenRoaringBitmapView::<'a>::len,
                (&view,),
                q,
            ) ==> r == q,
        forall|r: bool, q: bool|
            call_ensures(ArchivedRoaringBitmap::<'a>::is_empty, (&a,), r) && call_ensures(
                FrozenRoaringBitmapView::<'a>::is_empty,
                (&view,),
                q,
            ) ==> r == q,
        forall|r: Option<u32>, q: Option<u32>|
            call_ensures(ArchivedRoaringBitmap::<'a>::min, (&a,), r) && call_ensures(
                FrozenRoaringBitmapView::<'a>::min,
                (&view,),
                q,
            ) ==> r == q,
        forall|r: Option<u32>, q: Option<u32>|
            call_ensures(ArchivedRoaringBitmap::<'a>::max, (&a,), r) && call_ensures(
                FrozenRoaringBitmapView::<'a>::max,
                (&view,),
                q,
            ) ==> r == q,
{
    assert forall|r: Option<u32>, q: Option<u32>|
        #![trigger bytes_first_is(a@, r), bytes_first_is(a@, q)]
        bytes_first_is(a@, r) && bytes_first_is(a@, q) implies r == q by {
        lemma_one_first(a@, r, q);
    }
    assert forall|r: Option<u32>, q: Option<u32>|
        #![trigger bytes_last_is(a@, r), bytes_last_is(a@, q)]
        bytes_last_is(a@, r) && bytes_last_is(a@, q) implies r == q by {
        lemma_one_last(a@, r, q);
    }
    assert forall|r: Option<u32>, q: Option<u32>|
        call_ensures(ArchivedRoaringBitmap::<'a>::min, (&a,), r) && call_ensures(
            FrozenRoaringBitmapView::<'a>::min,
            (&view,),
            q,
        ) implies r == q by {
        assert(bytes_first_is(a@, r) && bytes_first_is(a@, q));
    }
    assert forall|r: Option<u32>, q: Option<u32>|
        call_ensures(ArchivedRoaringBitmap::<'a>::max, (&a,), r) && call_ensures(
            FrozenRoaringBitmapView::<'a>::max,
            (&view,),
            q,
        ) implies r == q by {
        assert(bytes_last_is(a@, r) && bytes_last_is(a@, q));
    }
}

/// One thing stands first.
proof fn lemma_one_first(s: Seq<u8>, r: Option<u32>, q: Option<u32>)
    requires
        bytes_first_is(s, r),
        bytes_first_is(s, q),
    ensures
        r == q,
{
    if !bytes_empty(s) {
        let ms = parse(s)->0.containers();
        let i = lemma_first_container(ms);
        assert(ms[i].first_is(r) && ms[i].first_is(q));
    }
}

/// One thing stands last.
proof fn lemma_one_last(s: Seq<u8>, r: Option<u32>, q: Option<u32>)
    requires
        bytes_last_is(s, r),
        bytes_last_is(s, q),
    ensures
        r == q,
{
    if !bytes_empty(s) {
        let ms = parse(s)->0.containers();
        let i = lemma_last_container(ms);
        assert(ms[i].last_is(r) && ms[i].last_is(q));
    }
}

/// **The minimum of entries.** It is the minimum of the first entry that is not empty, with the
/// key of that entry as its high bits. There is none exactly where all entries are empty, and it
/// is an error exactly where that entry has no minimum.
pub proof fn law_entries_min<'a, 'b>(
    a: ArchivedRoaringTreemap<'a>,
    r: Result<Option<u64>, InvalidFrozenBitmap>,
    i: int,
    b: ArchivedRoaringBitmap<'b>,
    min: Option<u32>,
)
    requires
        call_ensures(ArchivedRoaringTreemap::<'a>::checked_min, (&a,), r),
        0 <= i < a@.len(),
        b@ == a@[i].1,
        call_ensures(ArchivedRoaringBitmap::<'b>::min, (&b,), min),
        call_ensures(ArchivedRoaringBitmap::<'b>::is_empty, (&b,), false),
        forall|j: int|
            0 <= j < i ==> frozen_told((#[trigger] a@[j]).1) ==> integers_told(
                a@[j].1,
                containers_told(a@[j].1),
            ) == 0,
    ensures
        min is None ==> r is Err,
        min matches Some(lo) ==> r is Ok && r->Ok_0 is Some && r->Ok_0->0 == 0x1_0000_0000
            * a@[i].0 + lo,
{
    assert forall|j: int| 0 <= j < i implies bytes_empty((#[trigger] a@[j]).1) by {
        lemma_empty_told(a@[j].1);
    }
    assert(first_full(a@, i));
    assert forall|k: int| #[trigger] first_full(a@, k) implies k == i by {
        if k < i {
            assert(bytes_empty(a@[k].1));
        } else if k > i {
            assert(bytes_empty(a@[i].1));
        }
    }
    match r {
        Ok(Some(v)) => {
            let k = choose|k: int| #[trigger]
                first_full(a@, k) && a@[k].0 == high64(v) && bytes_first_is(
                    a@[k].1,
                    Some(low64(v)),
                );
            assert(k == i);
            lemma_one_first(a@[i].1, min, Some(low64(v)));
        },
        Ok(None) => {
            assert(bytes_empty(a@[i].1));
        },
        Err(_) => {
            let k = choose|k: int| #[trigger]
                first_full(a@, k) && bytes_first_is(a@[k].1, None);
            lemma_one_first(a@[i].1, min, None);
        },
    }
}

/// **The maximum of entries.** It is the maximum of the last entry that is not empty, with the key
/// of that entry as its high bits. It is an error exactly where that entry has no maximum.
pub proof fn law_entries_max<'a, 'b>(
    a: ArchivedRoaringTreemap<'a>,
    r: Result<Option<u64>, InvalidFrozenBitmap>,
    i: int,
    b: ArchivedRoaringBitmap<'b>,
    max: Option<u32>,
)
    requires
        call_ensures(ArchivedRoaringTreemap::<'a>::checked_max, (&a,), r),
        0 <= i < a@.len(),
        b@ == a@[i].1,
        call_ensures(ArchivedRoaringBitmap::<'b>::max, (&b,), max),
        call_ensures(ArchivedRoaringBitmap::<'b>::is_empty, (&b,), false),
        forall|j: int|
            i < j < a@.len() ==> frozen_told((#[trigger] a@[j]).1) ==> integers_told(
                a@[j].1,
                containers_told(a@[j].1),
            ) == 0,
    ensures
        max is None ==> r is Err,
        max matches Some(lo) ==> r is Ok && r->Ok_0 is Some && r->Ok_0->0 == 0x1_0000_0000
            * a@[i].0 + lo,
{
    assert forall|j: int| i < j < a@.len() implies bytes_empty((#[trigger] a@[j]).1) by {
        lemma_empty_told(a@[j].1);
    }
    assert(last_full(a@, i));
    assert forall|k: int| #[trigger] last_full(a@, k) implies k == i by {
        if k > i {
            assert(bytes_empty(a@[k].1));
        } else if k < i {
            assert(bytes_empty(a@[i].1));
        }
    }
    match r {
        Ok(Some(v)) => {
            let k = choose|k: int| #[trigger]
                last_full(a@, k) && a@[k].0 == high64(v) && bytes_last_is(
                    a@[k].1,
                    Some(low64(v)),
                );
            assert(k == i);
            lemma_one_last(a@[i].1, max, Some(low64(v)));
        },
        Ok(None) => {
            assert(bytes_empty(a@[i].1));
        },
        Err(_) => {
            let k = choose|k: int| #[trigger] last_full(a@, k) && bytes_last_is(a@[k].1, None);
            lemma_one_last(a@[i].1, max, None);
        },
    }
}

/// A byte string is empty exactly where its bytes speak of no integers.
proof fn lemma_empty_told(s: Seq<u8>)
    ensures
        bytes_empty(s) <==> (frozen_told(s) ==> integers_told(s, containers_told(s)) == 0),
{
    law_opened(s);
    if frozen_told(s) {
        let z = parse(s)->0;
        lemma_parse_wf(s);
        law_empty_counts_none(z);
        law_counted(s, containers_told(s));
    }
}

/// **When entries are empty.** An archived treemap is empty exactly where no entry speaks of
/// integers, and then has no ends.
pub proof fn law_entries_empty<'a>(
    a: ArchivedRoaringTreemap<'a>,
    empty: bool,
    min: Result<Option<u64>, InvalidFrozenBitmap>,
    max: Result<Option<u64>, InvalidFrozenBitmap>,
)
    requires
        call_ensures(ArchivedRoaringTreemap::<'a>::is_empty, (&a,), empty),
        call_ensures(ArchivedRoaringTreemap::<'a>::checked_min, (&a,), min),
        call_ensures(ArchivedRoaringTreemap::<'a>::checked_max, (&a,), max),
    ensures
        empty <==> forall|j: int|
            0 <= j < a@.len() ==> frozen_told((#[trigger] a@[j]).1) ==> integers_told(
                a@[j].1,
                containers_told(a@[j].1),
            ) == 0,
        empty ==> min == Ok::<Option<u64>, InvalidFrozenBitmap>(None),
        empty ==> max == Ok::<Option<u64>, InvalidFrozenBitmap>(None),
        !empty ==> min != Ok::<Option<u64>, InvalidFrozenBitmap>(None),
        !empty ==> max != Ok::<Option<u64>, InvalidFrozenBitmap>(None),
{
    assert forall|j: int| 0 <= j < a@.len() implies (bytes_empty((#[trigger] a@[j]).1) <==> (
    frozen_told(a@[j].1) ==> integers_told(a@[j].1, containers_told(a@[j].1)) == 0)) by {
        lemma_empty_told(a@[j].1);
    }
    if empty {
        assert(forall|j: int| 0 <= j < a@.len() ==> bytes_empty((#[trigger] a@[j]).1));
        assert(!first_missing(a@));
        assert(!last_missing(a@));
    }
}

/// **What is handed out.** The entries of an archived treemap are handed out in order, with their
/// keys and all of their bytes.
pub proof fn law_entries<'a>(a: ArchivedRoaringTreemap<'a>, r: Vec<(u32, Vec<u8>)>, i: int)
    requires
        call_ensures(ArchivedRoaringTreemap::<'a>::entries, (&a,), r),
    ensures
        r@.len() == a@.len(),
        0 <= i < a@.len() ==> r@[i].0 == a@[i].0 && r@[i].1@ == a@[i].1,
{
    let s = byte_entries(r@);
    assert(s.len() == r@.len());
    if 0 <= i < a@.len() {
        assert(s[i] == (r@[i].0, r@[i].1@));
    }
}

/// **What is verified and thawed.** An archived treemap is verified, and can be read, exactly
/// where the bytes of every entry are a frozen bitmap. Of entries with the same key the last is
/// read.
pub proof fn law_entries_thawed<'a>(
    a: ArchivedRoaringTreemap<'a>,
    ok: Result<(), InvalidFrozenBitmap>,
    r: Result<RoaringTreemap, InvalidFrozenBitmap>,
    i: int,
    k: u32,
)
    requires
        call_ensures(ArchivedRoaringTreemap::<'a>::verify, (&a,), ok),
        call_ensures(ArchivedRoaringTreemap::<'a>::deserialize, (&a,), r),
    ensures
        ok is Ok <==> forall|j: int| 0 <= j < a@.len() ==> frozen_told((#[trigger] a@[j]).1),
        r is Ok <==> ok is Ok,
        r matches Ok(t) ==> (t.bitmaps().contains_key(k) <==> exists|j: int|
            0 <= j < a@.len() && (#[trigger] a@[j]).0 == k),
        r is Ok && 0 <= i < a@.len() && a@[i].0 == k && (forall|j: int|
            i < j < a@.len() ==> (#[trigger] a@[j]).0 != k) ==> r->Ok_0.bitmaps()[k].model()
            == parse(a@[i].1)->0.containers(),
{
    let es = a@;
    assert forall|j: int| 0 <= j < es.len() implies (parse((#[trigger] es[j]).1) is Some
        <==> frozen_told(es[j].1)) by {
        law_opened(es[j].1);
    }
    if all_frozen(es) {
        assert forall|j: int| 0 <= j < es.len() implies frozen_told((#[trigger] es[j]).1) by {
            assert(parse(es[j].1) is Some);
        }
    }
    lemma_last_counts(es, es.len() as int, i, k);
    assert(es.take(es.len() as int) =~= es);
    if let Ok(t) = r {
        assert(t.models() == thaw(es));
        assert(t.models().contains_key(k) <==> t.bitmaps().contains_key(k));
        if t.bitmaps().contains_key(k) {
            assert(t.models()[k] == t.bitmaps()[k].model());
        }
        if 0 <= i < es.len() && es[i].0 == k {
            assert(thaw(es).contains_key(k));
        }
    }
}

/// What the first entries thaw to.
proof fn lemma_last_counts(es: Seq<(u32, Seq<u8>)>, n: int, i: int, k: u32)
    requires
        0 <= n <= es.len(),
    ensures
        thaw(es.take(n)).contains_key(k) <==> exists|j: int|
            0 <= j < n && (#[trigger] es[j]).0 == k,
        0 <= i < n && es[i].0 == k && (forall|j: int| i < j < n ==> (#[trigger] es[j]).0 != k)
            ==> thaw(es.take(n))[k] == parse(es[i].1)->0.containers(),
    decreases n,
{
    if n > 0 {
        lemma_last_counts(es, n - 1, i, k);
        assert(es.take(n).drop_last() =~= es.take(n - 1));
        assert(es.take(n).last() == es[n - 1]);
        if exists|j: int| 0 <= j < n - 1 && (#[trigger] es[j]).0 == k {
            let j = choose|j: int| 0 <= j < n - 1 && (#[trigger] es[j]).0 == k;
            assert(es[j].0 == k);
        }
    }
}

/// **What is accessed.** A buffer that reads as entries is accepted exactly where the bytes of
/// each are a frozen bitmap. What is accessed then has those entries.
pub proof fn law_treemap_accessed<'a>(
    bytes: &'a AlignedVec<16>,
    r: Result<ArchivedRoaringTreemap<'a>, AccessError>,
)
    requires
        call_ensures(ArchivedRoaringTreemap::<'a>::access, (bytes,), r),
    ensures
        ({
            match read_map_archive(aligned_bytes(*bytes)) {
                None => r is Err && r->Err_0 == AccessError::MalformedArchive,
                Some(es) => {
                    let all = forall|j: int|
                        0 <= j < es.len() ==> frozen_told((#[trigger] es[j]).1);
                    &&& all ==> r is Ok && r->Ok_0@ == es
                    &&& !all ==> r is Err && r->Err_0 == AccessError::InvalidFrozenBitmap
                },
            }
        }),
{
    if let Some(es) = read_map_archive(aligned_bytes(*bytes)) {
        assert forall|j: int| 0 <= j < es.len() implies (parse((#[trigger] es[j]).1) is Some
            <==> frozen_told(es[j].1)) by {
            law_opened(es[j].1);
        }
        if all_frozen(es) {
            assert forall|j: int| 0 <= j < es.len() implies frozen_told((#[trigger] es[j]).1) by {
                assert(parse(es[j].1) is Some);
            }
        }
    }
}

/// **What is accessed.** A buffer is accepted as the archive of a bitmap exactly where it is at
/// least eight bytes long and a multiple of four, its end points to bytes before it, and those are
/// a frozen bitmap.
pub proof fn law_bitmap_accessed<'a>(
    bytes: &'a AlignedVec<16>,
    r: Result<ArchivedRoaringBitmap<'a>, AccessError>,
)
    requires
        call_ensures(ArchivedRoaringBitmap::<'a>::access, (bytes,), r),
    ensures
        ({
            let s = aligned_bytes(*bytes);
            let n = s.len() as int;
            let offset = s[n - 8] + 256 * s[n - 7] + 65536 * s[n - 6] + 16777216 * s[n - 5];
            let len = s[n - 4] + 256 * s[n - 3] + 65536 * s[n - 2] + 16777216 * s[n - 1];
            let start = n - 8 + if offset < 0x8000_0000 {
                offset
            } else {
                offset - 0x1_0000_0000
            };
            let read = n >= 8 && n % 4 == 0 && start >= 0 && start + len <= n - 8;
            let inside = s.subrange(start, start + len);
            &&& !read ==> r is Err && r->Err_0 == AccessError::MalformedArchive
            &&& read && frozen_told(inside) ==> r is Ok && r->Ok_0@ == inside
            &&& read && !frozen_told(inside) ==> r is Err && r->Err_0
                == AccessError::InvalidFrozenBitmap
        }),
{
    let s = aligned_bytes(*bytes);
    let n = s.len() as int;
    if let Some(inside) = read_vec_archive(s) {
        law_opened(inside);
    }
}

/// **What a treemap freezes to.** There is a frozen bitmap for every bitmap of a treemap, under
/// its key, and no other.
pub proof fn law_frozen_map(t: RoaringTreemap, r: Result<BTreeMap<u32, Vec<u8>>, TooLarge>, k: u32)
    requires
        call_ensures(RoaringTreemap::to_frozen_map, (&t,), r),
    ensures
        r matches Ok(map) ==> {
            &&& map@.contains_key(k) <==> t.bitmaps().contains_key(k)
            &&& t.bitmaps().contains_key(k) ==> map@[k]@ == frozen_bytes(t.bitmaps()[k].model())
        },
        r is Err ==> exists|j: u32| #[trigger]
            t.bitmaps().contains_key(j) && frozen_bytes(t.bitmaps()[j].model()).len() > usize::MAX,
{
    let m = frozen_map(t.models());
    match r {
        Ok(map) => {
            let bytes = byte_map(map@);
            assert(bytes == m);
            assert(bytes.contains_key(k) <==> map@.contains_key(k));
            assert(m.contains_key(k) <==> t.bitmaps().contains_key(k));
            if t.bitmaps().contains_key(k) {
                assert(bytes[k] == map@[k]@);
                assert(m[k] == frozen_bytes(t.bitmaps()[k].model()));
            }
        },
        Err(_) => {
            let j = choose|j: u32| #[trigger] m.contains_key(j) && m[j].len() > usize::MAX;
            assert(t.bitmaps().contains_key(j));
            assert(m[j] == frozen_bytes(t.bitmaps()[j].model()));
        },
    }
}

/// **The containers of a treemap after a range.** A container that no integer of the range falls
/// into was there before. A new one is an array of up to 4096 values, or a bitset, and the others
/// keep their kind, but for arrays that get more values than that.
pub proof fn law_treemap_range_form(
    t: &mut RoaringTreemap,
    start: u64,
    last: u64,
    r: u64,
    k: u32,
    i: int,
)
    requires
        call_ensures(RoaringTreemap::insert_range, (t, start, last), r),
        final(t).bitmaps().contains_key(k),
        0 <= i < final(t).bitmaps()[k].model().len(),
    ensures
        ({
            let before = old(t).model_at(k);
            let c = final(t).bitmaps()[k].model()[i];
            let low = 0x1_0000_0000 * k + 65536 * c.key;
            let many = c.store.elements().len() > 4096;
            &&& start > last || last < low || low + 65535 < start ==> before.contains(c)
            &&& (forall|j: int| 0 <= j < before.len() ==> (#[trigger] before[j]).key != c.key)
                ==> if many {
                c.store is Bitmap
            } else {
                c.store is Array
            }
            &&& !before.contains(c) ==> forall|j: int|
                0 <= j < before.len() && (#[trigger] before[j]).key == c.key ==> {
                    &&& before[j].store is Array ==> if many {
                        c.store is Bitmap
                    } else {
                        c.store is Array
                    }
                    &&& before[j].store is Bitmap ==> c.store is Bitmap
                    &&& before[j].store is Run ==> c.store is Run
                }
        }),
{
    let before = old(t).model_at(k);
    let after = final(t).bitmaps()[k].model();
    let c = after[i];
    assert(final(t).bitmaps()[k].wf());
    assert(c.store.wf());
    lemma_store_card(c.store);
    assert(after == final(t).model_at(k));
    assert(bitmaps_follow(*old(t), *final(t), start as int, last as int));
    if key_in_range(k, start as int, last as int) {
        assert(forms_follow(before, after));
        if forall|j: int| 0 <= j < before.len() ==> (#[trigger] before[j]).key != c.key {
            assert(!has_container(before, c.key));
        }
        assert forall|j: int|
            0 <= j < before.len() && (#[trigger] before[j]).key == c.key
                && !before.contains(c) implies c.store.elements() != before[j].store.elements() by {
            if c.store.elements() == before[j].store.elements() {
                assert(c == before[j]);
            }
        }
    } else {
        assert(after == before);
        assert(before[i] == c);
    }
}

} // verus!
