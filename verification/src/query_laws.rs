//! How the answers of bitmaps and of views of their frozen forms hang together.
use crate::bitmap::RoaringBitmap;
use crate::byte_laws::frozen_told;
use crate::byte_laws::law_opened;
use crate::format::frozen_bytes;
use crate::format::parse;
use crate::format::Zones;
use crate::frozen::lemma_starts_at;
use crate::frozen::start_address;
use crate::frozen::starts_at;
use crate::frozen::FrozenRoaringBitmapView;
use crate::laws::containers_size;
use crate::laws::law_empty_counts_none;
use crate::laws::law_order_kept;
use crate::laws::law_refreeze;
use crate::laws::law_size;
use crate::laws::lemma_no_padding;
use crate::model::bit;
use crate::model::containers_empty;
use crate::model::elements;
use crate::model::greatest_is;
use crate::model::least_is;
use crate::model::lemma_containers_card;
use crate::model::ContainerModel;
use crate::model::StoreModel;
use crate::search::bisect;
use crate::search::lemma_bisect_sound;
use crate::zones::lemma_container_finds;
use crate::zones::lemma_container_inside;
use vstd::prelude::*;
use vstd::set_lib::lemma_set_disjoint_lens;

verus! {

/// Whether a store holds `x`: as a value, in an interval, or as a set bit.
pub open spec fn store_member(store: StoreModel, x: u16) -> bool {
    match store {
        StoreModel::Array(s) => exists|j: int| 0 <= j < s.len() && #[trigger] s[j] == x,
        StoreModel::Run(s) => exists|j: int|
            0 <= j < s.len() && (#[trigger] s[j]).start <= x && x <= s[j].end,
        StoreModel::Bitmap(_, words) => (words[x as int / 64] >> ((x % 64) as u64)) & 1 == 1,
    }
}

/// Whether the containers hold `v`: the one whose key is its high 16 bits holds its low 16 bits.
pub open spec fn member(ms: Seq<ContainerModel>, v: u32) -> bool {
    exists|i: int|
        0 <= i < ms.len() && (#[trigger] ms[i]).key == v / 65536 && store_member(
            ms[i].store,
            (v % 65536) as u16,
        )
}

/// **What a store holds.** The set of a store is told by its values, intervals or bits.
pub proof fn law_store_members(store: StoreModel, x: u16)
    ensures
        store.elements().contains(x) <==> store_member(store, x),
{
    match store {
        StoreModel::Array(s) => {},
        StoreModel::Run(s) => {
            if store_member(store, x) {
                let j = choose|j: int|
                    0 <= j < s.len() && (#[trigger] s[j]).start <= x && x <= s[j].end;
                assert(s[j].start <= x <= s[j].end);
            }
        },
        StoreModel::Bitmap(_, words) => {},
    }
}

/// **What a bitmap holds.** An integer is in the set of containers exactly where the container
/// with its high bits as the key holds its low bits.
pub proof fn law_members(ms: Seq<ContainerModel>, v: u32)
    ensures
        elements(ms).contains(v) <==> member(ms, v),
{
    if elements(ms).contains(v) {
        let i = choose|i: int| 0 <= i < ms.len() && (#[trigger] ms[i]).has(v);
        law_store_members(ms[i].store, (v % 65536) as u16);
        assert(ms[i].store.elements().contains((v % 65536) as u16));
        assert(ms[i].key == v / 65536);
    }
    if member(ms, v) {
        let i = choose|i: int|
            0 <= i < ms.len() && (#[trigger] ms[i]).key == v / 65536 && store_member(
                ms[i].store,
                (v % 65536) as u16,
            );
        law_store_members(ms[i].store, (v % 65536) as u16);
        assert(ms[i].has(v));
    }
}

/// **The set of a bitmap.** A bitmap holds what its containers do.
pub proof fn law_bitmap_members(b: RoaringBitmap, v: u32)
    ensures
        b@.contains(v) <==> member(b.model(), v),
{
    law_members(b.model(), v);
}

/// **Alignment and format decide.** Of the address that a slice was said to start at, it only
/// counts whether it is a multiple of 32: there is a view exactly where it is one and the bytes
/// are a frozen bitmap.
pub(crate) proof fn law_new<'a>(buf: &'a [u8], r: Option<FrozenRoaringBitmapView<'a>>)
    requires
        call_ensures(FrozenRoaringBitmapView::<'a>::new, (buf,), r),
    ensures
        exists|address: usize| #[trigger]
            call_ensures(start_address, (buf,), address) && match r {
                Some(view) => address % 32 == 0 && frozen_told(buf@) && parse(buf@) == Some(view@),
                None => address % 32 != 0 || !frozen_told(buf@),
            },
{
    law_opened(buf@);
    let address = choose|address: usize| #[trigger]
        starts_at(buf, address) && (r is Some <==> address % 32 == 0 && parse(buf@) is Some);
    lemma_starts_at(buf, address);
}

/// **A known address decides likewise.** At a multiple of 32 there is a view exactly where the
/// bytes are a frozen bitmap, as there is at any address where alignment does not count.
pub proof fn law_new_at<'a>(
    address: usize,
    buf: &'a [u8],
    r: Option<FrozenRoaringBitmapView<'a>>,
    q: Option<FrozenRoaringBitmapView<'a>>,
)
    requires
        call_ensures(FrozenRoaringBitmapView::<'a>::new_at, (address, buf), r),
        call_ensures(FrozenRoaringBitmapView::<'a>::new_unaligned, (buf,), q),
    ensures
        r is Some <==> address % 32 == 0 && frozen_told(buf@),
        q is Some <==> frozen_told(buf@),
        r is Some ==> r->0@ == q->0@,
        q is Some ==> parse(buf@) == Some(q->0@),
{
    law_opened(buf@);
}

/// **Nothing is found that is not there.** Whatever order the bytes of a view are in, it only
/// says of an integer that it contains it where one of its containers holds it.
pub proof fn law_view_sound<'a>(view: FrozenRoaringBitmapView<'a>, v: u32, r: bool)
    requires
        view@.wf(),
        call_ensures(FrozenRoaringBitmapView::<'a>::contains, (&view, v), r),
    ensures
        r ==> member(view@.containers(), v),
{
    if r {
        let z = view@;
        let n = z.count_containers() as int;
        let key = z.key_probe((v / 65536) as u16);
        lemma_bisect_sound(key, 0, n);
        let i = bisect(key, 0, n)->0;
        assert(z.finds(v));
        lemma_found_inside(z, i, (v % 65536) as u16);
        law_store_members(z.store(i), (v % 65536) as u16);
        assert(z.containers()[i].key == v / 65536);
    }
}

/// What a look-up in a container finds is in it.
proof fn lemma_found_inside(z: Zones, i: int, x: u16)
    requires
        z.wf(),
        0 <= i < z.count_containers(),
        z.container_finds(i, x),
    ensures
        z.store(i).elements().contains(x),
{
    lemma_container_inside(z, i);
    lemma_bisect_sound(z.interval_probe(i, x), 0, z.count(i));
    lemma_bisect_sound(z.value_probe(i, x), 0, z.count(i) + 1);
    match z.store(i) {
        StoreModel::Run(s) => {
            let j = bisect(z.interval_probe(i, x), 0, z.count(i))->0;
            assert(s[j].start <= x <= s[j].end);
        },
        StoreModel::Array(s) => {
            let j = bisect(z.value_probe(i, x), 0, z.count(i) + 1)->0;
            assert(s[j] == x);
        },
        StoreModel::Bitmap(_, _) => {},
    }
    assert(z.store(i).has(x));
}

/// **Everything is found that is there.** A view of a bitmap in order says of exactly those
/// integers that it contains them that one of its containers holds.
pub proof fn law_view_contains<'a>(view: FrozenRoaringBitmapView<'a>, v: u32, r: bool)
    requires
        view@.valid(),
        call_ensures(FrozenRoaringBitmapView::<'a>::contains, (&view, v), r),
    ensures
        r <==> member(view@.containers(), v),
{
    law_members(view@.containers(), v);
}

/// **Look-ups in one container.** A view of a bitmap in order finds in a container exactly what
/// that container holds, and nothing that it does not hold in any other.
pub proof fn law_view_container<'a>(
    view: FrozenRoaringBitmapView<'a>,
    i: usize,
    x: u16,
    r: bool,
)
    requires
        view@.wf(),
        i < view@.containers().len(),
        call_ensures(FrozenRoaringBitmapView::<'a>::container_contains, (&view, i, x), r),
    ensures
        r ==> store_member(view@.containers()[i as int].store, x),
        view@.valid() ==> (r <==> store_member(view@.containers()[i as int].store, x)),
{
    let z = view@;
    law_store_members(z.store(i as int), x);
    if r {
        lemma_found_inside(z, i as int, x);
    }
    if z.valid() {
        assert(z.containers()[i as int].store.wf());
        lemma_container_finds(z, i as int, x);
    }
}

/// **The ends bound what is contained.** What a view of a bitmap in order gives as its minimum and
/// maximum it contains, and all that it contains lies between them. It gives none exactly where
/// it contains nothing.
pub proof fn law_view_ends<'a>(
    view: FrozenRoaringBitmapView<'a>,
    min: Option<u32>,
    max: Option<u32>,
    v: u32,
    r: bool,
)
    requires
        view@.valid(),
        call_ensures(FrozenRoaringBitmapView::<'a>::min, (&view,), min),
        call_ensures(FrozenRoaringBitmapView::<'a>::max, (&view,), max),
        call_ensures(FrozenRoaringBitmapView::<'a>::contains, (&view, v), r),
    ensures
        r ==> min is Some && max is Some && min->0 <= v <= max->0,
        min matches Some(w) ==> member(view@.containers(), w) && (v == w ==> r),
        max matches Some(w) ==> member(view@.containers(), w) && (v == w ==> r),
{
    let ms = view@.containers();
    law_members(ms, v);
    if let Some(w) = min {
        law_members(ms, w);
    }
    if let Some(w) = max {
        law_members(ms, w);
    }
    assert(r ==> elements(ms).contains(v));
}

/// **The ends of any view.** Where the first container that is not empty is an array or a list of
/// runs, the minimum is its first value, whatever order the bytes are in.
pub proof fn law_view_first<'a>(view: FrozenRoaringBitmapView<'a>, min: Option<u32>, i: int)
    requires
        call_ensures(FrozenRoaringBitmapView::<'a>::min, (&view,), min),
        0 <= i < view@.containers().len(),
        forall|j: int|
            0 <= j < i ==> (#[trigger] view@.containers()[j].store matches StoreModel::Run(s)
                && s.len() == 0),
    ensures
        ({
            let c = view@.containers()[i];
            match c.store {
                StoreModel::Array(s) => s.len() > 0 ==> min is Some && min->0 == 65536 * c.key
                    + s[0],
                StoreModel::Run(s) => s.len() > 0 ==> min is Some && min->0 == 65536 * c.key
                    + s[0].start,
                StoreModel::Bitmap(n, _) => n > 0 ==> match min {
                    Some(v) => {
                        &&& v / 65536 == c.key
                        &&& store_member(c.store, (v % 65536) as u16)
                        &&& forall|x: u16|
                            #![trigger store_member(c.store, x)]
                            store_member(c.store, x) ==> v % 65536 <= x
                    },
                    None => forall|x: u16| !store_member(c.store, x),
                },
            }
        }),
{
    let ms = view@.containers();
    let c = ms[i];
    assert forall|j: int| 0 <= j < i implies (#[trigger] ms.take(i)[j]).store.is_empty() by {
        assert(ms[j].store matches StoreModel::Run(s) && s.len() == 0);
    }
    assert(containers_empty(ms.take(i)));
    if !c.store.is_empty() {
        assert(c.first_is(min));
    }
    assert forall|x: u16| c.store.has(x) <==> store_member(c.store, x) by {
        law_store_members(c.store, x);
        assert(c.store.elements().contains(x) <==> c.store.has(x));
    }
    if let StoreModel::Bitmap(n, words) = c.store {
        assert forall|x: u16| store_member(c.store, x) implies bit(words, x) by {
            assert(c.store.has(x));
        }
        if let Some(v) = min {
            if n > 0 {
                assert(c.store.has((v % 65536) as u16));
            }
        }
    }
}

/// **The ends of any view.** Where the last container that is not empty is an array or a list of
/// runs, the maximum is its last value, whatever order the bytes are in.
pub proof fn law_view_last<'a>(view: FrozenRoaringBitmapView<'a>, max: Option<u32>, i: int)
    requires
        call_ensures(FrozenRoaringBitmapView::<'a>::max, (&view,), max),
        0 <= i < view@.containers().len(),
        forall|j: int|
            i < j < view@.containers().len() ==> (
            #[trigger] view@.containers()[j].store matches StoreModel::Run(s) && s.len() == 0),
    ensures
        ({
            let c = view@.containers()[i];
            match c.store {
                StoreModel::Array(s) => s.len() > 0 ==> max is Some && max->0 == 65536 * c.key
                    + s[s.len() - 1],
                StoreModel::Run(s) => s.len() > 0 ==> max is Some && max->0 == 65536 * c.key
                    + s[s.len() - 1].end,
                StoreModel::Bitmap(n, _) => n > 0 ==> match max {
                    Some(v) => {
                        &&& v / 65536 == c.key
                        &&& store_member(c.store, (v % 65536) as u16)
                        &&& forall|x: u16|
                            #![trigger store_member(c.store, x)]
                            store_member(c.store, x) ==> x <= v % 65536
                    },
                    None => forall|x: u16| !store_member(c.store, x),
                },
            }
        }),
{
    let ms = view@.containers();
    let c = ms[i];
    let rest = ms.skip(i + 1);
    assert forall|j: int| 0 <= j < rest.len() implies (#[trigger] rest[j]).store.is_empty() by {
        assert(ms[j + i + 1].store matches StoreModel::Run(s) && s.len() == 0);
    }
    assert(containers_empty(rest));
    if !c.store.is_empty() {
        assert(c.last_is(max));
    }
    assert forall|x: u16| c.store.has(x) <==> store_member(c.store, x) by {
        law_store_members(c.store, x);
        assert(c.store.elements().contains(x) <==> c.store.has(x));
    }
    if let StoreModel::Bitmap(n, words) = c.store {
        assert forall|x: u16| store_member(c.store, x) implies bit(words, x) by {
            assert(c.store.has(x));
        }
        if let Some(v) = max {
            if n > 0 {
                assert(c.store.has((v % 65536) as u16));
            }
        }
    }
}

/// **Counting.** A view of a bitmap in order counts the integers that its containers hold. Any
/// view is empty exactly where it counts none.
pub proof fn law_view_count<'a>(view: FrozenRoaringBitmapView<'a>, n: u64, empty: bool)
    requires
        view@.wf(),
        call_ensures(FrozenRoaringBitmapView::<'a>::len, (&view,), n),
        call_ensures(FrozenRoaringBitmapView::<'a>::is_empty, (&view,), empty),
    ensures
        empty <==> n == 0,
        view@.valid() ==> n == Set::new(|v: u32| member(view@.containers(), v)).len(),
{
    law_empty_counts_none(view@);
    if view@.valid() {
        let ms = view@.containers();
        assert forall|v: u32| elements(ms).contains(v) <==> member(ms, v) by {
            law_members(ms, v);
        }
        assert(elements(ms) =~= Set::new(|v: u32| member(ms, v)));
    }
}

/// **Freezing keeps the containers.** A view of the frozen form of a bitmap in order is in order,
/// and has the containers of the bitmap.
pub proof fn law_frozen_view<'a>(
    b: RoaringBitmap,
    bytes: Vec<u8>,
    view: FrozenRoaringBitmapView<'a>,
)
    requires
        b.wf(),
        call_ensures(RoaringBitmap::to_frozen_bytes, (&b,), bytes),
        parse(bytes@) == Some(view@),
    ensures
        view@.containers() == b.model(),
        view@.valid(),
{
    assert(bytes@ == frozen_bytes(b.model()));
    law_order_kept(b.model());
}

/// **Freezing keeps what is contained.** A view of the frozen form of a bitmap contains what the
/// bitmap does, and counts as many integers.
pub proof fn law_frozen_contains<'a>(
    b: RoaringBitmap,
    bytes: Vec<u8>,
    view: FrozenRoaringBitmapView<'a>,
    v: u32,
)
    requires
        b.wf(),
        call_ensures(RoaringBitmap::to_frozen_bytes, (&b,), bytes),
        parse(bytes@) == Some(view@),
    ensures
        forall|r: bool, q: bool|
            call_ensures(FrozenRoaringBitmapView::<'a>::contains, (&view, v), r) && call_ensures(
                RoaringBitmap::contains,
                (&b, v),
                q,
            ) ==> r == q,
        forall|r: u64, q: u64|
            call_ensures(FrozenRoaringBitmapView::<'a>::len, (&view,), r) && call_ensures(
                RoaringBitmap::len,
                (&b,),
                q,
            ) ==> r == q,
{
    law_frozen_view(b, bytes, view);
    assert(b@ == elements(view@.containers()));
}

/// **Freezing keeps the ends.** A view of the frozen form of a bitmap has the ends of the bitmap,
/// and is empty where the bitmap is.
pub proof fn law_frozen_ends<'a>(
    b: RoaringBitmap,
    bytes: Vec<u8>,
    view: FrozenRoaringBitmapView<'a>,
)
    requires
        b.wf(),
        call_ensures(RoaringBitmap::to_frozen_bytes, (&b,), bytes),
        parse(bytes@) == Some(view@),
    ensures
        forall|r: bool, q: bool|
            call_ensures(FrozenRoaringBitmapView::<'a>::is_empty, (&view,), r) && call_ensures(
                RoaringBitmap::is_empty,
                (&b,),
                q,
            ) ==> r == q,
        forall|r: Option<u32>, q: Option<u32>|
            call_ensures(FrozenRoaringBitmapView::<'a>::min, (&view,), r) && call_ensures(
                RoaringBitmap::min,
                (&b,),
                q,
            ) ==> r == q,
        forall|r: Option<u32>, q: Option<u32>|
            call_ensures(FrozenRoaringBitmapView::<'a>::max, (&view,), r) && call_ensures(
                RoaringBitmap::max,
                (&b,),
                q,
            ) ==> r == q,
{
    law_frozen_view(b, bytes, view);
    let set = elements(view@.containers());
    assert(b@ == set);
    assert forall|r: Option<u32>, q: Option<u32>|
        #![trigger least_is(set, r), least_is(set, q)]
        least_is(set, r) && least_is(set, q) implies r == q by {
        lemma_one_least(set, r, q);
    }
    assert forall|r: Option<u32>, q: Option<u32>|
        #![trigger greatest_is(set, r), greatest_is(set, q)]
        greatest_is(set, r) && greatest_is(set, q) implies r == q by {
        lemma_one_greatest(set, r, q);
    }
}

/// A set has one least element.
proof fn lemma_one_least(s: Set<u32>, r: Option<u32>, q: Option<u32>)
    requires
        least_is(s, r),
        least_is(s, q),
    ensures
        r == q,
{
}

/// A set has one greatest element.
proof fn lemma_one_greatest(s: Set<u32>, r: Option<u32>, q: Option<u32>)
    requires
        greatest_is(s, r),
        greatest_is(s, q),
    ensures
        r == q,
{
}

/// **Thawing undoes freezing, and freezing thawing.** The owned form of a view of the frozen form
/// of a bitmap has the same containers. The frozen form of the owned form of a view of bytes
/// is those bytes, where there are none to spare and no interval is cut off.
pub proof fn law_thaw_and_freeze<'a>(
    s: Seq<u8>,
    view: FrozenRoaringBitmapView<'a>,
    b: RoaringBitmap,
    bytes: Vec<u8>,
)
    requires
        parse(s) == Some(view@),
        call_ensures(FrozenRoaringBitmapView::<'a>::to_roaring_bitmap, (&view,), b),
        call_ensures(RoaringBitmap::to_frozen_bytes, (&b,), bytes),
    ensures
        b.model() == view@.containers(),
        view@.unsaturated() && bytes@.len() == s.len() ==> bytes@ == s,
{
    if view@.unsaturated() && bytes@.len() == s.len() {
        law_refreeze(s);
        lemma_no_padding(s);
    }
}

/// **Answers of a bitmap.** A bitmap in order contains exactly what its containers hold, counts
/// that, and has the least and the greatest of it as its ends.
pub proof fn law_bitmap_answers(
    b: RoaringBitmap,
    v: u32,
    r: bool,
    min: Option<u32>,
    max: Option<u32>,
)
    requires
        b.wf(),
        call_ensures(RoaringBitmap::contains, (&b, v), r),
        call_ensures(RoaringBitmap::min, (&b,), min),
        call_ensures(RoaringBitmap::max, (&b,), max),
    ensures
        r <==> member(b.model(), v),
        r ==> min is Some && max is Some && min->0 <= v <= max->0,
        min matches Some(w) ==> member(b.model(), w),
        max matches Some(w) ==> member(b.model(), w),
        forall|n: u64|
            call_ensures(RoaringBitmap::len, (&b,), n) ==> n == Set::new(
                |w: u32| member(b.model(), w),
            ).len(),
        forall|e: bool|
            call_ensures(RoaringBitmap::is_empty, (&b,), e) && e ==> !r,
        forall|e: bool|
            call_ensures(RoaringBitmap::is_empty, (&b,), e) && !e ==> min is Some,
{
    let ms = b.model();
    assert forall|w: u32| elements(ms).contains(w) <==> member(ms, w) by {
        law_members(ms, w);
    }
    assert(elements(ms) =~= Set::new(|w: u32| member(ms, w)));
    assert(b@ == elements(ms));
}

/// **Adding one integer.** Afterwards a bitmap holds that integer and what it held before, and
/// nothing else. It says that the integer was missing exactly where it was.
pub proof fn law_insert(b: &mut RoaringBitmap, v: u32, r: bool, w: u32)
    requires
        call_ensures(RoaringBitmap::insert, (b, v), r),
    ensures
        member(final(b).model(), w) <==> w == v || member(old(b).model(), w),
        r <==> !member(old(b).model(), v),
        final(b).wf(),
{
    law_members(final(b).model(), w);
    law_members(old(b).model(), w);
    law_members(old(b).model(), v);
    assert(final(b)@.contains(w) <==> old(b)@.insert(v).contains(w));
}

/// **Adding a range.** Afterwards a bitmap holds the integers of the range and what it held
/// before, and nothing else.
pub proof fn law_insert_range(b: &mut RoaringBitmap, start: u32, last: u32, r: u64, w: u32)
    requires
        old(b).wf(),
        call_ensures(RoaringBitmap::insert_range, (b, start, last), r),
    ensures
        member(final(b).model(), w) <==> start <= w <= last || member(old(b).model(), w),
        r == Set::new(|x: u32| start <= x <= last && !member(old(b).model(), x)).len(),
        final(b).wf(),
{
    law_members(final(b).model(), w);
    law_members(old(b).model(), w);
    let range = Set::new(|x: u32| start <= x <= last);
    assert(final(b)@.contains(w) <==> old(b)@.union(range).contains(w));
    let added = Set::new(|x: u32| start <= x <= last && !member(old(b).model(), x));
    assert forall|x: u32| added.contains(x) <==> final(b)@.difference(old(b)@).contains(x) by {
        law_members(old(b).model(), x);
        assert(final(b)@.contains(x) <==> old(b)@.union(range).contains(x));
    }
    assert(added =~= final(b)@.difference(old(b)@));
    lemma_containers_card(old(b).model());
    lemma_containers_card(final(b).model());
    assert(final(b)@ =~= old(b)@ + added);
    lemma_set_disjoint_lens(old(b)@, added);
}

/// **What is written to a buffer.** The frozen form goes to its start, as many bytes as were
/// announced, and the rest is as it was. As many are announced as the containers and the header
/// take up.
pub proof fn law_serialized(b: RoaringBitmap, size: usize, buf: &mut [u8], i: int)
    requires
        call_ensures(RoaringBitmap::frozen_size_in_bytes, (&b,), size),
        call_ensures(RoaringBitmap::frozen_serialize_into, (&b, buf), ()),
        size <= old(buf)@.len(),
    ensures
        size == containers_size(b.model()) + 4,
        final(buf)@.len() == old(buf)@.len(),
        0 <= i < size ==> final(buf)@[i] == frozen_bytes(b.model())[i],
        size <= i < old(buf)@.len() ==> final(buf)@[i] == old(buf)@[i],
{
    law_size(b.model());
}

} // verus!
