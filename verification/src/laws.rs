//! What holds of frozen bitmaps as a whole.
use crate::bitmap::lemma_container_subset;
use crate::bits::lemma_same_word;
use crate::bytes::lemma_u32_bytes_at;
use crate::bytes::u32_at;
use crate::format::data_bytes;
use crate::format::data_len;
use crate::format::fits;
use crate::format::frozen_bytes;
use crate::format::header;
use crate::format::header_count;
use crate::format::padded_bytes;
use crate::format::parse;
use crate::format::Zones;
use crate::format::ARRAY_CONTAINER_TYPE;
use crate::format::BITSET_CONTAINER_TYPE;
use crate::format::RUN_CONTAINER_TYPE;
use crate::freeze::lemma_wf_fits;
use crate::model::ascending;
use crate::model::bits;
use crate::model::containers_empty;
use crate::model::containers_first_is;
use crate::model::containers_last_is;
use crate::model::containers_wf;
use crate::model::covers;
use crate::model::elements;
use crate::model::greatest_is;
use crate::model::join;
use crate::model::least_is;
use crate::model::lemma_containers_empty;
use crate::model::lemma_containers_first;
use crate::model::lemma_containers_last;
use crate::model::lemma_join;
use crate::model::lemma_store_card;
use crate::model::separated;
use crate::model::word_bit;
use crate::model::ContainerModel;
use crate::model::Interval;
use crate::model::StoreModel;
use crate::round_trip::lemma_parse_padded;
use crate::round_trip::lemma_written_again;
use crate::round_trip::lemma_zones_of;
use crate::round_trip::zones_of;
use crate::zones::lemma_container_inside;
use crate::zones::lemma_container_member;
use crate::zones::lemma_finds;
use crate::zones::lemma_parse_wf;
use crate::zones::lemma_run_total_min;
use crate::zones::lemma_total;
use vstd::prelude::*;

verus! {

/// **Round trip.** The frozen form of containers for which the format has room parses, and
/// what it stands for is those containers.
pub proof fn law_round_trip(ms: Seq<ContainerModel>)
    requires
        fits(ms),
    ensures
        parse(frozen_bytes(ms)) matches Some(z) && z.wf() && z.unsaturated() && z.containers()
            == ms,
{
    lemma_parse_padded(ms, Seq::empty());
    assert(padded_bytes(ms, Seq::empty()) =~= frozen_bytes(ms));
    lemma_zones_of(ms);
}

/// What containers take up in the frozen form: their values, words or intervals, and five
/// bytes for the key, the count and the type code of each.
pub open spec fn containers_size(ms: Seq<ContainerModel>) -> int
    decreases ms.len(),
{
    if ms.len() == 0 {
        0
    } else {
        containers_size(ms.drop_last()) + 5 + match ms.last().store {
            StoreModel::Array(s) => 2 * s.len() as int,
            StoreModel::Bitmap(_, words) => 8 * words.len() as int,
            StoreModel::Run(s) => 4 * s.len() as int,
        }
    }
}

/// **Size.** The frozen form takes up what the containers do, and four bytes for the header.
pub proof fn law_size(ms: Seq<ContainerModel>)
    ensures
        frozen_bytes(ms).len() == containers_size(ms) + 4,
    decreases ms.len(),
{
    if ms.len() > 0 {
        law_size(ms.drop_last());
    }
}

/// **The size suffices.** A buffer as long as the frozen form, or longer, holds it: its start
/// then reads as the containers, and the rest is as it was.
pub proof fn law_size_suffices(ms: Seq<ContainerModel>, before: Seq<u8>)
    requires
        fits(ms),
        frozen_bytes(ms).len() <= before.len(),
    ensures
        ({
            let size = frozen_bytes(ms).len() as int;
            let after = frozen_bytes(ms) + before.skip(size);
            &&& after.len() == before.len()
            &&& parse(after.take(size)) matches Some(z) && z.containers() == ms
            &&& after.skip(size) == before.skip(size)
        }),
{
    let size = frozen_bytes(ms).len() as int;
    let after = frozen_bytes(ms) + before.skip(size);
    assert(after.take(size) =~= frozen_bytes(ms));
    assert(after.skip(size) =~= before.skip(size));
    law_round_trip(ms);
}

/// What the first containers of a frozen bitmap take up, counted zone by zone.
proof fn lemma_offsets_size(z: Zones, n: int)
    requires
        z.wf(),
        0 <= n <= z.count_containers(),
    ensures
        z.offset(BITSET_CONTAINER_TYPE, n) + z.offset(RUN_CONTAINER_TYPE, n) + z.offset(
            ARRAY_CONTAINER_TYPE,
            n,
        ) + 5 * n == containers_size(z.containers().take(n)),
    decreases n,
{
    if n > 0 {
        lemma_offsets_size(z, n - 1);
        lemma_container_inside(z, n - 1);
        let t = z.containers().take(n);
        assert(t.drop_last() =~= z.containers().take(n - 1));
        assert(t.last() == z.containers()[n - 1]);
    }
}

/// **The size is needed.** No byte string that stands for the containers is shorter than their
/// frozen form.
pub proof fn law_size_needed(ms: Seq<ContainerModel>, s: Seq<u8>)
    requires
        parse(s) is Some,
        parse(s)->0.containers() == ms,
    ensures
        frozen_bytes(ms).len() <= s.len(),
{
    let z = parse(s)->0;
    let n = z.count_containers() as int;
    lemma_parse_wf(s);
    lemma_offsets_size(z, n);
    assert(z.containers().take(n) =~= ms);
    law_size(ms);
}

/// **Padding.** Bytes between the zones and the metadata make no difference.
pub proof fn law_padding(ms: Seq<ContainerModel>, pad: Seq<u8>)
    requires
        fits(ms),
    ensures
        parse(padded_bytes(ms, pad)) == parse(frozen_bytes(ms)),
{
    lemma_parse_padded(ms, pad);
    lemma_parse_padded(ms, Seq::empty());
    assert(padded_bytes(ms, Seq::empty()) =~= frozen_bytes(ms));
}

/// A sequence up to one index and from there up to another is the sequence up to the other.
proof fn lemma_take_more(s: Seq<u8>, i: int, j: int)
    requires
        0 <= i <= j <= s.len(),
    ensures
        s.take(i) + s.subrange(i, j) == s.take(j),
{
    assert(s.take(i) + s.subrange(i, j) =~= s.take(j));
}

/// **Freezing undoes thawing.** A frozen buffer whose intervals do not run past the last 16-bit
/// integer is the frozen form of the containers that it stands for, but for what stands
/// between its zones and its metadata.
pub proof fn law_refreeze(s: Seq<u8>)
    requires
        parse(s) is Some,
        parse(s)->0.unsaturated(),
    ensures
        s == padded_bytes(
            parse(s)->0.containers(),
            s.subrange(data_len(s), s.len() - 4 - 5 * header_count(s)),
        ),
        s.len() == data_len(s) + 5 * header_count(s) + 4 ==> s == frozen_bytes(
            parse(s)->0.containers(),
        ),
{
    let z = parse(s)->0;
    let ms = z.containers();
    let n = header_count(s);
    let end = s.len() - 4;
    let d = data_len(s);
    let pad = s.subrange(d, end - 5 * n);
    lemma_parse_wf(s);
    lemma_written_again(z);
    lemma_u32_bytes_at(s, end);
    assert(zones_of(ms) == z);
    let b = z.bitset_zone.len() as int;
    let r = b + z.run_zone.len();
    assert(d == r + z.array_zone.len());
    lemma_take_more(s, b, r);
    lemma_take_more(s, r, d);
    assert(s.take(b) =~= s.subrange(0, b));
    assert(data_bytes(ms) == s.take(d));
    lemma_take_more(s, d, end - 5 * n);
    lemma_take_more(s, end - 5 * n, end - 3 * n);
    lemma_take_more(s, end - 3 * n, end - n);
    lemma_take_more(s, end - n, end);
    lemma_take_more(s, end, s.len() as int);
    assert(s.take(s.len() as int) =~= s);
    assert(u32_at(s, end) == header(n));
    if s.len() == d + 5 * n + 4 {
        assert(pad =~= Seq::<u8>::empty());
        assert(data_bytes(ms) + pad =~= data_bytes(ms));
    }
}

/// A frozen buffer as long as the frozen form of the containers that it stands for has nothing
/// between its zones and its metadata.
pub proof fn lemma_no_padding(s: Seq<u8>)
    requires
        parse(s) is Some,
        s.len() == frozen_bytes(parse(s)->0.containers()).len(),
    ensures
        s.len() == data_len(s) + 5 * header_count(s) + 4,
{
    let z = parse(s)->0;
    let n = z.count_containers() as int;
    lemma_parse_wf(s);
    lemma_offsets_size(z, n);
    assert(z.containers().take(n) =~= z.containers());
    law_size(z.containers());
}

/// **Order is kept.** The frozen form of containers in order parses as a bitmap in order.
pub proof fn law_order_kept(ms: Seq<ContainerModel>)
    requires
        containers_wf(ms),
    ensures
        parse(frozen_bytes(ms)) matches Some(z) && z.valid() && z.containers() == ms,
{
    lemma_wf_fits(ms);
    law_round_trip(ms);
}

/// **Queries agree.** The view of the frozen form of a bitmap in order answers every query
/// as the set of the bitmap does.
pub proof fn law_queries_agree(ms: Seq<ContainerModel>)
    requires
        containers_wf(ms),
    ensures
        parse(frozen_bytes(ms)) matches Some(z) && {
            &&& forall|v: u32| z.finds(v) <==> elements(ms).contains(v)
            &&& z.total(z.count_containers() as int) == elements(ms).len()
            &&& containers_empty(z.containers()) <==> elements(ms) == Set::<u32>::empty()
            &&& forall|r: Option<u32>| #[trigger]
                containers_first_is(z.containers(), r) ==> least_is(elements(ms), r)
            &&& forall|r: Option<u32>| #[trigger]
                containers_last_is(z.containers(), r) ==> greatest_is(elements(ms), r)
        },
{
    law_order_kept(ms);
    let z = parse(frozen_bytes(ms))->0;
    assert forall|v: u32| z.finds(v) <==> elements(ms).contains(v) by {
        lemma_finds(z, v);
    }
    lemma_total(z);
    lemma_containers_empty(ms);
    assert forall|r: Option<u32>| #[trigger] containers_first_is(ms, r) implies least_is(
        elements(ms),
        r,
    ) by {
        lemma_containers_first(ms, r);
    }
    assert forall|r: Option<u32>| #[trigger] containers_last_is(ms, r) implies greatest_is(
        elements(ms),
        r,
    ) by {
        lemma_containers_last(ms, r);
    }
}

/// **Look-ups in one container agree.** A look-up in one container of the frozen form of a
/// bitmap in order finds what the bitmap holds under the key of that container, whatever kinds
/// of container stand there and before.
pub proof fn law_container_agrees(ms: Seq<ContainerModel>, i: int)
    requires
        containers_wf(ms),
        0 <= i < ms.len(),
    ensures
        parse(frozen_bytes(ms)) matches Some(z) && i < z.count_containers() && z.key(i)
            == ms[i].key && forall|x: u16|
            z.container_finds(i, x) <==> elements(ms).contains(#[trigger] join(ms[i].key, x)),
{
    law_order_kept(ms);
    let z = parse(frozen_bytes(ms))->0;
    assert(z.containers()[i].key == z.key(i));
    assert forall|x: u16|
        z.container_finds(i, x) <==> elements(ms).contains(#[trigger] join(ms[i].key, x)) by {
        lemma_container_member(z, i, x);
    }
}

/// **Ends are members.** What a view of a bitmap in order gives as its first and last
/// integers it also finds, and the first is not above the last.
pub proof fn law_ends_are_members(z: Zones, first: Option<u32>, last: Option<u32>)
    requires
        z.valid(),
        containers_first_is(z.containers(), first),
        containers_last_is(z.containers(), last),
    ensures
        first matches Some(v) ==> z.finds(v),
        last matches Some(v) ==> z.finds(v),
        first is None <==> containers_empty(z.containers()),
        last is None <==> containers_empty(z.containers()),
        first is Some && last is Some ==> first->0 <= last->0,
{
    let ms = z.containers();
    lemma_containers_first(ms, first);
    lemma_containers_last(ms, last);
    lemma_containers_empty(ms);
    if let Some(v) = first {
        lemma_finds(z, v);
        assert(elements(ms).contains(v));
    }
    if let Some(v) = last {
        lemma_finds(z, v);
        assert(elements(ms).contains(v));
    }
}

/// The first containers count no integers exactly where all of them are empty.
proof fn lemma_empty_total(z: Zones, n: int)
    requires
        z.wf(),
        0 <= n <= z.count_containers(),
    ensures
        0 <= z.total(n),
        z.total(n) == 0 <==> containers_empty(z.containers().take(n)),
    decreases n,
{
    let t = z.containers().take(n);
    if n > 0 {
        lemma_empty_total(z, n - 1);
        lemma_container_inside(z, n - 1);
        lemma_run_total_min(z, n - 1, z.count(n - 1));
        let rest = z.containers().take(n - 1);
        assert(t[n - 1] == z.containers()[n - 1]);
        assert(t[n - 1].store.is_empty() <==> z.typecodes[n - 1] == RUN_CONTAINER_TYPE && z.count(
            n - 1,
        ) == 0);
        assert(containers_empty(t) <==> containers_empty(rest) && t[n - 1].store.is_empty()) by {
            assert(forall|k: int| 0 <= k < n - 1 ==> rest[k] == t[k]);
        }
    }
}

/// **Empty means no integers.** A view is empty exactly where it counts no integers, in
/// order or not.
pub proof fn law_empty_counts_none(z: Zones)
    requires
        z.wf(),
    ensures
        containers_empty(z.containers()) <==> z.total(z.count_containers() as int) == 0,
{
    let n = z.count_containers() as int;
    lemma_empty_total(z, n);
    assert(z.containers().take(n) =~= z.containers());
}

/// Ascending values are told by their set.
pub proof fn lemma_one_array(s: Seq<u16>, t: Seq<u16>)
    requires
        ascending(s),
        ascending(t),
        forall|x: u16| s.contains(x) <==> t.contains(x),
    ensures
        s == t,
    decreases s.len(),
{
    if s.len() == 0 {
        if t.len() > 0 {
            assert(t.contains(t[0]));
        }
    } else {
        assert(s.contains(s.last()));
        assert(t.contains(s.last()));
        assert(t.contains(t.last()));
        assert(s.contains(t.last()));
        let a = s.drop_last();
        let b = t.drop_last();
        assert(s.last() == t.last());
        assert forall|x: u16| a.contains(x) <==> b.contains(x) by {
            if a.contains(x) {
                let i = choose|i: int| 0 <= i < a.len() && a[i] == x;
                assert(s[i] == x);
                assert(t.contains(x));
                let j = choose|j: int| 0 <= j < t.len() && t[j] == x;
                assert(b[j] == x);
            }
            if b.contains(x) {
                let i = choose|i: int| 0 <= i < b.len() && b[i] == x;
                assert(t[i] == x);
                assert(s.contains(x));
                let j = choose|j: int| 0 <= j < s.len() && s[j] == x;
                assert(a[j] == x);
            }
        }
        lemma_one_array(a, b);
        assert(s =~= a.push(s.last()));
        assert(t =~= b.push(t.last()));
    }
}

/// The last of separated intervals ends behind all others, and nothing stands right before it.
pub proof fn lemma_last_interval(s: Seq<Interval>)
    requires
        separated(s),
        s.len() > 0,
    ensures
        forall|x: u16| covers(s, x) ==> x <= s.last().end,
        covers(s, s.last().end),
        covers(s, s.last().start),
        s.last().start > 0 ==> !covers(s, (s.last().start - 1) as u16),
        forall|x: u16|
            covers(s.drop_last(), x) <==> covers(s, x) && !(s.last().start <= x <= s.last().end),
{
    let n = s.len() - 1;
    assert(s[n].start <= s[n].end);
    assert(covers(s, s[n].end));
    assert(covers(s, s[n].start));
    assert forall|x: u16| covers(s, x) implies x <= s.last().end by {
        let i = choose|i: int| 0 <= i < s.len() && (#[trigger] s[i]).start <= x <= s[i].end;
        if i < n {
            assert(s[i].end + 1 < s[n].start);
        }
    }
    if s.last().start > 0 && covers(s, (s.last().start - 1) as u16) {
        let x = (s.last().start - 1) as u16;
        let i = choose|i: int| 0 <= i < s.len() && (#[trigger] s[i]).start <= x <= s[i].end;
        if i < n {
            assert(s[i].end + 1 < s[n].start);
        }
    }
    assert forall|x: u16|
        covers(s.drop_last(), x) <==> covers(s, x) && !(s.last().start <= x <= s.last().end) by {
        let rest = s.drop_last();
        if covers(rest, x) {
            let i = choose|i: int|
                0 <= i < rest.len() && (#[trigger] rest[i]).start <= x <= rest[i].end;
            assert(s[i].start <= x <= s[i].end);
            assert(s[i].end + 1 < s[n].start);
        }
        if covers(s, x) && !(s.last().start <= x <= s.last().end) {
            let i = choose|i: int| 0 <= i < s.len() && (#[trigger] s[i]).start <= x <= s[i].end;
            assert(rest[i].start <= x <= rest[i].end);
        }
    }
}

/// Separated intervals are told by what they cover.
proof fn lemma_one_run_list(s: Seq<Interval>, t: Seq<Interval>)
    requires
        separated(s),
        separated(t),
        forall|x: u16| covers(s, x) <==> covers(t, x),
    ensures
        s == t,
    decreases s.len(),
{
    if s.len() == 0 || t.len() == 0 {
        if s.len() > 0 {
            lemma_last_interval(s);
            assert(covers(t, s.last().end));
        }
        if t.len() > 0 {
            lemma_last_interval(t);
            assert(covers(s, t.last().end));
        }
    } else {
        lemma_last_interval(s);
        lemma_last_interval(t);
        assert(covers(t, s.last().end) && covers(s, t.last().end));
        assert(s.last().end == t.last().end);
        if s.last().start < t.last().start {
            let x = (t.last().start - 1) as u16;
            assert(s[s.len() - 1].start <= x <= s[s.len() - 1].end);
            assert(covers(s, x));
        } else if t.last().start < s.last().start {
            let x = (s.last().start - 1) as u16;
            assert(t[t.len() - 1].start <= x <= t[t.len() - 1].end);
            assert(covers(t, x));
        }
        let a = s.drop_last();
        let b = t.drop_last();
        assert forall|x: u16| covers(a, x) <==> covers(b, x) by {
            assert(covers(s, x) <==> covers(t, x));
        }
        lemma_one_run_list(a, b);
        assert(s =~= a.push(s.last()));
        assert(t =~= b.push(t.last()));
    }
}

/// Whether two stores are of the same kind.
pub open spec fn same_kind(a: StoreModel, b: StoreModel) -> bool {
    match a {
        StoreModel::Array(_) => b is Array,
        StoreModel::Bitmap(_, _) => b is Bitmap,
        StoreModel::Run(_) => b is Run,
    }
}

/// **Set and kind tell a store.** Two stores in order that hold the same values and are of the
/// same kind are the same.
pub proof fn law_one_store(a: StoreModel, b: StoreModel)
    requires
        a.wf(),
        b.wf(),
        a.elements() == b.elements(),
        same_kind(a, b),
    ensures
        a == b,
{
    assert forall|x: u16| #[trigger] a.has(x) <==> b.has(x) by {
        assert(a.elements().contains(x) <==> a.has(x));
        assert(b.elements().contains(x) <==> b.has(x));
    }
    match (a, b) {
        (StoreModel::Array(s), StoreModel::Array(t)) => {
            assert forall|x: u16| s.contains(x) <==> t.contains(x) by {
                assert(a.has(x) <==> b.has(x));
            }
            lemma_one_array(s, t);
        },
        (StoreModel::Run(s), StoreModel::Run(t)) => {
            assert forall|x: u16| covers(s, x) <==> covers(t, x) by {
                assert(a.has(x) <==> b.has(x));
            }
            lemma_one_run_list(s, t);
        },
        (StoreModel::Bitmap(m, s), StoreModel::Bitmap(n, t)) => {
            assert(bits(s) =~= a.elements());
            assert(bits(t) =~= b.elements());
            assert forall|i: int| 0 <= i < s.len() implies s[i] == t[i] by {
                assert forall|c: int| 0 <= c < 64 implies (#[trigger] word_bit(s[i], c)
                    <==> word_bit(t[i], c)) by {
                    let x = (64 * i + c) as u16;
                    assert(x as int / 64 == i && x as int % 64 == c);
                    assert(a.has(x) <==> b.has(x));
                }
                lemma_same_word(s[i], t[i]);
            }
            assert(s =~= t);
        },
        _ => {},
    }
}

/// Where the containers of a bitmap hold what those of another hold, each of them has one with
/// its key there.
proof fn lemma_key_there(a: Seq<ContainerModel>, b: Seq<ContainerModel>, i: int) -> (j: int)
    requires
        containers_wf(a),
        containers_wf(b),
        elements(a) == elements(b),
        0 <= i < a.len(),
    ensures
        0 <= j < b.len(),
        b[j].key == a[i].key,
{
    lemma_store_card(a[i].store);
    if forall|x: u16| !a[i].store.elements().contains(x) {
        assert(a[i].store.elements() =~= Set::<u16>::empty());
    }
    let x = choose|x: u16| a[i].store.elements().contains(x);
    let v = join(a[i].key, x);
    lemma_join(a[i].key, x);
    assert(a[i].has(v));
    assert(elements(a).contains(v));
    assert(elements(b).contains(v));
    choose|j: int| 0 <= j < b.len() && (#[trigger] b[j]).has(v)
}

/// The first containers of two bitmaps with the same set have the same keys.
proof fn lemma_same_first_keys(a: Seq<ContainerModel>, b: Seq<ContainerModel>, n: int)
    requires
        containers_wf(a),
        containers_wf(b),
        elements(a) == elements(b),
        0 <= n <= a.len(),
    ensures
        n <= b.len(),
        forall|i: int| 0 <= i < n ==> (#[trigger] a[i]).key == b[i].key,
    decreases n,
{
    if n > 0 {
        lemma_same_first_keys(a, b, n - 1);
        let j = lemma_key_there(a, b, n - 1);
        if j < n - 1 {
            assert(a[j].key == b[j].key);
            assert(a[j].key < a[n - 1].key);
        }
        let k = lemma_key_there(b, a, n - 1);
        if k < n - 1 {
            assert(a[k].key == b[k].key);
            assert(b[k].key < b[n - 1].key);
        }
        if j > n - 1 {
            assert(b[n - 1].key < b[j].key);
            if k > n - 1 {
                assert(a[n - 1].key < a[k].key);
            }
        }
    }
}

/// **Set and kinds tell a bitmap.** Two bitmaps in order with the same set, in which containers
/// with the same key are of the same kind, have the same containers, and so the same frozen form.
pub proof fn law_one_form(a: Seq<ContainerModel>, b: Seq<ContainerModel>)
    requires
        containers_wf(a),
        containers_wf(b),
        elements(a) == elements(b),
        forall|i: int, j: int|
            0 <= i < a.len() && 0 <= j < b.len() && (#[trigger] a[i]).key == (#[trigger] b[j]).key
                ==> same_kind(a[i].store, b[j].store),
    ensures
        a == b,
        frozen_bytes(a) == frozen_bytes(b),
{
    lemma_same_first_keys(a, b, a.len() as int);
    lemma_same_first_keys(b, a, b.len() as int);
    assert forall|i: int| 0 <= i < a.len() implies a[i] == b[i] by {
        assert(a[i].key == b[i].key);
        lemma_container_subset(a, b, i, i);
        lemma_container_subset(b, a, i, i);
        assert(a[i].store.elements() =~= b[i].store.elements());
        law_one_store(a[i].store, b[i].store);
    }
    assert(a =~= b);
}

} // verus!
