//! Treemaps: compressed sets of 64-bit integers.
use crate::bitmap::forms_follow;
use crate::bitmap::inserted;
use crate::bitmap::lemma_forms_transitive;
use crate::bitmap::lemma_inserted_forms;
use crate::bitmap::lemma_outside_transitive;
use crate::bitmap::same_outside;
use crate::bitmap::RoaringBitmap;
use crate::model::containers_wf;
use crate::model::elements;
use crate::model::lemma_containers_card;
use crate::model::ContainerModel;
use crate::parts::greatest64_is;
use crate::parts::high64;
use crate::parts::join64;
use crate::parts::least64_is;
use crate::parts::lemma_join64;
use crate::parts::lemma_parts_empty;
use crate::parts::lemma_parts_greatest;
use crate::parts::lemma_parts_least;
use crate::parts::lemma_parts_len;
use crate::parts::lemma_parts_len_monotone;
use crate::parts::low64;
use crate::parts::part_has;
use crate::parts::parts_ascend;
use crate::parts::parts_have;
use crate::parts::parts_len;
use crate::parts::parts_set;
use std::collections::BTreeMap;
use vstd::prelude::*;
use vstd::std_specs::btree::increasing_seq;
use vstd::std_specs::cmp::OrdSpec;
use vstd::std_specs::iter::IteratorSpec;

verus! {

/// A compressed set of 64-bit integers: a bitmap of low halves for each high half.
#[derive(Debug, PartialEq, Eq)]
pub struct RoaringTreemap {
    map: BTreeMap<u32, RoaringBitmap>,
}

/// Whether a map of bitmaps has `v`.
pub open spec fn maps_have(m: Map<u32, RoaringBitmap>, v: u64) -> bool {
    m.contains_key(high64(v)) && m[high64(v)]@.contains(low64(v))
}

impl RoaringTreemap {
    /// The bitmaps.
    pub closed spec fn bitmaps(&self) -> Map<u32, RoaringBitmap> {
        self.map@
    }

    /// What the containers of the bitmaps hold.
    pub open spec fn models(&self) -> Map<u32, Seq<ContainerModel>> {
        self.bitmaps().map_values(|b: RoaringBitmap| b.model())
    }

    /// What the containers under a key hold. There are none where there is no bitmap.
    pub open spec fn model_at(&self, key: u32) -> Seq<ContainerModel> {
        if self.bitmaps().contains_key(key) {
            self.bitmaps()[key].model()
        } else {
            Seq::<ContainerModel>::empty()
        }
    }

    /// Whether every bitmap is in order. A bitmap may be empty.
    pub open spec fn wf(&self) -> bool {
        forall|k: u32| #[trigger] self.bitmaps().contains_key(k) ==> self.bitmaps()[k].wf()
    }

    /// Whether the frozen format has room for every bitmap. It has for every treemap in order.
    pub open spec fn freezable(&self) -> bool {
        forall|k: u32| #[trigger]
            self.bitmaps().contains_key(k) ==> self.bitmaps()[k].freezable()
    }
}

/// Whether the key is the high half of an integer from `start` to `last`.
pub open spec fn key_in_range(key: u32, start: int, last: int) -> bool {
    start <= last && start / 0x1_0000_0000 <= key <= last / 0x1_0000_0000
}

/// Whether the bitmaps have the form that they take when the integers from `start` to `last` are
/// added: there is a bitmap for each of their high halves besides those that were there. Its
/// containers follow the form that they had, and those with a key that no added integer has are
/// the same. The other bitmaps are as they were.
pub open spec fn bitmaps_follow(
    before: RoaringTreemap,
    after: RoaringTreemap,
    start: int,
    last: int,
) -> bool {
    &&& forall|k: u32| #[trigger]
        after.bitmaps().contains_key(k) <==> before.bitmaps().contains_key(k) || key_in_range(
            k,
            start,
            last,
        )
    &&& forall|k: u32|
        !key_in_range(k, start, last) && before.bitmaps().contains_key(k) ==> #[trigger]
        after.bitmaps()[k] == before.bitmaps()[k]
    &&& forall|k: u32|
        key_in_range(k, start, last) ==> {
            &&& forms_follow(before.model_at(k), #[trigger] after.model_at(k))
            &&& same_outside(
                before.model_at(k),
                after.model_at(k),
                first_key(k, start),
                last_key(k, last),
            )
        }
}

/// The key of the first container under `key` that integers from `start` on go into.
pub open spec fn first_key(key: u32, start: int) -> int {
    if key * 0x1_0000_0000 < start {
        start % 0x1_0000_0000 / 0x1_0000
    } else {
        0
    }
}

/// The key of the last container under `key` that integers up to `last` go into.
pub open spec fn last_key(key: u32, last: int) -> int {
    if last < (key + 1) * 0x1_0000_0000 {
        last % 0x1_0000_0000 / 0x1_0000
    } else {
        0xffff
    }
}

/// Whether the entries are those of the map, with ascending keys.
pub open spec fn lists_bitmaps(s: Seq<(u32, &RoaringBitmap)>, m: Map<u32, RoaringBitmap>) -> bool {
    &&& forall|i: int, j: int| 0 <= i < j < s.len() ==> s[i].0 < s[j].0
    &&& forall|i: int|
        0 <= i < s.len() ==> m.contains_key((#[trigger] s[i]).0) && m[s[i].0] == *s[i].1
    &&& forall|k: u32| #[trigger]
        m.contains_key(k) ==> exists|i: int| 0 <= i < s.len() && (#[trigger] s[i]).0 == k
}

/// The sets of entries.
pub open spec fn parts_of(s: Seq<(u32, &RoaringBitmap)>) -> Seq<(u32, Set<u32>)> {
    Seq::new(s.len(), |i: int| (s[i].0, s[i].1@))
}

/// A set that is not empty has an element.
proof fn lemma_some_element(s: Set<u32>) -> (x: u32)
    requires
        s != Set::<u32>::empty(),
    ensures
        s.contains(x),
{
    if forall|x: u32| !s.contains(x) {
        assert(s =~= Set::<u32>::empty());
    }
    choose|x: u32| s.contains(x)
}

/// The view of a treemap is the set of its integers.
impl View for RoaringTreemap {
    type V = Set<u64>;

    open spec fn view(&self) -> Set<u64> {
        Set::new(|v: u64| maps_have(self.bitmaps(), v))
    }
}

/// Where no integers are added, the bitmaps follow in form.
proof fn lemma_bitmaps_same(t: RoaringTreemap, start: int, last: int)
    requires
        last < start,
    ensures
        bitmaps_follow(t, t, start, last),
{
}

/// The containers under a key of a treemap in order are in order.
proof fn lemma_model_at(t: RoaringTreemap, key: u32)
    requires
        t.wf(),
    ensures
        containers_wf(t.model_at(key)),
{
    if t.bitmaps().contains_key(key) {
        assert(t.bitmaps()[key].wf());
    }
}

/// Where a treemap holds what another holds, so do its containers under a key.
proof fn lemma_part_subset(a: RoaringTreemap, b: RoaringTreemap, key: u32)
    requires
        a@.subset_of(b@),
    ensures
        elements(a.model_at(key)).subset_of(elements(b.model_at(key))),
{
    assert forall|x: u32| elements(a.model_at(key)).contains(x) implies #[trigger] elements(
        b.model_at(key),
    ).contains(x) by {
        lemma_join64(key, x);
        assert(a@.contains(join64(key, x)));
        assert(b@.contains(join64(key, x)));
    }
}

/// Where one more integer is added, the bitmaps still follow in form.
proof fn lemma_bitmaps_step(
    a: RoaringTreemap,
    b: RoaringTreemap,
    c: RoaringTreemap,
    start: int,
    v: u64,
)
    requires
        a.wf(),
        b.wf(),
        c.wf(),
        0 <= start <= v,
        bitmaps_follow(a, b, start, v - 1),
        c.bitmaps() == b.bitmaps().insert(high64(v), c.bitmaps()[high64(v)]),
        inserted(b.model_at(high64(v)), c.model_at(high64(v)), low64(v)),
        a@.subset_of(b@),
        b@.subset_of(c@),
    ensures
        bitmaps_follow(a, c, start, v as int),
{
    let hi = high64(v);
    lemma_part_subset(a, b, hi);
    lemma_part_subset(b, c, hi);
    assert forall|k: u32| #[trigger]
        c.bitmaps().contains_key(k) <==> a.bitmaps().contains_key(k) || key_in_range(
            k,
            start,
            v as int,
        ) by {
        assert(b.bitmaps().contains_key(k) <==> a.bitmaps().contains_key(k) || key_in_range(
            k,
            start,
            v - 1,
        ));
    }
    assert forall|k: u32|
        !key_in_range(k, start, v as int) && a.bitmaps().contains_key(
            k,
        ) implies #[trigger] c.bitmaps()[k] == a.bitmaps()[k] by {
        assert(b.bitmaps()[k] == a.bitmaps()[k]);
    }
    lemma_model_at(a, hi);
    lemma_model_at(b, hi);
    lemma_model_at(c, hi);
    lemma_inserted_forms(b.model_at(hi), c.model_at(hi), low64(v));
    assert forall|k: u32| key_in_range(k, start, v as int) implies {
        &&& forms_follow(a.model_at(k), #[trigger] c.model_at(k))
        &&& same_outside(
            a.model_at(k),
            c.model_at(k),
            first_key(k, start),
            last_key(k, v as int),
        )
    } by {
        if k != hi {
            assert(c.model_at(k) == b.model_at(k));
            assert(key_in_range(k, start, v - 1));
            assert(last_key(k, v - 1) == last_key(k, v as int));
        } else if key_in_range(k, start, v - 1) {
            lemma_forms_transitive(a.model_at(hi), b.model_at(hi), c.model_at(hi));
            lemma_outside_transitive(
                a.model_at(hi),
                b.model_at(hi),
                c.model_at(hi),
                first_key(k, start),
                last_key(k, v - 1),
                last_key(k, v as int),
            );
        } else {
            assert(a.bitmaps().contains_key(hi) ==> b.bitmaps()[hi] == a.bitmaps()[hi]);
            assert(b.bitmaps().contains_key(hi) <==> a.bitmaps().contains_key(hi));
            assert(a.model_at(hi) == b.model_at(hi));
        }
    }
}

impl RoaringTreemap {
    /// The empty treemap.
    pub fn new() -> (r: RoaringTreemap)
        ensures
            r.wf(),
            r.bitmaps() == Map::<u32, RoaringBitmap>::empty(),
            r@ == Set::<u64>::empty(),
    {
        let r = RoaringTreemap { map: BTreeMap::new() };
        assert(r@ =~= Set::<u64>::empty());
        r
    }

    /// The treemap with the given bitmaps.
    pub(crate) fn from_map(map: BTreeMap<u32, RoaringBitmap>) -> (r: RoaringTreemap)
        ensures
            r.bitmaps() == map@,
    {
        RoaringTreemap { map }
    }

    /// The number of bitmaps.
    pub fn bitmap_count(&self) -> (r: usize)
        ensures
            r == self.bitmaps().len(),
    {
        self.map.len()
    }

    /// Adds `value`, and returns whether it was missing.
    pub fn insert(&mut self, value: u64) -> (r: bool)
        requires
            old(self).wf(),
        ensures
            final(self).wf(),
            final(self)@ == old(self)@.insert(value),
            final(self).bitmaps() == old(self).bitmaps().insert(
                high64(value),
                final(self).bitmaps()[high64(value)],
            ),
            inserted(
                old(self).model_at(high64(value)),
                final(self).model_at(high64(value)),
                low64(value),
            ),
            r == !old(self)@.contains(value),
    {
        let hi: u32 = (value / 0x1_0000_0000) as u32;
        let lo: u32 = (value % 0x1_0000_0000) as u32;
        let ghost before = self.map@;
        assert(self.bitmaps().contains_key(hi) ==> before[hi].wf());
        let mut bitmap: RoaringBitmap = match self.map.remove(&hi) {
            Some(b) => b,
            None => RoaringBitmap::new(),
        };
        let ghost was = bitmap@;
        let missing: bool = bitmap.insert(lo);
        let ghost now = bitmap;
        self.map.insert(hi, bitmap);
        proof {
            let after = self.map@;
            assert(after =~= before.insert(hi, now));
            assert(now@.contains(lo));
            assert forall|v: u64| maps_have(after, v) <==> maps_have(before, v) || v == value by {
                lemma_join64(hi, lo);
                assert(now@.contains(low64(v)) <==> was.insert(lo).contains(low64(v)));
            }
            assert(self@ =~= old(self)@.insert(value));
        }
        missing
    }

    /// Adds every integer from `start` to `last`, and returns how many were missing.
    pub fn insert_range(&mut self, start: u64, last: u64) -> (r: u64)
        requires
            old(self).wf(),
            last - start < u64::MAX,
        ensures
            final(self).wf(),
            final(self)@ == old(self)@.union(Set::new(|v: u64| start <= v <= last)),
            bitmaps_follow(*old(self), *final(self), start as int, last as int),
            r == final(self)@.difference(old(self)@).len(),
    {
        let mut added: u64 = 0;
        let mut v: u64 = start;
        let ghost before = self@;
        let ghost initial = *self;
        proof {
            lemma_bitmaps_same(*self, start as int, start - 1);
        }
        assert(self@ =~= before.union(Set::new(|w: u64| start <= w < v)));
        assert(self@.difference(before) =~= Set::<u64>::empty());
        if start > last {
            assert(self@ =~= before.union(Set::new(|w: u64| start <= w <= last)));
            proof {
                lemma_bitmaps_same(*self, start as int, last as int);
            }
            return 0;
        }
        loop
            invariant_except_break
                start <= v <= last,
                last - start < u64::MAX,
                self.wf(),
                initial.wf(),
                before == initial@,
                self@ == before.union(Set::new(|w: u64| start <= w < v)),
                bitmaps_follow(initial, *self, start as int, v - 1),
                self@.difference(before).finite(),
                added == self@.difference(before).len(),
                added <= v - start,
            ensures
                self.wf(),
                self@ == before.union(Set::new(|w: u64| start <= w <= last)),
                bitmaps_follow(initial, *self, start as int, last as int),
                added == self@.difference(before).len(),
            decreases last - v,
        {
            let ghost was = self@;
            let ghost one_less = *self;
            if self.insert(v) {
                added = added + 1;
                assert(self@.difference(before) =~= was.difference(before).insert(v));
            } else {
                assert(self@ =~= was);
            }
            proof {
                lemma_bitmaps_step(initial, one_less, *self, start as int, v);
            }
            if v == last {
                assert(self@ =~= before.union(Set::new(|w: u64| start <= w <= last)));
                break;
            }
            v = v + 1;
            assert(self@ =~= before.union(Set::new(|w: u64| start <= w < v)));
        }
        added
    }

    /// Whether `value` is among the integers.
    pub fn contains(&self, value: u64) -> (r: bool)
        requires
            self.wf(),
        ensures
            r == self@.contains(value),
    {
        let hi: u32 = (value / 0x1_0000_0000) as u32;
        let lo: u32 = (value % 0x1_0000_0000) as u32;
        assert(self.bitmaps().contains_key(hi) ==> self.bitmaps()[hi].wf());
        match self.map.get(&hi) {
            Some(b) => b.contains(lo),
            None => false,
        }
    }

    /// Whether there are no integers.
    pub fn is_empty(&self) -> (r: bool)
        requires
            self.wf(),
        ensures
            r == (self@ == Set::<u64>::empty()),
    {
        let entries: Vec<(u32, &RoaringBitmap)> = self.entries();
        let ghost parts = parts_of(entries@);
        proof {
            self.lemma_parts(entries@);
        }
        let mut i: usize = 0;
        while i < entries.len()
            invariant
                i <= entries.len(),
                parts == parts_of(entries@),
                parts_set(parts) == self@,
                forall|j: int| 0 <= j < entries@.len() ==> (#[trigger] entries@[j]).1.wf(),
                forall|j: int| 0 <= j < i ==> (#[trigger] parts[j]).1 == Set::<u32>::empty(),
            decreases entries.len() - i,
        {
            assert(entries@[i as int].1.wf());
            assert(parts[i as int] == (entries@[i as int].0, entries@[i as int].1@));
            if !entries[i].1.is_empty() {
                proof {
                    let k = parts[i as int].0;
                    let x = lemma_some_element(parts[i as int].1);
                    lemma_join64(k, x);
                    assert(part_has(parts[i as int], join64(k, x)));
                    assert(parts_set(parts).contains(join64(k, x)));
                }
                return false;
            }
            i = i + 1;
        }
        proof {
            lemma_parts_empty(parts);
        }
        true
    }

    /// The bitmaps with their keys, in ascending order.
    pub(crate) fn entries(&self) -> (r: Vec<(u32, &RoaringBitmap)>)
        ensures
            lists_bitmaps(r@, self.bitmaps()),
    {
        let mut out: Vec<(u32, &RoaringBitmap)> = Vec::new();
        let iter = self.map.iter();
        let ghost all = iter.remaining();
        proof {
            let keys = all.map_values(|kv: (&u32, &RoaringBitmap)| *kv.0);
            assert(increasing_seq(keys));
            assert forall|i: int, j: int| 0 <= i < j < all.len() implies *all[i].0 < *all[j].0 by {
                assert(keys[i].cmp_spec(&keys[j]) is Less);
            }
        }
        for entry in it: iter
            invariant
                it.seq() == all,
                out@.len() == it.index(),
                forall|i: int|
                    0 <= i < out@.len() ==> (#[trigger] out@[i]).0 == *all[i].0 && out@[i].1
                        == all[i].1,
        {
            out.push((*entry.0, entry.1));
        }
        proof {
            assert(out@.len() == all.len());
            assert forall|k: u32| #[trigger] self.bitmaps().contains_key(k) implies exists|i: int|
                0 <= i < out@.len() && (#[trigger] out@[i]).0 == k by {
                assert(all.contains((&k, &self.map@[k])));
                let i = choose|i: int| 0 <= i < all.len() && all[i] == (&k, &self.map@[k]);
                assert(out@[i].0 == k);
            }
            assert forall|i: int| 0 <= i < out@.len() implies self.bitmaps().contains_key(
                (#[trigger] out@[i]).0,
            ) && self.bitmaps()[out@[i].0] == *out@[i].1 by {
                assert(self.map@.contains_key(*all[i].0));
            }
        }
        out
    }

    /// The number of integers.
    pub fn len(&self) -> (r: u64)
        requires
            self.wf(),
            self@.len() <= u64::MAX,
        ensures
            r == self@.len(),
    {
        let entries: Vec<(u32, &RoaringBitmap)> = self.entries();
        let ghost parts = parts_of(entries@);
        proof {
            self.lemma_parts(entries@);
            lemma_parts_len(parts);
        }
        let mut total: u64 = 0;
        let mut i: usize = 0;
        while i < entries.len()
            invariant
                i <= entries.len(),
                parts == parts_of(entries@),
                forall|j: int| 0 <= j < entries@.len() ==> (#[trigger] entries@[j]).1.wf(),
                total == parts_len(parts.take(i as int)),
                parts_len(parts) <= u64::MAX,
            decreases entries.len() - i,
        {
            proof {
                assert(parts.take(i + 1).drop_last() =~= parts.take(i as int));
                assert(parts.take(i + 1).last() == parts[i as int]);
                lemma_parts_len_monotone(parts, i + 1);
                assert(entries@[i as int].1.wf());
            }
            total = total + entries[i].1.len();
            i = i + 1;
        }
        assert(parts.take(i as int) =~= parts);
        total
    }

    /// The least integer.
    pub fn min(&self) -> (r: Option<u64>)
        requires
            self.wf(),
        ensures
            least64_is(self@, r),
    {
        let entries: Vec<(u32, &RoaringBitmap)> = self.entries();
        let ghost parts = parts_of(entries@);
        proof {
            self.lemma_parts(entries@);
        }
        let mut i: usize = 0;
        while i < entries.len()
            invariant
                i <= entries.len(),
                parts == parts_of(entries@),
                parts_ascend(parts),
                parts_set(parts) == self@,
                forall|j: int| 0 <= j < entries@.len() ==> (#[trigger] entries@[j]).1.wf(),
                forall|j: int| 0 <= j < i ==> (#[trigger] parts[j]).1 == Set::<u32>::empty(),
            decreases entries.len() - i,
        {
            assert(entries@[i as int].1.wf());
            assert(parts[i as int] == (entries@[i as int].0, entries@[i as int].1@));
            if let Some(lo) = entries[i].1.min() {
                let hi: u32 = entries[i].0;
                proof {
                    lemma_parts_least(parts, i as int, lo);
                }
                return Some(hi as u64 * 0x1_0000_0000 + lo as u64);
            }
            i = i + 1;
        }
        proof {
            lemma_parts_empty(parts);
        }
        None
    }

    /// The greatest integer.
    pub fn max(&self) -> (r: Option<u64>)
        requires
            self.wf(),
        ensures
            greatest64_is(self@, r),
    {
        let entries: Vec<(u32, &RoaringBitmap)> = self.entries();
        let ghost parts = parts_of(entries@);
        proof {
            self.lemma_parts(entries@);
        }
        let mut n: usize = entries.len();
        while n > 0
            invariant
                n <= entries.len(),
                parts == parts_of(entries@),
                parts_ascend(parts),
                parts_set(parts) == self@,
                forall|j: int| 0 <= j < entries@.len() ==> (#[trigger] entries@[j]).1.wf(),
                forall|j: int|
                    n <= j < parts.len() ==> (#[trigger] parts[j]).1 == Set::<u32>::empty(),
            decreases n,
        {
            n = n - 1;
            assert(entries@[n as int].1.wf());
            assert(parts[n as int] == (entries@[n as int].0, entries@[n as int].1@));
            if let Some(lo) = entries[n].1.max() {
                let hi: u32 = entries[n].0;
                proof {
                    lemma_parts_greatest(parts, n as int, lo);
                }
                return Some(hi as u64 * 0x1_0000_0000 + lo as u64);
            }
        }
        proof {
            lemma_parts_empty(parts);
        }
        None
    }

    /// The parts of a treemap in order hold its integers.
    proof fn lemma_parts(&self, s: Seq<(u32, &RoaringBitmap)>)
        requires
            self.wf(),
            lists_bitmaps(s, self.bitmaps()),
        ensures
            parts_ascend(parts_of(s)),
            parts_set(parts_of(s)) == self@,
            forall|i: int| 0 <= i < s.len() ==> (#[trigger] parts_of(s)[i]).1.finite(),
            forall|i: int| 0 <= i < s.len() ==> (#[trigger] s[i]).1.wf(),
    {
        let parts = parts_of(s);
        assert forall|i: int| 0 <= i < s.len() implies (#[trigger] s[i]).1.wf() by {
            assert(self.bitmaps().contains_key(s[i].0));
        }
        assert forall|i: int| 0 <= i < s.len() implies (#[trigger] parts[i]).1.finite() by {
            assert(s[i].1.wf());
            lemma_containers_card(s[i].1.model());
        }
        assert forall|v: u64| parts_have(parts, v) <==> maps_have(self.bitmaps(), v) by {
            if parts_have(parts, v) {
                let i = choose|i: int| 0 <= i < parts.len() && #[trigger] part_has(parts[i], v);
                assert(self.bitmaps().contains_key(s[i].0));
            }
            if maps_have(self.bitmaps(), v) {
                assert(self.bitmaps().contains_key(high64(v)));
                let i = choose|i: int| 0 <= i < s.len() && (#[trigger] s[i]).0 == high64(v);
                assert(self.bitmaps()[s[i].0] == *s[i].1);
                assert(part_has(parts[i], v));
            }
        }
        assert(parts_set(parts) =~= self@);
    }
}

} // verus!
