//! Roaring bitmaps: compressed sets of 32-bit integers.
use crate::model::containers_card;
use crate::model::containers_empty;
use crate::model::containers_have;
use crate::model::containers_wf;
use crate::model::elements;
use crate::model::greatest_is;
use crate::model::high;
use crate::model::join;
use crate::model::least_is;
use crate::model::lemma_containers_card;
use crate::model::lemma_containers_empty;
use crate::model::lemma_containers_first;
use crate::model::lemma_containers_last;
use crate::model::lemma_containers_len;
use crate::model::lemma_join;
use crate::model::lemma_store_card;
use crate::model::lemma_u16_set_finite;
use crate::model::low;
use crate::model::ContainerModel;
use crate::model::StoreModel;
use crate::store::encoded_size;
use crate::store::form_follows;
use crate::store::least_size;
use crate::store::lists;
use crate::store::plain_form;
use crate::store::Container;
use crate::store::Store;
use vstd::prelude::*;
use vstd::set_lib::lemma_len_subset;

verus! {

/// A compressed set of 32-bit integers.
#[derive(Debug, PartialEq, Eq)]
pub struct RoaringBitmap {
    containers: Vec<Container>,
}

/// What containers hold.
pub open spec fn models(s: Seq<Container>) -> Seq<ContainerModel> {
    Seq::new(s.len(), |i: int| s[i]@)
}

impl RoaringBitmap {
    /// What the containers hold.
    pub closed spec fn model(&self) -> Seq<ContainerModel> {
        models(self.containers@)
    }

    /// Whether the keys go up and every store is in order.
    pub open spec fn wf(&self) -> bool {
        containers_wf(self.model())
    }
}

/// The view of a bitmap is the set of its integers.
impl View for RoaringBitmap {
    type V = Set<u32>;

    open spec fn view(&self) -> Set<u32> {
        elements(self.model())
    }
}

/// Whether `value` was put in at index `i`: into the container with its key, or into a new one
/// between those with lesser and greater keys. All other containers are as they were.
pub open spec fn inserted_at(
    before: Seq<ContainerModel>,
    after: Seq<ContainerModel>,
    i: int,
    value: u32,
) -> bool {
    ||| {
        &&& 0 <= i < before.len()
        &&& before[i].key == high(value)
        &&& after == before.update(i, after[i])
        &&& after[i].key == before[i].key
        &&& after[i].store.elements() == before[i].store.elements().insert(low(value))
        &&& form_follows(before[i].store, after[i].store)
        &&& after[i].store.card() == before[i].store.card() + if before[i].store.has(low(value)) {
            0int
        } else {
            1int
        }
    }
    ||| {
        &&& 0 <= i <= before.len()
        &&& forall|j: int| 0 <= j < i ==> (#[trigger] before[j]).key < high(value)
        &&& forall|j: int| i <= j < before.len() ==> high(value) < (#[trigger] before[j]).key
        &&& after == before.insert(
            i,
            ContainerModel { key: high(value), store: StoreModel::Array(seq![low(value)]) },
        )
    }
}

/// Whether `value` was put into its container, and all other containers are as they were.
pub open spec fn inserted(
    before: Seq<ContainerModel>,
    after: Seq<ContainerModel>,
    value: u32,
) -> bool {
    exists|i: int| #[trigger] inserted_at(before, after, i, value)
}

/// Whether one of the containers has the key.
pub open spec fn has_container(ms: Seq<ContainerModel>, key: u16) -> bool {
    exists|i: int| 0 <= i < ms.len() && (#[trigger] ms[i]).key == key
}

/// Whether containers have the form that they take when values are added to others: none has
/// gone, those that were there follow the form that they had, and new ones are plain.
pub open spec fn forms_follow(before: Seq<ContainerModel>, after: Seq<ContainerModel>) -> bool {
    &&& forall|i: int|
        0 <= i < before.len() ==> has_container(after, (#[trigger] before[i]).key)
    &&& forall|i: int, j: int|
        0 <= i < before.len() && 0 <= j < after.len() && (#[trigger] before[i]).key == (
        #[trigger] after[j]).key ==> form_follows(before[i].store, after[j].store)
    &&& forall|j: int|
        0 <= j < after.len() && !has_container(before, (#[trigger] after[j]).key) ==> plain_form(
            after[j].store,
        )
}

/// Whether the containers with a key outside the range are the same in both.
pub open spec fn same_outside(
    before: Seq<ContainerModel>,
    after: Seq<ContainerModel>,
    first: int,
    last: int,
) -> bool {
    &&& forall|i: int|
        0 <= i < before.len() && !(first <= (#[trigger] before[i]).key <= last) ==> after.contains(
            before[i],
        )
    &&& forall|i: int|
        0 <= i < after.len() && !(first <= (#[trigger] after[i]).key <= last) ==> before.contains(
            after[i],
        )
}

/// Where no value was missing, the containers follow in form.
pub proof fn lemma_forms_same(ms: Seq<ContainerModel>)
    requires
        containers_wf(ms),
    ensures
        forms_follow(ms, ms),
{
    assert forall|i: int| 0 <= i < ms.len() implies has_container(ms, (#[trigger] ms[i]).key) by {
        assert(ms[i].key == ms[i].key);
    }
    assert forall|i: int, j: int|
        0 <= i < ms.len() && 0 <= j < ms.len() && (#[trigger] ms[i]).key == (
        #[trigger] ms[j]).key implies form_follows(ms[i].store, ms[j].store) by {
        assert(i == j) by {
            if i < j {
                assert(ms[i].key < ms[j].key);
            } else if j < i {
                assert(ms[j].key < ms[i].key);
            }
        }
    }
}

/// A store that follows in form a store that follows a third follows the third, where none of
/// them loses values.
proof fn lemma_form_transitive(a: StoreModel, b: StoreModel, c: StoreModel)
    requires
        a.wf(),
        b.wf(),
        c.wf(),
        form_follows(a, b),
        form_follows(b, c),
        a.elements().subset_of(b.elements()),
        b.elements().subset_of(c.elements()),
    ensures
        form_follows(a, c),
{
    lemma_store_card(a);
    lemma_store_card(b);
    lemma_store_card(c);
    lemma_u16_set_finite(c.elements());
    lemma_len_subset(b.elements(), c.elements());
    if a.elements() == c.elements() {
        assert(a.elements() =~= b.elements());
    }
}

/// A store that follows in form a plain one is plain, where it loses no values.
proof fn lemma_form_plain(b: StoreModel, c: StoreModel)
    requires
        b.wf(),
        c.wf(),
        plain_form(b),
        form_follows(b, c),
        b.elements().subset_of(c.elements()),
    ensures
        plain_form(c),
{
    lemma_store_card(b);
    lemma_store_card(c);
    lemma_u16_set_finite(c.elements());
    lemma_len_subset(b.elements(), c.elements());
}

/// Where a set of containers holds what another holds, so does each container of it.
pub proof fn lemma_container_subset(
    before: Seq<ContainerModel>,
    after: Seq<ContainerModel>,
    i: int,
    j: int,
)
    requires
        containers_wf(before),
        containers_wf(after),
        elements(before).subset_of(elements(after)),
        0 <= i < before.len(),
        0 <= j < after.len(),
        before[i].key == after[j].key,
    ensures
        before[i].store.elements().subset_of(after[j].store.elements()),
{
    assert forall|x: u16| before[i].store.elements().contains(x) implies #[trigger] after[
        j].store.elements().contains(x) by {
        let v = join(before[i].key, x);
        lemma_join(before[i].key, x);
        assert(before[i].has(v));
        assert(elements(before).contains(v));
        assert(elements(after).contains(v));
        let k = choose|k: int| 0 <= k < after.len() && (#[trigger] after[k]).has(v);
        if k < j {
            assert(after[k].key < after[j].key);
        } else if j < k {
            assert(after[j].key < after[k].key);
        }
    }
}

/// Containers that follow in form containers that follow others follow these, where values are
/// only added.
pub proof fn lemma_forms_transitive(
    a: Seq<ContainerModel>,
    b: Seq<ContainerModel>,
    c: Seq<ContainerModel>,
)
    requires
        containers_wf(a),
        containers_wf(b),
        containers_wf(c),
        forms_follow(a, b),
        forms_follow(b, c),
        elements(a).subset_of(elements(b)),
        elements(b).subset_of(elements(c)),
    ensures
        forms_follow(a, c),
{
    assert forall|i: int| 0 <= i < a.len() implies has_container(c, (#[trigger] a[i]).key) by {
        assert(has_container(b, a[i].key));
        let j = choose|j: int| 0 <= j < b.len() && (#[trigger] b[j]).key == a[i].key;
        assert(has_container(c, b[j].key));
    }
    assert forall|i: int, k: int|
        0 <= i < a.len() && 0 <= k < c.len() && (#[trigger] a[i]).key == (
        #[trigger] c[k]).key implies form_follows(a[i].store, c[k].store) by {
        assert(has_container(b, a[i].key));
        let j = choose|j: int| 0 <= j < b.len() && (#[trigger] b[j]).key == a[i].key;
        lemma_container_subset(a, b, i, j);
        lemma_container_subset(b, c, j, k);
        lemma_form_transitive(a[i].store, b[j].store, c[k].store);
    }
    assert forall|k: int|
        0 <= k < c.len() && !has_container(a, (#[trigger] c[k]).key) implies plain_form(
        c[k].store,
    ) by {
        if has_container(b, c[k].key) {
            let j = choose|j: int| 0 <= j < b.len() && (#[trigger] b[j]).key == c[k].key;
            assert(!has_container(a, b[j].key));
            lemma_container_subset(b, c, j, k);
            lemma_form_plain(b[j].store, c[k].store);
        }
    }
}

/// After one value was put in, the containers follow in form, and those with other keys are the
/// same.
pub proof fn lemma_inserted_forms(
    before: Seq<ContainerModel>,
    after: Seq<ContainerModel>,
    value: u32,
)
    requires
        containers_wf(before),
        containers_wf(after),
        inserted(before, after, value),
    ensures
        forms_follow(before, after),
        same_outside(before, after, high(value) as int, high(value) as int),
{
    let i = choose|i: int| #[trigger] inserted_at(before, after, i, value);
    lemma_forms_same(before);
    let into = i < before.len() && before[i].key == high(value);
    assert forall|j: int| 0 <= j < before.len() implies {
        let k = if into || j < i {
            j
        } else {
            j + 1
        };
        after[k].key == (#[trigger] before[j]).key && (before[j].key != high(value) ==> after[k]
            == before[j])
    } by {}
    assert forall|k: int| 0 <= k < after.len() implies (#[trigger] after[k]).key == high(value)
        || before.contains(after[k]) by {
        if into || k < i {
            if k != i {
                assert(before[k] == after[k]);
            }
        } else if k > i {
            assert(before[k - 1] == after[k]);
        }
    }
    assert forall|j: int| 0 <= j < before.len() implies has_container(
        after,
        (#[trigger] before[j]).key,
    ) by {
        let k = if into || j < i {
            j
        } else {
            j + 1
        };
        assert(after[k].key == before[j].key);
    }
    assert forall|j: int|
        0 <= j < before.len() && !(high(value) as int <= (#[trigger] before[j]).key <= high(
            value,
        ) as int) implies after.contains(before[j]) by {
        let k = if into || j < i {
            j
        } else {
            j + 1
        };
        assert(after[k] == before[j]);
    }
    assert forall|j: int, k: int|
        0 <= j < before.len() && 0 <= k < after.len() && (#[trigger] before[j]).key == (
        #[trigger] after[k]).key implies form_follows(before[j].store, after[k].store) by {
        let l = if into || j < i {
            j
        } else {
            j + 1
        };
        assert(after[l].key == before[j].key);
        if k < l {
            assert(after[k].key < after[l].key);
        } else if l < k {
            assert(after[l].key < after[k].key);
        }
    }
    assert forall|k: int|
        0 <= k < after.len() && !has_container(
            before,
            (#[trigger] after[k]).key,
        ) implies plain_form(after[k].store) by {
        if before.contains(after[k]) {
            let j = choose|j: int| 0 <= j < before.len() && before[j] == after[k];
            assert(before[j].key == after[k].key);
        } else if into {
            assert(before[i].key == after[k].key);
        } else if k < i {
            assert(before[k] == after[k]);
        } else if k > i {
            assert(before[k - 1] == after[k]);
        }
    }
}

/// What is the same outside a range twice is the same outside a greater range.
pub proof fn lemma_outside_transitive(
    a: Seq<ContainerModel>,
    b: Seq<ContainerModel>,
    c: Seq<ContainerModel>,
    first: int,
    last: int,
    key: int,
)
    requires
        same_outside(a, b, first, last),
        same_outside(b, c, key, key),
        last <= key,
        first <= key,
    ensures
        same_outside(a, c, first, key),
{
    assert forall|i: int|
        0 <= i < a.len() && !(first <= (#[trigger] a[i]).key <= key) implies c.contains(a[i]) by {
        let j = choose|j: int| 0 <= j < b.len() && b[j] == a[i];
        assert(c.contains(b[j]));
    }
    assert forall|i: int|
        0 <= i < c.len() && !(first <= (#[trigger] c[i]).key <= key) implies a.contains(c[i]) by {
        let j = choose|j: int| 0 <= j < b.len() && b[j] == c[i];
        assert(a.contains(b[j]));
    }
}

/// After `value` went into the container with its key, the set has it too.
proof fn lemma_insert_into(
    before: Seq<ContainerModel>,
    after: Seq<ContainerModel>,
    i: int,
    value: u32,
)
    requires
        containers_wf(before),
        0 <= i < before.len(),
        before[i].key == high(value),
        after == before.update(i, after[i]),
        after[i].key == before[i].key,
        after[i].store.wf(),
        after[i].store.elements() == before[i].store.elements().insert(low(value)),
    ensures
        containers_wf(after),
        elements(after) == elements(before).insert(value),
        containers_have(before, value) <==> before[i].store.has(low(value)),
{
    assert forall|v: u32| containers_have(after, v) <==> containers_have(before, v) || v
        == value by {
        assert(after[i].store.elements().contains(low(v)) <==> before[i].store.elements().insert(
            low(value),
        ).contains(low(v)));
        if containers_have(after, v) {
            let j = choose|j: int| 0 <= j < after.len() && (#[trigger] after[j]).has(v);
            if j != i {
                assert(before[j].has(v));
            } else if low(v) != low(value) {
                assert(before[i].has(v));
            } else {
                lemma_join(high(value), low(value));
            }
        }
        if containers_have(before, v) {
            let j = choose|j: int| 0 <= j < before.len() && (#[trigger] before[j]).has(v);
            assert(after[j].has(v));
        }
        if v == value {
            assert(after[i].has(v));
        }
    }
    assert(elements(after) =~= elements(before).insert(value));
    if containers_have(before, value) {
        let j = choose|j: int| 0 <= j < before.len() && (#[trigger] before[j]).has(value);
        assert(j == i);
    }
    if before[i].store.has(low(value)) {
        assert(before[i].has(value));
    }
}

/// After a container with only `value` was put in its place, the set has it too.
proof fn lemma_insert_new(
    before: Seq<ContainerModel>,
    after: Seq<ContainerModel>,
    i: int,
    value: u32,
)
    requires
        containers_wf(before),
        0 <= i <= before.len(),
        forall|j: int| 0 <= j < i ==> (#[trigger] before[j]).key < high(value),
        forall|j: int| i <= j < before.len() ==> high(value) < (#[trigger] before[j]).key,
        after == before.insert(i, after[i]),
        after[i].key == high(value),
        after[i].store.wf(),
        after[i].store.elements() == set![low(value)],
    ensures
        containers_wf(after),
        elements(after) == elements(before).insert(value),
        !containers_have(before, value),
{
    assert forall|v: u32| containers_have(after, v) <==> containers_have(before, v) || v
        == value by {
        assert(after[i].store.elements().contains(low(v)) <==> set![low(value)].contains(low(v)));
        if containers_have(after, v) {
            let j = choose|j: int| 0 <= j < after.len() && (#[trigger] after[j]).has(v);
            if j < i {
                assert(before[j].has(v));
            } else if j > i {
                assert(before[j - 1].has(v));
            } else {
                lemma_join(high(value), low(value));
            }
        }
        if containers_have(before, v) {
            let j = choose|j: int| 0 <= j < before.len() && (#[trigger] before[j]).has(v);
            if j < i {
                assert(after[j].has(v));
            } else {
                assert(after[j + 1].has(v));
            }
        }
        if v == value {
            assert(after[i].has(v));
        }
    }
    assert(elements(after) =~= elements(before).insert(value));
    assert forall|a: int, b: int| 0 <= a < b < after.len() implies after[a].key < after[b].key by {
        if a < i && b == i {
            assert(after[a] == before[a]);
        } else if a == i {
            assert(after[b] == before[b - 1]);
        } else if b < i {
            assert(after[a] == before[a] && after[b] == before[b]);
        } else if a < i {
            assert(after[a] == before[a] && after[b] == before[b - 1]);
        } else {
            assert(after[a] == before[a - 1] && after[b] == before[b - 1]);
        }
    }
    assert forall|j: int| 0 <= j < after.len() implies (#[trigger] after[j]).store.wf() by {
        if j < i {
            assert(after[j] == before[j]);
        } else if j > i {
            assert(after[j] == before[j - 1]);
        }
    }
}

/// Two lists of containers that differ in form only hold the same set.
proof fn lemma_same_elements(before: Seq<ContainerModel>, after: Seq<ContainerModel>)
    requires
        before.len() == after.len(),
        forall|i: int|
            0 <= i < before.len() ==> (#[trigger] after[i]).key == before[i].key
                && after[i].store.elements() == before[i].store.elements(),
    ensures
        elements(after) == elements(before),
{
    assert forall|v: u32| containers_have(after, v) <==> containers_have(before, v) by {
        if containers_have(after, v) {
            let i = choose|i: int| 0 <= i < after.len() && (#[trigger] after[i]).has(v);
            assert(after[i].store.elements().contains(low(v)));
            assert(before[i].has(v));
        }
        if containers_have(before, v) {
            let i = choose|i: int| 0 <= i < before.len() && (#[trigger] before[i]).has(v);
            assert(after[i].store.elements() == before[i].store.elements());
            assert(before[i].store.elements().contains(low(v)));
            assert(after[i].has(v));
        }
    }
    assert(elements(after) =~= elements(before));
}

impl RoaringBitmap {
    /// The empty bitmap.
    pub fn new() -> (r: RoaringBitmap)
        ensures
            r.wf(),
            r.model() == Seq::<ContainerModel>::empty(),
            r@ == Set::<u32>::empty(),
    {
        let r = RoaringBitmap { containers: Vec::new() };
        assert(r.model() =~= Seq::<ContainerModel>::empty());
        assert(r@ =~= Set::<u32>::empty());
        r
    }

    /// The bitmap with the given containers.
    pub(crate) fn from_containers(containers: Vec<Container>) -> (r: RoaringBitmap)
        ensures
            r.model() == models(containers@),
    {
        RoaringBitmap { containers }
    }

    /// The containers.
    pub(crate) fn containers(&self) -> (r: &[Container])
        ensures
            models(r@) == self.model(),
    {
        self.containers.as_slice()
    }

    /// The index of the first container whose key is not below `key`.
    fn search(&self, key: u16) -> (r: usize)
        requires
            self.wf(),
        ensures
            r <= self.containers.len(),
            forall|i: int| 0 <= i < r ==> (#[trigger] self.model()[i]).key < key,
            forall|i: int| r <= i < self.model().len() ==> key <= (#[trigger] self.model()[i]).key,
    {
        let mut left: usize = 0;
        let mut right: usize = self.containers.len();
        while left < right
            invariant
                left <= right <= self.containers.len(),
                self.wf(),
                forall|i: int| 0 <= i < left ==> (#[trigger] self.model()[i]).key < key,
                forall|i: int|
                    right <= i < self.model().len() ==> key <= (#[trigger] self.model()[i]).key,
            decreases right - left,
        {
            let mid: usize = left + (right - left) / 2;
            assert(self.model()[mid as int].key == self.containers@[mid as int].key);
            if self.containers[mid].key < key {
                left = mid + 1;
            } else {
                right = mid;
            }
        }
        left
    }

    /// Adds `value`, and returns whether it was missing.
    pub fn insert(&mut self, value: u32) -> (r: bool)
        requires
            old(self).wf(),
        ensures
            final(self).wf(),
            final(self)@ == old(self)@.insert(value),
            inserted(old(self).model(), final(self).model(), value),
            r == !old(self)@.contains(value),
    {
        let key: u16 = (value / 0x1_0000) as u16;
        let index: u16 = (value % 0x1_0000) as u16;
        let i: usize = self.search(key);
        let ghost before = self.model();
        if i < self.containers.len() && self.containers[i].key == key {
            assert(before[i as int] == self.containers@[i as int]@);
            let missing: bool = self.containers[i].store.insert(index);
            proof {
                let after = self.model();
                assert(after =~= before.update(i as int, after[i as int]));
                lemma_insert_into(before, after, i as int, value);
                assert(inserted_at(before, after, i as int, value));
            }
            missing
        } else {
            proof {
                if i < self.containers.len() {
                    assert(before[i as int].key == self.containers@[i as int].key);
                }
                assert forall|j: int| i <= j < before.len() implies key < (
                #[trigger] before[j]).key by {
                    if j > i {
                        assert(before[i as int].key < before[j].key);
                    }
                }
            }
            self.containers.insert(i, Container { key, store: Store::singleton(index) });
            proof {
                let after = self.model();
                assert(after =~= before.insert(i as int, after[i as int]));
                lemma_insert_new(before, after, i as int, value);
                assert(inserted_at(before, after, i as int, value));
            }
            true
        }
    }

    /// Adds every integer from `start` to `last`, and returns how many were missing.
    pub fn insert_range(&mut self, start: u32, last: u32) -> (r: u64)
        requires
            old(self).wf(),
        ensures
            final(self).wf(),
            final(self)@ == old(self)@.union(Set::new(|v: u32| start <= v <= last)),
            forms_follow(old(self).model(), final(self).model()),
            start <= last ==> same_outside(
                old(self).model(),
                final(self).model(),
                high(start) as int,
                high(last) as int,
            ),
            start > last ==> final(self).model() == old(self).model(),
            r == final(self)@.len() - old(self)@.len(),
    {
        let mut added: u64 = 0;
        let mut v: u64 = start as u64;
        let ghost before = self.model();
        proof {
            lemma_containers_card(self.model());
            lemma_forms_same(before);
            assert(self@ =~= old(self)@.union(Set::new(|w: u32| start <= w < v)));
        }
        while v <= last as u64
            invariant
                start <= v,
                start <= last ==> v <= last + 1,
                start > last ==> v == start,
                self.wf(),
                self@ == old(self)@.union(Set::new(|w: u32| start <= w < v)),
                before == old(self).model(),
                containers_wf(before),
                forms_follow(before, self.model()),
                v == start ==> self.model() == before,
                v > start ==> same_outside(
                    before,
                    self.model(),
                    high(start) as int,
                    high((v - 1) as u32) as int,
                ),
                added == self@.len() - old(self)@.len(),
                added <= v - start,
            decreases last + 1 - v,
        {
            let ghost was = self@;
            let ghost model = self.model();
            proof {
                lemma_containers_card(self.model());
            }
            if self.insert(v as u32) {
                added = added + 1;
            } else {
                assert(was.insert(v as u32) =~= was);
            }
            proof {
                let now = self.model();
                lemma_inserted_forms(model, now, v as u32);
                lemma_forms_transitive(before, model, now);
                if v > start {
                    lemma_outside_transitive(
                        before,
                        model,
                        now,
                        high(start) as int,
                        high((v - 1) as u32) as int,
                        high(v as u32) as int,
                    );
                }
            }
            v = v + 1;
            assert(self@ =~= old(self)@.union(Set::new(|w: u32| start <= w < v)));
        }
        assert(self@ =~= old(self)@.union(Set::new(|w: u32| start <= w <= last)));
        added
    }

    /// Gives every container the form that needs the fewest bytes, and returns whether any
    /// has changed.
    pub fn optimize(&mut self) -> (r: bool)
        requires
            old(self).wf(),
        ensures
            final(self).wf(),
            final(self)@ == old(self)@,
            final(self).model().len() == old(self).model().len(),
            forall|i: int|
                0 <= i < old(self).model().len() ==> {
                    &&& (#[trigger] final(self).model()[i]).key == old(self).model()[i].key
                    &&& exists|s: Seq<u16>|
                        lists(s, old(self).model()[i].store.elements()) && encoded_size(
                            final(self).model()[i].store,
                        ) == least_size(s)
                },
            r <==> final(self).model() != old(self).model(),
    {
        let mut changed: bool = false;
        let mut i: usize = 0;
        let ghost before = self.model();
        while i < self.containers.len()
            invariant
                i <= self.containers.len(),
                before == old(self).model(),
                containers_wf(before),
                self.model().len() == before.len(),
                forall|j: int|
                    0 <= j < before.len() ==> {
                        &&& (#[trigger] self.model()[j]).key == before[j].key
                        &&& self.model()[j].store.wf()
                        &&& self.model()[j].store.elements() == before[j].store.elements()
                    },
                forall|j: int|
                    0 <= j < i ==> exists|s: Seq<u16>|
                        lists(s, before[j].store.elements()) && encoded_size(
                            (#[trigger] self.model()[j]).store,
                        ) == least_size(s),
                forall|j: int| i <= j < before.len() ==> #[trigger] self.model()[j] == before[j],
                !changed ==> self.model() == before,
                changed ==> exists|j: int| 0 <= j < i && #[trigger] self.model()[j] != before[j],
            decreases self.containers.len() - i,
        {
            let ghost was = self.model();
            let ghost had = changed;
            assert(was[i as int] == self.containers@[i as int]@);
            if self.containers[i].store.optimize() {
                changed = true;
            }
            proof {
                let now = self.model();
                assert(now =~= was.update(i as int, now[i as int]));
                assert(now[i as int] == self.containers@[i as int]@);
                if had {
                    let j = choose|j: int| 0 <= j < i && #[trigger] was[j] != before[j];
                    assert(now[j] != before[j]);
                } else if changed {
                    assert(now[i as int] != before[i as int]);
                } else {
                    assert(now =~= before);
                }
            }
            i = i + 1;
        }
        proof {
            lemma_same_elements(before, self.model());
            if !changed {
                assert(self.model() =~= before);
            }
        }
        changed
    }

    /// The number of integers.
    pub fn len(&self) -> (r: u64)
        requires
            self.wf(),
        ensures
            r == self@.len(),
    {
        let mut total: u64 = 0;
        let mut i: usize = 0;
        proof {
            lemma_containers_len(self.model());
        }
        while i < self.containers.len()
            invariant
                i <= self.containers.len(),
                self.wf(),
                self.containers.len() == self.model().len(),
                self.model().len() <= 0x1_0000,
                total == containers_card(self.model().take(i as int)),
                total <= 0x1_0000 * i,
            decreases self.containers.len() - i,
        {
            proof {
                assert(self.model()[i as int] == self.containers@[i as int]@);
                assert(self.model().take(i + 1).drop_last() =~= self.model().take(i as int));
                lemma_store_card(self.model()[i as int].store);
            }
            total = total + self.containers[i].store.len();
            i = i + 1;
        }
        proof {
            assert(self.model().take(i as int) =~= self.model());
            lemma_containers_card(self.model());
        }
        total
    }

    /// Whether there are no integers.
    pub fn is_empty(&self) -> (r: bool)
        requires
            self.wf(),
        ensures
            r == (self@ == Set::<u32>::empty()),
    {
        proof {
            lemma_containers_empty(self.model());
        }
        self.containers.len() == 0
    }

    /// Whether `value` is among the integers.
    pub fn contains(&self, value: u32) -> (r: bool)
        requires
            self.wf(),
        ensures
            r == self@.contains(value),
    {
        let key: u16 = (value / 0x1_0000) as u16;
        let i: usize = self.search(key);
        let ghost ms = self.model();
        if i < self.containers.len() && self.containers[i].key == key {
            let r: bool = self.containers[i].store.contains((value % 0x1_0000) as u16);
            proof {
                assert(ms[i as int] == self.containers@[i as int]@);
                if r {
                    assert(ms[i as int].has(value));
                }
                if containers_have(ms, value) {
                    let j = choose|j: int| 0 <= j < ms.len() && (#[trigger] ms[j]).has(value);
                    if j > i {
                        assert(ms[i as int].key < ms[j].key);
                    }
                }
            }
            r
        } else {
            proof {
                if i < self.containers.len() {
                    assert(ms[i as int].key == self.containers@[i as int].key);
                }
                if containers_have(ms, value) {
                    let j = choose|j: int| 0 <= j < ms.len() && (#[trigger] ms[j]).has(value);
                    if j > i {
                        assert(ms[i as int].key < ms[j].key);
                    }
                }
            }
            false
        }
    }

    /// The least integer.
    pub fn min(&self) -> (r: Option<u32>)
        requires
            self.wf(),
        ensures
            least_is(self@, r),
    {
        proof {
            lemma_containers_empty(self.model());
        }
        if self.containers.len() == 0 {
            return None;
        }
        assert(self.model()[0] == self.containers@[0]@);
        let r: Option<u32> = match self.containers[0].store.min() {
            Some(x) => {
                proof {
                    lemma_join(self.containers@[0].key, x);
                }
                Some(self.containers[0].key as u32 * 0x1_0000 + x as u32)
            },
            None => None,
        };
        proof {
            assert(self.model()[0].first_is(r));
            assert forall|i: int|
                0 <= i < self.model().len() && !(#[trigger] self.model()[i]).store.is_empty()
                    && containers_empty(self.model().take(i)) implies self.model()[i].first_is(
                r,
            ) by {
                if i > 0 {
                    assert(self.model().take(i)[0].store.wf());
                }
            }
            lemma_containers_first(self.model(), r);
        }
        r
    }

    /// The greatest integer.
    pub fn max(&self) -> (r: Option<u32>)
        requires
            self.wf(),
        ensures
            greatest_is(self@, r),
    {
        proof {
            lemma_containers_empty(self.model());
        }
        let n: usize = self.containers.len();
        if n == 0 {
            return None;
        }
        assert(self.model()[n - 1] == self.containers@[n - 1]@);
        let r: Option<u32> = match self.containers[n - 1].store.max() {
            Some(x) => {
                proof {
                    lemma_join(self.containers@[n - 1].key, x);
                }
                Some(self.containers[n - 1].key as u32 * 0x1_0000 + x as u32)
            },
            None => None,
        };
        proof {
            assert(self.model()[n - 1].last_is(r));
            assert forall|i: int|
                0 <= i < self.model().len() && !(#[trigger] self.model()[i]).store.is_empty()
                    && containers_empty(self.model().skip(i + 1)) implies self.model()[i].last_is(
                r,
            ) by {
                if i < n - 1 {
                    assert(self.model().skip(i + 1)[n - 2 - i].store.wf());
                }
            }
            lemma_containers_last(self.model(), r);
        }
        r
    }
}

} // verus!
