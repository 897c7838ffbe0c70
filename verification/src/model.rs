//! What a roaring bitmap is: a sequence of containers, and the set of integers
//! that the containers stand for.
use vstd::prelude::*;
use vstd::set_lib::lemma_len_subset;
use vstd::set_lib::lemma_map_size;
use vstd::set_lib::lemma_set_disjoint_lens;
use vstd::set_lib::lemma_set_subset_finite;

verus! {

/// The number of 64-bit words of a bitset container.
pub const BITMAP_LENGTH: usize = 1024;

/// The integers from `start` to `end`, both of them included.
#[derive(Clone, Copy, Debug, PartialEq, Eq, Structural)]
pub struct Interval {
    /// The first integer of the interval.
    pub start: u16,
    /// The last integer of the interval.
    pub end: u16,
}

/// What the three kinds of store hold.
pub enum StoreModel {
    /// The values themselves.
    Array(Seq<u16>),
    /// The number of values, and one bit for each possible value.
    Bitmap(u64, Seq<u64>),
    /// The intervals of consecutive values.
    Run(Seq<Interval>),
}

/// A store, and the high 16 bits that its values share.
pub struct ContainerModel {
    pub key: u16,
    pub store: StoreModel,
}

/// The high 16 bits of a value.
pub open spec fn high(v: u32) -> u16 {
    (v / 0x1_0000) as u16
}

/// The low 16 bits of a value.
pub open spec fn low(v: u32) -> u16 {
    (v % 0x1_0000) as u16
}

/// The value with the given high and low bits.
pub open spec fn join(key: u16, x: u16) -> u32 {
    (key * 0x1_0000 + x) as u32
}

/// Whether the values go up from each to the next.
pub open spec fn ascending(s: Seq<u16>) -> bool {
    forall|i: int, j: int| 0 <= i < j < s.len() ==> s[i] < s[j]
}

/// Whether each interval is in order and lies behind the one before it, with at
/// least one integer between the two.
pub open spec fn separated(s: Seq<Interval>) -> bool {
    &&& forall|i: int| 0 <= i < s.len() ==> (#[trigger] s[i]).start <= s[i].end
    &&& forall|i: int, j: int| 0 <= i < j < s.len() ==> s[i].end + 1 < s[j].start
}

/// Whether bit `b` of a word is set.
pub open spec fn word_bit(w: u64, b: int) -> bool {
    (w >> (b as u64)) & 1 == 1
}

/// Whether the bit for `x` is set.
pub open spec fn bit(words: Seq<u64>, x: u16) -> bool {
    word_bit(words[x as int / 64], x as int % 64)
}

/// The integers whose bits are set.
pub open spec fn bits(words: Seq<u64>) -> Set<u16> {
    Set::new(|x: u16| bit(words, x))
}

/// Whether one of the intervals covers `x`.
pub open spec fn covers(s: Seq<Interval>, x: u16) -> bool {
    exists|i: int| 0 <= i < s.len() && (#[trigger] s[i]).start <= x <= s[i].end
}

/// How many integers the intervals cover, counted one interval after the other.
pub open spec fn run_card(s: Seq<Interval>) -> int
    decreases s.len(),
{
    if s.len() == 0 {
        0
    } else {
        run_card(s.drop_last()) + (s.last().end - s.last().start + 1)
    }
}

impl StoreModel {
    /// Whether the store holds `x`.
    pub open spec fn has(self, x: u16) -> bool {
        match self {
            StoreModel::Array(s) => s.contains(x),
            StoreModel::Bitmap(_, words) => bit(words, x),
            StoreModel::Run(s) => covers(s, x),
        }
    }

    /// The integers that the store holds.
    pub open spec fn elements(self) -> Set<u16> {
        Set::new(|x: u16| self.has(x))
    }

    /// How many integers the store says that it holds.
    pub open spec fn card(self) -> int {
        match self {
            StoreModel::Array(s) => s.len() as int,
            StoreModel::Bitmap(len, _) => len as int,
            StoreModel::Run(s) => run_card(s),
        }
    }

    /// Whether the store says that it holds nothing.
    pub open spec fn is_empty(self) -> bool {
        match self {
            StoreModel::Array(s) => s.len() == 0,
            StoreModel::Bitmap(len, _) => len == 0,
            StoreModel::Run(s) => s.len() == 0,
        }
    }

    /// Whether the store is in order: it holds something, its values or intervals
    /// go up, and a bitset counts its bits rightly.
    pub open spec fn wf(self) -> bool {
        &&& !self.is_empty()
        &&& match self {
            StoreModel::Array(s) => ascending(s),
            StoreModel::Bitmap(len, words) => words.len() == BITMAP_LENGTH && len == bits(
                words,
            ).len(),
            StoreModel::Run(s) => separated(s),
        }
    }

    /// Whether `r` is what stands first in the store: its first value or interval,
    /// or its lowest set bit.
    pub open spec fn first_is(self, r: Option<u16>) -> bool {
        match self {
            StoreModel::Array(s) => s.len() > 0 && r == Some(s[0]),
            StoreModel::Run(s) => s.len() > 0 && r == Some(s[0].start),
            StoreModel::Bitmap(_, words) => match r {
                Some(x) => bit(words, x) && forall|y: u16| bit(words, y) ==> x <= y,
                None => forall|y: u16| !bit(words, y),
            },
        }
    }

    /// Whether `r` is what stands last in the store.
    pub open spec fn last_is(self, r: Option<u16>) -> bool {
        match self {
            StoreModel::Array(s) => s.len() > 0 && r == Some(s.last()),
            StoreModel::Run(s) => s.len() > 0 && r == Some(s.last().end),
            StoreModel::Bitmap(_, words) => match r {
                Some(x) => bit(words, x) && forall|y: u16| bit(words, y) ==> y <= x,
                None => forall|y: u16| !bit(words, y),
            },
        }
    }
}

impl ContainerModel {
    /// Whether the container holds `v`.
    pub open spec fn has(self, v: u32) -> bool {
        self.key == high(v) && self.store.has(low(v))
    }

    /// The integers that the container holds.
    pub open spec fn elements(self) -> Set<u32> {
        Set::new(|v: u32| self.has(v))
    }

    /// Whether `r` is what stands first in the container.
    pub open spec fn first_is(self, r: Option<u32>) -> bool {
        match r {
            Some(v) => high(v) == self.key && self.store.first_is(Some(low(v))),
            None => self.store.first_is(None),
        }
    }

    /// Whether `r` is what stands last in the container.
    pub open spec fn last_is(self, r: Option<u32>) -> bool {
        match r {
            Some(v) => high(v) == self.key && self.store.last_is(Some(low(v))),
            None => self.store.last_is(None),
        }
    }
}

/// Whether the keys go up and every store is in order.
pub open spec fn containers_wf(ms: Seq<ContainerModel>) -> bool {
    &&& forall|i: int, j: int| 0 <= i < j < ms.len() ==> ms[i].key < ms[j].key
    &&& forall|i: int| 0 <= i < ms.len() ==> (#[trigger] ms[i]).store.wf()
}

/// Whether one of the containers holds `v`.
pub open spec fn containers_have(ms: Seq<ContainerModel>, v: u32) -> bool {
    exists|i: int| 0 <= i < ms.len() && (#[trigger] ms[i]).has(v)
}

/// The integers that the containers hold.
pub open spec fn elements(ms: Seq<ContainerModel>) -> Set<u32> {
    Set::new(|v: u32| containers_have(ms, v))
}

/// How many integers the containers say that they hold.
pub open spec fn containers_card(ms: Seq<ContainerModel>) -> int
    decreases ms.len(),
{
    if ms.len() == 0 {
        0
    } else {
        containers_card(ms.drop_last()) + ms.last().store.card()
    }
}

/// Whether every container says that it holds nothing.
pub open spec fn containers_empty(ms: Seq<ContainerModel>) -> bool {
    forall|i: int| 0 <= i < ms.len() ==> (#[trigger] ms[i]).store.is_empty()
}

/// Whether `r` is what stands first in the first container that is not empty, or
/// nothing where all are empty.
pub open spec fn containers_first_is(ms: Seq<ContainerModel>, r: Option<u32>) -> bool {
    &&& containers_empty(ms) ==> r is None
    &&& forall|i: int|
        0 <= i < ms.len() && !(#[trigger] ms[i]).store.is_empty() && containers_empty(ms.take(i))
            ==> ms[i].first_is(r)
}

/// Whether `r` is what stands last in the last container that is not empty, or
/// nothing where all are empty.
pub open spec fn containers_last_is(ms: Seq<ContainerModel>, r: Option<u32>) -> bool {
    &&& containers_empty(ms) ==> r is None
    &&& forall|i: int|
        0 <= i < ms.len() && !(#[trigger] ms[i]).store.is_empty() && containers_empty(
            ms.skip(i + 1),
        ) ==> ms[i].last_is(r)
}

/// Whether `r` is the least element of the set, or nothing where it has none.
pub open spec fn least_is(s: Set<u32>, r: Option<u32>) -> bool {
    match r {
        Some(v) => s.contains(v) && forall|w: u32| s.contains(w) ==> v <= w,
        None => s == Set::<u32>::empty(),
    }
}

/// Whether `r` is the greatest element of the set, or nothing where it has none.
pub open spec fn greatest_is(s: Set<u32>, r: Option<u32>) -> bool {
    match r {
        Some(v) => s.contains(v) && forall|w: u32| s.contains(w) ==> w <= v,
        None => s == Set::<u32>::empty(),
    }
}

/// Splitting a value into its halves and joining them gives it back.
pub proof fn lemma_join(key: u16, x: u16)
    ensures
        high(join(key, x)) == key,
        low(join(key, x)) == x,
        forall|v: u32| high(v) == key && low(v) == x ==> v == #[trigger] join(key, x),
{
}

/// A set of 16-bit integers is finite and has no more than all of them.
pub proof fn lemma_u16_set_finite(s: Set<u16>)
    ensures
        s.finite(),
        s.len() <= 0x1_0000,
{
    let below = Set::<u16>::range(0, u16::MAX);
    vstd::set_lib::range_set_properties::<u16>(0, u16::MAX);
    let all = below.insert(u16::MAX);
    assert(s.subset_of(all));
    lemma_set_subset_finite(all, s);
    lemma_len_subset(s, all);
}

/// Each value of an ascending sequence is at least its index, so that there are at
/// most as many values as 16-bit integers.
pub proof fn lemma_ascending_len(s: Seq<u16>)
    requires
        ascending(s),
    ensures
        forall|i: int| 0 <= i < s.len() ==> i <= #[trigger] s[i],
        s.len() <= 0x1_0000,
    decreases s.len(),
{
    if s.len() > 0 {
        let rest = s.drop_last();
        lemma_ascending_len(rest);
        assert forall|i: int| 0 <= i < s.len() implies i <= #[trigger] s[i] by {
            if i < rest.len() {
                assert(rest[i] == s[i]);
            } else if i > 0 {
                assert(rest[i - 1] == s[i - 1]);
            }
        }
        assert(s.len() - 1 <= s[s.len() - 1]);
    }
}

/// There are at most as many separated intervals as even 16-bit integers.
pub proof fn lemma_separated_len(s: Seq<Interval>)
    requires
        separated(s),
    ensures
        forall|i: int| 0 <= i < s.len() ==> 2 * i <= (#[trigger] s[i]).start,
        s.len() <= 0x8000,
    decreases s.len(),
{
    if s.len() > 0 {
        let rest = s.drop_last();
        lemma_separated_len(rest);
        assert forall|i: int| 0 <= i < s.len() implies 2 * i <= (#[trigger] s[i]).start by {
            if i < rest.len() {
                assert(rest[i] == s[i]);
            } else if i > 0 {
                assert(rest[i - 1] == s[i - 1]);
                assert(s[i - 1].start <= s[i - 1].end);
            }
        }
        assert(2 * (s.len() - 1) <= s[s.len() - 1].start);
    }
}

/// There are at most as many containers as keys.
pub proof fn lemma_containers_len(ms: Seq<ContainerModel>)
    requires
        forall|i: int, j: int| 0 <= i < j < ms.len() ==> ms[i].key < ms[j].key,
    ensures
        ms.len() <= 0x1_0000,
{
    let keys = Seq::new(ms.len(), |i: int| ms[i].key);
    lemma_ascending_len(keys);
}

/// The separated intervals cover as many integers as their lengths add up to.
proof fn lemma_run_card(s: Seq<Interval>)
    requires
        separated(s),
    ensures
        run_card(s) == StoreModel::Run(s).elements().len(),
    decreases s.len(),
{
    let all = StoreModel::Run(s).elements();
    if s.len() == 0 {
        assert(all =~= Set::<u16>::empty());
    } else {
        let rest = s.drop_last();
        let before = StoreModel::Run(rest).elements();
        let lo = s.last().start;
        let hi = s.last().end;
        assert(s.last() == s[s.len() - 1]);
        lemma_run_card(rest);
        lemma_u16_set_finite(before);
        let below = Set::<u16>::range(lo, hi);
        vstd::set_lib::range_set_properties::<u16>(lo, hi);
        let own = below.insert(hi);
        assert(own.len() == hi - lo + 1);
        assert(forall|x: u16| own.contains(x) <==> lo <= x <= hi);
        assert forall|x: u16| all.contains(x) <==> before.union(own).contains(x) by {
            if all.contains(x) {
                assert(covers(s, x));
                let i = choose|i: int|
                    0 <= i < s.len() && (#[trigger] s[i]).start <= x <= s[i].end;
                if i < rest.len() {
                    assert(rest[i].start <= x <= rest[i].end);
                    assert(covers(rest, x));
                }
            }
            if before.contains(x) {
                let i = choose|i: int|
                    0 <= i < rest.len() && (#[trigger] rest[i]).start <= x <= rest[i].end;
                assert(rest[i] == s[i]);
                assert(covers(s, x));
            }
            if own.contains(x) {
                assert(s[s.len() - 1].start <= x <= s[s.len() - 1].end);
                assert(covers(s, x));
            }
        }
        assert(all =~= before.union(own));
        assert forall|x: u16| before.contains(x) implies !own.contains(x) by {
            let i = choose|i: int|
                0 <= i < rest.len() && (#[trigger] rest[i]).start <= x <= rest[i].end;
            assert(rest[i] == s[i]);
        }
        assert(before.disjoint(own));
        lemma_set_disjoint_lens(before, own);
    }
}

/// A store in order holds as many integers as it says.
pub proof fn lemma_store_card(m: StoreModel)
    requires
        m.wf(),
    ensures
        m.card() == m.elements().len(),
        1 <= m.card() <= 0x1_0000,
{
    lemma_u16_set_finite(m.elements());
    match m {
        StoreModel::Array(s) => {
            assert(m.elements() =~= s.to_set());
            s.unique_seq_to_set();
        },
        StoreModel::Bitmap(_, words) => {
            assert(m.elements() =~= bits(words));
        },
        StoreModel::Run(s) => {
            lemma_run_card(s);
            assert(s[0].start <= s[0].end);
            assert(m.has(s[0].start));
            assert(m.elements().contains(s[0].start));
        },
    }
}

/// A container in order holds as many integers as its store says.
pub proof fn lemma_container_card(m: ContainerModel)
    requires
        m.store.wf(),
    ensures
        m.elements().finite(),
        m.elements().len() == m.store.card(),
{
    lemma_store_card(m.store);
    lemma_u16_set_finite(m.store.elements());
    let f = |x: u16| join(m.key, x);
    let from = m.store.elements();
    assert forall|v: u32| m.elements().contains(v) <==> from.map(f).contains(v) by {
        lemma_join(m.key, low(v));
        if m.elements().contains(v) {
            assert(from.contains(low(v)) && f(low(v)) == v);
        }
        if from.map(f).contains(v) {
            let x = choose|x: u16| from.contains(x) && f(x) == v;
            lemma_join(m.key, x);
        }
    }
    assert(from.map(f) =~= m.elements());
    assert forall|x: u16, y: u16| f(x) == f(y) && from.contains(x) && from.contains(y) implies x
        == y by {
        lemma_join(m.key, x);
        lemma_join(m.key, y);
    }
    lemma_map_size(from, m.elements(), f);
}

/// Containers in order hold as many integers as they say.
pub proof fn lemma_containers_card(ms: Seq<ContainerModel>)
    requires
        containers_wf(ms),
    ensures
        elements(ms).finite(),
        elements(ms).len() == containers_card(ms),
        ms.len() <= containers_card(ms) <= 0x1_0000 * ms.len(),
    decreases ms.len(),
{
    if ms.len() == 0 {
        assert(elements(ms) =~= Set::<u32>::empty());
    } else {
        let rest = ms.drop_last();
        lemma_containers_card(rest);
        lemma_container_card(ms.last());
        lemma_store_card(ms.last().store);
        let own = ms.last().elements();
        assert forall|v: u32| elements(ms).contains(v) <==> elements(rest).union(own).contains(
            v,
        ) by {
            if elements(ms).contains(v) {
                let i = choose|i: int| 0 <= i < ms.len() && (#[trigger] ms[i]).has(v);
                if i < rest.len() {
                    assert(rest[i] == ms[i]);
                }
            }
            if elements(rest).contains(v) {
                let i = choose|i: int| 0 <= i < rest.len() && (#[trigger] rest[i]).has(v);
                assert(rest[i] == ms[i]);
            }
            if own.contains(v) {
                assert(ms[ms.len() - 1].has(v));
            }
        }
        assert(elements(ms) =~= elements(rest).union(own));
        assert forall|v: u32| elements(rest).contains(v) implies !own.contains(v) by {
            let i = choose|i: int| 0 <= i < rest.len() && (#[trigger] rest[i]).has(v);
            assert(rest[i] == ms[i]);
        }
        assert(elements(rest).disjoint(own));
        lemma_set_disjoint_lens(elements(rest), own);
    }
}

/// What stands first in a store in order is its least element.
pub proof fn lemma_store_first(m: StoreModel, r: Option<u16>)
    requires
        m.wf(),
        m.first_is(r),
    ensures
        r matches Some(x) && m.has(x) && forall|y: u16| m.has(y) ==> x <= y,
{
    match m {
        StoreModel::Array(s) => {
            assert(s.contains(s[0]));
        },
        StoreModel::Bitmap(len, words) => {
            if r is None {
                assert(bits(words) =~= Set::<u16>::empty());
            }
        },
        StoreModel::Run(s) => {
            assert(s[0].start <= s[0].end);
        },
    }
}

/// What stands last in a store in order is its greatest element.
pub proof fn lemma_store_last(m: StoreModel, r: Option<u16>)
    requires
        m.wf(),
        m.last_is(r),
    ensures
        r matches Some(x) && m.has(x) && forall|y: u16| m.has(y) ==> y <= x,
{
    match m {
        StoreModel::Array(s) => {
            assert(s.contains(s[s.len() - 1]));
        },
        StoreModel::Bitmap(len, words) => {
            if r is None {
                assert(bits(words) =~= Set::<u16>::empty());
            }
        },
        StoreModel::Run(s) => {
            assert(s[s.len() - 1].start <= s[s.len() - 1].end);
        },
    }
}

/// What stands first in containers in order is their least element.
pub proof fn lemma_containers_first(ms: Seq<ContainerModel>, r: Option<u32>)
    requires
        containers_wf(ms),
        containers_first_is(ms, r),
    ensures
        least_is(elements(ms), r),
{
    if ms.len() == 0 {
        assert(elements(ms) =~= Set::<u32>::empty());
    } else {
        assert(!ms[0].store.is_empty() && containers_empty(ms.take(0)));
        assert(ms[0].first_is(r));
        lemma_store_first(
            ms[0].store,
            match r {
                Some(v) => Some(low(v)),
                None => None,
            },
        );
        let v = r->0;
        assert(ms[0].has(v));
        assert forall|w: u32| elements(ms).contains(w) implies v <= w by {
            let i = choose|i: int| 0 <= i < ms.len() && (#[trigger] ms[i]).has(w);
            if i > 0 {
                assert(ms[0].key < ms[i].key);
            }
        }
    }
}

/// What stands last in containers in order is their greatest element.
pub proof fn lemma_containers_last(ms: Seq<ContainerModel>, r: Option<u32>)
    requires
        containers_wf(ms),
        containers_last_is(ms, r),
    ensures
        greatest_is(elements(ms), r),
{
    if ms.len() == 0 {
        assert(elements(ms) =~= Set::<u32>::empty());
    } else {
        let n = ms.len() - 1;
        assert(!ms[n].store.is_empty() && containers_empty(ms.skip(n + 1)));
        assert(ms[n].last_is(r));
        lemma_store_last(
            ms[n].store,
            match r {
                Some(v) => Some(low(v)),
                None => None,
            },
        );
        let v = r->0;
        assert(ms[n].has(v));
        assert forall|w: u32| elements(ms).contains(w) implies w <= v by {
            let i = choose|i: int| 0 <= i < ms.len() && (#[trigger] ms[i]).has(w);
            if i < n {
                assert(ms[i].key < ms[n].key);
            }
        }
    }
}

/// Containers in order hold nothing exactly where there are none.
pub proof fn lemma_containers_empty(ms: Seq<ContainerModel>)
    requires
        containers_wf(ms),
    ensures
        containers_empty(ms) <==> elements(ms) == Set::<u32>::empty(),
        containers_empty(ms) <==> ms.len() == 0,
{
    lemma_containers_card(ms);
    if ms.len() > 0 {
        assert(ms[0].store.wf());
    } else {
        assert(elements(ms) =~= Set::<u32>::empty());
    }
}

/// Where not all containers are empty there is a first one that is not.
pub proof fn lemma_first_container(ms: Seq<ContainerModel>) -> (i: int)
    requires
        !containers_empty(ms),
    ensures
        0 <= i < ms.len(),
        !ms[i].store.is_empty(),
        containers_empty(ms.take(i)),
    decreases ms.len(),
{
    let n = ms.len() - 1;
    let rest = ms.take(n);
    if containers_empty(rest) {
        assert(!ms[n].store.is_empty()) by {
            if ms[n].store.is_empty() {
                assert forall|k: int| 0 <= k < ms.len() implies (
                #[trigger] ms[k]).store.is_empty() by {
                    if k < n {
                        assert(rest[k] == ms[k]);
                    }
                }
            }
        }
        n
    } else {
        let i = lemma_first_container(rest);
        assert(rest.take(i) =~= ms.take(i));
        i
    }
}

/// Where not all containers are empty there is a last one that is not.
pub proof fn lemma_last_container(ms: Seq<ContainerModel>) -> (i: int)
    requires
        !containers_empty(ms),
    ensures
        0 <= i < ms.len(),
        !ms[i].store.is_empty(),
        containers_empty(ms.skip(i + 1)),
    decreases ms.len(),
{
    let n = ms.len() - 1;
    if ms[n].store.is_empty() {
        let rest = ms.take(n);
        if containers_empty(rest) {
            assert forall|k: int| 0 <= k < ms.len() implies (#[trigger] ms[k]).store.is_empty() by {
                if k < n {
                    assert(rest[k] == ms[k]);
                }
            }
        }
        let i = lemma_last_container(rest);
        assert forall|k: int| 0 <= k < ms.skip(i + 1).len() implies (#[trigger] ms.skip(
            i + 1,
        )[k]).store.is_empty() by {
            if i + 1 + k < n {
                assert(rest.skip(i + 1)[k] == ms[i + 1 + k]);
            }
        }
        i
    } else {
        n
    }
}

} // verus!
