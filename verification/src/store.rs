//! The three kinds of store.
use crate::bits::highest_bit;
use crate::bits::lemma_bits_with;
use crate::bits::lemma_first_bit;
use crate::bits::lemma_last_bit;
use crate::bits::lemma_no_bits;
use crate::bits::lemma_zero_word;
use crate::bits::lowest_bit;
use crate::bits::test_bit;
use crate::bits::with_bit;
use crate::model::ascending;
use crate::model::bit;
use crate::model::bits;
use crate::model::covers;
use crate::model::lemma_ascending_len;
use crate::model::lemma_separated_len;
use crate::model::lemma_store_card;
use crate::model::lemma_u16_set_finite;
use crate::model::run_card;
use crate::model::separated;
use crate::model::ContainerModel;
use crate::model::Interval;
use crate::model::StoreModel;
use crate::model::BITMAP_LENGTH;
use vstd::prelude::*;

verus! {

/// The most values that are kept as a sorted array.
pub const ARRAY_LIMIT: usize = 4096;

impl Interval {
    /// The interval from `start` to `end`, without a check that they are in order.
    pub fn new_unchecked(start: u16, end: u16) -> (r: Interval)
        ensures
            r == (Interval { start, end }),
    {
        Interval { start, end }
    }
}

/// Values in ascending order.
#[derive(Debug, PartialEq, Eq)]
pub struct ArrayStore {
    vec: Vec<u16>,
}

/// One bit for each possible value, and the number of set bits.
#[derive(Debug, PartialEq, Eq)]
pub struct BitmapStore {
    len: u64,
    bits: Box<[u64; BITMAP_LENGTH]>,
}

/// Intervals of consecutive values in ascending order.
#[derive(Debug, PartialEq, Eq)]
pub struct IntervalStore {
    runs: Vec<Interval>,
}

/// One of the three kinds of store.
#[derive(Debug, PartialEq, Eq)]
pub enum Store {
    /// A sorted array.
    Array(ArrayStore),
    /// A bitset.
    Bitmap(BitmapStore),
    /// A list of runs.
    Run(IntervalStore),
}

/// A store, and the high 16 bits that its values share.
#[derive(Debug, PartialEq, Eq)]
pub struct Container {
    /// The high 16 bits.
    pub key: u16,
    /// The low 16 bits.
    pub store: Store,
}

impl View for ArrayStore {
    type V = Seq<u16>;

    closed spec fn view(&self) -> Seq<u16> {
        self.vec@
    }
}

impl View for IntervalStore {
    type V = Seq<Interval>;

    closed spec fn view(&self) -> Seq<Interval> {
        self.runs@
    }
}

impl BitmapStore {
    /// The number of values that the store says that it holds.
    pub closed spec fn card(&self) -> u64 {
        self.len
    }

    /// The words.
    pub closed spec fn words(&self) -> Seq<u64> {
        self.bits@
    }
}

impl View for Store {
    type V = StoreModel;

    open spec fn view(&self) -> StoreModel {
        match *self {
            Store::Array(a) => StoreModel::Array(a@),
            Store::Bitmap(b) => StoreModel::Bitmap(b.card(), b.words()),
            Store::Run(r) => StoreModel::Run(r@),
        }
    }
}

impl View for Container {
    type V = ContainerModel;

    open spec fn view(&self) -> ContainerModel {
        ContainerModel { key: self.key, store: self.store@ }
    }
}

/// Whether the values are those of the set, in ascending order.
pub open spec fn lists(s: Seq<u16>, e: Set<u16>) -> bool {
    &&& ascending(s)
    &&& s.to_set() == e
}

/// Pushing a value adds it to the set of values.
proof fn lemma_push_to_set(s: Seq<u16>, x: u16)
    ensures
        s.push(x).to_set() == s.to_set().insert(x),
{
    let t = s.push(x);
    assert forall|y: u16| t.to_set().contains(y) <==> s.to_set().insert(x).contains(y) by {
        if s.contains(y) {
            let j = choose|j: int| 0 <= j < s.len() && s[j] == y;
            assert(t[j] == y);
        }
        assert(t[s.len() as int] == x);
        if t.contains(y) {
            let j = choose|j: int| 0 <= j < t.len() && t[j] == y;
            if j < s.len() {
                assert(s[j] == y);
            }
        }
    }
    assert(t.to_set() =~= s.to_set().insert(x));
}

/// The index of the first value that is not below `x`.
fn lower_bound(s: &[u16], x: u16) -> (r: usize)
    requires
        ascending(s@),
    ensures
        r <= s.len(),
        forall|i: int| 0 <= i < r ==> s@[i] < x,
        forall|i: int| r <= i < s.len() ==> x <= s@[i],
{
    let mut left: usize = 0;
    let mut right: usize = s.len();
    while left < right
        invariant
            left <= right <= s.len(),
            ascending(s@),
            forall|i: int| 0 <= i < left ==> s@[i] < x,
            forall|i: int| right <= i < s.len() ==> x <= s@[i],
        decreases right - left,
    {
        let mid: usize = left + (right - left) / 2;
        if s[mid] < x {
            left = mid + 1;
        } else {
            right = mid;
        }
    }
    left
}

impl ArrayStore {
    /// Takes over values, without a check that they are in ascending order.
    pub fn from_vec_unchecked(vec: Vec<u16>) -> (r: ArrayStore)
        ensures
            r@ == vec@,
    {
        ArrayStore { vec }
    }

    /// The number of values.
    pub fn len(&self) -> (r: u64)
        ensures
            r == self@.len(),
    {
        self.vec.len() as u64
    }

    /// The values.
    pub fn as_slice(&self) -> (r: &[u16])
        ensures
            r@ == self@,
    {
        self.vec.as_slice()
    }

    /// Whether `x` is among the values.
    pub fn contains(&self, x: u16) -> (r: bool)
        requires
            ascending(self@),
        ensures
            r == self@.contains(x),
    {
        let i: usize = lower_bound(self.vec.as_slice(), x);
        i < self.vec.len() && self.vec[i] == x
    }

    /// Adds `x`, and returns whether it was missing.
    pub fn insert(&mut self, x: u16) -> (r: bool)
        requires
            ascending(old(self)@),
        ensures
            ascending(final(self)@),
            final(self)@.to_set() == old(self)@.to_set().insert(x),
            r == !old(self)@.contains(x),
            final(self)@.len() == old(self)@.len() + if r {
                1int
            } else {
                0int
            },
    {
        let i: usize = lower_bound(self.vec.as_slice(), x);
        if i < self.vec.len() && self.vec[i] == x {
            assert(self@[i as int] == x);
            assert(self@.to_set().insert(x) =~= self@.to_set());
            false
        } else {
            let ghost before = self.vec@;
            self.vec.insert(i, x);
            proof {
                let after = self.vec@;
                assert(after =~= before.insert(i as int, x));
                assert forall|y: u16| after.to_set().contains(y) <==> before.to_set().insert(
                    x,
                ).contains(y) by {
                    if after.contains(y) {
                        let j = choose|j: int| 0 <= j < after.len() && after[j] == y;
                        if j < i {
                            assert(before[j] == y);
                        } else if j > i {
                            assert(before[j - 1] == y);
                        }
                    }
                    if before.contains(y) {
                        let j = choose|j: int| 0 <= j < before.len() && before[j] == y;
                        if j < i {
                            assert(after[j] == y);
                        } else {
                            assert(after[j + 1] == y);
                        }
                    }
                    assert(after[i as int] == x);
                }
                assert(after.to_set() =~= before.to_set().insert(x));
            }
            true
        }
    }
}

impl BitmapStore {
    /// Takes over words, without a check that `len` counts their bits.
    pub fn from_unchecked(len: u64, bits: Box<[u64; BITMAP_LENGTH]>) -> (r: BitmapStore)
        ensures
            r.card() == len,
            r.words() == bits@,
    {
        BitmapStore { len, bits }
    }

    /// The number of words.
    pub proof fn lemma_words_len(&self)
        ensures
            self.words().len() == BITMAP_LENGTH,
    {
    }

    /// The number of values that the store says that it holds.
    pub fn len(&self) -> (r: u64)
        ensures
            r == self.card(),
    {
        self.len
    }

    /// The words.
    pub fn as_array(&self) -> (r: &[u64; BITMAP_LENGTH])
        ensures
            r@ == self.words(),
    {
        &self.bits
    }

    /// Whether the bit for `x` is set.
    pub fn contains(&self, x: u16) -> (r: bool)
        ensures
            r == bit(self.words(), x),
    {
        test_bit(self.bits[(x / 64) as usize], (x % 64) as u32)
    }

    /// Sets the bit for `x`, and returns whether it was clear.
    pub fn insert(&mut self, x: u16) -> (r: bool)
        requires
            old(self).card() == bits(old(self).words()).len(),
        ensures
            final(self).card() == bits(final(self).words()).len(),
            bits(final(self).words()) == bits(old(self).words()).insert(x),
            r == !bit(old(self).words(), x),
    {
        let i: usize = (x / 64) as usize;
        let w: u64 = self.bits[i];
        proof {
            lemma_u16_set_finite(bits(self.words()));
        }
        if test_bit(w, (x % 64) as u32) {
            assert(bits(self.words()).insert(x) =~= bits(self.words()));
            false
        } else {
            let v: u64 = with_bit(w, (x % 64) as u32);
            proof {
                lemma_bits_with(self.words(), x, v);
            }
            self.bits[i] = v;
            self.len = self.len + 1;
            true
        }
    }

    /// The store without values.
    fn empty() -> (r: BitmapStore)
        ensures
            r.card() == 0,
            bits(r.words()) == Set::<u16>::empty(),
    {
        let words: Box<[u64; BITMAP_LENGTH]> = Box::new([0u64; BITMAP_LENGTH]);
        proof {
            lemma_zero_word();
            assert(bits(words@) =~= Set::<u16>::empty());
        }
        BitmapStore { len: 0, bits: words }
    }

    /// The store with the given values.
    pub fn from_values(s: &[u16]) -> (r: BitmapStore)
        ensures
            bits(r.words()) == s@.to_set(),
            r.card() == bits(r.words()).len(),
    {
        let mut store = BitmapStore::empty();
        let mut i: usize = 0;
        while i < s.len()
            invariant
                i <= s.len(),
                bits(store.words()) == s@.take(i as int).to_set(),
                store.card() == bits(store.words()).len(),
            decreases s.len() - i,
        {
            let ghost before = s@.take(i as int);
            store.insert(s[i]);
            i = i + 1;
            proof {
                let after = s@.take(i as int);
                assert(after =~= before.push(s@[i - 1]));
                lemma_push_to_set(before, s@[i - 1]);
            }
        }
        assert(s@.take(s.len() as int) =~= s@);
        store
    }
}

impl BitmapStore {
    /// The values whose bits are set, in ascending order.
    pub fn values(&self) -> (r: Vec<u16>)
        ensures
            lists(r@, bits(self.words())),
    {
        let mut out: Vec<u16> = Vec::new();
        let mut x: u32 = 0;
        while x < 0x1_0000
            invariant
                x <= 0x1_0000,
                ascending(out@),
                forall|k: int| 0 <= k < out@.len() ==> out@[k] < x,
                forall|y: u16| out@.contains(y) <==> y < x && bit(self.words(), y),
            decreases 0x1_0000 - x,
        {
            if self.contains(x as u16) {
                let ghost was = out@;
                out.push(x as u16);
                proof {
                    lemma_push_to_set(was, x as u16);
                    assert forall|y: u16| out@.contains(y) <==> y < x + 1 && bit(
                        self.words(),
                        y,
                    ) by {
                        assert(out@.to_set().contains(y) <==> was.to_set().insert(
                            x as u16,
                        ).contains(y));
                    }
                }
            }
            x = x + 1;
        }
        assert(out@.to_set() =~= bits(self.words()));
        out
    }

    /// The lowest value whose bit is set.
    pub fn min(&self) -> (r: Option<u16>)
        ensures
            StoreModel::Bitmap(self.card(), self.words()).first_is(r),
    {
        let mut i: usize = 0;
        while i < BITMAP_LENGTH
            invariant
                i <= BITMAP_LENGTH,
                forall|j: int| 0 <= j < i ==> self.words()[j] == 0,
            decreases BITMAP_LENGTH - i,
        {
            let w: u64 = self.bits[i];
            if w != 0 {
                let b: u32 = lowest_bit(w);
                proof {
                    lemma_first_bit(self.words(), i as int, b as int);
                }
                return Some((64 * i) as u16 + b as u16);
            }
            i = i + 1;
        }
        proof {
            lemma_no_bits(self.words());
        }
        None
    }

    /// The highest value whose bit is set.
    pub fn max(&self) -> (r: Option<u16>)
        ensures
            StoreModel::Bitmap(self.card(), self.words()).last_is(r),
    {
        let mut i: usize = BITMAP_LENGTH;
        while i > 0
            invariant
                i <= BITMAP_LENGTH,
                forall|j: int| i <= j < BITMAP_LENGTH ==> self.words()[j] == 0,
            decreases i,
        {
            i = i - 1;
            let w: u64 = self.bits[i];
            if w != 0 {
                let b: u32 = highest_bit(w);
                proof {
                    lemma_last_bit(self.words(), i as int, b as int);
                }
                return Some((64 * i) as u16 + b as u16);
            }
        }
        proof {
            lemma_no_bits(self.words());
        }
        None
    }
}

/// How many intervals of consecutive values there are in ascending values.
pub open spec fn count_runs(s: Seq<u16>) -> nat
    decreases s.len(),
{
    if s.len() == 0 {
        0
    } else if s.len() >= 2 && s[s.len() - 2] + 1 == s[s.len() - 1] {
        count_runs(s.drop_last())
    } else {
        count_runs(s.drop_last()) + 1
    }
}

/// Where there are values there is an interval.
proof fn lemma_count_runs(s: Seq<u16>)
    requires
        s.len() > 0,
    ensures
        count_runs(s) > 0,
    decreases s.len(),
{
    if s.len() >= 2 {
        lemma_count_runs(s.drop_last());
    }
}

impl IntervalStore {
    /// Takes over intervals, without a check that they are in order.
    pub fn from_vec_unchecked(runs: Vec<Interval>) -> (r: IntervalStore)
        ensures
            r@ == runs@,
    {
        IntervalStore { runs }
    }

    /// The number of intervals.
    pub fn run_amount(&self) -> (r: u64)
        ensures
            r == self@.len(),
    {
        self.runs.len() as u64
    }

    /// The intervals.
    pub fn as_slice(&self) -> (r: &[Interval])
        ensures
            r@ == self@,
    {
        self.runs.as_slice()
    }

    /// Whether one of the intervals covers `x`.
    pub fn contains(&self, x: u16) -> (r: bool)
        ensures
            r == covers(self@, x),
    {
        let mut i: usize = 0;
        while i < self.runs.len()
            invariant
                i <= self.runs.len(),
                forall|j: int| 0 <= j < i ==> !((#[trigger] self@[j]).start <= x <= self@[j].end),
            decreases self.runs.len() - i,
        {
            let run: Interval = self.runs[i];
            if run.start <= x && x <= run.end {
                assert(self@[i as int].start <= x <= self@[i as int].end);
                return true;
            }
            i = i + 1;
        }
        false
    }

    /// How many integers the intervals cover.
    pub fn len(&self) -> (r: u64)
        requires
            separated(self@),
        ensures
            r == run_card(self@),
    {
        let mut total: u64 = 0;
        let mut i: usize = 0;
        while i < self.runs.len()
            invariant
                i <= self.runs.len(),
                separated(self@),
                total == run_card(self@.take(i as int)),
                i == 0 ==> total == 0,
                i > 0 ==> total <= self@[i - 1].end + 1,
            decreases self.runs.len() - i,
        {
            let run: Interval = self.runs[i];
            assert(run == self@[i as int]);
            assert(self@.take(i + 1).drop_last() =~= self@.take(i as int));
            total = total + (run.end - run.start) as u64 + 1;
            i = i + 1;
        }
        assert(self@.take(i as int) =~= self@);
        total
    }

    /// The integers that the intervals cover, in ascending order.
    pub fn values(&self) -> (r: Vec<u16>)
        requires
            separated(self@),
        ensures
            lists(r@, StoreModel::Run(self@).elements()),
            count_runs(r@) == self@.len(),
    {
        let mut out: Vec<u16> = Vec::new();
        let mut i: usize = 0;
        while i < self.runs.len()
            invariant
                i <= self.runs.len(),
                separated(self@),
                ascending(out@),
                forall|x: u16| out@.contains(x) <==> covers(self@.take(i as int), x),
                i == 0 ==> out@.len() == 0,
                i > 0 ==> forall|k: int| 0 <= k < out@.len() ==> out@[k] <= self@[i - 1].end,
                count_runs(out@) == i,
            decreases self.runs.len() - i,
        {
            let run: Interval = self.runs[i];
            assert(run == self@[i as int]);
            let ghost before = out@;
            let ghost done = self@.take(i as int);
            let mut x: u32 = run.start as u32;
            while x <= run.end as u32
                invariant
                    run.start <= x <= run.end + 1,
                    ascending(out@),
                    forall|y: u16|
                        out@.contains(y) <==> before.contains(y) || run.start <= y < x,
                    forall|k: int| 0 <= k < before.len() ==> before[k] + 1 < run.start,
                    forall|k: int| 0 <= k < out@.len() ==> out@[k] < x,
                    x == run.start ==> out@ == before,
                    x > run.start ==> out@.len() > 0 && out@.last() == x - 1,
                    count_runs(out@) == count_runs(before) + if x > run.start {
                        1nat
                    } else {
                        0nat
                    },
                decreases run.end + 1 - x,
            {
                let ghost was = out@;
                out.push(x as u16);
                proof {
                    assert(out@.drop_last() =~= was);
                    lemma_push_to_set(was, x as u16);
                    assert forall|y: u16| out@.contains(y) <==> before.contains(y) || run.start
                        <= y < x + 1 by {
                        assert(was.contains(y) <==> before.contains(y) || run.start <= y < x);
                        assert(out@.to_set().contains(y) <==> was.to_set().insert(
                            x as u16,
                        ).contains(y));
                    }
                }
                x = x + 1;
            }
            i = i + 1;
            proof {
                let now = self@.take(i as int);
                assert(now[i - 1] == run);
                assert forall|y: u16| out@.contains(y) <==> covers(now, y) by {
                    assert(before.contains(y) <==> covers(done, y));
                    assert(out@.contains(y) <==> before.contains(y) || run.start <= y <= run.end);
                    if covers(done, y) {
                        let j = choose|j: int|
                            0 <= j < done.len() && (#[trigger] done[j]).start <= y <= done[j].end;
                        assert(now[j].start <= y <= now[j].end);
                    }
                    if run.start <= y <= run.end {
                        assert(now[i - 1].start <= y <= now[i - 1].end);
                    }
                    if covers(now, y) {
                        let j = choose|j: int|
                            0 <= j < now.len() && (#[trigger] now[j]).start <= y <= now[j].end;
                        if j < i - 1 {
                            assert(done[j].start <= y <= done[j].end);
                        }
                    }
                }
            }
        }
        proof {
            assert(self@.take(i as int) =~= self@);
            assert(out@.to_set() =~= StoreModel::Run(self@).elements());
        }
        out
    }

    /// The intervals of consecutive values among values in ascending order.
    pub fn from_values(s: &[u16]) -> (r: IntervalStore)
        requires
            ascending(s@),
        ensures
            separated(r@),
            r@.len() == count_runs(s@),
            StoreModel::Run(r@).elements() == s@.to_set(),
    {
        let mut runs: Vec<Interval> = Vec::new();
        let mut i: usize = 0;
        while i < s.len()
            invariant
                i <= s.len(),
                ascending(s@),
                separated(runs@),
                runs@.len() == count_runs(s@.take(i as int)),
                i == 0 ==> runs@.len() == 0,
                i > 0 ==> runs@.len() > 0 && runs@.last().end == s@[i - 1],
                forall|x: u16| s@.take(i as int).contains(x) <==> covers(runs@, x),
            decreases s.len() - i,
        {
            let x: u16 = s[i];
            let ghost done = s@.take(i as int);
            let ghost was = runs@;
            let n: usize = runs.len();
            if i > 0 && s[i - 1] + 1 == x {
                let last: Interval = runs[n - 1];
                runs.set(n - 1, Interval { start: last.start, end: x });
                proof {
                    assert forall|y: u16| covers(runs@, y) <==> covers(was, y) || y == x by {
                        if covers(was, y) {
                            let j = choose|j: int|
                                0 <= j < was.len() && (#[trigger] was[j]).start <= y <= was[j].end;
                            assert(runs@[j].start <= y <= runs@[j].end);
                        }
                        if y == x {
                            assert(was[n - 1].start <= was[n - 1].end);
                            assert(runs@[n - 1].start <= y <= runs@[n - 1].end);
                        }
                        if covers(runs@, y) {
                            let j = choose|j: int|
                                0 <= j < runs@.len() && (#[trigger] runs@[j]).start <= y
                                    <= runs@[j].end;
                            if y != x {
                                assert(was[j].start <= y <= was[j].end);
                            }
                        }
                    }
                }
            } else {
                runs.push(Interval { start: x, end: x });
                proof {
                    assert forall|y: u16| covers(runs@, y) <==> covers(was, y) || y == x by {
                        if covers(was, y) {
                            let j = choose|j: int|
                                0 <= j < was.len() && (#[trigger] was[j]).start <= y <= was[j].end;
                            assert(runs@[j].start <= y <= runs@[j].end);
                        }
                        if y == x {
                            assert(runs@[n as int].start <= y <= runs@[n as int].end);
                        }
                        if covers(runs@, y) {
                            let j = choose|j: int|
                                0 <= j < runs@.len() && (#[trigger] runs@[j]).start <= y
                                    <= runs@[j].end;
                            if j < n {
                                assert(was[j].start <= y <= was[j].end);
                            }
                        }
                    }
                    assert forall|a: int, b: int| 0 <= a < b < runs@.len() implies runs@[a].end + 1
                        < runs@[b].start by {
                        if b == n {
                            assert(runs@[a] == was[a]);
                            assert(was[n - 1].end == s@[i - 1]);
                            if a < n - 1 {
                                assert(was[a].end + 1 < was[n - 1].start);
                                assert(was[n - 1].start <= was[n - 1].end);
                            }
                        }
                    }
                }
            }
            i = i + 1;
            proof {
                let now = s@.take(i as int);
                assert(now =~= done.push(x));
                assert(now.drop_last() =~= done);
                lemma_push_to_set(done, x);
                assert forall|y: u16| now.contains(y) <==> covers(runs@, y) by {
                    assert(now.to_set().contains(y) <==> done.to_set().insert(x).contains(y));
                    assert(done.contains(y) <==> covers(was, y));
                    assert(covers(runs@, y) <==> covers(was, y) || y == x);
                }
            }
        }
        proof {
            assert(s@.take(i as int) =~= s@);
            assert(StoreModel::Run(runs@).elements() =~= s@.to_set());
        }
        IntervalStore { runs }
    }
}

/// How many bytes a store takes up when it is written out as it is.
pub open spec fn encoded_size(m: StoreModel) -> int {
    match m {
        StoreModel::Array(s) => 2 * s.len() as int,
        StoreModel::Bitmap(_, _) => 8 * BITMAP_LENGTH,
        StoreModel::Run(s) => 2 + 4 * s.len() as int,
    }
}

/// The fewest bytes that a store of any kind takes up for the given values.
pub open spec fn least_size(s: Seq<u16>) -> int {
    let plain = if 2 * s.len() <= 8 * BITMAP_LENGTH {
        2 * s.len() as int
    } else {
        8 * BITMAP_LENGTH
    };
    let runs = 2 + 4 * count_runs(s) as int;
    if plain <= runs {
        plain
    } else {
        runs
    }
}

/// Whether a store has the form that values have which were put into it one by one: an array, or
/// a bitset where they are too many.
pub open spec fn plain_form(m: StoreModel) -> bool {
    if m.card() <= ARRAY_LIMIT {
        m is Array
    } else {
        m is Bitmap
    }
}

/// Whether a store has the form that it takes when values are added to another. Where none was
/// missing it is that store. A bitset and a list of runs keep their form, and an array becomes a
/// bitset where it has too many values.
pub open spec fn form_follows(before: StoreModel, after: StoreModel) -> bool {
    if after.elements() == before.elements() {
        after == before
    } else {
        match before {
            StoreModel::Array(_) => plain_form(after),
            StoreModel::Bitmap(_, _) => after is Bitmap,
            StoreModel::Run(_) => after is Run,
        }
    }
}

/// Ascending values are in a store of values in order.
proof fn lemma_array_elements(s: Seq<u16>)
    ensures
        StoreModel::Array(s).elements() == s.to_set(),
{
    assert(StoreModel::Array(s).elements() =~= s.to_set());
}

/// The elements of a bitset are its bits.
proof fn lemma_bitmap_elements(len: u64, words: Seq<u64>)
    ensures
        StoreModel::Bitmap(len, words).elements() == bits(words),
{
    assert(StoreModel::Bitmap(len, words).elements() =~= bits(words));
}

/// Where there are values there are bits.
proof fn lemma_lists_len(s: Seq<u16>, e: Set<u16>)
    requires
        lists(s, e),
    ensures
        s.len() == e.len(),
        e.finite(),
{
    s.unique_seq_to_set();
    lemma_u16_set_finite(e);
}

impl Store {
    /// The store with one value.
    pub fn singleton(x: u16) -> (r: Store)
        ensures
            r@ == StoreModel::Array(seq![x]),
            r@.wf(),
            r@.elements() == set![x],
    {
        let mut vec: Vec<u16> = Vec::new();
        vec.push(x);
        assert(vec@ =~= seq![x]);
        proof {
            lemma_array_elements(vec@);
            lemma_push_to_set(Seq::<u16>::empty(), x);
            assert(vec@ =~= Seq::<u16>::empty().push(x));
            assert(Seq::<u16>::empty().to_set() =~= Set::<u16>::empty());
        }
        Store::Array(ArrayStore::from_vec_unchecked(vec))
    }

    /// The number of values.
    pub fn len(&self) -> (r: u64)
        requires
            self@.wf(),
        ensures
            r == self@.card(),
    {
        match self {
            Store::Array(a) => a.len(),
            Store::Bitmap(b) => b.len(),
            Store::Run(runs) => runs.len(),
        }
    }

    /// Whether the store holds `x`.
    pub fn contains(&self, x: u16) -> (r: bool)
        requires
            self@.wf(),
        ensures
            r == self@.has(x),
    {
        match self {
            Store::Array(a) => a.contains(x),
            Store::Bitmap(b) => b.contains(x),
            Store::Run(runs) => runs.contains(x),
        }
    }

    /// The least value.
    pub fn min(&self) -> (r: Option<u16>)
        requires
            self@.wf(),
        ensures
            self@.first_is(r),
    {
        match self {
            Store::Array(a) => Some(a.as_slice()[0]),
            Store::Bitmap(b) => b.min(),
            Store::Run(runs) => Some(runs.as_slice()[0].start),
        }
    }

    /// The greatest value.
    pub fn max(&self) -> (r: Option<u16>)
        requires
            self@.wf(),
        ensures
            self@.last_is(r),
    {
        match self {
            Store::Array(a) => {
                let s: &[u16] = a.as_slice();
                Some(s[s.len() - 1])
            },
            Store::Bitmap(b) => b.max(),
            Store::Run(runs) => {
                let s: &[Interval] = runs.as_slice();
                Some(s[s.len() - 1].end)
            },
        }
    }

    /// The values in ascending order.
    pub fn values(&self) -> (r: Vec<u16>)
        requires
            self@.wf(),
        ensures
            lists(r@, self@.elements()),
            r@.len() > 0,
            self@ matches StoreModel::Run(s) ==> count_runs(r@) == s.len(),
    {
        proof {
            lemma_store_card(self@);
        }
        let out: Vec<u16> = match self {
            Store::Array(a) => {
                proof {
                    lemma_array_elements(a@);
                }
                vstd::slice::slice_to_vec(a.as_slice())
            },
            Store::Bitmap(b) => {
                proof {
                    lemma_bitmap_elements(b.card(), b.words());
                }
                b.values()
            },
            Store::Run(runs) => runs.values(),
        };
        proof {
            lemma_lists_len(out@, self@.elements());
        }
        out
    }

    /// Adds `x`, and returns whether it was missing.
    pub fn insert(&mut self, x: u16) -> (r: bool)
        requires
            old(self)@.wf(),
        ensures
            final(self)@.wf(),
            final(self)@.elements() == old(self)@.elements().insert(x),
            form_follows(old(self)@, final(self)@),
            final(self)@.card() == old(self)@.card() + if r {
                1int
            } else {
                0int
            },
            r == !old(self)@.has(x),
    {
        if self.contains(x) {
            assert(self@.elements().insert(x) =~= self@.elements());
            return false;
        }
        assert(!self@.elements().contains(x) && self@.elements().insert(x).contains(x));
        match self {
            Store::Array(a) => {
                let ghost before = a@;
                a.insert(x);
                proof {
                    lemma_array_elements(before);
                    lemma_array_elements(a@);
                    lemma_lists_len(a@, a@.to_set());
                }
                if a.len() > ARRAY_LIMIT as u64 {
                    let b = BitmapStore::from_values(a.as_slice());
                    proof {
                        lemma_bitmap_elements(b.card(), b.words());
                        b.lemma_words_len();
                    }
                    *self = Store::Bitmap(b);
                }
            },
            Store::Bitmap(b) => {
                let ghost before = (b.card(), b.words());
                b.insert(x);
                proof {
                    lemma_bitmap_elements(before.0, before.1);
                    lemma_bitmap_elements(b.card(), b.words());
                    b.lemma_words_len();
                    lemma_u16_set_finite(bits(b.words()));
                    assert(bits(b.words()).contains(x));
                }
            },
            Store::Run(runs) => {
                let mut a = ArrayStore::from_vec_unchecked(runs.values());
                a.insert(x);
                let grown = IntervalStore::from_values(a.as_slice());
                proof {
                    lemma_count_runs(a@);
                }
                *self = Store::Run(grown);
            },
        }
        proof {
            lemma_store_card(old(self)@);
            lemma_store_card(self@);
            lemma_u16_set_finite(old(self)@.elements());
        }
        true
    }

    /// Takes the form that needs the fewest bytes, and returns whether that is another one.
    pub fn optimize(&mut self) -> (r: bool)
        requires
            old(self)@.wf(),
        ensures
            final(self)@.wf(),
            final(self)@.elements() == old(self)@.elements(),
            exists|s: Seq<u16>|
                lists(s, old(self)@.elements()) && encoded_size(final(self)@) == least_size(s),
            r <==> encoded_size(final(self)@) < encoded_size(old(self)@),
            !r ==> final(self)@ == old(self)@,
    {
        let values: Vec<u16> = self.values();
        let runs = IntervalStore::from_values(values.as_slice());
        proof {
            lemma_count_runs(values@);
            lemma_separated_len(runs@);
            lemma_ascending_len(values@);
            if let StoreModel::Run(s) = self@ {
                lemma_separated_len(s);
            }
        }
        let as_run: u64 = 2 + 4 * runs.run_amount();
        let as_array: u64 = 2 * values.len() as u64;
        let as_bitmap: u64 = 8 * BITMAP_LENGTH as u64;
        let now: u64 = match self {
            Store::Array(_) => as_array,
            Store::Bitmap(_) => as_bitmap,
            Store::Run(_) => as_run,
        };
        proof {
            lemma_lists_len(values@, self@.elements());
            if let StoreModel::Array(s) = self@ {
                lemma_array_elements(s);
                lemma_lists_len(s, s.to_set());
            }
        }
        let ghost listed = values@;
        if now <= as_run && now <= as_array && now <= as_bitmap {
            assert(lists(listed, old(self)@.elements()) && encoded_size(self@) == least_size(
                listed,
            ));
            return false;
        }
        if as_run < as_array && as_run < as_bitmap {
            *self = Store::Run(runs);
        } else if as_array <= as_bitmap {
            proof {
                lemma_array_elements(values@);
            }
            *self = Store::Array(ArrayStore::from_vec_unchecked(values));
        } else {
            let b = BitmapStore::from_values(values.as_slice());
            proof {
                lemma_bitmap_elements(b.card(), b.words());
                b.lemma_words_len();
            }
            *self = Store::Bitmap(b);
        }
        assert(lists(listed, old(self)@.elements()) && encoded_size(self@) == least_size(listed));
        true
    }
}

} // verus!
