//! How the kinds of store that a bitmap has follow from what was done to it, and numbers as text.
use crate::bitmap::has_container;
use crate::bitmap::inserted_at;
use crate::bitmap::lemma_inserted_forms;
use crate::bitmap::RoaringBitmap;
use crate::laws::lemma_last_interval;
use crate::laws::lemma_one_array;
use crate::model::ascending;
use crate::model::covers;
use crate::model::lemma_store_card;
use crate::model::separated;
use crate::model::Interval;
use crate::model::StoreModel;
use crate::query_laws::law_members;
use crate::query_laws::member;
use crate::store::count_runs;
use crate::store::encoded_size;
use crate::store::least_size;
use crate::store::lists;
use crate::text::decimal;
use vstd::prelude::*;

verus! {

/// What a store takes up when it is written out: two bytes for each value, 8192 for a bitset, or
/// two and four for each interval.
pub open spec fn written_size(store: StoreModel) -> int {
    match store {
        StoreModel::Array(s) => 2 * s.len() as int,
        StoreModel::Bitmap(_, _) => 8192,
        StoreModel::Run(s) => 2 + 4 * s.len() as int,
    }
}

/// Ascending values fall into as many runs as there are separated intervals that cover them.
proof fn lemma_runs_counted(s: Seq<u16>, t: Seq<Interval>)
    requires
        ascending(s),
        separated(t),
        forall|x: u16| #[trigger] s.contains(x) <==> covers(t, x),
    ensures
        count_runs(s) == t.len(),
    decreases s.len(),
{
    if t.len() == 0 {
        if s.len() > 0 {
            assert(s.contains(s[0]));
        }
    } else {
        lemma_last_interval(t);
        let last = t.last();
        assert(s.contains(last.end));
        assert(s.contains(s.last()));
        assert(s.last() == last.end);
        let rest = s.drop_last();
        assert forall|x: u16| #[trigger] rest.contains(x) <==> s.contains(x) && x != last.end by {
            if rest.contains(x) {
                let i = choose|i: int| 0 <= i < rest.len() && rest[i] == x;
                assert(s[i] == x);
            }
            if s.contains(x) && x != last.end {
                let i = choose|i: int| 0 <= i < s.len() && s[i] == x;
                assert(rest[i] == x);
            }
        }
        let n = s.len() as int;
        if last.start < last.end {
            let before = (last.end - 1) as u16;
            assert(t[t.len() - 1].start <= before <= t[t.len() - 1].end);
            assert(covers(t, before));
            assert(s.contains(before));
            let i = choose|i: int| 0 <= i < s.len() && s[i] == before;
            assert(i == n - 2) by {
                if i < n - 2 {
                    assert(s[i] < s[n - 2] && s[n - 2] < s[n - 1]);
                }
            }
            let cut = t.update(t.len() - 1, Interval { start: last.start, end: before });
            assert(separated(cut)) by {
                assert forall|a: int, b: int| 0 <= a < b < cut.len() implies cut[a].end + 1
                    < cut[b].start by {
                    assert(t[a].end + 1 < t[b].start);
                }
            }
            assert forall|x: u16| #[trigger] rest.contains(x) <==> covers(cut, x) by {
                if covers(cut, x) {
                    let j = choose|j: int|
                        0 <= j < cut.len() && (#[trigger] cut[j]).start <= x <= cut[j].end;
                    assert(t[j].start <= x <= t[j].end);
                    if j < t.len() - 1 {
                        assert(t[j].end + 1 < t[t.len() - 1].start);
                    }
                    assert(s.contains(x));
                }
                if rest.contains(x) {
                    assert(covers(t, x));
                    let j = choose|j: int|
                        0 <= j < t.len() && (#[trigger] t[j]).start <= x <= t[j].end;
                    assert(cut[j].start <= x <= cut[j].end);
                }
            }
            lemma_runs_counted(rest, cut);
        } else {
            if n >= 2 && s[n - 2] + 1 == s[n - 1] {
                assert(s.contains(s[n - 2]));
                assert(covers(t, (last.start - 1) as u16));
            }
            assert forall|x: u16| #[trigger] rest.contains(x) <==> covers(t.drop_last(), x) by {
                assert(s.contains(x) <==> covers(t, x));
            }
            lemma_runs_counted(rest, t.drop_last());
        }
    }
}

/// **No store is smaller.** The least size for values is no greater than that of any store in
/// order that holds them.
pub proof fn law_least_size(s: Seq<u16>, store: StoreModel)
    requires
        store.wf(),
        lists(s, store.elements()),
    ensures
        least_size(s) <= written_size(store),
        encoded_size(store) == written_size(store),
{
    assert forall|x: u16| s.contains(x) <==> store.has(x) by {
        assert(s.to_set().contains(x) <==> store.elements().contains(x));
    }
    match store {
        StoreModel::Array(t) => {
            assert forall|x: u16| s.contains(x) <==> t.contains(x) by {
                assert(s.contains(x) <==> store.has(x));
            }
            lemma_one_array(s, t);
        },
        StoreModel::Run(t) => {
            assert forall|x: u16| #[trigger] s.contains(x) <==> covers(t, x) by {
                assert(s.contains(x) <==> store.has(x));
            }
            lemma_runs_counted(s, t);
        },
        StoreModel::Bitmap(_, _) => {},
    }
}

/// **Optimizing.** Afterwards a bitmap holds what it held, under the same keys, and no container
/// could be written in fewer bytes. It says that something has changed exactly where it has.
pub proof fn law_optimize(b: &mut RoaringBitmap, r: bool, i: int, other: StoreModel, v: u32)
    requires
        call_ensures(RoaringBitmap::optimize, (b,), r),
        0 <= i < old(b).model().len(),
        other.wf(),
        other.elements() == old(b).model()[i].store.elements(),
    ensures
        final(b).model().len() == old(b).model().len(),
        final(b).model()[i].key == old(b).model()[i].key,
        written_size(final(b).model()[i].store) <= written_size(other),
        member(final(b).model(), v) <==> member(old(b).model(), v),
        r <==> final(b).model() != old(b).model(),
{
    law_members(final(b).model(), v);
    law_members(old(b).model(), v);
    assert(final(b)@ == old(b)@);
    let now = final(b).model()[i].store;
    assert(final(b).model()[i].key == old(b).model()[i].key);
    let s = choose|s: Seq<u16>|
        lists(s, old(b).model()[i].store.elements()) && encoded_size(now) == least_size(s);
    law_least_size(s, other);
}

/// **The kind after one integer.** A container for a new key is an array with one value. An array
/// becomes a bitset with its 4097th value, and other containers keep their kind. A container that
/// had the integer, or has another key, is as it was.
pub proof fn law_insert_form(b: &mut RoaringBitmap, v: u32, r: bool, i: int)
    requires
        old(b).wf(),
        call_ensures(RoaringBitmap::insert, (b, v), r),
        0 <= i < final(b).model().len(),
    ensures
        ({
            let before = old(b).model();
            let c = final(b).model()[i];
            &&& c.key != v / 65536 ==> before.contains(c)
            &&& c.key == v / 65536 && (forall|j: int|
                0 <= j < before.len() ==> (#[trigger] before[j]).key != c.key)
                ==> c.store == StoreModel::Array(seq![(v % 65536) as u16])
            &&& forall|j: int|
                0 <= j < before.len() && (#[trigger] before[j]).key == c.key ==> {
                    &&& !r ==> c == before[j]
                    &&& before[j].store matches StoreModel::Array(s) ==> (c.key == v / 65536 && r
                        ==> if s.len() < 4096 {
                        c.store is Array
                    } else {
                        c.store is Bitmap
                    })
                    &&& before[j].store is Bitmap ==> c.store is Bitmap
                    &&& before[j].store is Run ==> c.store is Run
                }
        }),
        final(b).model().len() <= old(b).model().len() + 1,
        forall|j: int|
            0 <= j < old(b).model().len() ==> has_container(
                final(b).model(),
                (#[trigger] old(b).model()[j]).key,
            ),
{
    let before = old(b).model();
    let after = final(b).model();
    let k = choose|k: int| #[trigger] inserted_at(before, after, k, v);
    lemma_inserted_forms(before, after, v);
    let into = k < before.len() && before[k].key == v / 65536;
    let c = after[i];
    if c.key != v / 65536 {
        assert(before.contains(c));
    }
    law_members(before, v);
    assert forall|j: int| 0 <= j < before.len() && (#[trigger] before[j]).key == c.key implies {
        &&& !r ==> c == before[j]
        &&& before[j].store matches StoreModel::Array(s) ==> (c.key == v / 65536 && r
            ==> if s.len() < 4096 {
            c.store is Array
        } else {
            c.store is Bitmap
        })
        &&& before[j].store is Bitmap ==> c.store is Bitmap
        &&& before[j].store is Run ==> c.store is Run
    } by {
        if c.key != v / 65536 {
            let l = choose|l: int| 0 <= l < before.len() && before[l] == c;
            if l < j {
                assert(before[l].key < before[j].key);
            } else if j < l {
                assert(before[j].key < before[l].key);
            }
        } else {
            if into {
                if j < k {
                    assert(before[j].key < before[k].key);
                } else if k < j {
                    assert(before[k].key < before[j].key);
                }
                if i < k {
                    assert(before[i] == after[i]);
                    assert(before[i].key < before[k].key);
                } else if k < i {
                    assert(before[i] == after[i]);
                    assert(before[k].key < before[i].key);
                }
                assert(r <==> !before[k].store.has((v % 65536) as u16)) by {
                    assert(r <==> !old(b)@.contains(v));
                    if old(b)@.contains(v) {
                        let m = choose|m: int|
                            0 <= m < before.len() && (#[trigger] before[m]).has(v);
                        if m < k {
                            assert(before[m].key < before[k].key);
                        } else if k < m {
                            assert(before[k].key < before[m].key);
                        }
                    }
                    if before[k].store.has((v % 65536) as u16) {
                        assert(before[k].has(v));
                    }
                }
                let x = (v % 65536) as u16;
                assert(after[k].store.elements().contains(x) <==> before[
                    k].store.elements().insert(x).contains(x));
                assert(before[k].store.elements().contains(x) <==> before[k].store.has(x));
                if !r {
                    assert(before[k].store.elements().insert(x) =~= before[k].store.elements());
                }
            }
        }
    }
    if c.key == v / 65536 && (forall|j: int|
        0 <= j < before.len() ==> (#[trigger] before[j]).key != c.key) {
        if i < k {
            assert(after[i] == before[i]);
        } else if i > k {
            assert(after[i] == before[i - 1]);
        }
    }
}

/// **The kind after a range.** A container for a new key is an array of up to 4096 values, or a
/// bitset. An array that gets values is one afterwards too, or becomes a bitset where it has more.
/// Other containers keep their kind, and those with a key outside the range are as they were.
pub proof fn law_insert_range_form(
    b: &mut RoaringBitmap,
    start: u32,
    last: u32,
    r: u64,
    i: int,
)
    requires
        old(b).wf(),
        call_ensures(RoaringBitmap::insert_range, (b, start, last), r),
        0 <= i < final(b).model().len(),
    ensures
        ({
            let before = old(b).model();
            let c = final(b).model()[i];
            let many = c.store.elements().len() > 4096;
            &&& !(start <= last && start / 65536 <= c.key <= last / 65536) ==> before.contains(c)
            &&& (forall|j: int| 0 <= j < before.len() ==> (#[trigger] before[j]).key != c.key)
                ==> if many {
                c.store is Bitmap
            } else {
                c.store is Array
            }
            &&& forall|j: int|
                0 <= j < before.len() && (#[trigger] before[j]).key == c.key ==> {
                    &&& c.store.elements() == before[j].store.elements() ==> c == before[j]
                    &&& before[j].store is Array && c != before[j] ==> if many {
                        c.store is Bitmap
                    } else {
                        c.store is Array
                    }
                    &&& before[j].store is Bitmap ==> c.store is Bitmap
                    &&& before[j].store is Run ==> c.store is Run
                }
        }),
        forall|j: int|
            0 <= j < old(b).model().len() ==> has_container(
                final(b).model(),
                (#[trigger] old(b).model()[j]).key,
            ),
{
    let before = old(b).model();
    let after = final(b).model();
    let c = after[i];
    assert(c.store.wf());
    lemma_store_card(c.store);
    if forall|j: int| 0 <= j < before.len() ==> (#[trigger] before[j]).key != c.key {
        assert(!has_container(before, c.key));
    }
    if start > last {
        assert(before[i] == c);
    }
}

/// The number that digits stand for.
pub open spec fn digits_value(s: Seq<char>) -> int
    decreases s.len(),
{
    if s.len() == 0 {
        0
    } else {
        10 * digits_value(s.drop_last()) + (s.last() as u32 - '0' as u32)
    }
}

/// **Numbers as text.** The text of a number is digits that stand for it, and the first is only a
/// zero where it is the only one.
pub proof fn law_decimal(n: nat)
    ensures
        digits_value(decimal(n)) == n,
        decimal(n).len() > 0,
        forall|i: int|
            0 <= i < decimal(n).len() ==> '0' as u32 <= (#[trigger] decimal(n)[i]) as u32
                <= '9' as u32,
        decimal(n)[0] == '0' ==> decimal(n).len() == 1,
    decreases n,
{
    if n >= 10 {
        law_decimal(n / 10);
        let rest = decimal(n / 10);
        let s = decimal(n);
        assert(s.drop_last() =~= rest);
        assert(s[0] == rest[0]);
        assert forall|i: int| 0 <= i < s.len() implies '0' as u32 <= (#[trigger] s[i]) as u32
            <= '9' as u32 by {
            if i < rest.len() {
                assert(s[i] == rest[i]);
            }
        }
        if rest[0] == '0' {
            assert(digits_value(rest) == n / 10);
            assert(rest.drop_last() =~= Seq::<char>::empty());
            assert(digits_value(rest.drop_last()) == 0);
        }
    } else {
        assert(decimal(n).drop_last() =~= Seq::<char>::empty());
        assert(digits_value(decimal(n).drop_last()) == 0);
    }
}

} // verus!
