//! Sets of 64-bit integers, split into parts that share their high 32 bits.
use vstd::prelude::*;
use vstd::set_lib::lemma_map_size;
use vstd::set_lib::lemma_set_disjoint_lens;

verus! {

/// The high 32 bits of a value.
pub open spec fn high64(v: u64) -> u32 {
    (v / 0x1_0000_0000) as u32
}

/// The low 32 bits of a value.
pub open spec fn low64(v: u64) -> u32 {
    (v % 0x1_0000_0000) as u32
}

/// The value with the given high and low bits.
pub open spec fn join64(key: u32, x: u32) -> u64 {
    (key * 0x1_0000_0000 + x) as u64
}

/// Whether the keys go up from each part to the next.
pub open spec fn parts_ascend(s: Seq<(u32, Set<u32>)>) -> bool {
    forall|i: int, j: int| 0 <= i < j < s.len() ==> s[i].0 < s[j].0
}

/// Whether a part holds `v`.
pub open spec fn part_has(p: (u32, Set<u32>), v: u64) -> bool {
    p.0 == high64(v) && p.1.contains(low64(v))
}

/// Whether one of the parts holds `v`.
pub open spec fn parts_have(s: Seq<(u32, Set<u32>)>, v: u64) -> bool {
    exists|i: int| 0 <= i < s.len() && #[trigger] part_has(s[i], v)
}

/// The integers that the parts hold.
pub open spec fn parts_set(s: Seq<(u32, Set<u32>)>) -> Set<u64> {
    Set::new(|v: u64| parts_have(s, v))
}

/// How many integers the parts hold, counted one part after the other.
pub open spec fn parts_len(s: Seq<(u32, Set<u32>)>) -> nat
    decreases s.len(),
{
    if s.len() == 0 {
        0
    } else {
        parts_len(s.drop_last()) + s.last().1.len()
    }
}

/// Whether `r` is the least element of the set, or nothing where it has none.
pub open spec fn least64_is(s: Set<u64>, r: Option<u64>) -> bool {
    match r {
        Some(v) => s.contains(v) && forall|w: u64| s.contains(w) ==> v <= w,
        None => s == Set::<u64>::empty(),
    }
}

/// Whether `r` is the greatest element of the set, or nothing where it has none.
pub open spec fn greatest64_is(s: Set<u64>, r: Option<u64>) -> bool {
    match r {
        Some(v) => s.contains(v) && forall|w: u64| s.contains(w) ==> w <= v,
        None => s == Set::<u64>::empty(),
    }
}

/// Splitting a value into its halves and joining them gives it back.
pub proof fn lemma_join64(key: u32, x: u32)
    ensures
        high64(join64(key, x)) == key,
        low64(join64(key, x)) == x,
        forall|v: u64| high64(v) == key && low64(v) == x ==> v == #[trigger] join64(key, x),
{
}

/// A part holds as many integers as the set of its low bits.
proof fn lemma_part_len(p: (u32, Set<u32>), own: Set<u64>)
    requires
        p.1.finite(),
        forall|v: u64| own.contains(v) <==> #[trigger] part_has(p, v),
    ensures
        own.finite(),
        own.len() == p.1.len(),
{
    let f = |x: u32| join64(p.0, x);
    assert forall|v: u64| own.contains(v) <==> p.1.map(f).contains(v) by {
        lemma_join64(p.0, low64(v));
        assert(own.contains(v) <==> part_has(p, v));
        if own.contains(v) {
            assert(p.1.contains(low64(v)) && f(low64(v)) == v);
        }
        if p.1.map(f).contains(v) {
            let x = choose|x: u32| p.1.contains(x) && f(x) == v;
            lemma_join64(p.0, x);
        }
    }
    assert(p.1.map(f) =~= own);
    assert forall|x: u32, y: u32| f(x) == f(y) && p.1.contains(x) && p.1.contains(y) implies x
        == y by {
        lemma_join64(p.0, x);
        lemma_join64(p.0, y);
    }
    lemma_map_size(p.1, own, f);
}

/// Parts with ascending keys hold as many integers as they hold one after the other.
pub proof fn lemma_parts_len(s: Seq<(u32, Set<u32>)>)
    requires
        parts_ascend(s),
        forall|i: int| 0 <= i < s.len() ==> (#[trigger] s[i]).1.finite(),
    ensures
        parts_set(s).finite(),
        parts_set(s).len() == parts_len(s),
    decreases s.len(),
{
    if s.len() == 0 {
        assert(parts_set(s) =~= Set::<u64>::empty());
    } else {
        let rest = s.drop_last();
        let own = Set::new(|v: u64| part_has(s.last(), v));
        assert(s.last() == s[s.len() - 1]);
        lemma_parts_len(rest);
        lemma_part_len(s.last(), own);
        assert forall|v: u64| parts_set(s).contains(v) <==> parts_set(rest).union(own).contains(
            v,
        ) by {
            if parts_have(s, v) {
                let i = choose|i: int| 0 <= i < s.len() && #[trigger] part_has(s[i], v);
                if i < rest.len() {
                    assert(part_has(rest[i], v));
                }
            }
            if parts_have(rest, v) {
                let i = choose|i: int| 0 <= i < rest.len() && #[trigger] part_has(rest[i], v);
                assert(part_has(s[i], v));
            }
            if own.contains(v) {
                assert(part_has(s[s.len() - 1], v));
            }
        }
        assert(parts_set(s) =~= parts_set(rest).union(own));
        assert forall|v: u64| parts_set(rest).contains(v) implies !own.contains(v) by {
            let i = choose|i: int| 0 <= i < rest.len() && #[trigger] part_has(rest[i], v);
            assert(rest[i] == s[i]);
            assert(s[i].0 < s[s.len() - 1].0);
        }
        assert(parts_set(rest).disjoint(own));
        lemma_set_disjoint_lens(parts_set(rest), own);
    }
}

/// The first parts hold no more integers than all.
pub proof fn lemma_parts_len_monotone(s: Seq<(u32, Set<u32>)>, n: int)
    requires
        0 <= n <= s.len(),
    ensures
        parts_len(s.take(n)) <= parts_len(s),
    decreases s.len(),
{
    if n == s.len() {
        assert(s.take(n) =~= s);
    } else {
        lemma_parts_len_monotone(s.drop_last(), n);
        assert(s.drop_last().take(n) =~= s.take(n));
    }
}

/// The least element of the first part that holds something is the least of all.
pub proof fn lemma_parts_least(s: Seq<(u32, Set<u32>)>, i: int, x: u32)
    requires
        parts_ascend(s),
        0 <= i < s.len(),
        forall|j: int| 0 <= j < i ==> (#[trigger] s[j]).1 == Set::<u32>::empty(),
        s[i].1.contains(x),
        forall|y: u32| s[i].1.contains(y) ==> x <= y,
    ensures
        least64_is(parts_set(s), Some(join64(s[i].0, x))),
{
    let v = join64(s[i].0, x);
    lemma_join64(s[i].0, x);
    assert(part_has(s[i], v));
    assert forall|w: u64| parts_set(s).contains(w) implies v <= w by {
        let j = choose|j: int| 0 <= j < s.len() && #[trigger] part_has(s[j], w);
        if j < i {
            assert(s[j].1 == Set::<u32>::empty());
        } else if j > i {
            assert(s[i].0 < s[j].0);
        }
    }
}

/// The greatest element of the last part that holds something is the greatest of all.
pub proof fn lemma_parts_greatest(s: Seq<(u32, Set<u32>)>, i: int, x: u32)
    requires
        parts_ascend(s),
        0 <= i < s.len(),
        forall|j: int| i < j < s.len() ==> (#[trigger] s[j]).1 == Set::<u32>::empty(),
        s[i].1.contains(x),
        forall|y: u32| s[i].1.contains(y) ==> y <= x,
    ensures
        greatest64_is(parts_set(s), Some(join64(s[i].0, x))),
{
    let v = join64(s[i].0, x);
    lemma_join64(s[i].0, x);
    assert(part_has(s[i], v));
    assert forall|w: u64| parts_set(s).contains(w) implies w <= v by {
        let j = choose|j: int| 0 <= j < s.len() && #[trigger] part_has(s[j], w);
        if j > i {
            assert(s[j].1 == Set::<u32>::empty());
        } else if j < i {
            assert(s[j].0 < s[i].0);
        }
    }
}

/// Where no part holds anything there is no integer.
pub proof fn lemma_parts_empty(s: Seq<(u32, Set<u32>)>)
    requires
        forall|j: int| 0 <= j < s.len() ==> (#[trigger] s[j]).1 == Set::<u32>::empty(),
    ensures
        parts_set(s) == Set::<u64>::empty(),
{
    assert forall|v: u64| !parts_set(s).contains(v) by {
        if parts_have(s, v) {
            let j = choose|j: int| 0 <= j < s.len() && #[trigger] part_has(s[j], v);
            assert(s[j].1 == Set::<u32>::empty());
        }
    }
    assert(parts_set(s) =~= Set::<u64>::empty());
}

} // verus!
