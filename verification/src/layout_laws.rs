//! How much room there is in archives.
use crate::archive::TooLarge;
use crate::bitmap::RoaringBitmap;
use crate::bytes::u32_bytes;
use crate::format::frozen_bytes;
use crate::layout::between_trees;
use crate::layout::children_reach;
use crate::layout::deepest_nodes;
use crate::layout::first_share;
use crate::layout::lemma_between_len;
use crate::layout::lemma_sum_monotone;
use crate::layout::lemma_tree_bounds;
use crate::layout::lemma_trees_bounds;
use crate::layout::place_map;
use crate::layout::place_tree;
use crate::layout::place_trees;
use crate::layout::sum_to;
use crate::layout::tree_entries;
use crate::layout::tree_height;
use crate::layout::values_reach;
use crate::layout::Placed;
use crate::rkyv_calls::aligned_bytes;
use crate::rkyv_calls::entries_fit;
use crate::rkyv_calls::entry_lens;
use crate::rkyv_calls::has_key;
use crate::rkyv_calls::lists_map;
use crate::rkyv_calls::map_fits;
use crate::rkyv_calls::vec_archive;
use crate::rkyv_calls::vec_fits;
use crate::rkyv_calls::zeros;
use crate::treemap::RoaringTreemap;
use crate::treemap_archive::frozen_map;
use rkyv::util::AlignedVec;
use vstd::prelude::*;

verus! {

/// The sum of a part of lengths.
proof fn lemma_sum_sub(lens: Seq<nat>, lo: int, hi: int, k: int)
    requires
        0 <= lo <= hi <= lens.len(),
        0 <= k <= hi - lo,
    ensures
        sum_to(lens.subrange(lo, hi), k) == sum_to(lens, lo + k) - sum_to(lens, lo),
    decreases k,
{
    if k > 0 {
        lemma_sum_sub(lens, lo, hi, k - 1);
    }
}

/// The sum of lengths with one more in front.
proof fn lemma_sum_front(first: nat, rest: Seq<nat>, k: int)
    requires
        0 <= k <= rest.len(),
    ensures
        sum_to(seq![first] + rest, k + 1) == first + sum_to(rest, k),
    decreases k,
{
    let all = seq![first] + rest;
    if k > 0 {
        lemma_sum_front(first, rest, k - 1);
        assert(all[k] == rest[k - 1]);
    } else {
        assert(all[0] == first);
        assert(sum_to(all, 0) == 0);
    }
}

/// Offsets of a node's own bytes do not reach before them.
proof fn lemma_values_reach(own: Seq<nat>, n: int, pos: int, node: int)
    requires
        0 <= n <= own.len(),
        n <= 5,
        pos <= node,
    ensures
        0 <= values_reach(own, n, pos, node) <= node + 56 - pos,
    decreases n,
{
    if n > 0 {
        lemma_values_reach(own, n - 1, pos, node);
        lemma_sum_monotone(own, 0, n - 1);
    }
}

/// Offsets of and in children do not reach before the first of them.
proof fn lemma_children_reach(children: Seq<Placed>, n: int, pos: int, node: int)
    requires
        0 <= n <= children.len(),
        n <= 6,
        pos <= node,
        forall|i: int|
            0 <= i < children.len() ==> {
                &&& 0 <= (#[trigger] children[i]).reach <= node - pos
                &&& children[i].node matches Some(at) ==> pos <= at <= node
            },
    ensures
        0 <= children_reach(children, n, node) <= node + 84 - pos,
    decreases n,
{
    if n > 0 {
        lemma_children_reach(children, n - 1, pos, node);
        assert(0 <= children[n - 1].reach <= node - pos);
    }
}

/// A tree takes up little more than its entries, and no offset reaches out of it.
proof fn lemma_tree_size(lens: Seq<nat>, height: nat, deepest: int, lo: int, pos: int)
    requires
        height >= 1,
        0 <= deepest <= 5 * deepest_nodes(height),
        0 <= lo,
        lo + tree_entries(height, deepest) <= lens.len(),
    ensures
        ({
            let p = place_tree(lens, height, deepest, lo, pos);
            let n = tree_entries(height, deepest);
            &&& n >= 0
            &&& p.end <= pos + sum_to(lens, lo + n) - sum_to(lens, lo) + 91 * n
            &&& 0 <= p.reach <= p.end - pos
        }),
    decreases height, 0nat,
{
    lemma_deepest(height);
    lemma_tree_bounds(lens, height, deepest, lo, pos);
    if height <= 1 {
        if deepest > 0 {
            let own = lens.subrange(lo, lo + deepest);
            lemma_sum_sub(lens, lo, lo + deepest, deepest);
            lemma_sum_monotone(own, 0, deepest);
            let node = (pos + sum_to(own, deepest) + 3) / 4 * 4;
            lemma_values_reach(own, deepest, pos, node);
            assert(children_reach(Seq::<Placed>::empty(), 0, node) == 0);
        }
    } else {
        let below = (height - 1) as nat;
        let unit = deepest_nodes(below);
        lemma_deepest(below);
        assert(deepest_nodes(height) == 6 * unit);
        if deepest <= 0 {
            lemma_tree_size(lens, below, 5 * unit, lo, pos);
        } else {
            let children = place_trees(lens, below, 6, deepest, lo, pos);
            let own = between_trees(lens, below, 5, deepest, lo);
            lemma_trees_size(lens, below, 6, deepest, lo, pos);
            lemma_trees_bounds(lens, below, 6, deepest, lo, pos);
            lemma_between_len(lens, below, 5, deepest, lo);
            lemma_sum_monotone(own, 0, 5);
            let start = children.last().end;
            let node = (start + sum_to(own, 5) + 3) / 4 * 4;
            lemma_values_reach(own, 5, start, node);
            assert forall|i: int| 0 <= i < children.len() implies {
                &&& 0 <= (#[trigger] children[i]).reach <= node - pos
                &&& children[i].node matches Some(at) ==> pos <= at <= node
            } by {
                assert(0 <= children[i].reach <= start - pos);
            }
            lemma_children_reach(children, 6, pos, node);
        }
    }
}

/// Trees one behind the other take up little more than their entries.
proof fn lemma_trees_size(
    lens: Seq<nat>,
    height: nat,
    n: nat,
    deepest: int,
    lo: int,
    pos: int,
)
    requires
        height >= 1,
        1 <= n <= 6,
        0 <= deepest <= 5 * (n * deepest_nodes(height)),
        0 <= lo,
        lo + n * deepest_nodes(height) + deepest - 1 <= lens.len(),
    ensures
        ({
            let ps = place_trees(lens, height, n, deepest, lo, pos);
            let own = between_trees(lens, height, (n - 1) as nat, deepest, lo);
            let all = n * deepest_nodes(height) + deepest - 1;
            &&& ps.len() == n
            &&& ps.last().end + sum_to(own, n - 1) <= pos + sum_to(lens, lo + all) - sum_to(
                lens,
                lo,
            ) + 91 * (all - (n - 1))
            &&& forall|i: int| 0 <= i < n ==> 0 <= (#[trigger] ps[i]).reach <= ps.last().end - pos
        }),
    decreases height, n + 1,
{
    let unit = deepest_nodes(height);
    lemma_deepest(height);
    let share = first_share(height, deepest);
    let entries = tree_entries(height, share);
    let first = place_tree(lens, height, share, lo, pos);
    let next = lo + entries + 1;
    let m = (n - 1) as nat;
    let rest = place_trees(lens, height, m, deepest - share, next, first.end);
    let ps = place_trees(lens, height, n, deepest, lo, pos);
    assert(n * unit == unit + m * unit) by (nonlinear_arith)
        requires
            m == n - 1,
    ;
    assert(m * unit >= 0) by (nonlinear_arith)
        requires
            m >= 0,
            unit >= 1,
    ;
    assert(m >= 1 ==> m * unit >= unit) by (nonlinear_arith)
        requires
            unit >= 1,
    ;
    assert(ps == seq![first] + rest);
    lemma_trees_bounds(lens, height, n, deepest, lo, pos);
    lemma_tree_size(lens, height, share, lo, pos);
    lemma_tree_bounds(lens, height, share, lo, pos);
    if n == 1 {
        assert(share == deepest);
        assert(ps.last() == first);
        assert(ps[0] == first);
    } else {
        lemma_trees_size(lens, height, m, deepest - share, next, first.end);
        lemma_trees_bounds(lens, height, m, deepest - share, next, first.end);
        assert(ps.last() == rest.last());
        let own = between_trees(lens, height, m, deepest, lo);
        let others = between_trees(lens, height, (m - 1) as nat, deepest - share, next);
        assert(own == seq![lens[lo + entries]] + others);
        lemma_between_len(lens, height, (m - 1) as nat, deepest - share, next);
        lemma_sum_front(lens[lo + entries], others, m - 1);
        assert(sum_to(lens, next) == sum_to(lens, lo + entries) + lens[lo + entries]);
        assert forall|i: int| 0 <= i < n implies 0 <= (#[trigger] ps[i]).reach <= ps.last().end
            - pos by {
            if i == 0 {
                assert(ps[0] == first);
            } else {
                assert(ps[i] == rest[i - 1]);
            }
        }
    }
}

/// A level of a full tree has nodes.
proof fn lemma_deepest(height: nat)
    ensures
        deepest_nodes(height) >= 1,
    decreases height,
{
    if height > 1 {
        lemma_deepest((height - 1) as nat);
    }
}

/// A tree is as high as its entries ask for.
proof fn lemma_height(n: nat)
    requires
        n >= 1,
    ensures
        tree_height(n) >= 1,
        deepest_nodes(tree_height(n)) <= n < 6 * deepest_nodes(tree_height(n)),
    decreases n,
{
    if n >= 6 {
        lemma_height(n / 6);
    }
}

/// The tree of a map takes up little more than its entries, and no offset reaches out of it.
proof fn lemma_map_size(lens: Seq<nat>)
    ensures
        ({
            let p = place_map(lens);
            &&& 0 <= p.end <= sum_to(lens, lens.len() as int) + 91 * lens.len()
            &&& 0 <= p.reach <= p.end
            &&& p.node matches Some(at) ==> at <= p.end
        }),
{
    let n = lens.len();
    if n > 0 {
        lemma_height(n);
        let height = tree_height(n);
        let deepest = n - deepest_nodes(height) + 1;
        lemma_tree_size(lens, height, deepest, 0, 0);
        lemma_tree_bounds(lens, height, deepest, 0, 0);
    }
}

/// The number of bytes in entries.
pub open spec fn all_bytes(es: Seq<(u32, Seq<u8>)>) -> int
    decreases es.len(),
{
    if es.len() == 0 {
        0
    } else {
        all_bytes(es.drop_last()) + es.last().1.len()
    }
}

proof fn lemma_all_bytes(es: Seq<(u32, Seq<u8>)>, n: int)
    requires
        0 <= n <= es.len(),
    ensures
        all_bytes(es.take(n)) == sum_to(entry_lens(es), n),
    decreases n,
{
    if n > 0 {
        lemma_all_bytes(es, n - 1);
        assert(es.take(n).drop_last() =~= es.take(n - 1));
        assert(es.take(n).last() == es[n - 1]);
    }
}

/// **There is room for entries.** Entries whose bytes, and 200 for each of them, add up to no more
/// than 2 GiB fit into an archive, and to no more than memory has addresses for.
pub proof fn law_entries_fit(es: Seq<(u32, Seq<u8>)>)
    requires
        all_bytes(es) + 200 * es.len() <= 0x8000_0000,
        all_bytes(es) + 200 * es.len() <= isize::MAX,
    ensures
        entries_fit(es),
{
    let lens = entry_lens(es);
    let n = es.len() as int;
    lemma_map_size(lens);
    lemma_all_bytes(es, n);
    assert(es.take(n) =~= es);
    lemma_sum_monotone(lens, 0, n);
    assert forall|i: int| 0 <= i < n implies (#[trigger] es[i]).1.len() <= 0x8000_0000 by {
        lemma_sum_monotone(lens, 0, i);
        lemma_sum_monotone(lens, i + 1, n);
        assert(lens[i] == es[i].1.len());
    }
}

/// **Treemaps are archived.** Where the frozen bitmaps of a treemap, and 200 bytes for each of
/// them, add up to no more than 2 GiB, there is an archive of it.
pub proof fn law_treemap_archived(
    t: RoaringTreemap,
    es: Seq<(u32, Seq<u8>)>,
    r: Result<AlignedVec<16>, TooLarge>,
)
    requires
        forall|i: int, j: int| 0 <= i < j < es.len() ==> es[i].0 < es[j].0,
        forall|i: int|
            0 <= i < es.len() ==> t.bitmaps().contains_key((#[trigger] es[i]).0) && es[i].1
                == frozen_bytes(t.bitmaps()[es[i].0].model()),
        forall|k: u32| #[trigger]
            t.bitmaps().contains_key(k) ==> exists|i: int|
                0 <= i < es.len() && (#[trigger] es[i]).0 == k,
        all_bytes(es) + 200 * es.len() <= 0x8000_0000,
        all_bytes(es) + 200 * es.len() <= isize::MAX,
        call_ensures(RoaringTreemap::to_bytes, (&t,), r),
    ensures
        r is Ok,
{
    let m = frozen_map(t.models());
    law_entries_fit(es);
    assert forall|i: int| 0 <= i < es.len() implies m.contains_key((#[trigger] es[i]).0)
        && m[es[i].0] == es[i].1 by {
        assert(t.models()[es[i].0] == t.bitmaps()[es[i].0].model());
    }
    assert forall|k: u32| #[trigger] m.contains_key(k) implies has_key(es, k) by {
        assert(t.bitmaps().contains_key(k));
    }
    assert(lists_map(es, m));
    assert(map_fits(m));
}

/// An offset of a node's own bytes reaches over them.
proof fn lemma_values_floor(own: Seq<nat>, n: int, pos: int, node: int, i: int)
    requires
        0 <= i < n <= own.len(),
        pos + sum_to(own, own.len() as int) <= node,
    ensures
        own[i] <= values_reach(own, n, pos, node),
    decreases n,
{
    if i < n - 1 {
        lemma_values_floor(own, n - 1, pos, node, i);
    } else {
        lemma_sum_monotone(own, n, own.len() as int);
    }
}

/// The offsets of a node reach as far as those in its children.
proof fn lemma_children_floor(children: Seq<Placed>, n: int, node: int, i: int)
    requires
        0 <= i < n <= children.len(),
    ensures
        children[i].reach <= children_reach(children, n, node),
    decreases n,
{
    if i < n - 1 {
        lemma_children_floor(children, n - 1, node, i);
    }
}

/// A tree takes up no less than its entries, and an offset reaches over each of them.
proof fn lemma_tree_floor(lens: Seq<nat>, height: nat, deepest: int, lo: int, pos: int)
    requires
        height >= 1,
        0 <= deepest <= 5 * deepest_nodes(height),
        0 <= lo,
        lo + tree_entries(height, deepest) <= lens.len(),
    ensures
        ({
            let p = place_tree(lens, height, deepest, lo, pos);
            let n = tree_entries(height, deepest);
            let sum = sum_to(lens, lo + n) - sum_to(lens, lo);
            &&& p.end >= pos + sum
            &&& n > 0 ==> p.node is Some && p.node->0 >= pos + sum
            &&& forall|i: int| lo <= i < lo + n ==> #[trigger] lens[i] <= p.reach
        }),
    decreases height, 0nat,
{
    lemma_deepest(height);
    let p = place_tree(lens, height, deepest, lo, pos);
    let n = tree_entries(height, deepest);
    if height <= 1 {
        if deepest > 0 {
            let own = lens.subrange(lo, lo + deepest);
            lemma_sum_sub(lens, lo, lo + deepest, deepest);
            let node = (pos + sum_to(own, deepest) + 3) / 4 * 4;
            assert forall|i: int| lo <= i < lo + n implies #[trigger] lens[i] <= p.reach by {
                lemma_values_floor(own, deepest, pos, node, i - lo);
                assert(own[i - lo] == lens[i]);
            }
        }
    } else {
        let below = (height - 1) as nat;
        let unit = deepest_nodes(below);
        lemma_deepest(below);
        assert(deepest_nodes(height) == 6 * unit);
        if deepest <= 0 {
            lemma_tree_floor(lens, below, 5 * unit, lo, pos);
        } else {
            let children = place_trees(lens, below, 6, deepest, lo, pos);
            let own = between_trees(lens, below, 5, deepest, lo);
            lemma_trees_floor(lens, below, 6, deepest, lo, pos);
            lemma_trees_bounds(lens, below, 6, deepest, lo, pos);
            lemma_between_len(lens, below, 5, deepest, lo);
            let start = children.last().end;
            let node = (start + sum_to(own, 5) + 3) / 4 * 4;
            assert forall|i: int| lo <= i < lo + n implies #[trigger] lens[i] <= p.reach by {
                if exists|j: int| 0 <= j < 6 && lens[i] <= (#[trigger] children[j]).reach {
                    let j = choose|j: int|
                        0 <= j < 6 && lens[i] <= (#[trigger] children[j]).reach;
                    lemma_children_floor(children, 6, node, j);
                } else {
                    let j = choose|j: int| 0 <= j < 5 && #[trigger] own[j] == lens[i];
                    lemma_values_floor(own, 5, start, node, j);
                }
            }
        }
    }
}

/// Trees one behind the other, with the entries between them, take up no less than all entries.
proof fn lemma_trees_floor(
    lens: Seq<nat>,
    height: nat,
    n: nat,
    deepest: int,
    lo: int,
    pos: int,
)
    requires
        height >= 1,
        1 <= n <= 6,
        0 <= deepest <= 5 * (n * deepest_nodes(height)),
        0 <= lo,
        lo + n * deepest_nodes(height) + deepest - 1 <= lens.len(),
    ensures
        ({
            let ps = place_trees(lens, height, n, deepest, lo, pos);
            let own = between_trees(lens, height, (n - 1) as nat, deepest, lo);
            let all = n * deepest_nodes(height) + deepest - 1;
            &&& ps.len() == n
            &&& own.len() == n - 1
            &&& ps.last().end + sum_to(own, n - 1) >= pos + sum_to(lens, lo + all) - sum_to(
                lens,
                lo,
            )
            &&& forall|i: int|
                lo <= i < lo + all ==> {
                    ||| exists|j: int| 0 <= j < n && #[trigger] lens[i] <= (#[trigger] ps[j]).reach
                    ||| exists|j: int| 0 <= j < n - 1 && #[trigger] own[j] == lens[i]
                }
        }),
    decreases height, n + 1,
{
    let unit = deepest_nodes(height);
    lemma_deepest(height);
    let share = first_share(height, deepest);
    let entries = tree_entries(height, share);
    let first = place_tree(lens, height, share, lo, pos);
    let next = lo + entries + 1;
    let m = (n - 1) as nat;
    let rest = place_trees(lens, height, m, deepest - share, next, first.end);
    let ps = place_trees(lens, height, n, deepest, lo, pos);
    let own = between_trees(lens, height, m, deepest, lo);
    let all = n * unit + deepest - 1;
    assert(n * unit == unit + m * unit) by (nonlinear_arith)
        requires
            m == n - 1,
    ;
    assert(m >= 1 ==> m * unit >= unit) by (nonlinear_arith)
        requires
            unit >= 1,
    ;
    assert(m == 0 ==> m * unit == 0) by (nonlinear_arith);
    assert(ps == seq![first] + rest);
    assert(ps[0] == first);
    lemma_trees_bounds(lens, height, n, deepest, lo, pos);
    lemma_tree_floor(lens, height, share, lo, pos);
    lemma_between_len(lens, height, m, deepest, lo);
    if n == 1 {
        assert(ps.last() == first);
        assert forall|i: int| lo <= i < lo + all implies {
            ||| exists|j: int| 0 <= j < n && #[trigger] lens[i] <= (#[trigger] ps[j]).reach
            ||| exists|j: int| 0 <= j < n - 1 && #[trigger] own[j] == lens[i]
        } by {
            assert(lens[i] <= ps[0].reach);
        }
    } else {
        lemma_trees_floor(lens, height, m, deepest - share, next, first.end);
        assert(ps.last() == rest.last());
        let others = between_trees(lens, height, (m - 1) as nat, deepest - share, next);
        assert(own == seq![lens[lo + entries]] + others);
        lemma_sum_front(lens[lo + entries], others, m - 1);
        assert(sum_to(lens, next) == sum_to(lens, lo + entries) + lens[lo + entries]);
        assert forall|i: int| lo <= i < lo + all implies {
            ||| exists|j: int| 0 <= j < n && #[trigger] lens[i] <= (#[trigger] ps[j]).reach
            ||| exists|j: int| 0 <= j < n - 1 && #[trigger] own[j] == lens[i]
        } by {
            if i < lo + entries {
                assert(lens[i] <= ps[0].reach);
            } else if i == lo + entries {
                assert(own[0] == lens[i]);
            } else if exists|j: int| 0 <= j < m && lens[i] <= (#[trigger] rest[j]).reach {
                let j = choose|j: int| 0 <= j < m && lens[i] <= (#[trigger] rest[j]).reach;
                assert(ps[j + 1] == rest[j]);
                assert(lens[i] <= ps[j + 1].reach);
            } else {
                let j = choose|j: int| 0 <= j < m - 1 && #[trigger] others[j] == lens[i];
                assert(own[j + 1] == others[j]);
            }
        }
    }
}

/// **There is no more room.** Entries that fit into an archive have at most 2 GiB each and less
/// than 4 GiB together.
pub proof fn law_entries_too_large(es: Seq<(u32, Seq<u8>)>, i: int)
    requires
        entries_fit(es),
        0 <= i < es.len(),
    ensures
        es[i].1.len() <= 0x8000_0000,
        all_bytes(es) < 0x1_0000_0000,
{
    let lens = entry_lens(es);
    let n = es.len();
    lemma_height(n);
    let height = tree_height(n);
    let deepest = n - deepest_nodes(height) + 1;
    lemma_tree_floor(lens, height, deepest, 0, 0);
    lemma_all_bytes(es, n as int);
    assert(es.take(n as int) =~= es);
    assert(lens[i] == es[i].1.len());
}

/// **Room for a byte string.** A byte string fits into an archive exactly where it is no longer
/// than 2 GiB and, with padding and the end of the archive, than a buffer can be.
pub proof fn law_vec_fits(n: int)
    requires
        0 <= n,
    ensures
        vec_fits(n) <==> n <= 0x8000_0000 && (n + 3) / 4 * 4 + 23 <= isize::MAX,
        n <= 0x7fff_fffc && n + 26 <= isize::MAX ==> vec_fits(n),
{
}

/// Parts put one behind the other.
proof fn lemma_four_parts(s: Seq<u8>, pad: Seq<u8>, a: Seq<u8>, b: Seq<u8>)
    requires
        a.len() == 4,
        b.len() == 4,
    ensures
        ({
            let all = s + pad + a + b;
            let n = all.len() as int;
            &&& n == s.len() + pad.len() + 8
            &&& forall|i: int| 0 <= i < s.len() ==> #[trigger] all[i] == s[i]
            &&& forall|i: int| s.len() <= i < n - 8 ==> #[trigger] all[i] == pad[i - s.len()]
            &&& all[n - 8] == a[0] && all[n - 7] == a[1] && all[n - 6] == a[2] && all[n - 5] == a[3]
            &&& all[n - 4] == b[0] && all[n - 3] == b[1] && all[n - 2] == b[2] && all[n - 1] == b[3]
        }),
{
}

/// The bytes of a 32-bit integer.
proof fn lemma_four_bytes(v: int)
    requires
        0 <= v < 0x1_0000_0000,
    ensures
        u32_bytes(v).len() == 4,
        u32_bytes(v)[0] + 256 * u32_bytes(v)[1] + 65536 * u32_bytes(v)[2] + 16777216 * u32_bytes(
            v,
        )[3] == v,
{
}

/// Bytes, zeros, an offset and a length, put one behind the other.
#[verifier::rlimit(50)]
#[verifier::spinoff_prover]
proof fn lemma_archive_shape(s: Seq<u8>, pad: Seq<u8>, a: Seq<u8>, b: Seq<u8>, back: int)
    requires
        pad.len() <= 3,
        (s.len() + pad.len()) % 4 == 0,
        forall|i: int| 0 <= i < pad.len() ==> #[trigger] pad[i] == 0,
        a.len() == 4,
        b.len() == 4,
        a[0] + 256 * a[1] + 65536 * a[2] + 16777216 * a[3] == back,
        b[0] + 256 * b[1] + 65536 * b[2] + 16777216 * b[3] == s.len(),
        back + s.len() + pad.len() == 0x1_0000_0000 || back + s.len() + pad.len() == 0,
    ensures
        ({
            let all = s + pad + a + b;
            let n = all.len() as int;
            &&& s.len() + 8 <= n <= s.len() + 11
            &&& n % 4 == 0
            &&& forall|i: int| 0 <= i < s.len() ==> #[trigger] all[i] == s[i]
            &&& forall|i: int| s.len() <= i < n - 8 ==> #[trigger] all[i] == 0
            &&& (all[n - 8] + 256 * all[n - 7] + 65536 * all[n - 6] + 16777216 * all[n - 5] + n - 8)
                % 0x1_0000_0000 == 0
            &&& all[n - 4] + 256 * all[n - 3] + 65536 * all[n - 2] + 16777216 * all[n - 1]
                == s.len()
        }),
{
    lemma_four_parts(s, pad, a, b);
}

/// How far it is from the end of an archive back to its start.
proof fn lemma_way_back(n: int)
    requires
        0 <= n <= 0x8000_0000,
    ensures
        ({
            let root = (n + 3) / 4 * 4;
            let back = (0x1_0000_0000 - root) % 0x1_0000_0000;
            &&& n <= root <= n + 3
            &&& root % 4 == 0
            &&& 0 <= back < 0x1_0000_0000
            &&& back + root == 0x1_0000_0000 || back + root == 0
        }),
{
}

/// The parts of the archive of a byte string.
#[verifier::rlimit(50)]
#[verifier::spinoff_prover]
proof fn lemma_archive_of(s: Seq<u8>) -> (r: (Seq<u8>, Seq<u8>, Seq<u8>, int))
    requires
        s.len() <= 0x8000_0000,
    ensures
        vec_archive(s) == s + r.0 + r.1 + r.2,
        r.0.len() <= 3,
        (s.len() + r.0.len()) % 4 == 0,
        forall|i: int| 0 <= i < r.0.len() ==> #[trigger] r.0[i] == 0,
        r.1.len() == 4,
        r.2.len() == 4,
        r.1[0] + 256 * r.1[1] + 65536 * r.1[2] + 16777216 * r.1[3] == r.3,
        r.2[0] + 256 * r.2[1] + 65536 * r.2[2] + 16777216 * r.2[3] == s.len(),
        r.3 + s.len() + r.0.len() == 0x1_0000_0000 || r.3 + s.len() + r.0.len() == 0,
{
    let root = (s.len() + 3) / 4 * 4;
    let back = (0x1_0000_0000 - root) % 0x1_0000_0000;
    lemma_way_back(s.len() as int);
    lemma_four_bytes(back);
    lemma_four_bytes(s.len() as int);
    (zeros((root - s.len()) as nat), u32_bytes(back), u32_bytes(s.len() as int), back)
}

/// **What an archive of a byte string is.** It is the bytes, up to three zeros, how far it is back
/// to the bytes as a negative number, and how many they are, with the lesser bytes first.
pub proof fn law_vec_archive_bytes(s: Seq<u8>)
    requires
        s.len() <= 0x8000_0000,
    ensures
        ({
            let a = vec_archive(s);
            let n = a.len() as int;
            &&& s.len() + 8 <= n <= s.len() + 11
            &&& n % 4 == 0
            &&& forall|i: int| 0 <= i < s.len() ==> #[trigger] a[i] == s[i]
            &&& forall|i: int| s.len() <= i < n - 8 ==> #[trigger] a[i] == 0
            &&& (a[n - 8] + 256 * a[n - 7] + 65536 * a[n - 6] + 16777216 * a[n - 5] + n - 8)
                % 0x1_0000_0000 == 0
            &&& a[n - 4] + 256 * a[n - 3] + 65536 * a[n - 2] + 16777216 * a[n - 1] == s.len()
        }),
{
    let (pad, a, b, back) = lemma_archive_of(s);
    lemma_archive_shape(s, pad, a, b, back);
}

/// **Bitmaps are archived.** Where the frozen form of a bitmap is not longer than 2 GiB, there is
/// an archive of it, of as many bytes, up to three for padding, and eight at its end.
pub proof fn law_bitmap_archived(b: RoaringBitmap, r: Result<AlignedVec<16>, TooLarge>)
    requires
        call_ensures(RoaringBitmap::to_bytes, (&b,), r),
    ensures
        ({
            let n = frozen_bytes(b.model()).len() as int;
            &&& n <= 0x7fff_fffc && n + 26 <= isize::MAX ==> r is Ok
            &&& n > 0x8000_0000 ==> r is Err
            &&& r matches Ok(bytes) ==> {
                let s = aligned_bytes(bytes);
                &&& n + 8 <= s.len() <= n + 11
                &&& s.len() % 4 == 0
                &&& forall|i: int| 0 <= i < n ==> #[trigger] s[i] == frozen_bytes(b.model())[i]
            }
        }),
{
    let s = frozen_bytes(b.model());
    law_vec_fits(s.len() as int);
    if s.len() <= 0x8000_0000 {
        law_vec_archive_bytes(s);
    }
    if let Ok(bytes) = r {
        assert(aligned_bytes(bytes) == vec_archive(s));
    }
}

} // verus!
