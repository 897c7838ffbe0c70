//! Where things stand in the archive of a map of byte strings: the nodes of a tree, each behind
//! its children and the bytes of its own entries, and how far back its offsets reach.
use vstd::prelude::*;

verus! {

/// The number of entries of a node.
pub const NODE_ENTRIES: u64 = 5;

/// Where in a node the offsets of its entries' bytes begin. Each has a length behind it.
pub const VALUES_START: u64 = 24;

/// Where in a node with children the offsets of the children begin.
pub const CHILDREN_START: u64 = 64;

/// The size of a node without children.
pub const LEAF_SIZE: u64 = 68;

/// The size of a node with children.
pub const INNER_SIZE: u64 = 88;

/// The greatest number that an archive keeps: a length, a number of entries, or the position of
/// the root node.
pub const NUMBER_LIMIT: u64 = 0xffff_ffff;

/// A position that no archive with a root node in place comes to.
pub const PLACE_LIMIT: u64 = 0x2_0000_0000;

/// What comes of placing a tree.
#[verifier::ext_equal]
pub struct Placed {
    /// The position behind the tree.
    pub end: int,
    /// Where its root node stands, if it has one.
    pub node: Option<int>,
    /// How far back the offsets in it reach at most.
    pub reach: int,
}

/// The number of nodes on the deepest level of a full tree.
pub open spec fn deepest_nodes(height: nat) -> int
    decreases height,
{
    if height <= 1 {
        1
    } else {
        6 * deepest_nodes((height - 1) as nat)
    }
}

/// The height of the tree with `n` entries.
pub open spec fn tree_height(n: nat) -> nat
    decreases n,
{
    if n < 6 {
        1
    } else {
        tree_height(n / 6) + 1
    }
}

/// The number of entries of a tree that is full but for its deepest level, which has `deepest`
/// entries.
pub open spec fn tree_entries(height: nat, deepest: int) -> int {
    deepest_nodes(height) - 1 + deepest
}

/// How many of `deepest` entries the first of several trees takes. It takes all that it has
/// room for.
pub open spec fn first_share(height: nat, deepest: int) -> int {
    if deepest <= NODE_ENTRIES * deepest_nodes(height) {
        deepest
    } else {
        NODE_ENTRIES * deepest_nodes(height)
    }
}

/// The sum of the first `n` lengths.
pub open spec fn sum_to(lens: Seq<nat>, n: int) -> int
    decreases n,
{
    if n <= 0 {
        0
    } else {
        sum_to(lens, n - 1) + lens[n - 1]
    }
}

/// The greater of two integers.
pub open spec fn greater(a: int, b: int) -> int {
    if a < b {
        b
    } else {
        a
    }
}

/// How far back a node's offsets of its first `n` entries' bytes reach, with the bytes placed one
/// behind the other from `pos` on.
pub open spec fn values_reach(own: Seq<nat>, n: int, pos: int, node: int) -> int
    decreases n,
{
    if n <= 0 {
        0
    } else {
        greater(
            values_reach(own, n - 1, pos, node),
            node + VALUES_START + 8 * (n - 1) - (pos + sum_to(own, n - 1)),
        )
    }
}

/// How far back a node's offsets of its first `n` children, and the offsets in them, reach.
pub open spec fn children_reach(children: Seq<Placed>, n: int, node: int) -> int
    decreases n,
{
    if n <= 0 {
        0
    } else {
        let child = children[n - 1];
        let before = greater(children_reach(children, n - 1, node), child.reach);
        match child.node {
            Some(at) => greater(before, node + CHILDREN_START + 4 * (n - 1) - at),
            None => before,
        }
    }
}

/// Places a node and the bytes of its own entries at `pos`, behind its children. A node is
/// aligned to four bytes.
pub open spec fn place_node(children: Seq<Placed>, own: Seq<nat>, pos: int) -> Placed {
    let node = (pos + sum_to(own, own.len() as int) + 3) / 4 * 4;
    Placed {
        end: node + if children.len() == 0 {
            LEAF_SIZE
        } else {
            INNER_SIZE
        },
        node: Some(node),
        reach: greater(
            values_reach(own, own.len() as int, pos, node),
            children_reach(children, children.len() as int, node),
        ),
    }
}

/// Places a tree at `pos`, with the entries from index `lo` on. Where its deepest level has no
/// entries, it is a full tree of one level less.
pub open spec fn place_tree(lens: Seq<nat>, height: nat, deepest: int, lo: int, pos: int) -> Placed
    decreases height, 0nat,
{
    if height <= 1 {
        if deepest <= 0 {
            Placed { end: pos, node: None, reach: 0 }
        } else {
            place_node(Seq::empty(), lens.subrange(lo, lo + deepest), pos)
        }
    } else {
        let below = (height - 1) as nat;
        if deepest <= 0 {
            place_tree(lens, below, NODE_ENTRIES * deepest_nodes(below), lo, pos)
        } else {
            let children = place_trees(lens, below, 6, deepest, lo, pos);
            place_node(children, between_trees(lens, below, 5, deepest, lo), children.last().end)
        }
    }
}

/// Places `n` trees one behind the other, with one entry left out between each and the next.
/// Their deepest levels have `deepest` entries together, and the first trees are filled first.
pub open spec fn place_trees(
    lens: Seq<nat>,
    height: nat,
    n: nat,
    deepest: int,
    lo: int,
    pos: int,
) -> Seq<Placed>
    decreases height, n + 1,
{
    if n == 0 {
        Seq::empty()
    } else {
        let share = first_share(height, deepest);
        let first = place_tree(lens, height, share, lo, pos);
        seq![first] + place_trees(
            lens,
            height,
            (n - 1) as nat,
            deepest - share,
            lo + tree_entries(height, share) + 1,
            first.end,
        )
    }
}

/// The lengths of the entries that are left out behind the first `n` of such trees.
pub open spec fn between_trees(
    lens: Seq<nat>,
    height: nat,
    n: nat,
    deepest: int,
    lo: int,
) -> Seq<nat>
    decreases n,
{
    if n == 0 {
        Seq::empty()
    } else {
        let share = first_share(height, deepest);
        let next = lo + tree_entries(height, share);
        seq![lens[next]] + between_trees(lens, height, (n - 1) as nat, deepest - share, next + 1)
    }
}

/// Places the tree of a map whose entries have the given lengths.
pub open spec fn place_map(lens: Seq<nat>) -> Placed {
    let height = tree_height(lens.len());
    place_tree(lens, height, lens.len() - deepest_nodes(height) + 1, 0, 0)
}

/// Lengths as natural numbers.
pub open spec fn sizes(lens: Seq<u64>) -> Seq<nat> {
    Seq::new(lens.len(), |i: int| lens[i] as nat)
}

/// What has come of placing a tree.
pub struct Place {
    /// The position behind the tree.
    pub end: u64,
    /// Where its root node stands, if it has one.
    pub node: Option<u64>,
    /// How far back the offsets in it reach at most.
    pub reach: u64,
}

impl View for Place {
    type V = Placed;

    open spec fn view(&self) -> Placed {
        Placed {
            end: self.end as int,
            node: match self.node {
                Some(at) => Some(at as int),
                None => None,
            },
            reach: self.reach as int,
        }
    }
}

/// What places say.
pub open spec fn views(places: Seq<Place>) -> Seq<Placed> {
    Seq::new(places.len(), |i: int| places[i]@)
}

/// Whether `r` is the place, or nothing where it lies beyond what an archive can come to.
pub open spec fn placed_is(r: Option<Place>, p: Placed) -> bool {
    match r {
        Some(place) => place@ == p && p.end <= PLACE_LIMIT,
        None => p.end > PLACE_LIMIT,
    }
}

/// More lengths have no lesser sum.
pub proof fn lemma_sum_monotone(lens: Seq<nat>, i: int, n: int)
    requires
        0 <= i <= n <= lens.len(),
    ensures
        0 <= sum_to(lens, i) <= sum_to(lens, n),
    decreases n,
{
    if i < n {
        lemma_sum_monotone(lens, i, n - 1);
    } else if 0 < n {
        lemma_sum_monotone(lens, n - 1, n - 1);
    }
}

/// A tree stands behind the position at which it is placed, and has its root node in it.
pub proof fn lemma_tree_bounds(lens: Seq<nat>, height: nat, deepest: int, lo: int, pos: int)
    ensures
        ({
            let p = place_tree(lens, height, deepest, lo, pos);
            &&& pos <= p.end
            &&& p.node matches Some(at) ==> pos <= at <= p.end <= at + INNER_SIZE
            &&& p.node is None ==> p.end == pos
        }),
    decreases height, 0nat,
{
    if height <= 1 {
        if deepest > 0 {
            let own = lens.subrange(lo, lo + deepest);
            lemma_sum_monotone(own, 0, own.len() as int);
        }
    } else {
        let below = (height - 1) as nat;
        if deepest <= 0 {
            lemma_tree_bounds(lens, below, NODE_ENTRIES * deepest_nodes(below), lo, pos);
        } else {
            let own = between_trees(lens, below, 5, deepest, lo);
            lemma_trees_bounds(lens, below, 6, deepest, lo, pos);
            lemma_sum_monotone(own, 0, own.len() as int);
        }
    }
}

/// Trees that are placed one behind the other stand in order.
pub proof fn lemma_trees_bounds(
    lens: Seq<nat>,
    height: nat,
    n: nat,
    deepest: int,
    lo: int,
    pos: int,
)
    ensures
        ({
            let ps = place_trees(lens, height, n, deepest, lo, pos);
            &&& ps.len() == n
            &&& n > 0 ==> pos <= ps.last().end
            &&& forall|i: int|
                0 <= i < n ==> {
                    &&& pos <= (#[trigger] ps[i]).end <= ps.last().end
                    &&& ps[i].node matches Some(at) ==> pos <= at <= ps.last().end
                }
        }),
    decreases height, n + 1,
{
    if n > 0 {
        let share = first_share(height, deepest);
        let first = place_tree(lens, height, share, lo, pos);
        let next = lo + tree_entries(height, share) + 1;
        let rest = place_trees(lens, height, (n - 1) as nat, deepest - share, next, first.end);
        let ps = place_trees(lens, height, n, deepest, lo, pos);
        lemma_tree_bounds(lens, height, share, lo, pos);
        lemma_trees_bounds(lens, height, (n - 1) as nat, deepest - share, next, first.end);
        assert(ps == seq![first] + rest);
        if n > 1 {
            assert(ps.last() == rest.last());
        } else {
            assert(ps.last() == first);
        }
        assert forall|i: int| 0 <= i < n implies {
            &&& pos <= (#[trigger] ps[i]).end <= ps.last().end
            &&& ps[i].node matches Some(at) ==> pos <= at <= ps.last().end
        } by {
            if i == 0 {
                assert(ps[0] == first);
            } else {
                assert(ps[i] == rest[i - 1]);
            }
        }
    }
}

/// The entries between trees are as many as asked for.
pub proof fn lemma_between_len(lens: Seq<nat>, height: nat, n: nat, deepest: int, lo: int)
    ensures
        between_trees(lens, height, n, deepest, lo).len() == n,
    decreases n,
{
    if n > 0 {
        let share = first_share(height, deepest);
        let next = lo + tree_entries(height, share);
        lemma_between_len(lens, height, (n - 1) as nat, deepest - share, next + 1);
    }
}

/// Places a node behind its children.
fn node_at(children: &[Place], own: &[u64], pos: u64) -> (r: Option<Place>)
    requires
        pos <= PLACE_LIMIT,
        own.len() <= 5,
        children.len() <= 6,
        forall|i: int|
            0 <= i < children.len() ==> ((#[trigger] children@[i]).node matches Some(at) ==> at
                <= pos),
    ensures
        placed_is(r, place_node(views(children@), sizes(own@), pos as int)),
{
    let ghost lens = sizes(own@);
    let ghost kids = views(children@);
    let ghost n = own@.len() as int;
    let mut at: u64 = pos;
    let mut i: usize = 0;
    while i < own.len()
        invariant
            i <= own.len(),
            pos <= at <= PLACE_LIMIT,
            lens == sizes(own@),
            n == own@.len(),
            at == pos + sum_to(lens, i as int),
            kids == views(children@),
        decreases own.len() - i,
    {
        proof {
            assert(lens[i as int] == own@[i as int]);
            lemma_sum_monotone(lens, i + 1, n);
        }
        if own[i] > PLACE_LIMIT - at {
            return None;
        }
        at = at + own[i];
        i = i + 1;
    }
    let node: u64 = (at + 3) / 4 * 4;
    let end: u64 = node + if children.len() == 0 {
        LEAF_SIZE
    } else {
        INNER_SIZE
    };
    if end > PLACE_LIMIT {
        return None;
    }
    let mut values: u64 = 0;
    let mut start: u64 = pos;
    let mut j: usize = 0;
    while j < own.len()
        invariant
            j <= own.len() <= 5,
            pos <= start <= at <= node <= PLACE_LIMIT,
            lens == sizes(own@),
            n == own@.len(),
            start == pos + sum_to(lens, j as int),
            at == pos + sum_to(lens, n),
            values == values_reach(lens, j as int, pos as int, node as int),
        decreases own.len() - j,
    {
        proof {
            assert(lens[j as int] == own@[j as int]);
            lemma_sum_monotone(lens, j + 1, n);
        }
        let reach: u64 = node + VALUES_START + 8 * j as u64 - start;
        if values < reach {
            values = reach;
        }
        start = start + own[j];
        j = j + 1;
    }
    let mut below: u64 = 0;
    let mut k: usize = 0;
    while k < children.len()
        invariant
            k <= children.len() <= 6,
            pos <= node <= PLACE_LIMIT,
            kids == views(children@),
            forall|l: int|
                0 <= l < children.len() ==> ((#[trigger] children@[l]).node matches Some(p) ==> p
                    <= pos),
            below == children_reach(kids, k as int, node as int),
        decreases children.len() - k,
    {
        let child: &Place = &children[k];
        proof {
            assert(kids[k as int] == children@[k as int]@);
        }
        if below < child.reach {
            below = child.reach;
        }
        if let Some(p) = child.node {
            let reach: u64 = node + CHILDREN_START + 4 * k as u64 - p;
            if below < reach {
                below = reach;
            }
        }
        k = k + 1;
    }
    Some(
        Place {
            end,
            node: Some(node),
            reach: if values < below {
                below
            } else {
                values
            },
        },
    )
}

/// Places a tree, of which `unit` says how many nodes the deepest level has room for.
fn tree_at(lens: &[u64], height: u32, unit: u64, deepest: u64, lo: usize, pos: u64) -> (r: Option<
    Place,
>)
    requires
        height >= 1,
        unit == deepest_nodes(height as nat),
        1 <= unit <= NUMBER_LIMIT,
        deepest <= NODE_ENTRIES * unit,
        lo + unit - 1 + deepest <= lens.len(),
        pos <= PLACE_LIMIT,
    ensures
        placed_is(
            r,
            place_tree(sizes(lens@), height as nat, deepest as int, lo as int, pos as int),
        ),
    decreases height,
{
    let ghost all = sizes(lens@);
    if height == 1 {
        if deepest == 0 {
            return Some(Place { end: pos, node: None, reach: 0 });
        }
        let mut own: Vec<u64> = Vec::new();
        let mut j: usize = 0;
        while j < deepest as usize
            invariant
                j <= deepest <= 5,
                lo + deepest <= lens.len(),
                own@ == lens@.subrange(lo as int, lo + j),
            decreases deepest - j,
        {
            own.push(lens[lo + j]);
            j = j + 1;
            assert(own@ =~= lens@.subrange(lo as int, lo + j));
        }
        let children: Vec<Place> = Vec::new();
        assert(views(children@) =~= Seq::<Placed>::empty());
        assert(sizes(own@) =~= all.subrange(lo as int, lo + deepest));
        return node_at(children.as_slice(), own.as_slice(), pos);
    }
    let ghost below = (height - 1) as nat;
    let part: u64 = unit / 6;
    assert(unit == 6 * deepest_nodes(below));
    if deepest == 0 {
        return tree_at(lens, height - 1, part, NODE_ENTRIES * part, lo, pos);
    }
    let mut children: Vec<Place> = Vec::new();
    let mut own: Vec<u64> = Vec::new();
    let mut left: u64 = deepest;
    let mut start: usize = lo;
    let mut at: u64 = pos;
    let mut i: u64 = 0;
    let ghost whole = place_trees(all, below, 6, deepest as int, lo as int, pos as int);
    let ghost gaps = between_trees(all, below, 5, deepest as int, lo as int);
    proof {
        lemma_trees_bounds(all, below, 6, deepest as int, lo as int, pos as int);
        lemma_between_len(all, below, 5, deepest as int, lo as int);
        assert(views(children@) =~= Seq::<Placed>::empty());
        assert(sizes(own@) =~= Seq::<nat>::empty());
        let rest = place_trees(all, below, 6, deepest as int, lo as int, pos as int);
        assert(whole =~= views(children@) + rest);
        assert(gaps =~= sizes(own@) + gaps);
    }
    while i < 6
        invariant
            i <= 6,
            height >= 2,
            below == height - 1,
            part == deepest_nodes(below),
            1 <= part <= NUMBER_LIMIT,
            all == sizes(lens@),
            start + (6 - i) * part + left - 1 <= lens.len(),
            at <= PLACE_LIMIT,
            children@.len() == i,
            own@.len() == if i < 5 {
                i as int
            } else {
                5
            },
            i == 0 ==> at == pos,
            i > 0 ==> at == children@[i - 1].end,
            whole.len() == 6,
            whole == views(children@) + place_trees(
                all,
                below,
                (6 - i) as nat,
                left as int,
                start as int,
                at as int,
            ),
            gaps == sizes(own@) + between_trees(
                all,
                below,
                if i < 5 {
                    (5 - i) as nat
                } else {
                    0
                },
                left as int,
                start as int,
            ),
            whole == place_trees(all, below, 6, deepest as int, lo as int, pos as int),
            gaps == between_trees(all, below, 5, deepest as int, lo as int),
            place_tree(all, height as nat, deepest as int, lo as int, pos as int) == place_node(
                whole,
                gaps,
                whole.last().end,
            ),
            gaps.len() == 5,
        decreases 6 - i,
    {
        let share: u64 = if left <= NODE_ENTRIES * part {
            left
        } else {
            NODE_ENTRIES * part
        };
        let ghost was = views(children@);
        let ghost owned = sizes(own@);
        let ghost first = place_tree(all, below, share as int, start as int, at as int);
        let ghost next = start + tree_entries(below, share as int);
        proof {
            assert((6 - i) * part == part + (5 - i) * part) by (nonlinear_arith);
            assert((5 - i) * part >= 0) by (nonlinear_arith)
                requires
                    i < 6,
                    part >= 1,
            ;
            assert(i < 5 ==> (5 - i) * part >= part) by (nonlinear_arith)
                requires
                    part >= 1,
            ;
            let rest = place_trees(
                all,
                below,
                (5 - i) as nat,
                left - share,
                next + 1,
                first.end,
            );
            assert(whole =~= was.push(first) + rest);
            assert(whole[i as int] == first);
        }
        match tree_at(lens, height - 1, part, share, start, at) {
            Some(place) => {
                at = place.end;
                children.push(place);
                assert(views(children@) =~= was.push(first));
            },
            None => {
                proof {
                    lemma_trees_bounds(all, below, 6, deepest as int, lo as int, pos as int);
                    lemma_sum_monotone(gaps, 0, 5);
                }
                return None;
            },
        }
        if i < 5 {
            let gap: u64 = lens[start + (part - 1 + share) as usize];
            own.push(gap);
            proof {
                assert(all[next] == gap);
                assert(sizes(own@) =~= owned.push(gap as nat));
                let rest = between_trees(all, below, (4 - i) as nat, left - share, next + 1);
                assert(gaps =~= sizes(own@) + rest);
            }
        }
        left = left - share;
        if i < 5 {
            start = start + (part + share) as usize;
        }
        i = i + 1;
    }
    proof {
        lemma_trees_bounds(all, below, 6, deepest as int, lo as int, pos as int);
        assert(whole =~= views(children@));
        assert(gaps =~= sizes(own@));
        assert forall|k: int| 0 <= k < children@.len() implies ((
        #[trigger] children@[k]).node matches Some(p) ==> p <= at) by {
            assert(whole[k] == children@[k]@);
        }
    }
    node_at(children.as_slice(), own.as_slice(), at)
}

/// The height of the tree with `n` entries, and how many nodes its deepest level has room for.
fn height_of(n: u64) -> (r: (u32, u64))
    requires
        n <= NUMBER_LIMIT,
    ensures
        r.0 == tree_height(n as nat),
        1 <= r.0 <= n + 1,
        r.1 == deepest_nodes(r.0 as nat),
        1 <= r.1,
        n > 0 ==> r.1 <= n,
        n < 6 * r.1,
        n == 0 ==> r.1 == 1,
    decreases n,
{
    if n < 6 {
        (1, 1)
    } else {
        let above: (u32, u64) = height_of(n / 6);
        (above.0 + 1, 6 * above.1)
    }
}

/// Places the tree of a map whose entries have the given lengths. There is nothing where it lies
/// beyond what an archive can come to.
pub fn place_entries(lens: &[u64]) -> (r: Option<Place>)
    requires
        lens.len() <= NUMBER_LIMIT,
    ensures
        placed_is(r, place_map(sizes(lens@))),
        r is None ==> (place_map(sizes(lens@)).node matches Some(at) && at > NUMBER_LIMIT),
{
    let n: u64 = lens.len() as u64;
    let height: (u32, u64) = height_of(n);
    assert(sizes(lens@).len() == n);
    proof {
        lemma_tree_bounds(sizes(lens@), height.0 as nat, n - (height.1 - 1), 0, 0);
    }
    tree_at(lens, height.0, height.1, n - (height.1 - 1), 0, 0)
}

} // verus!
