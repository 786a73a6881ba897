use vstd::prelude::*;
use crate::aabb::Aabb;

verus! {

/// A node holds at most this many primitives as a leaf.
pub const LEAF_SIZE: usize = 4;

/// Whether a node is a leaf or has two children.
#[derive(Clone, Copy, Debug, PartialEq, Eq, Structural)]
pub enum NodeKind {
    Leaf,
    Internal { left: usize, right: usize },
}

/// A node covers the slots `start..end` of the hierarchy's primitive order.
/// Children are stored before their parent; the root is the last node.
#[derive(Clone, Copy, Debug, PartialEq, Eq, Structural)]
pub struct BvhNode {
    pub bounds: Aabb,
    pub start: usize,
    pub end: usize,
    pub kind: NodeKind,
}

/// Bounding volume hierarchy over the boxes of a list of primitives.
pub struct Bvh {
    nodes: Vec<BvhNode>,
    order: Vec<usize>,
    prims: Ghost<Seq<Aabb>>,
}

/// `order` lists each of `0..n` exactly once.
pub open spec fn is_permutation(order: Seq<usize>, n: nat) -> bool {
    &&& order.len() == n
    &&& forall|k: int| 0 <= k < order.len() ==> #[trigger] order[k] < n
    &&& forall|i: usize| i < n ==> #[trigger] order.contains(i)
    &&& order.no_duplicates()
}

pub open spec fn all_wf(prims: Seq<Aabb>) -> bool {
    forall|i: int| 0 <= i < prims.len() ==> #[trigger] prims[i].wf()
}

/// Box `b` holds the box of every primitive in the slots `start..end`.
pub open spec fn holds_range(b: Aabb, prims: Seq<Aabb>, order: Seq<usize>, start: int, end: int) -> bool {
    forall|k: int| start <= k < end ==> b.contains_spec(#[trigger] prims[order[k] as int])
}

/// Node `j` is sound: its slot range is valid, its box is the smallest box
/// that holds the box of every primitive in that range, a leaf is small,
/// and an internal node's two children come earlier, split its range in
/// two, and have its box as the union of theirs.
pub open spec fn node_ok(nodes: Seq<BvhNode>, j: int, prims: Seq<Aabb>, order: Seq<usize>) -> bool {
    let nd = nodes[j];
    &&& nd.start < nd.end <= order.len()
    &&& nd.bounds.wf()
    &&& forall|k: int|
        nd.start <= k < nd.end ==> nd.bounds.contains_spec(#[trigger] prims[order[k] as int])
    &&& forall|b: Aabb|
        #[trigger] holds_range(b, prims, order, nd.start as int, nd.end as int) ==> b.contains_spec(
            nd.bounds,
        )
    &&& match nd.kind {
        NodeKind::Leaf => nd.end - nd.start <= LEAF_SIZE,
        NodeKind::Internal { left, right } => {
            &&& left < j
            &&& right < j
            &&& nodes[left as int].start == nd.start
            &&& nodes[left as int].end == nodes[right as int].start
            &&& nodes[right as int].end == nd.end
            &&& nd.bounds == nodes[left as int].bounds.union_spec(nodes[right as int].bounds)
        },
    }
}

pub open spec fn nodes_ok(nodes: Seq<BvhNode>, prims: Seq<Aabb>, order: Seq<usize>) -> bool {
    forall|j: int| 0 <= j < nodes.len() ==> #[trigger] node_ok(nodes, j, prims, order)
}

impl Bvh {
    /// The boxes of the primitives that the hierarchy was built over.
    pub closed spec fn prims(&self) -> Seq<Aabb> {
        self.prims@
    }

    /// The nodes, children before parents, the root last.
    pub closed spec fn nodes_spec(&self) -> Seq<BvhNode> {
        self.nodes@
    }

    /// The primitive order whose slots the nodes' ranges cover.
    pub closed spec fn order_spec(&self) -> Seq<usize> {
        self.order@
    }

    /// The hierarchy's invariant: the primitive order is a permutation, every
    /// node is sound, and the root (the last node) covers every slot. An
    /// empty hierarchy has no nodes.
    pub open spec fn wf(&self) -> bool {
        &&& all_wf(self.prims())
        &&& is_permutation(self.order_spec(), self.prims().len())
        &&& nodes_ok(self.nodes_spec(), self.prims(), self.order_spec())
        &&& (self.nodes_spec().len() == 0 <==> self.prims().len() == 0)
        &&& self.nodes_spec().len() > 0 ==> {
            &&& self.nodes_spec().last().start == 0
            &&& self.nodes_spec().last().end == self.order_spec().len()
        }
    }

    /// Builds the hierarchy over the given primitive boxes.
    pub fn new(prims: &Vec<Aabb>) -> (r: Bvh)
        requires
            all_wf(prims@),
            2 * prims@.len() <= usize::MAX,
        ensures
            r.wf(),
            r.prims() == prims@,
    {
        let n = prims.len();
        let mut order: Vec<usize> = Vec::new();
        let mut i: usize = 0;
        while i < n
            invariant
                i <= n,
                n == prims.len(),
                order@.len() == i,
                forall|k: int| 0 <= k < i ==> order@[k] == k,
            decreases n - i,
        {
            order.push(i);
            i = i + 1;
        }
        proof {
            assert forall|v: usize| v < n implies #[trigger] order@.contains(v) by {
                assert(order@[v as int] == v);
            }
        }
        let mut nodes: Vec<BvhNode> = Vec::new();
        if n > 0 {
            build_range(prims, &mut order, &mut nodes, 0, n);
        }
        Bvh { nodes, order, prims: Ghost(prims@) }
    }

    /// The nearest primitive that `hit` reports, found by depth-first
    /// descent that visits the nearer child first and skips every node
    /// whose entry distance is not below the nearest hit found so far.
    pub fn intersect_closest<H: Fn(usize) -> Option<u32>, E: Fn(Aabb) -> Option<u32>>(
        &self,
        hit: &H,
        entry: &E,
    ) -> (r: Option<(usize, u32)>)
        requires
            self.wf(),
            forall|i: usize| call_requires(*hit, (i,)),
            is_function(*hit),
            forall|b: Aabb| call_requires(*entry, (b,)),
            entry_bounds_hits(self.prims(), *hit, *entry),
        ensures
            is_nearest(*hit, self.prims().len(), r),
    {
        if self.nodes.len() == 0 {
            return None;
        }
        let root = self.nodes.len() - 1;
        let e = entry(self.nodes[root].bounds);
        let r = self.visit(root, e, None, hit, entry);
        proof {
            assert forall|i: usize, d: u32|
                i < self.prims@.len() && #[trigger] call_ensures(*hit, (i,), Some(d)) implies r is Some
                && r.unwrap().1 <= d by {
                assert(self.order@.contains(i));
                let k = choose|k: int| 0 <= k < self.order@.len() && self.order@[k] == i;
                assert(call_ensures(*hit, (self.order@[k],), Some(d)));
            }
        }
        r
    }

    fn visit<H: Fn(usize) -> Option<u32>, E: Fn(Aabb) -> Option<u32>>(
        &self,
        j: usize,
        e: Option<u32>,
        best: Option<(usize, u32)>,
        hit: &H,
        entry: &E,
    ) -> (r: Option<(usize, u32)>)
        requires
            self.wf(),
            j < self.nodes@.len(),
            call_ensures(*entry, (self.nodes@[j as int].bounds,), e),
            forall|i: usize| call_requires(*hit, (i,)),
            is_function(*hit),
            forall|b: Aabb| call_requires(*entry, (b,)),
            entry_bounds_hits(self.prims(), *hit, *entry),
            is_hit(*hit, self.prims@.len(), best),
        ensures
            is_hit(*hit, self.prims@.len(), r),
            best is Some ==> r is Some && r.unwrap().1 <= best.unwrap().1,
            forall|k: int, d: u32|
                self.nodes@[j as int].start <= k < self.nodes@[j as int].end && #[trigger] call_ensures(
                    *hit,
                    (self.order@[k],),
                    Some(d),
                ) ==> r is Some && r.unwrap().1 <= d,
        decreases j,
    {
        let nd = self.nodes[j];
        proof {
            assert(node_ok(self.nodes@, j as int, self.prims@, self.order@));
        }
        let pruned = match e {
            None => true,
            Some(ev) => match best {
                Some((_, bd)) => ev >= bd,
                None => false,
            },
        };
        if pruned {
            proof {
                assert forall|k: int, d: u32|
                    nd.start <= k < nd.end && #[trigger] call_ensures(
                        *hit,
                        (self.order@[k],),
                        Some(d),
                    ) implies best is Some && best.unwrap().1 <= d by {
                    assert(nd.bounds.contains_spec(self.prims@[self.order@[k] as int]));
                    assert(self.order@[k] < self.prims@.len());
                }
            }
            return best;
        }
        match nd.kind {
            NodeKind::Leaf => {
                let mut acc = best;
                let mut k = nd.start;
                while k < nd.end
                    invariant
                        nd == self.nodes@[j as int],
                        nd.start <= k <= nd.end <= self.order@.len(),
                        self.wf(),
                        forall|i: usize| call_requires(*hit, (i,)),
                        is_function(*hit),
                        is_hit(*hit, self.prims@.len(), acc),
                        best is Some ==> acc is Some && acc.unwrap().1 <= best.unwrap().1,
                        forall|m: int, d: u32|
                            nd.start <= m < k && #[trigger] call_ensures(
                                *hit,
                                (self.order@[m],),
                                Some(d),
                            ) ==> acc is Some && acc.unwrap().1 <= d,
                    decreases nd.end - k,
                {
                    let p = self.order[k];
                    proof {
                        assert(self.order@[k as int] < self.prims@.len());
                    }
                    let h = hit(p);
                    if let Some(d) = h {
                        let closer = match acc {
                            Some((_, ad)) => d < ad,
                            None => true,
                        };
                        if closer {
                            acc = Some((p, d));
                        }
                    }
                    k = k + 1;
                }
                acc
            },
            NodeKind::Internal { left, right } => {
                let el = entry(self.nodes[left].bounds);
                let er = entry(self.nodes[right].bounds);
                let right_first = match (el, er) {
                    (Some(a), Some(b)) => b < a,
                    (None, Some(_)) => true,
                    _ => false,
                };
                if right_first {
                    let r1 = self.visit(right, er, best, hit, entry);
                    self.visit(left, el, r1, hit, entry)
                } else {
                    let r1 = self.visit(left, el, best, hit, entry);
                    self.visit(right, er, r1, hit, entry)
                }
            },
        }
    }

    /// The box of the root node; `None` for an empty hierarchy. It is the
    /// smallest box that holds the box of every primitive.
    pub fn root_bounds(&self) -> (r: Option<Aabb>)
        requires
            self.wf(),
        ensures
            r is None <==> self.prims().len() == 0,
            r is Some ==> r->0.wf(),
            forall|i: int| 0 <= i < self.prims().len() ==> r->0.contains_spec(#[trigger] self.prims()[i]),
            r is Some ==> r->0 == self.nodes_spec().last().bounds,
            r is Some ==> forall|b: Aabb|
                (forall|i: int| 0 <= i < self.prims().len() ==> b.contains_spec(#[trigger] self.prims()[i]))
                    ==> b.contains_spec(r->0),
    {
        if self.nodes.len() == 0 {
            return None;
        }
        let b = self.nodes[self.nodes.len() - 1].bounds;
        proof {
            assert(node_ok(self.nodes@, self.nodes@.len() - 1, self.prims@, self.order@));
            assert(self.nodes@.last() == self.nodes@[self.nodes@.len() - 1]);
            assert forall|c: Aabb|
                (forall|i: int| 0 <= i < self.prims().len() ==> c.contains_spec(#[trigger] self.prims()[i]))
                implies c.contains_spec(b) by {
                assert forall|k: int| 0 <= k < self.order@.len() implies c.contains_spec(
                    #[trigger] self.prims@[self.order@[k] as int],
                ) by {
                    assert(self.order@[k] < self.prims@.len());
                }
                assert(holds_range(c, self.prims@, self.order@, 0, self.order@.len() as int));
            }
            assert forall|i: int| 0 <= i < self.prims().len() implies b.contains_spec(
                #[trigger] self.prims()[i],
            ) by {
                lemma_root_holds_every_primitive(self, i as usize);
            }
        }
        Some(b)
    }

    /// Number of primitives in the hierarchy.
    pub fn len(&self) -> (r: usize)
        requires
            self.wf(),
        ensures
            r == self.prims().len(),
    {
        self.order.len()
    }

    /// Number of nodes in the hierarchy.
    pub fn node_count(&self) -> (r: usize)
        ensures
            r == self.nodes_spec().len(),
    {
        self.nodes.len()
    }
}

/// `hit` is a function of the primitive: it reports the same outcome on
/// every call.
pub open spec fn is_function<H: Fn(usize) -> Option<u32>>(hit: H) -> bool {
    forall|i: usize, a: Option<u32>, b: Option<u32>|
        #[trigger] call_ensures(hit, (i,), a) && #[trigger] call_ensures(hit, (i,), b) ==> a == b
}

/// `r` is a hit that `hit` can report: a primitive below `n` at its
/// reported distance, or no hit at all.
pub open spec fn is_hit<H: Fn(usize) -> Option<u32>>(hit: H, n: nat, r: Option<(usize, u32)>) -> bool {
    match r {
        Some((i, d)) => i < n && call_ensures(hit, (i,), Some(d)),
        None => true,
    }
}

/// `r` is a nearest hit among the primitives `0..n`: it is a hit that
/// `hit` reports, and no primitive is reported nearer. It is `None` exactly
/// when no primitive is hit.
pub open spec fn is_nearest<H: Fn(usize) -> Option<u32>>(
    hit: H,
    n: nat,
    r: Option<(usize, u32)>,
) -> bool {
    &&& is_hit(hit, n, r)
    &&& forall|i: usize, d: u32|
        i < n && #[trigger] call_ensures(hit, (i,), Some(d)) ==> r is Some && r.unwrap().1 <= d
}

/// The box test never overestimates: where `hit` reports primitive `i` at
/// distance `d`, `entry` reports, for every box that holds the primitive's
/// box, an entry distance of at most `d`.
pub open spec fn entry_bounds_hits<H: Fn(usize) -> Option<u32>, E: Fn(Aabb) -> Option<u32>>(
    prims: Seq<Aabb>,
    hit: H,
    entry: E,
) -> bool {
    forall|b: Aabb, i: usize, e: Option<u32>, d: u32|
        i < prims.len() && b.contains_spec(prims[i as int]) && #[trigger] call_ensures(
            entry,
            (b,),
            e,
        ) && #[trigger] call_ensures(hit, (i,), Some(d)) ==> e is Some && e->0 <= d
}

/// Linear scan for the nearest of the primitives `0..n`; the first one
/// found wins among equally near hits.
pub fn nearest_linear<H: Fn(usize) -> Option<u32>>(n: usize, hit: &H) -> (r: Option<(usize, u32)>)
    requires
        forall|i: usize| call_requires(*hit, (i,)),
        is_function(*hit),
    ensures
        is_nearest(*hit, n as nat, r),
        forall|j: usize, d: u32|
            j < n && #[trigger] call_ensures(*hit, (j,), Some(d)) && d == r.unwrap().1 ==> r.unwrap().0
                <= j,
{
    let mut best: Option<(usize, u32)> = None;
    let mut i: usize = 0;
    while i < n
        invariant
            i <= n,
            forall|j: usize| call_requires(*hit, (j,)),
            is_function(*hit),
            is_hit(*hit, n as nat, best),
            forall|j: usize, d: u32|
                j < i && #[trigger] call_ensures(*hit, (j,), Some(d)) ==> best is Some
                    && best.unwrap().1 <= d,
            forall|j: usize, d: u32|
                j < i && #[trigger] call_ensures(*hit, (j,), Some(d)) && d == best.unwrap().1
                    ==> best.unwrap().0 <= j,
            best is Some ==> best.unwrap().0 < i,
        decreases n - i,
    {
        let h = hit(i);
        if let Some(d) = h {
            let closer = match best {
                Some((_, bd)) => d < bd,
                None => true,
            };
            if closer {
                best = Some((i, d));
            }
        }
        i = i + 1;
    }
    best
}

/// Two nearest hits of the same primitives agree: both miss, or both lie at
/// the same distance. So the hierarchy's answer is the linear scan's.
pub proof fn lemma_nearest_agree<H: Fn(usize) -> Option<u32>>(
    hit: H,
    n: nat,
    r1: Option<(usize, u32)>,
    r2: Option<(usize, u32)>,
)
    requires
        is_nearest(hit, n, r1),
        is_nearest(hit, n, r2),
    ensures
        r1 is None <==> r2 is None,
        r1 is Some ==> r1.unwrap().1 == r2.unwrap().1,
{
    if let Some((i, d)) = r1 {
        assert(call_ensures(hit, (i,), Some(d)));
    }
    if let Some((i, d)) = r2 {
        assert(call_ensures(hit, (i,), Some(d)));
    }
}

/// Every primitive sits in exactly one slot of the root's range, and the
/// root's box holds the primitive's box.
pub proof fn lemma_root_holds_every_primitive(bvh: &Bvh, i: usize)
    requires
        bvh.wf(),
        i < bvh.prims().len(),
    ensures
        bvh.nodes_spec().len() > 0,
        bvh.nodes_spec().last().bounds.contains_spec(bvh.prims()[i as int]),
        exists|k: int|
            0 <= k < bvh.order_spec().len() && #[trigger] bvh.order_spec()[k] == i,
        forall|k1: int, k2: int|
            0 <= k1 < bvh.order_spec().len() && 0 <= k2 < bvh.order_spec().len()
                && #[trigger] bvh.order_spec()[k1] == i && #[trigger] bvh.order_spec()[k2] == i
                ==> k1 == k2,
{
    let order = bvh.order_spec();
    let nodes = bvh.nodes_spec();
    assert(order.contains(i));
    let k = choose|k: int| 0 <= k < order.len() && order[k] == i;
    assert(node_ok(nodes, nodes.len() - 1, bvh.prims(), order));
    assert(nodes.last() == nodes[nodes.len() - 1]);
    assert(nodes.last().bounds.contains_spec(bvh.prims()[order[k] as int]));
}

/// Swapping two slots keeps a permutation a permutation.
proof fn lemma_swap_permutation(s: Seq<usize>, n: nat, a: int, b: int)
    requires
        is_permutation(s, n),
        0 <= a < s.len(),
        0 <= b < s.len(),
    ensures
        is_permutation(s.update(a, s[b]).update(b, s[a]), n),
{
    let t = s.update(a, s[b]).update(b, s[a]);
    assert forall|v: usize| v < n implies #[trigger] t.contains(v) by {
        assert(s.contains(v));
        let k = choose|k: int| 0 <= k < s.len() && #[trigger] s[k] == v;
        if k == a {
            assert(t[b] == v);
        } else if k == b {
            assert(t[a] == v);
        } else {
            assert(t[k] == v);
        }
    }
    assert forall|i: int, j: int| 0 <= i < t.len() && 0 <= j < t.len() && i != j implies t[i]
        != t[j] by {
        let si = if i == a { b } else if i == b { a } else { i };
        let sj = if j == a { b } else if j == b { a } else { j };
        assert(t[i] == s[si]);
        assert(t[j] == s[sj]);
    }
}

/// The side a primitive goes to: its centre lies below the split plane.
pub open spec fn goes_left(prim: Aabb, axis: int, plane2: int) -> bool {
    prim.min.axis_spec(axis) + prim.max.axis_spec(axis) < plane2
}

/// Reorders the slots `start..end` so that the primitives whose centre lies
/// below the plane come first; returns the first slot of the others.
fn partition(
    prims: &Vec<Aabb>,
    order: &mut Vec<usize>,
    start: usize,
    end: usize,
    axis: usize,
    plane2: i64,
) -> (mid: usize)
    requires
        all_wf(prims@),
        is_permutation(old(order)@, prims@.len()),
        start <= end <= old(order)@.len(),
        axis < 3,
    ensures
        start <= mid <= end,
        is_permutation(final(order)@, prims@.len()),
        forall|k: int|
            0 <= k < old(order)@.len() && !(start <= k < end) ==> final(order)@[k] == old(
                order,
            )@[k],
        forall|k: int|
            start <= k < mid ==> goes_left(
                prims@[#[trigger] final(order)@[k] as int],
                axis as int,
                plane2 as int,
            ),
        forall|k: int|
            mid <= k < end ==> !goes_left(
                prims@[#[trigger] final(order)@[k] as int],
                axis as int,
                plane2 as int,
            ),
{
    let ghost n = prims@.len();
    let mut mid = start;
    let mut k = start;
    while k < end
        invariant
            start <= mid <= k <= end <= order@.len(),
            order@.len() == old(order)@.len(),
            n == prims@.len(),
            axis < 3,
            all_wf(prims@),
            is_permutation(order@, n),
            forall|j: int|
                0 <= j < old(order)@.len() && !(start <= j < end) ==> order@[j] == old(
                    order,
                )@[j],
            forall|j: int|
                start <= j < mid ==> goes_left(
                    prims@[#[trigger] order@[j] as int],
                    axis as int,
                    plane2 as int,
                ),
            forall|j: int|
                mid <= j < k ==> !goes_left(
                    prims@[#[trigger] order@[j] as int],
                    axis as int,
                    plane2 as int,
                ),
        decreases end - k,
    {
        let p = order[k];
        let b = prims[p];
        let c = b.min.axis(axis) as i128 + b.max.axis(axis) as i128;
        if c < plane2 as i128 {
            let q = order[mid];
            proof {
                lemma_swap_permutation(order@, n, mid as int, k as int);
            }
            order.set(mid, p);
            order.set(k, q);
            mid = mid + 1;
        }
        k = k + 1;
    }
    mid
}

/// Union of the boxes of the primitives in slots `start..end`.
fn range_bounds(prims: &Vec<Aabb>, order: &Vec<usize>, start: usize, end: usize) -> (r: Aabb)
    requires
        all_wf(prims@),
        is_permutation(order@, prims@.len()),
        start < end <= order@.len(),
    ensures
        r.wf(),
        forall|k: int| start <= k < end ==> r.contains_spec(#[trigger] prims@[order@[k] as int]),
        forall|b: Aabb|
            #[trigger] holds_range(b, prims@, order@, start as int, end as int) ==> b.contains_spec(r),
{
    let mut acc = prims[order[start]];
    let mut k = start + 1;
    proof {
        assert forall|b: Aabb| #[trigger]
            holds_range(b, prims@, order@, start as int, k as int) implies b.contains_spec(acc) by {
            assert(b.contains_spec(prims@[order@[start as int] as int]));
        }
    }
    while k < end
        invariant
            start < k <= end <= order@.len(),
            all_wf(prims@),
            is_permutation(order@, prims@.len()),
            acc.wf(),
            forall|j: int| start <= j < k ==> acc.contains_spec(#[trigger] prims@[order@[j] as int]),
            forall|b: Aabb|
                #[trigger] holds_range(b, prims@, order@, start as int, k as int) ==> b.contains_spec(
                    acc,
                ),
        decreases end - k,
    {
        let next = acc.union(&prims[order[k]]);
        proof {
            assert forall|b: Aabb| #[trigger]
                holds_range(b, prims@, order@, start as int, k + 1) implies b.contains_spec(next) by {
                assert(holds_range(b, prims@, order@, start as int, k as int));
                assert(b.contains_spec(prims@[order@[k as int] as int]));
            }
        }
        acc = next;
        k = k + 1;
    }
    acc
}

/// Builds the subtree over slots `start..end`, pushing its nodes (root last)
/// and permuting only those slots; returns the index of its root.
fn build_range(
    prims: &Vec<Aabb>,
    order: &mut Vec<usize>,
    nodes: &mut Vec<BvhNode>,
    start: usize,
    end: usize,
) -> (root: usize)
    requires
        all_wf(prims@),
        is_permutation(old(order)@, prims@.len()),
        start < end <= old(order)@.len(),
        nodes_ok(old(nodes)@, prims@, old(order)@),
        forall|j: int|
            0 <= j < old(nodes)@.len() ==> old(nodes)@[j].end <= start || old(nodes)@[j].start
                >= end,
        old(nodes)@.len() + 2 * (end - start) <= usize::MAX,
    ensures
        is_permutation(final(order)@, prims@.len()),
        forall|k: int|
            0 <= k < old(order)@.len() && !(start <= k < end) ==> final(order)@[k] == old(
                order,
            )@[k],
        nodes_ok(final(nodes)@, prims@, final(order)@),
        final(nodes)@.len() <= old(nodes)@.len() + 2 * (end - start) - 1,
        old(nodes)@.len() <= root && root + 1 == final(nodes)@.len(),
        final(nodes)@.subrange(0, old(nodes)@.len() as int) == old(nodes)@,
        final(nodes)@[root as int].start == start,
        final(nodes)@[root as int].end == end,
        forall|j: int|
            old(nodes)@.len() <= j < final(nodes)@.len() ==> start <= final(nodes)@[j].start
                && final(nodes)@[j].end <= end,
    decreases end - start,
{
    let ghost n = prims@.len();
    let ghost nodes0 = nodes@;
    let ghost order0 = order@;
    if end - start <= LEAF_SIZE {
        let bounds = range_bounds(prims, order, start, end);
        nodes.push(BvhNode { bounds, start, end, kind: NodeKind::Leaf });
        proof {
            assert forall|j: int| 0 <= j < nodes@.len() implies #[trigger] node_ok(
                nodes@,
                j,
                prims@,
                order@,
            ) by {
                if j < nodes0.len() {
                    assert(node_ok(nodes0, j, prims@, order0));
                }
            }
        }
        return nodes.len() - 1;
    }
    let all = range_bounds(prims, order, start, end);
    let axis = all.longest_axis();
    let plane2 = all.min.axis(axis) + all.max.axis(axis);
    let mut mid = partition(prims, order, start, end, axis, plane2);
    if mid == start || mid == end {
        mid = start + (end - start) / 2;
    }
    let ghost order1 = order@;
    proof {
        assert forall|j: int| 0 <= j < nodes@.len() implies #[trigger] node_ok(
            nodes@,
            j,
            prims@,
            order@,
        ) by {
            assert(node_ok(nodes0, j, prims@, order0));
            let nd = nodes0[j];
            assert forall|k: int| nd.start <= k < nd.end implies nd.bounds.contains_spec(
                #[trigger] prims@[order@[k] as int],
            ) by {
                assert(order@[k] == order0[k]);
            }
            assert forall|b: Aabb| #[trigger]
                holds_range(b, prims@, order@, nd.start as int, nd.end as int) implies b.contains_spec(
                nd.bounds,
            ) by {
                assert forall|k: int| nd.start <= k < nd.end implies b.contains_spec(
                    #[trigger] prims@[order0[k] as int],
                ) by {
                    assert(order@[k] == order0[k]);
                }
                assert(holds_range(b, prims@, order0, nd.start as int, nd.end as int));
            }
        }
    }
    let left = build_range(prims, order, nodes, start, mid);
    let ghost nodes2 = nodes@;
    let ghost order2 = order@;
    proof {
        assert forall|j: int| 0 <= j < nodes@.len() implies #[trigger] nodes@[j].end <= mid
            || nodes@[j].start >= end by {
            if j < nodes0.len() {
                assert(nodes@[j] == nodes0[j]);
            }
        }
    }
    let right = build_range(prims, order, nodes, mid, end);
    let ghost nodes3 = nodes@;
    proof {
        assert(nodes3[left as int] == nodes2[left as int]);
        assert(node_ok(nodes3, left as int, prims@, order@));
        assert(node_ok(nodes3, right as int, prims@, order@));
    }
    let lb = nodes[left].bounds;
    let rb = nodes[right].bounds;
    let bounds = lb.union(&rb);
    nodes.push(BvhNode { bounds, start, end, kind: NodeKind::Internal { left, right } });
    proof {
        let root = nodes@.len() - 1;
        assert(nodes@[left as int] == nodes2[left as int]);
        assert(nodes@[right as int] == nodes3[right as int]);
        assert(node_ok(nodes2, left as int, prims@, order2));
        assert(node_ok(nodes3, right as int, prims@, order@));
        assert forall|k: int| start <= k < end implies bounds.contains_spec(
            #[trigger] prims@[order@[k] as int],
        ) by {
            if k < mid {
                assert(order@[k] == order2[k]);
                assert(nodes2[left as int].bounds.contains_spec(prims@[order2[k] as int]));
            } else {
                assert(nodes3[right as int].bounds.contains_spec(prims@[order@[k] as int]));
            }
        }
        assert forall|b: Aabb| #[trigger]
            holds_range(b, prims@, order@, start as int, end as int) implies b.contains_spec(
            bounds,
        ) by {
            assert(holds_range(b, prims@, order@, start as int, mid as int));
            assert(holds_range(b, prims@, order@, mid as int, end as int));
            assert(b.contains_spec(lb));
            assert(b.contains_spec(rb));
        }
        assert(node_ok(nodes@, root, prims@, order@));
        assert forall|j: int| 0 <= j < nodes@.len() implies #[trigger] node_ok(
            nodes@,
            j,
            prims@,
            order@,
        ) by {
            if j < nodes3.len() {
                assert(node_ok(nodes3, j, prims@, order@));
                assert(nodes@[j] == nodes3[j]);
            }
        }
        assert(nodes@.subrange(0, nodes0.len() as int) =~= nodes0);
        assert forall|j: int| nodes0.len() <= j < nodes@.len() implies start <= nodes@[j].start
            && nodes@[j].end <= end by {
            if j < nodes2.len() {
                assert(nodes3.subrange(0, nodes2.len() as int)[j] == nodes2[j]);
                assert(nodes@[j] == nodes2[j]);
            } else if j < nodes3.len() {
                assert(nodes@[j] == nodes3[j]);
            }
        }
    }
    nodes.len() - 1
}

} // verus!
