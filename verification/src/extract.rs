//! Connectivity extraction from layout geometry.
//!
//! Shapes on one layer that overlap or touch are joined; a via joins every
//! shape on its two metal layers that its cut overlaps. The resulting
//! components are exactly the classes of shapes reachable from one another
//! along such direct links.
use std::collections::HashMap;
use vstd::prelude::*;

use crate::drc::{LayerId, ShapeRef};
use crate::geom::{fits_i64, Rect};
use crate::lvs::{LvsError, LvsOpen, LvsResult, LvsShort, NetId};
use crate::uf::ConnectivityTracker;

verus! {



/// A drawn shape: its reference, layer, geometry and optional schematic net.
pub type ShapeEntry = (ShapeRef, LayerId, Rect, Option<NetId>);

/// A via cut: its reference, cut layer and geometry.
pub type ViaEntry = (ShapeRef, LayerId, Rect);

/// Shapes `i` and `j` lie on one layer and overlap or touch.
pub open spec fn shapes_touch(s: Seq<ShapeEntry>, i: int, j: int) -> bool {
    s[i].1 == s[j].1 && s[i].2.spec_manhattan(s[j].2) == 0
}

/// Shape `i` lies on one of the two metal layers and overlaps the via's cut.
pub open spec fn lands_on(s: Seq<ShapeEntry>, v: ViaEntry, layers: (LayerId, LayerId), i: int) -> bool {
    (s[i].1 == layers.0 || s[i].1 == layers.1) && s[i].2.spec_overlaps(v.2)
}

/// Via `k`'s cut layer has a layer pair in `vc`, and the via lands on shape `i`.
pub open spec fn via_lands(
    s: Seq<ShapeEntry>,
    vias: Seq<ViaEntry>,
    vc: Map<u32, (LayerId, LayerId)>,
    k: int,
    i: int,
) -> bool {
    vc.contains_key(vias[k].1.0) && lands_on(s, vias[k], vc[vias[k].1.0], i)
}

/// Shapes `i` and `j` are joined directly: the lower-indexed one touches the
/// other on one layer, or one via lands on both.
pub open spec fn linked(
    s: Seq<ShapeEntry>,
    vias: Seq<ViaEntry>,
    vc: Map<u32, (LayerId, LayerId)>,
    i: int,
    j: int,
) -> bool {
    ||| i < j && shapes_touch(s, i, j)
    ||| j < i && shapes_touch(s, j, i)
    ||| exists|k: int|
        #![trigger via_lands(s, vias, vc, k, i), via_lands(s, vias, vc, k, j)]
        0 <= k < vias.len() && via_lands(s, vias, vc, k, i) && via_lands(s, vias, vc, k, j)
}

/// Step `m` of walk `p` follows a direct link.
pub open spec fn walk_step(
    s: Seq<ShapeEntry>,
    vias: Seq<ViaEntry>,
    vc: Map<u32, (LayerId, LayerId)>,
    p: Seq<int>,
    m: int,
) -> bool {
    linked(s, vias, vc, p[m], p[m + 1])
}

/// `p` is a non-empty walk over shape indices along direct links.
pub open spec fn is_walk(
    s: Seq<ShapeEntry>,
    vias: Seq<ViaEntry>,
    vc: Map<u32, (LayerId, LayerId)>,
    p: Seq<int>,
) -> bool {
    &&& p.len() > 0
    &&& forall|m: int| 0 <= m < p.len() ==> 0 <= #[trigger] p[m] < s.len()
    &&& forall|m: int| 0 <= m < p.len() - 1 ==> #[trigger] walk_step(s, vias, vc, p, m)
}

/// Shape `j` can be reached from shape `i` along direct links.
pub open spec fn reachable(
    s: Seq<ShapeEntry>,
    vias: Seq<ViaEntry>,
    vc: Map<u32, (LayerId, LayerId)>,
    i: int,
    j: int,
) -> bool {
    exists|p: Seq<int>| #[trigger] is_walk(s, vias, vc, p) && p[0] == i && p.last() == j
}

/// `r` lists exactly the opens and then the shorts that `t` reports, and no
/// port or device mismatches.
pub open spec fn reports_errors_of(r: LvsResult, t: ConnectivityTracker) -> bool {
    &&& t.opens_ok(r.opens@.map_values(|o: LvsOpen| LvsError::Open(o)))
    &&& t.shorts_ok(r.shorts@.map_values(|sh: LvsShort| LvsError::Short(sh)))
    &&& r.mismatches@.len() == 0
}

/// Every pair that `t` joins is reachable along direct links.
spec fn joins_only_reachable(
    t: ConnectivityTracker,
    s: Seq<ShapeEntry>,
    vias: Seq<ViaEntry>,
    vc: Map<u32, (LayerId, LayerId)>,
) -> bool {
    forall|a: int, b: int|
        0 <= a < s.len() && 0 <= b < s.len() && #[trigger] t.connected(a, b) ==> reachable(
            s,
            vias,
            vc,
            a,
            b,
        )
}

proof fn lemma_linked_symmetric(
    s: Seq<ShapeEntry>,
    vias: Seq<ViaEntry>,
    vc: Map<u32, (LayerId, LayerId)>,
    i: int,
    j: int,
)
    requires
        linked(s, vias, vc, i, j),
    ensures
        linked(s, vias, vc, j, i),
{
    if !(i < j && shapes_touch(s, i, j)) && !(j < i && shapes_touch(s, j, i)) {
        let k = choose|k: int|
            #![trigger via_lands(s, vias, vc, k, i), via_lands(s, vias, vc, k, j)]
            0 <= k < vias.len() && via_lands(s, vias, vc, k, i) && via_lands(s, vias, vc, k, j);
        assert(via_lands(s, vias, vc, k, j) && via_lands(s, vias, vc, k, i));
    }
}

proof fn lemma_reach_refl(
    s: Seq<ShapeEntry>,
    vias: Seq<ViaEntry>,
    vc: Map<u32, (LayerId, LayerId)>,
    i: int,
)
    requires
        0 <= i < s.len(),
    ensures
        reachable(s, vias, vc, i, i),
{
    let p = seq![i];
    assert(is_walk(s, vias, vc, p));
}

/// A walk from `i` to `x`, a link from `x` to `y`, and a walk from `j` to `y`
/// give a walk from `i` to `j`.
proof fn lemma_reach_join(
    s: Seq<ShapeEntry>,
    vias: Seq<ViaEntry>,
    vc: Map<u32, (LayerId, LayerId)>,
    i: int,
    x: int,
    y: int,
    j: int,
)
    requires
        reachable(s, vias, vc, i, x),
        reachable(s, vias, vc, j, y),
        linked(s, vias, vc, x, y),
    ensures
        reachable(s, vias, vc, i, j),
{
    let p1 = choose|p: Seq<int>| #[trigger] is_walk(s, vias, vc, p) && p[0] == i && p.last() == x;
    let p2 = choose|p: Seq<int>| #[trigger] is_walk(s, vias, vc, p) && p[0] == j && p.last() == y;
    let l2 = p2.len() as int;
    let q = Seq::new(p2.len(), |m: int| p2[l2 - 1 - m]);
    let w = p1 + q;
    let l1 = p1.len() as int;
    assert forall|m: int| 0 <= m < w.len() implies 0 <= #[trigger] w[m] < s.len() by {
        if m < l1 {
            assert(w[m] == p1[m]);
        } else {
            assert(w[m] == p2[l2 - 1 - (m - l1)]);
        }
    }
    assert forall|m: int| 0 <= m < w.len() - 1 implies #[trigger] walk_step(s, vias, vc, w, m) by {
        if m < l1 - 1 {
            assert(walk_step(s, vias, vc, p1, m));
            assert(w[m] == p1[m] && w[m + 1] == p1[m + 1]);
        } else if m == l1 - 1 {
            assert(w[m] == x && w[m + 1] == y);
        } else {
            let t = l2 - 2 - (m - l1);
            assert(walk_step(s, vias, vc, p2, t));
            assert(w[m] == p2[t + 1] && w[m + 1] == p2[t]);
            lemma_linked_symmetric(s, vias, vc, p2[t], p2[t + 1]);
        }
    }
    assert(is_walk(s, vias, vc, w) && w[0] == i && w.last() == j);
}

/// After `post` joins `x` and `y` (a direct link) in `pre`, it still joins
/// only reachable pairs, and it keeps every pair `pre` joined.
proof fn lemma_after_union(
    pre: ConnectivityTracker,
    post: ConnectivityTracker,
    s: Seq<ShapeEntry>,
    vias: Seq<ViaEntry>,
    vc: Map<u32, (LayerId, LayerId)>,
    x: int,
    y: int,
)
    requires
        pre.size() == s.len(),
        0 <= x < s.len(),
        0 <= y < s.len(),
        linked(s, vias, vc, x, y),
        joins_only_reachable(pre, s, vias, vc),
        forall|i: int, j: int|
            0 <= i < pre.size() && 0 <= j < pre.size() ==> (#[trigger] post.connected(i, j) <==> (
            pre.connected(i, j) || (pre.connected(i, x) && pre.connected(j, y)) || (pre.connected(
                i,
                y,
            ) && pre.connected(j, x)))),
    ensures
        joins_only_reachable(post, s, vias, vc),
        forall|i: int, j: int|
            #![trigger post.connected(i, j)]
            0 <= i < s.len() && 0 <= j < s.len() && pre.connected(i, j) ==> post.connected(i, j),
{
    assert forall|a: int, b: int|
        0 <= a < s.len() && 0 <= b < s.len() && #[trigger] post.connected(a, b) implies reachable(
        s,
        vias,
        vc,
        a,
        b,
    ) by {
        if pre.connected(a, b) {
        } else if pre.connected(a, x) && pre.connected(b, y) {
            lemma_reach_join(s, vias, vc, a, x, y, b);
        } else {
            assert(pre.connected(a, y) && pre.connected(b, x));
            lemma_linked_symmetric(s, vias, vc, x, y);
            lemma_reach_join(s, vias, vc, a, y, x, b);
        }
    }
}

/// A tracker that joins every direct link joins the two ends of every walk.
proof fn lemma_walk_connected(
    t: ConnectivityTracker,
    s: Seq<ShapeEntry>,
    vias: Seq<ViaEntry>,
    vc: Map<u32, (LayerId, LayerId)>,
    p: Seq<int>,
)
    requires
        is_walk(s, vias, vc, p),
        forall|a: int, b: int|
            0 <= a < s.len() && 0 <= b < s.len() && linked(s, vias, vc, a, b)
                ==> #[trigger] t.connected(a, b),
    ensures
        t.connected(p[0], p.last()),
    decreases p.len(),
{
    if p.len() > 1 {
        let q = p.drop_last();
        assert forall|m: int| 0 <= m < q.len() - 1 implies #[trigger] walk_step(
            s,
            vias,
            vc,
            q,
            m,
        ) by {
            assert(walk_step(s, vias, vc, p, m));
        }
        assert forall|m: int| 0 <= m < q.len() implies 0 <= #[trigger] q[m] < s.len() by {
            assert(p[m] == q[m]);
        }
        lemma_walk_connected(t, s, vias, vc, q);
        let l = p.len() as int;
        assert(walk_step(s, vias, vc, p, l - 2));
        assert(p[l - 2] == q.last());
        assert(t.connected(p[l - 2], p[l - 1]));
    }
}

/// Extract connectivity from shapes on several layers.
///
/// 1. Same-layer shapes that overlap or touch are joined (each pair `i < j`).
/// 2. Each via whose cut layer has an entry `(lower, upper)` in `via_connects`
///    (keyed by the cut layer's number) joins every shape on `lower` or
///    `upper` that its cut overlaps.
/// 3. Each shape's optional net becomes its label.
/// 4. The tracker's invariant check supplies the opens and the shorts.
///
/// Element `i` of the returned tracker is the `i`-th shape. The mismatch list
/// is always empty: port and device mismatches need a schematic comparison.
pub fn extract_connectivity(
    shapes: Vec<ShapeEntry>,
    vias: Vec<ViaEntry>,
    via_connects: &HashMap<u32, (LayerId, LayerId)>,
) -> (out: (ConnectivityTracker, LvsResult))
    requires
        shapes@.len() <= u32::MAX,
        forall|i: int, j: int|
            0 <= i < j < shapes@.len() && shapes@[i].1 == shapes@[j].1 ==> fits_i64(
                #[trigger] shapes@[i].2.spec_manhattan(#[trigger] shapes@[j].2),
            ),
    ensures
        out.0.wf(),
        out.0.size() == shapes@.len(),
        out.0.label_view() == shapes@.map_values(|e: ShapeEntry| e.3),
        forall|i: int, j: int|
            0 <= i < shapes@.len() && 0 <= j < shapes@.len() ==> (#[trigger] out.0.connected(i, j)
                <==> reachable(shapes@, vias@, via_connects@, i, j)),
        reports_errors_of(out.1, out.0),
{
    let ghost s = shapes@;
    let ghost vs = vias@;
    let ghost vc = via_connects@;
    let n = shapes.len();
    let mut tracker = ConnectivityTracker::new(n as u32);
    let mut i: usize = 0;
    while i < n
        invariant
            n == s.len(),
            s == shapes@,
            n <= u32::MAX,
            0 <= i <= n,
            tracker.wf(),
            tracker.size() == n,
            forall|a: int| 0 <= a < n ==> #[trigger] tracker.rep(a) == a,
            tracker.label_view() == Seq::new(
                n as nat,
                |m: int| if m < i { s[m].3 } else { None::<NetId> },
            ),
        decreases n - i,
    {
        match shapes[i].3 {
            Some(net) => {
                tracker.label(i as u32, net);
            },
            None => {},
        }
        proof {
            assert(tracker.label_view() =~= Seq::new(
                n as nat,
                |m: int| if m < i + 1 { s[m].3 } else { None::<NetId> },
            ));
        }
        i = i + 1;
    }
    proof {
        assert(tracker.label_view() =~= s.map_values(|e: ShapeEntry| e.3));
        assert forall|a: int, b: int|
            0 <= a < n && 0 <= b < n && #[trigger] tracker.connected(a, b) implies reachable(
            s,
            vs,
            vc,
            a,
            b,
        ) by {
            lemma_reach_refl(s, vs, vc, a);
        }
    }
    // Same-layer shapes that overlap or touch are electrically connected.
    i = 0;
    while i < n
        invariant
            n == s.len(),
            s == shapes@,
            n <= u32::MAX,
            0 <= i <= n,
            tracker.wf(),
            tracker.size() == n,
            tracker.label_view() == s.map_values(|e: ShapeEntry| e.3),
            forall|a: int, b: int|
                0 <= a < b < s.len() && s[a].1 == s[b].1 ==> fits_i64(
                    #[trigger] s[a].2.spec_manhattan(#[trigger] s[b].2),
                ),
            joins_only_reachable(tracker, s, vs, vc),
            forall|a: int, b: int|
                0 <= a < i && a < b < n && shapes_touch(s, a, b) ==> #[trigger] tracker.connected(
                    a,
                    b,
                ),
        decreases n - i,
    {
        let mut j: usize = i + 1;
        while j < n
            invariant
                n == s.len(),
                s == shapes@,
                n <= u32::MAX,
                0 <= i < n,
                i + 1 <= j <= n,
                tracker.wf(),
                tracker.size() == n,
                tracker.label_view() == s.map_values(|e: ShapeEntry| e.3),
                forall|a: int, b: int|
                    0 <= a < b < s.len() && s[a].1 == s[b].1 ==> fits_i64(
                        #[trigger] s[a].2.spec_manhattan(#[trigger] s[b].2),
                    ),
                joins_only_reachable(tracker, s, vs, vc),
                forall|a: int, b: int|
                    ((0 <= a < i && a < b < n) || (a == i && i < b < j)) && shapes_touch(s, a, b)
                        ==> #[trigger] tracker.connected(a, b),
            decreases n - j,
        {
            let (_, layer_i, rect_i, _) = shapes[i];
            let (_, layer_j, rect_j, _) = shapes[j];
            if layer_i == layer_j && rect_i.manhattan_distance(&rect_j) == 0 {
                let ghost pre = tracker;
                tracker.union(i as u32, j as u32);
                proof {
                    lemma_after_union(pre, tracker, s, vs, vc, i as int, j as int);
                }
            }
            j = j + 1;
        }
        i = i + 1;
    }
    // Vias join the shapes on their lower and upper layers that the cut overlaps.
    let mut k: usize = 0;
    while k < vias.len()
        invariant
            n == s.len(),
            s == shapes@,
            vs == vias@,
            vc == via_connects@,
            n <= u32::MAX,
            0 <= k <= vs.len(),
            tracker.wf(),
            tracker.size() == n,
            tracker.label_view() == s.map_values(|e: ShapeEntry| e.3),
            joins_only_reachable(tracker, s, vs, vc),
            forall|a: int, b: int|
                0 <= a < b < n && shapes_touch(s, a, b) ==> #[trigger] tracker.connected(a, b),
            forall|kk: int, a: int, b: int|
                #![trigger via_lands(s, vs, vc, kk, a), via_lands(s, vs, vc, kk, b)]
                0 <= kk < k && 0 <= a < n && 0 <= b < n && via_lands(s, vs, vc, kk, a) && via_lands(
                    s,
                    vs,
                    vc,
                    kk,
                    b,
                ) ==> tracker.connected(a, b),
        decreases vs.len() - k,
    {
        let (_, cut_layer, via_rect) = vias[k];
        match via_connects.get(&cut_layer.0) {
            Some(pair) => {
                let (lower, upper) = *pair;
                let ghost layers = (lower, upper);
                proof {
                    assert(vc.contains_key(cut_layer.0) && vc[cut_layer.0] == layers);
                }
                let mut landed: Vec<u32> = Vec::new();
                let mut m: usize = 0;
                while m < n
                    invariant
                        n == s.len(),
                        s == shapes@,
                        vs == vias@,
                        0 <= k < vs.len(),
                        vs[k as int] == (vs[k as int].0, cut_layer, via_rect),
                        vc.contains_key(cut_layer.0),
                        vc[cut_layer.0] == layers,
                        layers == (lower, upper),
                        n <= u32::MAX,
                        0 <= m <= n,
                        forall|q: int|
                            0 <= q < landed@.len() ==> #[trigger] landed@[q] < m && via_lands(
                                s,
                                vs,
                                vc,
                                k as int,
                                landed@[q] as int,
                            ),
                        forall|a: int|
                            0 <= a < m && #[trigger] via_lands(s, vs, vc, k as int, a)
                                ==> landed@.contains(a as u32),
                    decreases n - m,
                {
                    let (_, layer, rect, _) = shapes[m];
                    let ghost before = landed@;
                    proof {
                        assert(vs[k as int].1 == cut_layer && vs[k as int].2 == via_rect);
                        assert(s[m as int].1 == layer && s[m as int].2 == rect);
                    }
                    let hit = (layer == lower || layer == upper) && rect.overlaps(&via_rect);
                    proof {
                        assert(hit == lands_on(s, vs[k as int], layers, m as int));
                        assert(hit == via_lands(s, vs, vc, k as int, m as int));
                    }
                    if hit {
                        landed.push(m as u32);
                    }
                    proof {
                        assert forall|q: int| 0 <= q < landed@.len() implies #[trigger] landed@[q]
                            < m + 1 && via_lands(s, vs, vc, k as int, landed@[q] as int) by {
                            if q < before.len() {
                                assert(landed@[q] == before[q]);
                                assert(before[q] < m);
                                assert(via_lands(s, vs, vc, k as int, before[q] as int));
                            } else {
                                assert(landed@ == before.push(m as u32));
                                assert(landed@[q] == m as u32);
                                assert(via_lands(s, vs, vc, k as int, m as int));
                            }
                        }
                        assert forall|a: int|
                            0 <= a < m + 1 && #[trigger] via_lands(s, vs, vc, k as int, a)
                                implies landed@.contains(a as u32) by {
                            if a == m {
                                assert(landed@[landed@.len() - 1] == m as u32);
                            } else {
                                assert(before.contains(a as u32));
                                let q = choose|q: int|
                                    0 <= q < before.len() && before[q] == a as u32;
                                assert(landed@[q] == a as u32);
                            }
                        }
                    }
                    m = m + 1;
                }
                if landed.len() > 0 {
                    let first = landed[0];
                    let mut q: usize = 1;
                    while q < landed.len()
                        invariant
                            n == s.len(),
                            s == shapes@,
                            vs == vias@,
                            vc == via_connects@,
                            n <= u32::MAX,
                            0 <= k < vs.len(),
                            1 <= q <= landed@.len(),
                            first == landed@[0],
                            forall|r: int|
                                0 <= r < landed@.len() ==> #[trigger] landed@[r] < n && via_lands(
                                    s,
                                    vs,
                                    vc,
                                    k as int,
                                    landed@[r] as int,
                                ),
                            tracker.wf(),
                            tracker.size() == n,
                            tracker.label_view() == s.map_values(|e: ShapeEntry| e.3),
                            joins_only_reachable(tracker, s, vs, vc),
                            forall|a: int, b: int|
                                0 <= a < b < n && shapes_touch(s, a, b)
                                    ==> #[trigger] tracker.connected(a, b),
                            forall|kk: int, a: int, b: int|
                                #![trigger via_lands(s, vs, vc, kk, a), via_lands(s, vs, vc, kk, b)]
                                0 <= kk < k && 0 <= a < n && 0 <= b < n && via_lands(
                                    s,
                                    vs,
                                    vc,
                                    kk,
                                    a,
                                ) && via_lands(s, vs, vc, kk, b) ==> tracker.connected(a, b),
                            forall|r: int|
                                1 <= r < q ==> tracker.connected(
                                    first as int,
                                    #[trigger] landed@[r] as int,
                                ),
                        decreases landed@.len() - q,
                    {
                        let other = landed[q];
                        let ghost pre = tracker;
                        proof {
                            assert(landed@[0] < n && via_lands(s, vs, vc, k as int, first as int));
                            assert(landed@[q as int] < n && via_lands(
                                s,
                                vs,
                                vc,
                                k as int,
                                other as int,
                            ));
                            assert(linked(s, vs, vc, first as int, other as int));
                        }
                        tracker.union(first, other);
                        proof {
                            lemma_after_union(
                                pre,
                                tracker,
                                s,
                                vs,
                                vc,
                                first as int,
                                other as int,
                            );
                            assert forall|r: int| 1 <= r < q + 1 implies tracker.connected(
                                first as int,
                                #[trigger] landed@[r] as int,
                            ) by {
                                assert(landed@[r] < n);
                            }
                        }
                        q = q + 1;
                    }
                    proof {
                        assert forall|a: int, b: int|
                            #![trigger via_lands(s, vs, vc, k as int, a), via_lands(s, vs, vc, k as int, b)]
                            0 <= a < n && 0 <= b < n && via_lands(s, vs, vc, k as int, a)
                                && via_lands(s, vs, vc, k as int, b) implies tracker.connected(
                            a,
                            b,
                        ) by {
                            assert(landed@.contains(a as u32));
                            assert(landed@.contains(b as u32));
                            let ra = choose|r: int| 0 <= r < landed@.len() && landed@[r] == a as u32;
                            let rb = choose|r: int| 0 <= r < landed@.len() && landed@[r] == b as u32;
                            if ra > 0 {
                                assert(tracker.connected(first as int, landed@[ra] as int));
                            }
                            if rb > 0 {
                                assert(tracker.connected(first as int, landed@[rb] as int));
                            }
                        }
                    }
                } else {
                    proof {
                        assert forall|a: int| 0 <= a < n implies !#[trigger] via_lands(
                            s,
                            vs,
                            vc,
                            k as int,
                            a,
                        ) by {
                            if via_lands(s, vs, vc, k as int, a) {
                                assert(landed@.contains(a as u32));
                            }
                        }
                    }
                }
            },
            None => {
                proof {
                    assert(!vc.contains_key(vs[k as int].1.0));
                }
            },
        }
        k = k + 1;
    }
    proof {
        assert forall|a: int, b: int|
            0 <= a < n && 0 <= b < n && linked(s, vs, vc, a, b) implies #[trigger] tracker.connected(
            a,
            b,
        ) by {
            if a < b && shapes_touch(s, a, b) {
            } else if b < a && shapes_touch(s, b, a) {
                assert(tracker.connected(b, a));
            } else {
                let kk = choose|kk: int|
                    #![trigger via_lands(s, vs, vc, kk, a), via_lands(s, vs, vc, kk, b)]
                    0 <= kk < vs.len() && via_lands(s, vs, vc, kk, a) && via_lands(
                        s,
                        vs,
                        vc,
                        kk,
                        b,
                    );
            }
        }
        assert forall|a: int, b: int|
            0 <= a < n && 0 <= b < n && reachable(s, vs, vc, a, b) implies #[trigger] tracker.connected(
            a,
            b,
        ) by {
            let p = choose|p: Seq<int>| #[trigger] is_walk(s, vs, vc, p) && p[0] == a && p.last() == b;
            lemma_walk_connected(tracker, s, vs, vc, p);
        }
    }
    let ghost joined = tracker;
    let (opens, shorts) = split_errors(&mut tracker);
    proof {
        assert forall|a: int, b: int| 0 <= a < n && 0 <= b < n implies (#[trigger] tracker.connected(
            a,
            b,
        ) <==> reachable(s, vs, vc, a, b)) by {
            assert(tracker.rep(a) == joined.rep(a));
            assert(tracker.rep(b) == joined.rep(b));
            assert(joined.connected(a, b) <==> reachable(s, vs, vc, a, b));
        }
    }
    (tracker, LvsResult { opens, shorts, mismatches: Vec::new() })
}

/// Run the tracker's invariant check and split its report into the opens and
/// the shorts, each in the order reported.
fn split_errors(tracker: &mut ConnectivityTracker) -> (res: (Vec<LvsOpen>, Vec<LvsShort>))
    requires
        old(tracker).wf(),
    ensures
        final(tracker).wf(),
        final(tracker).same_view(*old(tracker)),
        final(tracker).opens_ok(res.0@.map_values(|o: LvsOpen| LvsError::Open(o))),
        final(tracker).shorts_ok(res.1@.map_values(|sh: LvsShort| LvsError::Short(sh))),
{
    let mut errors = tracker.invariant_check();
    let ghost all = errors@;
    let ghost split = choose|k: int| #[trigger] tracker.errors_split_at(all, k);
    proof {
        assert(tracker.errors_split_at(all, split));
        assert forall|a: int| 0 <= a < split implies #[trigger] all[a] is Open by {
            assert(all.subrange(0, split)[a] == all[a]);
        }
        assert forall|a: int| split <= a < all.len() implies #[trigger] all[a] is Short by {
            assert(all.subrange(split, all.len() as int)[a - split] == all[a]);
        }
    }
    let mut opens: Vec<LvsOpen> = Vec::new();
    let mut shorts: Vec<LvsShort> = Vec::new();
    while errors.len() > 0
        invariant
            0 <= split <= all.len(),
            errors@.len() <= all.len(),
            errors@ == all.subrange(all.len() - errors@.len(), all.len() as int),
            forall|a: int| 0 <= a < split ==> #[trigger] all[a] is Open,
            forall|a: int| split <= a < all.len() ==> #[trigger] all[a] is Short,
            all.len() - errors@.len() <= split ==> {
                &&& opens@.map_values(|o: LvsOpen| LvsError::Open(o)) == all.subrange(
                    0,
                    all.len() - errors@.len(),
                )
                &&& shorts@.len() == 0
            },
            all.len() - errors@.len() > split ==> {
                &&& opens@.map_values(|o: LvsOpen| LvsError::Open(o)) == all.subrange(0, split)
                &&& shorts@.map_values(|sh: LvsShort| LvsError::Short(sh)) == all.subrange(
                    split,
                    all.len() - errors@.len(),
                )
            },
        decreases errors@.len(),
    {
        let ghost c = all.len() - errors@.len();
        let err = errors.remove(0);
        proof {
            assert(err == all[c]);
        }
        match err {
            LvsError::Open(o) => {
                opens.push(o);
                proof {
                    assert(c < split);
                    assert(opens@.map_values(|o: LvsOpen| LvsError::Open(o)) =~= all.subrange(
                        0,
                        c + 1,
                    ));
                }
            },
            LvsError::Short(sh) => {
                shorts.push(sh);
                proof {
                    assert(c >= split);
                    if c == split {
                        assert(opens@.map_values(|o: LvsOpen| LvsError::Open(o)) =~= all.subrange(
                            0,
                            split,
                        ));
                    }
                    assert(shorts@.map_values(|sh: LvsShort| LvsError::Short(sh)) =~= all.subrange(
                        split,
                        c + 1,
                    ));
                }
            },
        }
        proof {
            assert(errors@ =~= all.subrange(all.len() - errors@.len(), all.len() as int));
        }
    }
    proof {
        if split == all.len() {
            assert(shorts@.map_values(|sh: LvsShort| LvsError::Short(sh)) =~= all.subrange(
                split,
                all.len() as int,
            ));
        }
        assert(all.subrange(0, split) == all.subrange(0, split));
    }
    (opens, shorts)
}

} // verus!
