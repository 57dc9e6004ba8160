//! Union-find with net labels for LVS connectivity extraction.
//!
//! Elements are `u32` indices. The abstract state of a tracker is, for every
//! element, its component representative ([`ConnectivityTracker::rep`]) and its
//! optional net label ([`ConnectivityTracker::label_view`]).
use vstd::arithmetic::power2::*;
use vstd::prelude::*;
use vstd::set_lib::*;

use crate::lvs::{LvsError, LvsOpen, LvsShort, NetId, UnionResult};
use crate::seqs::{
    index_filter, insert_sorted, is_sorted_set, lemma_sorted_set_len_gt1, strictly_increasing,
};

verus! {

/// The elements whose representative is `r`.
pub open spec fn comp_set(roots: Seq<int>, r: int) -> Set<int> {
    Set::new(|j: int| 0 <= j < roots.len() && roots[j] == r)
}

/// The representatives: elements that are their own representative.
pub open spec fn root_set(roots: Seq<int>) -> Set<int> {
    Set::new(|j: int| 0 <= j < roots.len() && roots[j] == j)
}

/// Every element of component `from` moved to component `to`.
pub open spec fn redirect(roots: Seq<int>, from: int, to: int) -> Seq<int> {
    Seq::new(roots.len(), |i: int| if roots[i] == from { to } else { roots[i] })
}

proof fn lemma_bounded_sets(roots: Seq<int>, r: int)
    ensures
        comp_set(roots, r).finite(),
        comp_set(roots, r).len() <= roots.len(),
        root_set(roots).finite(),
        root_set(roots).len() <= roots.len(),
{
    lemma_int_range(0, roots.len() as int);
    lemma_len_subset(comp_set(roots, r), set_int_range(0, roots.len() as int));
    lemma_len_subset(root_set(roots), set_int_range(0, roots.len() as int));
}

proof fn lemma_redirect_sets(roots: Seq<int>, from: int, to: int)
    requires
        0 <= from < roots.len(),
        0 <= to < roots.len(),
        from != to,
        roots[from] == from,
        roots[to] == to,
    ensures
        comp_set(redirect(roots, from, to), to) == comp_set(roots, to) + comp_set(roots, from),
        comp_set(roots, to).disjoint(comp_set(roots, from)),
        forall|r: int|
            r != to && r != from ==> #[trigger] comp_set(redirect(roots, from, to), r)
                == comp_set(roots, r),
        root_set(redirect(roots, from, to)) == root_set(roots).remove(from),
        root_set(roots).contains(from),
{
    let nr = redirect(roots, from, to);
    assert(comp_set(nr, to) =~= comp_set(roots, to) + comp_set(roots, from));
    assert forall|r: int| r != to && r != from implies #[trigger] comp_set(nr, r) == comp_set(
        roots,
        r,
    ) by {
        assert(comp_set(nr, r) =~= comp_set(roots, r));
    }
    assert(root_set(nr) =~= root_set(roots).remove(from));
}

proof fn lemma_rank_small(s: nat, k: nat)
    requires
        pow2(k) <= s,
        s <= u32::MAX,
    ensures
        k < 32,
{
    if k >= 32 {
        lemma2_to64();
        if k > 32 {
            lemma_pow2_strictly_increases(32, k);
        }
    }
}

/// The representative of the component that joining the components of `x`
/// and `y` makes, by union by rank: the root of higher rank, and `x`'s root
/// when the ranks are equal.
pub open spec fn union_root(t: ConnectivityTracker, x: int, y: int) -> int {
    if t.rank_of(t.rep(x)) < t.rank_of(t.rep(y)) {
        t.rep(y)
    } else {
        t.rep(x)
    }
}

/// Union-find with net labels for LVS connectivity extraction.
///
/// Elements are identified by `u32` indices. Each element may carry a
/// [`NetId`] label from the schematic. The tracker supports union, find,
/// same-component queries, and invariant checking.
#[derive(Clone)]
pub struct ConnectivityTracker {
    parent: Vec<u32>,
    rank: Vec<u8>,
    labels: Vec<Option<NetId>>,
    count: u32,
    /// The representative of every element.
    roots: Ghost<Seq<int>>,
}

impl ConnectivityTracker {
    /// The rank of element `i` in the union-by-rank forest.
    pub closed spec fn rank_of(self, i: int) -> int {
        self.rank@[i] as int
    }

    /// Number of elements.
    pub closed spec fn size(self) -> nat {
        self.parent@.len()
    }

    /// The representative of the component of element `i`.
    pub closed spec fn rep(self, i: int) -> int {
        self.roots@[i]
    }

    /// The net labels of all elements.
    pub closed spec fn label_view(self) -> Seq<Option<NetId>> {
        self.labels@
    }

    /// The number of components.
    pub closed spec fn num_components(self) -> nat {
        self.count as nat
    }

    /// Elements `i` and `j` are in the same component.
    pub open spec fn connected(self, i: int, j: int) -> bool {
        self.rep(i) == self.rep(j)
    }

    /// The representatives of the components.
    pub open spec fn reps(self) -> Set<int> {
        Set::new(|r: int| 0 <= r < self.size() && self.rep(r) == r)
    }

    /// Both trackers hold the same elements, partition, labels and ranks.
    pub open spec fn same_view(self, other: Self) -> bool {
        &&& self.size() == other.size()
        &&& self.label_view() == other.label_view()
        &&& self.num_components() == other.num_components()
        &&& forall|i: int| 0 <= i < self.size() ==> #[trigger] self.rep(i) == other.rep(i)
        &&& forall|i: int| 0 <= i < self.size() ==> #[trigger] self.rank_of(i) == other.rank_of(i)
    }

    /// The label of the lowest-numbered labeled element `>= i` in component `r`.
    pub open spec fn first_label(self, r: int, i: int) -> Option<NetId>
        decreases self.size() - i,
    {
        if i < 0 || i >= self.size() {
            None
        } else if self.rep(i) == r && self.label_view()[i] is Some {
            self.label_view()[i]
        } else {
            self.first_label(r, i + 1)
        }
    }

    /// The net label of the component containing `x`: the label of its
    /// lowest-numbered labeled member, if any.
    pub open spec fn spec_component_net(self, x: int) -> Option<NetId> {
        self.first_label(self.rep(x), 0)
    }

    /// The elements of the component of `x`, in increasing order.
    pub open spec fn spec_members(self, x: int) -> Seq<u32> {
        index_filter(self.size() as int, |i: int| self.rep(i) == self.rep(x))
    }

    /// The elements labeled `net`, in increasing order.
    pub open spec fn spec_elements_with_net(self, net: NetId) -> Seq<u32> {
        index_filter(self.size() as int, |i: int| self.label_view()[i] == Some(net))
    }


    /// The representatives of the elements labeled with net id `u`.
    pub open spec fn net_reps(self, u: u32) -> Set<u32> {
        Set::new(
            |r: u32|
                exists|i: int|
                    0 <= i < self.size() && self.label_view()[i] == Some(NetId(u)) && self.rep(i)
                        == r,
        )
    }

    /// The net ids carried by members of the component represented by `r`.
    pub open spec fn comp_nets(self, r: int) -> Set<u32> {
        Set::new(
            |u: u32|
                exists|i: int|
                    0 <= i < self.size() && self.rep(i) == r && self.label_view()[i] == Some(
                        NetId(u),
                    ),
        )
    }

    /// The elements labeled `u` lie in at least two components: an open.
    pub open spec fn split_net(self, u: u32) -> bool {
        exists|a: u32, b: u32| a != b && self.net_reps(u).contains(a) && self.net_reps(u).contains(b)
    }

    /// The component represented by `r` holds at least two different labels: a short.
    pub open spec fn shorted_comp(self, r: int) -> bool {
        &&& 0 <= r < self.size()
        &&& self.rep(r) == r
        &&& exists|a: u32, b: u32|
            a != b && self.comp_nets(r).contains(a) && self.comp_nets(r).contains(b)
    }

    /// `o` reports net `o.net` as open: its components are the member lists of
    /// the net's representatives, in increasing representative order.
    pub open spec fn is_open_report(self, o: LvsOpen) -> bool {
        exists|rs: Seq<u32>|
            {
                &&& is_sorted_set(rs, self.net_reps(o.net.0))
                &&& rs.len() > 1
                &&& o.components@.len() == rs.len()
                &&& forall|c: int|
                    0 <= c < rs.len() ==> (#[trigger] o.components@[c])@ == self.spec_members(
                        rs[c] as int,
                    )
            }
    }

    /// `sh` reports the component represented by `sh.component` as shorted,
    /// listing its net ids in increasing order.
    pub open spec fn is_short_report(self, sh: LvsShort) -> bool {
        &&& 0 <= sh.component < self.size()
        &&& self.rep(sh.component as int) == sh.component as int
        &&& is_sorted_set(
            sh.nets@.map_values(|n: NetId| n.0),
            self.comp_nets(sh.component as int),
        )
        &&& sh.nets@.len() > 1
    }

    /// `os` reports every open exactly once, by increasing net id.
    pub open spec fn opens_ok(self, os: Seq<LvsError>) -> bool {
        &&& forall|a: int|
            0 <= a < os.len() ==> #[trigger] os[a] is Open && self.is_open_report(os[a]->Open_0)
        &&& forall|a: int, b: int|
            0 <= a < b < os.len() ==> (#[trigger] os[a])->Open_0.net.0 < (
            #[trigger] os[b])->Open_0.net.0
        &&& forall|u: u32|
            self.split_net(u) <==> exists|a: int|
                0 <= a < os.len() && (#[trigger] os[a])->Open_0.net.0 == u
    }

    /// `ss` reports every short exactly once, by increasing representative.
    pub open spec fn shorts_ok(self, ss: Seq<LvsError>) -> bool {
        &&& forall|a: int|
            0 <= a < ss.len() ==> #[trigger] ss[a] is Short && self.is_short_report(
                ss[a]->Short_0,
            )
        &&& forall|a: int, b: int|
            0 <= a < b < ss.len() ==> (#[trigger] ss[a])->Short_0.component < (
            #[trigger] ss[b])->Short_0.component
        &&& forall|r: u32|
            self.shorted_comp(r as int) <==> exists|a: int|
                0 <= a < ss.len() && (#[trigger] ss[a])->Short_0.component == r
    }

    /// `errs[..k]` are the opens and `errs[k..]` the shorts.
    pub open spec fn errors_split_at(self, errs: Seq<LvsError>, k: int) -> bool {
        &&& 0 <= k <= errs.len()
        &&& self.opens_ok(errs.subrange(0, k))
        &&& self.shorts_ok(errs.subrange(k, errs.len() as int))
    }

    /// `errs` lists every open (by increasing net id), then every short (by
    /// increasing representative).
    pub open spec fn spec_invariant_errors(self, errs: Seq<LvsError>) -> bool {
        exists|k: int| #[trigger] self.errors_split_at(errs, k)
    }

    /// Internal consistency of the parent/rank forest with the representatives.
    pub closed spec fn wf(self) -> bool {
        let n = self.parent@.len();
        let roots = self.roots@;
        &&& n <= u32::MAX
        &&& self.rank@.len() == n
        &&& self.labels@.len() == n
        &&& roots.len() == n
        &&& forall|i: int| 0 <= i < n ==> (#[trigger] self.parent@[i] as int) < n
        &&& forall|i: int| 0 <= i < n ==> 0 <= #[trigger] roots[i] < n
        &&& forall|i: int| 0 <= i < n ==> self.parent@[#[trigger] roots[i]] as int == roots[i]
        &&& forall|i: int|
            0 <= i < n && #[trigger] self.parent@[i] as int == i ==> roots[i] == i
        &&& forall|i: int|
            0 <= i < n && #[trigger] self.parent@[i] as int != i ==> roots[self.parent@[i] as int]
                == roots[i] && self.rank@[self.parent@[i] as int] > self.rank@[i]
        &&& forall|i: int|
            0 <= i < n && #[trigger] roots[i] != i ==> self.rank@[roots[i]] > self.rank@[i]
        &&& forall|r: int|
            0 <= r < n && #[trigger] roots[r] == r ==> comp_set(roots, r).len() >= pow2(
                self.rank@[r] as nat,
            )
        &&& self.count as int == root_set(roots).len()
    }

    /// Facts every well-formed tracker satisfies: representatives are valid
    /// elements that represent themselves, and the component count is the
    /// number of representatives.
    pub proof fn lemma_wf_facts(self)
        requires
            self.wf(),
        ensures
            forall|i: int|
                0 <= i < self.size() ==> 0 <= #[trigger] self.rep(i) < self.size() && self.rep(
                    self.rep(i),
                ) == self.rep(i),
            self.num_components() == self.reps().len(),
            self.reps().finite(),
            self.label_view().len() == self.size(),
            self.size() <= u32::MAX,
    {
        assert forall|i: int| 0 <= i < self.size() implies 0 <= #[trigger] self.rep(i) < self.size()
            && self.rep(self.rep(i)) == self.rep(i) by {
            let r = self.roots@[i];
            assert(self.parent@[r] as int == r);
        }
        assert(self.reps() =~= root_set(self.roots@));
        lemma_bounded_sets(self.roots@, 0);
    }

    proof fn lemma_first_label_same_view(a: Self, b: Self, r: int, i: int)
        requires
            a.same_view(b),
        ensures
            a.first_label(r, i) == b.first_label(r, i),
        decreases a.size() - i,
    {
        if 0 <= i < a.size() {
            assert(a.rep(i) == b.rep(i));
            Self::lemma_first_label_same_view(a, b, r, i + 1);
        }
    }

    /// Create a new tracker with `n` elements, each in its own component.
    pub fn new(n: u32) -> (t: Self)
        ensures
            t.wf(),
            t.size() == n,
            forall|i: int| 0 <= i < n ==> #[trigger] t.rep(i) == i,
            t.label_view() == Seq::new(n as nat, |i: int| None::<NetId>),
            t.num_components() == n,
    {
        let mut parent: Vec<u32> = Vec::new();
        let mut rank: Vec<u8> = Vec::new();
        let mut labels: Vec<Option<NetId>> = Vec::new();
        let mut i: u32 = 0;
        while i < n
            invariant
                i <= n,
                parent@ =~= Seq::new(i as nat, |k: int| k as u32),
                rank@ =~= Seq::new(i as nat, |k: int| 0u8),
                labels@ =~= Seq::new(i as nat, |k: int| None::<NetId>),
            decreases n - i,
        {
            parent.push(i);
            rank.push(0);
            labels.push(None);
            i = i + 1;
        }
        let ghost roots = Seq::new(n as nat, |k: int| k);
        proof {
            assert forall|r: int| 0 <= r < n && #[trigger] roots[r] == r implies comp_set(
                roots,
                r,
            ).len() >= pow2(rank@[r] as nat) by {
                assert(comp_set(roots, r) =~= set![r]);
                lemma2_to64();
            }
            assert(root_set(roots) =~= set_int_range(0, n as int));
            lemma_int_range(0, n as int);
        }
        ConnectivityTracker { parent, rank, labels, count: n, roots: Ghost(roots) }
    }

    /// Assign a net label to element `x`.
    ///
    /// `x` must not already carry a different label (label conflicts are LVS
    /// errors, caught earlier).
    pub fn label(&mut self, x: u32, net: NetId)
        requires
            old(self).wf(),
            x < old(self).size(),
            old(self).label_view()[x as int] is None || old(self).label_view()[x as int] == Some(
                net,
            ),
        ensures
            final(self).wf(),
            final(self).size() == old(self).size(),
            final(self).num_components() == old(self).num_components(),
            forall|i: int| 0 <= i < final(self).size() ==> #[trigger] final(self).rep(i) == old(self).rep(i),
            final(self).label_view() == old(self).label_view().update(x as int, Some(net)),
    {
        self.labels.set(x as usize, Some(net));
    }

    /// Find the representative of element `x`, compressing the path to it.
    pub fn find(&mut self, x: u32) -> (r: u32)
        requires
            old(self).wf(),
            x < old(self).size(),
        ensures
            final(self).wf(),
            final(self).same_view(*old(self)),
            r as int == old(self).rep(x as int),
        decreases 256 - old(self).rank_of(x as int),
    {
        let p = self.parent[x as usize];
        if p != x {
            let ghost rx = self.roots@[x as int];
            proof {
                assert(self.parent@[x as int] as int != x as int);
                assert(self.roots@[p as int] == rx);
                assert(self.parent@[rx] as int == rx);
                assert(rx != x as int);
            }
            let root = self.find(p);
            let ghost mid = *self;
            proof {
                assert(self.rep(x as int) == rx);
                assert(self.roots@[x as int] == rx);
                assert(root as int == rx);
                assert(self.parent@[rx] as int == rx);
            }
            self.parent.set(x as usize, root);
            proof {
                assert forall|i: int| 0 <= i < self.size() implies #[trigger] self.rep(i) == old(
                    self,
                ).rep(i) by {
                    assert(mid.rep(i) == old(self).rep(i));
                }
                assert forall|i: int| 0 <= i < self.size() implies #[trigger] self.rank_of(i) == old(
                    self,
                ).rank_of(i) by {
                    assert(mid.rank_of(i) == old(self).rank_of(i));
                }
            }
        }
        proof {
            let r = self.roots@[x as int];
            assert(self.parent@[r] as int == r);
        }
        self.parent[x as usize]
    }

    /// Check whether `x` and `y` are in the same component.
    pub fn same_component(&mut self, x: u32, y: u32) -> (b: bool)
        requires
            old(self).wf(),
            x < old(self).size(),
            y < old(self).size(),
        ensures
            final(self).wf(),
            final(self).same_view(*old(self)),
            b == old(self).connected(x as int, y as int),
    {
        let rx = self.find(x);
        let ry = self.find(y);
        rx == ry
    }

    /// Return the net label of the component containing `x`, if any.
    pub fn component_net(&mut self, x: u32) -> (res: Option<NetId>)
        requires
            old(self).wf(),
            x < old(self).size(),
        ensures
            final(self).wf(),
            final(self).same_view(*old(self)),
            res == old(self).spec_component_net(x as int),
    {
        let root = self.find(x);
        let n = self.parent.len();
        let mut i: usize = 0;
        while i < n
            invariant
                self.wf(),
                self.same_view(*old(self)),
                n == self.size(),
                root as int == old(self).rep(x as int),
                0 <= i <= n,
                old(self).spec_component_net(x as int) == old(self).first_label(
                    root as int,
                    i as int,
                ),
            decreases n - i,
        {
            let ri = self.find(i as u32);
            if ri == root {
                if let Some(l) = self.labels[i] {
                    return Some(l);
                }
            }
            i = i + 1;
        }
        None
    }

    /// Union elements `x` and `y` into the same component, by rank with path
    /// compression.
    ///
    /// Merging two components whose labels differ reports a short.
    pub fn union(&mut self, x: u32, y: u32) -> (res: UnionResult)
        requires
            old(self).wf(),
            x < old(self).size(),
            y < old(self).size(),
        ensures
            final(self).wf(),
            final(self).size() == old(self).size(),
            final(self).label_view() == old(self).label_view(),
            old(self).connected(x as int, y as int) ==> res == UnionResult::AlreadySame
                && final(self).same_view(*old(self)),
            !old(self).connected(x as int, y as int) ==> {
                &&& final(self).num_components() == old(self).num_components() - 1
                &&& forall|i: int|
                    0 <= i < old(self).size() ==> #[trigger] final(self).rep(i) == if old(self).rep(i)
                        == old(self).rep(x as int) || old(self).rep(i) == old(self).rep(y as int) {
                        union_root(*old(self), x as int, y as int)
                    } else {
                        old(self).rep(i)
                    }
                &&& forall|i: int|
                    0 <= i < old(self).size() ==> #[trigger] final(self).rank_of(i) == if i
                        == union_root(*old(self), x as int, y as int) && old(self).rank_of(
                        old(self).rep(x as int),
                    ) == old(self).rank_of(old(self).rep(y as int)) {
                        old(self).rank_of(i) + 1
                    } else {
                        old(self).rank_of(i)
                    }
                &&& res == match (
                    old(self).spec_component_net(x as int),
                    old(self).spec_component_net(y as int),
                ) {
                    (Some(a), Some(b)) => if a != b {
                        UnionResult::Short { net_a: a, net_b: b }
                    } else {
                        UnionResult::Merged
                    },
                    _ => UnionResult::Merged,
                }
            },
            forall|i: int, j: int|
                0 <= i < old(self).size() && 0 <= j < old(self).size() ==> (
                #[trigger] final(self).connected(i, j) <==> (old(self).connected(i, j) || (old(
                    self,
                ).connected(i, x as int) && old(self).connected(j, y as int)) || (old(
                    self,
                ).connected(i, y as int) && old(self).connected(j, x as int)))),
    {
        let net_x = self.component_net(x);
        let ghost s1 = *self;
        let net_y = self.component_net(y);
        proof {
            Self::lemma_first_label_same_view(s1, *old(self), s1.rep(y as int), 0);
        }
        let ghost s2 = *self;
        let rx = self.find(x);
        let ghost s3 = *self;
        let ry = self.find(y);
        if rx == ry {
            return UnionResult::AlreadySame;
        }
        let ghost pre = *self;
        proof {
            assert forall|i: int| 0 <= i < pre.size() implies #[trigger] pre.rank_of(i) == old(
                self,
            ).rank_of(i) by {
                assert(pre.rank_of(i) == s3.rank_of(i));
                assert(s3.rank_of(i) == s2.rank_of(i));
                assert(s2.rank_of(i) == s1.rank_of(i));
                assert(s1.rank_of(i) == old(self).rank_of(i));
            }
        }
        let ghost roots = self.roots@;
        let rank_x = self.rank[rx as usize];
        let rank_y = self.rank[ry as usize];
        let ghost from: int;
        let ghost to: int;
        proof {
            assert(self.rep(x as int) == rx as int);
            assert(self.rep(y as int) == ry as int);
            assert(self.parent@[self.roots@[x as int]] as int == rx as int);
            assert(self.parent@[self.roots@[y as int]] as int == ry as int);
            assert(roots[rx as int] == rx as int);
            assert(roots[ry as int] == ry as int);
            lemma_bounded_sets(roots, rx as int);
            lemma_bounded_sets(roots, ry as int);
            lemma_rank_small(comp_set(roots, rx as int).len(), rank_x as nat);
            lemma_rank_small(comp_set(roots, ry as int).len(), rank_y as nat);
            assert(pre.rank_of(rx as int) == rank_x as int);
            assert(pre.rank_of(ry as int) == rank_y as int);
            assert(old(self).rank_of(rx as int) == rank_x as int);
            assert(old(self).rank_of(ry as int) == rank_y as int);
        }
        if rank_x < rank_y {
            self.parent.set(rx as usize, ry);
            proof {
                from = rx as int;
                to = ry as int;
            }
        } else if rank_x > rank_y {
            self.parent.set(ry as usize, rx);
            proof {
                from = ry as int;
                to = rx as int;
            }
        } else {
            self.parent.set(ry as usize, rx);
            self.rank.set(rx as usize, rank_x + 1);
            proof {
                from = ry as int;
                to = rx as int;
            }
        }
        proof {
            lemma_redirect_sets(roots, from, to);
        }
        self.count = self.count - 1;
        proof {
            lemma_bounded_sets(roots, from);
            lemma_bounded_sets(roots, to);
            lemma_set_disjoint_lens(comp_set(roots, to), comp_set(roots, from));
            let nr = redirect(roots, from, to);
            self.roots = Ghost(nr);
            let n = self.parent@.len();
            assert forall|i: int| 0 <= i < n implies self.parent@[#[trigger] nr[i]] as int
                == nr[i] by {
                assert(pre.parent@[roots[i]] as int == roots[i]);
            }
            assert forall|i: int|
                0 <= i < n && #[trigger] self.parent@[i] as int == i implies nr[i] == i by {
                if i != from {
                    assert(pre.parent@[i] as int == i);
                }
            }
            assert forall|i: int|
                0 <= i < n && #[trigger] self.parent@[i] as int != i implies nr[self.parent@[i] as int]
                == nr[i] && self.rank@[self.parent@[i] as int] > self.rank@[i] by {
                if i != from {
                    assert(pre.parent@[i] as int != i);
                    let p = pre.parent@[i] as int;
                    assert(roots[p] == roots[i]);
                    assert(pre.rank@[p] > pre.rank@[i]);
                }
            }
            assert forall|i: int| 0 <= i < n && #[trigger] nr[i] != i implies self.rank@[nr[i]]
                > self.rank@[i] by {
                if roots[i] == from {
                    if i != from {
                        assert(roots[i] != i);
                        assert(pre.rank@[from] > pre.rank@[i]);
                    }
                } else {
                    assert(roots[i] != i);
                    assert(pre.rank@[roots[i]] > pre.rank@[i]);
                }
            }
            assert forall|r: int| 0 <= r < n && #[trigger] nr[r] == r implies comp_set(nr, r).len()
                >= pow2(self.rank@[r] as nat) by {
                if r == to {
                    if rank_x == rank_y {
                        lemma_pow2_unfold(self.rank@[r] as nat);
                    }
                } else {
                    assert(roots[r] == r);
                    assert(r != from);
                }
            }
            assert forall|i: int, j: int|
                0 <= i < n && 0 <= j < n implies (#[trigger] self.connected(i, j) <==> (
                pre.connected(i, j) || (pre.connected(i, x as int) && pre.connected(j, y as int))
                    || (pre.connected(i, y as int) && pre.connected(j, x as int)))) by {}
            assert(old(self).rep(x as int) == rx as int);
            assert(old(self).rep(y as int) == ry as int);
            assert(old(self).rank_of(rx as int) == rank_x as int);
            assert(old(self).rank_of(ry as int) == rank_y as int);
            assert(union_root(*old(self), x as int, y as int) == to);
            assert forall|i: int| 0 <= i < n implies #[trigger] self.rep(i) == if old(self).rep(i)
                == rx as int || old(self).rep(i) == ry as int {
                to
            } else {
                old(self).rep(i)
            } by {
                assert(pre.rep(i) == old(self).rep(i));
            }
            assert forall|i: int| 0 <= i < n implies #[trigger] self.rank_of(i) == if i == to
                && rank_x == rank_y {
                old(self).rank_of(i) + 1
            } else {
                old(self).rank_of(i)
            } by {
                assert(pre.rank_of(i) == old(self).rank_of(i));
            }
        }
        match (net_x, net_y) {
            (Some(a), Some(b)) => {
                if a != b {
                    UnionResult::Short { net_a: a, net_b: b }
                } else {
                    UnionResult::Merged
                }
            },
            _ => UnionResult::Merged,
        }
    }

    /// Return all elements in the same component as `x`, in increasing order.
    pub fn component_members(&mut self, x: u32) -> (res: Vec<u32>)
        requires
            old(self).wf(),
            x < old(self).size(),
        ensures
            final(self).wf(),
            final(self).same_view(*old(self)),
            res@ == old(self).spec_members(x as int),
    {
        let root = self.find(x);
        let n = self.parent.len();
        let mut out: Vec<u32> = Vec::new();
        let mut i: usize = 0;
        while i < n
            invariant
                self.wf(),
                self.same_view(*old(self)),
                n == self.size(),
                root as int == old(self).rep(x as int),
                0 <= i <= n,
                out@ == index_filter(i as int, |k: int| old(self).rep(k) == old(self).rep(x as int)),
            decreases n - i,
        {
            let ri = self.find(i as u32);
            if ri == root {
                out.push(i as u32);
            }
            i = i + 1;
        }
        out
    }

    /// Return all elements labeled with `net`, in increasing order.
    pub fn elements_with_net(&self, net: NetId) -> (res: Vec<u32>)
        requires
            self.wf(),
        ensures
            res@ == self.spec_elements_with_net(net),
    {
        let n = self.labels.len();
        let mut out: Vec<u32> = Vec::new();
        let mut i: usize = 0;
        while i < n
            invariant
                self.wf(),
                n == self.size(),
                0 <= i <= n,
                out@ == index_filter(i as int, |k: int| self.label_view()[k] == Some(net)),
            decreases n - i,
        {
            if self.labels[i] == Some(net) {
                out.push(i as u32);
            }
            i = i + 1;
        }
        out
    }


    /// The representative of `x`, by walking parents without compressing.
    fn root_of(&self, x: u32) -> (r: u32)
        requires
            self.wf(),
            x < self.size(),
        ensures
            r as int == self.rep(x as int),
        decreases 256 - self.rank_of(x as int),
    {
        let p = self.parent[x as usize];
        if p == x {
            x
        } else {
            proof {
                assert(self.parent@[x as int] as int != x as int);
            }
            self.root_of(p)
        }
    }

    /// The members of the component represented by `r`, in increasing order.
    fn members_of(&self, r: u32) -> (res: Vec<u32>)
        requires
            self.wf(),
            r < self.size(),
            self.rep(r as int) == r as int,
        ensures
            res@ == self.spec_members(r as int),
    {
        let n = self.parent.len();
        let mut out: Vec<u32> = Vec::new();
        let mut i: usize = 0;
        while i < n
            invariant
                self.wf(),
                n == self.size(),
                r < n,
                self.rep(r as int) == r as int,
                0 <= i <= n,
                out@ == index_filter(i as int, |k: int| self.rep(k) == self.rep(r as int)),
            decreases n - i,
        {
            let ri = self.root_of(i as u32);
            if ri == r {
                out.push(i as u32);
            }
            i = i + 1;
        }
        out
    }

    /// The representatives of the elements labeled `u`, sorted.
    fn net_roots(&self, u: u32) -> (rs: Vec<u32>)
        requires
            self.wf(),
        ensures
            is_sorted_set(rs@, self.net_reps(u)),
    {
        let n = self.parent.len();
        let mut out: Vec<u32> = Vec::new();
        let mut i: usize = 0;
        while i < n
            invariant
                self.wf(),
                n == self.size(),
                0 <= i <= n,
                strictly_increasing(out@),
                forall|r: u32|
                    out@.contains(r) <==> exists|j: int|
                        0 <= j < i && self.label_view()[j] == Some(NetId(u)) && self.rep(j) == r,
            decreases n - i,
        {
            if self.labels[i] == Some(NetId(u)) {
                let ri = self.root_of(i as u32);
                insert_sorted(&mut out, ri);
            }
            proof {
                assert forall|r: u32|
                    out@.contains(r) <==> exists|j: int|
                        0 <= j < i + 1 && self.label_view()[j] == Some(NetId(u)) && self.rep(j)
                            == r by {
                    if exists|j: int|
                        0 <= j < i + 1 && self.label_view()[j] == Some(NetId(u)) && self.rep(j)
                            == r {
                        let j = choose|j: int|
                            0 <= j < i + 1 && self.label_view()[j] == Some(NetId(u)) && self.rep(
                                j,
                            ) == r;
                        if j < i {
                        }
                    }
                }
            }
            i = i + 1;
        }
        proof {
            assert forall|r: u32| out@.contains(r) <==> self.net_reps(u).contains(r) by {}
        }
        out
    }

    /// The net ids carried by members of the component represented by `r`, sorted.
    fn comp_net_ids(&self, r: u32) -> (ns: Vec<u32>)
        requires
            self.wf(),
        ensures
            is_sorted_set(ns@, self.comp_nets(r as int)),
    {
        let n = self.parent.len();
        let mut out: Vec<u32> = Vec::new();
        let mut i: usize = 0;
        while i < n
            invariant
                self.wf(),
                n == self.size(),
                0 <= i <= n,
                strictly_increasing(out@),
                forall|u: u32|
                    out@.contains(u) <==> exists|j: int|
                        0 <= j < i && self.rep(j) == r as int && self.label_view()[j] == Some(
                            NetId(u),
                        ),
            decreases n - i,
        {
            if let Some(l) = self.labels[i] {
                let ri = self.root_of(i as u32);
                if ri == r {
                    insert_sorted(&mut out, l.0);
                }
            }
            proof {
                assert forall|u: u32|
                    out@.contains(u) <==> exists|j: int|
                        0 <= j < i + 1 && self.rep(j) == r as int && self.label_view()[j] == Some(
                            NetId(u),
                        ) by {
                    if exists|j: int|
                        0 <= j < i + 1 && self.rep(j) == r as int && self.label_view()[j] == Some(
                            NetId(u),
                        ) {
                        let j = choose|j: int|
                            0 <= j < i + 1 && self.rep(j) == r as int && self.label_view()[j]
                                == Some(NetId(u));
                        if j < i {
                        }
                    }
                }
            }
            i = i + 1;
        }
        proof {
            assert forall|u: u32| out@.contains(u) <==> self.comp_nets(r as int).contains(u) by {}
        }
        out
    }

    /// The distinct net ids carried by any element, sorted.
    fn labeled_net_ids(&self) -> (ns: Vec<u32>)
        requires
            self.wf(),
        ensures
            strictly_increasing(ns@),
            forall|u: u32|
                ns@.contains(u) <==> exists|j: int|
                    0 <= j < self.size() && self.label_view()[j] == Some(NetId(u)),
    {
        let n = self.labels.len();
        let mut out: Vec<u32> = Vec::new();
        let mut i: usize = 0;
        while i < n
            invariant
                self.wf(),
                n == self.size(),
                0 <= i <= n,
                strictly_increasing(out@),
                forall|u: u32|
                    out@.contains(u) <==> exists|j: int|
                        0 <= j < i && self.label_view()[j] == Some(NetId(u)),
            decreases n - i,
        {
            if let Some(l) = self.labels[i] {
                insert_sorted(&mut out, l.0);
            }
            proof {
                assert forall|u: u32|
                    out@.contains(u) <==> exists|j: int|
                        0 <= j < i + 1 && self.label_view()[j] == Some(NetId(u)) by {
                    if exists|j: int| 0 <= j < i + 1 && self.label_view()[j] == Some(NetId(u)) {
                        let j = choose|j: int|
                            0 <= j < i + 1 && self.label_view()[j] == Some(NetId(u));
                        if j < i {
                        }
                    }
                }
            }
            i = i + 1;
        }
        out
    }

    /// The opens: one per net whose elements span several components.
    #[verifier::rlimit(40)]
    fn collect_opens(&self) -> (errors: Vec<LvsError>)
        requires
            self.wf(),
        ensures
            self.opens_ok(errors@),
    {
        let nets = self.labeled_net_ids();
        let mut errors: Vec<LvsError> = Vec::new();
        let mut k: usize = 0;
        while k < nets.len()
            invariant
                self.wf(),
                0 <= k <= nets@.len(),
                strictly_increasing(nets@),
                forall|u: u32|
                    nets@.contains(u) <==> exists|j: int|
                        0 <= j < self.size() && self.label_view()[j] == Some(NetId(u)),
                forall|a: int|
                    0 <= a < errors@.len() ==> #[trigger] errors@[a] is Open && self.is_open_report(
                        errors@[a]->Open_0,
                    ),
                forall|a: int, b: int|
                    0 <= a < b < errors@.len() ==> (#[trigger] errors@[a])->Open_0.net.0 < (
                    #[trigger] errors@[b])->Open_0.net.0,
                forall|a: int|
                    0 <= a < errors@.len() ==> exists|t: int|
                        0 <= t < k && nets@[t] == (#[trigger] errors@[a])->Open_0.net.0,
                forall|t: int|
                    0 <= t < k && self.split_net(#[trigger] nets@[t]) ==> exists|a: int|
                        0 <= a < errors@.len() && errors@[a]->Open_0.net.0 == nets@[t],
            decreases nets@.len() - k,
        {
            let u = nets[k];
            let roots = self.net_roots(u);
            proof {
                lemma_sorted_set_len_gt1(roots@, self.net_reps(u));
            }
            if roots.len() > 1 {
                let mut comps: Vec<Vec<u32>> = Vec::new();
                let mut c: usize = 0;
                while c < roots.len()
                    invariant
                        self.wf(),
                        is_sorted_set(roots@, self.net_reps(u)),
                        0 <= c <= roots@.len(),
                        comps@.len() == c,
                        forall|d: int|
                            0 <= d < c ==> (#[trigger] comps@[d])@ == self.spec_members(
                                roots@[d] as int,
                            ),
                    decreases roots@.len() - c,
                {
                    let r = roots[c];
                    proof {
                        assert(roots@.contains(r));
                        assert(self.net_reps(u).contains(r));
                        let i = choose|i: int|
                            0 <= i < self.size() && self.label_view()[i] == Some(NetId(u))
                                && self.rep(i) == r;
                        self.lemma_wf_facts();
                        assert(self.rep(i) == r);
                    }
                    let m = self.members_of(r);
                    comps.push(m);
                    c = c + 1;
                }
                let ghost before = errors@;
                let ghost comps_v = comps@;
                let o = LvsOpen { net: NetId(u), components: comps };
                proof {
                    assert(o.components@ == comps_v);
                    assert(is_sorted_set(roots@, self.net_reps(o.net.0)));
                    assert(self.is_open_report(o));
                }
                errors.push(LvsError::Open(o));
                proof {
                    assert forall|a: int, b: int|
                        0 <= a < b < errors@.len() implies (#[trigger] errors@[a])->Open_0.net.0 < (
                        #[trigger] errors@[b])->Open_0.net.0 by {
                        if b == errors@.len() - 1 {
                            assert(before[a] == errors@[a]);
                            let t = choose|t: int|
                                0 <= t < k && nets@[t] == (#[trigger] before[a])->Open_0.net.0;
                        }
                    }
                    assert forall|a: int| 0 <= a < errors@.len() implies exists|t: int|
                        0 <= t < k + 1 && nets@[t] == (#[trigger] errors@[a])->Open_0.net.0 by {
                        if a < before.len() {
                            assert(before[a] == errors@[a]);
                            let t = choose|t: int|
                                0 <= t < k && nets@[t] == (#[trigger] before[a])->Open_0.net.0;
                            assert(nets@[t] == errors@[a]->Open_0.net.0);
                        } else {
                            assert(nets@[k as int] == errors@[a]->Open_0.net.0);
                        }
                    }
                    assert forall|t: int|
                        0 <= t < k + 1 && self.split_net(#[trigger] nets@[t]) implies exists|a: int|
                        0 <= a < errors@.len() && errors@[a]->Open_0.net.0 == nets@[t] by {
                        if t < k {
                            let a = choose|a: int|
                                0 <= a < before.len() && before[a]->Open_0.net.0 == nets@[t];
                            assert(errors@[a] == before[a]);
                        } else {
                            assert(errors@[errors@.len() - 1]->Open_0.net.0 == nets@[t]);
                        }
                    }
                }
            } else {
                proof {
                    assert(!self.split_net(u));
                }
            }
            k = k + 1;
        }
        proof {
            assert forall|uu: u32| self.split_net(uu) implies exists|a: int|
                0 <= a < errors@.len() && (#[trigger] errors@[a])->Open_0.net.0 == uu by {
                let (x, y) = choose|x: u32, y: u32|
                    x != y && self.net_reps(uu).contains(x) && self.net_reps(uu).contains(y);
                let i = choose|i: int|
                    0 <= i < self.size() && self.label_view()[i] == Some(NetId(uu)) && self.rep(i)
                        == x;
                assert(nets@.contains(uu));
                let t = choose|t: int| 0 <= t < nets@.len() && nets@[t] == uu;
                assert(self.split_net(nets@[t]));
            }
            assert forall|uu: u32|
                (exists|a: int|
                    0 <= a < errors@.len() && (#[trigger] errors@[a])->Open_0.net.0 == uu) implies self.split_net(
                uu,
            ) by {
                let a = choose|a: int|
                    0 <= a < errors@.len() && (#[trigger] errors@[a])->Open_0.net.0 == uu;
                let o = errors@[a]->Open_0;
                assert(self.is_open_report(o));
                let rs = choose|rs: Seq<u32>|
                    {
                        &&& is_sorted_set(rs, self.net_reps(o.net.0))
                        &&& rs.len() > 1
                        &&& o.components@.len() == rs.len()
                        &&& forall|c: int|
                            0 <= c < rs.len() ==> (#[trigger] o.components@[c])@
                                == self.spec_members(rs[c] as int)
                    };
                lemma_sorted_set_len_gt1(rs, self.net_reps(uu));
            }
        }
        errors
    }

    /// The shorts: one per component holding two or more different labels.
    #[verifier::rlimit(40)]
    fn collect_shorts(&self) -> (errors: Vec<LvsError>)
        requires
            self.wf(),
        ensures
            self.shorts_ok(errors@),
    {
        let n = self.parent.len();
        let mut errors: Vec<LvsError> = Vec::new();
        let mut r: usize = 0;
        while r < n
            invariant
                self.wf(),
                n == self.size(),
                0 <= r <= n,
                forall|a: int|
                    0 <= a < errors@.len() ==> #[trigger] errors@[a] is Short && self.is_short_report(
                        errors@[a]->Short_0,
                    ),
                forall|a: int, b: int|
                    0 <= a < b < errors@.len() ==> (#[trigger] errors@[a])->Short_0.component < (
                    #[trigger] errors@[b])->Short_0.component,
                forall|a: int| 0 <= a < errors@.len() ==> (#[trigger] errors@[a])->Short_0.component < r,
                forall|rr: u32|
                    rr < r ==> (#[trigger] self.shorted_comp(rr as int) <==> exists|a: int|
                        0 <= a < errors@.len() && (#[trigger] errors@[a])->Short_0.component == rr),
            decreases n - r,
        {
            let rr = self.root_of(r as u32);
            let ghost before = errors@;
            let ghost pushed = false;
            if rr == r as u32 {
                let ids = self.comp_net_ids(rr);
                proof {
                    lemma_sorted_set_len_gt1(ids@, self.comp_nets(r as int));
                }
                if ids.len() > 1 {
                    let mut nets_in: Vec<NetId> = Vec::new();
                    let mut q: usize = 0;
                    while q < ids.len()
                        invariant
                            0 <= q <= ids@.len(),
                            nets_in@.len() == q,
                            forall|d: int| 0 <= d < q ==> (#[trigger] nets_in@[d]).0 == ids@[d],
                        decreases ids@.len() - q,
                    {
                        nets_in.push(NetId(ids[q]));
                        q = q + 1;
                    }
                    proof {
                        assert(nets_in@.map_values(|x: NetId| x.0) =~= ids@);
                    }
                    let sh = LvsShort { nets: nets_in, component: rr };
                    proof {
                        assert(self.is_short_report(sh));
                    }
                    errors.push(LvsError::Short(sh));
                    proof {
                        pushed = true;
                        assert(self.shorted_comp(r as int));
                    }
                } else {
                    proof {
                        assert(!self.shorted_comp(r as int));
                    }
                }
            } else {
                proof {
                    assert(!self.shorted_comp(r as int));
                }
            }
            proof {
                assert(pushed ==> errors@ == before.push(errors@[errors@.len() - 1]));
                assert(!pushed ==> errors@ == before);
                assert(pushed ==> errors@[errors@.len() - 1]->Short_0.component == r);
                assert(pushed <==> self.shorted_comp(r as int));
                assert forall|a: int| 0 <= a < before.len() implies errors@[a] == before[a] by {}
                assert forall|rr2: u32|
                    rr2 < r + 1 implies (#[trigger] self.shorted_comp(rr2 as int) <==> exists|a: int|
                    0 <= a < errors@.len() && (#[trigger] errors@[a])->Short_0.component
                        == rr2) by {
                    if exists|a: int|
                        0 <= a < errors@.len() && (#[trigger] errors@[a])->Short_0.component == rr2 {
                        let a = choose|a: int|
                            0 <= a < errors@.len() && (#[trigger] errors@[a])->Short_0.component
                                == rr2;
                        if a < before.len() {
                            assert(before[a] == errors@[a]);
                        }
                    }
                    if self.shorted_comp(rr2 as int) && rr2 < r {
                        let a = choose|a: int|
                            0 <= a < before.len() && (#[trigger] before[a])->Short_0.component
                                == rr2;
                        assert(errors@[a] == before[a]);
                    }
                }
            }
            r = r + 1;
        }
        proof {
            assert forall|rr: u32| #[trigger] self.shorted_comp(rr as int) implies rr < n by {}
        }
        errors
    }

    /// Invariant check: for every net N, all elements labeled N must be in
    /// the same component, and no component may contain elements with
    /// different net labels. Returns the opens (by increasing net id), then
    /// the shorts (by increasing representative).
    pub fn invariant_check(&mut self) -> (errors: Vec<LvsError>)
        requires
            old(self).wf(),
        ensures
            final(self).wf(),
            final(self).same_view(*old(self)),
            old(self).spec_invariant_errors(errors@),
            final(self).spec_invariant_errors(errors@),
    {
        let mut errors = self.collect_opens();
        let mut shorts = self.collect_shorts();
        let ghost k = errors@.len() as int;
        let ghost os = errors@;
        let ghost ss = shorts@;
        errors.append(&mut shorts);
        proof {
            assert(errors@.subrange(0, k) =~= os);
            assert(errors@.subrange(k, errors@.len() as int) =~= ss);
            assert(self.errors_split_at(errors@, k));
        }
        errors
    }

    /// Number of distinct components.
    pub fn component_count(&self) -> (c: u32)
        requires
            self.wf(),
        ensures
            c == self.num_components(),
    {
        self.count
    }
}

} // verus!
