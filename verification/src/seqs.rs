//! Sequence helpers shared by the connectivity and netlist modules: index
//! filters and sorted, duplicate-free vectors used as ordered sets.
use vstd::prelude::*;

verus! {

/// The indices `0 <= i < n` satisfying `p`, in increasing order.
pub open spec fn index_filter(n: int, p: spec_fn(int) -> bool) -> Seq<u32>
    decreases n,
{
    if n <= 0 {
        Seq::empty()
    } else if p(n - 1) {
        index_filter(n - 1, p).push((n - 1) as u32)
    } else {
        index_filter(n - 1, p)
    }
}

/// Every element of `s` is smaller than the next one.
pub open spec fn strictly_increasing(s: Seq<u32>) -> bool {
    forall|a: int, b: int| 0 <= a < b < s.len() ==> s[a] < s[b]
}

/// `s` lists the members of `st` in strictly increasing order, each once.
pub open spec fn is_sorted_set(s: Seq<u32>, st: Set<u32>) -> bool {
    &&& strictly_increasing(s)
    &&& forall|x: u32| s.contains(x) <==> st.contains(x)
}

/// A sorted listing of a set is unique.
pub proof fn lemma_sorted_set_unique(s1: Seq<u32>, s2: Seq<u32>, st: Set<u32>)
    requires
        is_sorted_set(s1, st),
        is_sorted_set(s2, st),
    ensures
        s1 == s2,
    decreases s1.len() + s2.len(),
{
    if s1.len() == 0 {
        if s2.len() > 0 {
            assert(s2.contains(s2[0]));
            assert(!s1.contains(s2[0]));
        }
        assert(s1 =~= s2);
    } else if s2.len() == 0 {
        assert(s1.contains(s1[0]));
        assert(!s2.contains(s1[0]));
    } else {
        let m1 = s1.last();
        let m2 = s2.last();
        assert(s1.contains(m1));
        assert(s2.contains(m2));
        let k1 = choose|k: int| 0 <= k < s1.len() && s1[k] == m2;
        let k2 = choose|k: int| 0 <= k < s2.len() && s2[k] == m1;
        assert(m1 == m2);
        let st2 = st.remove(m1);
        let t1 = s1.drop_last();
        let t2 = s2.drop_last();
        assert forall|x: u32| t1.contains(x) <==> st2.contains(x) by {
            if t1.contains(x) {
                let k = choose|k: int| 0 <= k < t1.len() && t1[k] == x;
                assert(s1[k] == x);
                assert(s1.contains(x));
            }
            if st2.contains(x) {
                assert(s1.contains(x));
                let k = choose|k: int| 0 <= k < s1.len() && s1[k] == x;
                assert(k != s1.len() - 1);
                assert(t1[k] == x);
            }
        }
        assert forall|x: u32| t2.contains(x) <==> st2.contains(x) by {
            if t2.contains(x) {
                let k = choose|k: int| 0 <= k < t2.len() && t2[k] == x;
                assert(s2[k] == x);
                assert(s2.contains(x));
            }
            if st2.contains(x) {
                assert(s2.contains(x));
                let k = choose|k: int| 0 <= k < s2.len() && s2[k] == x;
                assert(k != s2.len() - 1);
                assert(t2[k] == x);
            }
        }
        lemma_sorted_set_unique(t1, t2, st2);
        assert(s1 =~= t1.push(m1));
        assert(s2 =~= t2.push(m2));
    }
}

/// A sorted listing has more than one element exactly when the set holds two
/// distinct members.
pub proof fn lemma_sorted_set_len_gt1(s: Seq<u32>, st: Set<u32>)
    requires
        is_sorted_set(s, st),
    ensures
        s.len() > 1 <==> exists|a: u32, b: u32| a != b && st.contains(a) && st.contains(b),
{
    if s.len() > 1 {
        assert(s.contains(s[0]));
        assert(s.contains(s[1]));
        assert(st.contains(s[0]) && st.contains(s[1]) && s[0] != s[1]);
    }
    if exists|a: u32, b: u32| a != b && st.contains(a) && st.contains(b) {
        let (a, b) = choose|a: u32, b: u32| a != b && st.contains(a) && st.contains(b);
        assert(s.contains(a));
        assert(s.contains(b));
        let ka = choose|k: int| 0 <= k < s.len() && s[k] == a;
        let kb = choose|k: int| 0 <= k < s.len() && s[k] == b;
        assert(ka != kb);
    }
}

/// Insert `x` into a strictly increasing vector, keeping it strictly increasing
/// and free of duplicates.
pub fn insert_sorted(v: &mut Vec<u32>, x: u32)
    requires
        strictly_increasing(old(v)@),
    ensures
        strictly_increasing(final(v)@),
        forall|y: u32| final(v)@.contains(y) <==> (old(v)@.contains(y) || y == x),
        final(v)@.len() <= old(v)@.len() + 1,
{
    let mut p: usize = 0;
    while p < v.len() && v[p] < x
        invariant
            0 <= p <= v.len(),
            forall|k: int| 0 <= k < p ==> v@[k] < x,
        decreases v.len() - p,
    {
        p = p + 1;
    }
    if p < v.len() && v[p] == x {
        proof {
            assert(v@[p as int] == x);
            assert(v@.contains(x));
        }
        return;
    }
    let ghost old_v = v@;
    v.insert(p, x);
    proof {
        assert(v@ =~= old_v.subrange(0, p as int).push(x) + old_v.subrange(p as int, old_v.len() as int));
        assert forall|a: int, b: int| 0 <= a < b < v@.len() implies v@[a] < v@[b] by {
            if b < p {
            } else if b == p {
            } else if a < p {
                assert(old_v[a] < x);
                assert(old_v[b - 1] > x);
            } else if a == p {
                assert(old_v[b - 1] > x);
            } else {
                assert(old_v[a - 1] < old_v[b - 1]);
            }
        }
        assert forall|y: u32| v@.contains(y) <==> (old_v.contains(y) || y == x) by {
            if v@.contains(y) {
                let k = choose|k: int| 0 <= k < v@.len() && v@[k] == y;
                if k < p {
                    assert(old_v[k] == y);
                } else if k > p {
                    assert(old_v[k - 1] == y);
                }
            }
            if old_v.contains(y) {
                let k = choose|k: int| 0 <= k < old_v.len() && old_v[k] == y;
                if k < p {
                    assert(v@[k] == y);
                } else {
                    assert(v@[k + 1] == y);
                }
            }
            if y == x {
                assert(v@[p as int] == x);
            }
        }
    }
}

} // verus!
