use vstd::prelude::*;

use crate::element::Element;

verus! {

/// The sub-elements of the elements listed in `s`, one list after the other.
pub open spec fn children_concat(els: Seq<Element>, s: Seq<usize>) -> Seq<usize>
    decreases s.len(),
{
    if s.len() == 0 {
        seq![]
    } else {
        children_concat(els, s.drop_last()) + els[s.last() as int].elements@
    }
}

/// Whether the elements form a tree under the root (the shape the laws of layout are stated
/// for, and that `ElementSet::is_well_formed` checks): the element at each position holds that
/// position as its index, every sub-element reference is a position of the
/// set, no element is listed as a sub-element twice (by one element or by two), and the root
/// (position 0) is no element's sub-element.
pub open spec fn tree_wf(els: Seq<Element>) -> bool {
    &&& els.len() >= 1
    &&& forall|i: int| 0 <= i < els.len() ==> (#[trigger] els[i]).index == i
    &&& forall|i: int, j: int|
        0 <= i < els.len() && 0 <= j < els[i].elements@.len() ==> 0 < #[trigger] els[i].elements@[j] < els.len()
    &&& unique_parents(els)
}

/// Whether `ro` is the breadth-first order of the elements reachable from the root (index 0):
/// it starts at the root and lists after it the sub-elements of each listed element in turn,
/// and each listed element other than the root is a sub-element of an element listed before it.
pub open spec fn is_render_order(els: Seq<Element>, ro: Seq<usize>) -> bool {
    &&& ro.len() >= 1
    &&& forall|k: int| 0 <= k < ro.len() ==> #[trigger] ro[k] < els.len()
    &&& ro == seq![0usize] + children_concat(els, ro)
    &&& forall|k: int| 0 < k < ro.len() ==> #[trigger] children_concat(els, ro.take(k)).len() >= k
}

/// A list of distinct numbers below `n` has at most `n` entries.
pub proof fn lemma_distinct_below(s: Seq<usize>, n: nat)
    requires
        s.no_duplicates(),
        forall|k: int| 0 <= k < s.len() ==> (#[trigger] s[k] as int) < n,
    ensures
        s.len() <= n,
    decreases n,
{
    if s.len() > 0 {
        if n == 0 {
            assert(s[0] < n);
        } else if s.contains((n - 1) as usize) {
            let p = choose|p: int| 0 <= p < s.len() && s[p] == (n - 1) as usize;
            let t = s.remove(p);
            assert forall|k: int| 0 <= k < t.len() implies (#[trigger] t[k] as int) < n - 1 by {
                if k < p {
                    assert(t[k] == s[k]);
                } else {
                    assert(t[k] == s[k + 1]);
                }
            }
            assert(t.no_duplicates()) by {
                assert forall|a: int, b: int| 0 <= a < t.len() && 0 <= b < t.len() && a != b implies t[a] != t[b] by {
                    let a0 = if a < p { a } else { a + 1 };
                    let b0 = if b < p { b } else { b + 1 };
                    assert(t[a] == s[a0] && t[b] == s[b0]);
                }
            }
            lemma_distinct_below(t, (n - 1) as nat);
        } else {
            assert forall|k: int| 0 <= k < s.len() implies (#[trigger] s[k] as int) < n - 1 by {
                if s[k] as int == n - 1 {
                    assert(s.contains((n - 1) as usize));
                }
            }
            lemma_distinct_below(s, (n - 1) as nat);
        }
    }
}

pub proof fn lemma_children_concat_add(els: Seq<Element>, a: Seq<usize>, b: Seq<usize>)
    ensures
        children_concat(els, a + b) == children_concat(els, a) + children_concat(els, b),
    decreases b.len(),
{
    if b.len() == 0 {
        assert(a + b =~= a);
        assert(children_concat(els, a) + children_concat(els, b) =~= children_concat(els, a));
    } else {
        assert((a + b).drop_last() =~= a + b.drop_last());
        lemma_children_concat_add(els, a, b.drop_last());
        assert(children_concat(els, a + b) =~= children_concat(els, a) + children_concat(els, b));
    }
}

proof fn lemma_render_order_prefix(els: Seq<Element>, a: Seq<usize>, b: Seq<usize>, k: int)
    requires
        is_render_order(els, a),
        is_render_order(els, b),
        1 <= k <= a.len(),
        k <= b.len(),
    ensures
        a.take(k) == b.take(k),
    decreases k,
{
    if k == 1 {
        assert(a[0] == 0);
        assert(b[0] == 0);
        assert(a.take(1) =~= b.take(1));
    } else {
        lemma_render_order_prefix(els, a, b, k - 1);
        let j = k - 1;
        // a[j] is the (j-1)-th sub-element listed by the elements before position j.
        assert(a =~= a.take(j) + a.skip(j));
        assert(b =~= b.take(j) + b.skip(j));
        lemma_children_concat_add(els, a.take(j), a.skip(j));
        lemma_children_concat_add(els, b.take(j), b.skip(j));
        assert(children_concat(els, a.take(j)).len() >= j);
        assert(children_concat(els, b.take(j)).len() >= j);
        assert(a[j] == children_concat(els, a)[j - 1]);
        assert(b[j] == children_concat(els, b)[j - 1]);
        assert(a[j] == children_concat(els, a.take(j))[j - 1]);
        assert(b[j] == children_concat(els, b.take(j))[j - 1]);
        assert(a.take(k) =~= a.take(j).push(a[j]));
        assert(b.take(k) =~= b.take(j).push(b[j]));
    }
}

/// Whether the walk from the root ends: there is a breadth-first order of what the root reaches.
/// That is so when every sub-element reference the walk meets is a position of the set and no
/// path from the root comes back to an element on it; an element listed by several frames is
/// walked once for each path to it.
pub open spec fn walk_ends(els: Seq<Element>) -> bool {
    exists|ro: Seq<usize>| is_render_order(els, ro)
}

/// A point of the breadth-first walk: the elements `p` taken so far, and the queue `q` of those
/// still to take (the root, then the sub-elements of each taken element, in turn).
pub open spec fn walk_state(els: Seq<Element>, p: Seq<usize>, q: Seq<usize>) -> bool {
    &&& p + q == seq![0usize] + children_concat(els, p)
    &&& forall|k: int| 0 < k < p.len() ==> #[trigger] children_concat(els, p.take(k)).len() >= k
    &&& forall|k: int| 0 < k <= p.len() && q.len() > 0 ==> #[trigger] children_concat(els, p.take(k)).len() >= k
}

proof fn lemma_walk_prefix_agree(els: Seq<Element>, p: Seq<usize>, q: Seq<usize>, r: Seq<usize>, k: int)
    requires
        walk_state(els, p, q),
        is_render_order(els, r),
        0 <= k <= p.len(),
        k <= r.len(),
    ensures
        p.take(k) == r.take(k),
    decreases k,
{
    if k == 0 {
        assert(p.take(0) =~= r.take(0));
    } else if k == 1 {
        assert((p + q)[0] == 0usize);
        assert(p[0] == (p + q)[0]);
        assert(r[0] == 0);
        assert(p.take(1) =~= r.take(1));
    } else {
        lemma_walk_prefix_agree(els, p, q, r, k - 1);
        let j = k - 1;
        assert(p =~= p.take(j) + p.skip(j));
        assert(r =~= r.take(j) + r.skip(j));
        lemma_children_concat_add(els, p.take(j), p.skip(j));
        lemma_children_concat_add(els, r.take(j), r.skip(j));
        assert(children_concat(els, p.take(j)).len() >= j);
        assert(children_concat(els, r.take(j)).len() >= j);
        assert(p[j] == (p + q)[j]);
        assert(p[j] == children_concat(els, p)[j - 1]);
        assert(r[j] == children_concat(els, r)[j - 1]);
        assert(p[j] == children_concat(els, p.take(j))[j - 1]);
        assert(r[j] == children_concat(els, r.take(j))[j - 1]);
        assert(p.take(k) =~= p.take(j).push(p[j]));
        assert(r.take(k) =~= r.take(j).push(r[j]));
    }
}

/// A point of the walk is a start of the breadth-first order: what was taken is a prefix of
/// it, and while the queue is not empty, its front is the next element of the order.
pub proof fn lemma_walk_prefix(els: Seq<Element>, p: Seq<usize>, q: Seq<usize>, r: Seq<usize>)
    requires
        walk_state(els, p, q),
        is_render_order(els, r),
    ensures
        p.len() <= r.len(),
        p == r.take(p.len() as int),
        q.len() > 0 ==> p.len() < r.len() && q[0] == r[p.len() as int],
        q.len() == 0 ==> p == r,
{
    if r.len() < p.len() {
        let m = r.len() as int;
        lemma_walk_prefix_agree(els, p, q, r, m);
        assert(r.take(m) =~= r);
        assert(children_concat(els, p.take(m)).len() >= m);
        assert(r.len() == 1 + children_concat(els, r).len());
    }
    let m = p.len() as int;
    lemma_walk_prefix_agree(els, p, q, r, m);
    assert(p.take(m) =~= p);
    if q.len() == 0 && m < r.len() {
        assert(p + q =~= p);
        assert(m >= 1);
        assert(children_concat(els, r.take(m)).len() >= m);
    }
    if q.len() > 0 {
        if m == r.len() {
            assert(r.take(m) =~= r);
            assert((p + q).len() == 1 + children_concat(els, p).len());
            assert(r.len() == 1 + children_concat(els, r).len());
        }
        if m == 0 {
            assert((p + q)[0] == 0usize);
            assert(q[0] == (p + q)[0]);
        } else {
            assert(q[0] == (p + q)[m]);
            assert(q[0] == children_concat(els, p)[m - 1]);
            assert(r =~= r.take(m) + r.skip(m));
            lemma_children_concat_add(els, r.take(m), r.skip(m));
            assert(children_concat(els, p.take(m)).len() >= m);
            assert(r[m] == children_concat(els, r)[m - 1]);
        }
    }
}

/// One step of the walk: the front of the queue is taken, and its sub-elements join the back.
pub proof fn lemma_walk_step(els: Seq<Element>, p: Seq<usize>, q: Seq<usize>)
    requires
        walk_state(els, p, q),
        q.len() > 0,
    ensures
        walk_state(els, p.push(q[0]), q.drop_first() + els[q[0] as int].elements@),
{
    let next = q[0];
    let ch = els[next as int].elements@;
    let p2 = p.push(next);
    let q2 = q.drop_first() + ch;
    assert(p2.drop_last() =~= p);
    assert(children_concat(els, p2) =~= children_concat(els, p) + ch);
    assert(q =~= seq![next] + q.drop_first());
    assert(p2 + q2 =~= (p + q) + ch);
    assert(p2 + q2 =~= seq![0usize] + children_concat(els, p2));
    assert forall|k: int| 0 < k < p2.len() implies #[trigger] children_concat(els, p2.take(k)).len() >= k by {
        assert(p2.take(k) =~= p.take(k));
        if k == p.len() {
            assert(p.take(k) =~= p);
        }
    }
    assert forall|k: int| 0 < k <= p2.len() && q2.len() > 0 implies #[trigger] children_concat(els, p2.take(k)).len() >= k by {
        if k == p2.len() {
            assert(p2.take(k) =~= p2);
        } else {
            assert(p2.take(k) =~= p.take(k));
            if k == p.len() {
                assert(p.take(k) =~= p);
            }
        }
    }
}

/// In a tree, a step of the walk keeps what was taken and what is queued free of repeats.
proof fn lemma_tree_walk_step_distinct(els: Seq<Element>, p: Seq<usize>, q: Seq<usize>)
    requires
        tree_wf(els),
        walk_state(els, p, q),
        q.len() > 0,
        forall|k: int| 0 <= k < (p + q).len() ==> (#[trigger] (p + q)[k] as int) < els.len(),
        (p + q).no_duplicates(),
    ensures
        (p.push(q[0]) + (q.drop_first() + els[q[0] as int].elements@)).no_duplicates(),
{
    let next = q[0];
    let ch = els[next as int].elements@;
    let all = p.push(next) + (q.drop_first() + ch);
    let old_all = p + q;
    assert(all =~= old_all + ch);
    assert(old_all[p.len() as int] == next);
    assert forall|a: int, b: int| 0 <= a < all.len() && 0 <= b < all.len() && a != b implies all[a] != all[b] by {
        let m = old_all.len();
        if a < m && b < m {
            assert(all[a] == old_all[a] && all[b] == old_all[b]);
        } else if a >= m && b >= m {
            assert(all[a] == ch[a - m] && all[b] == ch[b - m]);
        } else {
            let (x, y) = if a < m { (a, b) } else { (b, a) };
            let c = all[y];
            assert(c == ch[y - m]);
            assert(all[x] == old_all[x]);
            if old_all[x] == c {
                assert(c > 0);
                if x == 0 {
                    assert(old_all[0] == 0usize);
                } else {
                    assert(old_all[x] == children_concat(els, p)[x - 1]);
                    let pj = lemma_concat_index(els, p, x - 1);
                    assert(p[pj.0] == (p + q)[pj.0]);
                    assert(((p + q)[pj.0] as int) < els.len());
                    assert(((p + q)[p.len() as int] as int) < els.len());
                    assert(els[p[pj.0] as int].elements@[pj.1] == ch[y - m]);
                    assert(p[pj.0] == next);
                    assert(old_all[pj.0] == p[pj.0]);
                    assert(pj.0 != p.len());
                }
            }
        }
    }
}

proof fn lemma_tree_walk_from(els: Seq<Element>, p: Seq<usize>, q: Seq<usize>)
    requires
        tree_wf(els),
        walk_state(els, p, q),
        (p + q).no_duplicates(),
        forall|k: int| 0 <= k < (p + q).len() ==> (#[trigger] (p + q)[k] as int) < els.len(),
    ensures
        walk_ends(els),
    decreases els.len() - p.len(),
{
    lemma_distinct_below(p + q, els.len());
    if q.len() == 0 {
        assert(p + q =~= p);
        assert(is_render_order(els, p));
    } else {
        let next = q[0];
        assert((p + q)[p.len() as int] == next);
        let p2 = p.push(next);
        let q2 = q.drop_first() + els[next as int].elements@;
        lemma_walk_step(els, p, q);
        lemma_tree_walk_step_distinct(els, p, q);
        assert forall|k: int| 0 <= k < (p2 + q2).len() implies (#[trigger] (p2 + q2)[k] as int) < els.len() by {
            assert(p2 + q2 =~= (p + q) + els[next as int].elements@);
            if k >= (p + q).len() {
                let j = k - (p + q).len();
                assert((p2 + q2)[k] == els[next as int].elements@[j]);
            } else {
                assert((p2 + q2)[k] == (p + q)[k]);
            }
        }
        lemma_tree_walk_from(els, p2, q2);
    }
}

/// In a tree the walk from the root ends.
pub proof fn lemma_tree_walk_ends(els: Seq<Element>)
    requires
        tree_wf(els),
    ensures
        walk_ends(els),
{
    let p = Seq::<usize>::empty();
    let q = seq![0usize];
    assert(p + q =~= seq![0usize] + children_concat(els, p));
    assert((p + q).no_duplicates()) by {
        assert(p + q =~= seq![0usize]);
    }
    assert forall|k: int| 0 <= k < (p + q).len() implies (#[trigger] (p + q)[k] as int) < els.len() by {
        assert(p + q =~= seq![0usize]);
    }
    lemma_tree_walk_from(els, p, q);
}

/// In a render order, every sub-element of a listed element is listed after it.
pub proof fn lemma_children_listed_later(els: Seq<Element>, ro: Seq<usize>, k: int, j: int) -> (p: int)
    requires
        is_render_order(els, ro),
        0 <= k < ro.len(),
        0 <= j < els[ro[k] as int].elements@.len(),
    ensures
        k < p < ro.len(),
        ro[p] == els[ro[k] as int].elements@[j],
{
    let ch = els[ro[k] as int].elements@;
    assert(ro =~= ro.take(k + 1) + ro.skip(k + 1));
    lemma_children_concat_add(els, ro.take(k + 1), ro.skip(k + 1));
    assert(ro.take(k + 1).drop_last() =~= ro.take(k));
    assert(children_concat(els, ro.take(k + 1)) == children_concat(els, ro.take(k)) + ch);
    if k == 0 {
        assert(ro.take(0) =~= Seq::<usize>::empty());
    } else {
        assert(children_concat(els, ro.take(k)).len() >= k);
    }
    let q = children_concat(els, ro.take(k)).len() + j;
    assert(children_concat(els, ro)[q] == ch[j]);
    assert(ro[1 + q] == children_concat(els, ro)[q]);
    1 + q
}

/// Every sub-element of an element that a render order lists is a position of the set.
pub proof fn lemma_render_order_children_in_range(els: Seq<Element>, ro: Seq<usize>)
    requires
        is_render_order(els, ro),
    ensures
        forall|k: int, j: int|
            0 <= k < ro.len() && 0 <= j < els[ro[k] as int].elements@.len() ==> #[trigger] els[ro[k] as int].elements@[j] < els.len(),
{
    assert forall|k: int, j: int|
        0 <= k < ro.len() && 0 <= j < els[ro[k] as int].elements@.len() implies #[trigger] els[ro[k] as int].elements@[j] < els.len() by {
        let p = lemma_children_listed_later(els, ro, k, j);
    }
}

/// Whether each element is a sub-element of at most one element, and at most once: the
/// elements form a tree (or several).
pub open spec fn unique_parents(els: Seq<Element>) -> bool {
    forall|i1: int, j1: int, i2: int, j2: int|
        0 <= i1 < els.len() && 0 <= i2 < els.len() && 0 <= j1 < els[i1].elements@.len() && 0 <= j2
            < els[i2].elements@.len() && #[trigger] els[i1].elements@[j1] == #[trigger] els[i2].elements@[j2]
            ==> i1 == i2 && j1 == j2
}

/// Where an entry of `children_concat` comes from: the element of `s` that lists it and its
/// place in that element's list.
pub proof fn lemma_concat_index(els: Seq<Element>, s: Seq<usize>, t: int) -> (pj: (int, int))
    requires
        0 <= t < children_concat(els, s).len(),
    ensures
        0 <= pj.0 < s.len(),
        0 <= pj.1 < els[s[pj.0] as int].elements@.len(),
        t == children_concat(els, s.take(pj.0)).len() + pj.1,
        children_concat(els, s)[t] == els[s[pj.0] as int].elements@[pj.1],
    decreases s.len(),
{
    let front = s.drop_last();
    let n = children_concat(els, front).len();
    if t < n {
        let pj = lemma_concat_index(els, front, t);
        assert(front.take(pj.0) =~= s.take(pj.0));
        assert(front[pj.0] == s[pj.0]);
        pj
    } else {
        assert(s.take(s.len() - 1) =~= front);
        assert(s.last() == s[s.len() - 1]);
        (s.len() - 1, t - n)
    }
}

/// Each element in a render order other than the root is a sub-element of an element listed
/// before it.
pub proof fn lemma_parent_position(els: Seq<Element>, ro: Seq<usize>, q: int) -> (pj: (int, int))
    requires
        is_render_order(els, ro),
        1 <= q < ro.len(),
    ensures
        0 <= pj.0 < q,
        0 <= pj.1 < els[ro[pj.0] as int].elements@.len(),
        ro[q] == els[ro[pj.0] as int].elements@[pj.1],
        q == 1 + children_concat(els, ro.take(pj.0)).len() + pj.1,
{
    assert(ro[q] == children_concat(els, ro)[q - 1]);
    let pj = lemma_concat_index(els, ro, q - 1);
    if pj.0 >= q {
        assert(0 < pj.0 < ro.len());
        assert(children_concat(els, ro.take(pj.0)).len() >= pj.0);
    }
    pj
}

proof fn lemma_no_repeat_pair(els: Seq<Element>, ro: Seq<usize>, a: int, b: int)
    requires
        tree_wf(els),
        unique_parents(els),
        is_render_order(els, ro),
        0 <= a < b < ro.len(),
    ensures
        ro[a] != ro[b],
    decreases b,
{
    let pb = lemma_parent_position(els, ro, b);
    assert(ro[pb.0] < els.len());
    assert(ro[b] > 0);
    if a > 0 {
        let pa = lemma_parent_position(els, ro, a);
        assert(ro[pa.0] < els.len());
        if ro[a] == ro[b] {
            assert(ro[pa.0] == ro[pb.0] && pa.1 == pb.1);
            if pa.0 < pb.0 {
                lemma_no_repeat_pair(els, ro, pa.0, pb.0);
            } else if pb.0 < pa.0 {
                lemma_no_repeat_pair(els, ro, pb.0, pa.0);
            }
        }
    } else {
        assert(ro[0] == 0);
    }
}

/// When the elements form a tree, the render order lists each element at most once.
pub proof fn lemma_render_order_distinct(els: Seq<Element>, ro: Seq<usize>)
    requires
        tree_wf(els),
        unique_parents(els),
        is_render_order(els, ro),
    ensures
        forall|a: int, b: int| 0 <= a < b < ro.len() ==> #[trigger] ro[a] != #[trigger] ro[b],
{
    assert forall|a: int, b: int| 0 <= a < b < ro.len() implies #[trigger] ro[a] != #[trigger] ro[b] by {
        lemma_no_repeat_pair(els, ro, a, b);
    }
}

/// There is only one render order for a set of elements: the breadth-first order is
/// determined by the elements alone.
pub proof fn lemma_render_order_unique(els: Seq<Element>, a: Seq<usize>, b: Seq<usize>)
    requires
        is_render_order(els, a),
        is_render_order(els, b),
    ensures
        a == b,
{
    if a.len() < b.len() {
        lemma_render_order_prefix(els, a, b, a.len() as int);
        assert(a.take(a.len() as int) =~= a);
        let k = a.len() as int;
        assert(children_concat(els, b.take(k)).len() >= k);
        assert(a.len() == 1 + children_concat(els, a).len());
    } else if b.len() < a.len() {
        lemma_render_order_prefix(els, b, a, b.len() as int);
        assert(b.take(b.len() as int) =~= b);
        let k = b.len() as int;
        assert(children_concat(els, a.take(k)).len() >= k);
        assert(b.len() == 1 + children_concat(els, b).len());
    } else {
        lemma_render_order_prefix(els, a, b, a.len() as int);
        assert(a.take(a.len() as int) =~= a);
        assert(b.take(b.len() as int) =~= b);
    }
}

} // verus!
