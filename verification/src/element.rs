use vstd::prelude::*;

use std::collections::HashMap;
use std::collections::VecDeque;

use crate::arrange::{arrange_fits, arranged, lemma_arrange_spec_len, lemma_arranged_len};
use crate::draw::DrawOp;
use crate::layout::Layout;
use crate::measure::{lemma_measured_fixpoint, lemma_measured_len, measure_fits, measure_spec, measured_from, sub_measures};
use crate::order::{
    children_concat, is_render_order, lemma_children_listed_later, lemma_render_order_children_in_range,
    lemma_tree_walk_ends, lemma_walk_prefix, lemma_walk_step, tree_wf, unique_parents, walk_ends, walk_state,
};
use crate::render::{render_step_fits, rendered};
use crate::render_box::RenderBox;
use crate::style::{Font, Style};
use crate::tag::Tag;
use crate::vld::MeasureContext;
use crate::vec2::Vec2i;

verus! {

/// One element of the interface: what it is, its sub-elements (by index), its style and how
/// it arranges its sub-elements.
#[derive(Debug)]
pub struct Element {
    pub index: usize,
    pub tag: Tag,
    pub elements: Vec<usize>,
    pub style: Style,
    pub layout: Layout,
}

// Boxes here are just relative to the element and are not adjusted during arrangement
// They are purely for reference while arranging the element's contents
/// Where an element is and how large it is.
#[derive(Debug, Clone, Copy)]
pub struct ElementMeasure {
    pub position: Vec2i,
    // Size of the box containing the entire element
    pub size: Vec2i,
    // Box within the element that contains its contents
    pub inner_box: RenderBox,
}

impl ElementMeasure {
    /// The measure with every field zero.
    pub open spec fn zero_spec() -> ElementMeasure {
        ElementMeasure {
            position: Vec2i { x: 0, y: 0 },
            size: Vec2i { x: 0, y: 0 },
            inner_box: RenderBox { x: 0, y: 0, w: 0, h: 0 },
        }
    }
}

proof fn lemma_insert_to_multiset<A>(s: Seq<A>, p: int, e: A)
    requires
        0 <= p <= s.len(),
    ensures
        s.insert(p, e).to_multiset() == s.to_multiset().insert(e),
{
    broadcast use vstd::seq_lib::group_to_multiset_ensures;
    let t = s.insert(p, e);
    assert(t.remove(p) =~= s);
    assert(t[p] == e);
    assert(t.to_multiset().remove(e) == s.to_multiset());
    assert(t.to_multiset().count(e) > 0);
    assert(t.to_multiset() =~= s.to_multiset().insert(e));
}

/// Whether `after` is `before` reordered by `pi` (position `k` of `after` holds position
/// `pi[k]` of `before`, each position used once), keeping elements with equal indices in the
/// order they had before.
pub open spec fn stable_permutation(after: Seq<Element>, before: Seq<Element>, pi: Seq<int>) -> bool {
    &&& pi.len() == after.len()
    &&& after.len() == before.len()
    &&& forall|k: int| 0 <= k < after.len() ==> 0 <= #[trigger] pi[k] < before.len() && after[k] == before[pi[k]]
    &&& forall|a: int, b: int| 0 <= a < b < after.len() ==> #[trigger] pi[a] != #[trigger] pi[b]
    &&& forall|a: int, b: int|
        0 <= a < b < after.len() && (#[trigger] after[a]).index == (#[trigger] after[b]).index ==> pi[a] < pi[b]
}

/// One step of insertion sort keeps the permutation and its stability: the element at `i` moves
/// to `p`, after every element of the sorted prefix with an index no larger than its own.
#[verifier::spinoff_prover]
proof fn lemma_insertion_step(before: Seq<Element>, orig: Seq<Element>, pi0: Seq<int>, i: int, p: int)
    requires
        0 <= p <= i < before.len(),
        orig.len() == before.len(),
        pi0.len() == before.len(),
        forall|k: int| 0 <= k < before.len() ==> 0 <= #[trigger] pi0[k] < before.len() && before[k] == orig[pi0[k]],
        forall|a: int, b: int| 0 <= a < b < before.len() ==> #[trigger] pi0[a] != #[trigger] pi0[b],
        forall|k: int| 0 <= k < before.len() && k < i ==> #[trigger] pi0[k] < i,
        forall|k: int| 0 <= k < before.len() && k >= i ==> #[trigger] pi0[k] == k,
        forall|a: int, b: int|
            0 <= a < b < i && (#[trigger] before[a]).index == (#[trigger] before[b]).index ==> pi0[a] < pi0[b],
        forall|a: int, b: int| 0 <= a < b < i ==> (#[trigger] before[a]).index <= (#[trigger] before[b]).index,
        forall|q: int| p <= q < i ==> (#[trigger] before[q]).index > before[i].index,
        p > 0 ==> before[p - 1].index <= before[i].index,
    ensures
        ({
            let n = before.len();
            let cur = before.remove(i).insert(p, before[i]);
            let pi = pi0.remove(i).insert(p, i);
            &&& pi.len() == n
            &&& forall|k: int| 0 <= k < n ==> 0 <= #[trigger] pi[k] < n && cur[k] == orig[pi[k]]
            &&& forall|a: int, b: int| 0 <= a < b < n ==> #[trigger] pi[a] != #[trigger] pi[b]
            &&& forall|k: int| 0 <= k < n && k < i + 1 ==> #[trigger] pi[k] < i + 1
            &&& forall|k: int| 0 <= k < n && k >= i + 1 ==> #[trigger] pi[k] == k
            &&& forall|a: int, b: int|
                0 <= a < b < i + 1 && (#[trigger] cur[a]).index == (#[trigger] cur[b]).index ==> pi[a] < pi[b]
        }),
{
    let n = before.len();
    let e = before[i];
    let cur = before.remove(i).insert(p, e);
    let pi = pi0.remove(i).insert(p, i);
    assert(pi0[i] == i);
    assert forall|k: int| 0 <= k < n implies 0 <= #[trigger] pi[k] < n && cur[k] == orig[pi[k]] by {
        if k < p {
            assert(pi[k] == pi0[k] && cur[k] == before[k]);
        } else if k == p {
            assert(pi[k] == i && cur[k] == e);
        } else if k <= i {
            assert(pi[k] == pi0[k - 1] && cur[k] == before[k - 1]);
        } else {
            assert(pi[k] == pi0[k] && cur[k] == before[k]);
        }
    }
    assert forall|a: int, b: int| 0 <= a < b < n implies #[trigger] pi[a] != #[trigger] pi[b] by {
        let a0 = if a < p { a } else if a == p { i } else if a <= i { a - 1 } else { a };
        let b0 = if b < p { b } else if b == p { i } else if b <= i { b - 1 } else { b };
        assert(pi[a] == pi0[a0]);
        assert(pi[b] == pi0[b0]);
        assert(a0 != b0);
        if a0 < b0 {
            assert(pi0[a0] != pi0[b0]);
        } else {
            assert(pi0[b0] != pi0[a0]);
        }
    }
    assert forall|k: int| 0 <= k < n && k < i + 1 implies #[trigger] pi[k] < i + 1 by {
        if k < p {
            assert(pi[k] == pi0[k]);
        } else if k > p {
            assert(pi[k] == pi0[k - 1]);
        }
    }
    assert forall|k: int| 0 <= k < n && k >= i + 1 implies #[trigger] pi[k] == k by {
        assert(pi[k] == pi0[k]);
    }
    assert forall|a: int, b: int|
        0 <= a < b < i + 1 && (#[trigger] cur[a]).index == (#[trigger] cur[b]).index implies pi[a] < pi[b] by {
        if b < p {
            assert(cur[a] == before[a] && cur[b] == before[b]);
            assert(pi[a] == pi0[a] && pi[b] == pi0[b]);
        } else if b == p {
            assert(pi[b] == i);
            assert(pi[a] == pi0[a]);
        } else if a == p {
            assert(cur[a] == e);
            assert(cur[b] == before[b - 1]);
            assert(before[b - 1].index > e.index);
        } else if a < p {
            assert(cur[a] == before[a]);
            assert(cur[b] == before[b - 1]);
            assert(before[b - 1].index > e.index);
            if a < p - 1 {
                assert(before[a].index <= before[p - 1].index);
            }
            assert(before[a].index <= e.index);
        } else {
            assert(cur[a] == before[a - 1] && cur[b] == before[b - 1]);
            assert(pi[a] == pi0[a - 1] && pi[b] == pi0[b - 1]);
        }
    }
}

/// Whether the indices in `els` are distinct and each below the number of elements.
pub open spec fn dense_indices(els: Seq<Element>) -> bool {
    &&& forall|i: int| 0 <= i < els.len() ==> (#[trigger] els[i]).index < els.len()
    &&& forall|i: int, j: int| 0 <= i < j < els.len() ==> (#[trigger] els[i]).index != (#[trigger] els[j]).index
}

proof fn lemma_sorted_dense(s: Seq<Element>)
    requires
        dense_indices(s),
        forall|i: int, j: int| 0 <= i < j < s.len() ==> (#[trigger] s[i]).index <= (#[trigger] s[j]).index,
    ensures
        forall|i: int| 0 <= i < s.len() ==> (#[trigger] s[i]).index == i,
{
    assert forall|i: int| 0 <= i < s.len() implies (#[trigger] s[i]).index >= i by {
        lemma_sorted_dense_lower(s, i);
    }
    assert forall|i: int| 0 <= i < s.len() implies (#[trigger] s[i]).index <= i by {
        lemma_sorted_dense_upper(s, i);
    }
}

proof fn lemma_sorted_dense_lower(s: Seq<Element>, i: int)
    requires
        dense_indices(s),
        forall|a: int, b: int| 0 <= a < b < s.len() ==> (#[trigger] s[a]).index <= (#[trigger] s[b]).index,
        0 <= i < s.len(),
    ensures
        s[i].index >= i,
    decreases i,
{
    if i > 0 {
        lemma_sorted_dense_lower(s, i - 1);
        assert(s[i - 1].index <= s[i].index);
        assert(s[i - 1].index != s[i].index);
    }
}

proof fn lemma_sorted_dense_upper(s: Seq<Element>, i: int)
    requires
        dense_indices(s),
        forall|a: int, b: int| 0 <= a < b < s.len() ==> (#[trigger] s[a]).index <= (#[trigger] s[b]).index,
        0 <= i < s.len(),
    ensures
        s[i].index + (s.len() - 1 - i) <= s.len() - 1,
    decreases s.len() - i,
{
    if i < s.len() - 1 {
        lemma_sorted_dense_upper(s, i + 1);
        assert(s[i].index <= s[i + 1].index);
        assert(s[i].index != s[i + 1].index);
    }
}

/// Sorting a set in which the indices are distinct and each below the number of elements puts
/// each element at the position of its index.
pub proof fn lemma_sort_places_by_index(before: Seq<Element>, after: Seq<Element>)
    requires
        dense_indices(before),
        after.to_multiset() == before.to_multiset(),
        forall|i: int, j: int| 0 <= i < j < after.len() ==> (#[trigger] after[i]).index <= (#[trigger] after[j]).index,
    ensures
        after.len() == before.len(),
        forall|i: int| 0 <= i < after.len() ==> (#[trigger] after[i]).index == i,
{
    broadcast use vstd::seq_lib::group_to_multiset_ensures;
    assert(after.len() == after.to_multiset().len());
    assert(before.no_duplicates()) by {
        assert forall|i: int, j: int| 0 <= i < before.len() && 0 <= j < before.len() && i != j implies before[i] != before[j] by {
            if i < j {
                assert(before[i].index != before[j].index);
            } else {
                assert(before[j].index != before[i].index);
            }
        }
    }
    before.lemma_multiset_has_no_duplicates();
    after.lemma_multiset_has_no_duplicates_conv();
    assert forall|i: int| 0 <= i < after.len() implies (#[trigger] after[i]).index < after.len() by {
        assert(after.contains(after[i]));
        assert(after.to_multiset().count(after[i]) > 0);
        assert(before.contains(after[i]));
        let k = choose|k: int| 0 <= k < before.len() && before[k] == after[i];
        assert(before[k].index < before.len());
    }
    assert forall|i: int, j: int| 0 <= i < j < after.len() implies (#[trigger] after[i]).index != (#[trigger] after[j]).index by {
        assert(after[i] != after[j]);
        assert(after.contains(after[i]));
        assert(after.contains(after[j]));
        assert(after.to_multiset().count(after[i]) > 0);
        assert(after.to_multiset().count(after[j]) > 0);
        assert(before.contains(after[i]));
        assert(before.contains(after[j]));
        let a = choose|a: int| 0 <= a < before.len() && before[a] == after[i];
        let b = choose|b: int| 0 <= b < before.len() && before[b] == after[j];
        assert(a != b);
        if a < b {
            assert(before[a].index != before[b].index);
        } else {
            assert(before[b].index != before[a].index);
        }
    }
    lemma_sorted_dense(after);
}

/// Sorting a set whose indices are distinct and each below the number of elements, whose
/// sub-element references are indices of the set other than the root's (0), and in which no
/// index is referenced twice, gives a tree (`tree_wf`).
pub proof fn lemma_sort_gives_tree(before: Seq<Element>, after: Seq<Element>)
    requires
        before.len() >= 1,
        dense_indices(before),
        forall|i: int, j: int|
            0 <= i < before.len() && 0 <= j < before[i].elements@.len() ==> 0 < #[trigger] before[i].elements@[j] < before.len(),
        unique_parents(before),
        after.to_multiset() == before.to_multiset(),
        forall|i: int, j: int| 0 <= i < j < after.len() ==> (#[trigger] after[i]).index <= (#[trigger] after[j]).index,
    ensures
        tree_wf(after),
{
    broadcast use vstd::seq_lib::group_to_multiset_ensures;
    lemma_sort_places_by_index(before, after);
    assert forall|i: int| 0 <= i < after.len() implies exists|p: int| 0 <= p < before.len() && before[p] == #[trigger] after[i] by {
        assert(after.contains(after[i]));
        assert(after.to_multiset().count(after[i]) > 0);
        assert(before.contains(after[i]));
    }
    assert forall|i: int, j: int|
        0 <= i < after.len() && 0 <= j < after[i].elements@.len() implies 0 < #[trigger] after[i].elements@[j] < after.len() by {
        let p = choose|p: int| 0 <= p < before.len() && before[p] == after[i];
        assert(before[p].elements@[j] == after[i].elements@[j]);
    }
    assert forall|i1: int, j1: int, i2: int, j2: int|
        0 <= i1 < after.len() && 0 <= i2 < after.len() && 0 <= j1 < after[i1].elements@.len() && 0 <= j2
            < after[i2].elements@.len() && #[trigger] after[i1].elements@[j1] == #[trigger] after[i2].elements@[j2]
            implies i1 == i2 && j1 == j2 by {
        let p1 = choose|p: int| 0 <= p < before.len() && before[p] == after[i1];
        let p2 = choose|p: int| 0 <= p < before.len() && before[p] == after[i2];
        assert(before[p1].elements@[j1] == before[p2].elements@[j2]);
        assert(p1 == p2);
        assert(after[i1].index == i1 && after[i2].index == i2);
    }
}

/// Whether each element in the render order `ro` can be measured without overflow, given the
/// measures its sub-elements have at its turn and the text sizes `ts`.
pub open spec fn measurable(els: Seq<Element>, ro: Seq<usize>, ts: Seq<Vec2i>) -> bool {
    forall|k: int|
        0 <= k < ro.len() ==> {
            let i = #[trigger] ro[k] as int;
            measure_fits(els[i], sub_measures(els[i], measured_from(els, ts, ro, k + 1)), ts[i])
        }
}

/// The measures that measuring gives: the elements in the render order `ro` measured from the
/// last to the first (see `measured_from` and `lemma_measured_fixpoint`), zero for the others.
pub open spec fn measured(els: Seq<Element>, ro: Seq<usize>, ts: Seq<Vec2i>) -> Seq<ElementMeasure> {
    measured_from(els, ts, ro, 0)
}

/// Whether arranging, starting from `ms`, computes without overflow or division by zero at
/// each element of the render order `ro`.
pub open spec fn arrangeable(els: Seq<Element>, ro: Seq<usize>, ms: Seq<ElementMeasure>) -> bool {
    forall|k: int|
        0 <= k < ro.len() ==> {
            let i = #[trigger] ro[k] as int;
            let prev = arranged(els, ms, ro.take(k));
            arrange_fits(els[i], prev[i], prev)
        }
}

/// Whether rendering the render order `ro`, with measures `ms`, scroll offsets `sc` and offset
/// `offset`, stays within `i32` and finds a body in each scroll frame.
pub open spec fn renderable(els: Seq<Element>, ro: Seq<usize>, ms: Seq<ElementMeasure>, sc: Seq<i32>, offset: Vec2i) -> bool {
    forall|k: int|
        0 <= k < ro.len() ==> {
            let i = #[trigger] ro[k];
            let prev = rendered(els, ms, sc, offset, ro.take(k));
            render_step_fits(els[i as int], ms[i as int], offset, sc[i as int], i, prev.1)
        }
}

/// Whether `(a, b)`, the `b`-th sub-element reference of the element at position `a`, comes
/// before the `j`-th reference of the element at position `i` when the references are read in
/// order.
pub open spec fn pair_before(els: Seq<Element>, a: int, b: int, i: int, j: int) -> bool {
    &&& 0 <= a < els.len()
    &&& 0 <= b < els[a].elements@.len()
    &&& (a < i || (a == i && b < j))
}

/// The render order of `els` (there is at most one; see `lemma_render_order_unique`).
pub open spec fn render_order_of(els: Seq<Element>) -> Seq<usize> {
    choose|ro: Seq<usize>| is_render_order(els, ro)
}

/// Whether every element holds its position as its index.
pub open spec fn indices_are_positions(els: Seq<Element>) -> bool {
    forall|i: int| 0 <= i < els.len() ==> (#[trigger] els[i]).index == i
}

/// The indices of the elements in the order the walk from the root lists them (their positions
/// in `render_order_of`, each taken to the index of the element there).
pub open spec fn walk_order(els: Seq<Element>) -> Seq<usize> {
    render_order_of(els).map_values(|x: usize| els[x as int].index)
}

/// Where every element holds its position as its index, the walk order is the render order.
pub proof fn lemma_walk_order_positions(els: Seq<Element>)
    requires
        walk_ends(els),
        indices_are_positions(els),
    ensures
        walk_order(els) == render_order_of(els),
        is_render_order(els, walk_order(els)),
{
    let ro = render_order_of(els);
    assert(is_render_order(els, ro));
    assert(walk_order(els) =~= ro);
}

/// The elements of an interface, each at the position of its index once sorted, and the order
/// in which they are rendered.
pub struct ElementSet {
    elements: Vec<Element>,
    render_order: Vec<usize>,
    next_index: usize,
}

impl ElementSet {
    /// The elements, in their current order.
    pub closed spec fn elements_seq(&self) -> Seq<Element> {
        self.elements@
    }

    /// The indices of the elements in the order they are rendered (empty until computed).
    pub closed spec fn render_order_seq(&self) -> Seq<usize> {
        self.render_order@
    }

    /// The index that the next new element gets.
    pub closed spec fn next_index_spec(&self) -> usize {
        self.next_index
    }

    /// Whether `new` is `old` with one more element at the end, made of the given parts.
    pub open spec fn pushed(old: Seq<Element>, new: Seq<Element>, index: usize, tag: Tag, elements: Seq<usize>, style: Style, layout: Layout) -> bool {
        &&& new.len() == old.len() + 1
        &&& new.drop_last() == old
        &&& new.last().index == index
        &&& new.last().tag == tag
        &&& new.last().elements@ == elements
        &&& new.last().style == style
        &&& new.last().layout == layout
    }

    /// Whether `after` is `before` with elements added at the end, with indices handed out after
    /// `before`'s and before `after`'s next index, none twice: what building on a set does.
    pub open spec fn builds_on(before: ElementSet, after: ElementSet) -> bool {
        let a = before.elements_seq();
        let b = after.elements_seq();
        &&& before.next_index_spec() <= after.next_index_spec()
        &&& a.len() <= b.len()
        &&& b.take(a.len() as int) == a
        &&& forall|i: int|
            a.len() <= i < b.len() ==> before.next_index_spec() <= (#[trigger] b[i]).index < after.next_index_spec()
        &&& forall|i: int, j: int| a.len() <= i < j < b.len() ==> (#[trigger] b[i]).index != (#[trigger] b[j]).index
    }

    /// Whether the indices of the elements are distinct and each below the next index to hand out.
    pub open spec fn fresh_indices(s: ElementSet) -> bool {
        let e = s.elements_seq();
        &&& forall|i: int| 0 <= i < e.len() ==> (#[trigger] e[i]).index < s.next_index_spec()
        &&& forall|i: int, j: int| 0 <= i < j < e.len() ==> (#[trigger] e[i]).index != (#[trigger] e[j]).index
    }

    /// Building on a set whose indices are fresh keeps them fresh: distinct, and each below the
    /// next index to hand out.
    pub proof fn lemma_builds_on_fresh(before: ElementSet, after: ElementSet)
        requires
            Self::fresh_indices(before),
            Self::builds_on(before, after),
        ensures
            Self::fresh_indices(after),
    {
        let a = before.elements_seq();
        let b = after.elements_seq();
        assert forall|i: int| 0 <= i < a.len() implies #[trigger] b[i] == a[i] by {
            assert(b.take(a.len() as int)[i] == b[i]);
        }
        assert forall|i: int| 0 <= i < b.len() implies (#[trigger] b[i]).index < after.next_index_spec() by {
            if i < a.len() {
                assert(b[i] == a[i]);
            }
        }
        assert forall|i: int, j: int| 0 <= i < j < b.len() implies (#[trigger] b[i]).index != (#[trigger] b[j]).index by {
            if j < a.len() {
                assert(b[i] == a[i] && b[j] == a[j]);
            } else if i < a.len() {
                assert(b[i] == a[i]);
            }
        }
    }

    /// A set whose indices are fresh and which has used every index it handed out (as a set built
    /// by `new` from builders alone has) is, once sorted, a set in which each element sits at the
    /// position of its index.
    pub proof fn lemma_fresh_sorted_by_position(built: ElementSet, sorted: Seq<Element>)
        requires
            Self::fresh_indices(built),
            built.next_index_spec() == built.elements_seq().len(),
            sorted.to_multiset() == built.elements_seq().to_multiset(),
            forall|i: int, j: int| 0 <= i < j < sorted.len() ==> (#[trigger] sorted[i]).index <= (#[trigger] sorted[j]).index,
        ensures
            sorted.len() == built.elements_seq().len(),
            forall|i: int| 0 <= i < sorted.len() ==> (#[trigger] sorted[i]).index == i,
    {
        assert(dense_indices(built.elements_seq()));
        lemma_sort_places_by_index(built.elements_seq(), sorted);
    }

    /// A frame whose index `r` was handed out before its contents were built on the set, and
    /// which was then added at the end, builds on the set it started from, and comes before
    /// everything its contents added.
    proof fn lemma_frame_after_building(start: ElementSet, mid0: ElementSet, mid1: ElementSet, end: ElementSet, r: usize)
        requires
            r == start.next_index_spec(),
            r < usize::MAX,
            mid0.elements_seq() == start.elements_seq(),
            mid0.next_index_spec() == r + 1,
            end.next_index_spec() == mid1.next_index_spec(),
            end.elements_seq().len() == mid1.elements_seq().len() + 1,
            end.elements_seq().drop_last() == mid1.elements_seq(),
            end.elements_seq().last().index == r,
        ensures
            Self::builds_on(mid0, mid1) ==> {
                &&& Self::builds_on(start, end)
                &&& forall|i: int|
                    start.elements_seq().len() <= i < end.elements_seq().len() - 1
                        ==> (#[trigger] end.elements_seq()[i]).index > r
            },
    {
        if Self::builds_on(mid0, mid1) {
            let a = start.elements_seq();
            let m = mid1.elements_seq();
            let e = end.elements_seq();
            assert forall|i: int| 0 <= i < m.len() implies #[trigger] e[i] == m[i] by {
                assert(e.drop_last()[i] == e[i]);
            }
            assert(e.take(a.len() as int) =~= a) by {
                assert forall|i: int| 0 <= i < a.len() implies e.take(a.len() as int)[i] == a[i] by {
                    assert(m.take(a.len() as int)[i] == m[i]);
                }
            }
            assert forall|i: int| a.len() <= i < e.len() implies r <= (#[trigger] e[i]).index < end.next_index_spec() by {
                if i < m.len() {
                    assert(e[i] == m[i]);
                } else {
                    assert(e[i] == e.last());
                }
            }
            assert forall|i: int| a.len() <= i < e.len() - 1 implies (#[trigger] e[i]).index > r by {
                assert(e[i] == m[i]);
            }
            assert forall|i: int, j: int| a.len() <= i < j < e.len() implies (#[trigger] e[i]).index != (#[trigger] e[j]).index by {
                assert(e[i] == m[i]);
                if j < m.len() {
                    assert(e[j] == m[j]);
                } else {
                    assert(e[j] == e.last());
                }
            }
        }
    }

    /// A set built by `root` from an empty set: the set that one call of `root`, handed an
    /// empty set, leaves behind.
    pub fn new(mut root: impl FnMut(&mut ElementSet) -> usize) -> (s: Self)
        requires
            forall|x: &mut ElementSet| call_requires(root, (x,)),
        ensures
            exists|x: &mut ElementSet, r: usize|
                #![trigger call_ensures(root, (x,), r)]
                {
                    &&& call_ensures(root, (x,), r)
                    &&& mut_ref_current(x).elements_seq().len() == 0
                    &&& mut_ref_current(x).render_order_seq().len() == 0
                    &&& mut_ref_current(x).next_index_spec() == 0
                    &&& mut_ref_future(x) == s
                },
            (forall|x: &mut ElementSet, r: usize|
                #[trigger] call_ensures(root, (x,), r) ==> Self::builds_on(mut_ref_current(x), mut_ref_future(x)))
                ==> Self::fresh_indices(s),
    {
        let mut set = Self::empty();
        root(&mut set);
        set
    }

    /// Adds a frame that arranges by `layout` the sub-elements that `sub_elements` adds and
    /// returns; the frame's index is handed out before `sub_elements` runs, so it comes before
    /// theirs. Returns the frame's index.
    ///
    /// `sub_elements` is called once, on this set after the index is taken; the frame goes
    /// after whatever it added and lists the indices it returned.
    pub fn new_frame(&mut self, layout: Layout, style: Style, mut sub_elements: impl FnMut(&mut ElementSet) -> Vec<usize>) -> (r: usize)
        requires
            forall|x: &mut ElementSet| call_requires(sub_elements, (x,)),
        ensures
            r == old(self).next_index_spec(),
            exists|x: &mut ElementSet, v: Vec<usize>|
                #![trigger call_ensures(sub_elements, (x,), v)]
                {
                    &&& call_ensures(sub_elements, (x,), v)
                    &&& mut_ref_current(x).elements_seq() == old(self).elements_seq()
                    &&& mut_ref_current(x).render_order_seq() == old(self).render_order_seq()
                    &&& mut_ref_current(x).next_index_spec() == (if r == usize::MAX { 0 } else { r + 1 })
                    &&& Self::pushed(mut_ref_future(x).elements_seq(), final(self).elements_seq(), r, Tag::Frame, v@, style, layout)
                    &&& final(self).next_index_spec() == mut_ref_future(x).next_index_spec()
                    &&& final(self).render_order_seq() == mut_ref_future(x).render_order_seq()
                },
            old(self).next_index_spec() < usize::MAX && (forall|x: &mut ElementSet, v: Vec<usize>|
                #[trigger] call_ensures(sub_elements, (x,), v) ==> Self::builds_on(mut_ref_current(x), mut_ref_future(x)))
                ==> {
                    &&& Self::builds_on(*old(self), *final(self))
                    &&& forall|i: int|
                        old(self).elements_seq().len() <= i < final(self).elements_seq().len() - 1
                            ==> (#[trigger] final(self).elements_seq()[i]).index > r
                },
    {
        let ghost start = *self;
        let index = self.reserve_index();
        let ghost mid0 = *self;
        let elements = sub_elements(self);
        let ghost mid1 = *self;
        self.push_frame(index, layout, style, elements);
        proof {
            if index < usize::MAX {
                Self::lemma_frame_after_building(start, mid0, mid1, *self, index);
            }
        }
        index
    }

    /// Adds a scroll frame around the body element that `body` adds and returns; the frame's
    /// index is handed out before `body` runs. Returns the frame's index.
    ///
    /// `body` is called once, on this set after the index is taken; the frame goes after
    /// whatever it added and lists exactly the index it returned.
    pub fn new_scroll_frame(&mut self, style: Style, mut body: impl FnMut(&mut ElementSet) -> usize) -> (r: usize)
        requires
            forall|x: &mut ElementSet| call_requires(body, (x,)),
        ensures
            r == old(self).next_index_spec(),
            exists|x: &mut ElementSet, b: usize|
                #![trigger call_ensures(body, (x,), b)]
                {
                    &&& call_ensures(body, (x,), b)
                    &&& mut_ref_current(x).elements_seq() == old(self).elements_seq()
                    &&& mut_ref_current(x).render_order_seq() == old(self).render_order_seq()
                    &&& mut_ref_current(x).next_index_spec() == (if r == usize::MAX { 0 } else { r + 1 })
                    &&& Self::pushed(mut_ref_future(x).elements_seq(), final(self).elements_seq(), r, Tag::Frame, seq![b], style, Layout::Scroll)
                    &&& final(self).next_index_spec() == mut_ref_future(x).next_index_spec()
                    &&& final(self).render_order_seq() == mut_ref_future(x).render_order_seq()
                },
            old(self).next_index_spec() < usize::MAX && (forall|x: &mut ElementSet, b: usize|
                #[trigger] call_ensures(body, (x,), b) ==> Self::builds_on(mut_ref_current(x), mut_ref_future(x)))
                ==> {
                    &&& Self::builds_on(*old(self), *final(self))
                    &&& forall|i: int|
                        old(self).elements_seq().len() <= i < final(self).elements_seq().len() - 1
                            ==> (#[trigger] final(self).elements_seq()[i]).index > r
                },
    {
        let ghost start = *self;
        let index = self.reserve_index();
        let ghost mid0 = *self;
        let b = body(self);
        let ghost mid1 = *self;
        self.push_scroll_frame(index, style, b);
        proof {
            if index < usize::MAX {
                Self::lemma_frame_after_building(start, mid0, mid1, *self, index);
            }
        }
        index
    }

    /// A set with no elements.
    pub fn empty() -> (s: Self)
        ensures
            s.elements_seq().len() == 0,
            s.render_order_seq().len() == 0,
            s.next_index_spec() == 0,
    {
        ElementSet { elements: Vec::new(), render_order: Vec::new(), next_index: 0 }
    }

    /// The number of elements.
    pub fn len(&self) -> (r: usize)
        ensures
            r == self.elements_seq().len(),
    {
        self.elements.len()
    }

    /// The element at the first position: the root once the set is sorted.
    pub fn root(&self) -> (r: &Element)
        requires
            self.elements_seq().len() >= 1,
        ensures
            *r == self.elements_seq()[0],
    {
        &self.elements[0]
    }

    /// The element at position `index`.
    pub fn get(&self, index: usize) -> (r: &Element)
        requires
            index < self.elements_seq().len(),
        ensures
            *r == self.elements_seq()[index as int],
    {
        &self.elements[index]
    }

    /// The render order computed so far (empty until computed).
    pub fn render_order(&self) -> (r: &Vec<usize>)
        ensures
            r@ == self.render_order_seq(),
    {
        &self.render_order
    }

    /// Hands out the next element index; the counter wraps around at `usize::MAX`.
    fn reserve_index(&mut self) -> (r: usize)
        ensures
            r == old(self).next_index_spec(),
            final(self).next_index_spec() == (if r == usize::MAX { 0 } else { r + 1 }),
            final(self).elements_seq() == old(self).elements_seq(),
            final(self).render_order_seq() == old(self).render_order_seq(),
    {
        let r = self.next_index;
        self.next_index = if r == usize::MAX { 0 } else { r + 1 };
        r
    }

    /// Adds a frame with the given index, arranging `sub_elements` by `layout`.
    fn push_frame(&mut self, index: usize, layout: Layout, style: Style, sub_elements: Vec<usize>)
        ensures
            Self::pushed(old(self).elements_seq(), final(self).elements_seq(), index, Tag::Frame, sub_elements@, style, layout),
            final(self).next_index_spec() == old(self).next_index_spec(),
            final(self).render_order_seq() == old(self).render_order_seq(),
    {
        let e = Element { index: index, tag: Tag::Frame, layout: layout, style: style, elements: sub_elements };
        self.elements.push(e);
        proof {
            assert(self.elements@.drop_last() =~= old(self).elements@);
        }
    }

    /// Adds a scroll frame with the given index around the element `body`.
    fn push_scroll_frame(&mut self, index: usize, style: Style, body: usize)
        ensures
            Self::pushed(old(self).elements_seq(), final(self).elements_seq(), index, Tag::Frame, seq![body], style, Layout::Scroll),
            final(self).next_index_spec() == old(self).next_index_spec(),
            final(self).render_order_seq() == old(self).render_order_seq(),
    {
        let e = Element { index: index, tag: Tag::Frame, layout: Layout::Scroll, elements: vec![body], style: style };
        self.elements.push(e);
        proof {
            assert(self.elements@.drop_last() =~= old(self).elements@);
            assert(self.elements@.last().elements@ =~= seq![body]);
        }
    }

    /// Adds a label showing `text` in `font`, and returns its index.
    pub fn new_label(&mut self, text: String, font: Font, style: Style) -> (r: usize)
        ensures
            r == old(self).next_index_spec(),
            final(self).next_index_spec() == (if r == usize::MAX { 0 } else { r + 1 }),
            Self::pushed(old(self).elements_seq(), final(self).elements_seq(), r, Tag::Label { text: text, font: font }, seq![], style, Layout::Sequential),
            final(self).render_order_seq() == old(self).render_order_seq(),
            old(self).next_index_spec() < usize::MAX ==> Self::builds_on(*old(self), *final(self)),
    {
        let index = self.reserve_index();
        let e = Element {
            index: index,
            tag: Tag::Label { text, font },
            layout: Layout::Sequential,
            elements: Vec::new(),
            style: style,
        };
        self.elements.push(e);
        proof {
            assert(self.elements@.drop_last() =~= old(self).elements@);
            assert(self.elements@.last().elements@ =~= seq![]);
        }
        index
    }

    /// Sorts the elements by index (ascending), so that, once every reserved index has been
    /// used once, each element sits at the position of its index.
    #[verifier::spinoff_prover]
    #[verifier::rlimit(40)]
    pub fn sort(&mut self) -> (r: &mut Self)
        ensures
            r.elements_seq().len() == old(self).elements_seq().len(),
            r.elements_seq().to_multiset() == old(self).elements_seq().to_multiset(),
            forall|i: int, j: int|
                0 <= i < j < r.elements_seq().len() ==> (#[trigger] r.elements_seq()[i]).index
                    <= (#[trigger] r.elements_seq()[j]).index,
            exists|pi: Seq<int>| stable_permutation(r.elements_seq(), old(self).elements_seq(), pi),
            r.render_order_seq() == old(self).render_order_seq(),
            r.next_index_spec() == old(self).next_index_spec(),
            *final(r) == *final(self),
    {
        broadcast use vstd::seq_lib::group_to_multiset_ensures;
        let n = self.elements.len();
        let ghost orig = self.elements@;
        let ghost mut pi: Seq<int> = Seq::new(n as nat, |k: int| k);
        let mut i: usize = 1;
        while i < n
            invariant
                n == self.elements@.len(),
                1 <= i <= n || n == 0,
                self.elements@.to_multiset() == old(self).elements@.to_multiset(),
                forall|a: int, b: int|
                    0 <= a < b < i && b < n ==> (#[trigger] self.elements@[a]).index <= (#[trigger] self.elements@[b]).index,
                self.render_order@ == old(self).render_order@,
                self.next_index == old(self).next_index,
                orig == old(self).elements@,
                orig.len() == n,
                pi.len() == n,
                forall|k: int| 0 <= k < n ==> 0 <= #[trigger] pi[k] < n && self.elements@[k] == orig[pi[k]],
                forall|a: int, b: int| 0 <= a < b < n ==> #[trigger] pi[a] != #[trigger] pi[b],
                forall|k: int| 0 <= k < n && k < i ==> #[trigger] pi[k] < i,
                forall|k: int| 0 <= k < n && k >= i ==> #[trigger] pi[k] == k,
                forall|a: int, b: int|
                    0 <= a < b < i && b < n && (#[trigger] self.elements@[a]).index == (#[trigger] self.elements@[b]).index
                        ==> pi[a] < pi[b],
            decreases n - i,
        {
            let ghost before = self.elements@;
            let ghost pi0 = pi;
            let e = self.elements.remove(i);
            let mut p: usize = i;
            while p > 0 && self.elements[p - 1].index > e.index
                invariant
                    0 <= p <= i,
                    i < n,
                    before.len() == n,
                    e == before[i as int],
                    self.elements@ == before.remove(i as int),
                    forall|q: int| p <= q < i ==> (#[trigger] self.elements@[q]).index > e.index,
                decreases p,
            {
                p = p - 1;
            }
            self.elements.insert(p, e);
            proof {
                broadcast use vstd::seq_lib::group_to_multiset_ensures;
                lemma_insert_to_multiset(before.remove(i as int), p as int, e);
                assert(before.contains(e)) by { assert(before[i as int] == e); }
                assert(before.remove(i as int).to_multiset() == before.to_multiset().remove(before[i as int]));
                assert(before.to_multiset().contains(e));
                assert(self.elements@.to_multiset() =~= before.to_multiset());
                let cur = self.elements@;
                assert forall|a: int, b: int| 0 <= a < b < i + 1 && b < n implies (#[trigger] cur[a]).index <= (#[trigger] cur[b]).index by {
                    // positions before p: unchanged prefix; p: e; after p: shifted by one
                    if b < p {
                        assert(cur[a] == before[a] && cur[b] == before[b]);
                    } else if b == p {
                        if a < p - 1 {
                            assert(cur[a] == before[a] && cur[p - 1] == before[p - 1]);
                        }
                    } else if a == p {
                        assert(cur[b] == before.remove(i as int)[b - 1]);
                    } else if a < p {
                        assert(cur[a] == before[a]);
                        assert(cur[b] == before.remove(i as int)[b - 1]);
                        assert(before.remove(i as int)[b - 1] == before[b - 1]);
                        assert(before.remove(i as int)[p as int] == before[p as int]);
                        assert(before[p as int].index > e.index);
                    } else {
                        assert(cur[a] == before[a - 1]);
                        assert(cur[b] == before[b - 1]);
                    }
                }
                pi = pi0.remove(i as int).insert(p as int, i as int);
                lemma_insertion_step(before, orig, pi0, i as int, p as int);
            }
            i += 1;
        }
        proof {
            assert(stable_permutation(self.elements@, orig, pi));
        }
        self
    }

    /// Whether the elements form a tree under the root; see `tree_wf`.
    #[verifier::spinoff_prover]
    pub fn is_well_formed(&self) -> (r: bool)
        ensures
            r == tree_wf(self.elements_seq()),
    {
        let ghost els = self.elements@;
        let n = self.elements.len();
        if n == 0 {
            return false;
        }
        // seen[c]: whether `c` has been met as a sub-element so far
        let mut seen: Vec<bool> = Vec::new();
        while seen.len() < n
            invariant
                seen@.len() <= n,
                forall|c: int| 0 <= c < seen@.len() ==> !#[trigger] seen@[c],
            decreases n - seen@.len(),
        {
            seen.push(false);
        }
        let mut i: usize = 0;
        while i < n
            invariant
                els == self.elements@,
                n == els.len(),
                seen@.len() == n,
                0 <= i <= n,
                forall|a: int| 0 <= a < i ==> (#[trigger] els[a]).index == a,
                forall|a: int, b: int| pair_before(els, a, b, i as int, 0) ==> 0 < #[trigger] els[a].elements@[b] < n,
                forall|a1: int, b1: int, a2: int, b2: int|
                    pair_before(els, a1, b1, i as int, 0) && pair_before(els, a2, b2, i as int, 0)
                        && #[trigger] els[a1].elements@[b1] == #[trigger] els[a2].elements@[b2] ==> a1 == a2 && b1 == b2,
                forall|c: int|
                    0 <= c < n ==> (#[trigger] seen@[c] <==> exists|a: int, b: int|
                        pair_before(els, a, b, i as int, 0) && els[a].elements@[b] == c),
            decreases n - i,
        {
            let e = &self.elements[i];
            if e.index != i {
                return false;
            }
            let mut j: usize = 0;
            while j < e.elements.len()
                invariant
                    els == self.elements@,
                    n == els.len(),
                    seen@.len() == n,
                    i < n,
                    *e == els[i as int],
                    0 <= j <= e.elements@.len(),
                    forall|a: int, b: int| pair_before(els, a, b, i as int, j as int) ==> 0 < #[trigger] els[a].elements@[b] < n,
                    forall|a1: int, b1: int, a2: int, b2: int|
                        pair_before(els, a1, b1, i as int, j as int) && pair_before(els, a2, b2, i as int, j as int)
                            && #[trigger] els[a1].elements@[b1] == #[trigger] els[a2].elements@[b2] ==> a1 == a2 && b1 == b2,
                    forall|c: int|
                        0 <= c < n ==> (#[trigger] seen@[c] <==> exists|a: int, b: int|
                            pair_before(els, a, b, i as int, j as int) && els[a].elements@[b] == c),
                decreases e.elements@.len() - j,
            {
                let c = e.elements[j];
                if c == 0 || c >= n {
                    proof {
                        assert(els[i as int].elements@[j as int] == c);
                    }
                    return false;
                }
                if seen[c] {
                    proof {
                        let (a, b) = choose|a: int, b: int| pair_before(els, a, b, i as int, j as int) && els[a].elements@[b] == c as int;
                        assert(els[a].elements@[b] == els[i as int].elements@[j as int]);
                        assert(!unique_parents(els));
                    }
                    return false;
                }
                let ghost seen0 = seen@;
                seen.set(c, true);
                proof {
                    assert forall|a: int, b: int| pair_before(els, a, b, i as int, j + 1) implies 0 < #[trigger] els[a].elements@[b] < n by {
                        if !pair_before(els, a, b, i as int, j as int) {
                            assert(a == i && b == j);
                        }
                    }
                    assert forall|a1: int, b1: int, a2: int, b2: int|
                        pair_before(els, a1, b1, i as int, j + 1) && pair_before(els, a2, b2, i as int, j + 1)
                            && #[trigger] els[a1].elements@[b1] == #[trigger] els[a2].elements@[b2] implies a1 == a2 && b1 == b2 by {
                        if !pair_before(els, a1, b1, i as int, j as int) {
                            assert(a1 == i && b1 == j);
                            if pair_before(els, a2, b2, i as int, j as int) {
                                assert(seen0[c as int]);
                            }
                        }
                        if !pair_before(els, a2, b2, i as int, j as int) {
                            assert(a2 == i && b2 == j);
                        }
                    }
                    assert forall|x: int|
                        0 <= x < n implies (#[trigger] seen@[x] <==> exists|a: int, b: int|
                            pair_before(els, a, b, i as int, j + 1) && els[a].elements@[b] == x) by {
                        if x == c {
                            assert(pair_before(els, i as int, j as int, i as int, j + 1));
                        } else {
                            if exists|a: int, b: int| pair_before(els, a, b, i as int, j + 1) && els[a].elements@[b] == x {
                                let (a, b) = choose|a: int, b: int| pair_before(els, a, b, i as int, j + 1) && els[a].elements@[b] == x;
                                assert(pair_before(els, a, b, i as int, j as int));
                            }
                        }
                    }
                }
                j += 1;
            }
            proof {
                assert forall|a: int, b: int| pair_before(els, a, b, i + 1, 0) <==> pair_before(els, a, b, i as int, j as int) by {}
            }
            i += 1;
        }
        proof {
            assert forall|a: int, b: int| 0 <= a < n && 0 <= b < els[a].elements@.len() implies pair_before(els, a, b, n as int, 0) by {}
        }
        true
    }

    /// Computes the breadth-first order of the elements reachable from the root, as their
    /// indices.
    #[verifier::spinoff_prover]
    #[verifier::rlimit(40)]
    fn breadth_first_order(&self) -> (r: Vec<usize>)
        requires
            walk_ends(self.elements_seq()),
        ensures
            r@ == walk_order(self.elements_seq()),
    {
        let ghost els = self.elements@;
        let ghost whole = render_order_of(els);
        let mut render_order: Vec<usize> = Vec::new();
        let mut queue: VecDeque<usize> = VecDeque::new();
        queue.push_back(0usize);
        let ghost mut taken: Seq<usize> = Seq::empty();
        proof {
            assert(is_render_order(els, whole));
            assert(taken + queue@ =~= seq![0usize] + children_concat(els, taken));
            assert(render_order@ =~= taken.map_values(|x: usize| els[x as int].index));
        }

        // Take elements from the front of the queue and put their sub-elements at its back:
        // every element comes after the element that holds it, so measuring in reverse order
        // finds the measures of its sub-elements ready
        while queue.len() != 0
            invariant
                els == self.elements@,
                whole == render_order_of(els),
                is_render_order(els, whole),
                walk_state(els, taken, queue@),
                render_order@ == taken.map_values(|x: usize| els[x as int].index),
            decreases whole.len() - taken.len(),
        {
            proof {
                lemma_walk_prefix(els, taken, queue@, whole);
            }
            let ghost old_q = queue@;
            let next = queue.pop_front().unwrap();
            proof {
                assert(next == whole[taken.len() as int]);
                assert(next < els.len());
            }
            let next_el = &self.elements[next];
            proof {
                assert(queue@ =~= old_q.drop_first() + next_el.elements@.take(0));
            }

            // Its sub-elements wait behind those already queued
            let mut i: usize = 0;
            while i < next_el.elements.len()
                invariant
                    *next_el == els[next as int],
                    0 <= i <= next_el.elements@.len(),
                    queue@ == old_q.drop_first() + next_el.elements@.take(i as int),
                decreases next_el.elements@.len() - i,
            {
                proof {
                    assert(next_el.elements@.take(i + 1) =~= next_el.elements@.take(i as int).push(next_el.elements@[i as int]));
                }
                queue.push_back(next_el.elements[i]);
                i += 1;
            }
            render_order.push(next_el.index);
            proof {
                assert(next_el.elements@.take(next_el.elements@.len() as int) =~= next_el.elements@);
                lemma_walk_step(els, taken, old_q);
                taken = taken.push(next);
                assert(render_order@ =~= taken.map_values(|x: usize| els[x as int].index));
            }
        }
        proof {
            lemma_walk_prefix(els, taken, queue@, whole);
        }
        render_order
    }

    /// Computes the render order: the breadth-first order of the elements reachable from the
    /// root, as their indices; an element listed by several frames comes once for each path to
    /// it.
    pub fn update_render_ordering(&mut self)
        requires
            walk_ends(old(self).elements_seq()),
        ensures
            final(self).elements_seq() == old(self).elements_seq(),
            final(self).next_index_spec() == old(self).next_index_spec(),
            final(self).render_order_seq() == walk_order(old(self).elements_seq()),
    {
        let render_order = self.breadth_first_order();
        self.render_order = render_order;
    }

    /// Whether the stored render order is the breadth-first order of the current elements.
    pub fn render_order_is_valid(&self) -> (r: bool)
        requires
            walk_ends(self.elements_seq()),
        ensures
            r == (self.render_order_seq() == walk_order(self.elements_seq())),
    {
        let fresh = self.breadth_first_order();
        if fresh.len() != self.render_order.len() {
            proof {
                assert(fresh@.len() != self.render_order@.len());
            }
            return false;
        }
        let mut i: usize = 0;
        while i < fresh.len()
            invariant
                fresh@ == walk_order(self.elements_seq()),
                fresh@.len() == self.render_order@.len(),
                0 <= i <= fresh@.len(),
                forall|k: int| 0 <= k < i ==> fresh@[k] == self.render_order@[k],
            decreases fresh@.len() - i,
        {
            if fresh[i] != self.render_order[i] {
                proof {
                    assert(fresh@[i as int] != self.render_order@[i as int]);
                }
                return false;
            }
            i += 1;
        }
        proof {
            assert(fresh@ =~= self.render_order@);
        }
        true
    }

    /// Whether each element in the render order can be measured without overflow, given the
    /// text sizes `ts`.
    pub open spec fn can_measure(&self, ts: Seq<Vec2i>) -> bool {
        measurable(self.elements_seq(), self.render_order_seq(), ts)
    }

    /// What measuring asks the measure context about the element at position `index`: for a
    /// label, its text and its font size; nothing for any other element.
    pub fn text_to_measure(&self, index: usize) -> (r: Option<(&str, i32)>)
        requires
            index < self.elements_seq().len(),
        ensures
            match self.elements_seq()[index as int].tag {
                Tag::Label { text, font } => r matches Some(p) && p.0@ == text@ && p.1 == font.size,
                _ => r is None,
            },
    {
        match &self.elements[index].tag {
            Tag::Label { text, font } => Some((text.as_str(), font.size)),
            _ => None,
        }
    }

    /// Whether `size` is what `context` can answer when asked how large `text` is at font size
    /// `font_size`.
    pub open spec fn is_text_size<C: MeasureContext>(context: &C, text: Seq<char>, font_size: i32, size: Vec2i) -> bool {
        exists|t: &str| t@ == text && call_ensures(C::calculate_text_size, (context, t, font_size), (size.x, size.y))
    }

    /// The size of each label's text as `context` measures it, by element position; zero for
    /// the other elements. For each label, `context` is asked once about the label's text and
    /// font size (what `text_to_measure` gives for it), and its answer is the entry.
    pub fn text_sizes<C: MeasureContext>(&self, context: &C) -> (r: Vec<Vec2i>)
        ensures
            r@.len() == self.elements_seq().len(),
            forall|i: int|
                0 <= i < r@.len() ==> match self.elements_seq()[i].tag {
                    Tag::Label { text, font } => Self::is_text_size(context, text@, font.size, #[trigger] r@[i]),
                    _ => r@[i] == (Vec2i { x: 0, y: 0 }),
                },
    {
        let mut sizes: Vec<Vec2i> = Vec::new();
        let mut i: usize = 0;
        while i < self.elements.len()
            invariant
                0 <= i <= self.elements@.len(),
                sizes@.len() == i,
                forall|a: int|
                    0 <= a < i ==> match self.elements@[a].tag {
                        Tag::Label { text, font } => Self::is_text_size(context, text@, font.size, #[trigger] sizes@[a]),
                        _ => sizes@[a] == (Vec2i { x: 0, y: 0 }),
                    },
            decreases self.elements@.len() - i,
        {
            let size = match self.text_to_measure(i) {
                Some((text, font_size)) => {
                    let (w, h) = context.calculate_text_size(text, font_size);
                    proof {
                        assert(call_ensures(C::calculate_text_size, (context, text, font_size), (w, h)));
                    }
                    Vec2i::new(w, h)
                },
                None => Vec2i::zero(),
            };
            sizes.push(size);
            i += 1;
        }
        sizes
    }

    /// Whether each element in the render order can be measured without overflow, given the
    /// text sizes `text_sizes`; see `can_measure`.
    #[verifier::spinoff_prover]
    #[verifier::rlimit(40)]
    pub fn can_measure_exec(&self, text_sizes: &Vec<Vec2i>) -> (r: bool)
        requires
            is_render_order(self.elements_seq(), self.render_order_seq()),
            text_sizes@.len() == self.elements_seq().len(),
        ensures
            r == self.can_measure(text_sizes@),
    {
        let ghost els = self.elements@;
        let ghost ro = self.render_order@;
        let ghost ts = text_sizes@;
        let n = self.elements.len();
        let mut measures: Vec<ElementMeasure> = Vec::new();
        let mut i: usize = 0;
        while i < n
            invariant
                0 <= i <= n,
                measures@.len() == i,
                forall|a: int| 0 <= a < i ==> #[trigger] measures@[a] == ElementMeasure::zero_spec(),
            decreases n - i,
        {
            measures.push(ElementMeasure { position: Vec2i::zero(), size: Vec2i::zero(), inner_box: RenderBox::zero() });
            i += 1;
        }
        proof {
            assert(measures@ =~= measured_from(els, ts, ro, ro.len() as int));
        }
        let mut k: usize = self.render_order.len();
        while k > 0
            invariant
                els == self.elements@,
                ro == self.render_order@,
                ts == text_sizes@,
                n == els.len(),
                is_render_order(els, ro),
                ts.len() == n,
                0 <= k <= ro.len(),
                measures@ == measured_from(els, ts, ro, k as int),
                forall|q: int|
                    k <= q < ro.len() ==> {
                        let i = #[trigger] ro[q] as int;
                        measure_fits(els[i], sub_measures(els[i], measured_from(els, ts, ro, q + 1)), ts[i])
                    },
            decreases k,
        {
            k -= 1;
            let element_index = self.render_order[k];
            let element = &self.elements[element_index];
            proof {
                lemma_measured_len(els, ts, ro, k + 1);
            }
            let mut sub_element_measures: Vec<ElementMeasure> = Vec::new();
            let mut j: usize = 0;
            while j < element.elements.len()
                invariant
                    *element == els[element_index as int],
                    element_index == ro[k as int],
                    (element_index as int) < els.len(),
                    0 <= k < ro.len(),
                    is_render_order(els, ro),
                    n == els.len(),
                    measures@.len() == n,
                    0 <= j <= element.elements@.len(),
                    sub_element_measures@.len() == j,
                    forall|b: int| 0 <= b < j ==> #[trigger] sub_element_measures@[b] == measures@[element.elements@[b] as int],
                decreases element.elements@.len() - j,
            {
                let c = element.elements[j];
                proof {
                    let p = lemma_children_listed_later(els, ro, k as int, j as int);
                    assert(ro[p] == c);
                }
                sub_element_measures.push(measures[c]);
                j += 1;
            }
            proof {
                assert(sub_element_measures@ =~= sub_measures(els[element_index as int], measures@));
            }
            if !Element::can_measure_element(element, sub_element_measures.as_slice(), text_sizes[element_index]) {
                proof {
                    assert(!measure_fits(els[ro[k as int] as int], sub_measures(els[ro[k as int] as int], measured_from(els, ts, ro, k + 1)), ts[ro[k as int] as int]));
                }
                return false;
            }
            let m = Element::measure_element(element, sub_element_measures.as_slice(), text_sizes[element_index]);
            measures.set(element_index, m);
        }
        true
    }

    /// Measures the elements, sub-elements before the elements that hold them (in reverse render
    /// order), and returns the measures by element position. `text_sizes` holds, for each
    /// label, the size of its text. Each element in the render order gets `measure_spec` of the
    /// measures its sub-elements have at its turn and its text size (see `measured`); the others
    /// stay zero. In a tree those are the measures its sub-elements end with.
    #[verifier::spinoff_prover]
    #[verifier::rlimit(40)]
    pub fn measure(&self, text_sizes: &Vec<Vec2i>) -> (r: Vec<ElementMeasure>)
        requires
            is_render_order(self.elements_seq(), self.render_order_seq()),
            text_sizes@.len() == self.elements_seq().len(),
            self.can_measure(text_sizes@),
        ensures
            r@ == measured(self.elements_seq(), self.render_order_seq(), text_sizes@),
            r@.len() == self.elements_seq().len(),
            tree_wf(self.elements_seq()) ==> forall|i: int|
                0 <= i < r@.len() ==> #[trigger] r@[i] == (if self.render_order_seq().contains(i as usize) {
                    measure_spec(self.elements_seq()[i], sub_measures(self.elements_seq()[i], r@), text_sizes@[i])
                } else {
                    ElementMeasure::zero_spec()
                }),
    {
        let ghost els = self.elements@;
        let ghost ro = self.render_order@;
        let ghost ts = text_sizes@;
        let n = self.elements.len();
        let mut measures: Vec<ElementMeasure> = Vec::new();
        let mut i: usize = 0;
        while i < n
            invariant
                0 <= i <= n,
                measures@.len() == i,
                forall|a: int| 0 <= a < i ==> #[trigger] measures@[a] == ElementMeasure::zero_spec(),
            decreases n - i,
        {
            measures.push(ElementMeasure {
                position: Vec2i::zero(),
                size: Vec2i::zero(),
                inner_box: RenderBox::zero(),
            });
            i += 1;
        }
        proof {
            assert(measures@ =~= measured_from(els, ts, ro, ro.len() as int));
        }

        // Each element is measured after its sub-elements (reverse render order), and its
        // measure is stored at its position in the set
        let mut k: usize = self.render_order.len();
        while k > 0
            invariant
                els == self.elements@,
                ro == self.render_order@,
                ts == text_sizes@,
                n == els.len(),
                is_render_order(els, ro),
                ts.len() == n,
                self.can_measure(ts),
                0 <= k <= ro.len(),
                measures@ == measured_from(els, ts, ro, k as int),
            decreases k,
        {
            k -= 1;
            let element_index = self.render_order[k];
            let element = &self.elements[element_index];
            proof {
                lemma_measured_len(els, ts, ro, k + 1);
            }

            // The measures of the sub-elements, in the order the element lists them
            let mut sub_element_measures: Vec<ElementMeasure> = Vec::new();
            let mut j: usize = 0;
            while j < element.elements.len()
                invariant
                    *element == els[element_index as int],
                    element_index == ro[k as int],
                    (element_index as int) < els.len(),
                    0 <= k < ro.len(),
                    is_render_order(els, ro),
                    n == els.len(),
                    measures@.len() == n,
                    0 <= j <= element.elements@.len(),
                    sub_element_measures@.len() == j,
                    forall|b: int| 0 <= b < j ==> #[trigger] sub_element_measures@[b] == measures@[element.elements@[b] as int],
                decreases element.elements@.len() - j,
            {
                let c = element.elements[j];
                proof {
                    let p = lemma_children_listed_later(els, ro, k as int, j as int);
                    assert(ro[p] == c);
                }
                sub_element_measures.push(measures[c]);
                j += 1;
            }
            proof {
                assert(sub_element_measures@ =~= sub_measures(els[element_index as int], measures@));
                let kk = k as int;
                let i2 = ro[kk] as int;
                assert(i2 == element_index);
                assert(measure_fits(els[i2], sub_measures(els[i2], measured_from(els, ts, ro, kk + 1)), ts[i2]));
            }

            let m = Element::measure_element(element, sub_element_measures.as_slice(), text_sizes[element_index]);
            measures.set(element_index, m);
        }
        proof {
            lemma_measured_len(els, ts, ro, 0);
            if tree_wf(els) {
                assert forall|i: int| 0 <= i < n implies #[trigger] measures@[i] == (if ro.contains(i as usize) {
                    measure_spec(els[i], sub_measures(els[i], measures@), ts[i])
                } else {
                    ElementMeasure::zero_spec()
                }) by {
                    lemma_measured_fixpoint(els, ts, ro, i);
                }
            }
        }
        measures
    }

    /// Whether arranging, starting from `ms`, computes without overflow or division by zero at
    /// each element of the render order.
    pub open spec fn can_arrange(&self, ms: Seq<ElementMeasure>) -> bool {
        arrangeable(self.elements_seq(), self.render_order_seq(), ms)
    }

    /// Whether arranging, starting from `measures`, computes without overflow or division by
    /// zero at each element of the render order; see `can_arrange`.
    #[verifier::spinoff_prover]
    #[verifier::rlimit(40)]
    pub fn can_arrange_exec(&self, measures: &Vec<ElementMeasure>) -> (r: bool)
        requires
            is_render_order(self.elements_seq(), self.render_order_seq()),
            measures@.len() == self.elements_seq().len(),
        ensures
            r == self.can_arrange(measures@),
    {
        let ghost els = self.elements@;
        let ghost ro = self.render_order@;
        let ghost ms0 = measures@;
        let mut sim: Vec<ElementMeasure> = Vec::new();
        let mut i: usize = 0;
        while i < measures.len()
            invariant
                ms0 == measures@,
                0 <= i <= ms0.len(),
                sim@ == ms0.take(i as int),
            decreases ms0.len() - i,
        {
            sim.push(measures[i]);
            proof {
                assert(ms0.take(i + 1) =~= ms0.take(i as int).push(ms0[i as int]));
            }
            i += 1;
        }
        proof {
            assert(ms0.take(ms0.len() as int) =~= ms0);
            assert(ro.take(0) =~= Seq::<usize>::empty());
        }
        let mut k: usize = 0;
        while k < self.render_order.len()
            invariant
                els == self.elements@,
                ro == self.render_order@,
                is_render_order(els, ro),
                ms0 == measures@,
                ms0.len() == els.len(),
                0 <= k <= ro.len(),
                sim@ == arranged(els, ms0, ro.take(k as int)),
                sim@.len() == els.len(),
                forall|q: int|
                    0 <= q < k ==> {
                        let i = #[trigger] ro[q] as int;
                        let prev = arranged(els, ms0, ro.take(q));
                        arrange_fits(els[i], prev[i], prev)
                    },
            decreases ro.len() - k,
        {
            let element_index = self.render_order[k];
            let element = &self.elements[element_index];
            let measure = sim[element_index];
            proof {
                assert(ro.take(k + 1).drop_last() =~= ro.take(k as int));
                assert(self.render_order_seq()[k as int] == element_index);
            }
            if !Element::can_arrange_element_content(element, &measure, &sim) {
                proof {
                    let x = ro[k as int] as int;
                    let prev = arranged(els, ms0, ro.take(k as int));
                    assert(!arrange_fits(els[x], prev[x], prev));
                }
                return false;
            }
            proof {
                lemma_arrange_spec_len(els[element_index as int], measure, sim@);
            }
            Element::arrange_element_content(element, &measure, &mut sim);
            k += 1;
        }
        true
    }

    // All positions are relative to the root element
    // Absolute positions are determined during rendering by applying an offset
    /// Places the sub-elements of each element in render order (so an element is placed before
    /// its sub-elements are); see `arranged`.
    #[verifier::spinoff_prover]
    #[verifier::rlimit(40)]
    pub fn arrange(&self, measures: &mut Vec<ElementMeasure>)
        requires
            is_render_order(self.elements_seq(), self.render_order_seq()),
            old(measures)@.len() == self.elements_seq().len(),
            self.can_arrange(old(measures)@),
        ensures
            final(measures)@ == arranged(self.elements_seq(), old(measures)@, self.render_order_seq()),
    {
        let ghost els = self.elements@;
        let ghost ro = self.render_order@;
        let ghost ms0 = measures@;
        proof {
            assert(ro.take(0) =~= Seq::<usize>::empty());
        }
        let mut k: usize = 0;
        while k < self.render_order.len()
            invariant
                els == self.elements@,
                ro == self.render_order@,
                is_render_order(els, ro),
                ms0.len() == els.len(),
                self.can_arrange(ms0),
                0 <= k <= ro.len(),
                measures@ == arranged(els, ms0, ro.take(k as int)),
                measures@.len() == els.len(),
            decreases ro.len() - k,
        {
            let element_index = self.render_order[k];
            let element = &self.elements[element_index];
            let measure = measures[element_index];
            proof {
                assert(ro.take(k + 1).drop_last() =~= ro.take(k as int));
                let prev = arranged(els, ms0, ro.take(k as int));
                assert(self.render_order_seq()[k as int] == element_index);
                assert(arrange_fits(els[element_index as int], prev[element_index as int], prev));
                lemma_arrange_spec_len(els[element_index as int], measure, prev);
            }
            Element::arrange_element_content(element, &measure, measures);
            k += 1;
        }
        proof {
            assert(ro.take(ro.len() as int) =~= ro);
        }
    }

    /// Whether rendering, with measures `ms`, scroll offsets `sc` and offset `offset`, stays
    /// within `i32` and finds a body in each scroll frame.
    pub open spec fn can_render(&self, ms: Seq<ElementMeasure>, sc: Seq<i32>, offset: Vec2i) -> bool {
        renderable(self.elements_seq(), self.render_order_seq(), ms, sc, offset)
    }

    /// Whether rendering, with measures `measures`, scroll offsets `scroll_offsets` and offset
    /// `offset` (zero if `None`), stays within `i32` and finds a body in each scroll frame; see
    /// `can_render`.
    #[verifier::spinoff_prover]
    #[verifier::rlimit(40)]
    pub fn can_render_exec(&self, offset: Option<Vec2i>, measures: &Vec<ElementMeasure>, scroll_offsets: &Vec<i32>) -> (r: bool)
        requires
            is_render_order(self.elements_seq(), self.render_order_seq()),
            measures@.len() == self.elements_seq().len(),
            scroll_offsets@.len() == self.elements_seq().len(),
        ensures
            r == self.can_render(measures@, scroll_offsets@, crate::render::offset_or_zero(offset)),
    {
        let off = match offset {
            Some(o) => o,
            None => Vec2i::zero(),
        };
        assert(off == crate::render::offset_or_zero(offset));
        let ghost els = self.elements@;
        let ghost ro = self.render_order@;
        let ghost ms = measures@;
        let ghost sc = scroll_offsets@;
        let mut clip_map: HashMap<usize, (RenderBox, Vec2i)> = HashMap::new();
        let mut ops: Vec<DrawOp> = Vec::new();
        proof {
            broadcast use vstd::std_specs::hash::group_hash_axioms;
            assert(ro.take(0) =~= Seq::<usize>::empty());
            assert(clip_map@ == Map::<usize, (RenderBox, Vec2i)>::empty());
        }
        let mut k: usize = 0;
        while k < self.render_order.len()
            invariant
                els == self.elements@,
                ro == self.render_order@,
                ms == measures@,
                sc == scroll_offsets@,
                is_render_order(els, ro),
                off == crate::render::offset_or_zero(offset),
                ms.len() == els.len(),
                sc.len() == els.len(),
                0 <= k <= ro.len(),
                ops@ == rendered(els, ms, sc, off, ro.take(k as int)).0,
                clip_map@ == rendered(els, ms, sc, off, ro.take(k as int)).1,
                forall|q: int|
                    0 <= q < k ==> {
                        let i = #[trigger] ro[q];
                        let prev = rendered(els, ms, sc, off, ro.take(q));
                        render_step_fits(els[i as int], ms[i as int], off, sc[i as int], i, prev.1)
                    },
            decreases ro.len() - k,
        {
            let element_index = self.render_order[k];
            let element = &self.elements[element_index];
            let measure = measures[element_index];
            proof {
                assert(ro.take(k + 1).drop_last() =~= ro.take(k as int));
                assert(self.render_order_seq()[k as int] == element_index);
            }
            if !Element::can_render_step(element, element_index, &measure, off, scroll_offsets[element_index], &clip_map) {
                proof {
                    let i = ro[k as int];
                    let prev = rendered(els, ms, sc, off, ro.take(k as int));
                    assert(!render_step_fits(els[i as int], ms[i as int], off, sc[i as int], i, prev.1));
                }
                return false;
            }
            Element::render_step_exec(element, element_index, &measure, off, scroll_offsets[element_index], &mut clip_map, &mut ops);
            k += 1;
        }
        true
    }

    /// The operations that draw the elements in render order; see `rendered`. `offset` (zero
    /// if `None`) shifts every element outside a scroll frame; `scroll_offsets` holds, for each
    /// scroll frame, how far its body is scrolled down.
    #[verifier::spinoff_prover]
    #[verifier::rlimit(40)]
    pub fn render(&self, offset: Option<Vec2i>, measures: &Vec<ElementMeasure>, scroll_offsets: &Vec<i32>) -> (r: Vec<DrawOp>)
        requires
            is_render_order(self.elements_seq(), self.render_order_seq()),
            measures@.len() == self.elements_seq().len(),
            scroll_offsets@.len() == self.elements_seq().len(),
            self.can_render(measures@, scroll_offsets@, crate::render::offset_or_zero(offset)),
        ensures
            r@ == rendered(
                self.elements_seq(),
                measures@,
                scroll_offsets@,
                crate::render::offset_or_zero(offset),
                self.render_order_seq(),
            ).0,
    {
        let offset = match offset {
            Some(o) => o,
            None => Vec2i::zero(),
        };
        let ghost els = self.elements@;
        let ghost ro = self.render_order@;
        let ghost ms = measures@;
        let ghost sc = scroll_offsets@;

        // Bind element index to clip box and render offset
        let mut clip_map: HashMap<usize, (RenderBox, Vec2i)> = HashMap::new();
        let mut ops: Vec<DrawOp> = Vec::new();
        proof {
            broadcast use vstd::std_specs::hash::group_hash_axioms;
            assert(ro.take(0) =~= Seq::<usize>::empty());
            assert(clip_map@ == Map::<usize, (RenderBox, Vec2i)>::empty());
        }

        let mut k: usize = 0;
        while k < self.render_order.len()
            invariant
                els == self.elements@,
                ro == self.render_order@,
                ms == measures@,
                sc == scroll_offsets@,
                is_render_order(els, ro),
                ms.len() == els.len(),
                sc.len() == els.len(),
                self.can_render(ms, sc, offset),
                0 <= k <= ro.len(),
                ops@ == rendered(els, ms, sc, offset, ro.take(k as int)).0,
                clip_map@ == rendered(els, ms, sc, offset, ro.take(k as int)).1,
            decreases ro.len() - k,
        {
            let element_index = self.render_order[k];
            let element = &self.elements[element_index];
            let measure = measures[element_index];
            let ghost prev = rendered(els, ms, sc, offset, ro.take(k as int));
            proof {
                assert(ro.take(k + 1).drop_last() =~= ro.take(k as int));
                assert(self.render_order_seq()[k as int] == element_index);
                assert(render_step_fits(els[element_index as int], ms[element_index as int], offset, sc[element_index as int], element_index, prev.1));
            }
            Element::render_step_exec(element, element_index, &measure, offset, scroll_offsets[element_index], &mut clip_map, &mut ops);
            proof {
                assert(ops@ == rendered(els, ms, sc, offset, ro.take(k + 1)).0);
                assert(clip_map@ == rendered(els, ms, sc, offset, ro.take(k + 1)).1);
            }
            k += 1;
        }
        proof {
            assert(ro.take(ro.len() as int) =~= ro);
        }
        ops
    }

    /// Whether a frame can be processed: each element holds its position as its index, the
    /// walk from the root ends, the stored render order is empty or current, there is a text size and a scroll offset for each element, and
    /// measuring, arranging and rendering in the render order stay within `i32` (and find a
    /// body in each scroll frame).
    pub open spec fn can_process_frame(&self, offset: Option<Vec2i>, ts: Seq<Vec2i>, sc: Seq<i32>) -> bool {
        let els = self.elements_seq();
        let ro = render_order_of(els);
        let ms = measured(els, ro, ts);
        &&& indices_are_positions(els)
        &&& walk_ends(els)
        &&& (self.render_order_seq().len() == 0 || self.render_order_seq() == walk_order(els))
        &&& ts.len() == els.len()
        &&& sc.len() == els.len()
        &&& measurable(els, ro, ts)
        &&& arrangeable(els, ro, ms)
        &&& renderable(els, ro, arranged(els, ms, ro), sc, crate::render::offset_or_zero(offset))
    }

    /// Runs the layout of one frame as `process_frame` does where the set is a tree (see
    /// `tree_wf`, which it checks) and `can_process_frame` holds, and returns `None` where
    /// either fails. Either way the elements stay as they are; the render order is computed
    /// where it was empty and the set is a tree.
    pub fn try_process_frame(&mut self, offset: Option<Vec2i>, text_sizes: &Vec<Vec2i>, scroll_offsets: &Vec<i32>) -> (r: Option<Vec<DrawOp>>)
        ensures
            final(self).elements_seq() == old(self).elements_seq(),
            final(self).next_index_spec() == old(self).next_index_spec(),
            final(self).render_order_seq() == old(self).render_order_seq()
                || final(self).render_order_seq() == render_order_of(old(self).elements_seq()),
            r is Some <==> tree_wf(old(self).elements_seq()) && old(self).can_process_frame(offset, text_sizes@, scroll_offsets@),
            r matches Some(ops) ==> {
                let els = old(self).elements_seq();
                let ro = render_order_of(els);
                let ms = measured(els, ro, text_sizes@);
                &&& final(self).render_order_seq() == ro
                &&& ops@ == rendered(els, arranged(els, ms, ro), scroll_offsets@, crate::render::offset_or_zero(offset), ro).0
            },
    {
        let ghost els = self.elements@;
        if !self.is_well_formed() {
            return None;
        }
        proof {
            lemma_tree_walk_ends(els);
            lemma_walk_order_positions(els);
        }
        if self.render_order.len() != 0 && !self.render_order_is_valid() {
            return None;
        }
        if text_sizes.len() != self.elements.len() || scroll_offsets.len() != self.elements.len() {
            return None;
        }
        self.update();
        proof {
            lemma_render_order_children_in_range(els, self.render_order@);
        }
        if !self.can_measure_exec(text_sizes) {
            return None;
        }
        let mut measures = self.measure(text_sizes);
        let ghost ms = measures@;
        if !self.can_arrange_exec(&measures) {
            return None;
        }
        self.arrange(&mut measures);
        proof {
            lemma_arranged_len(els, ms, self.render_order@);
        }
        if !self.can_render_exec(offset, &measures, scroll_offsets) {
            return None;
        }
        Some(self.render(offset, &measures, scroll_offsets))
    }

    /// Runs the layout of one frame: computes the render order if needed, measures the elements
    /// (with `text_sizes` for the labels), arranges them, and returns the operations that draw
    /// them at `offset` with the scroll offsets `scroll_offsets`.
    pub fn process_frame(&mut self, offset: Option<Vec2i>, text_sizes: &Vec<Vec2i>, scroll_offsets: &Vec<i32>) -> (r: Vec<DrawOp>)
        requires
            old(self).can_process_frame(offset, text_sizes@, scroll_offsets@),
        ensures
            final(self).elements_seq() == old(self).elements_seq(),
            final(self).next_index_spec() == old(self).next_index_spec(),
            final(self).render_order_seq() == render_order_of(old(self).elements_seq()),
            is_render_order(final(self).elements_seq(), final(self).render_order_seq()),
            ({
                let els = old(self).elements_seq();
                let ro = render_order_of(els);
                let ms = measured(els, ro, text_sizes@);
                r@ == rendered(els, arranged(els, ms, ro), scroll_offsets@, crate::render::offset_or_zero(offset), ro).0
            }),
    {
        // 1. Update elements (reverse render order)
        self.update();
        proof {
            let els = self.elements@;
            lemma_walk_order_positions(els);
            lemma_render_order_children_in_range(els, self.render_order@);
        }

        // 2. Measure elements (reverse render order)
        let mut measures = self.measure(text_sizes);
        proof {
            assert(measures@ =~= measured(self.elements@, self.render_order@, text_sizes@));
        }

        // 3. Arrange elements (render order)
        let ghost before_arrange = measures@;
        self.arrange(&mut measures);
        proof {
            lemma_arranged_len(self.elements@, before_arrange, self.render_order@);
        }

        // 4. Render elements (render order)
        self.render(offset, &measures, scroll_offsets)
    }

    /// Calculates the render order if it has not been calculated yet.
    pub fn update(&mut self)
        requires
            old(self).render_order_seq().len() == 0 ==> walk_ends(old(self).elements_seq()),
        ensures
            final(self).elements_seq() == old(self).elements_seq(),
            final(self).next_index_spec() == old(self).next_index_spec(),
            old(self).render_order_seq().len() != 0 ==> final(self).render_order_seq() == old(self).render_order_seq(),
            old(self).render_order_seq().len() == 0 ==> final(self).render_order_seq() == walk_order(old(self).elements_seq()),
    {
        // Calculate render order as needed
        // Will be cleared when an element needs to trigger ordering changes
        if self.render_order.len() == 0 {
            self.update_render_ordering();
        }
    }
}

} // verus!
